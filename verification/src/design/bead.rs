//! Reading the value of a ferrite bead: which of its tokens is the impedance, and at what
//! frequency it is rated.
use vstd::prelude::*;

use super::value::{count_dots, is_number_char, lemma_number_len, number_char, number_len};
use super::value::{is_unit_char, spells_number, strip_long_unit_word, unit_char, without_word};
use crate::text::{ascii_lower, ascii_lower_text, ascii_lowered, chars_of, fields, is_digit};
use crate::text::{alphanumeric, copy_text, is_letter, lower_char, same_text, split_fields, text_of};
use crate::text::{is_white, lemma_run_len, lemma_run_len_unique, run_len, texts, trim_both};
use crate::text::{trim_end, trim_matches, trim_start, CharClass, Punctuation, Whitespace};
use crate::parser::netlist::opt_text;

verus! {

/// A token without the punctuation around it.
pub open spec fn bare(s: Seq<char>) -> Seq<char> {
    trim_both(s, Punctuation)
}

/// The token without the punctuation that a value wraps a frequency in.
pub fn trim_frequency(tok: &str) -> (r: String)
    ensures
        r@ == bare(tok@),
{
    trim_matches(tok, &Punctuation)
}

/// The text starts with "hz" in any case.
pub open spec fn starts_hertz(s: Seq<char>) -> bool {
    s.len() >= 2 && ascii_lower(s[0]) == 'h' && ascii_lower(s[1]) == 'z'
}

/// The text ends with "hz" in any case.
pub open spec fn ends_hertz(s: Seq<char>) -> bool {
    s.len() >= 2 && starts_hertz(s.skip(s.len() - 2))
}

/// The prefix that a frequency's unit starts with, in one spelling. A small m is mega
/// here: nothing is rated in millihertz.
pub open spec fn frequency_prefix(s: Seq<char>) -> Seq<char> {
    if s.len() == 0 {
        Seq::empty()
    } else if ascii_lower(s[0]) == 'k' {
        seq!['k']
    } else if ascii_lower(s[0]) == 'm' {
        seq!['M']
    } else if ascii_lower(s[0]) == 'g' {
        seq!['G']
    } else {
        Seq::empty()
    }
}

/// The text of a frequency without the punctuation around it. A point directly before a digit
/// is part of the number.
pub open spec fn frequency_text(tok: Seq<char>) -> Seq<char> {
    let n = run_len(tok, Punctuation, true) as int;
    if 0 < n < tok.len() && tok[n - 1] == '.' && is_digit(tok[n]) {
        seq!['.'] + bare(tok)
    } else {
        bare(tok)
    }
}

fn frequency_chars(tok: &str) -> (r: Vec<char>)
    ensures
        r@ == frequency_text(tok@),
{
    let v = chars_of(tok);
    let mut n: usize = 0;
    while n < v.len() && Punctuation.test(v[n])
        invariant
            n <= v.len(),
            v@ == tok@,
            forall|i: int| 0 <= i < n ==> Punctuation.has(#[trigger] tok@[i]) == true,
        decreases v.len() - n,
    {
        n += 1;
    }
    proof {
        lemma_run_len_unique(tok@, Punctuation, true, n as int);
    }
    let mut text = String::new();
    if 0 < n && n < v.len() && v[n - 1] == '.' && '0' <= v[n] && v[n] <= '9' {
        text.push('.');
    }
    text.append(trim_frequency(tok).as_str());
    assert(text@ =~= frequency_text(tok@));
    chars_of(text.as_str())
}

/// What is left of a mark behind its number, its prefix and its hertz.
pub open spec fn frequency_tail(rest: Seq<char>) -> Seq<char> {
    let unit = rest.skip(frequency_prefix(rest).len() as int);
    if starts_hertz(unit) {
        unit.skip(2)
    } else {
        unit
    }
}

/// The frequency that a mark states: the number as it is written, the unit in one spelling.
pub open spec fn frequency_of(mark: Seq<char>) -> Option<Seq<char>> {
    let m = frequency_text(mark);
    let number = m.take(number_len(m) as int);
    let rest = m.skip(number_len(m) as int);
    let prefix = frequency_prefix(rest);
    let hertz = starts_hertz(rest.skip(prefix.len() as int));
    let tail = frequency_tail(rest);
    if !spells_number(number) {
        None
    } else if (!hertz && prefix.len() == 0) || (tail.len() > 0 && alphanumeric(tail[0])) {
        None
    } else {
        Some(number + prefix + "Hz"@)
    }
}

fn hertz_at(v: &Vec<char>, at: usize) -> (r: bool)
    requires
        at <= v.len(),
    ensures
        r == starts_hertz(v@.skip(at as int)),
{
    if v.len() - at < 2 {
        return false;
    }
    assert(v@.skip(at as int)[0] == v@[at as int] && v@.skip(at as int)[1] == v@[at + 1]);
    lower_char(v[at]) == 'h' && lower_char(v[at + 1]) == 'z'
}

/// The frequency that a mark states: "100MHZ", "100mhz", "100M" and "100MHz/1.5A" all give
/// "100MHz". None where the mark states no frequency.
pub fn canonical_frequency(mark: &str) -> (r: Option<String>)
    ensures
        opt_text(r) == frequency_of(mark@),
{
    let v = frequency_chars(mark);
    let ghost m = frequency_text(mark@);
    let mut n: usize = 0;
    while n < v.len() && is_number_char(v[n])
        invariant
            n <= v.len(),
            v@ == m,
            forall|i: int| 0 <= i < n ==> number_char(#[trigger] v@[i]),
        decreases v.len() - n,
    {
        n += 1;
    }
    proof {
        lemma_number_len(m, n as int);
    }
    let ghost rest = m.skip(n as int);
    let dots = count_dots(&v, n);
    if dots > 1 || dots == n {
        return None;
    }
    let mut out = text_of(&v, 0, n);
    assert(m.subrange(0, n as int) =~= m.take(n as int));
    let ghost number = out@;
    let mut at: usize = n;
    if n < v.len() {
        assert(rest[0] == v@[n as int]);
        let c = lower_char(v[n]);
        if c == 'k' {
            out.push('k');
            at = n + 1;
        } else if c == 'm' {
            out.push('M');
            at = n + 1;
        } else if c == 'g' {
            out.push('G');
            at = n + 1;
        }
    }
    let ghost prefix = frequency_prefix(rest);
    proof {
        assert(at == n + prefix.len());
        assert(out@ =~= number + prefix);
        assert(rest.skip(prefix.len() as int) =~= m.skip(at as int));
    }
    let hertz = hertz_at(&v, at);
    if !hertz && at == n {
        return None;
    }
    let end: usize = if hertz {
        at + 2
    } else {
        at
    };
    assert(frequency_tail(rest) =~= m.skip(end as int));
    if end < v.len() {
        assert(m.skip(end as int)[0] == v@[end as int]);
        if v[end].is_alphanumeric() {
            return None;
        }
    }
    out.append("Hz");
    assert(out@ =~= number + prefix + "Hz"@);
    Some(out)
}

/// The frequency that a token on its own spells; the hertz must be there, since "100M"
/// beside a value is a magnitude.
pub open spec fn literal_of(tok: Seq<char>) -> Option<Seq<char>> {
    if ends_hertz(bare(tok)) {
        frequency_of(tok)
    } else {
        None
    }
}

fn has_hertz_end(v: &Vec<char>) -> (r: bool)
    ensures
        r == ends_hertz(v@),
{
    v.len() >= 2 && hertz_at(v, v.len() - 2)
}

/// The frequency that a token on its own spells.
pub fn frequency_literal(tok: &str) -> (r: Option<String>)
    ensures
        opt_text(r) == literal_of(tok@),
{
    let v = chars_of(trim_frequency(tok).as_str());
    if has_hertz_end(&v) {
        canonical_frequency(tok)
    } else {
        None
    }
}

/// Letters alone, with "hz" at the end: the unit of a frequency without its number.
pub open spec fn frequency_unit(tok: Seq<char>) -> bool {
    let t = bare(tok);
    ends_hertz(t) && forall|i: int| 0 <= i < t.len() - 2 ==> is_letter(#[trigger] t[i])
}

/// Whether a token is the unit of a frequency on its own, the "MHz" of "100 MHz".
pub fn is_frequency_unit(tok: &str) -> (r: bool)
    ensures
        r == frequency_unit(tok@),
{
    let v = chars_of(trim_frequency(tok).as_str());
    if !has_hertz_end(&v) {
        return false;
    }
    let mut i: usize = 0;
    while i < v.len() - 2
        invariant
            2 <= v.len(),
            i <= v.len() - 2,
            v@ == bare(tok@),
            forall|k: int| 0 <= k < i ==> is_letter(#[trigger] v@[k]),
        decreases v.len() - i,
    {
        let c = v[i];
        if !(('a' <= c && c <= 'z') || ('A' <= c && c <= 'Z')) {
            return false;
        }
        i += 1;
    }
    true
}

/// What an `@` says of the value before it.
#[derive(Debug)]
pub enum Mark {
    /// The value is an impedance at this frequency.
    Frequency(String),
    /// The value was measured at DC, so it is no impedance.
    Dc,
    /// Something else, which says nothing of it.
    Other,
}

pub enum MarkModel {
    Frequency(Seq<char>),
    Dc,
    Other,
}

impl View for Mark {
    type V = MarkModel;

    open spec fn view(&self) -> MarkModel {
        match self {
            Mark::Frequency(f) => MarkModel::Frequency(f@),
            Mark::Dc => MarkModel::Dc,
            Mark::Other => MarkModel::Other,
        }
    }
}

pub open spec fn mark_of(mark: Seq<char>) -> MarkModel {
    match frequency_of(mark) {
        Some(f) => MarkModel::Frequency(f),
        None => if ascii_lower_text(mark) == "dc"@ || ascii_lower_text(mark) == "dcr"@ {
            MarkModel::Dc
        } else {
            MarkModel::Other
        },
    }
}

impl Mark {
    /// What the text behind an `@` says.
    pub fn read(mark: &str) -> (r: Mark)
        ensures
            r@ == mark_of(mark@),
    {
        match canonical_frequency(mark) {
            Some(f) => Mark::Frequency(f),
            None => {
                let lower = ascii_lowered(mark);
                if same_text(lower.as_str(), "dc") || same_text(lower.as_str(), "dcr") {
                    Mark::Dc
                } else {
                    Mark::Other
                }
            },
        }
    }
}

/// What is known of a token as a number of ohms.
#[derive(Debug, Clone, Copy, PartialEq, Eq, Structural)]
pub struct Ohms {
    /// The token is a number of ohms.
    pub parses: bool,
    /// The number is one that a bead can be rated at.
    pub plausible: bool,
    /// The bits of the number: equal where the numbers are.
    pub bits: u64,
}

/// A token that says of itself that it is ohms, as opposed to a bare number.
pub open spec fn ohm_marked(tok: Seq<char>, o: Ohms) -> bool {
    o.parses && (without_word(tok, 'R').len() != tok.len() || exists|i: int|
        0 <= i < tok.len() && unit_char(#[trigger] tok[i], 'R'))
}

/// Whether a token that is a number of ohms says so itself.
pub fn is_ohm_marked_token(tok: &str, o: Ohms) -> (r: bool)
    ensures
        r == ohm_marked(tok@, o),
{
    if !o.parses {
        return false;
    }
    let v = chars_of(tok);
    let stripped = chars_of(strip_long_unit_word(tok, 'R').as_str());
    if stripped.len() != v.len() {
        return true;
    }
    let mut i: usize = 0;
    while i < v.len()
        invariant
            i <= v.len(),
            v@ == tok@,
            o.parses,
            without_word(tok@, 'R').len() == tok@.len(),
            forall|k: int| 0 <= k < i ==> !unit_char(#[trigger] v@[k], 'R'),
        decreases v.len() - i,
    {
        if is_unit_char(v[i], 'R') {
            return true;
        }
        i += 1;
    }
    false
}

/// A token of a bead's value, with what marks say of it.
#[derive(Debug)]
pub struct BeadToken {
    pub index: usize,
    /// The frequency that the value is stated at.
    pub freq: Option<String>,
    /// The value was measured at DC.
    pub dc: bool,
}

pub struct BeadModel {
    pub index: int,
    pub freq: Option<Seq<char>>,
    pub dc: bool,
}

impl View for BeadToken {
    type V = BeadModel;

    open spec fn view(&self) -> BeadModel {
        BeadModel { index: self.index as int, freq: opt_text(self.freq), dc: self.dc }
    }
}

pub open spec fn bead_models(v: Seq<BeadToken>) -> Seq<BeadModel> {
    v.map_values(|t: BeadToken| t@)
}

/// The tokens of a bead's value, and what is known of each as ohms.
pub struct BeadValue {
    pub tokens: Seq<Seq<char>>,
    pub ohms: Seq<Ohms>,
}

impl BeadValue {
    /// Whether a mark can be about a token. An `@` is about any value; a frequency on its
    /// own is only about one that says that it is ohms, since "1kΩ 0603 100MHz" does not
    /// rate the package code.
    pub open spec fn binds(self, t: BeadModel, any: bool) -> bool {
        if any {
            self.ohms[t.index].parses
        } else {
            self.ohms[t.index].plausible && ohm_marked(self.tokens[t.index], self.ohms[t.index])
        }
    }

    /// The last of the first `k` tokens that a mark can be about.
    pub open spec fn bound(self, out: Seq<BeadModel>, any: bool, k: int) -> Option<int>
        decreases k,
    {
        if k <= 0 {
            None
        } else if self.binds(out[k - 1], any) {
            Some(k - 1)
        } else {
            self.bound(out, any, k - 1)
        }
    }

    /// The tokens with a mark put on the one that it is about. None where that one is
    /// stated at another frequency already: such a value is a table and no rating.
    pub open spec fn marked(self, out: Seq<BeadModel>, mark: MarkModel, any: bool) -> Option<
        Seq<BeadModel>,
    > {
        match self.bound(out, any, out.len() as int) {
            None => Some(out),
            Some(k) => if !self.ohms[out[k].index].plausible {
                Some(out)
            } else {
                match mark {
                    MarkModel::Frequency(f) => match out[k].freq {
                        Some(q) => if q != f {
                            None
                        } else {
                            Some(out)
                        },
                        None => Some(out.update(k, BeadModel { freq: Some(f), ..out[k] })),
                    },
                    MarkModel::Dc => Some(out.update(k, BeadModel { dc: true, ..out[k] })),
                    MarkModel::Other => Some(out),
                }
            },
        }
    }

    /// The mark behind an `@` at place `i`, and the place behind the mark. A unit that
    /// stands apart from its number belongs to it.
    pub open spec fn mark_after(self, i: int) -> (Seq<char>, int) {
        let mark = self.tokens[i + 1];
        if i + 2 < self.tokens.len() && (forall|k: int|
            0 <= k < mark.len() ==> number_char(#[trigger] mark[k])) && frequency_unit(
            self.tokens[i + 2],
        ) {
            (mark + bare(self.tokens[i + 2]), i + 3)
        } else {
            (mark, i + 2)
        }
    }

    /// The value tokens from place `i` on, after those in `out`, with their marks.
    pub open spec fn scan(self, i: int, out: Seq<BeadModel>) -> Option<Seq<BeadModel>>
        decreases self.tokens.len() - i,
    {
        if i >= self.tokens.len() {
            Some(out)
        } else if self.tokens[i] == "@"@ {
            if i + 1 >= self.tokens.len() {
                Some(out)
            } else {
                let (mark, next) = self.mark_after(i);
                match self.marked(out, mark_of(mark), true) {
                    None => None,
                    Some(after) => self.scan(next, after),
                }
            }
        } else {
            match literal_of(self.tokens[i]) {
                Some(f) => match self.marked(out, MarkModel::Frequency(f), false) {
                    None => None,
                    Some(after) => self.scan(i + 1, after),
                },
                None => self.scan(i + 1, out.push(BeadModel { index: i, freq: None, dc: false })),
            }
        }
    }

    /// The tokens among the first `k` that could be the impedance.
    pub open spec fn candidates(self, s: Seq<BeadModel>, k: int) -> Seq<BeadModel>
        decreases k,
    {
        if k <= 0 {
            Seq::empty()
        } else if !s[k - 1].dc && self.ohms[s[k - 1].index].plausible {
            self.candidates(s, k - 1).push(s[k - 1])
        } else {
            self.candidates(s, k - 1)
        }
    }

    /// Those of the first `k` that are stated at a frequency.
    pub open spec fn rated(s: Seq<BeadModel>, k: int) -> Seq<BeadModel>
        decreases k,
    {
        if k <= 0 {
            Seq::empty()
        } else if s[k - 1].freq is Some {
            Self::rated(s, k - 1).push(s[k - 1])
        } else {
            Self::rated(s, k - 1)
        }
    }

    /// Those of the first `k` that say that they are ohms.
    pub open spec fn spelled(self, s: Seq<BeadModel>, k: int) -> Seq<BeadModel>
        decreases k,
    {
        if k <= 0 {
            Seq::empty()
        } else if ohm_marked(self.tokens[s[k - 1].index], self.ohms[s[k - 1].index]) {
            self.spelled(s, k - 1).push(s[k - 1])
        } else {
            self.spelled(s, k - 1)
        }
    }

    pub open spec fn agree(self, s: Seq<BeadModel>) -> bool {
        forall|i: int|
            0 <= i < s.len() ==> self.ohms[(#[trigger] s[i]).index].bits
                == self.ohms[s[0].index].bits && s[i].freq == s[0].freq
    }

    /// Which token is the impedance.
    pub open spec fn choice(self) -> ChoiceModel {
        match self.scan(0, Seq::empty()) {
            None => ChoiceModel::Nothing,
            Some(s) => {
                let c = self.candidates(s, s.len() as int);
                let rated = Self::rated(c, c.len() as int);
                let spelled = self.spelled(c, c.len() as int);
                if rated.len() > 0 {
                    if self.agree(rated) {
                        ChoiceModel::Token(rated[0].index, rated[0].freq)
                    } else {
                        ChoiceModel::Nothing
                    }
                } else if spelled.len() == 1 {
                    ChoiceModel::Token(spelled[0].index, None)
                } else if spelled.len() > 1 || c.len() > 1 {
                    ChoiceModel::Nothing
                } else if c.len() == 1 {
                    ChoiceModel::From(c[0].index)
                } else if exists|i: int| 0 <= i < s.len() && (#[trigger] s[i]).dc {
                    ChoiceModel::Nothing
                } else {
                    ChoiceModel::From(0)
                }
            },
        }
    }
}

/// How the impedance of a bead is to be read.
#[derive(Debug)]
pub enum Choice {
    /// It cannot be told.
    Nothing,
    /// It is the token at this place, stated at this frequency.
    Token(usize, Option<String>),
    /// It reads like a resistance from the token at this place on.
    From(usize),
}

pub enum ChoiceModel {
    Nothing,
    Token(int, Option<Seq<char>>),
    From(int),
}

impl View for Choice {
    type V = ChoiceModel;

    open spec fn view(&self) -> ChoiceModel {
        match self {
            Choice::Nothing => ChoiceModel::Nothing,
            Choice::Token(i, f) => ChoiceModel::Token(*i as int, opt_text(*f)),
            Choice::From(i) => ChoiceModel::From(*i as int),
        }
    }
}

/// The text with spaces around every `@`.
pub open spec fn spaced(s: Seq<char>) -> Seq<char>
    decreases s.len(),
{
    if s.len() == 0 {
        Seq::empty()
    } else if s.last() == '@' {
        spaced(s.drop_last()) + " @ "@
    } else {
        spaced(s.drop_last()).push(s.last())
    }
}

/// The tokens of a bead's value, every `@` being one of its own.
pub fn split_bead(value: &str) -> (r: Vec<String>)
    ensures
        texts(r@) == fields(spaced(value@), Whitespace),
{
    let v = chars_of(value);
    let mut out = String::new();
    let mut i: usize = 0;
    assert(v@.take(0) =~= Seq::<char>::empty());
    while i < v.len()
        invariant
            i <= v.len(),
            v@ == value@,
            out@ == spaced(v@.take(i as int)),
        decreases v.len() - i,
    {
        assert(v@.take(i + 1).drop_last() =~= v@.take(i as int));
        if v[i] == '@' {
            out.append(" @ ");
        } else {
            out.push(v[i]);
        }
        i += 1;
    }
    assert(v@.take(v@.len() as int) =~= v@);
    split_fields(out.as_str(), &Whitespace)
}

spec fn value_of(tokens: Seq<String>, ohms: Seq<Ohms>) -> BeadValue {
    BeadValue { tokens: texts(tokens), ohms }
}

spec fn indexed(out: Seq<BeadModel>, n: int) -> bool {
    forall|k: int| 0 <= k < out.len() ==> 0 <= (#[trigger] out[k]).index < n
}

fn find_bound(tokens: &Vec<String>, ohms: &Vec<Ohms>, out: &Vec<BeadToken>, any: bool) -> (r:
    Option<usize>)
    requires
        ohms.len() == tokens.len(),
        indexed(bead_models(out@), tokens.len() as int),
    ensures
        match value_of(tokens@, ohms@).bound(bead_models(out@), any, out.len() as int) {
            Some(k) => r matches Some(i) && i == k && i < out.len(),
            None => r is None,
        },
{
    let ghost b = value_of(tokens@, ohms@);
    let ghost all = bead_models(out@);
    let mut k: usize = out.len();
    while k > 0
        invariant
            k <= out.len(),
            ohms.len() == tokens.len(),
            b == value_of(tokens@, ohms@),
            all == bead_models(out@),
            indexed(all, tokens.len() as int),
            b.bound(all, any, out.len() as int) == b.bound(all, any, k as int),
        decreases k,
    {
        let i: usize = out[k - 1].index;
        assert(all[k - 1].index == i);
        assert(b.tokens[i as int] == tokens@[i as int]@);
        let o = ohms[i];
        let binds = if any {
            o.parses
        } else {
            o.plausible && is_ohm_marked_token(tokens[i].as_str(), o)
        };
        if binds {
            return Some(k - 1);
        }
        k -= 1;
    }
    None
}

/// Puts a mark on the token that it is about.
fn attach_mark(
    tokens: &Vec<String>,
    ohms: &Vec<Ohms>,
    out: &mut Vec<BeadToken>,
    mark: Mark,
    any: bool,
) -> (r: Option<()>)
    requires
        ohms.len() == tokens.len(),
        indexed(bead_models(old(out)@), tokens.len() as int),
    ensures
        match value_of(tokens@, ohms@).marked(bead_models(old(out)@), mark@, any) {
            Some(after) => r is Some && bead_models(final(out)@) == after && indexed(
                after,
                tokens.len() as int,
            ),
            None => r is None,
        },
{
    let ghost before = bead_models(out@);
    let k: usize = match find_bound(tokens, ohms, out, any) {
        None => return Some(()),
        Some(k) => k,
    };
    let i: usize = out[k].index;
    assert(before[k as int].index == i);
    if !ohms[i].plausible {
        return Some(());
    }
    match mark {
        Mark::Frequency(f) => {
            let other = match &out[k].freq {
                Some(q) => Some(same_text(q.as_str(), f.as_str())),
                None => None,
            };
            assert(before[k as int].freq == opt_text(out@[k as int].freq));
            match other {
                Some(true) => Some(()),
                Some(false) => None,
                None => {
                    let ghost model = BeadModel { freq: Some(f@), ..before[k as int] };
                    out[k].freq = Some(f);
                    assert(bead_models(out@) =~= before.update(k as int, model));
                    Some(())
                },
            }
        },
        Mark::Dc => {
            out[k].dc = true;
            assert(bead_models(out@) =~= before.update(
                k as int,
                BeadModel { dc: true, ..before[k as int] },
            ));
            Some(())
        },
        Mark::Other => Some(()),
    }
}

fn has_only_number_chars(s: &str) -> (r: bool)
    ensures
        r == (forall|k: int| 0 <= k < s@.len() ==> number_char(#[trigger] s@[k])),
{
    let v = chars_of(s);
    let mut i: usize = 0;
    while i < v.len()
        invariant
            i <= v.len(),
            v@ == s@,
            forall|k: int| 0 <= k < i ==> number_char(#[trigger] v@[k]),
        decreases v.len() - i,
    {
        if !is_number_char(v[i]) {
            return false;
        }
        i += 1;
    }
    true
}

fn read_mark_after(tokens: &Vec<String>, i: usize) -> (r: (String, usize))
    requires
        i + 1 < tokens.len(),
    ensures
        ({
            let (mark, next) = BeadValue {
                tokens: texts(tokens@),
                ohms: Seq::empty(),
            }.mark_after(i as int);
            r.0@ == mark && r.1 == next && i + 2 <= next <= tokens.len()
        }),
{
    let ghost all = texts(tokens@);
    assert(all[i + 1] == tokens@[i + 1]@);
    let mut mark = tokens[i + 1].clone();
    if i + 2 < tokens.len() {
        assert(all[i + 2] == tokens@[i + 2]@);
        if has_only_number_chars(mark.as_str()) && is_frequency_unit(tokens[i + 2].as_str()) {
            mark.append(trim_frequency(tokens[i + 2].as_str()).as_str());
            return (mark, i + 3);
        }
    }
    (mark, i + 2)
}

/// The value tokens of a bead's value with their marks.
pub fn bead_tokens(tokens: &Vec<String>, ohms: &Vec<Ohms>) -> (r: Option<Vec<BeadToken>>)
    requires
        ohms.len() == tokens.len(),
    ensures
        match (BeadValue { tokens: texts(tokens@), ohms: ohms@ }).scan(0, Seq::empty()) {
            Some(s) => r matches Some(v) && bead_models(v@) == s && (forall|k: int|
                0 <= k < s.len() ==> 0 <= (#[trigger] s[k]).index < tokens.len()),
            None => r is None,
        },
{
    let ghost b = value_of(tokens@, ohms@);
    let mut out: Vec<BeadToken> = Vec::new();
    let mut i: usize = 0;
    assert(bead_models(out@) =~= Seq::<BeadModel>::empty());
    while i < tokens.len()
        invariant
            i <= tokens.len(),
            ohms.len() == tokens.len(),
            b == value_of(tokens@, ohms@),
            indexed(bead_models(out@), tokens.len() as int),
            b.scan(0, Seq::empty()) == b.scan(i as int, bead_models(out@)),
        decreases tokens.len() - i,
    {
        assert(b.tokens[i as int] == tokens@[i as int]@);
        let ghost before = bead_models(out@);
        let tok = &tokens[i];
        if same_text(tok.as_str(), "@") {
            if i + 1 >= tokens.len() {
                i = tokens.len();
            } else {
                let (mark, next) = read_mark_after(tokens, i);
                assert(b.mark_after(i as int) == (mark@, next as int));
                if attach_mark(tokens, ohms, &mut out, Mark::read(mark.as_str()), true).is_none() {
                    return None;
                }
                i = next;
            }
        } else if let Some(f) = frequency_literal(tok.as_str()) {
            if attach_mark(tokens, ohms, &mut out, Mark::Frequency(f), false).is_none() {
                return None;
            }
            i += 1;
        } else {
            out.push(BeadToken { index: i, freq: None, dc: false });
            assert(bead_models(out@) =~= before.push(
                BeadModel { index: i as int, freq: None, dc: false },
            ));
            i += 1;
        }
    }
    Some(out)
}

fn keep_candidates(ohms: &Vec<Ohms>, s: &Vec<BeadToken>, Ghost(b): Ghost<BeadValue>) -> (r: Vec<
    BeadToken,
>)
    requires
        b.ohms == ohms@,
        indexed(bead_models(s@), ohms.len() as int),
    ensures
        bead_models(r@) == b.candidates(bead_models(s@), s.len() as int),
        indexed(bead_models(r@), ohms.len() as int),
{
    let ghost all = bead_models(s@);
    let mut out: Vec<BeadToken> = Vec::new();
    let mut k: usize = 0;
    assert(bead_models(out@) =~= Seq::<BeadModel>::empty());
    while k < s.len()
        invariant
            k <= s.len(),
            b.ohms == ohms@,
            all == bead_models(s@),
            indexed(all, ohms.len() as int),
            indexed(bead_models(out@), ohms.len() as int),
            bead_models(out@) == b.candidates(all, k as int),
        decreases s.len() - k,
    {
        let t = &s[k];
        assert(all[k as int] == t@);
        let ghost before = bead_models(out@);
        if !t.dc && ohms[t.index].plausible {
            out.push(BeadToken { index: t.index, freq: copy_text(&t.freq), dc: t.dc });
            assert(bead_models(out@) =~= before.push(all[k as int]));
        }
        k += 1;
    }
    out
}

fn keep_rated(s: &Vec<BeadToken>) -> (r: Vec<BeadToken>)
    ensures
        bead_models(r@) == BeadValue::rated(bead_models(s@), s.len() as int),
        forall|n: int| #[trigger] indexed(bead_models(s@), n) ==> indexed(bead_models(r@), n),
{
    let ghost all = bead_models(s@);
    let mut out: Vec<BeadToken> = Vec::new();
    let mut k: usize = 0;
    assert(bead_models(out@) =~= Seq::<BeadModel>::empty());
    while k < s.len()
        invariant
            k <= s.len(),
            all == bead_models(s@),
            bead_models(out@) == BeadValue::rated(all, k as int),
            forall|n: int| #[trigger] indexed(all, n) ==> indexed(bead_models(out@), n),
        decreases s.len() - k,
    {
        let t = &s[k];
        assert(all[k as int] == t@);
        let ghost before = bead_models(out@);
        if t.freq.is_some() {
            out.push(BeadToken { index: t.index, freq: copy_text(&t.freq), dc: t.dc });
            assert(bead_models(out@) =~= before.push(all[k as int]));
        }
        k += 1;
    }
    out
}

fn keep_spelled(
    tokens: &Vec<String>,
    ohms: &Vec<Ohms>,
    s: &Vec<BeadToken>,
    Ghost(b): Ghost<BeadValue>,
) -> (r: Vec<usize>)
    requires
        b == value_of(tokens@, ohms@),
        ohms.len() == tokens.len(),
        indexed(bead_models(s@), ohms.len() as int),
    ensures
        r.len() == b.spelled(bead_models(s@), s.len() as int).len(),
        forall|i: int|
            0 <= i < r.len() ==> #[trigger] r@[i] == b.spelled(
                bead_models(s@),
                s.len() as int,
            )[i].index,
{
    let ghost all = bead_models(s@);
    let mut out: Vec<usize> = Vec::new();
    let mut k: usize = 0;
    while k < s.len()
        invariant
            k <= s.len(),
            b == value_of(tokens@, ohms@),
            ohms.len() == tokens.len(),
            all == bead_models(s@),
            indexed(all, ohms.len() as int),
            out.len() == b.spelled(all, k as int).len(),
            forall|i: int|
                0 <= i < out.len() ==> #[trigger] out@[i] == b.spelled(all, k as int)[i].index,
        decreases s.len() - k,
    {
        let i: usize = s[k].index;
        assert(all[k as int].index == i);
        assert(b.tokens[i as int] == tokens@[i as int]@);
        if is_ohm_marked_token(tokens[i].as_str(), ohms[i]) {
            out.push(i);
        }
        k += 1;
    }
    out
}

fn do_agree(ohms: &Vec<Ohms>, s: &Vec<BeadToken>, Ghost(b): Ghost<BeadValue>) -> (r: bool)
    requires
        b.ohms == ohms@,
        s.len() > 0,
        indexed(bead_models(s@), ohms.len() as int),
        forall|i: int| 0 <= i < s.len() ==> (#[trigger] bead_models(s@)[i]).freq is Some,
    ensures
        r == b.agree(bead_models(s@)),
{
    let ghost all = bead_models(s@);
    let first: u64 = ohms[s[0].index].bits;
    assert(all[0] == s@[0]@);
    let mut k: usize = 0;
    while k < s.len()
        invariant
            k <= s.len(),
            s.len() > 0,
            b.ohms == ohms@,
            all == bead_models(s@),
            indexed(all, ohms.len() as int),
            first == b.ohms[all[0].index].bits,
            forall|i: int| 0 <= i < s.len() ==> (#[trigger] all[i]).freq is Some,
            forall|i: int|
                0 <= i < k ==> b.ohms[(#[trigger] all[i]).index].bits == first && all[i].freq
                    == all[0].freq,
        decreases s.len() - k,
    {
        let t = &s[k];
        assert(all[k as int] == t@);
        assert(all[0] == s@[0]@);
        if ohms[t.index].bits != first {
            return false;
        }
        match (&t.freq, &s[0].freq) {
            (Some(a), Some(c)) => {
                if !same_text(a.as_str(), c.as_str()) {
                    return false;
                }
            },
            _ => {},
        }
        k += 1;
    }
    true
}

fn any_dc(s: &Vec<BeadToken>) -> (r: bool)
    ensures
        r == (exists|i: int| 0 <= i < s.len() && (#[trigger] bead_models(s@)[i]).dc),
{
    let mut i: usize = 0;
    while i < s.len()
        invariant
            i <= s.len(),
            forall|k: int| 0 <= k < i ==> !(#[trigger] bead_models(s@)[k]).dc,
        decreases s.len() - i,
    {
        assert(bead_models(s@)[i as int] == s@[i as int]@);
        if s[i].dc {
            return true;
        }
        i += 1;
    }
    false
}

/// Which token of a bead's value is its impedance. A value stated at a frequency is;
/// where several are they must agree. Else the one that says that it is ohms is, and
/// else a lone number, which reads like a resistor's.
pub fn choose_impedance(tokens: &Vec<String>, ohms: &Vec<Ohms>) -> (r: Choice)
    requires
        ohms.len() == tokens.len(),
    ensures
        r@ == (BeadValue { tokens: texts(tokens@), ohms: ohms@ }).choice(),
{
    let ghost b = value_of(tokens@, ohms@);
    let read = match bead_tokens(tokens, ohms) {
        None => return Choice::Nothing,
        Some(read) => read,
    };
    let ghost s = bead_models(read@);
    let candidates = keep_candidates(ohms, &read, Ghost(b));
    let ghost c = bead_models(candidates@);
    let rated = keep_rated(&candidates);
    if rated.len() > 0 {
        proof {
            lemma_rated_members(c, c.len() as int);
            assert(bead_models(rated@)[0] == rated@[0]@);
        }
        if do_agree(ohms, &rated, Ghost(b)) {
            return Choice::Token(rated[0].index, copy_text(&rated[0].freq));
        }
        return Choice::Nothing;
    }
    let spelled = keep_spelled(tokens, ohms, &candidates, Ghost(b));
    if spelled.len() == 1 {
        return Choice::Token(spelled[0], None);
    }
    if spelled.len() > 1 || candidates.len() > 1 {
        return Choice::Nothing;
    }
    if candidates.len() == 1 {
        assert(c[0] == candidates@[0]@);
        return Choice::From(candidates[0].index);
    }
    if any_dc(&read) {
        return Choice::Nothing;
    }
    Choice::From(0)
}

/// Two texts that differ in the case of ASCII letters alone.
pub open spec fn same_letters(a: Seq<char>, b: Seq<char>) -> bool {
    a.len() == b.len() && forall|i: int|
        0 <= i < a.len() ==> ascii_lower(#[trigger] a[i]) == ascii_lower(b[i])
}

proof fn lemma_same_letter(x: char, y: char)
    requires
        ascii_lower(x) == ascii_lower(y),
    ensures
        x == y || (is_letter(x) && is_letter(y)),
        Punctuation.has(x) == Punctuation.has(y),
        number_char(x) == number_char(y),
        number_char(x) ==> x == y,
        x == '.' <==> y == '.',
        is_digit(x) == is_digit(y),
        alphanumeric(x) == alphanumeric(y),
{
}

proof fn lemma_trim_start_letters(a: Seq<char>, b: Seq<char>)
    requires
        same_letters(a, b),
    ensures
        run_len(a, Punctuation, true) == run_len(b, Punctuation, true),
        same_letters(trim_start(a, Punctuation), trim_start(b, Punctuation)),
    decreases a.len(),
{
    lemma_run_len(a, Punctuation, true);
    let n = run_len(a, Punctuation, true) as int;
    assert forall|i: int| 0 <= i < n implies Punctuation.has(#[trigger] b[i]) == true by {
        assert(Punctuation.has(a[i]));
        lemma_same_letter(a[i], b[i]);
    }
    if n < a.len() {
        assert(!Punctuation.has(a[n]));
        lemma_same_letter(a[n], b[n]);
    }
    lemma_run_len_unique(b, Punctuation, true, n);
    let x = trim_start(a, Punctuation);
    let y = trim_start(b, Punctuation);
    assert forall|i: int| 0 <= i < x.len() implies ascii_lower(#[trigger] x[i])
        == ascii_lower(y[i]) by {
        assert(x[i] == a[n + i] && y[i] == b[n + i]);
    }
}

proof fn lemma_trim_end_letters(a: Seq<char>, b: Seq<char>)
    requires
        same_letters(a, b),
    ensures
        same_letters(trim_end(a, Punctuation), trim_end(b, Punctuation)),
    decreases a.len(),
{
    if a.len() > 0 {
        assert(a.last() == a[a.len() - 1] && b.last() == b[b.len() - 1]);
        lemma_same_letter(a.last(), b.last());
        let x = a.drop_last();
        let y = b.drop_last();
        assert forall|i: int| 0 <= i < x.len() implies ascii_lower(#[trigger] x[i])
            == ascii_lower(y[i]) by {
            assert(x[i] == a[i] && y[i] == b[i]);
        }
        lemma_trim_end_letters(x, y);
    }
}

proof fn lemma_number_letters(a: Seq<char>, b: Seq<char>)
    requires
        same_letters(a, b),
    ensures
        number_len(a) == number_len(b),
        number_len(a) <= a.len(),
        a.take(number_len(a) as int) == b.take(number_len(b) as int),
    decreases a.len(),
{
    if a.len() > 0 {
        lemma_same_letter(a[0], b[0]);
        if number_char(a[0]) {
            let x = a.skip(1);
            let y = b.skip(1);
            assert forall|i: int| 0 <= i < x.len() implies ascii_lower(#[trigger] x[i])
                == ascii_lower(y[i]) by {
                assert(x[i] == a[i + 1] && y[i] == b[i + 1]);
            }
            lemma_number_letters(x, y);
            let n = number_len(x) as int;
            assert(a.take(n + 1) =~= seq![a[0]] + x.take(n));
            assert(b.take(n + 1) =~= seq![b[0]] + y.take(n));
        }
    }
    assert(number_len(a) == 0 ==> a.take(0) =~= b.take(0));
}

/// However the letters of a frequency are written, it is the same frequency.
pub proof fn lemma_frequency_letters(a: Seq<char>, b: Seq<char>)
    requires
        same_letters(a, b),
    ensures
        frequency_of(a) == frequency_of(b),
{
    lemma_trim_start_letters(a, b);
    lemma_trim_end_letters(trim_start(a, Punctuation), trim_start(b, Punctuation));
    lemma_run_len(a, Punctuation, true);
    let lead = run_len(a, Punctuation, true) as int;
    if 0 < lead < a.len() {
        lemma_same_letter(a[lead], b[lead]);
        lemma_same_letter(a[lead - 1], b[lead - 1]);
    }
    let x = frequency_text(a);
    let y = frequency_text(b);
    assert(same_letters(x, y)) by {
        let m: int = x.len() - bare(a).len();
        assert forall|i: int| 0 <= i < x.len() implies ascii_lower(#[trigger] x[i])
            == ascii_lower(y[i]) by {
            if i >= m {
                assert(x[i] == bare(a)[i - m] && y[i] == bare(b)[i - m]);
            }
        }
    }
    lemma_number_letters(x, y);
    let n = number_len(x) as int;
    let p = x.skip(n);
    let q = y.skip(n);
    assert forall|i: int| 0 <= i < p.len() implies ascii_lower(#[trigger] p[i])
        == ascii_lower(q[i]) by {
        assert(p[i] == x[n + i] && q[i] == y[n + i]);
    }
    if p.len() > 0 {
        assert(ascii_lower(p[0]) == ascii_lower(q[0]));
    }
    let k = frequency_prefix(p).len() as int;
    assert(frequency_prefix(p) == frequency_prefix(q));
    let u = p.skip(k);
    let v = q.skip(k);
    assert forall|i: int| 0 <= i < u.len() implies ascii_lower(#[trigger] u[i])
        == ascii_lower(v[i]) by {
        assert(u[i] == p[k + i] && v[i] == q[k + i]);
    }
    if u.len() >= 2 {
        assert(ascii_lower(u[0]) == ascii_lower(v[0]) && ascii_lower(u[1]) == ascii_lower(v[1]));
    }
    assert(starts_hertz(u) == starts_hertz(v));
    let t = frequency_tail(p);
    let w = frequency_tail(q);
    assert(t.len() == w.len());
    if t.len() > 0 {
        let j: int = if starts_hertz(u) {
            2
        } else {
            0
        };
        assert(t[0] == u[j] && w[0] == v[j]);
        lemma_same_letter(t[0], w[0]);
    }
}

/// The text without the white space beside its `@` signs.
pub open spec fn squeezed(s: Seq<char>) -> Seq<char>
    decreases s.len(),
{
    if s.len() == 0 {
        Seq::empty()
    } else {
        let front = squeezed(s.drop_last());
        if s.last() == '@' {
            trim_end(front, Whitespace).push('@')
        } else if is_white(s.last()) && front.len() > 0 && front.last() == '@' {
            front
        } else {
            front.push(s.last())
        }
    }
}

/// A character behind a text is a field of its own, or the end of the last one, or none.
proof fn lemma_fields_push(s: Seq<char>, c: char)
    ensures
        is_white(c) ==> fields(s.push(c), Whitespace) == fields(s, Whitespace),
        !is_white(c) && (s.len() == 0 || is_white(s.last())) ==> fields(s.push(c), Whitespace)
            == fields(s, Whitespace).push(seq![c]),
        !is_white(c) && s.len() > 0 && !is_white(s.last()) ==> fields(s, Whitespace).len() > 0
            && fields(s.push(c), Whitespace) == fields(s, Whitespace).drop_last().push(
            fields(s, Whitespace).last().push(c),
        ),
    decreases s.len(),
{
    let t = s.push(c);
    let p = Whitespace;
    reveal_with_fuel(fields, 2);
    if s.len() == 0 {
        assert(t[0] == c);
        assert(fields(s, p) =~= Seq::<Seq<char>>::empty());
        if !is_white(c) {
            lemma_run_len_unique(t, p, false, 1);
            assert(t.take(1) =~= seq![c]);
            assert(t.skip(1) =~= Seq::<char>::empty());
            assert(fields(t, p) =~= fields(s, p).push(seq![c]));
        } else {
            assert(t.skip(1) =~= s);
        }
    } else if is_white(s[0]) {
        lemma_fields_push(s.skip(1), c);
        assert(t[0] == s[0]);
        assert(t.skip(1) =~= s.skip(1).push(c));
        if s.len() > 1 {
            assert(s.skip(1).last() == s.last());
        }
    } else {
        lemma_run_len(s, p, false);
        let n = run_len(s, p, false) as int;
        assert(n > 0);
        let rest = s.skip(n);
        assert(t[0] == s[0]);
        if n < s.len() {
            assert(t[n] == s[n]);
            assert forall|i: int| 0 <= i < n implies p.has(#[trigger] t[i]) == false by {
                assert(t[i] == s[i]);
            }
            lemma_run_len_unique(t, p, false, n);
            lemma_fields_push(rest, c);
            assert(t.take(n) =~= s.take(n));
            assert(t.skip(n) =~= rest.push(c));
            assert(rest.last() == s.last());
            let first = seq![s.take(n)];
            let tail = fields(rest, p);
            assert(fields(s, p) == first + tail);
            assert(fields(t, p) == first + fields(rest.push(c), p));
            if !is_white(c) && is_white(s.last()) {
                assert(first + tail.push(seq![c]) =~= (first + tail).push(seq![c]));
            } else if !is_white(c) {
                assert((first + tail).drop_last() =~= first + tail.drop_last());
                assert(first + tail.drop_last().push(tail.last().push(c)) =~= (first
                    + tail.drop_last()).push(tail.last().push(c)));
            }
        } else {
            assert(s.take(n) =~= s);
            assert(rest =~= Seq::<char>::empty());
            assert(fields(s, p) =~= seq![s]);
            assert(!is_white(s.last())) by {
                assert(s.last() == s[n - 1]);
            }
            assert forall|i: int| 0 <= i < n implies p.has(#[trigger] t[i]) == false by {
                assert(t[i] == s[i]);
            }
            assert(t[n] == c);
            if is_white(c) {
                lemma_run_len_unique(t, p, false, n);
                assert(t.take(n) =~= s);
                assert(t.skip(n) =~= seq![c]);
                assert(seq![c].skip(1) =~= Seq::<char>::empty());
                assert(fields(seq![c], p) =~= Seq::<Seq<char>>::empty());
                assert(fields(t, p) =~= fields(s, p));
            } else {
                lemma_run_len_unique(t, p, false, n + 1);
                assert(t.take(n + 1) =~= t);
                assert(t.skip(n + 1) =~= Seq::<char>::empty());
                assert(fields(t, p) =~= seq![t]);
                assert(fields(s, p).drop_last().push(s.push(c)) =~= seq![t]);
            }
        }
    }
}

/// The text ends inside a field.
spec fn is_open(s: Seq<char>) -> bool {
    s.len() > 0 && !is_white(s.last())
}

proof fn lemma_fields_trimmed(s: Seq<char>)
    ensures
        fields(spaced(trim_end(s, Whitespace)), Whitespace) == fields(spaced(s), Whitespace),
    decreases s.len(),
{
    if s.len() > 0 && is_white(s.last()) {
        lemma_fields_trimmed(s.drop_last());
        lemma_fields_push(spaced(s.drop_last()), s.last());
    }
}

proof fn lemma_fields_at(s: Seq<char>)
    ensures
        fields(s + " @ "@, Whitespace) == fields(s, Whitespace).push("@"@),
        !is_open(s + " @ "@),
{
    reveal_strlit(" @ ");
    reveal_strlit("@");
    let a = s.push(' ');
    let b = a.push('@');
    lemma_fields_push(s, ' ');
    lemma_fields_push(a, '@');
    lemma_fields_push(b, ' ');
    assert(s + " @ "@ =~= b.push(' '));
    assert("@"@ =~= seq!['@']);
}

proof fn lemma_squeezed(s: Seq<char>)
    ensures
        fields(spaced(squeezed(s)), Whitespace) == fields(spaced(s), Whitespace),
        is_open(spaced(squeezed(s))) == is_open(spaced(s)),
    decreases s.len(),
{
    if s.len() > 0 {
        let front = s.drop_last();
        let done = squeezed(front);
        let c = s.last();
        lemma_squeezed(front);
        if c == '@' {
            let cut = trim_end(done, Whitespace);
            lemma_fields_trimmed(done);
            lemma_fields_at(spaced(front));
            lemma_fields_at(spaced(cut));
            assert(cut.push('@').drop_last() =~= cut);
        } else if is_white(c) && done.len() > 0 && done.last() == '@' {
            lemma_fields_push(spaced(front), c);
            lemma_fields_at(spaced(done.drop_last()));
        } else {
            lemma_fields_push(spaced(front), c);
            lemma_fields_push(spaced(done), c);
            assert(done.push(c).drop_last() =~= done);
        }
    }
}

/// White space beside an `@` does not change how a bead reads: two values that differ in it
/// alone have the same tokens, and all else is read from these.
pub proof fn lemma_space_beside_at(a: Seq<char>, b: Seq<char>)
    requires
        squeezed(a) == squeezed(b),
    ensures
        fields(spaced(a), Whitespace) == fields(spaced(b), Whitespace),
{
    lemma_squeezed(a);
    lemma_squeezed(b);
}

/// White space put before and behind an `@` anywhere in a value leaves its tokens as they
/// are.
pub proof fn lemma_space_put_beside_at(
    front: Seq<char>,
    before: Seq<char>,
    behind: Seq<char>,
    back: Seq<char>,
)
    requires
        forall|i: int| 0 <= i < before.len() ==> is_white(#[trigger] before[i]),
        forall|i: int| 0 <= i < behind.len() ==> is_white(#[trigger] behind[i]),
    ensures
        fields(spaced(front + before + seq!['@'] + behind + back), Whitespace) == fields(
            spaced(front + seq!['@'] + back),
            Whitespace,
        ),
{
    let a = front + before + seq!['@'] + behind;
    let b = front + seq!['@'];
    lemma_squeezed_before(front, before);
    assert((front + before + seq!['@']).drop_last() =~= front + before);
    assert(b.drop_last() =~= front);
    let at = front + before + seq!['@'];
    assert(squeezed(at) == squeezed(b));
    assert(squeezed(at).last() == '@');
    lemma_squeezed_behind(at, behind);
    lemma_squeezed_back(a, b, back);
    lemma_space_beside_at(a + back, b + back);
}

proof fn lemma_squeezed_before(front: Seq<char>, before: Seq<char>)
    requires
        forall|i: int| 0 <= i < before.len() ==> is_white(#[trigger] before[i]),
    ensures
        trim_end(squeezed(front + before), Whitespace) == trim_end(squeezed(front), Whitespace),
    decreases before.len(),
{
    if before.len() == 0 {
        assert(front + before =~= front);
    } else {
        let less = before.drop_last();
        let s = front + before;
        assert(s.drop_last() =~= front + less);
        assert(s.last() == before.last());
        lemma_squeezed_before(front, less);
        let done = squeezed(front + less);
        assert(is_white(s.last()));
        assert(done.push(s.last()).drop_last() =~= done);
    }
}

proof fn lemma_squeezed_behind(at: Seq<char>, behind: Seq<char>)
    requires
        squeezed(at).len() > 0,
        squeezed(at).last() == '@',
        forall|i: int| 0 <= i < behind.len() ==> is_white(#[trigger] behind[i]),
    ensures
        squeezed(at + behind) == squeezed(at),
    decreases behind.len(),
{
    if behind.len() == 0 {
        assert(at + behind =~= at);
    } else {
        let s = at + behind;
        assert(s.drop_last() =~= at + behind.drop_last());
        assert(s.last() == behind.last());
        lemma_squeezed_behind(at, behind.drop_last());
        assert(is_white(s.last()));
    }
}

proof fn lemma_squeezed_back(a: Seq<char>, b: Seq<char>, back: Seq<char>)
    requires
        squeezed(a) == squeezed(b),
    ensures
        squeezed(a + back) == squeezed(b + back),
    decreases back.len(),
{
    if back.len() == 0 {
        assert(a + back =~= a);
        assert(b + back =~= b);
    } else {
        lemma_squeezed_back(a, b, back.drop_last());
        assert((a + back).drop_last() =~= a + back.drop_last());
        assert((b + back).drop_last() =~= b + back.drop_last());
    }
}

/// A token that could be the impedance.
pub open spec fn could_be(b: BeadValue, t: BeadModel) -> bool {
    !t.dc && b.ohms[t.index].plausible
}

proof fn lemma_candidates(b: BeadValue, s: Seq<BeadModel>, k: int)
    requires
        0 <= k <= s.len(),
    ensures
        forall|i: int|
            0 <= i < b.candidates(s, k).len() ==> could_be(b, #[trigger] b.candidates(s, k)[i])
                && s.contains(b.candidates(s, k)[i]),
        forall|m: int|
            0 <= m < k && could_be(b, #[trigger] s[m]) ==> b.candidates(s, k).contains(s[m]),
    decreases k,
{
    if k > 0 {
        lemma_candidates(b, s, k - 1);
        let before = b.candidates(s, k - 1);
        let all = b.candidates(s, k);
        assert forall|i: int| 0 <= i < all.len() implies could_be(b, #[trigger] all[i])
            && s.contains(all[i]) by {
            if i < before.len() {
                assert(all[i] == before[i]);
            } else {
                assert(all[i] == s[k - 1]);
            }
        }
        assert forall|m: int| 0 <= m < k && could_be(b, #[trigger] s[m]) implies all.contains(
            s[m],
        ) by {
            if m < k - 1 {
                let i = choose|i: int| 0 <= i < before.len() && before[i] == s[m];
                assert(all[i] == s[m]);
            } else {
                assert(all[all.len() - 1] == s[m]);
            }
        }
    }
}

proof fn lemma_rated_members(s: Seq<BeadModel>, k: int)
    requires
        0 <= k <= s.len(),
    ensures
        forall|i: int|
            0 <= i < BeadValue::rated(s, k).len() ==> (#[trigger] BeadValue::rated(s, k)[i]).freq is Some
                && s.contains(BeadValue::rated(s, k)[i]),
        forall|m: int|
            0 <= m < k && (#[trigger] s[m]).freq is Some ==> BeadValue::rated(s, k).contains(s[m]),
    decreases k,
{
    if k > 0 {
        lemma_rated_members(s, k - 1);
        let before = BeadValue::rated(s, k - 1);
        let all = BeadValue::rated(s, k);
        assert forall|i: int| 0 <= i < all.len() implies (#[trigger] all[i]).freq is Some
            && s.contains(all[i]) by {
            if i < before.len() {
                assert(all[i] == before[i]);
            } else {
                assert(all[i] == s[k - 1]);
            }
        }
        assert forall|m: int| 0 <= m < k && (#[trigger] s[m]).freq is Some implies all.contains(
            s[m],
        ) by {
            if m < k - 1 {
                let i = choose|i: int| 0 <= i < before.len() && before[i] == s[m];
                assert(all[i] == s[m]);
            } else {
                assert(all[all.len() - 1] == s[m]);
            }
        }
    }
}

proof fn lemma_spelled_members(b: BeadValue, s: Seq<BeadModel>, k: int)
    requires
        0 <= k <= s.len(),
    ensures
        forall|i: int|
            0 <= i < b.spelled(s, k).len() ==> s.contains(#[trigger] b.spelled(s, k)[i])
                && ohm_marked(
                b.tokens[b.spelled(s, k)[i].index],
                b.ohms[b.spelled(s, k)[i].index],
            ),
    decreases k,
{
    if k > 0 {
        lemma_spelled_members(b, s, k - 1);
        let before = b.spelled(s, k - 1);
        let all = b.spelled(s, k);
        assert forall|i: int| 0 <= i < all.len() implies s.contains(#[trigger] all[i])
            && ohm_marked(b.tokens[all[i].index], b.ohms[all[i].index]) by {
            if i < before.len() {
                assert(all[i] == before[i]);
            } else {
                assert(all[i] == s[k - 1]);
            }
        }
    }
}

/// A bead is read from a value that it can be rated at and that was not measured at DC. A
/// frequency comes with it only where the value was stated at it, and without one the
/// value says of itself that it is ohms.
pub proof fn lemma_choice_is_a_candidate(b: BeadValue)
    ensures
        b.choice() matches ChoiceModel::Token(i, f) ==> {
            &&& b.scan(0, Seq::empty()) is Some
            &&& exists|k: int|
                0 <= k < b.scan(0, Seq::empty()).unwrap().len() && could_be(
                    b,
                    #[trigger] b.scan(0, Seq::empty()).unwrap()[k],
                ) && b.scan(0, Seq::empty()).unwrap()[k].index == i && (f is Some ==> b.scan(
                    0,
                    Seq::empty(),
                ).unwrap()[k].freq == f)
            &&& f is None ==> ohm_marked(b.tokens[i], b.ohms[i])
        },
{
    if let Some(s) = b.scan(0, Seq::empty()) {
        let c = b.candidates(s, s.len() as int);
        let rated = BeadValue::rated(c, c.len() as int);
        let spelled = b.spelled(c, c.len() as int);
        lemma_candidates(b, s, s.len() as int);
        lemma_rated_members(c, c.len() as int);
        lemma_spelled_members(b, c, c.len() as int);
        if b.choice() is Token {
            let t = if rated.len() > 0 {
                rated[0]
            } else {
                spelled[0]
            };
            assert(c.contains(t));
            let m = choose|m: int| 0 <= m < c.len() && c[m] == t;
            assert(s.contains(c[m]));
            let k = choose|k: int| 0 <= k < s.len() && s[k] == t;
            assert(could_be(b, s[k]));
        }
    }
}

/// Two values stated at frequencies that differ in either are a table and no rating,
/// whichever of them comes first.
pub proof fn lemma_disagreement_reads_as_nothing(b: BeadValue, i: int, j: int)
    requires
        b.scan(0, Seq::empty()) matches Some(s) && 0 <= i < s.len() && 0 <= j < s.len() && could_be(
            b,
            s[i],
        ) && could_be(b, s[j]) && s[i].freq is Some && s[j].freq is Some && (b.ohms[s[i].index].bits
            != b.ohms[s[j].index].bits || s[i].freq != s[j].freq),
    ensures
        b.choice() is Nothing,
{
    let s = b.scan(0, Seq::empty()).unwrap();
    let c = b.candidates(s, s.len() as int);
    let rated = BeadValue::rated(c, c.len() as int);
    lemma_candidates(b, s, s.len() as int);
    lemma_rated_members(c, c.len() as int);
    assert(c.contains(s[i]) && c.contains(s[j]));
    let x = choose|x: int| 0 <= x < c.len() && c[x] == s[i];
    let y = choose|y: int| 0 <= y < c.len() && c[y] == s[j];
    assert(rated.contains(c[x]) && rated.contains(c[y]));
    let p = choose|p: int| 0 <= p < rated.len() && rated[p] == s[i];
    let q = choose|q: int| 0 <= q < rated.len() && rated[q] == s[j];
    if b.agree(rated) {
        assert(b.ohms[rated[p].index].bits == b.ohms[rated[q].index].bits);
        assert(rated[p].freq == rated[q].freq);
    }
}

} // verus!
