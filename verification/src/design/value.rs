//! Reading the value strings of passives: which part of one is the number, and which power
//! of ten its prefix stands for.
use vstd::prelude::*;

use crate::lists::{first_where, lemma_first_where, lemma_first_where_found};
use crate::text::{ascii_lower_text, ascii_lowered, ascii_upper, chars_of, ends_with};
use crate::text::{all_digits, fields, is_digit, same_text};
use crate::text::{split_fields, text_ends_with, text_of, texts};
use crate::text::{upper_char, Whitespace};

verus! {

/// A passive whose value string can be read.
#[derive(Debug, Clone, Copy, PartialEq, Eq, Structural)]
pub enum Passive {
    Resistor,
    Capacitor,
    Inductor,
    Bead,
}

pub open spec fn passive_of(class: Seq<char>) -> Option<Passive> {
    if class == "R"@ {
        Some(Passive::Resistor)
    } else if class == "C"@ {
        Some(Passive::Capacitor)
    } else if class == "L"@ {
        Some(Passive::Inductor)
    } else if class == "FB"@ {
        Some(Passive::Bead)
    } else {
        None
    }
}

/// The passive that a class of parts is.
pub fn passive_class(class: &str) -> (r: Option<Passive>)
    ensures
        r == passive_of(class@),
{
    if same_text(class, "R") {
        Some(Passive::Resistor)
    } else if same_text(class, "C") {
        Some(Passive::Capacitor)
    } else if same_text(class, "L") {
        Some(Passive::Inductor)
    } else if same_text(class, "FB") {
        Some(Passive::Bead)
    } else {
        None
    }
}

/// The letter that a passive's unit is written with in a value; a bead is rated in ohms.
pub open spec fn unit_of(p: Passive) -> char {
    match p {
        Passive::Resistor => 'R',
        Passive::Capacitor => 'F',
        Passive::Inductor => 'H',
        Passive::Bead => 'R',
    }
}

/// The letter that a passive's unit is written with in a value.
pub fn unit_letter(p: Passive) -> (r: char)
    ensures
        r == unit_of(p),
{
    match p {
        Passive::Resistor => 'R',
        Passive::Capacitor => 'F',
        Passive::Inductor => 'H',
        Passive::Bead => 'R',
    }
}

/// Whether parts with this unit are made in the decade `10^e`: resistors from the microohm
/// up, capacitors and inductors below the kilo.
pub open spec fn decade_made(e: int, unit: char) -> bool {
    if unit == 'R' {
        e >= -6
    } else {
        e < 3
    }
}

/// The power of ten that a prefix letter stands for, leaving aside whether parts are made
/// there. A capital M is milli on an inductor, since there is no megahenry.
pub open spec fn letter_exponent(c: char, unit: char) -> Option<int> {
    if c == 'p' || c == 'P' {
        Some(-12)
    } else if c == 'n' || c == 'N' {
        Some(-9)
    } else if c == 'u' || c == 'U' || c == '\u{b5}' || c == '\u{3bc}' {
        Some(-6)
    } else if c == 'm' {
        Some(-3)
    } else if c == 'k' || c == 'K' {
        Some(3)
    } else if c == 'M' {
        Some(
            if unit == 'H' {
                -3
            } else {
                6
            },
        )
    } else if c == 'G' {
        Some(9)
    } else {
        None
    }
}

/// The power of ten that a prefix letter stands for. A prefix that names a decade in which
/// no such part is made is none: there the letter is most often a tolerance code.
pub open spec fn prefix_exponent(c: char, unit: char) -> Option<int> {
    match letter_exponent(c, unit) {
        Some(e) => if decade_made(e, unit) {
            Some(e)
        } else {
            None
        },
        None => None,
    }
}

pub open spec fn opt_int(o: Option<i32>) -> Option<int> {
    match o {
        Some(n) => Some(n as int),
        None => None,
    }
}

/// Whether parts with this unit are made in the decade `10^e`.
pub fn prefix_is_real(e: i32, unit: char) -> (r: bool)
    ensures
        r == decade_made(e as int, unit),
{
    if unit == 'R' {
        e >= -6
    } else {
        e < 3
    }
}

/// The power of ten that a prefix letter stands for.
pub fn si_prefix(c: char, unit: char) -> (r: Option<i32>)
    ensures
        opt_int(r) == prefix_exponent(c, unit),
{
    let e: i32 = if c == 'p' || c == 'P' {
        -12
    } else if c == 'n' || c == 'N' {
        -9
    } else if c == 'u' || c == 'U' || c == '\u{b5}' || c == '\u{3bc}' {
        -6
    } else if c == 'm' {
        -3
    } else if c == 'k' || c == 'K' {
        3
    } else if c == 'M' {
        if unit == 'H' {
            -3
        } else {
            6
        }
    } else if c == 'G' {
        9
    } else {
        return None;
    };
    if prefix_is_real(e, unit) {
        Some(e)
    } else {
        None
    }
}

/// The unit's own letter, in either case, or the ohm sign of a resistor.
pub open spec fn unit_char(c: char, unit: char) -> bool {
    (unit == 'R' && c == '\u{3a9}') || ascii_upper(c) == unit
}

/// Whether a character is the unit's own letter.
pub fn is_unit_char(c: char, unit: char) -> (r: bool)
    ensures
        r == unit_char(c, unit),
{
    (unit == 'R' && c == '\u{3a9}') || upper_char(c) == unit
}

/// The text without "ohm" or "ohms" at its end; only resistances spell their unit out.
pub open spec fn without_word(s: Seq<char>, unit: char) -> Seq<char> {
    let lower = ascii_lower_text(s);
    if unit != 'R' {
        s
    } else if ends_with(lower, "ohms"@) {
        s.take(s.len() - 4)
    } else if ends_with(lower, "ohm"@) {
        s.take(s.len() - 3)
    } else {
        s
    }
}

/// The text without "ohm" or "ohms" at its end.
pub fn strip_long_unit_word(tok: &str, unit: char) -> (r: String)
    ensures
        r@ == without_word(tok@, unit),
{
    if unit != 'R' {
        return tok.to_owned();
    }
    proof {
        reveal_strlit("ohm");
        reveal_strlit("ohms");
    }
    let v = chars_of(tok);
    let lower = ascii_lowered(tok);
    if text_ends_with(lower.as_str(), "ohms") {
        assert(v@.subrange(0, v@.len() - 4) =~= v@.take(v@.len() - 4));
        text_of(&v, 0, v.len() - 4)
    } else if text_ends_with(lower.as_str(), "ohm") {
        assert(v@.subrange(0, v@.len() - 3) =~= v@.take(v@.len() - 3));
        text_of(&v, 0, v.len() - 3)
    } else {
        tok.to_owned()
    }
}

/// A digit or the point of a number.
pub open spec fn number_char(c: char) -> bool {
    is_digit(c) || c == '.'
}

/// How many characters of a number the text starts with.
pub open spec fn number_len(s: Seq<char>) -> nat
    decreases s.len(),
{
    if s.len() > 0 && number_char(s[0]) {
        1 + number_len(s.skip(1))
    } else {
        0
    }
}

pub open spec fn dot_count(s: Seq<char>) -> nat
    decreases s.len(),
{
    if s.len() == 0 {
        0
    } else {
        dot_count(s.drop_last()) + (if s.last() == '.' {
            1nat
        } else {
            0nat
        })
    }
}

/// Digits and dots that spell a number: at least one digit, at most one dot.
pub open spec fn spells_number(s: Seq<char>) -> bool {
    dot_count(s) <= 1 && dot_count(s) < s.len()
}

/// The run of digits and points is the only one with its two properties.
pub proof fn lemma_number_len(s: Seq<char>, n: int)
    requires
        0 <= n <= s.len(),
        forall|i: int| 0 <= i < n ==> number_char(#[trigger] s[i]),
        n < s.len() ==> !number_char(s[n]),
    ensures
        number_len(s) == n,
    decreases s.len(),
{
    if n > 0 {
        assert(number_char(s[0]));
        assert forall|i: int| 0 <= i < n - 1 implies number_char(#[trigger] s.skip(1)[i]) by {
            assert(s.skip(1)[i] == s[i + 1]);
        }
        lemma_number_len(s.skip(1), n - 1);
    }
}

/// Whether a character is a digit or the point of a number.
pub fn is_number_char(c: char) -> (r: bool)
    ensures
        r == number_char(c),
{
    ('0' <= c && c <= '9') || c == '.'
}

/// How many of the first `n` characters are points.
pub fn count_dots(v: &Vec<char>, n: usize) -> (r: usize)
    requires
        n <= v.len(),
    ensures
        r == dot_count(v@.take(n as int)),
        r <= n,
{
    let mut dots: usize = 0;
    let mut i: usize = 0;
    assert(v@.take(0) =~= Seq::<char>::empty());
    while i < n
        invariant
            i <= n <= v.len(),
            dots <= i,
            dots == dot_count(v@.take(i as int)),
        decreases n - i,
    {
        assert(v@.take(i + 1).drop_last() =~= v@.take(i as int));
        if v[i] == '.' {
            dots += 1;
        }
        i += 1;
    }
    dots
}

/// The text behind its sign, where it has one.
pub open spec fn unsigned_part(s: Seq<char>) -> Seq<char> {
    if s.len() > 0 && (s[0] == '+' || s[0] == '-') {
        s.skip(1)
    } else {
        s
    }
}

/// A number in decimal digits: a sign or none, digits with at most one point among them, and
/// a power of ten or none behind an "e".
pub open spec fn is_decimal(s: Seq<char>) -> bool {
    let t = unsigned_part(s);
    let n = number_len(t) as int;
    let rest = t.skip(n);
    spells_number(t.take(n)) && (rest.len() == 0 || ((rest[0] == 'e' || rest[0] == 'E') && {
        let power = unsigned_part(rest.skip(1));
        power.len() > 0 && all_digits(power)
    }))
}

fn behind_sign(v: &Vec<char>, at: usize) -> (r: usize)
    requires
        at <= v.len(),
    ensures
        at <= r <= v.len(),
        v@.skip(r as int) == unsigned_part(v@.skip(at as int)),
{
    let ghost s = v@.skip(at as int);
    if at < v.len() {
        assert(s[0] == v@[at as int]);
        if v[at] == '+' || v[at] == '-' {
            assert(s.skip(1) =~= v@.skip(at + 1));
            return at + 1;
        }
    }
    at
}

/// Whether a text is a number in decimal digits.
fn spells_decimal(s: &str) -> (r: bool)
    ensures
        r == is_decimal(s@),
{
    let v = chars_of(s);
    assert(v@.skip(0) =~= v@);
    let from = behind_sign(&v, 0);
    let ghost t = v@.skip(from as int);
    let mut n: usize = from;
    while n < v.len() && is_number_char(v[n])
        invariant
            from <= n <= v.len(),
            t == v@.skip(from as int),
            forall|i: int| 0 <= i < n - from ==> number_char(#[trigger] t[i]),
        decreases v.len() - n,
    {
        assert(t[n - from] == v@[n as int]);
        n += 1;
    }
    proof {
        if n < v.len() {
            assert(t[n - from] == v@[n as int]);
        }
        lemma_number_len(t, n - from);
    }
    let digits = chars_of(text_of(&v, from, n).as_str());
    assert(digits@ =~= t.take(n - from));
    assert(digits@.take(digits@.len() as int) =~= digits@);
    let dots = count_dots(&digits, digits.len());
    if dots > 1 || dots == digits.len() {
        return false;
    }
    let ghost rest = t.skip(n - from);
    assert(rest =~= v@.skip(n as int));
    if n == v.len() {
        return true;
    }
    assert(rest[0] == v@[n as int]);
    if v[n] != 'e' && v[n] != 'E' {
        return false;
    }
    assert(rest.skip(1) =~= v@.skip(n + 1));
    let power = behind_sign(&v, n + 1);
    power < v.len() && has_only_digits(&v, power)
}

/// How many digits may follow a letter that stands for the decimal point. Markings have at
/// most four figures; a longer run is a part number.
pub const MAX_DECIMAL_MARKER_DIGITS: usize = 3;

/// A number as a value spells it, and the power of ten it is multiplied by.
#[derive(Debug)]
pub struct Reading {
    pub number: String,
    pub exponent: i32,
}

pub struct ReadingModel {
    pub number: Seq<char>,
    pub exponent: int,
}

pub open spec fn opt_reading(r: Option<Reading>) -> Option<ReadingModel> {
    match r {
        Some(r) => Some(ReadingModel { number: r.number@, exponent: r.exponent as int }),
        None => None,
    }
}

/// A prefix or the unit.
pub open spec fn is_marker(c: char, unit: char) -> bool {
    prefix_exponent(c, unit) is Some || unit_char(c, unit)
}

/// The place of the first prefix or unit letter.
pub open spec fn marker_place(s: Seq<char>, unit: char) -> Option<int> {
    first_where(|i: int| is_marker(s[i], unit), 0, s.len() as int)
}

/// The reading, where its number is one in decimal digits.
pub open spec fn checked_reading(number: Seq<char>, exponent: int) -> Option<ReadingModel> {
    if is_decimal(number) {
        Some(ReadingModel { number, exponent })
    } else {
        None
    }
}

/// How a token with its unit word taken off reads.
pub open spec fn stripped_reading(s: Seq<char>, unit: char) -> Option<ReadingModel> {
    if s.len() == 0 {
        None
    } else {
        match marker_place(s, unit) {
            None => checked_reading(s, 0),
            Some(pos) => {
                let whole = s.take(pos);
                let tail = s.skip(pos + 1);
                let exponent = match prefix_exponent(s[pos], unit) {
                    Some(e) => e,
                    None => 0,
                };
                if pos == 0 {
                    None
                } else if tail.len() == 0 || (tail.len() == 1 && !is_digit(tail[0]) && unit_char(
                    tail[0],
                    unit,
                )) {
                    checked_reading(whole, exponent)
                } else if all_digits(tail) && tail.len() <= MAX_DECIMAL_MARKER_DIGITS {
                    checked_reading(whole + "."@ + tail, exponent)
                } else {
                    None
                }
            },
        }
    }
}

/// How a token reads: "348k", "0.1uF", or "4R7" with a letter for the decimal point. One
/// without digits in front reads as nothing.
pub open spec fn token_reading(s: Seq<char>, unit: char) -> Option<ReadingModel> {
    stripped_reading(without_word(s, unit), unit)
}

fn find_marker(v: &Vec<char>, unit: char) -> (r: Option<usize>)
    ensures
        match marker_place(v@, unit) {
            Some(i) => r matches Some(k) && k == i && k < v.len(),
            None => r is None,
        },
{
    let ghost p = |i: int| is_marker(v@[i], unit);
    let mut i: usize = 0;
    while i < v.len()
        invariant
            i <= v.len(),
            p == (|i: int| is_marker(v@[i], unit)),
            forall|k: int| 0 <= k < i ==> !#[trigger] p(k),
        decreases v.len() - i,
    {
        if si_prefix(v[i], unit).is_some() || is_unit_char(v[i], unit) {
            proof {
                assert(p(i as int));
                lemma_first_where(p, 0, v@.len() as int, i as int);
            }
            return Some(i);
        }
        assert(!p(i as int));
        i += 1;
    }
    proof {
        lemma_first_where(p, 0, v@.len() as int, i as int);
    }
    None
}

fn has_only_digits(v: &Vec<char>, from: usize) -> (r: bool)
    requires
        from <= v.len(),
    ensures
        r == all_digits(v@.skip(from as int)),
{
    let ghost tail = v@.skip(from as int);
    let mut i: usize = from;
    while i < v.len()
        invariant
            from <= i <= v.len(),
            tail == v@.skip(from as int),
            forall|k: int| 0 <= k < i - from ==> is_digit(#[trigger] tail[k]),
        decreases v.len() - i,
    {
        assert(tail[i - from] == v@[i as int]);
        if v[i] < '0' || '9' < v[i] {
            return false;
        }
        i += 1;
    }
    true
}

fn check_reading(number: String, exponent: i32) -> (r: Option<Reading>)
    ensures
        opt_reading(r) == checked_reading(number@, exponent as int),
{
    if spells_decimal(number.as_str()) {
        Some(Reading { number, exponent })
    } else {
        None
    }
}

/// How one token of a value reads; `None` where it carries no number.
pub fn parse_value_token(tok: &str, unit: char) -> (r: Option<Reading>)
    ensures
        opt_reading(r) == token_reading(tok@, unit),
{
    let stripped = strip_long_unit_word(tok, unit);
    let v = chars_of(stripped.as_str());
    let ghost s = v@;
    if v.len() == 0 {
        return None;
    }
    let pos = match find_marker(&v, unit) {
        None => return check_reading(stripped, 0),
        Some(pos) => pos,
    };
    if pos == 0 {
        return None;
    }
    let exponent: i32 = match si_prefix(v[pos], unit) {
        Some(e) => e,
        None => 0,
    };
    let mut number = text_of(&v, 0, pos);
    assert(s.subrange(0, pos as int) =~= s.take(pos as int));
    let n = v.len() - pos - 1;
    let ghost tail = s.skip(pos + 1);
    assert(n == 1 ==> tail[0] == v@[pos + 1]);
    if n == 0 {
        return check_reading(number, exponent);
    }
    if has_only_digits(&v, pos + 1) && n <= MAX_DECIMAL_MARKER_DIGITS {
        assert(n == 1 ==> is_digit(tail[0]));
        let digits = text_of(&v, pos + 1, v.len());
        assert(s.subrange(pos + 1, s.len() as int) =~= tail);
        number.append(".");
        number.append(digits.as_str());
        return check_reading(number, exponent);
    }
    if n == 1 && is_unit_char(v[pos + 1], unit) {
        assert(!is_digit(tail[0])) by {
            if is_digit(tail[0]) {
                assert(all_digits(tail));
            }
        }
        return check_reading(number, exponent);
    }
    assert(n == 1 ==> !unit_char(tail[0], unit));
    None
}

/// The power of ten that a token without digits stands for. A lone prefix counts only
/// directly behind the number: further on it is a tolerance or dielectric code.
pub open spec fn unit_token_exponent(s: Seq<char>, unit: char, adjacent: bool) -> Option<int> {
    let t = without_word(s, unit);
    if t.len() == 1 && unit_char(t[0], unit) {
        Some(0)
    } else if t.len() == 1 && adjacent {
        prefix_exponent(t[0], unit)
    } else if t.len() == 2 && unit_char(t[1], unit) {
        prefix_exponent(t[0], unit)
    } else {
        None
    }
}

/// The power of ten that a token without digits stands for.
pub fn parse_unit_only_token(tok: &str, unit: char, adjacent: bool) -> (r: Option<i32>)
    ensures
        opt_int(r) == unit_token_exponent(tok@, unit, adjacent),
{
    let v = chars_of(strip_long_unit_word(tok, unit).as_str());
    if v.len() == 1 {
        if is_unit_char(v[0], unit) {
            Some(0)
        } else if adjacent {
            si_prefix(v[0], unit)
        } else {
            None
        }
    } else if v.len() == 2 && is_unit_char(v[1], unit) {
        si_prefix(v[0], unit)
    } else {
        None
    }
}

/// The power of ten that the first of the tokens from place `k` on to state one states.
pub open spec fn later_exponent(tokens: Seq<Seq<char>>, unit: char, k: int) -> int
    decreases tokens.len() - k,
{
    if k >= tokens.len() {
        0
    } else {
        match unit_token_exponent(tokens[k], unit, k == 1) {
            Some(e) => e,
            None => later_exponent(tokens, unit, k + 1),
        }
    }
}

/// How the tokens of a value read: the first is the value; where it is a bare number, a
/// later one may state the prefix.
pub open spec fn simple_reading(tokens: Seq<Seq<char>>, unit: char) -> Option<ReadingModel> {
    if tokens.len() == 0 {
        None
    } else {
        let first = without_word(tokens[0], unit);
        if first.len() == 0 {
            None
        } else if marker_place(first, unit) is Some {
            token_reading(tokens[0], unit)
        } else {
            checked_reading(first, later_exponent(tokens, unit, 1))
        }
    }
}

/// How a value reads.
pub open spec fn value_reading(value: Seq<char>, unit: char) -> Option<ReadingModel> {
    simple_reading(fields(value, Whitespace), unit)
}

/// How the value of a resistor, capacitor or inductor reads. Ratings and codes behind the
/// value are left aside.
pub fn read_simple_value(value: &str, unit: char) -> (r: Option<Reading>)
    ensures
        opt_reading(r) == value_reading(value@, unit),
{
    let tokens = split_fields(value, &Whitespace);
    let ghost all = texts(tokens@);
    if tokens.len() == 0 {
        return None;
    }
    assert(all[0] == tokens@[0]@);
    let stripped = strip_long_unit_word(tokens[0].as_str(), unit);
    let v = chars_of(stripped.as_str());
    if v.len() == 0 {
        return None;
    }
    if find_marker(&v, unit).is_some() {
        return parse_value_token(tokens[0].as_str(), unit);
    }
    let mut k: usize = 1;
    while k < tokens.len()
        invariant
            1 <= k <= tokens.len(),
            all == texts(tokens@),
            all == fields(value@, Whitespace),
            stripped@ == without_word(all[0], unit),
            stripped@.len() > 0,
            marker_place(stripped@, unit) is None,
            later_exponent(all, unit, 1) == later_exponent(all, unit, k as int),
        decreases tokens.len() - k,
    {
        assert(all[k as int] == tokens@[k as int]@);
        if let Some(e) = parse_unit_only_token(tokens[k].as_str(), unit, k == 1) {
            return check_reading(stripped, e);
        }
        k += 1;
    }
    check_reading(stripped, 0)
}

proof fn lemma_points_alone(s: Seq<char>)
    requires
        forall|i: int| 0 <= i < s.len() ==> #[trigger] s[i] == '.',
    ensures
        dot_count(s) == s.len(),
    decreases s.len(),
{
    if s.len() > 0 {
        assert(s.last() == '.');
        assert forall|i: int| 0 <= i < s.drop_last().len() implies #[trigger] s.drop_last()[i]
            == '.' by {
            assert(s.drop_last()[i] == s[i]);
        }
        lemma_points_alone(s.drop_last());
    }
}

proof fn lemma_number_run(s: Seq<char>)
    ensures
        number_len(s) <= s.len(),
        forall|i: int| 0 <= i < number_len(s) ==> number_char(#[trigger] s[i]),
    decreases s.len(),
{
    if s.len() > 0 && number_char(s[0]) {
        let t = s.skip(1);
        lemma_number_run(t);
        assert forall|i: int| 0 <= i < number_len(s) implies number_char(#[trigger] s[i]) by {
            if i > 0 {
                assert(s[i] == t[i - 1]);
            }
        }
    }
}

/// A number in decimal digits has a digit in it.
pub proof fn lemma_decimal_has_digit(s: Seq<char>)
    requires
        is_decimal(s),
    ensures
        exists|i: int| 0 <= i < s.len() && is_digit(#[trigger] s[i]),
{
    let t = unsigned_part(s);
    lemma_number_run(t);
    let n = number_len(t) as int;
    let m = t.take(n);
    let from = s.len() - t.len();
    if forall|i: int| 0 <= i < m.len() ==> #[trigger] m[i] == '.' {
        lemma_points_alone(m);
    }
    let i = choose|i: int| 0 <= i < m.len() && #[trigger] m[i] != '.';
    assert(number_char(t[i]) && m[i] == t[i] && t[i] == s[from + i]);
    assert(is_digit(s[from + i]));
}

/// A token without a digit, such as "placeholder" or a bare "R", reads as nothing, and so
/// does a value whose first token has none.
pub proof fn lemma_no_digits_no_reading(s: Seq<char>, unit: char)
    requires
        forall|i: int| 0 <= i < s.len() ==> !is_digit(#[trigger] s[i]),
    ensures
        token_reading(s, unit) is None,
        forall|tokens: Seq<Seq<char>>|
            tokens.len() > 0 && tokens[0] == s ==> #[trigger] simple_reading(tokens, unit) is None,
{
    reveal_strlit("ohm");
    reveal_strlit("ohms");
    reveal_strlit(".");
    let t = without_word(s, unit);
    assert forall|i: int| 0 <= i < t.len() implies !is_digit(#[trigger] t[i]) by {
        assert(t[i] == s[i]);
    }
    if is_decimal(t) {
        lemma_decimal_has_digit(t);
    }
    if let Some(pos) = marker_place(t, unit) {
        lemma_first_where_found(|i: int| is_marker(t[i], unit), 0, t.len() as int);
        let whole = t.take(pos);
        let tail = t.skip(pos + 1);
        assert forall|i: int| 0 <= i < whole.len() implies !is_digit(#[trigger] whole[i]) by {
            assert(whole[i] == t[i]);
        }
        if is_decimal(whole) {
            lemma_decimal_has_digit(whole);
        }
        if tail.len() > 0 {
            assert(tail[0] == t[pos + 1]);
            assert(!is_digit(tail[0]));
        }
    }
}

} // verus!
