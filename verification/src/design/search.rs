//! Ranked search: how a component matches a query, and the best matches first.
use vstd::prelude::*;

use super::classes::{natural_key, push_natural};
use super::details::{find_keywords, keywords_of};
use super::filter::FilterRow;
use super::search_laws::{lemma_how_it_matches, match_told};
use super::{Component, Design};
use crate::lists::{arranged, page};
use crate::parser::netlist::opt_text;
use crate::ranking::{key_of, key_order, keys_of, lemma_ranked, places, rank, ranked};
use crate::ranking::{Key, Mark, Part};
use crate::text::{alphanumeric, chars_of, contains, decimal, decimal_text, fields};
use crate::text::{lowercase, same_text, split_fields, starts_with, text_contains};
use crate::text::{text_starts_with, texts, trim_matches, trimmed, Punctuation, Whitespace};

verus! {

/// The letters and numbers of a text in their order.
pub open spec fn only_alphanumeric(s: Seq<char>) -> Seq<char>
    decreases s.len(),
{
    if s.len() == 0 {
        Seq::empty()
    } else if alphanumeric(s.last()) {
        only_alphanumeric(s.drop_last()).push(s.last())
    } else {
        only_alphanumeric(s.drop_last())
    }
}

/// A text as identities are compared by: lowercased, letters and numbers only.
pub open spec fn squashed(s: Seq<char>) -> Seq<char> {
    only_alphanumeric(lowercase(s))
}

/// The text lowercased, with nothing but its letters and numbers, so that "ADS-1115" and
/// "ads1115" are the same.
pub fn squash(s: &str) -> (r: String)
    ensures
        r@ == squashed(s@),
{
    let v = chars_of(s.to_lowercase().as_str());
    let ghost all = lowercase(s@);
    let mut out = String::new();
    let mut i: usize = 0;
    assert(all.take(0) =~= Seq::<char>::empty());
    while i < v.len()
        invariant
            i <= v.len(),
            v@ == all,
            out@ == only_alphanumeric(all.take(i as int)),
        decreases v.len() - i,
    {
        let ghost next = all.take(i + 1);
        assert(next.drop_last() =~= all.take(i as int));
        if v[i].is_alphanumeric() {
            out.push(v[i]);
        }
        i += 1;
    }
    assert(all.take(all.len() as int) =~= all);
    out
}

/// One text is a prefix of the other, and they share at least `min` characters.
pub open spec fn shares_base(a: Seq<char>, b: Seq<char>, min: int) -> bool {
    &&& a.len() >= min
    &&& b.len() >= min
    &&& starts_with(a, b) || starts_with(b, a)
}

/// Whether one of two squashed texts is a prefix of the other: a part number may be given
/// in part, or with more behind it than the field holds.
pub fn base_match(a: &str, b: &str, min: usize) -> (r: bool)
    ensures
        r == shares_base(a@, b@, min as int),
{
    if chars_of(a).len() < min || chars_of(b).len() < min {
        return false;
    }
    text_starts_with(a, b) || text_starts_with(b, a)
}

/// The words of a text: its runs of letters and numbers, lowercased.
pub open spec fn tokens_of(s: Seq<char>) -> Seq<Seq<char>> {
    fields(lowercase(s), Punctuation)
}

/// The words of a text, so that a term is held against whole words and "res" does not
/// match "pressure".
pub fn tokenize(s: &str) -> (r: Vec<String>)
    ensures
        texts(r@) == tokens_of(s@),
{
    split_fields(s.to_lowercase().as_str(), &Punctuation)
}

/// A term matches a field if one of the field's words starts with it.
pub open spec fn term_hits(term: Seq<char>, tokens: Seq<Seq<char>>) -> bool {
    exists|i: int| 0 <= i < tokens.len() && starts_with(#[trigger] tokens[i], term)
}

/// Whether one of the words is the term or starts with it.
pub fn term_matches_field(term: &str, tokens: &Vec<String>) -> (r: bool)
    ensures
        r == term_hits(term@, texts(tokens@)),
{
    let mut i: usize = 0;
    while i < tokens.len()
        invariant
            i <= tokens.len(),
            forall|k: int| 0 <= k < i ==> !starts_with(#[trigger] texts(tokens@)[k], term@),
        decreases tokens.len() - i,
    {
        assert(texts(tokens@)[i as int] == tokens@[i as int]@);
        if text_starts_with(tokens[i].as_str(), term) {
            return true;
        }
        i += 1;
    }
    false
}

/// How many of the terms match a field's words.
pub open spec fn hit_count(terms: Seq<Seq<char>>, tokens: Seq<Seq<char>>) -> nat
    decreases terms.len(),
{
    if terms.len() == 0 {
        0
    } else {
        hit_count(terms.drop_last(), tokens) + (if term_hits(terms.last(), tokens) {
            1nat
        } else {
            0nat
        })
    }
}

/// A field that terms are held against, the one that says most first.
#[derive(Debug, Clone, Copy, PartialEq, Eq, Structural)]
pub enum Field {
    Value,
    Keywords,
    Description,
    Footprint,
    Sheet,
}

pub open spec fn field_label(f: Field) -> Seq<char> {
    match f {
        Field::Value => "value"@,
        Field::Keywords => "keywords"@,
        Field::Description => "description"@,
        Field::Footprint => "footprint"@,
        Field::Sheet => "sheet"@,
    }
}

/// What a component counts for that matches all terms in a field, as the bits of a score.
/// A sheet says where a part is drawn and not what it is, so it counts least.
pub open spec fn field_weight(f: Field) -> u32 {
    match f {
        Field::Value => 0x3f19999a,
        Field::Keywords => 0x3f147ae1,
        Field::Description => 0x3ef5c28f,
        Field::Footprint => 0x3ea3d70a,
        Field::Sheet => 0x3e800000,
    }
}

impl Field {
    /// The bits of what the field counts for: 0.60, 0.58, 0.48, 0.32 and 0.25.
    pub fn weight_bits(&self) -> (r: u32)
        ensures
            r == field_weight(*self),
    {
        match self {
            Field::Value => 0x3f19999a,
            Field::Keywords => 0x3f147ae1,
            Field::Description => 0x3ef5c28f,
            Field::Footprint => 0x3ea3d70a,
            Field::Sheet => 0x3e800000,
        }
    }

    /// The field's name.
    pub fn label(&self) -> (r: &'static str)
        ensures
            r@ == field_label(*self),
    {
        match self {
            Field::Value => "value",
            Field::Keywords => "keywords",
            Field::Description => "description",
            Field::Footprint => "footprint",
            Field::Sheet => "sheet",
        }
    }
}

/// How many terms match a field.
#[derive(Debug, Clone, Copy, PartialEq, Eq, Structural)]
pub struct FieldHits {
    pub field: Field,
    pub matched: usize,
}

/// How a component matches a query, from the surest match down.
#[derive(Debug)]
pub enum Match {
    /// The query is the component's value.
    ExactValue,
    /// The query is the component's designator.
    ExactRefdes,
    /// The value starts with the query.
    ValueStartsWithQuery,
    /// The query starts with the value.
    QueryStartsWithValue,
    /// The value holds the query.
    ValueHoldsQuery,
    /// All terms match one field, and none before it.
    AllTerms(Field),
    /// Some terms match some fields, and all match none.
    SomeTerms(Vec<FieldHits>),
}

pub enum MatchModel {
    ExactValue,
    ExactRefdes,
    ValueStartsWithQuery,
    QueryStartsWithValue,
    ValueHoldsQuery,
    AllTerms(Field),
    SomeTerms(Seq<FieldHits>),
}

impl View for Match {
    type V = MatchModel;

    open spec fn view(&self) -> MatchModel {
        match self {
            Match::ExactValue => MatchModel::ExactValue,
            Match::ExactRefdes => MatchModel::ExactRefdes,
            Match::ValueStartsWithQuery => MatchModel::ValueStartsWithQuery,
            Match::QueryStartsWithValue => MatchModel::QueryStartsWithValue,
            Match::ValueHoldsQuery => MatchModel::ValueHoldsQuery,
            Match::AllTerms(f) => MatchModel::AllTerms(*f),
            Match::SomeTerms(v) => MatchModel::SomeTerms(v@),
        }
    }
}

pub open spec fn opt_match(m: Option<Match>) -> Option<MatchModel> {
    match m {
        Some(m) => Some(m@),
        None => None,
    }
}

/// The text of a field.
pub open spec fn field_text(c: Component, f: Field) -> Option<Seq<char>> {
    match f {
        Field::Value => Some(c.value@),
        Field::Keywords => opt_text(keywords_of(c)),
        Field::Description => opt_text(c.description),
        Field::Footprint => opt_text(c.footprint),
        Field::Sheet => opt_text(c.sheet),
    }
}

/// How many terms match a field.
pub open spec fn field_hits(terms: Seq<Seq<char>>, c: Component, f: Field) -> nat {
    match field_text(c, f) {
        Some(s) => hit_count(terms, tokens_of(s)),
        None => 0,
    }
}

/// The fields in the order in which they count.
pub open spec fn field_order() -> Seq<Field> {
    seq![Field::Value, Field::Keywords, Field::Description, Field::Footprint, Field::Sheet]
}

/// The first of the fields from place `k` on that all terms match.
pub open spec fn full_field(terms: Seq<Seq<char>>, c: Component, k: int) -> Option<Field>
    decreases 5 - k,
{
    if k >= 5 {
        None
    } else if field_hits(terms, c, field_order()[k]) == terms.len() {
        Some(field_order()[k])
    } else {
        full_field(terms, c, k + 1)
    }
}

/// Those of the first `k` fields that some terms match, each with how many.
pub open spec fn partial_hits(terms: Seq<Seq<char>>, c: Component, k: int) -> Seq<FieldHits>
    decreases k,
{
    if k <= 0 {
        Seq::empty()
    } else {
        let f = field_order()[k - 1];
        let n = field_hits(terms, c, f);
        if n > 0 {
            partial_hits(terms, c, k - 1).push(FieldHits { field: f, matched: n as usize })
        } else {
            partial_hits(terms, c, k - 1)
        }
    }
}

/// How a component's fields match the terms of a query.
pub open spec fn term_match(terms: Seq<Seq<char>>, c: Component) -> Option<MatchModel> {
    if terms.len() == 0 {
        None
    } else {
        match full_field(terms, c, 0) {
            Some(f) => Some(MatchModel::AllTerms(f)),
            None => {
                let hits = partial_hits(terms, c, 5);
                if hits.len() == 0 {
                    None
                } else {
                    Some(MatchModel::SomeTerms(hits))
                }
            },
        }
    }
}

/// The shortest prefix that counts as a part number.
pub const BASE_LEN: usize = 4;

/// How a component matches a query, given squashed and as terms.
pub open spec fn match_of(query: Seq<char>, terms: Seq<Seq<char>>, c: Component) -> Option<
    MatchModel,
> {
    let value = squashed(c.value@);
    if query.len() > 0 && query == value {
        Some(MatchModel::ExactValue)
    } else if query.len() > 0 && query == squashed(c.refdes@) {
        Some(MatchModel::ExactRefdes)
    } else if shares_base(value, query, BASE_LEN as int) {
        if starts_with(value, query) {
            Some(MatchModel::ValueStartsWithQuery)
        } else {
            Some(MatchModel::QueryStartsWithValue)
        }
    } else if query.len() > 0 && contains(value, query) {
        Some(MatchModel::ValueHoldsQuery)
    } else {
        term_match(terms, c)
    }
}

fn count_hits(terms: &Vec<String>, text: &str) -> (r: usize)
    ensures
        r == hit_count(texts(terms@), tokens_of(text@)),
        r <= terms.len(),
{
    let tokens = tokenize(text);
    let ghost all = texts(terms@);
    let mut n: usize = 0;
    let mut i: usize = 0;
    assert(all.take(0) =~= Seq::<Seq<char>>::empty());
    while i < terms.len()
        invariant
            i <= terms.len(),
            all == texts(terms@),
            texts(tokens@) == tokens_of(text@),
            n <= i,
            n == hit_count(all.take(i as int), tokens_of(text@)),
        decreases terms.len() - i,
    {
        let ghost next = all.take(i + 1);
        assert(next.drop_last() =~= all.take(i as int));
        assert(next.last() == terms@[i as int]@);
        if term_matches_field(terms[i].as_str(), &tokens) {
            n += 1;
        }
        i += 1;
    }
    assert(all.take(all.len() as int) =~= all);
    n
}

fn count_opt_hits(terms: &Vec<String>, text: &Option<String>) -> (r: usize)
    ensures
        r == (match opt_text(*text) {
            Some(s) => hit_count(texts(terms@), tokens_of(s)),
            None => 0,
        }),
        r <= terms.len(),
{
    match text {
        Some(s) => count_hits(terms, s.as_str()),
        None => 0,
    }
}

fn count_field_hits(terms: &Vec<String>, c: &Component, f: Field) -> (r: usize)
    ensures
        r == field_hits(texts(terms@), *c, f),
        r <= terms.len(),
{
    match f {
        Field::Value => count_hits(terms, c.value.as_str()),
        Field::Keywords => count_opt_hits(terms, &find_keywords(c)),
        Field::Description => count_opt_hits(terms, &c.description),
        Field::Footprint => count_opt_hits(terms, &c.footprint),
        Field::Sheet => count_opt_hits(terms, &c.sheet),
    }
}

fn field_at(k: usize) -> (r: Field)
    requires
        k < 5,
    ensures
        r == field_order()[k as int],
{
    if k == 0 {
        Field::Value
    } else if k == 1 {
        Field::Keywords
    } else if k == 2 {
        Field::Description
    } else if k == 3 {
        Field::Footprint
    } else {
        Field::Sheet
    }
}

/// How a component's fields match the terms of a query: the first field that all of them
/// match, or else the fields that some match.
pub fn match_terms(terms: &Vec<String>, c: &Component) -> (r: Option<Match>)
    ensures
        opt_match(r) == term_match(texts(terms@), *c),
{
    let ghost all = texts(terms@);
    if terms.len() == 0 {
        return None;
    }
    let mut hits: Vec<FieldHits> = Vec::new();
    let mut k: usize = 0;
    while k < 5
        invariant
            k <= 5,
            all == texts(terms@),
            terms.len() > 0,
            hits@ == partial_hits(all, *c, k as int),
            full_field(all, *c, 0) == full_field(all, *c, k as int),
        decreases 5 - k,
    {
        let field = field_at(k);
        let matched = count_field_hits(terms, c, field);
        if matched == terms.len() {
            return Some(Match::AllTerms(field));
        }
        if matched > 0 {
            hits.push(FieldHits { field, matched });
        }
        k += 1;
    }
    if hits.len() == 0 {
        None
    } else {
        Some(Match::SomeTerms(hits))
    }
}

/// How a component matches a query: the surest way that it does.
pub fn match_component(query_squash: &str, terms: &Vec<String>, comp: &Component) -> (r: Option<
    Match,
>)
    ensures
        opt_match(r) == match_of(query_squash@, texts(terms@), *comp),
{
    let value_squash = squash(comp.value.as_str());
    let refdes_squash = squash(comp.refdes.as_str());
    if !query_squash.is_empty() {
        if same_text(query_squash, value_squash.as_str()) {
            return Some(Match::ExactValue);
        }
        if same_text(query_squash, refdes_squash.as_str()) {
            return Some(Match::ExactRefdes);
        }
    }
    if base_match(value_squash.as_str(), query_squash, BASE_LEN) {
        if text_starts_with(value_squash.as_str(), query_squash) {
            return Some(Match::ValueStartsWithQuery);
        }
        return Some(Match::QueryStartsWithValue);
    }
    if !query_squash.is_empty() && text_contains(value_squash.as_str(), query_squash) {
        return Some(Match::ValueHoldsQuery);
    }
    match_terms(terms, comp)
}

/// Why a match counts, in words. Of several partly matched fields the one at `best` is
/// named.
pub open spec fn reason_of(m: MatchModel, n: nat, best: int) -> Seq<char> {
    match m {
        MatchModel::ExactValue => "exact value"@,
        MatchModel::ExactRefdes => "exact refdes"@,
        MatchModel::ValueStartsWithQuery => "value base-match (field starts with query)"@,
        MatchModel::QueryStartsWithValue => "value base-match (query starts with field)"@,
        MatchModel::ValueHoldsQuery => "value substring"@,
        MatchModel::AllTerms(f) => "all terms in "@ + field_label(f),
        MatchModel::SomeTerms(v) => "matched "@ + decimal(v[best].matched as nat) + "/"@ + decimal(n)
            + " terms in "@ + field_label(v[best].field),
    }
}

impl Match {
    /// Why the match counts, of `n` terms in all.
    pub fn reason(&self, n: usize, best: usize) -> (r: String)
        requires
            self@ matches MatchModel::SomeTerms(v) ==> best < v.len(),
        ensures
            r@ == reason_of(self@, n as nat, best as int),
    {
        match self {
            Match::ExactValue => "exact value".to_owned(),
            Match::ExactRefdes => "exact refdes".to_owned(),
            Match::ValueStartsWithQuery => "value base-match (field starts with query)".to_owned(),
            Match::QueryStartsWithValue => "value base-match (query starts with field)".to_owned(),
            Match::ValueHoldsQuery => "value substring".to_owned(),
            Match::AllTerms(f) => {
                let mut out = "all terms in ".to_owned();
                out.append(f.label());
                out
            },
            Match::SomeTerms(v) => {
                let mut out = "matched ".to_owned();
                out.append(decimal_text(v[best].matched).as_str());
                out.append("/");
                out.append(decimal_text(n).as_str());
                out.append(" terms in ");
                out.append(v[best].field.label());
                out
            },
        }
    }
}

/// What a partly matched field is worth: its weight times the share of the terms that it
/// matches, and the score that follows from that, each by its bits. Scores are numbers
/// from 0 up, whose bits are ordered as they are.
#[derive(Debug, Clone, Copy, PartialEq, Eq, Structural)]
pub struct Worth {
    pub ratio_bits: u32,
    pub score_bits: u32,
}

/// The bits of 1.0, of 0.85 and of 0.65: an exact match, one of a part number's base, and
/// a value that holds the query.
pub const EXACT_BITS: u32 = 0x3f800000;

pub const BASE_BITS: u32 = 0x3f59999a;

pub const SUBSTRING_BITS: u32 = 0x3f266666;

/// The bits of 0.15, under which nothing is shown.
pub const FLOOR_BITS: u32 = 0x3e19999a;

/// The most that a partial match counts for: the largest score below that of a sheet.
pub const PARTIAL_BITS: u32 = 0x3e7fffff;

/// Of the first `k` fields the one worth most, the earlier of equals.
pub open spec fn best_upto(w: Seq<Worth>, k: int) -> int
    decreases k,
{
    if k <= 1 {
        0
    } else {
        let b = best_upto(w, k - 1);
        if w[k - 1].ratio_bits > w[b].ratio_bits {
            k - 1
        } else {
            b
        }
    }
}

/// The field worth most.
pub open spec fn best_place(w: Seq<Worth>) -> int {
    best_upto(w, w.len() as int)
}

/// The bits of a partial match's score: it counts for less than any field that all terms
/// match.
pub open spec fn capped(bits: u32) -> u32 {
    if bits > PARTIAL_BITS {
        PARTIAL_BITS
    } else {
        bits
    }
}

/// The bits of what a match counts for.
pub open spec fn confidence(m: MatchModel, w: Seq<Worth>) -> u32 {
    match m {
        MatchModel::ExactValue => EXACT_BITS,
        MatchModel::ExactRefdes => EXACT_BITS,
        MatchModel::ValueStartsWithQuery => BASE_BITS,
        MatchModel::QueryStartsWithValue => BASE_BITS,
        MatchModel::ValueHoldsQuery => SUBSTRING_BITS,
        MatchModel::AllTerms(f) => field_weight(f),
        MatchModel::SomeTerms(_) => capped(w[best_place(w)].score_bits),
    }
}

/// Each partly matched field has its worth.
pub open spec fn valued(m: Option<MatchModel>, w: Seq<Worth>) -> bool {
    m matches Some(MatchModel::SomeTerms(v)) ==> v.len() > 0 && w.len() == v.len()
}

/// A component that a search found, what it counts for and why.
pub struct Hit {
    pub comp: int,
    pub bits: u32,
    pub reason: Seq<char>,
}

/// How a component was found, by how it matches a query of `n` terms; what counts for too
/// little is not.
pub open spec fn hit_of(c: int, m: Option<MatchModel>, w: Seq<Worth>, n: nat) -> Option<Hit> {
    match m {
        None => None,
        Some(m) => if confidence(m, w) >= FLOOR_BITS {
            Some(Hit { comp: c, bits: confidence(m, w), reason: reason_of(m, n, best_place(w)) })
        } else {
            None
        },
    }
}

/// The components among the first `k` that were found, in their order.
pub open spec fn hits_upto(
    matches: Seq<Option<Match>>,
    worths: Seq<Vec<Worth>>,
    n: nat,
    k: int,
) -> Seq<Hit>
    decreases k,
{
    if k <= 0 {
        Seq::empty()
    } else {
        let before = hits_upto(matches, worths, n, k - 1);
        match hit_of(k - 1, opt_match(matches[k - 1]), worths[k - 1]@, n) {
            Some(h) => before.push(h),
            None => before,
        }
    }
}

fn find_best(w: &Vec<Worth>) -> (r: usize)
    requires
        w.len() > 0,
    ensures
        r == best_place(w@),
        r < w.len(),
{
    let mut best: usize = 0;
    let mut k: usize = 1;
    while k < w.len()
        invariant
            1 <= k <= w.len(),
            best < k,
            best == best_upto(w@, k as int),
        decreases w.len() - k,
    {
        if w[k].ratio_bits > w[best].ratio_bits {
            best = k;
        }
        k += 1;
    }
    best
}

impl Match {
    /// The bits of what the match counts for, the worth of its partly matched fields given.
    pub fn confidence_bits(&self, w: &Vec<Worth>) -> (r: u32)
        requires
            valued(Some(self@), w@),
        ensures
            r == confidence(self@, w@),
    {
        match self {
            Match::ExactValue => EXACT_BITS,
            Match::ExactRefdes => EXACT_BITS,
            Match::ValueStartsWithQuery => BASE_BITS,
            Match::QueryStartsWithValue => BASE_BITS,
            Match::ValueHoldsQuery => SUBSTRING_BITS,
            Match::AllTerms(f) => f.weight_bits(),
            Match::SomeTerms(_) => {
                let bits = w[find_best(w)].score_bits;
                if bits > PARTIAL_BITS {
                    PARTIAL_BITS
                } else {
                    bits
                }
            },
        }
    }
}

/// A component that a search found.
#[derive(Debug)]
struct Scored {
    comp: usize,
    score_bits: u32,
    reason: String,
}

impl View for Scored {
    type V = Hit;

    closed spec fn view(&self) -> Hit {
        Hit { comp: self.comp as int, bits: self.score_bits, reason: self.reason@ }
    }
}

spec fn scored_hits(v: Seq<Scored>) -> Seq<Hit> {
    v.map_values(|s: Scored| s@)
}

/// One component that a search found.
#[derive(Debug)]
pub struct Candidate {
    pub row: FilterRow,
    pub score_bits: u32,
    pub match_reason: String,
}

/// What a search found, the best first.
#[derive(Debug)]
pub struct FindEnvelope {
    pub query: String,
    pub returned: usize,
    pub candidates: Vec<Candidate>,
}

impl Design {
    /// The terms of a query.
    pub open spec fn search_terms(query: Seq<char>) -> Seq<Seq<char>> {
        fields(lowercase(query), Whitespace)
    }

    /// How a component matches a query; a blank one matches nothing.
    pub open spec fn query_match(&self, query: Seq<char>, c: int) -> Option<MatchModel> {
        if trimmed(lowercase(query)).len() == 0 {
            None
        } else {
            match_of(squashed(query), Self::search_terms(query), self.components@[c])
        }
    }

    /// The terms of a query.
    pub fn split_query(query: &str) -> (r: Vec<String>)
        ensures
            texts(r@) == Self::search_terms(query@),
    {
        split_fields(query.to_lowercase().as_str(), &Whitespace)
    }

    /// How each component matches a query.
    pub fn match_components(&self, query: &str) -> (r: Vec<Option<Match>>)
        ensures
            r.len() == self.components.len(),
            forall|c: int|
                0 <= c < r.len() ==> opt_match(#[trigger] r@[c]) == self.query_match(query@, c)
                    && match_told(opt_match(r@[c]), self.components@[c], query@),
    {
        let lower = query.to_lowercase();
        let blank = trim_matches(lower.as_str(), &Whitespace).as_str().is_empty();
        let query_squash = squash(query);
        let terms = Self::split_query(query);
        let mut out: Vec<Option<Match>> = Vec::new();
        let mut c: usize = 0;
        while c < self.components.len()
            invariant
                c <= self.components.len(),
                out.len() == c,
                blank == (trimmed(lowercase(query@)).len() == 0),
                query_squash@ == squashed(query@),
                texts(terms@) == Self::search_terms(query@),
                forall|k: int|
                    0 <= k < c ==> opt_match(#[trigger] out@[k]) == self.query_match(query@, k),
            decreases self.components.len() - c,
        {
            let m = if blank {
                None
            } else {
                match_component(query_squash.as_str(), &terms, &self.components[c])
            };
            out.push(m);
            c += 1;
        }
        proof {
            assert(texts(terms@).len() == terms.len());
            assert forall|c: int| 0 <= c < out.len() implies match_told(
                opt_match(#[trigger] out@[c]),
                self.components@[c],
                query@,
            ) by {
                lemma_how_it_matches(self, c, query@);
            }
        }
        out
    }

    /// What search results are sorted by: score, then the larger part, then designator.
    pub open spec fn score_key(&self, h: Hit) -> Key {
        seq![
            Mark::Number(-(h.bits as int)),
            Mark::Number(-(self.comp_pins(h.comp).len() as int)),
        ] + natural_key(self.components@[h.comp].refdes@)
    }

    pub open spec fn best_first(&self, s: Seq<Hit>) -> Seq<Hit> {
        arranged(s, ranked(s.map_values(|h: Hit| self.score_key(h))))
    }

    pub open spec fn candidate_is(&self, r: Candidate, h: Hit) -> bool {
        self.row_is(r.row, h.comp) && r.score_bits == h.bits && r.match_reason@ == h.reason
    }

    /// The components that a search found, in the order of the design.
    pub open spec fn found(
        &self,
        query: Seq<char>,
        matches: Seq<Option<Match>>,
        worths: Seq<Vec<Worth>>,
    ) -> Seq<Hit> {
        hits_upto(
            matches,
            worths,
            Self::search_terms(query).len(),
            self.components.len() as int,
        )
    }

    /// The answer holds the best of the components that were found.
    pub open spec fn find_answer(
        &self,
        e: FindEnvelope,
        query: Seq<char>,
        found: Seq<Hit>,
        limit: u32,
    ) -> bool {
        let shown = page(self.best_first(found), 0, limit as int);
        &&& e.query@ == query
        &&& e.returned == e.candidates.len()
        &&& e.candidates.len() == shown.len()
        &&& forall|i: int|
            0 <= i < shown.len() ==> self.candidate_is(#[trigger] e.candidates@[i], shown[i])
    }

    fn score_matches(
        &self,
        n: usize,
        matches: &Vec<Option<Match>>,
        worths: &Vec<Vec<Worth>>,
    ) -> (r: Vec<Scored>)
        requires
            matches.len() == self.components.len(),
            worths.len() == self.components.len(),
            forall|c: int|
                0 <= c < matches.len() ==> valued(
                    opt_match(#[trigger] matches@[c]),
                    worths@[c]@,
                ),
        ensures
            scored_hits(r@) == hits_upto(
                matches@,
                worths@,
                n as nat,
                self.components.len() as int,
            ),
            forall|i: int|
                0 <= i < r.len() ==> (#[trigger] r@[i]).comp < self.components.len(),
    {
        let mut out: Vec<Scored> = Vec::new();
        let mut c: usize = 0;
        assert(scored_hits(out@) =~= Seq::<Hit>::empty());
        while c < self.components.len()
            invariant
                c <= self.components.len(),
                matches.len() == self.components.len(),
                worths.len() == self.components.len(),
                forall|c: int|
                    0 <= c < matches.len() ==> valued(
                        opt_match(#[trigger] matches@[c]),
                        worths@[c]@,
                    ),
                scored_hits(out@) == hits_upto(matches@, worths@, n as nat, c as int),
                forall|i: int| 0 <= i < out.len() ==> (#[trigger] out@[i]).comp < c,
            decreases self.components.len() - c,
        {
            let ghost before = scored_hits(out@);
            assert(valued(opt_match(matches@[c as int]), worths@[c as int]@));
            if let Some(m) = &matches[c] {
                let bits = m.confidence_bits(&worths[c]);
                if bits >= FLOOR_BITS {
                    let best: usize = match m {
                        Match::SomeTerms(_) => find_best(&worths[c]),
                        _ => 0,
                    };
                    let hit = Scored { comp: c, score_bits: bits, reason: m.reason(n, best) };
                    assert(hit@ == hit_of(
                        c as int,
                        opt_match(matches@[c as int]),
                        worths@[c as int]@,
                        n as nat,
                    ).unwrap());
                    out.push(hit);
                    assert(scored_hits(out@) =~= before.push(hit@));
                }
            }
            c += 1;
        }
        out
    }

    /// The best of the components that match a query, `matches` being how each of them
    /// does and `worths` what its partly matched fields are worth: by what the match counts
    /// for, then with more pins before fewer, since who asks for "adc" wants the converter
    /// and not the capacitors on its sheet, then by designator.
    pub fn find_components(
        &self,
        query: &str,
        limit: u32,
        matches: &Vec<Option<Match>>,
        worths: &Vec<Vec<Worth>>,
    ) -> (r: FindEnvelope)
        requires
            matches.len() == self.components.len(),
            worths.len() == self.components.len(),
            forall|c: int|
                0 <= c < matches.len() ==> opt_match(#[trigger] matches@[c]) == self.query_match(
                    query@,
                    c,
                ),
            forall|c: int|
                0 <= c < matches.len() ==> valued(
                    opt_match(#[trigger] matches@[c]),
                    worths@[c]@,
                ),
        ensures
            self.find_answer(r, query@, self.found(query@, matches@, worths@), limit),
    {
        let terms = Self::split_query(query);
        let scored = self.score_matches(terms.len(), matches, worths);
        let ghost s = scored_hits(scored@);
        assert(s == self.found(query@, matches@, worths@));
        let mut keys: Vec<Vec<Part>> = Vec::new();
        let mut i: usize = 0;
        while i < scored.len()
            invariant
                i <= scored.len(),
                keys.len() == i,
                s == scored_hits(scored@),
                forall|i: int|
                    0 <= i < scored.len() ==> (#[trigger] scored@[i]).comp < self.components.len(),
                forall|k: int|
                    0 <= k < i ==> key_of((#[trigger] keys@[k])@) == self.score_key(s[k]),
            decreases scored.len() - i,
        {
            let comp = &self.components[scored[i].comp];
            let mut key: Vec<Part> = Vec::new();
            key.push(Part::Down(scored[i].score_bits as usize));
            key.push(Part::Down(comp.pins.len()));
            assert(s[i as int] == scored@[i as int]@);
            assert(key_of(key@) =~= seq![
                Mark::Number(-(s[i as int].bits as int)),
                Mark::Number(-(self.comp_pins(s[i as int].comp).len() as int)),
            ]);
            push_natural(comp.refdes.as_str(), &mut key);
            keys.push(key);
            i += 1;
        }
        let order = rank(&keys);
        assert(keys_of(keys@) =~= s.map_values(|h: Hit| self.score_key(h)));
        let ghost sorted = self.best_first(s);
        let ghost shown = page(sorted, 0, limit as int);
        let mut candidates: Vec<Candidate> = Vec::new();
        let mut k: usize = 0;
        while k < order.len() && k < limit as usize
            invariant
                k <= order.len(),
                k <= limit,
                s == scored_hits(scored@),
                order.len() == s.len(),
                sorted == arranged(s, places(order@)),
                shown == page(sorted, 0, limit as int),
                forall|i: int|
                    0 <= i < scored.len() ==> (#[trigger] scored@[i]).comp < self.components.len(),
                forall|i: int| 0 <= i < order.len() ==> #[trigger] order@[i] < scored.len(),
                candidates.len() == k,
                forall|j: int|
                    0 <= j < k ==> self.candidate_is(#[trigger] candidates@[j], shown[j]),
            decreases order.len() - k,
        {
            let x = &scored[order[k]];
            assert(shown[k as int] == x@);
            candidates.push(
                Candidate {
                    row: self.filter_row(x.comp),
                    score_bits: x.score_bits,
                    match_reason: x.reason.clone(),
                },
            );
            k += 1;
        }
        FindEnvelope { query: query.to_owned(), returned: candidates.len(), candidates }
    }
}

/// What identities are compared by holds letters and numbers alone.
pub proof fn lemma_squashed(s: Seq<char>)
    ensures
        forall|i: int| 0 <= i < squashed(s).len() ==> alphanumeric(#[trigger] squashed(s)[i]),
{
    lemma_only_alphanumeric(lowercase(s));
}

proof fn lemma_only_alphanumeric(s: Seq<char>)
    ensures
        forall|i: int|
            0 <= i < only_alphanumeric(s).len() ==> alphanumeric(#[trigger] only_alphanumeric(s)[i]),
    decreases s.len(),
{
    if s.len() > 0 {
        lemma_only_alphanumeric(s.drop_last());
        let front = only_alphanumeric(s.drop_last());
        assert forall|i: int| 0 <= i < only_alphanumeric(s).len() implies alphanumeric(
            #[trigger] only_alphanumeric(s)[i],
        ) by {
            if i < front.len() {
                assert(only_alphanumeric(s)[i] == front[i]);
            }
        }
    }
}

/// A prefix match does not depend on which text is the field and which the query.
pub proof fn lemma_base_match_is_symmetric(a: Seq<char>, b: Seq<char>, min: int)
    ensures
        shares_base(a, b, min) == shares_base(b, a, min),
{
}

/// The field worth most is worth at least as much as any other, and more than those
/// before it.
pub proof fn lemma_best_place(w: Seq<Worth>, k: int)
    requires
        1 <= k <= w.len(),
    ensures
        0 <= best_upto(w, k) < k,
        forall|j: int| 0 <= j < k ==> (#[trigger] w[j]).ratio_bits <= w[best_upto(w, k)].ratio_bits,
        forall|j: int|
            0 <= j < best_upto(w, k) ==> (#[trigger] w[j]).ratio_bits < w[best_upto(w, k)].ratio_bits,
    decreases k,
{
    if k > 1 {
        lemma_best_place(w, k - 1);
    }
}

/// The surer a match is, the more it counts for: an exact one more than a part number's
/// base, that more than a value that holds the query, that more than a field that all
/// terms match, the fields in their order, and any of these more than a partial match.
pub proof fn lemma_tiers(v: Seq<FieldHits>, w: Seq<Worth>, f: Field)
    ensures
        EXACT_BITS > BASE_BITS > SUBSTRING_BITS > field_weight(f),
        field_weight(f) >= FLOOR_BITS,
        confidence(MatchModel::AllTerms(f), w) > confidence(MatchModel::SomeTerms(v), w),
        forall|i: int, j: int|
            0 <= i < j < 5 ==> field_weight(#[trigger] field_order()[i]) > field_weight(
                #[trigger] field_order()[j],
            ),
{
}

pub proof fn lemma_hits(
    matches: Seq<Option<Match>>,
    worths: Seq<Vec<Worth>>,
    n: nat,
    k: int,
)
    ensures
        forall|i: int|
            0 <= i < hits_upto(matches, worths, n, k).len() ==> {
                let h = #[trigger] hits_upto(matches, worths, n, k)[i];
                0 <= h.comp < k && hit_of(
                    h.comp,
                    opt_match(matches[h.comp]),
                    worths[h.comp]@,
                    n,
                ) == Some(h)
            },
        forall|c: int|
            0 <= c < k && #[trigger] hit_of(c, opt_match(matches[c]), worths[c]@, n) is Some ==> hits_upto(
                matches,
                worths,
                n,
                k,
            ).contains(hit_of(c, opt_match(matches[c]), worths[c]@, n).unwrap()),
    decreases k,
{
    if k > 0 {
        lemma_hits(matches, worths, n, k - 1);
        let before = hits_upto(matches, worths, n, k - 1);
        let all = hits_upto(matches, worths, n, k);
        assert forall|i: int| 0 <= i < all.len() implies {
            let h = #[trigger] all[i];
            0 <= h.comp < k && hit_of(h.comp, opt_match(matches[h.comp]), worths[h.comp]@, n)
                == Some(h)
        } by {
            if i < before.len() {
                assert(all[i] == before[i]);
            }
        }
        assert forall|c: int|
            0 <= c < k && #[trigger] hit_of(c, opt_match(matches[c]), worths[c]@, n) is Some implies all.contains(
            hit_of(c, opt_match(matches[c]), worths[c]@, n).unwrap(),
        ) by {
            let h = hit_of(c, opt_match(matches[c]), worths[c]@, n).unwrap();
            if c < k - 1 {
                let i = choose|i: int| 0 <= i < before.len() && before[i] == h;
                assert(all[i] == h);
            } else {
                assert(all[all.len() - 1] == h);
            }
        }
    }
}

/// A search finds every component whose match counts for enough, and no other.
pub proof fn lemma_find_is_exhaustive(
    d: &Design,
    query: Seq<char>,
    matches: Seq<Option<Match>>,
    worths: Seq<Vec<Worth>>,
    c: int,
)
    requires
        0 <= c < d.components.len(),
    ensures
        (exists|i: int|
            0 <= i < d.found(query, matches, worths).len() && (#[trigger] d.found(
                query,
                matches,
                worths,
            )[i]).comp == c) <==> (opt_match(matches[c]) matches Some(m) && confidence(
            m,
            worths[c]@,
        ) >= FLOOR_BITS),
{
    let n = Design::search_terms(query).len();
    let all = d.found(query, matches, worths);
    lemma_hits(matches, worths, n, d.components.len() as int);
    let h = hit_of(c, opt_match(matches[c]), worths[c]@, n);
    if h is Some {
        let i = choose|i: int| 0 <= i < all.len() && all[i] == h.unwrap();
        assert(all[i].comp == c);
    }
}

/// A blank query finds nothing.
pub proof fn lemma_blank_finds_nothing(
    d: &Design,
    query: Seq<char>,
    matches: Seq<Option<Match>>,
    worths: Seq<Vec<Worth>>,
)
    requires
        trimmed(lowercase(query)).len() == 0,
        matches.len() == d.components.len(),
        forall|c: int|
            0 <= c < matches.len() ==> opt_match(#[trigger] matches[c]) == d.query_match(query, c),
    ensures
        d.found(query, matches, worths).len() == 0,
{
    let n = Design::search_terms(query).len();
    let all = d.found(query, matches, worths);
    lemma_hits(matches, worths, n, d.components.len() as int);
    if all.len() > 0 {
        assert(opt_match(matches[all[0].comp]) == d.query_match(query, all[0].comp));
    }
}

/// A search shows no more than was asked for, and nothing before a better match.
pub proof fn lemma_find_is_ranked(
    d: &Design,
    e: FindEnvelope,
    query: Seq<char>,
    s: Seq<Hit>,
    limit: u32,
)
    requires
        d.find_answer(e, query, s, limit),
    ensures
        e.candidates.len() <= limit,
        e.candidates.len() == (if s.len() < limit {
            s.len() as int
        } else {
            limit as int
        }),
        forall|i: int, j: int|
            0 <= i < j < e.candidates.len() ==> (#[trigger] e.candidates@[i]).score_bits >= (
            #[trigger] e.candidates@[j]).score_bits,
{
    let keys = s.map_values(|h: Hit| d.score_key(h));
    lemma_ranked(keys);
    let p = ranked(keys);
    let shown = page(d.best_first(s), 0, limit as int);
    assert forall|i: int, j: int| 0 <= i < j < e.candidates.len() implies (
    #[trigger] e.candidates@[i]).score_bits >= (#[trigger] e.candidates@[j]).score_bits by {
        assert(d.candidate_is(e.candidates@[i], shown[i]) && d.candidate_is(
            e.candidates@[j],
            shown[j],
        ));
        assert(shown[i] == s[p[i]] && shown[j] == s[p[j]]);
        let a = keys[p[i]];
        let b = keys[p[j]];
        assert(!(key_order(a, b) is Greater));
        assert(a == d.score_key(s[p[i]]) && b == d.score_key(s[p[j]]));
        assert(a[0] == Mark::Number(-(s[p[i]].bits as int)));
        assert(b[0] == Mark::Number(-(s[p[j]].bits as int)));
    }
}

} // verus!
