//! How a component matches a query, in terms of what the design says of it.
use vstd::prelude::*;

use super::classes::natural_key;
use super::filter_laws::{lemma_tells_of, tells_of};
use super::search::{best_place, confidence, field_hits, field_order, full_field, hit_count, hit_of};
use super::search::{hits_upto, lemma_best_place, lemma_find_is_exhaustive, lemma_hits};
use super::search::{only_alphanumeric, opt_match, partial_hits, squashed, term_hits, tokens_of};
use super::search::{valued, FLOOR_BITS, Field, FieldHits, FindEnvelope, Hit, Match, MatchModel};
use super::search::Worth;
use super::{Component, Design};
use crate::lists::page;
use crate::parser::netlist::opt_text;
use crate::ranking::{in_order, key_order, lemma_ranked, mark_order, ranked};
use crate::text::{alphanumeric, contains, decimal, fields, lemma_run_len, lemma_trim_end};
use crate::text::{lowercase, occurs_at, run_len, starts_with, then_order, trim_start, trimmed};
use crate::text::{CharClass, Punctuation, Whitespace};
use crate::text_laws::{lemma_fields_are_pieces, piece_at};

verus! {

/// A word of the text, a run of letters and numbers, starts with the term, letter case
/// aside.
pub open spec fn word_starts(text: Seq<char>, t: Seq<char>) -> bool {
    exists|i: int, j: int| #[trigger]
        piece_at(lowercase(text), Punctuation, i, j) && t.len() <= j - i && lowercase(
            text,
        ).subrange(i, i + t.len()) == t
}

/// The part has the field, and a word of it starts with the term.
pub open spec fn in_field(c: Component, f: Field, t: Seq<char>) -> bool {
    match f {
        Field::Value => word_starts(c.value@, t),
        Field::Keywords => c.properties@.contains_key("ki_keywords"@)
            && c.properties@["ki_keywords"@].is_some() && word_starts(
            c.properties@["ki_keywords"@].unwrap()@,
            t,
        ),
        Field::Description => c.description.is_some() && word_starts(c.description.unwrap()@, t),
        Field::Footprint => c.footprint.is_some() && word_starts(c.footprint.unwrap()@, t),
        Field::Sheet => c.sheet.is_some() && word_starts(c.sheet.unwrap()@, t),
    }
}

/// The text is a term of the query: one of the pieces between its white space,
/// lowercased.
pub open spec fn is_term(query: Seq<char>, t: Seq<char>) -> bool {
    exists|i: int, j: int| #[trigger]
        piece_at(lowercase(query), Whitespace, i, j) && lowercase(query).subrange(i, j) == t
}

/// The query asks for something.
pub open spec fn asks(query: Seq<char>) -> bool {
    exists|t: Seq<char>| is_term(query, t)
}

/// Every term of the query is in the field.
pub open spec fn all_in(c: Component, f: Field, query: Seq<char>) -> bool {
    forall|t: Seq<char>| #[trigger] is_term(query, t) ==> in_field(c, f, t)
}

/// Some term of the query is in the field.
pub open spec fn some_in(c: Component, f: Field, query: Seq<char>) -> bool {
    exists|t: Seq<char>| #[trigger] is_term(query, t) && in_field(c, f, t)
}

/// What is left of a text where identities are compared: its letters and numbers,
/// lowercased.
pub open spec fn ident(s: Seq<char>) -> Seq<char> {
    lowercase(s).filter(|c: char| alphanumeric(c))
}

/// `a` is at the front of `b`.
pub open spec fn fronts(a: Seq<char>, b: Seq<char>) -> bool {
    a.len() <= b.len() && forall|i: int| 0 <= i < a.len() ==> #[trigger] a[i] == b[i]
}

/// The query's letters and numbers are those of the value.
pub open spec fn is_value(query: Seq<char>, c: Component) -> bool {
    ident(query).len() > 0 && ident(query) == ident(c.value@)
}

/// The query's letters and numbers are those of the designator.
pub open spec fn is_refdes(query: Seq<char>, c: Component) -> bool {
    ident(query).len() > 0 && ident(query) == ident(c.refdes@)
}

/// Query and value have four letters and numbers or more, and one fronts the other.
pub open spec fn is_base(query: Seq<char>, c: Component) -> bool {
    &&& ident(query).len() >= 4
    &&& ident(c.value@).len() >= 4
    &&& fronts(ident(query), ident(c.value@)) || fronts(ident(c.value@), ident(query))
}

/// The query's letters and numbers stand together in those of the value.
pub open spec fn in_value(query: Seq<char>, c: Component) -> bool {
    ident(query).len() > 0 && exists|k: int|
        0 <= k && k + ident(query).len() <= ident(c.value@).len() && #[trigger] ident(
            c.value@,
        ).subrange(k, k + ident(query).len()) == ident(query)
}

/// The query names the part by its value or its designator, in full or in part.
pub open spec fn identifies(query: Seq<char>, c: Component) -> bool {
    is_value(query, c) || is_refdes(query, c) || is_base(query, c) || in_value(query, c)
}

proof fn lemma_ident(s: Seq<char>)
    ensures
        squashed(s) == ident(s),
{
    lemma_only_alphanumeric_filters(lowercase(s));
}

proof fn lemma_only_alphanumeric_filters(s: Seq<char>)
    ensures
        only_alphanumeric(s) == s.filter(|c: char| alphanumeric(c)),
    decreases s.len(),
{
    reveal(Seq::filter);
    if s.len() > 0 {
        lemma_only_alphanumeric_filters(s.drop_last());
    }
}

proof fn lemma_fronts(a: Seq<char>, b: Seq<char>)
    ensures
        fronts(a, b) <==> starts_with(b, a),
{
    if starts_with(b, a) {
        assert forall|i: int| 0 <= i < a.len() implies #[trigger] a[i] == b[i] by {
            assert(b.take(a.len() as int)[i] == b[i]);
        }
    }
    if fronts(a, b) {
        assert(b.take(a.len() as int) =~= a);
    }
}

proof fn lemma_word_starts(s: Seq<char>, t: Seq<char>)
    ensures
        term_hits(t, tokens_of(s)) <==> word_starts(s, t),
{
    let x = lowercase(s);
    let tokens = tokens_of(s);
    if term_hits(t, tokens) {
        let k = choose|k: int| 0 <= k < tokens.len() && starts_with(#[trigger] tokens[k], t);
        lemma_fields_are_pieces(x, Punctuation, tokens[k]);
        assert(tokens.contains(tokens[k]));
        let (i, j) = choose|i: int, j: int| #[trigger]
            piece_at(x, Punctuation, i, j) && x.subrange(i, j) == tokens[k];
        lemma_fronts(t, tokens[k]);
        assert(x.subrange(i, i + t.len()) =~= t) by {
            assert forall|m: int| 0 <= m < t.len() implies x.subrange(i, i + t.len())[m] == t[m] by {
                assert(t[m] == tokens[k][m]);
            }
        }
    }
    if word_starts(s, t) {
        let (i, j) = choose|i: int, j: int| #[trigger]
            piece_at(x, Punctuation, i, j) && t.len() <= j - i && x.subrange(i, i + t.len()) == t;
        let w = x.subrange(i, j);
        lemma_fields_are_pieces(x, Punctuation, w);
        let k = choose|k: int| 0 <= k < tokens.len() && tokens[k] == w;
        lemma_fronts(t, w);
        assert forall|m: int| 0 <= m < t.len() implies #[trigger] t[m] == w[m] by {
            assert(x.subrange(i, i + t.len())[m] == x[i + m]);
        }
        assert(starts_with(tokens[k], t));
    }
}

proof fn lemma_is_term(query: Seq<char>, t: Seq<char>)
    ensures
        is_term(query, t) <==> Design::search_terms(query).contains(t),
{
    lemma_fields_are_pieces(lowercase(query), Whitespace, t);
}

proof fn lemma_no_fields<P: CharClass>(s: Seq<char>, p: P)
    ensures
        fields(s, p).len() == 0 <==> forall|i: int| 0 <= i < s.len() ==> p.has(#[trigger] s[i]),
    decreases s.len(),
{
    if s.len() > 0 {
        if p.has(s[0]) {
            let t = s.skip(1);
            lemma_no_fields(t, p);
            if forall|i: int| 0 <= i < t.len() ==> p.has(#[trigger] t[i]) {
                assert forall|i: int| 0 <= i < s.len() implies p.has(#[trigger] s[i]) by {
                    if i > 0 {
                        assert(t[i - 1] == s[i]);
                    }
                }
            }
            if forall|i: int| 0 <= i < s.len() ==> p.has(#[trigger] s[i]) {
                assert forall|i: int| 0 <= i < t.len() implies p.has(#[trigger] t[i]) by {
                    assert(t[i] == s[i + 1]);
                }
            }
        } else {
            lemma_run_len(s, p, false);
            let n = run_len(s, p, false) as int;
            assert(fields(s, p) == seq![s.take(n)] + fields(s.skip(n), p));
        }
    }
}

/// A query is blank exactly when it has no terms.
proof fn lemma_asks(query: Seq<char>)
    ensures
        asks(query) <==> trimmed(lowercase(query)).len() > 0,
        asks(query) <==> Design::search_terms(query).len() > 0,
{
    let x = lowercase(query);
    let terms = Design::search_terms(query);
    lemma_no_fields(x, Whitespace);
    if terms.len() > 0 {
        lemma_is_term(query, terms[0]);
        assert(terms.contains(terms[0]));
        assert(is_term(query, terms[0]));
    }
    if asks(query) {
        let t = choose|t: Seq<char>| is_term(query, t);
        lemma_is_term(query, t);
    }
    let n = run_len(x, Whitespace, true) as int;
    lemma_run_len(x, Whitespace, true);
    let rest = trim_start(x, Whitespace);
    lemma_trim_end(rest, Whitespace);
    if trimmed(x).len() == 0 {
        assert forall|i: int| 0 <= i < x.len() implies Whitespace.has(#[trigger] x[i]) by {
            if i >= n {
                assert(rest[i - n] == x[i]);
            }
        }
    } else {
        assert(rest.len() > 0);
        assert(n < x.len());
        assert(!Whitespace.has(x[n]));
    }
}

proof fn lemma_hit_count(terms: Seq<Seq<char>>, tokens: Seq<Seq<char>>)
    ensures
        hit_count(terms, tokens) <= terms.len(),
        hit_count(terms, tokens) == terms.len() <==> forall|i: int|
            0 <= i < terms.len() ==> term_hits(#[trigger] terms[i], tokens),
        hit_count(terms, tokens) == 0 <==> forall|i: int|
            0 <= i < terms.len() ==> !term_hits(#[trigger] terms[i], tokens),
        Set::new(|k: int| 0 <= k < terms.len() && term_hits(terms[k], tokens)).finite(),
        hit_count(terms, tokens) == Set::new(
            |k: int| 0 <= k < terms.len() && term_hits(terms[k], tokens),
        ).len(),
    decreases terms.len(),
{
    let all = Set::new(|k: int| 0 <= k < terms.len() && term_hits(terms[k], tokens));
    if terms.len() == 0 {
        assert(all =~= Set::empty());
    } else {
        let front = terms.drop_last();
        lemma_hit_count(front, tokens);
        let some = Set::new(|k: int| 0 <= k < front.len() && term_hits(front[k], tokens));
        let last = terms.len() - 1;
        assert(terms[last] == terms.last());
        if term_hits(terms.last(), tokens) {
            assert(all =~= some.insert(last));
        } else {
            assert(all =~= some);
        }
        assert forall|i: int| 0 <= i < front.len() implies #[trigger] front[i] == terms[i] by {}
        if forall|i: int| 0 <= i < terms.len() ==> term_hits(#[trigger] terms[i], tokens) {
            assert forall|i: int| 0 <= i < front.len() implies term_hits(
                #[trigger] front[i],
                tokens,
            ) by {
                assert(term_hits(terms[i], tokens));
            }
        }
        if forall|i: int| 0 <= i < terms.len() ==> !term_hits(#[trigger] terms[i], tokens) {
            assert forall|i: int| 0 <= i < front.len() implies !term_hits(
                #[trigger] front[i],
                tokens,
            ) by {
                assert(!term_hits(terms[i], tokens));
            }
        }
        if hit_count(terms, tokens) == terms.len() {
            assert forall|i: int| 0 <= i < terms.len() implies term_hits(
                #[trigger] terms[i],
                tokens,
            ) by {
                if i < last {
                    assert(term_hits(front[i], tokens));
                }
            }
        }
        if hit_count(terms, tokens) == 0 {
            assert forall|i: int| 0 <= i < terms.len() implies !term_hits(
                #[trigger] terms[i],
                tokens,
            ) by {
                if i < last {
                    assert(!term_hits(front[i], tokens));
                }
            }
        }
    }
}

proof fn lemma_in_field(c: Component, f: Field, query: Seq<char>)
    requires
        asks(query),
    ensures
        field_hits(Design::search_terms(query), c, f) <= Design::search_terms(query).len(),
        field_hits(Design::search_terms(query), c, f) == Design::search_terms(query).len()
            <==> all_in(c, f, query),
        field_hits(Design::search_terms(query), c, f) > 0 <==> some_in(c, f, query),
        field_hits(Design::search_terms(query), c, f) == Set::new(
            |k: int|
                0 <= k < Design::search_terms(query).len() && in_field(
                    c,
                    f,
                    Design::search_terms(query)[k],
                ),
        ).len(),
{
    let terms = Design::search_terms(query);
    let text: Option<Seq<char>> = match f {
        Field::Value => Some(c.value@),
        Field::Keywords => if c.properties@.contains_key("ki_keywords"@) {
            opt_text(c.properties@["ki_keywords"@])
        } else {
            None
        },
        Field::Description => opt_text(c.description),
        Field::Footprint => opt_text(c.footprint),
        Field::Sheet => opt_text(c.sheet),
    };
    lemma_asks(query);
    let hits = Set::new(|k: int| 0 <= k < terms.len() && in_field(c, f, terms[k]));
    match text {
        None => {
            assert(hits =~= Set::empty());
            lemma_is_term(query, terms[0]);
            assert(terms.contains(terms[0]));
            assert(is_term(query, terms[0]));
            assert(!in_field(c, f, terms[0]));
        },
        Some(s) => {
            let tokens = tokens_of(s);
            lemma_hit_count(terms, tokens);
            assert forall|t: Seq<char>| #[trigger] term_hits(t, tokens) <==> in_field(c, f, t) by {
                lemma_word_starts(s, t);
            }
            assert(hits =~= Set::new(
                |k: int| 0 <= k < terms.len() && term_hits(terms[k], tokens),
            )) by {
                assert forall|k: int| #[trigger] hits.contains(k) <==> 0 <= k < terms.len()
                    && term_hits(terms[k], tokens) by {}
            }
            if all_in(c, f, query) {
                assert forall|i: int| 0 <= i < terms.len() implies term_hits(
                    #[trigger] terms[i],
                    tokens,
                ) by {
                    lemma_is_term(query, terms[i]);
                    assert(terms.contains(terms[i]));
                }
            }
            if forall|i: int| 0 <= i < terms.len() ==> term_hits(#[trigger] terms[i], tokens) {
                assert forall|t: Seq<char>| #[trigger] is_term(query, t) implies in_field(
                    c,
                    f,
                    t,
                ) by {
                    lemma_is_term(query, t);
                    let i = choose|i: int| 0 <= i < terms.len() && terms[i] == t;
                    assert(term_hits(terms[i], tokens));
                }
            }
            if some_in(c, f, query) {
                let t = choose|t: Seq<char>| #[trigger] is_term(query, t) && in_field(c, f, t);
                lemma_is_term(query, t);
                let i = choose|i: int| 0 <= i < terms.len() && terms[i] == t;
                assert(term_hits(terms[i], tokens));
            }
            if exists|i: int| 0 <= i < terms.len() && term_hits(#[trigger] terms[i], tokens) {
                let i = choose|i: int| 0 <= i < terms.len() && term_hits(#[trigger] terms[i], tokens);
                lemma_is_term(query, terms[i]);
                assert(terms.contains(terms[i]));
                assert(is_term(query, terms[i]) && in_field(c, f, terms[i]));
            }
        },
    }
}

/// Where a field stands among those that terms are held against.
pub open spec fn turn(f: Field) -> int {
    match f {
        Field::Value => 1,
        Field::Keywords => 2,
        Field::Description => 3,
        Field::Footprint => 4,
        Field::Sheet => 5,
    }
}

/// Of the fields that hold every term, `f` is the first.
pub open spec fn first_with_all(c: Component, f: Field, query: Seq<char>) -> bool {
    all_in(c, f, query) && forall|g: Field| turn(g) < turn(f) ==> !#[trigger] all_in(c, g, query)
}

/// The list says of each field that some term is in, in their turn, how many terms are in
/// it, and of no other.
pub open spec fn tells_hits(v: Seq<FieldHits>, c: Component, query: Seq<char>) -> bool {
    &&& forall|f: Field| #[trigger]
        some_in(c, f, query) ==> exists|i: int| 0 <= i < v.len() && (#[trigger] v[i]).field == f
    &&& forall|i: int|
        0 <= i < v.len() ==> some_in(c, (#[trigger] v[i]).field, query) && v[i].matched == Set::new(
            |k: int|
                0 <= k < Design::search_terms(query).len() && in_field(
                    c,
                    v[i].field,
                    Design::search_terms(query)[k],
                ),
        ).len()
    &&& forall|i: int, j: int|
        0 <= i < j < v.len() ==> turn((#[trigger] v[i]).field) < turn((#[trigger] v[j]).field)
}

proof fn lemma_partial_hits(c: Component, query: Seq<char>, k: int)
    requires
        asks(query),
        0 <= k <= 5,
        Design::search_terms(query).len() <= usize::MAX,
    ensures
        ({
            let v = partial_hits(Design::search_terms(query), c, k);
            &&& forall|f: Field| #[trigger]
                some_in(c, f, query) && turn(f) <= k ==> exists|i: int|
                    0 <= i < v.len() && (#[trigger] v[i]).field == f
            &&& forall|i: int|
                0 <= i < v.len() ==> turn((#[trigger] v[i]).field) <= k && some_in(
                    c,
                    v[i].field,
                    query,
                ) && v[i].matched == Set::new(
                    |k: int|
                        0 <= k < Design::search_terms(query).len() && in_field(
                            c,
                            v[i].field,
                            Design::search_terms(query)[k],
                        ),
                ).len()
            &&& forall|i: int, j: int|
                0 <= i < j < v.len() ==> turn((#[trigger] v[i]).field) < turn(
                    (#[trigger] v[j]).field,
                )
        }),
    decreases k,
{
    if k > 0 {
        lemma_partial_hits(c, query, k - 1);
        let terms = Design::search_terms(query);
        let f = field_order()[k - 1];
        assert(turn(f) == k);
        lemma_in_field(c, f, query);
        let front = partial_hits(terms, c, k - 1);
        let v = partial_hits(terms, c, k);
        assert forall|g: Field| #[trigger] some_in(c, g, query) && turn(g) <= k implies exists|
            i: int,
        | 0 <= i < v.len() && (#[trigger] v[i]).field == g by {
            if turn(g) < k {
                let i = choose|i: int| 0 <= i < front.len() && (#[trigger] front[i]).field == g;
                assert(v[i] == front[i]);
            } else {
                assert(g == f);
                assert(v[v.len() - 1].field == f);
            }
        }
        assert forall|i: int| 0 <= i < v.len() implies turn((#[trigger] v[i]).field) <= k && some_in(
            c,
            v[i].field,
            query,
        ) && v[i].matched == Set::new(
            |k: int| 0 <= k < terms.len() && in_field(c, v[i].field, terms[k]),
        ).len() by {
            if i < front.len() {
                assert(v[i] == front[i]);
            }
        }
        assert forall|i: int, j: int| 0 <= i < j < v.len() implies turn((#[trigger] v[i]).field)
            < turn((#[trigger] v[j]).field) by {
            assert(v[i] == front[i]);
            if j < front.len() {
                assert(v[j] == front[j]);
            }
        }
    }
}

proof fn lemma_full_field(c: Component, query: Seq<char>)
    requires
        asks(query),
    ensures
        forall|f: Field|
            full_field(Design::search_terms(query), c, 0) == Some(f) <==> #[trigger] first_with_all(
                c,
                f,
                query,
            ),
        full_field(Design::search_terms(query), c, 0) is None <==> forall|f: Field|
            !#[trigger] all_in(c, f, query),
{
    let terms = Design::search_terms(query);
    lemma_in_field(c, Field::Value, query);
    lemma_in_field(c, Field::Keywords, query);
    lemma_in_field(c, Field::Description, query);
    lemma_in_field(c, Field::Footprint, query);
    lemma_in_field(c, Field::Sheet, query);
    reveal_with_fuel(full_field, 6);
    let a = all_in(c, Field::Value, query);
    let b = all_in(c, Field::Keywords, query);
    let e = all_in(c, Field::Description, query);
    let g = all_in(c, Field::Footprint, query);
    let h = all_in(c, Field::Sheet, query);
    let r = full_field(terms, c, 0);
    assert(r == (if a {
        Some(Field::Value)
    } else if b {
        Some(Field::Keywords)
    } else if e {
        Some(Field::Description)
    } else if g {
        Some(Field::Footprint)
    } else if h {
        Some(Field::Sheet)
    } else {
        None
    }));
    assert forall|f: Field| r == Some(f) <==> #[trigger] first_with_all(c, f, query) by {
        match f {
            Field::Value => {},
            Field::Keywords => {},
            Field::Description => {},
            Field::Footprint => {},
            Field::Sheet => {},
        }
        if r == Some(f) {
            assert forall|x: Field| turn(x) < turn(f) implies !#[trigger] all_in(c, x, query) by {
                match x {
                    Field::Value => {},
                    Field::Keywords => {},
                    Field::Description => {},
                    Field::Footprint => {},
                    Field::Sheet => {},
                }
            }
        }
    }
    if r is None {
        assert forall|f: Field| !#[trigger] all_in(c, f, query) by {
            match f {
                Field::Value => {},
                Field::Keywords => {},
                Field::Description => {},
                Field::Footprint => {},
                Field::Sheet => {},
            }
        }
    }
}

/// The match is the surest that the component's own texts allow.
pub open spec fn match_told(m: Option<MatchModel>, comp: Component, query: Seq<char>) -> bool {
    let exact = is_value(query, comp) || is_refdes(query, comp);
    let held = fronts(ident(query), ident(comp.value@));
    &&& !asks(query) ==> m is None
    &&& asks(query) ==> {
        &&& m == Some(MatchModel::ExactValue) <==> is_value(query, comp)
        &&& m == Some(MatchModel::ExactRefdes) <==> is_refdes(query, comp) && !is_value(
            query,
            comp,
        )
        &&& m == Some(MatchModel::ValueStartsWithQuery) <==> !exact && is_base(query, comp)
            && held
        &&& m == Some(MatchModel::QueryStartsWithValue) <==> !exact && is_base(query, comp)
            && !held
        &&& m == Some(MatchModel::ValueHoldsQuery) <==> !exact && !is_base(query, comp)
            && in_value(query, comp)
        &&& forall|f: Field|
            m == Some(MatchModel::AllTerms(f)) <==> !identifies(query, comp)
                && #[trigger] first_with_all(comp, f, query)
        &&& m matches Some(MatchModel::SomeTerms(v)) ==> tells_hits(v, comp, query)
        &&& m is None <==> !identifies(query, comp) && forall|f: Field|
            !#[trigger] some_in(comp, f, query)
    }
}

/// A component matches in the surest way that its own texts allow: its value or its
/// designator is what was asked for, its value and the query front one another, its value
/// holds the query, every term is in one of its five fields, the first of these counting,
/// or some terms are in some of them. Where none of this holds it does not match, and
/// nothing matches a blank query.
pub proof fn lemma_how_it_matches(d: &Design, c: int, query: Seq<char>)
    requires
        0 <= c < d.components.len(),
        Design::search_terms(query).len() <= usize::MAX,
    ensures
        match_told(d.query_match(query, c), d.components@[c], query),
{
    lemma_asks(query);
    let comp = d.components@[c];
    let q = ident(query);
    let v = ident(comp.value@);
    lemma_ident(query);
    lemma_ident(comp.value@);
    lemma_ident(comp.refdes@);
    lemma_fronts(q, v);
    lemma_fronts(v, q);
    assert(in_value(query, comp) <==> q.len() > 0 && contains(v, q)) by {
        if contains(v, q) {
            let k = choose|k: int| #[trigger] occurs_at(v, q, k);
            assert(v.subrange(k, k + q.len()) == q);
        }
        if in_value(query, comp) {
            let k = choose|k: int|
                0 <= k && k + q.len() <= v.len() && #[trigger] v.subrange(k, k + q.len()) == q;
            assert(occurs_at(v, q, k));
        }
    }
    if asks(query) {
        let terms = Design::search_terms(query);
        lemma_full_field(comp, query);
        lemma_partial_hits(comp, query, 5);
        let hits = partial_hits(terms, comp, 5);
        assert(forall|f: Field| #[trigger] turn(f) <= 5);
        assert forall|f: Field| #[trigger] some_in(comp, f, query) implies exists|i: int|
            0 <= i < hits.len() && (#[trigger] hits[i]).field == f by {
            assert(turn(f) <= 5);
        }
        assert(tells_hits(hits, comp, query));
        assert(hits.len() == 0 <==> forall|f: Field| !#[trigger] some_in(comp, f, query)) by {
            if hits.len() > 0 {
                assert(some_in(comp, hits[0].field, query));
            }
        }
        assert forall|f: Field| #[trigger] all_in(comp, f, query) implies some_in(
            comp,
            f,
            query,
        ) by {
            let t = choose|t: Seq<char>| is_term(query, t);
            assert(is_term(query, t) && in_field(comp, f, t));
        }
        assert forall|f: Field| #[trigger] first_with_all(comp, f, query) implies some_in(
            comp,
            f,
            query,
        ) by {
            assert(all_in(comp, f, query));
        }
        let none = forall|f: Field| !#[trigger] all_in(comp, f, query);
        if !none {
            assert(full_field(terms, comp, 0) is Some);
        }
        let full = full_field(terms, comp, 0);
        if full is Some {
            assert(first_with_all(comp, full.unwrap(), query));
        }
    }
}

/// A query of one term that names no part matches a component by terms exactly when a
/// word of its value, keywords, description, footprint or sheet starts with the term, and
/// then the match is a full one.
pub proof fn lemma_one_term(d: &Design, c: int, query: Seq<char>, t: Seq<char>)
    requires
        0 <= c < d.components.len(),
        Design::search_terms(query).len() <= usize::MAX,
        is_term(query, t),
        forall|s: Seq<char>| #[trigger] is_term(query, s) ==> s == t,
        !identifies(query, d.components@[c]),
    ensures
        ({
            let comp = d.components@[c];
            let key = comp.properties@["ki_keywords"@];
            d.query_match(query, c) is Some <==> {
                ||| word_starts(comp.value@, t)
                ||| comp.properties@.contains_key("ki_keywords"@) && key.is_some() && word_starts(
                    key.unwrap()@,
                    t,
                )
                ||| comp.description.is_some() && word_starts(comp.description.unwrap()@, t)
                ||| comp.footprint.is_some() && word_starts(comp.footprint.unwrap()@, t)
                ||| comp.sheet.is_some() && word_starts(comp.sheet.unwrap()@, t)
            }
        }),
        !(d.query_match(query, c) matches Some(MatchModel::SomeTerms(_))),
{
    let comp = d.components@[c];
    lemma_how_it_matches(d, c, query);
    assert forall|f: Field| (#[trigger] some_in(comp, f, query) <==> in_field(comp, f, t)) && (
    all_in(comp, f, query) <==> in_field(comp, f, t)) by {
        if in_field(comp, f, t) {
            assert(is_term(query, t) && in_field(comp, f, t));
        }
    }
    let m = d.query_match(query, c);
    if in_field(comp, Field::Value, t) {
        assert(some_in(comp, Field::Value, query));
    }
    if in_field(comp, Field::Keywords, t) {
        assert(some_in(comp, Field::Keywords, query));
    }
    if in_field(comp, Field::Description, t) {
        assert(some_in(comp, Field::Description, query));
    }
    if in_field(comp, Field::Footprint, t) {
        assert(some_in(comp, Field::Footprint, query));
    }
    if in_field(comp, Field::Sheet, t) {
        assert(some_in(comp, Field::Sheet, query));
    }
    if m is Some {
        let f = choose|f: Field| #[trigger] some_in(comp, f, query);
        assert(some_in(comp, f, query));
        assert(in_field(comp, f, t));
        match f {
            Field::Value => {},
            Field::Keywords => {},
            Field::Description => {},
            Field::Footprint => {},
            Field::Sheet => {},
        }
    }
    if let Some(MatchModel::SomeTerms(v)) = m {
        let f = choose|f: Field| #[trigger] some_in(comp, f, query);
        assert(all_in(comp, f, query));
        lemma_some_first(comp, f, query);
        let g = choose|g: Field| #[trigger] first_with_all(comp, g, query);
        assert(m == Some(MatchModel::AllTerms(g)));
    }
}

/// Where a field holds every term there is a first that does.
proof fn lemma_some_first(c: Component, f: Field, query: Seq<char>)
    requires
        all_in(c, f, query),
    ensures
        exists|g: Field| #[trigger] first_with_all(c, g, query) && turn(g) <= turn(f),
    decreases turn(f),
{
    if !first_with_all(c, f, query) {
        let g = choose|g: Field| turn(g) < turn(f) && #[trigger] all_in(c, g, query);
        lemma_some_first(c, g, query);
    } else {
        assert(first_with_all(c, f, query));
    }
}

/// A component whose field holds every term of a query that names no part is matched in
/// full, by that field or by one whose turn comes before it.
pub proof fn lemma_all_terms(d: &Design, c: int, query: Seq<char>, f: Field)
    requires
        0 <= c < d.components.len(),
        Design::search_terms(query).len() <= usize::MAX,
        asks(query),
        !identifies(query, d.components@[c]),
        all_in(d.components@[c], f, query),
    ensures
        exists|g: Field| #[trigger]
            turn(g) <= turn(f) && d.query_match(query, c) == Some(MatchModel::AllTerms(g))
                && all_in(d.components@[c], g, query),
{
    lemma_how_it_matches(d, c, query);
    lemma_some_first(d.components@[c], f, query);
    let g = choose|g: Field| #[trigger]
        first_with_all(d.components@[c], g, query) && turn(g) <= turn(f);
    assert(turn(g) <= turn(f) && d.query_match(query, c) == Some(MatchModel::AllTerms(g)));
}

/// The bits of the score and the reason that are due to a match of a query of `n` terms:
/// 1.0, 0.85, 0.65, and by field 0.60, 0.58, 0.48, 0.32 and 0.25. A partial match scores
/// less, from 0.15 on: what the field that is worth most scores, and it names that field and
/// how many terms are in it.
pub open spec fn due(m: MatchModel, w: Seq<Worth>, n: nat, bits: u32, reason: Seq<char>) -> bool {
    match m {
        MatchModel::ExactValue => bits == 0x3f800000 && reason == "exact value"@,
        MatchModel::ExactRefdes => bits == 0x3f800000 && reason == "exact refdes"@,
        MatchModel::ValueStartsWithQuery => bits == 0x3f59999a && reason
            == "value base-match (field starts with query)"@,
        MatchModel::QueryStartsWithValue => bits == 0x3f59999a && reason
            == "value base-match (query starts with field)"@,
        MatchModel::ValueHoldsQuery => bits == 0x3f266666 && reason == "value substring"@,
        MatchModel::AllTerms(Field::Value) => bits == 0x3f19999a && reason == "all terms in "@
            + "value"@,
        MatchModel::AllTerms(Field::Keywords) => bits == 0x3f147ae1 && reason == "all terms in "@
            + "keywords"@,
        MatchModel::AllTerms(Field::Description) => bits == 0x3ef5c28f && reason
            == "all terms in "@ + "description"@,
        MatchModel::AllTerms(Field::Footprint) => bits == 0x3ea3d70a && reason == "all terms in "@
            + "footprint"@,
        MatchModel::AllTerms(Field::Sheet) => bits == 0x3e800000 && reason == "all terms in "@
            + "sheet"@,
        MatchModel::SomeTerms(v) => 0x3e19999a <= bits && exists|k: int|
            {
                &&& 0 <= k < v.len()
                &&& forall|j: int| 0 <= j < w.len() ==> (#[trigger] w[j]).ratio_bits <= w[k].ratio_bits
                &&& bits == (if w[k].score_bits > 0x3e7fffff {
                    0x3e7fffff
                } else {
                    w[k].score_bits
                })
                &&& reason == "matched "@ + decimal((#[trigger] v[k]).matched as nat) + "/"@
                    + decimal(n) + " terms in "@ + spelled_field(v[k].field)
            },
    }
}

/// The name that a field goes by.
pub open spec fn spelled_field(f: Field) -> Seq<char> {
    match f {
        Field::Value => "value"@,
        Field::Keywords => "keywords"@,
        Field::Description => "description"@,
        Field::Footprint => "footprint"@,
        Field::Sheet => "sheet"@,
    }
}

proof fn lemma_due(h: Hit, m: Option<MatchModel>, w: Seq<Worth>, n: nat)
    requires
        hit_of(h.comp, m, w, n) == Some(h),
        valued(m, w),
    ensures
        m is Some,
        due(m.unwrap(), w, n, h.bits, h.reason),
{
    if let Some(MatchModel::SomeTerms(v)) = m {
        lemma_best_place(w, w.len() as int);
        let k = best_place(w);
        assert(h.reason == "matched "@ + decimal(v[k].matched as nat) + "/"@ + decimal(n)
            + " terms in "@ + spelled_field(v[k].field));
    }
}

proof fn lemma_score_order(d: &Design, a: Hit, b: Hit)
    requires
        !(key_order(d.score_key(a), d.score_key(b)) is Greater),
    ensures
        a.bits >= b.bits,
        a.bits == b.bits ==> d.comp_pins(a.comp).len() >= d.comp_pins(b.comp).len(),
        a.bits == b.bits && d.comp_pins(a.comp).len() == d.comp_pins(b.comp).len() ==> in_order(
            natural_key(d.components@[a.comp].refdes@),
            natural_key(d.components@[b.comp].refdes@),
        ),
{
    let ka = d.score_key(a);
    let kb = d.score_key(b);
    assert(ka.skip(1).skip(1) =~= natural_key(d.components@[a.comp].refdes@));
    assert(kb.skip(1).skip(1) =~= natural_key(d.components@[b.comp].refdes@));
    assert(key_order(ka, kb) == then_order(
        mark_order(ka[0], kb[0]),
        key_order(ka.skip(1), kb.skip(1)),
    ));
    assert(key_order(ka.skip(1), kb.skip(1)) == then_order(
        mark_order(ka.skip(1)[0], kb.skip(1)[0]),
        key_order(ka.skip(1).skip(1), kb.skip(1).skip(1)),
    ));
}

/// A match that is not a partial one always counts for enough.
proof fn lemma_full_match_counts(d: &Design, c: int, query: Seq<char>, w: Seq<Worth>)
    requires
        0 <= c < d.components.len(),
        Design::search_terms(query).len() <= usize::MAX,
        asks(query),
        identifies(query, d.components@[c]) || exists|f: Field| #[trigger]
            all_in(d.components@[c], f, query),
    ensures
        d.query_match(query, c) matches Some(m) && confidence(m, w) >= FLOOR_BITS,
{
    lemma_how_it_matches(d, c, query);
    if !identifies(query, d.components@[c]) {
        let f = choose|f: Field| #[trigger] all_in(d.components@[c], f, query);
        lemma_all_terms(d, c, query, f);
    } else {
        let m = d.query_match(query, c);
        assert(m is Some);
        assert(!(m matches Some(MatchModel::SomeTerms(_))));
    }
}

/// A search shows parts that match, none twice, each with the score and the reason that
/// are due to its match, the higher score first, of equal scores the part with more pins,
/// and then by designator; and it shows every part that the query names, or one of whose
/// fields holds all terms, as far as the limit allows.
pub proof fn lemma_find_shows(
    d: &Design,
    e: FindEnvelope,
    query: Seq<char>,
    limit: u32,
    matches: Seq<Option<Match>>,
    worths: Seq<Vec<Worth>>,
) -> (shown: Seq<int>)
    requires
        d.wf(),
        matches.len() == d.components.len(),
        worths.len() == d.components.len(),
        forall|c: int|
            0 <= c < matches.len() ==> opt_match(#[trigger] matches[c]) == d.query_match(query, c),
        forall|c: int|
            0 <= c < matches.len() ==> valued(opt_match(#[trigger] matches[c]), worths[c]@),
        d.find_answer(e, query, d.found(query, matches, worths), limit),
        Design::search_terms(query).len() <= usize::MAX,
    ensures
        e.query@ == query,
        e.returned == e.candidates.len(),
        e.candidates.len() <= limit,
        shown.len() == e.candidates.len(),
        shown.no_duplicates(),
        forall|i: int|
            0 <= i < shown.len() ==> {
                &&& 0 <= shown[i] < d.components.len()
                &&& tells_of(d, (#[trigger] e.candidates@[i]).row, shown[i])
                &&& d.query_match(query, shown[i]) matches Some(m) && due(
                    m,
                    worths[shown[i]]@,
                    Design::search_terms(query).len(),
                    e.candidates@[i].score_bits,
                    e.candidates@[i].match_reason@,
                )
            },
        forall|i: int, j: int|
            0 <= i < j < shown.len() ==> {
                let a = #[trigger] e.candidates@[i];
                let b = #[trigger] e.candidates@[j];
                &&& a.score_bits >= b.score_bits
                &&& a.score_bits == b.score_bits ==> a.row.pin_count >= b.row.pin_count
                &&& a.score_bits == b.score_bits && a.row.pin_count == b.row.pin_count ==> in_order(
                    natural_key(a.row.refdes@),
                    natural_key(b.row.refdes@),
                )
            },
        e.candidates.len() < limit && asks(query) ==> forall|c: int|
            0 <= c < d.components.len() && (identifies(query, #[trigger] d.components@[c]) || exists|
                f: Field,
            | #[trigger]
                all_in(d.components@[c], f, query)) ==> shown.contains(c),
{
    let n = Design::search_terms(query).len();
    let found = d.found(query, matches, worths);
    let keys = found.map_values(|h: Hit| d.score_key(h));
    let p = ranked(keys);
    lemma_ranked(keys);
    lemma_hits(matches, worths, n, d.components.len() as int);
    lemma_found_once(matches, worths, n, d.components.len() as int);
    let rows = page(d.best_first(found), 0, limit as int);
    let shown = rows.map_values(|h: Hit| h.comp);
    assert forall|i: int| 0 <= i < rows.len() implies #[trigger] rows[i] == found[p[i]] by {}
    assert forall|i: int| 0 <= i < shown.len() implies {
        &&& 0 <= shown[i] < d.components.len()
        &&& tells_of(d, (#[trigger] e.candidates@[i]).row, shown[i])
        &&& d.query_match(query, shown[i]) matches Some(m) && due(
            m,
            worths[shown[i]]@,
            n,
            e.candidates@[i].score_bits,
            e.candidates@[i].match_reason@,
        )
    } by {
        let h = found[p[i]];
        assert(rows[i] == h);
        assert(d.candidate_is(e.candidates@[i], h));
        assert(opt_match(matches[h.comp]) == d.query_match(query, h.comp));
        lemma_tells_of(d, e.candidates@[i].row, h.comp);
        lemma_due(h, d.query_match(query, h.comp), worths[h.comp]@, n);
    }
    assert forall|i: int, j: int| 0 <= i < shown.len() && 0 <= j < shown.len() && i
        != j implies shown[i] != shown[j] by {
        assert(rows[i] == found[p[i]] && rows[j] == found[p[j]]);
        assert(p[i] != p[j]);
    }
    assert forall|i: int, j: int| 0 <= i < j < shown.len() implies {
        let a = #[trigger] e.candidates@[i];
        let b = #[trigger] e.candidates@[j];
        &&& a.score_bits >= b.score_bits
        &&& a.score_bits == b.score_bits ==> a.row.pin_count >= b.row.pin_count
        &&& a.score_bits == b.score_bits && a.row.pin_count == b.row.pin_count ==> in_order(
            natural_key(a.row.refdes@),
            natural_key(b.row.refdes@),
        )
    } by {
        let a = found[p[i]];
        let b = found[p[j]];
        assert(rows[i] == a && rows[j] == b);
        assert(d.candidate_is(e.candidates@[i], a) && d.candidate_is(e.candidates@[j], b));
        assert(keys[p[i]] == d.score_key(a) && keys[p[j]] == d.score_key(b));
        lemma_score_order(d, a, b);
    }
    if e.candidates.len() < limit && asks(query) {
        assert(rows.len() == found.len());
        assert forall|c: int|
            0 <= c < d.components.len() && (identifies(query, #[trigger] d.components@[c]) || exists|
                f: Field,
            | #[trigger]
                all_in(d.components@[c], f, query)) implies shown.contains(c) by {
            assert(opt_match(matches[c]) == d.query_match(query, c));
            lemma_full_match_counts(d, c, query, worths[c]@);
            lemma_find_is_exhaustive(d, query, matches, worths, c);
            let k = choose|k: int| 0 <= k < found.len() && (#[trigger] found[k]).comp == c;
            assert(p.contains(k));
            let i = choose|i: int| 0 <= i < p.len() && p[i] == k;
            assert(rows[i] == found[k]);
            assert(shown[i] == c);
        }
    }
    shown
}

/// No component is found twice.
proof fn lemma_found_once(matches: Seq<Option<Match>>, worths: Seq<Vec<Worth>>, n: nat, k: int)
    ensures
        forall|i: int, j: int|
            0 <= i < hits_upto(matches, worths, n, k).len() && 0 <= j < hits_upto(
                matches,
                worths,
                n,
                k,
            ).len() && i != j ==> (#[trigger] hits_upto(matches, worths, n, k)[i]).comp != (
            #[trigger] hits_upto(matches, worths, n, k)[j]).comp,
    decreases k,
{
    if k > 0 {
        lemma_found_once(matches, worths, n, k - 1);
        lemma_hits(matches, worths, n, k - 1);
        let front = hits_upto(matches, worths, n, k - 1);
        let all = hits_upto(matches, worths, n, k);
        assert forall|i: int, j: int| 0 <= i < all.len() && 0 <= j < all.len() && i != j implies (
        #[trigger] all[i]).comp != (#[trigger] all[j]).comp by {
            if i < front.len() {
                assert(all[i] == front[i]);
            }
            if j < front.len() {
                assert(all[j] == front[j]);
            }
        }
    }
}

} // verus!
