//! Which parts a component filter lists, in terms of what the design says of each.
use vstd::prelude::*;

use super::classes::{natural_key, refdes_prefix};
use super::facts::{lemma_comp_pins, lemma_count_is_size, lemma_sorted_page, letters_end, sits_on};
use super::filter::{holds_all, lemma_search_text, opt_holds, query_terms, search_text, terms_of};
use super::filter::{FilterEnvelope, FilterRow};
use super::sheets::{lemma_parsed_filter, parsed_filter, selects, selects_any, Selector};
use super::{Component, Design};
use crate::lists::{lemma_count_where, page};
use crate::parser::netlist::opt_text;
use crate::ranking::{in_order, lemma_ranked, ranked};
use crate::text::{ascii_lower, contains, fields, is_ascii, is_ascii_text, is_digit, lemma_run_len};
use crate::text::{lowercase, run_len, trim_end, trimmed, AsciiDigit, CharClass, Exactly};
use crate::text::Whitespace;
use crate::text_laws::{lemma_fields_are_pieces, piece_at};

verus! {

/// What stands before the first digit of a part's designator is the class, letter case
/// aside.
pub open spec fn of_class(c: Component, class: Seq<char>) -> bool {
    exists|k: int| #[trigger]
        letters_end(c.refdes@, k) && lowercase(c.refdes@.take(k)) == lowercase(class)
}

/// The word occurs in a field of the part or in the value of one of its properties,
/// letter case aside.
pub open spec fn has_word(c: Component, t: Seq<char>) -> bool {
    ||| contains(lowercase(c.refdes@), t)
    ||| contains(lowercase(c.value@), t)
    ||| c.description.is_some() && contains(lowercase(c.description.unwrap()@), t)
    ||| c.footprint.is_some() && contains(lowercase(c.footprint.unwrap()@), t)
    ||| c.sheet.is_some() && contains(lowercase(c.sheet.unwrap()@), t)
    ||| exists|i: int|
        0 <= i < c.properties.rows().len() && (#[trigger] c.properties.rows()[i]).1.is_some()
            && contains(lowercase(c.properties.rows()[i].1.unwrap()@), t)
}

/// Each word of the query, which white space separates, is one of the part's.
pub open spec fn has_words(c: Component, q: Seq<char>) -> bool {
    forall|i: int, j: int| #[trigger]
        piece_at(q, Whitespace, i, j) ==> has_word(c, lowercase(q.subrange(i, j)))
}

/// Lowercasing the words of the query leaves them words.
pub open spec fn plain_words(q: Seq<char>) -> bool {
    forall|i: int, j: int| #[trigger]
        piece_at(q, Whitespace, i, j) ==> {
            let t = lowercase(q.subrange(i, j));
            t.len() > 0 && !t.contains(' ')
        }
}

/// What is asked of a part: its class, its sheet, whether it is fitted, and the words.
pub open spec fn asked_for(
    c: Component,
    query: Option<Seq<char>>,
    class: Option<Seq<char>>,
    filter: Option<Selector>,
    dnp: Option<bool>,
) -> bool {
    &&& class is Some ==> of_class(c, class.unwrap())
    &&& filter is Some ==> selects(filter.unwrap(), opt_text(c.sheet))
    &&& dnp is Some ==> c.dnp == dnp.unwrap()
    &&& query is Some ==> has_words(c, query.unwrap())
}

/// The row tells what the design says of the part.
pub open spec fn tells_of(d: &Design, r: FilterRow, c: int) -> bool {
    let comp = d.components@[c];
    &&& r.refdes@ == comp.refdes@
    &&& r.value@ == comp.value@
    &&& opt_text(r.description) == opt_text(comp.description)
    &&& opt_text(r.footprint) == opt_text(comp.footprint)
    &&& opt_text(r.sheet) == opt_text(comp.sheet)
    &&& opt_text(r.keywords) == (if comp.properties@.contains_key("ki_keywords"@) {
        opt_text(comp.properties@["ki_keywords"@])
    } else {
        None
    })
    &&& r.dnp == comp.dnp
    &&& r.pin_count == Set::new(|p: int| sits_on(d, p, c)).len()
}

pub proof fn lemma_tells_of(d: &Design, r: FilterRow, c: int)
    requires
        d.wf(),
        0 <= c < d.components.len(),
        d.row_is(r, c),
    ensures
        tells_of(d, r, c),
{
    lemma_comp_pins(d, c);
    let s = d.comp_pins(c);
    lemma_count_is_size(|p: int| true, s);
    lemma_count_where(|p: int| true, s);
    assert(Set::new(|x: int| s.contains(x) && (|p: int| true)(x)) =~= Set::new(
        |p: int| sits_on(d, p, c),
    ));
}

proof fn lemma_of_class(c: Component, class: Seq<char>)
    ensures
        of_class(c, class) <==> lowercase(refdes_prefix(c.refdes@)) == lowercase(class),
{
    lemma_prefix(c.refdes@);
    let n = refdes_prefix(c.refdes@).len() as int;
    if of_class(c, class) {
        let k = choose|k: int| #[trigger]
            letters_end(c.refdes@, k) && lowercase(c.refdes@.take(k)) == lowercase(class);
        lemma_letters_end_once(c.refdes@, k, n);
    }
}

proof fn lemma_prefix(refdes: Seq<char>)
    ensures
        letters_end(refdes, refdes_prefix(refdes).len() as int),
        refdes.take(refdes_prefix(refdes).len() as int) == refdes_prefix(refdes),
{
    lemma_run_len(refdes, AsciiDigit, false);
    let n = run_len(refdes, AsciiDigit, false) as int;
    assert(refdes_prefix(refdes).len() == n);
    assert forall|i: int| 0 <= i < n implies !('0' <= #[trigger] refdes[i] && refdes[i] <= '9') by {
        assert(!is_digit(refdes[i]));
    }
}

proof fn lemma_letters_end_once(refdes: Seq<char>, a: int, b: int)
    requires
        letters_end(refdes, a),
        letters_end(refdes, b),
    ensures
        a == b,
{
    if a < b {
        assert(!('0' <= refdes[a] && refdes[a] <= '9'));
    }
    if b < a {
        assert(!('0' <= refdes[b] && refdes[b] <= '9'));
    }
}

proof fn lemma_has_word(c: Component, t: Seq<char>)
    requires
        t.len() > 0,
        !t.contains(' '),
    ensures
        has_word(c, t) <==> contains(search_text(c), t),
{
    lemma_search_text(c, t);
    let rows = c.properties.rows();
    if exists|i: int| 0 <= i < rows.len() && opt_holds(opt_text((#[trigger] rows[i]).1), t) {
        let i = choose|i: int| 0 <= i < rows.len() && opt_holds(opt_text((#[trigger] rows[i]).1), t);
        assert(rows[i].1.is_some() && contains(lowercase(rows[i].1.unwrap()@), t));
    }
    if exists|i: int|
        0 <= i < rows.len() && (#[trigger] rows[i]).1.is_some() && contains(
            lowercase(rows[i].1.unwrap()@),
            t,
        ) {
        let i = choose|i: int|
            0 <= i < rows.len() && (#[trigger] rows[i]).1.is_some() && contains(
                lowercase(rows[i].1.unwrap()@),
                t,
            );
        assert(opt_holds(opt_text(rows[i].1), t));
    }
}

proof fn lemma_has_words(c: Component, q: Seq<char>)
    requires
        plain_words(q),
    ensures
        has_words(c, q) <==> holds_all(search_text(c), query_terms(q)),
{
    let words = fields(q, Whitespace);
    let terms = query_terms(q);
    if has_words(c, q) {
        assert forall|i: int| 0 <= i < terms.len() implies contains(
            search_text(c),
            #[trigger] terms[i],
        ) by {
            lemma_fields_are_pieces(q, Whitespace, words[i]);
            assert(words.contains(words[i]));
            let (a, b) = choose|a: int, b: int| #[trigger]
                piece_at(q, Whitespace, a, b) && q.subrange(a, b) == words[i];
            lemma_has_word(c, terms[i]);
        }
    }
    if holds_all(search_text(c), terms) {
        assert forall|i: int, j: int| #[trigger] piece_at(q, Whitespace, i, j) implies has_word(
            c,
            lowercase(q.subrange(i, j)),
        ) by {
            let w = q.subrange(i, j);
            lemma_fields_are_pieces(q, Whitespace, w);
            let k = choose|k: int| 0 <= k < words.len() && words[k] == w;
            assert(terms[k] == lowercase(w));
            lemma_has_word(c, lowercase(w));
        }
    }
}

proof fn lemma_asked_for(
    d: &Design,
    c: int,
    query: Option<Seq<char>>,
    class: Option<Seq<char>>,
    filter: Option<Selector>,
    dnp: Option<bool>,
)
    requires
        query is Some ==> plain_words(query.unwrap()),
    ensures
        d.component_passes(c, terms_of(query), class, filter, dnp) <==> asked_for(
            d.components@[c],
            query,
            class,
            filter,
            dnp,
        ),
{
    if let Some(q) = query {
        lemma_has_words(d.components@[c], q);
    }
    if let Some(k) = class {
        lemma_of_class(d.components@[c], k);
    }
}

/// Passing lists each part that passes once.
pub proof fn lemma_passing(
    d: &Design,
    k: int,
    terms: Seq<Seq<char>>,
    class: Option<Seq<char>>,
    filter: Option<Selector>,
    dnp: Option<bool>,
)
    requires
        0 <= k,
    ensures
        forall|c: int| #[trigger]
            d.passing(k, terms, class, filter, dnp).contains(c) <==> 0 <= c < k
                && d.component_passes(c, terms, class, filter, dnp),
        d.passing(k, terms, class, filter, dnp).no_duplicates(),
    decreases k,
{
    if k > 0 {
        lemma_passing(d, k - 1, terms, class, filter, dnp);
        let front = d.passing(k - 1, terms, class, filter, dnp);
        let all = d.passing(k, terms, class, filter, dnp);
        let passes = d.component_passes(k - 1, terms, class, filter, dnp);
        assert forall|c: int| #[trigger] all.contains(c) <==> front.contains(c) || (passes && c == k
            - 1) by {
            if front.contains(c) {
                let i = choose|i: int| 0 <= i < front.len() && front[i] == c;
                assert(all[i] == c);
            }
            if passes && c == k - 1 {
                assert(all[all.len() - 1] == c);
            }
            if all.contains(c) {
                let i = choose|i: int| 0 <= i < all.len() && all[i] == c;
                if i < front.len() {
                    assert(front[i] == c);
                }
            }
        }
        assert forall|i: int, j: int| 0 <= i < all.len() && 0 <= j < all.len() && i
            != j implies all[i] != all[j] by {
            if i < front.len() {
                assert(front.contains(front[i]));
            }
            if j < front.len() {
                assert(front.contains(front[j]));
            }
        }
    }
}

/// The answer to a component filter.
pub open spec fn answers_filter(
    d: &Design,
    e: FilterEnvelope,
    query: Option<Seq<char>>,
    class: Option<Seq<char>>,
    subsystem: Option<Seq<char>>,
    dnp: Option<bool>,
    limit: u32,
    offset: u32,
) -> bool {
    d.filter_answer(
        e,
        d.passing(
            d.components.len() as int,
            terms_of(query),
            class,
            d.filter_for(subsystem),
            dnp,
        ),
        d.note_for(subsystem),
        limit,
        offset,
    )
}

/// A filter counts the parts that are asked for, every row tells of one of them, no two
/// rows of the same, in natural order of their designators, and all have a row where the
/// page is large enough.
pub proof fn lemma_filter_lists(
    d: &Design,
    e: FilterEnvelope,
    query: Option<Seq<char>>,
    class: Option<Seq<char>>,
    subsystem: Option<Seq<char>>,
    dnp: Option<bool>,
    limit: u32,
    offset: u32,
) -> (shown: Seq<int>)
    requires
        d.wf(),
        answers_filter(d, e, query, class, subsystem, dnp, limit, offset),
        query is Some ==> plain_words(query.unwrap()),
    ensures
        e.total == Set::new(
            |c: int|
                0 <= c < d.components.len() && asked_for(
                    d.components@[c],
                    query,
                    class,
                    d.filter_for(subsystem),
                    dnp,
                ),
        ).len(),
        e.offset == offset,
        e.limit == limit,
        opt_text(e.subsystem_note) == d.note_for(subsystem),
        e.returned == e.rows.len(),
        e.returned == (if e.total <= offset {
            0
        } else if e.total - offset <= limit {
            e.total - offset
        } else {
            limit as int
        }),
        shown.len() == e.rows.len(),
        shown.no_duplicates(),
        forall|i: int|
            0 <= i < e.rows.len() ==> {
                &&& 0 <= shown[i] < d.components.len()
                &&& tells_of(d, #[trigger] e.rows@[i], shown[i])
                &&& asked_for(
                    d.components@[shown[i]],
                    query,
                    class,
                    d.filter_for(subsystem),
                    dnp,
                )
            },
        offset == 0 && e.total <= limit ==> forall|c: int|
            0 <= c < d.components.len() && asked_for(
                #[trigger] d.components@[c],
                query,
                class,
                d.filter_for(subsystem),
                dnp,
            ) ==> shown.contains(c),
        forall|i: int, j: int|
            0 <= i < j < e.rows.len() ==> in_order(
                natural_key((#[trigger] e.rows@[i]).refdes@),
                natural_key((#[trigger] e.rows@[j]).refdes@),
            ),
{
    let f = d.filter_for(subsystem);
    let terms = terms_of(query);
    let all = d.passing(d.components.len() as int, terms, class, f, dnp);
    let keys = all.map_values(|c: int| d.refdes_key(c));
    let shown = page(d.by_refdes(all), offset as int, limit as int);
    lemma_passing(d, d.components.len() as int, terms, class, f, dnp);
    lemma_sorted_page(all, keys, offset as int, limit as int);
    lemma_count_is_size(|c: int| true, all);
    lemma_count_where(|c: int| true, all);
    assert forall|c: int| #[trigger] all.contains(c) <==> 0 <= c < d.components.len() && asked_for(
        d.components@[c],
        query,
        class,
        f,
        dnp,
    ) by {
        lemma_asked_for(d, c, query, class, f, dnp);
    }
    assert(Set::new(|x: int| all.contains(x) && (|c: int| true)(x)) =~= Set::new(
        |c: int|
            0 <= c < d.components.len() && asked_for(d.components@[c], query, class, f, dnp),
    ));
    assert forall|i: int| 0 <= i < e.rows.len() implies {
        &&& 0 <= shown[i] < d.components.len()
        &&& tells_of(d, #[trigger] e.rows@[i], shown[i])
        &&& asked_for(d.components@[shown[i]], query, class, f, dnp)
    } by {
        assert(d.row_is(e.rows@[i], shown[i]));
        assert(all.contains(shown[i]));
        lemma_tells_of(d, e.rows@[i], shown[i]);
    }
    lemma_ranked(keys);
    let p = ranked(keys);
    let from = if offset < all.len() {
        offset as int
    } else {
        all.len() as int
    };
    assert forall|i: int, j: int| 0 <= i < j < e.rows.len() implies in_order(
        natural_key((#[trigger] e.rows@[i]).refdes@),
        natural_key((#[trigger] e.rows@[j]).refdes@),
    ) by {
        assert(d.row_is(e.rows@[i], shown[i]) && d.row_is(e.rows@[j], shown[j]));
        assert(shown[i] == all[p[from + i]] && shown[j] == all[p[from + j]]);
        assert(keys[p[from + i]] == d.refdes_key(shown[i]));
        assert(keys[p[from + j]] == d.refdes_key(shown[j]));
    }
    shown
}

/// The sheet is one that the design has, with parts on it or without.
pub open spec fn has_sheet(d: &Design, sheet: Option<Seq<char>>) -> bool {
    ||| exists|c: int|
        0 <= c < d.components.len() && opt_text((#[trigger] d.components@[c]).sheet) == sheet
    ||| exists|i: int|
        0 <= i < d.sheet_paths.len() && Some((#[trigger] d.sheet_paths@[i])@) == sheet
}

proof fn lemma_known_sheets(d: &Design, sheet: Option<Seq<char>>)
    ensures
        d.known_sheets().contains(sheet) <==> has_sheet(d, sheet),
{
    let all = d.known_sheets();
    let n = d.components.len() as int;
    if all.contains(sheet) {
        let i = choose|i: int| 0 <= i < all.len() && all[i] == sheet;
        if i < n {
            assert(opt_text(d.components@[i].sheet) == sheet);
        } else {
            assert(Some(d.sheet_paths@[i - n]@) == sheet);
        }
    }
    if exists|c: int|
        0 <= c < d.components.len() && opt_text((#[trigger] d.components@[c]).sheet) == sheet {
        let c = choose|c: int|
            0 <= c < d.components.len() && opt_text((#[trigger] d.components@[c]).sheet) == sheet;
        assert(all[c] == sheet);
    }
    if exists|i: int|
        0 <= i < d.sheet_paths.len() && Some((#[trigger] d.sheet_paths@[i])@) == sheet {
        let i = choose|i: int|
            0 <= i < d.sheet_paths.len() && Some((#[trigger] d.sheet_paths@[i])@) == sheet;
        assert(all[n + i] == sheet);
    }
}

/// An argument is widened, and a note says so and quotes it, exactly where it is a rooted
/// path that selects no sheet of the design; it then selects the sheets whose path starts
/// with it. Any other argument is taken as it is, without a note.
pub proof fn lemma_widened_with_a_note(d: &Design, arg: Option<Seq<char>>)
    ensures
        ({
            let f = parsed_filter(arg);
            let lost = f matches Some(Selector::Path(p)) && forall|s: Option<Seq<char>>|
                #[trigger]
                has_sheet(d, s) ==> !selects(Selector::Path(p), s);
            &&& d.note_for(arg) is Some <==> lost
            &&& !lost ==> d.filter_for(arg) == f
            &&& lost ==> (f matches Some(Selector::Path(p)) && d.filter_for(arg) == Some(
                Selector::PathPrefix(trim_end(p, Exactly('/'))),
            ) && d.note_for(arg) == Some(
                "no sheet in this design answers to '"@ + trimmed(arg.unwrap())
                    + "'; widened to sheets whose path starts with '"@ + trim_end(
                    p,
                    Exactly('/'),
                ) + "' — for an unanchored match, drop the leading slash"@,
            ))
        }),
{
    lemma_parsed_filter(arg);
    if let Some(Selector::Path(p)) = parsed_filter(arg) {
        let f = Selector::Path(p);
        let all = d.known_sheets();
        assert(selects_any(f, all) <==> exists|s: Option<Seq<char>>| #[trigger]
            has_sheet(d, s) && selects(f, s)) by {
            if selects_any(f, all) {
                let i = choose|i: int| 0 <= i < all.len() && selects(f, #[trigger] all[i]);
                assert(all.contains(all[i]));
                lemma_known_sheets(d, all[i]);
                assert(has_sheet(d, all[i]) && selects(f, all[i]));
            }
            if exists|s: Option<Seq<char>>| #[trigger] has_sheet(d, s) && selects(f, s) {
                let s = choose|s: Option<Seq<char>>| #[trigger] has_sheet(d, s) && selects(f, s);
                lemma_known_sheets(d, s);
                let i = choose|i: int| 0 <= i < all.len() && all[i] == s;
                assert(selects(f, all[i]));
            }
        }
    }
}

/// Every part that a class filter lists has exactly that class, letter case aside, so
/// the lists for two classes share no designator unless the classes differ by letter
/// case alone.
pub proof fn lemma_class_lists(
    d: &Design,
    a: FilterEnvelope,
    b: FilterEnvelope,
    one: Seq<char>,
    other: Seq<char>,
    subsystem: Option<Seq<char>>,
    dnp: Option<bool>,
    limit: u32,
    offset: u32,
)
    requires
        d.wf(),
        answers_filter(d, a, None, Some(one), subsystem, dnp, limit, offset),
        answers_filter(d, b, None, Some(other), subsystem, dnp, limit, offset),
    ensures
        forall|i: int|
            0 <= i < a.rows.len() ==> exists|k: int| #[trigger]
                letters_end((#[trigger] a.rows@[i]).refdes@, k) && lowercase(
                    a.rows@[i].refdes@.take(k),
                ) == lowercase(one),
        lowercase(one) != lowercase(other) ==> forall|i: int, j: int|
            0 <= i < a.rows.len() && 0 <= j < b.rows.len() ==> (#[trigger] a.rows@[i]).refdes@ != (
            #[trigger] b.rows@[j]).refdes@,
        lowercase(one) == lowercase(other) ==> a.total == b.total,
{
    let f = d.filter_for(subsystem);
    let va = lemma_filter_lists(d, a, None, Some(one), subsystem, dnp, limit, offset);
    let vb = lemma_filter_lists(d, b, None, Some(other), subsystem, dnp, limit, offset);
    assert forall|i: int| 0 <= i < a.rows.len() implies exists|k: int| #[trigger]
        letters_end((#[trigger] a.rows@[i]).refdes@, k) && lowercase(a.rows@[i].refdes@.take(k))
            == lowercase(one) by {
        assert(tells_of(d, a.rows@[i], va[i]));
        assert(of_class(d.components@[va[i]], one));
    }
    assert forall|i: int, j: int|
        0 <= i < a.rows.len() && 0 <= j < b.rows.len() && lowercase(one) != lowercase(
            other,
        ) implies (#[trigger] a.rows@[i]).refdes@ != (#[trigger] b.rows@[j]).refdes@ by {
        assert(tells_of(d, a.rows@[i], va[i]) && tells_of(d, b.rows@[j], vb[j]));
        lemma_of_class(d.components@[va[i]], one);
        lemma_of_class(d.components@[vb[j]], other);
    }
    if lowercase(one) == lowercase(other) {
        assert forall|c: int| asked_for(d.components@[c], None, Some(one), f, dnp) <==> asked_for(
            d.components@[c],
            None,
            Some(other),
            f,
            dnp,
        ) by {
            lemma_of_class(d.components@[c], one);
            lemma_of_class(d.components@[c], other);
        }
        assert(Set::new(
            |c: int|
                0 <= c < d.components.len() && asked_for(
                    d.components@[c],
                    None,
                    Some(one),
                    f,
                    dnp,
                ),
        ) =~= Set::new(
            |c: int|
                0 <= c < d.components.len() && asked_for(
                    d.components@[c],
                    None,
                    Some(other),
                    f,
                    dnp,
                ),
        ));
    }
}

/// The sum of the totals of answers.
pub open spec fn totals(es: Seq<FilterEnvelope>) -> nat
    decreases es.len(),
{
    if es.len() == 0 {
        0
    } else {
        totals(es.drop_last()) + es.last().total as nat
    }
}

/// The parts of one of the classes.
pub open spec fn parts_of_classes(d: &Design, classes: Seq<Seq<char>>) -> Set<int> {
    Set::new(
        |c: int|
            0 <= c < d.components.len() && exists|i: int|
                0 <= i < classes.len() && of_class(d.components@[c], #[trigger] classes[i]),
    )
}

/// The totals for classes of which no two are the same, letter case aside, add up to the
/// number of parts of those classes: to that of all parts where every part has one.
pub proof fn lemma_class_totals_add_up(
    d: &Design,
    es: Seq<FilterEnvelope>,
    classes: Seq<Seq<char>>,
    limit: u32,
    offset: u32,
)
    requires
        d.wf(),
        es.len() == classes.len(),
        forall|i: int|
            0 <= i < es.len() ==> answers_filter(
                d,
                #[trigger] es[i],
                None,
                Some(classes[i]),
                None,
                None,
                limit,
                offset,
            ),
        forall|i: int, j: int|
            0 <= i < j < classes.len() ==> lowercase(#[trigger] classes[i]) != lowercase(
                #[trigger] classes[j],
            ),
    ensures
        parts_of_classes(d, classes).finite(),
        totals(es) == parts_of_classes(d, classes).len(),
        (forall|c: int|
            0 <= c < d.components.len() ==> exists|i: int|
                0 <= i < classes.len() && of_class(
                    #[trigger] d.components@[c],
                    #[trigger] classes[i],
                )) ==> totals(es) == d.components.len(),
    decreases es.len(),
{
    let all = parts_of_classes(d, classes);
    if es.len() == 0 {
        assert(all =~= Set::empty());
    } else {
        let front = classes.drop_last();
        let before = es.drop_last();
        assert forall|i: int| 0 <= i < before.len() implies answers_filter(
            d,
            #[trigger] before[i],
            None,
            Some(front[i]),
            None,
            None,
            limit,
            offset,
        ) by {
            assert(before[i] == es[i] && front[i] == classes[i]);
        }
        lemma_class_totals_add_up(d, before, front, limit, offset);
        let some = parts_of_classes(d, front);
        let last = classes.last();
        let n = classes.len() - 1;
        let e = es[es.len() - 1];
        let shown = lemma_filter_lists(d, e, None, Some(last), None, None, limit, offset);
        let f = d.filter_for(None);
        let more = Set::new(
            |c: int|
                0 <= c < d.components.len() && asked_for(
                    d.components@[c],
                    None,
                    Some(last),
                    f,
                    None,
                ),
        );
        assert(f is None);
        lemma_range(d.components.len() as int);
        vstd::set_lib::lemma_len_subset(more, Set::new(|c: int| 0 <= c < d.components.len()));
        assert(some.disjoint(more)) by {
            assert forall|c: int| some.contains(c) && more.contains(c) implies false by {
                let i = choose|i: int|
                    0 <= i < front.len() && of_class(d.components@[c], #[trigger] front[i]);
                lemma_of_class(d.components@[c], front[i]);
                lemma_of_class(d.components@[c], last);
                assert(front[i] == classes[i] && classes[n] == last);
            }
        }
        assert(all =~= some.union(more)) by {
            assert forall|c: int| all.contains(c) <==> some.contains(c) || more.contains(c) by {
                if all.contains(c) {
                    let i = choose|i: int|
                        0 <= i < classes.len() && of_class(d.components@[c], #[trigger] classes[i]);
                    if i < n {
                        assert(front[i] == classes[i]);
                    }
                }
                if some.contains(c) {
                    let i = choose|i: int|
                        0 <= i < front.len() && of_class(d.components@[c], #[trigger] front[i]);
                    assert(classes[i] == front[i]);
                }
                if more.contains(c) {
                    assert(classes[n] == last);
                }
            }
        }
        vstd::set_lib::lemma_set_disjoint_lens(some, more);
    }
    if forall|c: int|
        0 <= c < d.components.len() ==> exists|i: int|
            0 <= i < classes.len() && of_class(
                #[trigger] d.components@[c],
                #[trigger] classes[i],
            ) {
        lemma_range(d.components.len() as int);
        assert(all =~= Set::new(|c: int| 0 <= c < d.components.len()));
    }
}

/// There are `n` places before place `n`.
pub proof fn lemma_range(n: int)
    requires
        0 <= n,
    ensures
        Set::new(|c: int| 0 <= c < n).finite(),
        Set::new(|c: int| 0 <= c < n).len() == n,
    decreases n,
{
    let all = Set::new(|c: int| 0 <= c < n);
    if n == 0 {
        assert(all =~= Set::empty());
    } else {
        lemma_range(n - 1);
        assert(all =~= Set::new(|c: int| 0 <= c < n - 1).insert(n - 1));
    }
}

/// The words of a query in plain characters stay words when they are lowered.
pub proof fn lemma_plain_words(q: Seq<char>)
    requires
        is_ascii_text(q),
    ensures
        plain_words(q),
{
    assert forall|i: int, j: int| #[trigger] piece_at(q, Whitespace, i, j) implies {
        let t = lowercase(q.subrange(i, j));
        t.len() > 0 && !t.contains(' ')
    } by {
        let w = q.subrange(i, j);
        assert(is_ascii_text(w)) by {
            assert forall|k: int| 0 <= k < w.len() implies is_ascii(#[trigger] w[k]) by {
                assert(w[k] == q[i + k]);
            }
        }
        let t = lowercase(w);
        assert(t.len() == w.len());
        if t.contains(' ') {
            let k = choose|k: int| 0 <= k < t.len() && t[k] == ' ';
            assert(t[k] == ascii_lower(w[k]));
            assert(w[k] == ' ');
            assert(w[k] == q[i + k]);
            assert(Whitespace.has(q[i + k]));
        }
    }
}

/// The rows have the class, letter case aside.
pub open spec fn rows_of_class(e: FilterEnvelope, class: Option<Seq<char>>) -> bool {
    class is Some ==> forall|i: int|
        0 <= i < e.rows.len() ==> spelled_class((#[trigger] e.rows@[i]).refdes@, class.unwrap())
}

/// What stands before the designator's first digit is the class, letter case aside.
pub open spec fn spelled_class(refdes: Seq<char>, class: Seq<char>) -> bool {
    exists|k: int| #[trigger]
        letters_end(refdes, k) && lowercase(refdes.take(k)) == lowercase(class)
}

/// Every row of a filtered list has the class that was asked for.
pub proof fn lemma_rows_of_class(
    d: &Design,
    e: FilterEnvelope,
    query: Option<Seq<char>>,
    class: Option<Seq<char>>,
    subsystem: Option<Seq<char>>,
    dnp: Option<bool>,
    limit: u32,
    offset: u32,
)
    requires
        answers_filter(d, e, query, class, subsystem, dnp, limit, offset),
    ensures
        rows_of_class(e, class),
{
    if let Some(k) = class {
        let f = d.filter_for(subsystem);
        let terms = terms_of(query);
        let all = d.passing(d.components.len() as int, terms, class, f, dnp);
        let shown = page(d.by_refdes(all), offset as int, limit as int);
        lemma_passing(d, d.components.len() as int, terms, class, f, dnp);
        lemma_sorted_page(
            all,
            all.map_values(|c: int| d.refdes_key(c)),
            offset as int,
            limit as int,
        );
        assert forall|i: int| 0 <= i < e.rows.len() implies spelled_class(
            (#[trigger] e.rows@[i]).refdes@,
            k,
        ) by {
            assert(d.row_is(e.rows@[i], shown[i]));
            assert(all.contains(shown[i]));
            lemma_of_class(d.components@[shown[i]], k);
        }
    }
}

} // verus!
