//! What is joined to what in a design, said of its parts and pins one by one.
use vstd::prelude::*;

use super::classes::{class_of, is_ic_class, is_probe_class};
use super::{lemma_pins_of_comp, lemma_pins_on_net, on_net, pin_ids, type_count, Design};
use crate::lists::{arranged, count_where, page};
use crate::ranking::{lemma_ranked, ranked, Key};
use crate::text::{is_digit, lemma_run_len_unique, run_len, uppercase, AsciiDigit};

verus! {

/// The pin at place `p` is joined to the net at place `n`.
pub open spec fn joins(d: &Design, p: int, n: int) -> bool {
    0 <= p < d.pins.len() && (d.pins@[p].net matches Some(id) && id.0 == n)
}

/// The pin at place `p` is one of the part at place `c`.
pub open spec fn sits_on(d: &Design, p: int, c: int) -> bool {
    0 <= p < d.pins.len() && d.pins@[p].comp.0 == c
}

/// The pin at place `p` has the electrical type `t`.
pub open spec fn typed(d: &Design, p: int, t: Seq<char>) -> bool {
    0 <= p < d.pins.len() && d.pins@[p].pin_type.is_some() && d.pins@[p].pin_type->0@ == t
}

/// Some pin on the net has the type.
pub open spec fn some_typed(d: &Design, n: int, t: Seq<char>) -> bool {
    exists|p: int| #[trigger] joins(d, p, n) && typed(d, p, t)
}

/// The first `k` characters of a designator are all that stands before its first digit.
pub open spec fn letters_end(refdes: Seq<char>, k: int) -> bool {
    &&& 0 <= k <= refdes.len()
    &&& forall|i: int| 0 <= i < k ==> !('0' <= #[trigger] refdes[i] && refdes[i] <= '9')
    &&& k < refdes.len() ==> '0' <= refdes[k] && refdes[k] <= '9'
}

/// What stands before the first digit of a designator is, in capitals, the class.
pub open spec fn lettered(refdes: Seq<char>, class: Seq<char>) -> bool {
    exists|k: int| #[trigger] letters_end(refdes, k) && uppercase(refdes.take(k)) == class
}

/// The part at place `c` has two pins and no third.
pub open spec fn two_pinned(d: &Design, c: int) -> bool {
    exists|p: int, q: int|
        #![trigger sits_on(d, p, c), sits_on(d, q, c)]
        p != q && sits_on(d, p, c) && sits_on(d, q, c) && forall|r: int|
            #[trigger] sits_on(d, r, c) ==> r == p || r == q
}

/// A resistor, inductor, capacitor or ferrite bead with two pins.
pub open spec fn in_series(d: &Design, c: int) -> bool {
    let refdes = d.components@[c].refdes@;
    two_pinned(d, c) && (lettered(refdes, seq!['R']) || lettered(refdes, seq!['L']) || lettered(
        refdes,
        seq!['C'],
    ) || lettered(refdes, seq!['F', 'B']))
}

/// A test point, hole, mounting hole or fiducial.
pub open spec fn only_touches(d: &Design, c: int) -> bool {
    let refdes = d.components@[c].refdes@;
    lettered(refdes, seq!['T', 'P']) || lettered(refdes, seq!['H']) || lettered(
        refdes,
        seq!['M', 'H'],
    ) || lettered(refdes, seq!['F', 'I', 'D'])
}

/// A designator has one class, the one that is read off it.
pub proof fn lemma_lettered(refdes: Seq<char>, class: Seq<char>)
    ensures
        lettered(refdes, class) <==> class_of(refdes) == class,
{
    let n = run_len(refdes, AsciiDigit, false) as int;
    lemma_run_stops(refdes);
    assert(letters_end(refdes, n));
    if lettered(refdes, class) {
        let k = choose|k: int| #[trigger]
            letters_end(refdes, k) && uppercase(refdes.take(k)) == class;
        if k < n {
            assert(!is_digit(refdes[k]));
        }
        if n < k {
            assert(!('0' <= refdes[n] && refdes[n] <= '9'));
        }
        assert(k == n);
    }
}

proof fn lemma_run_stops(s: Seq<char>)
    ensures
        letters_end(s, run_len(s, AsciiDigit, false) as int),
    decreases s.len(),
{
    let n = run_len(s, AsciiDigit, false) as int;
    if s.len() > 0 && !is_digit(s[0]) {
        let t = s.skip(1);
        lemma_run_stops(t);
        let m = run_len(t, AsciiDigit, false) as int;
        assert(letters_end(s, m + 1)) by {
            assert forall|i: int| 0 <= i < m + 1 implies !('0' <= #[trigger] s[i] && s[i]
                <= '9') by {
                if i > 0 {
                    assert(t[i - 1] == s[i]);
                }
            }
            if m + 1 < s.len() {
                assert(t[m] == s[m + 1]);
            }
        }
        assert forall|i: int| 0 <= i < m + 1 implies !is_digit(#[trigger] s[i]) by {}
        lemma_run_len_unique(s, AsciiDigit, false, m + 1);
    } else {
        lemma_run_len_unique(s, AsciiDigit, false, 0);
    }
}

/// The pins that a net lists are the pins joined to it, each once.
pub proof fn lemma_net_pins(d: &Design, n: int)
    requires
        d.wf(),
        0 <= n < d.nets.len(),
    ensures
        forall|p: int| #[trigger] d.net_pins(n).contains(p) <==> joins(d, p, n),
        forall|i: int| 0 <= i < d.net_pins(n).len() ==> joins(d, #[trigger] d.net_pins(n)[i], n),
        forall|p: int| #[trigger] joins(d, p, n) ==> d.net_pins(n).contains(p),
        d.net_pins(n).no_duplicates(),
        d.net_pins(n).len() == d.nets@[n].pins.len(),
{
    let s = d.net_pins(n);
    lemma_pins_on_net(d.pins@, n);
    assert(s == pin_ids(d.nets@[n].pins@));
    assert forall|i: int| 0 <= i < s.len() implies joins(d, #[trigger] s[i], n) by {
        assert(on_net(d.pins@[s[i]], n));
    }
    assert forall|p: int| #[trigger] joins(d, p, n) implies s.contains(p) by {
        assert(on_net(d.pins@[p], n));
    }
}

/// The pins that a part lists are its own, each once.
pub proof fn lemma_comp_pins(d: &Design, c: int)
    requires
        d.wf(),
        0 <= c < d.components.len(),
    ensures
        forall|p: int| #[trigger] d.comp_pins(c).contains(p) <==> sits_on(d, p, c),
        forall|i: int| 0 <= i < d.comp_pins(c).len() ==> sits_on(d, #[trigger] d.comp_pins(c)[i], c),
        forall|p: int| #[trigger] sits_on(d, p, c) ==> d.comp_pins(c).contains(p),
        d.comp_pins(c).no_duplicates(),
        d.comp_pins(c).len() == d.components@[c].pins.len(),
{
    let s = d.comp_pins(c);
    lemma_pins_of_comp(d.pins@, c);
    assert(s == pin_ids(d.components@[c].pins@));
    assert forall|i: int| 0 <= i < s.len() implies sits_on(d, #[trigger] s[i], c) by {
        assert(d.pins@[s[i]].comp.0 == c);
    }
    assert forall|p: int| #[trigger] sits_on(d, p, c) implies s.contains(p) by {
        assert(d.pins@[p].comp.0 == c);
    }
}

/// A part has two pins and no third exactly when it lists two.
pub proof fn lemma_two_pinned(d: &Design, c: int)
    requires
        d.wf(),
        0 <= c < d.components.len(),
    ensures
        two_pinned(d, c) <==> d.components@[c].pins.len() == 2,
{
    let s = d.comp_pins(c);
    lemma_comp_pins(d, c);
    if s.len() == 2 {
        assert(sits_on(d, s[0], c) && sits_on(d, s[1], c) && s[0] != s[1]);
        assert forall|r: int| #[trigger] sits_on(d, r, c) implies r == s[0] || r == s[1] by {
            assert(s.contains(r));
        }
    }
    if two_pinned(d, c) {
        let (p, q) = choose|p: int, q: int|
            #![trigger sits_on(d, p, c), sits_on(d, q, c)]
            p != q && sits_on(d, p, c) && sits_on(d, q, c) && forall|r: int|
                #[trigger] sits_on(d, r, c) ==> r == p || r == q;
        assert(s.contains(p) && s.contains(q));
        let i = choose|i: int| 0 <= i < s.len() && s[i] == p;
        let j = choose|j: int| 0 <= j < s.len() && s[j] == q;
        if s.len() > 2 {
            let k: int = if i != 0 && j != 0 {
                0
            } else if i != 1 && j != 1 {
                1
            } else {
                2
            };
            assert(sits_on(d, s[k], c));
            assert(s[k] == p || s[k] == q);
        }
        assert(i != j);
    }
}

/// What a part is to a walk follows from its designator's letters and its pins: two
/// pins and R, L, C or FB and the walk goes through it; TP, H, MH or FID and it only
/// touches the net; anything else and the net can end on it.
pub proof fn lemma_part_kinds(d: &Design, c: int)
    requires
        d.wf(),
        0 <= c < d.components.len(),
    ensures
        d.passes(c) <==> in_series(d, c),
        is_probe_class(d.class(c)) <==> only_touches(d, c),
        d.ends_on(c) <==> !in_series(d, c) && !only_touches(d, c),
        is_ic_class(d.class(c)) <==> lettered(d.components@[c].refdes@, seq!['U']),
{
    let refdes = d.components@[c].refdes@;
    lemma_two_pinned(d, c);
    lemma_class_letters();
    lemma_lettered(refdes, seq!['R']);
    lemma_lettered(refdes, seq!['L']);
    lemma_lettered(refdes, seq!['C']);
    lemma_lettered(refdes, seq!['F', 'B']);
    lemma_lettered(refdes, seq!['T', 'P']);
    lemma_lettered(refdes, seq!['H']);
    lemma_lettered(refdes, seq!['M', 'H']);
    lemma_lettered(refdes, seq!['F', 'I', 'D']);
    lemma_lettered(refdes, seq!['U']);
}

/// The classes that parts are told apart by, letter by letter.
pub proof fn lemma_class_letters()
    ensures
        "R"@ == seq!['R'],
        "L"@ == seq!['L'],
        "C"@ == seq!['C'],
        "U"@ == seq!['U'],
        "H"@ == seq!['H'],
        "J"@ == seq!['J'],
        "P"@ == seq!['P'],
        "FB"@ == seq!['F', 'B'],
        "TP"@ == seq!['T', 'P'],
        "MH"@ == seq!['M', 'H'],
        "FID"@ == seq!['F', 'I', 'D'],
        "CN"@ == seq!['C', 'N'],
        "RJ"@ == seq!['R', 'J'],
        "USB"@ == seq!['U', 'S', 'B'],
{
    reveal_strlit("R");
    reveal_strlit("L");
    reveal_strlit("C");
    reveal_strlit("U");
    reveal_strlit("H");
    reveal_strlit("J");
    reveal_strlit("P");
    reveal_strlit("FB");
    reveal_strlit("TP");
    reveal_strlit("MH");
    reveal_strlit("FID");
    reveal_strlit("CN");
    reveal_strlit("RJ");
    reveal_strlit("USB");
    assert("R"@ =~= seq!['R']);
    assert("L"@ =~= seq!['L']);
    assert("C"@ =~= seq!['C']);
    assert("U"@ =~= seq!['U']);
    assert("H"@ =~= seq!['H']);
    assert("J"@ =~= seq!['J']);
    assert("P"@ =~= seq!['P']);
    assert("FB"@ =~= seq!['F', 'B']);
    assert("TP"@ =~= seq!['T', 'P']);
    assert("MH"@ =~= seq!['M', 'H']);
    assert("FID"@ =~= seq!['F', 'I', 'D']);
    assert("CN"@ =~= seq!['C', 'N']);
    assert("RJ"@ =~= seq!['R', 'J']);
    assert("USB"@ =~= seq!['U', 'S', 'B']);
}

/// A count over a list without repeats is the size of the set of what is counted.
pub proof fn lemma_count_is_size(f: spec_fn(int) -> bool, s: Seq<int>)
    requires
        s.no_duplicates(),
    ensures
        Set::new(|x: int| s.contains(x) && f(x)).finite(),
        count_where(f, s) == Set::new(|x: int| s.contains(x) && f(x)).len(),
    decreases s.len(),
{
    let all = Set::new(|x: int| s.contains(x) && f(x));
    if s.len() == 0 {
        assert(all =~= Set::empty());
    } else {
        let front = s.drop_last();
        let some = Set::new(|x: int| front.contains(x) && f(x));
        lemma_count_is_size(f, front);
        assert forall|x: int| s.contains(x) <==> front.contains(x) || x == s.last() by {
            if s.contains(x) {
                let i = choose|i: int| 0 <= i < s.len() && s[i] == x;
                if i < front.len() {
                    assert(front[i] == x);
                }
            }
            if front.contains(x) {
                let i = choose|i: int| 0 <= i < front.len() && front[i] == x;
                assert(s[i] == x);
            }
            assert(s[s.len() - 1] == s.last());
        }
        assert(!front.contains(s.last())) by {
            if front.contains(s.last()) {
                let i = choose|i: int| 0 <= i < front.len() && front[i] == s.last();
                assert(s[i] == s[s.len() - 1]);
            }
        }
        if f(s.last()) {
            assert(all =~= some.insert(s.last()));
        } else {
            assert(all =~= some);
        }
    }
}

/// A type count is a count of the pins that have the type.
pub proof fn lemma_type_count(d: &Design, ids: Seq<int>, t: Seq<char>)
    requires
        forall|i: int| 0 <= i < ids.len() ==> 0 <= #[trigger] ids[i] < d.pins.len(),
    ensures
        type_count(d.pins@, ids, t) == count_where(|p: int| typed(d, p, t), ids),
    decreases ids.len(),
{
    if ids.len() > 0 {
        let front = ids.drop_last();
        assert forall|i: int| 0 <= i < front.len() implies 0 <= #[trigger] front[i]
            < d.pins.len() by {
            assert(front[i] == ids[i]);
        }
        lemma_type_count(d, front, t);
        assert(ids[ids.len() - 1] == ids.last());
    }
}

/// The pins on a net of which something holds, as many as there are.
pub open spec fn pins_where(d: &Design, n: int, f: spec_fn(int) -> bool) -> Set<int> {
    Set::new(|p: int| joins(d, p, n) && f(p))
}

/// A count over a net is the number of pins joined to it that are counted.
pub proof fn lemma_net_count(d: &Design, n: int, f: spec_fn(int) -> bool)
    requires
        d.wf(),
        0 <= n < d.nets.len(),
    ensures
        pins_where(d, n, f).finite(),
        count_where(f, d.net_pins(n)) == pins_where(d, n, f).len(),
        count_where(f, d.net_pins(n)) > 0 <==> exists|p: int| #[trigger] joins(d, p, n) && f(p),
{
    let s = d.net_pins(n);
    lemma_net_pins(d, n);
    lemma_count_is_size(f, s);
    assert(Set::new(|x: int| s.contains(x) && f(x)) =~= pins_where(d, n, f));
    if count_where(f, s) > 0 {
        assert(exists|p: int| pins_where(d, n, f).contains(p)) by {
            let p = pins_where(d, n, f).choose();
            assert(pins_where(d, n, f).contains(p));
        }
        let p = choose|p: int| pins_where(d, n, f).contains(p);
        assert(joins(d, p, n) && f(p));
    }
    if exists|p: int| #[trigger] joins(d, p, n) && f(p) {
        let p = choose|p: int| #[trigger] joins(d, p, n) && f(p);
        assert(pins_where(d, n, f).contains(p));
        if pins_where(d, n, f).len() == 0 {
            assert(pins_where(d, n, f) =~= Set::empty());
        }
    }
}

/// How many pins on a net have a type.
pub proof fn lemma_net_types(d: &Design, n: int, t: Seq<char>)
    requires
        d.wf(),
        0 <= n < d.nets.len(),
    ensures
        d.type_count_on(n, t) == pins_where(d, n, |p: int| typed(d, p, t)).len(),
        d.type_count_on(n, t) > 0 <==> some_typed(d, n, t),
{
    lemma_net_pins(d, n);
    lemma_type_count(d, d.net_pins(n), t);
    lemma_net_count(d, n, |p: int| typed(d, p, t));
    let f = |p: int| typed(d, p, t);
    if some_typed(d, n, t) {
        let p = choose|p: int| #[trigger] joins(d, p, n) && typed(d, p, t);
        assert(joins(d, p, n) && f(p));
    }
}

/// A page of a sorted list shows items of the list, none twice, as many as the limit and
/// the list's end allow, and all of them where nothing is skipped and the limit allows.
pub proof fn lemma_sorted_page<A>(s: Seq<A>, keys: Seq<Key>, offset: int, limit: int)
    requires
        s.len() == keys.len(),
        0 <= offset,
        0 <= limit,
    ensures
        ({
            let shown = page(arranged(s, ranked(keys)), offset, limit);
            &&& forall|i: int| 0 <= i < shown.len() ==> s.contains(#[trigger] shown[i])
            &&& offset == 0 && s.len() <= limit ==> shown.len() == s.len() && forall|x: A|
                s.contains(x) ==> #[trigger] shown.contains(x)
            &&& s.no_duplicates() ==> shown.no_duplicates()
            &&& shown.len() == (if s.len() <= offset {
                0
            } else if s.len() - offset <= limit {
                s.len() - offset
            } else {
                limit
            })
        }),
{
    let p = ranked(keys);
    let all = arranged(s, p);
    let shown = page(all, offset, limit);
    lemma_ranked(keys);
    let from = if offset < all.len() {
        offset
    } else {
        all.len() as int
    };
    assert forall|i: int| 0 <= i < shown.len() implies s.contains(#[trigger] shown[i]) by {
        assert(shown[i] == s[p[from + i]]);
    }
    if offset == 0 && s.len() <= limit {
        assert forall|x: A| s.contains(x) implies #[trigger] shown.contains(x) by {
            let i = choose|i: int| 0 <= i < s.len() && s[i] == x;
            assert(p.contains(i));
            let k = choose|k: int| 0 <= k < p.len() && p[k] == i;
            assert(shown[k] == x);
        }
    }
    if s.no_duplicates() {
        assert forall|i: int, j: int| 0 <= i < shown.len() && 0 <= j < shown.len() && i
            != j implies shown[i] != shown[j] by {
            assert(p[from + i] != p[from + j]);
            assert(shown[i] == s[p[from + i]] && shown[j] == s[p[from + j]]);
        }
    }
}

} // verus!
