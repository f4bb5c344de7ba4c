//! Counting how often each of a list of labels occurs.
use vstd::prelude::*;

use crate::parser::netlist::opt_text;
use crate::text::{copy_text, same_text};

verus! {

/// The labels of a list, `None` being one of them.
pub open spec fn labels(v: Seq<Option<String>>) -> Seq<Option<Seq<char>>> {
    v.map_values(|o: Option<String>| opt_text(o))
}

/// The items without repeats, in the order in which they come first.
pub open spec fn distinct<A>(s: Seq<A>) -> Seq<A>
    decreases s.len(),
{
    if s.len() == 0 {
        Seq::empty()
    } else {
        let front = distinct(s.drop_last());
        if front.contains(s.last()) {
            front
        } else {
            front.push(s.last())
        }
    }
}

/// How often an item occurs.
pub open spec fn occurrences<A>(s: Seq<A>, a: A) -> nat
    decreases s.len(),
{
    if s.len() == 0 {
        0
    } else {
        occurrences(s.drop_last(), a) + (if s.last() == a {
            1nat
        } else {
            0nat
        })
    }
}

/// The sum of how often each of the items of `d` occurs in `s`.
pub open spec fn total<A>(s: Seq<A>, d: Seq<A>) -> nat
    decreases d.len(),
{
    if d.len() == 0 {
        0
    } else {
        total(s, d.drop_last()) + occurrences(s, d.last())
    }
}

/// The distinct items are the items, each once.
pub proof fn lemma_distinct<A>(s: Seq<A>)
    ensures
        distinct(s).no_duplicates(),
        forall|a: A| #[trigger] distinct(s).contains(a) <==> s.contains(a),
        distinct(s).len() <= s.len(),
    decreases s.len(),
{
    if s.len() > 0 {
        let t = s.drop_last();
        lemma_distinct(t);
        let front = distinct(t);
        let all = distinct(s);
        assert forall|a: A| #[trigger] all.contains(a) <==> s.contains(a) by {
            if all.contains(a) {
                if front.contains(a) {
                    assert(t.contains(a));
                    let k = choose|k: int| 0 <= k < t.len() && t[k] == a;
                    assert(s[k] == a);
                } else {
                    let k = choose|k: int| 0 <= k < all.len() && all[k] == a;
                    if k < front.len() {
                        assert(front[k] == a);
                    }
                    assert(s[s.len() - 1] == a);
                }
            }
            if s.contains(a) {
                let k = choose|k: int| 0 <= k < s.len() && s[k] == a;
                if k < t.len() {
                    assert(t[k] == a);
                    assert(front.contains(a));
                }
                if front.contains(a) {
                    let j = choose|j: int| 0 <= j < front.len() && front[j] == a;
                    assert(all[j] == a);
                } else {
                    assert(all[all.len() - 1] == a);
                }
            }
        }
        assert forall|i: int, j: int| 0 <= i < all.len() && 0 <= j < all.len() && i
            != j implies all[i] != all[j] by {
            if i < front.len() && j < front.len() {
                assert(front[i] != front[j]);
            } else if i < front.len() {
                assert(front.contains(front[i]));
            } else if j < front.len() {
                assert(front.contains(front[j]));
            }
        }
    }
}

proof fn lemma_total_push<A>(s: Seq<A>, d: Seq<A>, a: A)
    requires
        d.no_duplicates(),
    ensures
        total(s.push(a), d) == total(s, d) + (if d.contains(a) {
            1nat
        } else {
            0nat
        }),
    decreases d.len(),
{
    if d.len() > 0 {
        let e = d.drop_last();
        assert forall|i: int, j: int| 0 <= i < e.len() && 0 <= j < e.len() && i
            != j implies e[i] != e[j] by {
            assert(d[i] != d[j]);
        }
        lemma_total_push(s, e, a);
        assert(s.push(a).drop_last() =~= s);
        if d.last() == a {
            assert(d[d.len() - 1] == a);
            assert(!e.contains(a)) by {
                if e.contains(a) {
                    let k = choose|k: int| 0 <= k < e.len() && e[k] == a;
                    assert(d[k] != d[d.len() - 1]);
                }
            }
        } else {
            if d.contains(a) {
                let k = choose|k: int| 0 <= k < d.len() && d[k] == a;
                assert(e[k] == a);
            }
            if e.contains(a) {
                let k = choose|k: int| 0 <= k < e.len() && e[k] == a;
                assert(d[k] == a);
            }
        }
    }
}

/// Every item is counted once: the counts of the distinct items add up to the number of
/// items.
pub proof fn lemma_counts_add_up<A>(s: Seq<A>)
    ensures
        total(s, distinct(s)) == s.len(),
    decreases s.len(),
{
    if s.len() > 0 {
        let t = s.drop_last();
        let a = s.last();
        lemma_counts_add_up(t);
        lemma_distinct(t);
        assert(t.push(a) =~= s);
        lemma_total_push(t, distinct(t), a);
        if !distinct(t).contains(a) {
            let all = distinct(t).push(a);
            assert(all.drop_last() =~= distinct(t));
            lemma_absent(t, a);
        }
    }
}

proof fn lemma_absent<A>(s: Seq<A>, a: A)
    requires
        !s.contains(a),
    ensures
        occurrences(s, a) == 0,
    decreases s.len(),
{
    if s.len() > 0 {
        assert(s[s.len() - 1] != a);
        assert(!s.drop_last().contains(a)) by {
            if s.drop_last().contains(a) {
                let k = choose|k: int| 0 <= k < s.drop_last().len() && s.drop_last()[k] == a;
                assert(s[k] == a);
            }
        }
        lemma_absent(s.drop_last(), a);
    }
}

proof fn lemma_occurrences<A>(s: Seq<A>, a: A)
    ensures
        occurrences(s, a) <= s.len(),
    decreases s.len(),
{
    if s.len() > 0 {
        lemma_occurrences(s.drop_last(), a);
    }
}

fn same_label(a: &Option<String>, b: &Option<String>) -> (r: bool)
    ensures
        r == (opt_text(*a) == opt_text(*b)),
{
    match (a, b) {
        (Some(x), Some(y)) => same_text(x.as_str(), y.as_str()),
        (None, None) => true,
        _ => false,
    }
}

fn find_label(list: &Vec<Option<String>>, l: &Option<String>) -> (r: Option<usize>)
    ensures
        match r {
            Some(i) => i < list.len() && labels(list@)[i as int] == opt_text(*l),
            None => !labels(list@).contains(opt_text(*l)),
        },
{
    let ghost all = labels(list@);
    let mut i: usize = 0;
    while i < list.len()
        invariant
            i <= list.len(),
            all == labels(list@),
            forall|k: int| 0 <= k < i ==> #[trigger] all[k] != opt_text(*l),
        decreases list.len() - i,
    {
        assert(all[i as int] == opt_text(list@[i as int]));
        if same_label(&list[i], l) {
            return Some(i);
        }
        i += 1;
    }
    None
}

/// The distinct labels of a list and how often each occurs.
pub fn tally(list: &Vec<Option<String>>) -> (r: (Vec<Option<String>>, Vec<usize>))
    ensures
        labels(r.0@) == distinct(labels(list@)),
        r.1.len() == r.0.len(),
        forall|i: int|
            0 <= i < r.1.len() ==> #[trigger] r.1@[i] == occurrences(
                labels(list@),
                labels(r.0@)[i],
            ),
{
    let ghost all = labels(list@);
    let mut names: Vec<Option<String>> = Vec::new();
    let mut counts: Vec<usize> = Vec::new();
    let mut i: usize = 0;
    assert(all.take(0) =~= Seq::<Option<Seq<char>>>::empty());
    assert(labels(names@) =~= Seq::<Option<Seq<char>>>::empty());
    while i < list.len()
        invariant
            i <= list.len(),
            all == labels(list@),
            labels(names@) == distinct(all.take(i as int)),
            counts.len() == names.len(),
            forall|k: int|
                0 <= k < counts.len() ==> #[trigger] counts@[k] == occurrences(
                    all.take(i as int),
                    labels(names@)[k],
                ),
        decreases list.len() - i,
    {
        let ghost done = all.take(i as int);
        let ghost next = all.take(i + 1);
        assert(next.drop_last() =~= done);
        assert(next.last() == all[i as int]);
        let ghost before = labels(names@);
        let ghost was = counts@;
        proof {
            lemma_distinct(done);
        }
        match find_label(&names, &list[i]) {
            Some(k) => {
                proof {
                    lemma_occurrences(done, before[k as int]);
                    assert(before.contains(next.last()));
                }
                let n: usize = counts[k];
                counts.set(k, n + 1);
                assert forall|j: int| 0 <= j < counts.len() implies #[trigger] counts@[j]
                    == occurrences(next, labels(names@)[j]) by {
                    assert(was[j] == occurrences(done, before[j]));
                    if j != k {
                        assert(before[j] != before[k as int]);
                    }
                }
            },
            None => {
                names.push(copy_text(&list[i]));
                counts.push(1);
                proof {
                    assert(labels(names@) =~= before.push(next.last()));
                    lemma_absent_of_distinct(done, next.last());
                    assert forall|j: int| 0 <= j < counts.len() implies #[trigger] counts@[j]
                        == occurrences(next, labels(names@)[j]) by {
                        if j < before.len() {
                            assert(was[j] == occurrences(done, before[j]));
                            assert(before.contains(before[j]));
                        }
                    }
                }
            },
        }
        i += 1;
    }
    assert(all.take(all.len() as int) =~= all);
    (names, counts)
}

proof fn lemma_absent_of_distinct<A>(s: Seq<A>, a: A)
    requires
        !distinct(s).contains(a),
    ensures
        occurrences(s, a) == 0,
{
    lemma_distinct(s);
    lemma_absent(s, a);
}

} // verus!
