//! Sorting by keys made of numbers and texts, with ties left in their order.
use vstd::prelude::*;

use crate::lists::arranged;
use crate::text::{int_order, order_text, order_usize, reversed, text_order, then_order, Order};
use crate::text::{lemma_text_order, lemma_text_order_transitive};

verus! {

/// One part of a sort key: a number, ascending or descending, or a text.
#[derive(Debug)]
pub enum Part {
    Up(usize),
    Down(usize),
    Text(String),
}

/// What a part of a key is compared by.
pub enum Mark {
    Number(int),
    Text(Seq<char>),
}

impl View for Part {
    type V = Mark;

    open spec fn view(&self) -> Mark {
        match self {
            Part::Up(n) => Mark::Number(*n as int),
            Part::Down(n) => Mark::Number(-(*n as int)),
            Part::Text(s) => Mark::Text(s@),
        }
    }
}

/// What a key is compared by, the weightiest part first.
pub type Key = Seq<Mark>;

pub open spec fn key_of(parts: Seq<Part>) -> Key {
    parts.map_values(|p: Part| p@)
}

pub open spec fn keys_of(keys: Seq<Vec<Part>>) -> Seq<Key> {
    keys.map_values(|k: Vec<Part>| key_of(k@))
}

/// Numbers go by size and texts by the dictionary.
pub open spec fn mark_order(a: Mark, b: Mark) -> Order {
    match (a, b) {
        (Mark::Number(m), Mark::Number(n)) => int_order(m, n),
        (Mark::Text(s), Mark::Text(t)) => text_order(s, t),
        (Mark::Number(_), Mark::Text(_)) => Order::Less,
        (Mark::Text(_), Mark::Number(_)) => Order::Greater,
    }
}

/// Keys go by their first parts that differ.
pub open spec fn key_order(a: Key, b: Key) -> Order
    decreases a.len(),
{
    if a.len() == 0 || b.len() == 0 {
        int_order(a.len() as int, b.len() as int)
    } else {
        then_order(mark_order(a[0], b[0]), key_order(a.skip(1), b.skip(1)))
    }
}

/// `a` may stand before `b`.
pub open spec fn in_order(a: Key, b: Key) -> bool {
    !(key_order(a, b) is Greater)
}

/// Key order is mirrored when the two are swapped, and a key ties with itself.
pub proof fn lemma_key_order(a: Key, b: Key)
    ensures
        key_order(b, a) == reversed(key_order(a, b)),
        key_order(a, b) is Equal <==> a == b,
    decreases a.len(),
{
    if a.len() > 0 && b.len() > 0 {
        lemma_key_order(a.skip(1), b.skip(1));
        if let (Mark::Text(s), Mark::Text(t)) = (a[0], b[0]) {
            lemma_text_order(s, t);
        }
        if key_order(a, b) is Equal {
            assert(a =~= seq![a[0]] + a.skip(1));
            assert(b =~= seq![b[0]] + b.skip(1));
        }
    } else if a.len() == b.len() {
        assert(a =~= b);
    }
}

/// Key order is transitive.
pub proof fn lemma_key_order_transitive(a: Key, b: Key, c: Key)
    requires
        in_order(a, b),
        in_order(b, c),
    ensures
        in_order(a, c),
        key_order(a, c) is Equal ==> key_order(a, b) is Equal && key_order(b, c) is Equal,
    decreases a.len(),
{
    if a.len() > 0 && b.len() > 0 && c.len() > 0 {
        if let (Mark::Text(s), Mark::Text(t), Mark::Text(u)) = (a[0], b[0], c[0]) {
            lemma_text_order(s, t);
            lemma_text_order(t, u);
            lemma_text_order(s, u);
            if !(text_order(s, t) is Greater) && !(text_order(t, u) is Greater) {
                lemma_text_order_transitive(s, t, u);
            }
        }
        if mark_order(a[0], b[0]) is Equal && mark_order(b[0], c[0]) is Equal {
            lemma_key_order_transitive(a.skip(1), b.skip(1), c.skip(1));
        }
    }
}

/// The places `p`, in order of their keys, with `x` put after the last of them that
/// may stand before it.
pub open spec fn place_in(p: Seq<int>, keys: Seq<Key>, x: int) -> Seq<int>
    decreases p.len(),
{
    if p.len() > 0 && !in_order(keys[p.last()], keys[x]) {
        place_in(p.drop_last(), keys, x).push(p.last())
    } else {
        p.push(x)
    }
}

/// The first `n` places in order of their keys.
pub open spec fn ranked_upto(keys: Seq<Key>, n: nat) -> Seq<int>
    decreases n,
{
    if n == 0 {
        Seq::empty()
    } else {
        place_in(ranked_upto(keys, (n - 1) as nat), keys, n - 1)
    }
}

/// All places in order of their keys, places with equal keys in their own order.
pub open spec fn ranked(keys: Seq<Key>) -> Seq<int> {
    ranked_upto(keys, keys.len())
}

/// Each number below `n` stands in `p` exactly once, and no other.
pub open spec fn covers(p: Seq<int>, n: int) -> bool {
    &&& p.len() == n
    &&& p.no_duplicates()
    &&& forall|i: int| 0 <= i < n ==> 0 <= #[trigger] p[i] < n
    &&& forall|x: int| 0 <= x < n ==> #[trigger] p.contains(x)
}

/// Keys rise along `p`; where they tie, places do.
pub open spec fn rising(p: Seq<int>, keys: Seq<Key>) -> bool {
    forall|i: int, j: int|
        0 <= i < j < p.len() ==> {
            let o = key_order(keys[#[trigger] p[i]], keys[#[trigger] p[j]]);
            o is Less || (o is Equal && p[i] < p[j])
        }
}

proof fn lemma_place_in(p: Seq<int>, keys: Seq<Key>, x: int)
    requires
        rising(p, keys),
        p.no_duplicates(),
        forall|i: int| 0 <= i < p.len() ==> 0 <= #[trigger] p[i] < x,
    ensures
        rising(place_in(p, keys, x), keys),
        place_in(p, keys, x).len() == p.len() + 1,
        place_in(p, keys, x).no_duplicates(),
        forall|y: int| #[trigger] place_in(p, keys, x).contains(y) <==> y == x || p.contains(y),
    decreases p.len(),
{
    let q = place_in(p, keys, x);
    if p.len() > 0 && !in_order(keys[p.last()], keys[x]) {
        let front = p.drop_last();
        assert forall|i: int, j: int| 0 <= i < j < front.len() implies {
            let o = key_order(keys[#[trigger] front[i]], keys[#[trigger] front[j]]);
            o is Less || (o is Equal && front[i] < front[j])
        } by {
            assert(front[i] == p[i] && front[j] == p[j]);
        }
        lemma_place_in(front, keys, x);
        let qf = place_in(front, keys, x);
        let last = p.len() - 1;
        assert forall|y: int| #[trigger] q.contains(y) <==> y == x || p.contains(y) by {
            if q.contains(y) {
                let i = choose|i: int| 0 <= i < q.len() && q[i] == y;
                if i < qf.len() {
                    assert(qf[i] == y);
                    assert(qf.contains(y));
                    if y != x {
                        let k = choose|k: int| 0 <= k < front.len() && front[k] == y;
                        assert(p[k] == y);
                    }
                } else {
                    assert(p[last] == y);
                }
            }
            if y == x {
                assert(qf.contains(y));
                let i = choose|i: int| 0 <= i < qf.len() && qf[i] == y;
                assert(q[i] == y);
            }
            if p.contains(y) {
                let k = choose|k: int| 0 <= k < p.len() && p[k] == y;
                if k < last {
                    assert(front[k] == y);
                    assert(front.contains(y));
                    assert(qf.contains(y));
                    let i = choose|i: int| 0 <= i < qf.len() && qf[i] == y;
                    assert(q[i] == y);
                } else {
                    assert(q[q.len() - 1] == y);
                }
            }
        }
        assert forall|i: int, j: int| 0 <= i < j < q.len() implies {
            let o = key_order(keys[#[trigger] q[i]], keys[#[trigger] q[j]]);
            o is Less || (o is Equal && q[i] < q[j])
        } by {
            if j < qf.len() {
                assert(q[i] == qf[i] && q[j] == qf[j]);
            } else {
                assert(q[i] == qf[i]);
                assert(qf.contains(q[i]));
                if q[i] == x {
                    lemma_key_order(keys[p[last]], keys[x]);
                } else {
                    let k = choose|k: int| 0 <= k < front.len() && front[k] == q[i];
                    assert(p[k] == q[i]);
                }
            }
        }
        assert forall|i: int, j: int| 0 <= i < j < q.len() implies q[i] != q[j] by {
            if j < qf.len() {
                assert(q[i] == qf[i] && q[j] == qf[j]);
            } else {
                assert(qf.contains(q[i]));
                if q[i] != x {
                    let k = choose|k: int| 0 <= k < front.len() && front[k] == q[i];
                    assert(p[k] == q[i]);
                }
            }
        }
    } else {
        assert forall|y: int| #[trigger] q.contains(y) <==> y == x || p.contains(y) by {
            if q.contains(y) {
                let i = choose|i: int| 0 <= i < q.len() && q[i] == y;
                if i < p.len() {
                    assert(p[i] == y);
                }
            }
            if y == x {
                assert(q[q.len() - 1] == y);
            }
            if p.contains(y) {
                let k = choose|k: int| 0 <= k < p.len() && p[k] == y;
                assert(q[k] == y);
            }
        }
        assert forall|i: int, j: int| 0 <= i < j < q.len() implies {
            let o = key_order(keys[#[trigger] q[i]], keys[#[trigger] q[j]]);
            o is Less || (o is Equal && q[i] < q[j])
        } by {
            if j < p.len() {
                assert(q[i] == p[i] && q[j] == p[j]);
            } else {
                let last = p.len() - 1;
                assert(q[i] == p[i]);
                assert(p[last] == p.last());
                if i < last {
                    assert(in_order(keys[p[i]], keys[p[last]]));
                    lemma_key_order_transitive(keys[p[i]], keys[p[last]], keys[x]);
                }
            }
        }
        assert forall|i: int, j: int| 0 <= i < j < q.len() implies q[i] != q[j] by {
            if j < p.len() {
                assert(q[i] == p[i] && q[j] == p[j]);
            }
        }
    }
}

proof fn lemma_ranked_upto(keys: Seq<Key>, n: nat)
    requires
        n <= keys.len(),
    ensures
        covers(ranked_upto(keys, n), n as int),
        rising(ranked_upto(keys, n), keys),
    decreases n,
{
    if n > 0 {
        let m = (n - 1) as nat;
        lemma_ranked_upto(keys, m);
        let p = ranked_upto(keys, m);
        let q = ranked_upto(keys, n);
        lemma_place_in(p, keys, n - 1);
        assert forall|i: int| 0 <= i < n implies 0 <= #[trigger] q[i] < n by {
            assert(q.contains(q[i]));
            if q[i] != n - 1 {
                assert(p.contains(q[i]));
                let k = choose|k: int| 0 <= k < p.len() && p[k] == q[i];
                assert(0 <= p[k] < m);
            }
        }
        assert forall|x: int| 0 <= x < n implies #[trigger] q.contains(x) by {
            if x < n - 1 {
                assert(p.contains(x));
            }
        }
    }
}

/// Sorting loses nothing and invents nothing, leaves the keys rising, and leaves ties
/// in their order.
pub proof fn lemma_ranked(keys: Seq<Key>)
    ensures
        covers(ranked(keys), keys.len() as int),
        rising(ranked(keys), keys),
{
    lemma_ranked_upto(keys, keys.len());
}

/// Nothing else is sorted: an order of all places along which keys rise and ties keep
/// their places is the one that sorting gives.
pub proof fn lemma_ranked_unique(p: Seq<int>, keys: Seq<Key>)
    requires
        covers(p, keys.len() as int),
        rising(p, keys),
    ensures
        p == ranked(keys),
{
    let q = ranked(keys);
    lemma_ranked(keys);
    lemma_same_rising(p, q, keys, keys.len() as int);
    assert(p =~= q);
}

proof fn lemma_same_rising(p: Seq<int>, q: Seq<int>, keys: Seq<Key>, n: int)
    requires
        covers(p, keys.len() as int),
        covers(q, keys.len() as int),
        rising(p, keys),
        rising(q, keys),
        0 <= n <= keys.len(),
    ensures
        forall|i: int| 0 <= i < n ==> p[i] == q[i],
    decreases n,
{
    if n > 0 {
        let m = n - 1;
        lemma_same_rising(p, q, keys, m);
        if p[m] != q[m] {
            assert(q.contains(p[m]));
            let a = choose|a: int| 0 <= a < q.len() && q[a] == p[m];
            if a < m {
                assert(p[a] == q[a]);
            }
            assert(p.contains(q[m]));
            let b = choose|b: int| 0 <= b < p.len() && p[b] == q[m];
            if b < m {
                assert(p[b] == q[b]);
            }
            assert(m < a && m < b);
            lemma_key_order(keys[p[m]], keys[p[b]]);
            assert(q[m] == p[b] && q[a] == p[m]);
        }
    }
}

fn order_parts(a: &Part, b: &Part) -> (r: Order)
    ensures
        r == mark_order(a@, b@),
{
    match (a, b) {
        (Part::Text(s), Part::Text(t)) => order_text(s.as_str(), t.as_str()),
        (Part::Text(_), _) => Order::Greater,
        (_, Part::Text(_)) => Order::Less,
        (Part::Up(m), Part::Up(n)) => order_usize(*m, *n),
        (Part::Down(m), Part::Down(n)) => order_usize(*n, *m),
        (Part::Up(m), Part::Down(n)) => if *m == 0 && *n == 0 {
            Order::Equal
        } else {
            Order::Greater
        },
        (Part::Down(m), Part::Up(n)) => if *m == 0 && *n == 0 {
            Order::Equal
        } else {
            Order::Less
        },
    }
}

/// Compares two keys.
pub fn order_keys(a: &Vec<Part>, b: &Vec<Part>) -> (r: Order)
    ensures
        r == key_order(key_of(a@), key_of(b@)),
{
    let ghost ka = key_of(a@);
    let ghost kb = key_of(b@);
    let mut i: usize = 0;
    assert(ka.skip(0) == ka && kb.skip(0) == kb);
    while i < a.len() && i < b.len()
        invariant
            i <= a.len(),
            i <= b.len(),
            ka == key_of(a@),
            kb == key_of(b@),
            key_order(ka.skip(i as int), kb.skip(i as int)) == key_order(ka, kb),
        decreases a.len() - i,
    {
        assert(ka.skip(i as int)[0] == a@[i as int]@ && kb.skip(i as int)[0] == b@[i as int]@);
        assert(ka.skip(i as int).skip(1) == ka.skip(i + 1));
        assert(kb.skip(i as int).skip(1) == kb.skip(i + 1));
        let o = order_parts(&a[i], &b[i]);
        if o != Order::Equal {
            return o;
        }
        i += 1;
    }
    order_usize(a.len(), b.len())
}

/// The places that a list of indices holds.
pub open spec fn places(v: Seq<usize>) -> Seq<int> {
    v.map_values(|i: usize| i as int)
}

/// Where a place goes among ranked ones: how many of them stay before it.
fn slot(p: &Vec<usize>, keys: &Vec<Vec<Part>>, x: usize) -> (r: usize)
    requires
        x < keys.len(),
        forall|i: int| 0 <= i < p.len() ==> #[trigger] p@[i] < keys.len(),
        rising(places(p@), keys_of(keys@)),
    ensures
        r <= p.len(),
        place_in(places(p@), keys_of(keys@), x as int) == places(p@.insert(r as int, x)),
{
    let ghost ks = keys_of(keys@);
    let ghost q = places(p@);
    let mut low: usize = 0;
    let mut high: usize = p.len();
    while low < high
        invariant
            low <= high <= p.len(),
            x < keys.len(),
            ks == keys_of(keys@),
            q == places(p@),
            rising(q, ks),
            forall|i: int| 0 <= i < p.len() ==> #[trigger] p@[i] < keys.len(),
            forall|i: int| 0 <= i < low ==> in_order(ks[#[trigger] q[i]], ks[x as int]),
            forall|i: int| high <= i < p.len() ==> !in_order(ks[#[trigger] q[i]], ks[x as int]),
        decreases high - low,
    {
        let mid: usize = low + (high - low) / 2;
        let y: usize = p[mid];
        assert(q[mid as int] == y);
        match order_keys(&keys[y], &keys[x]) {
            Order::Greater => {
                assert forall|i: int| mid <= i < p.len() implies !in_order(
                    ks[#[trigger] q[i]],
                    ks[x as int],
                ) by {
                    if mid < i && in_order(ks[q[i]], ks[x as int]) {
                        assert(in_order(ks[q[mid as int]], ks[q[i]]));
                        lemma_key_order_transitive(ks[q[mid as int]], ks[q[i]], ks[x as int]);
                    }
                }
                high = mid;
            },
            _ => {
                assert forall|i: int| 0 <= i <= mid implies in_order(
                    ks[#[trigger] q[i]],
                    ks[x as int],
                ) by {
                    if i < mid {
                        assert(in_order(ks[q[i]], ks[q[mid as int]]));
                        lemma_key_order_transitive(ks[q[i]], ks[q[mid as int]], ks[x as int]);
                    }
                }
                low = mid + 1;
            },
        }
    }
    proof {
        lemma_slot(q, ks, x as int, low as int);
        assert(places(p@.insert(low as int, x)) =~= q.insert(low as int, x as int));
    }
    low
}

proof fn lemma_slot(q: Seq<int>, keys: Seq<Key>, x: int, at: int)
    requires
        0 <= at <= q.len(),
        forall|i: int| 0 <= i < at ==> in_order(keys[#[trigger] q[i]], keys[x]),
        forall|i: int| at <= i < q.len() ==> !in_order(keys[#[trigger] q[i]], keys[x]),
    ensures
        place_in(q, keys, x) == q.insert(at, x),
    decreases q.len(),
{
    if at < q.len() {
        let front = q.drop_last();
        assert(q.last() == q[q.len() - 1]);
        assert forall|i: int| 0 <= i < at implies in_order(keys[#[trigger] front[i]], keys[x]) by {
            assert(front[i] == q[i]);
        }
        assert forall|i: int| at <= i < front.len() implies !in_order(
            keys[#[trigger] front[i]],
            keys[x],
        ) by {
            assert(front[i] == q[i]);
        }
        lemma_slot(front, keys, x, at);
        assert(front.insert(at, x).push(q.last()) =~= q.insert(at, x));
    } else {
        if q.len() > 0 {
            assert(q.last() == q[q.len() - 1]);
        }
        assert(q.push(x) =~= q.insert(at, x));
    }
}

/// The places of the keys in the order that sorts them.
pub fn rank(keys: &Vec<Vec<Part>>) -> (r: Vec<usize>)
    ensures
        places(r@) == ranked(keys_of(keys@)),
        r.len() == keys.len(),
        forall|i: int| 0 <= i < r.len() ==> #[trigger] r@[i] < keys.len(),
{
    let ghost ks = keys_of(keys@);
    let mut p: Vec<usize> = Vec::new();
    let mut x: usize = 0;
    assert(places(p@) =~= ranked_upto(ks, 0));
    while x < keys.len()
        invariant
            x <= keys.len(),
            ks == keys_of(keys@),
            p.len() == x,
            places(p@) == ranked_upto(ks, x as nat),
            forall|i: int| 0 <= i < p.len() ==> #[trigger] p@[i] < x,
        decreases keys.len() - x,
    {
        proof {
            lemma_ranked_upto(ks, x as nat);
        }
        let at: usize = slot(&p, keys, x);
        p.insert(at, x);
        x += 1;
    }
    p
}

/// The items in the order that `order` lists.
pub fn arrange<T>(items: Vec<T>, order: &Vec<usize>) -> (r: Vec<T>)
    requires
        covers(places(order@), items.len() as int),
    ensures
        r@ == arranged(items@, places(order@)),
{
    let n = items.len();
    let ghost all = items@;
    let ghost p = places(order@);
    let mut rest = items;
    let mut slots: Vec<Option<T>> = Vec::new();
    while slots.len() < n
        invariant
            all.len() == n,
            slots.len() + rest.len() == n,
            rest@ == all.take(rest.len() as int),
            forall|j: int| 0 <= j < slots.len() ==> #[trigger] slots@[j] == Some(all[n - 1 - j]),
        decreases n - slots.len(),
    {
        let item = rest.pop();
        assert(rest@ =~= all.take(rest.len() as int));
        slots.push(item);
    }
    let mut out: Vec<T> = Vec::new();
    let mut k: usize = 0;
    while k < n
        invariant
            k <= n,
            all.len() == n,
            slots.len() == n,
            p == places(order@),
            covers(p, n as int),
            out.len() == k,
            forall|i: int| 0 <= i < k ==> #[trigger] out@[i] == all[p[i]],
            forall|j: int|
                #![trigger slots@[j]]
                0 <= j < n && (forall|i: int| 0 <= i < k ==> #[trigger] p[i] != n - 1 - j)
                    ==> slots@[j] == Some(all[n - 1 - j]),
        decreases n - k,
    {
        let at: usize = order[k];
        assert(p[k as int] == at);
        let ghost was = slots@;
        assert(was[n - 1 - at] == Some(all[at as int]));
        let mut taken: Option<T> = None;
        core::mem::swap(&mut slots[n - 1 - at], &mut taken);
        proof {
            assert forall|j: int|
                #![trigger slots@[j]]
                0 <= j < n && (forall|i: int|
                    0 <= i < k + 1 ==> #[trigger] p[i] != n - 1 - j) implies slots@[j] == Some(
                all[n - 1 - j],
            ) by {
                assert(p[k as int] != n - 1 - j);
                assert(slots@[j] == was[j]);
            }
        }
        out.push(taken.unwrap());
        k += 1;
    }
    assert(out@ =~= arranged(all, p));
    out
}

} // verus!
