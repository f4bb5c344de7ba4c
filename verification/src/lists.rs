//! Parts of lists: pages, and the first item that is wanted.
use vstd::prelude::*;

verus! {

/// The first of the places from `from` up to `n` at which `p` holds.
pub open spec fn first_where(p: spec_fn(int) -> bool, from: int, n: int) -> Option<int>
    decreases n - from,
{
    if from >= n {
        None
    } else if p(from) {
        Some(from)
    } else {
        first_where(p, from + 1, n)
    }
}

/// The place `k` is the first at which `p` holds, or `k` is `n` and it holds at none.
pub proof fn lemma_first_where(p: spec_fn(int) -> bool, from: int, n: int, k: int)
    requires
        from <= k <= n,
        forall|i: int| from <= i < k ==> !#[trigger] p(i),
        k < n ==> p(k),
    ensures
        first_where(p, from, n) == (if k < n {
            Some(k)
        } else {
            None
        }),
    decreases n - from,
{
    if from < k {
        assert(!p(from));
        lemma_first_where(p, from + 1, n, k);
    }
}

/// The first place found is in range, holds, and no earlier one does.
pub proof fn lemma_first_where_found(p: spec_fn(int) -> bool, from: int, n: int)
    ensures
        match first_where(p, from, n) {
            Some(k) => from <= k < n && p(k) && forall|i: int| from <= i < k ==> !#[trigger] p(i),
            None => forall|i: int| from <= i < n ==> !#[trigger] p(i),
        },
    decreases n - from,
{
    if from < n && !p(from) {
        lemma_first_where_found(p, from + 1, n);
    }
}

/// Up to `limit` items from place `offset` on.
pub open spec fn page<A>(s: Seq<A>, offset: int, limit: int) -> Seq<A> {
    let from = if offset < s.len() {
        offset
    } else {
        s.len() as int
    };
    let to = if from + limit < s.len() {
        from + limit
    } else {
        s.len() as int
    };
    s.subrange(from, to)
}

/// Pages that follow each other make up the list between them, and no page says more
/// than it was asked for.
pub proof fn lemma_pages<A>(s: Seq<A>, offset: int, first: int, second: int)
    requires
        0 <= offset,
        0 <= first,
        0 <= second,
    ensures
        page(s, offset, first) + page(s, offset + first, second) == page(s, offset, first + second),
        page(s, offset, first).len() <= first,
        page(s, 0, s.len() as int) == s,
{
    assert(page(s, offset, first) + page(s, offset + first, second) =~= page(
        s,
        offset,
        first + second,
    ));
    assert(page(s, 0, s.len() as int) =~= s);
}

/// The bounds of a page of a list with `n` items.
pub fn page_bounds(n: usize, offset: u32, limit: u32) -> (r: (usize, usize))
    ensures
        r.0 <= r.1 <= n,
        r.0 == (if offset < n {
            offset as int
        } else {
            n as int
        }),
        r.1 == (if r.0 + limit < n {
            r.0 + limit
        } else {
            n as int
        }),
{
    let from: usize = if (offset as usize) < n {
        offset as usize
    } else {
        n
    };
    let to: usize = if (limit as usize) < n - from {
        from + limit as usize
    } else {
        n
    };
    (from, to)
}

/// The items at the places that `p` lists, in that order.
pub open spec fn arranged<A>(s: Seq<A>, p: Seq<int>) -> Seq<A> {
    Seq::new(p.len(), |k: int| s[p[k]])
}

/// How many of the items `p` holds of.
pub open spec fn count_where(p: spec_fn(int) -> bool, s: Seq<int>) -> nat
    decreases s.len(),
{
    if s.len() == 0 {
        0
    } else {
        count_where(p, s.drop_last()) + (if p(s.last()) {
            1nat
        } else {
            0nat
        })
    }
}

/// A count is at most the number of items, and is that number only if all are counted.
pub proof fn lemma_count_where(p: spec_fn(int) -> bool, s: Seq<int>)
    ensures
        count_where(p, s) <= s.len(),
        count_where(p, s) == s.len() <==> forall|i: int| 0 <= i < s.len() ==> p(#[trigger] s[i]),
        count_where(p, s) == 0 <==> forall|i: int| 0 <= i < s.len() ==> !p(#[trigger] s[i]),
    decreases s.len(),
{
    if s.len() > 0 {
        let front = s.drop_last();
        lemma_count_where(p, front);
        assert(s[s.len() - 1] == s.last());
        if forall|i: int| 0 <= i < s.len() ==> p(#[trigger] s[i]) {
            assert forall|i: int| 0 <= i < front.len() implies p(#[trigger] front[i]) by {
                assert(front[i] == s[i]);
            }
        }
        if forall|i: int| 0 <= i < s.len() ==> !p(#[trigger] s[i]) {
            assert forall|i: int| 0 <= i < front.len() implies !p(#[trigger] front[i]) by {
                assert(front[i] == s[i]);
            }
        }
        assert forall|i: int| 0 <= i < s.len() && (forall|k: int|
            0 <= k < front.len() ==> p(#[trigger] front[k])) && p(s.last()) implies p(
            #[trigger] s[i],
        ) by {
            if i < front.len() {
                assert(p(front[i]));
            }
        }
        assert forall|i: int| 0 <= i < s.len() && (forall|k: int|
            0 <= k < front.len() ==> !p(#[trigger] front[k])) && !p(s.last()) implies !p(
            #[trigger] s[i],
        ) by {
            if i < front.len() {
                assert(!p(front[i]));
            }
        }
    }
}

/// Where `p` holds of all that follows an item it holds of, it holds of the last items,
/// as many as there are.
pub proof fn lemma_count_at_end(p: spec_fn(int) -> bool, s: Seq<int>)
    requires
        forall|i: int, j: int|
            0 <= i < j < s.len() && p(#[trigger] s[i]) ==> p(#[trigger] s[j]),
    ensures
        forall|i: int|
            0 <= i < s.len() ==> (p(#[trigger] s[i]) <==> i >= s.len() - count_where(p, s)),
        count_where(p, s) <= s.len(),
    decreases s.len(),
{
    if s.len() > 0 {
        let front = s.drop_last();
        assert forall|i: int, j: int| 0 <= i < j < front.len() && p(
            #[trigger] front[i],
        ) implies p(#[trigger] front[j]) by {
            assert(front[i] == s[i] && front[j] == s[j]);
        }
        lemma_count_at_end(p, front);
        lemma_count_where(p, front);
        assert(s.last() == s[s.len() - 1]);
        assert forall|i: int| 0 <= i < s.len() implies (p(#[trigger] s[i]) <==> i >= s.len()
            - count_where(p, s)) by {
            if i < front.len() {
                assert(front[i] == s[i]);
            }
        }
    }
}

} // verus!
