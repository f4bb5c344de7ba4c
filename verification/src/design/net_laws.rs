//! Which nets a net filter lists, in terms of what the design says of each.
use vstd::prelude::*;

use super::facts::{joins, lemma_count_is_size, lemma_net_count, lemma_net_pins, lemma_net_types};
use super::facts::{lemma_sorted_page, pins_where, some_typed, typed};
use super::filter::{NetEnvelope, NetRow};
use super::nets::{lemma_rails_last, wanted_name, NetQuery};
use super::rails::RailReading;
use super::sheets::{hierarchy_is, selects, NetHierarchy, Selector};
use super::Design;
use crate::lists::{count_where, lemma_count_where, page};
use crate::parser::netlist::opt_text;
use crate::ranking::{key_order, lemma_ranked, mark_order, ranked, Mark};
use crate::text::{contains, decimal, is_white, joined, lemma_run_len, lemma_trim_end, lowercase};
use crate::text::{occurs_at, run_len, text_order, texts, then_order, trim_start, trimmed};
use crate::text::{CharClass, Whitespace};

verus! {

/// The text is more than white space.
pub open spec fn says_something(s: Seq<char>) -> bool {
    exists|i: int| 0 <= i < s.len() && !is_white(#[trigger] s[i])
}

/// The text stands somewhere in the other.
pub open spec fn stands_in(t: Seq<char>, s: Seq<char>) -> bool {
    exists|k: int| 0 <= k && k + t.len() <= s.len() && #[trigger] s.subrange(k, k + t.len()) == t
}

/// What is asked of a net: that the text stands in its name, letter case aside, where the
/// text says something, and that a part with a pin on it is on a sheet asked for.
pub open spec fn asked_net(
    d: &Design,
    n: int,
    name: Option<Seq<char>>,
    filter: Option<Selector>,
) -> bool {
    &&& name is Some && says_something(lowercase(name.unwrap())) ==> stands_in(
        lowercase(name.unwrap()),
        lowercase(d.nets@[n].name@),
    )
    &&& filter is Some ==> exists|p: int| #[trigger]
        joins(d, p, n) && selects(
            filter.unwrap(),
            opt_text(d.components@[d.pins@[p].comp.0 as int].sheet),
        )
}

/// The row tells what the design says of the net.
pub open spec fn tells_net(
    d: &Design,
    r: NetRow,
    n: int,
    scored: bool,
    rails: Seq<RailReading>,
) -> bool {
    &&& r.name@ == d.nets@[n].name@
    &&& r.code == d.nets@[n].code
    &&& r.fanout == pins_where(d, n, |p: int| true).len()
    &&& forall|t: Seq<char>| #[trigger]
        r.pin_types@.contains_key(t) <==> some_typed(d, n, t)
    &&& forall|t: Seq<char>| #[trigger]
        r.pin_types@.contains_key(t) ==> r.pin_types@[t] == pins_where(
            d,
            n,
            |p: int| typed(d, p, t),
        ).len()
    &&& exists|h: NetHierarchy| #[trigger]
        hierarchy_is(h, d.nets@[n].name@, texts(d.sheet_paths@)) && opt_text(r.sheet_path)
            == opt_text(h.sheet_path) && r.depth == h.depth
    &&& r.rail_hundredths == (if scored {
        Some(rails[n].hundredths)
    } else {
        None
    })
}

/// The types that a net counts are those of the pins on it.
pub proof fn lemma_types_counted(d: &Design, n: int, t: Seq<char>)
    requires
        d.wf(),
        0 <= n < d.nets.len(),
    ensures
        d.nets@[n].pin_types@.contains_key(t) <==> some_typed(d, n, t),
        d.nets@[n].pin_types@.contains_key(t) ==> d.nets@[n].pin_types@[t] == pins_where(
            d,
            n,
            |p: int| typed(d, p, t),
        ).len(),
{
    lemma_net_types(d, n, t);
    assert(super::counts_types(
        d.nets@[n].pin_types@,
        d.pins@,
        super::pin_ids(d.nets@[n].pins@),
    ));
}

proof fn lemma_says_something(s: Seq<char>)
    ensures
        says_something(s) <==> trimmed(s).len() > 0,
{
    let n = run_len(s, Whitespace, true) as int;
    lemma_run_len(s, Whitespace, true);
    let rest = trim_start(s, Whitespace);
    lemma_trim_end(rest, Whitespace);
    if trimmed(s).len() == 0 {
        assert forall|i: int| 0 <= i < s.len() implies is_white(#[trigger] s[i]) by {
            if i >= n {
                assert(rest[i - n] == s[i]);
                assert(Whitespace.has(rest[i - n]));
            } else {
                assert(Whitespace.has(s[i]));
            }
        }
    } else {
        assert(rest.len() > 0 && n < s.len());
        assert(!Whitespace.has(s[n]));
    }
}

pub proof fn lemma_stands_in(t: Seq<char>, s: Seq<char>)
    ensures
        contains(s, t) <==> stands_in(t, s),
{
    if contains(s, t) {
        let k = choose|k: int| #[trigger] occurs_at(s, t, k);
        assert(s.subrange(k, k + t.len()) == t);
    }
    if stands_in(t, s) {
        let k = choose|k: int|
            0 <= k && k + t.len() <= s.len() && #[trigger] s.subrange(k, k + t.len()) == t;
        assert(occurs_at(s, t, k));
    }
}

proof fn lemma_asked_net(
    d: &Design,
    n: int,
    name: Option<Seq<char>>,
    filter: Option<Selector>,
    by_fanout: bool,
)
    requires
        d.wf(),
        0 <= n < d.nets.len(),
    ensures
        d.net_passes(n, NetQuery { name: wanted_name(name), filter, by_fanout }) <==> asked_net(
            d,
            n,
            name,
            filter,
        ),
{
    if let Some(s) = name {
        lemma_says_something(lowercase(s));
        lemma_stands_in(lowercase(s), lowercase(d.nets@[n].name@));
    }
    if let Some(f) = filter {
        let ids = d.net_pins(n);
        lemma_net_pins(d, n);
        if d.net_on(f, n) {
            let i = choose|i: int|
                0 <= i < ids.len() && selects(
                    f,
                    opt_text(d.components@[d.owner(#[trigger] ids[i])].sheet),
                );
            assert(joins(d, ids[i], n));
        }
        if exists|p: int| #[trigger]
            joins(d, p, n) && selects(
                f,
                opt_text(d.components@[d.pins@[p].comp.0 as int].sheet),
            ) {
            let p = choose|p: int| #[trigger]
                joins(d, p, n) && selects(
                    f,
                    opt_text(d.components@[d.pins@[p].comp.0 as int].sheet),
                );
            assert(ids.contains(p));
            let i = choose|i: int| 0 <= i < ids.len() && ids[i] == p;
            assert(selects(f, opt_text(d.components@[d.owner(ids[i])].sheet)));
        }
    }
}

/// Passing lists each net that passes once.
pub proof fn lemma_passing_nets(d: &Design, k: int, q: NetQuery)
    requires
        0 <= k,
    ensures
        forall|n: int| #[trigger]
            d.passing_nets(k, q).contains(n) <==> 0 <= n < k && d.net_passes(n, q),
        d.passing_nets(k, q).no_duplicates(),
    decreases k,
{
    if k > 0 {
        lemma_passing_nets(d, k - 1, q);
        let front = d.passing_nets(k - 1, q);
        let all = d.passing_nets(k, q);
        let passes = d.net_passes(k - 1, q);
        assert forall|n: int| #[trigger] all.contains(n) <==> front.contains(n) || (passes && n == k
            - 1) by {
            if front.contains(n) {
                let i = choose|i: int| 0 <= i < front.len() && front[i] == n;
                assert(all[i] == n);
            }
            if passes && n == k - 1 {
                assert(all[all.len() - 1] == n);
            }
            if all.contains(n) {
                let i = choose|i: int| 0 <= i < all.len() && all[i] == n;
                if i < front.len() {
                    assert(front[i] == n);
                }
            }
        }
        assert forall|i: int, j: int| 0 <= i < all.len() && 0 <= j < all.len() && i
            != j implies all[i] != all[j] by {
            if i < front.len() {
                assert(front.contains(front[i]));
            }
            if j < front.len() {
                assert(front.contains(front[j]));
            }
        }
    }
}

/// The net comes after the others: a sheet was asked for, and it scores half or more as a
/// rail.
pub open spec fn comes_last(filter: Option<Selector>, rails: Seq<RailReading>, n: int) -> bool {
    filter is Some && rails[n].hundredths >= 50
}

/// The row of `a` may stand before that of `b`: rails after others, then the busier
/// first, where that was asked for, then by name.
pub open spec fn may_precede(
    d: &Design,
    a: int,
    b: int,
    filter: Option<Selector>,
    by_fanout: bool,
    rails: Seq<RailReading>,
) -> bool {
    let x = d.nets@[a];
    let y = d.nets@[b];
    if comes_last(filter, rails, a) != comes_last(filter, rails, b) {
        comes_last(filter, rails, b)
    } else if by_fanout && x.pins.len() != y.pins.len() {
        x.pins.len() > y.pins.len()
    } else {
        !(text_order(x.name@, y.name@) is Greater)
    }
}

proof fn lemma_may_precede(
    d: &Design,
    a: int,
    b: int,
    q: NetQuery,
    rails: Seq<RailReading>,
)
    requires
        !(key_order(d.net_key(a, q, rails), d.net_key(b, q, rails)) is Greater),
    ensures
        may_precede(d, a, b, q.filter, q.by_fanout, rails),
{
    let x = d.net_key(a, q, rails);
    let y = d.net_key(b, q, rails);
    assert(key_order(x, y) == then_order(
        mark_order(x[0], y[0]),
        key_order(x.skip(1), y.skip(1)),
    ));
    if q.by_fanout {
        let u = d.fanout_key(a);
        let v = d.fanout_key(b);
        assert(x.skip(1) =~= u && y.skip(1) =~= v);
        assert(key_order(u, v) == then_order(
            mark_order(u[0], v[0]),
            key_order(u.skip(1), v.skip(1)),
        ));
        assert(u.skip(1) =~= seq![Mark::Text(d.nets@[a].name@)]);
        assert(v.skip(1) =~= seq![Mark::Text(d.nets@[b].name@)]);
        lemma_one_text(d.nets@[a].name@, d.nets@[b].name@);
    } else {
        assert(x.skip(1) =~= seq![Mark::Text(d.nets@[a].name@)]);
        assert(y.skip(1) =~= seq![Mark::Text(d.nets@[b].name@)]);
        lemma_one_text(d.nets@[a].name@, d.nets@[b].name@);
    }
}

proof fn lemma_one_text(a: Seq<char>, b: Seq<char>)
    ensures
        key_order(seq![Mark::Text(a)], seq![Mark::Text(b)]) == text_order(a, b),
{
    let x = seq![Mark::Text(a)];
    let y = seq![Mark::Text(b)];
    assert(x.skip(1).len() == 0 && y.skip(1).len() == 0);
    assert(key_order(x.skip(1), y.skip(1)) is Equal);
    assert(key_order(x, y) == then_order(
        mark_order(x[0], y[0]),
        key_order(x.skip(1), y.skip(1)),
    ));
}

/// A filter over nets counts the nets that are asked for, every row tells of one of them,
/// no two rows of the same, rails after others where a sheet was asked for, and all have a
/// row where the page is large enough. Something is said of rails exactly when some come
/// last.
pub proof fn lemma_net_filter_lists(
    d: &Design,
    e: NetEnvelope,
    name: Option<Seq<char>>,
    subsystem: Option<Seq<char>>,
    by_fanout: bool,
    limit: u32,
    offset: u32,
    rails: Seq<RailReading>,
) -> (shown: Seq<int>)
    requires
        d.wf(),
        rails.len() == d.nets.len(),
        d.nets_answer(
            e,
            NetQuery { name: wanted_name(name), filter: d.filter_for(subsystem), by_fanout },
            d.note_for(subsystem),
            limit,
            offset,
            rails,
        ),
    ensures
        e.total == Set::new(
            |n: int| 0 <= n < d.nets.len() && asked_net(d, n, name, d.filter_for(subsystem)),
        ).len(),
        e.offset == offset,
        e.limit == limit,
        opt_text(e.subsystem_note) == d.note_for(subsystem),
        e.returned == e.rows.len(),
        e.returned == (if e.total <= offset {
            0
        } else if e.total - offset <= limit {
            e.total - offset
        } else {
            limit as int
        }),
        shown.len() == e.rows.len(),
        shown.no_duplicates(),
        forall|i: int|
            0 <= i < shown.len() ==> {
                &&& 0 <= shown[i] < d.nets.len()
                &&& asked_net(d, shown[i], name, d.filter_for(subsystem))
                &&& tells_net(
                    d,
                    #[trigger] e.rows@[i],
                    shown[i],
                    d.filter_for(subsystem) is Some,
                    rails,
                )
            },
        offset == 0 && e.total <= limit ==> forall|n: int|
            0 <= n < d.nets.len() && #[trigger] asked_net(d, n, name, d.filter_for(subsystem))
                ==> shown.contains(n),
        forall|i: int, j: int|
            0 <= i < j < shown.len() ==> may_precede(
                d,
                #[trigger] shown[i],
                #[trigger] shown[j],
                d.filter_for(subsystem),
                by_fanout,
                rails,
            ),
        e.rail_note is Some <==> exists|n: int|
            0 <= n < d.nets.len() && #[trigger] asked_net(d, n, name, d.filter_for(subsystem))
                && comes_last(d.filter_for(subsystem), rails, n),
{
    let f = d.filter_for(subsystem);
    let q = NetQuery { name: wanted_name(name), filter: f, by_fanout };
    let passing = d.passing_nets(d.nets.len() as int, q);
    let keys = passing.map_values(|n: int| d.net_key(n, q, rails));
    let all = d.in_net_order(passing, q, rails);
    let shown = page(all, offset as int, limit as int);
    lemma_passing_nets(d, d.nets.len() as int, q);
    lemma_sorted_page(passing, keys, offset as int, limit as int);
    lemma_count_is_size(|n: int| true, passing);
    lemma_count_where(|n: int| true, passing);
    assert forall|n: int| #[trigger] passing.contains(n) <==> 0 <= n < d.nets.len() && asked_net(
        d,
        n,
        name,
        f,
    ) by {
        if 0 <= n < d.nets.len() {
            lemma_asked_net(d, n, name, f, by_fanout);
        }
    }
    assert(Set::new(|x: int| passing.contains(x) && (|n: int| true)(x)) =~= Set::new(
        |n: int| 0 <= n < d.nets.len() && asked_net(d, n, name, f),
    ));
    assert forall|i: int| 0 <= i < shown.len() implies {
        &&& 0 <= shown[i] < d.nets.len()
        &&& asked_net(d, shown[i], name, f)
        &&& tells_net(d, #[trigger] e.rows@[i], shown[i], f is Some, rails)
    } by {
        let n = shown[i];
        assert(passing.contains(n));
        assert(d.net_row_is(e.rows@[i], n, q, rails));
        lemma_net_count(d, n, |p: int| true);
        lemma_count_where(|p: int| true, d.net_pins(n));
        assert forall|t: Seq<char>| #[trigger]
            e.rows@[i].pin_types@.contains_key(t) <==> some_typed(d, n, t) by {
            lemma_types_counted(d, n, t);
        }
        assert forall|t: Seq<char>| #[trigger]
            e.rows@[i].pin_types@.contains_key(t) implies e.rows@[i].pin_types@[t] == pins_where(
            d,
            n,
            |p: int| typed(d, p, t),
        ).len() by {
            lemma_types_counted(d, n, t);
        }
    }
    lemma_ranked(keys);
    let p = ranked(keys);
    let from = if offset < all.len() {
        offset as int
    } else {
        all.len() as int
    };
    assert forall|i: int, j: int| 0 <= i < j < shown.len() implies may_precede(
        d,
        #[trigger] shown[i],
        #[trigger] shown[j],
        f,
        by_fanout,
        rails,
    ) by {
        assert(shown[i] == passing[p[from + i]] && shown[j] == passing[p[from + j]]);
        assert(keys[p[from + i]] == d.net_key(shown[i], q, rails));
        assert(keys[p[from + j]] == d.net_key(shown[j], q, rails));
        lemma_may_precede(d, shown[i], shown[j], q, rails);
    }
    let low = |n: int| Design::demoted(q, rails, n);
    lemma_count_where(low, all);
    lemma_rails_last(d, passing, q, rails);
    assert(e.rail_note is Some <==> count_where(low, all) != 0);
    if count_where(low, all) != 0 {
        let i = choose|i: int| 0 <= i < all.len() && low(#[trigger] all[i]);
        assert(all.contains(all[i]));
        assert(passing.contains(all[i]));
        assert(asked_net(d, all[i], name, f));
    }
    if exists|n: int|
        0 <= n < d.nets.len() && #[trigger] asked_net(d, n, name, f) && comes_last(f, rails, n) {
        let n = choose|n: int|
            0 <= n < d.nets.len() && #[trigger] asked_net(d, n, name, f) && comes_last(f, rails, n);
        assert(passing.contains(n));
        assert(all.contains(n));
        let i = choose|i: int| 0 <= i < all.len() && all[i] == n;
        assert(low(all[i]));
    }
    shown
}

/// The note on rails says how many there are, names the first five of them, and says how
/// many more there are and from which offset on they come.
pub proof fn lemma_rail_note(
    d: &Design,
    e: NetEnvelope,
    name: Option<Seq<char>>,
    subsystem: Option<Seq<char>>,
    by_fanout: bool,
    limit: u32,
    offset: u32,
    rails: Seq<RailReading>,
) -> (last: Seq<int>)
    requires
        d.wf(),
        rails.len() == d.nets.len(),
        d.nets_answer(
            e,
            NetQuery { name: wanted_name(name), filter: d.filter_for(subsystem), by_fanout },
            d.note_for(subsystem),
            limit,
            offset,
            rails,
        ),
    ensures
        last.no_duplicates(),
        forall|n: int| #[trigger]
            last.contains(n) <==> 0 <= n < d.nets.len() && asked_net(
                d,
                n,
                name,
                d.filter_for(subsystem),
            ) && comes_last(d.filter_for(subsystem), rails, n),
        e.rail_note matches Some(s) ==> s@ == decimal(last.len())
            + " power/ground rail(s) sorted last: "@ + joined(
            last.take(
                if last.len() < 5 {
                    last.len() as int
                } else {
                    5
                },
            ).map_values(|n: int| d.nets@[n].name@),
            ", "@,
        ) + (if last.len() > 5 {
            ", +"@ + decimal((last.len() - 5) as nat) + " more"@
        } else {
            Seq::empty()
        })
            + ". A rail reaches parts on nearly every sheet, so it matches this subsystem without belonging to it. They are the final "@
            + decimal(last.len()) + " of "@ + decimal(e.total as nat) + " matches, from offset "@
            + decimal((e.total - last.len()) as nat)
            + " — request that offset if this page stops short of them."@,
{
    let f = d.filter_for(subsystem);
    let q = NetQuery { name: wanted_name(name), filter: f, by_fanout };
    let passing = d.passing_nets(d.nets.len() as int, q);
    let all = d.in_net_order(passing, q, rails);
    let k = Design::demoted_count(q, rails, all);
    lemma_passing_nets(d, d.nets.len() as int, q);
    lemma_rails_last(d, passing, q, rails);
    lemma_count_where(|n: int| Design::demoted(q, rails, n), all);
    let last = all.skip(all.len() - k);
    lemma_sorted_page(
        passing,
        passing.map_values(|n: int| d.net_key(n, q, rails)),
        0,
        passing.len() as int,
    );
    assert(page(all, 0, passing.len() as int) =~= all);
    assert forall|n: int| #[trigger] last.contains(n) <==> 0 <= n < d.nets.len() && asked_net(
        d,
        n,
        name,
        f,
    ) && comes_last(f, rails, n) by {
        if 0 <= n < d.nets.len() {
            lemma_asked_net(d, n, name, f, by_fanout);
        }
        if last.contains(n) {
            let i = choose|i: int| 0 <= i < last.len() && last[i] == n;
            assert(all[all.len() - k + i] == n);
            assert(all.contains(n));
            assert(passing.contains(n));
        }
        if 0 <= n < d.nets.len() && asked_net(d, n, name, f) && comes_last(f, rails, n) {
            assert(passing.contains(n));
            assert(all.contains(n));
            let i = choose|i: int| 0 <= i < all.len() && all[i] == n;
            assert(Design::demoted(q, rails, all[i]));
            assert(last[i - (all.len() - k)] == n);
        }
    }
    let shown = if k < 5 {
        k as int
    } else {
        5
    };
    assert(all.subrange(all.len() - k, all.len() - k + shown) =~= last.take(shown));
    assert(d.names_of(last.take(shown)) =~= last.take(shown).map_values(
        |n: int| d.nets@[n].name@,
    ));
    if let Some(s) = e.rail_note {
        let named = joined(d.names_of(last.take(shown)), ", "@);
        assert(named + Seq::<char>::empty() =~= named);
        if k > shown {
            assert(named + ", +"@ + decimal((k - shown) as nat) + " more"@ =~= named + (", +"@
                + decimal((k - shown) as nat) + " more"@));
        }
        let more = if last.len() > 5 {
            ", +"@ + decimal((last.len() - 5) as nat) + " more"@
        } else {
            Seq::<char>::empty()
        };
        assert(d.named_rails(all, k as int) =~= named + more);
        assert(decimal(k) + " power/ground rail(s) sorted last: "@ + (named + more)
            =~= decimal(k) + " power/ground rail(s) sorted last: "@ + named + more);
    }
    last
}

} // verus!
