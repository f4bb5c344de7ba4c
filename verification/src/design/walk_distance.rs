//! How far a walk's findings are: each is reported over a shortest chain, and nothing
//! within the depth asked for is left out.
use vstd::prelude::*;

use super::rails::RailReading;
use super::walk::{lemma_unvisited, Visit, Walk, WalkRules};
use super::walk_laws::{lemma_net_pin, lemma_two_pins, lemma_visited_begun, lemma_visited_sound};
use super::{lemma_pins_of_comp, lemma_pins_on_net, on_net, Design};

verus! {

impl Design {
    /// No chain leads to the net over fewer parts.
    pub open spec fn is_nearest(
        &self,
        rules: WalkRules,
        rails: Seq<RailReading>,
        n: int,
        depth: int,
    ) -> bool {
        forall|chain: Seq<int>| #[trigger]
            self.leads_to(rules, rails, chain, n) ==> depth <= chain.len()
    }

    /// All that a walk has found was found over a shortest chain.
    pub open spec fn all_nearest(&self, rules: WalkRules, rails: Seq<RailReading>, w: Walk) -> bool {
        &&& forall|i: int|
            0 <= i < w.endpoints.len() ==> (self.net_of(
                (#[trigger] w.endpoints[i]).pin,
            ) matches Some(n) && self.is_nearest(rules, rails, n, w.endpoints[i].depth))
        &&& forall|i: int|
            0 <= i < w.rails.len() ==> self.is_nearest(
                rules,
                rails,
                (#[trigger] w.rails[i]).net,
                w.rails[i].via.len() as int,
            )
        &&& forall|i: int|
            0 <= i < w.large.len() ==> self.is_nearest(
                rules,
                rails,
                (#[trigger] w.large[i]).net,
                w.large[i].via.len() as int,
            )
    }
}

/// The component may be gone through from the net.
spec fn allowed(rules: WalkRules, c: int, m: int) -> bool {
    !(m == rules.start_net && rules.start_comp == Some(c as usize))
}

/// The net is queued at a depth of at most `k`.
spec fn queued(w: Walk, n: int, k: int) -> bool {
    exists|i: int|
        0 <= i < w.queue.len() && (#[trigger] w.queue[i]).net == n && w.queue[i].depth <= k
}

/// The net was visited, is queued at a depth of at most `k`, or has no pin but one.
spec fn near(d: &Design, w: Walk, n: int, k: int) -> bool {
    w.nets.contains(n) || d.net_pins(n).len() == 1 || queued(w, n, k)
}

/// What lies behind the nets that were entered is near.
spec fn settled(d: &Design, rules: WalkRules, rails: Seq<RailReading>, w: Walk) -> bool {
    forall|chain: Seq<int>, m: int, c: int, n: int|
        #![trigger d.leads_to(rules, rails, chain, m), d.bridges(c, m, n)]
        w.nets.contains(m) && 0 <= m < d.nets.len() && d.enters(rules, rails, m) && d.leads_to(
            rules,
            rails,
            chain,
            m,
        ) && d.bridges(c, m, n) && allowed(rules, c, m) && chain.len() < rules.max_depth ==> near(
            d,
            w,
            n,
            chain.len() as int + 1,
        )
}

/// The queue is in the order of depth and spans two depths at most.
spec fn in_order(w: Walk) -> bool {
    &&& forall|i: int, j: int|
        0 <= i < j < w.queue.len() ==> (#[trigger] w.queue[i]).depth <= (
        #[trigger] w.queue[j]).depth
    &&& forall|i: int|
        0 <= i < w.queue.len() ==> (#[trigger] w.queue[i]).depth <= w.queue[0].depth + 1
}

/// Each passive that was met has a pin on one of the nets.
spec fn parts_met(d: &Design, w: Walk, nets: Set<int>) -> bool {
    forall|c: int| #[trigger]
        w.comps.contains(c) ==> 0 <= c < d.components.len() && d.passes(c) && (on_one_of(
            d,
            d.comp_pins(c)[0],
            nets,
        ) || on_one_of(d, d.comp_pins(c)[1], nets))
}

spec fn on_one_of(d: &Design, p: int, nets: Set<int>) -> bool {
    d.net_of(p) matches Some(n) && nets.contains(n)
}

/// One of the first `k` pins of the net is the component's.
spec fn touches(d: &Design, n: int, k: int, c: int) -> bool {
    exists|i: int| 0 <= i < k && d.owner(#[trigger] d.net_pins(n)[i]) == c
}

/// The pin's name was met, or a walk does not end on the pin.
spec fn name_met(d: &Design, rules: WalkRules, w: Walk, p: int) -> bool {
    d.passes(d.owner(p)) || rules.start_comp == Some(d.owner(p) as usize) || w.labels.contains(
        d.label(p),
    )
}

/// The names of all pins that end on nets that were entered were met.
spec fn names_met(d: &Design, rules: WalkRules, rails: Seq<RailReading>, w: Walk) -> bool {
    forall|m: int, i: int|
        #![trigger w.nets.contains(m), d.net_pins(m)[i]]
        w.nets.contains(m) && d.enters(rules, rails, m) && 0 <= i < d.net_pins(m).len()
            ==> name_met(d, rules, w, d.net_pins(m)[i])
}

/// A pin of this name is reported.
spec fn reported(d: &Design, w: Walk, l: Seq<char>) -> bool {
    exists|i: int| 0 <= i < w.endpoints.len() && d.label((#[trigger] w.endpoints[i]).pin) == l
}

/// Every name that was met is reported, as far as so many are asked for.
spec fn names_kept(d: &Design, rules: WalkRules, w: Walk) -> bool {
    forall|l: Seq<char>| #[trigger]
        w.labels.contains(l) ==> w.endpoints.len() >= rules.max_endpoints || reported(d, w, l)
}

/// While a chain leads to a net that was not visited, something is queued at no more than
/// its length.
proof fn lemma_frontier(
    d: &Design,
    rules: WalkRules,
    rails: Seq<RailReading>,
    w: Walk,
    chain: Seq<int>,
    n: int,
)
    requires
        d.wf(),
        settled(d, rules, rails, w),
        d.begun(rules, w),
        d.leads_to(rules, rails, chain, n),
        chain.len() <= rules.max_depth,
    ensures
        w.nets.contains(n) || (n != rules.start_net && d.net_pins(n).len() == 1) || exists|i: int|
            0 <= i < w.queue.len() && (#[trigger] w.queue[i]).depth <= chain.len(),
    decreases chain.len(),
{
    if !w.nets.contains(rules.start_net as int) {
        assert(w.queue[0].depth == 0);
    } else if chain.len() > 0 && n != rules.start_net {
        let m = choose|m: int|
            {
                &&& #[trigger] d.bridges(chain.last(), m, n)
                &&& 0 <= m < d.nets.len()
                &&& d.enters(rules, rails, m)
                &&& !(m == rules.start_net && rules.start_comp == Some(chain.last() as usize))
                &&& d.leads_to(rules, rails, chain.drop_last(), m)
            };
        lemma_frontier(d, rules, rails, w, chain.drop_last(), m);
        if w.nets.contains(m) {
            assert(d.leads_to(rules, rails, chain.drop_last(), m));
            assert(d.bridges(chain.last(), m, n));
            assert(near(d, w, n, chain.drop_last().len() as int + 1));
            if queued(w, n, chain.len() as int) {
                let i = choose|i: int|
                    0 <= i < w.queue.len() && (#[trigger] w.queue[i]).net == n && w.queue[i].depth
                        <= chain.len();
                assert(w.queue[i].depth <= chain.len());
            }
        } else {
            let i = choose|i: int|
                0 <= i < w.queue.len() && (#[trigger] w.queue[i]).depth
                    <= chain.drop_last().len();
            assert(w.queue[i].depth <= chain.len());
        }
    }
}

/// The net that is visited next is at its least distance.
proof fn lemma_next_is_nearest(d: &Design, rules: WalkRules, rails: Seq<RailReading>, w: Walk)
    requires
        d.wf(),
        settled(d, rules, rails, w),
        in_order(w),
        d.begun(rules, w),
        w.queue.len() > 0,
        d.visit_sound(rules, rails, w.queue[0]),
        !w.nets.contains(w.queue[0].net),
    ensures
        d.is_nearest(rules, rails, w.queue[0].net, w.queue[0].depth),
{
    let v = w.queue[0];
    assert forall|chain: Seq<int>| #[trigger]
        d.leads_to(rules, rails, chain, v.net) implies v.depth <= chain.len() by {
        if chain.len() <= rules.max_depth && v.net != rules.start_net {
            lemma_frontier(d, rules, rails, w, chain, v.net);
            let i = choose|i: int|
                0 <= i < w.queue.len() && (#[trigger] w.queue[i]).depth <= chain.len();
            if i > 0 {
                assert(w.queue[0].depth <= w.queue[i].depth);
            }
        }
    }
}

/// What is known while the pins of a net are looked at, `w` being the walk before the
/// first of them and `u` the walk after `k` of them.
spec fn looking(
    d: &Design,
    rules: WalkRules,
    w: Walk,
    v: Visit,
    u: Walk,
    k: int,
    here: Set<int>,
) -> bool {
    &&& w.queue.len() <= u.queue.len()
    &&& forall|i: int| 0 <= i < w.queue.len() ==> #[trigger] u.queue[i] == w.queue[i]
    &&& forall|i: int|
        w.queue.len() <= i < u.queue.len() ==> (#[trigger] u.queue[i]).depth == v.depth + 1
    &&& u.nets == w.nets
    &&& u.rails == w.rails
    &&& u.large == w.large
    &&& parts_met(d, u, here)
    &&& forall|c: int| #[trigger]
        u.comps.contains(c) ==> w.comps.contains(c) || touches(d, v.net, k, c)
    &&& forall|c: int, n: int| #[trigger]
        d.bridges(c, v.net, n) && allowed(rules, c, v.net) && touches(d, v.net, k, c) ==> {
            ||| w.comps.contains(c)
            ||| d.net_pins(n).len() == 1
            ||| v.depth >= rules.max_depth
            ||| queued(u, n, v.depth + 1)
        }
    &&& w.endpoints.len() <= u.endpoints.len()
    &&& forall|i: int| 0 <= i < w.endpoints.len() ==> #[trigger] u.endpoints[i] == w.endpoints[i]
    &&& forall|i: int|
        w.endpoints.len() <= i < u.endpoints.len() ==> (#[trigger] u.endpoints[i]).depth == v.depth
            && d.net_of(u.endpoints[i].pin) == Some(v.net)
    &&& w.labels.subset_of(u.labels)
    &&& names_kept(d, rules, u)
    &&& forall|i: int| 0 <= i < k ==> name_met(d, rules, u, #[trigger] d.net_pins(v.net)[i])
}

proof fn lemma_queued_grows(u: Walk, after: Walk, n: int, k: int)
    requires
        u.queue.len() <= after.queue.len(),
        forall|i: int| 0 <= i < u.queue.len() ==> #[trigger] after.queue[i] == u.queue[i],
        queued(u, n, k),
    ensures
        queued(after, n, k),
{
    let i = choose|i: int|
        0 <= i < u.queue.len() && (#[trigger] u.queue[i]).net == n && u.queue[i].depth <= k;
    assert(after.queue[i].net == n);
}

proof fn lemma_looking(
    d: &Design,
    rules: WalkRules,
    w: Walk,
    v: Visit,
    k: int,
    here: Set<int>,
)
    requires
        d.wf(),
        0 <= v.net < d.nets.len(),
        v.via.len() == 0 <==> v.net == rules.start_net,
        0 <= k <= d.net_pins(v.net).len(),
        here.contains(v.net),
        parts_met(d, w, here),
        names_kept(d, rules, w),
    ensures
        looking(d, rules, w, v, d.looked_through(rules, w, v, k), k, here),
    decreases k,
{
    if k > 0 {
        lemma_looking(d, rules, w, v, k - 1, here);
        let u = d.looked_through(rules, w, v, k - 1);
        let p = d.net_pins(v.net)[k - 1];
        let c = d.owner(p);
        let after = d.looked_at(rules, u, v, p);
        assert(after == d.looked_through(rules, w, v, k));
        lemma_net_pin(d, v.net, k - 1);
        assert(d.pins@[p].id.0 == p);
        assert forall|b: int| touches(d, v.net, k - 1, b) implies #[trigger] touches(
            d,
            v.net,
            k,
            b,
        ) by {
            let i = choose|i: int| 0 <= i < k - 1 && d.owner(#[trigger] d.net_pins(v.net)[i]) == b;
            assert(d.owner(d.net_pins(v.net)[i]) == b);
        }
        assert(touches(d, v.net, k, c));
        if d.passes(c) {
            lemma_two_pins(d, p);
        }
        assert forall|b: int| #[trigger] after.comps.contains(b) implies w.comps.contains(b)
            || touches(d, v.net, k, b) by {
            if u.comps.contains(b) {
                assert(w.comps.contains(b) || touches(d, v.net, k - 1, b));
            }
        }
        assert forall|b: int, n: int| #[trigger]
            d.bridges(b, v.net, n) && allowed(rules, b, v.net) && touches(
                d,
                v.net,
                k,
                b,
            ) implies {
            ||| w.comps.contains(b)
            ||| d.net_pins(n).len() == 1
            ||| v.depth >= rules.max_depth
            ||| queued(after, n, v.depth + 1)
        } by {
            if touches(d, v.net, k - 1, b) || (u.comps.contains(b) && !w.comps.contains(b)) {
                assert(touches(d, v.net, k - 1, b));
                if queued(u, n, v.depth + 1) {
                    lemma_queued_grows(u, after, n, v.depth + 1);
                }
            } else if !w.comps.contains(b) {
                let i = choose|i: int| 0 <= i < k && d.owner(#[trigger] d.net_pins(v.net)[i]) == b;
                if i < k - 1 {
                    assert(touches(d, v.net, k - 1, b));
                }
                assert(b == c);
                let q = d.other_pin(c, p).unwrap();
                assert(d.net_of(q) == Some(n));
                if d.net_pins(n).len() != 1 && v.depth < rules.max_depth {
                    let last = after.queue.len() - 1;
                    assert(after.queue[last].net == n);
                }
            }
        }
        assert forall|l: Seq<char>| #[trigger] after.labels.contains(l) implies (
        after.endpoints.len() >= rules.max_endpoints || reported(d, after, l)) by {
            if u.labels.contains(l) {
                if reported(d, u, l) {
                    let i = choose|i: int|
                        0 <= i < u.endpoints.len() && d.label((#[trigger] u.endpoints[i]).pin) == l;
                    assert(d.label(after.endpoints[i].pin) == l);
                }
            } else if u.endpoints.len() < rules.max_endpoints {
                let last = after.endpoints.len() - 1;
                assert(d.label(after.endpoints[last].pin) == l);
            }
        }
        assert forall|i: int| 0 <= i < k implies name_met(
            d,
            rules,
            after,
            #[trigger] d.net_pins(v.net)[i],
        ) by {
            if i < k - 1 {
                assert(name_met(d, rules, u, d.net_pins(v.net)[i]));
            }
        }
    }
}

/// A visit keeps what is known.
proof fn lemma_visit(d: &Design, rules: WalkRules, rails: Seq<RailReading>, w: Walk)
    requires
        d.wf(),
        rules.start_net < d.nets.len(),
        settled(d, rules, rails, w),
        in_order(w),
        d.begun(rules, w),
        parts_met(d, w, w.nets),
        d.all_nearest(rules, rails, w),
        names_met(d, rules, rails, w),
        names_kept(d, rules, w),
        w.queue.len() > 0,
        d.visit_sound(rules, rails, w.queue[0]),
        w.queue[0].via.len() == 0 <==> w.queue[0].net == rules.start_net,
        !w.nets.contains(w.queue[0].net),
    ensures
        ({
            let v = w.queue[0];
            let rest = Walk { queue: w.queue.skip(1), ..w };
            let after = Walk { nets: w.nets.insert(v.net), ..d.visited(rules, rails, rest, v) };
            &&& settled(d, rules, rails, after)
            &&& in_order(after)
            &&& parts_met(d, after, after.nets)
            &&& d.all_nearest(rules, rails, after)
            &&& names_met(d, rules, rails, after)
            &&& names_kept(d, rules, after)
        }),
{
    let v = w.queue[0];
    let rest = Walk { queue: w.queue.skip(1), ..w };
    let here = w.nets.insert(v.net);
    let inside = d.visited(rules, rails, rest, v);
    let after = Walk { nets: here, ..inside };
    lemma_next_is_nearest(d, rules, rails, w);
    assert forall|i: int| 0 <= i < rest.queue.len() implies #[trigger] rest.queue[i]
        == w.queue[i + 1] by {}
    assert(parts_met(d, rest, here));
    lemma_names_kept_stays(d, rules, w, rest);
    if Design::stops_at(rules, rails, v.net) || d.too_large(rules, v.net) {
        assert(inside.queue == rest.queue);
        assert forall|chain: Seq<int>, m: int, c: int, n: int|
            #![trigger d.leads_to(rules, rails, chain, m), d.bridges(c, m, n)]
            after.nets.contains(m) && 0 <= m < d.nets.len() && d.enters(rules, rails, m)
                && d.leads_to(rules, rails, chain, m) && d.bridges(c, m, n) && allowed(rules, c, m)
                && chain.len() < rules.max_depth implies near(d, after, n, chain.len() as int + 1) by {
            assert(w.nets.contains(m));
            assert(near(d, w, n, chain.len() as int + 1));
            lemma_near_stays(d, w, after, n, chain.len() as int + 1);
        }
        lemma_names_kept_stays(d, rules, w, after);
        assert forall|m: int, i: int|
            #![trigger after.nets.contains(m), d.net_pins(m)[i]]
            after.nets.contains(m) && d.enters(rules, rails, m) && 0 <= i < d.net_pins(
                m,
            ).len() implies name_met(d, rules, after, d.net_pins(m)[i]) by {
            assert(w.nets.contains(m));
        }
    } else {
        let entered = if v.net == rules.start_net {
            rest
        } else {
            d.noted(rules, rest, v)
        };
        let k = d.net_pins(v.net).len() as int;
        assert(parts_met(d, entered, here));
        lemma_names_kept_stays(d, rules, rest, entered);
        lemma_looking(d, rules, entered, v, k, here);
        assert(entered.queue == rest.queue);
        assert forall|chain: Seq<int>, m: int, c: int, n: int|
            #![trigger d.leads_to(rules, rails, chain, m), d.bridges(c, m, n)]
            after.nets.contains(m) && 0 <= m < d.nets.len() && d.enters(rules, rails, m)
                && d.leads_to(rules, rails, chain, m) && d.bridges(c, m, n) && allowed(rules, c, m)
                && chain.len() < rules.max_depth implies near(d, after, n, chain.len() as int + 1) by {
            if m == v.net {
                lemma_bridge_touches(d, c, m, n);
                assert(v.depth <= chain.len());
                if entered.comps.contains(c) {
                    assert(w.comps.contains(c));
                    assert(w.nets.contains(n));
                } else if queued(inside, n, v.depth + 1) {
                    let i = choose|i: int|
                        0 <= i < inside.queue.len() && (#[trigger] inside.queue[i]).net == n
                            && inside.queue[i].depth <= v.depth + 1;
                    assert(after.queue[i].net == n);
                }
            } else {
                assert(w.nets.contains(m));
                assert(near(d, w, n, chain.len() as int + 1));
                lemma_near_stays(d, w, after, n, chain.len() as int + 1);
            }
        }
        assert forall|i: int, j: int| 0 <= i < j < after.queue.len() implies (
        #[trigger] after.queue[i]).depth <= (#[trigger] after.queue[j]).depth by {
            if i < rest.queue.len() {
                assert(after.queue[i] == w.queue[i + 1]);
                assert(w.queue[i + 1].depth <= v.depth + 1);
            }
            if j < rest.queue.len() {
                assert(after.queue[j] == w.queue[j + 1]);
            }
        }
        assert forall|i: int| 0 <= i < after.queue.len() implies (#[trigger] after.queue[i]).depth
            <= after.queue[0].depth + 1 by {
            if i < rest.queue.len() {
                assert(after.queue[i] == w.queue[i + 1]);
            }
            if rest.queue.len() > 0 {
                assert(after.queue[0] == w.queue[1]);
                assert(w.queue[0].depth <= w.queue[1].depth);
            }
        }
        assert forall|i: int| 0 <= i < after.endpoints.len() implies (d.net_of(
            (#[trigger] after.endpoints[i]).pin,
        ) matches Some(n) && d.is_nearest(rules, rails, n, after.endpoints[i].depth)) by {
            if i < w.endpoints.len() {
                assert(after.endpoints[i] == w.endpoints[i]);
            }
        }
        lemma_names_kept_stays(d, rules, inside, after);
        assert forall|m: int, i: int|
            #![trigger after.nets.contains(m), d.net_pins(m)[i]]
            after.nets.contains(m) && d.enters(rules, rails, m) && 0 <= i < d.net_pins(
                m,
            ).len() implies name_met(d, rules, after, d.net_pins(m)[i]) by {
            if m == v.net {
                assert(name_met(d, rules, inside, d.net_pins(v.net)[i]));
            } else {
                assert(w.nets.contains(m));
                assert(name_met(d, rules, w, d.net_pins(m)[i]));
            }
        }
    }
}

proof fn lemma_names_kept_stays(d: &Design, rules: WalkRules, w: Walk, after: Walk)
    requires
        names_kept(d, rules, w),
        after.labels == w.labels,
        after.endpoints == w.endpoints,
    ensures
        names_kept(d, rules, after),
{
    assert forall|l: Seq<char>| #[trigger] after.labels.contains(l) implies (
    after.endpoints.len() >= rules.max_endpoints || reported(d, after, l)) by {
        assert(w.labels.contains(l));
        if reported(d, w, l) {
            let i = choose|i: int|
                0 <= i < w.endpoints.len() && d.label((#[trigger] w.endpoints[i]).pin) == l;
            assert(d.label(after.endpoints[i].pin) == l);
        }
    }
}

/// Visiting the head of the queue leaves what was near so.
proof fn lemma_near_stays(d: &Design, w: Walk, after: Walk, n: int, k: int)
    requires
        w.queue.len() > 0,
        after.nets == w.nets.insert(w.queue[0].net),
        after.queue.len() >= w.queue.len() - 1,
        forall|i: int| 0 <= i < w.queue.len() - 1 ==> #[trigger] after.queue[i] == w.queue[i + 1],
        near(d, w, n, k),
    ensures
        near(d, after, n, k),
{
    if queued(w, n, k) {
        let i = choose|i: int|
            0 <= i < w.queue.len() && (#[trigger] w.queue[i]).net == n && w.queue[i].depth <= k;
        if i > 0 {
            assert(after.queue[i - 1].net == n);
        }
    }
}

/// A component that bridges two nets has a pin on the first.
proof fn lemma_bridge_touches(d: &Design, c: int, m: int, n: int)
    requires
        d.wf(),
        0 <= m < d.nets.len(),
        d.bridges(c, m, n),
    ensures
        touches(d, m, d.net_pins(m).len() as int, c),
{
    let ids = d.comp_pins(c);
    let p = if d.net_of(ids[0]) == Some(m) {
        ids[0]
    } else {
        ids[1]
    };
    lemma_pins_of_comp(d.pins@, c);
    assert(d.components@[c].id.0 == c);
    assert(d.owner(p) == c && 0 <= p < d.pins.len());
    lemma_pins_on_net(d.pins@, m);
    assert(on_net(d.pins@[p], m));
    assert(d.nets@[m].id.0 == m);
    assert(d.net_pins(m).contains(p));
    let i = choose|i: int| 0 <= i < d.net_pins(m).len() && d.net_pins(m)[i] == p;
    assert(d.owner(d.net_pins(m)[i]) == c);
}

proof fn lemma_walked_nearest(d: &Design, rules: WalkRules, rails: Seq<RailReading>, w: Walk)
    requires
        d.wf(),
        rules.start_net < d.nets.len(),
        d.sound(rules, rails, w),
        d.begun(rules, w),
        settled(d, rules, rails, w),
        in_order(w),
        parts_met(d, w, w.nets),
        d.all_nearest(rules, rails, w),
        names_met(d, rules, rails, w),
        names_kept(d, rules, w),
    ensures
        d.all_nearest(rules, rails, d.walked(rules, rails, w)),
        names_met(d, rules, rails, d.walked(rules, rails, w)),
        names_kept(d, rules, d.walked(rules, rails, w)),
        settled(d, rules, rails, d.walked(rules, rails, w)),
        d.walked(rules, rails, w).queue.len() == 0,
        d.walked(rules, rails, w).nets.contains(rules.start_net as int),
    decreases d.unvisited(w.nets).len(), w.queue.len(),
{
    if w.queue.len() > 0 {
        let v = w.queue[0];
        let rest = Walk { queue: w.queue.skip(1), ..w };
        assert forall|i: int| 0 <= i < rest.queue.len() implies d.visit_sound(
            rules,
            rails,
            #[trigger] rest.queue[i],
        ) && (rest.queue[i].via.len() == 0 ==> rest.queue[i].net == rules.start_net) by {
            assert(rest.queue[i] == w.queue[i + 1]);
        }
        assert(d.visit_sound(rules, rails, v));
        assert(d.sound(rules, rails, rest));
        if w.nets.contains(v.net) {
            assert forall|chain: Seq<int>, m: int, c: int, n: int|
                #![trigger d.leads_to(rules, rails, chain, m), d.bridges(c, m, n)]
                rest.nets.contains(m) && 0 <= m < d.nets.len() && d.enters(rules, rails, m)
                    && d.leads_to(rules, rails, chain, m) && d.bridges(c, m, n) && allowed(
                    rules,
                    c,
                    m,
                ) && chain.len() < rules.max_depth implies near(d, rest, n, chain.len() as int + 1) by {
                assert(near(d, w, n, chain.len() as int + 1));
                assert(rest.nets =~= w.nets.insert(v.net));
                lemma_near_stays(d, w, rest, n, chain.len() as int + 1);
            }
            assert forall|i: int, j: int| 0 <= i < j < rest.queue.len() implies (
            #[trigger] rest.queue[i]).depth <= (#[trigger] rest.queue[j]).depth by {
                assert(rest.queue[i] == w.queue[i + 1] && rest.queue[j] == w.queue[j + 1]);
            }
            assert forall|i: int| 0 <= i < rest.queue.len() implies (
            #[trigger] rest.queue[i]).depth <= rest.queue[0].depth + 1 by {
                assert(rest.queue[i] == w.queue[i + 1] && rest.queue[0] == w.queue[1]);
                assert(w.queue[0].depth <= w.queue[1].depth);
            }
            assert(parts_met(d, rest, rest.nets));
            assert(d.all_nearest(rules, rails, rest));
            lemma_names_kept_stays(d, rules, w, rest);
            assert forall|m: int, i: int|
                #![trigger rest.nets.contains(m), d.net_pins(m)[i]]
                rest.nets.contains(m) && d.enters(rules, rails, m) && 0 <= i < d.net_pins(
                    m,
                ).len() implies name_met(d, rules, rest, d.net_pins(m)[i]) by {
                assert(w.nets.contains(m));
            }
            lemma_walked_nearest(d, rules, rails, rest);
        } else {
            lemma_unvisited(d, w.nets, v.net);
            if v.net == rules.start_net {
                assert(w == Design::setting_out(rules));
            }
            lemma_visit(d, rules, rails, w);
            lemma_visited_sound(d, rules, rails, rest, v);
            lemma_visited_begun(d, rules, rails, rest, v);
            let after = Walk { nets: w.nets.insert(v.net), ..d.visited(rules, rails, rest, v) };
            assert(d.reachable(rules, rails, v.net));
            assert(d.sound(rules, rails, after));
            assert(after.nets.contains(rules.start_net as int)) by {
                if !w.nets.contains(rules.start_net as int) {
                    assert(w == Design::setting_out(rules));
                }
            }
            lemma_walked_nearest(d, rules, rails, after);
        }
    }
}

/// A walk reports each pin, rail and large net over a shortest chain: no other leads to
/// its net through fewer parts.
pub proof fn lemma_walk_is_shortest(d: &Design, rules: WalkRules, rails: Seq<RailReading>)
    requires
        d.wf(),
        rules.start_net < d.nets.len(),
        rails.len() == d.nets.len(),
    ensures
        d.all_nearest(rules, rails, d.whole_walk(rules, rails)),
{
    let w = Design::setting_out(rules);
    assert(d.leads_to(rules, rails, w.queue[0].via, w.queue[0].net));
    assert(d.sound(rules, rails, w));
    lemma_walked_nearest(d, rules, rails, w);
}

/// Every net that a chain within the depth asked for leads to was visited, except nets
/// with one pin, whether or not the walk was cut short.
pub proof fn lemma_walk_visits_all_in_depth(
    d: &Design,
    rules: WalkRules,
    rails: Seq<RailReading>,
    chain: Seq<int>,
    n: int,
)
    requires
        d.wf(),
        rules.start_net < d.nets.len(),
        rails.len() == d.nets.len(),
        d.leads_to(rules, rails, chain, n),
        chain.len() <= rules.max_depth,
    ensures
        d.whole_walk(rules, rails).nets.contains(n) || d.net_pins(n).len() == 1,
{
    let w = Design::setting_out(rules);
    assert(d.leads_to(rules, rails, w.queue[0].via, w.queue[0].net));
    assert(d.sound(rules, rails, w));
    lemma_walked_nearest(d, rules, rails, w);
    lemma_frontier(d, rules, rails, d.whole_walk(rules, rails), chain, n);
}

/// Every pin that ends on a net that was entered within the depth asked for is reported
/// by its name, unless as many as were asked for are.
pub proof fn lemma_walk_reports_all_in_depth(
    d: &Design,
    rules: WalkRules,
    rails: Seq<RailReading>,
    chain: Seq<int>,
    p: int,
)
    requires
        d.wf(),
        rules.start_net < d.nets.len(),
        rails.len() == d.nets.len(),
        0 <= p < d.pins.len(),
        d.net_of(p) matches Some(n) && d.leads_to(rules, rails, chain, n) && d.enters(
            rules,
            rails,
            n,
        ),
        chain.len() <= rules.max_depth,
        !d.passes(d.owner(p)),
        rules.start_comp != Some(d.owner(p) as usize),
    ensures
        d.whole_walk(rules, rails).endpoints.len() >= rules.max_endpoints || exists|i: int|
            0 <= i < d.whole_walk(rules, rails).endpoints.len() && d.label(
                (#[trigger] d.whole_walk(rules, rails).endpoints[i]).pin,
            ) == d.label(p),
{
    let n = d.net_of(p).unwrap();
    let start = Design::setting_out(rules);
    let w = d.whole_walk(rules, rails);
    assert(d.leads_to(rules, rails, start.queue[0].via, start.queue[0].net));
    assert(d.sound(rules, rails, start));
    lemma_walked_nearest(d, rules, rails, start);
    lemma_frontier(d, rules, rails, w, chain, n);
    assert(w.nets.contains(n));
    lemma_pins_on_net(d.pins@, n);
    assert(d.pins@[p].id.0 == p);
    assert(on_net(d.pins@[p], n));
    assert(d.nets@[n].id.0 == n);
    assert(d.net_pins(n).contains(p));
    let i = choose|i: int| 0 <= i < d.net_pins(n).len() && d.net_pins(n)[i] == p;
    assert(name_met(d, rules, w, d.net_pins(n)[i]));
    if w.endpoints.len() < rules.max_endpoints {
        assert(reported(d, w, d.label(p)));
    }
}

} // verus!
