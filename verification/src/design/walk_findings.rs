//! What a walk lists besides the pins it ends on: every rail, every large net and every
//! branch that came to nothing, and when it says that it was cut short.
use vstd::prelude::*;

use super::classes::is_probe_class;
use super::facts::{joins, lemma_comp_pins, lemma_net_pins, lemma_part_kinds, only_touches, sits_on};
use super::rails::RailReading;
use super::walk::{lemma_unvisited, Fizzle, Reached, Stop, Visit, Walk, WalkRules};
use super::walk_distance::lemma_walk_visits_all_in_depth;
use super::walk_laws::{lemma_looked_through_sound, lemma_net_pin, lemma_two_pins};
use super::walk_laws::{lemma_visited_begun, lemma_visited_sound, lemma_walked_sound};
use super::Design;

verus! {

/// The walk after its next step.
spec fn stepped(d: &Design, rules: WalkRules, rails: Seq<RailReading>, w: Walk) -> Walk {
    let v = w.queue[0];
    let rest = Walk { queue: w.queue.skip(1), ..w };
    if w.nets.contains(v.net) {
        rest
    } else {
        Walk { nets: w.nets.insert(v.net), ..d.visited(rules, rails, rest, v) }
    }
}

/// What is known of every walk in progress.
spec fn under_way(d: &Design, rules: WalkRules, rails: Seq<RailReading>, w: Walk) -> bool {
    d.sound(rules, rails, w) && d.begun(rules, w)
}

/// What each step keeps the whole walk keeps.
proof fn lemma_walk_keeps(
    d: &Design,
    rules: WalkRules,
    rails: Seq<RailReading>,
    w: Walk,
    inv: spec_fn(Walk) -> bool,
)
    requires
        d.wf(),
        rules.start_net < d.nets.len(),
        under_way(d, rules, rails, w),
        inv(w),
        forall|u: Walk| #[trigger]
            inv(u) && under_way(d, rules, rails, u) && u.queue.len() > 0 ==> inv(
                stepped(d, rules, rails, u),
            ),
    ensures
        inv(d.walked(rules, rails, w)),
    decreases d.unvisited(w.nets).len(), w.queue.len(),
{
    if w.queue.len() > 0 {
        let v = w.queue[0];
        let rest = Walk { queue: w.queue.skip(1), ..w };
        assert(inv(stepped(d, rules, rails, w)));
        assert forall|i: int| 0 <= i < rest.queue.len() implies d.visit_sound(
            rules,
            rails,
            #[trigger] rest.queue[i],
        ) && (rest.queue[i].via.len() == 0 ==> rest.queue[i].net == rules.start_net) by {
            assert(rest.queue[i] == w.queue[i + 1]);
        }
        assert(d.visit_sound(rules, rails, v));
        assert(d.sound(rules, rails, rest));
        if w.nets.contains(v.net) {
            lemma_walk_keeps(d, rules, rails, rest, inv);
        } else {
            lemma_unvisited(d, w.nets, v.net);
            lemma_visit_starts(d, rules, rails, w);
            lemma_visited_sound(d, rules, rails, rest, v);
            lemma_visited_begun(d, rules, rails, rest, v);
            let after = stepped(d, rules, rails, w);
            assert(d.reachable(rules, rails, v.net));
            assert(d.sound(rules, rails, after));
            assert(after.nets.contains(rules.start_net as int)) by {
                if !w.nets.contains(rules.start_net as int) {
                    assert(w == Design::setting_out(rules));
                }
            }
            lemma_walk_keeps(d, rules, rails, after, inv);
        }
    }
}

/// The net that is visited next is the start net exactly when nothing led to it.
proof fn lemma_visit_starts(d: &Design, rules: WalkRules, rails: Seq<RailReading>, w: Walk)
    requires
        under_way(d, rules, rails, w),
        w.queue.len() > 0,
        !w.nets.contains(w.queue[0].net),
    ensures
        w.queue[0].via.len() == 0 <==> w.queue[0].net == rules.start_net,
        d.visit_sound(rules, rails, w.queue[0]),
        d.sound(rules, rails, Walk { queue: w.queue.skip(1), ..w }),
{
    let rest = Walk { queue: w.queue.skip(1), ..w };
    if w.queue[0].net == rules.start_net {
        assert(w == Design::setting_out(rules));
    }
    assert forall|i: int| 0 <= i < rest.queue.len() implies d.visit_sound(
        rules,
        rails,
        #[trigger] rest.queue[i],
    ) by {
        assert(rest.queue[i] == w.queue[i + 1]);
    }
}

/// The net is one of those stopped at.
pub open spec fn stopped(s: Seq<Stop>, n: int) -> bool {
    exists|i: int| 0 <= i < s.len() && (#[trigger] s[i]).net == n
}

/// No net is stopped at twice.
pub open spec fn stops_once(s: Seq<Stop>) -> bool {
    forall|i: int, j: int| 0 <= i < j < s.len() ==> (#[trigger] s[i]).net != (#[trigger] s[j]).net
}

/// A chain within the depth asked for leads to the net, and it is the start net or has
/// other than one pin.
pub open spec fn within(
    d: &Design,
    rules: WalkRules,
    rails: Seq<RailReading>,
    n: int,
) -> bool {
    &&& 0 <= n < d.nets.len()
    &&& n == rules.start_net || d.net_pins(n).len() != 1
    &&& exists|chain: Seq<int>| #[trigger]
        d.leads_to(rules, rails, chain, n) && chain.len() <= rules.max_depth
}

spec fn stops_kept(d: &Design, rules: WalkRules, rails: Seq<RailReading>, w: Walk) -> bool {
    &&& forall|n: int| #[trigger]
        w.nets.contains(n) ==> {
            &&& within(d, rules, rails, n)
            &&& Design::stops_at(rules, rails, n) ==> stopped(w.rails, n)
            &&& !Design::stops_at(rules, rails, n) && d.too_large(rules, n) ==> stopped(w.large, n)
        }
    &&& forall|i: int| 0 <= i < w.rails.len() ==> w.nets.contains((#[trigger] w.rails[i]).net)
    &&& forall|i: int| 0 <= i < w.large.len() ==> w.nets.contains((#[trigger] w.large[i]).net)
    &&& forall|i: int|
        0 <= i < w.large.len() ==> !Design::stops_at(rules, rails, (#[trigger] w.large[i]).net)
    &&& stops_once(w.rails)
    &&& stops_once(w.large)
}

proof fn lemma_looking_stops_nowhere(d: &Design, rules: WalkRules, w: Walk, v: Visit, k: int)
    ensures
        d.looked_through(rules, w, v, k).rails == w.rails,
        d.looked_through(rules, w, v, k).large == w.large,
        d.looked_through(rules, w, v, k).nets == w.nets,
    decreases k,
{
    if k > 0 {
        lemma_looking_stops_nowhere(d, rules, w, v, k - 1);
    }
}

proof fn lemma_stopped_more(s: Seq<Stop>, x: Stop)
    ensures
        forall|n: int| stopped(s, n) ==> #[trigger] stopped(s.push(x), n),
        stopped(s.push(x), x.net),
{
    let t = s.push(x);
    assert forall|n: int| stopped(s, n) implies #[trigger] stopped(t, n) by {
        let i = choose|i: int| 0 <= i < s.len() && (#[trigger] s[i]).net == n;
        assert(t[i].net == n);
    }
    assert(t[s.len() as int].net == x.net);
}

proof fn lemma_step_keeps_stops(d: &Design, rules: WalkRules, rails: Seq<RailReading>, w: Walk)
    requires
        under_way(d, rules, rails, w),
        w.queue.len() > 0,
        stops_kept(d, rules, rails, w),
    ensures
        stops_kept(d, rules, rails, stepped(d, rules, rails, w)),
{
    let v = w.queue[0];
    let rest = Walk { queue: w.queue.skip(1), ..w };
    let after = stepped(d, rules, rails, w);
    if !w.nets.contains(v.net) {
        lemma_visit_starts(d, rules, rails, w);
        assert(d.leads_to(rules, rails, v.via, v.net));
        assert(within(d, rules, rails, v.net));
        let stop = Stop { net: v.net, via: v.via };
        let entered = if v.net == rules.start_net {
            rest
        } else {
            d.noted(rules, rest, v)
        };
        lemma_looking_stops_nowhere(d, rules, entered, v, d.net_pins(v.net).len() as int);
        lemma_stopped_more(w.rails, stop);
        lemma_stopped_more(w.large, stop);
        assert forall|n: int| #[trigger] after.nets.contains(n) implies {
            &&& within(d, rules, rails, n)
            &&& Design::stops_at(rules, rails, n) ==> stopped(after.rails, n)
            &&& !Design::stops_at(rules, rails, n) && d.too_large(rules, n) ==> stopped(
                after.large,
                n,
            )
        } by {
            if n != v.net {
                assert(w.nets.contains(n));
            }
        }
    }
}

/// The nets that a walk visits are those within the depth asked for. It lists every one
/// of them that is a rail to stop at, and every large one that is none, once each, and no
/// others.
pub proof fn lemma_walk_stops(d: &Design, rules: WalkRules, rails: Seq<RailReading>)
    requires
        d.wf(),
        rules.start_net < d.nets.len(),
        rails.len() == d.nets.len(),
    ensures
        ({
            let w = d.whole_walk(rules, rails);
            &&& forall|n: int| #[trigger] w.nets.contains(n) <==> within(d, rules, rails, n)
            &&& forall|n: int| #[trigger]
                stopped(w.rails, n) <==> within(d, rules, rails, n) && n != rules.start_net
                    && rules.stop_at_power && rails[n].rail
            &&& forall|n: int| #[trigger]
                stopped(w.large, n) <==> within(d, rules, rails, n) && n != rules.start_net && !(
                rules.stop_at_power && rails[n].rail) && d.net_pins(n).len() > 40
            &&& stops_once(w.rails)
            &&& stops_once(w.large)
        }),
{
    let start = Design::setting_out(rules);
    let w = d.whole_walk(rules, rails);
    let inv = |u: Walk| stops_kept(d, rules, rails, u);
    assert(d.leads_to(rules, rails, start.queue[0].via, start.queue[0].net));
    assert(d.sound(rules, rails, start));
    assert(inv(start));
    assert forall|u: Walk| #[trigger] inv(u) && under_way(d, rules, rails, u) && u.queue.len()
        > 0 implies inv(stepped(d, rules, rails, u)) by {
        lemma_step_keeps_stops(d, rules, rails, u);
    }
    lemma_walk_keeps(d, rules, rails, start, inv);
    lemma_walked_sound(d, rules, rails, start);
    assert(stops_kept(d, rules, rails, w));
    assert forall|n: int| #[trigger] w.nets.contains(n) <==> within(d, rules, rails, n) by {
        if within(d, rules, rails, n) && n != rules.start_net {
            let chain = choose|chain: Seq<int>| #[trigger]
                d.leads_to(rules, rails, chain, n) && chain.len() <= rules.max_depth;
            lemma_walk_visits_all_in_depth(d, rules, rails, chain, n);
        }
    }
    assert forall|n: int| #[trigger]
        stopped(w.rails, n) <==> within(d, rules, rails, n) && n != rules.start_net
            && rules.stop_at_power && rails[n].rail by {
        if stopped(w.rails, n) {
            let i = choose|i: int| 0 <= i < w.rails.len() && (#[trigger] w.rails[i]).net == n;
            assert(w.nets.contains(n));
        }
        if within(d, rules, rails, n) {
            assert(w.nets.contains(n));
        }
    }
    assert forall|n: int| #[trigger]
        stopped(w.large, n) <==> within(d, rules, rails, n) && n != rules.start_net && !(
        rules.stop_at_power && rails[n].rail) && d.net_pins(n).len() > 40 by {
        if stopped(w.large, n) {
            let i = choose|i: int| 0 <= i < w.large.len() && (#[trigger] w.large[i]).net == n;
            assert(w.nets.contains(n));
            assert(d.too_large(rules, n));
        }
        if within(d, rules, rails, n) {
            assert(w.nets.contains(n));
        }
    }
}

/// The name under which a branch that came to nothing is met: that of the net it came to,
/// or where its last part has a pin without a net, that part's designator.
pub open spec fn dead_name(d: &Design, f: Fizzle) -> Seq<char> {
    match f.net {
        Some(n) => d.nets@[n].name@,
        None => "nc:"@ + d.components@[f.via.last()].refdes@,
    }
}

/// A branch of the name is listed.
pub open spec fn listed_dead(d: &Design, s: Seq<Fizzle>, name: Seq<char>) -> bool {
    exists|i: int| 0 <= i < s.len() && dead_name(d, #[trigger] s[i]) == name
}

/// A net that no part ends is listed with each part on it, once, and with whether one of
/// them only touches it. A branch without a net was come to over a chain whose last part
/// has its other pin on no net.
pub open spec fn dead_told(
    d: &Design,
    rules: WalkRules,
    rails: Seq<RailReading>,
    f: Fizzle,
) -> bool {
    &&& f.dangling ==> f.parts.len() == 0 && !f.probe && f.via.len() <= rules.max_depth + 1
    &&& !f.dangling ==> f.net is Some && f.via.len() <= rules.max_depth
    &&& !f.dangling ==> f.parts.no_duplicates() && forall|c: int| #[trigger]
        f.parts.contains(c) <==> exists|p: int| #[trigger]
            joins(d, p, f.net.unwrap()) && sits_on(d, p, c)
    &&& !f.dangling ==> (f.probe <==> exists|p: int| #[trigger]
        joins(d, p, f.net.unwrap()) && only_touches(d, d.owner(p)))
    &&& f.net is None ==> exists|p: int, q: int, m: int|
        #![trigger sits_on(d, p, f.via.last()), joins(d, q, m)]
        sits_on(d, p, f.via.last()) && d.pins@[p].net is None && sits_on(d, q, f.via.last())
            && joins(d, q, m) && d.leads_to(rules, rails, f.via.drop_last(), m)
}

/// The branches met are listed, as far as so many are asked for, each once and told
/// rightly.
spec fn dead_kept(d: &Design, rules: WalkRules, rails: Seq<RailReading>, w: Walk) -> bool {
    &&& forall|s: Seq<char>| #[trigger]
        w.ends.contains(s) ==> w.dead.len() >= rules.max_endpoints || listed_dead(d, w.dead, s)
    &&& forall|i: int| 0 <= i < w.dead.len() ==> w.ends.contains(dead_name(d, #[trigger] w.dead[i]))
    &&& forall|i: int, j: int|
        0 <= i < j < w.dead.len() ==> dead_name(d, #[trigger] w.dead[i]) != dead_name(
            d,
            #[trigger] w.dead[j],
        )
    &&& forall|i: int| 0 <= i < w.dead.len() ==> dead_told(d, rules, rails, #[trigger] w.dead[i])
}

proof fn lemma_fizzled(
    d: &Design,
    rules: WalkRules,
    rails: Seq<RailReading>,
    w: Walk,
    name: Seq<char>,
    f: Fizzle,
)
    requires
        dead_kept(d, rules, rails, w),
        dead_name(d, f) == name,
        dead_told(d, rules, rails, f),
    ensures
        ({
            let after = Design::fizzled(w, name, f, rules);
            &&& dead_kept(d, rules, rails, after)
            &&& w.ends.subset_of(after.ends)
            &&& after.ends.contains(name)
            &&& after.comps == w.comps
            &&& after.queue == w.queue
        }),
{
    let after = Design::fizzled(w, name, f, rules);
    if !w.ends.contains(name) {
        assert forall|s: Seq<char>| #[trigger] after.ends.contains(s) implies after.dead.len()
            >= rules.max_endpoints || listed_dead(d, after.dead, s) by {
            if w.dead.len() < rules.max_endpoints {
                if s == name {
                    assert(dead_name(d, after.dead[w.dead.len() as int]) == s);
                } else {
                    assert(w.ends.contains(s));
                    let i = choose|i: int|
                        0 <= i < w.dead.len() && dead_name(d, #[trigger] w.dead[i]) == s;
                    assert(dead_name(d, after.dead[i]) == s);
                }
            }
        }
        assert forall|i: int| 0 <= i < after.dead.len() implies after.ends.contains(
            dead_name(d, #[trigger] after.dead[i]),
        ) && dead_told(d, rules, rails, after.dead[i]) by {
            if i < w.dead.len() {
                assert(after.dead[i] == w.dead[i]);
            }
        }
        assert forall|i: int, j: int| 0 <= i < j < after.dead.len() implies dead_name(
            d,
            #[trigger] after.dead[i],
        ) != dead_name(d, #[trigger] after.dead[j]) by {
            assert(after.dead[i] == w.dead[i]);
            if j < w.dead.len() {
                assert(after.dead[j] == w.dead[j]);
            }
        }
    }
}

/// The part may be gone through from the net.
pub open spec fn may_pass(rules: WalkRules, c: int, m: int) -> bool {
    !(m == rules.start_net && rules.start_comp == Some(c as usize))
}

/// The passive was gone through from its pin `p`, and what it came to on the other side
/// was met if it was nothing.
spec fn fate_met(d: &Design, w: Walk, here: Set<int>, c: int, p: int) -> bool {
    &&& sits_on(d, p, c)
    &&& d.net_of(p) matches Some(m) && here.contains(m)
    &&& forall|q: int| #[trigger]
        sits_on(d, q, c) && q != p ==> match d.net_of(q) {
            None => w.ends.contains("nc:"@ + d.components@[c].refdes@),
            Some(n) => n != d.net_of(p).unwrap() && d.net_pins(n).len() == 1 ==> w.ends.contains(
                d.nets@[n].name@,
            ),
        }
}

spec fn fates_met(d: &Design, w: Walk, here: Set<int>) -> bool {
    forall|c: int| #[trigger]
        w.comps.contains(c) ==> 0 <= c < d.components.len() && d.passes(c) && exists|p: int|
            #[trigger]
            fate_met(d, w, here, c, p)
}

/// The walk goes on from the net.
spec fn entered(d: &Design, rules: WalkRules, rails: Seq<RailReading>, n: int) -> bool {
    !Design::stops_at(rules, rails, n) && !d.too_large(rules, n)
}

/// The passives on nets that were entered were gone through, and the nets that no part
/// ends were met as such.
spec fn nets_met(d: &Design, rules: WalkRules, rails: Seq<RailReading>, w: Walk) -> bool {
    &&& forall|m: int, i: int|
        #![trigger w.nets.contains(m), d.net_pins(m)[i]]
        w.nets.contains(m) && entered(d, rules, rails, m) && 0 <= i < d.net_pins(m).len()
            && d.passes(d.owner(d.net_pins(m)[i])) && may_pass(
            rules,
            d.owner(d.net_pins(m)[i]),
            m,
        ) ==> w.comps.contains(d.owner(d.net_pins(m)[i]))
    &&& forall|m: int| #[trigger]
        w.nets.contains(m) && entered(d, rules, rails, m) && m != rules.start_net
            && !d.has_endpoint(m) ==> w.ends.contains(d.nets@[m].name@)
}

spec fn deaths_kept(d: &Design, rules: WalkRules, rails: Seq<RailReading>, w: Walk) -> bool {
    &&& dead_kept(d, rules, rails, w)
    &&& fates_met(d, w, w.nets)
    &&& nets_met(d, rules, rails, w)
}

proof fn lemma_fates_stay(d: &Design, w: Walk, after: Walk, here: Set<int>, more: Set<int>, c: int)
    requires
        fates_met(d, w, here),
        here.subset_of(more),
        w.ends.subset_of(after.ends),
        w.comps.contains(c),
    ensures
        0 <= c < d.components.len() && d.passes(c) && exists|p: int| #[trigger]
            fate_met(d, after, more, c, p),
{
    let p = choose|p: int| #[trigger] fate_met(d, w, here, c, p);
    assert(fate_met(d, after, more, c, p));
}

proof fn lemma_looking_at_deaths(
    d: &Design,
    rules: WalkRules,
    rails: Seq<RailReading>,
    w: Walk,
    v: Visit,
    p: int,
    here: Set<int>,
)
    requires
        d.wf(),
        0 <= p < d.pins.len(),
        d.net_of(p) == Some(v.net),
        0 <= v.net < d.nets.len(),
        here.contains(v.net),
        d.leads_to(rules, rails, v.via, v.net),
        v.via.len() == v.depth,
        v.depth <= rules.max_depth,
        v.via.len() == 0 <==> v.net == rules.start_net,
        dead_kept(d, rules, rails, w),
        fates_met(d, w, here),
    ensures
        ({
            let after = d.looked_at(rules, w, v, p);
            &&& dead_kept(d, rules, rails, after)
            &&& fates_met(d, after, here)
            &&& w.ends.subset_of(after.ends)
            &&& w.comps.subset_of(after.comps)
            &&& d.passes(d.owner(p)) && may_pass(rules, d.owner(p), v.net) ==> after.comps.contains(
                d.owner(p),
            )
        }),
{
    let c = d.owner(p);
    let after = d.looked_at(rules, w, v, p);
    assert(d.pins@[p].comp.0 < d.components.len());
    if v.via.len() == 0 && rules.start_comp == Some(c as usize) {
    } else if w.comps.contains(c) {
    } else if d.passes(c) {
        lemma_two_pins(d, p);
        let q = d.other_pin(c, p).unwrap();
        let met = Walk { comps: w.comps.insert(c), ..w };
        let via = v.via.push(c);
        assert(via.last() == c && via.drop_last() =~= v.via);
        assert(sits_on(d, p, c) && sits_on(d, q, c));
        lemma_comp_pins(d, c);
        assert forall|r: int| #[trigger] sits_on(d, r, c) implies r == p || r == q by {
            assert(d.comp_pins(c).contains(r));
        }
        assert(dead_kept(d, rules, rails, met));
        assert(joins(d, p, v.net));
        match d.net_of(q) {
            None => {
                let f = Fizzle {
                    net: None,
                    dangling: true,
                    via,
                    parts: Seq::empty(),
                    probe: false,
                };
                assert(dead_told(d, rules, rails, f)) by {
                    assert(sits_on(d, q, f.via.last()) && joins(d, p, v.net));
                    assert(d.leads_to(rules, rails, f.via.drop_last(), v.net));
                }
                lemma_fizzled(d, rules, rails, met, "nc:"@ + d.components@[c].refdes@, f);
            },
            Some(n) => {
                if n != v.net && d.net_pins(n).len() == 1 {
                    let f = Fizzle {
                        net: Some(n),
                        dangling: true,
                        via,
                        parts: Seq::empty(),
                        probe: false,
                    };
                    lemma_fizzled(d, rules, rails, met, d.nets@[n].name@, f);
                }
            },
        }
        assert(after == d.passed(rules, met, v, c, q));
        assert(fate_met(d, after, here, c, p));
        assert forall|b: int| #[trigger] after.comps.contains(b) implies 0 <= b < d.components.len()
            && d.passes(b) && exists|r: int| #[trigger] fate_met(d, after, here, b, r) by {
            if b != c {
                lemma_fates_stay(d, w, after, here, here, b);
            }
        }
        assert(dead_kept(d, rules, rails, after));
    } else {
        assert(after.dead == w.dead && after.ends == w.ends && after.comps == w.comps);
        assert forall|b: int| #[trigger] after.comps.contains(b) implies 0 <= b < d.components.len()
            && d.passes(b) && exists|r: int| #[trigger] fate_met(d, after, here, b, r) by {
            lemma_fates_stay(d, w, after, here, here, b);
        }
    }
}

proof fn lemma_looking_through_deaths(
    d: &Design,
    rules: WalkRules,
    rails: Seq<RailReading>,
    w: Walk,
    v: Visit,
    k: int,
    here: Set<int>,
)
    requires
        d.wf(),
        0 <= v.net < d.nets.len(),
        0 <= k <= d.net_pins(v.net).len(),
        here.contains(v.net),
        d.leads_to(rules, rails, v.via, v.net),
        v.via.len() == v.depth,
        v.depth <= rules.max_depth,
        v.via.len() == 0 <==> v.net == rules.start_net,
        dead_kept(d, rules, rails, w),
        fates_met(d, w, here),
    ensures
        ({
            let after = d.looked_through(rules, w, v, k);
            &&& dead_kept(d, rules, rails, after)
            &&& fates_met(d, after, here)
            &&& w.ends.subset_of(after.ends)
            &&& w.comps.subset_of(after.comps)
            &&& forall|i: int|
                0 <= i < k && d.passes(d.owner(#[trigger] d.net_pins(v.net)[i])) && may_pass(
                    rules,
                    d.owner(d.net_pins(v.net)[i]),
                    v.net,
                ) ==> after.comps.contains(d.owner(d.net_pins(v.net)[i]))
        }),
    decreases k,
{
    if k > 0 {
        lemma_looking_through_deaths(d, rules, rails, w, v, k - 1, here);
        lemma_net_pin(d, v.net, k - 1);
        let u = d.looked_through(rules, w, v, k - 1);
        lemma_looking_at_deaths(d, rules, rails, u, v, d.net_pins(v.net)[k - 1], here);
    }
}

/// The parts on a net on which no net ends, each once.
proof fn lemma_inert_parts(d: &Design, n: int, k: int)
    requires
        0 <= k <= d.net_pins(n).len(),
    ensures
        d.inert_parts(n, k).no_duplicates(),
        forall|c: int| #[trigger]
            d.inert_parts(n, k).contains(c) <==> !d.ends_on(c) && exists|i: int|
                0 <= i < k && d.owner(#[trigger] d.net_pins(n)[i]) == c,
    decreases k,
{
    if k > 0 {
        lemma_inert_parts(d, n, k - 1);
        let front = d.inert_parts(n, k - 1);
        let all = d.inert_parts(n, k);
        let b = d.owner(d.net_pins(n)[k - 1]);
        assert forall|c: int| #[trigger] all.contains(c) <==> front.contains(c) || (c == b
            && !d.ends_on(b)) by {
            if front.contains(c) {
                let i = choose|i: int| 0 <= i < front.len() && front[i] == c;
                assert(all[i] == c);
            }
            if c == b && !d.ends_on(b) && !front.contains(b) {
                assert(all[all.len() - 1] == c);
            }
            if all.contains(c) {
                let i = choose|i: int| 0 <= i < all.len() && all[i] == c;
                if i < front.len() {
                    assert(front[i] == c);
                }
            }
        }
        assert forall|c: int| #[trigger] all.contains(c) <==> !d.ends_on(c) && exists|i: int|
            0 <= i < k && d.owner(#[trigger] d.net_pins(n)[i]) == c by {
            if exists|i: int| 0 <= i < k && d.owner(#[trigger] d.net_pins(n)[i]) == c {
                let i = choose|i: int| 0 <= i < k && d.owner(#[trigger] d.net_pins(n)[i]) == c;
                if i == k - 1 {
                    assert(c == b);
                }
            }
            if front.contains(c) {
                let i = choose|i: int| 0 <= i < k - 1 && d.owner(#[trigger] d.net_pins(n)[i]) == c;
                assert(d.owner(d.net_pins(n)[i]) == c);
            }
        }
        assert forall|i: int, j: int| 0 <= i < all.len() && 0 <= j < all.len() && i
            != j implies all[i] != all[j] by {
            if i < front.len() {
                assert(front.contains(front[i]));
            }
            if j < front.len() {
                assert(front.contains(front[j]));
            }
        }
    }
}

proof fn lemma_noted_told(
    d: &Design,
    rules: WalkRules,
    rails: Seq<RailReading>,
    w: Walk,
    v: Visit,
)
    requires
        d.wf(),
        0 <= v.net < d.nets.len(),
        v.via.len() <= rules.max_depth,
        dead_kept(d, rules, rails, w),
    ensures
        ({
            let after = d.noted(rules, w, v);
            &&& dead_kept(d, rules, rails, after)
            &&& w.ends.subset_of(after.ends)
            &&& after.comps == w.comps
            &&& !d.has_endpoint(v.net) ==> after.ends.contains(d.nets@[v.net].name@)
        }),
{
    if !d.has_endpoint(v.net) {
        let n = v.net;
        let ids = d.net_pins(n);
        let f = Fizzle {
            net: Some(n),
            dangling: false,
            via: v.via,
            parts: d.inert_parts(n, ids.len() as int),
            probe: d.has_probe(n),
        };
        lemma_inert_parts(d, n, ids.len() as int);
        lemma_net_pins(d, n);
        assert forall|c: int| #[trigger] f.parts.contains(c) <==> exists|p: int| #[trigger]
            joins(d, p, n) && sits_on(d, p, c) by {
            if f.parts.contains(c) {
                let i = choose|i: int| 0 <= i < ids.len() && d.owner(#[trigger] ids[i]) == c;
                assert(joins(d, ids[i], n) && sits_on(d, ids[i], c));
            }
            if exists|p: int| #[trigger] joins(d, p, n) && sits_on(d, p, c) {
                let p = choose|p: int| #[trigger] joins(d, p, n) && sits_on(d, p, c);
                assert(ids.contains(p));
                let i = choose|i: int| 0 <= i < ids.len() && ids[i] == p;
                assert(d.owner(ids[i]) == c);
                assert(!d.ends_on(c));
            }
        }
        assert(f.probe <==> exists|p: int| #[trigger]
            joins(d, p, n) && only_touches(d, d.owner(p))) by {
            if f.probe {
                let i = choose|i: int|
                    0 <= i < ids.len() && is_probe_class(d.class(d.owner(#[trigger] ids[i])));
                assert(joins(d, ids[i], n));
                lemma_part_kinds(d, d.owner(ids[i]));
            }
            if exists|p: int| #[trigger] joins(d, p, n) && only_touches(d, d.owner(p)) {
                let p = choose|p: int| #[trigger] joins(d, p, n) && only_touches(d, d.owner(p));
                assert(d.pins@[p].comp.0 < d.components.len());
                lemma_part_kinds(d, d.owner(p));
                let i = choose|i: int| 0 <= i < ids.len() && ids[i] == p;
                assert(is_probe_class(d.class(d.owner(ids[i]))));
            }
        }
        assert(f.net.unwrap() == n);
        assert(dead_told(d, rules, rails, f));
        lemma_fizzled(d, rules, rails, w, d.nets@[n].name@, f);
    }
}

proof fn lemma_step_keeps_deaths(d: &Design, rules: WalkRules, rails: Seq<RailReading>, w: Walk)
    requires
        d.wf(),
        under_way(d, rules, rails, w),
        w.queue.len() > 0,
        deaths_kept(d, rules, rails, w),
    ensures
        deaths_kept(d, rules, rails, stepped(d, rules, rails, w)),
{
    let v = w.queue[0];
    let rest = Walk { queue: w.queue.skip(1), ..w };
    let after = stepped(d, rules, rails, w);
    assert(dead_kept(d, rules, rails, rest));
    if w.nets.contains(v.net) {
        assert forall|c: int| #[trigger] rest.comps.contains(c) implies 0 <= c < d.components.len()
            && d.passes(c) && exists|p: int| #[trigger] fate_met(d, rest, rest.nets, c, p) by {
            lemma_fates_stay(d, w, rest, w.nets, rest.nets, c);
        }
        assert(nets_met(d, rules, rails, rest));
    } else {
        let here = w.nets.insert(v.net);
        lemma_visit_starts(d, rules, rails, w);
        assert forall|c: int| #[trigger] rest.comps.contains(c) implies 0 <= c < d.components.len()
            && d.passes(c) && exists|p: int| #[trigger] fate_met(d, rest, here, c, p) by {
            lemma_fates_stay(d, w, rest, w.nets, here, c);
        }
        if entered(d, rules, rails, v.net) {
            let inside = if v.net == rules.start_net {
                rest
            } else {
                d.noted(rules, rest, v)
            };
            lemma_noted_told(d, rules, rails, rest, v);
            assert forall|c: int| #[trigger] inside.comps.contains(c) implies 0 <= c
                < d.components.len() && d.passes(c) && exists|p: int| #[trigger]
                fate_met(d, inside, here, c, p) by {
                lemma_fates_stay(d, rest, inside, here, here, c);
            }
            let k = d.net_pins(v.net).len() as int;
            lemma_looking_through_deaths(d, rules, rails, inside, v, k, here);
            lemma_looking_stops_nowhere(d, rules, inside, v, k);
        }
        let seen = d.visited(rules, rails, rest, v);
        if !entered(d, rules, rails, v.net) {
            assert forall|c: int| #[trigger] seen.comps.contains(c) implies 0 <= c
                < d.components.len() && d.passes(c) && exists|p: int| #[trigger]
                fate_met(d, seen, here, c, p) by {
                lemma_fates_stay(d, rest, seen, here, here, c);
            }
        }
        assert(w.ends.subset_of(seen.ends) && w.comps.subset_of(seen.comps));
        assert forall|c: int| #[trigger] after.comps.contains(c) implies 0 <= c < d.components.len()
            && d.passes(c) && exists|p: int| #[trigger] fate_met(d, after, after.nets, c, p) by {
            assert(fates_met(d, seen, here));
            assert(after.nets == here);
            lemma_fates_stay(d, seen, after, here, after.nets, c);
        }
        assert forall|m: int, i: int|
            #![trigger after.nets.contains(m), d.net_pins(m)[i]]
            after.nets.contains(m) && entered(d, rules, rails, m) && 0 <= i < d.net_pins(m).len()
                && d.passes(d.owner(d.net_pins(m)[i])) && may_pass(
                rules,
                d.owner(d.net_pins(m)[i]),
                m,
            ) implies after.comps.contains(d.owner(d.net_pins(m)[i])) by {
            if m != v.net {
                assert(w.nets.contains(m));
                assert(w.comps.contains(d.owner(d.net_pins(m)[i])));
            }
        }
        assert forall|m: int| #[trigger]
            after.nets.contains(m) && entered(d, rules, rails, m) && m != rules.start_net
                && !d.has_endpoint(m) implies after.ends.contains(d.nets@[m].name@) by {
            if m != v.net {
                assert(w.nets.contains(m));
                assert(w.ends.contains(d.nets@[m].name@));
            }
        }
        assert(dead_kept(d, rules, rails, after));
    }
}

proof fn lemma_deaths(d: &Design, rules: WalkRules, rails: Seq<RailReading>)
    requires
        d.wf(),
        rules.start_net < d.nets.len(),
        rails.len() == d.nets.len(),
    ensures
        deaths_kept(d, rules, rails, d.whole_walk(rules, rails)),
{
    let start = Design::setting_out(rules);
    let inv = |u: Walk| deaths_kept(d, rules, rails, u);
    assert(d.leads_to(rules, rails, start.queue[0].via, start.queue[0].net));
    assert(d.sound(rules, rails, start));
    assert(inv(start));
    assert forall|u: Walk| #[trigger] inv(u) && under_way(d, rules, rails, u) && u.queue.len()
        > 0 implies inv(stepped(d, rules, rails, u)) by {
        lemma_step_keeps_deaths(d, rules, rails, u);
    }
    lemma_walk_keeps(d, rules, rails, start, inv);
}

/// The walk goes on from the net: it is the start net, or no rail to stop at and has at
/// most forty pins.
pub open spec fn goes_on(d: &Design, rules: WalkRules, rails: Seq<RailReading>, n: int) -> bool {
    n == rules.start_net || (!(rules.stop_at_power && rails[n].rail) && d.net_pins(n).len() <= 40)
}

/// A walk lists every net within the depth asked for that it goes on from and on which
/// nothing can end, by name, unless as many dead ends as were asked for are listed; each
/// listed one is told rightly, and no name is listed twice.
pub proof fn lemma_walk_lists_passive_nets(
    d: &Design,
    rules: WalkRules,
    rails: Seq<RailReading>,
)
    requires
        d.wf(),
        rules.start_net < d.nets.len(),
        rails.len() == d.nets.len(),
    ensures
        ({
            let w = d.whole_walk(rules, rails);
            &&& forall|n: int| #[trigger]
                within(d, rules, rails, n) && n != rules.start_net && goes_on(d, rules, rails, n)
                    && !d.has_endpoint(n) ==> w.dead.len() >= rules.max_endpoints || listed_dead(
                    d,
                    w.dead,
                    d.nets@[n].name@,
                )
            &&& forall|i: int|
                0 <= i < w.dead.len() ==> dead_told(d, rules, rails, #[trigger] w.dead[i])
            &&& forall|i: int, j: int|
                0 <= i < j < w.dead.len() ==> dead_name(d, #[trigger] w.dead[i]) != dead_name(
                    d,
                    #[trigger] w.dead[j],
                )
        }),
{
    lemma_deaths(d, rules, rails);
    lemma_walk_stops(d, rules, rails);
    let w = d.whole_walk(rules, rails);
    assert forall|n: int| #[trigger]
        within(d, rules, rails, n) && n != rules.start_net && goes_on(d, rules, rails, n)
            && !d.has_endpoint(n) implies w.dead.len() >= rules.max_endpoints || listed_dead(
        d,
        w.dead,
        d.nets@[n].name@,
    ) by {
        assert(w.nets.contains(n));
        assert(entered(d, rules, rails, n));
        assert(w.ends.contains(d.nets@[n].name@));
    }
}

/// A walk lists every branch that dangles: where a two-pin passive on a net within the
/// depth asked for, that the walk goes on from, has its other pin on no net, or alone on
/// a net that is not the start net, the branch is listed, by the part or by the net,
/// unless as many dead ends as were asked for are.
pub proof fn lemma_walk_lists_dangling_branches(
    d: &Design,
    rules: WalkRules,
    rails: Seq<RailReading>,
    m: int,
    p: int,
    q: int,
)
    requires
        d.wf(),
        rules.start_net < d.nets.len(),
        rails.len() == d.nets.len(),
        within(d, rules, rails, m),
        goes_on(d, rules, rails, m),
        joins(d, p, m),
        sits_on(d, q, d.owner(p)),
        q != p,
        d.passes(d.owner(p)),
        may_pass(rules, d.owner(p), m),
    ensures
        ({
            let w = d.whole_walk(rules, rails);
            let c = d.owner(p);
            w.dead.len() >= rules.max_endpoints || match d.net_of(q) {
                None => listed_dead(d, w.dead, "nc:"@ + d.components@[c].refdes@),
                Some(n) => n != m && n != rules.start_net && d.net_pins(n).len() == 1
                    ==> listed_dead(d, w.dead, d.nets@[n].name@),
            }
        }),
{
    lemma_deaths(d, rules, rails);
    lemma_walk_stops(d, rules, rails);
    let w = d.whole_walk(rules, rails);
    let c = d.owner(p);
    assert(w.nets.contains(m));
    assert(entered(d, rules, rails, m));
    lemma_net_pins(d, m);
    assert(d.net_pins(m).contains(p));
    let i = choose|i: int| 0 <= i < d.net_pins(m).len() && d.net_pins(m)[i] == p;
    assert(w.comps.contains(d.owner(d.net_pins(m)[i])));
    let r = choose|r: int| #[trigger] fate_met(d, w, w.nets, c, r);
    lemma_two_pins(d, p);
    lemma_comp_pins(d, c);
    assert(d.comp_pins(c).contains(r) && d.comp_pins(c).contains(q));
    assert(r == p || r == q);
    if r == q {
        assert(d.net_of(q) is Some);
        let n = d.net_of(q).unwrap();
        assert(w.nets.contains(n));
        assert(within(d, rules, rails, n));
    } else {
        assert(sits_on(d, q, c) && q != r);
    }
}

/// A pin of the name is listed.
pub open spec fn listed_pin(d: &Design, s: Seq<Reached>, label: Seq<char>) -> bool {
    exists|i: int| 0 <= i < s.len() && d.label((#[trigger] s[i]).pin) == label
}

/// Something is left out: as many pins as were asked for are listed and another is not,
/// or a chain one part longer than the depth asked for leads to a net with other than one
/// pin.
pub open spec fn left_out(d: &Design, rules: WalkRules, rails: Seq<RailReading>, w: Walk) -> bool {
    ||| w.endpoints.len() >= rules.max_endpoints && exists|r: Reached| #[trigger]
        d.reached_sound(rules, rails, r) && !listed_pin(d, w.endpoints, d.label(r.pin))
    ||| exists|chain: Seq<int>, n: int| #[trigger]
        d.leads_to(rules, rails, chain, n) && chain.len() == rules.max_depth + 1 && d.net_pins(
            n,
        ).len() != 1
}

spec fn cut_rightly(d: &Design, rules: WalkRules, rails: Seq<RailReading>, w: Walk) -> bool {
    w.truncated ==> left_out(d, rules, rails, w)
}

proof fn lemma_looking_at_cut(
    d: &Design,
    rules: WalkRules,
    rails: Seq<RailReading>,
    w: Walk,
    v: Visit,
    p: int,
)
    requires
        d.wf(),
        d.sound(rules, rails, w),
        d.visit_sound(rules, rails, v),
        d.enters(rules, rails, v.net),
        v.via.len() == 0 <==> v.net == rules.start_net,
        0 <= p < d.pins.len(),
        d.net_of(p) == Some(v.net),
        cut_rightly(d, rules, rails, w),
    ensures
        cut_rightly(d, rules, rails, d.looked_at(rules, w, v, p)),
{
    let c = d.owner(p);
    let after = d.looked_at(rules, w, v, p);
    if v.via.len() == 0 && rules.start_comp == Some(c as usize) {
    } else if w.comps.contains(c) {
    } else if d.passes(c) {
        lemma_two_pins(d, p);
        let q = d.other_pin(c, p).unwrap();
        assert(after.endpoints == w.endpoints);
        if after.truncated && !w.truncated {
            let n = d.net_of(q).unwrap();
            let chain = v.via.push(c);
            assert(chain.drop_last() =~= v.via && chain.last() == c);
            assert(d.bridges(chain.last(), v.net, n));
            assert(d.leads_to(rules, rails, chain.drop_last(), v.net));
            assert(d.leads_to(rules, rails, chain, n));
        }
    } else if rules.start_comp == Some(c as usize) || w.labels.contains(d.label(p)) {
    } else if w.endpoints.len() >= rules.max_endpoints {
        let r = Reached { pin: p, via: v.via, depth: v.depth };
        assert(d.reached_sound(rules, rails, r));
        assert(!listed_pin(d, after.endpoints, d.label(r.pin)));
    } else {
        if w.truncated {
            assert(w.endpoints.len() < rules.max_endpoints);
        }
    }
}

proof fn lemma_looking_through_cut(
    d: &Design,
    rules: WalkRules,
    rails: Seq<RailReading>,
    w: Walk,
    v: Visit,
    k: int,
)
    requires
        d.wf(),
        d.sound(rules, rails, w),
        d.visit_sound(rules, rails, v),
        d.enters(rules, rails, v.net),
        v.via.len() == 0 <==> v.net == rules.start_net,
        0 <= k <= d.net_pins(v.net).len(),
        cut_rightly(d, rules, rails, w),
    ensures
        cut_rightly(d, rules, rails, d.looked_through(rules, w, v, k)),
    decreases k,
{
    if k > 0 {
        lemma_looking_through_cut(d, rules, rails, w, v, k - 1);
        lemma_looked_through_sound(d, rules, rails, w, v, k - 1);
        lemma_net_pin(d, v.net, k - 1);
        let u = d.looked_through(rules, w, v, k - 1);
        lemma_looking_at_cut(d, rules, rails, u, v, d.net_pins(v.net)[k - 1]);
    }
}

/// A walk that says it was cut short has left something out.
pub proof fn lemma_cut_short_leaves_out(d: &Design, rules: WalkRules, rails: Seq<RailReading>)
    requires
        d.wf(),
        rules.start_net < d.nets.len(),
        rails.len() == d.nets.len(),
    ensures
        d.whole_walk(rules, rails).truncated ==> left_out(
            d,
            rules,
            rails,
            d.whole_walk(rules, rails),
        ),
{
    let start = Design::setting_out(rules);
    let inv = |u: Walk| cut_rightly(d, rules, rails, u);
    assert(d.leads_to(rules, rails, start.queue[0].via, start.queue[0].net));
    assert(d.sound(rules, rails, start));
    assert(inv(start));
    assert forall|u: Walk| #[trigger] inv(u) && under_way(d, rules, rails, u) && u.queue.len()
        > 0 implies inv(stepped(d, rules, rails, u)) by {
        let v = u.queue[0];
        let rest = Walk { queue: u.queue.skip(1), ..u };
        if !u.nets.contains(v.net) && entered(d, rules, rails, v.net) {
            lemma_visit_starts(d, rules, rails, u);
            let inside = if v.net == rules.start_net {
                rest
            } else {
                d.noted(rules, rest, v)
            };
            assert(inside.truncated == u.truncated && inside.endpoints == u.endpoints);
            assert(cut_rightly(d, rules, rails, inside));
            lemma_entered_sound(d, rules, rails, rest, v);
            lemma_looking_through_cut(
                d,
                rules,
                rails,
                inside,
                v,
                d.net_pins(v.net).len() as int,
            );
            assert(stepped(d, rules, rails, u).endpoints == d.looked_through(
                rules,
                inside,
                v,
                d.net_pins(v.net).len() as int,
            ).endpoints);
        }
    }
    lemma_walk_keeps(d, rules, rails, start, inv);
}

proof fn lemma_entered_sound(
    d: &Design,
    rules: WalkRules,
    rails: Seq<RailReading>,
    w: Walk,
    v: Visit,
)
    requires
        d.sound(rules, rails, w),
        d.visit_sound(rules, rails, v),
        v.via.len() == 0 <==> v.net == rules.start_net,
    ensures
        d.sound(rules, rails, d.noted(rules, w, v)) || v.net == rules.start_net,
{
}

/// The queue goes by depth and spans two depths at most, and nothing stopped at is
/// further than what is queued; what was stopped at first is nearest.
spec fn nearest_first(w: Walk) -> bool {
    &&& forall|i: int, j: int|
        0 <= i < j < w.queue.len() ==> (#[trigger] w.queue[i]).depth <= (
        #[trigger] w.queue[j]).depth
    &&& forall|i: int|
        0 <= i < w.queue.len() ==> (#[trigger] w.queue[i]).depth <= w.queue[0].depth + 1
    &&& by_distance(w.rails)
    &&& by_distance(w.large)
    &&& forall|i: int, k: int|
        0 <= i < w.rails.len() && 0 <= k < w.queue.len() ==> (#[trigger] w.rails[i]).via.len() <= (
        #[trigger] w.queue[k]).depth
    &&& forall|i: int, k: int|
        0 <= i < w.large.len() && 0 <= k < w.queue.len() ==> (#[trigger] w.large[i]).via.len() <= (
        #[trigger] w.queue[k]).depth
}

/// What was stopped at first is nearest.
pub open spec fn by_distance(s: Seq<Stop>) -> bool {
    forall|i: int, j: int|
        0 <= i < j < s.len() ==> (#[trigger] s[i]).via.len() <= (#[trigger] s[j]).via.len()
}

/// Looking at pins adds to the queue nets that are one part further.
proof fn lemma_looking_queues(d: &Design, rules: WalkRules, w: Walk, v: Visit, k: int)
    ensures
        ({
            let after = d.looked_through(rules, w, v, k);
            &&& w.queue.len() <= after.queue.len()
            &&& forall|i: int| 0 <= i < w.queue.len() ==> #[trigger] after.queue[i] == w.queue[i]
            &&& forall|i: int|
                w.queue.len() <= i < after.queue.len() ==> (#[trigger] after.queue[i]).depth
                    == v.depth + 1
        }),
    decreases k,
{
    if k > 0 {
        lemma_looking_queues(d, rules, w, v, k - 1);
    }
}

/// A walk lists rails and large nets with the nearest first.
pub proof fn lemma_stops_by_distance(d: &Design, rules: WalkRules, rails: Seq<RailReading>)
    requires
        d.wf(),
        rules.start_net < d.nets.len(),
        rails.len() == d.nets.len(),
    ensures
        by_distance(d.whole_walk(rules, rails).rails),
        by_distance(d.whole_walk(rules, rails).large),
{
    let start = Design::setting_out(rules);
    let inv = |u: Walk| nearest_first(u);
    assert(d.leads_to(rules, rails, start.queue[0].via, start.queue[0].net));
    assert(d.sound(rules, rails, start));
    assert(inv(start));
    assert forall|u: Walk| #[trigger] inv(u) && under_way(d, rules, rails, u) && u.queue.len()
        > 0 implies inv(stepped(d, rules, rails, u)) by {
        lemma_step_nearest_first(d, rules, rails, u);
    }
    lemma_walk_keeps(d, rules, rails, start, inv);
}

proof fn lemma_step_nearest_first(d: &Design, rules: WalkRules, rails: Seq<RailReading>, w: Walk)
    requires
        under_way(d, rules, rails, w),
        w.queue.len() > 0,
        nearest_first(w),
    ensures
        nearest_first(stepped(d, rules, rails, w)),
{
    let v = w.queue[0];
    let rest = Walk { queue: w.queue.skip(1), ..w };
    let after = stepped(d, rules, rails, w);
    assert(d.visit_sound(rules, rails, v));
    assert forall|i: int| 0 <= i < rest.queue.len() implies #[trigger] rest.queue[i] == w.queue[i
        + 1] by {}
    if !w.nets.contains(v.net) {
        let inside = if v.net == rules.start_net {
            rest
        } else {
            d.noted(rules, rest, v)
        };
        let k = d.net_pins(v.net).len() as int;
        lemma_looking_queues(d, rules, inside, v, k);
        lemma_looking_stops_nowhere(d, rules, inside, v, k);
        assert(rest.queue.len() <= after.queue.len());
        assert forall|i: int| 0 <= i < after.queue.len() implies {
            &&& v.depth <= (#[trigger] after.queue[i]).depth <= v.depth + 1
            &&& i >= rest.queue.len() ==> after.queue[i].depth == v.depth + 1
            &&& i < rest.queue.len() ==> after.queue[i] == w.queue[i + 1]
        } by {
            if i < rest.queue.len() {
                assert(after.queue[i] == rest.queue[i]);
            }
        }
        assert(after.rails == w.rails || after.rails == w.rails.push(
            Stop { net: v.net, via: v.via },
        ));
        assert(after.large == w.large || after.large == w.large.push(
            Stop { net: v.net, via: v.via },
        ));
        assert forall|i: int| 0 <= i < after.rails.len() implies (
        #[trigger] after.rails[i]).via.len() <= v.depth by {
            if i < w.rails.len() {
                assert(after.rails[i] == w.rails[i]);
            }
        }
        assert forall|i: int| 0 <= i < after.large.len() implies (
        #[trigger] after.large[i]).via.len() <= v.depth by {
            if i < w.large.len() {
                assert(after.large[i] == w.large[i]);
            }
        }
        assert forall|i: int, j: int| 0 <= i < j < after.rails.len() implies (
        #[trigger] after.rails[i]).via.len() <= (#[trigger] after.rails[j]).via.len() by {
            assert(after.rails[i] == w.rails[i]);
            if j < w.rails.len() {
                assert(after.rails[j] == w.rails[j]);
            }
        }
        assert forall|i: int, j: int| 0 <= i < j < after.large.len() implies (
        #[trigger] after.large[i]).via.len() <= (#[trigger] after.large[j]).via.len() by {
            assert(after.large[i] == w.large[i]);
            if j < w.large.len() {
                assert(after.large[j] == w.large[j]);
            }
        }
    } else {
        assert(after == rest);
    }
}

} // verus!
