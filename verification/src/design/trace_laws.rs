//! What the answer to a walk says, in terms of parts and the nets that their pins join.
use vstd::prelude::*;

use super::classes::{class_of, is_connector_class, is_passive_class, kind_of, natural_key};
use super::error::Refusal;
use super::facts::{in_series, joins, lemma_class_letters, lemma_comp_pins, lemma_lettered};
use super::facts::{lemma_net_pins, lemma_part_kinds, lettered, only_touches, sits_on};
use super::rails::RailReading;
use super::trace::{Origin, WalkEnvelope};
use super::walk::{DeadEnd, Fizzle, LargeNet, RailReached, Reached, ViaPart, WalkEndpoint};
use super::walk::WalkRules;
use super::walk_distance::{lemma_walk_is_shortest, lemma_walk_reports_all_in_depth};
use super::walk_findings::{dead_name, dead_told, goes_on, lemma_cut_short_leaves_out};
use super::walk_findings::{lemma_stops_by_distance, lemma_walk_lists_dangling_branches};
use super::walk_findings::{lemma_walk_lists_passive_nets, lemma_walk_stops, listed_dead};
use super::walk_findings::{listed_pin, may_pass, stopped, within};
use super::walk_laws::{lemma_walk_is_complete, lemma_walk_is_sound};
use super::{lemma_last_named, Design};
use crate::parser::netlist::opt_text;
use crate::ranking::{in_order, key_order, lemma_ranked, mark_order, ranked, Key, Mark};
use crate::text::then_order;

verus! {

/// Where a walk starts, which part's pin it starts from if any, and whether it stops at
/// rails.
pub struct Setting {
    pub from: int,
    pub part: Option<int>,
    pub stop: bool,
}

/// The part joins two nets: it is a two-pin passive with one pin on each.
pub open spec fn hop(d: &Design, c: int, m: int, n: int) -> bool {
    &&& 0 <= c < d.components.len()
    &&& in_series(d, c)
    &&& m != n
    &&& exists|p: int, q: int|
        #![trigger joins(d, p, m), joins(d, q, n)]
        sits_on(d, p, c) && joins(d, p, m) && sits_on(d, q, c) && joins(d, q, n)
}

/// A walk goes on over the net: it is where the walk starts, or it is no rail to stop at
/// and has at most forty pins and not just the one.
pub open spec fn open_net(d: &Design, t: Setting, rails: Seq<RailReading>, n: int) -> bool {
    &&& 0 <= n < d.nets.len()
    &&& n == t.from || (!(t.stop && rails[n].rail) && d.nets@[n].pins.len() <= 40
        && d.nets@[n].pins.len() != 1)
}

/// The parts, one after the other, join the net where a walk starts to the net `n`, over
/// nets that the walk goes on over, and not starting with the part that it starts from.
pub open spec fn hops_to(
    d: &Design,
    t: Setting,
    rails: Seq<RailReading>,
    chain: Seq<int>,
    n: int,
) -> bool
    decreases chain.len(),
{
    if chain.len() == 0 {
        n == t.from
    } else {
        exists|m: int|
            {
                &&& #[trigger] hop(d, chain.last(), m, n)
                &&& open_net(d, t, rails, m)
                &&& !(m == t.from && t.part == Some(chain.last()))
                &&& hops_to(d, t, rails, chain.drop_last(), m)
            }
    }
}

/// No fewer than `k` parts lead to the net.
pub open spec fn no_nearer(
    d: &Design,
    t: Setting,
    rails: Seq<RailReading>,
    n: int,
    k: int,
) -> bool {
    forall|chain: Seq<int>| #[trigger] hops_to(d, t, rails, chain, n) ==> k <= chain.len()
}

/// At most `depth` parts lead to the net.
pub open spec fn in_reach(
    d: &Design,
    t: Setting,
    rails: Seq<RailReading>,
    depth: int,
    n: int,
) -> bool {
    &&& 0 <= n < d.nets.len()
    &&& exists|chain: Seq<int>| #[trigger]
        hops_to(d, t, rails, chain, n) && chain.len() <= depth
}

pub open spec fn setting_of(o: Origin, stop: bool) -> Setting {
    Setting { from: o.net, part: o.comp, stop }
}

/// The place that a walk starts at is in the design.
pub open spec fn in_design(d: &Design, o: Origin) -> bool {
    0 <= o.net < d.nets.len() && (o.comp matches Some(c) ==> 0 <= c < d.components.len())
}

/// A two-pin passive bridges two nets exactly when it has a pin on each.
pub proof fn lemma_bridges_is_hop(d: &Design, c: int, m: int, n: int)
    requires
        d.wf(),
    ensures
        d.bridges(c, m, n) <==> hop(d, c, m, n),
{
    if 0 <= c < d.components.len() {
        lemma_part_kinds(d, c);
        lemma_comp_pins(d, c);
        let ids = d.comp_pins(c);
        if d.bridges(c, m, n) {
            assert(ids.len() == 2);
            assert(sits_on(d, ids[0], c) && sits_on(d, ids[1], c));
            if d.net_of(ids[0]) == Some(m) && d.net_of(ids[1]) == Some(n) {
                assert(joins(d, ids[0], m) && joins(d, ids[1], n));
            } else {
                assert(joins(d, ids[1], m) && joins(d, ids[0], n));
            }
        }
        if hop(d, c, m, n) {
            let (p, q) = choose|p: int, q: int|
                #![trigger joins(d, p, m), joins(d, q, n)]
                sits_on(d, p, c) && joins(d, p, m) && sits_on(d, q, c) && joins(d, q, n);
            assert(ids.len() == 2);
            assert(ids.contains(p) && ids.contains(q));
            assert(p != q);
            assert(d.net_of(p) == Some(m) && d.net_of(q) == Some(n));
        }
    }
}

/// A chain leads to a net exactly when its parts join the nets on the way.
pub proof fn lemma_leads_is_hops(
    d: &Design,
    o: Origin,
    depth: u32,
    most: u32,
    stop: bool,
    rails: Seq<RailReading>,
    chain: Seq<int>,
    n: int,
)
    requires
        d.wf(),
        in_design(d, o),
    ensures
        d.leads_to(Design::origin_rules(o, depth, most, stop), rails, chain, n) <==> hops_to(
            d,
            setting_of(o, stop),
            rails,
            chain,
            n,
        ),
    decreases chain.len(),
{
    let rules = Design::origin_rules(o, depth, most, stop);
    let t = setting_of(o, stop);
    assert(rules.start_net == o.net);
    if chain.len() > 0 {
        let c = chain.last();
        assert forall|m: int| #[trigger] hop(d, c, m, n) <==> d.bridges(c, m, n) by {
            lemma_bridges_is_hop(d, c, m, n);
        }
        if d.leads_to(rules, rails, chain, n) {
            let m = choose|m: int|
                {
                    &&& #[trigger] d.bridges(c, m, n)
                    &&& 0 <= m < d.nets.len()
                    &&& d.enters(rules, rails, m)
                    &&& !(m == rules.start_net && rules.start_comp == Some(c as usize))
                    &&& d.leads_to(rules, rails, chain.drop_last(), m)
                };
            lemma_leads_is_hops(d, o, depth, most, stop, rails, chain.drop_last(), m);
            assert(hop(d, c, m, n));
            assert(open_net(d, t, rails, m));
        }
        if hops_to(d, t, rails, chain, n) {
            let m = choose|m: int|
                {
                    &&& #[trigger] hop(d, c, m, n)
                    &&& open_net(d, t, rails, m)
                    &&& !(m == t.from && t.part == Some(c))
                    &&& hops_to(d, t, rails, chain.drop_last(), m)
                };
            lemma_leads_is_hops(d, o, depth, most, stop, rails, chain.drop_last(), m);
            assert(d.bridges(c, m, n));
            assert(d.enters(rules, rails, m));
        }
    }
}

pub proof fn lemma_nearest_is_no_nearer(
    d: &Design,
    o: Origin,
    depth: u32,
    most: u32,
    stop: bool,
    rails: Seq<RailReading>,
    n: int,
    k: int,
)
    requires
        d.wf(),
        in_design(d, o),
        d.is_nearest(Design::origin_rules(o, depth, most, stop), rails, n, k),
    ensures
        no_nearer(d, setting_of(o, stop), rails, n, k),
{
    assert forall|chain: Seq<int>| #[trigger]
        hops_to(d, setting_of(o, stop), rails, chain, n) implies k <= chain.len() by {
        lemma_leads_is_hops(d, o, depth, most, stop, rails, chain, n);
    }
}

pub proof fn lemma_within_is_in_reach(
    d: &Design,
    o: Origin,
    depth: u32,
    most: u32,
    stop: bool,
    rails: Seq<RailReading>,
    n: int,
)
    requires
        d.wf(),
        in_design(d, o),
    ensures
        within(d, Design::origin_rules(o, depth, most, stop), rails, n) <==> in_reach(
            d,
            setting_of(o, stop),
            rails,
            depth as int,
            n,
        ) && (n == o.net || d.nets@[n].pins.len() != 1),
{
    let rules = Design::origin_rules(o, depth, most, stop);
    let t = setting_of(o, stop);
    if within(d, rules, rails, n) {
        let chain = choose|chain: Seq<int>| #[trigger]
            d.leads_to(rules, rails, chain, n) && chain.len() <= rules.max_depth;
        lemma_leads_is_hops(d, o, depth, most, stop, rails, chain, n);
        assert(hops_to(d, t, rails, chain, n));
    }
    if in_reach(d, t, rails, depth as int, n) {
        let chain = choose|chain: Seq<int>| #[trigger]
            hops_to(d, t, rails, chain, n) && chain.len() <= depth;
        lemma_leads_is_hops(d, o, depth, most, stop, rails, chain, n);
        assert(d.leads_to(rules, rails, chain, n));
    }
}

/// The entry tells of the part on the way.
pub open spec fn tells_part(d: &Design, v: ViaPart, c: int) -> bool {
    &&& 0 <= c < d.components.len()
    &&& v.refdes@ == d.components@[c].refdes@
    &&& v.value@ == d.components@[c].value@
    &&& v.dnp == d.components@[c].dnp
    &&& lettered(d.components@[c].refdes@, v.class@)
}

/// The entries tell of the parts on the way, one by one.
pub open spec fn tells_parts(d: &Design, v: Seq<ViaPart>, chain: Seq<int>) -> bool {
    v.len() == chain.len() && forall|i: int|
        0 <= i < v.len() ==> tells_part(d, #[trigger] v[i], chain[i])
}

pub proof fn lemma_tells_parts(d: &Design, v: Seq<ViaPart>, chain: Seq<int>)
    requires
        d.via_is(v, chain),
        forall|i: int| 0 <= i < chain.len() ==> 0 <= #[trigger] chain[i] < d.components.len(),
    ensures
        tells_parts(d, v, chain),
{
    assert forall|i: int| 0 <= i < v.len() implies tells_part(d, #[trigger] v[i], chain[i]) by {
        assert(d.via_part_is(v[i], chain[i]));
        lemma_lettered(d.components@[chain[i]].refdes@, v[i].class@);
    }
}

pub proof fn lemma_chain_in_design(
    d: &Design,
    rules: WalkRules,
    rails: Seq<RailReading>,
    chain: Seq<int>,
    n: int,
)
    requires
        d.leads_to(rules, rails, chain, n),
    ensures
        forall|i: int| 0 <= i < chain.len() ==> 0 <= #[trigger] chain[i] < d.components.len(),
    decreases chain.len(),
{
    if chain.len() > 0 {
        let front = chain.drop_last();
        let m = choose|m: int|
            {
                &&& #[trigger] d.bridges(chain.last(), m, n)
                &&& 0 <= m < d.nets.len()
                &&& d.enters(rules, rails, m)
                &&& !(m == rules.start_net && rules.start_comp == Some(chain.last() as usize))
                &&& d.leads_to(rules, rails, front, m)
            };
        lemma_chain_in_design(d, rules, rails, front, m);
        assert forall|i: int| 0 <= i < chain.len() implies 0 <= #[trigger] chain[i]
            < d.components.len() by {
            if i < front.len() {
                assert(front[i] == chain[i]);
            }
        }
    }
}

/// The row is of a rail to stop at that the reported parts lead to, as few as any.
pub open spec fn rail_row(
    d: &Design,
    t: Setting,
    rails: Seq<RailReading>,
    depth: int,
    r: RailReached,
    n: int,
) -> bool {
    &&& 0 <= n < d.nets.len()
    &&& n != t.from
    &&& t.stop && rails[n].rail
    &&& r.net@ == d.nets@[n].name@
    &&& r.hundredths == rails[n].hundredths
    &&& r.via.len() <= depth
    &&& no_nearer(d, t, rails, n, r.via.len() as int)
    &&& exists|chain: Seq<int>| #[trigger]
        hops_to(d, t, rails, chain, n) && tells_parts(d, r.via@, chain)
}

/// A walk lists every rail within the depth asked for that it stops at, each once, over a
/// shortest way, the nearest first, and nothing else as a rail.
pub proof fn lemma_walk_lists_rails(
    d: &Design,
    e: WalkEnvelope,
    start: Seq<char>,
    o: Origin,
    depth: u32,
    most: u32,
    stop: bool,
    rails: Seq<RailReading>,
) -> (nets: Seq<int>)
    requires
        d.wf(),
        rails.len() == d.nets.len(),
        in_design(d, o),
        d.walk_answer(
            e,
            start,
            o,
            d.whole_walk(Design::origin_rules(o, depth, most, stop), rails),
            rails,
        ),
    ensures
        nets.len() == e.rails_reached.len(),
        nets.no_duplicates(),
        forall|i: int|
            0 <= i < nets.len() ==> rail_row(
                d,
                setting_of(o, stop),
                rails,
                depth as int,
                #[trigger] e.rails_reached@[i],
                nets[i],
            ),
        forall|n: int|
            n != o.net && stop && rails[n].rail && d.nets@[n].pins.len() != 1
                && #[trigger] in_reach(d, setting_of(o, stop), rails, depth as int, n)
                ==> nets.contains(n),
        forall|i: int, j: int|
            0 <= i < j < nets.len() ==> (#[trigger] e.rails_reached@[i]).via.len() <= (
            #[trigger] e.rails_reached@[j]).via.len(),
{
    let rules = Design::origin_rules(o, depth, most, stop);
    let t = setting_of(o, stop);
    let w = d.whole_walk(rules, rails);
    lemma_walk_stops(d, rules, rails);
    lemma_walk_is_sound(d, rules, rails);
    lemma_walk_is_shortest(d, rules, rails);
    lemma_stops_by_distance(d, rules, rails);
    let nets = Seq::new(w.rails.len(), |i: int| w.rails[i].net);
    assert forall|i: int| 0 <= i < nets.len() implies rail_row(
        d,
        t,
        rails,
        depth as int,
        #[trigger] e.rails_reached@[i],
        nets[i],
    ) by {
        let s = w.rails[i];
        assert(d.rail_is(e.rails_reached@[i], s, rails));
        lemma_chain_in_design(d, rules, rails, s.via, s.net);
        lemma_tells_parts(d, e.rails_reached@[i].via@, s.via);
        lemma_leads_is_hops(d, o, depth, most, stop, rails, s.via, s.net);
        lemma_nearest_is_no_nearer(d, o, depth, most, stop, rails, s.net, s.via.len() as int);
        assert(hops_to(d, t, rails, s.via, s.net));
    }
    assert forall|i: int, j: int| 0 <= i < nets.len() && 0 <= j < nets.len() && i
        != j implies nets[i] != nets[j] by {
        if i < j {
            assert(w.rails[i].net != w.rails[j].net);
        } else {
            assert(w.rails[j].net != w.rails[i].net);
        }
    }
    assert forall|n: int|
        n != o.net && stop && rails[n].rail && d.nets@[n].pins.len() != 1 && #[trigger] in_reach(
            d,
            t,
            rails,
            depth as int,
            n,
        ) implies nets.contains(n) by {
        lemma_within_is_in_reach(d, o, depth, most, stop, rails, n);
        assert(stopped(w.rails, n));
        let i = choose|i: int| 0 <= i < w.rails.len() && (#[trigger] w.rails[i]).net == n;
        assert(nets[i] == n);
    }
    assert forall|i: int, j: int| 0 <= i < j < nets.len() implies (
    #[trigger] e.rails_reached@[i]).via.len() <= (#[trigger] e.rails_reached@[j]).via.len() by {
        assert(d.rail_is(e.rails_reached@[i], w.rails[i], rails));
        assert(d.rail_is(e.rails_reached@[j], w.rails[j], rails));
    }
    nets
}

/// The row is of a net with more than forty pins that the reported parts lead to, as few
/// as any.
pub open spec fn large_row(
    d: &Design,
    t: Setting,
    rails: Seq<RailReading>,
    depth: int,
    r: LargeNet,
    n: int,
) -> bool {
    &&& 0 <= n < d.nets.len()
    &&& n != t.from
    &&& !(t.stop && rails[n].rail)
    &&& d.nets@[n].pins.len() > 40
    &&& r.net@ == d.nets@[n].name@
    &&& r.fanout == d.nets@[n].pins.len()
    &&& r.via.len() <= depth
    &&& no_nearer(d, t, rails, n, r.via.len() as int)
    &&& exists|chain: Seq<int>| #[trigger]
        hops_to(d, t, rails, chain, n) && tells_parts(d, r.via@, chain)
}

/// A walk lists every net within the depth asked for that is too large to go on over,
/// each once, over a shortest way, the nearest first, and nothing else as such.
pub proof fn lemma_walk_lists_large_nets(
    d: &Design,
    e: WalkEnvelope,
    start: Seq<char>,
    o: Origin,
    depth: u32,
    most: u32,
    stop: bool,
    rails: Seq<RailReading>,
) -> (nets: Seq<int>)
    requires
        d.wf(),
        rails.len() == d.nets.len(),
        in_design(d, o),
        d.walk_answer(
            e,
            start,
            o,
            d.whole_walk(Design::origin_rules(o, depth, most, stop), rails),
            rails,
        ),
    ensures
        nets.len() == e.large_nets.len(),
        nets.no_duplicates(),
        forall|i: int|
            0 <= i < nets.len() ==> large_row(
                d,
                setting_of(o, stop),
                rails,
                depth as int,
                #[trigger] e.large_nets@[i],
                nets[i],
            ),
        forall|n: int|
            n != o.net && !(stop && rails[n].rail) && d.nets@[n].pins.len() > 40
                && #[trigger] in_reach(d, setting_of(o, stop), rails, depth as int, n)
                ==> nets.contains(n),
        forall|i: int, j: int|
            0 <= i < j < nets.len() ==> (#[trigger] e.large_nets@[i]).via.len() <= (
            #[trigger] e.large_nets@[j]).via.len(),
{
    let rules = Design::origin_rules(o, depth, most, stop);
    let t = setting_of(o, stop);
    let w = d.whole_walk(rules, rails);
    lemma_walk_stops(d, rules, rails);
    lemma_walk_is_sound(d, rules, rails);
    lemma_walk_is_shortest(d, rules, rails);
    lemma_stops_by_distance(d, rules, rails);
    let nets = Seq::new(w.large.len(), |i: int| w.large[i].net);
    assert forall|i: int| 0 <= i < nets.len() implies large_row(
        d,
        t,
        rails,
        depth as int,
        #[trigger] e.large_nets@[i],
        nets[i],
    ) by {
        let s = w.large[i];
        assert(stopped(w.large, s.net));
        assert(within(d, rules, rails, s.net));
        assert(d.large_is(e.large_nets@[i], s));
        lemma_chain_in_design(d, rules, rails, s.via, s.net);
        lemma_tells_parts(d, e.large_nets@[i].via@, s.via);
        lemma_leads_is_hops(d, o, depth, most, stop, rails, s.via, s.net);
        lemma_nearest_is_no_nearer(d, o, depth, most, stop, rails, s.net, s.via.len() as int);
        assert(hops_to(d, t, rails, s.via, s.net));
    }
    assert forall|i: int, j: int| 0 <= i < nets.len() && 0 <= j < nets.len() && i
        != j implies nets[i] != nets[j] by {
        if i < j {
            assert(w.large[i].net != w.large[j].net);
        } else {
            assert(w.large[j].net != w.large[i].net);
        }
    }
    assert forall|n: int|
        n != o.net && !(stop && rails[n].rail) && d.nets@[n].pins.len() > 40
            && #[trigger] in_reach(d, t, rails, depth as int, n) implies nets.contains(n) by {
        lemma_within_is_in_reach(d, o, depth, most, stop, rails, n);
        assert(stopped(w.large, n));
        let i = choose|i: int| 0 <= i < w.large.len() && (#[trigger] w.large[i]).net == n;
        assert(nets[i] == n);
    }
    assert forall|i: int, j: int| 0 <= i < j < nets.len() implies (
    #[trigger] e.large_nets@[i]).via.len() <= (#[trigger] e.large_nets@[j]).via.len() by {
        assert(d.large_is(e.large_nets@[i], w.large[i]));
        assert(d.large_is(e.large_nets@[j], w.large[j]));
    }
    nets
}

/// The designator has one of the classes.
pub open spec fn one_of(refdes: Seq<char>, classes: Seq<Seq<char>>) -> bool {
    exists|i: int| 0 <= i < classes.len() && lettered(refdes, #[trigger] classes[i])
}

/// The grouping that a designator's letters put a part in.
pub open spec fn grouped(refdes: Seq<char>, kind: Seq<char>) -> bool {
    let connectors = seq![
        seq!['J'],
        seq!['P'],
        seq!['C', 'N'],
        seq!['R', 'J'],
        seq!['U', 'S', 'B'],
    ];
    let passives = seq![seq!['R'], seq!['L'], seq!['C'], seq!['F', 'B']];
    let singles = seq![
        seq!['U'],
        seq!['D'],
        seq!['Q'],
        seq!['T'],
        seq!['X'],
        seq!['Y'],
        seq!['S', 'W'],
        seq!['T', 'P'],
    ];
    &&& lettered(refdes, seq!['U']) ==> kind == "ic"@
    &&& one_of(refdes, connectors) ==> kind == "connector"@
    &&& lettered(refdes, seq!['D']) ==> kind == "diode"@
    &&& lettered(refdes, seq!['Q']) ==> kind == "transistor"@
    &&& lettered(refdes, seq!['T']) ==> kind == "transformer"@
    &&& lettered(refdes, seq!['X']) ==> kind == "crystal"@
    &&& lettered(refdes, seq!['Y']) ==> kind == "crystal"@
    &&& lettered(refdes, seq!['S', 'W']) ==> kind == "switch"@
    &&& lettered(refdes, seq!['T', 'P']) ==> kind == "test_point"@
    &&& one_of(refdes, passives) ==> kind == "passive"@
    &&& !one_of(refdes, singles) && !one_of(refdes, connectors) && !one_of(refdes, passives)
        ==> kind == "other"@
}

/// The grouping of a part follows from its designator's letters.
pub proof fn lemma_grouped(refdes: Seq<char>)
    ensures
        grouped(refdes, kind_of(class_of(refdes))),
{
    let class = class_of(refdes);
    assert forall|k: Seq<char>| #[trigger] lettered(refdes, k) <==> class == k by {
        lemma_lettered(refdes, k);
    }
    lemma_class_letters();
    reveal_strlit("D");
    reveal_strlit("Q");
    reveal_strlit("T");
    reveal_strlit("X");
    reveal_strlit("Y");
    reveal_strlit("SW");
    assert("D"@ =~= seq!['D']);
    assert("Q"@ =~= seq!['Q']);
    assert("T"@ =~= seq!['T']);
    assert("X"@ =~= seq!['X']);
    assert("Y"@ =~= seq!['Y']);
    assert("SW"@ =~= seq!['S', 'W']);
    let connectors = seq![
        seq!['J'],
        seq!['P'],
        seq!['C', 'N'],
        seq!['R', 'J'],
        seq!['U', 'S', 'B'],
    ];
    let passives = seq![seq!['R'], seq!['L'], seq!['C'], seq!['F', 'B']];
    let singles = seq![
        seq!['U'],
        seq!['D'],
        seq!['Q'],
        seq!['T'],
        seq!['X'],
        seq!['Y'],
        seq!['S', 'W'],
        seq!['T', 'P'],
    ];
    assert(one_of(refdes, connectors) <==> is_connector_class(class)) by {
        if is_connector_class(class) {
            assert(connectors[0] == class || connectors[1] == class || connectors[2] == class
                || connectors[3] == class || connectors[4] == class);
        }
    }
    assert(one_of(refdes, passives) <==> is_passive_class(class)) by {
        if is_passive_class(class) {
            assert(passives[0] == class || passives[1] == class || passives[2] == class
                || passives[3] == class);
        }
    }
    assert(singles[0] == seq!['U'] && singles[1] == seq!['D'] && singles[2] == seq!['Q']
        && singles[3] == seq!['T'] && singles[4] == seq!['X'] && singles[5] == seq!['Y']
        && singles[6] == seq!['S', 'W'] && singles[7] == seq!['T', 'P']);
    assert(class.len() > 0 ==> class[0] == class.first());
    let u = seq!['U'];
    let dd = seq!['D'];
    let q = seq!['Q'];
    let t = seq!['T'];
    let x = seq!['X'];
    let y = seq!['Y'];
    let sw = seq!['S', 'W'];
    let tp = seq!['T', 'P'];
    let usb = seq!['U', 'S', 'B'];
    assert(u.len() == 1 && u[0] == 'U');
    assert(dd.len() == 1 && dd[0] == 'D');
    assert(q.len() == 1 && q[0] == 'Q');
    assert(t.len() == 1 && t[0] == 'T');
    assert(x.len() == 1 && x[0] == 'X');
    assert(y.len() == 1 && y[0] == 'Y');
    assert(sw.len() == 2 && sw[0] == 'S');
    assert(tp.len() == 2 && tp[0] == 'T');
    assert(usb.len() == 3 && usb[0] == 'U');
    assert(is_connector_class(class) ==> class[0] == 'J' || class[0] == 'P'
        || class[0] == 'C' || class[0] == 'R' || class.len() == 3);
    assert(is_passive_class(class) ==> (class.len() == 1 && (class[0] == 'R'
        || class[0] == 'L' || class[0] == 'C')) || (class.len() == 2 && class[0] == 'F'));
    assert(is_connector_class(class) && is_passive_class(class)
        ==> false) by {
        let cn = seq!['C', 'N'];
        let rj = seq!['R', 'J'];
        assert(cn.len() == 2 && rj.len() == 2 && cn[0] == 'C' && rj[0] == 'R');
        let j = seq!['J'];
        let p = seq!['P'];
        assert(j[0] == 'J' && p[0] == 'P');
    }
}

/// Pins go by their part's designator and then by their number.
pub open spec fn reading_key(d: &Design, p: int) -> Key {
    natural_key(d.components@[d.pins@[p].comp.0 as int].refdes@) + natural_key(d.pins@[p].number@)
}

/// The row tells of a pin and of the part that it belongs to.
pub open spec fn tells_pin(d: &Design, e: WalkEndpoint, p: int) -> bool {
    let pin = d.pins@[p];
    let comp = d.components@[pin.comp.0 as int];
    &&& e.pin@ == comp.refdes@ + seq![':'] + pin.number@
    &&& opt_text(e.pin_name) == opt_text(pin.name)
    &&& opt_text(e.pin_type) == opt_text(pin.pin_type)
    &&& e.component.refdes@ == comp.refdes@
    &&& e.component.value@ == comp.value@
    &&& opt_text(e.component.description) == opt_text(comp.description)
    &&& opt_text(e.component.sheet) == opt_text(comp.sheet)
    &&& e.component.dnp == comp.dnp
    &&& grouped(comp.refdes@, e.kind@)
}

/// The pin is one that a walk ends on, reached over the chain: it joins a net that the
/// walk goes on over, and its part is no two-pin passive and not the one that the walk
/// starts from.
pub open spec fn ends_at(
    d: &Design,
    t: Setting,
    rails: Seq<RailReading>,
    chain: Seq<int>,
    p: int,
    n: int,
) -> bool {
    &&& joins(d, p, n)
    &&& open_net(d, t, rails, n)
    &&& hops_to(d, t, rails, chain, n)
    &&& !in_series(d, d.pins@[p].comp.0 as int)
    &&& t.part != Some(d.pins@[p].comp.0 as int)
}

/// The row is of a pin that the walk ends on, over a shortest way.
pub open spec fn pin_row(
    d: &Design,
    t: Setting,
    rails: Seq<RailReading>,
    depth: int,
    r: WalkEndpoint,
    p: int,
) -> bool {
    &&& tells_pin(d, r, p)
    &&& r.distance == r.via.len()
    &&& r.distance <= depth
    &&& exists|chain: Seq<int>, n: int| #[trigger]
        ends_at(d, t, rails, chain, p, n) && tells_parts(d, r.via@, chain) && no_nearer(
            d,
            t,
            rails,
            n,
            r.distance as int,
        )
}

/// A walk lists the pins that it ends on within the depth asked for, and no others, no
/// name twice, the nearest first, each over a shortest way; all of them by name, unless as
/// many as were asked for are listed.
pub proof fn lemma_walk_lists_pins(
    d: &Design,
    e: WalkEnvelope,
    start: Seq<char>,
    o: Origin,
    depth: u32,
    most: u32,
    stop: bool,
    rails: Seq<RailReading>,
) -> (pins: Seq<int>)
    requires
        d.wf(),
        rails.len() == d.nets.len(),
        in_design(d, o),
        d.walk_answer(
            e,
            start,
            o,
            d.whole_walk(Design::origin_rules(o, depth, most, stop), rails),
            rails,
        ),
    ensures
        pins.len() == e.endpoints.len(),
        e.endpoints.len() <= most,
        e.start@ == start,
        e.start_net@ == d.nets@[o.net].name@,
        forall|i: int|
            0 <= i < pins.len() ==> pin_row(
                d,
                setting_of(o, stop),
                rails,
                depth as int,
                #[trigger] e.endpoints@[i],
                pins[i],
            ),
        forall|i: int, j: int|
            0 <= i < j < pins.len() ==> (#[trigger] e.endpoints@[i]).pin@ != (
            #[trigger] e.endpoints@[j]).pin@ && e.endpoints@[i].distance
                <= e.endpoints@[j].distance,
        forall|i: int, j: int|
            0 <= i < j < pins.len() && e.endpoints@[i].distance == e.endpoints@[j].distance
                ==> in_order(
                reading_key(d, #[trigger] pins[i]),
                reading_key(d, #[trigger] pins[j]),
            ),
        e.endpoints.len() < most ==> forall|chain: Seq<int>, p: int, n: int| #[trigger]
            ends_at(d, setting_of(o, stop), rails, chain, p, n) && chain.len() <= depth ==> exists|
                i: int,
            |
                0 <= i < e.endpoints.len() && (#[trigger] e.endpoints@[i]).pin@
                    == d.components@[d.pins@[p].comp.0 as int].refdes@ + seq![':']
                    + d.pins@[p].number@,
{
    let rules = Design::origin_rules(o, depth, most, stop);
    let t = setting_of(o, stop);
    let w = d.whole_walk(rules, rails);
    let keys = d.reached_keys(w.endpoints);
    let order = ranked(keys);
    let sorted = d.in_reading_order(w.endpoints);
    lemma_walk_is_sound(d, rules, rails);
    lemma_walk_is_shortest(d, rules, rails);
    lemma_ranked(keys);
    reveal_strlit(":");
    assert(":"@ =~= seq![':']);
    let pins = Seq::new(sorted.len(), |i: int| sorted[i].pin);
    assert forall|i: int| 0 <= i < pins.len() implies pin_row(
        d,
        t,
        rails,
        depth as int,
        #[trigger] e.endpoints@[i],
        pins[i],
    ) && d.endpoint_is(e.endpoints@[i], sorted[i]) by {
        let r = w.endpoints[order[i]];
        assert(sorted[i] == r);
        assert(d.endpoint_is(e.endpoints@[i], r));
        assert(d.reached_sound(rules, rails, r));
        let n = d.net_of(r.pin).unwrap();
        assert(d.pins@[r.pin].comp.0 < d.components.len());
        assert(d.is_nearest(rules, rails, n, r.depth));
        lemma_part_kinds(d, d.owner(r.pin));
        lemma_chain_in_design(d, rules, rails, r.via, n);
        lemma_tells_parts(d, e.endpoints@[i].via@, r.via);
        lemma_leads_is_hops(d, o, depth, most, stop, rails, r.via, n);
        lemma_nearest_is_no_nearer(d, o, depth, most, stop, rails, n, r.depth);
        lemma_grouped(d.components@[d.owner(r.pin)].refdes@);
        assert(d.pins@[r.pin].id.0 == r.pin);
        assert(ends_at(d, t, rails, r.via, r.pin, n));
        assert(tells_pin(d, e.endpoints@[i], r.pin));
    }
    assert forall|i: int, j: int| 0 <= i < j < pins.len() implies (#[trigger] e.endpoints@[i]).pin@
        != (#[trigger] e.endpoints@[j]).pin@ && e.endpoints@[i].distance
        <= e.endpoints@[j].distance by {
        assert(d.endpoint_is(e.endpoints@[i], sorted[i]));
        assert(d.endpoint_is(e.endpoints@[j], sorted[j]));
        let a = order[i];
        let b = order[j];
        assert(a != b);
        assert(sorted[i] == w.endpoints[a] && sorted[j] == w.endpoints[b]);
        if a < b {
            assert(d.label(w.endpoints[a].pin) != d.label(w.endpoints[b].pin));
        } else {
            assert(d.label(w.endpoints[b].pin) != d.label(w.endpoints[a].pin));
        }
        assert(keys[a] == d.reached_key(w.endpoints[a]));
        assert(keys[b] == d.reached_key(w.endpoints[b]));
        assert(keys[a][0] == Mark::Number(w.endpoints[a].depth));
        assert(keys[b][0] == Mark::Number(w.endpoints[b].depth));
    }
    assert forall|i: int, j: int|
        0 <= i < j < pins.len() && e.endpoints@[i].distance
            == e.endpoints@[j].distance implies in_order(
        reading_key(d, #[trigger] pins[i]),
        reading_key(d, #[trigger] pins[j]),
    ) by {
        assert(d.endpoint_is(e.endpoints@[i], sorted[i]));
        assert(d.endpoint_is(e.endpoints@[j], sorted[j]));
        let x = keys[order[i]];
        let y = keys[order[j]];
        assert(sorted[i] == w.endpoints[order[i]] && sorted[j] == w.endpoints[order[j]]);
        assert(x == d.reached_key(sorted[i]) && y == d.reached_key(sorted[j]));
        assert(x.skip(1) =~= reading_key(d, pins[i]));
        assert(y.skip(1) =~= reading_key(d, pins[j]));
        assert(x[0] == Mark::Number(sorted[i].depth) && y[0] == Mark::Number(sorted[j].depth));
        assert(key_order(x, y) == then_order(
            mark_order(x[0], y[0]),
            key_order(x.skip(1), y.skip(1)),
        ));
    }
    if e.endpoints.len() < most {
        assert forall|chain: Seq<int>, p: int, n: int| #[trigger]
            ends_at(d, t, rails, chain, p, n) && chain.len() <= depth implies exists|i: int|
            0 <= i < e.endpoints.len() && (#[trigger] e.endpoints@[i]).pin@
                == d.components@[d.pins@[p].comp.0 as int].refdes@ + seq![':']
                + d.pins@[p].number@ by {
            assert(d.pins@[p].id.0 == p);
            assert(d.pins@[p].comp.0 < d.components.len());
            lemma_part_kinds(d, d.owner(p));
            lemma_leads_is_hops(d, o, depth, most, stop, rails, chain, n);
            lemma_walk_reports_all_in_depth(d, rules, rails, chain, p);
            let k = choose|k: int|
                0 <= k < w.endpoints.len() && d.label((#[trigger] w.endpoints[k]).pin) == d.label(p);
            assert(order.contains(k));
            let i = choose|i: int| 0 <= i < order.len() && order[i] == k;
            assert(sorted[i] == w.endpoints[k]);
            assert(d.endpoint_is(e.endpoints@[i], sorted[i]));
        }
    }
    pins
}

/// Every pin on the net belongs to a two-pin passive or to a part that only touches it.
pub open spec fn nothing_ends(d: &Design, n: int) -> bool {
    forall|p: int| #[trigger]
        joins(d, p, n) ==> in_series(d, d.pins@[p].comp.0 as int) || only_touches(
            d,
            d.pins@[p].comp.0 as int,
        )
}

/// The list holds each part with a pin on the net, once.
pub open spec fn parts_on(d: &Design, n: int, parts: Seq<int>) -> bool {
    parts.no_duplicates() && forall|c: int| #[trigger]
        parts.contains(c) <==> exists|p: int| #[trigger] joins(d, p, n) && sits_on(d, p, c)
}

/// The row is of a branch whose last part has its other pin on no net.
pub open spec fn loose_row(
    d: &Design,
    t: Setting,
    rails: Seq<RailReading>,
    r: DeadEnd,
    chain: Seq<int>,
) -> bool {
    &&& r.net is None && r.fanout == 0 && r.parts.len() == 0
    &&& r.reason@ == "dangling (goes nowhere)"@
    &&& chain.len() > 0 && tells_parts(d, r.via@, chain)
    &&& in_series(d, chain.last())
    &&& exists|p: int, q: int, m: int|
        #![trigger sits_on(d, p, chain.last()), joins(d, q, m)]
        sits_on(d, p, chain.last()) && d.pins@[p].net is None && sits_on(d, q, chain.last())
            && joins(d, q, m) && hops_to(d, t, rails, chain.drop_last(), m)
}

/// The row is of a branch that comes to a net on which nothing but its last part is.
pub open spec fn alone_row(
    d: &Design,
    t: Setting,
    rails: Seq<RailReading>,
    r: DeadEnd,
    chain: Seq<int>,
    n: int,
) -> bool {
    &&& 0 <= n < d.nets.len() && opt_text(r.net) == Some(d.nets@[n].name@)
    &&& d.nets@[n].pins.len() == 1 && r.fanout == 1 && r.parts.len() == 0
    &&& r.reason@ == "dangling (goes nowhere)"@
    &&& chain.len() > 0 && tells_parts(d, r.via@, chain) && hops_to(d, t, rails, chain, n)
}

/// The row is of a branch that comes to a net on which nothing ends, and tells of all
/// parts on it.
pub open spec fn passive_row(
    d: &Design,
    t: Setting,
    rails: Seq<RailReading>,
    r: DeadEnd,
    chain: Seq<int>,
    n: int,
) -> bool {
    &&& 0 <= n < d.nets.len() && opt_text(r.net) == Some(d.nets@[n].name@)
    &&& nothing_ends(d, n) && r.fanout == d.nets@[n].pins.len()
    &&& exists|parts: Seq<int>| #[trigger] parts_on(d, n, parts) && tells_parts(d, r.parts@, parts)
    &&& r.reason@ == (if exists|p: int| #[trigger]
        joins(d, p, n) && only_touches(d, d.pins@[p].comp.0 as int) {
        "only passives and probe/mechanical parts, no active endpoint"@
    } else {
        "only passives, no active endpoint"@
    })
    &&& chain.len() > 0 && tells_parts(d, r.via@, chain) && hops_to(d, t, rails, chain, n)
}

/// The row is of a branch that came to nothing.
pub open spec fn dead_row(
    d: &Design,
    t: Setting,
    rails: Seq<RailReading>,
    r: DeadEnd,
    chain: Seq<int>,
) -> bool {
    ||| loose_row(d, t, rails, r, chain)
    ||| exists|n: int| #[trigger] alone_row(d, t, rails, r, chain, n)
    ||| exists|n: int| #[trigger] passive_row(d, t, rails, r, chain, n)
}

/// The name that a row is listed under: that of its net, or of its last part where it has
/// none.
pub open spec fn row_name(r: DeadEnd) -> Seq<char> {
    match r.net {
        Some(s) => s@,
        None => "nc:"@ + r.via@.last().refdes@,
    }
}

/// A row is listed under the name, or as many as were asked for are.
pub open spec fn told(e: WalkEnvelope, most: u32, name: Seq<char>) -> bool {
    e.dead_ends.len() >= most || exists|i: int|
        0 <= i < e.dead_ends.len() && row_name(#[trigger] e.dead_ends@[i]) == name
}

proof fn lemma_nothing_ends(d: &Design, n: int)
    requires
        d.wf(),
        0 <= n < d.nets.len(),
    ensures
        nothing_ends(d, n) <==> !d.has_endpoint(n),
{
    let ids = d.net_pins(n);
    lemma_net_pins(d, n);
    if d.has_endpoint(n) {
        let i = choose|i: int| 0 <= i < ids.len() && d.ends_on(d.owner(#[trigger] ids[i]));
        assert(joins(d, ids[i], n));
        assert(d.pins@[ids[i]].comp.0 < d.components.len());
        lemma_part_kinds(d, d.owner(ids[i]));
    }
    if !nothing_ends(d, n) {
        let p = choose|p: int| #[trigger]
            joins(d, p, n) && !(in_series(d, d.pins@[p].comp.0 as int) || only_touches(
                d,
                d.pins@[p].comp.0 as int,
            ));
        assert(d.pins@[p].comp.0 < d.components.len());
        lemma_part_kinds(d, d.owner(p));
        assert(ids.contains(p));
        let i = choose|i: int| 0 <= i < ids.len() && ids[i] == p;
        assert(d.ends_on(d.owner(ids[i])));
    }
}

proof fn lemma_dead_row(
    d: &Design,
    r: DeadEnd,
    f: Fizzle,
    o: Origin,
    depth: u32,
    most: u32,
    stop: bool,
    rails: Seq<RailReading>,
)
    requires
        d.wf(),
        in_design(d, o),
        d.dead_is(r, f),
        d.fizzle_sound(Design::origin_rules(o, depth, most, stop), rails, f),
        dead_told(d, Design::origin_rules(o, depth, most, stop), rails, f),
    ensures
        dead_row(d, setting_of(o, stop), rails, r, f.via),
        row_name(r) == dead_name(d, f),
{
    let rules = Design::origin_rules(o, depth, most, stop);
    let t = setting_of(o, stop);
    match f.net {
        Some(n) => {
            lemma_chain_in_design(d, rules, rails, f.via, n);
            lemma_tells_parts(d, r.via@, f.via);
            lemma_leads_is_hops(d, o, depth, most, stop, rails, f.via, n);
            if f.dangling {
                assert(alone_row(d, t, rails, r, f.via, n));
            } else {
                lemma_nothing_ends(d, n);
                assert forall|i: int| 0 <= i < f.parts.len() implies 0 <= #[trigger] f.parts[i]
                    < d.components.len() by {
                    assert(f.parts.contains(f.parts[i]));
                    let p = choose|p: int| #[trigger] joins(d, p, n) && sits_on(d, p, f.parts[i]);
                    assert(d.pins@[p].comp.0 < d.components.len());
                }
                lemma_tells_parts(d, r.parts@, f.parts);
                assert(parts_on(d, n, f.parts));
                if f.probe {
                    let p = choose|p: int| #[trigger]
                        joins(d, p, n) && only_touches(d, d.owner(p));
                    assert(joins(d, p, n) && only_touches(d, d.pins@[p].comp.0 as int));
                }
                assert(passive_row(d, t, rails, r, f.via, n));
            }
        },
        None => {
            let c = f.via.last();
            let (p, q, m) = choose|p: int, q: int, m: int|
                #![trigger sits_on(d, p, f.via.last()), joins(d, q, m)]
                sits_on(d, p, f.via.last()) && d.pins@[p].net is None && sits_on(
                    d,
                    q,
                    f.via.last(),
                ) && joins(d, q, m) && d.leads_to(rules, rails, f.via.drop_last(), m);
            lemma_chain_in_design(d, rules, rails, f.via.drop_last(), m);
            assert forall|i: int| 0 <= i < f.via.len() implies 0 <= #[trigger] f.via[i]
                < d.components.len() by {
                if i < f.via.len() - 1 {
                    assert(f.via.drop_last()[i] == f.via[i]);
                }
            }
            lemma_tells_parts(d, r.via@, f.via);
            lemma_part_kinds(d, c);
            lemma_leads_is_hops(d, o, depth, most, stop, rails, f.via.drop_last(), m);
            assert(sits_on(d, p, f.via.last()) && joins(d, q, m));
            assert(loose_row(d, t, rails, r, f.via));
            assert(tells_part(d, r.via@[f.via.len() - 1], f.via[f.via.len() - 1]));
        },
    }
}

/// A walk lists as dead ends the branches that came to nothing, and no others, none under
/// a name twice: a two-pin passive whose other pin is on no net, one whose other pin is
/// alone on its net, and a net that it goes on over on which nothing ends. Within the
/// depth asked for all of them are listed, unless as many as were asked for are.
pub proof fn lemma_walk_lists_dead_ends(
    d: &Design,
    e: WalkEnvelope,
    start: Seq<char>,
    o: Origin,
    depth: u32,
    most: u32,
    stop: bool,
    rails: Seq<RailReading>,
) -> (chains: Seq<Seq<int>>)
    requires
        d.wf(),
        rails.len() == d.nets.len(),
        in_design(d, o),
        d.walk_answer(
            e,
            start,
            o,
            d.whole_walk(Design::origin_rules(o, depth, most, stop), rails),
            rails,
        ),
    ensures
        chains.len() == e.dead_ends.len(),
        e.dead_ends.len() <= most,
        forall|i: int|
            0 <= i < chains.len() ==> dead_row(
                d,
                setting_of(o, stop),
                rails,
                #[trigger] e.dead_ends@[i],
                chains[i],
            ) && e.dead_ends@[i].via.len() <= depth + 1,
        forall|i: int, j: int|
            0 <= i < j < chains.len() ==> row_name(#[trigger] e.dead_ends@[i]) != row_name(
                #[trigger] e.dead_ends@[j],
            ),
        forall|n: int|
            n != o.net && open_net(d, setting_of(o, stop), rails, n) && nothing_ends(d, n)
                && #[trigger] in_reach(d, setting_of(o, stop), rails, depth as int, n) ==> told(
                e,
                most,
                d.nets@[n].name@,
            ),
        forall|m: int, p: int, q: int|
            #![trigger joins(d, p, m), sits_on(d, q, d.pins@[p].comp.0 as int)]
            joins(d, p, m) && open_net(d, setting_of(o, stop), rails, m) && in_reach(
                d,
                setting_of(o, stop),
                rails,
                depth as int,
                m,
            ) && in_series(d, d.pins@[p].comp.0 as int) && !(m == o.net && o.comp == Some(
                d.pins@[p].comp.0 as int,
            )) && sits_on(d, q, d.pins@[p].comp.0 as int) && q != p ==> {
                &&& d.pins@[q].net is None ==> told(
                    e,
                    most,
                    "nc:"@ + d.components@[d.pins@[p].comp.0 as int].refdes@,
                )
                &&& d.pins@[q].net matches Some(n) ==> n.0 != m && n.0 != o.net
                    && d.nets@[n.0 as int].pins.len() == 1 ==> told(
                    e,
                    most,
                    d.nets@[n.0 as int].name@,
                )
            },
{
    let rules = Design::origin_rules(o, depth, most, stop);
    let t = setting_of(o, stop);
    let w = d.whole_walk(rules, rails);
    lemma_walk_is_sound(d, rules, rails);
    lemma_walk_lists_passive_nets(d, rules, rails);
    let chains = Seq::new(w.dead.len(), |i: int| w.dead[i].via);
    assert forall|i: int| 0 <= i < chains.len() implies dead_row(
        d,
        t,
        rails,
        #[trigger] e.dead_ends@[i],
        chains[i],
    ) && e.dead_ends@[i].via.len() <= depth + 1 && row_name(e.dead_ends@[i]) == dead_name(
        d,
        w.dead[i],
    ) by {
        assert(d.dead_is(e.dead_ends@[i], w.dead[i]));
        lemma_dead_row(d, e.dead_ends@[i], w.dead[i], o, depth, most, stop, rails);
    }
    assert forall|name: Seq<char>| listed_dead(d, w.dead, name) implies #[trigger] told(
        e,
        most,
        name,
    ) by {
        let i = choose|i: int| 0 <= i < w.dead.len() && dead_name(d, #[trigger] w.dead[i]) == name;
        assert(row_name(e.dead_ends@[i]) == name);
    }
    assert forall|i: int, j: int| 0 <= i < j < chains.len() implies row_name(
        #[trigger] e.dead_ends@[i],
    ) != row_name(#[trigger] e.dead_ends@[j]) by {
        assert(dead_name(d, w.dead[i]) != dead_name(d, w.dead[j]));
    }
    assert forall|n: int|
        n != o.net && open_net(d, t, rails, n) && nothing_ends(d, n) && #[trigger] in_reach(
            d,
            t,
            rails,
            depth as int,
            n,
        ) implies told(e, most, d.nets@[n].name@) by {
        lemma_within_is_in_reach(d, o, depth, most, stop, rails, n);
        lemma_nothing_ends(d, n);
        assert(within(d, rules, rails, n));
        assert(goes_on(d, rules, rails, n));
    }
    assert forall|m: int, p: int, q: int|
        #![trigger joins(d, p, m), sits_on(d, q, d.pins@[p].comp.0 as int)]
        joins(d, p, m) && open_net(d, t, rails, m) && in_reach(d, t, rails, depth as int, m)
            && in_series(d, d.pins@[p].comp.0 as int) && !(m == o.net && o.comp == Some(
            d.pins@[p].comp.0 as int,
        )) && sits_on(d, q, d.pins@[p].comp.0 as int) && q != p implies {
        &&& d.pins@[q].net is None ==> told(
            e,
            most,
            "nc:"@ + d.components@[d.pins@[p].comp.0 as int].refdes@,
        )
        &&& d.pins@[q].net matches Some(n) ==> n.0 != m && n.0 != o.net
            && d.nets@[n.0 as int].pins.len() == 1 ==> told(e, most, d.nets@[n.0 as int].name@)
    } by {
        assert(d.pins@[p].comp.0 < d.components.len());
        lemma_within_is_in_reach(d, o, depth, most, stop, rails, m);
        lemma_part_kinds(d, d.owner(p));
        assert(goes_on(d, rules, rails, m));
        assert(may_pass(rules, d.owner(p), m));
        lemma_walk_lists_dangling_branches(d, rules, rails, m, p, q);
        assert(d.pins@[q].id.0 == q);
    }
    chains
}

/// The pin's name is that of a listed pin.
pub open spec fn names_pin(d: &Design, e: WalkEnvelope, p: int) -> bool {
    exists|i: int|
        0 <= i < e.endpoints.len() && (#[trigger] e.endpoints@[i]).pin@
            == d.components@[d.pins@[p].comp.0 as int].refdes@ + seq![':'] + d.pins@[p].number@
}

/// A walk that says that it was cut short has left something out: a pin that it ends on,
/// or what a chain one part longer than was asked for leads to. One that does not say so
/// lists every pin that it could end on, however far.
pub proof fn lemma_cut_short(
    d: &Design,
    e: WalkEnvelope,
    start: Seq<char>,
    o: Origin,
    depth: u32,
    most: u32,
    stop: bool,
    rails: Seq<RailReading>,
)
    requires
        d.wf(),
        rails.len() == d.nets.len(),
        in_design(d, o),
        d.walk_answer(
            e,
            start,
            o,
            d.whole_walk(Design::origin_rules(o, depth, most, stop), rails),
            rails,
        ),
    ensures
        e.truncated ==> {
            ||| e.endpoints.len() >= most && exists|chain: Seq<int>, p: int, n: int| #[trigger]
                ends_at(d, setting_of(o, stop), rails, chain, p, n) && chain.len() <= depth
                    && !names_pin(d, e, p)
            ||| exists|chain: Seq<int>, n: int| #[trigger]
                hops_to(d, setting_of(o, stop), rails, chain, n) && chain.len() == depth + 1
                    && d.nets@[n].pins.len() != 1
        },
        !e.truncated ==> forall|chain: Seq<int>, p: int, n: int| #[trigger]
            ends_at(d, setting_of(o, stop), rails, chain, p, n) ==> names_pin(d, e, p),
{
    let rules = Design::origin_rules(o, depth, most, stop);
    let t = setting_of(o, stop);
    let w = d.whole_walk(rules, rails);
    let keys = d.reached_keys(w.endpoints);
    let order = ranked(keys);
    let sorted = d.in_reading_order(w.endpoints);
    lemma_ranked(keys);
    reveal_strlit(":");
    assert(":"@ =~= seq![':']);
    assert forall|p: int| 0 <= p < d.pins.len() implies (#[trigger] names_pin(d, e, p) <==> exists|
        k: int,
    | 0 <= k < w.endpoints.len() && d.label((#[trigger] w.endpoints[k]).pin) == d.label(p)) by {
        if names_pin(d, e, p) {
            let i = choose|i: int|
                0 <= i < e.endpoints.len() && (#[trigger] e.endpoints@[i]).pin@
                    == d.components@[d.pins@[p].comp.0 as int].refdes@ + seq![':']
                    + d.pins@[p].number@;
            assert(d.endpoint_is(e.endpoints@[i], sorted[i]));
            assert(sorted[i] == w.endpoints[order[i]]);
        }
        if exists|k: int|
            0 <= k < w.endpoints.len() && d.label((#[trigger] w.endpoints[k]).pin) == d.label(p) {
            let k = choose|k: int|
                0 <= k < w.endpoints.len() && d.label((#[trigger] w.endpoints[k]).pin) == d.label(p);
            assert(order.contains(k));
            let i = choose|i: int| 0 <= i < order.len() && order[i] == k;
            assert(sorted[i] == w.endpoints[k]);
            assert(d.endpoint_is(e.endpoints@[i], sorted[i]));
        }
    }
    if e.truncated {
        lemma_cut_short_leaves_out(d, rules, rails);
        if w.endpoints.len() >= most && exists|r: Reached| #[trigger]
            d.reached_sound(rules, rails, r) && !listed_pin(d, w.endpoints, d.label(r.pin)) {
            let r = choose|r: Reached| #[trigger]
                d.reached_sound(rules, rails, r) && !listed_pin(d, w.endpoints, d.label(r.pin));
            let n = d.net_of(r.pin).unwrap();
            assert(d.pins@[r.pin].id.0 == r.pin);
            assert(d.pins@[r.pin].comp.0 < d.components.len());
            lemma_part_kinds(d, d.owner(r.pin));
            lemma_leads_is_hops(d, o, depth, most, stop, rails, r.via, n);
            assert(ends_at(d, t, rails, r.via, r.pin, n));
            assert(!names_pin(d, e, r.pin));
        } else {
            let (chain, n) = choose|chain: Seq<int>, n: int| #[trigger]
                d.leads_to(rules, rails, chain, n) && chain.len() == rules.max_depth + 1
                    && d.net_pins(n).len() != 1;
            lemma_leads_is_hops(d, o, depth, most, stop, rails, chain, n);
            assert(hops_to(d, t, rails, chain, n));
        }
    } else {
        assert forall|chain: Seq<int>, p: int, n: int| #[trigger]
            ends_at(d, t, rails, chain, p, n) implies names_pin(d, e, p) by {
            assert(d.pins@[p].id.0 == p);
            assert(d.pins@[p].comp.0 < d.components.len());
            lemma_part_kinds(d, d.owner(p));
            lemma_leads_is_hops(d, o, depth, most, stop, rails, chain, n);
            lemma_walk_is_complete(d, rules, rails, chain, n, p);
        }
    }
}

/// A walk starts where its name says: a name with a colon in it is that of a pin, the
/// last of that name, and the walk starts on its net from its part; any other is that of
/// a net, the last of that name. A name that nothing has is refused, and so is a pin on no
/// net.
pub proof fn lemma_origin(d: &Design, start: Seq<char>)
    requires
        d.wf(),
    ensures
        d.origin(start) matches Ok(o) ==> in_design(d, o),
        start.contains(':') ==> match d.origin(start) {
            Ok(o) => exists|p: int|
                {
                    &&& #[trigger] joins(d, p, o.net)
                    &&& o.comp == Some(d.pins@[p].comp.0 as int)
                    &&& labelled(d, p, start)
                    &&& forall|q: int| p < q < d.pins.len() ==> !#[trigger] labelled(d, q, start)
                },
            Err(why) => {
                ||| why == Refusal::Pin(start) && forall|q: int|
                    0 <= q < d.pins.len() ==> !#[trigger] labelled(d, q, start)
                ||| why == Refusal::Unconnected(start) && exists|q: int| #[trigger]
                    labelled(d, q, start) && 0 <= q < d.pins.len() && d.pins@[q].net is None
            },
        },
        !start.contains(':') ==> match d.origin(start) {
            Ok(o) => {
                &&& o.comp is None
                &&& d.nets@[o.net].name@ == start
                &&& forall|n: int| o.net < n < d.nets.len() ==> (#[trigger] d.nets@[n]).name@ != start
            },
            Err(why) => why == Refusal::NetCalled(start) && forall|n: int|
                0 <= n < d.nets.len() ==> (#[trigger] d.nets@[n]).name@ != start,
        },
{
    reveal_strlit(":");
    assert(":"@ =~= seq![':']);
    let labels = super::pin_labels(d.components@, d.pins@);
    let names = super::net_names(d.nets@);
    lemma_last_named(labels, start);
    lemma_last_named(names, start);
    assert forall|q: int| 0 <= q < d.pins.len() implies (#[trigger] labelled(d, q, start)
        <==> labels[q] == start) by {}
    assert forall|n: int| 0 <= n < d.nets.len() implies (#[trigger] d.nets@[n]).name@
        == names[n] by {}
    if start.contains(':') {
        if let Some(p) = d.pin_named(start) {
            assert(d.pins@[p].id.0 == p);
            assert(labels[p] == start);
            assert(labelled(d, p, start));
            if let Some(n) = d.net_of(p) {
                assert(joins(d, p, n));
                assert(d.pins@[p].comp.0 < d.components.len());
                assert forall|q: int| p < q < d.pins.len() implies !#[trigger] labelled(
                    d,
                    q,
                    start,
                ) by {
                    assert(labels[q] != start);
                }
                assert(d.origin(start) == Ok::<Origin, Refusal>(
                    Origin { net: n, comp: Some(d.owner(p)) },
                ));
                assert(joins(d, p, d.origin(start)->Ok_0.net));
            } else {
                assert(d.pins@[p].net is None);
                assert(d.origin(start) == Err::<Origin, Refusal>(Refusal::Unconnected(start)));
            }
        } else {
            assert forall|q: int| 0 <= q < d.pins.len() implies !#[trigger] labelled(
                d,
                q,
                start,
            ) by {
                assert(labels[q] != start);
            }
        }
    } else {
        if let Some(n) = d.net_named(start) {
            assert(names[n] == start);
            assert forall|k: int| n < k < d.nets.len() implies (#[trigger] d.nets@[k]).name@
                != start by {
                assert(names[k] != start);
            }
        } else {
            assert forall|k: int| 0 <= k < d.nets.len() implies (#[trigger] d.nets@[k]).name@
                != start by {
                assert(names[k] != start);
            }
        }
    }
}

/// The pin has the name: its part's designator, a colon and its number.
pub open spec fn labelled(d: &Design, p: int, name: Seq<char>) -> bool {
    d.components@[d.pins@[p].comp.0 as int].refdes@ + seq![':'] + d.pins@[p].number@ == name
}

/// Every rail within the depth asked for that the walk stops at is listed by its name.
pub open spec fn rails_listed(
    d: &Design,
    e: WalkEnvelope,
    o: Origin,
    depth: u32,
    stop: bool,
    rails: Seq<RailReading>,
) -> bool {
    forall|n: int|
        n != o.net && stop && rails[n].rail && d.nets@[n].pins.len() != 1 && #[trigger] in_reach(
            d,
            setting_of(o, stop),
            rails,
            depth as int,
            n,
        ) ==> exists|i: int|
            0 <= i < e.rails_reached.len() && (#[trigger] e.rails_reached@[i]).net@
                == d.nets@[n].name@
}

/// A walk lists every rail that it stops at.
pub proof fn lemma_rails_listed(
    d: &Design,
    e: WalkEnvelope,
    start: Seq<char>,
    o: Origin,
    depth: u32,
    most: u32,
    stop: bool,
    rails: Seq<RailReading>,
)
    requires
        d.wf(),
        rails.len() == d.nets.len(),
        in_design(d, o),
        d.walk_answer(
            e,
            start,
            o,
            d.whole_walk(Design::origin_rules(o, depth, most, stop), rails),
            rails,
        ),
    ensures
        rails_listed(d, e, o, depth, stop, rails),
{
    let nets = lemma_walk_lists_rails(d, e, start, o, depth, most, stop, rails);
    assert forall|n: int|
        n != o.net && stop && rails[n].rail && d.nets@[n].pins.len() != 1 && #[trigger] in_reach(
            d,
            setting_of(o, stop),
            rails,
            depth as int,
            n,
        ) implies exists|i: int|
        0 <= i < e.rails_reached.len() && (#[trigger] e.rails_reached@[i]).net@
            == d.nets@[n].name@ by {
        let i = choose|i: int| 0 <= i < nets.len() && nets[i] == n;
        assert(rail_row(
            d,
            setting_of(o, stop),
            rails,
            depth as int,
            e.rails_reached@[i],
            nets[i],
        ));
    }
}

} // verus!
