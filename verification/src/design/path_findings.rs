//! When two pins are said to be connected, in terms of the nets that they join and the
//! parts between them.
use vstd::prelude::*;

use super::facts::{joins, lemma_part_kinds};
use super::filter_laws::lemma_range;
use super::path_laws::lemma_path_is_shortest;
use super::rails::RailReading;
use super::trace::{DiagnosisReach, Origin, PathBetweenEnvelope, Verdict};
use super::trace_laws::{ends_at, grouped, hops_to, in_design, in_reach, labelled};
use super::trace_laws::{lemma_chain_in_design, lemma_grouped, lemma_leads_is_hops};
use super::trace_laws::{lemma_nearest_is_no_nearer, lemma_tells_parts, lemma_within_is_in_reach};
use super::trace_laws::{no_nearer, setting_of, tells_parts, Setting};
use super::walk::Reached;
use super::walk_distance::lemma_walk_reports_all_in_depth;
use super::walk_findings::{lemma_walk_stops, stopped, within};
use super::walk_laws::lemma_walk_is_sound;
use super::Design;
use crate::lists::lemma_first_where_found;

verus! {

/// The pins are one, or join one net.
pub open spec fn together(d: &Design, p: int, q: int, m: int) -> bool {
    joins(d, p, m) && (p == q || joins(d, q, m))
}

/// Where a path from a pin on the net `m` is looked for: from its net, not back over its
/// part, and no further than a rail.
pub open spec fn path_setting(d: &Design, p: int, m: int) -> Setting {
    Setting { from: m, part: Some(d.pins@[p].comp.0 as int), stop: true }
}

/// The pins have one name.
pub open spec fn namesakes(d: &Design, p: int, q: int) -> bool {
    d.components@[d.pins@[p].comp.0 as int].refdes@ + seq![':'] + d.pins@[p].number@
        == d.components@[d.pins@[q].comp.0 as int].refdes@ + seq![':'] + d.pins@[q].number@
}

/// The answer gives a way of signals from the net `m` to a pin with the name of `q`, over
/// as few parts as any.
pub open spec fn gives_path(
    d: &Design,
    t: Setting,
    rails: Seq<RailReading>,
    e: PathBetweenEnvelope,
    q: int,
) -> bool {
    &&& e.note is None && e.diagnosis is None
    &&& e.distance == Some(e.via.len() as u32) && e.via.len() <= 6
    &&& exists|chain: Seq<int>, r: int, n: int| #[trigger]
        ends_at(d, t, rails, chain, r, n) && namesakes(d, r, q) && tells_parts(d, e.via@, chain)
            && no_nearer(d, t, rails, n, e.via.len() as int)
}

/// The answer gives a way from the net `m` to a rail with the name of the net of `q`, over
/// as few parts as any.
pub open spec fn gives_rail(
    d: &Design,
    t: Setting,
    rails: Seq<RailReading>,
    e: PathBetweenEnvelope,
    q: int,
) -> bool {
    &&& e.diagnosis is None
    &&& e.distance == Some(e.via.len() as u32) && 0 < e.via.len() <= 6
    &&& exists|chain: Seq<int>, n: int, k: int|
        {
            &&& #[trigger] hops_to(d, t, rails, chain, n)
            &&& n != t.from
            &&& 0 <= n < d.nets.len() && rails[n].rail
            &&& #[trigger] joins(d, q, k)
            &&& d.nets@[k].name@ == d.nets@[n].name@
            &&& tells_parts(d, e.via@, chain)
            &&& no_nearer(d, t, rails, n, e.via.len() as int)
            &&& e.note matches Some(s) && s@ == "only via rail "@ + d.nets@[n].name@
                + " (shared power/ground, not a signal path)"@
        }
}

/// The two pins are said to be on one net exactly when they are.
pub proof fn lemma_same_net(d: &Design, p: int, q: int, rails: Seq<RailReading>)
    requires
        0 <= p < d.pins.len(),
        0 <= q < d.pins.len(),
    ensures
        d.verdict(p, q, rails) is SameNet <==> exists|m: int| #[trigger] together(d, p, q, m),
        d.verdict(p, q, rails) is Unconnected <==> d.pins@[p].net is None,
{
    if d.net_of(p) is Some {
        let m = d.net_of(p).unwrap();
        assert(joins(d, p, m));
        if p == q || d.net_of(q) == d.net_of(p) {
            assert(together(d, p, q, m));
        }
    }
}

proof fn lemma_path_setting(d: &Design, p: int, m: int)
    requires
        d.wf(),
        joins(d, p, m),
    ensures
        in_design(d, Origin { net: m, comp: Some(d.owner(p)) }),
        d.path_rules(p) == Design::origin_rules(
            Origin { net: m, comp: Some(d.owner(p)) },
            6,
            100_000,
            true,
        ),
        setting_of(Origin { net: m, comp: Some(d.owner(p)) }, true) == path_setting(d, p, m),
{
    assert(d.pins@[p].id.0 == p);
}

/// A pin without a net is connected to nothing. Two pins on one net are connected with
/// nothing between them. Any others are said to be connected only with a way between
/// them, of signals or, which the note then says, over a rail; over a rail it has a part
/// on it, and where no other pin has the second's name so has a way of signals unless the
/// two join one net.
pub proof fn lemma_connected(
    d: &Design,
    e: PathBetweenEnvelope,
    p: int,
    q: int,
    rails: Seq<RailReading>,
)
    requires
        d.wf(),
        rails.len() == d.nets.len(),
        0 <= p < d.pins.len(),
        0 <= q < d.pins.len(),
        d.path_answer(e, p, q, rails),
    ensures
        d.pins@[p].net is None ==> !e.connected && e.distance is None && e.via.len() == 0
            && e.diagnosis is None && (e.note matches Some(s) && s@ == "from pin is unconnected"@),
        forall|m: int| #[trigger]
            together(d, p, q, m) ==> e.connected && e.distance == Some(0u32) && e.via.len() == 0
                && e.note is None && e.diagnosis is None,
        forall|m: int| #[trigger]
            joins(d, p, m) && !together(d, p, q, m) && e.connected ==> {
                let t = path_setting(d, p, m);
                gives_path(d, t, rails, e, q) || gives_rail(d, t, rails, e, q)
            },
        forall|m: int| #[trigger]
            joins(d, p, m) && !together(d, p, q, m) && e.connected && (forall|r: int|
                0 <= r < d.pins.len() && #[trigger] namesakes(d, r, q) ==> r == q)
                ==> e.via.len() > 0,
{
    reveal_strlit(":");
    assert(":"@ =~= seq![':']);
    lemma_same_net(d, p, q, rails);
    assert forall|m: int| #[trigger]
        joins(d, p, m) && !together(d, p, q, m) && e.connected implies {
        let t = path_setting(d, p, m);
        gives_path(d, t, rails, e, q) || gives_rail(d, t, rails, e, q)
    } && ((forall|r: int| 0 <= r < d.pins.len() && #[trigger] namesakes(d, r, q) ==> r == q)
        ==> e.via.len() > 0) by {
        let t = path_setting(d, p, m);
        let o = Origin { net: m, comp: Some(d.owner(p)) };
        let rules = d.path_rules(p);
        let w = d.path_walk(p, rails);
        lemma_path_setting(d, p, m);
        lemma_path_is_shortest(d, p, q, rails);
        lemma_walk_is_sound(d, rules, rails);
        match d.verdict(p, q, rails) {
            Verdict::Path(r) => {
                let named = |i: int| d.label(w.endpoints[i].pin) == d.label(q);
                lemma_first_where_found(named, 0, w.endpoints.len() as int);
                assert(d.reached_sound(rules, rails, r));
                let n = d.net_of(r.pin).unwrap();
                assert(d.pins@[r.pin].comp.0 < d.components.len());
                assert(d.pins@[r.pin].id.0 == r.pin);
                lemma_part_kinds(d, d.owner(r.pin));
                lemma_leads_is_hops(d, o, 6, 100_000, true, rails, r.via, n);
                lemma_chain_in_design(d, rules, rails, r.via, n);
                lemma_tells_parts(d, e.via@, r.via);
                lemma_nearest_is_no_nearer(d, o, 6, 100_000, true, rails, n, r.depth);
                assert(joins(d, r.pin, n));
                assert(ends_at(d, t, rails, r.via, r.pin, n));
                assert(namesakes(d, r.pin, q));
                assert(gives_path(d, t, rails, e, q));
                if r.via.len() == 0 {
                    assert(n == m);
                    assert(r.pin != q);
                }
            },
            Verdict::Rail(s) => {
                let k = d.net_of(q).unwrap();
                assert(joins(d, q, k));
                let at = |i: int| d.nets@[w.rails[i].net].name@ == d.nets@[k].name@;
                lemma_first_where_found(at, 0, w.rails.len() as int);
                assert(Design::stops_at(rules, rails, s.net));
                lemma_leads_is_hops(d, o, 6, 100_000, true, rails, s.via, s.net);
                lemma_chain_in_design(d, rules, rails, s.via, s.net);
                lemma_tells_parts(d, e.via@, s.via);
                lemma_nearest_is_no_nearer(
                    d,
                    o,
                    6,
                    100_000,
                    true,
                    rails,
                    s.net,
                    s.via.len() as int,
                );
                assert(hops_to(d, t, rails, s.via, s.net) && joins(d, q, k));
                assert(s.via.len() > 0);
                assert(gives_rail(d, t, rails, e, q));
            },
            _ => {},
        }
    }
}

/// A walk lists no more pins than there are.
proof fn lemma_no_more_than_pins(d: &Design, s: Seq<Reached>)
    requires
        forall|i: int| 0 <= i < s.len() ==> 0 <= (#[trigger] s[i]).pin < d.pins.len(),
        forall|i: int, j: int|
            0 <= i < j < s.len() ==> d.label((#[trigger] s[i]).pin) != d.label(
                (#[trigger] s[j]).pin,
            ),
    ensures
        s.len() <= d.pins.len(),
{
    let pins = Seq::new(s.len(), |i: int| s[i].pin);
    assert forall|i: int, j: int| 0 <= i < pins.len() && 0 <= j < pins.len() && i
        != j implies pins[i] != pins[j] by {
        if i < j {
            assert(d.label(s[i].pin) != d.label(s[j].pin));
        } else {
            assert(d.label(s[j].pin) != d.label(s[i].pin));
        }
    }
    pins.unique_seq_to_set();
    lemma_range(d.pins.len() as int);
    let all = Set::new(|p: int| 0 <= p < d.pins.len());
    assert(pins.to_set().subset_of(all)) by {
        assert forall|p: int| pins.to_set().contains(p) implies all.contains(p) by {
            let i = choose|i: int| 0 <= i < pins.len() && pins[i] == p;
            assert(0 <= s[i].pin < d.pins.len());
        }
    }
    vstd::set_lib::lemma_len_subset(pins.to_set(), all);
}

/// In a design of fewer pins than are followed, two pins are said to be connected
/// wherever there is a way between them of at most six parts: one of signals wherever the
/// second pin ends one, and else one over a rail that the second pin joins.
pub proof fn lemma_path_is_given(
    d: &Design,
    e: PathBetweenEnvelope,
    p: int,
    q: int,
    rails: Seq<RailReading>,
    m: int,
    n: int,
    chain: Seq<int>,
)
    requires
        d.wf(),
        rails.len() == d.nets.len(),
        0 <= q < d.pins.len(),
        joins(d, p, m),
        joins(d, q, n),
        d.path_answer(e, p, q, rails),
        d.pins.len() < 100_000,
        chain.len() <= 6,
    ensures
        ends_at(d, path_setting(d, p, m), rails, chain, q, n) ==> e.connected && e.note is None,
        ends_at(d, path_setting(d, p, m), rails, chain, q, n) && (forall|r: int|
            0 <= r < d.pins.len() && #[trigger] namesakes(d, r, q) ==> r == q) ==> e.via.len()
            <= chain.len(),
        hops_to(d, path_setting(d, p, m), rails, chain, n) && n != m && rails[n].rail
            && d.nets@[n].pins.len() != 1 ==> e.connected,
{
    reveal_strlit(":");
    assert(":"@ =~= seq![':']);
    let t = path_setting(d, p, m);
    let o = Origin { net: m, comp: Some(d.owner(p)) };
    let rules = d.path_rules(p);
    let w = d.path_walk(p, rails);
    assert(d.pins@[p].id.0 == p && d.pins@[q].id.0 == q);
    assert(d.pins@[q].comp.0 < d.components.len());
    lemma_path_setting(d, p, m);
    lemma_path_is_shortest(d, p, q, rails);
    lemma_walk_is_sound(d, rules, rails);
    assert forall|i: int| 0 <= i < w.endpoints.len() implies 0 <= (#[trigger] w.endpoints[i]).pin
        < d.pins.len() by {
        assert(d.reached_sound(rules, rails, w.endpoints[i]));
    }
    lemma_no_more_than_pins(d, w.endpoints);
    lemma_leads_is_hops(d, o, 6, 100_000, true, rails, chain, n);
    let named = |i: int| d.label(w.endpoints[i].pin) == d.label(q);
    lemma_first_where_found(named, 0, w.endpoints.len() as int);
    if ends_at(d, t, rails, chain, q, n) {
        lemma_part_kinds(d, d.owner(q));
        lemma_walk_reports_all_in_depth(d, rules, rails, chain, q);
        let i = choose|i: int|
            0 <= i < w.endpoints.len() && d.label((#[trigger] w.endpoints[i]).pin) == d.label(q);
        assert(named(i));
        if let Verdict::Path(r) = d.verdict(p, q, rails) {
            assert(d.reached_sound(rules, rails, r));
            assert(namesakes(d, r.pin, q));
        }
    }
    if hops_to(d, t, rails, chain, n) && n != m && rails[n].rail && d.nets@[n].pins.len() != 1 {
        lemma_walk_stops(d, rules, rails);
        assert(d.leads_to(rules, rails, chain, n) && chain.len() <= rules.max_depth);
        assert(within(d, rules, rails, n));
        assert(stopped(w.rails, n));
        let i = choose|i: int| 0 <= i < w.rails.len() && (#[trigger] w.rails[i]).net == n;
        let at = |i: int| d.nets@[w.rails[i].net].name@ == d.nets@[n].name@;
        assert(at(i));
        lemma_first_where_found(at, 0, w.rails.len() as int);
    }
}

/// The example is of a pin that a way of at most six parts ends on.
pub open spec fn sample_fits(
    d: &Design,
    t: Setting,
    rails: Seq<RailReading>,
    s: DiagnosisReach,
) -> bool {
    exists|chain: Seq<int>, r: int, n: int| #[trigger]
        ends_at(d, t, rails, chain, r, n) && chain.len() <= 6 && labelled(d, r, s.pin@) && grouped(
            d.components@[d.pins@[r].comp.0 as int].refdes@,
            s.kind@,
        )
}

/// The name is that of a rail that at most six parts lead to.
pub open spec fn names_rail(
    d: &Design,
    t: Setting,
    rails: Seq<RailReading>,
    name: Seq<char>,
) -> bool {
    exists|n: int| #[trigger]
        in_reach(d, t, rails, 6, n) && n != t.from && rails[n].rail && name == d.nets@[n].name@
}

/// Where two pins are not connected, the answer tells how far the first pin's connections
/// go: how many nets are within six parts of it, the pins that they end on, twelve of them
/// by example, and every rail that they stop at.
pub proof fn lemma_diagnosis(
    d: &Design,
    e: PathBetweenEnvelope,
    p: int,
    q: int,
    rails: Seq<RailReading>,
    m: int,
)
    requires
        d.wf(),
        rails.len() == d.nets.len(),
        joins(d, p, m),
        0 <= q < d.pins.len(),
        d.path_answer(e, p, q, rails),
    ensures
        e.connected <==> e.diagnosis is None,
        !e.connected ==> {
            let t = path_setting(d, p, m);
            let g = e.diagnosis.unwrap();
            &&& e.distance is None && e.via.len() == 0
            &&& e.note matches Some(s) && s@
                == "no passthrough path within depth 6 (rails are not crossed)"@
            &&& d.pins@[q].net is None ==> g.to_net is None
            &&& forall|n: int| #[trigger]
                joins(d, q, n) ==> (g.to_net matches Some(s) && s@ == d.nets@[n].name@)
            &&& g.from_reachable_nets == Set::new(
                |n: int|
                    in_reach(d, t, rails, 6, n) && (n == m || d.nets@[n].pins.len() != 1),
            ).len()
            &&& g.from_reaches.sample.len() == (if g.from_reaches.count < 12 {
                g.from_reaches.count as int
            } else {
                12
            })
            &&& forall|i: int|
                0 <= i < g.from_reaches.sample.len() ==> sample_fits(
                    d,
                    t,
                    rails,
                    #[trigger] g.from_reaches.sample@[i],
                )
            &&& forall|n: int| #[trigger]
                in_reach(d, t, rails, 6, n) && n != m && rails[n].rail && d.nets@[n].pins.len() != 1
                    ==> exists|i: int|
                    0 <= i < g.from_rails.len() && (#[trigger] g.from_rails@[i])@
                        == d.nets@[n].name@
            &&& forall|i: int|
                0 <= i < g.from_rails.len() ==> names_rail(
                    d,
                    t,
                    rails,
                    (#[trigger] g.from_rails@[i])@,
                )
        },
{
    reveal_strlit(":");
    assert(":"@ =~= seq![':']);
    let t = path_setting(d, p, m);
    let o = Origin { net: m, comp: Some(d.owner(p)) };
    let rules = d.path_rules(p);
    let w = d.path_walk(p, rails);
    assert(d.pins@[p].id.0 == p && d.pins@[q].id.0 == q);
    lemma_path_setting(d, p, m);
    lemma_walk_is_sound(d, rules, rails);
    lemma_walk_stops(d, rules, rails);
    if !e.connected {
        let g = e.diagnosis.unwrap();
        assert(d.diagnosis_is(g, q, w));
        assert forall|n: int| #[trigger] w.nets.contains(n) <==> in_reach(d, t, rails, 6, n) && (n
            == m || d.nets@[n].pins.len() != 1) by {
            lemma_within_is_in_reach(d, o, 6, 100_000, true, rails, n);
        }
        assert(w.nets =~= Set::new(
            |n: int| in_reach(d, t, rails, 6, n) && (n == m || d.nets@[n].pins.len() != 1),
        ));
        assert forall|i: int| 0 <= i < g.from_reaches.sample.len() implies sample_fits(
            d,
            t,
            rails,
            #[trigger] g.from_reaches.sample@[i],
        ) by {
            let r = w.endpoints[i];
            assert(d.reached_sound(rules, rails, r));
            let n = d.net_of(r.pin).unwrap();
            assert(d.pins@[r.pin].comp.0 < d.components.len());
            assert(d.pins@[r.pin].id.0 == r.pin);
            lemma_part_kinds(d, d.owner(r.pin));
            lemma_leads_is_hops(d, o, 6, 100_000, true, rails, r.via, n);
            lemma_grouped(d.components@[d.owner(r.pin)].refdes@);
            assert(ends_at(d, t, rails, r.via, r.pin, n));
        }
        assert forall|n: int| #[trigger]
            in_reach(d, t, rails, 6, n) && n != m && rails[n].rail && d.nets@[n].pins.len()
                != 1 implies exists|i: int|
            0 <= i < g.from_rails.len() && (#[trigger] g.from_rails@[i])@ == d.nets@[n].name@ by {
            lemma_within_is_in_reach(d, o, 6, 100_000, true, rails, n);
            assert(stopped(w.rails, n));
            let i = choose|i: int| 0 <= i < w.rails.len() && (#[trigger] w.rails[i]).net == n;
            assert(g.from_rails@[i] == d.nets@[n].name);
        }
        assert forall|i: int| 0 <= i < g.from_rails.len() implies names_rail(
            d,
            t,
            rails,
            (#[trigger] g.from_rails@[i])@,
        ) by {
            let n = w.rails[i].net;
            assert(stopped(w.rails, n));
            lemma_within_is_in_reach(d, o, 6, 100_000, true, rails, n);
            assert(in_reach(d, t, rails, 6, n));
        }
    }
}

/// The name is that of a pin that a way of at most six parts ends on.
pub open spec fn reached_name(
    d: &Design,
    t: Setting,
    rails: Seq<RailReading>,
    name: Seq<char>,
) -> bool {
    exists|chain: Seq<int>, r: int, n: int| #[trigger]
        ends_at(d, t, rails, chain, r, n) && chain.len() <= 6 && labelled(d, r, name)
}

/// Where two pins are not connected, the answer counts the pins that the first one's
/// connections end on, each name once.
pub proof fn lemma_diagnosis_counts(
    d: &Design,
    e: PathBetweenEnvelope,
    p: int,
    q: int,
    rails: Seq<RailReading>,
    m: int,
)
    requires
        d.wf(),
        rails.len() == d.nets.len(),
        joins(d, p, m),
        0 <= q < d.pins.len(),
        d.path_answer(e, p, q, rails),
        !e.connected,
        d.pins.len() < 100_000,
    ensures
        e.diagnosis matches Some(g) && g.from_reaches.count == Set::new(
            |name: Seq<char>| reached_name(d, path_setting(d, p, m), rails, name),
        ).len(),
{
    reveal_strlit(":");
    assert(":"@ =~= seq![':']);
    let t = path_setting(d, p, m);
    let o = Origin { net: m, comp: Some(d.owner(p)) };
    let rules = d.path_rules(p);
    let w = d.path_walk(p, rails);
    assert(d.pins@[p].id.0 == p && d.pins@[q].id.0 == q);
    lemma_path_setting(d, p, m);
    lemma_walk_is_sound(d, rules, rails);
    let g = e.diagnosis.unwrap();
    assert(d.diagnosis_is(g, q, w));
    assert forall|i: int| 0 <= i < w.endpoints.len() implies 0 <= (#[trigger] w.endpoints[i]).pin
        < d.pins.len() by {
        assert(d.reached_sound(rules, rails, w.endpoints[i]));
    }
    lemma_no_more_than_pins(d, w.endpoints);
    let names = Seq::new(w.endpoints.len(), |i: int| d.label(w.endpoints[i].pin));
    assert forall|i: int, j: int| 0 <= i < names.len() && 0 <= j < names.len() && i
        != j implies names[i] != names[j] by {
        if i < j {
            assert(d.label(w.endpoints[i].pin) != d.label(w.endpoints[j].pin));
        } else {
            assert(d.label(w.endpoints[j].pin) != d.label(w.endpoints[i].pin));
        }
    }
    names.unique_seq_to_set();
    let all = Set::new(|name: Seq<char>| reached_name(d, t, rails, name));
    assert forall|name: Seq<char>| names.to_set().contains(name) <==> all.contains(name) by {
        if names.to_set().contains(name) {
            let i = choose|i: int| 0 <= i < names.len() && names[i] == name;
            let r = w.endpoints[i];
            assert(d.reached_sound(rules, rails, r));
            let n = d.net_of(r.pin).unwrap();
            assert(d.pins@[r.pin].comp.0 < d.components.len());
            assert(d.pins@[r.pin].id.0 == r.pin);
            lemma_part_kinds(d, d.owner(r.pin));
            lemma_leads_is_hops(d, o, 6, 100_000, true, rails, r.via, n);
            assert(ends_at(d, t, rails, r.via, r.pin, n));
            assert(labelled(d, r.pin, name));
        }
        if all.contains(name) {
            let (chain, r, n) = choose|chain: Seq<int>, r: int, n: int| #[trigger]
                ends_at(d, t, rails, chain, r, n) && chain.len() <= 6 && labelled(d, r, name);
            assert(d.pins@[r].comp.0 < d.components.len());
            assert(d.pins@[r].id.0 == r);
            lemma_part_kinds(d, d.owner(r));
            lemma_leads_is_hops(d, o, 6, 100_000, true, rails, chain, n);
            lemma_walk_reports_all_in_depth(d, rules, rails, chain, r);
            let i = choose|i: int|
                0 <= i < w.endpoints.len() && d.label((#[trigger] w.endpoints[i]).pin) == d.label(r);
            assert(names[i] == name);
        }
    }
    assert(names.to_set() =~= all);
}

/// What the answer says of the connection: none where the first pin is on no net, one with
/// nothing between where the two are one pin or on one net, and else one only with a way
/// from the first pin's net to the second pin or to a rail of its net's name.
pub open spec fn connection_told(
    d: &Design,
    e: PathBetweenEnvelope,
    p: int,
    q: int,
    rails: Seq<RailReading>,
) -> bool {
    &&& d.pins@[p].net is None ==> !e.connected
    &&& forall|m: int| #[trigger]
        together(d, p, q, m) ==> e.connected && e.distance == Some(0u32) && e.via.len() == 0
    &&& forall|m: int| #[trigger]
        joins(d, p, m) && !together(d, p, q, m) && e.connected ==> {
            let t = path_setting(d, p, m);
            gives_path(d, t, rails, e, q) || gives_rail(d, t, rails, e, q)
        }
}

} // verus!
