//! Tracing connections through two-pin passives to the parts that nets end on.
use vstd::hash_map::StringHashMap;
use vstd::prelude::*;
use vstd::set_lib::set_int_range;

use super::classes::{endpoint_kind, in_probe_classes, is_endpoint_class, is_passive_passthrough};
use super::classes::{is_probe_class, kind_of, refdes_class};
use super::rails::RailReading;
use super::{lemma_lists_in_range, CompId, Component, Design, NetId, PinId};
use crate::text::copy_text;

verus! {

/// Where a walk starts and what bounds it.
#[derive(Debug, Clone, Copy)]
pub struct WalkRules {
    pub start_net: usize,
    /// The part whose pin the walk starts from; it is never reported.
    pub start_comp: Option<usize>,
    pub max_depth: u32,
    pub max_endpoints: u32,
    pub stop_at_power: bool,
}

/// A net to visit, with the parts passed through on the way to it.
pub struct Visit {
    pub net: int,
    pub via: Seq<int>,
    pub depth: int,
}

/// A pin that a walk ended on.
pub struct Reached {
    pub pin: int,
    pub via: Seq<int>,
    pub depth: int,
}

/// A net that a walk stopped at.
pub struct Stop {
    pub net: int,
    pub via: Seq<int>,
}

/// A branch that came to nothing.
pub struct Fizzle {
    pub net: Option<int>,
    /// The branch goes nowhere, as opposed to a net without a part to end on.
    pub dangling: bool,
    pub via: Seq<int>,
    pub parts: Seq<int>,
    /// A probe is on the net.
    pub probe: bool,
}

/// How far a walk has come.
#[verifier::ext_equal]
pub struct Walk {
    pub queue: Seq<Visit>,
    pub nets: Set<int>,
    pub comps: Set<int>,
    /// The names of the pins met as endpoints.
    pub labels: Set<Seq<char>>,
    /// The names under which branches that came to nothing were met.
    pub ends: Set<Seq<char>>,
    pub endpoints: Seq<Reached>,
    pub rails: Seq<Stop>,
    pub large: Seq<Stop>,
    pub dead: Seq<Fizzle>,
    pub truncated: bool,
}

/// A net with more pins than this is reported and not entered.
pub const LARGE_NET: usize = 40;

impl Design {
    /// The first pin of a component that is not `p`.
    pub open spec fn other_pin(&self, c: int, p: int) -> Option<int> {
        let ids = self.comp_pins(c);
        if ids.len() > 0 && ids[0] != p {
            Some(ids[0])
        } else if ids.len() > 1 && ids[1] != p {
            Some(ids[1])
        } else {
            None
        }
    }

    /// The net that a pin is on.
    pub open spec fn net_of(&self, p: int) -> Option<int> {
        match self.pins@[p].net {
            Some(n) => Some(n.0 as int),
            None => None,
        }
    }

    /// The walk with a branch that came to nothing, unless one was met under the name or
    /// enough are reported.
    pub open spec fn fizzled(w: Walk, name: Seq<char>, f: Fizzle, rules: WalkRules) -> Walk {
        if w.ends.contains(name) {
            w
        } else {
            Walk {
                ends: w.ends.insert(name),
                dead: if w.dead.len() < rules.max_endpoints {
                    w.dead.push(f)
                } else {
                    w.dead
                },
                ..w
            }
        }
    }

    /// The walk after it has gone through the component `c` from the net of `v` to the
    /// component's other pin `q`.
    pub open spec fn passed(&self, rules: WalkRules, w: Walk, v: Visit, c: int, q: int) -> Walk {
        let via = v.via.push(c);
        match self.net_of(q) {
            None => Self::fizzled(
                w,
                "nc:"@ + self.components@[c].refdes@,
                Fizzle { net: None, dangling: true, via, parts: Seq::empty(), probe: false },
                rules,
            ),
            Some(m) => if m == v.net {
                w
            } else if self.net_pins(m).len() == 1 {
                Self::fizzled(
                    w,
                    self.nets@[m].name@,
                    Fizzle { net: Some(m), dangling: true, via, parts: Seq::empty(), probe: false },
                    rules,
                )
            } else if v.depth < rules.max_depth {
                Walk { queue: w.queue.push(Visit { net: m, via, depth: v.depth + 1 }), ..w }
            } else {
                Walk { truncated: true, ..w }
            },
        }
    }

    /// The walk after it has ended on the pin `p`.
    pub open spec fn ended(&self, rules: WalkRules, w: Walk, v: Visit, p: int) -> Walk {
        if rules.start_comp == Some(self.owner(p) as usize) || w.labels.contains(self.label(p)) {
            w
        } else {
            let met = Walk { labels: w.labels.insert(self.label(p)), ..w };
            if w.endpoints.len() >= rules.max_endpoints {
                Walk { truncated: true, ..met }
            } else {
                Walk {
                    endpoints: w.endpoints.push(Reached { pin: p, via: v.via, depth: v.depth }),
                    ..met
                }
            }
        }
    }

    /// The walk after it has looked at one pin of the net it visits.
    pub open spec fn looked_at(&self, rules: WalkRules, w: Walk, v: Visit, p: int) -> Walk {
        let c = self.owner(p);
        if v.via.len() == 0 && rules.start_comp == Some(c as usize) {
            w
        } else if w.comps.contains(c) {
            w
        } else if self.passes(c) {
            let met = Walk { comps: w.comps.insert(c), ..w };
            match self.other_pin(c, p) {
                None => met,
                Some(q) => self.passed(rules, met, v, c, q),
            }
        } else {
            self.ended(rules, w, v, p)
        }
    }

    /// The walk after it has looked at the first `k` pins of the net it visits.
    pub open spec fn looked_through(&self, rules: WalkRules, w: Walk, v: Visit, k: int) -> Walk
        decreases k,
    {
        if k <= 0 {
            w
        } else {
            self.looked_at(
                rules,
                self.looked_through(rules, w, v, k - 1),
                v,
                self.net_pins(v.net)[k - 1],
            )
        }
    }

    /// A net can end on one of the parts on this one.
    pub open spec fn has_endpoint(&self, n: int) -> bool {
        exists|i: int|
            0 <= i < self.net_pins(n).len() && self.ends_on(
                self.owner(#[trigger] self.net_pins(n)[i]),
            )
    }

    /// The distinct parts among the first `k` pins that nets do not end on.
    pub open spec fn inert_parts(&self, n: int, k: int) -> Seq<int>
        decreases k,
    {
        if k <= 0 {
            Seq::empty()
        } else {
            let front = self.inert_parts(n, k - 1);
            let c = self.owner(self.net_pins(n)[k - 1]);
            if self.ends_on(c) || front.contains(c) {
                front
            } else {
                front.push(c)
            }
        }
    }

    pub open spec fn has_probe(&self, n: int) -> bool {
        exists|i: int|
            0 <= i < self.net_pins(n).len() && is_probe_class(
                self.class(self.owner(#[trigger] self.net_pins(n)[i])),
            )
    }

    /// The walk with a net that no part ends noted as such.
    pub open spec fn noted(&self, rules: WalkRules, w: Walk, v: Visit) -> Walk {
        if self.has_endpoint(v.net) {
            w
        } else {
            Self::fizzled(
                w,
                self.nets@[v.net].name@,
                Fizzle {
                    net: Some(v.net),
                    dangling: false,
                    via: v.via,
                    parts: self.inert_parts(v.net, self.net_pins(v.net).len() as int),
                    probe: self.has_probe(v.net),
                },
                rules,
            )
        }
    }

    /// Whether a walk stops at a net because it is a rail.
    pub open spec fn stops_at(rules: WalkRules, rails: Seq<RailReading>, n: int) -> bool {
        n != rules.start_net && rules.stop_at_power && rails[n].rail
    }

    /// Whether a walk stops at a net because of its size.
    pub open spec fn too_large(&self, rules: WalkRules, n: int) -> bool {
        n != rules.start_net && self.net_pins(n).len() > LARGE_NET
    }

    /// The walk after it has visited a net.
    pub open spec fn visited(
        &self,
        rules: WalkRules,
        rails: Seq<RailReading>,
        w: Walk,
        v: Visit,
    ) -> Walk {
        let stop = Stop { net: v.net, via: v.via };
        if Self::stops_at(rules, rails, v.net) {
            Walk { rails: w.rails.push(stop), ..w }
        } else if self.too_large(rules, v.net) {
            Walk { large: w.large.push(stop), ..w }
        } else {
            let entered = if v.net == rules.start_net {
                w
            } else {
                self.noted(rules, w, v)
            };
            self.looked_through(rules, entered, v, self.net_pins(v.net).len() as int)
        }
    }

    /// The nets that a walk has not visited.
    pub open spec fn unvisited(&self, nets: Set<int>) -> Set<int> {
        set_int_range(0, self.nets.len() as int).difference(nets)
    }

    /// The walk after its queue has run empty: nets are visited in the order in which
    /// they were queued, each once.
    pub open spec fn walked(&self, rules: WalkRules, rails: Seq<RailReading>, w: Walk) -> Walk
        decreases self.unvisited(w.nets).len(), w.queue.len(),
    {
        if w.queue.len() == 0 {
            w
        } else {
            let v = w.queue[0];
            let rest = Walk { queue: w.queue.skip(1), ..w };
            if w.nets.contains(v.net) || !(0 <= v.net < self.nets.len()) {
                self.walked(rules, rails, rest)
            } else {
                proof {
                    lemma_unvisited(self, w.nets, v.net);
                }
                self.walked(
                    rules,
                    rails,
                    Walk {
                        nets: w.nets.insert(v.net),
                        ..self.visited(rules, rails, rest, v)
                    },
                )
            }
        }
    }

    /// The walk before its first step.
    pub open spec fn setting_out(rules: WalkRules) -> Walk {
        Walk {
            queue: seq![Visit { net: rules.start_net as int, via: Seq::empty(), depth: 0 }],
            nets: Set::empty(),
            comps: Set::empty(),
            labels: Set::empty(),
            ends: Set::empty(),
            endpoints: Seq::empty(),
            rails: Seq::empty(),
            large: Seq::empty(),
            dead: Seq::empty(),
            truncated: false,
        }
    }

    /// The whole walk.
    pub open spec fn whole_walk(&self, rules: WalkRules, rails: Seq<RailReading>) -> Walk {
        self.walked(rules, rails, Self::setting_out(rules))
    }
}

pub proof fn lemma_unvisited(d: &Design, nets: Set<int>, n: int)
    requires
        0 <= n < d.nets.len(),
        !nets.contains(n),
    ensures
        d.unvisited(nets.insert(n)).len() < d.unvisited(nets).len(),
{
    vstd::set_lib::lemma_int_range(0, d.nets.len() as int);
    let all = set_int_range(0, d.nets.len() as int);
    vstd::set_lib::lemma_len_difference(all, nets);
    assert(d.unvisited(nets).contains(n));
    assert(d.unvisited(nets.insert(n)) =~= d.unvisited(nets).remove(n));
}

/// One part passed through on the way.
#[derive(Debug)]
pub struct ViaPart {
    pub refdes: String,
    pub value: String,
    pub class: String,
    /// The part is not fitted, so on the built board this hop does not exist.
    pub dnp: bool,
}

/// The part that a reached pin belongs to.
#[derive(Debug)]
pub struct EndpointComponent {
    pub refdes: String,
    pub value: String,
    pub description: Option<String>,
    pub sheet: Option<String>,
    pub dnp: bool,
}

/// A pin that a walk ended on, and how it got there.
#[derive(Debug)]
pub struct WalkEndpoint {
    pub pin: String,
    pub pin_name: Option<String>,
    pub pin_type: Option<String>,
    pub component: EndpointComponent,
    pub kind: String,
    pub via: Vec<ViaPart>,
    pub distance: u32,
}

/// A branch that came to nothing: it dangles, or no part ends the net that it reached.
#[derive(Debug)]
pub struct DeadEnd {
    pub net: Option<String>,
    pub fanout: usize,
    pub via: Vec<ViaPart>,
    /// The parts on the net that nets do not end on.
    pub parts: Vec<ViaPart>,
    pub reason: String,
}

/// A rail that a walk stopped at.
#[derive(Debug)]
pub struct RailReached {
    pub net: String,
    /// The rail score in hundredths.
    pub hundredths: u32,
    pub via: Vec<ViaPart>,
}

/// A net that a walk stopped at because of its size.
#[derive(Debug)]
pub struct LargeNet {
    pub net: String,
    pub fanout: usize,
    pub via: Vec<ViaPart>,
}

/// What a walk found, in the order in which it found it.
#[derive(Debug)]
pub struct WalkData {
    pub endpoints: Vec<WalkEndpoint>,
    pub rails_reached: Vec<RailReached>,
    pub large_nets: Vec<LargeNet>,
    pub dead_ends: Vec<DeadEnd>,
    pub truncated: bool,
    /// How many nets were visited.
    pub reached_net_count: usize,
}

/// The places that a list of components holds.
pub open spec fn comp_ids(v: Seq<CompId>) -> Seq<int> {
    v.map_values(|c: CompId| c.0 as int)
}

/// Why a branch came to nothing.
pub open spec fn fizzle_reason(f: Fizzle) -> Seq<char> {
    if f.dangling {
        "dangling (goes nowhere)"@
    } else if f.probe {
        "only passives and probe/mechanical parts, no active endpoint"@
    } else {
        "only passives, no active endpoint"@
    }
}

impl Design {
    pub open spec fn via_part_is(&self, v: ViaPart, c: int) -> bool {
        let comp = self.components@[c];
        v.refdes == comp.refdes && v.value == comp.value && v.class@ == self.class(c) && v.dnp
            == comp.dnp
    }

    pub open spec fn via_is(&self, v: Seq<ViaPart>, ids: Seq<int>) -> bool {
        v.len() == ids.len() && forall|i: int|
            0 <= i < v.len() ==> self.via_part_is(#[trigger] v[i], ids[i])
    }

    pub open spec fn endpoint_is(&self, e: WalkEndpoint, r: Reached) -> bool {
        let pin = self.pins@[r.pin];
        let comp = self.components@[self.owner(r.pin)];
        &&& e.pin@ == self.label(r.pin)
        &&& e.pin_name == pin.name
        &&& e.pin_type == pin.pin_type
        &&& e.component.refdes == comp.refdes
        &&& e.component.value == comp.value
        &&& e.component.description == comp.description
        &&& e.component.sheet == comp.sheet
        &&& e.component.dnp == comp.dnp
        &&& e.kind@ == kind_of(self.class(self.owner(r.pin)))
        &&& self.via_is(e.via@, r.via)
        &&& e.distance == r.depth
    }

    pub open spec fn rail_is(&self, e: RailReached, s: Stop, rails: Seq<RailReading>) -> bool {
        e.net == self.nets@[s.net].name && e.hundredths == rails[s.net].hundredths && self.via_is(
            e.via@,
            s.via,
        )
    }

    pub open spec fn large_is(&self, e: LargeNet, s: Stop) -> bool {
        e.net == self.nets@[s.net].name && e.fanout == self.net_pins(s.net).len() && self.via_is(
            e.via@,
            s.via,
        )
    }

    pub open spec fn dead_is(&self, e: DeadEnd, f: Fizzle) -> bool {
        &&& match f.net {
            None => e.net is None && e.fanout == 0,
            Some(n) => e.net == Some(self.nets@[n].name) && e.fanout == self.net_pins(n).len(),
        }
        &&& self.via_is(e.via@, f.via)
        &&& self.via_is(e.parts@, f.parts)
        &&& e.reason@ == fizzle_reason(f)
    }

    pub open spec fn endpoints_are(&self, v: Seq<WalkEndpoint>, w: Seq<Reached>) -> bool {
        v.len() == w.len() && forall|i: int|
            0 <= i < v.len() ==> self.endpoint_is(#[trigger] v[i], w[i])
    }

    pub open spec fn rails_are(
        &self,
        v: Seq<RailReached>,
        w: Seq<Stop>,
        rails: Seq<RailReading>,
    ) -> bool {
        v.len() == w.len() && forall|i: int|
            0 <= i < v.len() ==> self.rail_is(#[trigger] v[i], w[i], rails)
    }

    pub open spec fn large_are(&self, v: Seq<LargeNet>, w: Seq<Stop>) -> bool {
        v.len() == w.len() && forall|i: int|
            0 <= i < v.len() ==> self.large_is(#[trigger] v[i], w[i])
    }

    pub open spec fn dead_are(&self, v: Seq<DeadEnd>, w: Seq<Fizzle>) -> bool {
        v.len() == w.len() && forall|i: int|
            0 <= i < v.len() ==> self.dead_is(#[trigger] v[i], w[i])
    }

    /// The data report what the walk found.
    pub open spec fn reports(&self, r: WalkData, w: Walk, rails: Seq<RailReading>) -> bool {
        &&& self.endpoints_are(r.endpoints@, w.endpoints)
        &&& self.rails_are(r.rails_reached@, w.rails, rails)
        &&& self.large_are(r.large_nets@, w.large)
        &&& self.dead_are(r.dead_ends@, w.dead)
        &&& r.truncated == w.truncated
        &&& r.reached_net_count == w.nets.len()
    }

    fn via_part(&self, comp: &Component) -> (r: ViaPart)
        ensures
            forall|c: int|
                0 <= c < self.components.len() && self.components@[c] == *comp
                    ==> #[trigger] self.via_part_is(r, c),
    {
        ViaPart {
            refdes: comp.refdes.clone(),
            value: comp.value.clone(),
            class: refdes_class(comp.refdes.as_str()),
            dnp: comp.dnp,
        }
    }

    /// The parts of a chain as they are reported.
    pub fn via_parts(&self, chain: &Vec<CompId>) -> (r: Vec<ViaPart>)
        requires
            forall|i: int| 0 <= i < chain.len() ==> (#[trigger] chain@[i]).0 < self.components.len(),
        ensures
            self.via_is(r@, comp_ids(chain@)),
    {
        let mut out: Vec<ViaPart> = Vec::new();
        let mut i: usize = 0;
        while i < chain.len()
            invariant
                i <= chain.len(),
                out.len() == i,
                forall|i: int|
                    0 <= i < chain.len() ==> (#[trigger] chain@[i]).0 < self.components.len(),
                forall|k: int|
                    0 <= k < i ==> self.via_part_is(#[trigger] out@[k], comp_ids(chain@)[k]),
            decreases chain.len() - i,
        {
            let part = self.via_part(&self.components[chain[i].0]);
            assert(self.via_part_is(part, comp_ids(chain@)[i as int]));
            out.push(part);
            i += 1;
        }
        out
    }
}

/// A copy of a chain with one more part.
fn longer(chain: &Vec<CompId>, c: CompId) -> (r: Vec<CompId>)
    ensures
        r@ == chain@.push(c),
        comp_ids(r@) == comp_ids(chain@).push(c.0 as int),
{
    let mut out: Vec<CompId> = Vec::new();
    let mut i: usize = 0;
    while i < chain.len()
        invariant
            i <= chain.len(),
            out@ == chain@.take(i as int),
        decreases chain.len() - i,
    {
        out.push(chain[i]);
        i += 1;
    }
    assert(out@ =~= chain@);
    out.push(c);
    assert(comp_ids(out@) =~= comp_ids(chain@).push(c.0 as int));
    out
}

/// A queued net.
struct Waiting {
    net: usize,
    via: Vec<CompId>,
    depth: u32,
}

/// A walk in progress.
struct Walker {
    queue: Vec<Waiting>,
    head: usize,
    seen_nets: Vec<bool>,
    net_count: usize,
    seen_comps: Vec<bool>,
    labels: StringHashMap<()>,
    ends: StringHashMap<()>,
    data: WalkData,
    model: Ghost<Walk>,
}

spec fn waiting_is(q: Waiting, v: Visit) -> bool {
    q.net == v.net && comp_ids(q.via@) == v.via && q.depth == v.depth
}

spec fn via_known(via: Seq<int>, d: &Design) -> bool {
    forall|i: int| 0 <= i < via.len() ==> 0 <= #[trigger] via[i] < d.components.len()
}

/// The visit is to a net of the design, over components of it.
spec fn visit_known(v: Visit, d: &Design) -> bool {
    0 <= v.net < d.nets.len() && via_known(v.via, d)
}

impl Walker {
    spec fn queue_is(&self, d: &Design) -> bool {
        let w = self.model@;
        &&& self.head <= self.queue.len()
        &&& self.queue.len() - self.head == w.queue.len()
        &&& forall|i: int|
            0 <= i < w.queue.len() ==> waiting_is(
                self.queue@[self.head + i],
                #[trigger] w.queue[i],
            ) && visit_known(w.queue[i], d)
    }

    spec fn marks_are(&self, d: &Design) -> bool {
        let w = self.model@;
        &&& self.seen_nets.len() == d.nets.len()
        &&& forall|n: int|
            0 <= n < d.nets.len() ==> #[trigger] self.seen_nets@[n] == w.nets.contains(n)
        &&& forall|n: int| #[trigger] w.nets.contains(n) ==> 0 <= n < d.nets.len()
        &&& w.nets.finite()
        &&& self.net_count == w.nets.len()
        &&& self.seen_comps.len() == d.components.len()
        &&& forall|c: int|
            0 <= c < d.components.len() ==> #[trigger] self.seen_comps@[c] == w.comps.contains(c)
        &&& self.labels@.dom() == w.labels
        &&& self.ends@.dom() == w.ends
    }

    spec fn findings_are(&self, d: &Design, rails: Seq<RailReading>) -> bool {
        let w = self.model@;
        &&& d.endpoints_are(self.data.endpoints@, w.endpoints)
        &&& d.rails_are(self.data.rails_reached@, w.rails, rails)
        &&& d.large_are(self.data.large_nets@, w.large)
        &&& d.dead_are(self.data.dead_ends@, w.dead)
        &&& self.data.truncated == w.truncated
    }

    spec fn ok(&self, d: &Design, rails: Seq<RailReading>) -> bool {
        self.queue_is(d) && self.marks_are(d) && self.findings_are(d, rails)
    }

    fn add_dead(
        &mut self,
        d: &Design,
        rails: &Vec<RailReading>,
        rules: &WalkRules,
        name: String,
        dead: DeadEnd,
        Ghost(f): Ghost<Fizzle>,
    )
        requires
            old(self).ok(d, rails@),
            d.dead_is(dead, f),
        ensures
            final(self).ok(d, rails@),
            final(self).model@ == Design::fizzled(old(self).model@, name@, f, *rules),
            final(self).queue == old(self).queue,
            final(self).head == old(self).head,
    {
        let ghost w = self.model@;
        if self.ends.contains_key(name.as_str()) {
            return;
        }
        let room = self.data.dead_ends.len() < rules.max_endpoints as usize;
        self.ends.insert(name, ());
        assert(self.ends@.dom() =~= w.ends.insert(name@));
        if room {
            self.data.dead_ends.push(dead);
        }
        self.model = Ghost(Design::fizzled(w, name@, f, *rules));
    }

    /// Goes through the component `c` to its other pin.
    fn pass_through(
        &mut self,
        d: &Design,
        rails: &Vec<RailReading>,
        rules: &WalkRules,
        cur: &Waiting,
        c: CompId,
        q: PinId,
        Ghost(v): Ghost<Visit>,
    )
        requires
            old(self).ok(d, rails@),
            d.wf(),
            waiting_is(*cur, v),
            visit_known(v, d),
            c.0 < d.components.len(),
            q.0 < d.pins.len(),
        ensures
            final(self).ok(d, rails@),
            final(self).model@ == d.passed(*rules, old(self).model@, v, c.0 as int, q.0 as int),
    {
        let ghost w = self.model@;
        let more = longer(&cur.via, c);
        let ghost via = v.via.push(c.0 as int);
        proof {
            assert(comp_ids(more@) == via);
            assert forall|i: int| 0 <= i < more.len() implies (#[trigger] more@[i]).0
                < d.components.len() by {
                assert(comp_ids(more@)[i] == more@[i].0);
                if i < v.via.len() {
                    assert(via[i] == v.via[i]);
                }
            }
        }
        match d.pins[q.0].net {
            None => {
                let mut name = "nc:".to_owned();
                name.append(d.components[c.0].refdes.as_str());
                let ghost f = Fizzle {
                    net: None,
                    dangling: true,
                    via,
                    parts: Seq::empty(),
                    probe: false,
                };
                let dead = DeadEnd {
                    net: None,
                    fanout: 0,
                    via: d.via_parts(&more),
                    parts: Vec::new(),
                    reason: "dangling (goes nowhere)".to_owned(),
                };
                self.add_dead(d, rails, rules, name, dead, Ghost(f));
            },
            Some(n) => {
                let m: usize = n.0;
                if m == cur.net {
                    return;
                }
                if d.nets[m].pins.len() == 1 {
                    let ghost f = Fizzle {
                        net: Some(m as int),
                        dangling: true,
                        via,
                        parts: Seq::empty(),
                        probe: false,
                    };
                    let dead = DeadEnd {
                        net: Some(d.nets[m].name.clone()),
                        fanout: 1,
                        via: d.via_parts(&more),
                        parts: Vec::new(),
                        reason: "dangling (goes nowhere)".to_owned(),
                    };
                    self.add_dead(d, rails, rules, d.nets[m].name.clone(), dead, Ghost(f));
                } else if cur.depth < rules.max_depth {
                    let ghost next = Visit { net: m as int, via, depth: v.depth + 1 };
                    let ghost was = self.queue@;
                    self.queue.push(Waiting { net: m, via: more, depth: cur.depth + 1 });
                    self.model = Ghost(Walk { queue: w.queue.push(next), ..w });
                    proof {
                        assert forall|i: int| 0 <= i < via.len() implies 0 <= #[trigger] via[i]
                            < d.components.len() by {
                            assert(comp_ids(more@)[i] == more@[i].0);
                        }
                        let now = self.model@.queue;
                        assert forall|i: int| 0 <= i < now.len() implies waiting_is(
                            self.queue@[self.head + i],
                            #[trigger] now[i],
                        ) && visit_known(now[i], d) by {
                            if i < w.queue.len() {
                                assert(now[i] == w.queue[i]);
                                assert(self.queue@[self.head + i] == was[self.head + i]);
                            }
                        }
                    }
                } else {
                    self.data.truncated = true;
                    self.model = Ghost(Walk { truncated: true, ..w });
                }
            },
        }
    }

    /// Ends on a pin.
    fn end_on(
        &mut self,
        d: &Design,
        rails: &Vec<RailReading>,
        rules: &WalkRules,
        cur: &Waiting,
        p: PinId,
        Ghost(v): Ghost<Visit>,
    )
        requires
            old(self).ok(d, rails@),
            d.wf(),
            waiting_is(*cur, v),
            visit_known(v, d),
            p.0 < d.pins.len(),
        ensures
            final(self).ok(d, rails@),
            final(self).model@ == d.ended(*rules, old(self).model@, v, p.0 as int),
    {
        let ghost w = self.model@;
        let pin = &d.pins[p.0];
        let c: usize = pin.comp.0;
        if let Some(s) = rules.start_comp {
            if s == c {
                return;
            }
        }
        let label = d.pin_name(&p);
        if self.labels.contains_key(label.as_str()) {
            return;
        }
        self.labels.insert(label.clone(), ());
        assert(self.labels@.dom() =~= w.labels.insert(label@));
        let ghost met = Walk { labels: w.labels.insert(label@), ..w };
        if self.data.endpoints.len() >= rules.max_endpoints as usize {
            self.data.truncated = true;
            self.model = Ghost(Walk { truncated: true, ..met });
            return;
        }
        proof {
            assert forall|i: int| 0 <= i < cur.via.len() implies (#[trigger] cur.via@[i]).0
                < d.components.len() by {
                assert(v.via[i] == cur.via@[i].0);
            }
        }
        let comp = &d.components[c];
        let e = WalkEndpoint {
            pin: label,
            pin_name: copy_text(&pin.name),
            pin_type: copy_text(&pin.pin_type),
            component: EndpointComponent {
                refdes: comp.refdes.clone(),
                value: comp.value.clone(),
                description: copy_text(&comp.description),
                sheet: copy_text(&comp.sheet),
                dnp: comp.dnp,
            },
            kind: endpoint_kind(refdes_class(comp.refdes.as_str()).as_str()),
            via: d.via_parts(&cur.via),
            distance: cur.depth,
        };
        let ghost r = Reached { pin: p.0 as int, via: v.via, depth: v.depth };
        assert(d.endpoint_is(e, r));
        self.data.endpoints.push(e);
        self.model = Ghost(Walk { endpoints: w.endpoints.push(r), ..met });
    }

    /// Looks at one pin of the net that is visited.
    fn look_at(
        &mut self,
        d: &Design,
        rails: &Vec<RailReading>,
        rules: &WalkRules,
        cur: &Waiting,
        p: PinId,
        Ghost(v): Ghost<Visit>,
    )
        requires
            old(self).ok(d, rails@),
            d.wf(),
            waiting_is(*cur, v),
            visit_known(v, d),
            p.0 < d.pins.len(),
        ensures
            final(self).ok(d, rails@),
            final(self).model@ == d.looked_at(*rules, old(self).model@, v, p.0 as int),
    {
        let ghost w = self.model@;
        let c: CompId = d.pins[p.0].comp;
        if cur.via.len() == 0 {
            if let Some(s) = rules.start_comp {
                if s == c.0 {
                    return;
                }
            }
        }
        if self.seen_comps[c.0] {
            return;
        }
        let comp = &d.components[c.0];
        let class = refdes_class(comp.refdes.as_str());
        if !is_passive_passthrough(class.as_str(), comp.pins.len()) {
            self.end_on(d, rails, rules, cur, p, Ghost(v));
            return;
        }
        self.seen_comps.set(c.0, true);
        self.model = Ghost(Walk { comps: w.comps.insert(c.0 as int), ..w });
        let ghost ids = d.comp_pins(c.0 as int);
        assert(ids[0] == comp.pins@[0].0 && ids[1] == comp.pins@[1].0);
        proof {
            lemma_lists_in_range(d);
        }
        if comp.pins[0].0 != p.0 {
            self.pass_through(d, rails, rules, cur, c, comp.pins[0], Ghost(v));
        } else if comp.pins[1].0 != p.0 {
            self.pass_through(d, rails, rules, cur, c, comp.pins[1], Ghost(v));
        }
    }

    /// Notes the net that is visited if no part on it ends it.
    fn note_net(
        &mut self,
        d: &Design,
        rails: &Vec<RailReading>,
        rules: &WalkRules,
        cur: &Waiting,
        Ghost(v): Ghost<Visit>,
    )
        requires
            old(self).ok(d, rails@),
            d.wf(),
            waiting_is(*cur, v),
            visit_known(v, d),
        ensures
            final(self).ok(d, rails@),
            final(self).model@ == d.noted(*rules, old(self).model@, v),
    {
        let net = &d.nets[cur.net];
        let ghost ids = d.net_pins(v.net);
        let mut has_probe = false;
        let mut inert: Vec<CompId> = Vec::new();
        let mut i: usize = 0;
        proof {
            lemma_lists_in_range(d);
        }
        assert(comp_ids(inert@) =~= Seq::<int>::empty());
        while i < net.pins.len()
            invariant
                i <= net.pins.len(),
                d.wf(),
                cur.net == v.net,
                visit_known(v, d),
                *net == d.nets@[v.net],
                ids == d.net_pins(v.net),
                self.ok(d, rails@),
                self.model@ == old(self).model@,
                forall|k: int|
                    0 <= k < net.pins.len() ==> (#[trigger] net.pins@[k]).0 < d.pins.len(),
                forall|k: int| 0 <= k < i ==> !d.ends_on(d.owner(#[trigger] ids[k])),
                has_probe <==> exists|k: int|
                    0 <= k < i && is_probe_class(d.class(d.owner(#[trigger] ids[k]))),
                comp_ids(inert@) == d.inert_parts(v.net, i as int),
                forall|k: int| 0 <= k < inert.len() ==> (#[trigger] inert@[k]).0 < d.components.len(),
            decreases net.pins.len() - i,
        {
            let p: PinId = net.pins[i];
            let c: CompId = d.pins[p.0].comp;
            assert(ids[i as int] == p.0);
            let comp = &d.components[c.0];
            let class = refdes_class(comp.refdes.as_str());
            if is_endpoint_class(class.as_str(), comp.pins.len()) {
                assert(d.has_endpoint(v.net));
                return;
            }
            if in_probe_classes(class.as_str()) {
                has_probe = true;
            }
            assert(has_probe <==> exists|k: int|
                0 <= k < i + 1 && is_probe_class(d.class(d.owner(#[trigger] ids[k]))));
            let ghost front = inert@;
            if !holds_comp(&inert, c) {
                inert.push(c);
                assert(comp_ids(inert@) =~= comp_ids(front).push(c.0 as int));
            }
            i += 1;
        }
        let reason = if has_probe {
            "only passives and probe/mechanical parts, no active endpoint"
        } else {
            "only passives, no active endpoint"
        };
        let ghost f = Fizzle {
            net: Some(v.net),
            dangling: false,
            via: v.via,
            parts: d.inert_parts(v.net, ids.len() as int),
            probe: d.has_probe(v.net),
        };
        proof {
            assert forall|k: int| 0 <= k < cur.via.len() implies (#[trigger] cur.via@[k]).0
                < d.components.len() by {
                assert(v.via[k] == cur.via@[k].0);
            }
        }
        let dead = DeadEnd {
            net: Some(net.name.clone()),
            fanout: net.pins.len(),
            via: d.via_parts(&cur.via),
            parts: d.via_parts(&inert),
            reason: reason.to_owned(),
        };
        assert(d.dead_is(dead, f));
        self.add_dead(d, rails, rules, net.name.clone(), dead, Ghost(f));
    }

    /// Visits a net.
    fn visit(
        &mut self,
        d: &Design,
        rails: &Vec<RailReading>,
        rules: &WalkRules,
        cur: &Waiting,
        Ghost(v): Ghost<Visit>,
    )
        requires
            old(self).ok(d, rails@),
            d.wf(),
            rails.len() == d.nets.len(),
            waiting_is(*cur, v),
            visit_known(v, d),
        ensures
            final(self).ok(d, rails@),
            final(self).model@ == d.visited(*rules, rails@, old(self).model@, v),
    {
        let ghost w = self.model@;
        let net = &d.nets[cur.net];
        proof {
            lemma_lists_in_range(d);
            assert forall|k: int| 0 <= k < cur.via.len() implies (#[trigger] cur.via@[k]).0
                < d.components.len() by {
                assert(v.via[k] == cur.via@[k].0);
            }
        }
        if cur.net != rules.start_net {
            let ghost stop = Stop { net: v.net, via: v.via };
            if rules.stop_at_power && rails[cur.net].rail {
                self.data.rails_reached.push(
                    RailReached {
                        net: net.name.clone(),
                        hundredths: rails[cur.net].hundredths,
                        via: d.via_parts(&cur.via),
                    },
                );
                self.model = Ghost(Walk { rails: w.rails.push(stop), ..w });
                return;
            }
            if net.pins.len() > LARGE_NET {
                self.data.large_nets.push(
                    LargeNet {
                        net: net.name.clone(),
                        fanout: net.pins.len(),
                        via: d.via_parts(&cur.via),
                    },
                );
                self.model = Ghost(Walk { large: w.large.push(stop), ..w });
                return;
            }
            self.note_net(d, rails, rules, cur, Ghost(v));
        }
        let ghost entered = self.model@;
        let mut i: usize = 0;
        while i < net.pins.len()
            invariant
                i <= net.pins.len(),
                d.wf(),
                waiting_is(*cur, v),
                visit_known(v, d),
                *net == d.nets@[v.net],
                forall|k: int|
                    0 <= k < net.pins.len() ==> (#[trigger] net.pins@[k]).0 < d.pins.len(),
                self.ok(d, rails@),
                self.model@ == d.looked_through(*rules, entered, v, i as int),
            decreases net.pins.len() - i,
        {
            assert(d.net_pins(v.net)[i as int] == net.pins@[i as int].0);
            self.look_at(d, rails, rules, cur, net.pins[i], Ghost(v));
            i += 1;
        }
    }

    /// Takes the next net off the queue.
    fn next(&mut self, d: &Design, rails: &Vec<RailReading>) -> (r: Waiting)
        requires
            old(self).ok(d, rails@),
            old(self).model@.queue.len() > 0,
        ensures
            waiting_is(r, old(self).model@.queue[0]),
            visit_known(old(self).model@.queue[0], d),
            final(self).ok(d, rails@),
            final(self).model@ == (Walk {
                queue: old(self).model@.queue.skip(1),
                ..old(self).model@
            }),
    {
        let ghost w = self.model@;
        let ghost was = self.queue@;
        assert(waiting_is(self.queue@[self.head as int + 0], w.queue[0]));
        let mut cur = Waiting { net: 0, via: Vec::new(), depth: 0 };
        core::mem::swap(&mut self.queue[self.head], &mut cur);
        self.head += 1;
        self.model = Ghost(Walk { queue: w.queue.skip(1), ..w });
        proof {
            let now = self.model@.queue;
            assert forall|i: int| 0 <= i < now.len() implies waiting_is(
                self.queue@[self.head + i],
                #[trigger] now[i],
            ) && visit_known(now[i], d) by {
                assert(now[i] == w.queue[i + 1]);
                assert(self.queue@[self.head + i] == was[self.head + i]);
            }
        }
        cur
    }
}

/// Whether a component stands in a list.
fn holds_comp(list: &Vec<CompId>, c: CompId) -> (r: bool)
    ensures
        r == comp_ids(list@).contains(c.0 as int),
{
    let mut i: usize = 0;
    while i < list.len()
        invariant
            i <= list.len(),
            forall|k: int| 0 <= k < i ==> (#[trigger] list@[k]).0 != c.0,
        decreases list.len() - i,
    {
        if list[i].0 == c.0 {
            assert(comp_ids(list@)[i as int] == c.0);
            return true;
        }
        i += 1;
    }
    assert(!comp_ids(list@).contains(c.0 as int)) by {
        if comp_ids(list@).contains(c.0 as int) {
            let k = choose|k: int|
                0 <= k < comp_ids(list@).len() && comp_ids(list@)[k] == c.0 as int;
            assert(list@[k].0 == c.0);
        }
    }
    false
}

/// A list of unset marks.
fn unmarked(n: usize) -> (r: Vec<bool>)
    ensures
        r.len() == n,
        forall|i: int| 0 <= i < n ==> !#[trigger] r@[i],
{
    let mut out: Vec<bool> = Vec::new();
    let mut i: usize = 0;
    while i < n
        invariant
            i <= n,
            out.len() == i,
            forall|k: int| 0 <= k < i ==> !#[trigger] out@[k],
        decreases n - i,
    {
        out.push(false);
        i += 1;
    }
    out
}

impl Design {
    /// Traces from a net through two-pin passives, net by net in order of distance.
    /// Rails and large nets are reported and not entered, except the start net.
    pub fn walk_bfs(
        &self,
        start_net: &NetId,
        start_comp: Option<&CompId>,
        max_depth: u32,
        max_endpoints: u32,
        stop_at_power: bool,
        rails: &Vec<RailReading>,
    ) -> (r: WalkData)
        requires
            self.wf(),
            start_net.0 < self.nets.len(),
            rails.len() == self.nets.len(),
        ensures
            self.reports(
                r,
                self.whole_walk(
                    rules_of(start_net, start_comp, max_depth, max_endpoints, stop_at_power),
                    rails@,
                ),
                rails@,
            ),
    {
        let rules = WalkRules {
            start_net: start_net.0,
            start_comp: match start_comp {
                Some(c) => Some(c.0),
                None => None,
            },
            max_depth,
            max_endpoints,
            stop_at_power,
        };
        let mut queue: Vec<Waiting> = Vec::new();
        queue.push(Waiting { net: start_net.0, via: Vec::new(), depth: 0 });
        let mut walker = Walker {
            queue,
            head: 0,
            seen_nets: unmarked(self.nets.len()),
            net_count: 0,
            seen_comps: unmarked(self.components.len()),
            labels: StringHashMap::new(),
            ends: StringHashMap::new(),
            data: WalkData {
                endpoints: Vec::new(),
                rails_reached: Vec::new(),
                large_nets: Vec::new(),
                dead_ends: Vec::new(),
                truncated: false,
                reached_net_count: 0,
            },
            model: Ghost(Self::setting_out(rules)),
        };
        proof {
            let w = walker.model@;
            assert(comp_ids(walker.queue@[0].via@) =~= Seq::<int>::empty());
            assert(walker.labels@.dom() =~= w.labels);
            assert(walker.ends@.dom() =~= w.ends);
        }
        while walker.head < walker.queue.len()
            invariant
                walker.ok(self, rails@),
                self.wf(),
                rails.len() == self.nets.len(),
                self.walked(rules, rails@, walker.model@) == self.whole_walk(rules, rails@),
            decreases
                self.unvisited(walker.model@.nets).len(),
                walker.model@.queue.len(),
        {
            let ghost w = walker.model@;
            let ghost v = w.queue[0];
            let cur = walker.next(self, rails);
            let ghost rest = walker.model@;
            if !walker.seen_nets[cur.net] {
                proof {
                    lemma_unvisited(self, w.nets, v.net);
                    lemma_marks(self, w.nets, v.net);
                }
                walker.visit(self, rails, &rules, &cur, Ghost(v));
                let ghost after = walker.model@;
                proof {
                    lemma_visited_nets(self, rules, rails@, rest, v);
                }
                walker.seen_nets.set(cur.net, true);
                walker.net_count += 1;
                walker.model = Ghost(Walk { nets: w.nets.insert(v.net), ..after });
            }
        }
        let mut data = walker.data;
        data.reached_net_count = walker.net_count;
        data
    }
}

/// The rules that the arguments of a walk spell.
pub open spec fn rules_of(
    start_net: &NetId,
    start_comp: Option<&CompId>,
    max_depth: u32,
    max_endpoints: u32,
    stop_at_power: bool,
) -> WalkRules {
    WalkRules {
        start_net: start_net.0,
        start_comp: match start_comp {
            Some(c) => Some(c.0),
            None => None,
        },
        max_depth,
        max_endpoints,
        stop_at_power,
    }
}

proof fn lemma_marks(d: &Design, nets: Set<int>, n: int)
    requires
        forall|m: int| #[trigger] nets.contains(m) ==> 0 <= m < d.nets.len(),
        0 <= n < d.nets.len(),
        !nets.contains(n),
    ensures
        nets.len() < d.nets.len(),
{
    vstd::set_lib::lemma_int_range(0, d.nets.len() as int);
    let all = set_int_range(0, d.nets.len() as int);
    assert(nets.insert(n).subset_of(all));
    vstd::set_lib::lemma_len_subset(nets, all);
    vstd::set_lib::lemma_len_subset(nets.insert(n), all);
}

proof fn lemma_looked_nets(d: &Design, rules: WalkRules, w: Walk, v: Visit, k: int)
    ensures
        d.looked_through(rules, w, v, k).nets == w.nets,
    decreases k,
{
    if k > 0 {
        lemma_looked_nets(d, rules, w, v, k - 1);
    }
}

/// Visiting a net marks no net.
proof fn lemma_visited_nets(
    d: &Design,
    rules: WalkRules,
    rails: Seq<RailReading>,
    w: Walk,
    v: Visit,
)
    ensures
        d.visited(rules, rails, w, v).nets == w.nets,
{
    let entered = if v.net == rules.start_net {
        w
    } else {
        d.noted(rules, w, v)
    };
    lemma_looked_nets(d, rules, entered, v, d.net_pins(v.net).len() as int);
}

} // verus!
