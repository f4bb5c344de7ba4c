//! Answers to what a pin or net is connected to.
use vstd::prelude::*;

use super::classes::{kind_of, natural_key, push_natural};
use super::detail_laws::lemma_named;
use super::error::{QueryError, Refusal};
use super::path_findings::{connection_told, lemma_connected};
use super::rails::RailReading;
use super::trace_laws::{lemma_origin, lemma_rails_listed, rails_listed};
use super::walk::{rules_of, DeadEnd, LargeNet, RailReached, Reached, Stop, ViaPart, Walk};
use super::walk::{WalkEndpoint, WalkRules};
use super::walk_laws::lemma_walk_is_sound;
use super::{lemma_last_named, CompId, Design, NetId, PinId};
use crate::lists::{arranged, first_where, lemma_first_where};
use crate::ranking::{arrange, key_of, keys_of, lemma_ranked, places, rank, ranked};
use crate::ranking::{Key, Mark, Part};
use crate::text::{chars_of, same_text, text_contains_char, text_of};

verus! {

/// The answer to a walk.
#[derive(Debug)]
pub struct WalkEnvelope {
    pub start: String,
    pub start_net: String,
    pub endpoints: Vec<WalkEndpoint>,
    pub rails_reached: Vec<RailReached>,
    pub large_nets: Vec<LargeNet>,
    pub dead_ends: Vec<DeadEnd>,
    pub truncated: bool,
}

/// Where a walk sets out: a net, and the part whose pin was named.
pub struct Origin {
    pub net: int,
    pub comp: Option<int>,
}

impl Design {
    /// Where the name of a pin or a net says that a walk starts.
    pub open spec fn origin(&self, start: Seq<char>) -> Result<Origin, Refusal> {
        if start.contains(':') {
            match self.pin_named(start) {
                None => Err(Refusal::Pin(start)),
                Some(p) => match self.net_of(p) {
                    None => Err(Refusal::Unconnected(start)),
                    Some(n) => Ok(Origin { net: n, comp: Some(self.owner(p)) }),
                },
            }
        } else {
            match self.net_named(start) {
                None => Err(Refusal::NetCalled(start)),
                Some(n) => Ok(Origin { net: n, comp: None }),
            }
        }
    }

    pub open spec fn origin_rules(
        o: Origin,
        max_depth: u32,
        max_endpoints: u32,
        stop_at_power: bool,
    ) -> WalkRules {
        WalkRules {
            start_net: o.net as usize,
            start_comp: match o.comp {
                Some(c) => Some(c as usize),
                None => None,
            },
            max_depth,
            max_endpoints,
            stop_at_power,
        }
    }

    /// What endpoints are sorted by: distance, then part, then pin number.
    pub open spec fn reached_key(&self, r: Reached) -> Key {
        seq![Mark::Number(r.depth)] + natural_key(
            self.components@[self.owner(r.pin)].refdes@,
        ) + natural_key(self.pins@[r.pin].number@)
    }

    pub open spec fn reached_keys(&self, s: Seq<Reached>) -> Seq<Key> {
        s.map_values(|r: Reached| self.reached_key(r))
    }

    pub open spec fn in_reading_order(&self, s: Seq<Reached>) -> Seq<Reached> {
        arranged(s, ranked(self.reached_keys(s)))
    }

    /// The answer reports the walk from an origin, endpoints in reading order.
    pub open spec fn walk_answer(
        &self,
        e: WalkEnvelope,
        start: Seq<char>,
        o: Origin,
        w: Walk,
        rails: Seq<RailReading>,
    ) -> bool {
        &&& e.start@ == start
        &&& e.start_net == self.nets@[o.net].name
        &&& self.endpoints_are(e.endpoints@, self.in_reading_order(w.endpoints))
        &&& self.rails_are(e.rails_reached@, w.rails, rails)
        &&& self.large_are(e.large_nets@, w.large)
        &&& self.dead_are(e.dead_ends@, w.dead)
        &&& e.truncated == w.truncated
    }

    /// Finds a pin by its name.
    pub fn find_pin(&self, name: &str) -> (r: Result<PinId, QueryError>)
        requires
            self.wf(),
        ensures
            match self.pin_named(name@) {
                Some(p) => r matches Ok(id) && id.0 == p && id.0 < self.pins.len(),
                None => r matches Err(e) && e@ == Refusal::Pin(name@),
            },
    {
        proof {
            lemma_last_named(super::pin_labels(self.components@, self.pins@), name@);
        }
        match self.pin_map.get(name) {
            Some(id) => Ok(*id),
            None => Err(QueryError::NoSuchPin(name.to_owned())),
        }
    }

    fn find_origin(&self, start: &str) -> (r: Result<(NetId, Option<CompId>), QueryError>)
        requires
            self.wf(),
        ensures
            match self.origin(start@) {
                Ok(o) => r matches Ok((n, c)) && n.0 == o.net && n.0 < self.nets.len() && match c {
                    Some(c) => o.comp == Some(c.0 as int),
                    None => o.comp is None,
                },
                Err(why) => r matches Err(e) && e@ == why,
            },
    {
        if text_contains_char(start, ':') {
            let id = match self.find_pin(start) {
                Ok(id) => id,
                Err(e) => return Err(e),
            };
            let pin = &self.pins[id.0];
            match pin.net {
                Some(n) => Ok((n, Some(pin.comp))),
                None => Err(QueryError::PinHasNoNet(start.to_owned())),
            }
        } else {
            proof {
                lemma_last_named(super::net_names(self.nets@), start@);
            }
            match self.net_map.get(start) {
                Some(n) => Ok((*n, None)),
                None => Err(QueryError::NoNetCalled(start.to_owned())),
            }
        }
    }

    fn sort_endpoints(
        &self,
        endpoints: Vec<WalkEndpoint>,
        Ghost(w): Ghost<Seq<Reached>>,
    ) -> (r: Vec<WalkEndpoint>)
        requires
            self.endpoints_are(endpoints@, w),
        ensures
            self.endpoints_are(r@, self.in_reading_order(w)),
    {
        let mut keys: Vec<Vec<Part>> = Vec::new();
        let mut i: usize = 0;
        while i < endpoints.len()
            invariant
                i <= endpoints.len(),
                keys.len() == i,
                self.endpoints_are(endpoints@, w),
                forall|k: int|
                    0 <= k < i ==> key_of((#[trigger] keys@[k])@) == self.reached_key(w[k]),
            decreases endpoints.len() - i,
        {
            let e = &endpoints[i];
            assert(self.endpoint_is(endpoints@[i as int], w[i as int]));
            proof {
                reveal_strlit(":");
            }
            let mut key: Vec<Part> = Vec::new();
            key.push(Part::Up(e.distance as usize));
            assert(key_of(key@) =~= seq![Mark::Number(w[i as int].depth)]);
            push_natural(e.component.refdes.as_str(), &mut key);
            let name = chars_of(e.pin.as_str());
            let refdes = chars_of(e.component.refdes.as_str());
            let end: usize = name.len();
            assert(end == refdes@.len() + 1 + self.pins@[w[i as int].pin].number@.len());
            let behind: usize = refdes.len() + 1;
            let number = text_of(&name, behind, end);
            assert(number@ =~= self.pins@[w[i as int].pin].number@);
            push_natural(number.as_str(), &mut key);
            keys.push(key);
            i += 1;
        }
        let order = rank(&keys);
        proof {
            assert(keys_of(keys@) =~= self.reached_keys(w));
            lemma_ranked(keys_of(keys@));
        }
        let ghost before = endpoints@;
        let sorted = arrange(endpoints, &order);
        proof {
            let p = places(order@);
            assert forall|k: int| 0 <= k < sorted.len() implies self.endpoint_is(
                #[trigger] sorted@[k],
                self.in_reading_order(w)[k],
            ) by {
                assert(self.endpoint_is(before[p[k]], w[p[k]]));
            }
        }
        sorted
    }

    /// What a pin or net is connected to: the pins that are reached through two-pin
    /// passives, and the rails, large nets and dead ends on the way.
    pub fn walk(
        &self,
        start: &str,
        max_depth: u32,
        max_endpoints: u32,
        stop_at_power: bool,
        _include_topology: bool,
        rails: &Vec<RailReading>,
    ) -> (r: Result<WalkEnvelope, QueryError>)
        requires
            self.wf(),
            rails.len() == self.nets.len(),
        ensures
            match self.origin(start@) {
                Ok(o) => r matches Ok(e) && self.walk_answer(
                    e,
                    start@,
                    o,
                    self.whole_walk(
                        Self::origin_rules(o, max_depth, max_endpoints, stop_at_power),
                        rails@,
                    ),
                    rails@,
                ) && rails_listed(self, e, o, max_depth, stop_at_power, rails@),
                Err(why) => r matches Err(e) && e@ == why,
            },
    {
        let (net, comp) = match self.find_origin(start) {
            Ok(origin) => origin,
            Err(e) => return Err(e),
        };
        let ghost o = self.origin(start@)->Ok_0;
        let data = match comp {
            Some(c) => self.walk_bfs(
                &net,
                Some(&c),
                max_depth,
                max_endpoints,
                stop_at_power,
                rails,
            ),
            None => self.walk_bfs(&net, None, max_depth, max_endpoints, stop_at_power, rails),
        };
        let ghost w = self.whole_walk(
            Self::origin_rules(o, max_depth, max_endpoints, stop_at_power),
            rails@,
        );
        let endpoints = self.sort_endpoints(data.endpoints, Ghost(w.endpoints));
        let e = WalkEnvelope {
            start: start.to_owned(),
            start_net: self.nets[net.0].name.clone(),
            endpoints,
            rails_reached: data.rails_reached,
            large_nets: data.large_nets,
            dead_ends: data.dead_ends,
            truncated: data.truncated,
        };
        proof {
            lemma_origin(self, start@);
            lemma_rails_listed(
                self,
                e,
                start@,
                o,
                max_depth,
                max_endpoints,
                stop_at_power,
                rails@,
            );
        }
        Ok(e)
    }
}

/// One endpoint in the sample of a diagnosis.
#[derive(Debug)]
pub struct DiagnosisReach {
    pub pin: String,
    pub kind: String,
}

/// What a walk reached, in number and by example.
#[derive(Debug)]
pub struct FromReaches {
    pub count: usize,
    pub sample: Vec<DiagnosisReach>,
}

/// How far the connections of one pin go, where they do not lead to the other.
#[derive(Debug)]
pub struct PathDiagnosis {
    /// The net of the pin that was not reached.
    pub to_net: Option<String>,
    pub from_reachable_nets: usize,
    pub from_reaches: FromReaches,
    pub from_rails: Vec<String>,
}

/// The answer to whether two pins are connected.
#[derive(Debug)]
pub struct PathBetweenEnvelope {
    pub from: String,
    pub to: String,
    pub connected: bool,
    pub distance: Option<u32>,
    pub via: Vec<ViaPart>,
    pub note: Option<String>,
    pub diagnosis: Option<PathDiagnosis>,
}

/// How far a path is followed.
pub const PATH_DEPTH: u32 = 6;

/// More endpoints than a path is followed to.
pub const PATH_ENDPOINTS: u32 = 100_000;

/// How many endpoints a diagnosis shows.
pub const SAMPLE_SIZE: usize = 12;

/// How two pins are connected, or not.
pub enum Verdict {
    /// The first pin is on no net.
    Unconnected,
    /// They are one pin, or on one net.
    SameNet,
    /// A walk from the first ends on the second.
    Path(Reached),
    /// A walk from the first stops at a rail that the second is on.
    Rail(Stop),
    /// A walk from the first reaches neither.
    Apart,
}

impl Design {
    /// How a path from a pin is looked for.
    pub open spec fn path_rules(&self, p: int) -> WalkRules {
        WalkRules {
            start_net: self.net_of(p).unwrap() as usize,
            start_comp: Some(self.owner(p) as usize),
            max_depth: PATH_DEPTH,
            max_endpoints: PATH_ENDPOINTS,
            stop_at_power: true,
        }
    }

    /// The walk that a path is looked for in.
    pub open spec fn path_walk(&self, p: int, rails: Seq<RailReading>) -> Walk {
        self.whole_walk(self.path_rules(p), rails)
    }

    /// The first endpoint with the name of a pin.
    pub open spec fn endpoint_named(&self, s: Seq<Reached>, q: int) -> Option<int> {
        first_where(|i: int| self.label(s[i].pin) == self.label(q), 0, s.len() as int)
    }

    /// The first rail with the name of a net.
    pub open spec fn rail_named(&self, s: Seq<Stop>, n: int) -> Option<int> {
        first_where(
            |i: int| self.nets@[s[i].net].name@ == self.nets@[n].name@,
            0,
            s.len() as int,
        )
    }

    /// How the pins `p` and `q` are connected.
    pub open spec fn verdict(&self, p: int, q: int, rails: Seq<RailReading>) -> Verdict {
        if self.net_of(p) is None {
            Verdict::Unconnected
        } else if p == q || self.net_of(q) == self.net_of(p) {
            Verdict::SameNet
        } else {
            let w = self.path_walk(p, rails);
            match self.endpoint_named(w.endpoints, q) {
                Some(i) => Verdict::Path(w.endpoints[i]),
                None => match self.net_of(q) {
                    None => Verdict::Apart,
                    Some(n) => match self.rail_named(w.rails, n) {
                        Some(i) => Verdict::Rail(w.rails[i]),
                        None => Verdict::Apart,
                    },
                },
            }
        }
    }

    pub open spec fn diagnosis_is(&self, g: PathDiagnosis, q: int, w: Walk) -> bool {
        &&& match self.net_of(q) {
            None => g.to_net is None,
            Some(n) => g.to_net == Some(self.nets@[n].name),
        }
        &&& g.from_reachable_nets == w.nets.len()
        &&& g.from_reaches.count == w.endpoints.len()
        &&& g.from_reaches.sample.len() == (if w.endpoints.len() < SAMPLE_SIZE {
            w.endpoints.len() as int
        } else {
            SAMPLE_SIZE as int
        })
        &&& forall|i: int|
            0 <= i < g.from_reaches.sample.len() ==> (
            #[trigger] g.from_reaches.sample@[i]).pin@ == self.label(w.endpoints[i].pin)
                && g.from_reaches.sample@[i].kind@ == kind_of(
                self.class(self.owner(w.endpoints[i].pin)),
            )
        &&& g.from_rails.len() == w.rails.len()
        &&& forall|i: int|
            0 <= i < g.from_rails.len() ==> #[trigger] g.from_rails@[i]
                == self.nets@[w.rails[i].net].name
    }

    /// The answer says how the pins `p` and `q` are connected.
    pub open spec fn path_answer(
        &self,
        e: PathBetweenEnvelope,
        p: int,
        q: int,
        rails: Seq<RailReading>,
    ) -> bool {
        match self.verdict(p, q, rails) {
            Verdict::Unconnected => {
                &&& !e.connected && e.distance is None && e.via.len() == 0
                &&& e.note matches Some(s) && s@ == "from pin is unconnected"@
                &&& e.diagnosis is None
            },
            Verdict::SameNet => {
                &&& e.connected && e.distance == Some(0u32) && e.via.len() == 0
                &&& e.note is None && e.diagnosis is None
            },
            Verdict::Path(r) => {
                &&& e.connected && e.distance == Some(r.depth as u32) && self.via_is(e.via@, r.via)
                &&& e.note is None && e.diagnosis is None
            },
            Verdict::Rail(s) => {
                &&& e.connected && e.distance == Some(s.via.len() as u32) && self.via_is(
                    e.via@,
                    s.via,
                )
                &&& e.note matches Some(t) && t@ == "only via rail "@ + self.nets@[s.net].name@
                    + " (shared power/ground, not a signal path)"@
                &&& e.diagnosis is None
            },
            Verdict::Apart => {
                &&& !e.connected && e.distance is None && e.via.len() == 0
                &&& e.note matches Some(s) && s@
                    == "no passthrough path within depth 6 (rails are not crossed)"@
                &&& e.diagnosis matches Some(g) && self.diagnosis_is(
                    g,
                    q,
                    self.path_walk(p, rails),
                )
            },
        }
    }
}

/// A copy of a list of parts.
pub fn clone_via(parts: &Vec<ViaPart>) -> (r: Vec<ViaPart>)
    ensures
        r@ == parts@,
{
    let mut out: Vec<ViaPart> = Vec::new();
    let mut i: usize = 0;
    while i < parts.len()
        invariant
            i <= parts.len(),
            out@ == parts@.take(i as int),
        decreases parts.len() - i,
    {
        let p = &parts[i];
        out.push(
            ViaPart {
                refdes: p.refdes.clone(),
                value: p.value.clone(),
                class: p.class.clone(),
                dnp: p.dnp,
            },
        );
        assert(out@ =~= parts@.take(i + 1));
        i += 1;
    }
    assert(out@ =~= parts@);
    out
}

fn path_envelope(
    from: &str,
    to: &str,
    connected: bool,
    distance: Option<u32>,
    parts: Vec<ViaPart>,
    note: Option<String>,
    diagnosis: Option<PathDiagnosis>,
) -> (r: PathBetweenEnvelope)
    ensures
        r.from@ == from@,
        r.to@ == to@,
        r.connected == connected,
        r.distance == distance,
        r.via == parts,
        r.note == note,
        r.diagnosis == diagnosis,
{
    PathBetweenEnvelope {
        from: from.to_owned(),
        to: to.to_owned(),
        connected,
        distance,
        via: parts,
        note,
        diagnosis,
    }
}

impl Design {
    /// The boundary of what was reached, where the wanted pin was not.
    fn path_diagnosis(
        &self,
        to: &PinId,
        data: &super::walk::WalkData,
        Ghost(w): Ghost<Walk>,
        Ghost(rails): Ghost<Seq<RailReading>>,
    ) -> (r: PathDiagnosis)
        requires
            self.wf(),
            to.0 < self.pins.len(),
            self.reports(*data, w, rails),
        ensures
            self.diagnosis_is(r, to.0 as int, w),
    {
        let to_net = match self.pins[to.0].net {
            Some(n) => Some(self.nets[n.0].name.clone()),
            None => None,
        };
        let mut sample: Vec<DiagnosisReach> = Vec::new();
        let mut i: usize = 0;
        while i < data.endpoints.len() && i < SAMPLE_SIZE
            invariant
                i <= data.endpoints.len(),
                i <= SAMPLE_SIZE,
                sample.len() == i,
                self.reports(*data, w, rails),
                forall|k: int|
                    0 <= k < i ==> (#[trigger] sample@[k]).pin@ == self.label(w.endpoints[k].pin)
                        && sample@[k].kind@ == kind_of(
                        self.class(self.owner(w.endpoints[k].pin)),
                    ),
            decreases data.endpoints.len() - i,
        {
            let e = &data.endpoints[i];
            assert(self.endpoint_is(data.endpoints@[i as int], w.endpoints[i as int]));
            sample.push(DiagnosisReach { pin: e.pin.clone(), kind: e.kind.clone() });
            i += 1;
        }
        let mut from_rails: Vec<String> = Vec::new();
        let mut k: usize = 0;
        while k < data.rails_reached.len()
            invariant
                k <= data.rails_reached.len(),
                from_rails.len() == k,
                self.reports(*data, w, rails),
                forall|j: int|
                    0 <= j < k ==> #[trigger] from_rails@[j] == self.nets@[w.rails[j].net].name,
            decreases data.rails_reached.len() - k,
        {
            assert(self.rail_is(data.rails_reached@[k as int], w.rails[k as int], rails));
            from_rails.push(data.rails_reached[k].net.clone());
            k += 1;
        }
        PathDiagnosis {
            to_net,
            from_reachable_nets: data.reached_net_count,
            from_reaches: FromReaches { count: data.endpoints.len(), sample },
            from_rails,
        }
    }

    /// Whether two pins are connected through two-pin passives, not across rails, and
    /// over which parts.
    pub fn path_between(&self, from: &str, to: &str, rails: &Vec<RailReading>) -> (r: Result<
        PathBetweenEnvelope,
        QueryError,
    >)
        requires
            self.wf(),
            rails.len() == self.nets.len(),
        ensures
            match (self.pin_named(from@), self.pin_named(to@)) {
                (None, _) => r matches Err(e) && e@ == Refusal::Pin(from@),
                (Some(_), None) => r matches Err(e) && e@ == Refusal::Pin(to@),
                (Some(p), Some(q)) => r matches Ok(e) && e.from@ == from@ && e.to@ == to@
                    && self.path_answer(e, p, q, rails@) && connection_told(
                    self,
                    e,
                    p,
                    q,
                    rails@,
                ),
            },
    {
        let r = self.connect(from, to, rails);
        proof {
            lemma_named(self, from@);
            lemma_named(self, to@);
            if let (Some(p), Some(q)) = (self.pin_named(from@), self.pin_named(to@)) {
                lemma_connected(self, r->Ok_0, p, q, rails@);
            }
        }
        r
    }

    /// The answer to whether two pins are connected.
    fn connect(&self, from: &str, to: &str, rails: &Vec<RailReading>) -> (r: Result<
        PathBetweenEnvelope,
        QueryError,
    >)
        requires
            self.wf(),
            rails.len() == self.nets.len(),
        ensures
            match (self.pin_named(from@), self.pin_named(to@)) {
                (None, _) => r matches Err(e) && e@ == Refusal::Pin(from@),
                (Some(_), None) => r matches Err(e) && e@ == Refusal::Pin(to@),
                (Some(p), Some(q)) => r matches Ok(e) && e.from@ == from@ && e.to@ == to@
                    && self.path_answer(e, p, q, rails@),
            },
    {
        let p = match self.find_pin(from) {
            Ok(p) => p,
            Err(e) => return Err(e),
        };
        let q = match self.find_pin(to) {
            Ok(q) => q,
            Err(e) => return Err(e),
        };
        let net = match self.pins[p.0].net {
            Some(n) => n,
            None => {
                return Ok(
                    path_envelope(
                        from,
                        to,
                        false,
                        None,
                        Vec::new(),
                        Some("from pin is unconnected".to_owned()),
                        None,
                    ),
                );
            },
        };
        if p.0 == q.0 {
            return Ok(path_envelope(from, to, true, Some(0), Vec::new(), None, None));
        }
        if let Some(n) = self.pins[q.0].net {
            if n.0 == net.0 {
                return Ok(path_envelope(from, to, true, Some(0), Vec::new(), None, None));
            }
        }
        let comp: CompId = self.pins[p.0].comp;
        let label = self.pin_name(&q);
        let data = self.walk_bfs(&net, Some(&comp), PATH_DEPTH, PATH_ENDPOINTS, true, rails);
        let ghost w = self.path_walk(p.0 as int, rails@);
        proof {
            lemma_walk_is_sound(
                self,
                rules_of(&net, Some(&comp), PATH_DEPTH, PATH_ENDPOINTS, true),
                rails@,
            );
        }
        let ghost wanted = |i: int| self.label(w.endpoints[i].pin) == self.label(q.0 as int);
        let mut i: usize = 0;
        while i < data.endpoints.len()
            invariant
                i <= data.endpoints.len(),
                self.reports(data, w, rails@),
                label@ == self.label(q.0 as int),
                self.pin_named(from@) == Some(p.0 as int),
                self.pin_named(to@) == Some(q.0 as int),
                self.net_of(p.0 as int) is Some,
                p.0 != q.0,
                self.net_of(q.0 as int) != self.net_of(p.0 as int),
                w == self.path_walk(p.0 as int, rails@),
                wanted == (|i: int| self.label(w.endpoints[i].pin) == self.label(q.0 as int)),
                forall|k: int| 0 <= k < i ==> !#[trigger] wanted(k),
            decreases data.endpoints.len() - i,
        {
            let e = &data.endpoints[i];
            assert(self.endpoint_is(data.endpoints@[i as int], w.endpoints[i as int]));
            if same_text(e.pin.as_str(), label.as_str()) {
                proof {
                    assert(wanted(i as int));
                    lemma_first_where(wanted, 0, w.endpoints.len() as int, i as int);
                }
                return Ok(
                    path_envelope(
                        from,
                        to,
                        true,
                        Some(e.distance),
                        clone_via(&e.via),
                        None,
                        None,
                    ),
                );
            }
            assert(!wanted(i as int));
            i += 1;
        }
        proof {
            lemma_first_where(wanted, 0, w.endpoints.len() as int, i as int);
        }
        if let Some(n) = self.pins[q.0].net {
            let name = &self.nets[n.0].name;
            let ghost named = |i: int|
                self.nets@[w.rails[i].net].name@ == self.nets@[n.0 as int].name@;
            let mut k: usize = 0;
            while k < data.rails_reached.len()
                invariant
                    k <= data.rails_reached.len(),
                    self.reports(data, w, rails@),
                    name@ == self.nets@[n.0 as int].name@,
                    self.pin_named(from@) == Some(p.0 as int),
                    self.pin_named(to@) == Some(q.0 as int),
                    self.net_of(p.0 as int) is Some,
                    p.0 != q.0,
                    self.net_of(q.0 as int) == Some(n.0 as int),
                    self.net_of(q.0 as int) != self.net_of(p.0 as int),
                    w == self.path_walk(p.0 as int, rails@),
                    self.endpoint_named(w.endpoints, q.0 as int) is None,
                    forall|j: int|
                        0 <= j < w.rails.len() ==> (#[trigger] w.rails[j]).via.len() <= PATH_DEPTH,
                    named == (|i: int|
                        self.nets@[w.rails[i].net].name@ == self.nets@[n.0 as int].name@),
                    forall|j: int| 0 <= j < k ==> !#[trigger] named(j),
                decreases data.rails_reached.len() - k,
            {
                let rail = &data.rails_reached[k];
                assert(self.rail_is(data.rails_reached@[k as int], w.rails[k as int], rails@));
                if same_text(rail.net.as_str(), name.as_str()) {
                    proof {
                        assert(named(k as int));
                        lemma_first_where(named, 0, w.rails.len() as int, k as int);
                        assert(w.rails[k as int].via.len() <= PATH_DEPTH);
                    }
                    let mut note = "only via rail ".to_owned();
                    note.append(rail.net.as_str());
                    note.append(" (shared power/ground, not a signal path)");
                    return Ok(
                        path_envelope(
                            from,
                            to,
                            true,
                            Some(rail.via.len() as u32),
                            clone_via(&rail.via),
                            Some(note),
                            None,
                        ),
                    );
                }
                assert(!named(k as int));
                k += 1;
            }
            proof {
                lemma_first_where(named, 0, w.rails.len() as int, k as int);
            }
        }
        let diagnosis = self.path_diagnosis(&q, &data, Ghost(w), Ghost(rails@));
        Ok(
            path_envelope(
                from,
                to,
                false,
                None,
                Vec::new(),
                Some("no passthrough path within depth 6 (rails are not crossed)".to_owned()),
                Some(diagnosis),
            ),
        )
    }
}

} // verus!
