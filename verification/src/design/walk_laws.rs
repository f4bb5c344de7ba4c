//! What a walk's findings say about the design: every one of them is reached over a
//! chain of passives, and with nothing cut short all that can be reached is found.
use vstd::prelude::*;

use super::rails::RailReading;
use super::walk::{Fizzle, Reached, Visit, Walk, WalkRules};
use super::{lemma_lists_in_range, lemma_pins_of_comp, lemma_pins_on_net, on_net, Design};

verus! {

impl Design {
    /// The component is a two-pin passive with one pin on each of two nets.
    pub open spec fn bridges(&self, c: int, m: int, n: int) -> bool {
        &&& 0 <= c < self.components.len()
        &&& self.passes(c)
        &&& m != n
        &&& (self.net_of(self.comp_pins(c)[0]) == Some(m) && self.net_of(self.comp_pins(c)[1])
            == Some(n)) || (self.net_of(self.comp_pins(c)[1]) == Some(m) && self.net_of(
            self.comp_pins(c)[0],
        ) == Some(n))
    }

    /// A walk goes on from this net: it is the start net, or it is neither a rail to
    /// stop at nor too large, and has more than the one pin that led to it.
    pub open spec fn enters(&self, rules: WalkRules, rails: Seq<RailReading>, n: int) -> bool {
        &&& !Self::stops_at(rules, rails, n)
        &&& !self.too_large(rules, n)
        &&& n == rules.start_net || self.net_pins(n).len() != 1
    }

    /// The components of `chain`, one after the other, lead from the start net to `n` over
    /// nets that a walk goes on from, the first of them not being the start part.
    pub open spec fn leads_to(
        &self,
        rules: WalkRules,
        rails: Seq<RailReading>,
        chain: Seq<int>,
        n: int,
    ) -> bool
        decreases chain.len(),
    {
        if chain.len() == 0 {
            n == rules.start_net
        } else {
            exists|m: int|
                {
                    &&& #[trigger] self.bridges(chain.last(), m, n)
                    &&& 0 <= m < self.nets.len()
                    &&& self.enters(rules, rails, m)
                    &&& !(m == rules.start_net && rules.start_comp == Some(chain.last() as usize))
                    &&& self.leads_to(rules, rails, chain.drop_last(), m)
                }
        }
    }

    /// The net can be reached at all.
    pub open spec fn reachable(&self, rules: WalkRules, rails: Seq<RailReading>, n: int) -> bool {
        exists|chain: Seq<int>| #[trigger] self.leads_to(rules, rails, chain, n)
    }

    pub open spec fn visit_sound(
        &self,
        rules: WalkRules,
        rails: Seq<RailReading>,
        v: Visit,
    ) -> bool {
        &&& 0 <= v.net < self.nets.len()
        &&& self.leads_to(rules, rails, v.via, v.net)
        &&& v.depth == v.via.len()
        &&& v.depth <= rules.max_depth
        &&& v.net == rules.start_net || self.net_pins(v.net).len() != 1
    }

    /// A reported pin is on a net that the reported chain leads to, at the reported
    /// distance; its part is not passed through and is not the start part.
    pub open spec fn reached_sound(
        &self,
        rules: WalkRules,
        rails: Seq<RailReading>,
        r: Reached,
    ) -> bool {
        &&& 0 <= r.pin < self.pins.len()
        &&& self.net_of(r.pin) is Some
        &&& self.leads_to(rules, rails, r.via, self.net_of(r.pin).unwrap())
        &&& self.enters(rules, rails, self.net_of(r.pin).unwrap())
        &&& r.depth == r.via.len()
        &&& r.depth <= rules.max_depth
        &&& !self.passes(self.owner(r.pin))
        &&& rules.start_comp != Some(self.owner(r.pin) as usize)
    }

    /// A branch reported as dangling ends on a pin without a net or alone on its net; a
    /// net reported as passive has no part to end on.
    pub open spec fn fizzle_sound(
        &self,
        rules: WalkRules,
        rails: Seq<RailReading>,
        f: Fizzle,
    ) -> bool {
        match f.net {
            Some(n) => {
                &&& 0 <= n < self.nets.len()
                &&& self.leads_to(rules, rails, f.via, n)
                &&& f.via.len() > 0
                &&& if f.dangling {
                    self.net_pins(n).len() == 1
                } else {
                    !self.has_endpoint(n)
                }
            },
            None => {
                &&& f.dangling
                &&& f.via.len() > 0
                &&& 0 <= f.via.last() < self.components.len()
                &&& self.passes(f.via.last())
                &&& exists|m: int| #[trigger]
                    self.leads_to(rules, rails, f.via.drop_last(), m)
            },
        }
    }

    /// All that a walk has found so far is reached over real chains, and no more of it
    /// is reported than was asked for.
    pub open spec fn sound(&self, rules: WalkRules, rails: Seq<RailReading>, w: Walk) -> bool {
        &&& forall|i: int|
            0 <= i < w.queue.len() ==> self.visit_sound(rules, rails, #[trigger] w.queue[i])
        &&& forall|n: int| #[trigger]
            w.nets.contains(n) ==> 0 <= n < self.nets.len() && self.reachable(rules, rails, n)
        &&& forall|i: int|
            0 <= i < w.endpoints.len() ==> self.reached_sound(rules, rails, #[trigger] w.endpoints[i])
        &&& forall|i: int|
            0 <= i < w.rails.len() ==> Self::stops_at(rules, rails, (#[trigger] w.rails[i]).net)
                && self.leads_to(rules, rails, w.rails[i].via, w.rails[i].net)
                && w.rails[i].via.len() <= rules.max_depth && 0 <= w.rails[i].net
                < self.nets.len()
        &&& forall|i: int|
            0 <= i < w.large.len() ==> self.too_large(rules, (#[trigger] w.large[i]).net)
                && self.leads_to(rules, rails, w.large[i].via, w.large[i].net)
                && w.large[i].via.len() <= rules.max_depth
        &&& forall|i: int|
            0 <= i < w.dead.len() ==> self.fizzle_sound(rules, rails, #[trigger] w.dead[i])
        &&& w.endpoints.len() <= rules.max_endpoints
        &&& w.dead.len() <= rules.max_endpoints
        &&& forall|i: int|
            0 <= i < w.endpoints.len() ==> w.labels.contains(
                self.label((#[trigger] w.endpoints[i]).pin),
            )
        &&& forall|i: int, j: int|
            0 <= i < j < w.endpoints.len() ==> self.label((#[trigger] w.endpoints[i]).pin)
                != self.label((#[trigger] w.endpoints[j]).pin)
    }

    /// The start net comes first and only once.
    pub open spec fn begun(&self, rules: WalkRules, w: Walk) -> bool {
        &&& w.nets.contains(rules.start_net as int) || w == Self::setting_out(rules)
        &&& forall|i: int|
            0 <= i < w.queue.len() ==> ((#[trigger] w.queue[i]).via.len() == 0 ==> w.queue[i].net
                == rules.start_net)
    }

    /// The net on the far side of a passive is accounted for, `here` being the nets visited
    /// and the one that is being visited.
    pub open spec fn far_side_known(&self, w: Walk, here: Set<int>, q: int, m: int) -> bool {
        match self.net_of(q) {
            None => true,
            Some(n) => {
                ||| n == m
                ||| self.net_pins(n).len() == 1
                ||| here.contains(n)
                ||| exists|i: int| 0 <= i < w.queue.len() && (#[trigger] w.queue[i]).net == n
            },
        }
    }

    /// The passive was gone through from its pin `p`.
    pub open spec fn gone_through(&self, w: Walk, here: Set<int>, c: int, p: int) -> bool {
        &&& p == self.comp_pins(c)[0] || p == self.comp_pins(c)[1]
        &&& self.net_of(p) is Some
        &&& here.contains(self.net_of(p).unwrap())
        &&& self.other_pin(c, p) matches Some(q) && self.far_side_known(
            w,
            here,
            q,
            self.net_of(p).unwrap(),
        )
    }

    /// A pin of a net that was entered has been dealt with.
    pub open spec fn dealt_with(&self, rules: WalkRules, w: Walk, m: int, p: int) -> bool {
        let c = self.owner(p);
        ||| m == rules.start_net && rules.start_comp == Some(c as usize)
        ||| self.passes(c) && w.comps.contains(c)
        ||| !self.passes(c) && (rules.start_comp == Some(c as usize) || w.labels.contains(
            self.label(p),
        ))
    }

    /// Every passive that was met was gone through from one of its sides.
    pub open spec fn parts_done(&self, w: Walk, here: Set<int>) -> bool {
        forall|c: int| #[trigger]
            w.comps.contains(c) ==> 0 <= c < self.components.len() && self.passes(c) && exists|
                p: int,
            | #[trigger]
                self.gone_through(w, here, c, p)
    }

    /// Every pin of every net that was entered has been dealt with.
    pub open spec fn pins_done(&self, rules: WalkRules, rails: Seq<RailReading>, w: Walk) -> bool {
        forall|m: int, i: int|
            #![trigger w.nets.contains(m), self.net_pins(m)[i]]
            w.nets.contains(m) && self.enters(rules, rails, m) && 0 <= i < self.net_pins(m).len()
                ==> self.dealt_with(rules, w, m, self.net_pins(m)[i])
    }

    /// Every pin name that was met is reported.
    pub open spec fn labels_done(&self, w: Walk) -> bool {
        forall|l: Seq<char>| #[trigger]
            w.labels.contains(l) ==> exists|i: int|
                0 <= i < w.endpoints.len() && self.label((#[trigger] w.endpoints[i]).pin) == l
    }
}

/// A passive has exactly two pins, and on either side of it is the other.
pub proof fn lemma_two_pins(d: &Design, p: int)
    requires
        d.wf(),
        0 <= p < d.pins.len(),
        d.passes(d.owner(p)),
    ensures
        ({
            let ids = d.comp_pins(d.owner(p));
            &&& ids.len() == 2
            &&& ids[0] != ids[1]
            &&& 0 <= ids[0] < d.pins.len()
            &&& 0 <= ids[1] < d.pins.len()
            &&& p == ids[0] || p == ids[1]
            &&& d.owner(ids[0]) == d.owner(p)
            &&& d.owner(ids[1]) == d.owner(p)
            &&& d.other_pin(d.owner(p), p) == Some(
                if p == ids[0] {
                    ids[1]
                } else {
                    ids[0]
                },
            )
        }),
{
    let c = d.owner(p);
    let ids = d.comp_pins(c);
    lemma_pins_of_comp(d.pins@, c);
    assert(d.components@[c].id.0 == c);
    assert(ids == pins_of(d, c));
    assert(ids[0] < ids[1]);
    assert(ids.contains(p));
    let i = choose|i: int| 0 <= i < ids.len() && ids[i] == p;
    assert(i == 0 || i == 1);
}

spec fn pins_of(d: &Design, c: int) -> Seq<int> {
    super::pins_of_comp(d.pins@, c)
}

/// What going through a passive does is sound.
proof fn lemma_passed_sound(
    d: &Design,
    rules: WalkRules,
    rails: Seq<RailReading>,
    w: Walk,
    v: Visit,
    p: int,
)
    requires
        d.wf(),
        d.sound(rules, rails, w),
        d.visit_sound(rules, rails, v),
        d.enters(rules, rails, v.net),
        0 <= p < d.pins.len(),
        d.net_of(p) == Some(v.net),
        d.passes(d.owner(p)),
        !(v.net == rules.start_net && rules.start_comp == Some(d.owner(p) as usize)),
    ensures
        d.other_pin(d.owner(p), p) matches Some(q) ==> d.sound(
            rules,
            rails,
            d.passed(rules, w, v, d.owner(p), q),
        ),
{
    let c = d.owner(p);
    lemma_two_pins(d, p);
    let q = d.other_pin(c, p).unwrap();
    let after = d.passed(rules, w, v, c, q);
    let chain = v.via.push(c);
    assert(chain.drop_last() =~= v.via);
    assert(d.pins@[q].id.0 == q);
    match d.net_of(q) {
        None => {
            let f = Fizzle {
                net: None,
                dangling: true,
                via: chain,
                parts: Seq::empty(),
                probe: false,
            };
            assert(d.leads_to(rules, rails, f.via.drop_last(), v.net));
            assert(d.fizzle_sound(rules, rails, f));
        },
        Some(m) => {
            if m != v.net {
                assert(chain.last() == c);
                assert(d.bridges(chain.last(), v.net, m));
                assert(d.leads_to(rules, rails, chain.drop_last(), v.net));
                assert(d.leads_to(rules, rails, chain, m));
            }
        },
    }
}

/// What ending on a pin does is sound.
proof fn lemma_ended_sound(
    d: &Design,
    rules: WalkRules,
    rails: Seq<RailReading>,
    w: Walk,
    v: Visit,
    p: int,
)
    requires
        d.sound(rules, rails, w),
        d.visit_sound(rules, rails, v),
        d.enters(rules, rails, v.net),
        0 <= p < d.pins.len(),
        d.net_of(p) == Some(v.net),
        !d.passes(d.owner(p)),
    ensures
        d.sound(rules, rails, d.ended(rules, w, v, p)),
{
}

/// What looking at a pin does is sound.
pub proof fn lemma_looked_at_sound(
    d: &Design,
    rules: WalkRules,
    rails: Seq<RailReading>,
    w: Walk,
    v: Visit,
    p: int,
)
    requires
        d.wf(),
        d.sound(rules, rails, w),
        d.visit_sound(rules, rails, v),
        d.enters(rules, rails, v.net),
        v.via.len() == 0 <==> v.net == rules.start_net,
        0 <= p < d.pins.len(),
        d.net_of(p) == Some(v.net),
    ensures
        d.sound(rules, rails, d.looked_at(rules, w, v, p)),
{
    let c = d.owner(p);
    if (v.via.len() == 0 && rules.start_comp == Some(c as usize)) || w.comps.contains(c) {
    } else if d.passes(c) {
        let met = Walk { comps: w.comps.insert(c), ..w };
        assert(d.sound(rules, rails, met));
        lemma_passed_sound(d, rules, rails, met, v, p);
        lemma_two_pins(d, p);
    } else {
        lemma_ended_sound(d, rules, rails, w, v, p);
    }
}

pub proof fn lemma_net_pin(d: &Design, n: int, i: int)
    requires
        d.wf(),
        0 <= n < d.nets.len(),
        0 <= i < d.net_pins(n).len(),
    ensures
        0 <= d.net_pins(n)[i] < d.pins.len(),
        d.net_of(d.net_pins(n)[i]) == Some(n),
{
    lemma_lists_in_range(d);
    assert(d.nets@[n].pins@[i].0 == d.net_pins(n)[i]);
}

pub proof fn lemma_looked_through_sound(
    d: &Design,
    rules: WalkRules,
    rails: Seq<RailReading>,
    w: Walk,
    v: Visit,
    k: int,
)
    requires
        d.wf(),
        d.sound(rules, rails, w),
        d.visit_sound(rules, rails, v),
        d.enters(rules, rails, v.net),
        v.via.len() == 0 <==> v.net == rules.start_net,
        k <= d.net_pins(v.net).len(),
    ensures
        d.sound(rules, rails, d.looked_through(rules, w, v, k)),
    decreases k,
{
    if k > 0 {
        lemma_looked_through_sound(d, rules, rails, w, v, k - 1);
        lemma_net_pin(d, v.net, k - 1);
        lemma_looked_at_sound(
            d,
            rules,
            rails,
            d.looked_through(rules, w, v, k - 1),
            v,
            d.net_pins(v.net)[k - 1],
        );
    }
}

/// Visiting a net is sound.
pub proof fn lemma_visited_sound(
    d: &Design,
    rules: WalkRules,
    rails: Seq<RailReading>,
    w: Walk,
    v: Visit,
)
    requires
        d.wf(),
        d.sound(rules, rails, w),
        d.visit_sound(rules, rails, v),
        v.via.len() == 0 <==> v.net == rules.start_net,
    ensures
        d.sound(rules, rails, d.visited(rules, rails, w, v)),
{
    if !Design::stops_at(rules, rails, v.net) && !d.too_large(rules, v.net) {
        let entered = if v.net == rules.start_net {
            w
        } else {
            d.noted(rules, w, v)
        };
        assert(d.sound(rules, rails, entered));
        lemma_looked_through_sound(
            d,
            rules,
            rails,
            entered,
            v,
            d.net_pins(v.net).len() as int,
        );
    }
}

/// The order of the queue is kept: looking at pins only adds to it, and only nets
/// reached through a part.
proof fn lemma_looked_through_begun(
    d: &Design,
    rules: WalkRules,
    w: Walk,
    v: Visit,
    k: int,
)
    requires
        forall|i: int|
            0 <= i < w.queue.len() ==> ((#[trigger] w.queue[i]).via.len() == 0 ==> w.queue[i].net
                == rules.start_net),
    ensures
        ({
            let after = d.looked_through(rules, w, v, k);
            &&& after.nets == w.nets
            &&& forall|i: int|
                0 <= i < after.queue.len() ==> ((#[trigger] after.queue[i]).via.len() == 0
                    ==> after.queue[i].net == rules.start_net)
        }),
    decreases k,
{
    if k > 0 {
        lemma_looked_through_begun(d, rules, w, v, k - 1);
    }
}

pub proof fn lemma_visited_begun(
    d: &Design,
    rules: WalkRules,
    rails: Seq<RailReading>,
    w: Walk,
    v: Visit,
)
    requires
        forall|i: int|
            0 <= i < w.queue.len() ==> ((#[trigger] w.queue[i]).via.len() == 0 ==> w.queue[i].net
                == rules.start_net),
    ensures
        ({
            let after = d.visited(rules, rails, w, v);
            &&& after.nets == w.nets
            &&& forall|i: int|
                0 <= i < after.queue.len() ==> ((#[trigger] after.queue[i]).via.len() == 0
                    ==> after.queue[i].net == rules.start_net)
        }),
{
    let entered = if v.net == rules.start_net {
        w
    } else {
        d.noted(rules, w, v)
    };
    lemma_looked_through_begun(d, rules, entered, v, d.net_pins(v.net).len() as int);
}

pub proof fn lemma_walked_sound(d: &Design, rules: WalkRules, rails: Seq<RailReading>, w: Walk)
    requires
        d.wf(),
        rules.start_net < d.nets.len(),
        d.sound(rules, rails, w),
        d.begun(rules, w),
    ensures
        d.sound(rules, rails, d.walked(rules, rails, w)),
        d.walked(rules, rails, w).nets.contains(rules.start_net as int),
        d.walked(rules, rails, w).queue.len() == 0,
    decreases d.unvisited(w.nets).len(), w.queue.len(),
{
    if w.queue.len() > 0 {
        let v = w.queue[0];
        let rest = Walk { queue: w.queue.skip(1), ..w };
        assert forall|i: int| 0 <= i < rest.queue.len() implies d.visit_sound(
            rules,
            rails,
            #[trigger] rest.queue[i],
        ) && (rest.queue[i].via.len() == 0 ==> rest.queue[i].net == rules.start_net) by {
            assert(rest.queue[i] == w.queue[i + 1]);
        }
        assert(d.visit_sound(rules, rails, v));
        assert(d.sound(rules, rails, rest));
        if w.nets.contains(v.net) {
            lemma_walked_sound(d, rules, rails, rest);
        } else {
            super::walk::lemma_unvisited(d, w.nets, v.net);
            if v.net == rules.start_net {
                assert(w == Design::setting_out(rules));
            }
            lemma_visited_sound(d, rules, rails, rest, v);
            lemma_visited_begun(d, rules, rails, rest, v);
            let after = Walk {
                nets: w.nets.insert(v.net),
                ..d.visited(rules, rails, rest, v)
            };
            assert(d.reachable(rules, rails, v.net));
            assert(d.sound(rules, rails, after));
            assert(after.nets.contains(rules.start_net as int)) by {
                if !w.nets.contains(rules.start_net as int) {
                    assert(w == Design::setting_out(rules));
                }
            }
            lemma_walked_sound(d, rules, rails, after);
        }
    }
}

/// All that a walk reports is reached from the start over the chain that is reported
/// with it: through two-pin passives, over nets that are neither rails to stop at nor
/// large, at a distance that is the length of the chain and within the depth asked for.
/// The start part is never reported, no pin name is reported twice, and neither
/// endpoints nor dead ends are more than was asked for.
pub proof fn lemma_walk_is_sound(d: &Design, rules: WalkRules, rails: Seq<RailReading>)
    requires
        d.wf(),
        rules.start_net < d.nets.len(),
        rails.len() == d.nets.len(),
    ensures
        d.sound(rules, rails, d.whole_walk(rules, rails)),
        d.whole_walk(rules, rails).nets.contains(rules.start_net as int),
{
    let w = Design::setting_out(rules);
    assert(d.leads_to(rules, rails, w.queue[0].via, w.queue[0].net));
    assert(d.sound(rules, rails, w));
    lemma_walked_sound(d, rules, rails, w);
}

spec fn extends(w: Walk, after: Walk) -> bool {
    &&& w.queue.len() <= after.queue.len()
    &&& forall|i: int| 0 <= i < w.queue.len() ==> #[trigger] w.queue[i] == after.queue[i]
}

proof fn lemma_parts_done_grows(d: &Design, w: Walk, after: Walk, here: Set<int>, c: int)
    requires
        d.parts_done(w, here),
        extends(w, after),
        w.comps.contains(c),
    ensures
        0 <= c < d.components.len(),
        d.passes(c),
        exists|p: int| #[trigger] d.gone_through(after, here, c, p),
{
    let p = choose|p: int| #[trigger] d.gone_through(w, here, c, p);
    let q = d.other_pin(c, p).unwrap();
    if let Some(n) = d.net_of(q) {
        if exists|i: int| 0 <= i < w.queue.len() && (#[trigger] w.queue[i]).net == n {
            let i = choose|i: int| 0 <= i < w.queue.len() && (#[trigger] w.queue[i]).net == n;
            assert(after.queue[i].net == n);
        }
    }
    assert(d.gone_through(after, here, c, p));
}

proof fn lemma_labels_done_stays(d: &Design, w: Walk, after: Walk)
    requires
        d.labels_done(w),
        after.labels == w.labels,
        after.endpoints == w.endpoints,
    ensures
        d.labels_done(after),
{
    assert forall|l: Seq<char>| #[trigger] after.labels.contains(l) implies exists|i: int|
        0 <= i < after.endpoints.len() && d.label((#[trigger] after.endpoints[i]).pin) == l by {
        assert(w.labels.contains(l));
        let i = choose|i: int|
            0 <= i < w.endpoints.len() && d.label((#[trigger] w.endpoints[i]).pin) == l;
        assert(after.endpoints[i] == w.endpoints[i]);
    }
}

/// Looking at a pin deals with it and leaves nothing out.
proof fn lemma_looked_at_done(
    d: &Design,
    rules: WalkRules,
    rails: Seq<RailReading>,
    w: Walk,
    v: Visit,
    p: int,
    here: Set<int>,
)
    requires
        d.wf(),
        d.parts_done(w, here),
        d.labels_done(w),
        here.contains(v.net),
        v.via.len() == 0 ==> v.net == rules.start_net,
        0 <= p < d.pins.len(),
        d.net_of(p) == Some(v.net),
        !d.looked_at(rules, w, v, p).truncated,
    ensures
        ({
            let after = d.looked_at(rules, w, v, p);
            &&& d.parts_done(after, here)
            &&& d.labels_done(after)
            &&& d.dealt_with(rules, after, v.net, p)
            &&& extends(w, after)
            &&& w.comps.subset_of(after.comps)
            &&& w.labels.subset_of(after.labels)
            &&& !w.truncated
        }),
{
    let c = d.owner(p);
    let after = d.looked_at(rules, w, v, p);
    assert(d.pins@[p].id.0 == p);
    if v.via.len() == 0 && rules.start_comp == Some(c as usize) {
    } else if w.comps.contains(c) {
    } else if d.passes(c) {
        lemma_two_pins(d, p);
        let q = d.other_pin(c, p).unwrap();
        assert(extends(w, after));
        assert forall|b: int| #[trigger] after.comps.contains(b) implies 0 <= b
            < d.components.len() && d.passes(b) && exists|r: int| #[trigger]
            d.gone_through(after, here, b, r) by {
            if b != c {
                lemma_parts_done_grows(d, w, after, here, b);
            } else {
                if let Some(n) = d.net_of(q) {
                    if n != v.net && d.net_pins(n).len() != 1 {
                        let last = after.queue.len() - 1;
                        assert(after.queue[last].net == n);
                    }
                }
                assert(d.far_side_known(after, here, q, v.net));
                assert(d.gone_through(after, here, c, p));
            }
        }
    } else {
        assert forall|l: Seq<char>| #[trigger] after.labels.contains(l) implies exists|i: int|
            0 <= i < after.endpoints.len() && d.label((#[trigger] after.endpoints[i]).pin) == l by {
            if w.labels.contains(l) {
                let i = choose|i: int|
                    0 <= i < w.endpoints.len() && d.label((#[trigger] w.endpoints[i]).pin) == l;
                assert(after.endpoints[i] == w.endpoints[i]);
            } else {
                let last = after.endpoints.len() - 1;
                assert(d.label(after.endpoints[last].pin) == l);
            }
        }
        assert forall|b: int| #[trigger] after.comps.contains(b) implies 0 <= b
            < d.components.len() && d.passes(b) && exists|r: int| #[trigger]
            d.gone_through(after, here, b, r) by {
            lemma_parts_done_grows(d, w, after, here, b);
        }
    }
}

/// Looking at a net's first pins deals with them and leaves nothing out.
proof fn lemma_looked_through_done(
    d: &Design,
    rules: WalkRules,
    rails: Seq<RailReading>,
    w: Walk,
    v: Visit,
    k: int,
    here: Set<int>,
)
    requires
        d.wf(),
        0 <= v.net < d.nets.len(),
        d.parts_done(w, here),
        d.labels_done(w),
        here.contains(v.net),
        v.via.len() == 0 ==> v.net == rules.start_net,
        k <= d.net_pins(v.net).len(),
        !d.looked_through(rules, w, v, k).truncated,
    ensures
        ({
            let after = d.looked_through(rules, w, v, k);
            &&& d.parts_done(after, here)
            &&& d.labels_done(after)
            &&& forall|i: int|
                0 <= i < k ==> d.dealt_with(rules, after, v.net, #[trigger] d.net_pins(v.net)[i])
            &&& w.comps.subset_of(after.comps)
            &&& w.labels.subset_of(after.labels)
            &&& after.nets == w.nets
            &&& !w.truncated
        }),
    decreases k,
{
    if k > 0 {
        let mid = d.looked_through(rules, w, v, k - 1);
        lemma_net_pin(d, v.net, k - 1);
        let p = d.net_pins(v.net)[k - 1];
        if mid.truncated {
            assert(d.looked_at(rules, mid, v, p).truncated);
        }
        lemma_looked_through_done(d, rules, rails, w, v, k - 1, here);
        lemma_looked_at_done(d, rules, rails, mid, v, p, here);
        let after = d.looked_through(rules, w, v, k);
        assert forall|i: int| 0 <= i < k implies d.dealt_with(
            rules,
            after,
            v.net,
            #[trigger] d.net_pins(v.net)[i],
        ) by {
            if i < k - 1 {
                assert(d.dealt_with(rules, mid, v.net, d.net_pins(v.net)[i]));
            }
        }
    }
}

/// A walk that was cut short stays so.
proof fn lemma_truncated_stays(
    d: &Design,
    rules: WalkRules,
    rails: Seq<RailReading>,
    w: Walk,
)
    requires
        w.truncated,
    ensures
        d.walked(rules, rails, w).truncated,
    decreases d.unvisited(w.nets).len(), w.queue.len(),
{
    if w.queue.len() > 0 {
        let v = w.queue[0];
        let rest = Walk { queue: w.queue.skip(1), ..w };
        if w.nets.contains(v.net) || !(0 <= v.net < d.nets.len()) {
            lemma_truncated_stays(d, rules, rails, rest);
        } else {
            super::walk::lemma_unvisited(d, w.nets, v.net);
            let entered = if v.net == rules.start_net {
                rest
            } else {
                d.noted(rules, rest, v)
            };
            lemma_looked_truncated(d, rules, entered, v, d.net_pins(v.net).len() as int);
            lemma_truncated_stays(
                d,
                rules,
                rails,
                Walk { nets: w.nets.insert(v.net), ..d.visited(rules, rails, rest, v) },
            );
        }
    }
}

proof fn lemma_looked_truncated(d: &Design, rules: WalkRules, w: Walk, v: Visit, k: int)
    requires
        w.truncated,
    ensures
        d.looked_through(rules, w, v, k).truncated,
    decreases k,
{
    if k > 0 {
        lemma_looked_truncated(d, rules, w, v, k - 1);
    }
}

/// Visiting a net leaves nothing out.
proof fn lemma_step_done(
    d: &Design,
    rules: WalkRules,
    rails: Seq<RailReading>,
    w: Walk,
)
    requires
        d.wf(),
        w.queue.len() > 0,
        0 <= w.queue[0].net < d.nets.len(),
        d.parts_done(w, w.nets),
        d.pins_done(rules, rails, w),
        d.labels_done(w),
        w.queue[0].via.len() == 0 ==> w.queue[0].net == rules.start_net,
    ensures
        ({
            let v = w.queue[0];
            let rest = Walk { queue: w.queue.skip(1), ..w };
            let after = Walk {
                nets: w.nets.insert(v.net),
                ..d.visited(rules, rails, rest, v)
            };
            if w.nets.contains(v.net) {
                d.parts_done(rest, rest.nets) && d.pins_done(rules, rails, rest) && d.labels_done(
                    rest,
                )
            } else {
                !after.truncated ==> d.parts_done(after, after.nets) && d.pins_done(
                    rules,
                    rails,
                    after,
                ) && d.labels_done(after)
            }
        }),
{
    let v = w.queue[0];
    let rest = Walk { queue: w.queue.skip(1), ..w };
    let here = w.nets.insert(v.net);
    assert forall|c: int| #[trigger] rest.comps.contains(c) implies 0 <= c < d.components.len()
        && d.passes(c) && exists|p: int| #[trigger] d.gone_through(rest, here, c, p) by {
        assert(w.comps.contains(c));
        let p = choose|p: int| #[trigger] d.gone_through(w, w.nets, c, p);
        let q = d.other_pin(c, p).unwrap();
        if let Some(n) = d.net_of(q) {
            if exists|i: int| 0 <= i < w.queue.len() && (#[trigger] w.queue[i]).net == n {
                let i = choose|i: int| 0 <= i < w.queue.len() && (#[trigger] w.queue[i]).net == n;
                if i > 0 {
                    assert(rest.queue[i - 1].net == n);
                }
            }
        }
        assert(d.gone_through(rest, here, c, p));
    }
    assert(d.parts_done(rest, here));
    if w.nets.contains(v.net) {
        assert(here =~= w.nets);
    } else {
        let inside = d.visited(rules, rails, rest, v);
        let after = Walk { nets: here, ..inside };
        if !after.truncated {
            if Design::stops_at(rules, rails, v.net) || d.too_large(rules, v.net) {
                assert forall|c: int| #[trigger] after.comps.contains(c) implies 0 <= c
                    < d.components.len() && d.passes(c) && exists|p: int| #[trigger]
                    d.gone_through(after, here, c, p) by {
                    lemma_parts_done_grows(d, rest, after, here, c);
                }
                assert(d.parts_done(after, here));
                lemma_labels_done_stays(d, w, after);
                assert forall|m: int, i: int|
                    #![trigger after.nets.contains(m), d.net_pins(m)[i]]
                    after.nets.contains(m) && d.enters(rules, rails, m) && 0 <= i < d.net_pins(
                        m,
                    ).len() implies d.dealt_with(rules, after, m, d.net_pins(m)[i]) by {
                    assert(w.nets.contains(m));
                }
            } else {
                let entered = if v.net == rules.start_net {
                    rest
                } else {
                    d.noted(rules, rest, v)
                };
                assert forall|c: int| #[trigger] entered.comps.contains(c) implies 0 <= c
                    < d.components.len() && d.passes(c) && exists|p: int| #[trigger]
                    d.gone_through(entered, here, c, p) by {
                    lemma_parts_done_grows(d, rest, entered, here, c);
                }
                lemma_labels_done_stays(d, w, entered);
                let n = d.net_pins(v.net).len() as int;
                lemma_looked_through_done(d, rules, rails, entered, v, n, here);
                assert forall|c: int| #[trigger] after.comps.contains(c) implies 0 <= c
                    < d.components.len() && d.passes(c) && exists|p: int| #[trigger]
                    d.gone_through(after, here, c, p) by {
                    lemma_parts_done_grows(d, inside, after, here, c);
                }
                assert forall|m: int, i: int|
                    #![trigger after.nets.contains(m), d.net_pins(m)[i]]
                    after.nets.contains(m) && d.enters(rules, rails, m) && 0 <= i < d.net_pins(
                        m,
                    ).len() implies d.dealt_with(rules, after, m, d.net_pins(m)[i]) by {
                    if m == v.net {
                        assert(d.dealt_with(rules, inside, v.net, d.net_pins(v.net)[i]));
                    } else {
                        assert(w.nets.contains(m));
                        assert(d.dealt_with(rules, w, m, d.net_pins(m)[i]));
                    }
                }
                lemma_labels_done_stays(d, inside, after);
            }
        }
    }
}

proof fn lemma_walked_done(d: &Design, rules: WalkRules, rails: Seq<RailReading>, w: Walk)
    requires
        d.wf(),
        rules.start_net < d.nets.len(),
        d.sound(rules, rails, w),
        d.begun(rules, w),
        d.parts_done(w, w.nets),
        d.pins_done(rules, rails, w),
        d.labels_done(w),
        !d.walked(rules, rails, w).truncated,
    ensures
        ({
            let after = d.walked(rules, rails, w);
            d.parts_done(after, after.nets) && d.pins_done(rules, rails, after) && d.labels_done(
                after,
            )
        }),
    decreases d.unvisited(w.nets).len(), w.queue.len(),
{
    if w.queue.len() > 0 {
        let v = w.queue[0];
        let rest = Walk { queue: w.queue.skip(1), ..w };
        assert forall|i: int| 0 <= i < rest.queue.len() implies d.visit_sound(
            rules,
            rails,
            #[trigger] rest.queue[i],
        ) && (rest.queue[i].via.len() == 0 ==> rest.queue[i].net == rules.start_net) by {
            assert(rest.queue[i] == w.queue[i + 1]);
        }
        assert(d.visit_sound(rules, rails, v));
        assert(d.sound(rules, rails, rest));
        lemma_step_done(d, rules, rails, w);
        if w.nets.contains(v.net) {
            lemma_walked_done(d, rules, rails, rest);
        } else {
            super::walk::lemma_unvisited(d, w.nets, v.net);
            if v.net == rules.start_net {
                assert(w == Design::setting_out(rules));
            }
            lemma_visited_sound(d, rules, rails, rest, v);
            lemma_visited_begun(d, rules, rails, rest, v);
            let after = Walk {
                nets: w.nets.insert(v.net),
                ..d.visited(rules, rails, rest, v)
            };
            assert(d.reachable(rules, rails, v.net));
            assert(d.sound(rules, rails, after));
            assert(after.nets.contains(rules.start_net as int)) by {
                if !w.nets.contains(rules.start_net as int) {
                    assert(w == Design::setting_out(rules));
                }
            }
            if after.truncated {
                lemma_truncated_stays(d, rules, rails, after);
            }
            lemma_walked_done(d, rules, rails, after);
        }
    }
}

/// A net that a passive joins to a net that was entered was visited too, unless it has
/// no pin but the passive's.
proof fn lemma_closed(
    d: &Design,
    rules: WalkRules,
    rails: Seq<RailReading>,
    w: Walk,
    c: int,
    m: int,
    n: int,
)
    requires
        d.wf(),
        w.queue.len() == 0,
        d.parts_done(w, w.nets),
        d.pins_done(rules, rails, w),
        0 <= m < d.nets.len(),
        w.nets.contains(m),
        d.enters(rules, rails, m),
        d.bridges(c, m, n),
        !(m == rules.start_net && rules.start_comp == Some(c as usize)),
    ensures
        w.nets.contains(n) || d.net_pins(n).len() == 1,
{
    let ids = d.comp_pins(c);
    let p = if d.net_of(ids[0]) == Some(m) && d.net_of(ids[1]) == Some(n) {
        ids[0]
    } else {
        ids[1]
    };
    lemma_pins_of_comp(d.pins@, c);
    assert(d.components@[c].id.0 == c);
    assert(d.owner(p) == c && 0 <= p < d.pins.len());
    lemma_two_pins(d, p);
    lemma_pins_on_net(d.pins@, m);
    assert(on_net(d.pins@[p], m));
    assert(d.nets@[m].id.0 == m);
    assert(d.net_pins(m).contains(p));
    let i = choose|i: int| 0 <= i < d.net_pins(m).len() && d.net_pins(m)[i] == p;
    assert(d.dealt_with(rules, w, m, d.net_pins(m)[i]));
    assert(w.comps.contains(c));
    let r = choose|r: int| #[trigger] d.gone_through(w, w.nets, c, r);
    if r != p {
        assert(d.net_of(r) == Some(n));
    }
}

proof fn lemma_reaches_all(
    d: &Design,
    rules: WalkRules,
    rails: Seq<RailReading>,
    w: Walk,
    chain: Seq<int>,
    n: int,
)
    requires
        d.wf(),
        w.queue.len() == 0,
        w.nets.contains(rules.start_net as int),
        d.parts_done(w, w.nets),
        d.pins_done(rules, rails, w),
        d.leads_to(rules, rails, chain, n),
    ensures
        w.nets.contains(n) || d.net_pins(n).len() == 1,
    decreases chain.len(),
{
    if chain.len() > 0 {
        let m = choose|m: int|
            {
                &&& #[trigger] d.bridges(chain.last(), m, n)
                &&& 0 <= m < d.nets.len()
                &&& d.enters(rules, rails, m)
                &&& !(m == rules.start_net && rules.start_comp == Some(chain.last() as usize))
                &&& d.leads_to(rules, rails, chain.drop_last(), m)
            };
        lemma_reaches_all(d, rules, rails, w, chain.drop_last(), m);
        lemma_closed(d, rules, rails, w, chain.last(), m, n);
    }
}

/// A walk that was not cut short has visited every net that a chain of passives leads
/// to, except nets with one pin, and reports by its name every pin on a net it entered
/// that ends there and is not the start part's.
pub proof fn lemma_walk_is_complete(
    d: &Design,
    rules: WalkRules,
    rails: Seq<RailReading>,
    chain: Seq<int>,
    n: int,
    p: int,
)
    requires
        d.wf(),
        rules.start_net < d.nets.len(),
        rails.len() == d.nets.len(),
        !d.whole_walk(rules, rails).truncated,
        d.leads_to(rules, rails, chain, n),
        0 <= n < d.nets.len(),
    ensures
        d.whole_walk(rules, rails).nets.contains(n) || d.net_pins(n).len() == 1,
        d.enters(rules, rails, n) && 0 <= p < d.pins.len() && d.net_of(p) == Some(n) && !d.passes(
            d.owner(p),
        ) && rules.start_comp != Some(d.owner(p) as usize) ==> exists|i: int|
            0 <= i < d.whole_walk(rules, rails).endpoints.len() && d.label(
                (#[trigger] d.whole_walk(rules, rails).endpoints[i]).pin,
            ) == d.label(p),
{
    let start = Design::setting_out(rules);
    let w = d.whole_walk(rules, rails);
    assert(d.leads_to(rules, rails, start.queue[0].via, start.queue[0].net));
    assert(d.sound(rules, rails, start));
    lemma_walked_sound(d, rules, rails, start);
    lemma_walked_done(d, rules, rails, start);
    lemma_reaches_all(d, rules, rails, w, chain, n);
    if d.enters(rules, rails, n) && 0 <= p < d.pins.len() && d.net_of(p) == Some(n) && !d.passes(
        d.owner(p),
    ) && rules.start_comp != Some(d.owner(p) as usize) {
        lemma_pins_on_net(d.pins@, n);
        assert(on_net(d.pins@[p], n));
        assert(d.nets@[n].id.0 == n);
        assert(d.net_pins(n).contains(p));
        let i = choose|i: int| 0 <= i < d.net_pins(n).len() && d.net_pins(n)[i] == p;
        assert(w.nets.contains(n));
        assert(d.dealt_with(rules, w, n, d.net_pins(n)[i]));
        assert(w.labels.contains(d.label(p)));
    }
}

} // verus!
