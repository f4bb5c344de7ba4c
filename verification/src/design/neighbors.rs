//! The parts one hop away from a part.
use vstd::prelude::*;

use super::details::{NeighborRow, NeighborsEnvelope, NetGroup, GROUP_SIZE};
use super::error::{QueryError, Refusal};
use super::{lemma_lists_in_range, pin_ids, CompId, Design, NetId, PinId};
use crate::lists::page;
use crate::text::same_text;

verus! {

impl Design {
    /// Those of the pins that do not belong to `c`.
    pub open spec fn foreign_pins(&self, s: Seq<int>, c: int) -> Seq<int>
        decreases s.len(),
    {
        if s.len() == 0 {
            Seq::empty()
        } else {
            let front = self.foreign_pins(s.drop_last(), c);
            if self.owner(s.last()) != c {
                front.push(s.last())
            } else {
                front
            }
        }
    }

    /// Two pins go by the same designator and number.
    pub open spec fn alike(&self, p: int, q: int) -> bool {
        self.components@[self.owner(p)].refdes@ == self.components@[self.owner(q)].refdes@
            && self.pins@[p].number@ == self.pins@[q].number@
    }

    pub open spec fn has_alike(&self, s: Seq<int>, q: int) -> bool {
        exists|i: int| 0 <= i < s.len() && self.alike(#[trigger] s[i], q)
    }

    /// The pins without those that an earlier one is alike to.
    pub open spec fn told_apart(&self, s: Seq<int>) -> Seq<int>
        decreases s.len(),
    {
        if s.len() == 0 {
            Seq::empty()
        } else {
            let front = self.told_apart(s.drop_last());
            if self.has_alike(front, s.last()) {
                front
            } else {
                front.push(s.last())
            }
        }
    }

    /// The pins of other parts on the net of the pin `p`.
    pub open spec fn neighbor_pins(&self, p: int) -> Seq<int> {
        let n = self.net_of(p).unwrap();
        self.told_apart(self.by_part(self.foreign_pins(self.net_pins(n), self.owner(p))))
    }

    /// Those of the pins that are on a net.
    pub open spec fn connected_pins(&self, s: Seq<int>) -> Seq<int>
        decreases s.len(),
    {
        if s.len() == 0 {
            Seq::empty()
        } else {
            let front = self.connected_pins(s.drop_last());
            if self.net_of(s.last()) is Some {
                front.push(s.last())
            } else {
                front
            }
        }
    }

    pub open spec fn neighbor_is(&self, r: NeighborRow, q: int) -> bool {
        let comp = self.components@[self.owner(q)];
        r.refdes == comp.refdes && r.value == comp.value && r.pin@ == self.label(q) && r.dnp
            == comp.dnp
    }

    pub open spec fn group_is(&self, g: NetGroup, p: int) -> bool {
        let n = self.net_of(p).unwrap();
        let all = self.neighbor_pins(p);
        let shown = page(all, 0, GROUP_SIZE as int);
        &&& g.pin@ == self.label(p)
        &&& g.net == self.nets@[n].name
        &&& g.fanout == self.net_pins(n).len()
        &&& g.truncated == (all.len() > GROUP_SIZE)
        &&& g.neighbors.len() == shown.len()
        &&& forall|i: int|
            0 <= i < shown.len() ==> self.neighbor_is(#[trigger] g.neighbors@[i], shown[i])
    }

    /// The answer lists the neighbours of the component at place `c`, pin by pin.
    pub open spec fn neighbors_answer(&self, e: NeighborsEnvelope, c: int) -> bool {
        let comp = self.components@[c];
        let pins = self.connected_pins(self.by_number(self.comp_pins(c)));
        &&& e.refdes == comp.refdes
        &&& e.value == comp.value
        &&& e.dnp == comp.dnp
        &&& e.net_groups.len() == pins.len()
        &&& forall|i: int|
            0 <= i < pins.len() ==> self.group_is(#[trigger] e.net_groups@[i], pins[i])
    }

    fn keep_foreign(&self, ids: &Vec<PinId>, c: CompId) -> (r: Vec<PinId>)
        requires
            self.wf(),
            self.known_pins(ids@),
        ensures
            pin_ids(r@) == self.foreign_pins(pin_ids(ids@), c.0 as int),
            self.known_pins(r@),
    {
        let ghost all = pin_ids(ids@);
        let mut out: Vec<PinId> = Vec::new();
        let mut i: usize = 0;
        assert(all.take(0) =~= Seq::<int>::empty());
        assert(pin_ids(out@) =~= Seq::<int>::empty());
        while i < ids.len()
            invariant
                i <= ids.len(),
                self.wf(),
                self.known_pins(ids@),
                self.known_pins(out@),
                all == pin_ids(ids@),
                pin_ids(out@) == self.foreign_pins(all.take(i as int), c.0 as int),
            decreases ids.len() - i,
        {
            let ghost next = all.take(i + 1);
            assert(next.drop_last() =~= all.take(i as int));
            let ghost was = out@;
            if self.pins[ids[i].0].comp.0 != c.0 {
                out.push(ids[i]);
                assert(pin_ids(out@) =~= pin_ids(was).push(ids@[i as int].0 as int));
            }
            i += 1;
        }
        assert(all.take(all.len() as int) =~= all);
        out
    }

    fn holds_alike(&self, ids: &Vec<PinId>, q: PinId) -> (r: bool)
        requires
            self.wf(),
            self.known_pins(ids@),
            q.0 < self.pins.len(),
        ensures
            r == self.has_alike(pin_ids(ids@), q.0 as int),
    {
        let ghost all = pin_ids(ids@);
        let pin = &self.pins[q.0];
        let comp = &self.components[pin.comp.0];
        let mut i: usize = 0;
        while i < ids.len()
            invariant
                i <= ids.len(),
                self.wf(),
                self.known_pins(ids@),
                q.0 < self.pins.len(),
                *pin == self.pins@[q.0 as int],
                *comp == self.components@[self.owner(q.0 as int)],
                all == pin_ids(ids@),
                forall|k: int| 0 <= k < i ==> !self.alike(#[trigger] all[k], q.0 as int),
            decreases ids.len() - i,
        {
            let other = &self.pins[ids[i].0];
            assert(all[i as int] == ids@[i as int].0);
            if same_text(other.number.as_str(), pin.number.as_str()) && same_text(
                self.components[other.comp.0].refdes.as_str(),
                comp.refdes.as_str(),
            ) {
                assert(self.alike(all[i as int], q.0 as int));
                return true;
            }
            i += 1;
        }
        false
    }

    fn tell_apart(&self, ids: &Vec<PinId>) -> (r: Vec<PinId>)
        requires
            self.wf(),
            self.known_pins(ids@),
        ensures
            pin_ids(r@) == self.told_apart(pin_ids(ids@)),
            self.known_pins(r@),
    {
        let ghost all = pin_ids(ids@);
        let mut out: Vec<PinId> = Vec::new();
        let mut i: usize = 0;
        assert(all.take(0) =~= Seq::<int>::empty());
        assert(pin_ids(out@) =~= Seq::<int>::empty());
        while i < ids.len()
            invariant
                i <= ids.len(),
                self.wf(),
                self.known_pins(ids@),
                self.known_pins(out@),
                all == pin_ids(ids@),
                pin_ids(out@) == self.told_apart(all.take(i as int)),
            decreases ids.len() - i,
        {
            let ghost next = all.take(i + 1);
            assert(next.drop_last() =~= all.take(i as int));
            let ghost was = out@;
            if !self.holds_alike(&out, ids[i]) {
                out.push(ids[i]);
                assert(pin_ids(out@) =~= pin_ids(was).push(ids@[i as int].0 as int));
            }
            i += 1;
        }
        assert(all.take(all.len() as int) =~= all);
        out
    }

    fn net_group(&self, id: PinId, net_id: NetId) -> (r: NetGroup)
        requires
            self.wf(),
            id.0 < self.pins.len(),
            self.net_of(id.0 as int) == Some(net_id.0 as int),
        ensures
            self.group_is(r, id.0 as int),
    {
        let net = &self.nets[net_id.0];
        proof {
            lemma_lists_in_range(self);
            assert(self.known_pins(net.pins@));
        }
        let others = self.keep_foreign(&net.pins, self.pins[id.0].comp);
        let sorted = self.sort_pins(&others, true);
        let distinct = self.tell_apart(&sorted);
        let ghost all = pin_ids(distinct@);
        let ghost shown = page(all, 0, GROUP_SIZE as int);
        let mut neighbors: Vec<NeighborRow> = Vec::new();
        let mut i: usize = 0;
        while i < distinct.len() && i < GROUP_SIZE
            invariant
                i <= distinct.len(),
                i <= GROUP_SIZE,
                self.wf(),
                self.known_pins(distinct@),
                all == pin_ids(distinct@),
                shown == page(all, 0, GROUP_SIZE as int),
                neighbors.len() == i,
                forall|k: int| 0 <= k < i ==> self.neighbor_is(#[trigger] neighbors@[k], shown[k]),
            decreases distinct.len() - i,
        {
            let q = distinct[i];
            let comp = &self.components[self.pins[q.0].comp.0];
            assert(shown[i as int] == q.0);
            neighbors.push(
                NeighborRow {
                    refdes: comp.refdes.clone(),
                    value: comp.value.clone(),
                    pin: self.pin_name(&q),
                    dnp: comp.dnp,
                },
            );
            i += 1;
        }
        NetGroup {
            pin: self.pin_name(&id),
            net: net.name.clone(),
            fanout: net.pins.len(),
            truncated: distinct.len() > GROUP_SIZE,
            neighbors,
        }
    }

    /// The parts that share a net with a part, grouped by its pins in the order of their
    /// numbers, so that a rail does not drown the rest.
    pub fn neighbors(&self, refdes: &str) -> (r: Result<NeighborsEnvelope, QueryError>)
        requires
            self.wf(),
        ensures
            match self.comp_named(refdes@) {
                Some(c) => r matches Ok(e) && self.neighbors_answer(e, c),
                None => r matches Err(e) && e@ == Refusal::Component(refdes@),
            },
    {
        let c = match self.find_component(refdes) {
            Some(c) => c,
            None => return Err(QueryError::NoSuchComponent(refdes.to_owned())),
        };
        let comp = &self.components[c];
        proof {
            lemma_lists_in_range(self);
            assert(self.known_pins(comp.pins@));
        }
        let sorted = self.sort_pins(&comp.pins, false);
        let ghost all = pin_ids(sorted@);
        let mut net_groups: Vec<NetGroup> = Vec::new();
        let mut i: usize = 0;
        assert(all.take(0) =~= Seq::<int>::empty());
        while i < sorted.len()
            invariant
                i <= sorted.len(),
                self.wf(),
                self.known_pins(sorted@),
                all == pin_ids(sorted@),
                net_groups.len() == self.connected_pins(all.take(i as int)).len(),
                forall|k: int|
                    0 <= k < net_groups.len() ==> self.group_is(
                        #[trigger] net_groups@[k],
                        self.connected_pins(all.take(i as int))[k],
                    ),
            decreases sorted.len() - i,
        {
            let ghost next = all.take(i + 1);
            assert(next.drop_last() =~= all.take(i as int));
            let id = sorted[i];
            if let Some(net_id) = self.pins[id.0].net {
                net_groups.push(self.net_group(id, net_id));
            }
            i += 1;
        }
        assert(all.take(all.len() as int) =~= all);
        Ok(
            NeighborsEnvelope {
                refdes: comp.refdes.clone(),
                value: comp.value.clone(),
                dnp: comp.dnp,
                net_groups,
            },
        )
    }
}

proof fn lemma_foreign(d: &Design, s: Seq<int>, c: int)
    ensures
        forall|i: int|
            0 <= i < d.foreign_pins(s, c).len() ==> d.owner(#[trigger] d.foreign_pins(s, c)[i])
                != c,
    decreases s.len(),
{
    if s.len() > 0 {
        let front = d.foreign_pins(s.drop_last(), c);
        lemma_foreign(d, s.drop_last(), c);
        assert forall|i: int| 0 <= i < d.foreign_pins(s, c).len() implies d.owner(
            #[trigger] d.foreign_pins(s, c)[i],
        ) != c by {
            if i < front.len() {
                assert(d.foreign_pins(s, c)[i] == front[i]);
            }
        }
    }
}

proof fn lemma_told_apart(d: &Design, s: Seq<int>)
    ensures
        forall|i: int|
            0 <= i < d.told_apart(s).len() ==> s.contains(#[trigger] d.told_apart(s)[i]),
        forall|i: int, j: int|
            0 <= i < j < d.told_apart(s).len() ==> !d.alike(
                #[trigger] d.told_apart(s)[i],
                #[trigger] d.told_apart(s)[j],
            ),
    decreases s.len(),
{
    if s.len() > 0 {
        let t = s.drop_last();
        lemma_told_apart(d, t);
        let front = d.told_apart(t);
        let all = d.told_apart(s);
        assert forall|i: int| 0 <= i < all.len() implies s.contains(#[trigger] all[i]) by {
            if i < front.len() {
                assert(t.contains(front[i]));
                let k = choose|k: int| 0 <= k < t.len() && t[k] == front[i];
                assert(s[k] == all[i]);
            } else {
                assert(s[s.len() - 1] == all[i]);
            }
        }
        assert forall|i: int, j: int| 0 <= i < j < all.len() implies !d.alike(
            #[trigger] all[i],
            #[trigger] all[j],
        ) by {
            if j < front.len() {
                assert(!d.alike(front[i], front[j]));
            } else {
                assert(!d.alike(front[i], s.last()));
            }
        }
    }
}

/// A part is never its own neighbour, no pin is listed twice under one name, and a group
/// shows no more than its size, saying so where it leaves some out.
pub proof fn lemma_neighbors(d: &Design, g: NetGroup, p: int)
    requires
        d.wf(),
        d.group_is(g, p),
    ensures
        forall|i: int|
            0 <= i < d.neighbor_pins(p).len() ==> d.owner(#[trigger] d.neighbor_pins(p)[i])
                != d.owner(p),
        forall|i: int, j: int|
            0 <= i < j < d.neighbor_pins(p).len() ==> !d.alike(
                #[trigger] d.neighbor_pins(p)[i],
                #[trigger] d.neighbor_pins(p)[j],
            ),
        g.neighbors.len() <= GROUP_SIZE,
        !g.truncated ==> g.neighbors.len() == d.neighbor_pins(p).len(),
{
    let n = d.net_of(p).unwrap();
    let c = d.owner(p);
    let foreign = d.foreign_pins(d.net_pins(n), c);
    let sorted = d.by_part(foreign);
    lemma_foreign(d, d.net_pins(n), c);
    lemma_told_apart(d, sorted);
    crate::ranking::lemma_ranked(foreign.map_values(|q: int| d.part_key(q)));
    let order = crate::ranking::ranked(foreign.map_values(|q: int| d.part_key(q)));
    assert forall|i: int| 0 <= i < d.neighbor_pins(p).len() implies d.owner(
        #[trigger] d.neighbor_pins(p)[i],
    ) != c by {
        let q = d.neighbor_pins(p)[i];
        assert(sorted.contains(q));
        let k = choose|k: int| 0 <= k < sorted.len() && sorted[k] == q;
        assert(foreign[order[k]] == q);
    }
}

} // verus!
