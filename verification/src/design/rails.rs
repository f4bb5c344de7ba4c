//! What speaks for a net being a power rail.
use vstd::prelude::*;

use super::classes::{is_power_name, power_name, refdes_class};
use super::name_laws::{lemma_weighs, weighs};
use super::{lemma_lists_in_range, lemma_type_counts, pin_ids, type_count};
use super::{Design, Net};
use crate::text::same_text;

verus! {

/// The facts that a rail score weighs.
#[derive(Debug, Clone, Copy, PartialEq, Eq, Structural)]
pub struct RailSignals {
    /// How many pins are on the net.
    pub fanout: usize,
    /// How many of them are power inputs or power outputs.
    pub power_pins: usize,
    /// How many of them belong to capacitors.
    pub cap_pins: usize,
    /// The net's name looks like a rail's.
    pub name_match: bool,
}

/// What a rail score says of a net: whether it is a rail, the score in hundredths, and
/// the evidence in words.
#[derive(Debug)]
pub struct RailReading {
    pub rail: bool,
    pub hundredths: u32,
    pub evidence: Vec<String>,
}

impl Design {
    /// How many of the pins belong to capacitors.
    pub open spec fn cap_count(&self, ids: Seq<int>) -> nat
        decreases ids.len(),
    {
        if ids.len() == 0 {
            0
        } else {
            self.cap_count(ids.drop_last()) + (if self.class(self.owner(ids.last())) == "C"@ {
                1nat
            } else {
                0nat
            })
        }
    }

    pub open spec fn type_count_on(&self, n: int, t: Seq<char>) -> nat {
        type_count(self.pins@, self.net_pins(n), t)
    }

    /// How many pins of a type are on a net.
    pub fn count_of_type(&self, net: &Net, t: &str) -> (r: usize)
        requires
            self.wf(),
            self.has_net(net),
        ensures
            r == self.type_count_on(net.id.0 as int, t@),
    {
        assert(net.pin_types@.contains_key(t@) <==> self.type_count_on(net.id.0 as int, t@) > 0);
        match net.pin_types.get(t) {
            Some(n) => *n,
            None => 0,
        }
    }

    fn count_caps(&self, net: &Net) -> (r: usize)
        requires
            forall|i: int|
                0 <= i < net.pins.len() ==> (#[trigger] net.pins@[i]).0 < self.pins.len()
                    && self.pins@[net.pins@[i].0 as int].comp.0 < self.components.len(),
        ensures
            r == self.cap_count(pin_ids(net.pins@)),
            r <= net.pins.len(),
    {
        let ghost all = pin_ids(net.pins@);
        let mut n: usize = 0;
        let mut i: usize = 0;
        assert(all.take(0) =~= Seq::<int>::empty());
        while i < net.pins.len()
            invariant
                i <= net.pins.len(),
                all == pin_ids(net.pins@),
                forall|i: int|
                    0 <= i < net.pins.len() ==> (#[trigger] net.pins@[i]).0 < self.pins.len()
                        && self.pins@[net.pins@[i].0 as int].comp.0 < self.components.len(),
                n <= i,
                n == self.cap_count(all.take(i as int)),
            decreases net.pins.len() - i,
        {
            let ghost next = all.take(i + 1);
            assert(next.drop_last() =~= all.take(i as int));
            let comp = self.component(&self.pin(&net.pins[i]).comp);
            let class = refdes_class(comp.refdes.as_str());
            if same_text(class.as_str(), "C") {
                n += 1;
            }
            i += 1;
        }
        assert(all.take(all.len() as int) =~= all);
        n
    }

    /// The facts that a net's rail score weighs.
    pub fn rail_signals(&self, net: &Net) -> (r: RailSignals)
        requires
            self.wf(),
            self.has_net(net),
        ensures
            r.fanout == self.net_pins(net.id.0 as int).len(),
            r.power_pins == self.type_count_on(net.id.0 as int, "power_in"@) + self.type_count_on(
                net.id.0 as int,
                "power_out"@,
            ),
            r.cap_pins == self.cap_count(self.net_pins(net.id.0 as int)),
            r.name_match == power_name(self.nets@[net.id.0 as int].name@),
            r.power_pins <= r.fanout,
            r.cap_pins <= r.fanout,
            weighs(self, r, net.id.0 as int),
    {
        proof {
            lemma_lists_in_range(self);
            reveal_strlit("power_in");
            reveal_strlit("power_out");
            assert("power_in"@.len() != "power_out"@.len());
            lemma_type_counts(
                self.pins@,
                self.net_pins(net.id.0 as int),
                "power_in"@,
                "power_out"@,
            );
        }
        let ins = self.count_of_type(net, "power_in");
        let outs = self.count_of_type(net, "power_out");
        let signals = RailSignals {
            fanout: net.pins.len(),
            power_pins: ins + outs,
            cap_pins: self.count_caps(net),
            name_match: is_power_name(net.name.as_str()),
        };
        proof {
            lemma_weighs(self, signals, net.id.0 as int);
        }
        signals
    }
}

} // verus!
