//! A design: its parts, their pins, and the nets that join them.
use vstd::hash_map::StringHashMap;
use vstd::prelude::*;

use crate::parser::netlist::opt_text;
use crate::table::Table;

pub mod assemble;
pub mod assembly_laws;
pub mod bead;
pub mod bead_laws;
pub mod classes;
pub mod detail_laws;
pub mod details;
pub mod error;
pub mod facts;
pub mod filter;
pub mod filter_laws;
pub mod name_laws;
pub mod neighbors;
pub mod net_laws;
pub mod nets;
pub mod overview;
pub mod overview_laws;
pub mod path_findings;
pub mod path_laws;
pub mod rails;
pub mod role_laws;
pub mod roles;
pub mod search;
pub mod search_laws;
pub mod sheet_laws;
pub mod sheets;
pub mod trace;
pub mod trace_laws;
pub mod value;
pub mod value_laws;
pub mod walk;
pub mod walk_distance;
pub mod walk_findings;
pub mod walk_laws;

pub use classes::is_endpoint_class;
pub use roles::NetRole;
pub use sheets::NetHierarchy;

verus! {

#[derive(Debug, Clone, Copy, PartialEq, Eq, Structural)]
pub struct CompId(pub usize);

#[derive(Debug, Clone, Copy, PartialEq, Eq, Structural)]
pub struct PinId(pub usize);

#[derive(Debug, Clone, Copy, PartialEq, Eq, Structural)]
pub struct NetId(pub usize);

#[derive(Debug)]
pub struct Component {
    pub id: CompId,
    pub refdes: String,
    pub value: String,
    pub footprint: Option<String>,
    pub description: Option<String>,
    pub sheet: Option<String>,
    /// The schematic marks the part as not to be fitted.
    pub dnp: bool,
    /// The schematic leaves the part out of the bill of materials. A part can be
    /// either without the other.
    pub exclude_from_bom: bool,
    /// The other properties; the two flags above are not among them.
    pub properties: Table<Option<String>>,
    pub pins: Vec<PinId>,
}

#[derive(Debug)]
pub struct Pin {
    pub id: PinId,
    pub comp: CompId,
    pub number: String,
    pub name: Option<String>,
    pub pin_type: Option<String>,
    pub net: Option<NetId>,
}

#[derive(Debug)]
pub struct Net {
    pub id: NetId,
    pub code: usize,
    pub name: String,
    pub pins: Vec<PinId>,
    /// How many of the pins have each electrical type.
    pub pin_types: Table<usize>,
}

pub struct Design {
    pub components: Vec<Component>,
    pub pins: Vec<Pin>,
    pub nets: Vec<Net>,
    /// Components by reference designator.
    pub component_map: StringHashMap<CompId>,
    /// Pins by "REFDES:PIN".
    pub pin_map: StringHashMap<PinId>,
    /// Nets by name.
    pub net_map: StringHashMap<NetId>,
    /// The normalized paths of all sheets, the sheets above them and the root.
    pub sheet_paths: Vec<String>,
}

/// The places that a list of pins holds.
pub open spec fn pin_ids(v: Seq<PinId>) -> Seq<int> {
    v.map_values(|p: PinId| p.0 as int)
}

/// The pins of a component, in order.
pub open spec fn pins_of_comp(pins: Seq<Pin>, c: int) -> Seq<int>
    decreases pins.len(),
{
    if pins.len() == 0 {
        Seq::empty()
    } else if pins.last().comp.0 == c {
        pins_of_comp(pins.drop_last(), c).push(pins.len() - 1)
    } else {
        pins_of_comp(pins.drop_last(), c)
    }
}

/// Whether a pin is on a net.
pub open spec fn on_net(pin: Pin, n: int) -> bool {
    pin.net matches Some(id) && id.0 == n
}

/// The pins on a net, in order.
pub open spec fn pins_on_net(pins: Seq<Pin>, n: int) -> Seq<int>
    decreases pins.len(),
{
    if pins.len() == 0 {
        Seq::empty()
    } else if on_net(pins.last(), n) {
        pins_on_net(pins.drop_last(), n).push(pins.len() - 1)
    } else {
        pins_on_net(pins.drop_last(), n)
    }
}

pub open spec fn has_type(pin: Pin, t: Seq<char>) -> bool {
    opt_text(pin.pin_type) == Some(t)
}

/// How many of the pins have a type.
pub open spec fn type_count(pins: Seq<Pin>, ids: Seq<int>, t: Seq<char>) -> nat
    decreases ids.len(),
{
    if ids.len() == 0 {
        0
    } else {
        type_count(pins, ids.drop_last(), t) + (if has_type(pins[ids.last()], t) {
            1nat
        } else {
            0nat
        })
    }
}

/// The table holds how many of the pins have each type that occurs among them.
pub open spec fn counts_types(m: Map<Seq<char>, usize>, pins: Seq<Pin>, ids: Seq<int>) -> bool {
    forall|t: Seq<char>|
        (#[trigger] m.contains_key(t) <==> type_count(pins, ids, t) > 0) && (m.contains_key(t)
            ==> m[t] == type_count(pins, ids, t))
}

/// The last place at which a name stands.
pub open spec fn last_named(names: Seq<Seq<char>>, name: Seq<char>) -> Option<int>
    decreases names.len(),
{
    if names.len() == 0 {
        None
    } else if names.last() == name {
        Some(names.len() - 1)
    } else {
        last_named(names.drop_last(), name)
    }
}

/// The name of a pin: its part's designator, a colon, and its number.
pub open spec fn pin_label(comps: Seq<Component>, pin: Pin) -> Seq<char> {
    comps[pin.comp.0 as int].refdes@ + ":"@ + pin.number@
}

pub open spec fn comp_names(comps: Seq<Component>) -> Seq<Seq<char>> {
    comps.map_values(|c: Component| c.refdes@)
}

pub open spec fn net_names(nets: Seq<Net>) -> Seq<Seq<char>> {
    nets.map_values(|n: Net| n.name@)
}

pub open spec fn pin_labels(comps: Seq<Component>, pins: Seq<Pin>) -> Seq<Seq<char>> {
    pins.map_values(|p: Pin| pin_label(comps, p))
}

/// A handle that stands for a place in a list.
pub trait Place: Sized {
    spec fn place(self) -> int;
}

impl Place for CompId {
    open spec fn place(self) -> int {
        self.0 as int
    }
}

impl Place for PinId {
    open spec fn place(self) -> int {
        self.0 as int
    }
}

impl Place for NetId {
    open spec fn place(self) -> int {
        self.0 as int
    }
}

/// The map finds each name at the last place where it stands, and no other names.
pub open spec fn finds<I: Place>(m: Map<Seq<char>, I>, names: Seq<Seq<char>>) -> bool {
    forall|k: Seq<char>|
        match #[trigger] last_named(names, k) {
            Some(i) => m.contains_key(k) && m[k].place() == i,
            None => !m.contains_key(k),
        }
}

impl Design {
    /// Every pin belongs to a component and, where it has one, to a net of the design.
    pub open spec fn pins_placed(&self) -> bool {
        forall|p: int|
            0 <= p < self.pins.len() ==> {
                &&& (#[trigger] self.pins@[p]).id.0 == p
                &&& self.pins@[p].comp.0 < self.components.len()
                &&& self.pins@[p].net matches Some(n) ==> n.0 < self.nets.len()
            }
    }

    /// Components list exactly their pins.
    pub open spec fn components_hold_pins(&self) -> bool {
        forall|c: int|
            0 <= c < self.components.len() ==> (#[trigger] self.components@[c]).id.0 == c
                && pin_ids(self.components@[c].pins@) == pins_of_comp(self.pins@, c)
    }

    /// Nets list exactly the pins on them and count their types.
    pub open spec fn nets_hold_pins(&self) -> bool {
        forall|n: int|
            0 <= n < self.nets.len() ==> (#[trigger] self.nets@[n]).id.0 == n && pin_ids(
                self.nets@[n].pins@,
            ) == pins_on_net(self.pins@, n) && counts_types(
                self.nets@[n].pin_types@,
                self.pins@,
                pin_ids(self.nets@[n].pins@),
            )
    }

    /// The maps find each name where it stands last.
    pub open spec fn names_found(&self) -> bool {
        &&& finds(self.component_map@, comp_names(self.components@))
        &&& finds(self.pin_map@, pin_labels(self.components@, self.pins@))
        &&& finds(self.net_map@, net_names(self.nets@))
    }

    /// The lists and the maps of the design agree with each other.
    pub open spec fn wf(&self) -> bool {
        &&& self.pins_placed()
        &&& self.components_hold_pins()
        &&& self.nets_hold_pins()
        &&& self.names_found()
    }

    /// The component that a designator finds.
    pub open spec fn comp_named(&self, refdes: Seq<char>) -> Option<int> {
        last_named(comp_names(self.components@), refdes)
    }

    /// The pin that a "REFDES:PIN" finds.
    pub open spec fn pin_named(&self, label: Seq<char>) -> Option<int> {
        last_named(pin_labels(self.components@, self.pins@), label)
    }

    /// The net that a name finds.
    pub open spec fn net_named(&self, name: Seq<char>) -> Option<int> {
        last_named(net_names(self.nets@), name)
    }

    /// The net is one of the design's.
    pub open spec fn has_net(&self, net: &Net) -> bool {
        net.id.0 < self.nets.len() && *net == self.nets@[net.id.0 as int]
    }

    pub open spec fn label(&self, p: int) -> Seq<char> {
        pin_label(self.components@, self.pins@[p])
    }

    pub open spec fn comp_pins(&self, c: int) -> Seq<int> {
        pin_ids(self.components@[c].pins@)
    }

    pub open spec fn net_pins(&self, n: int) -> Seq<int> {
        pin_ids(self.nets@[n].pins@)
    }

    /// The component that a pin belongs to.
    pub open spec fn owner(&self, p: int) -> int {
        self.pins@[p].comp.0 as int
    }

    /// The class of a component.
    pub open spec fn class(&self, c: int) -> Seq<char> {
        classes::class_of(self.components@[c].refdes@)
    }

    /// Whether a walk passes through a component.
    pub open spec fn passes(&self, c: int) -> bool {
        classes::passthrough(self.class(c), self.components@[c].pins.len() as int)
    }

    /// Whether a net can end on a component.
    pub open spec fn ends_on(&self, c: int) -> bool {
        classes::endpoint(self.class(c), self.components@[c].pins.len() as int)
    }

    pub fn pin(&self, pin_id: &PinId) -> (r: &Pin)
        requires
            pin_id.0 < self.pins.len(),
        ensures
            *r == self.pins@[pin_id.0 as int],
    {
        &self.pins[pin_id.0]
    }

    pub fn net(&self, net_id: &NetId) -> (r: &Net)
        requires
            net_id.0 < self.nets.len(),
        ensures
            *r == self.nets@[net_id.0 as int],
    {
        &self.nets[net_id.0]
    }

    pub fn component(&self, comp_id: &CompId) -> (r: &Component)
        requires
            comp_id.0 < self.components.len(),
        ensures
            *r == self.components@[comp_id.0 as int],
    {
        &self.components[comp_id.0]
    }

    /// The name of a pin: "REFDES:PIN".
    pub fn pin_name(&self, pin_id: &PinId) -> (r: String)
        requires
            pin_id.0 < self.pins.len(),
            self.pins@[pin_id.0 as int].comp.0 < self.components.len(),
        ensures
            r@ == self.label(pin_id.0 as int),
    {
        let pin = self.pin(pin_id);
        let comp = self.component(&pin.comp);
        label_text(comp.refdes.as_str(), pin.number.as_str())
    }
}

/// The name of a pin of a part.
pub fn label_text(refdes: &str, number: &str) -> (r: String)
    ensures
        r@ == refdes@ + ":"@ + number@,
{
    let mut out = refdes.to_owned();
    out.append(":");
    out.append(number);
    out
}

/// A name is found where it stands last.
pub proof fn lemma_last_named(names: Seq<Seq<char>>, name: Seq<char>)
    ensures
        match last_named(names, name) {
            Some(i) => 0 <= i < names.len() && names[i] == name && forall|j: int|
                i < j < names.len() ==> #[trigger] names[j] != name,
            None => forall|j: int| 0 <= j < names.len() ==> #[trigger] names[j] != name,
        },
    decreases names.len(),
{
    if names.len() > 0 && names.last() != name {
        lemma_last_named(names.drop_last(), name);
        let front = names.drop_last();
        assert forall|j: int| 0 <= j < names.len() && (last_named(names, name) matches Some(i)
            ==> i < j) implies #[trigger] names[j] != name by {
            if j < front.len() {
                assert(front[j] == names[j]);
            }
        }
    }
}

/// A component's pins are the pins that belong to it, each once, in order.
pub proof fn lemma_pins_of_comp(pins: Seq<Pin>, c: int)
    ensures
        forall|i: int|
            0 <= i < pins_of_comp(pins, c).len() ==> 0 <= #[trigger] pins_of_comp(pins, c)[i]
                < pins.len() && pins[pins_of_comp(pins, c)[i]].comp.0 == c,
        forall|i: int, j: int|
            0 <= i < j < pins_of_comp(pins, c).len() ==> #[trigger] pins_of_comp(pins, c)[i]
                < #[trigger] pins_of_comp(pins, c)[j],
        forall|p: int|
            0 <= p < pins.len() && (#[trigger] pins[p]).comp.0 == c ==> pins_of_comp(
                pins,
                c,
            ).contains(p),
    decreases pins.len(),
{
    if pins.len() > 0 {
        let front = pins.drop_last();
        lemma_pins_of_comp(front, c);
        let f = pins_of_comp(front, c);
        let all = pins_of_comp(pins, c);
        assert forall|p: int| 0 <= p < pins.len() && (#[trigger] pins[p]).comp.0
            == c implies all.contains(p) by {
            if p < front.len() {
                assert(front[p] == pins[p]);
                assert(f.contains(p));
                let i = choose|i: int| 0 <= i < f.len() && f[i] == p;
                assert(all[i] == p);
            } else {
                assert(all[all.len() - 1] == p);
            }
        }
        assert forall|i: int| 0 <= i < all.len() implies 0 <= #[trigger] all[i] < pins.len()
            && pins[all[i]].comp.0 == c by {
            if i < f.len() {
                assert(all[i] == f[i]);
                assert(front[f[i]] == pins[f[i]]);
            }
        }
    }
}

/// A net's pins are the pins on it, each once, in order.
pub proof fn lemma_pins_on_net(pins: Seq<Pin>, n: int)
    ensures
        forall|i: int|
            0 <= i < pins_on_net(pins, n).len() ==> 0 <= #[trigger] pins_on_net(pins, n)[i]
                < pins.len() && on_net(pins[pins_on_net(pins, n)[i]], n),
        forall|i: int, j: int|
            0 <= i < j < pins_on_net(pins, n).len() ==> #[trigger] pins_on_net(pins, n)[i]
                < #[trigger] pins_on_net(pins, n)[j],
        forall|p: int|
            0 <= p < pins.len() && #[trigger] on_net(pins[p], n) ==> pins_on_net(
                pins,
                n,
            ).contains(p),
    decreases pins.len(),
{
    if pins.len() > 0 {
        let front = pins.drop_last();
        lemma_pins_on_net(front, n);
        let f = pins_on_net(front, n);
        let all = pins_on_net(pins, n);
        assert forall|p: int| 0 <= p < pins.len() && #[trigger] on_net(
            pins[p],
            n,
        ) implies all.contains(p) by {
            if p < front.len() {
                assert(front[p] == pins[p]);
                assert(on_net(front[p], n));
                assert(f.contains(p));
                let i = choose|i: int| 0 <= i < f.len() && f[i] == p;
                assert(all[i] == p);
            } else {
                assert(all[all.len() - 1] == p);
            }
        }
        assert forall|i: int| 0 <= i < all.len() implies 0 <= #[trigger] all[i] < pins.len()
            && on_net(pins[all[i]], n) by {
            if i < f.len() {
                assert(all[i] == f[i]);
                assert(front[f[i]] == pins[f[i]]);
            }
        }
    }
}

/// Counts of two types together are at most the number of pins.
pub proof fn lemma_type_counts(pins: Seq<Pin>, ids: Seq<int>, a: Seq<char>, b: Seq<char>)
    requires
        a != b,
    ensures
        type_count(pins, ids, a) + type_count(pins, ids, b) <= ids.len(),
    decreases ids.len(),
{
    if ids.len() > 0 {
        lemma_type_counts(pins, ids.drop_last(), a, b);
    }
}

/// In a well-formed design the pins that components and nets list are pins of the
/// design.
pub proof fn lemma_lists_in_range(d: &Design)
    requires
        d.wf(),
    ensures
        forall|c: int, i: int|
            0 <= c < d.components.len() && 0 <= i < d.components@[c].pins.len() ==> (
            #[trigger] d.components@[c].pins@[i]).0 < d.pins.len() && d.owner(
                d.components@[c].pins@[i].0 as int,
            ) == c,
        forall|n: int, i: int|
            0 <= n < d.nets.len() && 0 <= i < d.nets@[n].pins.len() ==> (
            #[trigger] d.nets@[n].pins@[i]).0 < d.pins.len() && on_net(
                d.pins@[d.nets@[n].pins@[i].0 as int],
                n,
            ),
{
    assert forall|c: int, i: int|
        0 <= c < d.components.len() && 0 <= i < d.components@[c].pins.len() implies (
    #[trigger] d.components@[c].pins@[i]).0 < d.pins.len() && d.owner(
        d.components@[c].pins@[i].0 as int,
    ) == c by {
        lemma_pins_of_comp(d.pins@, c);
        assert(pin_ids(d.components@[c].pins@)[i] == d.components@[c].pins@[i].0);
    }
    assert forall|n: int, i: int|
        0 <= n < d.nets.len() && 0 <= i < d.nets@[n].pins.len() implies (
    #[trigger] d.nets@[n].pins@[i]).0 < d.pins.len() && on_net(
        d.pins@[d.nets@[n].pins@[i].0 as int],
        n,
    ) by {
        lemma_pins_on_net(d.pins@, n);
        assert(pin_ids(d.nets@[n].pins@)[i] == d.nets@[n].pins@[i].0);
    }
}

} // verus!
