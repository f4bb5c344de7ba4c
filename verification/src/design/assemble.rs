//! Building a design out of a netlist.
use vstd::hash_map::StringHashMap;
use vstd::prelude::*;

use super::sheets::{is_sheet, sheet_path_set};
use super::{comp_names, counts_types, finds, label_text, last_named, net_names};
use super::{pin_ids, pin_labels, pins_of_comp, pins_on_net, type_count};
use super::{CompId, Component, Design, Net, NetId, Pin, PinId, Place};
use crate::parser::netlist;
use crate::parser::netlist::{opt_text, property_texts};
use crate::parser::netlist::{ComponentModel, NetModel, NetlistModel, PinModel};
use crate::table::Table;
use crate::text::{ascii_lower_text, ascii_lowered, copy_text, same_text, texts, trim_matches};
use crate::text::{trimmed, Whitespace};

verus! {

/// Why a netlist makes no design.
#[derive(Debug)]
pub enum BuildError {
    /// A pin that the netlist puts on no net.
    NoNetCode { refdes: String, number: String },
    /// A pin on a net that the netlist does not list.
    NoSuchNet { code: usize, refdes: String, number: String },
}

/// A value that says no.
pub open spec fn says_no(v: Seq<char>) -> bool {
    let lower = ascii_lower_text(trimmed(v));
    lower == ""@ || lower == "no"@ || lower == "false"@ || lower == "0"@
}

/// Whether a flag is set: its key stands among the properties, and its value, if it has
/// one, does not say no.
pub open spec fn flag_set(m: Map<Seq<char>, Option<Seq<char>>>, key: Seq<char>) -> bool {
    m.contains_key(key) && (m[key] matches Some(v) ==> !says_no(v))
}

/// Reads a flag that exports write as a property without a value, and only for the
/// parts that carry it: the key is the flag.
pub fn presence_flag(properties: &Table<Option<String>>, key: &str) -> (r: bool)
    ensures
        r == flag_set(property_texts(properties@), key@),
{
    match properties.get(key) {
        None => false,
        Some(None) => true,
        Some(Some(v)) => {
            let lower = ascii_lowered(trim_matches(v.as_str(), &Whitespace).as_str());
            !(same_text(lower.as_str(), "") || same_text(lower.as_str(), "no") || same_text(
                lower.as_str(),
                "false",
            ) || same_text(lower.as_str(), "0"))
        },
    }
}

/// The properties without the two flags.
pub open spec fn without_flags<V>(m: Map<Seq<char>, V>) -> Map<Seq<char>, V> {
    m.remove("dnp"@).remove("exclude_from_bom"@)
}

fn other_properties(properties: &Table<Option<String>>) -> (r: Table<Option<String>>)
    ensures
        r@ == without_flags(properties@),
{
    let mut out: Table<Option<String>> = properties.copied();
    out.remove("dnp");
    out.remove("exclude_from_bom");
    out
}

/// The component as the netlist describes it, with the flags lifted out of its
/// properties.
pub open spec fn component_is(c: Component, m: ComponentModel) -> bool {
    &&& c.refdes@ == m.refdes
    &&& c.value@ == m.value
    &&& opt_text(c.footprint) == m.footprint
    &&& opt_text(c.description) == m.description
    &&& opt_text(c.sheet) == m.sheet
    &&& c.dnp == flag_set(m.properties, "dnp"@)
    &&& c.exclude_from_bom == flag_set(m.properties, "exclude_from_bom"@)
    &&& property_texts(c.properties@) == without_flags(m.properties)
}

/// All pins of the components, each with its component's place.
pub open spec fn flat_pins(comps: Seq<ComponentModel>) -> Seq<(int, PinModel)>
    decreases comps.len(),
{
    if comps.len() == 0 {
        Seq::empty()
    } else {
        flat_pins(comps.drop_last()) + comps.last().pins.map_values(
            |p: PinModel| (comps.len() - 1, p),
        )
    }
}

/// The first net with a code.
pub open spec fn net_coded(nets: Seq<NetModel>, code: usize) -> Option<int>
    decreases nets.len(),
{
    if nets.len() == 0 {
        None
    } else if nets[0].code == code {
        Some(0)
    } else {
        match net_coded(nets.skip(1), code) {
            Some(i) => Some(i + 1),
            None => None,
        }
    }
}

/// A pin without a net, or on a net that is not listed.
pub open spec fn faulty(p: PinModel, nets: Seq<NetModel>) -> bool {
    p.net matches Some(code) ==> net_coded(nets, code) is None
}

/// The pin as the netlist describes it.
pub open spec fn pin_is(pin: Pin, f: (int, PinModel), nets: Seq<NetModel>) -> bool {
    &&& pin.comp.0 == f.0
    &&& pin.number@ == f.1.number
    &&& opt_text(pin.name) == f.1.name
    &&& opt_text(pin.pin_type) == f.1.pin_type
    &&& pin.net matches Some(n) && net_coded(nets, f.1.net.unwrap()) == Some(n.0 as int)
}

/// The design has the netlist's nets, components and pins, in the netlist's order, and
/// the sheets that it declares or that its components are on.
pub open spec fn assembled(d: Design, n: NetlistModel) -> bool {
    &&& d.nets.len() == n.nets.len()
    &&& forall|i: int|
        0 <= i < n.nets.len() ==> (#[trigger] d.nets@[i]).code == n.nets[i].code
            && d.nets@[i].name@ == n.nets[i].name
    &&& d.components.len() == n.components.len()
    &&& forall|i: int|
        0 <= i < n.components.len() ==> component_is(#[trigger] d.components@[i], n.components[i])
    &&& d.pins.len() == flat_pins(n.components).len()
    &&& forall|j: int|
        0 <= j < d.pins.len() ==> pin_is(#[trigger] d.pins@[j], flat_pins(n.components)[j], n.nets)
    &&& forall|p: Seq<char>| #[trigger]
        texts(d.sheet_paths@).contains(p) <==> is_sheet(all_sheets(n), p)
}

/// The sheets of those components that are on one.
pub open spec fn component_sheets(comps: Seq<ComponentModel>) -> Seq<Seq<char>>
    decreases comps.len(),
{
    if comps.len() == 0 {
        Seq::empty()
    } else {
        match comps.last().sheet {
            Some(s) => component_sheets(comps.drop_last()).push(s),
            None => component_sheets(comps.drop_last()),
        }
    }
}

pub open spec fn all_sheets(n: NetlistModel) -> Seq<Seq<char>> {
    n.sheets + component_sheets(n.components)
}

/// The error says what is wrong with the pin.
pub open spec fn error_is(e: BuildError, refdes: Seq<char>, p: PinModel) -> bool {
    match e {
        BuildError::NoNetCode { refdes: r, number } => p.net is None && r@ == refdes && number@
            == p.number,
        BuildError::NoSuchNet { code, refdes: r, number } => p.net == Some(code) && r@ == refdes
            && number@ == p.number,
    }
}

/// The first faulty pin is the one at `j`.
pub open spec fn first_fault(flat: Seq<(int, PinModel)>, nets: Seq<NetModel>, j: int) -> bool {
    &&& 0 <= j < flat.len()
    &&& faulty(flat[j].1, nets)
    &&& forall|k: int| 0 <= k < j ==> !faulty((#[trigger] flat[k]).1, nets)
}

proof fn lemma_flat_prefix(comps: Seq<ComponentModel>, i: int)
    requires
        0 <= i <= comps.len(),
    ensures
        flat_pins(comps.take(i)).len() <= flat_pins(comps).len(),
        forall|j: int|
            0 <= j < flat_pins(comps.take(i)).len() ==> flat_pins(comps.take(i))[j]
                == #[trigger] flat_pins(comps)[j],
    decreases comps.len(),
{
    if i < comps.len() {
        let front = comps.drop_last();
        assert(front.take(i) == comps.take(i));
        lemma_flat_prefix(front, i);
        assert forall|j: int| 0 <= j < flat_pins(comps.take(i)).len() implies flat_pins(
            comps.take(i),
        )[j] == #[trigger] flat_pins(comps)[j] by {
            assert(flat_pins(comps)[j] == flat_pins(front)[j]);
        }
    } else {
        assert(comps.take(i) == comps);
    }
}

proof fn lemma_finds<I: Place>(
    m: Map<Seq<char>, I>,
    names: Seq<Seq<char>>,
    name: Seq<char>,
    id: I,
)
    requires
        finds(m, names),
        id.place() == names.len(),
    ensures
        finds(m.insert(name, id), names.push(name)),
{
    let more = names.push(name);
    assert(more.drop_last() =~= names);
    assert forall|k: Seq<char>|
        match #[trigger] last_named(more, k) {
            Some(i) => m.insert(name, id).contains_key(k) && m.insert(name, id)[k].place() == i,
            None => !m.insert(name, id).contains_key(k),
        } by {
        let before = last_named(names, k);
    }
}

fn make_nets(src: &Vec<netlist::Net>) -> (r: (Vec<Net>, StringHashMap<NetId>))
    ensures
        r.0.len() == src.len(),
        forall|i: int|
            0 <= i < src.len() ==> (#[trigger] r.0@[i]).id.0 == i && r.0@[i].code == src@[i].code
                && r.0@[i].name@ == src@[i].name@ && r.0@[i].pins.len() == 0,
        finds(r.1@, net_names(r.0@)),
{
    let mut nets: Vec<Net> = Vec::new();
    let mut net_map: StringHashMap<NetId> = StringHashMap::new();
    let mut i: usize = 0;
    assert(net_names(nets@) =~= Seq::<Seq<char>>::empty());
    while i < src.len()
        invariant
            i <= src.len(),
            nets.len() == i,
            forall|k: int|
                0 <= k < i ==> (#[trigger] nets@[k]).id.0 == k && nets@[k].code == src@[k].code
                    && nets@[k].name@ == src@[k].name@ && nets@[k].pins.len() == 0,
            finds(net_map@, net_names(nets@)),
        decreases src.len() - i,
    {
        let net = Net {
            id: NetId(i),
            code: src[i].code,
            name: src[i].name.clone(),
            pins: Vec::new(),
            pin_types: Table::new(),
        };
        proof {
            lemma_finds(net_map@, net_names(nets@), net.name@, NetId(i));
            assert(net_names(nets@.push(net)) =~= net_names(nets@).push(net.name@));
        }
        net_map.insert(net.name.clone(), NetId(i));
        nets.push(net);
        i += 1;
    }
    (nets, net_map)
}

proof fn lemma_net_coded(nets: Seq<NetModel>, code: usize, n: int)
    requires
        0 <= n <= nets.len(),
        forall|i: int| 0 <= i < n ==> (#[trigger] nets[i]).code != code,
        n < nets.len() ==> nets[n].code == code,
    ensures
        net_coded(nets, code) == (if n < nets.len() {
            Some(n)
        } else {
            None
        }),
    decreases nets.len(),
{
    if n > 0 {
        assert forall|i: int| 0 <= i < n - 1 implies (#[trigger] nets.skip(1)[i]).code != code by {
            assert(nets.skip(1)[i] == nets[i + 1]);
        }
        assert(nets[0].code != code);
        lemma_net_coded(nets.skip(1), code, n - 1);
    }
}

/// The nets of a design as the netlist lists them.
pub open spec fn listed_nets(nets: Seq<Net>) -> Seq<NetModel> {
    nets.map_values(|n: Net| NetModel { code: n.code, name: n.name@ })
}

/// The first net with a code.
pub fn find_coded(nets: &Vec<Net>, code: usize) -> (r: Option<usize>)
    ensures
        match net_coded(listed_nets(nets@), code) {
            Some(i) => r matches Some(k) && k == i && k < nets.len(),
            None => r is None,
        },
{
    let mut i: usize = 0;
    while i < nets.len()
        invariant
            i <= nets.len(),
            forall|k: int| 0 <= k < i ==> (#[trigger] listed_nets(nets@)[k]).code != code,
        decreases nets.len() - i,
    {
        assert(listed_nets(nets@)[i as int].code == nets@[i as int].code);
        if nets[i].code == code {
            proof {
                lemma_net_coded(listed_nets(nets@), code, i as int);
            }
            return Some(i);
        }
        i += 1;
    }
    proof {
        lemma_net_coded(listed_nets(nets@), code, i as int);
    }
    None
}

proof fn lemma_no_pins(pins: Seq<Pin>, c: int)
    requires
        forall|j: int| 0 <= j < pins.len() ==> (#[trigger] pins[j]).comp.0 != c,
    ensures
        pins_of_comp(pins, c) == Seq::<int>::empty(),
    decreases pins.len(),
{
    if pins.len() > 0 {
        assert(pins[pins.len() - 1].comp.0 != c);
        assert forall|j: int| 0 <= j < pins.drop_last().len() implies (
        #[trigger] pins.drop_last()[j]).comp.0 != c by {
            assert(pins.drop_last()[j] == pins[j]);
        }
        lemma_no_pins(pins.drop_last(), c);
    }
}

/// The labels of a part's pins.
spec fn own_labels(refdes: Seq<char>, pins: Seq<netlist::Pin>) -> Seq<Seq<char>> {
    pins.map_values(|p: netlist::Pin| refdes + ":"@ + p.number@)
}

/// Adds the pins of the component at place `c`.
fn add_pins(
    src: &netlist::Component,
    c: usize,
    nets: &Vec<Net>,
    pins: &mut Vec<Pin>,
    pin_map: &mut StringHashMap<PinId>,
    Ghost(labels): Ghost<Seq<Seq<char>>>,
) -> (r: Result<Vec<PinId>, BuildError>)
    requires
        forall|j: int| 0 <= j < old(pins).len() ==> (#[trigger] old(pins)@[j]).comp.0 < c,
        finds(old(pin_map)@, labels),
        labels.len() == old(pins).len(),
    ensures
        match r {
            Ok(ids) => {
                &&& final(pins).len() == old(pins).len() + src.pins.len()
                &&& forall|j: int|
                    0 <= j < old(pins).len() ==> #[trigger] final(pins)@[j] == old(pins)@[j]
                &&& forall|k: int|
                    0 <= k < src.pins.len() ==> !faulty(
                        (#[trigger] src.pins@[k])@,
                        listed_nets(nets@),
                    )
                &&& forall|j: int|
                    old(pins).len() <= j < final(pins).len() ==> (
                    #[trigger] final(pins)@[j]).id.0 == j && pin_is(
                        final(pins)@[j],
                        (c as int, src.pins@[j - old(pins).len()]@),
                        listed_nets(nets@),
                    )
                &&& pin_ids(ids@) == pins_of_comp(final(pins)@, c as int)
                &&& forall|b: int|
                    0 <= b < c ==> #[trigger] pins_of_comp(final(pins)@, b) == pins_of_comp(
                        old(pins)@,
                        b,
                    )
                &&& finds(final(pin_map)@, labels + own_labels(src.refdes@, src.pins@))
            },
            Err(e) => exists|k: int|
                {
                    &&& 0 <= k < src.pins.len()
                    &&& faulty((#[trigger] src.pins@[k])@, listed_nets(nets@))
                    &&& error_is(e, src.refdes@, src.pins@[k]@)
                    &&& forall|l: int|
                        0 <= l < k ==> !faulty((#[trigger] src.pins@[l])@, listed_nets(nets@))
                },
        },
{
    let ghost before = pins@;
    let ghost listed = listed_nets(nets@);
    let ghost own = own_labels(src.refdes@, src.pins@);
    let mut ids: Vec<PinId> = Vec::new();
    let mut k: usize = 0;
    proof {
        lemma_no_pins(before, c as int);
        assert(labels + own.take(0) =~= labels);
        assert(pin_ids(ids@) =~= Seq::<int>::empty());
    }
    while k < src.pins.len()
        invariant
            k <= src.pins.len(),
            listed == listed_nets(nets@),
            own == own_labels(src.refdes@, src.pins@),
            labels.len() == before.len(),
            pins.len() == before.len() + k,
            forall|j: int| 0 <= j < before.len() ==> #[trigger] pins@[j] == before[j],
            forall|l: int| 0 <= l < k ==> !faulty((#[trigger] src.pins@[l])@, listed),
            forall|j: int|
                before.len() <= j < pins.len() ==> (#[trigger] pins@[j]).id.0 == j && pin_is(
                    pins@[j],
                    (c as int, src.pins@[j - before.len()]@),
                    listed,
                ),
            pin_ids(ids@) == pins_of_comp(pins@, c as int),
            forall|b: int|
                0 <= b < c ==> #[trigger] pins_of_comp(pins@, b) == pins_of_comp(before, b),
            finds(pin_map@, labels + own.take(k as int)),
        decreases src.pins.len() - k,
    {
        let p = &src.pins[k];
        let code: usize = match p.net {
            None => {
                assert(faulty(src.pins@[k as int]@, listed));
                return Err(
                    BuildError::NoNetCode { refdes: src.refdes.clone(), number: p.number.clone() },
                );
            },
            Some(code) => code,
        };
        let n: usize = match find_coded(nets, code) {
            None => {
                assert(faulty(src.pins@[k as int]@, listed));
                return Err(
                    BuildError::NoSuchNet {
                        code,
                        refdes: src.refdes.clone(),
                        number: p.number.clone(),
                    },
                );
            },
            Some(n) => n,
        };
        let j: usize = pins.len();
        let pin = Pin {
            id: PinId(j),
            comp: CompId(c),
            number: p.number.clone(),
            name: copy_text(&p.name),
            pin_type: copy_text(&p.pin_type),
            net: Some(NetId(n)),
        };
        let label = label_text(src.refdes.as_str(), p.number.as_str());
        let ghost was = pins@;
        let ghost was_ids = ids@;
        proof {
            lemma_finds(pin_map@, labels + own.take(k as int), label@, PinId(j));
            assert((labels + own.take(k as int)).push(label@) =~= labels + own.take(k + 1));
        }
        pin_map.insert(label, PinId(j));
        pins.push(pin);
        ids.push(PinId(j));
        proof {
            assert(pins@.drop_last() =~= was);
            assert(pin_ids(ids@) =~= pin_ids(was_ids).push(j as int));
            assert forall|b: int| 0 <= b < c implies #[trigger] pins_of_comp(pins@, b)
                == pins_of_comp(before, b) by {
                assert(pins_of_comp(was, b) == pins_of_comp(before, b));
            }
        }
        k += 1;
    }
    assert(own.take(own.len() as int) =~= own);
    Ok(ids)
}

fn make_component(src: &netlist::Component, c: usize, ids: Vec<PinId>) -> (r: Component)
    ensures
        r.id.0 == c,
        r.pins == ids,
        component_is(r, src@),
{
    let properties = other_properties(&src.properties);
    assert(property_texts(properties@) =~= without_flags(property_texts(src.properties@)));
    Component {
        id: CompId(c),
        refdes: src.refdes.clone(),
        value: src.value.clone(),
        footprint: copy_text(&src.footprint),
        description: copy_text(&src.description),
        sheet: copy_text(&src.sheet),
        dnp: presence_flag(&src.properties, "dnp"),
        exclude_from_bom: presence_flag(&src.properties, "exclude_from_bom"),
        properties,
        pins: ids,
    }
}

/// The components and pins that the loop over the netlist's components has made.
struct Parts {
    components: Vec<Component>,
    component_map: StringHashMap<CompId>,
    pins: Vec<Pin>,
    pin_map: StringHashMap<PinId>,
}

spec fn parts_are(p: Parts, src: Seq<ComponentModel>, nets: Seq<NetModel>) -> bool {
    &&& p.components.len() == src.len()
    &&& forall|i: int|
        0 <= i < src.len() ==> (#[trigger] p.components@[i]).id.0 == i && component_is(
            p.components@[i],
            src[i],
        ) && pin_ids(p.components@[i].pins@) == pins_of_comp(p.pins@, i)
    &&& p.pins.len() == flat_pins(src).len()
    &&& forall|j: int|
        0 <= j < p.pins.len() ==> (#[trigger] p.pins@[j]).id.0 == j && p.pins@[j].comp.0 < src.len()
            && pin_is(p.pins@[j], flat_pins(src)[j], nets) && !faulty(flat_pins(src)[j].1, nets)
    &&& finds(p.component_map@, comp_names(p.components@))
    &&& finds(p.pin_map@, pin_labels(p.components@, p.pins@))
}

proof fn lemma_parts_step(
    before: Parts,
    after: Parts,
    src: Seq<ComponentModel>,
    c: int,
    own: Seq<netlist::Pin>,
    nets: Seq<NetModel>,
)
    requires
        0 <= c < src.len(),
        parts_are(before, src.take(c), nets),
        netlist::pin_models(own) == src[c].pins,
        after.components@ == before.components@.push(after.components@.last()),
        after.components.len() == c + 1,
        after.components@[c].id.0 == c,
        component_is(after.components@[c], src[c]),
        pin_ids(after.components@[c].pins@) == pins_of_comp(after.pins@, c),
        after.pins.len() == before.pins.len() + own.len(),
        forall|j: int|
            0 <= j < before.pins.len() ==> #[trigger] after.pins@[j] == before.pins@[j],
        forall|j: int|
            before.pins.len() <= j < after.pins.len() ==> (#[trigger] after.pins@[j]).id.0 == j
                && pin_is(after.pins@[j], (c, own[j - before.pins.len()]@), nets),
        forall|k: int| 0 <= k < own.len() ==> !faulty((#[trigger] own[k])@, nets),
        forall|b: int|
            0 <= b < c ==> #[trigger] pins_of_comp(after.pins@, b) == pins_of_comp(before.pins@, b),
        finds(after.component_map@, comp_names(after.components@)),
        finds(
            after.pin_map@,
            pin_labels(before.components@, before.pins@) + own_labels(src[c].refdes, own),
        ),
    ensures
        parts_are(after, src.take(c + 1), nets),
{
    let now = src.take(c + 1);
    assert(now.drop_last() =~= src.take(c));
    assert(now.last() == src[c]);
    let flat = flat_pins(now);
    assert(flat == flat_pins(src.take(c)) + src[c].pins.map_values(|p: PinModel| (c, p)));
    assert forall|i: int| 0 <= i < now.len() implies (#[trigger] after.components@[i]).id.0 == i
        && component_is(after.components@[i], now[i]) && pin_ids(after.components@[i].pins@)
        == pins_of_comp(after.pins@, i) by {
        if i < c {
            assert(after.components@[i] == before.components@[i]);
            assert(src.take(c)[i] == now[i]);
        }
    }
    assert forall|j: int| 0 <= j < after.pins.len() implies (#[trigger] after.pins@[j]).id.0 == j
        && after.pins@[j].comp.0 < now.len() && pin_is(after.pins@[j], flat[j], nets) && !faulty(
        flat[j].1,
        nets,
    ) by {
        if j < before.pins.len() {
            assert(after.pins@[j] == before.pins@[j]);
            assert(flat[j] == flat_pins(src.take(c))[j]);
        } else {
            let k = j - before.pins.len();
            assert(netlist::pin_models(own)[k] == own[k]@);
            assert(flat[j] == (c, src[c].pins[k]));
        }
    }
    assert(pin_labels(after.components@, after.pins@) =~= pin_labels(
        before.components@,
        before.pins@,
    ) + own_labels(src[c].refdes, own)) by {
        let l = pin_labels(after.components@, after.pins@);
        assert forall|j: int| 0 <= j < l.len() implies l[j] == (pin_labels(
            before.components@,
            before.pins@,
        ) + own_labels(src[c].refdes, own))[j] by {
            if j < before.pins.len() {
                assert(after.pins@[j] == before.pins@[j]);
                let o = before.pins@[j].comp.0 as int;
                assert(after.components@[o] == before.components@[o]);
            } else {
                let k = j - before.pins.len();
                assert(pin_is(after.pins@[j], (c, own[k]@), nets));
            }
        }
    }
}

fn make_parts(src: &Vec<netlist::Component>, nets: &Vec<Net>) -> (r: Result<Parts, BuildError>)
    ensures
        match r {
            Ok(p) => parts_are(p, netlist::component_models(src@), listed_nets(nets@)),
            Err(e) => exists|j: int|
                #![trigger flat_pins(netlist::component_models(src@))[j]]
                first_fault(flat_pins(netlist::component_models(src@)), listed_nets(nets@), j)
                    && error_is(
                    e,
                    netlist::component_models(src@)[flat_pins(
                        netlist::component_models(src@),
                    )[j].0].refdes,
                    flat_pins(netlist::component_models(src@))[j].1,
                ),
        },
{
    let ghost all = netlist::component_models(src@);
    let ghost listed = listed_nets(nets@);
    let mut components: Vec<Component> = Vec::new();
    let mut component_map: StringHashMap<CompId> = StringHashMap::new();
    let mut pins: Vec<Pin> = Vec::new();
    let mut pin_map: StringHashMap<PinId> = StringHashMap::new();
    let mut c: usize = 0;
    assert(all.take(0) =~= Seq::<ComponentModel>::empty());
    while c < src.len()
        invariant
            c <= src.len(),
            all == netlist::component_models(src@),
            listed == listed_nets(nets@),
            parts_are(
                (Parts { components, component_map, pins, pin_map }),
                all.take(c as int),
                listed,
            ),
        decreases src.len() - c,
    {
        let comp = &src[c];
        let ghost before = Parts { components, component_map, pins, pin_map };
        let ghost labels = pin_labels(components@, pins@);
        assert(all[c as int] == src@[c as int]@);
        let ids = match add_pins(comp, c, nets, &mut pins, &mut pin_map, Ghost(labels)) {
            Ok(ids) => ids,
            Err(e) => {
                proof {
                    let k = choose|k: int|
                        {
                            &&& 0 <= k < comp.pins.len()
                            &&& faulty((#[trigger] comp.pins@[k])@, listed)
                            &&& error_is(e, comp.refdes@, comp.pins@[k]@)
                            &&& forall|l: int|
                                0 <= l < k ==> !faulty((#[trigger] comp.pins@[l])@, listed)
                        };
                    let done = flat_pins(all.take(c as int));
                    let next = all.take(c + 1);
                    assert(next.drop_last() =~= all.take(c as int));
                    let j = done.len() + k;
                    lemma_flat_prefix(all, c + 1);
                    assert(flat_pins(next)[j] == (c as int, all[c as int].pins[k]));
                    assert(netlist::pin_models(comp.pins@)[k] == comp.pins@[k]@);
                    let flat = flat_pins(all);
                    assert(flat[j] == (c as int, comp.pins@[k]@));
                    assert forall|i: int| 0 <= i < j implies !faulty(
                        (#[trigger] flat[i]).1,
                        listed,
                    ) by {
                        assert(flat[i] == flat_pins(next)[i]);
                        if i < done.len() {
                            assert(flat_pins(next)[i] == done[i]);
                            assert(before.pins@[i].id.0 == i);
                        } else {
                            let l = i - done.len();
                            assert(netlist::pin_models(comp.pins@)[l] == comp.pins@[l]@);
                            assert(flat_pins(next)[i] == (c as int, comp.pins@[l]@));
                        }
                    }
                    assert(first_fault(flat, listed, j as int));
                }
                return Err(e);
            },
        };
        let made = make_component(comp, c, ids);
        proof {
            lemma_finds(component_map@, comp_names(components@), made.refdes@, CompId(c));
            assert(comp_names(components@.push(made)) =~= comp_names(components@).push(
                made.refdes@,
            ));
        }
        component_map.insert(made.refdes.clone(), CompId(c));
        components.push(made);
        proof {
            let after = Parts { components, component_map, pins, pin_map };
            lemma_parts_step(before, after, all, c as int, comp.pins@, listed);
        }
        c += 1;
    }
    assert(all.take(all.len() as int) =~= all);
    Ok(Parts { components, component_map, pins, pin_map })
}

spec fn same_header(a: Net, b: Net) -> bool {
    a.id == b.id && a.code == b.code && a.name == b.name
}

/// Lists each pin on its net.
fn hang_pins(nets: &mut Vec<Net>, pins: &Vec<Pin>)
    requires
        forall|n: int| 0 <= n < old(nets).len() ==> (#[trigger] old(nets)@[n]).pins.len() == 0,
        forall|j: int|
            0 <= j < pins.len() ==> ((#[trigger] pins@[j]).net matches Some(n) ==> n.0 < old(
                nets,
            ).len()),
    ensures
        final(nets).len() == old(nets).len(),
        forall|n: int|
            0 <= n < final(nets).len() ==> same_header(#[trigger] final(nets)@[n], old(nets)@[n])
                && pin_ids(final(nets)@[n].pins@) == pins_on_net(pins@, n),
{
    let ghost start = nets@;
    let mut i: usize = 0;
    assert forall|n: int| 0 <= n < nets.len() implies pin_ids((#[trigger] nets@[n]).pins@)
        == pins_on_net(pins@.take(0), n) by {
        assert(pin_ids(nets@[n].pins@) =~= Seq::<int>::empty());
    }
    while i < pins.len()
        invariant
            i <= pins.len(),
            nets.len() == start.len(),
            forall|j: int|
                0 <= j < pins.len() ==> ((#[trigger] pins@[j]).net matches Some(n) ==> n.0
                    < start.len()),
            forall|n: int|
                0 <= n < nets.len() ==> same_header(#[trigger] nets@[n], start[n]) && pin_ids(
                    nets@[n].pins@,
                ) == pins_on_net(pins@.take(i as int), n),
        decreases pins.len() - i,
    {
        let ghost was = nets@;
        let ghost next = pins@.take(i + 1);
        assert(next.drop_last() =~= pins@.take(i as int));
        assert(next.last() == pins@[i as int]);
        if let Some(n) = pins[i].net {
            let at: usize = n.0;
            nets[at].pins.push(PinId(i));
            assert forall|m: int| 0 <= m < nets.len() implies same_header(
                #[trigger] nets@[m],
                start[m],
            ) && pin_ids(nets@[m].pins@) == pins_on_net(next, m) by {
                assert(same_header(was[m], start[m]));
                if m == at {
                    assert(pin_ids(nets@[m].pins@) =~= pin_ids(was[m].pins@).push(i as int));
                } else {
                    assert(nets@[m] == was[m]);
                }
            }
        } else {
            assert forall|m: int| 0 <= m < nets.len() implies same_header(
                #[trigger] nets@[m],
                start[m],
            ) && pin_ids(nets@[m].pins@) == pins_on_net(next, m) by {}
        }
        i += 1;
    }
    assert(pins@.take(pins@.len() as int) =~= pins@);
}

/// Counts the types of the pins on one net.
fn count_types(pins: &Vec<Pin>, ids: &Vec<PinId>) -> (r: Table<usize>)
    requires
        forall|i: int| 0 <= i < ids.len() ==> (#[trigger] ids@[i]).0 < pins.len(),
    ensures
        counts_types(r@, pins@, pin_ids(ids@)),
{
    let ghost all = pin_ids(ids@);
    let mut out: Table<usize> = Table::new();
    let mut i: usize = 0;
    assert(all.take(0) =~= Seq::<int>::empty());
    while i < ids.len()
        invariant
            i <= ids.len(),
            all == pin_ids(ids@),
            forall|k: int| 0 <= k < ids.len() ==> (#[trigger] ids@[k]).0 < pins.len(),
            counts_types(out@, pins@, all.take(i as int)),
            forall|t: Seq<char>| #[trigger] type_count(pins@, all.take(i as int), t) <= i,
        decreases ids.len() - i,
    {
        let ghost next = all.take(i + 1);
        let ghost done = all.take(i as int);
        assert(next.drop_last() =~= done);
        assert(next.last() == ids@[i as int].0);
        let ghost before = out@;
        let pin = &pins[ids[i].0];
        if let Some(t) = &pin.pin_type {
            let n: usize = match out.get(t.as_str()) {
                Some(n) => *n,
                None => 0,
            };
            assert(n == type_count(pins@, done, t@)) by {
                assert(before.contains_key(t@) <==> type_count(pins@, done, t@) > 0);
            }
            out.insert(t.clone(), n + 1);
            assert forall|u: Seq<char>|
                (#[trigger] out@.contains_key(u) <==> type_count(pins@, next, u) > 0) && (
                out@.contains_key(u) ==> out@[u] == type_count(pins@, next, u)) by {
                assert(before.contains_key(u) <==> type_count(pins@, done, u) > 0);
            }
        } else {
            assert forall|u: Seq<char>|
                (#[trigger] out@.contains_key(u) <==> type_count(pins@, next, u) > 0) && (
                out@.contains_key(u) ==> out@[u] == type_count(pins@, next, u)) by {
                assert(before.contains_key(u) <==> type_count(pins@, done, u) > 0);
            }
        }
        assert forall|u: Seq<char>| #[trigger] type_count(pins@, next, u) <= i + 1 by {
            assert(type_count(pins@, done, u) <= i);
        }
        i += 1;
    }
    assert(all.take(all.len() as int) =~= all);
    out
}

/// Counts the types of the pins on each net.
fn tally_types(nets: &mut Vec<Net>, pins: &Vec<Pin>)
    requires
        forall|n: int|
            0 <= n < old(nets).len() ==> pin_ids((#[trigger] old(nets)@[n]).pins@) == pins_on_net(
                pins@,
                n,
            ),
    ensures
        final(nets).len() == old(nets).len(),
        forall|n: int|
            0 <= n < final(nets).len() ==> same_header(#[trigger] final(nets)@[n], old(nets)@[n])
                && final(nets)@[n].pins == old(nets)@[n].pins && counts_types(
                final(nets)@[n].pin_types@,
                pins@,
                pin_ids(final(nets)@[n].pins@),
            ),
{
    let ghost start = nets@;
    let mut n: usize = 0;
    while n < nets.len()
        invariant
            n <= nets.len(),
            nets.len() == start.len(),
            forall|m: int|
                0 <= m < start.len() ==> pin_ids((#[trigger] start[m]).pins@) == pins_on_net(
                    pins@,
                    m,
                ),
            forall|m: int|
                0 <= m < nets.len() ==> same_header(#[trigger] nets@[m], start[m])
                    && nets@[m].pins == start[m].pins,
            forall|m: int|
                0 <= m < n ==> counts_types(
                    (#[trigger] nets@[m]).pin_types@,
                    pins@,
                    pin_ids(nets@[m].pins@),
                ),
        decreases nets.len() - n,
    {
        proof {
            super::lemma_pins_on_net(pins@, n as int);
            assert(nets@[n as int].pins == start[n as int].pins);
            assert forall|i: int| 0 <= i < nets@[n as int].pins.len() implies (
            #[trigger] nets@[n as int].pins@[i]).0 < pins.len() by {
                assert(pin_ids(nets@[n as int].pins@)[i] == nets@[n as int].pins@[i].0);
            }
        }
        let ghost was = nets@;
        let table = count_types(pins, &nets[n].pins);
        nets[n].pin_types = table;
        assert forall|m: int| 0 <= m < nets.len() implies same_header(#[trigger] nets@[m], start[m])
            && nets@[m].pins == start[m].pins by {
            assert(same_header(was[m], start[m]));
        }
        assert forall|m: int| 0 <= m < n + 1 implies counts_types(
            (#[trigger] nets@[m]).pin_types@,
            pins@,
            pin_ids(nets@[m].pins@),
        ) by {
            if m < n {
                assert(nets@[m] == was[m]);
            }
        }
        n += 1;
    }
}

fn sheets_in(src: &netlist::Netlist) -> (r: Vec<String>)
    ensures
        texts(r@).no_duplicates(),
        forall|p: Seq<char>| #[trigger] texts(r@).contains(p) <==> is_sheet(all_sheets(src@), p),
{
    let mut sheets: Vec<&str> = Vec::new();
    let ghost declared = texts(src.sheets@);
    let ghost comps = netlist::component_models(src.components@);
    let mut i: usize = 0;
    while i < src.sheets.len()
        invariant
            i <= src.sheets.len(),
            declared == texts(src.sheets@),
            sheets@.map_values(|s: &str| s@) == declared.take(i as int),
        decreases src.sheets.len() - i,
    {
        let s: &str = src.sheets[i].as_str();
        let ghost was = sheets@;
        sheets.push(s);
        assert(sheets@.map_values(|s: &str| s@) =~= was.map_values(|s: &str| s@).push(s@));
        assert(declared.take(i + 1) =~= declared.take(i as int).push(s@));
        i += 1;
    }
    assert(declared.take(declared.len() as int) =~= declared);
    assert(comps.take(0) =~= Seq::<ComponentModel>::empty());
    assert(declared + Seq::<Seq<char>>::empty() =~= declared);
    let mut c: usize = 0;
    while c < src.components.len()
        invariant
            c <= src.components.len(),
            comps == netlist::component_models(src.components@),
            sheets@.map_values(|s: &str| s@) == declared + component_sheets(comps.take(c as int)),
        decreases src.components.len() - c,
    {
        let ghost next = comps.take(c + 1);
        assert(next.drop_last() =~= comps.take(c as int));
        assert(next.last() == src.components@[c as int]@);
        let ghost was = sheets@;
        if let Some(sheet) = &src.components[c].sheet {
            let s: &str = sheet.as_str();
            sheets.push(s);
            assert(sheets@.map_values(|s: &str| s@) =~= was.map_values(|s: &str| s@).push(s@));
            assert((declared + component_sheets(comps.take(c as int))).push(s@) =~= declared
                + component_sheets(next));
        }
        c += 1;
    }
    assert(comps.take(comps.len() as int) =~= comps);
    sheet_path_set(&sheets)
}

impl Design {
    /// The design that a netlist describes. Every pin must be on a net that the netlist
    /// lists; the first that is not stops it.
    pub fn from_netlist(netlist: netlist::Netlist) -> (r: Result<Design, BuildError>)
        ensures
            match r {
                Ok(d) => {
                    &&& d.wf()
                    &&& assembled(d, netlist@)
                    &&& forall|j: int|
                        0 <= j < flat_pins(netlist@.components).len() ==> !faulty(
                            (#[trigger] flat_pins(netlist@.components)[j]).1,
                            netlist@.nets,
                        )
                },
                Err(e) => exists|j: int|
                    #![trigger flat_pins(netlist@.components)[j]]
                    first_fault(flat_pins(netlist@.components), netlist@.nets, j) && error_is(
                        e,
                        netlist@.components[flat_pins(netlist@.components)[j].0].refdes,
                        flat_pins(netlist@.components)[j].1,
                    ),
            },
    {
        let sheet_paths = sheets_in(&netlist);
        let (mut nets, net_map) = make_nets(&netlist.nets);
        let ghost listed = listed_nets(nets@);
        assert(listed =~= netlist@.nets);
        let parts = match make_parts(&netlist.components, &nets) {
            Ok(parts) => parts,
            Err(e) => {
                assert(netlist@.components == netlist::component_models(netlist.components@));
                return Err(e);
            },
        };
        let ghost made = nets@;
        proof {
            assert forall|j: int| 0 <= j < parts.pins.len() implies ((
            #[trigger] parts.pins@[j]).net matches Some(n) ==> n.0 < nets.len()) by {
                let f = flat_pins(netlist@.components)[j];
                lemma_net_coded_range(listed, f.1.net.unwrap());
            }
            assert forall|j: int| 0 <= j < flat_pins(netlist@.components).len() implies !faulty(
                (#[trigger] flat_pins(netlist@.components)[j]).1,
                netlist@.nets,
            ) by {
                assert(parts.pins@[j].id.0 == j);
            }
        }
        hang_pins(&mut nets, &parts.pins);
        let ghost hung = nets@;
        tally_types(&mut nets, &parts.pins);
        proof {
            assert forall|n: int| 0 <= n < nets.len() implies same_header(
                #[trigger] nets@[n],
                made[n],
            ) && nets@[n].pins == hung[n].pins by {
                assert(same_header(hung[n], made[n]));
            }
            assert(net_names(nets@) =~= net_names(made));
        }
        let design = Design {
            components: parts.components,
            pins: parts.pins,
            nets,
            component_map: parts.component_map,
            pin_map: parts.pin_map,
            net_map,
            sheet_paths,
        };
        Ok(design)
    }
}

proof fn lemma_net_coded_range(nets: Seq<NetModel>, code: usize)
    ensures
        net_coded(nets, code) matches Some(i) ==> 0 <= i < nets.len(),
    decreases nets.len(),
{
    if nets.len() > 0 {
        lemma_net_coded_range(nets.skip(1), code);
    }
}

/// No component of a design keeps a flag among its properties, and all else that the
/// netlist has there it keeps.
pub proof fn lemma_flags_are_lifted(d: Design, n: NetlistModel, i: int, key: Seq<char>)
    requires
        assembled(d, n),
        0 <= i < n.components.len(),
    ensures
        !d.components@[i].properties@.contains_key("dnp"@),
        !d.components@[i].properties@.contains_key("exclude_from_bom"@),
        key != "dnp"@ && key != "exclude_from_bom"@ ==> {
            let kept = property_texts(d.components@[i].properties@);
            &&& kept.contains_key(key) <==> n.components[i].properties.contains_key(key)
            &&& kept.contains_key(key) ==> kept[key] == n.components[i].properties[key]
        },
{
    let c = d.components@[i];
    assert(component_is(c, n.components[i]));
    assert(property_texts(c.properties@).dom() =~= c.properties@.dom());
}

/// A part can carry either flag without the other.
pub proof fn lemma_flags_are_independent(
    m: Map<Seq<char>, Option<Seq<char>>>,
    v: Option<Seq<char>>,
)
    ensures
        flag_set(m.insert("dnp"@, v), "exclude_from_bom"@) == flag_set(m, "exclude_from_bom"@),
        flag_set(m.insert("exclude_from_bom"@, v), "dnp"@) == flag_set(m, "dnp"@),
{
    reveal_strlit("dnp");
    reveal_strlit("exclude_from_bom");
    assert("dnp"@.len() != "exclude_from_bom"@.len());
}

} // verus!
