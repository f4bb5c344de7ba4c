//! What the keyword parser reads back of parts, nets and trees that were written down.
use vstd::prelude::*;

use crate::design::name_laws::lemma_numeral_reads;
use crate::kicad_parser::{all_put_on, begins_another, branch_key, branch_value, branch_values};
use crate::kicad_parser::{first_sign, found, found_in, goes_on, grown, grown_rest, key_sign};
use crate::kicad_parser::{keyword_of, leaf_of, part_named, part_of, parts_of, prefix_at, put_on};
use crate::kicad_parser::{terminal_numbered, terminal_of, terminal_place, terminals_of, token_from};
use crate::kicad_parser::{tree_netlist, wire_header, wire_of, wires_of, Branch, Keyword, Sign};
use crate::kicad_parser::TreeError;
use crate::lists::lemma_first_where_found;
use crate::netlist::{PartModel, TerminalModel, WireModel};
use crate::parser::error::NetlistFault;
use crate::text::{decimal, is_ascii, is_ascii_text};

verus! {

/// No two texts spell one keyword.
pub proof fn lemma_one_spelling(a: Seq<char>, b: Seq<char>)
    requires
        keyword_of(a) is Some,
        keyword_of(a) == keyword_of(b),
    ensures
        a == b,
{
}

/// A keyword and a text, as a list.
pub open spec fn entry(k: Keyword, text: Seq<char>) -> Branch {
    Branch::List(seq![Branch::Leaf(Sign::Key(k)), Branch::Text(text)])
}

/// A pin as it is written down: its number, and its name where it has one.
pub open spec fn pin_branch(t: TerminalModel) -> Branch {
    Branch::List(
        seq![Branch::Leaf(Sign::Key(Keyword::Pin)), entry(Keyword::Num, t.number)] + (
        match t.name {
            Some(name) => seq![entry(Keyword::Name, name)],
            None => Seq::empty(),
        }),
    )
}

/// A part as it is written down: designator, value, footprint and pins.
pub open spec fn part_branch(m: PartModel) -> Branch {
    Branch::List(
        seq![
            Branch::Leaf(Sign::Key(Keyword::Comp)),
            entry(Keyword::Ref, m.refdes),
            entry(Keyword::Value, m.value),
            entry(Keyword::Footprint, m.footprint),
        ] + m.pins.map_values(|t: TerminalModel| pin_branch(t)),
    )
}

/// Searching a list of lists finds what searching each of them does.
proof fn lemma_found_in_entry(k: Keyword, text: Seq<char>, key: Keyword)
    ensures
        found(entry(k, text), key_sign(key)) == Ok::<Seq<Branch>, TreeError>(
            if k == key {
                seq![entry(k, text)]
            } else {
                Seq::empty()
            },
        ),
        branch_value(entry(k, text)) == Ok::<Seq<char>, TreeError>(text),
{
    let n = entry(k, text);
    let s = n->List_0;
    assert(s.len() == 2);
    assert(branch_key(n) == Ok::<Sign, TreeError>(Sign::Key(k)));
    if k != key {
        assert(found_in(s, 1, key_sign(key)) =~= Seq::<Branch>::empty());
        assert(found(s[1], key_sign(key)) is Err);
        assert(found_in(s, 2, key_sign(key)) =~= Seq::<Branch>::empty());
    }
}

proof fn lemma_found_in_pin(t: TerminalModel, key: Keyword)
    requires
        key != Keyword::Pin,
    ensures
        found(pin_branch(t), key_sign(key)) == Ok::<Seq<Branch>, TreeError>(
            if key == Keyword::Num {
                seq![entry(Keyword::Num, t.number)]
            } else if key == Keyword::Name && t.name is Some {
                seq![entry(Keyword::Name, t.name.unwrap())]
            } else {
                Seq::empty()
            },
        ),
{
    let n = pin_branch(t);
    let s = n->List_0;
    let k = key_sign(key);
    assert(s[0] == Branch::Leaf(Sign::Key(Keyword::Pin)));
    assert(s[1] == entry(Keyword::Num, t.number));
    assert(branch_key(n) == Ok::<Sign, TreeError>(Sign::Key(Keyword::Pin)));
    lemma_found_in_entry(Keyword::Num, t.number, key);
    assert(found_in(s, 1, k) =~= Seq::<Branch>::empty());
    assert(found_in(s, 2, k) =~= found_in(s, 1, k) + found(s[1], k).unwrap());
    if let Some(name) = t.name {
        assert(s[2] == entry(Keyword::Name, name));
        assert(s.len() == 3);
        lemma_found_in_entry(Keyword::Name, name, key);
        assert(found_in(s, 3, k) =~= found_in(s, 2, k) + found(s[2], k).unwrap());
    } else {
        assert(s.len() == 2);
    }
}

proof fn lemma_one_value(x: Branch, text: Seq<char>)
    requires
        branch_value(x) == Ok::<Seq<char>, TreeError>(text),
    ensures
        branch_values(seq![x]) == Ok::<Seq<Seq<char>>, TreeError>(seq![text]),
        branch_values(Seq::empty()) == Ok::<Seq<Seq<char>>, TreeError>(Seq::empty()),
{
    let s = seq![x];
    assert(s.skip(1) =~= Seq::<Branch>::empty());
    assert(branch_values(s.skip(1)) == Ok::<Seq<Seq<char>>, TreeError>(Seq::empty()));
    assert(seq![text] + Seq::<Seq<char>>::empty() =~= seq![text]);
}

/// A pin is read back as it was, on no net yet.
pub proof fn lemma_pin_reads_back(t: TerminalModel)
    ensures
        terminal_of(pin_branch(t)) == Ok::<TerminalModel, TreeError>(
            TerminalModel { net: None, ..t },
        ),
{
    lemma_found_in_pin(t, Keyword::Num);
    lemma_found_in_pin(t, Keyword::Name);
    lemma_found_in_entry(Keyword::Num, t.number, Keyword::Num);
    lemma_one_value(entry(Keyword::Num, t.number), t.number);
    if let Some(name) = t.name {
        lemma_found_in_entry(Keyword::Name, name, Keyword::Name);
        lemma_one_value(entry(Keyword::Name, name), name);
    }
}

proof fn lemma_pins_read_back(pins: Seq<TerminalModel>)
    ensures
        terminals_of(pins.map_values(|t: TerminalModel| pin_branch(t))) == Ok::<
            Seq<TerminalModel>,
            TreeError,
        >(pins.map_values(|t: TerminalModel| TerminalModel { net: None, ..t })),
    decreases pins.len(),
{
    let s = pins.map_values(|t: TerminalModel| pin_branch(t));
    let r = pins.map_values(|t: TerminalModel| TerminalModel { net: None, ..t });
    if pins.len() > 0 {
        let rest = pins.skip(1);
        lemma_pins_read_back(rest);
        lemma_pin_reads_back(pins[0]);
        assert(s.skip(1) =~= rest.map_values(|t: TerminalModel| pin_branch(t)));
        assert(r =~= seq![TerminalModel { net: None, ..pins[0] }] + rest.map_values(
            |t: TerminalModel| TerminalModel { net: None, ..t },
        ));
    } else {
        assert(r =~= Seq::empty());
    }
}

/// What is found among the pins of a part: nothing but the pins themselves.
proof fn lemma_found_among_pins(m: PartModel, key: Keyword, n: int)
    requires
        0 <= n <= m.pins.len(),
        key != Keyword::Num,
        key != Keyword::Name,
        key != Keyword::Comp,
    ensures
        ({
            let s = part_branch(m)->List_0;
            let pins = m.pins.map_values(|t: TerminalModel| pin_branch(t));
            found_in(s, 4 + n, key_sign(key)) == found_in(s, 4, key_sign(key)) + (if key
                == Keyword::Pin {
                pins.take(n)
            } else {
                Seq::empty()
            })
        }),
    decreases n,
{
    let s = part_branch(m)->List_0;
    let k = key_sign(key);
    let pins = m.pins.map_values(|t: TerminalModel| pin_branch(t));
    if n > 0 {
        lemma_found_among_pins(m, key, n - 1);
        let t = m.pins[n - 1];
        assert(s[3 + n] == pins[n - 1] && pins[n - 1] == pin_branch(t));
        if key == Keyword::Pin {
            assert(branch_key(pin_branch(t)) == Ok::<Sign, TreeError>(k));
            assert(found(s[3 + n], k) == Ok::<Seq<Branch>, TreeError>(seq![pins[n - 1]]));
            assert(pins.take(n) =~= pins.take(n - 1) + seq![pins[n - 1]]);
            assert(found_in(s, 4 + n, k) =~= found_in(s, 4, k) + pins.take(n));
        } else {
            lemma_found_in_pin(t, key);
            assert(found_in(s, 4 + n, k) =~= found_in(s, 4, k) + Seq::<Branch>::empty());
        }
    } else {
        assert(pins.take(0) =~= Seq::<Branch>::empty());
        assert(found_in(s, 4, k) + Seq::<Branch>::empty() =~= found_in(s, 4, k));
    }
}

proof fn lemma_found_in_part(m: PartModel, key: Keyword)
    requires
        key == Keyword::Ref || key == Keyword::Value || key == Keyword::Footprint || key
            == Keyword::Pin,
    ensures
        found(part_branch(m), key_sign(key)) == Ok::<Seq<Branch>, TreeError>(
            if key == Keyword::Ref {
                seq![entry(Keyword::Ref, m.refdes)]
            } else if key == Keyword::Value {
                seq![entry(Keyword::Value, m.value)]
            } else if key == Keyword::Footprint {
                seq![entry(Keyword::Footprint, m.footprint)]
            } else {
                m.pins.map_values(|t: TerminalModel| pin_branch(t))
            },
        ),
{
    let n = part_branch(m);
    let s = n->List_0;
    let k = key_sign(key);
    let pins = m.pins.map_values(|t: TerminalModel| pin_branch(t));
    assert(s[0] == Branch::Leaf(Sign::Key(Keyword::Comp)));
    assert(s[1] == entry(Keyword::Ref, m.refdes));
    assert(s[2] == entry(Keyword::Value, m.value));
    assert(s[3] == entry(Keyword::Footprint, m.footprint));
    assert(s.len() == 4 + m.pins.len());
    assert(branch_key(n) == Ok::<Sign, TreeError>(Sign::Key(Keyword::Comp)));
    lemma_found_in_entry(Keyword::Ref, m.refdes, key);
    lemma_found_in_entry(Keyword::Value, m.value, key);
    lemma_found_in_entry(Keyword::Footprint, m.footprint, key);
    assert(found_in(s, 1, k) =~= Seq::<Branch>::empty());
    assert(found_in(s, 2, k) =~= found_in(s, 1, k) + found(s[1], k).unwrap());
    assert(found_in(s, 3, k) =~= found_in(s, 2, k) + found(s[2], k).unwrap());
    assert(found_in(s, 4, k) =~= found_in(s, 3, k) + found(s[3], k).unwrap());
    lemma_found_among_pins(m, key, m.pins.len() as int);
    assert(pins.take(m.pins.len() as int) =~= pins);
    assert(Seq::<Branch>::empty() + pins =~= pins);
}

/// A part is read back as it was, with all its pins, on no nets yet and without
/// properties.
pub proof fn lemma_part_reads_back(m: PartModel)
    ensures
        part_of(part_branch(m)) == Ok::<PartModel, TreeError>(
            PartModel {
                properties: Map::empty(),
                pins: m.pins.map_values(|t: TerminalModel| TerminalModel { net: None, ..t }),
                ..m
            },
        ),
{
    lemma_found_in_part(m, Keyword::Ref);
    lemma_found_in_part(m, Keyword::Value);
    lemma_found_in_part(m, Keyword::Footprint);
    lemma_found_in_part(m, Keyword::Pin);
    lemma_found_in_entry(Keyword::Ref, m.refdes, Keyword::Ref);
    lemma_found_in_entry(Keyword::Value, m.value, Keyword::Value);
    lemma_found_in_entry(Keyword::Footprint, m.footprint, Keyword::Footprint);
    lemma_one_value(entry(Keyword::Ref, m.refdes), m.refdes);
    lemma_one_value(entry(Keyword::Value, m.value), m.value);
    lemma_one_value(entry(Keyword::Footprint, m.footprint), m.footprint);
    lemma_pins_read_back(m.pins);
    assert(branch_key(part_branch(m)) == Ok::<Sign, TreeError>(key_sign(Keyword::Comp)));
}

/// A designator and a pin number, as a net lists them.
pub open spec fn node_branch(refdes: Seq<char>, number: Seq<char>) -> Branch {
    Branch::List(
        seq![
            Branch::Leaf(Sign::Key(Keyword::Node)),
            entry(Keyword::Ref, refdes),
            entry(Keyword::Pin, number),
        ],
    )
}

/// A net as it is written down: its code, its name, and the pins on it.
pub open spec fn net_branch(w: WireModel, nodes: Seq<(Seq<char>, Seq<char>)>) -> Branch {
    Branch::List(
        seq![
            Branch::Leaf(Sign::Key(Keyword::Net)),
            entry(Keyword::Code, decimal(w.code as nat)),
            entry(Keyword::Name, w.name),
        ] + nodes.map_values(|x: (Seq<char>, Seq<char>)| node_branch(x.0, x.1)),
    )
}

proof fn lemma_found_in_node(refdes: Seq<char>, number: Seq<char>, key: Keyword)
    ensures
        found(node_branch(refdes, number), key_sign(key)) == Ok::<Seq<Branch>, TreeError>(
            if key == Keyword::Node {
                seq![node_branch(refdes, number)]
            } else if key == Keyword::Ref {
                seq![entry(Keyword::Ref, refdes)]
            } else if key == Keyword::Pin {
                seq![entry(Keyword::Pin, number)]
            } else {
                Seq::empty()
            },
        ),
{
    let n = node_branch(refdes, number);
    let s = n->List_0;
    let k = key_sign(key);
    assert(branch_key(n) == Ok::<Sign, TreeError>(Sign::Key(Keyword::Node)));
    lemma_found_in_entry(Keyword::Ref, refdes, key);
    lemma_found_in_entry(Keyword::Pin, number, key);
    if key != Keyword::Node {
        assert(s.len() == 3);
        assert(found_in(s, 1, k) =~= Seq::<Branch>::empty());
        assert(found_in(s, 2, k) =~= found_in(s, 1, k) + found(s[1], k).unwrap());
        assert(found_in(s, 3, k) =~= found_in(s, 2, k) + found(s[2], k).unwrap());
    }
}

proof fn lemma_found_among_nodes(
    w: WireModel,
    nodes: Seq<(Seq<char>, Seq<char>)>,
    key: Keyword,
    n: int,
)
    requires
        0 <= n <= nodes.len(),
        key == Keyword::Code || key == Keyword::Name || key == Keyword::Node,
    ensures
        ({
            let s = net_branch(w, nodes)->List_0;
            let all = nodes.map_values(|x: (Seq<char>, Seq<char>)| node_branch(x.0, x.1));
            found_in(s, 3 + n, key_sign(key)) == found_in(s, 3, key_sign(key)) + (if key
                == Keyword::Node {
                all.take(n)
            } else {
                Seq::empty()
            })
        }),
    decreases n,
{
    let s = net_branch(w, nodes)->List_0;
    let k = key_sign(key);
    let all = nodes.map_values(|x: (Seq<char>, Seq<char>)| node_branch(x.0, x.1));
    if n > 0 {
        lemma_found_among_nodes(w, nodes, key, n - 1);
        let x = nodes[n - 1];
        assert(s[2 + n] == all[n - 1] && all[n - 1] == node_branch(x.0, x.1));
        lemma_found_in_node(x.0, x.1, key);
        if key == Keyword::Node {
            assert(all.take(n) =~= all.take(n - 1) + seq![all[n - 1]]);
            assert(found_in(s, 3 + n, k) =~= found_in(s, 3, k) + all.take(n));
        } else {
            assert(found_in(s, 3 + n, k) =~= found_in(s, 3, k) + Seq::<Branch>::empty());
        }
    } else {
        assert(all.take(0) =~= Seq::<Branch>::empty());
        assert(found_in(s, 3, k) + Seq::<Branch>::empty() =~= found_in(s, 3, k));
    }
}

/// A net is read back with its code, its name and the pins on it.
pub proof fn lemma_net_reads_back(w: WireModel, nodes: Seq<(Seq<char>, Seq<char>)>)
    ensures
        wire_header(net_branch(w, nodes)) == Ok::<(WireModel, Seq<Branch>), TreeError>(
            (w, nodes.map_values(|x: (Seq<char>, Seq<char>)| node_branch(x.0, x.1))),
        ),
{
    let n = net_branch(w, nodes);
    let s = n->List_0;
    let all = nodes.map_values(|x: (Seq<char>, Seq<char>)| node_branch(x.0, x.1));
    let code = decimal(w.code as nat);
    assert(s[0] == Branch::Leaf(Sign::Key(Keyword::Net)));
    assert(s[1] == entry(Keyword::Code, code));
    assert(s[2] == entry(Keyword::Name, w.name));
    assert(s.len() == 3 + nodes.len());
    assert(branch_key(n) == Ok::<Sign, TreeError>(Sign::Key(Keyword::Net)));
    lemma_net_head(w, nodes, Keyword::Code);
    lemma_net_head(w, nodes, Keyword::Name);
    lemma_net_head(w, nodes, Keyword::Node);
    lemma_found_in_entry(Keyword::Code, code, Keyword::Code);
    lemma_found_in_entry(Keyword::Name, w.name, Keyword::Name);
    lemma_one_value(entry(Keyword::Code, code), code);
    lemma_one_value(entry(Keyword::Name, w.name), w.name);
    lemma_numeral_reads(w.code as nat, usize::MAX as nat);
}

proof fn lemma_net_head(w: WireModel, nodes: Seq<(Seq<char>, Seq<char>)>, key: Keyword)
    requires
        key == Keyword::Code || key == Keyword::Name || key == Keyword::Node,
    ensures
        found(net_branch(w, nodes), key_sign(key)) == Ok::<Seq<Branch>, TreeError>(
            if key == Keyword::Code {
                seq![entry(Keyword::Code, decimal(w.code as nat))]
            } else if key == Keyword::Name {
                seq![entry(Keyword::Name, w.name)]
            } else {
                nodes.map_values(|x: (Seq<char>, Seq<char>)| node_branch(x.0, x.1))
            },
        ),
{
    let n = net_branch(w, nodes);
    let s = n->List_0;
    let k = key_sign(key);
    let all = nodes.map_values(|x: (Seq<char>, Seq<char>)| node_branch(x.0, x.1));
    let code = decimal(w.code as nat);
    assert(s[0] == Branch::Leaf(Sign::Key(Keyword::Net)));
    assert(s[1] == entry(Keyword::Code, code));
    assert(s[2] == entry(Keyword::Name, w.name));
    assert(s.len() == 3 + nodes.len());
    assert(branch_key(n) == Ok::<Sign, TreeError>(Sign::Key(Keyword::Net)));
    lemma_found_in_entry(Keyword::Code, code, key);
    lemma_found_in_entry(Keyword::Name, w.name, key);
    assert(found_in(s, 1, k) =~= Seq::<Branch>::empty());
    assert(found_in(s, 2, k) =~= found_in(s, 1, k) + found(s[1], k).unwrap());
    assert(found_in(s, 3, k) =~= found_in(s, 2, k) + found(s[2], k).unwrap());
    lemma_found_among_nodes(w, nodes, key, nodes.len() as int);
    assert(all.take(nodes.len() as int) =~= all);
    assert(Seq::<Branch>::empty() + all =~= all);
}

/// The pin at place `p` of the part at place `c` is the first of the number on the first
/// part of the designator.
pub open spec fn is_place(
    comps: Seq<PartModel>,
    refdes: Seq<char>,
    number: Seq<char>,
    c: int,
    p: int,
) -> bool {
    &&& 0 <= c < comps.len() && comps[c].refdes == refdes
    &&& forall|i: int| 0 <= i < c ==> (#[trigger] comps[i]).refdes != refdes
    &&& 0 <= p < comps[c].pins.len() && comps[c].pins[p].number == number
    &&& forall|i: int| 0 <= i < p ==> (#[trigger] comps[c].pins[i]).number != number
}

/// A node of a net is the pin that its designator and number name; one that names none is
/// refused.
pub proof fn lemma_node_place(
    comps: Seq<PartModel>,
    refdes: Seq<char>,
    number: Seq<char>,
    net: Seq<char>,
)
    ensures
        match terminal_place(node_branch(refdes, number), comps, net) {
            Ok((c, p)) => is_place(comps, refdes, number, c, p),
            Err(NetlistFault::UnknownComponent { refdes: r, net: n }) => r == refdes && n == net
                && forall|i: int| 0 <= i < comps.len() ==> (#[trigger] comps[i]).refdes != refdes,
            Err(NetlistFault::UnknownPin { refdes: r, pin, net: n }) => r == refdes && pin == number
                && n == net && forall|c: int, p: int| !#[trigger]
                is_place(comps, refdes, number, c, p),
            Err(_) => false,
        },
{
    let n = node_branch(refdes, number);
    lemma_found_in_node(refdes, number, Keyword::Ref);
    lemma_found_in_node(refdes, number, Keyword::Pin);
    lemma_found_in_entry(Keyword::Ref, refdes, Keyword::Ref);
    lemma_found_in_entry(Keyword::Pin, number, Keyword::Pin);
    lemma_one_value(entry(Keyword::Ref, refdes), refdes);
    lemma_one_value(entry(Keyword::Pin, number), number);
    let called = |i: int| comps[i].refdes == refdes;
    lemma_first_where_found(called, 0, comps.len() as int);
    match part_named(comps, refdes) {
        Some(c) => {
            let numbered = |i: int| comps[c].pins[i].number == number;
            lemma_first_where_found(numbered, 0, comps[c].pins.len() as int);
            assert forall|i: int| 0 <= i < c implies (#[trigger] comps[i]).refdes != refdes by {
                assert(!called(i));
            }
            match terminal_numbered(comps[c].pins, number) {
                Some(p) => {
                    assert forall|i: int| 0 <= i < p implies (
                    #[trigger] comps[c].pins[i]).number != number by {
                        assert(!numbered(i));
                    }
                },
                None => {
                    assert forall|a: int, p: int| !#[trigger]
                        is_place(comps, refdes, number, a, p) by {
                        if is_place(comps, refdes, number, a, p) {
                            if a < c {
                                assert(!called(a));
                            }
                            if c < a {
                                assert(comps[c].refdes != refdes);
                            }
                            assert(!numbered(p));
                        }
                    }
                },
            }
        },
        None => {
            assert forall|i: int| 0 <= i < comps.len() implies (
            #[trigger] comps[i]).refdes != refdes by {
                assert(!called(i));
            }
        },
    }
}

/// Putting a pin on a net changes that pin's net and nothing else.
pub proof fn lemma_put_on(comps: Seq<PartModel>, c: int, p: int, code: usize)
    requires
        0 <= c < comps.len(),
        0 <= p < comps[c].pins.len(),
    ensures
        put_on(comps, c, p, code).len() == comps.len(),
        forall|i: int|
            0 <= i < comps.len() ==> {
                let a = #[trigger] put_on(comps, c, p, code)[i];
                let b = comps[i];
                &&& a.refdes == b.refdes && a.value == b.value && a.footprint == b.footprint
                &&& a.properties == b.properties && a.pins.len() == b.pins.len()
                &&& forall|k: int|
                    0 <= k < b.pins.len() ==> {
                        &&& (#[trigger] a.pins[k]).number == b.pins[k].number
                        &&& a.pins[k].name == b.pins[k].name
                        &&& a.pins[k].net == (if i == c && k == p {
                            Some(code)
                        } else {
                            b.pins[k].net
                        })
                    }
            },
{
}

/// The parts with the pins put on the net, one after the other.
pub open spec fn put_all(comps: Seq<PartModel>, places: Seq<(int, int)>, code: usize) -> Seq<
    PartModel,
>
    decreases places.len(),
{
    if places.len() == 0 {
        comps
    } else {
        put_all(put_on(comps, places[0].0, places[0].1, code), places.skip(1), code)
    }
}

proof fn lemma_place_survives(
    comps: Seq<PartModel>,
    c: int,
    p: int,
    code: usize,
    refdes: Seq<char>,
    number: Seq<char>,
    a: int,
    b: int,
)
    requires
        0 <= c < comps.len(),
        0 <= p < comps[c].pins.len(),
        is_place(comps, refdes, number, a, b),
    ensures
        is_place(put_on(comps, c, p, code), refdes, number, a, b),
{
    let next = put_on(comps, c, p, code);
    lemma_put_on(comps, c, p, code);
    assert(next[a].refdes == comps[a].refdes);
    assert forall|i: int| 0 <= i < a implies (#[trigger] next[i]).refdes != refdes by {
        assert(comps[i].refdes != refdes);
    }
    assert(next[a].pins[b].number == comps[a].pins[b].number);
    assert forall|i: int| 0 <= i < b implies (#[trigger] next[a].pins[i]).number != number by {
        assert(comps[a].pins[i].number != number);
    }
}

proof fn lemma_place_once(
    comps: Seq<PartModel>,
    refdes: Seq<char>,
    number: Seq<char>,
    a: int,
    b: int,
    c: int,
    p: int,
)
    requires
        is_place(comps, refdes, number, a, b),
        is_place(comps, refdes, number, c, p),
    ensures
        a == c && b == p,
{
    if a < c {
        assert(comps[a].refdes != refdes);
    }
    if c < a {
        assert(comps[c].refdes != refdes);
    }
    if b < p {
        assert(comps[c].pins[b].number != number);
    }
    if p < b {
        assert(comps[c].pins[p].number != number);
    }
}

/// A net is read wherever all its nodes name pins, and these pins, and no others, are put
/// on it.
pub proof fn lemma_net_is_wired(
    comps: Seq<PartModel>,
    w: WireModel,
    nodes: Seq<(Seq<char>, Seq<char>)>,
    places: Seq<(int, int)>,
)
    requires
        nodes.len() == places.len(),
        forall|i: int|
            0 <= i < nodes.len() ==> is_place(
                comps,
                (#[trigger] nodes[i]).0,
                nodes[i].1,
                places[i].0,
                places[i].1,
            ),
    ensures
        wire_of(net_branch(w, nodes), comps) == (
            put_all(comps, places, w.code),
            Ok::<WireModel, NetlistFault<TreeError>>(w),
        ),
{
    lemma_net_reads_back(w, nodes);
    lemma_all_put_on(comps, w, nodes, places);
}

proof fn lemma_all_put_on(
    comps: Seq<PartModel>,
    w: WireModel,
    nodes: Seq<(Seq<char>, Seq<char>)>,
    places: Seq<(int, int)>,
)
    requires
        nodes.len() == places.len(),
        forall|i: int|
            0 <= i < nodes.len() ==> is_place(
                comps,
                (#[trigger] nodes[i]).0,
                nodes[i].1,
                places[i].0,
                places[i].1,
            ),
    ensures
        all_put_on(
            comps,
            nodes.map_values(|x: (Seq<char>, Seq<char>)| node_branch(x.0, x.1)),
            w,
        ) == (put_all(comps, places, w.code), None::<NetlistFault<TreeError>>),
    decreases nodes.len(),
{
    let all = nodes.map_values(|x: (Seq<char>, Seq<char>)| node_branch(x.0, x.1));
    if nodes.len() > 0 {
        let (r, k) = nodes[0];
        let (c, p) = places[0];
        assert(is_place(comps, nodes[0].0, nodes[0].1, places[0].0, places[0].1));
        lemma_node_place(comps, r, k, w.name);
        match terminal_place(node_branch(r, k), comps, w.name) {
            Ok((a, b)) => {
                lemma_place_once(comps, r, k, a, b, c, p);
            },
            Err(_) => {
                assert(is_place(comps, r, k, c, p));
                assert(comps[c].refdes == r);
            },
        }
        let next = put_on(comps, c, p, w.code);
        let rest = nodes.skip(1);
        let more = places.skip(1);
        assert forall|i: int| 0 <= i < rest.len() implies is_place(
            next,
            (#[trigger] rest[i]).0,
            rest[i].1,
            more[i].0,
            more[i].1,
        ) by {
            assert(rest[i] == nodes[i + 1] && more[i] == places[i + 1]);
            lemma_place_survives(
                comps,
                c,
                p,
                w.code,
                nodes[i + 1].0,
                nodes[i + 1].1,
                places[i + 1].0,
                places[i + 1].1,
            );
        }
        lemma_all_put_on(next, w, rest, more);
        assert(all.skip(1) =~= rest.map_values(
            |x: (Seq<char>, Seq<char>)| node_branch(x.0, x.1),
        ));
        assert(all[0] == node_branch(r, k));
    }
}

/// Every list of the tree is a keyword or a text and at least one more element, and no leaf
/// is a parenthesis or a text in disguise.
pub open spec fn growable(n: Branch) -> bool
    decreases n,
{
    match n {
        Branch::Leaf(t) => t is Key,
        Branch::Text(_) => true,
        Branch::List(s) => s.len() >= 2 && !(s[0] is List) && forall|i: int|
            0 <= i < s.len() ==> growable(#[trigger] s[i]),
    }
}

/// The tokens that a tree is written with.
pub open spec fn signs_of(n: Branch) -> Seq<Sign>
    decreases n,
{
    match n {
        Branch::Leaf(t) => seq![t],
        Branch::Text(t) => seq![Sign::Val(t)],
        Branch::List(s) => seq![Sign::ParenLeft] + signs_of_all(s) + seq![Sign::ParenRight],
    }
}

/// The tokens that trees are written with, one after the other.
pub open spec fn signs_of_all(s: Seq<Branch>) -> Seq<Sign>
    decreases s,
{
    if s.len() == 0 {
        Seq::empty()
    } else {
        signs_of(s[0]) + signs_of_all(s.subrange(1, s.len() as int))
    }
}

/// A tree grows again from the tokens that it is written with, and the tokens behind them
/// are left.
pub proof fn lemma_tree_grows_back(n: Branch, rest: Seq<Sign>)
    requires
        growable(n),
        n is List,
    ensures
        grown(signs_of(n) + rest) == Some((n, rest)),
    decreases n,
{
    let s = n->List_0;
    let t = signs_of(n) + rest;
    let more = s.subrange(1, s.len() as int);
    assert(growable(s[0]));
    let first = signs_of(s[0]);
    assert(first.len() == 1 && leaf_of(first[0]) == s[0]);
    assert(signs_of_all(s) =~= first + signs_of_all(more));
    assert(t[0] is ParenLeft && t[1] == first[0]);
    assert(t.skip(2) =~= signs_of_all(more) + seq![Sign::ParenRight] + rest);
    assert forall|i: int| 0 <= i < more.len() implies growable(#[trigger] more[i]) by {
        assert(more[i] == s[i + 1]);
    }
    lemma_elements_grow_back(more, seq![s[0]], rest);
    assert(seq![s[0]] + more =~= s);
}

proof fn lemma_elements_grow_back(s: Seq<Branch>, done: Seq<Branch>, rest: Seq<Sign>)
    requires
        forall|i: int| 0 <= i < s.len() ==> growable(#[trigger] s[i]),
        done.len() > 0,
        done.len() + s.len() >= 2,
    ensures
        grown_rest(signs_of_all(s) + seq![Sign::ParenRight] + rest, done) == Some(
            (Branch::List(done + s), rest),
        ),
    decreases s,
{
    let t = signs_of_all(s) + seq![Sign::ParenRight] + rest;
    if s.len() == 0 {
        assert(t[0] is ParenRight);
        assert(t.skip(1) =~= rest);
        assert(done + s =~= done);
    } else {
        let more = s.subrange(1, s.len() as int);
        let tail = signs_of_all(more) + seq![Sign::ParenRight] + rest;
        assert(growable(s[0]));
        assert(t =~= signs_of(s[0]) + tail);
        assert forall|i: int| 0 <= i < more.len() implies growable(#[trigger] more[i]) by {
            assert(more[i] == s[i + 1]);
        }
        lemma_elements_grow_back(more, done.push(s[0]), rest);
        assert(done.push(s[0]) + more =~= done + s);
        match s[0] {
            Branch::Leaf(leaf) => {
                assert(t[0] == leaf);
                assert(t.skip(1) =~= tail);
            },
            Branch::Text(text) => {
                assert(t[0] == Sign::Val(text));
                assert(t.skip(1) =~= tail);
            },
            Branch::List(_) => {
                lemma_tree_grows_back(s[0], tail);
                assert(t[0] is ParenLeft);
            },
        }
    }
}

/// No keyword starts with a quote.
proof fn lemma_keywords_unquoted(s: Seq<char>)
    requires
        s.len() > 0,
        s[0] == '"',
    ensures
        keyword_of(s) is None,
{
    reveal_strlit("export");
    reveal_strlit("version");
    reveal_strlit("design");
    reveal_strlit("source");
    reveal_strlit("date");
    reveal_strlit("tool");
    reveal_strlit("sheet");
    reveal_strlit("number");
    reveal_strlit("num");
    reveal_strlit("names");
    reveal_strlit("name");
    reveal_strlit("tstamps");
    reveal_strlit("title_block");
    reveal_strlit("comment");
    reveal_strlit("value");
    reveal_strlit("components");
    reveal_strlit("ref");
    reveal_strlit("footprints");
    reveal_strlit("footprint");
    reveal_strlit("description");
    reveal_strlit("fields");
    reveal_strlit("field");
    reveal_strlit("units");
    reveal_strlit("unit");
    reveal_strlit("pins");
    reveal_strlit("pintype");
    reveal_strlit("pinfunction");
    reveal_strlit("pin");
    reveal_strlit("parts");
    reveal_strlit("part");
    reveal_strlit("nets");
    reveal_strlit("net");
    reveal_strlit("property");
    reveal_strlit("path");
    reveal_strlit("datasheet");
    reveal_strlit("groups");
    reveal_strlit("variants");
    reveal_strlit("docs");
    reveal_strlit("fp");
    reveal_strlit("type");
    reveal_strlit("logical");
    reveal_strlit("uri");
    reveal_strlit("code");
    reveal_strlit("class");
    reveal_strlit("libsource");
    reveal_strlit("libraries");
    reveal_strlit("library");
    reveal_strlit("node");
    reveal_strlit("function");
    reveal_strlit("lib");
    reveal_strlit("comp");
    reveal_strlit("title");
    reveal_strlit("company");
    reveal_strlit("rev");
}

/// A text between quotes is read as one value, and what follows it is left: it may hold
/// anything in ASCII but a quote, parentheses and keywords included.
pub proof fn lemma_value_is_scanned(body: Seq<char>, rest: Seq<char>)
    requires
        is_ascii_text(body),
        !body.contains('"'),
    ensures
        first_sign(seq!['"'] + body + seq!['"'] + rest) == Some(
            (Sign::Val(body), body.len() as int + 2),
        ),
{
    let s = seq!['"'] + body + seq!['"'] + rest;
    assert(s[0] == '"');
    lemma_token_is_scanned(body, rest, 2);
}

proof fn lemma_token_is_scanned(body: Seq<char>, rest: Seq<char>, n: int)
    requires
        is_ascii_text(body),
        !body.contains('"'),
        2 <= n <= body.len() + 2,
    ensures
        token_from(seq!['"'] + body + seq!['"'] + rest, n) == Some(
            (Sign::Val(body), body.len() as int + 2),
        ),
    decreases body.len() + 2 - n,
{
    let s = seq!['"'] + body + seq!['"'] + rest;
    let sub = s.take(n);
    assert(sub[0] == '"');
    lemma_keywords_unquoted(sub);
    if n == body.len() + 2 {
        assert(s[n - 1] == '"');
        assert(s.subrange(1, n - 1) =~= body);
    } else {
        assert(s[n - 1] == body[n - 2]);
        assert(body.contains(body[n - 2]));
        assert(is_ascii(body[n - 2]));
        lemma_token_is_scanned(body, rest, n + 1);
    }
}

/// A parenthesis is a token of its own.
pub proof fn lemma_parenthesis_is_scanned(rest: Seq<char>)
    ensures
        first_sign(seq!['('] + rest) == Some((Sign::ParenLeft, 1int)),
        first_sign(seq![')'] + rest) == Some((Sign::ParenRight, 1int)),
{
    assert((seq!['('] + rest)[0] == '(');
    assert((seq![')'] + rest)[0] == ')');
}

/// A keyword that is read is spelled by the characters taken for it, and what follows does
/// not make it a longer one.
pub proof fn lemma_keyword_is_spelled(s: Seq<char>)
    ensures
        first_sign(s) matches Some((Sign::Key(k), n)) ==> {
            &&& 2 <= n <= s.len()
            &&& keyword_of(s.take(n)) == Some(k)
            &&& begins_another(k) ==> n < s.len() && !goes_on(k, s[n])
        },
{
    if s.len() > 0 {
        lemma_token_is_spelled(s, 2);
    }
}

proof fn lemma_token_is_spelled(s: Seq<char>, n: int)
    requires
        2 <= n,
    ensures
        token_from(s, n) matches Some((Sign::Key(k), m)) ==> {
            &&& n <= m <= s.len()
            &&& keyword_of(s.take(m)) == Some(k)
            &&& begins_another(k) ==> m < s.len() && !goes_on(k, s[m])
        },
    decreases s.len() + 1 - n,
{
    if prefix_at(s, n) is Short && n <= s.len() {
        lemma_token_is_spelled(s, n + 1);
    }
}

/// An export as it is written down: its parts and then its nets.
pub open spec fn export_branch(ms: Seq<PartModel>, nets: Seq<Branch>) -> Branch {
    Branch::List(
        seq![Branch::Leaf(Sign::Key(Keyword::Export))] + ms.map_values(
            |m: PartModel| part_branch(m),
        ) + nets,
    )
}

/// The part as it is read: on no nets and without properties.
pub open spec fn as_read(m: PartModel) -> PartModel {
    PartModel {
        properties: Map::empty(),
        pins: m.pins.map_values(|t: TerminalModel| TerminalModel { net: None, ..t }),
        ..m
    }
}

proof fn lemma_no_net_in_part(m: PartModel)
    ensures
        found(part_branch(m), key_sign(Keyword::Net)) == Ok::<Seq<Branch>, TreeError>(Seq::empty()),
        found(part_branch(m), key_sign(Keyword::Comp)) == Ok::<Seq<Branch>, TreeError>(
            seq![part_branch(m)],
        ),
{
    let n = part_branch(m);
    let s = n->List_0;
    let k = key_sign(Keyword::Net);
    assert(s[0] == Branch::Leaf(Sign::Key(Keyword::Comp)));
    assert(s[1] == entry(Keyword::Ref, m.refdes));
    assert(s[2] == entry(Keyword::Value, m.value));
    assert(s[3] == entry(Keyword::Footprint, m.footprint));
    assert(s.len() == 4 + m.pins.len());
    assert(branch_key(n) == Ok::<Sign, TreeError>(Sign::Key(Keyword::Comp)));
    lemma_found_in_entry(Keyword::Ref, m.refdes, Keyword::Net);
    lemma_found_in_entry(Keyword::Value, m.value, Keyword::Net);
    lemma_found_in_entry(Keyword::Footprint, m.footprint, Keyword::Net);
    assert(found_in(s, 1, k) =~= Seq::<Branch>::empty());
    assert(found_in(s, 2, k) =~= Seq::<Branch>::empty());
    assert(found_in(s, 3, k) =~= Seq::<Branch>::empty());
    assert(found_in(s, 4, k) =~= Seq::<Branch>::empty());
    lemma_found_among_pins(m, Keyword::Net, m.pins.len() as int);
    assert(Seq::<Branch>::empty() + Seq::<Branch>::empty() =~= Seq::<Branch>::empty());
}

proof fn lemma_found_in_export(ms: Seq<PartModel>, nets: Seq<Branch>, n: int)
    requires
        0 <= n <= ms.len() + nets.len(),
        forall|i: int|
            0 <= i < nets.len() ==> found(#[trigger] nets[i], key_sign(Keyword::Net)) == Ok::<
                Seq<Branch>,
                TreeError,
            >(seq![nets[i]]),
        forall|i: int|
            0 <= i < nets.len() ==> found(#[trigger] nets[i], key_sign(Keyword::Comp)) == Ok::<
                Seq<Branch>,
                TreeError,
            >(Seq::empty()),
    ensures
        ({
            let s = export_branch(ms, nets)->List_0;
            let parts = ms.map_values(|m: PartModel| part_branch(m));
            let k = ms.len() as int;
            &&& found_in(s, 1 + n, key_sign(Keyword::Comp)) == parts.take(
                if n < k {
                    n
                } else {
                    k
                },
            )
            &&& found_in(s, 1 + n, key_sign(Keyword::Net)) == nets.take(
                if n < k {
                    0
                } else {
                    n - k
                },
            )
        }),
    decreases n,
{
    let s = export_branch(ms, nets)->List_0;
    let parts = ms.map_values(|m: PartModel| part_branch(m));
    let k = ms.len() as int;
    let comp = key_sign(Keyword::Comp);
    let net = key_sign(Keyword::Net);
    assert(s.len() == 1 + ms.len() + nets.len());
    if n == 0 {
        assert(parts.take(0) =~= Seq::<Branch>::empty());
        assert(nets.take(0) =~= Seq::<Branch>::empty());
    } else {
        lemma_found_in_export(ms, nets, n - 1);
        if n <= k {
            assert(s[n] == parts[n - 1] && parts[n - 1] == part_branch(ms[n - 1]));
            lemma_no_net_in_part(ms[n - 1]);
            assert(parts.take(n) =~= parts.take(n - 1) + seq![parts[n - 1]]);
            assert(found_in(s, 1 + n, comp) =~= parts.take(n));
            assert(nets.take(0) =~= Seq::<Branch>::empty());
            assert(found_in(s, 1 + n, net) =~= nets.take(0));
        } else {
            assert(s[n] == nets[n - 1 - k]);
            assert(found(nets[n - 1 - k], net) is Ok);
            assert(nets.take(n - k) =~= nets.take(n - 1 - k) + seq![nets[n - 1 - k]]);
            assert(found_in(s, 1 + n, net) =~= nets.take(n - k));
            assert(found_in(s, 1 + n, comp) =~= parts.take(k));
        }
    }
}

proof fn lemma_parts_read_back(ms: Seq<PartModel>)
    ensures
        parts_of(ms.map_values(|m: PartModel| part_branch(m))) == Ok::<Seq<PartModel>, TreeError>(
            ms.map_values(|m: PartModel| as_read(m)),
        ),
    decreases ms.len(),
{
    let s = ms.map_values(|m: PartModel| part_branch(m));
    let r = ms.map_values(|m: PartModel| as_read(m));
    if ms.len() > 0 {
        let rest = ms.skip(1);
        lemma_parts_read_back(rest);
        lemma_part_reads_back(ms[0]);
        assert(s.skip(1) =~= rest.map_values(|m: PartModel| part_branch(m)));
        assert(r =~= seq![as_read(ms[0])] + rest.map_values(|m: PartModel| as_read(m)));
    } else {
        assert(r =~= Seq::empty());
    }
}

/// An export is read back with all its parts, in their order, and with its nets one after
/// the other.
pub proof fn lemma_export_reads_back(
    ms: Seq<PartModel>,
    ws: Seq<WireModel>,
    nodes: Seq<Seq<(Seq<char>, Seq<char>)>>,
)
    requires
        ws.len() == nodes.len(),
    ensures
        ({
            let nets = Seq::new(ws.len(), |i: int| net_branch(ws[i], nodes[i]));
            tree_netlist(export_branch(ms, nets)) == wires_of(
                nets,
                ms.map_values(|m: PartModel| as_read(m)),
            )
        }),
{
    let nets = Seq::new(ws.len(), |i: int| net_branch(ws[i], nodes[i]));
    let tree = export_branch(ms, nets);
    let s = tree->List_0;
    let parts = ms.map_values(|m: PartModel| part_branch(m));
    assert forall|i: int| 0 <= i < nets.len() implies found(
        #[trigger] nets[i],
        key_sign(Keyword::Net),
    ) == Ok::<Seq<Branch>, TreeError>(seq![nets[i]]) && found(nets[i], key_sign(Keyword::Comp))
        == Ok::<Seq<Branch>, TreeError>(Seq::empty()) by {
        lemma_no_part_in_net(ws[i], nodes[i]);
    }
    lemma_found_in_export(ms, nets, ms.len() + nets.len() as int);
    assert(s[0] == Branch::Leaf(Sign::Key(Keyword::Export)));
    assert(s.len() == 1 + ms.len() + nets.len());
    assert(branch_key(tree) == Ok::<Sign, TreeError>(Sign::Key(Keyword::Export)));
    assert(parts.take(ms.len() as int) =~= parts);
    assert(nets.take(nets.len() as int) =~= nets);
    lemma_parts_read_back(ms);
}

proof fn lemma_no_part_in_net(w: WireModel, nodes: Seq<(Seq<char>, Seq<char>)>)
    ensures
        found(net_branch(w, nodes), key_sign(Keyword::Comp)) == Ok::<Seq<Branch>, TreeError>(
            Seq::empty(),
        ),
        found(net_branch(w, nodes), key_sign(Keyword::Net)) == Ok::<Seq<Branch>, TreeError>(
            seq![net_branch(w, nodes)],
        ),
{
    let n = net_branch(w, nodes);
    let s = n->List_0;
    let k = key_sign(Keyword::Comp);
    let code = decimal(w.code as nat);
    assert(s[0] == Branch::Leaf(Sign::Key(Keyword::Net)));
    assert(s[1] == entry(Keyword::Code, code));
    assert(s[2] == entry(Keyword::Name, w.name));
    assert(s.len() == 3 + nodes.len());
    assert(branch_key(n) == Ok::<Sign, TreeError>(Sign::Key(Keyword::Net)));
    lemma_found_in_entry(Keyword::Code, code, Keyword::Comp);
    lemma_found_in_entry(Keyword::Name, w.name, Keyword::Comp);
    assert(found_in(s, 1, k) =~= Seq::<Branch>::empty());
    assert(found_in(s, 2, k) =~= Seq::<Branch>::empty());
    assert(found_in(s, 3, k) =~= Seq::<Branch>::empty());
    lemma_no_part_among_nodes(w, nodes, nodes.len() as int);
}

proof fn lemma_no_part_among_nodes(w: WireModel, nodes: Seq<(Seq<char>, Seq<char>)>, n: int)
    requires
        0 <= n <= nodes.len(),
        found_in(net_branch(w, nodes)->List_0, 3, key_sign(Keyword::Comp)) == Seq::<
            Branch,
        >::empty(),
    ensures
        found_in(net_branch(w, nodes)->List_0, 3 + n, key_sign(Keyword::Comp)) == Seq::<
            Branch,
        >::empty(),
    decreases n,
{
    let s = net_branch(w, nodes)->List_0;
    if n > 0 {
        lemma_no_part_among_nodes(w, nodes, n - 1);
        let x = nodes[n - 1];
        assert(s[2 + n] == node_branch(x.0, x.1));
        lemma_found_in_node(x.0, x.1, Keyword::Comp);
        assert(found_in(s, 3 + n, key_sign(Keyword::Comp)) =~= Seq::<Branch>::empty());
    }
}

} // verus!
