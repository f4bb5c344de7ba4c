//! What is read of properties and nets, and of an export as a whole.
use vstd::prelude::*;

use super::error::{NetlistFault, ParseError};
use super::kicad_parser::{component_named, component_of, components_of, connected, find, net_of};
use super::kicad_parser::{netlist_of, nets_of, node_key, only_value, place_named, property_rows};
use super::kicad_parser::{solid, symbol, unescaped, wired, Node};
use super::kicad_scanner::Lexeme;
use super::netlist::{ComponentModel, NetModel, NetlistModel, PinModel};
use super::read_laws::{first_numbered, gives, lacks, lemma_find, lemma_gives_once};
use super::read_laws::{lemma_pin_numbered, lemma_turns_up_solid, lemma_value_read, turns_up};
use crate::table::table_of;
use crate::text::unsigned_value;

verus! {

/// The row is what the node of a property gives: its name, and its value, with its escapes
/// resolved, where it has one.
pub open spec fn property_read(n: Node, row: (Seq<char>, Option<Seq<char>>)) -> bool {
    &&& gives(n, "name"@, row.0)
    &&& match row.1 {
        Some(t) => exists|v: Seq<char>| #[trigger] gives(n, "value"@, v) && t == unescaped(v),
        None => lacks(n, "value"@),
    }
}

proof fn lemma_property_rows(s: Seq<Node>)
    requires
        forall|i: int| 0 <= i < s.len() ==> solid(#[trigger] s[i]),
        property_rows(s) is Ok,
    ensures
        property_rows(s).unwrap().len() == s.len(),
        forall|i: int|
            0 <= i < s.len() ==> property_read(#[trigger] s[i], property_rows(s).unwrap()[i]),
    decreases s.len(),
{
    if s.len() > 0 {
        let t = s.skip(1);
        assert forall|i: int| 0 <= i < t.len() implies solid(#[trigger] t[i]) by {
            assert(t[i] == s[i + 1]);
        }
        lemma_property_rows(t);
        assert(solid(s[0]));
        lemma_value_read(s[0], "name"@);
        lemma_value_read(s[0], "value"@);
        let all = property_rows(s).unwrap();
        assert forall|i: int| 0 <= i < s.len() implies property_read(#[trigger] s[i], all[i]) by {
            if i > 0 {
                assert(t[i - 1] == s[i]);
            }
        }
    }
}

/// The row at place `i` is the last with its key.
pub open spec fn row_counts<V>(rows: Seq<(Seq<char>, V)>, i: int) -> bool {
    0 <= i < rows.len() && forall|j: int|
        i < j < rows.len() ==> (#[trigger] rows[j]).0 != rows[i].0
}

proof fn lemma_last_row<V>(rows: Seq<(Seq<char>, V)>, i: int)
    requires
        row_counts(rows, i),
    ensures
        table_of(rows)[rows[i].0] == rows[i].1,
    decreases rows.len(),
{
    let front = rows.drop_last();
    let last = rows.len() - 1;
    if i < last {
        assert(rows[last].0 != rows[i].0);
        assert(front[i] == rows[i]);
        assert forall|j: int| i < j < front.len() implies (#[trigger] front[j]).0
            != front[i].0 by {
            assert(rows[j].0 != rows[i].0);
        }
        lemma_last_row(front, i);
    }
}

proof fn lemma_row_keys<V>(rows: Seq<(Seq<char>, V)>, k: Seq<char>)
    ensures
        table_of(rows).contains_key(k) <==> exists|i: int|
            0 <= i < rows.len() && (#[trigger] rows[i]).0 == k,
    decreases rows.len(),
{
    if rows.len() > 0 {
        let front = rows.drop_last();
        let last = rows.len() - 1;
        lemma_row_keys(front, k);
        if table_of(front).contains_key(k) {
            let i = choose|i: int| 0 <= i < front.len() && (#[trigger] front[i]).0 == k;
            assert(rows[i].0 == k);
        }
        if rows.last().0 == k {
            assert(rows[last].0 == k);
        }
        if exists|i: int| 0 <= i < rows.len() && (#[trigger] rows[i]).0 == k {
            let i = choose|i: int| 0 <= i < rows.len() && (#[trigger] rows[i]).0 == k;
            if i < last {
                assert(front[i].0 == k);
            }
        }
    }
}

/// The properties of a component are those that turn up in its node, by their names: of
/// two with one name the later counts.
pub proof fn lemma_properties_read(node: Node, base: Node, m: ComponentModel) -> (r: (
    Seq<Node>,
    Seq<(Seq<char>, Option<Seq<char>>)>,
))
    requires
        solid(node),
        component_of(node, base) == Ok::<ComponentModel, ParseError>(m),
    ensures
        r.0.len() == r.1.len(),
        forall|x: Node| #[trigger] r.0.contains(x) <==> turns_up(node, "property"@, x),
        forall|i: int| 0 <= i < r.0.len() ==> property_read(#[trigger] r.0[i], r.1[i]),
        forall|k: Seq<char>| #[trigger]
            m.properties.contains_key(k) <==> exists|i: int|
                0 <= i < r.1.len() && (#[trigger] r.1[i]).0 == k,
        forall|i: int|
            #[trigger] row_counts(r.1, i) ==> m.properties[r.1[i].0] == r.1[i].1,
{
    lemma_find(node, "property"@);
    let nodes = find(node, symbol("property"@)).unwrap();
    assert forall|i: int| 0 <= i < nodes.len() implies solid(#[trigger] nodes[i]) by {
        assert(nodes.contains(nodes[i]));
        lemma_turns_up_solid(node, "property"@, nodes[i]);
    }
    lemma_property_rows(nodes);
    let rows = property_rows(nodes).unwrap();
    assert(m.properties == table_of(rows));
    assert forall|k: Seq<char>| #[trigger]
        m.properties.contains_key(k) <==> exists|i: int|
            0 <= i < rows.len() && (#[trigger] rows[i]).0 == k by {
        lemma_row_keys(rows, k);
    }
    assert forall|i: int| #[trigger] row_counts(rows, i) implies m.properties[rows[i].0]
        == rows[i].1 by {
        lemma_last_row(rows, i);
    }
    (nodes, rows)
}

/// The component at place `c` is the first of the designator.
pub open spec fn first_called(comps: Seq<ComponentModel>, refdes: Seq<char>, c: int) -> bool {
    &&& 0 <= c < comps.len() && comps[c].refdes == refdes
    &&& forall|j: int| 0 <= j < c ==> (#[trigger] comps[j]).refdes != refdes
}

pub proof fn lemma_first_called(comps: Seq<ComponentModel>, refdes: Seq<char>)
    ensures
        match component_named(comps, refdes) {
            Some(c) => first_called(comps, refdes, c),
            None => forall|j: int| 0 <= j < comps.len() ==> (#[trigger] comps[j]).refdes != refdes,
        },
    decreases comps.len(),
{
    if comps.len() > 0 && comps[0].refdes != refdes {
        let t = comps.skip(1);
        lemma_first_called(t, refdes);
        match component_named(t, refdes) {
            Some(c) => {
                assert(t[c] == comps[c + 1]);
                assert forall|j: int| 0 <= j < c + 1 implies (
                #[trigger] comps[j]).refdes != refdes by {
                    if j > 0 {
                        assert(t[j - 1] == comps[j]);
                    }
                }
            },
            None => {
                assert forall|j: int| 0 <= j < comps.len() implies (
                #[trigger] comps[j]).refdes != refdes by {
                    if j > 0 {
                        assert(t[j - 1] == comps[j]);
                    }
                }
            },
        }
    }
}

/// The node names the pin at place `p` of the component at place `c`: by its designator
/// and its number, the first of each counting.
pub open spec fn names_place(n: Node, comps: Seq<ComponentModel>, c: int, p: int) -> bool {
    exists|refdes: Seq<char>, number: Seq<char>|
        {
            &&& #[trigger] gives(n, "ref"@, refdes)
            &&& #[trigger] gives(n, "pin"@, number)
            &&& first_called(comps, refdes, c)
            &&& first_numbered(comps[c].pins, number, p)
        }
}

/// The pins differ in their nets alone.
pub open spec fn pin_stays(a: PinModel, b: PinModel) -> bool {
    a.number == b.number && a.name == b.name && a.pin_type == b.pin_type
}

/// The components differ in the nets of their pins alone.
pub open spec fn parts_stay(a: Seq<ComponentModel>, b: Seq<ComponentModel>) -> bool {
    a.len() == b.len() && forall|c: int|
        0 <= c < a.len() ==> part_stays(#[trigger] a[c], b[c])
}

pub open spec fn part_stays(a: ComponentModel, b: ComponentModel) -> bool {
    &&& a.refdes == b.refdes
    &&& a.value == b.value
    &&& a.footprint == b.footprint
    &&& a.description == b.description
    &&& a.sheet == b.sheet
    &&& a.properties == b.properties
    &&& a.pins.len() == b.pins.len()
    &&& forall|p: int| 0 <= p < a.pins.len() ==> pin_stays(#[trigger] a.pins[p], b.pins[p])
}

pub proof fn lemma_place_stays(
    n: Node,
    a: Seq<ComponentModel>,
    b: Seq<ComponentModel>,
    c: int,
    p: int,
)
    requires
        parts_stay(a, b),
        names_place(n, a, c, p),
    ensures
        names_place(n, b, c, p),
{
    let (refdes, number) = choose|refdes: Seq<char>, number: Seq<char>|
        {
            &&& #[trigger] gives(n, "ref"@, refdes)
            &&& #[trigger] gives(n, "pin"@, number)
            &&& first_called(a, refdes, c)
            &&& first_numbered(a[c].pins, number, p)
        };
    assert(part_stays(a[c], b[c]));
    assert(pin_stays(a[c].pins[p], b[c].pins[p]));
    assert forall|j: int| 0 <= j < c implies (#[trigger] b[j]).refdes != refdes by {
        assert(part_stays(a[j], b[j]));
    }
    assert forall|j: int| 0 <= j < p implies (#[trigger] b[c].pins[j]).number != number by {
        assert(pin_stays(a[c].pins[j], b[c].pins[j]));
    }
    assert(gives(n, "ref"@, refdes) && gives(n, "pin"@, number));
}

pub proof fn lemma_parts_stay_back(a: Seq<ComponentModel>, b: Seq<ComponentModel>)
    requires
        parts_stay(a, b),
    ensures
        parts_stay(b, a),
{
    assert forall|c: int| 0 <= c < b.len() implies part_stays(#[trigger] b[c], a[c]) by {
        assert(part_stays(a[c], b[c]));
        assert forall|p: int| 0 <= p < b[c].pins.len() implies pin_stays(
            #[trigger] b[c].pins[p],
            a[c].pins[p],
        ) by {
            assert(pin_stays(a[c].pins[p], b[c].pins[p]));
        }
    }
}

pub proof fn lemma_parts_stay_on(
    a: Seq<ComponentModel>,
    b: Seq<ComponentModel>,
    c: Seq<ComponentModel>,
)
    requires
        parts_stay(a, b),
        parts_stay(b, c),
    ensures
        parts_stay(a, c),
{
    assert forall|i: int| 0 <= i < a.len() implies part_stays(#[trigger] a[i], c[i]) by {
        assert(part_stays(a[i], b[i]) && part_stays(b[i], c[i]));
        assert forall|p: int| 0 <= p < a[i].pins.len() implies pin_stays(
            #[trigger] a[i].pins[p],
            c[i].pins[p],
        ) by {
            assert(pin_stays(a[i].pins[p], b[i].pins[p]));
            assert(pin_stays(b[i].pins[p], c[i].pins[p]));
        }
    }
}

pub proof fn lemma_wired(comps: Seq<ComponentModel>, c: int, p: int, code: usize)
    requires
        0 <= c < comps.len(),
        0 <= p < comps[c].pins.len(),
    ensures
        parts_stay(comps, wired(comps, c, p, code)),
        forall|i: int, k: int|
            #![trigger comps[i].pins[k]]
            #![trigger wired(comps, c, p, code)[i].pins[k]]
            0 <= i < comps.len() && 0 <= k < comps[i].pins.len() ==> wired(
                comps,
                c,
                p,
                code,
            )[i].pins[k].net == (if i == c && k == p {
                Some(code)
            } else {
                comps[i].pins[k].net
            }),
{
    let after = wired(comps, c, p, code);
    assert forall|i: int| 0 <= i < comps.len() implies part_stays(#[trigger] comps[i], after[i]) by {
        assert forall|k: int| 0 <= k < comps[i].pins.len() implies pin_stays(
            #[trigger] comps[i].pins[k],
            after[i].pins[k],
        ) by {}
    }
}

/// What a net's nodes do to the components: the pins that they name are put on the net,
/// and all else stays.
pub open spec fn put_on(
    before: Seq<ComponentModel>,
    after: Seq<ComponentModel>,
    nodes: Seq<Node>,
    code: usize,
) -> bool {
    &&& parts_stay(before, after)
    &&& forall|i: int| 0 <= i < nodes.len() ==> names_some(#[trigger] nodes[i], before)
    &&& forall|c: int, p: int|
        #![trigger after[c].pins[p]]
        0 <= c < before.len() && 0 <= p < before[c].pins.len() ==> {
            &&& named_in(nodes, before, c, p) ==> after[c].pins[p].net == Some(code)
            &&& !named_in(nodes, before, c, p) ==> after[c].pins[p].net == before[c].pins[p].net
        }
}

/// The node names a pin.
pub open spec fn names_some(n: Node, comps: Seq<ComponentModel>) -> bool {
    exists|c: int, p: int| #[trigger] names_place(n, comps, c, p)
}

/// One of the nodes names the pin.
pub open spec fn named_in(nodes: Seq<Node>, comps: Seq<ComponentModel>, c: int, p: int) -> bool {
    exists|i: int| 0 <= i < nodes.len() && names_place(#[trigger] nodes[i], comps, c, p)
}

pub proof fn lemma_place_named(n: Node, comps: Seq<ComponentModel>, net: Seq<char>)
    requires
        solid(n),
    ensures
        place_named(n, comps, net) matches Ok((c, p)) ==> 0 <= c < comps.len() && 0 <= p
            < comps[c].pins.len() && names_place(n, comps, c, p),
        place_named(n, comps, net) matches Ok((c, p)) ==> forall|i: int, k: int| #[trigger]
            names_place(n, comps, i, k) ==> i == c && k == p,
{
    lemma_value_read(n, "ref"@);
    lemma_value_read(n, "pin"@);
    if let Ok((c, p)) = place_named(n, comps, net) {
        let refdes = only_value(n, symbol("ref"@)).unwrap();
        let number = only_value(n, symbol("pin"@)).unwrap();
        lemma_first_called(comps, refdes);
        lemma_pin_numbered(comps[c].pins, number);
        assert(gives(n, "ref"@, refdes) && gives(n, "pin"@, number));
        assert(names_place(n, comps, c, p));
        assert forall|i: int, k: int| #[trigger] names_place(n, comps, i, k) implies i == c && k
            == p by {
            let (r, m) = choose|r: Seq<char>, m: Seq<char>|
                {
                    &&& #[trigger] gives(n, "ref"@, r)
                    &&& #[trigger] gives(n, "pin"@, m)
                    &&& first_called(comps, r, i)
                    &&& first_numbered(comps[i].pins, m, k)
                };
            lemma_gives_once(n, "ref"@, r, refdes);
            lemma_gives_once(n, "pin"@, m, number);
            if i < c {
                assert(comps[i].refdes != refdes);
            }
            if c < i {
                assert(comps[c].refdes != refdes);
            }
            if k < p {
                assert(comps[c].pins[k].number != number);
            }
            if p < k {
                assert(comps[c].pins[p].number != number);
            }
        }
    }
}

#[verifier::spinoff_prover]
#[verifier::rlimit(40)]
proof fn lemma_connected(comps: Seq<ComponentModel>, nodes: Seq<Node>, net: NetModel)
    requires
        forall|i: int| 0 <= i < nodes.len() ==> solid(#[trigger] nodes[i]),
        connected(comps, nodes, net).1 is None,
    ensures
        put_on(comps, connected(comps, nodes, net).0, nodes, net.code),
    decreases nodes.len(),
{
    let last = connected(comps, nodes, net).0;
    if nodes.len() == 0 {
        assert(parts_stay(comps, comps));
    } else {
        let t = nodes.skip(1);
        assert forall|i: int| 0 <= i < t.len() implies solid(#[trigger] t[i]) && t[i] == nodes[i
            + 1] by {
            assert(solid(nodes[i + 1]));
        }
        assert(solid(nodes[0]));
        lemma_place_named(nodes[0], comps, net.name);
        let (c, p) = place_named(nodes[0], comps, net.name)->Ok_0;
        let next = wired(comps, c, p, net.code);
        lemma_wired(comps, c, p, net.code);
        lemma_connected(next, t, net);
        lemma_parts_stay_on(comps, next, last);
        lemma_parts_stay_back(comps, next);
        assert forall|i: int| 0 <= i < nodes.len() implies names_some(
            #[trigger] nodes[i],
            comps,
        ) by {
            if i > 0 {
                assert(t[i - 1] == nodes[i]);
                assert(names_some(t[i - 1], next));
                let (a, b) = choose|a: int, b: int| #[trigger] names_place(t[i - 1], next, a, b);
                lemma_place_stays(nodes[i], next, comps, a, b);
            }
        }
        assert forall|a: int, b: int|
            #![trigger last[a].pins[b]]
            0 <= a < comps.len() && 0 <= b < comps[a].pins.len() implies {
            &&& named_in(nodes, comps, a, b) ==> last[a].pins[b].net == Some(net.code)
            &&& !named_in(nodes, comps, a, b) ==> last[a].pins[b].net == comps[a].pins[b].net
        } by {
            assert(part_stays(comps[a], next[a]));
            assert(pin_stays(comps[a].pins[b], next[a].pins[b]));
            lemma_named_on(nodes, comps, next, a, b);
            assert(names_place(nodes[0], comps, a, b) <==> a == c && b == p);
        }
    }
}

/// A pin is named by the first of the nodes or by one of the others, whatever nets it was
/// put on meanwhile.
proof fn lemma_named_on(
    nodes: Seq<Node>,
    comps: Seq<ComponentModel>,
    next: Seq<ComponentModel>,
    a: int,
    b: int,
)
    requires
        nodes.len() > 0,
        parts_stay(comps, next),
        parts_stay(next, comps),
    ensures
        named_in(nodes, comps, a, b) <==> names_place(nodes[0], comps, a, b) || named_in(
            nodes.skip(1),
            next,
            a,
            b,
        ),
{
    let t = nodes.skip(1);
    if named_in(t, next, a, b) {
        let i = choose|i: int| 0 <= i < t.len() && names_place(#[trigger] t[i], next, a, b);
        lemma_place_stays(t[i], next, comps, a, b);
        assert(names_place(nodes[i + 1], comps, a, b));
    }
    if named_in(nodes, comps, a, b) {
        let i = choose|i: int|
            0 <= i < nodes.len() && names_place(#[trigger] nodes[i], comps, a, b);
        if i > 0 {
            lemma_place_stays(nodes[i], comps, next, a, b);
            assert(names_place(t[i - 1], next, a, b));
        }
    }
}

/// The net is what its node gives: a code, which is a numeral, and a name, with its escapes
/// resolved.
pub open spec fn net_read(n: Node, net: NetModel) -> bool {
    &&& node_key(n) == Ok::<Lexeme, ParseError>(Lexeme::Symbol("net"@))
    &&& exists|t: Seq<char>| #[trigger]
        gives(n, "code"@, t) && unsigned_value(t, usize::MAX as nat) == Some(net.code as nat)
    &&& exists|v: Seq<char>| #[trigger] gives(n, "name"@, v) && net.name == unescaped(v)
}

/// A net is read with the pins that the nodes which turn up in it name: each such pin, and
/// no other, is put on the net.
pub proof fn lemma_net_read(
    n: Node,
    comps: Seq<ComponentModel>,
    after: Seq<ComponentModel>,
    net: NetModel,
) -> (nodes: Seq<Node>)
    requires
        solid(n),
        net_of(n, comps) == (after, Ok::<NetModel, NetlistFault<ParseError>>(net)),
    ensures
        net_read(n, net),
        forall|x: Node| #[trigger] nodes.contains(x) <==> turns_up(n, "node"@, x),
        put_on(comps, after, nodes, net.code),
{
    lemma_value_read(n, "code"@);
    lemma_value_read(n, "name"@);
    lemma_find(n, "node"@);
    let nodes = find(n, symbol("node"@)).unwrap();
    assert forall|i: int| 0 <= i < nodes.len() implies solid(#[trigger] nodes[i]) by {
        assert(nodes.contains(nodes[i]));
        lemma_turns_up_solid(n, "node"@, nodes[i]);
    }
    lemma_connected(comps, nodes, net);
    nodes
}

/// A node in the net names the pin.
pub open spec fn net_names(n: Node, comps: Seq<ComponentModel>, c: int, p: int) -> bool {
    exists|x: Node| #[trigger] turns_up(n, "node"@, x) && names_place(x, comps, c, p)
}

/// The net at place `i` is the last that names the pin.
pub open spec fn last_naming(
    nodes: Seq<Node>,
    comps: Seq<ComponentModel>,
    c: int,
    p: int,
    i: int,
) -> bool {
    &&& 0 <= i < nodes.len() && net_names(nodes[i], comps, c, p)
    &&& forall|j: int| i < j < nodes.len() ==> !net_names(#[trigger] nodes[j], comps, c, p)
}

/// No net names the pin.
pub open spec fn unnamed(nodes: Seq<Node>, comps: Seq<ComponentModel>, c: int, p: int) -> bool {
    forall|j: int| 0 <= j < nodes.len() ==> !net_names(#[trigger] nodes[j], comps, c, p)
}

/// Nets are read in order, one for each node, and a pin is on the last net that names it,
/// or as before where none does.
pub proof fn lemma_nets_read(
    nodes: Seq<Node>,
    comps: Seq<ComponentModel>,
    last: Seq<ComponentModel>,
    nets: Seq<NetModel>,
)
    requires
        forall|i: int| 0 <= i < nodes.len() ==> solid(#[trigger] nodes[i]),
        nets_of(nodes, comps) == Ok::<
            (Seq<ComponentModel>, Seq<NetModel>),
            NetlistFault<ParseError>,
        >((last, nets)),
    ensures
        nets.len() == nodes.len(),
        forall|i: int| 0 <= i < nodes.len() ==> net_read(#[trigger] nodes[i], nets[i]),
        parts_stay(comps, last),
        forall|c: int, p: int, i: int|
            #![trigger last[c].pins[p], last_naming(nodes, comps, c, p, i)]
            0 <= c < comps.len() && 0 <= p < comps[c].pins.len() && last_naming(
                nodes,
                comps,
                c,
                p,
                i,
            ) ==> last[c].pins[p].net == Some(nets[i].code),
        forall|c: int, p: int|
            #![trigger last[c].pins[p]]
            0 <= c < comps.len() && 0 <= p < comps[c].pins.len() && unnamed(nodes, comps, c, p)
                ==> last[c].pins[p].net == comps[c].pins[p].net,
    decreases nodes.len(),
{
    if nodes.len() == 0 {
        assert(parts_stay(comps, comps));
    } else {
        let t = nodes.skip(1);
        assert forall|i: int| 0 <= i < t.len() implies solid(#[trigger] t[i]) && t[i] == nodes[i
            + 1] by {
            assert(solid(nodes[i + 1]));
        }
        assert(solid(nodes[0]));
        let (next, first) = net_of(nodes[0], comps);
        let net = first->Ok_0;
        let below = lemma_net_read(nodes[0], comps, next, net);
        let more = nets_of(t, next)->Ok_0.1;
        assert(nets == seq![net] + more);
        lemma_nets_read(t, next, last, more);
        lemma_parts_stay_on(comps, next, last);
        lemma_parts_stay_back(comps, next);
        assert forall|i: int| 0 <= i < nodes.len() implies net_read(
            #[trigger] nodes[i],
            nets[i],
        ) by {
            if i > 0 {
                assert(t[i - 1] == nodes[i]);
            }
        }
        assert forall|n: Node, c: int, p: int| #[trigger]
            net_names(n, comps, c, p) <==> net_names(n, next, c, p) by {
            if net_names(n, comps, c, p) {
                let x = choose|x: Node| #[trigger]
                    turns_up(n, "node"@, x) && names_place(x, comps, c, p);
                lemma_place_stays(x, comps, next, c, p);
            }
            if net_names(n, next, c, p) {
                let x = choose|x: Node| #[trigger]
                    turns_up(n, "node"@, x) && names_place(x, next, c, p);
                lemma_place_stays(x, next, comps, c, p);
            }
        }
        assert forall|c: int, p: int| #[trigger]
            named_in(below, comps, c, p) <==> net_names(nodes[0], comps, c, p) by {
            if named_in(below, comps, c, p) {
                let i = choose|i: int|
                    0 <= i < below.len() && names_place(#[trigger] below[i], comps, c, p);
                assert(below.contains(below[i]));
                assert(turns_up(nodes[0], "node"@, below[i]));
            }
            if net_names(nodes[0], comps, c, p) {
                let x = choose|x: Node| #[trigger]
                    turns_up(nodes[0], "node"@, x) && names_place(x, comps, c, p);
                assert(below.contains(x));
                let i = choose|i: int| 0 <= i < below.len() && below[i] == x;
                assert(names_place(below[i], comps, c, p));
            }
        }
        assert forall|c: int, p: int, i: int|
            #![trigger last[c].pins[p], last_naming(nodes, comps, c, p, i)]
            0 <= c < comps.len() && 0 <= p < comps[c].pins.len() && last_naming(
                nodes,
                comps,
                c,
                p,
                i,
            ) implies last[c].pins[p].net == Some(nets[i].code) by {
            assert(part_stays(comps[c], next[c]));
            assert(pin_stays(comps[c].pins[p], next[c].pins[p]));
            assert forall|j: int| i - 1 < j < t.len() implies !net_names(
                #[trigger] t[j],
                next,
                c,
                p,
            ) by {
                assert(!net_names(nodes[j + 1], comps, c, p));
            }
            if i > 0 {
                assert(net_names(t[i - 1], next, c, p));
                assert(last_naming(t, next, c, p, i - 1));
                assert(more[i - 1] == nets[i]);
            } else {
                assert(named_in(below, comps, c, p));
                assert(next[c].pins[p].net == Some(net.code));
                assert(last[c].pins[p].net == next[c].pins[p].net);
            }
        }
        assert forall|c: int, p: int|
            #![trigger last[c].pins[p]]
            0 <= c < comps.len() && 0 <= p < comps[c].pins.len() && unnamed(
                nodes,
                comps,
                c,
                p,
            ) implies last[c].pins[p].net == comps[c].pins[p].net by {
            assert(part_stays(comps[c], next[c]));
            assert(pin_stays(comps[c].pins[p], next[c].pins[p]));
            assert(!net_names(nodes[0], comps, c, p));
            assert(!named_in(below, comps, c, p));
            assert forall|j: int| 0 <= j < t.len() implies !net_names(
                #[trigger] t[j],
                next,
                c,
                p,
            ) by {
                assert(!net_names(nodes[j + 1], comps, c, p));
            }
        }
    }
}

proof fn lemma_components_of(nodes: Seq<Node>, base: Node)
    requires
        components_of(nodes, base) is Ok,
    ensures
        components_of(nodes, base).unwrap().len() == nodes.len(),
        forall|i: int|
            0 <= i < nodes.len() ==> component_of(#[trigger] nodes[i], base) == Ok::<
                ComponentModel,
                ParseError,
            >(components_of(nodes, base).unwrap()[i]),
    decreases nodes.len(),
{
    if nodes.len() > 0 {
        let t = nodes.skip(1);
        lemma_components_of(t, base);
        let all = components_of(nodes, base).unwrap();
        assert forall|i: int| 0 <= i < nodes.len() implies component_of(#[trigger] nodes[i], base)
            == Ok::<ComponentModel, ParseError>(all[i]) by {
            if i > 0 {
                assert(t[i - 1] == nodes[i]);
            }
        }
    }
}

/// An export is read as one component for each list that turns up under `comp` and one net
/// for each under `net`, in their order. The components are as their nodes say, with each
/// pin on the last net that names it and on none where none does.
pub proof fn lemma_export_read(tree: Node, m: NetlistModel) -> (r: (Seq<Node>, Seq<Node>, Seq<
    ComponentModel,
>))
    requires
        solid(tree),
        netlist_of(tree) == Ok::<NetlistModel, NetlistFault<ParseError>>(m),
    ensures
        forall|x: Node| #[trigger] r.0.contains(x) <==> turns_up(tree, "comp"@, x),
        forall|x: Node| #[trigger] r.1.contains(x) <==> turns_up(tree, "net"@, x),
        m.components.len() == r.0.len(),
        r.2.len() == r.0.len(),
        forall|i: int|
            0 <= i < r.0.len() ==> component_of(#[trigger] r.0[i], tree) == Ok::<
                ComponentModel,
                ParseError,
            >(r.2[i]),
        parts_stay(r.2, m.components),
        m.nets.len() == r.1.len(),
        forall|i: int| 0 <= i < r.1.len() ==> net_read(#[trigger] r.1[i], m.nets[i]),
        forall|c: int, p: int, i: int|
            #![trigger m.components[c].pins[p], last_naming(r.1, r.2, c, p, i)]
            0 <= c < r.2.len() && 0 <= p < r.2[c].pins.len() && last_naming(
                r.1,
                r.2,
                c,
                p,
                i,
            ) ==> m.components[c].pins[p].net == Some(m.nets[i].code),
        forall|c: int, p: int|
            #![trigger m.components[c].pins[p]]
            0 <= c < r.2.len() && 0 <= p < r.2[c].pins.len() && unnamed(r.1, r.2, c, p)
                ==> m.components[c].pins[p].net == r.2[c].pins[p].net,
{
    lemma_find(tree, "comp"@);
    lemma_find(tree, "net"@);
    let comp_nodes = find(tree, symbol("comp"@)).unwrap();
    let net_nodes = find(tree, symbol("net"@)).unwrap();
    let comps = components_of(comp_nodes, tree).unwrap();
    lemma_components_of(comp_nodes, tree);
    assert forall|i: int| 0 <= i < net_nodes.len() implies solid(#[trigger] net_nodes[i]) by {
        assert(net_nodes.contains(net_nodes[i]));
        lemma_turns_up_solid(tree, "net"@, net_nodes[i]);
    }
    lemma_nets_read(net_nodes, comps, m.components, m.nets);
    (comp_nodes, net_nodes, comps)
}

} // verus!
