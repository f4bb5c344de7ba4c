//! Which exports are read: where every list that is asked for is there, reading succeeds.
use vstd::prelude::*;

use super::error::{NetlistFault, ParseError};
use super::kicad_parser::{children, component_named, component_of, connected, find, lib_and_part};
use super::kicad_parser::{libpart_of, lists_keyed, maybe_child, maybe_value, net_header, net_of};
use super::kicad_parser::{node_key, node_val, only_child, only_value, parts_named, pin_numbered};
use super::kicad_parser::{pins_below, pins_of, place_named, property_rows, sheet_of, solid};
use super::kicad_parser::{source_of, symbol, values_of, wired, Node};
use super::kicad_scanner::Lexeme;
use super::net_read_laws::{first_called, lemma_first_called, lemma_place_stays, lemma_wired};
use super::net_read_laws::{names_place, names_some};
use super::netlist::{ComponentModel, NetModel};
use super::read_laws::{first_numbered, gives, headed, lacks, lemma_find, lemma_gives_once};
use super::read_laws::{lemma_pin_numbered, lemma_turns_up_solid, names_part, pair, sole_list};
use super::read_laws::{stands_at, turns_up};
use crate::text::unsigned_value;

verus! {

/// Every list in the node, behind its head, starts with a word.
pub open spec fn tidy(n: Node) -> bool {
    n matches Node::List(s) && s.len() > 0 && forall|i: int|
        1 <= i < s.len() ==> well_headed(#[trigger] s[i])
}

/// The node is no list, or starts with a word.
pub open spec fn well_headed(n: Node) -> bool {
    n matches Node::List(s) ==> s.len() > 0 && (s[0] matches Node::Atom(t) && t is Symbol)
}

proof fn lemma_keyed_one(s: Seq<Node>, word: Seq<char>, i: int)
    requires
        forall|j: int| 0 <= j < s.len() ==> well_headed(#[trigger] s[j]),
        0 <= i < s.len(),
        headed(s[i], word),
        forall|j: int| 0 <= j < s.len() && headed(#[trigger] s[j], word) ==> j == i,
    ensures
        lists_keyed(s, symbol(word)) == Ok::<Seq<Node>, ParseError>(seq![s[i]]),
    decreases s.len(),
{
    let t = s.skip(1);
    assert forall|j: int| 0 <= j < t.len() implies well_headed(#[trigger] t[j]) && t[j] == s[j
        + 1] by {
        assert(well_headed(s[j + 1]));
    }
    assert(well_headed(s[0]));
    if i == 0 {
        assert forall|j: int| 0 <= j < t.len() implies !headed(#[trigger] t[j], word) by {
            assert(t[j] == s[j + 1]);
        }
        lemma_keyed_none(t, word);
        assert(seq![s[0]] + Seq::<Node>::empty() =~= seq![s[0]]);
    } else {
        assert(t[i - 1] == s[i]);
        assert forall|j: int| 0 <= j < t.len() && headed(#[trigger] t[j], word) implies j == i
            - 1 by {
            assert(t[j] == s[j + 1]);
        }
        lemma_keyed_one(t, word, i - 1);
        assert(!headed(s[0], word));
    }
}

proof fn lemma_keyed_none(s: Seq<Node>, word: Seq<char>)
    requires
        forall|j: int| 0 <= j < s.len() ==> well_headed(#[trigger] s[j]),
        forall|j: int| 0 <= j < s.len() ==> !headed(#[trigger] s[j], word),
    ensures
        lists_keyed(s, symbol(word)) == Ok::<Seq<Node>, ParseError>(Seq::empty()),
    decreases s.len(),
{
    if s.len() > 0 {
        let t = s.skip(1);
        assert forall|j: int| 0 <= j < t.len() implies well_headed(#[trigger] t[j]) && !headed(
            t[j],
            word,
        ) by {
            assert(t[j] == s[j + 1]);
            assert(well_headed(s[j + 1]));
        }
        assert(well_headed(s[0]) && !headed(s[0], word));
        lemma_keyed_none(t, word);
    }
}

pub proof fn lemma_keyed_is_ok(s: Seq<Node>, word: Seq<char>)
    requires
        forall|j: int| 0 <= j < s.len() ==> well_headed(#[trigger] s[j]),
    ensures
        lists_keyed(s, symbol(word)) is Ok,
        forall|x: Node| #[trigger]
            lists_keyed(s, symbol(word)).unwrap().contains(x) ==> headed(x, word) && s.contains(x),
    decreases s.len(),
{
    if s.len() > 0 {
        let t = s.skip(1);
        assert forall|j: int| 0 <= j < t.len() implies well_headed(#[trigger] t[j]) by {
            assert(t[j] == s[j + 1]);
            assert(well_headed(s[j + 1]));
        }
        assert(well_headed(s[0]));
        lemma_keyed_is_ok(t, word);
        let all = lists_keyed(s, symbol(word)).unwrap();
        let rest = lists_keyed(t, symbol(word)).unwrap();
        assert forall|x: Node| #[trigger] all.contains(x) implies headed(x, word) && s.contains(
            x,
        ) by {
            let k = choose|k: int| 0 <= k < all.len() && all[k] == x;
            let here = headed(s[0], word);
            assert(all == (if here {
                seq![s[0]] + rest
            } else {
                rest
            }));
            if here && k == 0 {
                assert(s[0] == x);
            } else {
                if here {
                    assert(rest[k - 1] == x);
                }
                assert(rest.contains(x));
                let i = choose|i: int| 0 <= i < t.len() && t[i] == x;
                assert(s[i + 1] == x);
            }
        }
    }
}

/// The only list with its head is found when it is asked for; where there is none, that is
/// found out.
pub proof fn lemma_child_is_read(n: Node, word: Seq<char>, x: Node)
    requires
        tidy(n),
    ensures
        sole_list(n, word, x) ==> children(n, symbol(word)) == Ok::<Seq<Node>, ParseError>(seq![x]),
        sole_list(n, word, x) ==> only_child(n, symbol(word)) == Ok::<Node, ParseError>(x),
        sole_list(n, word, x) ==> maybe_child(n, symbol(word)) == Ok::<Option<Node>, ParseError>(
            Some(x),
        ),
        lacks(n, word) ==> children(n, symbol(word)) == Ok::<Seq<Node>, ParseError>(Seq::empty()),
        lacks(n, word) ==> maybe_child(n, symbol(word)) == Ok::<Option<Node>, ParseError>(None),
{
    let s = n->List_0;
    let t = s.skip(1);
    assert forall|j: int| 0 <= j < t.len() implies well_headed(#[trigger] t[j]) && t[j] == s[j
        + 1] by {
        assert(well_headed(s[j + 1]));
    }
    if sole_list(n, word, x) {
        let i = choose|i: int| #[trigger]
            stands_at(n, i, x) && headed(x, word) && forall|j: int, y: Node| #[trigger]
                stands_at(n, j, y) && headed(y, word) ==> j == i;
        assert(t[i - 1] == x);
        assert forall|j: int| 0 <= j < t.len() && headed(#[trigger] t[j], word) implies j == i
            - 1 by {
            assert(stands_at(n, j + 1, t[j]));
        }
        lemma_keyed_one(t, word, i - 1);
    }
    if lacks(n, word) {
        assert forall|j: int| 0 <= j < t.len() implies !headed(#[trigger] t[j], word) by {
            assert(stands_at(n, j + 1, t[j]));
        }
        lemma_keyed_none(t, word);
    }
}

/// A text that the only list with its head gives is read; where there is none, none is.
pub proof fn lemma_value_is_read(n: Node, word: Seq<char>, v: Seq<char>)
    requires
        tidy(n),
    ensures
        gives(n, word, v) ==> only_value(n, symbol(word)) == Ok::<Seq<char>, ParseError>(v),
        gives(n, word, v) ==> maybe_value(n, symbol(word)) == Ok::<Option<Seq<char>>, ParseError>(
            Some(v),
        ),
        lacks(n, word) ==> maybe_value(n, symbol(word)) == Ok::<Option<Seq<char>>, ParseError>(
            None,
        ),
{
    let x = pair(word, v);
    lemma_child_is_read(n, word, x);
    let one = seq![x];
    assert(node_val(x) == Ok::<Seq<char>, ParseError>(v));
    assert(one.skip(1) =~= Seq::<Node>::empty());
    assert(values_of(one.skip(1)) == Ok::<Seq<Seq<char>>, ParseError>(Seq::empty()));
    assert(values_of(one) == Ok::<Seq<Seq<char>>, ParseError>(
        seq![v] + Seq::<Seq<char>>::empty(),
    ));
    assert(seq![v] + Seq::<Seq<char>>::empty() =~= seq![v]);
}

/// The node gives a text under the word, or has no list with it.
pub open spec fn may_give(n: Node, word: Seq<char>) -> bool {
    lacks(n, word) || exists|v: Seq<char>| #[trigger] gives(n, word, v)
}

proof fn lemma_may_give(n: Node, word: Seq<char>)
    requires
        tidy(n),
        may_give(n, word),
    ensures
        maybe_value(n, symbol(word)) is Ok,
{
    if lacks(n, word) {
        lemma_value_is_read(n, word, Seq::empty());
    } else {
        let v = choose|v: Seq<char>| #[trigger] gives(n, word, v);
        lemma_value_is_read(n, word, v);
    }
}

/// The node of a pin gives what it has to.
pub open spec fn pin_readable(n: Node) -> bool {
    tidy(n) && (exists|v: Seq<char>| #[trigger] gives(n, "num"@, v)) && may_give(n, "name"@)
        && may_give(n, "type"@)
}

/// The node of a property gives what it has to.
pub open spec fn property_readable(n: Node) -> bool {
    tidy(n) && (exists|v: Seq<char>| #[trigger] gives(n, "name"@, v)) && may_give(n, "value"@)
}

proof fn lemma_pins_are_read(s: Seq<Node>)
    requires
        forall|i: int| 0 <= i < s.len() ==> pin_readable(#[trigger] s[i]),
    ensures
        pins_of(s) is Ok,
    decreases s.len(),
{
    if s.len() > 0 {
        let t = s.skip(1);
        assert forall|i: int| 0 <= i < t.len() implies pin_readable(#[trigger] t[i]) by {
            assert(t[i] == s[i + 1]);
        }
        lemma_pins_are_read(t);
        assert(pin_readable(s[0]));
        let v = choose|v: Seq<char>| #[trigger] gives(s[0], "num"@, v);
        lemma_value_is_read(s[0], "num"@, v);
        lemma_may_give(s[0], "name"@);
        lemma_may_give(s[0], "type"@);
    }
}

proof fn lemma_properties_are_read(s: Seq<Node>)
    requires
        forall|i: int| 0 <= i < s.len() ==> property_readable(#[trigger] s[i]),
    ensures
        property_rows(s) is Ok,
    decreases s.len(),
{
    if s.len() > 0 {
        let t = s.skip(1);
        assert forall|i: int| 0 <= i < t.len() implies property_readable(#[trigger] t[i]) by {
            assert(t[i] == s[i + 1]);
        }
        lemma_properties_are_read(t);
        assert(property_readable(s[0]));
        let v = choose|v: Seq<char>| #[trigger] gives(s[0], "name"@, v);
        lemma_value_is_read(s[0], "name"@, v);
        lemma_may_give(s[0], "value"@);
    }
}

/// Every pin that turns up in the node gives what it has to.
pub open spec fn pins_readable(n: Node) -> bool {
    forall|x: Node| #[trigger] turns_up(n, "pin"@, x) ==> pin_readable(x)
}

proof fn lemma_pins_below_are_read(n: Node)
    requires
        node_key(n) is Ok,
        pins_readable(n),
    ensures
        pins_below(n) is Ok,
{
    lemma_find(n, "pin"@);
    let nodes = find(n, symbol("pin"@)).unwrap();
    assert forall|i: int| 0 <= i < nodes.len() implies pin_readable(#[trigger] nodes[i]) by {
        assert(nodes.contains(nodes[i]));
    }
    lemma_pins_are_read(nodes);
}

/// The list has one part of the name, at place `i`, and every part in it has a name.
pub open spec fn defines_once(
    libparts: Node,
    lib: Seq<char>,
    part: Seq<char>,
    i: int,
    x: Node,
) -> bool {
    &&& tidy(libparts)
    &&& stands_at(libparts, i, x) && headed(x, "libpart"@) && names_part(x, lib, part)
    &&& forall|j: int, y: Node| #[trigger]
        stands_at(libparts, j, y) && headed(y, "libpart"@) ==> tidy(y) && exists|
            a: Seq<char>,
            b: Seq<char>,
        | #[trigger] names_part(y, a, b) && (j != i ==> (a, b) != (lib, part))
}

proof fn lemma_definition_is_read(
    s: Seq<Node>,
    lib: Seq<char>,
    part: Seq<char>,
    i: int,
)
    requires
        0 <= i < s.len(),
        names_part(s[i], lib, part),
        headed(s[i], "libpart"@),
        forall|j: int| 0 <= j < s.len() ==> well_headed(#[trigger] s[j]),
        forall|j: int|
            0 <= j < s.len() && headed(#[trigger] s[j], "libpart"@) ==> tidy(s[j]) && exists|
                a: Seq<char>,
                b: Seq<char>,
            | #[trigger] names_part(s[j], a, b) && (j != i ==> (a, b) != (lib, part)),
    ensures
        lists_keyed(s, symbol("libpart"@)) matches Ok(all) && parts_named(all, (lib, part)) == Ok::<
            Seq<Node>,
            ParseError,
        >(seq![s[i]]),
    decreases s.len(),
{
    let t = s.skip(1);
    assert forall|j: int| 0 <= j < t.len() implies well_headed(#[trigger] t[j]) && t[j] == s[j
        + 1] by {
        assert(well_headed(s[j + 1]));
    }
    assert(well_headed(s[0]));
    lemma_keyed_is_ok(t, "libpart"@);
    let rest = lists_keyed(t, symbol("libpart"@)).unwrap();
    let here = headed(s[0], "libpart"@);
    let all = lists_keyed(s, symbol("libpart"@)).unwrap();
    assert(all == (if here {
        seq![s[0]] + rest
    } else {
        rest
    }));
    if here {
        let (a, b) = choose|a: Seq<char>, b: Seq<char>| #[trigger]
            names_part(s[0], a, b) && (0 != i ==> (a, b) != (lib, part));
        lemma_value_is_read(s[0], "lib"@, a);
        lemma_value_is_read(s[0], "part"@, b);
        assert(lib_and_part(s[0]) == Ok::<(Seq<char>, Seq<char>), ParseError>((a, b)));
        assert(all.skip(1) =~= rest);
        if i == 0 {
            lemma_gives_once(s[0], "lib"@, a, lib);
            lemma_gives_once(s[0], "part"@, b, part);
        }
    }
    if i == 0 {
        assert forall|j: int| 0 <= j < t.len() && headed(
            #[trigger] t[j],
            "libpart"@,
        ) implies tidy(t[j]) && exists|a: Seq<char>, b: Seq<char>| #[trigger]
            names_part(t[j], a, b) && (a, b) != (lib, part) by {
            assert(t[j] == s[j + 1]);
            let (a, b) = choose|a: Seq<char>, b: Seq<char>| #[trigger]
                names_part(s[j + 1], a, b) && (j + 1 != i ==> (a, b) != (lib, part));
            assert(names_part(t[j], a, b));
        }
        lemma_others_are_passed(t, lib, part);
        assert(seq![s[0]] + Seq::<Node>::empty() =~= seq![s[0]]);
    } else {
        assert(t[i - 1] == s[i]);
        assert forall|j: int| 0 <= j < t.len() && headed(
            #[trigger] t[j],
            "libpart"@,
        ) implies tidy(t[j]) && exists|a: Seq<char>, b: Seq<char>| #[trigger]
            names_part(t[j], a, b) && (j != i - 1 ==> (a, b) != (lib, part)) by {
            assert(t[j] == s[j + 1]);
            let (a, b) = choose|a: Seq<char>, b: Seq<char>| #[trigger]
                names_part(s[j + 1], a, b) && (j + 1 != i ==> (a, b) != (lib, part));
            assert(names_part(t[j], a, b));
        }
        lemma_definition_is_read(t, lib, part, i - 1);
    }
}

proof fn lemma_others_are_passed(s: Seq<Node>, lib: Seq<char>, part: Seq<char>)
    requires
        forall|j: int| 0 <= j < s.len() ==> well_headed(#[trigger] s[j]),
        forall|j: int|
            0 <= j < s.len() && headed(#[trigger] s[j], "libpart"@) ==> tidy(s[j]) && exists|
                a: Seq<char>,
                b: Seq<char>,
            | #[trigger] names_part(s[j], a, b) && (a, b) != (lib, part),
    ensures
        lists_keyed(s, symbol("libpart"@)) matches Ok(all) && parts_named(all, (lib, part)) == Ok::<
            Seq<Node>,
            ParseError,
        >(Seq::empty()),
    decreases s.len(),
{
    if s.len() > 0 {
        let t = s.skip(1);
        assert forall|j: int| 0 <= j < t.len() implies well_headed(#[trigger] t[j]) && t[j] == s[j
            + 1] by {
            assert(well_headed(s[j + 1]));
        }
        assert(well_headed(s[0]));
        assert forall|j: int| 0 <= j < t.len() && headed(
            #[trigger] t[j],
            "libpart"@,
        ) implies tidy(t[j]) && exists|a: Seq<char>, b: Seq<char>| #[trigger]
            names_part(t[j], a, b) && (a, b) != (lib, part) by {
            assert(t[j] == s[j + 1]);
        }
        lemma_others_are_passed(t, lib, part);
        let rest = lists_keyed(t, symbol("libpart"@)).unwrap();
        let all = lists_keyed(s, symbol("libpart"@)).unwrap();
        if headed(s[0], "libpart"@) {
            let (a, b) = choose|a: Seq<char>, b: Seq<char>| #[trigger]
                names_part(s[0], a, b) && (a, b) != (lib, part);
            lemma_value_is_read(s[0], "lib"@, a);
            lemma_value_is_read(s[0], "part"@, b);
            assert(lib_and_part(s[0]) == Ok::<(Seq<char>, Seq<char>), ParseError>((a, b)));
            assert(all == seq![s[0]] + rest);
            assert(all.skip(1) =~= rest);
        }
    }
}

/// A component is read wherever its node gives a designator and a value, gives its
/// footprint, description and sheet or leaves them out, names a library part that the
/// export defines once, and the pins and properties that turn up give what they have to.
pub proof fn lemma_component_is_read(
    node: Node,
    base: Node,
    source: Node,
    libparts: Node,
    libpart: Node,
    lib: Seq<char>,
    part: Seq<char>,
    i: int,
)
    requires
        tidy(node),
        headed(node, "comp"@),
        exists|v: Seq<char>| #[trigger] gives(node, "ref"@, v),
        exists|v: Seq<char>| #[trigger] gives(node, "value"@, v),
        may_give(node, "footprint"@),
        may_give(node, "description"@),
        lacks(node, "sheetpath"@) || exists|path: Node, v: Seq<char>|
            #![trigger sole_list(node, "sheetpath"@, path), gives(path, "names"@, v)]
            sole_list(node, "sheetpath"@, path) && tidy(path) && gives(path, "names"@, v),
        sole_list(node, "libsource"@, source),
        tidy(source),
        names_part(source, lib, part),
        tidy(base),
        sole_list(base, "libparts"@, libparts),
        defines_once(libparts, lib, part, i, libpart),
        pins_readable(libpart),
        pins_readable(node),
        forall|x: Node| #[trigger] turns_up(node, "property"@, x) ==> property_readable(x),
    ensures
        component_of(node, base) is Ok,
{
    let refdes = choose|v: Seq<char>| #[trigger] gives(node, "ref"@, v);
    let value = choose|v: Seq<char>| #[trigger] gives(node, "value"@, v);
    lemma_value_is_read(node, "ref"@, refdes);
    lemma_value_is_read(node, "value"@, value);
    lemma_may_give(node, "footprint"@);
    lemma_may_give(node, "description"@);
    if lacks(node, "sheetpath"@) {
        lemma_child_is_read(node, "sheetpath"@, node);
    } else {
        let (path, v) = choose|path: Node, v: Seq<char>|
            #![trigger sole_list(node, "sheetpath"@, path), gives(path, "names"@, v)]
            sole_list(node, "sheetpath"@, path) && tidy(path) && gives(path, "names"@, v);
        lemma_child_is_read(node, "sheetpath"@, path);
        lemma_value_is_read(path, "names"@, v);
    }
    assert(sheet_of(node) is Ok);
    lemma_child_is_read(node, "libsource"@, source);
    lemma_value_is_read(source, "lib"@, lib);
    lemma_value_is_read(source, "part"@, part);
    assert(source_of(node) == Ok::<(Seq<char>, Seq<char>), ParseError>((lib, part)));
    lemma_child_is_read(base, "libparts"@, libparts);
    let list = libparts->List_0;
    let t = list.skip(1);
    assert forall|j: int| 0 <= j < t.len() implies well_headed(#[trigger] t[j]) && t[j] == list[j
        + 1] by {
        assert(well_headed(list[j + 1]));
    }
    assert(t[i - 1] == libpart);
    assert forall|j: int| 0 <= j < t.len() && headed(#[trigger] t[j], "libpart"@) implies tidy(t[j])
        && exists|a: Seq<char>, b: Seq<char>| #[trigger]
        names_part(t[j], a, b) && (j != i - 1 ==> (a, b) != (lib, part)) by {
        assert(stands_at(libparts, j + 1, t[j]));
        let (a, b) = choose|a: Seq<char>, b: Seq<char>| #[trigger]
            names_part(t[j], a, b) && (j + 1 != i ==> (a, b) != (lib, part));
        assert(names_part(t[j], a, b));
    }
    lemma_definition_is_read(t, lib, part, i - 1);
    assert(libpart_of(base, (lib, part)) == Ok::<Node, ParseError>(libpart));
    assert(node_key(libpart) is Ok);
    assert(node_key(node) == Ok::<Lexeme, ParseError>(symbol("comp"@)));
    lemma_pins_below_are_read(libpart);
    lemma_pins_below_are_read(node);
    lemma_find(node, "property"@);
    let rows = find(node, symbol("property"@)).unwrap();
    assert forall|j: int| 0 <= j < rows.len() implies property_readable(#[trigger] rows[j]) by {
        assert(rows.contains(rows[j]));
    }
    lemma_properties_are_read(rows);
}

proof fn lemma_nodes_are_read(comps: Seq<ComponentModel>, nodes: Seq<Node>, net: NetModel)
    requires
        forall|i: int| 0 <= i < nodes.len() ==> tidy(#[trigger] nodes[i]),
        forall|i: int| 0 <= i < nodes.len() ==> solid(#[trigger] nodes[i]),
        forall|i: int| 0 <= i < nodes.len() ==> names_some(#[trigger] nodes[i], comps),
    ensures
        connected(comps, nodes, net).1 is None,
    decreases nodes.len(),
{
    if nodes.len() > 0 {
        let t = nodes.skip(1);
        assert(tidy(nodes[0]) && solid(nodes[0]) && names_some(nodes[0], comps));
        let (c, p) = choose|c: int, p: int| #[trigger] names_place(nodes[0], comps, c, p);
        lemma_place_is_read(nodes[0], comps, net.name, c, p);
        let next = wired(comps, c, p, net.code);
        lemma_wired(comps, c, p, net.code);
        assert forall|i: int| 0 <= i < t.len() implies tidy(#[trigger] t[i]) && solid(t[i])
            && names_some(t[i], next) by {
            assert(t[i] == nodes[i + 1]);
            assert(tidy(nodes[i + 1]) && solid(nodes[i + 1]) && names_some(nodes[i + 1], comps));
            let (a, b) = choose|a: int, b: int| #[trigger] names_place(nodes[i + 1], comps, a, b);
            lemma_place_stays(nodes[i + 1], comps, next, a, b);
        }
        lemma_nodes_are_read(next, t, net);
    }
}

proof fn lemma_place_is_read(
    n: Node,
    comps: Seq<ComponentModel>,
    net: Seq<char>,
    c: int,
    p: int,
)
    requires
        tidy(n),
        solid(n),
        names_place(n, comps, c, p),
    ensures
        place_named(n, comps, net) == Ok::<(int, int), NetlistFault<ParseError>>((c, p)),
        0 <= c < comps.len(),
        0 <= p < comps[c].pins.len(),
{
    let (refdes, number) = choose|refdes: Seq<char>, number: Seq<char>|
        {
            &&& #[trigger] gives(n, "ref"@, refdes)
            &&& #[trigger] gives(n, "pin"@, number)
            &&& first_called(comps, refdes, c)
            &&& first_numbered(comps[c].pins, number, p)
        };
    lemma_value_is_read(n, "ref"@, refdes);
    lemma_value_is_read(n, "pin"@, number);
    lemma_first_called(comps, refdes);
    lemma_pin_numbered(comps[c].pins, number);
    match component_named(comps, refdes) {
        Some(i) => {
            if i < c {
                assert(comps[i].refdes != refdes);
            }
            if c < i {
                assert(comps[c].refdes != refdes);
            }
        },
        None => {
            assert(comps[c].refdes != refdes);
        },
    }
    match pin_numbered(comps[c].pins, number) {
        Some(k) => {
            if k < p {
                assert(comps[c].pins[k].number != number);
            }
            if p < k {
                assert(comps[c].pins[p].number != number);
            }
        },
        None => {
            assert(comps[c].pins[p].number != number);
        },
    }
}

/// A net is read wherever its node gives a code that is a numeral and a name, and every
/// node that turns up in it names a pin of a component.
pub proof fn lemma_net_is_read(n: Node, comps: Seq<ComponentModel>, code: Seq<char>)
    requires
        solid(n),
        tidy(n),
        headed(n, "net"@),
        gives(n, "code"@, code),
        unsigned_value(code, usize::MAX as nat) is Some,
        exists|v: Seq<char>| #[trigger] gives(n, "name"@, v),
        forall|x: Node| #[trigger] turns_up(n, "node"@, x) ==> tidy(x) && names_some(x, comps),
    ensures
        net_of(n, comps).1 is Ok,
{
    let name = choose|v: Seq<char>| #[trigger] gives(n, "name"@, v);
    lemma_value_is_read(n, "code"@, code);
    lemma_value_is_read(n, "name"@, name);
    assert(node_key(n) == Ok::<Lexeme, ParseError>(symbol("net"@)));
    lemma_find(n, "node"@);
    let nodes = find(n, symbol("node"@)).unwrap();
    assert forall|i: int| 0 <= i < nodes.len() implies tidy(#[trigger] nodes[i]) && solid(nodes[i])
        && names_some(nodes[i], comps) by {
        assert(nodes.contains(nodes[i]));
        lemma_turns_up_solid(n, "node"@, nodes[i]);
    }
    let net = net_header(n).unwrap().0;
    lemma_nodes_are_read(comps, nodes, net);
}

} // verus!
