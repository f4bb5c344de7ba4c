//! What is read from the tree of an export, said of the lists that stand in it.
use vstd::prelude::*;

use super::error::ParseError;
use super::kicad_parser::{children, completed_pin, component_of, find, find_from, lib_and_part};
use super::kicad_parser::{libpart_of, lists_keyed, maybe_child, maybe_value, node_key, node_val};
use super::kicad_parser::{only_child, only_value, parts_named, pin_numbered, pins_below, pins_of};
use super::kicad_parser::{solid, source_of, symbol, unescaped, values_of, Node};
use super::kicad_scanner::Lexeme;
use super::netlist::{ComponentModel, PinModel};

verus! {

/// The node is a list that starts with the word.
pub open spec fn headed(n: Node, word: Seq<char>) -> bool {
    n matches Node::List(s) && s.len() > 0 && s[0] == Node::Atom(Lexeme::Symbol(word))
}

/// The node is the word and a quoted text.
pub open spec fn pair(word: Seq<char>, text: Seq<char>) -> Node {
    Node::List(seq![Node::Atom(Lexeme::Symbol(word)), Node::Atom(Lexeme::Value(text))])
}

/// `x` stands in the list `n`, behind its head, at place `i`.
pub open spec fn stands_at(n: Node, i: int, x: Node) -> bool {
    n matches Node::List(s) && 1 <= i < s.len() && s[i] == x
}

/// The one list in `n` that starts with the word is `x`.
pub open spec fn sole_list(n: Node, word: Seq<char>, x: Node) -> bool {
    exists|i: int| #[trigger]
        stands_at(n, i, x) && headed(x, word) && forall|j: int, y: Node| #[trigger]
            stands_at(n, j, y) && headed(y, word) ==> j == i
}

/// The one list in `n` that starts with the word gives the text.
pub open spec fn gives(n: Node, word: Seq<char>, text: Seq<char>) -> bool {
    sole_list(n, word, pair(word, text))
}

/// No list in `n` starts with the word.
pub open spec fn lacks(n: Node, word: Seq<char>) -> bool {
    forall|j: int, y: Node| #[trigger] stands_at(n, j, y) ==> !headed(y, word)
}

/// Reading lists by their head keeps those with that head, in order.
pub proof fn lemma_lists_keyed(s: Seq<Node>, word: Seq<char>)
    requires
        forall|i: int| 0 <= i < s.len() ==> solid(#[trigger] s[i]),
        lists_keyed(s, symbol(word)) is Ok,
    ensures
        ({
            let found = lists_keyed(s, symbol(word)).unwrap();
            &&& forall|k: int|
                0 <= k < found.len() ==> headed(#[trigger] found[k], word) && s.contains(found[k])
            &&& found.len() == 0 ==> forall|i: int|
                0 <= i < s.len() ==> !headed(#[trigger] s[i], word)
            &&& found.len() == 1 ==> exists|i: int|
                {
                    &&& 0 <= i < s.len()
                    &&& #[trigger] s[i] == found[0]
                    &&& forall|j: int|
                        0 <= j < s.len() && headed(#[trigger] s[j], word) ==> j == i
                }
        }),
    decreases s.len(),
{
    if s.len() > 0 {
        let t = s.skip(1);
        assert forall|i: int| 0 <= i < t.len() implies solid(#[trigger] t[i]) by {
            assert(t[i] == s[i + 1]);
        }
        lemma_lists_keyed(t, word);
        assert(solid(s[0]));
        let rest = lists_keyed(t, symbol(word)).unwrap();
        let found = lists_keyed(s, symbol(word)).unwrap();
        let here = s[0] is List && node_key(s[0]) == Ok::<Lexeme, ParseError>(symbol(word));
        assert(found == (if here {
            seq![s[0]] + rest
        } else {
            rest
        }));
        assert(headed(s[0], word) ==> here);
        assert forall|k: int| 0 <= k < found.len() implies headed(#[trigger] found[k], word)
            && s.contains(found[k]) by {
            if here && k == 0 {
                assert(s[0] == found[k]);
            } else {
                let j = if here {
                    k - 1
                } else {
                    k
                };
                assert(found[k] == rest[j]);
                assert(t.contains(rest[j]));
                let i = choose|i: int| 0 <= i < t.len() && t[i] == rest[j];
                assert(s[i + 1] == found[k]);
            }
        }
        if found.len() == 0 {
            assert forall|i: int| 0 <= i < s.len() implies !headed(#[trigger] s[i], word) by {
                if i > 0 {
                    assert(s[i] == t[i - 1]);
                }
            }
        }
        if found.len() == 1 {
            if here {
                assert(rest.len() == 0);
                assert(s[0] == found[0]);
                assert forall|j: int| 0 <= j < s.len() && headed(#[trigger] s[j], word) implies j
                    == 0 by {
                    if j > 0 {
                        assert(s[j] == t[j - 1]);
                    }
                }
            } else {
                let i = choose|i: int|
                    {
                        &&& 0 <= i < t.len()
                        &&& #[trigger] t[i] == rest[0]
                        &&& forall|j: int|
                            0 <= j < t.len() && headed(#[trigger] t[j], word) ==> j == i
                    };
                assert(s[i + 1] == found[0]);
                assert forall|j: int| 0 <= j < s.len() && headed(#[trigger] s[j], word) implies j
                    == i + 1 by {
                    if j > 0 {
                        assert(s[j] == t[j - 1]);
                    }
                }
            }
        }
    }
}

/// A child that is asked for alone is the only one with its head.
pub proof fn lemma_only_child(n: Node, word: Seq<char>)
    requires
        solid(n),
    ensures
        only_child(n, symbol(word)) matches Ok(x) ==> sole_list(n, word, x) && solid(x),
        maybe_child(n, symbol(word)) matches Ok(o) ==> match o {
            Some(x) => sole_list(n, word, x) && solid(x),
            None => lacks(n, word),
        },
{
    if let Ok(found) = children(n, symbol(word)) {
        if let Node::List(s) = n {
            let t = s.skip(1);
            assert forall|i: int| 0 <= i < t.len() implies solid(#[trigger] t[i]) && t[i] == s[i
                + 1] by {
                assert(solid(s[i + 1]));
            }
            lemma_lists_keyed(t, word);
            if found.len() == 1 {
                let i = choose|i: int|
                    {
                        &&& 0 <= i < t.len()
                        &&& #[trigger] t[i] == found[0]
                        &&& forall|j: int|
                            0 <= j < t.len() && headed(#[trigger] t[j], word) ==> j == i
                    };
                assert(stands_at(n, i + 1, found[0]));
                assert forall|j: int, y: Node| #[trigger]
                    stands_at(n, j, y) && headed(y, word) implies j == i + 1 by {
                    assert(t[j - 1] == y);
                }
            }
            if found.len() == 0 {
                assert forall|j: int, y: Node| #[trigger] stands_at(n, j, y) implies !headed(
                    y,
                    word,
                ) by {
                    assert(t[j - 1] == y);
                }
            }
        }
    }
}

/// A value that is read is given by the only list with its head; where none is read, there
/// is no such list.
pub proof fn lemma_value_read(n: Node, word: Seq<char>)
    requires
        solid(n),
    ensures
        only_value(n, symbol(word)) matches Ok(v) ==> gives(n, word, v),
        maybe_value(n, symbol(word)) matches Ok(o) ==> match o {
            Some(v) => gives(n, word, v),
            None => lacks(n, word),
        },
{
    lemma_only_child(n, word);
    if let Ok(found) = children(n, symbol(word)) {
        if let Ok(vals) = values_of(found) {
            lemma_values_of(found);
            if vals.len() == 1 {
                assert(only_child(n, symbol(word)) == Ok::<Node, ParseError>(found[0]));
                assert(node_val(found[0]) == Ok::<Seq<char>, ParseError>(vals[0]));
                if let Node::List(s) = found[0] {
                    assert(s.len() == 2);
                    assert(headed(found[0], word));
                    assert(s =~= seq![
                        Node::Atom(Lexeme::Symbol(word)),
                        Node::Atom(Lexeme::Value(vals[0])),
                    ]);
                    assert(found[0] == pair(word, vals[0]));
                }
            }
            if vals.len() == 0 {
                assert(maybe_child(n, symbol(word)) == Ok::<Option<Node>, ParseError>(None));
            }
        }
    }
}

proof fn lemma_values_of(s: Seq<Node>)
    requires
        values_of(s) is Ok,
    ensures
        values_of(s).unwrap().len() == s.len(),
        forall|i: int|
            0 <= i < s.len() ==> node_val(#[trigger] s[i]) == Ok::<Seq<char>, ParseError>(
                values_of(s).unwrap()[i],
            ),
    decreases s.len(),
{
    if s.len() > 0 {
        let t = s.skip(1);
        lemma_values_of(t);
        let all = values_of(s).unwrap();
        assert forall|i: int| 0 <= i < s.len() implies node_val(#[trigger] s[i]) == Ok::<
            Seq<char>,
            ParseError,
        >(all[i]) by {
            if i > 0 {
                assert(t[i - 1] == s[i]);
            }
        }
    }
}

/// `x` is `n` or stands somewhere in it, under lists that do not start with the word, and
/// is itself a list that does or that word alone.
pub open spec fn turns_up(n: Node, word: Seq<char>, x: Node) -> bool
    decreases n,
{
    match n {
        Node::Atom(t) => t == Lexeme::Symbol(word) && x == n,
        Node::List(s) => match node_key(n) {
            Err(_) => false,
            Ok(k) => if k == Lexeme::Symbol(word) {
                x == n
            } else {
                exists|i: int| 1 <= i < s.len() && turns_up(#[trigger] s[i], word, x)
            },
        },
    }
}

/// A search finds what turns up and nothing else.
pub proof fn lemma_find(n: Node, word: Seq<char>)
    ensures
        match find(n, symbol(word)) {
            Ok(found) => forall|x: Node| #[trigger] found.contains(x) <==> turns_up(n, word, x),
            Err(_) => forall|x: Node| !#[trigger] turns_up(n, word, x),
        },
    decreases n, 0nat,
{
    match n {
        Node::Atom(t) => {
            if t == symbol(word) {
                let found = seq![n];
                assert(find(n, symbol(word)) == Ok::<Seq<Node>, ParseError>(found));
                assert forall|x: Node| #[trigger] found.contains(x) <==> turns_up(n, word, x) by {
                    assert(found[0] == n);
                }
            } else {
                assert(find(n, symbol(word)) is Err);
                assert forall|x: Node| !#[trigger] turns_up(n, word, x) by {}
            }
        },
        Node::List(s) => {
            match node_key(n) {
                Err(_) => {
                    assert(find(n, symbol(word)) is Err);
                    assert forall|x: Node| !#[trigger] turns_up(n, word, x) by {}
                },
                Ok(k) => {
                    if k == symbol(word) {
                        let found = seq![n];
                        assert(find(n, symbol(word)) == Ok::<Seq<Node>, ParseError>(found));
                        assert forall|x: Node| #[trigger] found.contains(x) <==> turns_up(
                            n,
                            word,
                            x,
                        ) by {
                            assert(found[0] == n);
                        }
                    } else {
                        lemma_find_from(s, 1, word);
                        let found = find_from(s, 1, symbol(word));
                        assert(find(n, symbol(word)) == Ok::<Seq<Node>, ParseError>(found));
                        assert forall|x: Node| #[trigger] found.contains(x) <==> turns_up(
                            n,
                            word,
                            x,
                        ) by {}
                    }
                },
            }
        },
    }
}

proof fn lemma_find_from(s: Seq<Node>, at: int, word: Seq<char>)
    requires
        0 <= at,
    ensures
        forall|x: Node| #[trigger]
            find_from(s, at, symbol(word)).contains(x) <==> exists|i: int|
                at <= i < s.len() && turns_up(#[trigger] s[i], word, x),
    decreases s, s.len() - at,
{
    let all = find_from(s, at, symbol(word));
    if at < s.len() {
        lemma_find_from(s, at + 1, word);
        lemma_find(s[at], word);
        let rest = find_from(s, at + 1, symbol(word));
        assert forall|x: Node| #[trigger] all.contains(x) <==> exists|i: int|
            at <= i < s.len() && turns_up(#[trigger] s[i], word, x) by {
            match find(s[at], symbol(word)) {
                Ok(found) => {
                    assert(all == found + rest);
                    if all.contains(x) {
                        let k = choose|k: int| 0 <= k < all.len() && all[k] == x;
                        if k < found.len() {
                            assert(found[k] == x);
                            assert(found.contains(x));
                            assert(turns_up(s[at], word, x));
                        } else {
                            assert(rest[k - found.len()] == x);
                            assert(rest.contains(x));
                        }
                    }
                    if found.contains(x) {
                        let k = choose|k: int| 0 <= k < found.len() && found[k] == x;
                        assert(all[k] == x);
                    }
                    if rest.contains(x) {
                        let k = choose|k: int| 0 <= k < rest.len() && rest[k] == x;
                        assert(all[found.len() + k] == x);
                    }
                },
                Err(_) => {
                    assert(all == rest);
                },
            }
        }
    }
}

/// What is read of a part's own fields: each is given by the only list with its word, and
/// absent where there is none. The value and the description have their escapes resolved.
pub proof fn lemma_component_read(node: Node, base: Node, m: ComponentModel)
    requires
        solid(node),
        component_of(node, base) == Ok::<ComponentModel, ParseError>(m),
    ensures
        node_key(node) == Ok::<Lexeme, ParseError>(Lexeme::Symbol("comp"@)),
        gives(node, "ref"@, m.refdes),
        exists|v: Seq<char>| #[trigger] gives(node, "value"@, v) && m.value == unescaped(v),
        match m.footprint {
            Some(v) => gives(node, "footprint"@, v),
            None => lacks(node, "footprint"@),
        },
        match m.description {
            Some(t) => exists|v: Seq<char>| #[trigger]
                gives(node, "description"@, v) && t == unescaped(v),
            None => lacks(node, "description"@),
        },
        match m.sheet {
            Some(v) => exists|path: Node| #[trigger]
                sole_list(node, "sheetpath"@, path) && gives(path, "names"@, v),
            None => lacks(node, "sheetpath"@),
        },
{
    lemma_value_read(node, "ref"@);
    lemma_value_read(node, "value"@);
    lemma_value_read(node, "footprint"@);
    lemma_value_read(node, "description"@);
    lemma_only_child(node, "sheetpath"@);
    if let Ok(Some(path)) = maybe_child(node, symbol("sheetpath"@)) {
        lemma_value_read(path, "names"@);
        if let Ok(v) = only_value(path, symbol("names"@)) {
            assert(gives(path, "names"@, v));
        }
    }
}

/// The node names the library and the part.
pub open spec fn names_part(n: Node, lib: Seq<char>, part: Seq<char>) -> bool {
    gives(n, "lib"@, lib) && gives(n, "part"@, part)
}

proof fn lemma_lib_and_part(n: Node)
    requires
        solid(n),
    ensures
        lib_and_part(n) matches Ok((lib, part)) ==> names_part(n, lib, part),
{
    lemma_value_read(n, "lib"@);
    lemma_value_read(n, "part"@);
}

pub proof fn lemma_gives_once(n: Node, word: Seq<char>, a: Seq<char>, b: Seq<char>)
    requires
        gives(n, word, a),
        gives(n, word, b),
    ensures
        a == b,
{
    let i = choose|i: int| #[trigger]
        stands_at(n, i, pair(word, a)) && headed(pair(word, a), word) && forall|j: int, y: Node|
            #[trigger]
            stands_at(n, j, y) && headed(y, word) ==> j == i;
    let k = choose|k: int| #[trigger]
        stands_at(n, k, pair(word, b)) && headed(pair(word, b), word) && forall|j: int, y: Node|
            #[trigger]
            stands_at(n, j, y) && headed(y, word) ==> j == k;
    assert(i == k);
    assert(pair(word, a) == pair(word, b));
    let x = pair(word, a)->List_0;
    let y = pair(word, b)->List_0;
    assert(x[1] == Node::Atom(Lexeme::Value(a)) && y[1] == Node::Atom(Lexeme::Value(b)));
}

proof fn lemma_parts_named(s: Seq<Node>, which: (Seq<char>, Seq<char>))
    requires
        forall|i: int| 0 <= i < s.len() ==> solid(#[trigger] s[i]),
        parts_named(s, which) is Ok,
    ensures
        forall|x: Node| #[trigger]
            parts_named(s, which).unwrap().contains(x) <==> s.contains(x) && names_part(
                x,
                which.0,
                which.1,
            ),
    decreases s.len(),
{
    if s.len() > 0 {
        let t = s.skip(1);
        assert forall|i: int| 0 <= i < t.len() implies solid(#[trigger] t[i]) by {
            assert(t[i] == s[i + 1]);
        }
        lemma_parts_named(t, which);
        assert(solid(s[0]));
        lemma_lib_and_part(s[0]);
        let rest = parts_named(t, which).unwrap();
        let all = parts_named(s, which).unwrap();
        let id = lib_and_part(s[0]).unwrap();
        assert(id == which <==> names_part(s[0], which.0, which.1)) by {
            if names_part(s[0], which.0, which.1) {
                lemma_gives_once(s[0], "lib"@, id.0, which.0);
                lemma_gives_once(s[0], "part"@, id.1, which.1);
            }
        }
        assert(all == (if id == which {
            seq![s[0]] + rest
        } else {
            rest
        }));
        assert forall|x: Node| #[trigger] all.contains(x) <==> s.contains(x) && names_part(
            x,
            which.0,
            which.1,
        ) by {
            if all.contains(x) {
                let k = choose|k: int| 0 <= k < all.len() && all[k] == x;
                if id == which {
                    if k == 0 {
                        assert(s[0] == x);
                    } else {
                        assert(rest[k - 1] == x);
                        assert(rest.contains(x));
                    }
                } else {
                    assert(rest.contains(x));
                }
                if rest.contains(x) {
                    let i = choose|i: int| 0 <= i < t.len() && t[i] == x;
                    assert(s[i + 1] == x);
                }
            }
            if s.contains(x) && names_part(x, which.0, which.1) {
                let i = choose|i: int| 0 <= i < s.len() && s[i] == x;
                if i == 0 {
                    assert(all[0] == x);
                } else {
                    assert(t[i - 1] == x);
                    assert(t.contains(x));
                    assert(rest.contains(x));
                    let k = choose|k: int| 0 <= k < rest.len() && rest[k] == x;
                    if id == which {
                        assert(all[k + 1] == x);
                    }
                }
            }
        }
    }
}

/// The pins that a list of nodes gives, one each.
proof fn lemma_pins_of(s: Seq<Node>)
    requires
        forall|i: int| 0 <= i < s.len() ==> solid(#[trigger] s[i]),
        pins_of(s) is Ok,
    ensures
        pins_of(s).unwrap().len() == s.len(),
        forall|i: int|
            0 <= i < s.len() ==> pin_read(#[trigger] s[i], pins_of(s).unwrap()[i]),
    decreases s.len(),
{
    if s.len() > 0 {
        let t = s.skip(1);
        assert forall|i: int| 0 <= i < t.len() implies solid(#[trigger] t[i]) by {
            assert(t[i] == s[i + 1]);
        }
        lemma_pins_of(t);
        assert(solid(s[0]));
        lemma_value_read(s[0], "num"@);
        lemma_value_read(s[0], "name"@);
        lemma_value_read(s[0], "type"@);
        let all = pins_of(s).unwrap();
        assert forall|i: int| 0 <= i < s.len() implies pin_read(#[trigger] s[i], all[i]) by {
            if i > 0 {
                assert(t[i - 1] == s[i]);
            }
        }
    }
}

/// The pin is what its node gives: its number, and its name and type where they are there.
pub open spec fn pin_read(n: Node, p: PinModel) -> bool {
    &&& gives(n, "num"@, p.number)
    &&& match p.name {
        Some(v) => gives(n, "name"@, v),
        None => lacks(n, "name"@),
    }
    &&& match p.pin_type {
        Some(v) => gives(n, "type"@, v),
        None => lacks(n, "type"@),
    }
    &&& p.net is None
}

/// The pins are those of the nodes that turn up under `pin`, one each.
pub open spec fn pins_read(n: Node, pins: Seq<PinModel>, nodes: Seq<Node>) -> bool {
    &&& nodes.len() == pins.len()
    &&& forall|x: Node| #[trigger] nodes.contains(x) <==> turns_up(n, "pin"@, x)
    &&& forall|i: int| 0 <= i < pins.len() ==> pin_read(#[trigger] nodes[i], pins[i])
}

/// What turns up in a tree without empty lists is such a tree.
pub proof fn lemma_turns_up_solid(n: Node, word: Seq<char>, x: Node)
    requires
        solid(n),
        turns_up(n, word, x),
    ensures
        solid(x),
    decreases n,
{
    if let Node::List(s) = n {
        if x != n {
            let i = choose|i: int| 1 <= i < s.len() && turns_up(#[trigger] s[i], word, x);
            assert(solid(s[i]));
            lemma_turns_up_solid(s[i], word, x);
        }
    }
}

proof fn lemma_pins_below(n: Node) -> (nodes: Seq<Node>)
    requires
        solid(n),
        pins_below(n) is Ok,
    ensures
        pins_read(n, pins_below(n).unwrap(), nodes),
{
    lemma_find(n, "pin"@);
    let nodes = find(n, symbol("pin"@)).unwrap();
    assert forall|i: int| 0 <= i < nodes.len() implies solid(#[trigger] nodes[i]) by {
        assert(nodes.contains(nodes[i]));
        lemma_turns_up_solid(n, "pin"@, nodes[i]);
    }
    lemma_pins_of(nodes);
    nodes
}

/// A pin keeps what it says itself, and has from the library's first pin of its number
/// what it does not say.
pub open spec fn filled_in(own: PinModel, lib: Seq<PinModel>, p: PinModel) -> bool {
    &&& p.number == own.number
    &&& p.net == own.net
    &&& own.name is Some ==> p.name == own.name
    &&& own.pin_type is Some ==> p.pin_type == own.pin_type
    &&& forall|k: int|
        first_numbered(lib, own.number, k) ==> (own.name is None ==> p.name == (
        #[trigger] lib[k]).name) && (own.pin_type is None ==> p.pin_type == lib[k].pin_type)
    &&& (forall|k: int| 0 <= k < lib.len() ==> (#[trigger] lib[k]).number != own.number) ==> p.name
        == own.name && p.pin_type == own.pin_type
}

/// The pin at place `k` is the first of the number.
pub open spec fn first_numbered(pins: Seq<PinModel>, number: Seq<char>, k: int) -> bool {
    &&& 0 <= k < pins.len() && pins[k].number == number
    &&& forall|j: int| 0 <= j < k ==> (#[trigger] pins[j]).number != number
}

pub proof fn lemma_pin_numbered(pins: Seq<PinModel>, number: Seq<char>)
    ensures
        match pin_numbered(pins, number) {
            Some(k) => first_numbered(pins, number, k),
            None => forall|j: int| 0 <= j < pins.len() ==> (#[trigger] pins[j]).number != number,
        },
    decreases pins.len(),
{
    if pins.len() > 0 && pins[0].number != number {
        let t = pins.skip(1);
        lemma_pin_numbered(t, number);
        match pin_numbered(t, number) {
            Some(k) => {
                assert(t[k] == pins[k + 1]);
                assert forall|j: int| 0 <= j < k + 1 implies (
                #[trigger] pins[j]).number != number by {
                    if j > 0 {
                        assert(t[j - 1] == pins[j]);
                    }
                }
            },
            None => {
                assert forall|j: int| 0 <= j < pins.len() implies (
                #[trigger] pins[j]).number != number by {
                    if j > 0 {
                        assert(t[j - 1] == pins[j]);
                    }
                }
            },
        }
    }
}

proof fn lemma_filled_in(own: PinModel, lib: Seq<PinModel>)
    ensures
        filled_in(own, lib, completed_pin(own, lib)),
{
    lemma_pin_numbered(lib, own.number);
    let p = completed_pin(own, lib);
    assert forall|k: int| first_numbered(lib, own.number, k) implies (own.name is None ==> p.name
        == (#[trigger] lib[k]).name) && (own.pin_type is None ==> p.pin_type
        == lib[k].pin_type) by {
        match pin_numbered(lib, own.number) {
            Some(i) => {
                if i < k {
                    assert(lib[i].number != own.number);
                }
                if k < i {
                    assert(lib[k].number != own.number);
                }
            },
            None => {},
        }
    }
}

/// The parts of a component's reading that speak of its pins: the library part that it
/// was placed from, the one of that name in the export, and the nodes of either's pins.
pub struct PinSource {
    pub lib: Seq<char>,
    pub part: Seq<char>,
    pub source: Node,
    pub libparts: Node,
    pub libpart: Node,
    pub lib_pins: Seq<PinModel>,
    pub lib_nodes: Seq<Node>,
    pub own_pins: Seq<PinModel>,
    pub own_nodes: Seq<Node>,
}

/// A component has a pin for each of its nodes that turns up, filled in from the pins of
/// the library part that it names, which is the one of that name in the export.
pub open spec fn pins_sourced(node: Node, base: Node, m: ComponentModel, s: PinSource) -> bool {
    &&& sole_list(node, "libsource"@, s.source) && names_part(s.source, s.lib, s.part)
    &&& sole_list(base, "libparts"@, s.libparts)
    &&& headed(s.libpart, "libpart"@) && names_part(s.libpart, s.lib, s.part)
    &&& exists|i: int| #[trigger] stands_at(s.libparts, i, s.libpart)
    &&& pins_read(s.libpart, s.lib_pins, s.lib_nodes)
    &&& pins_read(node, s.own_pins, s.own_nodes)
    &&& m.pins.len() == s.own_pins.len()
    &&& forall|i: int|
        0 <= i < m.pins.len() ==> filled_in(s.own_pins[i], s.lib_pins, #[trigger] m.pins[i])
}

/// The pins of a component come from its own nodes, and what they do not say from the
/// library part that it was placed from.
pub proof fn lemma_component_pins_read(node: Node, base: Node, m: ComponentModel) -> (s: PinSource)
    requires
        solid(node),
        solid(base),
        component_of(node, base) == Ok::<ComponentModel, ParseError>(m),
    ensures
        pins_sourced(node, base, m, s),
{
    let which = source_of(node).unwrap();
    let source = only_child(node, symbol("libsource"@)).unwrap();
    let libparts = only_child(base, symbol("libparts"@)).unwrap();
    let libpart = libpart_of(base, which).unwrap();
    let lib_pins = pins_below(libpart).unwrap();
    let own_pins = pins_below(node).unwrap();
    lemma_only_child(node, "libsource"@);
    lemma_only_child(base, "libparts"@);
    lemma_lib_and_part(source);
    let all = children(libparts, symbol("libpart"@)).unwrap();
    let found = parts_named(all, which).unwrap();
    let list = libparts->List_0;
    let below = list.skip(1);
    assert forall|i: int| 0 <= i < below.len() implies solid(#[trigger] below[i]) by {
        assert(below[i] == list[i + 1]);
        assert(solid(list[i + 1]));
    }
    lemma_lists_keyed(below, "libpart"@);
    assert forall|i: int| 0 <= i < all.len() implies solid(#[trigger] all[i]) by {
        assert(below.contains(all[i]));
        let k = choose|k: int| 0 <= k < below.len() && below[k] == all[i];
        assert(solid(below[k]));
    }
    lemma_parts_named(all, which);
    assert(found.contains(found[0]));
    assert(all.contains(libpart));
    let k = choose|k: int| 0 <= k < all.len() && all[k] == libpart;
    assert(headed(all[k], "libpart"@) && below.contains(all[k]) && solid(all[k]));
    let i = choose|i: int| 0 <= i < below.len() && below[i] == libpart;
    assert(list[i + 1] == libpart);
    assert(stands_at(libparts, i + 1, libpart));
    let lib_nodes = lemma_pins_below(libpart);
    let own_nodes = lemma_pins_below(node);
    assert forall|j: int| 0 <= j < m.pins.len() implies filled_in(
        own_pins[j],
        lib_pins,
        #[trigger] m.pins[j],
    ) by {
        lemma_filled_in(own_pins[j], lib_pins);
    }
    PinSource {
        lib: which.0,
        part: which.1,
        source,
        libparts,
        libpart,
        lib_pins,
        lib_nodes,
        own_pins,
        own_nodes,
    }
}

/// The lists with a head are all given, in the order in which they stand.
pub proof fn lemma_keyed_in_order(s: Seq<Node>, word: Seq<char>) -> (at: Seq<int>)
    requires
        forall|i: int| 0 <= i < s.len() ==> solid(#[trigger] s[i]),
        lists_keyed(s, symbol(word)) is Ok,
    ensures
        at.len() == lists_keyed(s, symbol(word)).unwrap().len(),
        forall|k: int|
            0 <= k < at.len() ==> 0 <= #[trigger] at[k] < s.len() && headed(s[at[k]], word)
                && s[at[k]] == lists_keyed(s, symbol(word)).unwrap()[k],
        forall|k: int, m: int| 0 <= k < m < at.len() ==> #[trigger] at[k] < #[trigger] at[m],
        forall|i: int| 0 <= i < s.len() && headed(#[trigger] s[i], word) ==> at.contains(i),
    decreases s.len(),
{
    if s.len() == 0 {
        Seq::empty()
    } else {
        let t = s.skip(1);
        assert forall|i: int| 0 <= i < t.len() implies solid(#[trigger] t[i]) && t[i] == s[i
            + 1] by {
            assert(solid(s[i + 1]));
        }
        assert(solid(s[0]));
        let later = lemma_keyed_in_order(t, word);
        let rest = lists_keyed(t, symbol(word)).unwrap();
        let found = lists_keyed(s, symbol(word)).unwrap();
        let here = headed(s[0], word);
        assert(found == (if here {
            seq![s[0]] + rest
        } else {
            rest
        }));
        let moved = later.map_values(|i: int| i + 1);
        let at = if here {
            seq![0int] + moved
        } else {
            moved
        };
        assert forall|k: int| 0 <= k < at.len() implies 0 <= #[trigger] at[k] < s.len() && headed(
            s[at[k]],
            word,
        ) && s[at[k]] == found[k] by {
            if here && k == 0 {
            } else {
                let m = if here {
                    k - 1
                } else {
                    k
                };
                assert(at[k] == later[m] + 1);
                assert(t[later[m]] == s[at[k]]);
                assert(found[k] == rest[m]);
            }
        }
        assert forall|k: int, m: int| 0 <= k < m < at.len() implies #[trigger] at[k]
            < #[trigger] at[m] by {
            if here {
                assert(at[m] == later[m - 1] + 1);
                if k > 0 {
                    assert(at[k] == later[k - 1] + 1);
                }
            } else {
                assert(at[k] == later[k] + 1 && at[m] == later[m] + 1);
            }
        }
        assert forall|i: int| 0 <= i < s.len() && headed(#[trigger] s[i], word) implies at.contains(
            i,
        ) by {
            if i == 0 {
                assert(at[0] == 0);
            } else {
                assert(t[i - 1] == s[i]);
                assert(later.contains(i - 1));
                let k = choose|k: int| 0 <= k < later.len() && later[k] == i - 1;
                if here {
                    assert(at[k + 1] == i);
                } else {
                    assert(at[k] == i);
                }
            }
        }
        at
    }
}

/// A search through a list of lists that all start with the word finds them in the order
/// in which they stand.
pub proof fn lemma_find_in_order(head: Seq<char>, kids: Seq<Node>, word: Seq<char>)
    requires
        head != word,
        forall|i: int| 0 <= i < kids.len() ==> headed(#[trigger] kids[i], word),
    ensures
        find(Node::List(seq![Node::Atom(Lexeme::Symbol(head))] + kids), symbol(word)) == Ok::<
            Seq<Node>,
            ParseError,
        >(kids),
{
    let s = seq![Node::Atom(Lexeme::Symbol(head))] + kids;
    assert(s[0] == Node::Atom(Lexeme::Symbol(head)));
    lemma_find_all(s, 1, word);
    assert(s.skip(1) =~= kids);
}

proof fn lemma_find_all(s: Seq<Node>, at: int, word: Seq<char>)
    requires
        1 <= at <= s.len(),
        forall|i: int| 1 <= i < s.len() ==> headed(#[trigger] s[i], word),
    ensures
        find_from(s, at, symbol(word)) == s.skip(at),
    decreases s.len() - at,
{
    if at < s.len() {
        lemma_find_all(s, at + 1, word);
        assert(headed(s[at], word));
        assert(node_key(s[at]) == Ok::<Lexeme, ParseError>(symbol(word)));
        assert(find(s[at], symbol(word)) == Ok::<Seq<Node>, ParseError>(seq![s[at]]));
        assert(seq![s[at]] + s.skip(at + 1) =~= s.skip(at));
    } else {
        assert(s.skip(at) =~= Seq::<Node>::empty());
    }
}

} // verus!
