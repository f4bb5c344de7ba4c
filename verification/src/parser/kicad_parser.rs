//! The node tree of an export, and the netlist it describes.
use vstd::prelude::*;

use super::error::{NetlistError, NetlistFault, ParseError};
use super::kicad_scanner::{all_tokens, lexemes, scan_all, Lexeme, Token};
use super::netlist;
use super::netlist::{component_models, net_models, opt_text, pin_models, property_texts};
use super::netlist::{ComponentModel, NetModel, NetlistModel, PinModel};
use crate::table::{table_of, Table};
use crate::text::{chars_of, copy_text, parse_unsigned, same_text, text_of, texts, unsigned_value};

verus! {

#[derive(Debug, PartialEq)]
pub enum NetListNode {
    Atom(Token),
    List(Vec<NetListNode>),
}

/// A node as the tree of its lexemes.
pub enum Node {
    Atom(Lexeme),
    List(Seq<Node>),
}

impl View for NetListNode {
    type V = Node;

    open spec fn view(&self) -> Node {
        self.model()
    }
}

impl NetListNode {
    pub open spec fn model(self) -> Node
        decreases self,
    {
        match self {
            NetListNode::Atom(t) => Node::Atom(t@),
            NetListNode::List(v) => Node::List(
                Seq::new(
                    v@.len(),
                    |i: int|
                        if 0 <= i < v@.len() {
                            v@[i].model()
                        } else {
                            Node::List(Seq::empty())
                        },
                ),
            ),
        }
    }
}

/// The contents of a list of nodes.
pub open spec fn models(v: Seq<NetListNode>) -> Seq<Node> {
    v.map_values(|n: NetListNode| n@)
}

/// The contents of a list of borrowed nodes.
pub open spec fn ref_models(v: Seq<&NetListNode>) -> Seq<Node> {
    v.map_values(|n: &NetListNode| n@)
}

/// No list in the tree is empty.
pub open spec fn solid(n: Node) -> bool
    decreases n,
{
    match n {
        Node::Atom(_) => true,
        Node::List(s) => s.len() > 0 && forall|i: int| 0 <= i < s.len() ==> solid(#[trigger] s[i]),
    }
}

/// Each list among `s`, up to the first without a symbol at its head, has a head.
pub open spec fn heads_readable(s: Seq<Node>) -> bool
    decreases s.len(),
{
    s.len() == 0 || match s[0] {
        Node::Atom(_) => heads_readable(s.skip(1)),
        Node::List(t) => t.len() > 0 && (node_key(s[0]) is Err || heads_readable(s.skip(1))),
    }
}

/// The children of a node can be looked through for a key.
pub open spec fn children_readable(n: Node) -> bool {
    n matches Node::List(s) ==> s.len() > 0 && heads_readable(s.skip(1))
}

/// The tree can be searched for a key: no empty list is met before the nodes that begin
/// with it.
pub open spec fn searchable(n: Node, key: Lexeme) -> bool
    decreases n,
{
    match n {
        Node::Atom(_) => true,
        Node::List(s) => s.len() > 0 && (node_key(n) matches Ok(k) ==> k == key || forall|i: int|
            1 <= i < s.len() ==> searchable(#[trigger] s[i], key)),
    }
}

proof fn lemma_solid_heads(s: Seq<Node>)
    requires
        forall|i: int| 0 <= i < s.len() ==> solid(#[trigger] s[i]),
    ensures
        heads_readable(s),
    decreases s.len(),
{
    if s.len() > 0 {
        assert(solid(s[0]));
        assert forall|i: int| 0 <= i < s.skip(1).len() implies solid(#[trigger] s.skip(1)[i]) by {
            assert(s.skip(1)[i] == s[i + 1]);
        }
        lemma_solid_heads(s.skip(1));
    }
}

/// The children of a node in a tree without empty lists can be looked through.
proof fn lemma_solid_children(n: Node)
    requires
        solid(n),
    ensures
        children_readable(n),
{
    if let Node::List(s) = n {
        let rest = s.skip(1);
        assert forall|i: int| 0 <= i < rest.len() implies solid(#[trigger] rest[i]) by {
            assert(rest[i] == s[i + 1]);
        }
        lemma_solid_heads(rest);
    }
}

/// A tree without empty lists can be searched.
proof fn lemma_solid_searchable(n: Node, key: Lexeme)
    requires
        solid(n),
    ensures
        searchable(n, key),
    decreases n,
{
    if let Node::List(s) = n {
        assert forall|i: int| 1 <= i < s.len() implies searchable(#[trigger] s[i], key) by {
            lemma_solid_searchable(s[i], key);
        }
    }
}

pub open spec fn symbol(name: Seq<char>) -> Lexeme {
    Lexeme::Symbol(name)
}

/// The symbol that a list begins with.
pub open spec fn node_key(n: Node) -> Result<Lexeme, ParseError> {
    match n {
        Node::Atom(_) => Err(ParseError::NotList),
        Node::List(s) => match s[0] {
            Node::List(_) => Err(ParseError::KeyNotAtom),
            Node::Atom(t) => match t {
                Lexeme::Symbol(_) => Ok(t),
                _ => Err(ParseError::KeyNotSymbol),
            },
        },
    }
}

/// The quoted string of a two-element list.
pub open spec fn node_val(n: Node) -> Result<Seq<char>, ParseError> {
    match n {
        Node::Atom(_) => Err(ParseError::NotList),
        Node::List(s) => if s.len() != 2 {
            Err(ParseError::NotTwoElements)
        } else {
            match s[1] {
                Node::List(_) => Err(ParseError::ValueNotAtom),
                Node::Atom(t) => match t {
                    Lexeme::Value(v) => Ok(v),
                    _ => Err(ParseError::ValueNotQuoted),
                },
            }
        },
    }
}

/// The lists among `s` that begin with `key`, or the first error that a list
/// without a symbol at its head gives.
pub open spec fn lists_keyed(s: Seq<Node>, key: Lexeme) -> Result<Seq<Node>, ParseError>
    decreases s.len(),
{
    if s.len() == 0 {
        Ok(Seq::empty())
    } else {
        let rest = lists_keyed(s.skip(1), key);
        match s[0] {
            Node::Atom(_) => rest,
            Node::List(_) => match node_key(s[0]) {
                Err(e) => Err(e),
                Ok(k) => if k == key {
                    match rest {
                        Ok(more) => Ok(seq![s[0]] + more),
                        Err(e) => Err(e),
                    }
                } else {
                    rest
                },
            },
        }
    }
}

/// The children of a list that begin with `key`.
pub open spec fn children(n: Node, key: Lexeme) -> Result<Seq<Node>, ParseError> {
    match n {
        Node::Atom(_) => Err(ParseError::NotList),
        Node::List(s) => lists_keyed(s.skip(1), key),
    }
}

/// The outermost nodes of a tree that are, or begin with, `key`.
pub open spec fn find(n: Node, key: Lexeme) -> Result<Seq<Node>, ParseError>
    decreases n, 0nat,
{
    match n {
        Node::Atom(t) => if t == key {
            Ok(seq![n])
        } else {
            Err(ParseError::OtherLeaf)
        },
        Node::List(s) => match node_key(n) {
            Err(e) => Err(e),
            Ok(k) => if k == key {
                Ok(seq![n])
            } else {
                Ok(find_from(s, 1, key))
            },
        },
    }
}

/// What `find` gives for the nodes of `s` from place `at` on, errors left out.
pub open spec fn find_from(s: Seq<Node>, at: int, key: Lexeme) -> Seq<Node>
    decreases s, s.len() - at,
{
    if 0 <= at < s.len() {
        let rest = find_from(s, at + 1, key);
        match find(s[at], key) {
            Ok(found) => found + rest,
            Err(_) => rest,
        }
    } else {
        Seq::empty()
    }
}

/// The one child that begins with `key`.
pub open spec fn only_child(n: Node, key: Lexeme) -> Result<Node, ParseError> {
    match children(n, key) {
        Err(e) => Err(e),
        Ok(found) => if found.len() == 1 {
            Ok(found[0])
        } else {
            Err(ParseError::NotOneChild)
        },
    }
}

/// The child that begins with `key`, if there is one.
pub open spec fn maybe_child(n: Node, key: Lexeme) -> Result<Option<Node>, ParseError> {
    match children(n, key) {
        Err(e) => Err(e),
        Ok(found) => if found.len() == 0 {
            Ok(None)
        } else if found.len() == 1 {
            Ok(Some(found[0]))
        } else {
            Err(ParseError::ManyChildren)
        },
    }
}

/// The values of a list of nodes, or the first error.
pub open spec fn values_of(s: Seq<Node>) -> Result<Seq<Seq<char>>, ParseError>
    decreases s.len(),
{
    if s.len() == 0 {
        Ok(Seq::empty())
    } else {
        match node_val(s[0]) {
            Err(e) => Err(e),
            Ok(v) => match values_of(s.skip(1)) {
                Ok(more) => Ok(seq![v] + more),
                Err(e) => Err(e),
            },
        }
    }
}

/// The values of the children that begin with `key`.
pub open spec fn child_values(n: Node, key: Lexeme) -> Result<Seq<Seq<char>>, ParseError> {
    match children(n, key) {
        Err(e) => Err(e),
        Ok(found) => values_of(found),
    }
}

/// The value of the one child that begins with `key`.
pub open spec fn only_value(n: Node, key: Lexeme) -> Result<Seq<char>, ParseError> {
    match child_values(n, key) {
        Err(e) => Err(e),
        Ok(vals) => if vals.len() == 1 {
            Ok(vals[0])
        } else {
            Err(ParseError::NotOneChild)
        },
    }
}

/// The value of the child that begins with `key`, if there is one.
pub open spec fn maybe_value(n: Node, key: Lexeme) -> Result<Option<Seq<char>>, ParseError> {
    match child_values(n, key) {
        Err(e) => Err(e),
        Ok(vals) => if vals.len() == 0 {
            Ok(None)
        } else if vals.len() == 1 {
            Ok(Some(vals[0]))
        } else {
            Err(ParseError::ManyChildren)
        },
    }
}

/// The two results hold the same thing, `view` taken of the first one's value.
pub open spec fn same_error<A, B>(r: Result<A, ParseError>, s: Result<B, ParseError>) -> bool {
    match s {
        Ok(_) => r is Ok,
        Err(e) => r == Err::<A, ParseError>(e),
    }
}

impl NetListNode {
    /// The text of an atom that is no parenthesis.
    pub fn atom_as_string(&self) -> (r: Result<&String, ParseError>)
        ensures
            match self@ {
                Node::Atom(Lexeme::Symbol(t)) => r matches Ok(s) && s@ == t,
                Node::Atom(Lexeme::Value(t)) => r matches Ok(s) && s@ == t,
                Node::Atom(_) => r == Err::<&String, _>(ParseError::Parenthesis),
                Node::List(_) => r == Err::<&String, _>(ParseError::NotAtom),
            },
    {
        match self {
            NetListNode::Atom(sym) => match sym {
                Token::Symbol(str) => Ok(str),
                Token::Value(str) => Ok(str),
                Token::LParen | Token::RParen => Err(ParseError::Parenthesis),
            },
            NetListNode::List(_) => Err(ParseError::NotAtom),
        }
    }

    pub fn as_token(&self) -> (r: Result<&Token, ParseError>)
        ensures
            match self@ {
                Node::Atom(t) => r matches Ok(tok) && tok@ == t,
                Node::List(_) => r == Err::<&Token, _>(ParseError::NotAtom),
            },
    {
        match self {
            NetListNode::Atom(sym) => Ok(sym),
            NetListNode::List(_) => Err(ParseError::NotAtom),
        }
    }

    pub fn as_list(&self) -> (r: Result<&Vec<NetListNode>, ParseError>)
        ensures
            match self@ {
                Node::List(s) => r matches Ok(v) && models(v@) == s,
                Node::Atom(_) => r == Err::<&Vec<NetListNode>, _>(ParseError::NotList),
            },
    {
        match self {
            NetListNode::List(list) => {
                assert(models(list@) =~= self@->List_0);
                Ok(list)
            },
            NetListNode::Atom(_) => Err(ParseError::NotList),
        }
    }

    /// The symbol that the list begins with.
    pub fn key(&self) -> (r: Result<&Token, ParseError>)
        requires
            self@ matches Node::List(s) ==> s.len() > 0,
        ensures
            same_error(r, node_key(self@)),
            r matches Ok(t) ==> Ok::<_, ParseError>(t@) == node_key(self@),
    {
        let list = match self.as_list() {
            Ok(list) => list,
            Err(e) => return Err(e),
        };
        assert(models(list@)[0] == list@[0]@);
        match &list[0] {
            NetListNode::List(_) => Err(ParseError::KeyNotAtom),
            NetListNode::Atom(sym) => match sym {
                Token::Symbol(_) => Ok(sym),
                _ => Err(ParseError::KeyNotSymbol),
            },
        }
    }

    /// The quoted string of a two-element list.
    pub fn val(&self) -> (r: Result<&String, ParseError>)
        ensures
            same_error(r, node_val(self@)),
            r matches Ok(s) ==> Ok::<_, ParseError>(s@) == node_val(self@),
    {
        let list = match self.as_list() {
            Ok(list) => list,
            Err(e) => return Err(e),
        };
        if list.len() != 2 {
            return Err(ParseError::NotTwoElements);
        }
        assert(models(list@)[1] == list@[1]@);
        match &list[1] {
            NetListNode::List(_) => Err(ParseError::ValueNotAtom),
            NetListNode::Atom(sym) => match sym {
                Token::Value(val) => Ok(val),
                _ => Err(ParseError::ValueNotQuoted),
            },
        }
    }

    /// The elements of a list behind its first one.
    pub fn list(&self) -> (r: Result<&[NetListNode], ParseError>)
        ensures
            match self@ {
                Node::Atom(_) => r == Err::<&[NetListNode], _>(ParseError::NotList),
                Node::List(s) => if s.len() == 0 {
                    r == Err::<&[NetListNode], _>(ParseError::ShortList)
                } else {
                    r matches Ok(v) && models(v@) == s.skip(1)
                },
            },
    {
        let list = match self.as_list() {
            Ok(list) => list,
            Err(e) => return Err(e),
        };
        if list.len() == 0 {
            return Err(ParseError::ShortList);
        }
        let tail = vstd::slice::slice_subrange(list.as_slice(), 1, list.len());
        assert(models(tail@) =~= models(list@).skip(1));
        Ok(tail)
    }

    /// Whether the node is this atom.
    pub fn equals_token(&self, tok: &Token) -> (r: bool)
        ensures
            r == (self@ == Node::Atom(tok@)),
    {
        match self {
            NetListNode::Atom(sym) => sym.same(tok),
            NetListNode::List(_) => false,
        }
    }

    /// The children that begin with a token.
    pub fn get_direct_child(&self, child: &Token) -> (r: Result<Vec<&NetListNode>, ParseError>)
        requires
            children_readable(self@),
        ensures
            same_error(r, children(self@, child@)),
            r matches Ok(v) ==> {
                &&& Ok::<_, ParseError>(ref_models(v@)) == children(self@, child@)
                &&& solid(self@) ==> forall|i: int| 0 <= i < v.len() ==> solid((#[trigger] v@[i])@)
            },
    {
        let list = match self.as_list() {
            Ok(list) => list,
            Err(e) => return Err(e),
        };
        let ghost all = models(list@);
        let mut out: Vec<&NetListNode> = Vec::new();
        let mut i: usize = 1;
        proof {
            assert(ref_models(out@) =~= Seq::<Node>::empty());
            if let Ok(more) = lists_keyed(all.skip(1), child@) {
                assert(ref_models(out@) + more =~= more);
            }
        }
        while i < list.len()
            invariant
                1 <= i <= list.len(),
                all == models(list@),
                self@ == Node::List(all),
                heads_readable(all.skip(i as int)),
                solid(self@) ==> forall|k: int|
                    0 <= k < out.len() ==> solid((#[trigger] out@[k])@),
                match lists_keyed(all.skip(i as int), child@) {
                    Ok(more) => lists_keyed(all.skip(1), child@) == Ok::<_, ParseError>(
                        ref_models(out@) + more,
                    ),
                    Err(e) => lists_keyed(all.skip(1), child@) == Err::<Seq<Node>, _>(e),
                },
            decreases list.len() - i,
        {
            let ghost here = all.skip(i as int);
            assert(here[0] == list@[i as int]@);
            assert(here.skip(1) == all.skip(i + 1));
            let x = &list[i];
            assert(solid(self@) ==> solid(all[i as int]));
            match x {
                NetListNode::List(_) => match x.key() {
                    Err(e) => return Err(e),
                    Ok(n) => if n.same(child) {
                        let ghost before = ref_models(out@);
                        out.push(x);
                        proof {
                            assert(ref_models(out@) =~= before.push(x@));
                            if let Ok(more) = lists_keyed(all.skip(i + 1), child@) {
                                assert(before + (seq![here[0]] + more) =~= ref_models(out@) + more);
                            }
                        }
                    },
                },
                NetListNode::Atom(_) => {},
            }
            i += 1;
        }
        assert(ref_models(out@) + Seq::<Node>::empty() =~= ref_models(out@));
        assert(all.skip(all.len() as int).len() == 0);
        Ok(out)
    }

    /// The outermost nodes of the tree that are, or begin with, a token.
    pub fn get_child(&self, child: &Token) -> (r: Result<Vec<&NetListNode>, ParseError>)
        requires
            searchable(self@, child@),
        ensures
            same_error(r, find(self@, child@)),
            r matches Ok(v) ==> {
                &&& Ok::<_, ParseError>(ref_models(v@)) == find(self@, child@)
                &&& solid(self@) ==> forall|i: int| 0 <= i < v.len() ==> solid((#[trigger] v@[i])@)
            },
        decreases self,
    {
        match self {
            NetListNode::Atom(sym) => {
                if sym.same(child) {
                    let out: Vec<&NetListNode> = vec![self];
                    assert(ref_models(out@) =~= seq![self@]);
                    Ok(out)
                } else {
                    Err(ParseError::OtherLeaf)
                }
            },
            NetListNode::List(list) => {
                let ghost all = models(list@);
                assert(self@->List_0 =~= all);
                match self.key() {
                    Err(e) => return Err(e),
                    Ok(sym) => if sym.same(child) {
                        let out: Vec<&NetListNode> = vec![self];
                        assert(ref_models(out@) =~= seq![self@]);
                        return Ok(out);
                    },
                }
                let mut out: Vec<&NetListNode> = Vec::new();
                let mut i: usize = 1;
                assert(ref_models(out@) + find_from(all, 1, child@) =~= find_from(all, 1, child@));
                while i < list.len()
                    invariant
                        1 <= i <= list.len(),
                        all == models(list@),
                        self@ == Node::List(all),
                        *self == NetListNode::List(*list),
                        forall|k: int| 1 <= k < all.len() ==> searchable(#[trigger] all[k], child@),
                        solid(self@) ==> forall|k: int|
                            0 <= k < out.len() ==> solid((#[trigger] out@[k])@),
                        ref_models(out@) + find_from(all, i as int, child@) == find_from(all, 1, child@),
                    decreases list.len() - i,
                {
                    assert(all[i as int] == list@[i as int]@);
                    assert(solid(self@) ==> solid(all[i as int]));
                    match list[i].get_child(child) {
                        Ok(mut found) => {
                            let ghost before = out@;
                            let ghost extra = found@;
                            out.append(&mut found);
                            proof {
                                assert(ref_models(out@) =~= ref_models(before) + ref_models(extra));
                                let rest = find_from(all, i + 1, child@);
                                assert(ref_models(before) + (ref_models(extra) + rest) =~= ref_models(
                                    out@,
                                ) + rest);
                                assert forall|k: int|
                                    0 <= k < out.len() && solid(self@) implies solid(
                                    (#[trigger] out@[k])@,
                                ) by {
                                    if k < before.len() {
                                        assert(out@[k] == before[k]);
                                    } else {
                                        assert(out@[k] == extra[k - before.len()]);
                                    }
                                }
                            }
                        },
                        Err(_) => {},
                    }
                    i += 1;
                }
                assert(ref_models(out@) + Seq::<Node>::empty() =~= ref_models(out@));
                Ok(out)
            },
        }
    }

    /// The one child that begins with a token.
    pub fn get_only_child(&self, child: &Token) -> (r: Result<&NetListNode, ParseError>)
        requires
            children_readable(self@),
        ensures
            same_error(r, only_child(self@, child@)),
            r matches Ok(n) ==> Ok::<_, ParseError>(n@) == only_child(self@, child@)
                && (solid(self@) ==> solid(n@)),
    {
        match self.get_direct_child(child) {
            Err(e) => Err(e),
            Ok(vals) => if vals.len() == 1 {
                assert(ref_models(vals@)[0] == vals@[0]@);
                Ok(vals[0])
            } else {
                Err(ParseError::NotOneChild)
            },
        }
    }

    /// The child that begins with a token, if there is one.
    pub fn get_maybe_only_child(&self, child: &Token) -> (r: Result<Option<&NetListNode>, ParseError>)
        requires
            children_readable(self@),
        ensures
            same_error(r, maybe_child(self@, child@)),
            r matches Ok(Some(n)) ==> Ok::<_, ParseError>(Some(n@)) == maybe_child(self@, child@)
                && (solid(self@) ==> solid(n@)),
            r matches Ok(None) ==> maybe_child(self@, child@) == Ok::<Option<Node>, ParseError>(None),
    {
        match self.get_direct_child(child) {
            Err(e) => Err(e),
            Ok(vals) => if vals.len() == 0 {
                Ok(None)
            } else if vals.len() == 1 {
                assert(ref_models(vals@)[0] == vals@[0]@);
                Ok(Some(vals[0]))
            } else {
                Err(ParseError::ManyChildren)
            },
        }
    }

    /// The values of the children that begin with a token.
    pub fn get_direct_child_val(&self, child: &Token) -> (r: Result<Vec<&String>, ParseError>)
        requires
            children_readable(self@),
        ensures
            same_error(r, child_values(self@, child@)),
            r matches Ok(v) ==> Ok::<_, ParseError>(ref_texts(v@)) == child_values(self@, child@),
    {
        let nodes = match self.get_direct_child(child) {
            Ok(nodes) => nodes,
            Err(e) => return Err(e),
        };
        let ghost all = ref_models(nodes@);
        let mut out: Vec<&String> = Vec::new();
        let mut i: usize = 0;
        proof {
            assert(all.skip(0) == all);
            assert(ref_texts(out@) =~= Seq::<Seq<char>>::empty());
            if let Ok(more) = values_of(all) {
                assert(ref_texts(out@) + more =~= more);
            }
        }
        while i < nodes.len()
            invariant
                i <= nodes.len(),
                all == ref_models(nodes@),
                children(self@, child@) == Ok::<_, ParseError>(all),
                match values_of(all.skip(i as int)) {
                    Ok(more) => values_of(all) == Ok::<_, ParseError>(ref_texts(out@) + more),
                    Err(e) => values_of(all) == Err::<Seq<Seq<char>>, _>(e),
                },
            decreases nodes.len() - i,
        {
            let ghost here = all.skip(i as int);
            assert(here[0] == nodes@[i as int]@);
            assert(here.skip(1) == all.skip(i + 1));
            match nodes[i].val() {
                Err(e) => return Err(e),
                Ok(v) => {
                    let ghost before = ref_texts(out@);
                    out.push(v);
                    proof {
                        assert(ref_texts(out@) =~= before.push(v@));
                        if let Ok(more) = values_of(all.skip(i + 1)) {
                            assert(before + (seq![v@] + more) =~= ref_texts(out@) + more);
                        }
                    }
                },
            }
            i += 1;
        }
        assert(ref_texts(out@) + Seq::<Seq<char>>::empty() =~= ref_texts(out@));
        assert(all.skip(all.len() as int).len() == 0);
        Ok(out)
    }

    /// The value of the one child that begins with a token.
    pub fn get_only_child_val(&self, child: &Token) -> (r: Result<&String, ParseError>)
        requires
            children_readable(self@),
        ensures
            same_error(r, only_value(self@, child@)),
            r matches Ok(s) ==> Ok::<_, ParseError>(s@) == only_value(self@, child@),
    {
        match self.get_direct_child_val(child) {
            Err(e) => Err(e),
            Ok(vals) => if vals.len() == 1 {
                assert(ref_texts(vals@)[0] == vals@[0]@);
                Ok(vals[0])
            } else {
                Err(ParseError::NotOneChild)
            },
        }
    }

    /// The value of the child that begins with a token, if there is one.
    pub fn get_maybe_only_child_val(&self, child: &Token) -> (r: Result<Option<&String>, ParseError>)
        requires
            children_readable(self@),
        ensures
            same_error(r, maybe_value(self@, child@)),
            r matches Ok(Some(s)) ==> Ok::<_, ParseError>(Some(s@)) == maybe_value(self@, child@),
            r matches Ok(None) ==> maybe_value(self@, child@) == Ok::<Option<Seq<char>>, ParseError>(None),
    {
        match self.get_direct_child_val(child) {
            Err(e) => Err(e),
            Ok(vals) => if vals.len() == 0 {
                Ok(None)
            } else if vals.len() == 1 {
                assert(ref_texts(vals@)[0] == vals@[0]@);
                Ok(Some(vals[0]))
            } else {
                Err(ParseError::ManyChildren)
            },
        }
    }
}

/// The contents of a list of borrowed strings.
pub open spec fn ref_texts(v: Seq<&String>) -> Seq<Seq<char>> {
    v.map_values(|s: &String| s@)
}

/// The first place of `c` in `s`.
pub open spec fn place_of(s: Seq<char>, c: char) -> Option<int>
    decreases s.len(),
{
    if s.len() == 0 {
        None
    } else if s[0] == c {
        Some(0)
    } else {
        match place_of(s.skip(1), c) {
            Some(i) => Some(i + 1),
            None => None,
        }
    }
}

/// The character that a `{token}` escape stands for.
pub open spec fn escape_char(token: Seq<char>) -> Option<char> {
    if token == "slash"@ {
        Some('/')
    } else if token == "backslash"@ {
        Some('\\')
    } else if token == "dblquote"@ {
        Some('"')
    } else if token == "lt"@ {
        Some('<')
    } else if token == "gt"@ {
        Some('>')
    } else if token == "colon"@ {
        Some(':')
    } else if token == "space"@ {
        Some(' ')
    } else if token == "tab"@ {
        Some('\t')
    } else if token == "return"@ {
        Some('\r')
    } else if token == "newline"@ {
        Some('\n')
    } else if token == "brace"@ {
        Some('{')
    } else {
        None
    }
}

/// The known escape that `s` begins with: its character and its length.
pub open spec fn escape_at_start(s: Seq<char>) -> Option<(char, int)> {
    if s.len() > 0 && s[0] == '{' {
        match place_of(s, '}') {
            Some(end) => match escape_char(s.subrange(1, end)) {
                Some(c) => Some((c, end + 1)),
                None => None,
            },
            None => None,
        }
    } else {
        None
    }
}

/// `s` with each known `{token}` escape replaced by its character; everything
/// else passes through unchanged.
pub open spec fn unescaped(s: Seq<char>) -> Seq<char>
    decreases s.len(),
{
    if s.len() == 0 {
        Seq::empty()
    } else {
        match escape_at_start(s) {
            Some((c, n)) => if 0 < n <= s.len() {
                seq![c] + unescaped(s.skip(n))
            } else {
                Seq::empty()
            },
            None => seq![s[0]] + unescaped(s.skip(1)),
        }
    }
}

/// A text in which no known escape begins is left as it is.
pub proof fn lemma_unescaped_plain(s: Seq<char>)
    requires
        forall|i: int| 0 <= i < s.len() ==> escape_at_start(#[trigger] s.skip(i)) is None,
    ensures
        unescaped(s) == s,
    decreases s.len(),
{
    if s.len() > 0 {
        let t = s.skip(1);
        assert(s.skip(0) =~= s);
        assert forall|i: int| 0 <= i < t.len() implies escape_at_start(#[trigger] t.skip(i)) is None by {
            assert(t.skip(i) =~= s.skip(i + 1));
        }
        lemma_unescaped_plain(t);
        assert(seq![s[0]] + t =~= s);
    }
}

/// A text without braces is left as it is.
pub proof fn lemma_unescaped_without_braces(s: Seq<char>)
    requires
        forall|i: int| 0 <= i < s.len() ==> #[trigger] s[i] != '{',
    ensures
        unescaped(s) == s,
{
    assert forall|i: int| 0 <= i < s.len() implies escape_at_start(#[trigger] s.skip(i)) is None by {
        assert(s.skip(i)[0] == s[i]);
    }
    lemma_unescaped_plain(s);
}

proof fn lemma_place_of(s: Seq<char>, c: char, n: int)
    requires
        0 <= n <= s.len(),
        forall|i: int| 0 <= i < n ==> #[trigger] s[i] != c,
        n < s.len() ==> s[n] == c,
    ensures
        place_of(s, c) == (if n < s.len() {
            Some(n)
        } else {
            None
        }),
    decreases s.len(),
{
    if n > 0 {
        assert forall|i: int| 0 <= i < n - 1 implies #[trigger] s.skip(1)[i] != c by {
            assert(s.skip(1)[i] == s[i + 1]);
        }
        assert(s[0] != c);
        lemma_place_of(s.skip(1), c, n - 1);
    }
}

fn escape_for(token: &str) -> (r: Option<char>)
    ensures
        r == escape_char(token@),
{
    if same_text(token, "slash") {
        Some('/')
    } else if same_text(token, "backslash") {
        Some('\\')
    } else if same_text(token, "dblquote") {
        Some('"')
    } else if same_text(token, "lt") {
        Some('<')
    } else if same_text(token, "gt") {
        Some('>')
    } else if same_text(token, "colon") {
        Some(':')
    } else if same_text(token, "space") {
        Some(' ')
    } else if same_text(token, "tab") {
        Some('\t')
    } else if same_text(token, "return") {
        Some('\r')
    } else if same_text(token, "newline") {
        Some('\n')
    } else if same_text(token, "brace") {
        Some('{')
    } else {
        None
    }
}

/// Decodes KiCad's `{token}` escapes. Sequences that are not among the known
/// tokens pass through unchanged.
pub fn unescape_kicad(s: &str) -> (r: String)
    ensures
        r@ == unescaped(s@),
{
    let v = chars_of(s);
    let mut out = String::new();
    let mut i: usize = 0;
    assert(v@.skip(0) == v@);
    assert(out@ + unescaped(v@) =~= unescaped(v@));
    while i < v.len()
        invariant
            i <= v.len(),
            v@ == s@,
            out@ + unescaped(v@.skip(i as int)) == unescaped(v@),
        decreases v.len() - i,
    {
        let ghost here = v@.skip(i as int);
        let ghost before = out@;
        assert(here[0] == v@[i as int]);
        if v[i] == '{' {
            let mut end: usize = i;
            while end < v.len() && v[end] != '}'
                invariant
                    i <= end <= v.len(),
                    forall|k: int| i <= k < end ==> #[trigger] v@[k] != '}',
                decreases v.len() - end,
            {
                end += 1;
            }
            proof {
                assert forall|k: int| 0 <= k < end - i implies #[trigger] here[k] != '}' by {
                    assert(here[k] == v@[i + k]);
                }
                if end < v.len() {
                    assert(here[end - i] == v@[end as int]);
                }
                lemma_place_of(here, '}', end - i);
            }
            if end < v.len() {
                let token = text_of(&v, i + 1, end);
                assert(v@.subrange(i + 1, end as int) == here.subrange(1, end - i));
                if let Some(c) = escape_for(token.as_str()) {
                    out.push(c);
                    proof {
                        assert(here.skip(end - i + 1) == v@.skip(end + 1));
                        assert(before + (seq![c] + unescaped(v@.skip(end + 1))) =~= out@ + unescaped(
                            v@.skip(end + 1),
                        ));
                    }
                    i = end + 1;
                    continue;
                }
            }
        }
        out.push(v[i]);
        proof {
            assert(here.skip(1) == v@.skip(i + 1));
            assert(before + (seq![here[0]] + unescaped(v@.skip(i + 1))) =~= out@ + unescaped(
                v@.skip(i + 1),
            ));
        }
        i += 1;
    }
    assert(v@.skip(v@.len() as int).len() == 0);
    assert(out@ + Seq::<char>::empty() =~= out@);
    out
}

/// A node and the tokens behind it, or what is wrong with it.
pub type Built = Result<(Node, Seq<Lexeme>), ParseError>;

/// The node that the tokens begin with; `None` where they end inside it.
pub open spec fn build(s: Seq<Lexeme>) -> Option<Built>
    decreases s.len(), 0nat,
{
    if s.len() == 0 {
        None
    } else if !(s[0] is LParen) {
        Some(Err(ParseError::Misaligned))
    } else if s.len() == 1 {
        None
    } else {
        match s[1] {
            Lexeme::LParen => Some(Err(ParseError::DoubleParen)),
            Lexeme::RParen => Some(Err(ParseError::EmptyNode)),
            key => build_rest(s.skip(2), seq![Node::Atom(key)]),
        }
    }
}

/// The node with the elements `done` so far, the rest of it read from the tokens
/// up to its closing parenthesis.
pub open spec fn build_rest(s: Seq<Lexeme>, done: Seq<Node>) -> Option<Built>
    decreases s.len(), 1nat,
{
    if s.len() == 0 {
        None
    } else {
        match s[0] {
            Lexeme::RParen => Some(Ok((closed_node(done), s.skip(1)))),
            Lexeme::LParen => match build(s) {
                Some(Ok((n, rest))) => if rest.len() < s.len() {
                    build_rest(rest, done.push(n))
                } else {
                    None
                },
                other => other,
            },
            atom => build_rest(s.skip(1), done.push(Node::Atom(atom))),
        }
    }
}

/// A node with a key and nothing else is the key itself.
pub open spec fn closed_node(elements: Seq<Node>) -> Node {
    if elements.len() < 2 {
        elements.last()
    } else {
        Node::List(elements)
    }
}

/// A node takes at least one token, and no list in it is empty.
pub proof fn lemma_build(s: Seq<Lexeme>)
    ensures
        build(s) matches Some(Ok((n, rest))) ==> rest.len() < s.len() && solid(n),
    decreases s.len(), 0nat,
{
    if s.len() > 1 {
        lemma_build_rest(s.skip(2), seq![Node::Atom(s[1])]);
    }
}

proof fn lemma_build_rest(s: Seq<Lexeme>, done: Seq<Node>)
    requires
        done.len() > 0,
        forall|i: int| 0 <= i < done.len() ==> solid(#[trigger] done[i]),
    ensures
        build_rest(s, done) matches Some(Ok((n, rest))) ==> rest.len() < s.len() && solid(n),
    decreases s.len(), 1nat,
{
    if s.len() > 0 {
        match s[0] {
            Lexeme::RParen => {},
            Lexeme::LParen => {
                lemma_build(s);
                if let Some(Ok((n, rest))) = build(s) {
                    lemma_build_rest(rest, done.push(n));
                }
            },
            atom => {
                lemma_build_rest(s.skip(1), done.push(Node::Atom(atom)));
            },
        }
    }
}

/// Reads the node that begins at `*pos` and moves `*pos` behind it; `None` where the tokens
/// end inside it.
pub fn build_node(syms: &Vec<Token>, pos: &mut usize) -> (r: Option<Result<NetListNode, ParseError>>)
    requires
        *old(pos) <= syms.len(),
    ensures
        *final(pos) <= syms.len(),
        match build(lexemes(syms@).skip(*old(pos) as int)) {
            None => r is None,
            Some(Err(e)) => r == Some(Err::<NetListNode, _>(e)),
            Some(Ok((n, rest))) => {
                &&& r matches Some(Ok(node))
                &&& node@ == n
                &&& lexemes(syms@).skip(*final(pos) as int) == rest
                &&& *final(pos) > *old(pos)
            },
        },
    decreases syms.len() - *old(pos),
{
    let ghost all = lexemes(syms@);
    let start: usize = *pos;
    let ghost s = all.skip(start as int);
    if start == syms.len() {
        return None;
    }
    assert(s[0] == syms@[start as int]@);
    match &syms[start] {
        Token::LParen => {},
        _ => return Some(Err(ParseError::Misaligned)),
    }
    if start + 1 == syms.len() {
        return None;
    }
    assert(s[1] == syms@[start + 1]@);
    match &syms[start + 1] {
        Token::LParen => return Some(Err(ParseError::DoubleParen)),
        Token::RParen => return Some(Err(ParseError::EmptyNode)),
        _ => {},
    }
    let mut val: Vec<NetListNode> = Vec::new();
    val.push(NetListNode::Atom(syms[start + 1].duplicate()));
    *pos = start + 2;
    assert(models(val@) =~= seq![Node::Atom(s[1])]);
    assert(s.skip(2) == all.skip(start + 2));
    loop
        invariant
            all == lexemes(syms@),
            start < *pos <= syms.len(),
            val.len() > 0,
            start == *old(pos),
            build(all.skip(start as int)) == build_rest(all.skip(*pos as int), models(val@)),
        decreases syms.len() - *pos,
    {
        let at: usize = *pos;
        let ghost here = all.skip(at as int);
        let ghost done = models(val@);
        if at == syms.len() {
            return None;
        }
        assert(here[0] == syms@[at as int]@);
        match &syms[at] {
            Token::LParen => {
                proof {
                    lemma_build(here);
                }
                match build_node(syms, pos) {
                    None => return None,
                    Some(Err(e)) => return Some(Err(e)),
                    Some(Ok(node)) => {
                        val.push(node);
                        assert(models(val@) =~= done.push(node@));
                    },
                }
            },
            Token::RParen => {
                *pos = at + 1;
                assert(here.skip(1) == all.skip(at + 1));
                if val.len() < 2 {
                    let only = val.pop().unwrap();
                    assert(done.last() == only@);
                    return Some(Ok(only));
                } else {
                    let node = NetListNode::List(val);
                    assert(node@->List_0 =~= done);
                    return Some(Ok(node));
                }
            },
            x => {
                *pos = at + 1;
                assert(here.skip(1) == all.skip(at + 1));
                val.push(NetListNode::Atom(x.duplicate()));
                assert(models(val@) =~= done.push(Node::Atom(here[0])));
            },
        }
    }
}

/// The tree of a token list that does not end inside its first node.
pub fn structurize(syms: &Vec<Token>) -> (r: Result<NetListNode, ParseError>)
    requires
        build(lexemes(syms@)) is Some,
    ensures
        match build(lexemes(syms@)).unwrap() {
            Ok((n, rest)) => r matches Ok(node) && node@ == n && solid(n),
            Err(e) => r == Err::<NetListNode, _>(e),
        },
{
    let mut pos: usize = 0;
    assert(lexemes(syms@).skip(0) == lexemes(syms@));
    proof {
        lemma_build(lexemes(syms@));
    }
    build_node(syms, &mut pos).unwrap()
}

/// Applies a function to the text of an optional value.
pub open spec fn map_unescaped(o: Option<Seq<char>>) -> Option<Seq<char>> {
    match o {
        Some(t) => Some(unescaped(t)),
        None => None,
    }
}

/// The sheet that a component's `sheetpath` names.
pub open spec fn sheet_of(node: Node) -> Result<Option<Seq<char>>, ParseError> {
    match maybe_child(node, symbol("sheetpath"@)) {
        Err(e) => Err(e),
        Ok(None) => Ok(None),
        Ok(Some(path)) => match only_value(path, symbol("names"@)) {
            Err(e) => Err(e),
            Ok(names) => Ok(Some(names)),
        },
    }
}

/// A component's own fields, without its pins and properties.
pub open spec fn identity_of(node: Node) -> Result<ComponentModel, ParseError> {
    match only_value(node, symbol("ref"@)) {
        Err(e) => Err(e),
        Ok(refdes) => match only_value(node, symbol("value"@)) {
            Err(e) => Err(e),
            Ok(value) => match maybe_value(node, symbol("footprint"@)) {
                Err(e) => Err(e),
                Ok(footprint) => match maybe_value(node, symbol("description"@)) {
                    Err(e) => Err(e),
                    Ok(description) => match sheet_of(node) {
                        Err(e) => Err(e),
                        Ok(sheet) => Ok(
                            ComponentModel {
                                refdes,
                                value: unescaped(value),
                                footprint,
                                description: map_unescaped(description),
                                sheet,
                                properties: Map::empty(),
                                pins: Seq::empty(),
                            },
                        ),
                    },
                },
            },
        },
    }
}

/// A library and the part in it that a node names.
pub open spec fn lib_and_part(node: Node) -> Result<(Seq<char>, Seq<char>), ParseError> {
    match only_value(node, symbol("lib"@)) {
        Err(e) => Err(e),
        Ok(lib) => match only_value(node, symbol("part"@)) {
            Err(e) => Err(e),
            Ok(part) => Ok((lib, part)),
        },
    }
}

/// The library part that a component was placed from.
pub open spec fn source_of(node: Node) -> Result<(Seq<char>, Seq<char>), ParseError> {
    match only_child(node, symbol("libsource"@)) {
        Err(e) => Err(e),
        Ok(source) => lib_and_part(source),
    }
}

/// The nodes among `s` that name the library part, or the first error.
pub open spec fn parts_named(s: Seq<Node>, which: (Seq<char>, Seq<char>)) -> Result<
    Seq<Node>,
    ParseError,
>
    decreases s.len(),
{
    if s.len() == 0 {
        Ok(Seq::empty())
    } else {
        match lib_and_part(s[0]) {
            Err(e) => Err(e),
            Ok(id) => match parts_named(s.skip(1), which) {
                Err(e) => Err(e),
                Ok(more) => Ok(
                    if id == which {
                        seq![s[0]] + more
                    } else {
                        more
                    },
                ),
            },
        }
    }
}

/// The one definition of a library part in the export.
pub open spec fn libpart_of(base: Node, which: (Seq<char>, Seq<char>)) -> Result<Node, ParseError> {
    match only_child(base, symbol("libparts"@)) {
        Err(e) => Err(e),
        Ok(libparts) => match children(libparts, symbol("libpart"@)) {
            Err(e) => Err(e),
            Ok(all) => match parts_named(all, which) {
                Err(e) => Err(e),
                Ok(found) => if found.len() == 1 {
                    Ok(found[0])
                } else {
                    Err(ParseError::LibpartNotUnique)
                },
            },
        },
    }
}

/// One pin as its node states it.
pub open spec fn pin_of(node: Node) -> Result<PinModel, ParseError> {
    match only_value(node, symbol("num"@)) {
        Err(e) => Err(e),
        Ok(number) => match maybe_value(node, symbol("name"@)) {
            Err(e) => Err(e),
            Ok(name) => match maybe_value(node, symbol("type"@)) {
                Err(e) => Err(e),
                Ok(pin_type) => Ok(PinModel { number, name, pin_type, net: None }),
            },
        },
    }
}

/// The pins of a list of pin nodes, or the first error.
pub open spec fn pins_of(s: Seq<Node>) -> Result<Seq<PinModel>, ParseError>
    decreases s.len(),
{
    if s.len() == 0 {
        Ok(Seq::empty())
    } else {
        match pin_of(s[0]) {
            Err(e) => Err(e),
            Ok(pin) => match pins_of(s.skip(1)) {
                Err(e) => Err(e),
                Ok(more) => Ok(seq![pin] + more),
            },
        }
    }
}

/// All the pins below a node.
pub open spec fn pins_below(node: Node) -> Result<Seq<PinModel>, ParseError> {
    match find(node, symbol("pin"@)) {
        Err(e) => Err(e),
        Ok(nodes) => pins_of(nodes),
    }
}

/// The first pin with a number.
pub open spec fn pin_numbered(pins: Seq<PinModel>, number: Seq<char>) -> Option<int>
    decreases pins.len(),
{
    if pins.len() == 0 {
        None
    } else if pins[0].number == number {
        Some(0)
    } else {
        match pin_numbered(pins.skip(1), number) {
            Some(i) => Some(i + 1),
            None => None,
        }
    }
}

/// A pin with what it does not say itself taken from the library's pin of the
/// same number.
pub open spec fn completed_pin(pin: PinModel, lib: Seq<PinModel>) -> PinModel {
    match pin_numbered(lib, pin.number) {
        None => pin,
        Some(i) => PinModel {
            number: pin.number,
            name: if pin.name is Some {
                pin.name
            } else {
                lib[i].name
            },
            pin_type: if pin.pin_type is Some {
                pin.pin_type
            } else {
                lib[i].pin_type
            },
            net: pin.net,
        },
    }
}

pub open spec fn completed_pins(pins: Seq<PinModel>, lib: Seq<PinModel>) -> Seq<PinModel> {
    pins.map_values(|p: PinModel| completed_pin(p, lib))
}

/// One property: its name, and its value if it has one.
pub open spec fn property_of(node: Node) -> Result<(Seq<char>, Option<Seq<char>>), ParseError> {
    match only_value(node, symbol("name"@)) {
        Err(e) => Err(e),
        Ok(name) => match maybe_value(node, symbol("value"@)) {
            Err(e) => Err(e),
            Ok(value) => Ok((name, map_unescaped(value))),
        },
    }
}

/// The properties of a list of nodes, or the first error.
pub open spec fn property_rows(s: Seq<Node>) -> Result<
    Seq<(Seq<char>, Option<Seq<char>>)>,
    ParseError,
>
    decreases s.len(),
{
    if s.len() == 0 {
        Ok(Seq::empty())
    } else {
        match property_of(s[0]) {
            Err(e) => Err(e),
            Ok(row) => match property_rows(s.skip(1)) {
                Err(e) => Err(e),
                Ok(more) => Ok(seq![row] + more),
            },
        }
    }
}

/// The property map of a component, later rows over earlier ones.
pub open spec fn properties_below(node: Node) -> Result<Map<Seq<char>, Option<Seq<char>>>, ParseError> {
    match find(node, symbol("property"@)) {
        Err(e) => Err(e),
        Ok(nodes) => match property_rows(nodes) {
            Err(e) => Err(e),
            Ok(rows) => Ok(table_of(rows)),
        },
    }
}

/// The component that a `comp` node describes, `base` being the whole export.
pub open spec fn component_of(node: Node, base: Node) -> Result<ComponentModel, ParseError> {
    match node_key(node) {
        Err(e) => Err(e),
        Ok(key) => if key != symbol("comp"@) {
            Err(ParseError::NotComponent)
        } else {
            match identity_of(node) {
                Err(e) => Err(e),
                Ok(identity) => match source_of(node) {
                    Err(e) => Err(e),
                    Ok(which) => match libpart_of(base, which) {
                        Err(e) => Err(e),
                        Ok(libpart) => match pins_below(libpart) {
                            Err(e) => Err(e),
                            Ok(lib_pins) => match pins_below(node) {
                                Err(e) => Err(e),
                                Ok(pins) => match properties_below(node) {
                                    Err(e) => Err(e),
                                    Ok(properties) => Ok(
                                        ComponentModel {
                                            properties,
                                            pins: completed_pins(pins, lib_pins),
                                            ..identity
                                        },
                                    ),
                                },
                            },
                        },
                    },
                },
            }
        },
    }
}

fn read_only(node: &NetListNode, name: &str) -> (r: Result<String, ParseError>)
    requires
        solid(node@),
    ensures
        same_error(r, only_value(node@, symbol(name@))),
        r matches Ok(s) ==> Ok::<_, ParseError>(s@) == only_value(node@, symbol(name@)),
{
    proof {
        lemma_solid_children(node@);
    }
    match node.get_only_child_val(&Token::sym(name)) {
        Ok(s) => Ok(s.clone()),
        Err(e) => Err(e),
    }
}

fn read_maybe(node: &NetListNode, name: &str) -> (r: Result<Option<String>, ParseError>)
    requires
        solid(node@),
    ensures
        same_error(r, maybe_value(node@, symbol(name@))),
        r matches Ok(o) ==> Ok::<_, ParseError>(opt_text(o)) == maybe_value(node@, symbol(name@)),
{
    proof {
        lemma_solid_children(node@);
    }
    match node.get_maybe_only_child_val(&Token::sym(name)) {
        Ok(Some(s)) => Ok(Some(s.clone())),
        Ok(None) => Ok(None),
        Err(e) => Err(e),
    }
}

fn unescape_maybe(o: Option<String>) -> (r: Option<String>)
    ensures
        opt_text(r) == map_unescaped(opt_text(o)),
{
    match o {
        Some(s) => Some(unescape_kicad(s.as_str())),
        None => None,
    }
}

fn read_sheet(node: &NetListNode) -> (r: Result<Option<String>, ParseError>)
    requires
        solid(node@),
    ensures
        same_error(r, sheet_of(node@)),
        r matches Ok(o) ==> Ok::<_, ParseError>(opt_text(o)) == sheet_of(node@),
{
    proof {
        lemma_solid_children(node@);
    }
    match node.get_maybe_only_child(&Token::sym("sheetpath")) {
        Err(e) => Err(e),
        Ok(None) => Ok(None),
        Ok(Some(path)) => match read_only(path, "names") {
            Err(e) => Err(e),
            Ok(names) => Ok(Some(names)),
        },
    }
}

fn read_identity(node: &NetListNode) -> (r: Result<netlist::Component, ParseError>)
    requires
        solid(node@),
    ensures
        same_error(r, identity_of(node@)),
        r matches Ok(c) ==> Ok::<_, ParseError>(c@) == identity_of(node@),
{
    let mut comp = netlist::Component::new();
    match read_only(node, "ref") {
        Ok(refdes) => comp.refdes = refdes,
        Err(e) => return Err(e),
    }
    match read_only(node, "value") {
        Ok(value) => comp.value = unescape_kicad(value.as_str()),
        Err(e) => return Err(e),
    }
    match read_maybe(node, "footprint") {
        Ok(footprint) => comp.footprint = footprint,
        Err(e) => return Err(e),
    }
    match read_maybe(node, "description") {
        Ok(description) => comp.description = unescape_maybe(description),
        Err(e) => return Err(e),
    }
    match read_sheet(node) {
        Ok(sheet) => comp.sheet = sheet,
        Err(e) => return Err(e),
    }
    Ok(comp)
}

fn read_lib_and_part(node: &NetListNode) -> (r: Result<(String, String), ParseError>)
    requires
        solid(node@),
    ensures
        same_error(r, lib_and_part(node@)),
        r matches Ok(id) ==> Ok::<_, ParseError>((id.0@, id.1@)) == lib_and_part(node@),
{
    match read_only(node, "lib") {
        Err(e) => Err(e),
        Ok(lib) => match read_only(node, "part") {
            Err(e) => Err(e),
            Ok(part) => Ok((lib, part)),
        },
    }
}

fn find_libpart<'a>(base: &'a NetListNode, lib: &str, part: &str) -> (r: Result<
    &'a NetListNode,
    ParseError,
>)
    requires
        solid(base@),
    ensures
        same_error(r, libpart_of(base@, (lib@, part@))),
        r matches Ok(n) ==> Ok::<_, ParseError>(n@) == libpart_of(base@, (lib@, part@)) && solid(n@),
{
    proof {
        lemma_solid_children(base@);
    }
    let libparts = match base.get_only_child(&Token::sym("libparts")) {
        Ok(libparts) => libparts,
        Err(e) => return Err(e),
    };
    proof {
        lemma_solid_children(libparts@);
    }
    let all = match libparts.get_direct_child(&Token::sym("libpart")) {
        Ok(all) => all,
        Err(e) => return Err(e),
    };
    let ghost nodes = ref_models(all@);
    let ghost which = (lib@, part@);
    let mut found: Vec<&'a NetListNode> = Vec::new();
    let mut i: usize = 0;
    proof {
        assert(nodes.skip(0) == nodes);
        assert(ref_models(found@) =~= Seq::<Node>::empty());
        if let Ok(more) = parts_named(nodes, which) {
            assert(ref_models(found@) + more =~= more);
        }
    }
    while i < all.len()
        invariant
            i <= all.len(),
            nodes == ref_models(all@),
            which == (lib@, part@),
            only_child(base@, symbol("libparts"@)) == Ok::<_, ParseError>(libparts@),
            children(libparts@, symbol("libpart"@)) == Ok::<_, ParseError>(nodes),
            forall|k: int| 0 <= k < all.len() ==> solid((#[trigger] all@[k])@),
            forall|k: int| 0 <= k < found.len() ==> solid((#[trigger] found@[k])@),
            match parts_named(nodes.skip(i as int), which) {
                Ok(more) => parts_named(nodes, which) == Ok::<_, ParseError>(
                    ref_models(found@) + more,
                ),
                Err(e) => parts_named(nodes, which) == Err::<Seq<Node>, _>(e),
            },
        decreases all.len() - i,
    {
        let ghost here = nodes.skip(i as int);
        assert(here[0] == all@[i as int]@);
        assert(here.skip(1) == nodes.skip(i + 1));
        let x = all[i];
        match read_lib_and_part(x) {
            Err(e) => return Err(e),
            Ok((l, p)) => {
                let ghost before = ref_models(found@);
                if same_text(l.as_str(), lib) && same_text(p.as_str(), part) {
                    found.push(x);
                    assert(ref_models(found@) =~= before.push(x@));
                }
                proof {
                    if let Ok(more) = parts_named(nodes.skip(i + 1), which) {
                        assert(before + (seq![here[0]] + more) =~= before.push(here[0]) + more);
                    }
                }
            },
        }
        i += 1;
    }
    assert(ref_models(found@) + Seq::<Node>::empty() =~= ref_models(found@));
    assert(nodes.skip(nodes.len() as int).len() == 0);
    if found.len() == 1 {
        assert(ref_models(found@)[0] == found@[0]@);
        Ok(found[0])
    } else {
        Err(ParseError::LibpartNotUnique)
    }
}

fn read_pin(node: &NetListNode) -> (r: Result<netlist::Pin, ParseError>)
    requires
        solid(node@),
    ensures
        same_error(r, pin_of(node@)),
        r matches Ok(p) ==> Ok::<_, ParseError>(p@) == pin_of(node@),
{
    match read_only(node, "num") {
        Err(e) => Err(e),
        Ok(number) => match read_maybe(node, "name") {
            Err(e) => Err(e),
            Ok(name) => match read_maybe(node, "type") {
                Err(e) => Err(e),
                Ok(pin_type) => Ok(netlist::Pin { number, name, pin_type, net: None }),
            },
        },
    }
}

fn read_pins(node: &NetListNode) -> (r: Result<Vec<netlist::Pin>, ParseError>)
    requires
        solid(node@),
    ensures
        same_error(r, pins_below(node@)),
        r matches Ok(v) ==> Ok::<_, ParseError>(pin_models(v@)) == pins_below(node@),
{
    proof {
        lemma_solid_searchable(node@, symbol("pin"@));
    }
    let nodes = match node.get_child(&Token::sym("pin")) {
        Ok(nodes) => nodes,
        Err(e) => return Err(e),
    };
    let ghost all = ref_models(nodes@);
    let mut out: Vec<netlist::Pin> = Vec::new();
    let mut i: usize = 0;
    proof {
        assert(all.skip(0) == all);
        assert(pin_models(out@) =~= Seq::<PinModel>::empty());
        if let Ok(more) = pins_of(all) {
            assert(pin_models(out@) + more =~= more);
        }
    }
    while i < nodes.len()
        invariant
            i <= nodes.len(),
            all == ref_models(nodes@),
            find(node@, symbol("pin"@)) == Ok::<_, ParseError>(all),
            forall|k: int| 0 <= k < nodes.len() ==> solid((#[trigger] nodes@[k])@),
            match pins_of(all.skip(i as int)) {
                Ok(more) => pins_of(all) == Ok::<_, ParseError>(pin_models(out@) + more),
                Err(e) => pins_of(all) == Err::<Seq<PinModel>, _>(e),
            },
        decreases nodes.len() - i,
    {
        let ghost here = all.skip(i as int);
        assert(here[0] == nodes@[i as int]@);
        assert(here.skip(1) == all.skip(i + 1));
        match read_pin(nodes[i]) {
            Err(e) => return Err(e),
            Ok(pin) => {
                let ghost before = pin_models(out@);
                out.push(pin);
                proof {
                    assert(pin_models(out@) =~= before.push(pin@));
                    if let Ok(more) = pins_of(all.skip(i + 1)) {
                        assert(before + (seq![pin@] + more) =~= pin_models(out@) + more);
                    }
                }
            },
        }
        i += 1;
    }
    assert(pin_models(out@) + Seq::<PinModel>::empty() =~= pin_models(out@));
    assert(all.skip(all.len() as int).len() == 0);
    Ok(out)
}

proof fn lemma_pin_numbered(pins: Seq<PinModel>, number: Seq<char>, n: int)
    requires
        0 <= n <= pins.len(),
        forall|i: int| 0 <= i < n ==> (#[trigger] pins[i]).number != number,
        n < pins.len() ==> pins[n].number == number,
    ensures
        pin_numbered(pins, number) == (if n < pins.len() {
            Some(n)
        } else {
            None
        }),
    decreases pins.len(),
{
    if n > 0 {
        assert forall|i: int| 0 <= i < n - 1 implies (#[trigger] pins.skip(1)[i]).number != number by {
            assert(pins.skip(1)[i] == pins[i + 1]);
        }
        assert(pins[0].number != number);
        lemma_pin_numbered(pins.skip(1), number, n - 1);
    }
}

/// The first pin with a number.
fn find_pin(pins: &Vec<netlist::Pin>, number: &str) -> (r: Option<usize>)
    ensures
        match pin_numbered(pin_models(pins@), number@) {
            Some(i) => r matches Some(k) && k == i && k < pins.len(),
            None => r is None,
        },
{
    let mut i: usize = 0;
    while i < pins.len()
        invariant
            i <= pins.len(),
            forall|k: int| 0 <= k < i ==> (#[trigger] pin_models(pins@)[k]).number != number@,
        decreases pins.len() - i,
    {
        assert(pin_models(pins@)[i as int] == pins@[i as int]@);
        if same_text(pins[i].number.as_str(), number) {
            proof {
                lemma_pin_numbered(pin_models(pins@), number@, i as int);
            }
            return Some(i);
        }
        i += 1;
    }
    proof {
        lemma_pin_numbered(pin_models(pins@), number@, i as int);
    }
    None
}

fn complete_pins(pins: Vec<netlist::Pin>, lib: &Vec<netlist::Pin>) -> (r: Vec<netlist::Pin>)
    ensures
        pin_models(r@) == completed_pins(pin_models(pins@), pin_models(lib@)),
{
    let mut out: Vec<netlist::Pin> = Vec::new();
    let mut i: usize = 0;
    while i < pins.len()
        invariant
            i <= pins.len(),
            out.len() == i,
            forall|k: int|
                0 <= k < i ==> (#[trigger] out@[k])@ == completed_pin(pins@[k]@, pin_models(lib@)),
        decreases pins.len() - i,
    {
        let pin = &pins[i];
        let mut name = copy_text(&pin.name);
        let mut pin_type = copy_text(&pin.pin_type);
        if let Some(k) = find_pin(lib, pin.number.as_str()) {
            assert(pin_models(lib@)[k as int] == lib@[k as int]@);
            if name.is_none() {
                name = copy_text(&lib[k].name);
            }
            if pin_type.is_none() {
                pin_type = copy_text(&lib[k].pin_type);
            }
        }
        out.push(netlist::Pin { number: pin.number.clone(), name, pin_type, net: pin.net });
        i += 1;
    }
    assert(pin_models(out@) =~= completed_pins(pin_models(pins@), pin_models(lib@)));
    out
}

proof fn lemma_table_concat(
    done: Seq<(Seq<char>, Option<Seq<char>>)>,
    row: (Seq<char>, Option<Seq<char>>),
)
    ensures
        table_of(done.push(row)) == table_of(done).insert(row.0, row.1),
{
    assert(done.push(row).drop_last() =~= done);
}

fn read_properties(node: &NetListNode) -> (r: Result<Table<Option<String>>, ParseError>)
    requires
        solid(node@),
    ensures
        same_error(r, properties_below(node@)),
        r matches Ok(t) ==> Ok::<_, ParseError>(property_texts(t@)) == properties_below(node@),
{
    proof {
        lemma_solid_searchable(node@, symbol("property"@));
    }
    let nodes = match node.get_child(&Token::sym("property")) {
        Ok(nodes) => nodes,
        Err(e) => return Err(e),
    };
    let ghost all = ref_models(nodes@);
    let ghost mut done: Seq<(Seq<char>, Option<Seq<char>>)> = Seq::empty();
    let mut out: Table<Option<String>> = Table::new();
    let mut i: usize = 0;
    proof {
        assert(all.skip(0) == all);
        assert(property_texts(out@) =~= table_of(done));
        if let Ok(more) = property_rows(all) {
            assert(done + more =~= more);
        }
    }
    while i < nodes.len()
        invariant
            i <= nodes.len(),
            all == ref_models(nodes@),
            find(node@, symbol("property"@)) == Ok::<_, ParseError>(all),
            forall|k: int| 0 <= k < nodes.len() ==> solid((#[trigger] nodes@[k])@),
            property_texts(out@) == table_of(done),
            match property_rows(all.skip(i as int)) {
                Ok(more) => property_rows(all) == Ok::<_, ParseError>(done + more),
                Err(e) => property_rows(all) == Err::<Seq<(Seq<char>, Option<Seq<char>>)>, _>(e),
            },
        decreases nodes.len() - i,
    {
        let ghost here = all.skip(i as int);
        assert(here[0] == nodes@[i as int]@);
        assert(here.skip(1) == all.skip(i + 1));
        let key = match read_only(nodes[i], "name") {
            Ok(key) => key,
            Err(e) => return Err(e),
        };
        let value = match read_maybe(nodes[i], "value") {
            Ok(value) => unescape_maybe(value),
            Err(e) => return Err(e),
        };
        let ghost row = (key@, opt_text(value));
        let ghost before = out@;
        out.insert(key, value);
        proof {
            lemma_table_concat(done, row);
            assert(property_texts(out@) =~= property_texts(before).insert(row.0, row.1));
            if let Ok(more) = property_rows(all.skip(i + 1)) {
                assert(done + (seq![row] + more) =~= done.push(row) + more);
            }
            done = done.push(row);
        }
        i += 1;
    }
    assert(done + Seq::<(Seq<char>, Option<Seq<char>>)>::empty() =~= done);
    assert(all.skip(all.len() as int).len() == 0);
    Ok(out)
}

/// The component that a `comp` node describes, `base_tree` being the whole export.
pub fn parse_component(node: &NetListNode, base_tree: &NetListNode) -> (r: Result<
    netlist::Component,
    ParseError,
>)
    requires
        solid(node@),
        solid(base_tree@),
    ensures
        same_error(r, component_of(node@, base_tree@)),
        r matches Ok(c) ==> Ok::<_, ParseError>(c@) == component_of(node@, base_tree@),
{
    match node.key() {
        Err(e) => return Err(e),
        Ok(sym) => if !sym.same(&Token::sym("comp")) {
            return Err(ParseError::NotComponent);
        },
    }
    let mut comp = match read_identity(node) {
        Ok(comp) => comp,
        Err(e) => return Err(e),
    };
    proof {
        lemma_solid_children(node@);
    }
    let libsource = match node.get_only_child(&Token::sym("libsource")) {
        Ok(libsource) => libsource,
        Err(e) => return Err(e),
    };
    let (comp_lib, comp_lib_part) = match read_lib_and_part(libsource) {
        Ok(id) => id,
        Err(e) => return Err(e),
    };
    let lib_part = match find_libpart(base_tree, comp_lib.as_str(), comp_lib_part.as_str()) {
        Ok(lib_part) => lib_part,
        Err(e) => return Err(e),
    };
    let lib_pins = match read_pins(lib_part) {
        Ok(lib_pins) => lib_pins,
        Err(e) => return Err(e),
    };
    let pins = match read_pins(node) {
        Ok(pins) => pins,
        Err(e) => return Err(e),
    };
    comp.pins = complete_pins(pins, &lib_pins);
    comp.properties = match read_properties(node) {
        Ok(properties) => properties,
        Err(e) => return Err(e),
    };
    Ok(comp)
}

/// The first component with a reference designator.
pub open spec fn component_named(comps: Seq<ComponentModel>, refdes: Seq<char>) -> Option<int>
    decreases comps.len(),
{
    if comps.len() == 0 {
        None
    } else if comps[0].refdes == refdes {
        Some(0)
    } else {
        match component_named(comps.skip(1), refdes) {
            Some(i) => Some(i + 1),
            None => None,
        }
    }
}

/// The component and the pin that a node of the net `net` names.
pub open spec fn place_named(node: Node, comps: Seq<ComponentModel>, net: Seq<char>) -> Result<
    (int, int),
    NetlistFault<ParseError>,
> {
    match only_value(node, symbol("ref"@)) {
        Err(why) => Err(NetlistFault::NodeUnreadable { why, net }),
        Ok(refdes) => match only_value(node, symbol("pin"@)) {
            Err(why) => Err(NetlistFault::NodeUnreadable { why, net }),
            Ok(pin) => match component_named(comps, refdes) {
                None => Err(NetlistFault::UnknownComponent { refdes, net }),
                Some(c) => match pin_numbered(comps[c].pins, pin) {
                    None => Err(NetlistFault::UnknownPin { refdes, pin, net }),
                    Some(p) => Ok((c, p)),
                },
            },
        },
    }
}

/// The components with one pin put on a net.
pub open spec fn wired(comps: Seq<ComponentModel>, c: int, p: int, code: usize) -> Seq<
    ComponentModel,
> {
    comps.update(
        c,
        ComponentModel {
            pins: comps[c].pins.update(p, PinModel { net: Some(code), ..comps[c].pins[p] }),
            ..comps[c]
        },
    )
}

/// The components with the pins of all the nodes put on a net, up to the first
/// node that names nothing.
pub open spec fn connected(comps: Seq<ComponentModel>, nodes: Seq<Node>, net: NetModel) -> (
    Seq<ComponentModel>,
    Option<NetlistFault<ParseError>>,
)
    decreases nodes.len(),
{
    if nodes.len() == 0 {
        (comps, None)
    } else {
        match place_named(nodes[0], comps, net.name) {
            Err(e) => (comps, Some(e)),
            Ok((c, p)) => connected(wired(comps, c, p, net.code), nodes.skip(1), net),
        }
    }
}

/// The code, the name and the nodes of a net.
pub open spec fn net_header(node: Node) -> Result<(NetModel, Seq<Node>), ParseError> {
    match node_key(node) {
        Err(e) => Err(e),
        Ok(key) => if key != symbol("net"@) {
            Err(ParseError::NotNet)
        } else {
            match only_value(node, symbol("code"@)) {
                Err(e) => Err(e),
                Ok(code) => match unsigned_value(code, usize::MAX as nat) {
                    None => Err(ParseError::BadNetCode),
                    Some(n) => match only_value(node, symbol("name"@)) {
                        Err(e) => Err(e),
                        Ok(name) => match find(node, symbol("node"@)) {
                            Err(e) => Err(e),
                            Ok(nodes) => Ok(
                                (NetModel { code: n as usize, name: unescaped(name) }, nodes),
                            ),
                        },
                    },
                },
            }
        },
    }
}

/// The net that a `net` node describes, and the components with its pins on it.
pub open spec fn net_of(node: Node, comps: Seq<ComponentModel>) -> (
    Seq<ComponentModel>,
    Result<NetModel, NetlistFault<ParseError>>,
) {
    match net_header(node) {
        Err(e) => (comps, Err(NetlistFault::Unreadable(e))),
        Ok((net, nodes)) => match connected(comps, nodes, net) {
            (after, None) => (after, Ok(net)),
            (after, Some(e)) => (after, Err(e)),
        },
    }
}

/// The nets of a list of nodes, and the components with their pins on them.
pub open spec fn nets_of(nodes: Seq<Node>, comps: Seq<ComponentModel>) -> Result<
    (Seq<ComponentModel>, Seq<NetModel>),
    NetlistFault<ParseError>,
>
    decreases nodes.len(),
{
    if nodes.len() == 0 {
        Ok((comps, Seq::empty()))
    } else {
        match net_of(nodes[0], comps) {
            (_, Err(e)) => Err(e),
            (after, Ok(net)) => match nets_of(nodes.skip(1), after) {
                Err(e) => Err(e),
                Ok((last, more)) => Ok((last, seq![net] + more)),
            },
        }
    }
}

/// The components of a list of nodes, or the first error.
pub open spec fn components_of(nodes: Seq<Node>, base: Node) -> Result<
    Seq<ComponentModel>,
    ParseError,
>
    decreases nodes.len(),
{
    if nodes.len() == 0 {
        Ok(Seq::empty())
    } else {
        match component_of(nodes[0], base) {
            Err(e) => Err(e),
            Ok(comp) => match components_of(nodes.skip(1), base) {
                Err(e) => Err(e),
                Ok(more) => Ok(seq![comp] + more),
            },
        }
    }
}

/// The names of the sheets among `s` that have one.
pub open spec fn sheet_names(s: Seq<Node>) -> Seq<Seq<char>>
    decreases s.len(),
{
    if s.len() == 0 {
        Seq::empty()
    } else {
        (match only_value(s[0], symbol("name"@)) {
            Ok(name) => seq![name],
            Err(_) => Seq::empty(),
        }) + sheet_names(s.skip(1))
    }
}

/// The sheets that the design headers in `s` declare.
pub open spec fn declared_sheets(s: Seq<Node>) -> Seq<Seq<char>>
    decreases s.len(),
{
    if s.len() == 0 {
        Seq::empty()
    } else {
        (match children(s[0], symbol("sheet"@)) {
            Ok(sheets) => sheet_names(sheets),
            Err(_) => Seq::empty(),
        }) + declared_sheets(s.skip(1))
    }
}

/// The sheets that an export declares. One without a design header, or with a
/// header of another shape, declares none.
pub open spec fn sheets_of(tree: Node) -> Seq<Seq<char>> {
    match find(tree, symbol("design"@)) {
        Ok(headers) => declared_sheets(headers),
        Err(_) => Seq::empty(),
    }
}

/// The netlist that the tree of an export describes.
pub open spec fn netlist_of(tree: Node) -> Result<NetlistModel, NetlistFault<ParseError>> {
    match find(tree, symbol("comp"@)) {
        Err(e) => Err(NetlistFault::Unreadable(e)),
        Ok(comp_nodes) => match components_of(comp_nodes, tree) {
            Err(e) => Err(NetlistFault::Unreadable(e)),
            Ok(comps) => match find(tree, symbol("net"@)) {
                Err(e) => Err(NetlistFault::Unreadable(e)),
                Ok(net_nodes) => match nets_of(net_nodes, comps) {
                    Err(e) => Err(e),
                    Ok((components, nets)) => Ok(
                        NetlistModel { components, nets, sheets: sheets_of(tree) },
                    ),
                },
            },
        },
    }
}

/// The netlist that the text of an export describes.
pub open spec fn parsed(data: Seq<char>) -> Result<NetlistModel, NetlistFault<ParseError>> {
    match all_tokens(data) {
        Err(e) => Err(NetlistFault::Unreadable(e)),
        Ok(tokens) => match build(tokens).unwrap() {
            Err(e) => Err(NetlistFault::Unreadable(e)),
            Ok((tree, rest)) => netlist_of(tree),
        },
    }
}

/// The text does not end inside its first node.
pub open spec fn closed_export(data: Seq<char>) -> bool {
    all_tokens(data) matches Ok(tokens) ==> build(tokens) is Some
}

proof fn lemma_component_named(comps: Seq<ComponentModel>, refdes: Seq<char>, n: int)
    requires
        0 <= n <= comps.len(),
        forall|i: int| 0 <= i < n ==> (#[trigger] comps[i]).refdes != refdes,
        n < comps.len() ==> comps[n].refdes == refdes,
    ensures
        component_named(comps, refdes) == (if n < comps.len() {
            Some(n)
        } else {
            None
        }),
    decreases comps.len(),
{
    if n > 0 {
        assert forall|i: int| 0 <= i < n - 1 implies (#[trigger] comps.skip(1)[i]).refdes
            != refdes by {
            assert(comps.skip(1)[i] == comps[i + 1]);
        }
        assert(comps[0].refdes != refdes);
        lemma_component_named(comps.skip(1), refdes, n - 1);
    }
}

fn find_component(comps: &Vec<netlist::Component>, refdes: &str) -> (r: Option<usize>)
    ensures
        match component_named(component_models(comps@), refdes@) {
            Some(i) => r matches Some(k) && k == i && k < comps.len(),
            None => r is None,
        },
{
    let mut i: usize = 0;
    while i < comps.len()
        invariant
            i <= comps.len(),
            forall|k: int| 0 <= k < i ==> (#[trigger] component_models(comps@)[k]).refdes != refdes@,
        decreases comps.len() - i,
    {
        assert(component_models(comps@)[i as int] == comps@[i as int]@);
        if same_text(comps[i].refdes.as_str(), refdes) {
            proof {
                lemma_component_named(component_models(comps@), refdes@, i as int);
            }
            return Some(i);
        }
        i += 1;
    }
    proof {
        lemma_component_named(component_models(comps@), refdes@, i as int);
    }
    None
}

fn find_place(node: &NetListNode, comps: &Vec<netlist::Component>, net: &str) -> (r: Result<
    (usize, usize),
    NetlistError<ParseError>,
>)
    requires
        solid(node@),
    ensures
        match place_named(node@, component_models(comps@), net@) {
            Ok((c, p)) => r matches Ok((i, k)) && i == c && k == p && i < comps.len() && k
                < comps@[i as int].pins.len(),
            Err(e) => r matches Err(err) && err@ == e,
        },
{
    let refdes = match read_only(node, "ref") {
        Ok(refdes) => refdes,
        Err(why) => return Err(NetlistError::NodeUnreadable { why, net: net.to_owned() }),
    };
    let pin = match read_only(node, "pin") {
        Ok(pin) => pin,
        Err(why) => return Err(NetlistError::NodeUnreadable { why, net: net.to_owned() }),
    };
    match find_component(comps, refdes.as_str()) {
        None => Err(NetlistError::UnknownComponent { refdes, net: net.to_owned() }),
        Some(c) => {
            assert(component_models(comps@)[c as int] == comps@[c as int]@);
            match find_pin(&comps[c].pins, pin.as_str()) {
                None => Err(NetlistError::UnknownPin { refdes, pin, net: net.to_owned() }),
                Some(p) => Ok((c, p)),
            }
        },
    }
}

fn wire(comps: &mut Vec<netlist::Component>, c: usize, p: usize, code: usize)
    requires
        c < old(comps).len(),
        p < old(comps)@[c as int].pins.len(),
    ensures
        component_models(final(comps)@) == wired(
            component_models(old(comps)@),
            c as int,
            p as int,
            code,
        ),
{
    let ghost before = comps@;
    comps[c].pins[p].net = Some(code);
    proof {
        let after = comps@;
        assert(pin_models(after[c as int].pins@) =~= pin_models(before[c as int].pins@).update(
            p as int,
            PinModel { net: Some(code), ..pin_models(before[c as int].pins@)[p as int] },
        ));
        assert(component_models(after) =~= wired(
            component_models(before),
            c as int,
            p as int,
            code,
        ));
    }
}

fn read_net_header(node: &NetListNode) -> (r: Result<(netlist::Net, Vec<&NetListNode>), ParseError>)
    requires
        solid(node@),
    ensures
        match net_header(node@) {
            Ok((net, nodes)) => r matches Ok((n, v)) && n@ == net && ref_models(v@) == nodes && (
            forall|k: int| 0 <= k < v.len() ==> solid((#[trigger] v@[k])@)),
            Err(e) => r matches Err(err) && err == e,
        },
{
    match node.key() {
        Err(e) => return Err(e),
        Ok(sym) => if !sym.same(&Token::sym("net")) {
            return Err(ParseError::NotNet);
        },
    }
    let code_text = match read_only(node, "code") {
        Ok(code_text) => code_text,
        Err(e) => return Err(e),
    };
    let code: usize = match parse_unsigned(code_text.as_str(), usize::MAX as u64) {
        Some(code) => code as usize,
        None => return Err(ParseError::BadNetCode),
    };
    let name = match read_only(node, "name") {
        Ok(name) => unescape_kicad(name.as_str()),
        Err(e) => return Err(e),
    };
    proof {
        lemma_solid_searchable(node@, symbol("node"@));
    }
    match node.get_child(&Token::sym("node")) {
        Ok(nodes) => Ok((netlist::Net { code, name }, nodes)),
        Err(e) => Err(e),
    }
}

/// The net that a `net` node describes. Its pins among `comps` are put on it; a node
/// that names none of them stops it.
pub fn parse_net(node: &NetListNode, comps: &mut Vec<netlist::Component>) -> (r: Result<
    netlist::Net,
    NetlistError<ParseError>,
>)
    requires
        solid(node@),
    ensures
        component_models(final(comps)@) == net_of(node@, component_models(old(comps)@)).0,
        match net_of(node@, component_models(old(comps)@)).1 {
            Ok(net) => r matches Ok(n) && n@ == net,
            Err(e) => r matches Err(err) && err@ == e,
        },
{
    let (net, nodes) = match read_net_header(node) {
        Ok(header) => header,
        Err(e) => return Err(NetlistError::Unreadable(e)),
    };
    let ghost all = ref_models(nodes@);
    let ghost start = component_models(comps@);
    let mut i: usize = 0;
    assert(all.skip(0) == all);
    while i < nodes.len()
        invariant
            i <= nodes.len(),
            all == ref_models(nodes@),
            start == component_models(old(comps)@),
            net_header(node@) == Ok::<_, ParseError>((net@, all)),
            forall|k: int| 0 <= k < nodes.len() ==> solid((#[trigger] nodes@[k])@),
            connected(component_models(comps@), all.skip(i as int), net@) == connected(
                start,
                all,
                net@,
            ),
        decreases nodes.len() - i,
    {
        assert(all.skip(i as int)[0] == nodes@[i as int]@);
        assert(all.skip(i as int).skip(1) == all.skip(i + 1));
        match find_place(nodes[i], comps, net.name.as_str()) {
            Err(e) => return Err(e),
            Ok((c, p)) => wire(comps, c, p, net.code),
        }
        i += 1;
    }
    assert(all.skip(all.len() as int).len() == 0);
    Ok(net)
}

#[verifier::spinoff_prover]
#[verifier::rlimit(40)]
fn read_components(nodes: &Vec<&NetListNode>, tree: &NetListNode) -> (r: Result<
    Vec<netlist::Component>,
    ParseError,
>)
    requires
        solid(tree@),
        forall|k: int| 0 <= k < nodes.len() ==> solid((#[trigger] nodes@[k])@),
    ensures
        match components_of(ref_models(nodes@), tree@) {
            Ok(comps) => r matches Ok(v) && component_models(v@) == comps,
            Err(e) => r matches Err(err) && err == e,
        },
{
    let ghost all = ref_models(nodes@);
    let mut out: Vec<netlist::Component> = Vec::new();
    let mut i: usize = 0;
    proof {
        assert(all.skip(0) == all);
        assert(component_models(out@) =~= Seq::<ComponentModel>::empty());
        if let Ok(more) = components_of(all, tree@) {
            assert(component_models(out@) + more =~= more);
        }
    }
    while i < nodes.len()
        invariant
            i <= nodes.len(),
            all == ref_models(nodes@),
            solid(tree@),
            forall|k: int| 0 <= k < nodes.len() ==> solid((#[trigger] nodes@[k])@),
            match components_of(all.skip(i as int), tree@) {
                Ok(more) => components_of(all, tree@) == Ok::<_, ParseError>(
                    component_models(out@) + more,
                ),
                Err(e) => components_of(all, tree@) == Err::<Seq<ComponentModel>, _>(e),
            },
        decreases nodes.len() - i,
    {
        let ghost here = all.skip(i as int);
        assert(here[0] == nodes@[i as int]@);
        assert(here.skip(1) == all.skip(i + 1));
        match parse_component(nodes[i], tree) {
            Err(e) => return Err(e),
            Ok(comp) => {
                let ghost before = component_models(out@);
                out.push(comp);
                proof {
                    assert(component_models(out@) =~= before.push(comp@));
                    if let Ok(more) = components_of(all.skip(i + 1), tree@) {
                        assert(before + (seq![comp@] + more) =~= component_models(out@) + more);
                    }
                }
            },
        }
        i += 1;
    }
    assert(component_models(out@) + Seq::<ComponentModel>::empty() =~= component_models(out@));
    assert(all.skip(all.len() as int).len() == 0);
    Ok(out)
}

fn read_nets(nodes: &Vec<&NetListNode>, comps: &mut Vec<netlist::Component>) -> (r: Result<
    Vec<netlist::Net>,
    NetlistError<ParseError>,
>)
    requires
        forall|k: int| 0 <= k < nodes.len() ==> solid((#[trigger] nodes@[k])@),
    ensures
        match nets_of(ref_models(nodes@), component_models(old(comps)@)) {
            Ok((after, nets)) => r matches Ok(v) && net_models(v@) == nets && component_models(
                final(comps)@,
            ) == after,
            Err(e) => r matches Err(err) && err@ == e,
        },
{
    let ghost all = ref_models(nodes@);
    let ghost start = component_models(comps@);
    let mut out: Vec<netlist::Net> = Vec::new();
    let mut i: usize = 0;
    proof {
        assert(all.skip(0) == all);
        assert(net_models(out@) =~= Seq::<NetModel>::empty());
        if let Ok((last, more)) = nets_of(all, start) {
            assert(net_models(out@) + more =~= more);
        }
    }
    while i < nodes.len()
        invariant
            i <= nodes.len(),
            all == ref_models(nodes@),
            start == component_models(old(comps)@),
            forall|k: int| 0 <= k < nodes.len() ==> solid((#[trigger] nodes@[k])@),
            match nets_of(all.skip(i as int), component_models(comps@)) {
                Ok((last, more)) => nets_of(all, start) == Ok::<_, NetlistFault<ParseError>>(
                    (last, net_models(out@) + more),
                ),
                Err(e) => nets_of(all, start) == Err::<(Seq<ComponentModel>, Seq<NetModel>), _>(e),
            },
        decreases nodes.len() - i,
    {
        let ghost here = all.skip(i as int);
        assert(here[0] == nodes@[i as int]@);
        assert(here.skip(1) == all.skip(i + 1));
        match parse_net(nodes[i], comps) {
            Err(e) => return Err(e),
            Ok(net) => {
                let ghost before = net_models(out@);
                out.push(net);
                proof {
                    assert(net_models(out@) =~= before.push(net@));
                    if let Ok((last, more)) = nets_of(all.skip(i + 1), component_models(comps@)) {
                        assert(before + (seq![net@] + more) =~= net_models(out@) + more);
                    }
                }
            },
        }
        i += 1;
    }
    assert(net_models(out@) + Seq::<NetModel>::empty() =~= net_models(out@));
    assert(all.skip(all.len() as int).len() == 0);
    Ok(out)
}

fn push_sheet_names(nodes: &Vec<&NetListNode>, out: &mut Vec<String>)
    requires
        forall|k: int| 0 <= k < nodes.len() ==> solid((#[trigger] nodes@[k])@),
    ensures
        texts(final(out)@) == texts(old(out)@) + sheet_names(ref_models(nodes@)),
{
    let ghost all = ref_models(nodes@);
    let mut i: usize = 0;
    assert(all.skip(0) == all);
    while i < nodes.len()
        invariant
            i <= nodes.len(),
            all == ref_models(nodes@),
            forall|k: int| 0 <= k < nodes.len() ==> solid((#[trigger] nodes@[k])@),
            texts(out@) + sheet_names(all.skip(i as int)) == texts(old(out)@) + sheet_names(all),
        decreases nodes.len() - i,
    {
        let ghost rest = sheet_names(all.skip(i + 1));
        let ghost before = texts(out@);
        assert(all.skip(i as int)[0] == nodes@[i as int]@);
        assert(all.skip(i as int).skip(1) == all.skip(i + 1));
        match read_only(nodes[i], "name") {
            Ok(name) => {
                out.push(name);
                assert(texts(out@) =~= before.push(name@));
                assert(before + (seq![name@] + rest) =~= texts(out@) + rest);
            },
            Err(_) => {
                assert(before + (Seq::<Seq<char>>::empty() + rest) =~= before + rest);
            },
        }
        i += 1;
    }
    assert(all.skip(all.len() as int).len() == 0);
    assert(texts(out@) + Seq::<Seq<char>>::empty() =~= texts(out@));
}

fn read_sheets(tree: &NetListNode) -> (r: Vec<String>)
    requires
        solid(tree@),
    ensures
        texts(r@) == sheets_of(tree@),
{
    let mut out: Vec<String> = Vec::new();
    assert(texts(out@) =~= Seq::<Seq<char>>::empty());
    proof {
        lemma_solid_searchable(tree@, symbol("design"@));
    }
    let headers = match tree.get_child(&Token::sym("design")) {
        Ok(headers) => headers,
        Err(_) => return out,
    };
    let ghost all = ref_models(headers@);
    let mut i: usize = 0;
    assert(all.skip(0) == all);
    assert(texts(out@) + declared_sheets(all) =~= declared_sheets(all));
    while i < headers.len()
        invariant
            i <= headers.len(),
            all == ref_models(headers@),
            forall|k: int| 0 <= k < headers.len() ==> solid((#[trigger] headers@[k])@),
            texts(out@) + declared_sheets(all.skip(i as int)) == declared_sheets(all),
        decreases headers.len() - i,
    {
        let ghost rest = declared_sheets(all.skip(i + 1));
        let ghost before = texts(out@);
        assert(all.skip(i as int)[0] == headers@[i as int]@);
        assert(all.skip(i as int).skip(1) == all.skip(i + 1));
        proof {
            lemma_solid_children(headers@[i as int]@);
        }
        match headers[i].get_direct_child(&Token::sym("sheet")) {
            Ok(sheets) => {
                push_sheet_names(&sheets, &mut out);
                assert(before + (sheet_names(ref_models(sheets@)) + rest) =~= texts(out@) + rest);
            },
            Err(_) => {
                assert(before + (Seq::<Seq<char>>::empty() + rest) =~= before + rest);
            },
        }
        i += 1;
    }
    assert(all.skip(all.len() as int).len() == 0);
    assert(texts(out@) + Seq::<Seq<char>>::empty() =~= texts(out@));
    out
}

/// Whether the first node of an export's text is closed, as `parse_netlist` needs it.
pub fn is_closed_export(data: &String) -> (r: bool)
    ensures
        r == closed_export(data@),
{
    match scan_all(data.as_str()) {
        Err(_) => true,
        Ok(syms) => {
            let mut pos: usize = 0;
            assert(lexemes(syms@).skip(0) == lexemes(syms@));
            build_node(&syms, &mut pos).is_some()
        },
    }
}

/// The netlist that the text of an export describes.
pub fn parse_netlist(data: &String) -> (r: Result<netlist::Netlist, NetlistError<ParseError>>)
    requires
        closed_export(data@),
    ensures
        match parsed(data@) {
            Ok(model) => r matches Ok(n) && n@ == model,
            Err(e) => r matches Err(err) && err@ == e,
        },
{
    let syms = match scan_all(data.as_str()) {
        Ok(syms) => syms,
        Err(e) => return Err(NetlistError::Unreadable(e)),
    };
    let nodetree = match structurize(&syms) {
        Ok(nodetree) => nodetree,
        Err(e) => return Err(NetlistError::Unreadable(e)),
    };
    proof {
        lemma_solid_searchable(nodetree@, symbol("comp"@));
    }
    let comp_nodes = match nodetree.get_child(&Token::sym("comp")) {
        Ok(comp_nodes) => comp_nodes,
        Err(e) => return Err(NetlistError::Unreadable(e)),
    };
    let mut comps = match read_components(&comp_nodes, &nodetree) {
        Ok(comps) => comps,
        Err(e) => return Err(NetlistError::Unreadable(e)),
    };
    proof {
        lemma_solid_searchable(nodetree@, symbol("net"@));
    }
    let net_nodes = match nodetree.get_child(&Token::sym("net")) {
        Ok(net_nodes) => net_nodes,
        Err(e) => return Err(NetlistError::Unreadable(e)),
    };
    let nets = match read_nets(&net_nodes, &mut comps) {
        Ok(nets) => nets,
        Err(e) => return Err(e),
    };
    let sheets = read_sheets(&nodetree);
    Ok(netlist::Netlist { components: comps, nets, sheets })
}

} // verus!
