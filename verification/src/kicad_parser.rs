//! A parser for exports written without white space, over a fixed set of keywords.
use vstd::prelude::*;

use crate::lists::{first_where, lemma_first_where};
use crate::netlist;
use crate::netlist::{parts, terminals, wires, PartModel, TerminalModel, WireModel};
use crate::parser::error::{NetlistError, NetlistFault};
use crate::text::{chars_of, is_ascii, parse_unsigned, same_text, text_of, unsigned_value};

verus! {

/// A keyword of the export.
#[derive(Debug, Clone, Copy, PartialEq, Eq, Structural)]
pub enum Keyword {
    Export,
    Version,
    Design,
    Source,
    Date,
    Tool,
    Sheet,
    Number,
    Num,
    Names,
    Name,
    Tstamps,
    TitleBlock,
    Comment,
    Value,
    Components,
    Ref,
    Footprints,
    Footprint,
    Description,
    Fields,
    Field,
    Units,
    Unit,
    Pins,
    PinType,
    PinFunction,
    Pin,
    Parts,
    Part,
    Nets,
    Net,
    Property,
    Path,
    Datasheet,
    Groups,
    Variants,
    Docs,
    Fp,
    Type,
    Logical,
    Uri,
    Code,
    Class,
    LibSource,
    Libraries,
    Library,
    Node,
    Function,
    Lib,
    Comp,
    Title,
    Company,
    Rev,
}

/// The keyword that a text spells.
pub open spec fn keyword_of(s: Seq<char>) -> Option<Keyword> {
    if s == "export"@ {
        Some(Keyword::Export)
    } else if s == "version"@ {
        Some(Keyword::Version)
    } else if s == "design"@ {
        Some(Keyword::Design)
    } else if s == "source"@ {
        Some(Keyword::Source)
    } else if s == "date"@ {
        Some(Keyword::Date)
    } else if s == "tool"@ {
        Some(Keyword::Tool)
    } else if s == "sheet"@ {
        Some(Keyword::Sheet)
    } else if s == "number"@ {
        Some(Keyword::Number)
    } else if s == "num"@ {
        Some(Keyword::Num)
    } else if s == "names"@ {
        Some(Keyword::Names)
    } else if s == "name"@ {
        Some(Keyword::Name)
    } else if s == "tstamps"@ {
        Some(Keyword::Tstamps)
    } else if s == "title_block"@ {
        Some(Keyword::TitleBlock)
    } else if s == "comment"@ {
        Some(Keyword::Comment)
    } else if s == "value"@ {
        Some(Keyword::Value)
    } else if s == "components"@ {
        Some(Keyword::Components)
    } else if s == "ref"@ {
        Some(Keyword::Ref)
    } else if s == "footprints"@ {
        Some(Keyword::Footprints)
    } else if s == "footprint"@ {
        Some(Keyword::Footprint)
    } else if s == "description"@ {
        Some(Keyword::Description)
    } else if s == "fields"@ {
        Some(Keyword::Fields)
    } else if s == "field"@ {
        Some(Keyword::Field)
    } else if s == "units"@ {
        Some(Keyword::Units)
    } else if s == "unit"@ {
        Some(Keyword::Unit)
    } else if s == "pins"@ {
        Some(Keyword::Pins)
    } else if s == "pintype"@ {
        Some(Keyword::PinType)
    } else if s == "pinfunction"@ {
        Some(Keyword::PinFunction)
    } else if s == "pin"@ {
        Some(Keyword::Pin)
    } else if s == "parts"@ {
        Some(Keyword::Parts)
    } else if s == "part"@ {
        Some(Keyword::Part)
    } else if s == "nets"@ {
        Some(Keyword::Nets)
    } else if s == "net"@ {
        Some(Keyword::Net)
    } else if s == "property"@ {
        Some(Keyword::Property)
    } else if s == "path"@ {
        Some(Keyword::Path)
    } else if s == "datasheet"@ {
        Some(Keyword::Datasheet)
    } else if s == "groups"@ {
        Some(Keyword::Groups)
    } else if s == "variants"@ {
        Some(Keyword::Variants)
    } else if s == "docs"@ {
        Some(Keyword::Docs)
    } else if s == "fp"@ {
        Some(Keyword::Fp)
    } else if s == "type"@ {
        Some(Keyword::Type)
    } else if s == "logical"@ {
        Some(Keyword::Logical)
    } else if s == "uri"@ {
        Some(Keyword::Uri)
    } else if s == "code"@ {
        Some(Keyword::Code)
    } else if s == "class"@ {
        Some(Keyword::Class)
    } else if s == "libsource"@ {
        Some(Keyword::LibSource)
    } else if s == "libraries"@ {
        Some(Keyword::Libraries)
    } else if s == "library"@ {
        Some(Keyword::Library)
    } else if s == "node"@ {
        Some(Keyword::Node)
    } else if s == "function"@ {
        Some(Keyword::Function)
    } else if s == "lib"@ {
        Some(Keyword::Lib)
    } else if s == "comp"@ {
        Some(Keyword::Comp)
    } else if s == "title"@ {
        Some(Keyword::Title)
    } else if s == "company"@ {
        Some(Keyword::Company)
    } else if s == "rev"@ {
        Some(Keyword::Rev)
    } else {
        None
    }
}

fn find_keyword(s: &str) -> (r: Option<Keyword>)
    ensures
        r == keyword_of(s@),
{
    if same_text(s, "export") {
        Some(Keyword::Export)
    } else if same_text(s, "version") {
        Some(Keyword::Version)
    } else if same_text(s, "design") {
        Some(Keyword::Design)
    } else if same_text(s, "source") {
        Some(Keyword::Source)
    } else if same_text(s, "date") {
        Some(Keyword::Date)
    } else if same_text(s, "tool") {
        Some(Keyword::Tool)
    } else if same_text(s, "sheet") {
        Some(Keyword::Sheet)
    } else if same_text(s, "number") {
        Some(Keyword::Number)
    } else if same_text(s, "num") {
        Some(Keyword::Num)
    } else if same_text(s, "names") {
        Some(Keyword::Names)
    } else if same_text(s, "name") {
        Some(Keyword::Name)
    } else if same_text(s, "tstamps") {
        Some(Keyword::Tstamps)
    } else if same_text(s, "title_block") {
        Some(Keyword::TitleBlock)
    } else if same_text(s, "comment") {
        Some(Keyword::Comment)
    } else if same_text(s, "value") {
        Some(Keyword::Value)
    } else if same_text(s, "components") {
        Some(Keyword::Components)
    } else if same_text(s, "ref") {
        Some(Keyword::Ref)
    } else if same_text(s, "footprints") {
        Some(Keyword::Footprints)
    } else if same_text(s, "footprint") {
        Some(Keyword::Footprint)
    } else if same_text(s, "description") {
        Some(Keyword::Description)
    } else if same_text(s, "fields") {
        Some(Keyword::Fields)
    } else if same_text(s, "field") {
        Some(Keyword::Field)
    } else if same_text(s, "units") {
        Some(Keyword::Units)
    } else if same_text(s, "unit") {
        Some(Keyword::Unit)
    } else if same_text(s, "pins") {
        Some(Keyword::Pins)
    } else if same_text(s, "pintype") {
        Some(Keyword::PinType)
    } else if same_text(s, "pinfunction") {
        Some(Keyword::PinFunction)
    } else if same_text(s, "pin") {
        Some(Keyword::Pin)
    } else if same_text(s, "parts") {
        Some(Keyword::Parts)
    } else if same_text(s, "part") {
        Some(Keyword::Part)
    } else if same_text(s, "nets") {
        Some(Keyword::Nets)
    } else if same_text(s, "net") {
        Some(Keyword::Net)
    } else if same_text(s, "property") {
        Some(Keyword::Property)
    } else if same_text(s, "path") {
        Some(Keyword::Path)
    } else if same_text(s, "datasheet") {
        Some(Keyword::Datasheet)
    } else if same_text(s, "groups") {
        Some(Keyword::Groups)
    } else if same_text(s, "variants") {
        Some(Keyword::Variants)
    } else if same_text(s, "docs") {
        Some(Keyword::Docs)
    } else if same_text(s, "fp") {
        Some(Keyword::Fp)
    } else if same_text(s, "type") {
        Some(Keyword::Type)
    } else if same_text(s, "logical") {
        Some(Keyword::Logical)
    } else if same_text(s, "uri") {
        Some(Keyword::Uri)
    } else if same_text(s, "code") {
        Some(Keyword::Code)
    } else if same_text(s, "class") {
        Some(Keyword::Class)
    } else if same_text(s, "libsource") {
        Some(Keyword::LibSource)
    } else if same_text(s, "libraries") {
        Some(Keyword::Libraries)
    } else if same_text(s, "library") {
        Some(Keyword::Library)
    } else if same_text(s, "node") {
        Some(Keyword::Node)
    } else if same_text(s, "function") {
        Some(Keyword::Function)
    } else if same_text(s, "lib") {
        Some(Keyword::Lib)
    } else if same_text(s, "comp") {
        Some(Keyword::Comp)
    } else if same_text(s, "title") {
        Some(Keyword::Title)
    } else if same_text(s, "company") {
        Some(Keyword::Company)
    } else if same_text(s, "rev") {
        Some(Keyword::Rev)
    } else {
        None
    }
}

/// Whether a keyword is also how a longer one begins.
pub open spec fn begins_another(k: Keyword) -> bool {
    match k {
        Keyword::Num
        | Keyword::Name
        | Keyword::Footprint
        | Keyword::Field
        | Keyword::Unit
        | Keyword::Pin
        | Keyword::Part
        | Keyword::Net
        | Keyword::Lib
        | Keyword::Comp
        | Keyword::Title => true,
        _ => false,
    }
}

/// Whether a character behind a keyword makes it the beginning of a longer one.
pub open spec fn goes_on(k: Keyword, c: char) -> bool {
    match k {
        Keyword::Num => c == 'b',
        Keyword::Name => c == 's',
        Keyword::Footprint => c == 's',
        Keyword::Field => c == 's',
        Keyword::Unit => c == 's',
        Keyword::Pin => c == 's' || c == 't' || c == 'f',
        Keyword::Part => c == 's',
        Keyword::Net => c == 's',
        Keyword::Lib => c == 's' || c == 'r',
        Keyword::Comp => c == 'a' || c == 'o',
        Keyword::Title => c == '_',
        _ => false,
    }
}

fn is_beginning(k: Keyword) -> (r: bool)
    ensures
        r == begins_another(k),
{
    match k {
        Keyword::Num
        | Keyword::Name
        | Keyword::Footprint
        | Keyword::Field
        | Keyword::Unit
        | Keyword::Pin
        | Keyword::Part
        | Keyword::Net
        | Keyword::Lib
        | Keyword::Comp
        | Keyword::Title => true,
        _ => false,
    }
}

fn is_longer(k: Keyword, c: char) -> (r: bool)
    ensures
        r == goes_on(k, c),
{
    match k {
        Keyword::Num => c == 'b',
        Keyword::Name => c == 's',
        Keyword::Footprint => c == 's',
        Keyword::Field => c == 's',
        Keyword::Unit => c == 's',
        Keyword::Pin => c == 's' || c == 't' || c == 'f',
        Keyword::Part => c == 's',
        Keyword::Net => c == 's',
        Keyword::Lib => c == 's' || c == 'r',
        Keyword::Comp => c == 'a' || c == 'o',
        Keyword::Title => c == '_',
        _ => false,
    }
}

/// A token of the export.
#[derive(Debug, PartialEq)]
pub enum Symbol {
    ParenLeft,
    ParenRight,
    Key(Keyword),
    Val(String),
}

pub enum Sign {
    ParenLeft,
    ParenRight,
    Key(Keyword),
    Val(Seq<char>),
}

impl View for Symbol {
    type V = Sign;

    open spec fn view(&self) -> Sign {
        match self {
            Symbol::ParenLeft => Sign::ParenLeft,
            Symbol::ParenRight => Sign::ParenRight,
            Symbol::Key(k) => Sign::Key(*k),
            Symbol::Val(s) => Sign::Val(s@),
        }
    }
}

pub open spec fn signs(v: Seq<Symbol>) -> Seq<Sign> {
    v.map_values(|s: Symbol| s@)
}

impl Symbol {
    /// Whether two tokens are the same.
    pub fn same(&self, other: &Symbol) -> (r: bool)
        ensures
            r == (self@ == other@),
    {
        match (self, other) {
            (Symbol::ParenLeft, Symbol::ParenLeft) => true,
            (Symbol::ParenRight, Symbol::ParenRight) => true,
            (Symbol::Key(a), Symbol::Key(b)) => *a == *b,
            (Symbol::Val(a), Symbol::Val(b)) => same_text(a.as_str(), b.as_str()),
            _ => false,
        }
    }
}

/// What the first `n` characters of a text are.
pub enum Prefix {
    /// A token.
    Whole(Sign),
    /// Too few.
    Short,
    /// The text ends, or leaves ASCII, before there is a token.
    Broken,
}

/// What the first `n` characters of a text are.
pub open spec fn prefix_at(s: Seq<char>, n: int) -> Prefix {
    if n > s.len() || !is_ascii(s[n - 1]) {
        Prefix::Broken
    } else {
        let sub = s.take(n);
        match keyword_of(sub) {
            Some(k) => if begins_another(k) && (n >= s.len() || !is_ascii(s[n])) {
                Prefix::Broken
            } else if begins_another(k) && goes_on(k, s[n]) {
                Prefix::Short
            } else {
                Prefix::Whole(Sign::Key(k))
            },
            None => if s[0] == '"' && s[n - 1] == '"' {
                Prefix::Whole(Sign::Val(s.subrange(1, n - 1)))
            } else {
                Prefix::Short
            },
        }
    }
}

/// The shortest token of at least `n` characters at the start of a text, and its length.
pub open spec fn token_from(s: Seq<char>, n: int) -> Option<(Sign, int)>
    decreases s.len() + 1 - n,
{
    match prefix_at(s, n) {
        Prefix::Whole(t) => Some((t, n)),
        Prefix::Broken => None,
        Prefix::Short => if n <= s.len() {
            token_from(s, n + 1)
        } else {
            None
        },
    }
}

/// The token at the start of a text and its length, if the text starts with one.
pub open spec fn first_sign(s: Seq<char>) -> Option<(Sign, int)> {
    if s.len() == 0 || !is_ascii(s[0]) {
        None
    } else if s[0] == '(' {
        Some((Sign::ParenLeft, 1))
    } else if s[0] == ')' {
        Some((Sign::ParenRight, 1))
    } else {
        token_from(s, 2)
    }
}

/// The tokens of a text, if it is made of tokens.
pub open spec fn all_signs(s: Seq<char>) -> Option<Seq<Sign>>
    decreases s.len(),
{
    if s.len() == 0 {
        Some(Seq::empty())
    } else {
        match first_sign(s) {
            None => None,
            Some((t, n)) => if 0 < n <= s.len() {
                match all_signs(s.skip(n)) {
                    Some(more) => Some(seq![t] + more),
                    None => None,
                }
            } else {
                None
            },
        }
    }
}

proof fn lemma_token_from(s: Seq<char>, n: int)
    requires
        1 <= n,
    ensures
        token_from(s, n) matches Some((t, k)) ==> n <= k <= s.len(),
    decreases s.len() + 1 - n,
{
    if prefix_at(s, n) is Short && n <= s.len() {
        lemma_token_from(s, n + 1);
    }
}

proof fn lemma_first_sign(s: Seq<char>)
    ensures
        first_sign(s) matches Some((t, n)) ==> 0 < n <= s.len(),
{
    lemma_token_from(s, 2);
}

/// The token at a place and its length, if there is one.
fn token_at(data: &Vec<char>, from: usize) -> (r: Option<(Symbol, usize)>)
    requires
        from < data.len(),
    ensures
        match first_sign(data@.skip(from as int)) {
            Some((t, n)) => r matches Some((sym, k)) && sym@ == t && k == n && 0 < n <= data.len()
                - from,
            None => r is None,
        },
{
    let ghost s = data@.skip(from as int);
    assert(s[0] == data@[from as int]);
    if data[from] == '(' {
        return Some((Symbol::ParenLeft, 1));
    }
    if data[from] == ')' {
        return Some((Symbol::ParenRight, 1));
    }
    if data[from] > '\u{7f}' {
        return None;
    }
    let mut n: usize = 2;
    while n <= data.len() - from
        invariant
            from < data.len(),
            2 <= n <= data.len() - from + 1,
            s == data@.skip(from as int),
            first_sign(s) == token_from(s, n as int),
        decreases data.len() - from + 1 - n,
    {
        let sub = text_of(data, from, from + n);
        assert(data@.subrange(from as int, from + n) =~= s.take(n as int));
        assert(s[0] == data@[from as int] && s[n - 1] == data@[from + n - 1]);
        if data[from + n - 1] > '\u{7f}' {
            return None;
        }
        match find_keyword(sub.as_str()) {
            Some(k) => {
                if is_beginning(k) {
                    if from + n == data.len() {
                        return None;
                    }
                    assert(s[n as int] == data@[from + n]);
                    if data[from + n] > '\u{7f}' {
                        return None;
                    }
                    if !is_longer(k, data[from + n]) {
                        return Some((Symbol::Key(k), n));
                    }
                } else {
                    return Some((Symbol::Key(k), n));
                }
            },
            None => {
                if data[from] == '"' && data[from + n - 1] == '"' {
                    assert(data@.subrange(from + 1, from + n - 1) =~= s.subrange(1, n - 1));
                    let text = text_of(data, from + 1, from + n - 1);
                    return Some((Symbol::Val(text), n));
                }
            },
        }
        if n == data.len() - from {
            assert(token_from(s, n + 1) is None);
            return None;
        }
        n += 1;
    }
    None
}

/// Takes the next token off the text, which must start with one or be at its end.
pub fn scan_next(data: &Vec<char>, pos: &mut usize) -> (r: Option<Symbol>)
    requires
        *old(pos) <= data.len(),
        *old(pos) < data.len() ==> first_sign(data@.skip(*old(pos) as int)) is Some,
    ensures
        *old(pos) == data.len() ==> r is None && *final(pos) == *old(pos),
        *old(pos) < data.len() ==> {
            let (t, n) = first_sign(data@.skip(*old(pos) as int)).unwrap();
            r matches Some(sym) && sym@ == t && *final(pos) == *old(pos) + n && *final(pos)
                <= data.len()
        },
{
    let from: usize = *pos;
    if from == data.len() {
        return None;
    }
    match token_at(data, from) {
        Some((sym, n)) => {
            *pos = from + n;
            Some(sym)
        },
        None => None,
    }
}

/// The tokens of a text that is made of them.
pub fn parse_symbol_tree(data: &String) -> (r: Vec<Symbol>)
    requires
        all_signs(data@) is Some,
    ensures
        signs(r@) == all_signs(data@).unwrap(),
{
    let v = chars_of(data.as_str());
    let mut syms: Vec<Symbol> = Vec::new();
    let mut pos: usize = 0;
    proof {
        assert(v@.skip(0) =~= v@);
        assert(signs(syms@) =~= Seq::<Sign>::empty());
        assert(signs(syms@) + all_signs(v@).unwrap() =~= all_signs(v@).unwrap());
    }
    while pos < v.len()
        invariant
            pos <= v.len(),
            v@ == data@,
            all_signs(v@) is Some,
            all_signs(v@.skip(pos as int)) is Some,
            signs(syms@) + all_signs(v@.skip(pos as int)).unwrap() == all_signs(v@).unwrap(),
        decreases v.len() - pos,
    {
        let ghost rest = v@.skip(pos as int);
        let ghost before = signs(syms@);
        let ghost start = pos as int;
        proof {
            lemma_first_sign(rest);
        }
        match scan_next(&v, &mut pos) {
            None => {},
            Some(sym) => {
                proof {
                    let (t, n) = first_sign(rest).unwrap();
                    assert(rest.skip(n) =~= v@.skip(pos as int));
                    let more = all_signs(v@.skip(pos as int)).unwrap();
                    assert(before + (seq![t] + more) =~= before.push(t) + more);
                }
                syms.push(sym);
                assert(signs(syms@) =~= before.push(sym@));
            },
        }
    }
    assert(v@.skip(v@.len() as int).len() == 0);
    assert(signs(syms@) + Seq::<Sign>::empty() =~= signs(syms@));
    syms
}

/// Whether a text is made of tokens.
pub fn is_tokens(data: &String) -> (r: bool)
    ensures
        r == (all_signs(data@) is Some),
{
    let v = chars_of(data.as_str());
    let mut pos: usize = 0;
    assert(v@.skip(0) =~= v@);
    while pos < v.len()
        invariant
            pos <= v.len(),
            v@ == data@,
            all_signs(v@) is Some <==> all_signs(v@.skip(pos as int)) is Some,
        decreases v.len() - pos,
    {
        let ghost rest = v@.skip(pos as int);
        proof {
            lemma_first_sign(rest);
        }
        match token_at(&v, pos) {
            None => return false,
            Some((_, n)) => {
                assert(rest.skip(n as int) =~= v@.skip(pos + n));
                pos = pos + n;
            },
        }
    }
    true
}

/// A node of the export: a list, or a leaf.
#[derive(Debug, PartialEq)]
pub enum NetListNode {
    Symbol(Symbol),
    Value(String),
    List(Vec<NetListNode>),
}

/// A node as the tree of what its tokens say.
pub enum Branch {
    Leaf(Sign),
    Text(Seq<char>),
    List(Seq<Branch>),
}

impl View for NetListNode {
    type V = Branch;

    open spec fn view(&self) -> Branch {
        self.model()
    }
}

impl NetListNode {
    pub open spec fn model(self) -> Branch
        decreases self,
    {
        match self {
            NetListNode::Symbol(s) => Branch::Leaf(s@),
            NetListNode::Value(s) => Branch::Text(s@),
            NetListNode::List(v) => Branch::List(
                Seq::new(
                    v@.len(),
                    |i: int|
                        if 0 <= i < v@.len() {
                            v@[i].model()
                        } else {
                            Branch::List(Seq::empty())
                        },
                ),
            ),
        }
    }
}

/// The contents of a list of nodes.
pub open spec fn branches(v: Seq<NetListNode>) -> Seq<Branch> {
    v.map_values(|n: NetListNode| n@)
}

/// The contents of a list of borrowed nodes.
pub open spec fn ref_branches(v: Seq<&NetListNode>) -> Seq<Branch> {
    v.map_values(|n: &NetListNode| n@)
}

/// The texts of a list of borrowed strings.
pub open spec fn ref_texts(v: Seq<&String>) -> Seq<Seq<char>> {
    v.map_values(|s: &String| s@)
}

/// No list in the tree is empty.
pub open spec fn solid(n: Branch) -> bool
    decreases n,
{
    match n {
        Branch::List(s) => s.len() > 0 && forall|i: int| 0 <= i < s.len() ==> solid(#[trigger] s[i]),
        _ => true,
    }
}

/// What is wrong with a tree.
#[derive(Debug, Clone, Copy, PartialEq, Eq, Structural)]
pub enum TreeError {
    NotSymbol,
    NotList,
    NotValue,
    /// The first element of a list is not a symbol.
    KeyNotSymbol,
    /// A list without elements.
    ShortList,
    /// A leaf other than the wanted one.
    OtherLeaf,
    /// A value stands where a node is wanted.
    LeafIsValue,
    /// A node has its key and nothing else.
    NoValue,
    /// A component or net lacks a field.
    NoField,
    NotComponent,
    NotNet,
    /// A net code that is not a number.
    BadNetCode,
}

/// The key of a list.
pub open spec fn branch_key(n: Branch) -> Result<Sign, TreeError> {
    match n {
        Branch::List(s) => match s[0] {
            Branch::Leaf(k) => Ok(k),
            _ => Err(TreeError::KeyNotSymbol),
        },
        _ => Err(TreeError::NotList),
    }
}

/// The tree can be searched for a key: no empty list is met before the nodes that have it.
pub open spec fn searchable(n: Branch, key: Sign) -> bool
    decreases n,
{
    match n {
        Branch::List(s) => s.len() > 0 && (branch_key(n) matches Ok(k) ==> k == key || forall|i: int|
            1 <= i < s.len() ==> searchable(#[trigger] s[i], key)),
        _ => true,
    }
}

/// A tree without empty lists can be searched.
proof fn lemma_solid_searchable(n: Branch, key: Sign)
    requires
        solid(n),
    ensures
        searchable(n, key),
    decreases n,
{
    if let Branch::List(s) = n {
        assert forall|i: int| 1 <= i < s.len() implies searchable(#[trigger] s[i], key) by {
            lemma_solid_searchable(s[i], key);
        }
    }
}

/// The nodes with a key in a tree: the tree itself, or what its children have of them,
/// children that are other leaves or have no key being passed over.
pub open spec fn found(n: Branch, key: Sign) -> Result<Seq<Branch>, TreeError>
    decreases n,
{
    match n {
        Branch::Leaf(s) => if s == key {
            Ok(seq![n])
        } else {
            Err(TreeError::OtherLeaf)
        },
        Branch::Text(_) => Err(TreeError::LeafIsValue),
        Branch::List(s) => match branch_key(n) {
            Err(e) => Err(e),
            Ok(k) => if k == key {
                Ok(seq![n])
            } else {
                Ok(found_in(s, s.len() as int, key))
            },
        },
    }
}

/// What the children up to place `k`, the first left out, have of the wanted nodes.
pub open spec fn found_in(s: Seq<Branch>, k: int, key: Sign) -> Seq<Branch>
    decreases s, k,
{
    if k <= 1 || k > s.len() {
        Seq::empty()
    } else {
        found_in(s, k - 1, key) + (match found(s[k - 1], key) {
            Ok(v) => v,
            Err(_) => Seq::empty(),
        })
    }
}

/// The value of a node: the first element behind its key.
pub open spec fn branch_value(n: Branch) -> Result<Seq<char>, TreeError> {
    match n {
        Branch::List(s) => if s.len() < 1 {
            Err(TreeError::ShortList)
        } else if s.len() < 2 {
            Err(TreeError::NoValue)
        } else {
            match s[1] {
                Branch::Text(t) => Ok(t),
                _ => Err(TreeError::NotValue),
            }
        },
        _ => Err(TreeError::NotList),
    }
}

/// The values of a list of nodes, or the first error.
pub open spec fn branch_values(s: Seq<Branch>) -> Result<Seq<Seq<char>>, TreeError>
    decreases s.len(),
{
    if s.len() == 0 {
        Ok(Seq::empty())
    } else {
        match branch_value(s[0]) {
            Err(e) => Err(e),
            Ok(t) => match branch_values(s.skip(1)) {
                Err(e) => Err(e),
                Ok(more) => Ok(seq![t] + more),
            },
        }
    }
}

/// The values of the nodes with a key.
pub open spec fn found_values(n: Branch, key: Sign) -> Result<Seq<Seq<char>>, TreeError> {
    match found(n, key) {
        Err(e) => Err(e),
        Ok(s) => branch_values(s),
    }
}

/// The first of the values of the nodes with a key.
pub open spec fn first_value(n: Branch, key: Sign) -> Result<Seq<char>, TreeError> {
    match found_values(n, key) {
        Err(e) => Err(e),
        Ok(v) => if v.len() == 0 {
            Err(TreeError::NoField)
        } else {
            Ok(v[0])
        },
    }
}

impl NetListNode {
    pub fn as_symbol(&self) -> (r: Result<&Symbol, TreeError>)
        ensures
            match self@ {
                Branch::Leaf(s) => r matches Ok(x) && x@ == s,
                _ => r matches Err(e) && e == TreeError::NotSymbol,
            },
    {
        match self {
            NetListNode::Symbol(sym) => Ok(sym),
            _ => Err(TreeError::NotSymbol),
        }
    }

    pub fn as_list(&self) -> (r: Result<&Vec<NetListNode>, TreeError>)
        ensures
            match self@ {
                Branch::List(s) => r matches Ok(v) && branches(v@) == s,
                _ => r matches Err(e) && e == TreeError::NotList,
            },
    {
        match self {
            NetListNode::List(list) => {
                assert(self@ matches Branch::List(s) && s =~= branches(list@));
                Ok(list)
            },
            _ => Err(TreeError::NotList),
        }
    }

    pub fn as_val(&self) -> (r: Result<&String, TreeError>)
        ensures
            match self@ {
                Branch::Text(t) => r matches Ok(x) && x@ == t,
                _ => r matches Err(e) && e == TreeError::NotValue,
            },
    {
        match self {
            NetListNode::Value(val) => Ok(val),
            _ => Err(TreeError::NotValue),
        }
    }

    /// The key of a list.
    pub fn key(&self) -> (r: Result<&Symbol, TreeError>)
        requires
            self@ matches Branch::List(s) ==> s.len() > 0,
        ensures
            match branch_key(self@) {
                Ok(k) => r matches Ok(x) && x@ == k,
                Err(e) => r matches Err(err) && err == e,
            },
    {
        match self {
            NetListNode::List(list) => {
                assert(self@ matches Branch::List(s) && s =~= branches(list@));
                match &list[0] {
                    NetListNode::Symbol(sym) => Ok(sym),
                    _ => Err(TreeError::KeyNotSymbol),
                }
            },
            _ => Err(TreeError::NotList),
        }
    }

    /// The elements of a list behind its key.
    pub fn list(&self) -> (r: Result<&[NetListNode], TreeError>)
        ensures
            match self@ {
                Branch::List(s) => if s.len() == 0 {
                    r matches Err(e) && e == TreeError::ShortList
                } else {
                    r matches Ok(v) && branches(v@) == s.skip(1)
                },
                _ => r matches Err(e) && e == TreeError::NotList,
            },
    {
        match self {
            NetListNode::List(list) => {
                assert(self@ matches Branch::List(s) && s =~= branches(list@));
                if list.len() == 0 {
                    return Err(TreeError::ShortList);
                }
                let rest = vstd::slice::slice_subrange(list.as_slice(), 1, list.len());
                assert(branches(rest@) =~= branches(list@).skip(1));
                Ok(rest)
            },
            _ => Err(TreeError::NotList),
        }
    }

    /// The nodes with a key in the tree.
    pub fn get_child(&self, child: &Symbol) -> (r: Result<Vec<&NetListNode>, TreeError>)
        requires
            searchable(self@, child@),
        ensures
            match found(self@, child@) {
                Ok(s) => r matches Ok(v) && ref_branches(v@) == s && (solid(self@) ==> forall|i: int|
                    0 <= i < v.len() ==> solid((#[trigger] v@[i])@)),
                Err(e) => r matches Err(err) && err == e,
            },
        decreases self,
    {
        match self {
            NetListNode::Symbol(sym) => {
                if sym.same(child) {
                    let mut out: Vec<&NetListNode> = Vec::new();
                    out.push(self);
                    assert(ref_branches(out@) =~= seq![self@]);
                    Ok(out)
                } else {
                    Err(TreeError::OtherLeaf)
                }
            },
            NetListNode::Value(_) => Err(TreeError::LeafIsValue),
            NetListNode::List(list) => {
                let ghost s = branches(list@);
                assert(self@ matches Branch::List(t) && t =~= s);
                match self.key() {
                    Err(e) => Err(e),
                    Ok(sym) => {
                        let mut out: Vec<&NetListNode> = Vec::new();
                        if sym.same(child) {
                            out.push(self);
                            assert(ref_branches(out@) =~= seq![self@]);
                            return Ok(out);
                        }
                        let mut i: usize = 1;
                        assert(ref_branches(out@) =~= Seq::<Branch>::empty());
                        while i < list.len()
                            invariant
                                1 <= i <= list.len(),
                                s == branches(list@),
                                self@ == Branch::List(s),
                                *self == NetListNode::List(*list),
                                forall|k: int|
                                    1 <= k < s.len() ==> searchable(#[trigger] s[k], child@),
                                ref_branches(out@) == found_in(s, i as int, child@),
                                solid(self@) ==> forall|k: int|
                                    0 <= k < out.len() ==> solid((#[trigger] out@[k])@),
                            decreases list.len() - i,
                        {
                            let ghost was = out@;
                            assert(s[i as int] == list@[i as int]@);
                            assert(solid(self@) ==> solid(s[i as int]));
                            match list[i].get_child(child) {
                                Ok(more) => {
                                    let n = more.len();
                                    let mut k: usize = 0;
                                    while k < n
                                        invariant
                                            k <= n,
                                            n == more.len(),
                                            out@ == was + more@.take(k as int),
                                        decreases n - k,
                                    {
                                        out.push(more[k]);
                                        assert(out@ =~= was + more@.take(k + 1));
                                        k += 1;
                                    }
                                    assert(out@ =~= was + more@);
                                    assert(ref_branches(out@) =~= ref_branches(was) + ref_branches(
                                        more@,
                                    ));
                                },
                                Err(_) => {
                                    assert(ref_branches(was) + Seq::<Branch>::empty()
                                        =~= ref_branches(was));
                                },
                            }
                            i += 1;
                        }
                        Ok(out)
                    },
                }
            },
        }
    }

    fn first_item(&self) -> (r: Result<&String, TreeError>)
        ensures
            match branch_value(self@) {
                Ok(t) => r matches Ok(x) && x@ == t,
                Err(e) => r matches Err(err) && err == e,
            },
    {
        let items = match self.list() {
            Ok(items) => items,
            Err(e) => return Err(e),
        };
        let ghost all = self@->List_0;
        assert(branches(items@).len() == all.skip(1).len());
        if items.len() == 0 {
            return Err(TreeError::NoValue);
        }
        assert(branches(items@)[0] == items@[0]@ && all.skip(1)[0] == all[1]);
        items[0].as_val()
    }

    /// The values of the nodes with a key.
    pub fn get_child_val(&self, child: &Symbol) -> (r: Result<Vec<&String>, TreeError>)
        requires
            searchable(self@, child@),
        ensures
            match found_values(self@, child@) {
                Ok(s) => r matches Ok(v) && ref_texts(v@) == s,
                Err(e) => r matches Err(err) && err == e,
            },
    {
        let nodes = match self.get_child(child) {
            Ok(nodes) => nodes,
            Err(e) => return Err(e),
        };
        let ghost all = ref_branches(nodes@);
        let mut out: Vec<&String> = Vec::new();
        let mut i: usize = 0;
        proof {
            assert(all.skip(0) == all);
            assert(ref_texts(out@) =~= Seq::<Seq<char>>::empty());
            if let Ok(more) = branch_values(all) {
                assert(ref_texts(out@) + more =~= more);
            }
        }
        while i < nodes.len()
            invariant
                i <= nodes.len(),
                all == ref_branches(nodes@),
                found(self@, child@) == Ok::<_, TreeError>(all),
                match branch_values(all.skip(i as int)) {
                    Ok(more) => branch_values(all) == Ok::<_, TreeError>(ref_texts(out@) + more),
                    Err(e) => branch_values(all) == Err::<Seq<Seq<char>>, _>(e),
                },
            decreases nodes.len() - i,
        {
            let ghost here = all.skip(i as int);
            assert(here[0] == nodes@[i as int]@);
            assert(here.skip(1) == all.skip(i + 1));
            match nodes[i].first_item() {
                Err(e) => return Err(e),
                Ok(t) => {
                    let ghost before = ref_texts(out@);
                    out.push(t);
                    proof {
                        assert(ref_texts(out@) =~= before.push(t@));
                        if let Ok(more) = branch_values(all.skip(i + 1)) {
                            assert(before + (seq![t@] + more) =~= ref_texts(out@) + more);
                        }
                    }
                },
            }
            i += 1;
        }
        assert(ref_texts(out@) + Seq::<Seq<char>>::empty() =~= ref_texts(out@));
        assert(all.skip(all.len() as int).len() == 0);
        Ok(out)
    }
}

/// The node at the start of the tokens and the tokens behind it, if they start with one.
pub open spec fn grown(s: Seq<Sign>) -> Option<(Branch, Seq<Sign>)>
    decreases s.len(), 0nat,
{
    if s.len() < 2 || !(s[0] is ParenLeft) || s[1] is ParenLeft || s[1] is ParenRight {
        None
    } else {
        grown_rest(s.skip(2), seq![leaf_of(s[1])])
    }
}

/// A token as a leaf of the tree.
pub open spec fn leaf_of(s: Sign) -> Branch {
    match s {
        Sign::Val(t) => Branch::Text(t),
        other => Branch::Leaf(other),
    }
}

/// The node with the elements `done` so far, the rest of it read up to its closing
/// parenthesis.
pub open spec fn grown_rest(s: Seq<Sign>, done: Seq<Branch>) -> Option<(Branch, Seq<Sign>)>
    decreases s.len(), 1nat,
{
    if s.len() == 0 {
        None
    } else {
        match s[0] {
            Sign::ParenRight => Some(
                (
                    if done.len() < 2 {
                        done.last()
                    } else {
                        Branch::List(done)
                    },
                    s.skip(1),
                ),
            ),
            Sign::ParenLeft => match grown(s) {
                Some((n, rest)) => if rest.len() < s.len() {
                    grown_rest(rest, done.push(n))
                } else {
                    None
                },
                None => None,
            },
            other => grown_rest(s.skip(1), done.push(leaf_of(other))),
        }
    }
}

/// A node takes at least one token, and no list in it is empty.
pub proof fn lemma_grown(s: Seq<Sign>)
    ensures
        grown(s) matches Some((n, rest)) ==> rest.len() < s.len() && solid(n),
    decreases s.len(), 0nat,
{
    if s.len() > 1 {
        lemma_grown_rest(s.skip(2), seq![leaf_of(s[1])]);
    }
}

proof fn lemma_grown_rest(s: Seq<Sign>, done: Seq<Branch>)
    requires
        done.len() > 0,
        forall|i: int| 0 <= i < done.len() ==> solid(#[trigger] done[i]),
    ensures
        grown_rest(s, done) matches Some((n, rest)) ==> rest.len() < s.len() && solid(n),
    decreases s.len(), 1nat,
{
    if s.len() > 0 {
        match s[0] {
            Sign::ParenRight => {
                assert(solid(done[done.len() - 1]));
            },
            Sign::ParenLeft => {
                lemma_grown(s);
                if let Some((n, rest)) = grown(s) {
                    lemma_grown_rest(rest, done.push(n));
                }
            },
            other => {
                lemma_grown_rest(s.skip(1), done.push(leaf_of(other)));
            },
        }
    }
}

fn leaf(sym: &Symbol) -> (r: NetListNode)
    ensures
        r@ == leaf_of(sym@),
{
    match sym {
        Symbol::ParenLeft => NetListNode::Symbol(Symbol::ParenLeft),
        Symbol::ParenRight => NetListNode::Symbol(Symbol::ParenRight),
        Symbol::Key(k) => NetListNode::Symbol(Symbol::Key(*k)),
        Symbol::Val(s) => NetListNode::Value(s.clone()),
    }
}

/// Grows the node at a place, if the tokens there make one, and moves the place behind it.
pub fn grow(syms: &Vec<Symbol>, pos: &mut usize) -> (r: Option<NetListNode>)
    requires
        *old(pos) <= syms.len(),
    ensures
        *final(pos) <= syms.len(),
        match grown(signs(syms@).skip(*old(pos) as int)) {
            Some((n, rest)) => r matches Some(node) && node@ == n && rest == signs(syms@).skip(
                *final(pos) as int,
            ) && *final(pos) > *old(pos),
            None => r is None,
        },
    decreases syms.len() - *old(pos), 0nat,
{
    let ghost all = signs(syms@);
    let ghost s = all.skip(*pos as int);
    let from: usize = *pos;
    if syms.len() - from < 2 {
        return None;
    }
    assert(s[0] == syms@[from as int]@ && s[1] == syms@[from + 1]@);
    match &syms[from] {
        Symbol::ParenLeft => {},
        _ => return None,
    }
    match &syms[from + 1] {
        Symbol::ParenLeft => return None,
        Symbol::ParenRight => return None,
        _ => {},
    }
    let mut val: Vec<NetListNode> = Vec::new();
    val.push(leaf(&syms[from + 1]));
    *pos = from + 2;
    proof {
        assert(branches(val@) =~= seq![leaf_of(s[1])]);
        assert(s.skip(2) =~= all.skip(*pos as int));
    }
    loop
        invariant
            all == signs(syms@),
            from + 2 <= *pos <= syms.len(),
            val.len() > 0,
            s == all.skip(from as int),
            *old(pos) == from,
            grown(s) == grown_rest(all.skip(*pos as int), branches(val@)),
        decreases syms.len() - *pos,
    {
        let at: usize = *pos;
        let ghost here = all.skip(at as int);
        if at == syms.len() {
            assert(here.len() == 0);
            return None;
        }
        assert(here[0] == syms@[at as int]@);
        let ghost before = branches(val@);
        match &syms[at] {
            Symbol::ParenRight => {
                *pos = at + 1;
                assert(here.skip(1) =~= all.skip(*pos as int));
                if val.len() < 2 {
                    assert(before.last() == val@[val@.len() - 1]@);
                    let last = val.pop();
                    return last;
                }
                let node = NetListNode::List(val);
                assert(node@ matches Branch::List(t) && t =~= before);
                return Some(node);
            },
            Symbol::ParenLeft => {
                match grow(syms, pos) {
                    None => return None,
                    Some(node) => {
                        val.push(node);
                        assert(branches(val@) =~= before.push(node@));
                    },
                }
            },
            other => {
                let node = leaf(other);
                val.push(node);
                *pos = at + 1;
                proof {
                    assert(branches(val@) =~= before.push(node@));
                    assert(here.skip(1) =~= all.skip(*pos as int));
                }
            },
        }
    }
}

/// The tree of tokens that make one.
pub fn structurize(syms: &Vec<Symbol>) -> (r: NetListNode)
    requires
        grown(signs(syms@)) is Some,
    ensures
        r@ == grown(signs(syms@)).unwrap().0,
        solid(r@),
{
    let mut pos: usize = 0;
    proof {
        assert(signs(syms@).skip(0) =~= signs(syms@));
        lemma_grown(signs(syms@));
    }
    grow(syms, &mut pos).unwrap()
}

/// A keyword as a token.
pub open spec fn key_sign(k: Keyword) -> Sign {
    Sign::Key(k)
}

/// The pin that a node describes: a number, and a name where there is one.
pub open spec fn terminal_of(n: Branch) -> Result<TerminalModel, TreeError> {
    match first_value(n, key_sign(Keyword::Num)) {
        Err(e) => Err(e),
        Ok(number) => match found_values(n, key_sign(Keyword::Name)) {
            Err(e) => Err(e),
            Ok(names) => Ok(
                TerminalModel {
                    number,
                    name: if names.len() > 0 {
                        Some(names[0])
                    } else {
                        None
                    },
                    net: None,
                },
            ),
        },
    }
}

/// The pins of a list of nodes, or the first error.
pub open spec fn terminals_of(s: Seq<Branch>) -> Result<Seq<TerminalModel>, TreeError>
    decreases s.len(),
{
    if s.len() == 0 {
        Ok(Seq::empty())
    } else {
        match terminal_of(s[0]) {
            Err(e) => Err(e),
            Ok(t) => match terminals_of(s.skip(1)) {
                Err(e) => Err(e),
                Ok(more) => Ok(seq![t] + more),
            },
        }
    }
}

/// The component that a `comp` node describes.
pub open spec fn part_of(n: Branch) -> Result<PartModel, TreeError> {
    match branch_key(n) {
        Err(e) => Err(e),
        Ok(key) => if key != key_sign(Keyword::Comp) {
            Err(TreeError::NotComponent)
        } else {
            match first_value(n, key_sign(Keyword::Ref)) {
                Err(e) => Err(e),
                Ok(refdes) => match first_value(n, key_sign(Keyword::Value)) {
                    Err(e) => Err(e),
                    Ok(value) => match first_value(n, key_sign(Keyword::Footprint)) {
                        Err(e) => Err(e),
                        Ok(footprint) => match found(n, key_sign(Keyword::Pin)) {
                            Err(e) => Err(e),
                            Ok(nodes) => match terminals_of(nodes) {
                                Err(e) => Err(e),
                                Ok(pins) => Ok(
                                    PartModel {
                                        refdes,
                                        value,
                                        footprint,
                                        properties: Map::empty(),
                                        pins,
                                    },
                                ),
                            },
                        },
                    },
                },
            }
        },
    }
}

/// The components of a list of nodes, or the first error.
pub open spec fn parts_of(s: Seq<Branch>) -> Result<Seq<PartModel>, TreeError>
    decreases s.len(),
{
    if s.len() == 0 {
        Ok(Seq::empty())
    } else {
        match part_of(s[0]) {
            Err(e) => Err(e),
            Ok(p) => match parts_of(s.skip(1)) {
                Err(e) => Err(e),
                Ok(more) => Ok(seq![p] + more),
            },
        }
    }
}

/// The first component with a reference designator.
pub open spec fn part_named(comps: Seq<PartModel>, refdes: Seq<char>) -> Option<int> {
    first_where(|i: int| comps[i].refdes == refdes, 0, comps.len() as int)
}

/// The first pin with a number.
pub open spec fn terminal_numbered(pins: Seq<TerminalModel>, number: Seq<char>) -> Option<int> {
    first_where(|i: int| pins[i].number == number, 0, pins.len() as int)
}

/// The component and the pin that a node of the net `net` names.
pub open spec fn terminal_place(n: Branch, comps: Seq<PartModel>, net: Seq<char>) -> Result<
    (int, int),
    NetlistFault<TreeError>,
> {
    match first_value(n, key_sign(Keyword::Ref)) {
        Err(why) => Err(NetlistFault::NodeUnreadable { why, net }),
        Ok(refdes) => match first_value(n, key_sign(Keyword::Pin)) {
            Err(why) => Err(NetlistFault::NodeUnreadable { why, net }),
            Ok(pin) => match part_named(comps, refdes) {
                None => Err(NetlistFault::UnknownComponent { refdes, net }),
                Some(c) => match terminal_numbered(comps[c].pins, pin) {
                    None => Err(NetlistFault::UnknownPin { refdes, pin, net }),
                    Some(p) => Ok((c, p)),
                },
            },
        },
    }
}

/// The components with one pin put on a net.
pub open spec fn put_on(comps: Seq<PartModel>, c: int, p: int, code: usize) -> Seq<PartModel> {
    comps.update(
        c,
        PartModel {
            pins: comps[c].pins.update(p, TerminalModel { net: Some(code), ..comps[c].pins[p] }),
            ..comps[c]
        },
    )
}

/// The components with the pins of all the nodes put on a net, up to the first node
/// that names nothing.
pub open spec fn all_put_on(comps: Seq<PartModel>, nodes: Seq<Branch>, net: WireModel) -> (
    Seq<PartModel>,
    Option<NetlistFault<TreeError>>,
)
    decreases nodes.len(),
{
    if nodes.len() == 0 {
        (comps, None)
    } else {
        match terminal_place(nodes[0], comps, net.name) {
            Err(e) => (comps, Some(e)),
            Ok((c, p)) => all_put_on(put_on(comps, c, p, net.code), nodes.skip(1), net),
        }
    }
}

/// The code, the name and the nodes of a net.
pub open spec fn wire_header(n: Branch) -> Result<(WireModel, Seq<Branch>), TreeError> {
    match branch_key(n) {
        Err(e) => Err(e),
        Ok(key) => if key != key_sign(Keyword::Net) {
            Err(TreeError::NotNet)
        } else {
            match first_value(n, key_sign(Keyword::Code)) {
                Err(e) => Err(e),
                Ok(code) => match unsigned_value(code, usize::MAX as nat) {
                    None => Err(TreeError::BadNetCode),
                    Some(k) => match first_value(n, key_sign(Keyword::Name)) {
                        Err(e) => Err(e),
                        Ok(name) => match found(n, key_sign(Keyword::Node)) {
                            Err(e) => Err(e),
                            Ok(nodes) => Ok((WireModel { code: k as usize, name }, nodes)),
                        },
                    },
                },
            }
        },
    }
}

/// The net that a `net` node describes, and the components with its pins on it.
pub open spec fn wire_of(n: Branch, comps: Seq<PartModel>) -> (
    Seq<PartModel>,
    Result<WireModel, NetlistFault<TreeError>>,
) {
    match wire_header(n) {
        Err(e) => (comps, Err(NetlistFault::Unreadable(e))),
        Ok((net, nodes)) => match all_put_on(comps, nodes, net) {
            (after, None) => (after, Ok(net)),
            (after, Some(e)) => (after, Err(e)),
        },
    }
}

/// The nets of a list of nodes, and the components with their pins on them.
pub open spec fn wires_of(s: Seq<Branch>, comps: Seq<PartModel>) -> Result<
    (Seq<PartModel>, Seq<WireModel>),
    NetlistFault<TreeError>,
>
    decreases s.len(),
{
    if s.len() == 0 {
        Ok((comps, Seq::empty()))
    } else {
        match wire_of(s[0], comps) {
            (_, Err(e)) => Err(e),
            (after, Ok(net)) => match wires_of(s.skip(1), after) {
                Err(e) => Err(e),
                Ok((last, more)) => Ok((last, seq![net] + more)),
            },
        }
    }
}

/// The components and the nets that a tree describes.
pub open spec fn tree_netlist(n: Branch) -> Result<
    (Seq<PartModel>, Seq<WireModel>),
    NetlistFault<TreeError>,
> {
    match found(n, key_sign(Keyword::Comp)) {
        Err(e) => Err(NetlistFault::Unreadable(e)),
        Ok(comp_nodes) => match parts_of(comp_nodes) {
            Err(e) => Err(NetlistFault::Unreadable(e)),
            Ok(comps) => match found(n, key_sign(Keyword::Net)) {
                Err(e) => Err(NetlistFault::Unreadable(e)),
                Ok(net_nodes) => wires_of(net_nodes, comps),
            },
        },
    }
}

/// The text is made of tokens, and they start with a closed node.
pub open spec fn whole_export(data: Seq<char>) -> bool {
    all_signs(data) matches Some(s) && grown(s) is Some
}

fn read_first(node: &NetListNode, k: Keyword) -> (r: Result<String, TreeError>)
    requires
        solid(node@),
    ensures
        match first_value(node@, key_sign(k)) {
            Ok(t) => r matches Ok(x) && x@ == t,
            Err(e) => r matches Err(err) && err == e,
        },
{
    proof {
        lemma_solid_searchable(node@, key_sign(k));
    }
    match node.get_child_val(&Symbol::Key(k)) {
        Err(e) => Err(e),
        Ok(values) => if values.len() == 0 {
            Err(TreeError::NoField)
        } else {
            assert(ref_texts(values@)[0] == values@[0]@);
            Ok(values[0].clone())
        },
    }
}

fn read_terminal(node: &NetListNode) -> (r: Result<netlist::Pin, TreeError>)
    requires
        solid(node@),
    ensures
        match terminal_of(node@) {
            Ok(t) => r matches Ok(x) && x@ == t,
            Err(e) => r matches Err(err) && err == e,
        },
{
    let number = match read_first(node, Keyword::Num) {
        Ok(number) => number,
        Err(e) => return Err(e),
    };
    proof {
        lemma_solid_searchable(node@, key_sign(Keyword::Name));
    }
    let name = match node.get_child_val(&Symbol::Key(Keyword::Name)) {
        Ok(names) => if names.len() == 0 {
            None
        } else {
            assert(ref_texts(names@)[0] == names@[0]@);
            Some(names[0].clone())
        },
        Err(e) => return Err(e),
    };
    Ok(netlist::Pin { number, name, net: None })
}

fn read_terminals(nodes: &Vec<&NetListNode>) -> (r: Result<Vec<netlist::Pin>, TreeError>)
    requires
        forall|k: int| 0 <= k < nodes.len() ==> solid((#[trigger] nodes@[k])@),
    ensures
        match terminals_of(ref_branches(nodes@)) {
            Ok(pins) => r matches Ok(v) && terminals(v@) == pins,
            Err(e) => r matches Err(err) && err == e,
        },
{
    let ghost all = ref_branches(nodes@);
    let mut out: Vec<netlist::Pin> = Vec::new();
    let mut i: usize = 0;
    proof {
        assert(all.skip(0) == all);
        assert(terminals(out@) =~= Seq::<TerminalModel>::empty());
        if let Ok(more) = terminals_of(all) {
            assert(terminals(out@) + more =~= more);
        }
    }
    while i < nodes.len()
        invariant
            i <= nodes.len(),
            all == ref_branches(nodes@),
            forall|k: int| 0 <= k < nodes.len() ==> solid((#[trigger] nodes@[k])@),
            match terminals_of(all.skip(i as int)) {
                Ok(more) => terminals_of(all) == Ok::<_, TreeError>(terminals(out@) + more),
                Err(e) => terminals_of(all) == Err::<Seq<TerminalModel>, _>(e),
            },
        decreases nodes.len() - i,
    {
        let ghost here = all.skip(i as int);
        assert(here[0] == nodes@[i as int]@);
        assert(here.skip(1) == all.skip(i + 1));
        match read_terminal(nodes[i]) {
            Err(e) => return Err(e),
            Ok(pin) => {
                let ghost before = terminals(out@);
                out.push(pin);
                proof {
                    assert(terminals(out@) =~= before.push(pin@));
                    if let Ok(more) = terminals_of(all.skip(i + 1)) {
                        assert(before + (seq![pin@] + more) =~= terminals(out@) + more);
                    }
                }
            },
        }
        i += 1;
    }
    assert(terminals(out@) + Seq::<TerminalModel>::empty() =~= terminals(out@));
    assert(all.skip(all.len() as int).len() == 0);
    Ok(out)
}

/// The component that a `comp` node describes.
pub fn parse_component(node: &NetListNode) -> (r: Result<netlist::Component, TreeError>)
    requires
        solid(node@),
    ensures
        match part_of(node@) {
            Ok(p) => r matches Ok(c) && c@ == p,
            Err(e) => r matches Err(err) && err == e,
        },
{
    match node.key() {
        Err(e) => return Err(e),
        Ok(sym) => if !sym.same(&Symbol::Key(Keyword::Comp)) {
            return Err(TreeError::NotComponent);
        },
    }
    let mut comp = netlist::Component::new();
    comp.refdes = match read_first(node, Keyword::Ref) {
        Ok(refdes) => refdes,
        Err(e) => return Err(e),
    };
    comp.value = match read_first(node, Keyword::Value) {
        Ok(value) => value,
        Err(e) => return Err(e),
    };
    comp.footprint = match read_first(node, Keyword::Footprint) {
        Ok(footprint) => footprint,
        Err(e) => return Err(e),
    };
    proof {
        lemma_solid_searchable(node@, key_sign(Keyword::Pin));
    }
    let nodes = match node.get_child(&Symbol::Key(Keyword::Pin)) {
        Ok(nodes) => nodes,
        Err(e) => return Err(e),
    };
    comp.pins = match read_terminals(&nodes) {
        Ok(pins) => pins,
        Err(e) => return Err(e),
    };
    Ok(comp)
}

fn find_part(comps: &Vec<netlist::Component>, refdes: &str) -> (r: Option<usize>)
    ensures
        match part_named(parts(comps@), refdes@) {
            Some(c) => r matches Some(i) && i == c && i < comps.len(),
            None => r is None,
        },
{
    let ghost all = parts(comps@);
    let ghost wanted = |i: int| all[i].refdes == refdes@;
    let mut i: usize = 0;
    while i < comps.len()
        invariant
            i <= comps.len(),
            all == parts(comps@),
            wanted == (|i: int| all[i].refdes == refdes@),
            forall|k: int| 0 <= k < i ==> !#[trigger] wanted(k),
        decreases comps.len() - i,
    {
        assert(all[i as int] == comps@[i as int]@);
        if same_text(comps[i].refdes.as_str(), refdes) {
            proof {
                lemma_first_where(wanted, 0, all.len() as int, i as int);
            }
            return Some(i);
        }
        i += 1;
    }
    proof {
        lemma_first_where(wanted, 0, all.len() as int, i as int);
    }
    None
}

fn find_terminal(pins: &Vec<netlist::Pin>, number: &str) -> (r: Option<usize>)
    ensures
        match terminal_numbered(terminals(pins@), number@) {
            Some(p) => r matches Some(i) && i == p && i < pins.len(),
            None => r is None,
        },
{
    let ghost all = terminals(pins@);
    let ghost wanted = |i: int| all[i].number == number@;
    let mut i: usize = 0;
    while i < pins.len()
        invariant
            i <= pins.len(),
            all == terminals(pins@),
            wanted == (|i: int| all[i].number == number@),
            forall|k: int| 0 <= k < i ==> !#[trigger] wanted(k),
        decreases pins.len() - i,
    {
        assert(all[i as int] == pins@[i as int]@);
        if same_text(pins[i].number.as_str(), number) {
            proof {
                lemma_first_where(wanted, 0, all.len() as int, i as int);
            }
            return Some(i);
        }
        i += 1;
    }
    proof {
        lemma_first_where(wanted, 0, all.len() as int, i as int);
    }
    None
}

fn find_place(node: &NetListNode, comps: &Vec<netlist::Component>, net: &str) -> (r: Result<
    (usize, usize),
    NetlistError<TreeError>,
>)
    requires
        solid(node@),
    ensures
        match terminal_place(node@, parts(comps@), net@) {
            Ok((c, p)) => r matches Ok((i, k)) && i == c && k == p && i < comps.len() && k
                < comps@[i as int].pins.len(),
            Err(e) => r matches Err(err) && err@ == e,
        },
{
    let refdes = match read_first(node, Keyword::Ref) {
        Ok(refdes) => refdes,
        Err(why) => return Err(NetlistError::NodeUnreadable { why, net: net.to_owned() }),
    };
    let pin = match read_first(node, Keyword::Pin) {
        Ok(pin) => pin,
        Err(why) => return Err(NetlistError::NodeUnreadable { why, net: net.to_owned() }),
    };
    match find_part(comps, refdes.as_str()) {
        None => Err(NetlistError::UnknownComponent { refdes, net: net.to_owned() }),
        Some(c) => {
            assert(parts(comps@)[c as int] == comps@[c as int]@);
            match find_terminal(&comps[c].pins, pin.as_str()) {
                None => Err(NetlistError::UnknownPin { refdes, pin, net: net.to_owned() }),
                Some(p) => Ok((c, p)),
            }
        },
    }
}

fn put_pin_on(comps: &mut Vec<netlist::Component>, c: usize, p: usize, code: usize)
    requires
        c < old(comps).len(),
        p < old(comps)@[c as int].pins.len(),
    ensures
        parts(final(comps)@) == put_on(parts(old(comps)@), c as int, p as int, code),
{
    let ghost before = comps@;
    comps[c].pins[p].net = Some(code);
    proof {
        let after = comps@;
        assert(terminals(after[c as int].pins@) =~= terminals(before[c as int].pins@).update(
            p as int,
            TerminalModel { net: Some(code), ..terminals(before[c as int].pins@)[p as int] },
        ));
        assert(parts(after) =~= put_on(parts(before), c as int, p as int, code));
    }
}

fn read_wire_header(node: &NetListNode) -> (r: Result<
    (netlist::Net, Vec<&NetListNode>),
    TreeError,
>)
    requires
        solid(node@),
    ensures
        match wire_header(node@) {
            Ok((net, nodes)) => r matches Ok((n, v)) && n@ == net && ref_branches(v@) == nodes && (
            forall|k: int| 0 <= k < v.len() ==> solid((#[trigger] v@[k])@)),
            Err(e) => r matches Err(err) && err == e,
        },
{
    match node.key() {
        Err(e) => return Err(e),
        Ok(sym) => if !sym.same(&Symbol::Key(Keyword::Net)) {
            return Err(TreeError::NotNet);
        },
    }
    let code_text = match read_first(node, Keyword::Code) {
        Ok(code_text) => code_text,
        Err(e) => return Err(e),
    };
    let code: usize = match parse_unsigned(code_text.as_str(), usize::MAX as u64) {
        Some(code) => code as usize,
        None => return Err(TreeError::BadNetCode),
    };
    let name = match read_first(node, Keyword::Name) {
        Ok(name) => name,
        Err(e) => return Err(e),
    };
    proof {
        lemma_solid_searchable(node@, key_sign(Keyword::Node));
    }
    match node.get_child(&Symbol::Key(Keyword::Node)) {
        Ok(nodes) => Ok((netlist::Net { code, name }, nodes)),
        Err(e) => Err(e),
    }
}

/// The net that a `net` node describes. Its pins among `comps` are put on it; a node
/// that names none of them stops it.
pub fn parse_net(node: &NetListNode, comps: &mut Vec<netlist::Component>) -> (r: Result<
    netlist::Net,
    NetlistError<TreeError>,
>)
    requires
        solid(node@),
    ensures
        parts(final(comps)@) == wire_of(node@, parts(old(comps)@)).0,
        match wire_of(node@, parts(old(comps)@)).1 {
            Ok(net) => r matches Ok(n) && n@ == net,
            Err(e) => r matches Err(err) && err@ == e,
        },
{
    let (net, nodes) = match read_wire_header(node) {
        Ok(header) => header,
        Err(e) => return Err(NetlistError::Unreadable(e)),
    };
    let ghost all = ref_branches(nodes@);
    let ghost start = parts(comps@);
    let mut i: usize = 0;
    assert(all.skip(0) == all);
    while i < nodes.len()
        invariant
            i <= nodes.len(),
            all == ref_branches(nodes@),
            start == parts(old(comps)@),
            wire_header(node@) == Ok::<_, TreeError>((net@, all)),
            forall|k: int| 0 <= k < nodes.len() ==> solid((#[trigger] nodes@[k])@),
            all_put_on(parts(comps@), all.skip(i as int), net@) == all_put_on(start, all, net@),
        decreases nodes.len() - i,
    {
        assert(all.skip(i as int)[0] == nodes@[i as int]@);
        assert(all.skip(i as int).skip(1) == all.skip(i + 1));
        match find_place(nodes[i], comps, net.name.as_str()) {
            Err(e) => return Err(e),
            Ok((c, p)) => put_pin_on(comps, c, p, net.code),
        }
        i += 1;
    }
    assert(all.skip(all.len() as int).len() == 0);
    Ok(net)
}

fn read_parts(nodes: &Vec<&NetListNode>) -> (r: Result<Vec<netlist::Component>, TreeError>)
    requires
        forall|k: int| 0 <= k < nodes.len() ==> solid((#[trigger] nodes@[k])@),
    ensures
        match parts_of(ref_branches(nodes@)) {
            Ok(comps) => r matches Ok(v) && parts(v@) == comps,
            Err(e) => r matches Err(err) && err == e,
        },
{
    let ghost all = ref_branches(nodes@);
    let mut out: Vec<netlist::Component> = Vec::new();
    let mut i: usize = 0;
    proof {
        assert(all.skip(0) == all);
        assert(parts(out@) =~= Seq::<PartModel>::empty());
        if let Ok(more) = parts_of(all) {
            assert(parts(out@) + more =~= more);
        }
    }
    while i < nodes.len()
        invariant
            i <= nodes.len(),
            all == ref_branches(nodes@),
            forall|k: int| 0 <= k < nodes.len() ==> solid((#[trigger] nodes@[k])@),
            match parts_of(all.skip(i as int)) {
                Ok(more) => parts_of(all) == Ok::<_, TreeError>(parts(out@) + more),
                Err(e) => parts_of(all) == Err::<Seq<PartModel>, _>(e),
            },
        decreases nodes.len() - i,
    {
        let ghost here = all.skip(i as int);
        assert(here[0] == nodes@[i as int]@);
        assert(here.skip(1) == all.skip(i + 1));
        match parse_component(nodes[i]) {
            Err(e) => return Err(e),
            Ok(comp) => {
                let ghost before = parts(out@);
                out.push(comp);
                proof {
                    assert(parts(out@) =~= before.push(comp@));
                    if let Ok(more) = parts_of(all.skip(i + 1)) {
                        assert(before + (seq![comp@] + more) =~= parts(out@) + more);
                    }
                }
            },
        }
        i += 1;
    }
    assert(parts(out@) + Seq::<PartModel>::empty() =~= parts(out@));
    assert(all.skip(all.len() as int).len() == 0);
    Ok(out)
}

fn read_wires(nodes: &Vec<&NetListNode>, comps: &mut Vec<netlist::Component>) -> (r: Result<
    Vec<netlist::Net>,
    NetlistError<TreeError>,
>)
    requires
        forall|k: int| 0 <= k < nodes.len() ==> solid((#[trigger] nodes@[k])@),
    ensures
        match wires_of(ref_branches(nodes@), parts(old(comps)@)) {
            Ok((after, nets)) => r matches Ok(v) && wires(v@) == nets && parts(final(comps)@)
                == after,
            Err(e) => r matches Err(err) && err@ == e,
        },
{
    let ghost all = ref_branches(nodes@);
    let ghost start = parts(comps@);
    let mut out: Vec<netlist::Net> = Vec::new();
    let mut i: usize = 0;
    proof {
        assert(all.skip(0) == all);
        assert(wires(out@) =~= Seq::<WireModel>::empty());
        if let Ok((last, more)) = wires_of(all, start) {
            assert(wires(out@) + more =~= more);
        }
    }
    while i < nodes.len()
        invariant
            i <= nodes.len(),
            all == ref_branches(nodes@),
            start == parts(old(comps)@),
            forall|k: int| 0 <= k < nodes.len() ==> solid((#[trigger] nodes@[k])@),
            match wires_of(all.skip(i as int), parts(comps@)) {
                Ok((last, more)) => wires_of(all, start) == Ok::<_, NetlistFault<TreeError>>(
                    (last, wires(out@) + more),
                ),
                Err(e) => wires_of(all, start) == Err::<(Seq<PartModel>, Seq<WireModel>), _>(e),
            },
        decreases nodes.len() - i,
    {
        let ghost here = all.skip(i as int);
        assert(here[0] == nodes@[i as int]@);
        assert(here.skip(1) == all.skip(i + 1));
        match parse_net(nodes[i], comps) {
            Err(e) => return Err(e),
            Ok(net) => {
                let ghost before = wires(out@);
                out.push(net);
                proof {
                    assert(wires(out@) =~= before.push(net@));
                    if let Ok((last, more)) = wires_of(all.skip(i + 1), parts(comps@)) {
                        assert(before + (seq![net@] + more) =~= wires(out@) + more);
                    }
                }
            },
        }
        i += 1;
    }
    assert(wires(out@) + Seq::<WireModel>::empty() =~= wires(out@));
    assert(all.skip(all.len() as int).len() == 0);
    Ok(out)
}

/// Whether the text is one that `parse_netlist` takes.
pub fn is_whole_export(data: &String) -> (r: bool)
    ensures
        r == whole_export(data@),
{
    if !is_tokens(data) {
        return false;
    }
    let syms = parse_symbol_tree(data);
    let mut pos: usize = 0;
    assert(signs(syms@).skip(0) =~= signs(syms@));
    grow(&syms, &mut pos).is_some()
}

/// The components and the nets that the text of an export describes.
pub fn parse_netlist(data: &String) -> (r: Result<netlist::NetList, NetlistError<TreeError>>)
    requires
        whole_export(data@),
    ensures
        match tree_netlist(grown(all_signs(data@).unwrap()).unwrap().0) {
            Ok((comps, nets)) => r matches Ok(n) && parts(n.components@) == comps && wires(n.nets@)
                == nets,
            Err(e) => r matches Err(err) && err@ == e,
        },
{
    let syms = parse_symbol_tree(data);
    let nodetree = structurize(&syms);
    proof {
        lemma_solid_searchable(nodetree@, key_sign(Keyword::Comp));
    }
    let comp_nodes = match nodetree.get_child(&Symbol::Key(Keyword::Comp)) {
        Ok(comp_nodes) => comp_nodes,
        Err(e) => return Err(NetlistError::Unreadable(e)),
    };
    let mut comps = match read_parts(&comp_nodes) {
        Ok(comps) => comps,
        Err(e) => return Err(NetlistError::Unreadable(e)),
    };
    proof {
        lemma_solid_searchable(nodetree@, key_sign(Keyword::Net));
    }
    let net_nodes = match nodetree.get_child(&Symbol::Key(Keyword::Net)) {
        Ok(net_nodes) => net_nodes,
        Err(e) => return Err(NetlistError::Unreadable(e)),
    };
    let nets = match read_wires(&net_nodes, &mut comps) {
        Ok(nets) => nets,
        Err(e) => return Err(e),
    };
    Ok(netlist::NetList { components: comps, nets })
}

} // verus!
