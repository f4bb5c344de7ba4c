use netlist_explorer::parser::error::{NetlistError, ParseError};
use netlist_explorer::parser::kicad_parser::{
    build_node, is_closed_export, parse_component, parse_net, parse_netlist, structurize, unescape_kicad,
    NetListNode,
};
use netlist_explorer::parser::kicad_scanner::{scan_all, Token};
use netlist_explorer::parser::netlist::Netlist;

const HEADER: &str = r#"(design (source "board.kicad_sch")
    (sheet (number "1") (name "/"))
    (sheet (number "2") (name "/Power/")))"#;

const LIBPARTS: &str = r#"(libparts
    (libpart (lib "Device") (part "R") (pins
        (pin (num "1") (name "~") (type "passive"))
        (pin (num "2") (name "~") (type "passive"))))
    (libpart (lib "MCU") (part "STM32") (pins
        (pin (num "1") (name "VDD") (type "power_in"))
        (pin (num "2") (name "PA0") (type "bidirectional")))))"#;

const RESISTOR: &str = r#"(comp (ref "R1") (value "10k") (footprint "R_0402")
    (property (name "dnp"))
    (property (name "ki_keywords") (value "R res"))
    (sheetpath (names "/Power/") (tstamps "/x/"))
    (libsource (lib "Device") (part "R"))
    (units (unit (name "A") (pins (pin (num "1")) (pin (num "2"))))))"#;

const CHIP: &str = r#"(comp (ref "U1") (value "STM32{slash}F4") (description "An {lt}MCU{gt}")
    (libsource (lib "MCU") (part "STM32"))
    (units (unit (name "A") (pins (pin (num "1")) (pin (num "2") (name "RST"))))))"#;

fn export(comps: &str, nets: &str) -> String {
    format!(r#"(export (version "E") {HEADER} (components {comps}) {LIBPARTS} (nets {nets}))"#)
}

const NETS: &str = r#"(net (code "1") (name "VDD") (node (ref "U1") (pin "1")))
    (net (code "2") (name "{slash}RST") (node (ref "U1") (pin "2")) (node (ref "R1") (pin "1")))"#;

fn parse(comps: &str, nets: &str) -> Result<Netlist, NetlistError<ParseError>> {
    let data = export(comps, nets);
    assert!(is_closed_export(&data));
    parse_netlist(&data)
}

fn error(comps: &str, nets: &str) -> NetlistError<ParseError> {
    match parse(comps, nets) {
        Ok(_) => panic!("an error was due"),
        Err(e) => e,
    }
}

fn tree(s: &str) -> Result<NetListNode, ParseError> {
    structurize(&scan_all(s).expect("tokens"))
}

fn node(s: &str) -> NetListNode {
    tree(s).expect("a tree")
}

#[test]
fn decodes_slash_token() {
    assert_eq!(unescape_kicad("LED1{slash}REGOFF"), "LED1/REGOFF");
}

#[test]
fn leaves_string_without_braces_unchanged() {
    assert_eq!(unescape_kicad("plain_value"), "plain_value");
}

#[test]
fn leaves_unknown_token_unchanged() {
    assert_eq!(unescape_kicad("{frobnicate}"), "{frobnicate}");
}

#[test]
fn every_escape_is_decoded() {
    let s = "{slash}{backslash}{dblquote}{lt}{gt}{colon}{space}{tab}{return}{newline}{brace}";
    assert_eq!(unescape_kicad(s), "/\\\"<>: \t\r\n{");
    assert_eq!(unescape_kicad("a{slash"), "a{slash");
    assert_eq!(unescape_kicad("{{slash}"), "{/");
    assert_eq!(unescape_kicad(""), "");
}

#[test]
fn an_export_reads_as_its_parts_and_nets() {
    let netlist = parse(&format!("{RESISTOR} {CHIP}"), NETS).expect("a netlist");
    assert_eq!(netlist.sheets, ["/", "/Power/"]);
    assert_eq!(netlist.components.len(), 2);

    let r = &netlist.components[0];
    assert_eq!((r.refdes.as_str(), r.value.as_str()), ("R1", "10k"));
    assert_eq!(r.footprint.as_deref(), Some("R_0402"));
    assert_eq!(r.description, None);
    assert_eq!(r.sheet.as_deref(), Some("/Power/"));
    assert_eq!(r.properties.len(), 2);
    assert_eq!(r.properties.get("dnp"), Some(&None));
    assert_eq!(r.properties.get("ki_keywords"), Some(&Some("R res".to_string())));
    assert_eq!(r.pins[0].net, Some(2));
    assert_eq!(r.pins[1].net, None);

    let u = &netlist.components[1];
    assert_eq!(u.value, "STM32/F4");
    assert_eq!(u.description.as_deref(), Some("An <MCU>"));
    assert_eq!(u.sheet, None);
    // The library says what a pin does not say itself.
    assert_eq!(u.pins[0].name.as_deref(), Some("VDD"));
    assert_eq!(u.pins[0].pin_type.as_deref(), Some("power_in"));
    assert_eq!(u.pins[1].name.as_deref(), Some("RST"));
    assert_eq!(u.pins[1].pin_type.as_deref(), Some("bidirectional"));

    assert_eq!(netlist.nets.len(), 2);
    assert_eq!((netlist.nets[1].code, netlist.nets[1].name.as_str()), (2, "/RST"));
}

#[test]
fn a_netlist_needs_no_design_header() {
    let data = format!("(export (components {RESISTOR}) {LIBPARTS} (nets (net (code \"1\") (name \"A\"))))");
    let netlist = parse_netlist(&data).expect("a netlist");
    assert!(netlist.sheets.is_empty());
    assert_eq!(netlist.components.len(), 1);
}

#[test]
fn an_open_node_is_no_closed_export() {
    assert!(!is_closed_export(&"(export (nets".to_string()));
    assert!(is_closed_export(&"(export a)".to_string()));
    // A text that does not scan is refused by the parser itself.
    assert!(is_closed_export(&"(export \"".to_string()));
    assert_eq!(
        parse_netlist(&"(export \"".to_string()).err(),
        Some(NetlistError::Unreadable(ParseError::UnterminatedString)),
    );
}

#[test]
fn a_tree_is_built_of_lists_and_atoms() {
    assert_eq!(node("(a b)"), NetListNode::List(vec![
        NetListNode::Atom(Token::sym("a")),
        NetListNode::Atom(Token::sym("b")),
    ]));
    assert_eq!(node("(a)"), NetListNode::Atom(Token::sym("a")));
    assert_eq!(tree("a"), Err(ParseError::Misaligned));
    assert_eq!(tree("((a))"), Err(ParseError::DoubleParen));
    assert_eq!(tree("()"), Err(ParseError::EmptyNode));
}

#[test]
fn nodes_answer_for_their_shape() {
    let list = node("(a b \"c\")");
    assert!(list.key().expect("a key").same(&Token::sym("a")));
    assert_eq!(list.list().expect("a list").len(), 2);
    assert_eq!(list.as_list().expect("a list").len(), 3);
    assert_eq!(list.as_token().err(), Some(ParseError::NotAtom));
    assert_eq!(list.atom_as_string().err(), Some(ParseError::NotAtom));
    assert_eq!(list.val().err(), Some(ParseError::NotTwoElements));
    let atom = node("(a)");
    assert_eq!(atom.as_list().err(), Some(ParseError::NotList));
    assert_eq!(atom.key().err(), Some(ParseError::NotList));
    assert_eq!(atom.atom_as_string().expect("a text"), "a");
    assert_eq!(node("(a \"b\")").val().expect("a value"), "b");
    assert_eq!(node("(a b)").val().err(), Some(ParseError::ValueNotQuoted));
    assert_eq!(node("(a (b c))").val().err(), Some(ParseError::ValueNotAtom));
}

#[test]
fn a_tree_is_read_back_from_its_text() {
    let text = "(top \"x\" (a b) (c (d \"e\")))";
    let expected = NetListNode::List(vec![
        NetListNode::Atom(Token::sym("top")),
        NetListNode::Atom(Token::Value("x".to_string())),
        NetListNode::List(vec![
            NetListNode::Atom(Token::sym("a")),
            NetListNode::Atom(Token::sym("b")),
        ]),
        NetListNode::List(vec![
            NetListNode::Atom(Token::sym("c")),
            NetListNode::List(vec![
                NetListNode::Atom(Token::sym("d")),
                NetListNode::Atom(Token::Value("e".to_string())),
            ]),
        ]),
    ]);
    assert_eq!(node(text), expected);
}

#[test]
fn what_follows_a_node_is_left() {
    let tokens = scan_all("(a b) (c (d e)) f").expect("tokens");
    let mut pos = 0;
    assert_eq!(build_node(&tokens, &mut pos), Some(Ok(node("(a b)"))));
    assert_eq!(pos, 4);
    assert_eq!(build_node(&tokens, &mut pos), Some(Ok(node("(c (d e))"))));
    assert_eq!(pos, 11);
    assert_eq!(build_node(&tokens, &mut pos), Some(Err(ParseError::Misaligned)));
    let mut open = 0;
    assert_eq!(build_node(&scan_all("(a (b").expect("tokens"), &mut open), None);
}

#[test]
fn a_node_equals_the_token_it_holds() {
    assert!(node("(a)").equals_token(&Token::sym("a")));
    assert!(!node("(a)").equals_token(&Token::sym("b")));
    assert!(!node("(a)").equals_token(&Token::Value("a".to_string())));
    assert!(!node("(a b)").equals_token(&Token::sym("a")));
}

#[test]
fn an_empty_list_is_passed_where_no_head_is_asked_of_it() {
    let empty = NetListNode::List(Vec::new());
    let key = NetListNode::Atom(Token::sym("a"));
    let inner = NetListNode::List(vec![key, empty]);
    assert!(inner.key().expect("a key").same(&Token::sym("a")));
    assert_eq!(inner.get_child(&Token::sym("a")).expect("itself").len(), 1);
    let outer = NetListNode::List(vec![NetListNode::Atom(Token::sym("top")), inner]);
    assert_eq!(outer.get_direct_child(&Token::sym("a")).expect("children").len(), 1);
}

#[test]
fn children_are_found_by_key() {
    let n = node("(top (a \"1\") (b (a \"2\")) (a \"3\"))");
    assert_eq!(n.get_direct_child(&Token::sym("a")).expect("children").len(), 2);
    assert_eq!(n.get_child(&Token::sym("a")).expect("nodes").len(), 3);
    let values = n.get_direct_child_val(&Token::sym("a")).expect("values");
    assert_eq!(values, ["1", "3"]);
    assert_eq!(n.get_only_child(&Token::sym("a")).err(), Some(ParseError::NotOneChild));
    assert_eq!(n.get_maybe_only_child(&Token::sym("a")).err(), Some(ParseError::ManyChildren));
    assert!(n.get_maybe_only_child(&Token::sym("c")).expect("no error").is_none());
    assert!(n.get_maybe_only_child_val(&Token::sym("c")).expect("no error").is_none());
    assert_eq!(n.get_only_child_val(&Token::sym("c")).err(), Some(ParseError::NotOneChild));
}

#[test]
fn a_component_is_refused_for_what_it_lacks() {
    assert_eq!(error(r#"(comp (value "10k"))"#, NETS), NetlistError::Unreadable(ParseError::NotOneChild));
    let unknown = r#"(comp (ref "R1") (value "10k") (libsource (lib "Device") (part "C")))"#;
    assert_eq!(error(unknown, NETS), NetlistError::Unreadable(ParseError::LibpartNotUnique));
    let twice = r#"(comp (ref "R1") (value "1") (footprint "a") (footprint "b")
        (libsource (lib "Device") (part "R")))"#;
    assert_eq!(error(twice, NETS), NetlistError::Unreadable(ParseError::ManyChildren));
    let base = node(&export(RESISTOR, ""));
    assert_eq!(parse_component(&node("(net x)"), &base).err(), Some(ParseError::NotComponent));
}

#[test]
fn a_net_is_refused_for_what_it_names() {
    let comps = format!("{RESISTOR} {CHIP}");
    assert_eq!(
        error(&comps, r#"(net (code "x") (name "A"))"#),
        NetlistError::Unreadable(ParseError::BadNetCode),
    );
    assert_eq!(
        error(&comps, r#"(net (code "1") (name "A{slash}B") (node (ref "R1")))"#),
        NetlistError::NodeUnreadable { why: ParseError::NotOneChild, net: "A/B".to_string() },
    );
    assert_eq!(
        error(&comps, r#"(net (code "1") (name "A") (node (ref "R9") (pin "1")))"#),
        NetlistError::UnknownComponent { refdes: "R9".to_string(), net: "A".to_string() },
    );
    assert_eq!(
        error(&comps, r#"(net (code "1") (name "A") (node (ref "R1") (pin "9")))"#),
        NetlistError::UnknownPin {
            refdes: "R1".to_string(),
            pin: "9".to_string(),
            net: "A".to_string(),
        },
    );
    assert_eq!(
        parse_net(&node("(comp x)"), &mut Vec::new()).err(),
        Some(NetlistError::Unreadable(ParseError::NotNet)),
    );
}

#[test]
fn a_refused_net_keeps_the_pins_that_were_named_before() {
    let mut netlist = parse(RESISTOR, "").expect("a netlist");
    let bad = node(r#"(net (code "7") (name "A") (node (ref "R1") (pin "1")) (node (ref "R1") (pin "9")))"#);
    assert_eq!(
        parse_net(&bad, &mut netlist.components).err(),
        Some(NetlistError::UnknownPin {
            refdes: "R1".to_string(),
            pin: "9".to_string(),
            net: "A".to_string(),
        }),
    );
    assert_eq!(netlist.components[0].pins[0].net, Some(7));
    assert_eq!(netlist.components[0].pins[1].net, None);
}
