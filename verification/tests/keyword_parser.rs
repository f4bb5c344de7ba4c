use netlist_explorer::kicad_parser::{
    grow, is_tokens, is_whole_export, parse_component, parse_net, parse_netlist, parse_symbol_tree,
    scan_next, structurize, Keyword, NetListNode, Symbol, TreeError,
};
use netlist_explorer::netlist::{Component, NetList, Pin};
use netlist_explorer::parser::error::NetlistError;

fn key(k: Keyword) -> Symbol {
    Symbol::Key(k)
}

fn symbols(s: &str) -> Vec<Symbol> {
    let data = s.to_string();
    assert!(is_tokens(&data), "{s}");
    parse_symbol_tree(&data)
}

fn node(s: &str) -> NetListNode {
    structurize(&symbols(s))
}

fn parse(s: &str) -> Result<NetList, NetlistError<TreeError>> {
    let data = s.to_string();
    assert!(is_whole_export(&data), "{s}");
    parse_netlist(&data)
}

const COMP: &str =
    r#"(comp(ref"R1")(value"10k")(footprint"0402")(pins(pin(num"1")(name"A"))(pin(num"2"))))"#;

fn export(comps: &str, nets: &str) -> String {
    format!(r#"(export(version"E")(components{comps})(nets{nets}))"#)
}

#[test]
fn the_longest_keyword_is_read() {
    assert_eq!(symbols("(components"), [Symbol::ParenLeft, key(Keyword::Components)]);
    assert_eq!(symbols("comp("), [key(Keyword::Comp), Symbol::ParenLeft]);
    assert_eq!(symbols("nets("), [key(Keyword::Nets), Symbol::ParenLeft]);
    assert_eq!(symbols("net("), [key(Keyword::Net), Symbol::ParenLeft]);
    assert_eq!(symbols("number"), [key(Keyword::Number)]);
    assert_eq!(symbols("num\"1\""), [key(Keyword::Num), Symbol::Val("1".to_string())]);
    assert_eq!(symbols("title_block"), [key(Keyword::TitleBlock)]);
    assert_eq!(symbols("pintypepin)"), [key(Keyword::PinType), key(Keyword::Pin), Symbol::ParenRight]);
    assert_eq!(symbols("\"\""), [Symbol::Val(String::new())]);
}

#[test]
fn a_scan_moves_past_what_it_read() {
    let data: Vec<char> = "(ref\"U1\")".chars().collect();
    let mut pos = 0;
    assert_eq!(scan_next(&data, &mut pos), Some(Symbol::ParenLeft));
    assert_eq!(scan_next(&data, &mut pos), Some(key(Keyword::Ref)));
    assert_eq!(pos, 4);
    assert_eq!(scan_next(&data, &mut pos), Some(Symbol::Val("U1".to_string())));
    assert_eq!(scan_next(&data, &mut pos), Some(Symbol::ParenRight));
    assert_eq!(scan_next(&data, &mut pos), None);
}

#[test]
fn other_texts_are_no_tokens() {
    for s in ["x", "unknown", "(ref\"U1", "net", " (", "\"\u{e9}"] {
        assert!(!is_tokens(&s.to_string()), "{s}");
    }
    assert!(is_tokens(&String::new()));
    assert!(!is_whole_export(&String::new()));
    assert!(!is_whole_export(&"(export(ref\"1\")".to_string()));
    assert!(!is_whole_export(&"((ref\"1\"))".to_string()));
    assert!(!is_whole_export(&"()".to_string()));
}

#[test]
fn a_tree_keeps_values_and_keywords_apart() {
    assert_eq!(node("(ref\"U1\")"), NetListNode::List(vec![
        NetListNode::Symbol(key(Keyword::Ref)),
        NetListNode::Value("U1".to_string()),
    ]));
    assert_eq!(node("(ref)"), NetListNode::Symbol(key(Keyword::Ref)));
    assert_eq!(node("(\"U1\")"), NetListNode::Value("U1".to_string()));
}

#[test]
fn what_follows_a_keyword_node_is_left() {
    let all = symbols("(ref\"U1\")(value\"x\")");
    let mut pos = 0;
    assert_eq!(grow(&all, &mut pos), Some(node("(ref\"U1\")")));
    assert_eq!(pos, 4);
    assert_eq!(grow(&all, &mut pos), Some(node("(value\"x\")")));
    assert_eq!(pos, 8);
    assert_eq!(grow(&all, &mut pos), None);
}

#[test]
fn keyword_nodes_answer_for_their_shape() {
    let list = node("(ref\"U1\")");
    assert_eq!(list.key(), Ok(&key(Keyword::Ref)));
    assert_eq!(list.list().expect("a list").len(), 1);
    assert_eq!(list.as_list().expect("a list").len(), 2);
    assert_eq!(list.as_symbol().err(), Some(TreeError::NotSymbol));
    assert_eq!(list.as_val().err(), Some(TreeError::NotValue));
    let leaf = node("(ref)");
    assert_eq!(leaf.as_symbol(), Ok(&key(Keyword::Ref)));
    assert_eq!(leaf.as_list().err(), Some(TreeError::NotList));
    assert_eq!(leaf.key().err(), Some(TreeError::NotList));
    assert_eq!(leaf.list().err(), Some(TreeError::NotList));
    assert_eq!(NetListNode::List(Vec::new()).list().err(), Some(TreeError::ShortList));
    assert_eq!(leaf.get_child(&key(Keyword::Ref)).expect("itself").len(), 1);
    assert_eq!(leaf.get_child(&key(Keyword::Pin)).err(), Some(TreeError::OtherLeaf));
    assert_eq!(node("(\"x\")").get_child(&key(Keyword::Pin)).err(), Some(TreeError::LeafIsValue));
    assert_eq!(node("(\"x\"ref)").key().err(), Some(TreeError::KeyNotSymbol));
}

#[test]
fn values_are_found_at_any_depth() {
    let n = node(r#"(comp(ref"R1")(pins(pin(num"1"))(pin(num"2"))))"#);
    assert_eq!(n.get_child(&key(Keyword::Pin)).expect("nodes").len(), 2);
    let nums = n.get_child_val(&key(Keyword::Num)).expect("values");
    assert_eq!(nums, ["1", "2"]);
    assert!(n.get_child_val(&key(Keyword::Value)).expect("values").is_empty());
    let n = node(r#"(comp(ref(num"1")))"#);
    assert_eq!(n.get_child_val(&key(Keyword::Ref)).err(), Some(TreeError::NotValue));
    let bare = NetListNode::List(vec![NetListNode::Symbol(key(Keyword::Ref))]);
    assert_eq!(bare.get_child_val(&key(Keyword::Ref)).err(), Some(TreeError::NoValue));
}

#[test]
fn an_empty_list_behind_the_sought_keyword_is_not_looked_at() {
    let found = NetListNode::List(vec![
        NetListNode::Symbol(key(Keyword::Ref)),
        NetListNode::List(Vec::new()),
    ]);
    assert_eq!(found.key(), Ok(&key(Keyword::Ref)));
    assert_eq!(found.get_child(&key(Keyword::Ref)).expect("itself").len(), 1);
}

#[test]
fn a_keyword_export_reads_as_its_parts_and_nets() {
    let nets = r#"(net(code"7")(name"GND")(node(ref"R1")(pin"2")))"#;
    let netlist = parse(&export(COMP, nets)).expect("a netlist");
    let c = &netlist.components[0];
    assert_eq!((c.refdes.as_str(), c.value.as_str(), c.footprint.as_str()), ("R1", "10k", "0402"));
    assert_eq!(c.pins[0].name.as_deref(), Some("A"));
    assert_eq!(c.pins[0].net, None);
    assert_eq!(c.pins[1].name, None);
    assert_eq!(c.pins[1].net, Some(7));
    assert_eq!((netlist.nets[0].code, netlist.nets[0].name.as_str()), (7, "GND"));
}

#[test]
fn a_keyword_export_is_refused_for_what_it_lacks() {
    let no_value = r#"(comp(ref"R1")(footprint"0402"))"#;
    assert_eq!(
        parse(&export(no_value, "\"\"")).err(),
        Some(NetlistError::Unreadable(TreeError::NoField)),
    );
    let no_code = r#"(net(name"GND")(code"x"))"#;
    assert_eq!(
        parse(&export(COMP, no_code)).err(),
        Some(NetlistError::Unreadable(TreeError::BadNetCode)),
    );
    let no_ref = r#"(net(code"7")(name"GND")(node(pin"2")))"#;
    assert_eq!(
        parse(&export(COMP, no_ref)).err(),
        Some(NetlistError::NodeUnreadable { why: TreeError::NoField, net: "GND".to_string() }),
    );
    let no_comp = r#"(net(code"7")(name"GND")(node(ref"R9")(pin"2")))"#;
    assert_eq!(parse(&export(COMP, no_comp)).err(), Some(NetlistError::UnknownComponent {
        refdes: "R9".to_string(),
        net: "GND".to_string(),
    }));
    let no_pin = r#"(net(code"7")(name"GND")(node(ref"R1")(pin"9")))"#;
    assert_eq!(parse(&export(COMP, no_pin)).err(), Some(NetlistError::UnknownPin {
        refdes: "R1".to_string(),
        pin: "9".to_string(),
        net: "GND".to_string(),
    }));
    assert_eq!(parse_component(&node("(net\"x\")")).err(), Some(TreeError::NotComponent));
    assert_eq!(
        parse_net(&node("(comp\"x\")"), &mut Vec::new()).err(),
        Some(NetlistError::Unreadable(TreeError::NotNet)),
    );
}

#[test]
fn new_parts_are_blank() {
    let c = Component::new();
    assert!(c.refdes.is_empty() && c.value.is_empty() && c.footprint.is_empty());
    assert!(c.pins.is_empty());
    assert_eq!(c.properties.len(), 0);
    let p = Pin::new();
    assert!(p.number.is_empty() && p.name.is_none() && p.net.is_none());
}
