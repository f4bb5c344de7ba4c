use netlist_explorer::design::search::{
    base_match, match_component, squash, term_matches_field, tokenize, Field, FieldHits,
    FindEnvelope, Match, Worth, EXACT_BITS, PARTIAL_BITS,
};
use netlist_explorer::design::Design;
use netlist_explorer::parser::netlist::{Component, Net, Netlist, Pin};

/// A part: designator, value, description, sheet and how many pins it has.
fn design_of(parts: &[(&str, &str, &str, &str, usize)]) -> Design {
    let mut components = Vec::new();
    for (refdes, value, description, sheet, pins) in parts.iter() {
        let mut c = Component::new();
        c.refdes = refdes.to_string();
        c.value = value.to_string();
        c.description = Some(description.to_string());
        c.sheet = Some(sheet.to_string());
        for i in 0..*pins {
            let mut p = Pin::new();
            p.number = i.to_string();
            p.net = Some(1);
            c.pins.push(p);
        }
        components.push(c);
    }
    let nets = vec![Net { code: 1, name: "N".to_string() }];
    Design::from_netlist(Netlist { components, nets, sheets: Vec::new() }).expect("a design")
}

fn worth(h: &FieldHits, n: usize) -> Worth {
    let ratio = f32::from_bits(h.field.weight_bits()) * (h.matched as f32 / n as f32);
    Worth { ratio_bits: ratio.to_bits(), score_bits: (0.15 + 0.30 * ratio).to_bits() }
}

fn find(d: &Design, query: &str, limit: u32) -> FindEnvelope {
    let n = Design::split_query(query).len();
    let matches = d.match_components(query);
    let worths: Vec<Vec<Worth>> = matches
        .iter()
        .map(|m| match m {
            Some(Match::SomeTerms(v)) => v.iter().map(|h| worth(h, n)).collect(),
            _ => Vec::new(),
        })
        .collect();
    d.find_components(query, limit, &matches, &worths)
}

fn found(e: &FindEnvelope) -> Vec<(&str, f32, &str)> {
    e.candidates
        .iter()
        .map(|c| (c.row.refdes.as_str(), f32::from_bits(c.score_bits), c.match_reason.as_str()))
        .collect()
}

#[test]
fn each_tier_has_its_score_and_its_reason() {
    let d = design_of(&[
        ("U1", "ADS1115", "", "", 2),
        ("U2", "ADS1115IDGSR", "", "", 2),
        ("U3", "ADS1", "", "", 2),
        ("U4", "XADS1115", "", "", 2),
        ("ADS1115", "", "", "", 2),
        ("U6", "other", "ads1115 converter", "", 2),
        ("U7", "other", "", "/ADS1115/", 2),
        ("U8", "nothing", "", "", 2),
    ]);
    assert_eq!(found(&find(&d, "ADS-1115", 10)), [
        ("ADS1115", 1.0, "exact refdes"),
        ("U1", 1.0, "exact value"),
        ("U2", 0.85, "value base-match (field starts with query)"),
        ("U3", 0.85, "value base-match (query starts with field)"),
        ("U4", 0.65, "value substring"),
    ]);
    assert_eq!(found(&find(&d, "converter", 10)), [("U6", 0.48, "all terms in description")]);
    assert_eq!(found(&find(&d, "ads1115x7", 10))[0].2, "value base-match (query starts with field)");
}

#[test]
fn a_location_counts_for_less_than_an_identity() {
    let d = design_of(&[
        ("C1", "100n", "", "/ADC1/", 2),
        ("U1", "conv", "adc 16 bit", "/X/", 8),
        ("U2", "other", "", "/ADC1/", 8),
    ]);
    // Equal scores put the part with more pins first.
    assert_eq!(found(&find(&d, "adc", 10)), [
        ("U1", 0.48, "all terms in description"),
        ("U2", 0.25, "all terms in sheet"),
        ("C1", 0.25, "all terms in sheet"),
    ]);
}

#[test]
fn a_partial_match_names_its_best_field() {
    let d = design_of(&[("U1", "alpha gamma", "beta", "/delta/", 1)]);
    let e = find(&d, "beta alpha", 10);
    let ratio = 0.60f32 * (1.0f32 / 2.0f32);
    assert_eq!(found(&e), [("U1", 0.15 + 0.30 * ratio, "matched 1/2 terms in value")]);
}

#[test]
fn a_partial_match_stays_below_a_whole_field() {
    let d = design_of(&[
        ("U1", "beta alpha", "", "", 1),
        ("U2", "x", "", "/alpha/beta/gamma/", 1),
    ]);
    let e = find(&d, "alpha beta gamma", 10);
    assert_eq!(e.candidates[0].row.refdes, "U2");
    assert_eq!(e.candidates[1].row.refdes, "U1");
    assert_eq!(e.candidates[1].match_reason, "matched 2/3 terms in value");
    assert_eq!(e.candidates[1].score_bits, PARTIAL_BITS);
    assert!(f32::from_bits(PARTIAL_BITS) < 0.25);
}

#[test]
fn the_bits_are_those_of_the_scores() {
    assert_eq!(f32::from_bits(EXACT_BITS), 1.0);
    for (f, weight) in [
        (Field::Value, 0.60f32),
        (Field::Keywords, 0.58),
        (Field::Description, 0.48),
        (Field::Footprint, 0.32),
        (Field::Sheet, 0.25),
    ] {
        assert_eq!(f.weight_bits(), weight.to_bits(), "{}", f.label());
    }
    assert_eq!(netlist_explorer::design::search::BASE_BITS, 0.85f32.to_bits());
    assert_eq!(netlist_explorer::design::search::SUBSTRING_BITS, 0.65f32.to_bits());
    assert_eq!(netlist_explorer::design::search::FLOOR_BITS, 0.15f32.to_bits());
}

#[test]
fn a_blank_query_finds_nothing() {
    let d = design_of(&[("U1", "x", "", "", 1)]);
    for query in ["", "   ", "\t"] {
        let e = find(&d, query, 10);
        assert_eq!((e.returned, e.candidates.len()), (0, 0));
        assert_eq!(e.query, query);
    }
}

#[test]
fn a_search_shows_no_more_than_asked_for() {
    let d = design_of(&[("R10", "10k", "", "", 2), ("R2", "10k", "", "", 2), ("R1", "10k", "", "", 2)]);
    let e = find(&d, "10k", 2);
    let names: Vec<&str> = found(&e).iter().map(|c| c.0).collect();
    assert_eq!(names, ["R1", "R2"]);
    assert_eq!(e.returned, 2);
}

#[test]
fn texts_are_compared_squashed_and_by_words() {
    assert_eq!(squash("ADS-1115 / x"), "ads1115x");
    assert_eq!(squash("\u{c5}\u{d6}-1"), "\u{e5}\u{f6}1");
    assert_eq!(tokenize("Pressure, SPI6/adc1"), ["pressure", "spi6", "adc1"]);
    assert!(term_matches_field("spi", &tokenize("SPI6")));
    assert!(!term_matches_field("res", &tokenize("pressure")));
    assert!(base_match("tla2518irter", "tla2518irterq1", 4));
    assert!(!base_match("abc", "abcd", 4));
    assert!(!base_match("abcd", "abce", 4));
    assert!(!base_match("\u{e5}\u{f6}", "\u{e5}\u{f6}1", 4));
    assert!(base_match("\u{e5}\u{f6}12", "\u{e5}\u{f6}123", 4));
}

#[test]
fn a_component_is_matched_on_its_own() {
    let d = design_of(&[("U1", "LM358", "dual opamp", "", 8)]);
    let c = &d.components[0];
    assert!(matches!(match_component("lm358", &vec!["lm358".to_string()], c), Some(Match::ExactValue)));
    assert!(matches!(
        match_component("opamp", &vec!["opamp".to_string()], c),
        Some(Match::AllTerms(Field::Description)),
    ));
    assert!(match_component("", &Vec::new(), c).is_none());
    match match_component("dualxyz", &vec!["dual".to_string(), "xyz".to_string()], c) {
        Some(Match::SomeTerms(v)) => {
            assert_eq!(v, [FieldHits { field: Field::Description, matched: 1 }]);
        }
        m => panic!("{m:?}"),
    }
}
