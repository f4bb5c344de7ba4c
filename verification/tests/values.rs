use netlist_explorer::design::bead::{
    bead_tokens, canonical_frequency, choose_impedance, frequency_literal, is_frequency_unit,
    is_ohm_marked_token, split_bead, Choice, Ohms,
};
use netlist_explorer::design::value::{
    parse_unit_only_token, parse_value_token, passive_class, read_simple_value, si_prefix,
    strip_long_unit_word, unit_letter, Passive, Reading,
};

struct ValueNorm {
    magnitude: f64,
    unit: String,
    canonical: String,
    at_frequency: Option<String>,
}

fn magnitude(reading: &Reading) -> Option<f64> {
    let n = reading.number.parse::<f64>().ok()?;
    Some(match reading.exponent {
        -12 => n * 1e-12,
        -9 => n * 1e-9,
        -6 => n * 1e-6,
        -3 => n * 1e-3,
        3 => n * 1e3,
        6 => n * 1e6,
        9 => n * 1e9,
        _ => n,
    })
}

fn format_canonical(magnitude: f64, unit_symbol: &str) -> String {
    if magnitude == 0.0 {
        return format!("0{unit_symbol}");
    }
    let prefixes: [(f64, &str); 8] = [
        (1e9, "G"),
        (1e6, "M"),
        (1e3, "k"),
        (1.0, ""),
        (1e-3, "m"),
        (1e-6, "µ"),
        (1e-9, "n"),
        (1e-12, "p"),
    ];
    let chosen = prefixes
        .iter()
        .find(|(threshold, _)| magnitude.abs() >= *threshold)
        .unwrap_or(&prefixes[7]);
    let rounded = (magnitude / chosen.0 * 1000.0).round() / 1000.0;
    let mantissa = if rounded.fract() == 0.0 {
        format!("{}", rounded as i64)
    } else {
        format!("{rounded:.3}").trim_end_matches('0').trim_end_matches('.').to_string()
    };
    format!("{mantissa}{}{unit_symbol}", chosen.1)
}

fn norm(magnitude: f64, unit: &str) -> ValueNorm {
    ValueNorm {
        magnitude,
        unit: unit.to_string(),
        canonical: format_canonical(magnitude, unit),
        at_frequency: None,
    }
}

fn plausible(ohms: f64) -> bool {
    (1.0..=10_000.0).contains(&ohms)
}

fn bead_ohms(tok: &str) -> Ohms {
    match parse_value_token(tok, 'R').and_then(|r| magnitude(&r)) {
        Some(m) => Ohms { parses: true, plausible: plausible(m), bits: m.to_bits() },
        None => Ohms { parses: false, plausible: false, bits: 0 },
    }
}

fn normalize_bead(value: &str) -> Option<ValueNorm> {
    let tokens = split_bead(value);
    let ohms: Vec<Ohms> = tokens.iter().map(|t| bead_ohms(t)).collect();
    match choose_impedance(&tokens, &ohms) {
        Choice::Nothing => None,
        Choice::Token(i, freq) => {
            let mut n = norm(f64::from_bits(ohms[i].bits), "Ω");
            if let Some(f) = &freq {
                n.canonical = format!("{}@{f}", n.canonical);
            }
            n.at_frequency = freq;
            Some(n)
        }
        Choice::From(i) => {
            let reading = read_simple_value(&tokens[i..].join(" "), 'R')?;
            let m = magnitude(&reading)?;
            if plausible(m) {
                Some(norm(m, "Ω"))
            } else {
                None
            }
        }
    }
}

fn normalize_value(value: &str, class: &str) -> Option<ValueNorm> {
    let passive = passive_class(class)?;
    let symbol = match passive {
        Passive::Resistor => "Ω",
        Passive::Capacitor => "F",
        Passive::Inductor => "H",
        Passive::Bead => return normalize_bead(value),
    };
    let reading = read_simple_value(value, unit_letter(passive))?;
    Some(norm(magnitude(&reading)?, symbol))
}

fn read(tok: &str, unit: char) -> Option<(String, i32)> {
    parse_value_token(tok, unit).map(|r| (r.number, r.exponent))
}

#[test]
fn parses_pf_written_as_trailing_token() {
    let v = normalize_value("33 pF", "C").expect("should parse");
    assert_eq!(v.canonical, "33pF");
    assert!((v.magnitude - 33e-12).abs() < 1e-20);
}

#[test]
fn parses_pf_written_as_prefix_suffix() {
    let v = normalize_value("33p", "C").expect("should parse");
    assert_eq!(v.canonical, "33pF");
    assert!((v.magnitude - 33e-12).abs() < 1e-20);
}

#[test]
fn parses_kilohm_resistor() {
    let v = normalize_value("348k", "R").expect("should parse");
    assert_eq!(v.canonical, "348kΩ");
    assert!((v.magnitude - 348000.0).abs() < 1e-9);
}

#[test]
fn parses_microfarad_with_voltage_rating() {
    let v = normalize_value("4.7u 25V", "C").expect("should parse");
    assert_eq!(v.canonical, "4.7µF");
    assert!((v.magnitude - 4.7e-6).abs() < 1e-15);
}

#[test]
fn zero_ohm_resistor() {
    let v = normalize_value("0", "R").expect("should parse");
    assert_eq!(v.canonical, "0Ω");
    assert_eq!(v.magnitude, 0.0);
}

#[test]
fn decimal_marker_style_resistor() {
    let v = normalize_value("4k7", "R").expect("should parse");
    assert!((v.magnitude - 4700.0).abs() < 1e-9);

    let v = normalize_value("4R7", "R").expect("should parse");
    assert!((v.magnitude - 4.7).abs() < 1e-9);
}

#[test]
fn trailing_unit_letter_on_resistor() {
    let v = normalize_value("10R", "R").expect("should parse");
    assert!((v.magnitude - 10.0).abs() < 1e-9);
}

#[test]
fn prefix_and_unit_letter_concatenated() {
    let v = normalize_value("0.1uF", "C").expect("should parse");
    assert!((v.magnitude - 1e-7).abs() < 1e-15);
}

#[test]
fn uppercase_prefix_folds_where_it_is_unambiguous() {
    let v = normalize_value("24K", "R").expect("should parse");
    assert_eq!(v.canonical, "24kΩ");
    assert!((v.magnitude - 24000.0).abs() < 1e-9);

    for (raw, class, canonical) in [
        ("33P", "C", "33pF"),
        ("10N", "C", "10nF"),
        ("4U7", "C", "4.7µF"),
        ("1K5", "R", "1.5kΩ"),
        ("2U2", "L", "2.2µH"),
    ] {
        let v = normalize_value(raw, class).unwrap_or_else(|| panic!("{raw} should parse"));
        assert_eq!(v.canonical, canonical, "{raw}");
    }
}

#[test]
fn milli_and_mega_keep_their_case_on_a_resistor() {
    let milli = normalize_value("1m", "R").expect("should parse");
    assert_eq!(milli.canonical, "1mΩ");
    let mega = normalize_value("1M", "R").expect("should parse");
    assert_eq!(mega.canonical, "1MΩ");
}

#[test]
fn uppercase_m_is_milli_on_an_inductor() {
    for (raw, canonical) in [("10MH", "10mH"), ("1MH", "1mH"), ("1M5", "1.5mH")] {
        let v = normalize_value(raw, "L").unwrap_or_else(|| panic!("{raw} should parse"));
        assert_eq!(v.canonical, canonical, "{raw}");
    }
    let v = normalize_value("10mH", "L").expect("should parse");
    assert_eq!(v.canonical, "10mH");
    assert!(normalize_value("1MF", "C").is_none());
    assert!(normalize_value("475M", "C").is_none());
}

#[test]
fn a_lone_prefix_token_supplies_the_multiplier() {
    let v = normalize_value("100 k", "R").expect("should parse");
    assert_eq!(v.canonical, "100kΩ");

    let v = normalize_value("22 u 25 V", "C").expect("should parse");
    assert_eq!(v.canonical, "22µF");

    let v = normalize_value("24 Kohm", "R").expect("should parse");
    assert_eq!(v.canonical, "24kΩ");
}

#[test]
fn a_bare_unit_word_is_still_no_multiplier() {
    let v = normalize_value("24 ohms", "R").expect("should parse");
    assert_eq!(v.canonical, "24Ω");
}

#[test]
fn both_micro_signs_parse() {
    for raw in ["4.7\u{b5}F", "4.7\u{3bc}F"] {
        let v = normalize_value(raw, "C").unwrap_or_else(|| panic!("{raw} should parse"));
        assert_eq!(v.canonical, "4.7µF");
    }
}

#[test]
fn a_part_number_in_the_value_field_stays_unparsed() {
    assert!(normalize_value("4816P-1-103LF", "R").is_none());
    assert!(normalize_value("GRM155R71C104KA88D", "C").is_none());

    for raw in ["2N7002", "1N4148", "2N3904", "1N5819"] {
        assert!(normalize_value(raw, "R").is_none(), "{raw}");
    }
    let v = normalize_value("1K00", "R").expect("should parse");
    assert_eq!(v.canonical, "1kΩ");
}

#[test]
fn a_prefix_the_class_is_not_made_in_is_refused() {
    for raw in ["104K", "103K", "224K", "104M"] {
        assert!(normalize_value(raw, "C").is_none(), "{raw}");
    }
    assert!(normalize_value("101K", "L").is_none());
    let v = normalize_value("104K", "R").expect("should parse");
    assert_eq!(v.canonical, "104kΩ");

    for raw in ["100n", "4n7", "33P", "1n5"] {
        assert!(normalize_value(raw, "R").is_none(), "{raw}");
    }
    for (raw, canonical) in [("100u", "100µΩ"), ("500m", "500mΩ"), ("1G", "1GΩ")] {
        let v = normalize_value(raw, "R").unwrap_or_else(|| panic!("{raw} should parse"));
        assert_eq!(v.canonical, canonical, "{raw}");
    }
}

#[test]
fn a_stray_letter_is_not_a_multiplier() {
    let v = normalize_value("4.7 ohm K", "R").expect("should parse");
    assert_eq!(v.canonical, "4.7Ω");

    let v = normalize_value("22 uF X7R K", "C").expect("should parse");
    assert_eq!(v.canonical, "22µF");

    let v = normalize_value("100 n", "R").expect("should parse");
    assert_eq!(v.canonical, "100Ω");
}

#[test]
fn rejects_placeholder_junk() {
    assert!(normalize_value("placeholder", "C").is_none());
}

#[test]
fn rejects_bare_class_letter() {
    assert!(normalize_value("R", "R").is_none());
}

#[test]
fn non_passive_class_returns_none() {
    assert!(normalize_value("STM32F407VGT6", "U").is_none());
}

#[test]
fn a_bead_reads_its_impedance_not_its_dc_resistance() {
    let v = normalize_value("1.5A 120mΩ 1kΩ@100MHz", "FB").expect("should parse");
    assert_eq!(v.canonical, "1kΩ@100MHz");
    assert_eq!(v.unit, "Ω");
    assert_eq!(v.at_frequency.as_deref(), Some("100MHz"));
    assert!((v.magnitude - 1000.0).abs() < 1e-9);

    let v = normalize_value("450mA 290mΩ 220Ω@100MHz", "FB").expect("should parse");
    assert_eq!(v.canonical, "220Ω@100MHz");
    assert!((v.magnitude - 220.0).abs() < 1e-9);

    for raw in ["120mΩ 1kΩ@100MHz", "1kΩ@100MHz"] {
        let v = normalize_value(raw, "FB").unwrap_or_else(|| panic!("{raw} should parse"));
        assert_eq!(v.canonical, "1kΩ@100MHz", "{raw}");
    }
}

#[test]
fn a_single_valued_bead_reads_like_a_resistor() {
    for (raw, canonical) in [("600R", "600Ω"), ("1kΩ", "1kΩ"), ("120 ohm", "120Ω")] {
        let v = normalize_value(raw, "FB").unwrap_or_else(|| panic!("{raw} should parse"));
        assert_eq!(v.canonical, canonical, "{raw}");
        assert_eq!(v.at_frequency, None, "{raw}");
    }
}

#[test]
fn an_unmarked_pair_of_ohm_values_stays_null() {
    assert!(normalize_value("1.5Ω 1kΩ", "FB").is_none());
    assert!(normalize_value("500 mA 100 k", "FB").is_none());
}

#[test]
fn a_value_behind_a_rating_reads_from_its_own_token() {
    for (raw, canonical) in
        [("1.5A 120mΩ 1k", "1kΩ"), ("2A 1k", "1kΩ"), ("0.5A 100", "100Ω")]
    {
        let v = normalize_value(raw, "FB").unwrap_or_else(|| panic!("{raw} should parse"));
        assert_eq!(v.canonical, canonical, "{raw}");
    }
}

#[test]
fn a_lone_sub_ohm_value_is_a_dc_resistance_not_a_bead() {
    assert!(normalize_value("1.5A 120mΩ", "FB").is_none());
    assert!(normalize_value("120mΩ", "FB").is_none());
    let v = normalize_value("120mΩ 1kΩ", "FB").expect("should parse");
    assert_eq!(v.canonical, "1kΩ");
}

#[test]
fn a_bare_number_out_of_band_is_a_part_number() {
    assert!(normalize_value("742792625", "FB").is_none());
    assert!(normalize_value("BLM18PG121SN1D", "FB").is_none());
}

#[test]
fn a_bead_ignores_ratings_that_are_not_ohms() {
    let v = normalize_value("1.5A 1kΩ@100MHz 25V", "FB").expect("should parse");
    assert_eq!(v.canonical, "1kΩ@100MHz");
    let v = normalize_value("2A 600R", "FB").expect("should parse");
    assert_eq!(v.canonical, "600Ω");
}

#[test]
fn two_disagreeing_impedance_points_stay_null() {
    assert!(normalize_value("600Ω@10MHz 1kΩ@100MHz", "FB").is_none());
    assert!(normalize_value("1kΩ@100MHz 600Ω@10MHz", "FB").is_none());
    for raw in ["1kΩ@100MHz 120mΩ@DC", "1kΩ@100MHz 1.5Ω@DC", "1.5Ω@DC 1kΩ@100MHz"] {
        let v = normalize_value(raw, "FB").unwrap_or_else(|| panic!("{raw} should parse"));
        assert_eq!(v.canonical, "1kΩ@100MHz", "{raw}");
    }
    assert!(normalize_value("1.5Ω@DC", "FB").is_none());
    assert!(normalize_value("1kΩ@100MHz 1kΩ@1GHz", "FB").is_none());
    assert!(normalize_value("1kΩ@1GHz 1kΩ@100MHz", "FB").is_none());
    let v = normalize_value("1kΩ@100MHz 1kΩ@100MHz", "FB").expect("should parse");
    assert_eq!(v.canonical, "1kΩ@100MHz");
}

#[test]
fn a_frequency_reads_the_same_however_it_is_punctuated() {
    for raw in [
        "1kΩ@100MHz",
        "1kΩ @100MHz",
        "1kΩ@ 100MHz",
        "1kΩ @ 100MHz",
        "1kΩ @ 100 MHz",
        "1kΩ 100MHz",
    ] {
        let v = normalize_value(raw, "FB").unwrap_or_else(|| panic!("{raw} should parse"));
        assert_eq!(v.canonical, "1kΩ@100MHz", "{raw}");
        assert_eq!(v.at_frequency.as_deref(), Some("100MHz"), "{raw}");
    }
    let v = normalize_value("600 ohm @ 100 MHz", "FB").expect("should parse");
    assert_eq!(v.canonical, "600Ω@100MHz");
    assert_eq!(v.at_frequency.as_deref(), Some("100MHz"));
}

#[test]
fn a_bare_frequency_only_marks_a_value_that_says_it_is_ohms() {
    for raw in ["1kΩ 0603 100MHz", "1kΩ 120mΩ 100MHz", "1kΩ 100MHz 120mΩ"] {
        let v = normalize_value(raw, "FB").unwrap_or_else(|| panic!("{raw} should parse"));
        assert_eq!(v.canonical, "1kΩ@100MHz", "{raw}");
    }
    let v = normalize_value("600@100MHz", "FB").expect("should parse");
    assert_eq!(v.canonical, "600Ω@100MHz");
    let v = normalize_value("0603 100MHz", "FB").expect("should parse");
    assert!(v.at_frequency.is_none());
}

#[test]
fn one_value_quoted_at_two_frequencies_stays_null() {
    assert!(normalize_value("1kΩ 100MHz 200MHz", "FB").is_none());
    assert!(normalize_value("1kΩ@100MHz 200MHz", "FB").is_none());
    let v = normalize_value("1kΩ@100MHz 100Mhz", "FB").expect("should parse");
    assert_eq!(v.canonical, "1kΩ@100MHz");
}

#[test]
fn a_frequency_reads_the_same_however_it_is_spelled() {
    for raw in [
        "1kΩ@100MHz",
        "1kΩ@100Mhz",
        "1kΩ@100mhz",
        "1kΩ@100MHZ",
        "1kΩ@100M",
        "1kΩ@100MHz/1.5A",
    ] {
        let v = normalize_value(raw, "FB").unwrap_or_else(|| panic!("{raw} should parse"));
        assert_eq!(v.canonical, "1kΩ@100MHz", "{raw}");
        assert_eq!(v.at_frequency.as_deref(), Some("100MHz"), "{raw}");
    }
}

#[test]
fn a_mark_that_is_not_a_frequency_does_not_become_one() {
    for raw in ["1kΩ@25C", "1kΩ@x", "1kΩ@"] {
        let v = normalize_value(raw, "FB").unwrap_or_else(|| panic!("{raw} should parse"));
        assert_eq!(v.canonical, "1kΩ", "{raw}");
        assert!(v.at_frequency.is_none(), "{raw}");
    }
}

#[test]
fn a_frequency_drops_the_punctuation_around_it() {
    for raw in ["1kΩ@100MHz, 0.5A", "0.5A, 1kΩ@100MHz", "1kΩ@100MHz@x"] {
        let v = normalize_value(raw, "FB").unwrap_or_else(|| panic!("{raw} should parse"));
        assert_eq!(v.canonical, "1kΩ@100MHz", "{raw}");
        assert_eq!(v.at_frequency.as_deref(), Some("100MHz"), "{raw}");
    }
}

#[test]
fn a_bead_with_no_readable_value_stays_null() {
    assert!(normalize_value("BLM18PG121SN1D", "FB").is_none());
    assert!(normalize_value("FerriteBead", "FB").is_none());
}


#[test]
fn a_token_reads_as_a_number_and_a_power_of_ten() {
    assert_eq!(read("348k", 'R'), Some(("348".to_string(), 3)));
    assert_eq!(read("4k7", 'R'), Some(("4.7".to_string(), 3)));
    assert_eq!(read("4R7", 'R'), Some(("4.7".to_string(), 0)));
    assert_eq!(read("0.1uF", 'F'), Some(("0.1".to_string(), -6)));
    assert_eq!(read("33p", 'F'), Some(("33".to_string(), -12)));
    assert_eq!(read("10MH", 'H'), Some(("10".to_string(), -3)));
    assert_eq!(read("1G", 'R'), Some(("1".to_string(), 9)));
    assert_eq!(read("R", 'R'), None);
    assert_eq!(read("2N7002", 'F'), None);
    assert_eq!(read("10kohm", 'R'), Some(("10".to_string(), 3)));
}

#[test]
fn prefixes_depend_on_the_unit() {
    assert_eq!(si_prefix('M', 'R'), Some(6));
    assert_eq!(si_prefix('M', 'H'), Some(-3));
    assert_eq!(si_prefix('M', 'F'), None);
    assert_eq!(si_prefix('m', 'R'), Some(-3));
    assert_eq!(si_prefix('n', 'R'), None);
    assert_eq!(si_prefix('n', 'F'), Some(-9));
    assert_eq!(si_prefix('K', 'F'), None);
    assert_eq!(si_prefix('g', 'R'), None);
}

#[test]
fn a_unit_word_is_stripped_from_resistances_alone() {
    assert_eq!(strip_long_unit_word("10Ohms", 'R'), "10");
    assert_eq!(strip_long_unit_word("10ohm", 'R'), "10");
    assert_eq!(strip_long_unit_word("10ohm", 'F'), "10ohm");
    assert_eq!(parse_unit_only_token("kohm", 'R', true), Some(3));
    assert_eq!(parse_unit_only_token("k", 'R', false), None);
    assert_eq!(parse_unit_only_token("pF", 'F', false), Some(-12));
    assert_eq!(parse_unit_only_token("F", 'F', false), Some(0));
}

#[test]
fn frequencies_have_one_spelling() {
    assert_eq!(canonical_frequency("100mhz").as_deref(), Some("100MHz"));
    assert_eq!(canonical_frequency("1.5G").as_deref(), Some("1.5GHz"));
    assert_eq!(canonical_frequency("10k").as_deref(), Some("10kHz"));
    assert_eq!(canonical_frequency("25C"), None);
    assert_eq!(canonical_frequency("1.2.3MHz"), None);
    assert_eq!(canonical_frequency("\u{3a9}100mHZ/\u{3a9}"), None);
    assert_eq!(canonical_frequency("\u{2026}100mHZ/\u{3a9}").as_deref(), Some("100MHz"));
    assert_eq!(canonical_frequency(".5MHz").as_deref(), Some(".5MHz"));
    assert_eq!(canonical_frequency("(.5mhz)").as_deref(), Some(".5MHz"));
    assert_eq!(canonical_frequency("-5MHz.").as_deref(), Some("5MHz"));
    assert_eq!(frequency_literal(".5MHz,").as_deref(), Some(".5MHz"));
    assert_eq!(frequency_literal("100M"), None);
    assert_eq!(frequency_literal("100Mhz,").as_deref(), Some("100MHz"));
    assert!(is_frequency_unit("MHz"));
    assert!(!is_frequency_unit("mA"));
}

#[test]
fn a_bead_is_split_at_its_marks() {
    assert_eq!(split_bead("1kΩ@100MHz 25V"), ["1kΩ", "@", "100MHz", "25V"]);
    assert!(is_ohm_marked_token("600R", bead_ohms("600R")));
    assert!(is_ohm_marked_token("600ohm", bead_ohms("600ohm")));
    assert!(!is_ohm_marked_token("600", bead_ohms("600")));
    let tokens = split_bead("1.5Ω@DC 1kΩ@100MHz");
    let ohms: Vec<Ohms> = tokens.iter().map(|t| bead_ohms(t)).collect();
    let read = bead_tokens(&tokens, &ohms).expect("tokens");
    assert_eq!(read.len(), 2);
    assert!(read[0].dc && read[0].freq.is_none());
    assert!(!read[1].dc);
    assert_eq!(read[1].index, 3);
    assert_eq!(read[1].freq.as_deref(), Some("100MHz"));
}

#[test]
fn ohm_readings_are_taken_on_their_word() {
    let tokens = vec!["600R".to_string()];
    let taken = Ohms { parses: true, plausible: true, bits: 1 };
    assert!(matches!(choose_impedance(&tokens, &vec![taken]), Choice::Token(0, None)));
    let refused = Ohms { parses: true, plausible: false, bits: 1 };
    assert!(matches!(choose_impedance(&tokens, &vec![refused]), Choice::From(0)));
    assert!(matches!(choose_impedance(&Vec::new(), &Vec::new()), Choice::From(0)));
}

#[test]
fn a_point_before_a_frequency_is_kept() {
    for raw in ["600R@.5MHz", "600R @ .5 MHz", "600R .5MHz"] {
        let n = normalize_value(raw, "FB").expect(raw);
        assert_eq!(n.at_frequency.as_deref(), Some(".5MHz"), "{raw}");
        assert_eq!(n.canonical, "600Ω@.5MHz", "{raw}");
    }
}

#[test]
fn a_token_without_a_number_reads_as_nothing() {
    for unit in ['R', 'F', 'H'] {
        for tok in ["inf", "infinity", "nan", "-inf", "placeholder", "R", ".", "+", "e5", ""] {
            assert!(parse_value_token(tok, unit).is_none(), "{tok} {unit}");
            assert!(read_simple_value(tok, unit).is_none(), "{tok} {unit}");
        }
    }
    for tok in ["1.2.3", "1e", "1e+", "1.5k3x", "--5", "1e3R5", "5-"] {
        assert!(parse_value_token(tok, 'R').is_none(), "{tok}");
    }
    assert!(parse_value_token("104K", 'F').is_none());
    assert!(read_simple_value("104K", 'F').is_none());
    assert!(read_simple_value("104K 50V", 'F').is_none());
}

#[test]
fn signs_and_powers_of_ten_are_numbers() {
    for (tok, number, exponent) in [
        ("-5", "-5", 0),
        ("+.5k", "+.5", 3),
        ("1e3", "1e3", 0),
        ("1.E-3k", "1.E-3", 3),
        ("-4R7", "-4.7", 0),
        ("5.", "5.", 0),
    ] {
        let r = parse_value_token(tok, 'R').expect(tok);
        assert_eq!((r.number.as_str(), r.exponent), (number, exponent), "{tok}");
        assert!(r.number.parse::<f64>().is_ok(), "{tok}");
    }
}

#[test]
fn white_space_beside_an_at_sign_changes_no_token() {
    let tokens = split_bead("1kΩ@100MHz 2Ω@DC");
    for raw in [
        "1kΩ @100MHz 2Ω@ DC",
        "1kΩ@\t100MHz 2Ω  @  DC",
        "1kΩ \u{a0}@\n 100MHz 2Ω @DC",
    ] {
        assert_eq!(split_bead(raw), tokens, "{raw}");
    }
}
