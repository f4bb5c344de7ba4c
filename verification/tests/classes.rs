use netlist_explorer::design::assemble::presence_flag;
use netlist_explorer::design::classes::{
    endpoint_kind, is_passive_passthrough, is_power_name, refdes_class,
};
use netlist_explorer::design::is_endpoint_class;
use netlist_explorer::table::Table;

const ANY: usize = 2;

#[test]
fn two_pin_passives_and_probes_are_not_endpoints() {
    for class in ["R", "L", "C", "FB"] {
        assert!(
            !is_endpoint_class(class, 2),
            "2-pin {class} should not be an endpoint"
        );
    }
    for class in ["TP", "H", "MH", "FID"] {
        assert!(
            !is_endpoint_class(class, ANY),
            "{class} should not be an endpoint"
        );
    }
}

#[test]
fn multi_terminal_passives_are_endpoints() {
    for (class, pins) in [("L", 4), ("C", 3), ("R", 8), ("FB", 4)] {
        assert!(
            is_endpoint_class(class, pins),
            "{pins}-pin {class} should be an endpoint"
        );
    }
}

#[test]
fn a_one_pin_passive_is_an_endpoint() {
    assert!(is_endpoint_class("R", 1));
}

#[test]
fn probes_are_inert_at_any_pin_count() {
    for pins in [1, 2, 3] {
        assert!(!is_endpoint_class("TP", pins));
    }
}

#[test]
fn passthrough_and_endpoint_are_exact_complements_for_passives() {
    for class in ["R", "L", "C", "FB"] {
        for pins in [1, 2, 3, 4, 8] {
            assert_eq!(
                is_passive_passthrough(class, pins),
                !is_endpoint_class(class, pins),
                "{pins}-pin {class}"
            );
        }
    }
}

#[test]
fn mk_is_a_microphone_not_a_mechanical_part() {
    assert!(is_endpoint_class("MK", ANY));
}

#[test]
fn ics_and_connectors_are_endpoints() {
    for class in ["U", "J", "P", "CN", "RJ", "USB"] {
        assert!(
            is_endpoint_class(class, ANY),
            "{class} should be an endpoint"
        );
    }
}

#[test]
fn the_classes_issue_13_reported_are_endpoints() {
    for class in ["RJ", "T", "X"] {
        assert!(
            is_endpoint_class(class, ANY),
            "{class} should be an endpoint"
        );
    }
}

#[test]
fn an_unknown_class_is_assumed_to_be_a_real_part() {
    for class in ["K", "BZ", "ANT", "MOD", "ISO"] {
        assert!(
            is_endpoint_class(class, ANY),
            "{class} should be an endpoint"
        );
    }
}

#[test]
fn presence_flag_absent_key_is_false() {
    let props: Table<Option<String>> = Table::new();
    assert!(!presence_flag(&props, "dnp"));
}

#[test]
fn presence_flag_valueless_key_is_true() {
    let mut props: Table<Option<String>> = Table::new();
    props.insert("dnp".to_string(), None);
    assert!(presence_flag(&props, "dnp"));
}

#[test]
fn presence_flag_honours_an_explicit_value() {
    let mut props: Table<Option<String>> = Table::new();
    props.insert("dnp".to_string(), Some("yes".to_string()));
    assert!(presence_flag(&props, "dnp"));

    for falsy in ["no", "false", "0", "", "  "] {
        props.insert("dnp".to_string(), Some(falsy.to_string()));
        assert!(!presence_flag(&props, "dnp"), "{falsy:?} should be falsy");
    }
}

#[test]
fn presence_flags_are_independent() {
    let mut props: Table<Option<String>> = Table::new();
    props.insert("dnp".to_string(), None);
    assert!(presence_flag(&props, "dnp"));
    assert!(!presence_flag(&props, "exclude_from_bom"));
}

#[test]
fn a_class_is_the_letters_before_the_number() {
    assert_eq!(refdes_class("U12"), "U");
    assert_eq!(refdes_class("tp3"), "TP");
    assert_eq!(refdes_class("USB1A"), "USB");
}

#[test]
fn each_class_has_its_function() {
    for (class, kind) in [
        ("U", "ic"),
        ("J", "connector"),
        ("USB", "connector"),
        ("D", "diode"),
        ("Q", "transistor"),
        ("T", "transformer"),
        ("Y", "crystal"),
        ("X", "crystal"),
        ("SW", "switch"),
        ("TP", "test_point"),
        ("R", "passive"),
        ("K", "other"),
    ] {
        assert_eq!(endpoint_kind(class), kind, "{class}");
    }
}

#[test]
fn power_names_are_told_from_signals() {
    for name in ["GND", "+3V3", "VCC", "/Power/AGND", "VBUS", "1V8"] {
        assert!(is_power_name(name), "{name}");
    }
    for name in ["SPI_CLK", "/Sensor1/OUT", "Net-(U1-Pad3)"] {
        assert!(!is_power_name(name), "{name}");
    }
}
