use netlist_explorer::design::sheets::{
    net_hierarchy_in, normalize_sheet_path, sheet_path_set, subsystem_display_name,
    SubsystemFilter,
};
use netlist_explorer::design::Design;
use netlist_explorer::parser::netlist::{Component, Netlist};

/// A design whose components carry nothing but a sheet.
fn design_with_sheets(sheets: &[&str]) -> Design {
    let mut components = Vec::new();
    for (i, sheet) in sheets.iter().enumerate() {
        let mut c = Component::new();
        c.refdes = format!("U{i}");
        c.sheet = Some(sheet.to_string());
        components.push(c);
    }
    Design::from_netlist(Netlist { components, nets: Vec::new(), sheets: Vec::new() })
        .expect("a design")
}

fn sheets(paths: &[&str]) -> Vec<String> {
    sheet_path_set(&paths.to_vec())
}

#[test]
fn root_selects_only_the_root_sheet() {
    let f = SubsystemFilter::parse(Some("/")).expect("a filter");
    assert_eq!(f, SubsystemFilter::Root);
    assert!(f.matches(Some("/")));
    assert!(!f.matches(Some("/Power/")));
    assert!(!f.matches(Some("/Power/Aux/")));
}

#[test]
fn rooted_path_takes_the_sheet_and_its_descendants() {
    let f = SubsystemFilter::parse(Some("/Power/")).expect("a filter");
    assert!(f.matches(Some("/Power/")));
    assert!(f.matches(Some("/power/aux/")));
    assert!(!f.matches(Some("/")));
    assert!(!f.matches(Some("/PowerMon/")));
    assert!(!f.matches(Some("/Aux/Power/")));
}

#[test]
fn rooted_path_without_trailing_slash_is_the_same_sheet() {
    assert_eq!(
        SubsystemFilter::parse(Some("/Power")),
        SubsystemFilter::parse(Some("/Power/")),
    );
}

#[test]
fn bare_name_stays_a_substring_match() {
    let f = SubsystemFilter::parse(Some("sensor")).expect("a filter");
    assert!(f.matches(Some("/Sensor1/")));
    assert!(f.matches(Some("/Sensor3/")));
    assert!(f.matches(Some("/Analog/Sensor2/")));
    assert!(!f.matches(Some("/Power/")));
    assert!(!f.matches(Some("/")));
}

#[test]
fn blank_argument_is_no_filter() {
    assert_eq!(SubsystemFilter::parse(None), None);
    assert_eq!(SubsystemFilter::parse(Some("")), None);
    assert_eq!(SubsystemFilter::parse(Some("   ")), None);
}

#[test]
fn unmatched_rooted_path_widens_to_a_rooted_prefix() {
    let sheets = [Some("/ADC1/"), Some("/ADC2/"), Some("/Power/")];
    let f = SubsystemFilter::parse(Some("/ADC"))
        .expect("a filter")
        .widen_if_unmatched(&sheets.to_vec());
    assert_eq!(f, SubsystemFilter::PathPrefix("/adc".to_string()));
    assert!(f.matches(Some("/ADC1/")));
    assert!(f.matches(Some("/ADC2/")));
    assert!(!f.matches(Some("/Power/")));
}

#[test]
fn widening_stays_anchored_at_the_root() {
    let sheets = [Some("/Power/"), Some("/Ethernet/"), Some("/Sensor1/")];
    let f = SubsystemFilter::parse(Some("/E"))
        .expect("a filter")
        .widen_if_unmatched(&sheets.to_vec());
    assert_eq!(f, SubsystemFilter::PathPrefix("/e".to_string()));
    assert!(f.matches(Some("/Ethernet/")));
    assert!(!f.matches(Some("/Power/")));
    assert!(!f.matches(Some("/Sensor1/")));
    assert!(!f.matches(Some("/Analog/Ethernet/")));
    let bare = SubsystemFilter::parse(Some("e")).expect("a filter");
    assert!(bare.matches(Some("/Power/")));
}

#[test]
fn widening_does_not_reach_a_differently_rooted_sheet() {
    let sheets = [Some("/PeriphUSB/"), Some("/Power/")];
    let f = SubsystemFilter::parse(Some("/USB"))
        .expect("a filter")
        .widen_if_unmatched(&sheets.to_vec());
    assert_eq!(f, SubsystemFilter::PathPrefix("/usb".to_string()));
    assert!(!f.matches(Some("/PeriphUSB/")));
}

#[test]
fn rooted_path_that_matches_a_sheet_stays_a_path() {
    let sheets = [Some("/Power/"), Some("/PowerMon/")];
    let f = SubsystemFilter::parse(Some("/Power"))
        .expect("a filter")
        .widen_if_unmatched(&sheets.to_vec());
    assert_eq!(f, SubsystemFilter::Path("/power/".to_string()));
    assert!(!f.matches(Some("/PowerMon/")));
}

#[test]
fn root_never_widens() {
    let sheets = [Some("/Power/"), Some("/ADC1/")];
    let f = SubsystemFilter::parse(Some("/"))
        .expect("a filter")
        .widen_if_unmatched(&sheets.to_vec());
    assert_eq!(f, SubsystemFilter::Root);
}

#[test]
fn unassigned_sheet_matches_nothing() {
    for arg in ["/", "/Power/", "power"] {
        let f = SubsystemFilter::parse(Some(arg)).expect("a filter");
        assert!(!f.matches(None), "{arg} should not match an unassigned part");
        assert!(!f.matches(Some("")), "{arg} should not match an empty sheet");
    }
    let widened = SubsystemFilter::PathPrefix("/power".to_string());
    assert!(!widened.matches(None));
    assert!(!widened.matches(Some("")));
}

#[test]
fn absent_argument_yields_no_filter_and_no_note() {
    let design = design_with_sheets(&["/Power/"]);
    let (filter, note) = design.subsystem_filter(None);
    assert!(filter.is_none());
    assert!(note.is_none());
}

#[test]
fn a_path_the_design_answers_to_is_taken_at_face_value() {
    let design = design_with_sheets(&["/Power/", "/PowerMon/"]);
    let (filter, note) = design.subsystem_filter(Some("/Power"));
    assert_eq!(filter, Some(SubsystemFilter::Path("/power/".to_string())));
    assert!(note.is_none());
}

#[test]
fn an_unmatched_path_widens_and_says_so() {
    let design = design_with_sheets(&["/ADC1/", "/ADC2/", "/Power/"]);
    let (filter, note) = design.subsystem_filter(Some("/ADC"));
    assert_eq!(filter, Some(SubsystemFilter::PathPrefix("/adc".to_string())));
    let note = note.expect("a widened filter must be reported");
    assert!(note.contains("/ADC"), "{note}");
    assert!(note.contains("starts with '/adc'"), "{note}");
}

#[test]
fn root_and_bare_names_never_produce_a_note() {
    let design = design_with_sheets(&["/Power/", "/Sensor1/"]);
    for arg in ["/", "sensor", "nosuchsheet"] {
        let (filter, note) = design.subsystem_filter(Some(arg));
        assert!(filter.is_some(), "{arg}");
        assert!(note.is_none(), "{arg} produced {note:?}");
    }
}

#[test]
fn a_widened_filter_reports_itself_in_the_envelope() {
    let design = design_with_sheets(&["/ADC1/", "/ADC2/", "/Power/"]);
    let page = design.filter_components(None, None, Some("/ADC"), None, 10, 0);
    let note = page.subsystem_note.expect("a note");
    assert!(note.contains("drop the leading slash"), "{note}");
    assert!(!note.contains("matched sheets"), "{note}");

    let page = design.filter_components(None, None, Some("/Power"), None, 10, 0);
    assert!(page.subsystem_note.is_none());
}

#[test]
fn trims_the_rooting_slashes() {
    assert_eq!(subsystem_display_name("/Power/"), "Power");
    assert_eq!(subsystem_display_name("/Power/Aux/"), "Power/Aux");
}

#[test]
fn root_keeps_its_slash_so_it_round_trips_as_a_selector() {
    let name = subsystem_display_name("/");
    assert_eq!(name, "/");
    assert_eq!(SubsystemFilter::parse(Some(&name)), Some(SubsystemFilter::Root));
}

#[test]
fn splits_a_net_name_at_the_sheet_it_names() {
    let h = net_hierarchy_in("/Power/EN", &sheets(&["/Power/"]));
    assert!(h.rooted);
    assert_eq!(h.local_name, "EN");
    assert_eq!(h.sheet_path.as_deref(), Some("/Power"));
    assert_eq!(h.depth, 1);
    assert_eq!(h.scope_hint, "hierarchical");
}

#[test]
fn keeps_a_slash_that_belongs_to_the_label() {
    let h = net_hierarchy_in("/Ethernet/LED1/REGOFF", &sheets(&["/Ethernet/"]));
    assert_eq!(h.local_name, "LED1/REGOFF");
    assert_eq!(h.sheet_path.as_deref(), Some("/Ethernet"));
    assert_eq!(h.depth, 1);
}

#[test]
fn prefers_the_deepest_sheet_that_matches() {
    let h = net_hierarchy_in(
        "/Ethernet/Magnetics/CT",
        &sheets(&["/Ethernet/", "/Ethernet/Magnetics/"]),
    );
    assert_eq!(h.local_name, "CT");
    assert_eq!(h.sheet_path.as_deref(), Some("/Ethernet/Magnetics"));
    assert_eq!(h.depth, 2);
}

#[test]
fn a_sheet_known_only_as_an_ancestor_still_splits() {
    let h = net_hierarchy_in("/Ethernet/RST", &sheets(&["/Ethernet/Magnetics/"]));
    assert_eq!(h.local_name, "RST");
    assert_eq!(h.sheet_path.as_deref(), Some("/Ethernet"));
    assert_eq!(h.depth, 1);
}

#[test]
fn an_unknown_prefix_reads_as_a_flat_name() {
    let h = net_hierarchy_in("/LED1/REGOFF", &sheets(&["/Ethernet/"]));
    assert_eq!(h.local_name, "LED1/REGOFF");
    assert_eq!(h.sheet_path, None);
    assert_eq!(h.depth, 0);
    assert!(h.rooted);
    assert_eq!(h.scope_hint, "hierarchical");
}

#[test]
fn a_flat_name_has_no_hierarchy() {
    let h = net_hierarchy_in("GND", &sheets(&["/Power/"]));
    assert!(!h.rooted);
    assert_eq!(h.local_name, "GND");
    assert_eq!(h.sheet_path, None);
    assert_eq!(h.depth, 0);
    assert_eq!(h.scope_hint, "flat");
}

#[test]
fn an_autogenerated_name_is_not_split() {
    let h = net_hierarchy_in("Net-(U2A-NINT/REFCLKO)", &sheets(&["/Ethernet/"]));
    assert_eq!(h.local_name, "Net-(U2A-NINT/REFCLKO)");
    assert_eq!(h.sheet_path, None);
    assert_eq!(h.depth, 0);
}

#[test]
fn matching_ignores_case() {
    let h = net_hierarchy_in("/POWER/EN", &sheets(&["/Power/"]));
    assert_eq!(h.sheet_path.as_deref(), Some("/POWER"));
    assert_eq!(h.local_name, "EN");
}

#[test]
fn the_root_sheet_is_not_a_split_point() {
    let h = net_hierarchy_in("/SENSIN1", &sheets(&["/"]));
    assert_eq!(h.local_name, "SENSIN1");
    assert_eq!(h.sheet_path, None);
    assert_eq!(h.depth, 0);
}

#[test]
fn a_sheet_name_is_matched_whole_not_as_a_prefix() {
    let h = net_hierarchy_in("/PowerAux/EN", &sheets(&["/Power/"]));
    assert_eq!(h.local_name, "PowerAux/EN");
    assert_eq!(h.sheet_path, None);
}

#[test]
fn a_path_is_normalized_once_and_for_all() {
    assert_eq!(normalize_sheet_path("Power"), "/power/");
    assert_eq!(normalize_sheet_path(" /Power/Aux "), "/power/aux/");
    let again = normalize_sheet_path(&normalize_sheet_path("/Power/Aux"));
    assert_eq!(again, "/power/aux/");
    for root in ["/", "", "//"] {
        assert_eq!(normalize_sheet_path(root), "/", "{root:?}");
        assert_eq!(normalize_sheet_path(&normalize_sheet_path(root)), "/", "{root:?}");
    }
    for blank in ["  ", " / "] {
        assert_eq!(normalize_sheet_path(blank), "//", "{blank:?}");
    }
    assert!(sheets(&[]).contains(&normalize_sheet_path("/")));
}

#[test]
fn the_root_sheet_splits_no_net_name() {
    for name in ["/ /EN", "//EN", "/EN", " /EN"] {
        let h = net_hierarchy_in(name, &sheets(&["/Power/"]));
        assert_eq!(h.sheet_path, None, "{name}");
        assert_eq!(h.depth, 0, "{name}");
    }
}

#[test]
fn a_net_on_a_sheet_with_a_blank_name_keeps_its_sheet() {
    let all = sheets(&["/ /"]);
    assert!(all.contains(&"//".to_string()));
    let h = net_hierarchy_in("/ /X", &all);
    assert!(h.rooted);
    assert_eq!(h.depth, 1);
    assert_eq!(h.sheet_path.as_deref(), Some("/ "));
    assert_eq!(h.local_name, "X");
}

#[test]
fn paths_outside_ascii_are_filtered_alike() {
    for (arg, path) in [("/\u{c9}tage", "/\u{e9}tage/"), ("/\u{39f}\u{394}\u{39f}\u{3a3}", "/\u{3bf}\u{3b4}\u{3bf}\u{3c2}/")] {
        let f = SubsystemFilter::parse(Some(arg)).expect("a filter");
        assert_eq!(f, SubsystemFilter::Path(path.to_string()));
        let closed = format!("{arg}/");
        assert_eq!(SubsystemFilter::parse(Some(&closed)).as_ref(), Some(&f));
        assert!(f.matches(Some(arg)) && f.matches(Some(&closed)));
        assert!(f.matches(Some(&format!("{arg}/Aux/"))));
        assert!(!f.matches(Some(&arg[1..])));
        let name = subsystem_display_name(&closed);
        let named = SubsystemFilter::parse(Some(&name)).expect("a filter");
        assert!(named.matches(Some(&closed)));
        let widened = f.widen_if_unmatched(&vec![Some("/Power/")]);
        assert_eq!(widened, SubsystemFilter::PathPrefix(path.trim_end_matches('/').to_string()));
        assert!(widened.matches(Some(&format!("{arg}2/"))));
        assert!(!widened.matches(Some(&name)));
    }
}

#[test]
fn slashes_alone_are_the_root() {
    for arg in ["/", "//", " /// "] {
        assert_eq!(SubsystemFilter::parse(Some(arg)), Some(SubsystemFilter::Root), "{arg}");
    }
    assert_eq!(SubsystemFilter::parse(Some("/A//")), Some(SubsystemFilter::Path("/a//".to_string())));
    assert_eq!(SubsystemFilter::parse(Some("A/")), Some(SubsystemFilter::Substring("a".to_string())));
}

#[test]
fn the_sheets_above_a_sheet_are_kept_with_it() {
    let mut all = sheets(&["/A/B/C/", "/A/D/"]);
    all.sort();
    assert_eq!(all, ["/", "/a/", "/a/b/", "/a/b/c/", "/a/d/"]);
}

#[test]
fn a_display_name_selects_the_sheet_it_was_read_from() {
    for path in ["/Power/", "/Power/Aux/"] {
        let name = subsystem_display_name(path);
        let f = SubsystemFilter::parse(Some(&name)).expect("a filter");
        assert!(f.matches(Some(path)), "{path}");
    }
}

#[test]
fn a_widened_filter_counts_what_it_selects() {
    let design = design_with_sheets(&["/ADC1/", "/ADC2/", "/Power/"]);
    let page = design.filter_components(None, None, Some("/ADC"), None, 10, 0);
    assert_eq!(page.total, 2);
    let found: Vec<&str> = page.rows.iter().map(|r| r.refdes.as_str()).collect();
    assert_eq!(found, ["U0", "U1"]);
}

#[test]
fn a_sheet_of_the_header_splits_a_net_name() {
    let design = Design::from_netlist(Netlist {
        components: Vec::new(),
        nets: Vec::new(),
        sheets: vec!["/Power/".to_string()],
    })
    .expect("a design");
    let h = design.net_hierarchy("/Power/EN");
    assert_eq!(h.sheet_path.as_deref(), Some("/Power"));
    assert_eq!(h.local_name, "EN");
}
