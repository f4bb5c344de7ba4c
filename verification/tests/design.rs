use netlist_explorer::design::assemble::BuildError;
use netlist_explorer::design::error::QueryError;
use netlist_explorer::design::rails::RailReading;
use netlist_explorer::design::{CompId, Design, NetId, PinId};
use netlist_explorer::parser::netlist::{Component, Net, Netlist, Pin};

/// A part: designator, value, sheet, and its pins as (number, type, net).
type PartRow<'a> = (&'a str, &'a str, &'a str, &'a [(&'a str, &'a str, &'a str)]);

fn netlist_of(parts: &[PartRow]) -> Netlist {
    let mut components = Vec::new();
    let mut nets: Vec<Net> = Vec::new();
    for (refdes, value, sheet, pins) in parts.iter() {
        let mut c = Component::new();
        c.refdes = refdes.to_string();
        c.value = value.to_string();
        c.sheet = Some(sheet.to_string());
        for (number, pin_type, net) in pins.iter() {
            let code = match nets.iter().find(|n| n.name == *net) {
                Some(n) => n.code,
                None => {
                    nets.push(Net { code: nets.len() + 1, name: net.to_string() });
                    nets.len()
                }
            };
            c.pins.push(Pin {
                number: number.to_string(),
                name: None,
                pin_type: Some(pin_type.to_string()),
                net: Some(code),
            });
        }
        components.push(c);
    }
    Netlist { components, nets, sheets: Vec::new() }
}

fn design_of(parts: &[PartRow]) -> Design {
    Design::from_netlist(netlist_of(parts)).expect("a design")
}

/// U1 drives J1 through R1; R2 hangs off the far side, R3 ends on a probe alone, and R4
/// pulls the far side up.
fn board() -> Design {
    design_of(&[
        ("U1", "MCU", "/MCU/", &[
            ("1", "power_in", "+3V3"),
            ("2", "power_in", "GND"),
            ("3", "output", "SIG"),
        ]),
        ("R1", "10k", "/MCU/", &[("1", "passive", "SIG"), ("2", "passive", "FAR")]),
        ("J1", "Conn", "/IO/", &[("1", "passive", "FAR"), ("2", "passive", "GND")]),
        ("R2", "1k", "/IO/", &[("1", "passive", "FAR"), ("2", "passive", "OPEN")]),
        ("R3", "1k", "/IO/", &[("1", "passive", "FAR"), ("2", "passive", "PROBE")]),
        ("TP1", "tp", "/IO/", &[("1", "passive", "PROBE")]),
        ("R4", "1k", "/IO/", &[("1", "passive", "FAR"), ("2", "passive", "+3V3")]),
        ("C1", "100n", "", &[("1", "passive", "+3V3"), ("2", "passive", "GND")]),
    ])
}

/// Readings that call the nets starting with '+' and "GND" rails.
fn readings(design: &Design) -> Vec<RailReading> {
    design
        .nets
        .iter()
        .map(|n| {
            let rail = n.name == "GND" || n.name.starts_with('+');
            RailReading {
                rail,
                hundredths: if rail { 80 } else { 5 },
                evidence: if rail { vec!["named".to_string()] } else { Vec::new() },
            }
        })
        .collect()
}

fn message<T>(r: Result<T, QueryError>) -> String {
    match r {
        Ok(_) => panic!("an error was due"),
        Err(e) => e.message(),
    }
}

#[test]
fn a_design_links_parts_pins_and_nets() {
    let d = board();
    assert_eq!((d.components.len(), d.pins.len(), d.nets.len()), (8, 16, 6));
    assert_eq!(d.component(&CompId(0)).refdes, "U1");
    assert_eq!(d.pin_name(&PinId(2)), "U1:3");
    let sig = d.net(&NetId(2));
    assert_eq!(sig.name, "SIG");
    assert_eq!(sig.pins, [PinId(2), PinId(3)]);
    assert_eq!(sig.pin_types.get("output"), Some(&1));
    assert_eq!(sig.pin_types.get("passive"), Some(&1));
    assert_eq!(sig.pin_types.get("power_in"), None);
    assert_eq!(d.pin(&PinId(3)).comp, CompId(1));
    assert_eq!(d.pin(&PinId(3)).net, Some(NetId(2)));
}

#[test]
fn flags_are_lifted_out_of_the_properties() {
    let mut netlist = netlist_of(&[("R1", "1k", "", &[]), ("R2", "1k", "", &[])]);
    netlist.components[0].properties.insert("dnp".to_string(), None);
    netlist.components[0].properties.insert("Maker".to_string(), Some("X".to_string()));
    netlist.components[1].properties.insert("exclude_from_bom".to_string(), Some("yes".to_string()));
    let d = Design::from_netlist(netlist).expect("a design");
    assert!(d.components[0].dnp && !d.components[0].exclude_from_bom);
    assert!(!d.components[1].dnp && d.components[1].exclude_from_bom);
    assert_eq!(d.components[0].properties.len(), 1);
    assert_eq!(d.components[0].properties.get("Maker"), Some(&Some("X".to_string())));
    assert_eq!(d.components[1].properties.len(), 0);
}

#[test]
fn a_pin_without_a_listed_net_is_refused() {
    let mut netlist = netlist_of(&[("R1", "1k", "", &[("1", "passive", "A")])]);
    netlist.components[0].pins[0].net = None;
    match Design::from_netlist(netlist) {
        Err(BuildError::NoNetCode { refdes, number }) => {
            assert_eq!((refdes.as_str(), number.as_str()), ("R1", "1"));
        }
        _ => panic!("an error was due"),
    }
    let mut netlist = netlist_of(&[("R1", "1k", "", &[("1", "passive", "A")])]);
    netlist.components[0].pins[0].net = Some(9);
    match Design::from_netlist(netlist) {
        Err(BuildError::NoSuchNet { code, refdes, number }) => {
            assert_eq!((code, refdes.as_str(), number.as_str()), (9, "R1", "1"));
        }
        _ => panic!("an error was due"),
    }
}

#[test]
fn names_find_what_stands_last_under_them() {
    let d = design_of(&[
        ("R1", "first", "", &[("1", "passive", "A")]),
        ("R1", "second", "", &[("1", "passive", "B")]),
    ]);
    assert_eq!(d.comp_details("R1", 10, 0).expect("details").value, "second");
    assert_eq!(d.pin_details("R1:1", &readings(&d)).expect("details").net.expect("a net").name, "B");
}

#[test]
fn a_walk_passes_through_series_parts() {
    let d = board();
    let w = d.walk("U1:3", 4, 50, true, false, &readings(&d)).expect("a walk");
    assert_eq!((w.start.as_str(), w.start_net.as_str()), ("U1:3", "SIG"));
    let ends: Vec<(&str, u32, &str)> =
        w.endpoints.iter().map(|e| (e.pin.as_str(), e.distance, e.kind.as_str())).collect();
    assert_eq!(ends, [("J1:1", 1, "connector"), ("TP1:1", 2, "test_point")]);
    assert_eq!(w.endpoints[0].via.len(), 1);
    assert_eq!(w.endpoints[0].via[0].refdes, "R1");
    assert_eq!(w.endpoints[0].via[0].class, "R");
    assert_eq!(w.endpoints[0].component.value, "Conn");
    assert_eq!(w.rails_reached.len(), 1);
    assert_eq!(w.rails_reached[0].net, "+3V3");
    assert_eq!(w.rails_reached[0].hundredths, 80);
    let through: Vec<&str> = w.rails_reached[0].via.iter().map(|v| v.refdes.as_str()).collect();
    assert_eq!(through, ["R1", "R4"]);
    assert!(!w.truncated);
}

#[test]
fn a_walk_reports_where_it_fizzles_out() {
    let d = board();
    let w = d.walk("SIG", 4, 50, true, false, &readings(&d)).expect("a walk");
    let dead: Vec<(Option<&str>, usize, &str)> =
        w.dead_ends.iter().map(|e| (e.net.as_deref(), e.fanout, e.reason.as_str())).collect();
    assert_eq!(dead, [
        (Some("OPEN"), 1, "dangling (goes nowhere)"),
        (Some("PROBE"), 2, "only passives and probe/mechanical parts, no active endpoint"),
    ]);
    let parts: Vec<&str> = w.dead_ends[1].parts.iter().map(|p| p.refdes.as_str()).collect();
    assert_eq!(parts, ["R3", "TP1"]);
    // From a net there is no part to stay out of.
    assert_eq!(w.endpoints[0].pin, "U1:3");
    assert_eq!(w.endpoints[0].distance, 0);
}

#[test]
fn a_walk_is_cut_at_its_limits() {
    let d = board();
    let w = d.walk("U1:3", 0, 50, true, false, &readings(&d)).expect("a walk");
    assert!(w.endpoints.is_empty() && w.truncated);
    let w = d.walk("U1:3", 4, 1, true, false, &readings(&d)).expect("a walk");
    assert_eq!(w.endpoints.len(), 1);
    assert!(w.truncated);
}

#[test]
fn a_walk_crosses_rails_only_when_asked_to() {
    let d = board();
    let w = d.walk("U1:3", 8, 50, false, false, &readings(&d)).expect("a walk");
    assert!(w.rails_reached.is_empty());
    assert!(w.endpoints.iter().any(|e| e.pin == "J1:2"));
}

#[test]
fn a_walk_stops_at_a_large_net() {
    let pins: Vec<(String, String)> = (0..41).map(|i| (i.to_string(), "BUS".to_string())).collect();
    let bus: Vec<(&str, &str, &str)> =
        pins.iter().map(|(n, net)| (n.as_str(), "input", net.as_str())).collect();
    let d = design_of(&[
        ("U1", "", "", &[("1", "output", "A")]),
        ("R1", "", "", &[("1", "passive", "A"), ("2", "passive", "BUS")]),
        ("U2", "", "", &bus),
    ]);
    let w = d.walk("U1:1", 4, 50, true, false, &readings(&d)).expect("a walk");
    assert_eq!(w.large_nets.len(), 1);
    assert_eq!((w.large_nets[0].net.as_str(), w.large_nets[0].fanout), ("BUS", 42));
    assert!(w.endpoints.is_empty());
}

#[test]
fn a_loop_of_series_parts_ends() {
    let d = design_of(&[
        ("U1", "", "", &[("1", "output", "A")]),
        ("R1", "", "", &[("1", "passive", "A"), ("2", "passive", "B")]),
        ("R2", "", "", &[("1", "passive", "B"), ("2", "passive", "A")]),
        ("L1", "", "", &[("1", "passive", "B"), ("2", "passive", "B")]),
        ("U2", "", "", &[("1", "input", "B")]),
    ]);
    let w = d.walk("U1:1", 9, 50, true, false, &readings(&d)).expect("a walk");
    let ends: Vec<&str> = w.endpoints.iter().map(|e| e.pin.as_str()).collect();
    assert_eq!(ends, ["U2:1"]);
    assert_eq!(w.endpoints[0].via.len(), 1);
}

#[test]
fn a_walk_needs_a_start() {
    let d = board();
    let r = readings(&d);
    assert_eq!(message(d.walk("U9:1", 4, 50, true, false, &r)), "no pin named 'U9:1'");
    assert_eq!(message(d.walk("NOPE", 4, 50, true, false, &r)), "no net called 'NOPE'");
}

#[test]
fn walk_data_counts_the_nets_it_reached() {
    let d = board();
    let data = d.walk_bfs(&NetId(2), Some(&CompId(0)), 4, 50, true, &readings(&d));
    // SIG, FAR, PROBE and the rail.
    assert_eq!(data.reached_net_count, 4);
    assert_eq!(d.via_parts(&vec![CompId(1)])[0].refdes, "R1");
}

#[test]
fn a_path_is_found_both_ways_round() {
    let d = board();
    let p = d.path_between("U1:3", "J1:1", &readings(&d)).expect("a path");
    assert!(p.connected);
    assert_eq!(p.distance, Some(1));
    assert_eq!(p.via[0].refdes, "R1");
    assert!(p.note.is_none() && p.diagnosis.is_none());
    let back = d.path_between("J1:1", "U1:3", &readings(&d)).expect("a path");
    assert_eq!((back.connected, back.distance), (true, Some(1)));
}

#[test]
fn a_path_on_one_net_has_no_parts() {
    let d = board();
    for (from, to) in [("U1:3", "U1:3"), ("U1:3", "R1:1")] {
        let p = d.path_between(from, to, &readings(&d)).expect("a path");
        assert_eq!((p.connected, p.distance, p.via.len()), (true, Some(0), 0));
    }
}

#[test]
fn a_path_over_a_rail_says_so() {
    let d = board();
    let p = d.path_between("U1:3", "C1:1", &readings(&d)).expect("a path");
    assert!(p.connected);
    assert_eq!(p.distance, Some(2));
    assert_eq!(
        p.note.as_deref(),
        Some("only via rail +3V3 (shared power/ground, not a signal path)"),
    );
}

#[test]
fn no_path_comes_with_what_is_reached() {
    let d = board();
    let p = d.path_between("U1:3", "J1:2", &readings(&d)).expect("an answer");
    assert!(!p.connected && p.distance.is_none());
    assert_eq!(
        p.note.as_deref(),
        Some("no passthrough path within depth 6 (rails are not crossed)"),
    );
    let diagnosis = p.diagnosis.expect("a diagnosis");
    assert_eq!(diagnosis.to_net.as_deref(), Some("GND"));
    assert_eq!(diagnosis.from_reachable_nets, 4);
    assert_eq!(diagnosis.from_reaches.count, 2);
    assert_eq!(diagnosis.from_reaches.sample[0].pin, "J1:1");
    assert_eq!(diagnosis.from_reaches.sample[0].kind, "connector");
    assert_eq!(diagnosis.from_rails, ["+3V3"]);
}

#[test]
fn a_path_needs_two_pins() {
    let d = board();
    let r = readings(&d);
    assert_eq!(message(d.path_between("U9:1", "J1:1", &r)), "no pin named 'U9:1'");
    assert_eq!(message(d.path_between("J1:1", "U9:1", &r)), "no pin named 'U9:1'");
}

#[test]
fn neighbours_are_grouped_by_net() {
    let d = board();
    let n = d.neighbors("U1").expect("neighbours");
    assert_eq!((n.refdes.as_str(), n.value.as_str(), n.dnp), ("U1", "MCU", false));
    let nets: Vec<(&str, &str)> =
        n.net_groups.iter().map(|g| (g.pin.as_str(), g.net.as_str())).collect();
    assert_eq!(nets, [("U1:1", "+3V3"), ("U1:2", "GND"), ("U1:3", "SIG")]);
    let others: Vec<&str> =
        n.net_groups[0].neighbors.iter().map(|r| r.pin.as_str()).collect();
    assert_eq!(others, ["C1:1", "R4:2"]);
    assert!(!n.net_groups[0].truncated);
    assert_eq!(message(d.neighbors("U9")), "component U9 not found");
}

#[test]
fn a_crowded_net_shows_twenty_five_neighbours() {
    let names: Vec<String> = (1..=30).map(|i| format!("R{i}")).collect();
    let pins: &[(&str, &str, &str)] = &[("1", "passive", "BUS")];
    let mut parts: Vec<PartRow> = vec![("U1", "", "", pins)];
    for name in &names {
        parts.push((name.as_str(), "", "", pins));
    }
    let d = design_of(&parts);
    let n = d.neighbors("U1").expect("neighbours");
    assert_eq!(n.net_groups[0].neighbors.len(), 25);
    assert!(n.net_groups[0].truncated);
    assert_eq!(n.net_groups[0].fanout, 31);
    assert_eq!(n.net_groups[0].neighbors[9].refdes, "R10");
}

#[test]
fn component_details_page_the_pins_in_order() {
    let d = design_of(&[("U1", "MCU", "/A/", &[
        ("10", "input", "N10"),
        ("2", "output", "N2"),
        ("A1", "passive", "NA"),
    ])]);
    let c = d.comp_details("U1", 2, 0).expect("details");
    let pins: Vec<&str> = c.pins.iter().map(|p| p.pin.as_str()).collect();
    assert_eq!(pins, ["U1:2", "U1:10"]);
    assert_eq!((c.pin_count, c.offset, c.limit, c.returned), (3, 0, 2, 2));
    assert_eq!(c.pins[0].net.as_deref(), Some("N2"));
    assert_eq!(c.pins[0].pin_type.as_deref(), Some("output"));
    let rest = d.comp_details("U1", 2, 2).expect("details");
    assert_eq!(rest.pins[0].pin, "U1:A1");
    let none = d.comp_details("U1", 2, 9).expect("details");
    assert_eq!(none.returned, 0);
    assert_eq!(message(d.comp_details("U9", 1, 0)), "Refdes U9 not found in component map");
}

#[test]
fn net_details_by_name_or_code() {
    let d = board();
    let r = readings(&d);
    let n = d.net_details("GND", 200, 0, &r).expect("details");
    assert_eq!((n.code, n.fanout, n.rail_hundredths), (2, 3, 80));
    assert_eq!(n.rail_evidence, ["named"]);
    // A part without a sheet name stands on the sheet with the empty name.
    assert_eq!(n.subsystems, ["", "/IO/", "/MCU/"]);
    let members: Vec<&str> = n.members.iter().map(|m| m.pin.as_str()).collect();
    assert_eq!(members, ["C1:2", "J1:2", "U1:2"]);
    assert!(n.role.has_power_in && !n.role.has_source);
    assert_eq!(n.role.ic_pin_count, 1);
    assert_eq!(n.role.endpoint_pin_count, 2);
    assert!(!n.hierarchy.rooted);
    assert_eq!(d.net_details("2", 200, 0, &r).expect("details").net, "GND");
    assert_eq!(message(d.net_details("99", 200, 0, &r)), "no net named or coded '99'");
}

#[test]
fn pin_details_name_part_and_net() {
    let d = board();
    let p = d.pin_details("U1:3", &readings(&d)).expect("details");
    assert_eq!(p.pin, "U1:3");
    assert_eq!(p.pin_type.as_deref(), Some("output"));
    assert_eq!(p.component.sheet.as_deref(), Some("/MCU/"));
    let net = p.net.expect("a net");
    assert_eq!((net.name.as_str(), net.code, net.fanout, net.rail_hundredths), ("SIG", 3, 2, 5));
    assert_eq!(message(d.pin_details("U1:9", &readings(&d))), "no pin named 'U1:9'");
}

#[test]
fn classes_on_a_net_are_counted() {
    let d = board();
    let far = d.net_class_counts(&d.nets[3]);
    assert_eq!(
        (far.ic, far.connector, far.passive, far.other, far.endpoint),
        (0, 1, 4, 0, 1),
    );
    let probe = d.net_role(&d.nets[5]);
    assert!(!probe.passive_only);
    assert_eq!(probe.endpoint_pin_count, 0);
    let open = d.net_role(&d.nets[4]);
    assert!(open.passive_only && !open.has_driver);
}

#[test]
fn an_audit_reports_patterns_with_their_counts() {
    let d = design_of(&[
        ("U1", "", "", &[
            ("1", "power_in", "VDD"),
            ("2", "input", "IN"),
            ("3", "output", "OUT"),
            ("4", "input", "OUT"),
        ]),
        ("R1", "", "", &[("1", "passive", "IN"), ("2", "passive", "MID")]),
        ("R2", "", "", &[("1", "passive", "MID"), ("2", "passive", "LONE")]),
        ("TP1", "", "", &[("1", "passive", "HOLES")]),
        ("H1", "", "", &[("1", "passive", "HOLES")]),
        ("TP2", "", "", &[("1", "passive", "MIX")]),
        ("R3", "", "", &[("1", "passive", "MIX"), ("2", "passive", "OUT")]),
    ]);
    let a = d.audit(100);
    let rows = |b: &netlist_explorer::design::roles::AuditBucket| -> Vec<(String, String)> {
        b.nets.iter().map(|r| (r.net.clone(), r.note.clone())).collect()
    };
    let pair = |a: &str, b: &str| (a.to_string(), b.to_string());
    assert_eq!(rows(&a.unpowered_power_in), [pair("VDD", "1 power_in pin(s), no power_out source")]);
    assert_eq!(rows(&a.undriven_input), [pair("IN", "1 input pin(s), no driver")]);
    assert_eq!(rows(&a.single_ic_pin), [
        pair("IN", "1 IC pin + only passives"),
        pair("VDD", "1 IC pin + only passives"),
    ]);
    assert_eq!(rows(&a.stub), [
        pair("HOLES", "only probe/mechanical parts, no endpoint part"),
        pair("MID", "only passives, no endpoint part"),
        pair("MIX", "only passives and probe/mechanical parts, no endpoint part"),
        pair("LONE", "single-pin net"),
        pair("VDD", "single-pin net"),
    ]);
    let short = d.audit(2);
    assert_eq!((short.stub.count, short.stub.returned, short.stub.nets.len()), (5, 2, 2));
}

#[test]
fn subsystems_are_counted_with_the_unassigned() {
    let d = board();
    let s = d.list_subsystems();
    let rows: Vec<(Option<&str>, &str, usize)> = s
        .subsystems
        .iter()
        .map(|r| (r.path.as_deref(), r.name.as_str(), r.component_count))
        .collect();
    assert_eq!(rows, [
        (Some("/IO/"), "IO", 5),
        (Some("/MCU/"), "MCU", 2),
        (None, "(unassigned)", 1),
    ]);
    assert_eq!((s.total_components, s.subsystem_count), (8, 3));
}

#[test]
fn an_overview_sums_up_the_design() {
    let d = board();
    let o = d.design_overview(&readings(&d));
    assert_eq!((o.counts.components, o.counts.nets, o.counts.pins), (8, 6, 16));
    assert_eq!((o.counts.dnp_components, o.counts.bom_excluded_components), (0, 0));
    let classes: Vec<(&str, usize)> =
        o.refdes_classes.iter().map(|r| (r.class.as_str(), r.count)).collect();
    assert_eq!(classes, [("R", 4), ("C", 1), ("J", 1), ("TP", 1), ("U", 1)]);
    let rails: Vec<(&str, usize, u32)> =
        o.rails.iter().map(|r| (r.net.as_str(), r.fanout, r.hundredths)).collect();
    assert_eq!(rails, [("+3V3", 3, 80), ("GND", 3, 80)]);
    assert_eq!(o.connectors.len(), 1);
    assert_eq!((o.connectors[0].refdes.as_str(), o.connectors[0].pin_count), ("J1", 2));
    assert_eq!(o.subsystems[0].name, "IO");
    assert_eq!((o.top_nets_by_fanout[0].net.as_str(), o.top_nets_by_fanout[0].fanout), ("FAR", 5));
}

#[test]
fn components_are_filtered_and_paged_in_natural_order() {
    let mut netlist = netlist_of(&[
        ("R10", "10k", "/A/", &[]),
        ("R2", "10K 0402", "/A/", &[]),
        ("C1", "100n", "/B/", &[]),
        ("R1", "1k", "/B/", &[]),
    ]);
    netlist.components[0].properties.insert("dnp".to_string(), None);
    netlist.components[2].properties.insert("ki_keywords".to_string(), Some("Cap".to_string()));
    let d = Design::from_netlist(netlist).expect("a design");
    let names = |e: &netlist_explorer::design::filter::FilterEnvelope| -> Vec<String> {
        e.rows.iter().map(|r| r.refdes.clone()).collect()
    };
    let all = d.filter_components(None, Some("r"), None, None, 50, 0);
    assert_eq!(names(&all), ["R1", "R2", "R10"]);
    let page = d.filter_components(None, Some("R"), None, None, 1, 1);
    assert_eq!((page.total, page.returned, page.offset, page.limit), (3, 1, 1, 1));
    assert_eq!(names(&page), ["R2"]);
    assert_eq!(names(&d.filter_components(Some("10K"), None, None, None, 50, 0)), ["R2", "R10"]);
    assert_eq!(names(&d.filter_components(Some("10k 0402"), None, None, None, 50, 0)), ["R2"]);
    assert_eq!(names(&d.filter_components(None, None, None, Some(true), 50, 0)), ["R10"]);
    assert_eq!(names(&d.filter_components(None, None, Some("/B"), None, 50, 0)), ["C1", "R1"]);
    assert_eq!(names(&d.filter_components(Some("  "), None, None, Some(false), 50, 0)), ["C1", "R1", "R2"]);
    let caps = d.filter_components(Some("cap"), None, None, None, 50, 0);
    assert_eq!(caps.rows[0].keywords.as_deref(), Some("Cap"));
    assert_eq!(d.components[0].search_bundle(), "r10 10k /a/ ");
}

#[test]
fn a_walk_takes_the_shorter_way() {
    let d = design_of(&[
        ("U1", "", "", &[("1", "output", "A")]),
        ("R1", "", "", &[("1", "passive", "A"), ("2", "passive", "B")]),
        ("R2", "", "", &[("1", "passive", "B"), ("2", "passive", "C")]),
        ("R3", "", "", &[("1", "passive", "A"), ("2", "passive", "C")]),
        ("U2", "", "", &[("1", "input", "C")]),
        ("U3", "", "", &[("1", "input", "B")]),
    ]);
    let w = d.walk("U1:1", 9, 50, true, false, &readings(&d)).expect("a walk");
    let ends: Vec<(&str, u32, &str)> = w
        .endpoints
        .iter()
        .map(|e| (e.pin.as_str(), e.distance, e.via[0].refdes.as_str()))
        .collect();
    assert_eq!(ends, [("U2:1", 1, "R3"), ("U3:1", 1, "R1")]);
    assert_eq!(d.path_between("U1:1", "U2:1", &readings(&d)).expect("a path").distance, Some(1));
    assert_eq!(d.path_between("U2:1", "U1:1", &readings(&d)).expect("a path").distance, Some(1));
}

#[test]
fn a_walk_cut_in_depth_still_reports_what_is_within_it() {
    let d = design_of(&[
        ("U1", "", "", &[("1", "output", "A")]),
        ("R1", "", "", &[("1", "passive", "A"), ("2", "passive", "B")]),
        ("U2", "", "", &[("1", "input", "B")]),
        ("R2", "", "", &[("1", "passive", "B"), ("2", "passive", "C")]),
        ("U3", "", "", &[("1", "input", "C")]),
    ]);
    let w = d.walk("U1:1", 1, 50, true, false, &readings(&d)).expect("a walk");
    let ends: Vec<&str> = w.endpoints.iter().map(|e| e.pin.as_str()).collect();
    assert_eq!(ends, ["U2:1"]);
    assert!(w.truncated);
}

#[test]
fn the_sheet_of_a_part_is_taken_at_face_value() {
    let d = board();
    for arg in ["/MCU/", "/IO/", "/mcu/", "/io"] {
        let (filter, note) = d.subsystem_filter(Some(arg));
        assert!(filter.is_some() && note.is_none(), "{arg}");
    }
    assert!(d.subsystem_filter(Some("/M")).1.is_some());
}

#[test]
fn endpoints_are_sorted_by_pin_number_even_with_a_colon_in_it() {
    let d = design_of(&[
        ("J1", "Conn", "/IO/", &[("1", "passive", "SIG")]),
        ("U1", "MCU", "/MCU/", &[("B:1", "input", "SIG"), ("A:2", "input", "SIG")]),
    ]);
    let w = d.walk("J1:1", 4, 50, true, false, &readings(&d)).expect("a walk");
    let pins: Vec<&str> = w.endpoints.iter().map(|e| e.pin.as_str()).collect();
    assert_eq!(pins, ["U1:A:2", "U1:B:1"]);
}
