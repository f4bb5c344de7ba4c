use netlist_explorer::design::filter::NetEnvelope;
use netlist_explorer::design::rails::{RailReading, RailSignals};
use netlist_explorer::design::Design;
use netlist_explorer::parser::netlist::{Component, Net, Netlist, Pin};

/// A design of one net per entry: `(net name, [(refdes, sheet, pin type)])`.
fn design_of(nets: &[(&str, &[(&str, &str, &str)])]) -> Design {
    let mut components: Vec<Component> = Vec::new();
    let mut listed: Vec<Net> = Vec::new();
    for (code, (name, members)) in nets.iter().enumerate() {
        listed.push(Net { code: code + 1, name: name.to_string() });
        for (refdes, sheet, pin_type) in members.iter() {
            let at = match components.iter().position(|c| c.refdes == *refdes) {
                Some(at) => at,
                None => {
                    let mut c = Component::new();
                    c.refdes = refdes.to_string();
                    c.sheet = Some(sheet.to_string());
                    components.push(c);
                    components.len() - 1
                }
            };
            let number = (components[at].pins.len() + 1).to_string();
            components[at].pins.push(Pin {
                number,
                name: None,
                pin_type: Some(pin_type.to_string()),
                net: Some(code + 1),
            });
        }
    }
    Design::from_netlist(Netlist { components, nets: listed, sheets: Vec::new() })
        .expect("a design")
}

fn score(s: &RailSignals) -> f32 {
    if s.fanout == 0 {
        return 0.0;
    }
    let power = s.power_pins as f32 / s.fanout as f32;
    let caps = s.cap_pins as f32 / s.fanout as f32;
    let boost = if s.fanout > 20 && (s.name_match || caps > 0.3) { 0.15 } else { 0.0 };
    (0.45 * power + 0.30 * (s.name_match as i32 as f32) + 0.25 * caps + boost).clamp(0.0, 1.0)
}

fn readings(design: &Design) -> Vec<RailReading> {
    design
        .nets
        .iter()
        .map(|net| {
            let s = score(&design.rail_signals(net));
            RailReading {
                rail: s >= 0.5,
                hundredths: (s * 100.0).round() as u32,
                evidence: Vec::new(),
            }
        })
        .collect()
}

fn nets_page(
    design: &Design,
    name: Option<&str>,
    subsystem: Option<&str>,
    by_fanout: bool,
    limit: u32,
    offset: u32,
) -> NetEnvelope {
    design.filter_nets(name, subsystem, by_fanout, limit, offset, &readings(design))
}

fn names(page: &NetEnvelope) -> Vec<String> {
    page.rows.iter().map(|r| r.name.clone()).collect()
}

fn sensor_design() -> Design {
    design_of(&[
        ("GND", &[
            ("U1", "/Sensor1/", "power_in"), ("C1", "/Sensor1/", "passive"),
            ("C2", "/Sensor1/", "passive"), ("U2", "/MCU/", "power_in"),
            ("C3", "/MCU/", "passive"), ("C4", "/MCU/", "passive"),
            ("C5", "/MCU/", "passive"),
        ]),
        ("+3V3", &[
            ("U1", "/Sensor1/", "power_in"), ("U2", "/MCU/", "power_in"),
            ("C6", "/MCU/", "passive"),
        ]),
        ("/SENSOUT", &[("U1", "/Sensor1/", "output"), ("U2", "/MCU/", "input")]),
        ("/SENSIN", &[("U1", "/Sensor1/", "input"), ("R1", "/Sensor1/", "passive")]),
    ])
}

#[test]
fn rails_sort_last_under_a_subsystem_filter() {
    let design = sensor_design();
    let page = nets_page(&design, None, Some("Sensor1"), true, 50, 0);
    assert_eq!(names(&page), ["/SENSIN", "/SENSOUT", "GND", "+3V3"]);
    assert_eq!(page.total, 4);
    assert!(page.rail_note.as_deref().unwrap().starts_with("2 power/ground rail(s)"));
}

#[test]
fn the_demotion_survives_the_alphabetical_sort() {
    let design = sensor_design();
    let page = nets_page(&design, None, Some("Sensor1"), false, 50, 0);
    assert_eq!(names(&page), ["/SENSIN", "/SENSOUT", "+3V3", "GND"]);
}

#[test]
fn an_unfiltered_page_is_untouched() {
    let design = sensor_design();
    let page = nets_page(&design, None, None, true, 50, 0);
    assert_eq!(names(&page), ["GND", "+3V3", "/SENSIN", "/SENSOUT"]);
    assert!(page.rows.iter().all(|r| r.rail_hundredths.is_none()));
    assert!(page.rail_note.is_none());
}

#[test]
fn a_name_filter_alone_does_not_demote() {
    let design = sensor_design();
    let page = nets_page(&design, Some("gnd"), None, true, 50, 0);
    assert_eq!(names(&page), ["GND"]);
    assert!(page.rail_note.is_none());
}

#[test]
fn the_demotion_happens_before_pagination() {
    let design = sensor_design();
    let page = nets_page(&design, None, Some("Sensor1"), true, 2, 0);
    assert_eq!(names(&page), ["/SENSIN", "/SENSOUT"]);
    assert!(page.rail_note.as_deref().unwrap().starts_with("2 power/ground rail(s)"));

    let page = nets_page(&design, None, Some("Sensor1"), true, 2, 2);
    assert_eq!(names(&page), ["GND", "+3V3"]);
}

#[test]
fn a_score_that_rounds_up_to_the_threshold_is_demoted_with_it() {
    let mut pgnd: Vec<(&str, &str, &str)> = Vec::new();
    for refdes in ["U1", "U2", "U3", "U4", "U5", "U6"] {
        pgnd.push((refdes, "/PoE/", "power_in"));      // 6/20 power pins
    }
    for refdes in ["C1", "C2", "C3", "C4", "C5"] {
        pgnd.push((refdes, "/PoE/", "passive"));       // 5/20 capacitors
    }
    for refdes in ["R1", "R2", "R3", "R4", "R5", "R6", "R7", "R8", "R9"] {
        pgnd.push((refdes, "/PoE/", "passive"));
    }
    let design = design_of(&[
        ("PGND", &pgnd),
        ("/POE_SW", &[("U1", "/PoE/", "output"), ("U7", "/PoE/", "input")]),
    ]);

    let page = nets_page(&design, None, Some("PoE"), true, 50, 0);
    assert_eq!(names(&page), ["/POE_SW", "PGND"]);
    assert_eq!(page.rows[1].rail_hundredths, Some(50));
    assert!(page.rail_note.as_deref().unwrap().contains("PGND"));
}

#[test]
fn the_note_names_the_demoted_nets_and_where_they_start() {
    let design = sensor_design();

    let page = nets_page(&design, None, Some("Sensor1"), true, 50, 0);
    let note = page.rail_note.as_deref().unwrap();
    assert!(note.contains("2 power/ground rail(s) sorted last: GND, +3V3."), "{note}");
    assert!(note.contains("final 2 of 4 matches, from offset 2"), "{note}");

    let page = nets_page(&design, None, Some("Sensor1"), true, 2, 0);
    let note = page.rail_note.as_deref().unwrap();
    assert!(note.contains("GND, +3V3"), "{note}");
    assert!(note.contains("from offset 2"), "{note}");
}

#[test]
fn scored_rows_report_their_score_and_a_rail_free_sheet_gets_no_note() {
    let design = design_of(&[
        ("/SENSOUT", &[("U1", "/Sensor1/", "output"), ("U2", "/MCU/", "input")]),
    ]);
    let page = nets_page(&design, None, Some("Sensor1"), true, 50, 0);
    assert_eq!(page.rows[0].rail_hundredths, Some(0));
    assert!(page.rail_note.is_none());
}

#[test]
fn the_signals_of_a_net_are_its_counts() {
    let design = sensor_design();
    let gnd = design.rail_signals(&design.nets[0]);
    assert_eq!(gnd, RailSignals { fanout: 7, power_pins: 2, cap_pins: 5, name_match: true });
    let out = design.rail_signals(&design.nets[2]);
    assert_eq!(out, RailSignals { fanout: 2, power_pins: 0, cap_pins: 0, name_match: false });
}

#[test]
fn readings_alone_decide_what_is_demoted() {
    let design = sensor_design();
    let flat: Vec<RailReading> = design
        .nets
        .iter()
        .map(|_| RailReading { rail: false, hundredths: 49, evidence: Vec::new() })
        .collect();
    let page = design.filter_nets(None, Some("Sensor1"), true, 50, 0, &flat);
    assert_eq!(names(&page), ["GND", "+3V3", "/SENSIN", "/SENSOUT"]);
    assert!(page.rail_note.is_none());
    assert_eq!(page.rows[0].rail_hundredths, Some(49));
}

#[test]
fn a_note_names_five_rails_and_counts_the_rest() {
    let members: &[(&str, &str, &str)] = &[("U1", "/A/", "power_in"), ("C1", "/A/", "passive")];
    let design = design_of(&[
        ("V1", members),
        ("V2", members),
        ("V3", members),
        ("V4", members),
        ("V5", members),
        ("V6", members),
        ("V7", members),
    ]);
    let page = nets_page(&design, None, Some("A"), false, 1, 0);
    let note = page.rail_note.expect("a note");
    assert!(note.contains("7 power/ground rail(s) sorted last: V1, V2, V3, V4, V5, +2 more."), "{note}");
    assert!(note.contains("from offset 0"), "{note}");
}

#[test]
fn a_net_row_carries_its_counts_and_its_sheet() {
    let design = design_of(&[("/Sensor1/OUT", &[("U1", "/Sensor1/", "output"), ("U2", "/MCU/", "input")])]);
    let page = nets_page(&design, Some("out"), None, true, 50, 0);
    assert_eq!((page.total, page.returned, page.offset, page.limit), (1, 1, 0, 50));
    let row = &page.rows[0];
    assert_eq!((row.code, row.fanout, row.depth), (1, 2, 1));
    assert_eq!(row.sheet_path.as_deref(), Some("/Sensor1"));
    assert_eq!(row.pin_types.get("output"), Some(&1));
    assert_eq!(row.pin_types.get("passive"), None);
}
