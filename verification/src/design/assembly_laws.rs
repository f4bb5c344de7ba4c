//! What a design built from a netlist holds, part by part and pin by pin.
use vstd::prelude::*;

use super::assemble::{all_sheets, assembled, component_is, component_sheets, faulty, flag_set};
use super::assemble::{flat_pins, net_coded, pin_is, says_no};
use super::facts::{joins, sits_on};
use super::sheets::{ancestor, is_sheet, normalized, segments};
use super::{pin_ids, pins_of_comp, Design, Pin};
use crate::parser::netlist::{opt_text, ComponentModel, NetModel, NetlistModel, PinModel};
use crate::text::{ascii_lower_text, joined, texts, trimmed};

verus! {

/// The values of a flag that say that it is not set.
pub open spec fn denials() -> Seq<Seq<char>> {
    seq![""@, "no"@, "false"@, "0"@]
}

/// The flag is set among the properties: it stands there without a value, or with one
/// that does not deny it, letter case and white space aside.
pub open spec fn flagged(m: Map<Seq<char>, Option<Seq<char>>>, key: Seq<char>) -> bool {
    m.contains_key(key) && (m[key] is None || !denials().contains(
        ascii_lower_text(trimmed(m[key].unwrap())),
    ))
}

proof fn lemma_flagged(m: Map<Seq<char>, Option<Seq<char>>>, key: Seq<char>)
    ensures
        flag_set(m, key) <==> flagged(m, key),
{
    if m.contains_key(key) && m[key] is Some {
        let v = ascii_lower_text(trimmed(m[key].unwrap()));
        let all = denials();
        if says_no(m[key].unwrap()) {
            assert(all[0] == v || all[1] == v || all[2] == v || all[3] == v);
        }
        if all.contains(v) {
            let i = choose|i: int| 0 <= i < all.len() && all[i] == v;
        }
    }
}

/// The net at place `m` is the first with the code.
pub open spec fn first_coded(nets: Seq<NetModel>, code: usize, m: int) -> bool {
    &&& 0 <= m < nets.len() && nets[m].code == code
    &&& forall|k: int| 0 <= k < m ==> (#[trigger] nets[k]).code != code
}

proof fn lemma_first_coded(nets: Seq<NetModel>, code: usize)
    ensures
        match net_coded(nets, code) {
            Some(m) => first_coded(nets, code, m),
            None => forall|k: int| 0 <= k < nets.len() ==> (#[trigger] nets[k]).code != code,
        },
    decreases nets.len(),
{
    if nets.len() > 0 && nets[0].code != code {
        let rest = nets.skip(1);
        lemma_first_coded(rest, code);
        match net_coded(rest, code) {
            Some(m) => {
                assert(rest[m] == nets[m + 1]);
                assert forall|k: int| 0 <= k < m + 1 implies (#[trigger] nets[k]).code != code by {
                    if k > 0 {
                        assert(rest[k - 1] == nets[k]);
                    }
                }
            },
            None => {
                assert forall|k: int| 0 <= k < nets.len() implies (
                #[trigger] nets[k]).code != code by {
                    if k > 0 {
                        assert(rest[k - 1] == nets[k]);
                    }
                }
            },
        }
    }
}

/// Parts keep what the netlist says of them. The two flags are read from the properties
/// and not left among them.
pub proof fn lemma_parts_kept(d: Design, n: NetlistModel, i: int)
    requires
        assembled(d, n),
        0 <= i < n.components.len(),
    ensures
        d.components.len() == n.components.len(),
        d.components@[i].refdes@ == n.components[i].refdes,
        d.components@[i].value@ == n.components[i].value,
        opt_text(d.components@[i].footprint) == n.components[i].footprint,
        opt_text(d.components@[i].description) == n.components[i].description,
        opt_text(d.components@[i].sheet) == n.components[i].sheet,
        d.components@[i].dnp <==> flagged(n.components[i].properties, "dnp"@),
        d.components@[i].exclude_from_bom <==> flagged(
            n.components[i].properties,
            "exclude_from_bom"@,
        ),
{
    assert(component_is(d.components@[i], n.components[i]));
    lemma_flagged(n.components[i].properties, "dnp"@);
    lemma_flagged(n.components[i].properties, "exclude_from_bom"@);
}

/// How many pins the first `i` parts have.
pub open spec fn pins_before(comps: Seq<ComponentModel>, i: int) -> int
    decreases i,
{
    if i <= 0 {
        0
    } else {
        pins_before(comps, i - 1) + comps[i - 1].pins.len()
    }
}

proof fn lemma_flat(comps: Seq<ComponentModel>, m: int)
    requires
        0 <= m <= comps.len(),
    ensures
        flat_pins(comps.take(m)).len() == pins_before(comps, m),
        0 <= pins_before(comps, m),
        forall|i: int, k: int|
            #![trigger comps[i].pins[k]]
            0 <= i < m && 0 <= k < comps[i].pins.len() ==> {
                &&& 0 <= pins_before(comps, i) + k < pins_before(comps, m)
                &&& flat_pins(comps.take(m))[pins_before(comps, i) + k] == (i, comps[i].pins[k])
            },
        forall|j: int|
            0 <= j < pins_before(comps, m) ==> {
                let f = #[trigger] flat_pins(comps.take(m))[j];
                &&& 0 <= f.0 < m
                &&& pins_before(comps, f.0) <= j < pins_before(comps, f.0) + comps[f.0].pins.len()
            },
    decreases m,
{
    let whole = comps.take(m);
    if m > 0 {
        lemma_flat(comps, m - 1);
        let front = comps.take(m - 1);
        assert(whole.drop_last() =~= front);
        assert(whole.last() == comps[m - 1]);
        let more = comps[m - 1].pins.map_values(|p: PinModel| (whole.len() - 1, p));
        assert(flat_pins(whole) == flat_pins(front) + more);
        assert forall|i: int, k: int|
            #![trigger comps[i].pins[k]]
            0 <= i < m && 0 <= k < comps[i].pins.len() implies {
            &&& 0 <= pins_before(comps, i) + k < pins_before(comps, m)
            &&& flat_pins(whole)[pins_before(comps, i) + k] == (i, comps[i].pins[k])
        } by {
            if i < m - 1 {
                assert(flat_pins(front)[pins_before(comps, i) + k] == (i, comps[i].pins[k]));
            } else {
                assert(flat_pins(whole)[pins_before(comps, i) + k] == more[k]);
            }
        }
        assert forall|j: int| 0 <= j < pins_before(comps, m) implies {
            let f = #[trigger] flat_pins(whole)[j];
            &&& 0 <= f.0 < m
            &&& pins_before(comps, f.0) <= j < pins_before(comps, f.0) + comps[f.0].pins.len()
        } by {
            if j < pins_before(comps, m - 1) {
                assert(flat_pins(whole)[j] == flat_pins(front)[j]);
            } else {
                assert(flat_pins(whole)[j] == more[j - pins_before(comps, m - 1)]);
            }
        }
    }
}

/// The places of a part's pins among those of a part of all pins.
proof fn lemma_own_pins(pins: Seq<Pin>, comps: Seq<ComponentModel>, c: int, k: int)
    requires
        0 <= k <= pins.len(),
        0 <= c < comps.len(),
        pins.len() == pins_before(comps, comps.len() as int),
        forall|j: int|
            0 <= j < pins.len() ==> (#[trigger] pins[j]).comp.0 == flat_pins(comps)[j].0,
    ensures
        ({
            let at = pins_before(comps, c);
            let own = comps[c].pins.len() as int;
            let many = if k <= at {
                0
            } else if k <= at + own {
                k - at
            } else {
                own
            };
            pins_of_comp(pins.take(k), c) == Seq::new(many as nat, |i: int| at + i)
        }),
    decreases k,
{
    let at = pins_before(comps, c);
    let own = comps[c].pins.len() as int;
    lemma_flat(comps, comps.len() as int);
    assert(comps.take(comps.len() as int) =~= comps);
    lemma_before_grows(comps, c, comps.len() as int);
    let some = pins.take(k);
    if k > 0 {
        lemma_own_pins(pins, comps, c, k - 1);
        assert(some.drop_last() =~= pins.take(k - 1));
        assert(some.last() == pins[k - 1]);
        let f = flat_pins(comps)[k - 1];
        assert(pins_before(comps, f.0) <= k - 1 < pins_before(comps, f.0) + comps[f.0].pins.len());
        assert(f.0 == c <==> at <= k - 1 < at + own) by {
            if f.0 < c {
                lemma_before_grows(comps, f.0 + 1, c);
            }
            if f.0 > c {
                lemma_before_grows(comps, c + 1, f.0);
            }
        }
        let many = if k <= at {
            0
        } else if k <= at + own {
            k - at
        } else {
            own
        };
        assert(pins_of_comp(some, c) =~= Seq::new(many as nat, |i: int| at + i));
    } else {
        assert(pins_of_comp(some, c) =~= Seq::new(0, |i: int| at + i));
    }
}

proof fn lemma_before_grows(comps: Seq<ComponentModel>, a: int, b: int)
    requires
        0 <= a <= b <= comps.len(),
    ensures
        0 <= pins_before(comps, a) <= pins_before(comps, b),
    decreases b,
{
    if a < b {
        lemma_before_grows(comps, a, b - 1);
    } else if a > 0 {
        lemma_before_grows(comps, a - 1, b - 1);
    }
}

/// A part has the pins that the netlist gives it, in their order: each with its number,
/// name and type, and joined to the first net that has the code which the netlist gives
/// the pin.
pub proof fn lemma_pins_kept(d: Design, n: NetlistModel, i: int)
    requires
        d.wf(),
        assembled(d, n),
        0 <= i < n.components.len(),
    ensures
        d.components@[i].pins.len() == n.components[i].pins.len(),
        forall|k: int|
            0 <= k < n.components[i].pins.len() ==> pin_kept(
                d,
                n,
                i,
                (#[trigger] d.components@[i].pins@[k]).0 as int,
                n.components[i].pins[k],
            ),
{
    let comps = n.components;
    let flat = flat_pins(comps);
    lemma_flat(comps, comps.len() as int);
    assert(comps.take(comps.len() as int) =~= comps);
    assert forall|j: int| 0 <= j < d.pins.len() implies (#[trigger] d.pins@[j]).comp.0
        == flat[j].0 by {
        assert(pin_is(d.pins@[j], flat[j], n.nets));
    }
    lemma_own_pins(d.pins@, comps, i, d.pins.len() as int);
    assert(d.pins@.take(d.pins.len() as int) =~= d.pins@);
    let at = pins_before(comps, i);
    let own = comps[i].pins.len() as int;
    lemma_before_grows(comps, i + 1, comps.len() as int);
    assert(pins_before(comps, i + 1) == at + own);
    assert(d.components@[i].id.0 == i);
    let ids = pin_ids(d.components@[i].pins@);
    assert(ids == Seq::new(own as nat, |k: int| at + k));
    assert(ids.len() == own);
    assert forall|k: int| 0 <= k < own implies pin_kept(
        d,
        n,
        i,
        (#[trigger] d.components@[i].pins@[k]).0 as int,
        comps[i].pins[k],
    ) by {
        assert(ids[k] == d.components@[i].pins@[k].0);
        let j = at + k;
        assert(flat[j] == (i, comps[i].pins[k]));
        assert(pin_is(d.pins@[j], flat[j], n.nets));
        let code = comps[i].pins[k].net.unwrap();
        lemma_first_coded(n.nets, code);
        let m = net_coded(n.nets, code).unwrap();
        assert(joins(&d, j, m) && first_coded(n.nets, code, m));
    }
}

/// The pin at place `p` is the part's and is what the netlist says.
pub open spec fn pin_kept(d: Design, n: NetlistModel, c: int, p: int, m: PinModel) -> bool {
    &&& sits_on(&d, p, c)
    &&& d.pins@[p].number@ == m.number
    &&& opt_text(d.pins@[p].name) == m.name
    &&& opt_text(d.pins@[p].pin_type) == m.pin_type
    &&& exists|k: int| #[trigger] joins(&d, p, k) && first_coded(n.nets, m.net.unwrap(), k)
}

/// A netlist is refused for a pin that it puts on no net, or on one that it does not
/// list, and for nothing else.
pub proof fn lemma_fault(p: PinModel, nets: Seq<NetModel>)
    ensures
        faulty(p, nets) <==> p.net is None || forall|k: int|
            0 <= k < nets.len() ==> (#[trigger] nets[k]).code != p.net.unwrap(),
{
    if let Some(code) = p.net {
        lemma_first_coded(nets, code);
    }
}

/// The sheets of a netlist are those that it declares and those that its parts are on.
pub proof fn lemma_all_sheets(n: NetlistModel, s: Seq<char>)
    ensures
        all_sheets(n).contains(s) <==> n.sheets.contains(s) || exists|i: int|
            0 <= i < n.components.len() && (#[trigger] n.components[i]).sheet == Some(s),
{
    lemma_component_sheets(n.components, s);
    let a = n.sheets;
    let b = component_sheets(n.components);
    let all = all_sheets(n);
    if all.contains(s) {
        let i = choose|i: int| 0 <= i < all.len() && all[i] == s;
        if i < a.len() {
            assert(a[i] == s);
        } else {
            assert(b[i - a.len()] == s);
        }
    }
    if a.contains(s) {
        let i = choose|i: int| 0 <= i < a.len() && a[i] == s;
        assert(all[i] == s);
    }
    if b.contains(s) {
        let i = choose|i: int| 0 <= i < b.len() && b[i] == s;
        assert(all[a.len() + i] == s);
    }
}

proof fn lemma_component_sheets(comps: Seq<ComponentModel>, s: Seq<char>)
    ensures
        component_sheets(comps).contains(s) <==> exists|i: int|
            0 <= i < comps.len() && (#[trigger] comps[i]).sheet == Some(s),
    decreases comps.len(),
{
    if comps.len() > 0 {
        let front = comps.drop_last();
        let last = comps.len() - 1;
        lemma_component_sheets(front, s);
        let a = component_sheets(front);
        let all = component_sheets(comps);
        if all.contains(s) {
            let i = choose|i: int| 0 <= i < all.len() && all[i] == s;
            if i < a.len() {
                assert(a[i] == s);
                assert(a.contains(s));
                let k = choose|k: int| 0 <= k < front.len() && (#[trigger] front[k]).sheet == Some(s);
                assert(comps[k].sheet == Some(s));
            } else {
                assert(comps[last].sheet == Some(s));
            }
        }
        if exists|i: int| 0 <= i < comps.len() && (#[trigger] comps[i]).sheet == Some(s) {
            let i = choose|i: int| 0 <= i < comps.len() && (#[trigger] comps[i]).sheet == Some(s);
            if i < last {
                assert(front[i].sheet == Some(s));
                let k = choose|k: int| 0 <= k < a.len() && a[k] == s;
                assert(all[k] == s);
            } else {
                assert(all[a.len() as int] == s);
            }
        }
    }
}

/// The sheet is one that the netlist declares or that one of its parts is on.
pub open spec fn mentions_sheet(n: NetlistModel, s: Seq<char>) -> bool {
    n.sheets.contains(s) || exists|i: int|
        0 <= i < n.components.len() && (#[trigger] n.components[i]).sheet == Some(s)
}

/// A design has the root, each sheet that its netlist mentions and the sheets above it, in
/// one spelling, and no other sheets.
pub proof fn lemma_sheets_kept(d: Design, n: NetlistModel, p: Seq<char>)
    requires
        assembled(d, n),
    ensures
        texts(d.sheet_paths@).contains(p) <==> p == "/"@ || exists|s: Seq<char>, k: int|
            mentions_sheet(n, s) && 1 <= k <= segments(s).len() && p == #[trigger] normalized(
                joined(segments(s).take(k), "/"@),
            ),
{
    let all = all_sheets(n);
    assert(texts(d.sheet_paths@).contains(p) <==> is_sheet(all, p));
    if exists|i: int, k: int|
        0 <= i < all.len() && 1 <= k <= segments(all[i]).len() && p == #[trigger] ancestor(
            segments(all[i]),
            k,
        ) {
        let (i, k) = choose|i: int, k: int|
            0 <= i < all.len() && 1 <= k <= segments(all[i]).len() && p == #[trigger] ancestor(
                segments(all[i]),
                k,
            );
        assert(all.contains(all[i]));
        lemma_all_sheets(n, all[i]);
        assert(mentions_sheet(n, all[i]));
        assert(p == normalized(joined(segments(all[i]).take(k), "/"@)));
    }
    if exists|s: Seq<char>, k: int|
        mentions_sheet(n, s) && 1 <= k <= segments(s).len() && p == #[trigger] normalized(
            joined(segments(s).take(k), "/"@),
        ) {
        let (s, k) = choose|s: Seq<char>, k: int|
            mentions_sheet(n, s) && 1 <= k <= segments(s).len() && p == #[trigger] normalized(
                joined(segments(s).take(k), "/"@),
            );
        lemma_all_sheets(n, s);
        let i = choose|i: int| 0 <= i < all.len() && all[i] == s;
        assert(p == ancestor(segments(all[i]), k));
        assert(is_sheet(all, p));
    }
}

} // verus!
