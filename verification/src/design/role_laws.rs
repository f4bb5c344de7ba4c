//! What an audit and a net's role say, in terms of the pins that are joined to the net.
use vstd::prelude::*;

use super::facts::{in_series, joins, lemma_class_letters, lemma_count_is_size, lemma_net_count};
use super::facts::{lemma_net_pins, lemma_net_types, lemma_part_kinds, lemma_sorted_page, lettered};
use super::facts::{only_touches, pins_where, some_typed, typed};
use super::overview_laws::{lemma_plugs, plugs};
use super::roles::{lemma_audit_bucket, lemma_showing, AuditBucket, AuditEnvelope, AuditNetRow};
use super::roles::{Bucket, NetClassCounts, NetRole, Pattern};
use super::Design;
use crate::lists::{lemma_count_where, page};
use crate::text::decimal;

verus! {

/// The row gives the net's name and code and the number of pins on it.
pub open spec fn names_net(d: &Design, r: AuditNetRow, n: int) -> bool {
    &&& r.net@ == d.nets@[n].name@
    &&& r.code == d.nets@[n].code
    &&& r.fanout == pins_where(d, n, |p: int| true).len()
}

/// Some pin on the net can drive it: an output, a bidirectional or tri-state pin, an
/// open collector or emitter, or a power output.
pub open spec fn driven(d: &Design, n: int) -> bool {
    some_typed(d, n, "output"@) || some_typed(d, n, "bidirectional"@) || some_typed(
        d,
        n,
        "tri_state"@,
    ) || some_typed(d, n, "open_collector"@) || some_typed(d, n, "open_emitter"@) || some_typed(
        d,
        n,
        "power_out"@,
    )
}

/// The pin belongs to a part with designator U.
pub open spec fn on_ic(d: &Design, p: int) -> bool {
    lettered(d.components@[d.pins@[p].comp.0 as int].refdes@, seq!['U'])
}

/// The pin belongs to a two-pin passive.
pub open spec fn on_passive(d: &Design, p: int) -> bool {
    in_series(d, d.pins@[p].comp.0 as int)
}

/// The pin belongs to a part that only touches the net.
pub open spec fn on_probe(d: &Design, p: int) -> bool {
    only_touches(d, d.pins@[p].comp.0 as int)
}

/// The row is that of a net of which `f` holds, with the note that is due to it.
pub open spec fn row_fits(
    d: &Design,
    r: AuditNetRow,
    f: spec_fn(int) -> bool,
    note: spec_fn(int) -> Seq<char>,
) -> bool {
    exists|n: int|
        0 <= n < d.nets.len() && f(n) && #[trigger] names_net(d, r, n) && r.note@ == note(n)
}

/// The category holds the nets of which `f` holds and no others: it counts them all,
/// each row is one of them, and all have a row where the limit allows.
pub open spec fn lists_nets(
    d: &Design,
    b: AuditBucket,
    limit: u32,
    f: spec_fn(int) -> bool,
    note: spec_fn(int) -> Seq<char>,
) -> bool {
    &&& b.count == Set::new(|n: int| 0 <= n < d.nets.len() && f(n)).len()
    &&& b.returned == b.nets.len()
    &&& b.returned == (if b.count <= limit {
        b.count as int
    } else {
        limit as int
    })
    &&& forall|i: int|
        0 <= i < b.nets.len() ==> row_fits(d, #[trigger] b.nets@[i], f, note)
    &&& b.count <= limit ==> forall|n: int|
        0 <= n < d.nets.len() && #[trigger] f(n) ==> exists|i: int|
            0 <= i < b.nets.len() && names_net(d, #[trigger] b.nets@[i], n)
    &&& forall|i: int, j: int|
        0 <= i < j < b.nets.len() ==> (#[trigger] b.nets@[i]).fanout >= (
        #[trigger] b.nets@[j]).fanout
}

proof fn lemma_lists_nets(
    d: &Design,
    b: AuditBucket,
    t: Pattern,
    limit: u32,
    f: spec_fn(int) -> bool,
    note: spec_fn(int) -> Seq<char>,
)
    requires
        d.wf(),
        d.bucket_is(b, t, limit),
        forall|n: int| 0 <= n < d.nets.len() ==> (#[trigger] f(n) <==> d.shows(t, n)),
        forall|n: int| 0 <= n < d.nets.len() && f(n) ==> #[trigger] note(n) == d.remark(t, n),
    ensures
        lists_nets(d, b, limit, f, note),
{
    let all = d.showing(t, d.nets.len() as int);
    let keys = all.map_values(|n: int| d.fanout_key(n));
    lemma_showing(d, t, d.nets.len() as int);
    lemma_sorted_page(all, keys, 0, limit as int);
    lemma_audit_bucket(d, b, t, limit);
    lemma_count_is_size(|n: int| true, all);
    lemma_count_where(|n: int| true, all);
    assert(Set::new(|x: int| all.contains(x) && (|n: int| true)(x)) =~= Set::new(
        |n: int| 0 <= n < d.nets.len() && f(n),
    )) by {
        assert forall|n: int| all.contains(n) <==> 0 <= n < d.nets.len() && f(n) by {}
    }
    let shown = page(d.busiest_first(all), 0, limit as int);
    assert forall|i: int| 0 <= i < b.nets.len() implies row_fits(
        d,
        #[trigger] b.nets@[i],
        f,
        note,
    ) by {
        let n = shown[i];
        assert(d.audit_row_is(b.nets@[i], t, n));
        assert(all.contains(n));
        assert(f(n));
        lemma_net_count(d, n, |p: int| true);
        lemma_count_where(|p: int| true, d.net_pins(n));
        assert(note(n) == d.remark(t, n));
        assert(names_net(d, b.nets@[i], n));
    }
    if b.count <= limit {
        assert forall|n: int| 0 <= n < d.nets.len() && #[trigger] f(n) implies exists|i: int|
            0 <= i < b.nets.len() && names_net(d, #[trigger] b.nets@[i], n) by {
            assert(all.contains(n));
            assert(shown.contains(n));
            let i = choose|i: int| 0 <= i < shown.len() && shown[i] == n;
            assert(d.audit_row_is(b.nets@[i], t, n));
            lemma_net_count(d, n, |p: int| true);
            lemma_count_where(|p: int| true, d.net_pins(n));
            assert(names_net(d, b.nets@[i], n));
        }
    }
}

/// Unpowered inputs are the nets with a pin of type power_in and none of type
/// power_out.
pub proof fn lemma_unpowered_nets(d: &Design, e: AuditEnvelope, limit: u32)
    requires
        d.wf(),
        d.bucket_is(e.unpowered_power_in, Pattern::UnpoweredPowerIn, limit),
    ensures
        lists_nets(
            d,
            e.unpowered_power_in,
            limit,
            |n: int| some_typed(d, n, "power_in"@) && !some_typed(d, n, "power_out"@),
            |n: int|
                decimal(pins_where(d, n, |p: int| typed(d, p, "power_in"@)).len())
                    + " power_in pin(s), no power_out source"@,
        ),
{
    let f = |n: int| some_typed(d, n, "power_in"@) && !some_typed(d, n, "power_out"@);
    let note = |n: int|
        decimal(pins_where(d, n, |p: int| typed(d, p, "power_in"@)).len())
            + " power_in pin(s), no power_out source"@;
    assert forall|n: int| 0 <= n < d.nets.len() implies (#[trigger] f(n) <==> d.shows(
        Pattern::UnpoweredPowerIn,
        n,
    )) by {
        lemma_net_types(d, n, "power_in"@);
        lemma_net_types(d, n, "power_out"@);
    }
    assert forall|n: int| 0 <= n < d.nets.len() && f(n) implies #[trigger] note(n) == d.remark(
        Pattern::UnpoweredPowerIn,
        n,
    ) by {
        lemma_net_types(d, n, "power_in"@);
    }
    lemma_lists_nets(d, e.unpowered_power_in, Pattern::UnpoweredPowerIn, limit, f, note);
}

proof fn lemma_driven(d: &Design, n: int)
    requires
        d.wf(),
        0 <= n < d.nets.len(),
    ensures
        d.has_driver(n) <==> driven(d, n),
{
    lemma_net_types(d, n, "output"@);
    lemma_net_types(d, n, "bidirectional"@);
    lemma_net_types(d, n, "tri_state"@);
    lemma_net_types(d, n, "open_collector"@);
    lemma_net_types(d, n, "open_emitter"@);
    lemma_net_types(d, n, "power_out"@);
}

/// Undriven inputs are the nets with a pin of type input and no pin of the six types
/// that can drive a net.
pub proof fn lemma_undriven_nets(d: &Design, e: AuditEnvelope, limit: u32)
    requires
        d.wf(),
        d.bucket_is(e.undriven_input, Pattern::UndrivenInput, limit),
    ensures
        lists_nets(
            d,
            e.undriven_input,
            limit,
            |n: int| some_typed(d, n, "input"@) && !driven(d, n),
            |n: int|
                decimal(pins_where(d, n, |p: int| typed(d, p, "input"@)).len())
                    + " input pin(s), no driver"@,
        ),
{
    let f = |n: int| some_typed(d, n, "input"@) && !driven(d, n);
    let note = |n: int|
        decimal(pins_where(d, n, |p: int| typed(d, p, "input"@)).len())
            + " input pin(s), no driver"@;
    assert forall|n: int| 0 <= n < d.nets.len() implies (#[trigger] f(n) <==> d.shows(
        Pattern::UndrivenInput,
        n,
    )) by {
        lemma_net_types(d, n, "input"@);
        lemma_driven(d, n);
    }
    assert forall|n: int| 0 <= n < d.nets.len() && f(n) implies #[trigger] note(n) == d.remark(
        Pattern::UndrivenInput,
        n,
    ) by {
        lemma_net_types(d, n, "input"@);
    }
    lemma_lists_nets(d, e.undriven_input, Pattern::UndrivenInput, limit, f, note);
}

/// One pin of an IC is on the net, and every other pin belongs to a two-pin passive.
pub open spec fn one_ic_pin(d: &Design, n: int) -> bool {
    exists|p: int| #[trigger]
        joins(d, p, n) && on_ic(d, p) && forall|q: int| #[trigger]
            joins(d, q, n) && q != p ==> on_passive(d, q)
}

proof fn lemma_buckets(d: &Design, p: int)
    requires
        d.wf(),
        0 <= p < d.pins.len(),
    ensures
        d.bucket(p) == Bucket::Ic <==> on_ic(d, p),
        d.bucket(p) == Bucket::Passive <==> on_passive(d, p),
        d.ends_on(d.owner(p)) <==> !on_passive(d, p) && !on_probe(d, p),
        on_ic(d, p) ==> !on_passive(d, p),
{
    lemma_part_kinds(d, d.owner(p));
    lemma_class_letters();
    let class = d.class(d.owner(p));
    assert(d.pins@[p].comp.0 < d.components.len());
    let r = seq!['R'];
    let l = seq!['L'];
    let c = seq!['C'];
    let fb = seq!['F', 'B'];
    let u = seq!['U'];
    assert(r[0] == 'R' && l[0] == 'L' && c[0] == 'C' && fb[0] == 'F' && u[0] == 'U');
    let j = seq!['J'];
    let pp = seq!['P'];
    let cn = seq!['C', 'N'];
    let rj = seq!['R', 'J'];
    let usb = seq!['U', 'S', 'B'];
    assert(j[0] == 'J' && pp[0] == 'P' && cn.len() == 2 && cn[0] == 'C' && rj.len() == 2 && rj[0]
        == 'R' && usb[0] == 'U');
    assert(r.len() == 1 && l.len() == 1 && c.len() == 1 && fb.len() == 2);
}

proof fn lemma_one_ic_pin(d: &Design, n: int)
    requires
        d.wf(),
        0 <= n < d.nets.len(),
    ensures
        d.shows(Pattern::SingleIcPin, n) <==> one_ic_pin(d, n),
{
    let s = d.net_pins(n);
    let ic = |p: int| d.bucket(p) == Bucket::Ic;
    let passive = |p: int| d.bucket(p) == Bucket::Passive;
    lemma_net_pins(d, n);
    assert forall|p: int| joins(d, p, n) implies (ic(p) <==> on_ic(d, p)) && (passive(p)
        <==> on_passive(d, p)) && !(ic(p) && passive(p)) by {
        lemma_buckets(d, p);
    }
    lemma_count_is_size(ic, s);
    lemma_count_is_size(passive, s);
    lemma_count_is_size(|p: int| true, s);
    lemma_count_where(|p: int| true, s);
    let ics = Set::new(|x: int| s.contains(x) && ic(x));
    let passives = Set::new(|x: int| s.contains(x) && passive(x));
    let all = Set::new(|x: int| s.contains(x) && (|p: int| true)(x));
    assert(all.len() == s.len());
    if one_ic_pin(d, n) {
        let p = choose|p: int| #[trigger]
            joins(d, p, n) && on_ic(d, p) && forall|q: int| #[trigger]
                joins(d, q, n) && q != p ==> on_passive(d, q);
        assert(s.contains(p));
        assert(ics =~= Set::empty().insert(p));
        assert(passives =~= all.remove(p));
    }
    if d.shows(Pattern::SingleIcPin, n) {
        let p = ics.choose();
        assert(ics.contains(p));
        assert(ics.remove(p).len() == 0);
        assert(ics.remove(p) =~= Set::empty());
        assert(joins(d, p, n) && on_ic(d, p));
        let rest = all.remove(p);
        assert(passives.subset_of(rest));
        assert(passives.len() == rest.len());
        vstd::set_lib::lemma_subset_equality(passives, rest);
        assert forall|q: int| #[trigger] joins(d, q, n) && q != p implies on_passive(d, q) by {
            assert(s.contains(q));
            assert(rest.contains(q));
            assert(passives.contains(q));
        }
    }
}

/// Single IC pins are the nets that join one pin of an IC to two-pin passives alone.
pub proof fn lemma_single_ic_nets(d: &Design, e: AuditEnvelope, limit: u32)
    requires
        d.wf(),
        d.bucket_is(e.single_ic_pin, Pattern::SingleIcPin, limit),
    ensures
        lists_nets(
            d,
            e.single_ic_pin,
            limit,
            |n: int| one_ic_pin(d, n),
            |n: int| "1 IC pin + only passives"@,
        ),
{
    let f = |n: int| one_ic_pin(d, n);
    let note = |n: int| "1 IC pin + only passives"@;
    assert forall|n: int| 0 <= n < d.nets.len() implies (#[trigger] f(n) <==> d.shows(
        Pattern::SingleIcPin,
        n,
    )) by {
        lemma_one_ic_pin(d, n);
    }
    lemma_lists_nets(d, e.single_ic_pin, Pattern::SingleIcPin, limit, f, note);
}

/// At most one pin is on the net, or every pin on it belongs to a two-pin passive or to
/// a part that only touches it.
pub open spec fn leads_nowhere(d: &Design, n: int) -> bool {
    ||| forall|p: int, q: int| #[trigger] joins(d, p, n) && #[trigger] joins(d, q, n) ==> p == q
    ||| forall|p: int| #[trigger] joins(d, p, n) ==> on_passive(d, p) || on_probe(d, p)
}

/// What is said of a net that leads nowhere.
pub open spec fn nowhere_note(d: &Design, n: int) -> Seq<char> {
    if forall|p: int, q: int| #[trigger] joins(d, p, n) && #[trigger] joins(d, q, n) ==> p == q {
        "single-pin net"@
    } else if forall|p: int| #[trigger] joins(d, p, n) ==> on_passive(d, p) {
        "only passives, no endpoint part"@
    } else if forall|p: int| #[trigger] joins(d, p, n) ==> !on_passive(d, p) {
        "only probe/mechanical parts, no endpoint part"@
    } else {
        "only passives and probe/mechanical parts, no endpoint part"@
    }
}

proof fn lemma_leads_nowhere(d: &Design, n: int)
    requires
        d.wf(),
        0 <= n < d.nets.len(),
    ensures
        d.shows(Pattern::Stub, n) <==> leads_nowhere(d, n),
        leads_nowhere(d, n) ==> d.remark(Pattern::Stub, n) == nowhere_note(d, n),
{
    let s = d.net_pins(n);
    let ends = |p: int| d.ends_on(d.owner(p));
    let passive = |p: int| d.bucket(p) == Bucket::Passive;
    lemma_net_pins(d, n);
    lemma_count_where(ends, s);
    lemma_count_where(passive, s);
    assert forall|p: int| joins(d, p, n) implies (passive(p) <==> on_passive(d, p)) && (ends(p)
        <==> !on_passive(d, p) && !on_probe(d, p)) by {
        lemma_buckets(d, p);
    }
    let one = forall|p: int, q: int| #[trigger]
        joins(d, p, n) && #[trigger] joins(d, q, n) ==> p == q;
    assert(one <==> s.len() <= 1) by {
        if one && s.len() > 1 {
            assert(joins(d, s[0], n) && joins(d, s[1], n));
        }
        if s.len() <= 1 {
            assert forall|p: int, q: int| #[trigger]
                joins(d, p, n) && #[trigger] joins(d, q, n) implies p == q by {
                assert(s.contains(p) && s.contains(q));
            }
        }
    }
    assert((forall|p: int| #[trigger] joins(d, p, n) ==> on_passive(d, p) || on_probe(d, p)) <==> (
    forall|i: int| 0 <= i < s.len() ==> !ends(#[trigger] s[i]))) by {
        if forall|i: int| 0 <= i < s.len() ==> !ends(#[trigger] s[i]) {
            assert forall|p: int| #[trigger] joins(d, p, n) implies on_passive(d, p) || on_probe(
                d,
                p,
            ) by {
                assert(s.contains(p));
                let i = choose|i: int| 0 <= i < s.len() && s[i] == p;
                assert(!ends(s[i]));
            }
        }
    }
    assert((forall|p: int| #[trigger] joins(d, p, n) ==> on_passive(d, p)) <==> (forall|i: int|
        0 <= i < s.len() ==> passive(#[trigger] s[i]))) by {
        if forall|i: int| 0 <= i < s.len() ==> passive(#[trigger] s[i]) {
            assert forall|p: int| #[trigger] joins(d, p, n) implies on_passive(d, p) by {
                assert(s.contains(p));
                let i = choose|i: int| 0 <= i < s.len() && s[i] == p;
                assert(passive(s[i]));
            }
        }
    }
    assert((forall|p: int| #[trigger] joins(d, p, n) ==> !on_passive(d, p)) <==> (forall|i: int|
        0 <= i < s.len() ==> !passive(#[trigger] s[i]))) by {
        if forall|i: int| 0 <= i < s.len() ==> !passive(#[trigger] s[i]) {
            assert forall|p: int| #[trigger] joins(d, p, n) implies !on_passive(d, p) by {
                assert(s.contains(p));
                let i = choose|i: int| 0 <= i < s.len() && s[i] == p;
                assert(!passive(s[i]));
            }
        }
    }
}

/// Stubs are the nets with at most one pin and those on which nothing can end; the note
/// says which, and what is on them.
pub proof fn lemma_stub_nets(d: &Design, e: AuditEnvelope, limit: u32)
    requires
        d.wf(),
        d.bucket_is(e.stub, Pattern::Stub, limit),
    ensures
        lists_nets(
            d,
            e.stub,
            limit,
            |n: int| leads_nowhere(d, n),
            |n: int| nowhere_note(d, n),
        ),
{
    let f = |n: int| leads_nowhere(d, n);
    let note = |n: int| nowhere_note(d, n);
    assert forall|n: int| 0 <= n < d.nets.len() implies (#[trigger] f(n) <==> d.shows(
        Pattern::Stub,
        n,
    )) by {
        lemma_leads_nowhere(d, n);
    }
    assert forall|n: int| 0 <= n < d.nets.len() && f(n) implies #[trigger] note(n) == d.remark(
        Pattern::Stub,
        n,
    ) by {
        lemma_leads_nowhere(d, n);
    }
    lemma_lists_nets(d, e.stub, Pattern::Stub, limit, f, note);
}

/// The role is that of the pins on the net.
pub open spec fn role_told(d: &Design, r: NetRole, n: int) -> bool {
    &&& r.has_source <==> some_typed(d, n, "power_out"@)
    &&& r.has_driver <==> driven(d, n)
    &&& r.has_power_in <==> some_typed(d, n, "power_in"@)
    &&& r.has_input <==> some_typed(d, n, "input"@)
    &&& r.ic_pin_count == pins_where(d, n, |p: int| on_ic(d, p)).len()
    &&& r.endpoint_pin_count == pins_where(
        d,
        n,
        |p: int| !on_passive(d, p) && !on_probe(d, p),
    ).len()
    &&& r.passive_only <==> (exists|p: int| joins(d, p, n)) && forall|p: int| #[trigger]
        joins(d, p, n) ==> on_passive(d, p)
}

/// A net's role says of the pins on it whether one is a power output, one can drive the
/// net, one is a power input and one an input, how many belong to ICs, how many to parts
/// that the net can end on, and whether all belong to two-pin passives.
pub proof fn lemma_role_of_pins(d: &Design, r: NetRole, n: int)
    requires
        d.wf(),
        0 <= n < d.nets.len(),
        d.role_is(r, n),
    ensures
        role_told(d, r, n),
{
    let s = d.net_pins(n);
    lemma_net_pins(d, n);
    lemma_net_types(d, n, "power_out"@);
    lemma_net_types(d, n, "power_in"@);
    lemma_net_types(d, n, "input"@);
    lemma_driven(d, n);
    let ic = |p: int| d.bucket(p) == Bucket::Ic;
    let passive = |p: int| d.bucket(p) == Bucket::Passive;
    let ends = |p: int| d.ends_on(d.owner(p));
    lemma_net_count(d, n, ic);
    lemma_net_count(d, n, ends);
    lemma_count_where(passive, s);
    assert forall|p: int| joins(d, p, n) implies (ic(p) <==> on_ic(d, p)) && (passive(p)
        <==> on_passive(d, p)) && (ends(p) <==> !on_passive(d, p) && !on_probe(d, p)) by {
        lemma_buckets(d, p);
    }
    assert(pins_where(d, n, ic) =~= pins_where(d, n, |p: int| on_ic(d, p)));
    assert(pins_where(d, n, ends) =~= pins_where(
        d,
        n,
        |p: int| !on_passive(d, p) && !on_probe(d, p),
    ));
    if r.passive_only {
        assert(joins(d, s[0], n));
        assert forall|p: int| #[trigger] joins(d, p, n) implies on_passive(d, p) by {
            assert(s.contains(p));
            let i = choose|i: int| 0 <= i < s.len() && s[i] == p;
            assert(passive(s[i]));
        }
    }
    if (exists|p: int| joins(d, p, n)) && forall|p: int| #[trigger]
        joins(d, p, n) ==> on_passive(d, p) {
        let p = choose|p: int| joins(d, p, n);
        assert(s.contains(p));
        assert forall|i: int| 0 <= i < s.len() implies passive(#[trigger] s[i]) by {}
    }
}

/// The pin belongs to a part whose designator starts with J, P, CN, RJ or USB.
pub open spec fn on_connector(d: &Design, p: int) -> bool {
    plugs(d.components@[d.pins@[p].comp.0 as int])
}

/// The classes of the parts on a net are counted pin by pin: ICs, connectors, two-pin
/// passives, and what is none of these; and across them the parts that the net can end on.
pub proof fn lemma_class_counts(d: &Design, r: NetClassCounts, n: int)
    requires
        d.wf(),
        0 <= n < d.nets.len(),
        d.counts_are(r, n),
    ensures
        r.ic == pins_where(d, n, |p: int| on_ic(d, p)).len(),
        r.connector == pins_where(d, n, |p: int| on_connector(d, p)).len(),
        r.passive == pins_where(d, n, |p: int| on_passive(d, p)).len(),
        r.other == pins_where(
            d,
            n,
            |p: int| !on_ic(d, p) && !on_connector(d, p) && !on_passive(d, p),
        ).len(),
        r.endpoint == pins_where(d, n, |p: int| !on_passive(d, p) && !on_probe(d, p)).len(),
{
    let ic = |p: int| d.bucket(p) == Bucket::Ic;
    let connector = |p: int| d.bucket(p) == Bucket::Connector;
    let passive = |p: int| d.bucket(p) == Bucket::Passive;
    let other = |p: int| d.bucket(p) == Bucket::Other;
    let ends = |p: int| d.ends_on(d.owner(p));
    lemma_net_count(d, n, ic);
    lemma_net_count(d, n, connector);
    lemma_net_count(d, n, passive);
    lemma_net_count(d, n, other);
    lemma_net_count(d, n, ends);
    assert forall|p: int| joins(d, p, n) implies (ic(p) <==> on_ic(d, p)) && (passive(p)
        <==> on_passive(d, p)) && (ends(p) <==> !on_passive(d, p) && !on_probe(d, p)) && (
    connector(p) <==> on_connector(d, p)) && (other(p) <==> !on_ic(d, p) && !on_connector(d, p)
        && !on_passive(d, p)) by {
        lemma_buckets(d, p);
        lemma_plugs(d.components@[d.owner(p)]);
        lemma_class_letters();
        let class = d.class(d.owner(p));
        let u = seq!['U'];
        let usb = seq!['U', 'S', 'B'];
        assert(u.len() == 1 && u[0] == 'U' && usb.len() == 3);
        let j = seq!['J'];
        let pp = seq!['P'];
        let cn = seq!['C', 'N'];
        let rj = seq!['R', 'J'];
        assert(j[0] == 'J' && pp[0] == 'P' && cn.len() == 2 && rj.len() == 2);
    }
    assert(pins_where(d, n, ic) =~= pins_where(d, n, |p: int| on_ic(d, p)));
    assert(pins_where(d, n, connector) =~= pins_where(d, n, |p: int| on_connector(d, p)));
    assert(pins_where(d, n, passive) =~= pins_where(d, n, |p: int| on_passive(d, p)));
    assert(pins_where(d, n, other) =~= pins_where(
        d,
        n,
        |p: int| !on_ic(d, p) && !on_connector(d, p) && !on_passive(d, p),
    ));
    assert(pins_where(d, n, ends) =~= pins_where(
        d,
        n,
        |p: int| !on_passive(d, p) && !on_probe(d, p),
    ));
}

/// The audit lists, by category, the nets with a power input and no source, the nets with
/// an input and nothing to drive it, the nets with one pin of an IC and two-pin passives
/// alone, and the nets that lead nowhere.
pub open spec fn audit_told(d: &Design, e: AuditEnvelope, limit: u32) -> bool {
    &&& lists_nets(
        d,
        e.unpowered_power_in,
        limit,
        |n: int| some_typed(d, n, "power_in"@) && !some_typed(d, n, "power_out"@),
        |n: int|
            decimal(pins_where(d, n, |p: int| typed(d, p, "power_in"@)).len())
                + " power_in pin(s), no power_out source"@,
    )
    &&& lists_nets(
        d,
        e.undriven_input,
        limit,
        |n: int| some_typed(d, n, "input"@) && !driven(d, n),
        |n: int|
            decimal(pins_where(d, n, |p: int| typed(d, p, "input"@)).len())
                + " input pin(s), no driver"@,
    )
    &&& lists_nets(
        d,
        e.single_ic_pin,
        limit,
        |n: int| one_ic_pin(d, n),
        |n: int| "1 IC pin + only passives"@,
    )
    &&& lists_nets(
        d,
        e.stub,
        limit,
        |n: int| leads_nowhere(d, n),
        |n: int| nowhere_note(d, n),
    )
}

/// An audit tells of the nets by the pins that are on them.
pub proof fn lemma_audit_told(d: &Design, e: AuditEnvelope, limit: u32)
    requires
        d.wf(),
        d.bucket_is(e.unpowered_power_in, Pattern::UnpoweredPowerIn, limit),
        d.bucket_is(e.undriven_input, Pattern::UndrivenInput, limit),
        d.bucket_is(e.single_ic_pin, Pattern::SingleIcPin, limit),
        d.bucket_is(e.stub, Pattern::Stub, limit),
    ensures
        audit_told(d, e, limit),
{
    lemma_unpowered_nets(d, e, limit);
    lemma_undriven_nets(d, e, limit);
    lemma_single_ic_nets(d, e, limit);
    lemma_stub_nets(d, e, limit);
}

} // verus!
