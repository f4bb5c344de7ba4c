//! What the details of a part, a net and a pin say, and which parts are neighbours.
use vstd::prelude::*;

use super::assemble::{listed_nets, net_coded};
use super::classes::natural_key;
use super::details::{lemma_sheets_on, ComponentDetail, ComponentPinRow, NeighborRow};
use super::details::{NeighborsEnvelope, NetDetail, NetGroup, NetMemberRow, PinDetail};
use super::facts::{joins, lemma_comp_pins, lemma_count_is_size, lemma_net_count, lemma_net_pins};
use super::facts::{lemma_sorted_page, pins_where, sits_on, some_typed, typed};
use super::net_laws::lemma_types_counted;
use super::rails::RailReading;
use super::role_laws::{lemma_role_of_pins, role_told};
use super::sheets::hierarchy_is;
use super::trace_laws::{labelled, reading_key};
use super::{lemma_last_named, Design};
use crate::lists::{count_where, lemma_count_where, page};
use crate::parser::netlist::opt_text;
use crate::ranking::{in_order, key_order, lemma_ranked, mark_order, ranked, Key};
use crate::text::{text_order, texts, unsigned_value};

verus! {

/// A designator finds the last part that has it, and a name the last net.
pub proof fn lemma_named(d: &Design, name: Seq<char>)
    ensures
        match d.comp_named(name) {
            Some(c) => {
                &&& 0 <= c < d.components.len() && d.components@[c].refdes@ == name
                &&& forall|b: int|
                    c < b < d.components.len() ==> (#[trigger] d.components@[b]).refdes@ != name
            },
            None => forall|b: int|
                0 <= b < d.components.len() ==> (#[trigger] d.components@[b]).refdes@ != name,
        },
        match d.net_named(name) {
            Some(n) => {
                &&& 0 <= n < d.nets.len() && d.nets@[n].name@ == name
                &&& forall|m: int|
                    n < m < d.nets.len() ==> (#[trigger] d.nets@[m]).name@ != name
            },
            None => forall|m: int|
                0 <= m < d.nets.len() ==> (#[trigger] d.nets@[m]).name@ != name,
        },
        match d.pin_named(name) {
            Some(p) => {
                &&& 0 <= p < d.pins.len() && labelled(d, p, name)
                &&& forall|q: int| p < q < d.pins.len() ==> !#[trigger] labelled(d, q, name)
            },
            None => forall|q: int| 0 <= q < d.pins.len() ==> !#[trigger] labelled(d, q, name),
        },
{
    reveal_strlit(":");
    assert(":"@ =~= seq![':']);
    let comps = super::comp_names(d.components@);
    let nets = super::net_names(d.nets@);
    let pins = super::pin_labels(d.components@, d.pins@);
    lemma_last_named(comps, name);
    lemma_last_named(nets, name);
    lemma_last_named(pins, name);
    assert forall|b: int| 0 <= b < d.components.len() implies (#[trigger] d.components@[b]).refdes@
        == comps[b] by {}
    assert forall|b: int| 0 <= b < d.nets.len() implies (#[trigger] d.nets@[b]).name@ == nets[b] by {}
    assert forall|q: int| 0 <= q < d.pins.len() implies (#[trigger] labelled(d, q, name)
        <==> pins[q] == name) by {}
    if let Some(p) = d.pin_named(name) {
        assert(labelled(d, p, name) <==> pins[p] == name);
    }
}

proof fn lemma_net_coded(d: &Design, from: int, code: usize)
    requires
        0 <= from <= d.nets.len(),
    ensures
        match net_coded(listed_nets(d.nets@).skip(from), code) {
            Some(k) => {
                &&& 0 <= k && from + k < d.nets.len() && d.nets@[from + k].code == code
                &&& forall|m: int|
                    from <= m < from + k ==> (#[trigger] d.nets@[m]).code != code
            },
            None => forall|m: int|
                from <= m < d.nets.len() ==> (#[trigger] d.nets@[m]).code != code,
        },
    decreases d.nets.len() - from,
{
    let rest = listed_nets(d.nets@).skip(from);
    if from < d.nets.len() {
        assert(rest[0].code == d.nets@[from].code);
        lemma_net_coded(d, from + 1, code);
        assert(rest.skip(1) =~= listed_nets(d.nets@).skip(from + 1));
    }
}

/// A net is asked for by its name or, where no net has the name and it spells a number,
/// by its code: the first net with the code is meant.
pub proof fn lemma_net_asked(d: &Design, s: Seq<char>)
    ensures
        d.net_named(s) is Some ==> d.net_asked(s) == d.net_named(s),
        d.net_named(s) is None && unsigned_value(s, usize::MAX as nat) is None ==> d.net_asked(
            s,
        ) is None,
        d.net_named(s) is None ==> (unsigned_value(s, usize::MAX as nat) matches Some(code) ==> {
            match d.net_asked(s) {
                Some(n) => {
                    &&& 0 <= n < d.nets.len() && d.nets@[n].code == code
                    &&& forall|m: int| 0 <= m < n ==> (#[trigger] d.nets@[m]).code != code
                },
                None => forall|m: int|
                    0 <= m < d.nets.len() ==> (#[trigger] d.nets@[m]).code != code,
            }
        }),
{
    if let Some(code) = unsigned_value(s, usize::MAX as nat) {
        lemma_net_coded(d, 0, code as usize);
        assert(listed_nets(d.nets@).skip(0) =~= listed_nets(d.nets@));
    }
}

/// The row tells of a pin and its net.
pub open spec fn tells_own_pin(d: &Design, r: ComponentPinRow, p: int) -> bool {
    &&& labelled(d, p, r.pin@)
    &&& opt_text(r.name) == opt_text(d.pins@[p].name)
    &&& opt_text(r.pin_type) == opt_text(d.pins@[p].pin_type)
    &&& r.net is Some <==> d.pins@[p].net is Some
    &&& forall|n: int| #[trigger] joins(d, p, n) ==> opt_text(r.net) == Some(d.nets@[n].name@)
}

/// The details of a part tell all that the design says of it and list its own pins, each
/// once, in natural order of their numbers: all of them where the page is large enough.
pub proof fn lemma_component_detail(
    d: &Design,
    e: ComponentDetail,
    c: int,
    limit: u32,
    offset: u32,
) -> (shown: Seq<int>)
    requires
        d.wf(),
        0 <= c < d.components.len(),
        d.component_answer(e, c, limit, offset),
    ensures
        e.refdes@ == d.components@[c].refdes@,
        e.value@ == d.components@[c].value@,
        opt_text(e.description) == opt_text(d.components@[c].description),
        opt_text(e.footprint) == opt_text(d.components@[c].footprint),
        opt_text(e.sheet) == opt_text(d.components@[c].sheet),
        e.dnp == d.components@[c].dnp,
        e.exclude_from_bom == d.components@[c].exclude_from_bom,
        e.properties@ == d.components@[c].properties@,
        opt_text(e.keywords) == (if e.properties@.contains_key("ki_keywords"@) {
            opt_text(e.properties@["ki_keywords"@])
        } else {
            None
        }),
        e.pin_count == Set::new(|p: int| sits_on(d, p, c)).len(),
        e.offset == offset,
        e.limit == limit,
        e.returned == (if e.pin_count <= offset {
            0
        } else if e.pin_count - offset <= limit {
            e.pin_count - offset
        } else {
            limit as int
        }),
        e.returned == e.pins.len(),
        shown.len() == e.pins.len(),
        shown.no_duplicates(),
        forall|i: int|
            0 <= i < shown.len() ==> sits_on(d, shown[i], c) && tells_own_pin(
                d,
                #[trigger] e.pins@[i],
                shown[i],
            ),
        offset == 0 && e.pin_count <= limit ==> forall|p: int| #[trigger]
            sits_on(d, p, c) ==> shown.contains(p),
        forall|i: int, j: int|
            0 <= i < j < shown.len() ==> in_order(
                natural_key(d.pins@[#[trigger] shown[i]].number@),
                natural_key(d.pins@[#[trigger] shown[j]].number@),
            ),
{
    reveal_strlit(":");
    assert(":"@ =~= seq![':']);
    let ids = d.comp_pins(c);
    let keys = ids.map_values(|p: int| d.number_key(p));
    let shown = page(d.by_number(ids), offset as int, limit as int);
    lemma_comp_pins(d, c);
    lemma_sorted_page(ids, keys, offset as int, limit as int);
    lemma_count_is_size(|p: int| true, ids);
    lemma_count_where(|p: int| true, ids);
    assert(Set::new(|x: int| ids.contains(x) && (|p: int| true)(x)) =~= Set::new(
        |p: int| sits_on(d, p, c),
    ));
    assert forall|i: int| 0 <= i < shown.len() implies sits_on(d, shown[i], c) && tells_own_pin(
        d,
        #[trigger] e.pins@[i],
        shown[i],
    ) by {
        assert(ids.contains(shown[i]));
        assert(d.pin_row_is(e.pins@[i], shown[i]));
    }
    lemma_ranked(keys);
    let p = ranked(keys);
    let from = if offset < ids.len() {
        offset as int
    } else {
        ids.len() as int
    };
    assert forall|i: int, j: int| 0 <= i < j < shown.len() implies in_order(
        natural_key(d.pins@[#[trigger] shown[i]].number@),
        natural_key(d.pins@[#[trigger] shown[j]].number@),
    ) by {
        assert(shown[i] == ids[p[from + i]] && shown[j] == ids[p[from + j]]);
        assert(keys[p[from + i]] == d.number_key(shown[i]));
        assert(keys[p[from + j]] == d.number_key(shown[j]));
    }
    shown
}

/// The row tells of a pin and its part.
pub open spec fn tells_member(d: &Design, r: NetMemberRow, p: int) -> bool {
    let comp = d.components@[d.pins@[p].comp.0 as int];
    &&& labelled(d, p, r.pin@)
    &&& r.refdes@ == comp.refdes@
    &&& r.value@ == comp.value@
    &&& r.dnp == comp.dnp
    &&& opt_text(r.pin_name) == opt_text(d.pins@[p].name)
    &&& opt_text(r.pin_type) == opt_text(d.pins@[p].pin_type)
}

/// The details of a net tell its name, code, rail score, the types of the pins on it with
/// how many have each, and the sheets of the parts on it, each once in the order of the
/// dictionary; and they list the pins joined to it, each once, by part and number: all of
/// them where the page is large enough.
pub proof fn lemma_net_detail(
    d: &Design,
    e: NetDetail,
    n: int,
    limit: u32,
    offset: u32,
    rails: Seq<RailReading>,
) -> (shown: Seq<int>)
    requires
        d.wf(),
        0 <= n < d.nets.len(),
        d.net_answer(e, n, limit, offset, rails),
    ensures
        e.net@ == d.nets@[n].name@,
        e.code == d.nets@[n].code,
        e.fanout == pins_where(d, n, |p: int| true).len(),
        e.rail_hundredths == rails[n].hundredths,
        e.rail_evidence@ == rails[n].evidence@,
        e.offset == offset,
        e.limit == limit,
        role_told(d, e.role, n),
        hierarchy_is(e.hierarchy, d.nets@[n].name@, texts(d.sheet_paths@)),
        forall|t: Seq<char>| #[trigger] e.pin_types@.contains_key(t) <==> some_typed(d, n, t),
        forall|t: Seq<char>| #[trigger]
            e.pin_types@.contains_key(t) ==> e.pin_types@[t] == pins_where(
                d,
                n,
                |p: int| typed(d, p, t),
            ).len(),
        forall|s: Seq<char>| #[trigger]
            texts(e.subsystems@).contains(s) <==> exists|p: int| #[trigger]
                joins(d, p, n) && opt_text(d.components@[d.pins@[p].comp.0 as int].sheet) == Some(s),
        forall|i: int, j: int|
            0 <= i < j < e.subsystems.len() ==> text_order(
                (#[trigger] e.subsystems@[i])@,
                (#[trigger] e.subsystems@[j])@,
            ) is Less,
        e.returned == (if e.fanout <= offset {
            0
        } else if e.fanout - offset <= limit {
            e.fanout - offset
        } else {
            limit as int
        }),
        e.returned == e.members.len(),
        shown.len() == e.members.len(),
        shown.no_duplicates(),
        forall|i: int|
            0 <= i < shown.len() ==> joins(d, shown[i], n) && tells_member(
                d,
                #[trigger] e.members@[i],
                shown[i],
            ),
        offset == 0 && e.fanout <= limit ==> forall|p: int| #[trigger]
            joins(d, p, n) ==> shown.contains(p),
        forall|i: int, j: int|
            0 <= i < j < shown.len() ==> in_order(
                reading_key(d, #[trigger] shown[i]),
                reading_key(d, #[trigger] shown[j]),
            ),
{
    reveal_strlit(":");
    assert(":"@ =~= seq![':']);
    let ids = d.net_pins(n);
    let keys = ids.map_values(|p: int| d.part_key(p));
    let shown = page(d.by_part(ids), offset as int, limit as int);
    lemma_role_of_pins(d, e.role, n);
    lemma_net_pins(d, n);
    lemma_sorted_page(ids, keys, offset as int, limit as int);
    lemma_net_count(d, n, |p: int| true);
    lemma_count_where(|p: int| true, ids);
    assert forall|t: Seq<char>| #[trigger]
        e.pin_types@.contains_key(t) <==> some_typed(d, n, t) by {
        lemma_types_counted(d, n, t);
    }
    assert forall|t: Seq<char>| #[trigger]
        e.pin_types@.contains_key(t) implies e.pin_types@[t] == pins_where(
        d,
        n,
        |p: int| typed(d, p, t),
    ).len() by {
        lemma_types_counted(d, n, t);
    }
    assert forall|s: Seq<char>| #[trigger]
        texts(e.subsystems@).contains(s) <==> exists|p: int| #[trigger]
            joins(d, p, n) && opt_text(d.components@[d.pins@[p].comp.0 as int].sheet) == Some(
                s,
            ) by {
        if d.touches_sheet(n, s) {
            let i = choose|i: int|
                0 <= i < ids.len() && opt_text(d.components@[d.owner(#[trigger] ids[i])].sheet)
                    == Some(s);
            assert(joins(d, ids[i], n));
        }
        if exists|p: int| #[trigger]
            joins(d, p, n) && opt_text(d.components@[d.pins@[p].comp.0 as int].sheet) == Some(s) {
            let p = choose|p: int| #[trigger]
                joins(d, p, n) && opt_text(d.components@[d.pins@[p].comp.0 as int].sheet) == Some(s);
            assert(ids.contains(p));
            let i = choose|i: int| 0 <= i < ids.len() && ids[i] == p;
            assert(opt_text(d.components@[d.owner(ids[i])].sheet) == Some(s));
        }
    }
    assert forall|i: int, j: int| 0 <= i < j < e.subsystems.len() implies text_order(
        (#[trigger] e.subsystems@[i])@,
        (#[trigger] e.subsystems@[j])@,
    ) is Less by {
        let v = texts(e.subsystems@);
        assert(v[i] == e.subsystems@[i]@ && v[j] == e.subsystems@[j]@);
    }
    assert forall|i: int| 0 <= i < shown.len() implies joins(d, shown[i], n) && tells_member(
        d,
        #[trigger] e.members@[i],
        shown[i],
    ) by {
        assert(ids.contains(shown[i]));
        assert(d.member_is(e.members@[i], shown[i]));
    }
    lemma_ranked(keys);
    let p = ranked(keys);
    let from = if offset < ids.len() {
        offset as int
    } else {
        ids.len() as int
    };
    assert forall|i: int, j: int| 0 <= i < j < shown.len() implies in_order(
        reading_key(d, #[trigger] shown[i]),
        reading_key(d, #[trigger] shown[j]),
    ) by {
        assert(shown[i] == ids[p[from + i]] && shown[j] == ids[p[from + j]]);
        assert(keys[p[from + i]] == d.part_key(shown[i]));
        assert(keys[p[from + j]] == d.part_key(shown[j]));
    }
    shown
}

/// The details of a pin tell all that the design says of it, of its part and of its net.
pub proof fn lemma_pin_detail(d: &Design, e: PinDetail, p: int, rails: Seq<RailReading>)
    requires
        d.wf(),
        0 <= p < d.pins.len(),
        d.pin_answer(e, p, rails),
    ensures
        labelled(d, p, e.pin@),
        opt_text(e.name) == opt_text(d.pins@[p].name),
        opt_text(e.pin_type) == opt_text(d.pins@[p].pin_type),
        forall|c: int| #[trigger]
            sits_on(d, p, c) ==> e.component.refdes@ == d.components@[c].refdes@
                && e.component.value@ == d.components@[c].value@ && opt_text(
                e.component.description,
            ) == opt_text(d.components@[c].description) && opt_text(e.component.sheet) == opt_text(
                d.components@[c].sheet,
            ) && e.component.dnp == d.components@[c].dnp,
        d.pins@[p].net is None ==> e.net is None,
        forall|n: int| #[trigger]
            joins(d, p, n) ==> (e.net matches Some(i) && i.name@ == d.nets@[n].name@ && i.code
                == d.nets@[n].code && i.fanout == pins_where(d, n, |q: int| true).len()
                && i.rail_hundredths == rails[n].hundredths),
{
    reveal_strlit(":");
    assert(":"@ =~= seq![':']);
    assert(d.pins@[p].id.0 == p);
    if let Some(n) = d.net_of(p) {
        lemma_net_pins(d, n);
        lemma_net_count(d, n, |q: int| true);
        lemma_count_where(|q: int| true, d.net_pins(n));
    }
}

/// The pin is one of another part on the net.
pub open spec fn across(d: &Design, c: int, n: int, q: int) -> bool {
    joins(d, q, n) && !sits_on(d, q, c)
}

/// The row tells of a pin of another part.
pub open spec fn tells_neighbor(d: &Design, r: NeighborRow, q: int) -> bool {
    let comp = d.components@[d.pins@[q].comp.0 as int];
    &&& r.refdes@ == comp.refdes@
    &&& r.value@ == comp.value@
    &&& labelled(d, q, r.pin@)
    &&& r.dnp == comp.dnp
}

/// The row is of a pin of another part on the net.
pub open spec fn row_is_across(d: &Design, c: int, n: int, r: NeighborRow) -> bool {
    exists|q: int| #[trigger] across(d, c, n, q) && tells_neighbor(d, r, q)
}

/// The group tells of the pin `p` of the part `c`, of its net, and of the other parts'
/// pins there: of each by designator and number, or of twenty-five of them, and then it
/// says that there are more.
pub open spec fn tells_group(d: &Design, g: NetGroup, c: int, p: int, n: int) -> bool {
    &&& sits_on(d, p, c) && joins(d, p, n)
    &&& labelled(d, p, g.pin@)
    &&& g.net@ == d.nets@[n].name@
    &&& g.fanout == pins_where(d, n, |q: int| true).len()
    &&& g.neighbors.len() <= 25
    &&& g.truncated ==> g.neighbors.len() == 25
    &&& forall|i: int, j: int|
        0 <= i < j < g.neighbors.len() ==> in_order(
            natural_key((#[trigger] g.neighbors@[i]).refdes@),
            natural_key((#[trigger] g.neighbors@[j]).refdes@),
        )
    &&& forall|i: int|
        0 <= i < g.neighbors.len() ==> row_is_across(d, c, n, #[trigger] g.neighbors@[i])
    &&& !g.truncated ==> forall|q: int| #[trigger]
        across(d, c, n, q) ==> exists|i: int|
            0 <= i < g.neighbors.len() && (#[trigger] g.neighbors@[i]).refdes@
                == d.components@[d.pins@[q].comp.0 as int].refdes@ && labelled(
                d,
                q,
                g.neighbors@[i].pin@,
            )
    &&& g.truncated ==> exists|q: int| #[trigger]
        across(d, c, n, q) && forall|i: int|
            0 <= i < g.neighbors.len() ==> !((#[trigger] g.neighbors@[i]).refdes@
                == d.components@[d.pins@[q].comp.0 as int].refdes@ && labelled(
                d,
                q,
                g.neighbors@[i].pin@,
            ))
}

/// The group tells of the pin and of its net.
pub open spec fn group_told(d: &Design, g: NetGroup, c: int, p: int) -> bool {
    exists|n: int| #[trigger] tells_group(d, g, c, p, n)
}

proof fn lemma_foreign_pins(d: &Design, s: Seq<int>, c: int)
    ensures
        forall|q: int| #[trigger]
            d.foreign_pins(s, c).contains(q) <==> s.contains(q) && d.owner(q) != c,
    decreases s.len(),
{
    if s.len() > 0 {
        let t = s.drop_last();
        lemma_foreign_pins(d, t, c);
        let front = d.foreign_pins(t, c);
        let all = d.foreign_pins(s, c);
        lemma_last_in(s);
        assert forall|q: int| #[trigger] all.contains(q) <==> s.contains(q) && d.owner(q) != c by {
            if d.owner(s.last()) != c {
                lemma_pushed(front, s.last(), q);
            }
        }
    }
}

/// A list holds what it holds without its last item, and that item.
proof fn lemma_last_in(s: Seq<int>)
    requires
        s.len() > 0,
    ensures
        forall|q: int| #[trigger]
            s.contains(q) <==> s.drop_last().contains(q) || q == s.last(),
{
    let t = s.drop_last();
    assert(t.push(s.last()) =~= s);
    assert forall|q: int| #[trigger] s.contains(q) <==> t.contains(q) || q == s.last() by {
        lemma_pushed(t, s.last(), q);
    }
}

proof fn lemma_pushed(s: Seq<int>, x: int, q: int)
    ensures
        s.push(x).contains(q) <==> s.contains(q) || q == x,
{
    let t = s.push(x);
    if s.contains(q) {
        let i = choose|i: int| 0 <= i < s.len() && s[i] == q;
        assert(t[i] == q);
    }
    if q == x {
        assert(t[s.len() as int] == q);
    }
    if t.contains(q) {
        let i = choose|i: int| 0 <= i < t.len() && t[i] == q;
        if i < s.len() {
            assert(s[i] == q);
        }
    }
}

proof fn lemma_connected_pins(d: &Design, s: Seq<int>)
    ensures
        forall|q: int| #[trigger]
            d.connected_pins(s).contains(q) <==> s.contains(q) && d.net_of(q) is Some,
        s.no_duplicates() ==> d.connected_pins(s).no_duplicates(),
    decreases s.len(),
{
    if s.len() > 0 {
        let t = s.drop_last();
        lemma_connected_pins(d, t);
        let front = d.connected_pins(t);
        let all = d.connected_pins(s);
        lemma_last_in(s);
        assert forall|q: int| #[trigger]
            all.contains(q) <==> s.contains(q) && d.net_of(q) is Some by {
            if d.net_of(s.last()) is Some {
                lemma_pushed(front, s.last(), q);
            }
        }
        if s.no_duplicates() {
            assert(t.no_duplicates());
            assert(!t.contains(s.last())) by {
                if t.contains(s.last()) {
                    let i = choose|i: int| 0 <= i < t.len() && t[i] == s.last();
                    assert(s[i] == s[s.len() - 1]);
                }
            }
            assert forall|i: int, j: int| 0 <= i < all.len() && 0 <= j < all.len() && i
                != j implies all[i] != all[j] by {
                if i < front.len() {
                    assert(front.contains(front[i]));
                }
                if j < front.len() {
                    assert(front.contains(front[j]));
                }
            }
        }
    }
}

proof fn lemma_told_apart_all(d: &Design, s: Seq<int>)
    ensures
        forall|q: int| #[trigger]
            s.contains(q) ==> exists|i: int|
                0 <= i < d.told_apart(s).len() && d.alike(#[trigger] d.told_apart(s)[i], q),
        forall|i: int|
            0 <= i < d.told_apart(s).len() ==> s.contains(#[trigger] d.told_apart(s)[i]),
        forall|i: int, j: int|
            0 <= i < j < d.told_apart(s).len() ==> !d.alike(
                #[trigger] d.told_apart(s)[i],
                #[trigger] d.told_apart(s)[j],
            ),
    decreases s.len(),
{
    if s.len() > 0 {
        let t = s.drop_last();
        lemma_told_apart_all(d, t);
        lemma_last_in(s);
        let front = d.told_apart(t);
        let all = d.told_apart(s);
        assert forall|i: int| 0 <= i < front.len() implies #[trigger] all[i] == front[i] by {}
        assert forall|q: int| #[trigger] s.contains(q) implies exists|i: int|
            0 <= i < all.len() && d.alike(#[trigger] all[i], q) by {
            if t.contains(q) {
                let i = choose|i: int| 0 <= i < front.len() && d.alike(#[trigger] front[i], q);
                assert(d.alike(all[i], q));
            } else if d.has_alike(front, s.last()) {
                let i = choose|i: int|
                    0 <= i < front.len() && d.alike(#[trigger] front[i], s.last());
                assert(d.alike(all[i], q));
            } else {
                assert(d.alike(all[all.len() - 1], q));
            }
        }
        assert forall|i: int| 0 <= i < all.len() implies s.contains(#[trigger] all[i]) by {
            if i < front.len() {
                assert(t.contains(front[i]));
            }
        }
        assert forall|i: int, j: int| 0 <= i < j < all.len() implies !d.alike(
            #[trigger] all[i],
            #[trigger] all[j],
        ) by {
            if j < front.len() {
                assert(!d.alike(front[i], front[j]));
            } else {
                assert(!d.alike(front[i], s.last()));
            }
        }
    }
}

proof fn lemma_arranged_holds(d: &Design, s: Seq<int>, q: int)
    ensures
        d.by_part(s).contains(q) <==> s.contains(q),
{
    let keys = s.map_values(|p: int| d.part_key(p));
    lemma_sorted_page(s, keys, 0, s.len() as int);
    assert(page(d.by_part(s), 0, s.len() as int) =~= d.by_part(s)) by {
        lemma_ranked(keys);
    }
    if d.by_part(s).contains(q) {
        let i = choose|i: int| 0 <= i < d.by_part(s).len() && d.by_part(s)[i] == q;
        assert(s.contains(d.by_part(s)[i]));
    }
}

/// The pins that are told apart stand in the order in which they stood.
proof fn lemma_told_apart_order(d: &Design, s: Seq<int>) -> (at: Seq<int>)
    ensures
        at.len() == d.told_apart(s).len(),
        forall|i: int|
            0 <= i < at.len() ==> 0 <= #[trigger] at[i] < s.len() && d.told_apart(s)[i] == s[at[i]],
        forall|i: int, j: int| 0 <= i < j < at.len() ==> #[trigger] at[i] < #[trigger] at[j],
    decreases s.len(),
{
    if s.len() == 0 {
        Seq::empty()
    } else {
        let t = s.drop_last();
        let before = lemma_told_apart_order(d, t);
        let front = d.told_apart(t);
        if d.has_alike(front, s.last()) {
            assert forall|i: int| 0 <= i < before.len() implies 0 <= #[trigger] before[i] < s.len()
                && d.told_apart(s)[i] == s[before[i]] by {
                assert(t[before[i]] == s[before[i]]);
            }
            before
        } else {
            let at = before.push(s.len() - 1);
            assert forall|i: int| 0 <= i < at.len() implies 0 <= #[trigger] at[i] < s.len()
                && d.told_apart(s)[i] == s[at[i]] by {
                if i < before.len() {
                    assert(at[i] == before[i]);
                    assert(t[before[i]] == s[before[i]]);
                }
            }
            at
        }
    }
}

proof fn lemma_neighbors_in_order(d: &Design, foreign: Seq<int>, i: int, j: int)
    requires
        0 <= i < j < d.told_apart(d.by_part(foreign)).len(),
    ensures
        ({
            let all = d.told_apart(d.by_part(foreign));
            in_order(
                natural_key(d.components@[d.owner(all[i])].refdes@),
                natural_key(d.components@[d.owner(all[j])].refdes@),
            )
        }),
{
    let sorted = d.by_part(foreign);
    let keys = foreign.map_values(|p: int| d.part_key(p));
    let p = ranked(keys);
    lemma_ranked(keys);
    let at = lemma_told_apart_order(d, sorted);
    let all = d.told_apart(sorted);
    assert(at[i] < at[j]);
    assert(all[i] == sorted[at[i]] && all[j] == sorted[at[j]]);
    assert(sorted[at[i]] == foreign[p[at[i]]] && sorted[at[j]] == foreign[p[at[j]]]);
    let x = d.part_key(all[i]);
    let y = d.part_key(all[j]);
    assert(keys[p[at[i]]] == x && keys[p[at[j]]] == y);
    assert(!(key_order(x, y) is Greater));
    let a = natural_key(d.components@[d.owner(all[i])].refdes@);
    let b = natural_key(d.components@[d.owner(all[j])].refdes@);
    lemma_fronts_in_order(a, d.number_key(all[i]), b, d.number_key(all[j]));
}

/// Where keys of two parts each are in order, so are their fronts.
proof fn lemma_fronts_in_order(a: Key, u: Key, b: Key, v: Key)
    requires
        a.len() == b.len(),
        in_order(a + u, b + v),
    ensures
        in_order(a, b),
    decreases a.len(),
{
    let x = a + u;
    let y = b + v;
    if a.len() > 0 {
        assert(x[0] == a[0] && y[0] == b[0]);
        assert(x.skip(1) =~= a.skip(1) + u);
        assert(y.skip(1) =~= b.skip(1) + v);
        if mark_order(a[0], b[0]) is Equal {
            lemma_fronts_in_order(a.skip(1), u, b.skip(1), v);
        }
    }
}

/// A row names a pin exactly when the pin that it tells of goes by the same designator and
/// number.
proof fn lemma_row_is_alike(d: &Design, r: NeighborRow, x: int, q: int)
    requires
        d.neighbor_is(r, x),
    ensures
        d.alike(x, q) <==> r.refdes@ == d.components@[d.pins@[q].comp.0 as int].refdes@ && labelled(
            d,
            q,
            r.pin@,
        ),
        tells_neighbor(d, r, x),
{
    reveal_strlit(":");
    assert(":"@ =~= seq![':']);
    let a = d.components@[d.owner(x)].refdes@;
    let m = d.pins@[x].number@;
    let n = d.pins@[q].number@;
    if a == d.components@[d.owner(q)].refdes@ && a + seq![':'] + m == a + seq![':'] + n {
        assert(m =~= (a + seq![':'] + m).skip(a.len() as int + 1));
        assert(n =~= (a + seq![':'] + n).skip(a.len() as int + 1));
    }
}

#[verifier::spinoff_prover]
proof fn lemma_tells_group(d: &Design, g: NetGroup, p: int)
    requires
        d.wf(),
        0 <= p < d.pins.len(),
        d.net_of(p) is Some,
        d.group_is(g, p),
    ensures
        tells_group(d, g, d.owner(p), p, d.net_of(p).unwrap()),
{
    reveal_strlit(":");
    assert(":"@ =~= seq![':']);
    assert(d.pins@[p].id.0 == p);
    let c = d.owner(p);
    let n = d.net_of(p).unwrap();
    let ids = d.net_pins(n);
    let foreign = d.foreign_pins(ids, c);
    let sorted = d.by_part(foreign);
    let all = d.neighbor_pins(p);
    let shown = page(all, 0, 25);
    lemma_net_pins(d, n);
    lemma_net_count(d, n, |q: int| true);
    lemma_count_where(|q: int| true, ids);
    lemma_foreign_pins(d, ids, c);
    lemma_told_apart_all(d, sorted);
    assert forall|q: int| #[trigger] across(d, c, n, q) <==> sorted.contains(q) by {
        lemma_arranged_holds(d, foreign, q);
        assert(ids.contains(q) <==> joins(d, q, n));
        assert(foreign.contains(q) <==> ids.contains(q) && d.owner(q) != c);
    }
    assert forall|i: int| 0 <= i < shown.len() implies #[trigger] shown[i] == all[i] by {}
    assert forall|i: int, j: int| 0 <= i < j < g.neighbors.len() implies in_order(
        natural_key((#[trigger] g.neighbors@[i]).refdes@),
        natural_key((#[trigger] g.neighbors@[j]).refdes@),
    ) by {
        assert(d.neighbor_is(g.neighbors@[i], shown[i]));
        assert(d.neighbor_is(g.neighbors@[j], shown[j]));
        assert(shown[i] == all[i] && shown[j] == all[j]);
        lemma_neighbors_in_order(d, foreign, i, j);
    }
    assert forall|i: int| 0 <= i < g.neighbors.len() implies row_is_across(
        d,
        c,
        n,
        #[trigger] g.neighbors@[i],
    ) by {
        assert(d.neighbor_is(g.neighbors@[i], shown[i]));
        assert(shown[i] == all[i]);
        assert(sorted.contains(all[i]));
        assert(across(d, c, n, all[i]));
        lemma_row_is_alike(d, g.neighbors@[i], all[i], all[i]);
    }
    if !g.truncated {
        assert forall|q: int| #[trigger] across(d, c, n, q) implies exists|i: int|
            0 <= i < g.neighbors.len() && (#[trigger] g.neighbors@[i]).refdes@
                == d.components@[d.pins@[q].comp.0 as int].refdes@ && labelled(
                d,
                q,
                g.neighbors@[i].pin@,
            ) by {
            assert(sorted.contains(q));
            let i = choose|i: int| 0 <= i < all.len() && d.alike(#[trigger] all[i], q);
            assert(shown[i] == all[i]);
            assert(d.neighbor_is(g.neighbors@[i], shown[i]));
            lemma_row_is_alike(d, g.neighbors@[i], all[i], q);
        }
    } else {
        let q = all[25];
        assert(sorted.contains(q));
        assert(across(d, c, n, q));
        assert forall|i: int| 0 <= i < g.neighbors.len() implies !((
        #[trigger] g.neighbors@[i]).refdes@ == d.components@[d.pins@[q].comp.0 as int].refdes@
            && labelled(d, q, g.neighbors@[i].pin@)) by {
            assert(d.neighbor_is(g.neighbors@[i], shown[i]));
            assert(!d.alike(all[i], all[25]));
            assert(shown[i] == all[i]);
            lemma_row_is_alike(d, g.neighbors@[i], all[i], q);
        }
    }
}

/// The neighbours of a part come in a group for each of its pins that is on a net, each
/// pin once, in natural order of the pins' numbers; a group tells of the other parts' pins
/// on the net.
pub proof fn lemma_neighbors_told(d: &Design, e: NeighborsEnvelope, c: int) -> (pins: Seq<int>)
    requires
        d.wf(),
        0 <= c < d.components.len(),
        d.neighbors_answer(e, c),
    ensures
        e.refdes@ == d.components@[c].refdes@,
        e.value@ == d.components@[c].value@,
        e.dnp == d.components@[c].dnp,
        pins.len() == e.net_groups.len(),
        pins.no_duplicates(),
        forall|p: int| #[trigger]
            pins.contains(p) <==> sits_on(d, p, c) && d.pins@[p].net is Some,
        forall|i: int|
            0 <= i < pins.len() ==> group_told(d, #[trigger] e.net_groups@[i], c, pins[i]),
{
    let ids = d.comp_pins(c);
    let keys = ids.map_values(|p: int| d.number_key(p));
    let sorted = d.by_number(ids);
    let pins = d.connected_pins(sorted);
    lemma_comp_pins(d, c);
    lemma_sorted_page(ids, keys, 0, ids.len() as int);
    lemma_ranked(keys);
    assert(page(sorted, 0, ids.len() as int) =~= sorted);
    lemma_connected_pins(d, sorted);
    assert forall|p: int| #[trigger] pins.contains(p) <==> sits_on(d, p, c)
        && d.pins@[p].net is Some by {
        if sorted.contains(p) {
            let i = choose|i: int| 0 <= i < sorted.len() && sorted[i] == p;
            assert(ids.contains(sorted[i]));
        }
        if sits_on(d, p, c) {
            assert(ids.contains(p));
            assert(sorted.contains(p));
        }
    }
    assert forall|i: int| 0 <= i < pins.len() implies group_told(
        d,
        #[trigger] e.net_groups@[i],
        c,
        pins[i],
    ) by {
        assert(pins.contains(pins[i]));
        assert(d.group_is(e.net_groups@[i], pins[i]));
        lemma_tells_group(d, e.net_groups@[i], pins[i]);
        assert(d.owner(pins[i]) == c);
    }
    pins
}

/// The sheets that the parts on a net are on are listed for each pin whose part is on one.
pub proof fn lemma_sheets_of_net(d: &Design, n: int, s: Seq<char>)
    requires
        d.wf(),
        0 <= n < d.nets.len(),
    ensures
        d.sheets_on(n, d.net_pins(n).len() as int).contains(s) <==> exists|p: int| #[trigger]
            joins(d, p, n) && opt_text(d.components@[d.pins@[p].comp.0 as int].sheet) == Some(s),
        d.sheets_on(n, d.net_pins(n).len() as int).len() == pins_where(
            d,
            n,
            |p: int| d.components@[d.pins@[p].comp.0 as int].sheet is Some,
        ).len(),
{
    let ids = d.net_pins(n);
    let f = |p: int| d.components@[d.pins@[p].comp.0 as int].sheet is Some;
    lemma_net_pins(d, n);
    lemma_sheets_on(d, n, ids.len() as int);
    lemma_net_count(d, n, f);
    lemma_sheet_count(d, n, ids.len() as int);
    assert(ids.take(ids.len() as int) =~= ids);
    if exists|p: int| #[trigger]
        joins(d, p, n) && opt_text(d.components@[d.pins@[p].comp.0 as int].sheet) == Some(s) {
        let p = choose|p: int| #[trigger]
            joins(d, p, n) && opt_text(d.components@[d.pins@[p].comp.0 as int].sheet) == Some(s);
        assert(ids.contains(p));
        let i = choose|i: int| 0 <= i < ids.len() && ids[i] == p;
        assert(opt_text(d.components@[d.owner(ids[i])].sheet) == Some(s));
    }
    if d.sheets_on(n, ids.len() as int).contains(s) {
        let i = choose|i: int|
            0 <= i < ids.len() && opt_text(d.components@[d.owner(#[trigger] ids[i])].sheet) == Some(
                s,
            );
        assert(joins(d, ids[i], n));
    }
}

proof fn lemma_sheet_count(d: &Design, n: int, k: int)
    requires
        0 <= k <= d.net_pins(n).len(),
    ensures
        d.sheets_on(n, k).len() == count_where(
            |p: int| d.components@[d.pins@[p].comp.0 as int].sheet is Some,
            d.net_pins(n).take(k),
        ),
    decreases k,
{
    let ids = d.net_pins(n);
    if k > 0 {
        lemma_sheet_count(d, n, k - 1);
        assert(ids.take(k).drop_last() =~= ids.take(k - 1));
        assert(ids.take(k).last() == ids[k - 1]);
    } else {
        assert(ids.take(0) =~= Seq::<int>::empty());
    }
}

} // verus!
