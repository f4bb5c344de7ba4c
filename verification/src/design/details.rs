//! Everything about one component, net or pin, and what is next to a component.
use vstd::prelude::*;

use super::assemble::{find_coded, listed_nets, net_coded};
use super::classes::{natural_key, push_natural};
use super::error::{QueryError, Refusal};
use super::rails::RailReading;
use super::roles::NetRole;
use super::sheets::{hierarchy_is, holds_text, NetHierarchy};
use super::{lemma_last_named, lemma_lists_in_range, pin_ids, Component, Design, Net, PinId};
use crate::lists::{arranged, page, page_bounds};
use crate::parser::netlist::opt_text;
use crate::ranking::{arrange, key_of, keys_of, lemma_ranked, places, rank, ranked};
use crate::ranking::{lemma_key_order, Key, Mark, Part};
use crate::table::Table;
use crate::text::{copy_text, parse_unsigned, text_order, texts, unsigned_value};

verus! {

/// One pin of a component.
#[derive(Debug)]
pub struct ComponentPinRow {
    pub pin: String,
    pub name: Option<String>,
    pub pin_type: Option<String>,
    pub net: Option<String>,
}

/// Everything about a component, with a page of its pins.
#[derive(Debug)]
pub struct ComponentDetail {
    pub refdes: String,
    pub value: String,
    pub description: Option<String>,
    pub keywords: Option<String>,
    pub footprint: Option<String>,
    pub sheet: Option<String>,
    pub dnp: bool,
    pub exclude_from_bom: bool,
    pub properties: Table<Option<String>>,
    pub pin_count: usize,
    pub offset: u32,
    pub limit: u32,
    pub returned: usize,
    pub pins: Vec<ComponentPinRow>,
}

/// One pin on a net, and the part it belongs to.
#[derive(Debug)]
pub struct NetMemberRow {
    pub pin: String,
    pub refdes: String,
    pub value: String,
    pub dnp: bool,
    pub pin_name: Option<String>,
    pub pin_type: Option<String>,
}

/// Everything about a net, with a page of its pins.
#[derive(Debug)]
pub struct NetDetail {
    pub net: String,
    pub code: usize,
    pub fanout: usize,
    /// The rail score in hundredths.
    pub rail_hundredths: u32,
    pub rail_evidence: Vec<String>,
    pub pin_types: Table<usize>,
    pub subsystems: Vec<String>,
    pub role: NetRole,
    pub hierarchy: NetHierarchy,
    pub offset: u32,
    pub limit: u32,
    pub returned: usize,
    pub members: Vec<NetMemberRow>,
}

/// The part that a pin belongs to.
#[derive(Debug)]
pub struct PinComponentInfo {
    pub refdes: String,
    pub value: String,
    pub description: Option<String>,
    pub sheet: Option<String>,
    pub dnp: bool,
}

/// The net that a pin is on.
#[derive(Debug)]
pub struct PinNetInfo {
    pub name: String,
    pub code: usize,
    pub fanout: usize,
    /// The rail score in hundredths.
    pub rail_hundredths: u32,
}

/// Everything about a pin.
#[derive(Debug)]
pub struct PinDetail {
    pub pin: String,
    pub name: Option<String>,
    pub pin_type: Option<String>,
    pub component: PinComponentInfo,
    pub net: Option<PinNetInfo>,
}

/// A pin of another part on a net.
#[derive(Debug)]
pub struct NeighborRow {
    pub refdes: String,
    pub value: String,
    pub pin: String,
    pub dnp: bool,
}

/// A pin of the part in question, its net, and the other parts' pins there.
#[derive(Debug)]
pub struct NetGroup {
    pub pin: String,
    pub net: String,
    pub fanout: usize,
    pub truncated: bool,
    pub neighbors: Vec<NeighborRow>,
}

/// The parts one hop away from a part.
#[derive(Debug)]
pub struct NeighborsEnvelope {
    pub refdes: String,
    pub value: String,
    pub dnp: bool,
    pub net_groups: Vec<NetGroup>,
}

/// How many neighbours a group shows.
pub const GROUP_SIZE: usize = 25;

/// The keywords among a component's properties.
pub open spec fn keywords_of(c: Component) -> Option<String> {
    if c.properties@.contains_key("ki_keywords"@) {
        c.properties@["ki_keywords"@]
    } else {
        None
    }
}

/// The keywords among a component's properties.
pub fn find_keywords(c: &Component) -> (r: Option<String>)
    ensures
        r == keywords_of(*c),
{
    match c.properties.get("ki_keywords") {
        Some(v) => copy_text(v),
        None => None,
    }
}

impl Design {
    pub open spec fn number_key(&self, p: int) -> Key {
        natural_key(self.pins@[p].number@)
    }

    pub open spec fn part_key(&self, p: int) -> Key {
        natural_key(self.components@[self.owner(p)].refdes@) + self.number_key(p)
    }

    /// The pins by number.
    pub open spec fn by_number(&self, s: Seq<int>) -> Seq<int> {
        arranged(s, ranked(s.map_values(|p: int| self.number_key(p))))
    }

    /// The pins by part and then by number.
    pub open spec fn by_part(&self, s: Seq<int>) -> Seq<int> {
        arranged(s, ranked(s.map_values(|p: int| self.part_key(p))))
    }

    pub open spec fn known_pins(&self, s: Seq<PinId>) -> bool {
        forall|i: int| 0 <= i < s.len() ==> (#[trigger] s[i]).0 < self.pins.len()
    }

    /// Sorts pins by part where `by_part` says so, and then by number.
    pub fn sort_pins(&self, ids: &Vec<PinId>, by_part: bool) -> (r: Vec<PinId>)
        requires
            self.wf(),
            self.known_pins(ids@),
        ensures
            pin_ids(r@) == (if by_part {
                self.by_part(pin_ids(ids@))
            } else {
                self.by_number(pin_ids(ids@))
            }),
            self.known_pins(r@),
            r.len() == ids.len(),
    {
        let ghost s = pin_ids(ids@);
        let mut keys: Vec<Vec<Part>> = Vec::new();
        let mut i: usize = 0;
        while i < ids.len()
            invariant
                i <= ids.len(),
                keys.len() == i,
                self.wf(),
                s == pin_ids(ids@),
                self.known_pins(ids@),
                forall|k: int|
                    0 <= k < i ==> key_of((#[trigger] keys@[k])@) == (if by_part {
                        self.part_key(s[k])
                    } else {
                        self.number_key(s[k])
                    }),
            decreases ids.len() - i,
        {
            let pin = self.pin(&ids[i]);
            let mut key: Vec<Part> = Vec::new();
            assert(key_of(key@) =~= Seq::<Mark>::empty());
            if by_part {
                push_natural(self.component(&pin.comp).refdes.as_str(), &mut key);
            }
            push_natural(pin.number.as_str(), &mut key);
            assert(key_of(key@) =~= (if by_part {
                self.part_key(s[i as int])
            } else {
                self.number_key(s[i as int])
            }));
            keys.push(key);
            i += 1;
        }
        let order = rank(&keys);
        proof {
            if by_part {
                assert(keys_of(keys@) =~= s.map_values(|p: int| self.part_key(p)));
            } else {
                assert(keys_of(keys@) =~= s.map_values(|p: int| self.number_key(p)));
            }
        }
        let mut out: Vec<PinId> = Vec::new();
        let mut k: usize = 0;
        while k < order.len()
            invariant
                k <= order.len(),
                order.len() == ids.len(),
                out.len() == k,
                s == pin_ids(ids@),
                self.known_pins(ids@),
                self.known_pins(out@),
                forall|j: int| 0 <= j < order.len() ==> #[trigger] order@[j] < ids.len(),
                forall|j: int| 0 <= j < k ==> (#[trigger] out@[j]).0 == s[places(order@)[j]],
            decreases order.len() - k,
        {
            out.push(ids[order[k]]);
            k += 1;
        }
        assert(pin_ids(out@) =~= arranged(s, places(order@)));
        out
    }

    pub open spec fn net_name_of(&self, p: int) -> Option<String> {
        match self.net_of(p) {
            Some(n) => Some(self.nets@[n].name),
            None => None,
        }
    }

    pub open spec fn pin_row_is(&self, r: ComponentPinRow, p: int) -> bool {
        &&& r.pin@ == self.label(p)
        &&& r.name == self.pins@[p].name
        &&& r.pin_type == self.pins@[p].pin_type
        &&& r.net == self.net_name_of(p)
    }

    pub open spec fn pin_rows_are(&self, v: Seq<ComponentPinRow>, s: Seq<int>) -> bool {
        v.len() == s.len() && forall|i: int|
            0 <= i < v.len() ==> self.pin_row_is(#[trigger] v[i], s[i])
    }

    /// The answer says everything about the component at place `c`.
    pub open spec fn component_answer(
        &self,
        e: ComponentDetail,
        c: int,
        limit: u32,
        offset: u32,
    ) -> bool {
        let comp = self.components@[c];
        &&& e.refdes == comp.refdes
        &&& e.value == comp.value
        &&& e.description == comp.description
        &&& e.keywords == keywords_of(comp)
        &&& e.footprint == comp.footprint
        &&& e.sheet == comp.sheet
        &&& e.dnp == comp.dnp
        &&& e.exclude_from_bom == comp.exclude_from_bom
        &&& e.properties@ == comp.properties@
        &&& e.pin_count == self.comp_pins(c).len()
        &&& e.offset == offset
        &&& e.limit == limit
        &&& e.returned == e.pins.len()
        &&& self.pin_rows_are(
            e.pins@,
            page(self.by_number(self.comp_pins(c)), offset as int, limit as int),
        )
    }

    fn copy_net_name(&self, pin: &super::Pin) -> (r: Option<String>)
        requires
            pin.net matches Some(n) ==> n.0 < self.nets.len(),
        ensures
            r == (match pin.net {
                Some(n) => Some(self.nets@[n.0 as int].name),
                None => None,
            }),
    {
        match pin.net {
            Some(n) => Some(self.nets[n.0].name.clone()),
            None => None,
        }
    }

    /// Finds a component by its designator.
    pub fn find_component(&self, refdes: &str) -> (r: Option<usize>)
        requires
            self.wf(),
        ensures
            match self.comp_named(refdes@) {
                Some(c) => r matches Some(k) && k == c && k < self.components.len(),
                None => r is None,
            },
    {
        proof {
            lemma_last_named(super::comp_names(self.components@), refdes@);
        }
        match self.component_map.get(refdes) {
            Some(id) => Some(id.0),
            None => None,
        }
    }

    /// Everything about a component, its pins sorted by number and cut to a page.
    pub fn comp_details(&self, refdes: &str, limit: u32, offset: u32) -> (r: Result<
        ComponentDetail,
        QueryError,
    >)
        requires
            self.wf(),
        ensures
            match self.comp_named(refdes@) {
                Some(c) => r matches Ok(e) && self.component_answer(e, c, limit, offset),
                None => r matches Err(e) && e@ == Refusal::Refdes(refdes@),
            },
    {
        let c = match self.find_component(refdes) {
            Some(c) => c,
            None => return Err(QueryError::NoSuchRefdes(refdes.to_owned())),
        };
        let comp = &self.components[c];
        proof {
            lemma_lists_in_range(self);
            assert(self.known_pins(comp.pins@));
        }
        let sorted = self.sort_pins(&comp.pins, false);
        let ghost all = pin_ids(sorted@);
        let (from, to) = page_bounds(sorted.len(), offset, limit);
        let ghost shown = page(all, offset as int, limit as int);
        let mut pins: Vec<ComponentPinRow> = Vec::new();
        let mut i: usize = from;
        while i < to
            invariant
                from <= i <= to <= sorted.len(),
                self.wf(),
                self.known_pins(sorted@),
                all == pin_ids(sorted@),
                shown == all.subrange(from as int, to as int),
                pins.len() == i - from,
                forall|k: int| 0 <= k < pins.len() ==> self.pin_row_is(#[trigger] pins@[k], shown[k]),
            decreases to - i,
        {
            let id = sorted[i];
            let pin = self.pin(&id);
            assert(shown[i - from] == id.0);
            let row = ComponentPinRow {
                pin: self.pin_name(&id),
                name: copy_text(&pin.name),
                pin_type: copy_text(&pin.pin_type),
                net: self.copy_net_name(pin),
            };
            assert(self.pin_row_is(row, shown[i - from]));
            pins.push(row);
            i += 1;
        }
        Ok(
            ComponentDetail {
                refdes: comp.refdes.clone(),
                value: comp.value.clone(),
                description: copy_text(&comp.description),
                keywords: find_keywords(comp),
                footprint: copy_text(&comp.footprint),
                sheet: copy_text(&comp.sheet),
                dnp: comp.dnp,
                exclude_from_bom: comp.exclude_from_bom,
                properties: comp.properties.copied(),
                pin_count: comp.pins.len(),
                offset,
                limit,
                returned: pins.len(),
                pins,
            },
        )
    }

    /// The net that a name or else a code asks for.
    pub open spec fn net_asked(&self, s: Seq<char>) -> Option<int> {
        match self.net_named(s) {
            Some(n) => Some(n),
            None => match unsigned_value(s, usize::MAX as nat) {
                Some(code) => net_coded(listed_nets(self.nets@), code as usize),
                None => None,
            },
        }
    }

    fn find_asked_net(&self, net: &str) -> (r: Option<usize>)
        requires
            self.wf(),
        ensures
            match self.net_asked(net@) {
                Some(n) => r matches Some(k) && k == n && k < self.nets.len(),
                None => r is None,
            },
    {
        proof {
            lemma_last_named(super::net_names(self.nets@), net@);
        }
        if let Some(id) = self.net_map.get(net) {
            return Some(id.0);
        }
        match parse_unsigned(net, usize::MAX as u64) {
            Some(code) => find_coded(&self.nets, code as usize),
            None => None,
        }
    }

    /// A part on the net is on this sheet.
    pub open spec fn touches_sheet(&self, n: int, s: Seq<char>) -> bool {
        exists|i: int|
            0 <= i < self.net_pins(n).len() && opt_text(
                self.components@[self.owner(#[trigger] self.net_pins(n)[i])].sheet,
            ) == Some(s)
    }

    /// The texts are the sheets of the parts on the net, each once, in dictionary order.
    pub open spec fn subsystems_are(&self, v: Seq<Seq<char>>, n: int) -> bool {
        &&& forall|i: int, j: int|
            0 <= i < j < v.len() ==> text_order(#[trigger] v[i], #[trigger] v[j]) is Less
        &&& forall|s: Seq<char>| #[trigger] v.contains(s) <==> self.touches_sheet(n, s)
    }

    /// The sheets of the parts on a net, repeats and all.
    pub fn net_component_sheets(&self, net: &Net) -> (r: Vec<&str>)
        requires
            self.wf(),
            self.has_net(net),
        ensures
            r@.map_values(|s: &str| s@) == self.sheets_on(net.id.0 as int, net.pins.len() as int),
    {
        let ghost n = net.id.0 as int;
        let mut out: Vec<&str> = Vec::new();
        let mut i: usize = 0;
        proof {
            lemma_lists_in_range(self);
            assert(out@.map_values(|s: &str| s@) =~= Seq::<Seq<char>>::empty());
        }
        while i < net.pins.len()
            invariant
                i <= net.pins.len(),
                self.wf(),
                self.has_net(net),
                n == net.id.0,
                self.known_pins(net.pins@),
                out@.map_values(|s: &str| s@) == self.sheets_on(n, i as int),
            decreases net.pins.len() - i,
        {
            assert(self.net_pins(n)[i as int] == net.pins@[i as int].0);
            let comp = &self.components[self.pins[net.pins[i].0].comp.0];
            let ghost was = out@;
            if let Some(sheet) = &comp.sheet {
                let s: &str = sheet.as_str();
                out.push(s);
                assert(out@.map_values(|s: &str| s@) =~= was.map_values(|s: &str| s@).push(s@));
            }
            i += 1;
        }
        out
    }

    /// The sheets of the parts that own a net's first `k` pins.
    pub open spec fn sheets_on(&self, n: int, k: int) -> Seq<Seq<char>>
        decreases k,
    {
        if k <= 0 {
            Seq::empty()
        } else {
            let front = self.sheets_on(n, k - 1);
            match opt_text(self.components@[self.owner(self.net_pins(n)[k - 1])].sheet) {
                Some(s) => front.push(s),
                None => front,
            }
        }
    }

    fn subsystems_of(&self, net: &Net) -> (r: Vec<String>)
        requires
            self.wf(),
            self.has_net(net),
        ensures
            self.subsystems_are(texts(r@), net.id.0 as int),
    {
        let ghost n = net.id.0 as int;
        let sheets = self.net_component_sheets(net);
        let ghost all = sheets@.map_values(|s: &str| s@);
        let mut seen: Vec<String> = Vec::new();
        let mut i: usize = 0;
        assert(all.take(0) =~= Seq::<Seq<char>>::empty());
        assert(texts(seen@) =~= Seq::<Seq<char>>::empty());
        while i < sheets.len()
            invariant
                i <= sheets.len(),
                all == sheets@.map_values(|s: &str| s@),
                texts(seen@).no_duplicates(),
                forall|s: Seq<char>| #[trigger]
                    texts(seen@).contains(s) <==> all.take(i as int).contains(s),
            decreases sheets.len() - i,
        {
            let ghost was = texts(seen@);
            let ghost done = all.take(i as int);
            let ghost next = all.take(i + 1);
            assert(next =~= done.push(all[i as int]));
            if !holds_text(&seen, sheets[i]) {
                seen.push(sheets[i].to_owned());
                assert(texts(seen@) =~= was.push(all[i as int]));
            }
            proof {
                let now = texts(seen@);
                assert forall|s: Seq<char>| #[trigger] now.contains(s) <==> next.contains(s) by {
                    if next.contains(s) {
                        let k = choose|k: int| 0 <= k < next.len() && next[k] == s;
                        if k < done.len() {
                            assert(done[k] == s);
                            assert(was.contains(s));
                        }
                    }
                    if was.contains(s) {
                        let k = choose|k: int| 0 <= k < was.len() && was[k] == s;
                        assert(now[k] == s);
                        let l = choose|l: int| 0 <= l < done.len() && done[l] == s;
                        assert(next[l] == s);
                    }
                    if s == all[i as int] {
                        assert(next[i as int] == s);
                        if was.contains(s) {
                        } else {
                            assert(now[now.len() - 1] == s);
                        }
                    }
                    if now.contains(s) && !was.contains(s) {
                        let k = choose|k: int| 0 <= k < now.len() && now[k] == s;
                        if k < was.len() {
                            assert(was[k] == s);
                        }
                        assert(s == all[i as int]);
                    }
                }
                assert forall|a: int, b: int| 0 <= a < b < now.len() implies now[a] != now[b] by {
                    if b < was.len() {
                        assert(was[a] != was[b]);
                    } else {
                        assert(was.contains(now[a]));
                    }
                }
            }
            i += 1;
        }
        assert(all.take(all.len() as int) =~= all);
        let ghost set = texts(seen@);
        let sorted = sort_texts(seen);
        proof {
            lemma_sheets_on(self, n, net.pins.len() as int);
            assert forall|s: Seq<char>| #[trigger]
                texts(sorted@).contains(s) <==> self.touches_sheet(n, s) by {
                assert(set.contains(s) <==> all.contains(s));
            }
        }
        sorted
    }

    pub open spec fn member_is(&self, r: NetMemberRow, p: int) -> bool {
        let comp = self.components@[self.owner(p)];
        &&& r.pin@ == self.label(p)
        &&& r.refdes == comp.refdes
        &&& r.value == comp.value
        &&& r.dnp == comp.dnp
        &&& r.pin_name == self.pins@[p].name
        &&& r.pin_type == self.pins@[p].pin_type
    }

    pub open spec fn members_are(&self, v: Seq<NetMemberRow>, s: Seq<int>) -> bool {
        v.len() == s.len() && forall|i: int|
            0 <= i < v.len() ==> self.member_is(#[trigger] v[i], s[i])
    }

    /// The answer says everything about the net at place `n`.
    pub open spec fn net_answer(
        &self,
        e: NetDetail,
        n: int,
        limit: u32,
        offset: u32,
        rails: Seq<RailReading>,
    ) -> bool {
        let net = self.nets@[n];
        &&& e.net == net.name
        &&& e.code == net.code
        &&& e.fanout == self.net_pins(n).len()
        &&& e.rail_hundredths == rails[n].hundredths
        &&& e.rail_evidence@ == rails[n].evidence@
        &&& e.pin_types@ == net.pin_types@
        &&& self.subsystems_are(texts(e.subsystems@), n)
        &&& self.role_is(e.role, n)
        &&& hierarchy_is(e.hierarchy, net.name@, texts(self.sheet_paths@))
        &&& e.offset == offset
        &&& e.limit == limit
        &&& e.returned == e.members.len()
        &&& self.members_are(
            e.members@,
            page(self.by_part(self.net_pins(n)), offset as int, limit as int),
        )
    }

    /// Everything about a net, its pins sorted by part and cut to a page. The net is
    /// asked for by its name, or else by its code.
    pub fn net_details(&self, net: &str, limit: u32, offset: u32, rails: &Vec<RailReading>) -> (r:
        Result<NetDetail, QueryError>)
        requires
            self.wf(),
            rails.len() == self.nets.len(),
        ensures
            match self.net_asked(net@) {
                Some(n) => r matches Ok(e) && self.net_answer(e, n, limit, offset, rails@),
                None => r matches Err(e) && e@ == Refusal::Net(net@),
            },
    {
        let n = match self.find_asked_net(net) {
            Some(n) => n,
            None => return Err(QueryError::NoSuchNet(net.to_owned())),
        };
        let net_ref = &self.nets[n];
        assert(self.nets@[n as int].id.0 == n);
        proof {
            lemma_lists_in_range(self);
            assert(self.known_pins(net_ref.pins@));
        }
        let sorted = self.sort_pins(&net_ref.pins, true);
        let ghost all = pin_ids(sorted@);
        let (from, to) = page_bounds(sorted.len(), offset, limit);
        let ghost shown = page(all, offset as int, limit as int);
        let mut members: Vec<NetMemberRow> = Vec::new();
        let mut i: usize = from;
        while i < to
            invariant
                from <= i <= to <= sorted.len(),
                self.wf(),
                self.known_pins(sorted@),
                all == pin_ids(sorted@),
                shown == all.subrange(from as int, to as int),
                members.len() == i - from,
                forall|k: int|
                    0 <= k < members.len() ==> self.member_is(#[trigger] members@[k], shown[k]),
            decreases to - i,
        {
            let id = sorted[i];
            let pin = self.pin(&id);
            let comp = self.component(&pin.comp);
            assert(shown[i - from] == id.0);
            let row = NetMemberRow {
                pin: self.pin_name(&id),
                refdes: comp.refdes.clone(),
                value: comp.value.clone(),
                dnp: comp.dnp,
                pin_name: copy_text(&pin.name),
                pin_type: copy_text(&pin.pin_type),
            };
            assert(self.member_is(row, shown[i - from]));
            members.push(row);
            i += 1;
        }
        Ok(
            NetDetail {
                net: net_ref.name.clone(),
                code: net_ref.code,
                fanout: net_ref.pins.len(),
                rail_hundredths: rails[n].hundredths,
                rail_evidence: copy_texts(&rails[n].evidence),
                pin_types: net_ref.pin_types.copied_counts(),
                subsystems: self.subsystems_of(net_ref),
                role: self.net_role(net_ref),
                hierarchy: self.net_hierarchy(net_ref.name.as_str()),
                offset,
                limit,
                returned: members.len(),
                members,
            },
        )
    }

    /// The answer says everything about the pin at place `p`.
    pub open spec fn pin_answer(&self, e: PinDetail, p: int, rails: Seq<RailReading>) -> bool {
        let pin = self.pins@[p];
        let comp = self.components@[self.owner(p)];
        &&& e.pin@ == self.label(p)
        &&& e.name == pin.name
        &&& e.pin_type == pin.pin_type
        &&& e.component.refdes == comp.refdes
        &&& e.component.value == comp.value
        &&& e.component.description == comp.description
        &&& e.component.sheet == comp.sheet
        &&& e.component.dnp == comp.dnp
        &&& match self.net_of(p) {
            None => e.net is None,
            Some(n) => e.net matches Some(i) && i.name == self.nets@[n].name && i.code
                == self.nets@[n].code && i.fanout == self.net_pins(n).len() && i.rail_hundredths
                == rails[n].hundredths,
        }
    }

    /// Everything about a pin.
    pub fn pin_details(&self, pin_name: &str, rails: &Vec<RailReading>) -> (r: Result<
        PinDetail,
        QueryError,
    >)
        requires
            self.wf(),
            rails.len() == self.nets.len(),
        ensures
            match self.pin_named(pin_name@) {
                Some(p) => r matches Ok(e) && self.pin_answer(e, p, rails@),
                None => r matches Err(e) && e@ == Refusal::Pin(pin_name@),
            },
    {
        let id = match self.find_pin(pin_name) {
            Ok(id) => id,
            Err(e) => return Err(e),
        };
        let pin = self.pin(&id);
        let comp = self.component(&pin.comp);
        let net = match pin.net {
            None => None,
            Some(n) => Some(
                PinNetInfo {
                    name: self.nets[n.0].name.clone(),
                    code: self.nets[n.0].code,
                    fanout: self.nets[n.0].pins.len(),
                    rail_hundredths: rails[n.0].hundredths,
                },
            ),
        };
        Ok(
            PinDetail {
                pin: self.pin_name(&id),
                name: copy_text(&pin.name),
                pin_type: copy_text(&pin.pin_type),
                component: PinComponentInfo {
                    refdes: comp.refdes.clone(),
                    value: comp.value.clone(),
                    description: copy_text(&comp.description),
                    sheet: copy_text(&comp.sheet),
                    dnp: comp.dnp,
                },
                net,
            },
        )
    }
}

/// Sorts texts by the dictionary.
fn sort_texts(items: Vec<String>) -> (r: Vec<String>)
    requires
        texts(items@).no_duplicates(),
    ensures
        forall|i: int, j: int|
            0 <= i < j < r.len() ==> text_order(#[trigger] texts(r@)[i], #[trigger] texts(r@)[j]) is Less,
        forall|s: Seq<char>| #[trigger] texts(r@).contains(s) <==> texts(items@).contains(s),
{
    let ghost before = texts(items@);
    let mut keys: Vec<Vec<Part>> = Vec::new();
    let mut i: usize = 0;
    while i < items.len()
        invariant
            i <= items.len(),
            keys.len() == i,
            before == texts(items@),
            forall|k: int|
                0 <= k < i ==> key_of((#[trigger] keys@[k])@) == seq![Mark::Text(before[k])],
        decreases items.len() - i,
    {
        let mut key: Vec<Part> = Vec::new();
        key.push(Part::Text(items[i].clone()));
        assert(key_of(key@) =~= seq![Mark::Text(before[i as int])]);
        keys.push(key);
        i += 1;
    }
    let order = rank(&keys);
    let ghost ks = keys_of(keys@);
    let ghost p = places(order@);
    proof {
        lemma_ranked(ks);
    }
    let sorted = arrange(items, &order);
    proof {
        let after = texts(sorted@);
        assert forall|i: int, j: int| 0 <= i < j < sorted.len() implies text_order(
            #[trigger] after[i],
            #[trigger] after[j],
        ) is Less by {
            assert(after[i] == before[p[i]] && after[j] == before[p[j]]);
            let a = ks[p[i]];
            let b = ks[p[j]];
            assert(a == seq![Mark::Text(before[p[i]])] && b == seq![Mark::Text(before[p[j]])]);
            lemma_key_order(a, b);
            assert(p[i] != p[j]);
            assert(before[p[i]] != before[p[j]]);
            assert(a[0] == Mark::Text(before[p[i]]) && b[0] == Mark::Text(before[p[j]]));
            assert(a != b);
            assert(a.skip(1).len() == 0 && b.skip(1).len() == 0);
            reveal_with_fuel(crate::ranking::key_order, 2);
        }
        assert forall|s: Seq<char>| #[trigger] after.contains(s) <==> before.contains(s) by {
            if after.contains(s) {
                let k = choose|k: int| 0 <= k < after.len() && after[k] == s;
                assert(before[p[k]] == s);
            }
            if before.contains(s) {
                let k = choose|k: int| 0 <= k < before.len() && before[k] == s;
                assert(p.contains(k));
                let l = choose|l: int| 0 <= l < p.len() && p[l] == k;
                assert(after[l] == s);
            }
        }
    }
    sorted
}

/// A copy of a list of texts.
pub fn copy_texts(v: &Vec<String>) -> (r: Vec<String>)
    ensures
        r@ == v@,
{
    let mut out: Vec<String> = Vec::new();
    let mut i: usize = 0;
    while i < v.len()
        invariant
            i <= v.len(),
            out@ == v@.take(i as int),
        decreases v.len() - i,
    {
        out.push(v[i].clone());
        assert(out@ =~= v@.take(i + 1));
        i += 1;
    }
    assert(out@ =~= v@);
    out
}

/// The sheets of the parts on a net are listed, and no others.
pub proof fn lemma_sheets_on(d: &Design, n: int, k: int)
    requires
        0 <= k <= d.net_pins(n).len(),
    ensures
        forall|s: Seq<char>| #[trigger]
            d.sheets_on(n, k).contains(s) <==> exists|i: int|
                0 <= i < k && opt_text(
                    d.components@[d.owner(#[trigger] d.net_pins(n)[i])].sheet,
                ) == Some(s),
    decreases k,
{
    if k > 0 {
        lemma_sheets_on(d, n, k - 1);
        let front = d.sheets_on(n, k - 1);
        let all = d.sheets_on(n, k);
        let here = opt_text(d.components@[d.owner(d.net_pins(n)[k - 1])].sheet);
        assert forall|s: Seq<char>| #[trigger] all.contains(s) <==> exists|i: int|
            0 <= i < k && opt_text(d.components@[d.owner(#[trigger] d.net_pins(n)[i])].sheet)
                == Some(s) by {
            if all.contains(s) {
                let j = choose|j: int| 0 <= j < all.len() && all[j] == s;
                if j < front.len() {
                    assert(front[j] == s);
                    assert(front.contains(s));
                } else {
                    assert(here == Some(s));
                    assert(opt_text(d.components@[d.owner(d.net_pins(n)[k - 1])].sheet) == Some(s));
                }
            }
            if exists|i: int|
                0 <= i < k && opt_text(d.components@[d.owner(#[trigger] d.net_pins(n)[i])].sheet)
                    == Some(s) {
                let i = choose|i: int|
                    0 <= i < k && opt_text(
                        d.components@[d.owner(#[trigger] d.net_pins(n)[i])].sheet,
                    ) == Some(s);
                if i < k - 1 {
                    assert(front.contains(s));
                    let j = choose|j: int| 0 <= j < front.len() && front[j] == s;
                    assert(all[j] == s);
                } else {
                    assert(all[all.len() - 1] == s);
                }
            }
        }
    }
}

} // verus!
