//! Exhaustive filter over nets.
use vstd::prelude::*;

use super::filter::{pick, NetEnvelope, NetRow};
use super::rails::RailReading;
use super::sheets::{hierarchy_is, opt_str, opt_view, selects, Selector, SubsystemFilter};
use super::{lemma_lists_in_range, Design, Net};
use crate::lists::{arranged, count_where, lemma_count_at_end, lemma_count_where, page, page_bounds};
use crate::parser::netlist::opt_text;
use crate::ranking::{key_of, key_order, keys_of, lemma_ranked, places, rank, ranked};
use crate::ranking::{Key, Mark, Part};
use crate::text::{contains, decimal, decimal_text, join_texts, joined, lowercase, text_contains};
use crate::text::{texts, trim_matches, trimmed, Whitespace};

verus! {

/// The score, in hundredths, from which on a net counts as a rail.
pub const RAIL_HUNDREDTHS: u32 = 50;

/// How many rails a note names before it only counts them.
pub const RAIL_NOTE_NAMES: usize = 5;

/// The lowercased text that a name filter asks for; a blank one asks for none.
pub open spec fn wanted_name(name: Option<Seq<char>>) -> Option<Seq<char>> {
    match name {
        Some(n) => if trimmed(lowercase(n)).len() > 0 {
            Some(lowercase(n))
        } else {
            None
        },
        None => None,
    }
}

fn want_name(name: Option<&str>) -> (r: Option<String>)
    ensures
        opt_text(r) == wanted_name(opt_str(name)),
{
    match name {
        None => None,
        Some(n) => {
            let lc = n.to_lowercase();
            if trim_matches(lc.as_str(), &Whitespace).as_str().is_empty() {
                None
            } else {
                Some(lc)
            }
        },
    }
}

/// What a filter over nets asks for.
pub struct NetQuery {
    pub name: Option<Seq<char>>,
    pub filter: Option<Selector>,
    pub by_fanout: bool,
}

impl Design {
    /// A part on the net is on a sheet that the filter selects.
    pub open spec fn net_on(&self, f: Selector, n: int) -> bool {
        exists|i: int|
            0 <= i < self.net_pins(n).len() && selects(
                f,
                opt_text(self.components@[self.owner(#[trigger] self.net_pins(n)[i])].sheet),
            )
    }

    pub open spec fn net_passes(&self, n: int, q: NetQuery) -> bool {
        &&& q.name matches Some(t) ==> contains(lowercase(self.nets@[n].name@), t)
        &&& q.filter matches Some(f) ==> self.net_on(f, n)
    }

    /// The nets among the first `k` that pass a filter.
    pub open spec fn passing_nets(&self, k: int, q: NetQuery) -> Seq<int>
        decreases k,
    {
        if k <= 0 {
            Seq::empty()
        } else {
            let front = self.passing_nets(k - 1, q);
            if self.net_passes(k - 1, q) {
                front.push(k - 1)
            } else {
                front
            }
        }
    }

    /// A rail that a subsystem filter moves to the end: it reaches parts on nearly every
    /// sheet.
    pub open spec fn demoted(q: NetQuery, rails: Seq<RailReading>, n: int) -> bool {
        q.filter is Some && rails[n].hundredths >= RAIL_HUNDREDTHS
    }

    pub open spec fn net_key(&self, n: int, q: NetQuery, rails: Seq<RailReading>) -> Key {
        seq![
            Mark::Number(
                if Self::demoted(q, rails, n) {
                    1
                } else {
                    0
                },
            ),
        ] + (if q.by_fanout {
            self.fanout_key(n)
        } else {
            seq![Mark::Text(self.nets@[n].name@)]
        })
    }

    /// The nets with rails last, and the busiest or the alphabetically first before
    /// others.
    pub open spec fn in_net_order(
        &self,
        s: Seq<int>,
        q: NetQuery,
        rails: Seq<RailReading>,
    ) -> Seq<int> {
        arranged(s, ranked(s.map_values(|n: int| self.net_key(n, q, rails))))
    }

    pub open spec fn demoted_count(q: NetQuery, rails: Seq<RailReading>, s: Seq<int>) -> nat {
        count_where(|n: int| Self::demoted(q, rails, n), s)
    }

    pub open spec fn names_of(&self, s: Seq<int>) -> Seq<Seq<char>> {
        s.map_values(|n: int| self.nets@[n].name@)
    }

    /// The names of the first few of the last `k` nets, and how many more there are.
    pub open spec fn named_rails(&self, s: Seq<int>, k: int) -> Seq<char> {
        let shown = if k < RAIL_NOTE_NAMES {
            k
        } else {
            RAIL_NOTE_NAMES as int
        };
        let start = s.len() - k;
        let named = joined(self.names_of(s.subrange(start, start + shown)), ", "@);
        if k > shown {
            named + ", +"@ + decimal((k - shown) as nat) + " more"@
        } else {
            named
        }
    }

    /// What is said of rails that were moved to the end.
    pub open spec fn rail_note(&self, s: Seq<int>, k: nat) -> Option<Seq<char>> {
        if k == 0 {
            None
        } else {
            Some(
                decimal(k) + " power/ground rail(s) sorted last: "@ + self.named_rails(s, k as int)
                    + ". A rail reaches parts on nearly every sheet, so it matches this subsystem without belonging to it. They are the final "@
                    + decimal(k) + " of "@ + decimal(s.len()) + " matches, from offset "@
                    + decimal((s.len() - k) as nat)
                    + " — request that offset if this page stops short of them."@,
            )
        }
    }

    pub open spec fn net_row_is(
        &self,
        r: NetRow,
        n: int,
        q: NetQuery,
        rails: Seq<RailReading>,
    ) -> bool {
        let net = self.nets@[n];
        &&& r.name == net.name
        &&& r.code == net.code
        &&& r.fanout == self.net_pins(n).len()
        &&& r.pin_types@ == net.pin_types@
        &&& exists|h: super::sheets::NetHierarchy| #[trigger]
            hierarchy_is(h, net.name@, texts(self.sheet_paths@)) && r.sheet_path == h.sheet_path
                && r.depth == h.depth
        &&& r.rail_hundredths == (if q.filter is Some {
            Some(rails[n].hundredths)
        } else {
            None
        })
    }

    /// The answer holds a page of the nets that pass, rails last.
    pub open spec fn nets_answer(
        &self,
        e: NetEnvelope,
        q: NetQuery,
        note: Option<Seq<char>>,
        limit: u32,
        offset: u32,
        rails: Seq<RailReading>,
    ) -> bool {
        let all = self.in_net_order(self.passing_nets(self.nets.len() as int, q), q, rails);
        let shown = page(all, offset as int, limit as int);
        &&& e.total == all.len()
        &&& e.offset == offset
        &&& e.limit == limit
        &&& e.returned == e.rows.len()
        &&& opt_text(e.subsystem_note) == note
        &&& opt_text(e.rail_note) == self.rail_note(all, Self::demoted_count(q, rails, all))
        &&& e.rows.len() == shown.len()
        &&& forall|i: int|
            0 <= i < shown.len() ==> self.net_row_is(#[trigger] e.rows@[i], shown[i], q, rails)
    }

    fn reaches_sheet(&self, net: &Net, filter: &SubsystemFilter) -> (r: bool)
        requires
            self.wf(),
            self.has_net(net),
        ensures
            r == self.net_on(filter@, net.id.0 as int),
    {
        let ghost ids = self.net_pins(net.id.0 as int);
        let mut i: usize = 0;
        proof {
            lemma_lists_in_range(self);
        }
        while i < net.pins.len()
            invariant
                i <= net.pins.len(),
                self.wf(),
                self.has_net(net),
                ids == self.net_pins(net.id.0 as int),
                self.known_pins(net.pins@),
                forall|k: int|
                    0 <= k < i ==> !selects(
                        filter@,
                        opt_text(self.components@[self.owner(#[trigger] ids[k])].sheet),
                    ),
            decreases net.pins.len() - i,
        {
            assert(ids[i as int] == net.pins@[i as int].0);
            let comp = &self.components[self.pins[net.pins[i].0].comp.0];
            if let Some(sheet) = &comp.sheet {
                if filter.matches(Some(sheet.as_str())) {
                    return true;
                }
            }
            i += 1;
        }
        false
    }

    fn test_net(
        &self,
        n: usize,
        name: &Option<String>,
        filter: &Option<SubsystemFilter>,
        Ghost(q): Ghost<NetQuery>,
    ) -> (r: bool)
        requires
            self.wf(),
            n < self.nets.len(),
            opt_text(*name) == q.name,
            opt_view(*filter) == q.filter,
        ensures
            r == self.net_passes(n as int, q),
    {
        let net = &self.nets[n];
        assert(self.nets@[n as int].id.0 == n);
        if let Some(t) = name {
            if !text_contains(net.name.as_str().to_lowercase().as_str(), t.as_str()) {
                return false;
            }
        }
        match filter {
            Some(f) => self.reaches_sheet(net, f),
            None => true,
        }
    }

    fn sort_nets(
        &self,
        ids: &Vec<usize>,
        scored: bool,
        by_fanout: bool,
        rails: &Vec<RailReading>,
        Ghost(q): Ghost<NetQuery>,
    ) -> (r: Vec<usize>)
        requires
            rails.len() == self.nets.len(),
            forall|i: int| 0 <= i < ids.len() ==> #[trigger] ids@[i] < self.nets.len(),
            scored == (q.filter is Some),
            by_fanout == q.by_fanout,
        ensures
            places(r@) == self.in_net_order(places(ids@), q, rails@),
            r.len() == ids.len(),
            forall|i: int| 0 <= i < r.len() ==> #[trigger] r@[i] < self.nets.len(),
    {
        let ghost s = places(ids@);
        let mut keys: Vec<Vec<Part>> = Vec::new();
        let mut i: usize = 0;
        while i < ids.len()
            invariant
                i <= ids.len(),
                keys.len() == i,
                s == places(ids@),
                rails.len() == self.nets.len(),
                scored == (q.filter is Some),
                by_fanout == q.by_fanout,
                forall|i: int| 0 <= i < ids.len() ==> #[trigger] ids@[i] < self.nets.len(),
                forall|k: int|
                    0 <= k < i ==> key_of((#[trigger] keys@[k])@) == self.net_key(s[k], q, rails@),
            decreases ids.len() - i,
        {
            let n: usize = ids[i];
            let net = &self.nets[n];
            let mut key: Vec<Part> = Vec::new();
            if scored && rails[n].hundredths >= RAIL_HUNDREDTHS {
                key.push(Part::Up(1));
            } else {
                key.push(Part::Up(0));
            }
            if by_fanout {
                key.push(Part::Down(net.pins.len()));
            }
            key.push(Part::Text(net.name.clone()));
            assert(key_of(key@) =~= self.net_key(s[i as int], q, rails@));
            keys.push(key);
            i += 1;
        }
        let order = rank(&keys);
        assert(keys_of(keys@) =~= s.map_values(|n: int| self.net_key(n, q, rails@)));
        pick(ids, &order)
    }

    fn count_demoted(
        &self,
        ids: &Vec<usize>,
        scored: bool,
        rails: &Vec<RailReading>,
        Ghost(q): Ghost<NetQuery>,
    ) -> (r: usize)
        requires
            rails.len() == self.nets.len(),
            forall|i: int| 0 <= i < ids.len() ==> #[trigger] ids@[i] < self.nets.len(),
            scored == (q.filter is Some),
        ensures
            r == Self::demoted_count(q, rails@, places(ids@)),
            r <= ids.len(),
    {
        let ghost s = places(ids@);
        let ghost p = |n: int| Self::demoted(q, rails@, n);
        let mut count: usize = 0;
        let mut i: usize = 0;
        assert(s.take(0) =~= Seq::<int>::empty());
        while i < ids.len()
            invariant
                i <= ids.len(),
                s == places(ids@),
                p == (|n: int| Self::demoted(q, rails@, n)),
                rails.len() == self.nets.len(),
                scored == (q.filter is Some),
                forall|i: int| 0 <= i < ids.len() ==> #[trigger] ids@[i] < self.nets.len(),
                count <= i,
                count == count_where(p, s.take(i as int)),
            decreases ids.len() - i,
        {
            let ghost next = s.take(i + 1);
            assert(next.drop_last() =~= s.take(i as int));
            if scored && rails[ids[i]].hundredths >= RAIL_HUNDREDTHS {
                count += 1;
            }
            i += 1;
        }
        assert(s.take(s.len() as int) =~= s);
        count
    }

    fn name_rails(&self, ids: &Vec<usize>, k: usize) -> (r: String)
        requires
            k <= ids.len(),
            forall|i: int| 0 <= i < ids.len() ==> #[trigger] ids@[i] < self.nets.len(),
        ensures
            r@ == self.named_rails(places(ids@), k as int),
    {
        let ghost s = places(ids@);
        let shown: usize = if k < RAIL_NOTE_NAMES {
            k
        } else {
            RAIL_NOTE_NAMES
        };
        let start: usize = ids.len() - k;
        let mut names: Vec<String> = Vec::new();
        let mut i: usize = 0;
        while i < shown
            invariant
                i <= shown,
                start + shown <= ids.len(),
                s == places(ids@),
                names.len() == i,
                forall|j: int| 0 <= j < ids.len() ==> #[trigger] ids@[j] < self.nets.len(),
                forall|j: int| 0 <= j < i ==> (#[trigger] names@[j])@ == self.nets@[s[start + j]].name@,
            decreases shown - i,
        {
            names.push(self.nets[ids[start + i]].name.clone());
            i += 1;
        }
        let mut out = join_texts(&names, 0, shown, ", ");
        assert(texts(names@).subrange(0, shown as int) =~= self.names_of(
            s.subrange(start as int, start + shown),
        ));
        if k > shown {
            out.append(", +");
            out.append(decimal_text(k - shown).as_str());
            out.append(" more");
        }
        out
    }

    fn write_rail_note(&self, ids: &Vec<usize>, k: usize) -> (r: Option<String>)
        requires
            k <= ids.len(),
            forall|i: int| 0 <= i < ids.len() ==> #[trigger] ids@[i] < self.nets.len(),
        ensures
            opt_text(r) == self.rail_note(places(ids@), k as nat),
    {
        if k == 0 {
            return None;
        }
        let mut out = decimal_text(k);
        out.append(" power/ground rail(s) sorted last: ");
        out.append(self.name_rails(ids, k).as_str());
        out.append(
            ". A rail reaches parts on nearly every sheet, so it matches this subsystem without belonging to it. They are the final ",
        );
        out.append(decimal_text(k).as_str());
        out.append(" of ");
        out.append(decimal_text(ids.len()).as_str());
        out.append(" matches, from offset ");
        out.append(decimal_text(ids.len() - k).as_str());
        out.append(" — request that offset if this page stops short of them.");
        Some(out)
    }

    fn net_row(
        &self,
        n: usize,
        scored: bool,
        rails: &Vec<RailReading>,
        Ghost(q): Ghost<NetQuery>,
    ) -> (r: NetRow)
        requires
            n < self.nets.len(),
            rails.len() == self.nets.len(),
            scored == (q.filter is Some),
        ensures
            self.net_row_is(r, n as int, q, rails@),
    {
        let net = &self.nets[n];
        let hierarchy = self.net_hierarchy(net.name.as_str());
        let ghost h = hierarchy;
        let row = NetRow {
            name: net.name.clone(),
            code: net.code,
            fanout: net.pins.len(),
            pin_types: net.pin_types.copied_counts(),
            sheet_path: hierarchy.sheet_path,
            depth: hierarchy.depth,
            rail_hundredths: if scored {
                Some(rails[n].hundredths)
            } else {
                None
            },
        };
        assert(hierarchy_is(h, net.name@, texts(self.sheet_paths@)));
        row
    }

    /// The nets by name and subsystem: every one of them, cut to a page. Under a
    /// subsystem filter rails come last, since they match every subsystem; they are not
    /// left out.
    pub fn filter_nets(
        &self,
        name: Option<&str>,
        subsystem: Option<&str>,
        sort_by_fanout: bool,
        limit: u32,
        offset: u32,
        rails: &Vec<RailReading>,
    ) -> (r: NetEnvelope)
        requires
            self.wf(),
            rails.len() == self.nets.len(),
        ensures
            self.nets_answer(
                r,
                NetQuery {
                    name: wanted_name(opt_str(name)),
                    filter: self.filter_for(opt_str(subsystem)),
                    by_fanout: sort_by_fanout,
                },
                self.note_for(opt_str(subsystem)),
                limit,
                offset,
                rails@,
            ),
    {
        let name_lc = want_name(name);
        let (filter, subsystem_note) = self.subsystem_filter(subsystem);
        let ghost q = NetQuery {
            name: wanted_name(opt_str(name)),
            filter: self.filter_for(opt_str(subsystem)),
            by_fanout: sort_by_fanout,
        };
        let scored = filter.is_some();
        let mut matches: Vec<usize> = Vec::new();
        let mut i: usize = 0;
        assert(places(matches@) =~= Seq::<int>::empty());
        while i < self.nets.len()
            invariant
                i <= self.nets.len(),
                self.wf(),
                opt_text(name_lc) == q.name,
                opt_view(filter) == q.filter,
                places(matches@) == self.passing_nets(i as int, q),
                forall|k: int| 0 <= k < matches.len() ==> #[trigger] matches@[k] < self.nets.len(),
            decreases self.nets.len() - i,
        {
            let ghost was = matches@;
            if self.test_net(i, &name_lc, &filter, Ghost(q)) {
                matches.push(i);
                assert(places(matches@) =~= places(was).push(i as int));
            }
            i += 1;
        }
        let sorted = self.sort_nets(&matches, scored, sort_by_fanout, rails, Ghost(q));
        let demoted = self.count_demoted(&sorted, scored, rails, Ghost(q));
        let rail_note = self.write_rail_note(&sorted, demoted);
        let ghost all = places(sorted@);
        let (from, to) = page_bounds(sorted.len(), offset, limit);
        let ghost shown = page(all, offset as int, limit as int);
        let mut rows: Vec<NetRow> = Vec::new();
        let mut k: usize = from;
        while k < to
            invariant
                from <= k <= to <= sorted.len(),
                all == places(sorted@),
                shown == all.subrange(from as int, to as int),
                rows.len() == k - from,
                rails.len() == self.nets.len(),
                scored == (q.filter is Some),
                forall|j: int| 0 <= j < sorted.len() ==> #[trigger] sorted@[j] < self.nets.len(),
                forall|j: int|
                    0 <= j < rows.len() ==> self.net_row_is(
                        #[trigger] rows@[j],
                        shown[j],
                        q,
                        rails@,
                    ),
            decreases to - k,
        {
            assert(shown[k - from] == sorted@[k as int]);
            rows.push(self.net_row(sorted[k], scored, rails, Ghost(q)));
            k += 1;
        }
        NetEnvelope {
            total: sorted.len(),
            offset,
            limit,
            returned: rows.len(),
            subsystem_note,
            rail_note,
            rows,
        }
    }
}

/// Filtering nets drops none for being a rail and puts all rails last: they are the final
/// items of the list, as many as are counted. Without a subsystem filter none is moved.
pub proof fn lemma_rails_last(d: &Design, s: Seq<int>, q: NetQuery, rails: Seq<RailReading>)
    ensures
        d.in_net_order(s, q, rails).len() == s.len(),
        forall|n: int| #[trigger]
            d.in_net_order(s, q, rails).contains(n) <==> s.contains(n),
        forall|i: int|
            0 <= i < s.len() ==> (Design::demoted(
                q,
                rails,
                #[trigger] d.in_net_order(s, q, rails)[i],
            ) <==> i >= s.len() - Design::demoted_count(q, rails, d.in_net_order(s, q, rails))),
        q.filter is None ==> Design::demoted_count(q, rails, d.in_net_order(s, q, rails)) == 0,
{
    let keys = s.map_values(|n: int| d.net_key(n, q, rails));
    let p = ranked(keys);
    lemma_ranked(keys);
    let all = d.in_net_order(s, q, rails);
    let low = |n: int| Design::demoted(q, rails, n);
    assert forall|i: int, j: int| 0 <= i < j < all.len() && low(#[trigger] all[i]) implies low(
        #[trigger] all[j],
    ) by {
        let a = keys[p[i]];
        let b = keys[p[j]];
        assert(!(key_order(a, b) is Greater));
        assert(a == d.net_key(s[p[i]], q, rails) && b == d.net_key(s[p[j]], q, rails));
        assert(a[0] == Mark::Number(1));
    }
    lemma_count_at_end(low, all);
    lemma_count_where(low, all);
    assert forall|n: int| #[trigger] all.contains(n) <==> s.contains(n) by {
        if all.contains(n) {
            let i = choose|i: int| 0 <= i < all.len() && all[i] == n;
            assert(s[p[i]] == n);
        }
        if s.contains(n) {
            let k = choose|k: int| 0 <= k < s.len() && s[k] == n;
            assert(p.contains(k));
            let i = choose|i: int| 0 <= i < p.len() && p[i] == k;
            assert(all[i] == n);
        }
    }
}

} // verus!
