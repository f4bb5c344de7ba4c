//! The design at a glance: its subsystems, classes, rails, connectors and busiest nets.
use vstd::prelude::*;

use super::classes::{class_of, in_connector_classes, is_connector_class, refdes_class};
use super::details::copy_texts;
use super::filter::pick;
use super::rails::RailReading;
use super::sheets::{display_name, subsystem_display_name};
use super::{Component, Design};
use crate::lists::{arranged, page};
use crate::parser::netlist::opt_text;
use crate::ranking::{key_of, keys_of, places, rank, ranked, Key, Mark, Part};
use crate::tally::{distinct, labels, lemma_counts_add_up, occurrences, tally, total};
use crate::text::copy_text;

verus! {

/// One subsystem: its sheet path, or none for parts on no sheet, and how many parts are
/// on it.
#[derive(Debug)]
pub struct SubsystemRow {
    pub path: Option<String>,
    pub name: String,
    pub component_count: usize,
}

/// The subsystems of a design.
#[derive(Debug)]
pub struct SubsystemEnvelope {
    pub total_components: usize,
    pub subsystem_count: usize,
    pub subsystems: Vec<SubsystemRow>,
}

#[derive(Debug)]
pub struct OverviewCounts {
    pub components: usize,
    pub nets: usize,
    pub pins: usize,
    /// Parts that are not to be fitted. They are in every net and every walk.
    pub dnp_components: usize,
    /// Parts that are left out of the bill of materials.
    pub bom_excluded_components: usize,
}

/// One class of parts and how many there are.
#[derive(Debug)]
pub struct RefdesClassRow {
    pub class: String,
    pub count: usize,
}

/// One net that counts as a rail.
#[derive(Debug)]
pub struct RailRow {
    pub net: String,
    pub fanout: usize,
    /// The rail score in hundredths.
    pub hundredths: u32,
    pub evidence: Vec<String>,
}

/// One connector.
#[derive(Debug)]
pub struct ConnectorRow {
    pub refdes: String,
    pub value: String,
    pub pin_count: usize,
    pub dnp: bool,
}

/// One subsystem by name and size.
#[derive(Debug)]
pub struct SubsystemSummaryRow {
    pub name: String,
    pub component_count: usize,
}

/// One net by name and size.
#[derive(Debug)]
pub struct NetFanoutRow {
    pub net: String,
    pub fanout: usize,
}

/// The design at a glance.
#[derive(Debug)]
pub struct OverviewEnvelope {
    pub counts: OverviewCounts,
    pub refdes_classes: Vec<RefdesClassRow>,
    pub rails: Vec<RailRow>,
    pub connectors: Vec<ConnectorRow>,
    pub subsystems: Vec<SubsystemSummaryRow>,
    pub top_nets_by_fanout: Vec<NetFanoutRow>,
}

/// How many rails an overview shows.
pub const OVERVIEW_RAILS: usize = 25;

/// How many connectors an overview shows.
pub const OVERVIEW_CONNECTORS: usize = 50;

/// How many subsystems an overview shows.
pub const OVERVIEW_SUBSYSTEMS: usize = 15;

/// How many nets an overview shows.
pub const OVERVIEW_NETS: usize = 15;

/// The subsystem that a part is in, none for a part on no sheet or a blank one.
pub open spec fn subsystem_of(c: Component) -> Option<Seq<char>> {
    match opt_text(c.sheet) {
        Some(s) => if s.len() > 0 {
            Some(s)
        } else {
            None
        },
        None => None,
    }
}

/// The name that a subsystem is shown under.
pub open spec fn subsystem_name(g: Option<Seq<char>>) -> Seq<char> {
    match g {
        Some(path) => display_name(path),
        None => "(unassigned)"@,
    }
}

/// What counted groups are sorted by: the largest first, and by name where they tie.
pub open spec fn group_key(n: nat, name: Seq<char>) -> Key {
    seq![Mark::Number(-(n as int)), Mark::Text(name)]
}

impl Design {
    pub open spec fn subsystem_labels(&self) -> Seq<Option<Seq<char>>> {
        self.components@.map_values(|c: Component| subsystem_of(c))
    }

    pub open spec fn class_labels(&self) -> Seq<Option<Seq<char>>> {
        self.components@.map_values(|c: Component| Some(class_of(c.refdes@)))
    }

    pub open spec fn subsystem_size(&self, g: Option<Seq<char>>) -> nat {
        occurrences(self.subsystem_labels(), g)
    }

    /// The subsystems, the largest first.
    pub open spec fn subsystems(&self) -> Seq<Option<Seq<char>>> {
        let all = distinct(self.subsystem_labels());
        arranged(
            all,
            ranked(
                all.map_values(
                    |g: Option<Seq<char>>| group_key(self.subsystem_size(g), subsystem_name(g)),
                ),
            ),
        )
    }

    /// The classes of parts, the largest first.
    pub open spec fn classes(&self) -> Seq<Option<Seq<char>>> {
        let all = distinct(self.class_labels());
        arranged(
            all,
            ranked(
                all.map_values(
                    |g: Option<Seq<char>>|
                        group_key(occurrences(self.class_labels(), g), g.unwrap()),
                ),
            ),
        )
    }

    pub open spec fn subsystem_row_is(&self, r: SubsystemRow, g: Option<Seq<char>>) -> bool {
        opt_text(r.path) == g && r.name@ == subsystem_name(g) && r.component_count
            == self.subsystem_size(g)
    }

    pub open spec fn subsystem_rows_are(
        &self,
        v: Seq<SubsystemRow>,
        s: Seq<Option<Seq<char>>>,
    ) -> bool {
        v.len() == s.len() && forall|i: int|
            0 <= i < v.len() ==> self.subsystem_row_is(#[trigger] v[i], s[i])
    }

    /// The components' subsystems.
    fn list_labels(&self) -> (r: Vec<Option<String>>)
        ensures
            labels(r@) == self.subsystem_labels(),
    {
        let mut out: Vec<Option<String>> = Vec::new();
        let mut i: usize = 0;
        while i < self.components.len()
            invariant
                i <= self.components.len(),
                out.len() == i,
                forall|k: int|
                    0 <= k < i ==> opt_text(#[trigger] out@[k]) == subsystem_of(
                        self.components@[k],
                    ),
            decreases self.components.len() - i,
        {
            let label = match &self.components[i].sheet {
                Some(s) => if s.as_str().is_empty() {
                    None
                } else {
                    Some(s.clone())
                },
                None => None,
            };
            out.push(label);
            i += 1;
        }
        assert(labels(out@) =~= self.subsystem_labels());
        out
    }

    fn count_subsystems(&self) -> (r: Vec<SubsystemRow>)
        ensures
            self.subsystem_rows_are(r@, self.subsystems()),
    {
        let list = self.list_labels();
        let (paths, counts) = tally(&list);
        let ghost all = distinct(self.subsystem_labels());
        let mut rows: Vec<SubsystemRow> = Vec::new();
        let mut keys: Vec<Vec<Part>> = Vec::new();
        let mut i: usize = 0;
        while i < paths.len()
            invariant
                i <= paths.len(),
                counts.len() == paths.len(),
                labels(paths@) == all,
                forall|k: int|
                    0 <= k < counts.len() ==> #[trigger] counts@[k] == self.subsystem_size(all[k]),
                rows.len() == i,
                keys.len() == i,
                forall|k: int|
                    0 <= k < i ==> self.subsystem_row_is(#[trigger] rows@[k], all[k]),
                forall|k: int|
                    0 <= k < i ==> key_of((#[trigger] keys@[k])@) == group_key(
                        self.subsystem_size(all[k]),
                        subsystem_name(all[k]),
                    ),
            decreases paths.len() - i,
        {
            assert(all[i as int] == opt_text(paths@[i as int]));
            let name = match &paths[i] {
                Some(path) => subsystem_display_name(path.as_str()),
                None => "(unassigned)".to_owned(),
            };
            let mut key: Vec<Part> = Vec::new();
            key.push(Part::Down(counts[i]));
            key.push(Part::Text(name.clone()));
            assert(key_of(key@) =~= group_key(
                self.subsystem_size(all[i as int]),
                subsystem_name(all[i as int]),
            ));
            keys.push(key);
            rows.push(
                SubsystemRow { path: copy_text(&paths[i]), name, component_count: counts[i] },
            );
            i += 1;
        }
        let order = rank(&keys);
        proof {
            assert(keys_of(keys@) =~= all.map_values(
                |g: Option<Seq<char>>| group_key(self.subsystem_size(g), subsystem_name(g)),
            ));
            crate::ranking::lemma_ranked(keys_of(keys@));
        }
        let ghost before = rows@;
        let sorted = crate::ranking::arrange(rows, &order);
        proof {
            let p = places(order@);
            assert forall|k: int| 0 <= k < sorted.len() implies self.subsystem_row_is(
                #[trigger] sorted@[k],
                self.subsystems()[k],
            ) by {
                assert(self.subsystem_row_is(before[p[k]], all[p[k]]));
            }
        }
        sorted
    }

    /// The sheets that parts are on and how many are on each; parts on none are a
    /// subsystem of their own.
    pub fn list_subsystems(&self) -> (r: SubsystemEnvelope)
        ensures
            r.total_components == self.components.len(),
            r.subsystem_count == r.subsystems.len(),
            self.subsystem_rows_are(r.subsystems@, self.subsystems()),
    {
        let subsystems = self.count_subsystems();
        SubsystemEnvelope {
            total_components: self.components.len(),
            subsystem_count: subsystems.len(),
            subsystems,
        }
    }

    fn count_classes(&self) -> (r: Vec<RefdesClassRow>)
        ensures
            r.len() == self.classes().len(),
            forall|i: int|
                0 <= i < r.len() ==> Some((#[trigger] r@[i]).class@) == self.classes()[i]
                    && r@[i].count == occurrences(self.class_labels(), self.classes()[i]),
    {
        let mut list: Vec<Option<String>> = Vec::new();
        let mut c: usize = 0;
        while c < self.components.len()
            invariant
                c <= self.components.len(),
                list.len() == c,
                forall|k: int|
                    0 <= k < c ==> opt_text(#[trigger] list@[k]) == Some(
                        class_of(self.components@[k].refdes@),
                    ),
            decreases self.components.len() - c,
        {
            list.push(Some(refdes_class(self.components[c].refdes.as_str())));
            c += 1;
        }
        assert(labels(list@) =~= self.class_labels());
        let (names, counts) = tally(&list);
        let ghost all = distinct(self.class_labels());
        proof {
            crate::tally::lemma_distinct(self.class_labels());
        }
        let mut rows: Vec<RefdesClassRow> = Vec::new();
        let mut keys: Vec<Vec<Part>> = Vec::new();
        let mut i: usize = 0;
        while i < names.len()
            invariant
                i <= names.len(),
                counts.len() == names.len(),
                labels(names@) == all,
                forall|g: Option<Seq<char>>| #[trigger]
                    all.contains(g) <==> self.class_labels().contains(g),
                forall|k: int|
                    0 <= k < counts.len() ==> #[trigger] counts@[k] == occurrences(
                        self.class_labels(),
                        all[k],
                    ),
                rows.len() == i,
                keys.len() == i,
                forall|k: int|
                    0 <= k < i ==> Some((#[trigger] rows@[k]).class@) == all[k] && rows@[k].count
                        == occurrences(self.class_labels(), all[k]),
                forall|k: int|
                    0 <= k < i ==> key_of((#[trigger] keys@[k])@) == group_key(
                        occurrences(self.class_labels(), all[k]),
                        all[k].unwrap(),
                    ),
            decreases names.len() - i,
        {
            assert(all[i as int] == opt_text(names@[i as int]));
            assert(all.contains(all[i as int]));
            let class = match &names[i] {
                Some(class) => class.clone(),
                None => String::new(),
            };
            proof {
                let k = choose|k: int|
                    0 <= k < self.class_labels().len() && self.class_labels()[k] == all[i as int];
                assert(all[i as int] is Some);
            }
            let mut key: Vec<Part> = Vec::new();
            key.push(Part::Down(counts[i]));
            key.push(Part::Text(class.clone()));
            assert(key_of(key@) =~= group_key(
                occurrences(self.class_labels(), all[i as int]),
                all[i as int].unwrap(),
            ));
            keys.push(key);
            rows.push(RefdesClassRow { class, count: counts[i] });
            i += 1;
        }
        let order = rank(&keys);
        proof {
            assert(keys_of(keys@) =~= all.map_values(
                |g: Option<Seq<char>>| group_key(occurrences(self.class_labels(), g), g.unwrap()),
            ));
            crate::ranking::lemma_ranked(keys_of(keys@));
        }
        let ghost before = rows@;
        let sorted = crate::ranking::arrange(rows, &order);
        proof {
            let p = places(order@);
            assert forall|k: int| 0 <= k < sorted.len() implies Some(
                (#[trigger] sorted@[k]).class@,
            ) == self.classes()[k] && sorted@[k].count == occurrences(
                self.class_labels(),
                self.classes()[k],
            ) by {
                assert(Some(before[p[k]].class@) == all[p[k]]);
            }
        }
        sorted
    }

    /// The rails among the first `k` nets.
    pub open spec fn rail_nets(rails: Seq<RailReading>, k: int) -> Seq<int>
        decreases k,
    {
        if k <= 0 {
            Seq::empty()
        } else if rails[k - 1].rail {
            Self::rail_nets(rails, k - 1).push(k - 1)
        } else {
            Self::rail_nets(rails, k - 1)
        }
    }

    /// The surest rails first, and the busier where they tie.
    pub open spec fn surest_first(&self, s: Seq<int>, rails: Seq<RailReading>) -> Seq<int> {
        arranged(
            s,
            ranked(
                s.map_values(
                    |n: int|
                        seq![
                            Mark::Number(-(rails[n].hundredths as int)),
                            Mark::Number(-(self.net_pins(n).len() as int)),
                        ],
                ),
            ),
        )
    }

    pub open spec fn shown_rails(&self, rails: Seq<RailReading>) -> Seq<int> {
        page(
            self.surest_first(Self::rail_nets(rails, self.nets.len() as int), rails),
            0,
            OVERVIEW_RAILS as int,
        )
    }

    pub open spec fn rail_row_is(&self, r: RailRow, n: int, rails: Seq<RailReading>) -> bool {
        r.net == self.nets@[n].name && r.fanout == self.net_pins(n).len() && r.hundredths
            == rails[n].hundredths && r.evidence@ == rails[n].evidence@
    }

    fn list_rails(&self, rails: &Vec<RailReading>) -> (r: Vec<RailRow>)
        requires
            rails.len() == self.nets.len(),
        ensures
            r.len() == self.shown_rails(rails@).len(),
            forall|i: int|
                0 <= i < r.len() ==> self.rail_row_is(
                    #[trigger] r@[i],
                    self.shown_rails(rails@)[i],
                    rails@,
                ),
    {
        let mut ids: Vec<usize> = Vec::new();
        let mut keys: Vec<Vec<Part>> = Vec::new();
        let mut i: usize = 0;
        assert(places(ids@) =~= Seq::<int>::empty());
        while i < self.nets.len()
            invariant
                i <= self.nets.len(),
                rails.len() == self.nets.len(),
                places(ids@) == Self::rail_nets(rails@, i as int),
                keys.len() == ids.len(),
                forall|k: int| 0 <= k < ids.len() ==> #[trigger] ids@[k] < self.nets.len(),
                forall|k: int|
                    0 <= k < keys.len() ==> key_of((#[trigger] keys@[k])@) == seq![
                        Mark::Number(-(rails@[ids@[k] as int].hundredths as int)),
                        Mark::Number(-(self.net_pins(ids@[k] as int).len() as int)),
                    ],
            decreases self.nets.len() - i,
        {
            let ghost was = ids@;
            if rails[i].rail {
                ids.push(i);
                assert(places(ids@) =~= places(was).push(i as int));
                let mut key: Vec<Part> = Vec::new();
                key.push(Part::Down(rails[i].hundredths as usize));
                key.push(Part::Down(self.nets[i].pins.len()));
                assert(key_of(key@) =~= seq![
                    Mark::Number(-(rails@[i as int].hundredths as int)),
                    Mark::Number(-(self.net_pins(i as int).len() as int)),
                ]);
                keys.push(key);
            }
            i += 1;
        }
        let order = rank(&keys);
        let ghost all = places(ids@);
        assert(keys_of(keys@) =~= all.map_values(
            |n: int|
                seq![
                    Mark::Number(-(rails@[n].hundredths as int)),
                    Mark::Number(-(self.net_pins(n).len() as int)),
                ],
        ));
        let sorted = pick(&ids, &order);
        let ghost shown = self.shown_rails(rails@);
        let mut rows: Vec<RailRow> = Vec::new();
        let mut k: usize = 0;
        while k < sorted.len() && k < OVERVIEW_RAILS
            invariant
                k <= sorted.len(),
                k <= OVERVIEW_RAILS,
                rails.len() == self.nets.len(),
                shown == page(places(sorted@), 0, OVERVIEW_RAILS as int),
                forall|j: int| 0 <= j < sorted.len() ==> #[trigger] sorted@[j] < self.nets.len(),
                rows.len() == k,
                forall|j: int| 0 <= j < k ==> self.rail_row_is(#[trigger] rows@[j], shown[j], rails@),
            decreases sorted.len() - k,
        {
            let n: usize = sorted[k];
            assert(shown[k as int] == n);
            rows.push(
                RailRow {
                    net: self.nets[n].name.clone(),
                    fanout: self.nets[n].pins.len(),
                    hundredths: rails[n].hundredths,
                    evidence: copy_texts(&rails[n].evidence),
                },
            );
            k += 1;
        }
        rows
    }

    /// The connectors among the first `k` components.
    pub open spec fn connector_list(&self, k: int) -> Seq<int>
        decreases k,
    {
        if k <= 0 {
            Seq::empty()
        } else if is_connector_class(self.class(k - 1)) {
            self.connector_list(k - 1).push(k - 1)
        } else {
            self.connector_list(k - 1)
        }
    }

    pub open spec fn shown_connectors(&self) -> Seq<int> {
        page(
            self.by_refdes(self.connector_list(self.components.len() as int)),
            0,
            OVERVIEW_CONNECTORS as int,
        )
    }

    pub open spec fn connector_is(&self, r: ConnectorRow, c: int) -> bool {
        let comp = self.components@[c];
        r.refdes == comp.refdes && r.value == comp.value && r.pin_count == self.comp_pins(c).len()
            && r.dnp == comp.dnp
    }

    fn list_connectors(&self) -> (r: Vec<ConnectorRow>)
        ensures
            r.len() == self.shown_connectors().len(),
            forall|i: int|
                0 <= i < r.len() ==> self.connector_is(
                    #[trigger] r@[i],
                    self.shown_connectors()[i],
                ),
    {
        let mut ids: Vec<usize> = Vec::new();
        let mut i: usize = 0;
        assert(places(ids@) =~= Seq::<int>::empty());
        while i < self.components.len()
            invariant
                i <= self.components.len(),
                places(ids@) == self.connector_list(i as int),
                forall|k: int| 0 <= k < ids.len() ==> #[trigger] ids@[k] < self.components.len(),
            decreases self.components.len() - i,
        {
            let ghost was = ids@;
            let class = refdes_class(self.components[i].refdes.as_str());
            if in_connector_classes(class.as_str()) {
                ids.push(i);
                assert(places(ids@) =~= places(was).push(i as int));
            }
            i += 1;
        }
        let sorted = self.sort_components(&ids);
        let ghost shown = self.shown_connectors();
        let mut rows: Vec<ConnectorRow> = Vec::new();
        let mut k: usize = 0;
        while k < sorted.len() && k < OVERVIEW_CONNECTORS
            invariant
                k <= sorted.len(),
                k <= OVERVIEW_CONNECTORS,
                shown == page(places(sorted@), 0, OVERVIEW_CONNECTORS as int),
                forall|j: int|
                    0 <= j < sorted.len() ==> #[trigger] sorted@[j] < self.components.len(),
                rows.len() == k,
                forall|j: int| 0 <= j < k ==> self.connector_is(#[trigger] rows@[j], shown[j]),
            decreases sorted.len() - k,
        {
            let comp = &self.components[sorted[k]];
            assert(shown[k as int] == sorted@[k as int]);
            rows.push(
                ConnectorRow {
                    refdes: comp.refdes.clone(),
                    value: comp.value.clone(),
                    pin_count: comp.pins.len(),
                    dnp: comp.dnp,
                },
            );
            k += 1;
        }
        rows
    }

    pub open spec fn all_nets(&self) -> Seq<int> {
        Seq::new(self.nets.len() as nat, |n: int| n)
    }

    pub open spec fn shown_nets(&self) -> Seq<int> {
        page(self.busiest_first(self.all_nets()), 0, OVERVIEW_NETS as int)
    }

    fn list_busiest(&self) -> (r: Vec<NetFanoutRow>)
        ensures
            r.len() == self.shown_nets().len(),
            forall|i: int|
                0 <= i < r.len() ==> (#[trigger] r@[i]).net == self.nets@[self.shown_nets()[i]].name
                    && r@[i].fanout == self.net_pins(self.shown_nets()[i]).len(),
    {
        let mut ids: Vec<usize> = Vec::new();
        let mut keys: Vec<Vec<Part>> = Vec::new();
        let mut i: usize = 0;
        while i < self.nets.len()
            invariant
                i <= self.nets.len(),
                ids.len() == i,
                keys.len() == i,
                forall|k: int| 0 <= k < i ==> #[trigger] ids@[k] == k,
                forall|k: int| 0 <= k < i ==> key_of((#[trigger] keys@[k])@) == self.fanout_key(k),
            decreases self.nets.len() - i,
        {
            ids.push(i);
            let mut key: Vec<Part> = Vec::new();
            key.push(Part::Down(self.nets[i].pins.len()));
            key.push(Part::Text(self.nets[i].name.clone()));
            assert(key_of(key@) =~= self.fanout_key(i as int));
            keys.push(key);
            i += 1;
        }
        assert(places(ids@) =~= self.all_nets());
        let order = rank(&keys);
        assert(keys_of(keys@) =~= self.all_nets().map_values(|n: int| self.fanout_key(n)));
        let sorted = pick(&ids, &order);
        let ghost shown = self.shown_nets();
        let mut rows: Vec<NetFanoutRow> = Vec::new();
        let mut k: usize = 0;
        while k < sorted.len() && k < OVERVIEW_NETS
            invariant
                k <= sorted.len(),
                k <= OVERVIEW_NETS,
                shown == page(places(sorted@), 0, OVERVIEW_NETS as int),
                forall|j: int| 0 <= j < sorted.len() ==> #[trigger] sorted@[j] < self.nets.len(),
                rows.len() == k,
                forall|j: int|
                    0 <= j < k ==> (#[trigger] rows@[j]).net == self.nets@[shown[j]].name
                        && rows@[j].fanout == self.net_pins(shown[j]).len(),
            decreases sorted.len() - k,
        {
            let net = &self.nets[sorted[k]];
            assert(shown[k as int] == sorted@[k as int]);
            rows.push(NetFanoutRow { net: net.name.clone(), fanout: net.pins.len() });
            k += 1;
        }
        rows
    }

    /// How many of the first `k` components are not to be fitted.
    pub open spec fn dnp_count(&self, k: int) -> nat
        decreases k,
    {
        if k <= 0 {
            0
        } else {
            self.dnp_count(k - 1) + (if self.components@[k - 1].dnp {
                1nat
            } else {
                0nat
            })
        }
    }

    /// How many of the first `k` components are left out of the bill of materials.
    pub open spec fn excluded_count(&self, k: int) -> nat
        decreases k,
    {
        if k <= 0 {
            0
        } else {
            self.excluded_count(k - 1) + (if self.components@[k - 1].exclude_from_bom {
                1nat
            } else {
                0nat
            })
        }
    }

    fn count_all(&self) -> (r: OverviewCounts)
        ensures
            r.components == self.components.len(),
            r.nets == self.nets.len(),
            r.pins == self.pins.len(),
            r.dnp_components == self.dnp_count(self.components.len() as int),
            r.bom_excluded_components == self.excluded_count(self.components.len() as int),
    {
        let mut dnp: usize = 0;
        let mut excluded: usize = 0;
        let mut i: usize = 0;
        while i < self.components.len()
            invariant
                i <= self.components.len(),
                dnp <= i,
                excluded <= i,
                dnp == self.dnp_count(i as int),
                excluded == self.excluded_count(i as int),
            decreases self.components.len() - i,
        {
            if self.components[i].dnp {
                dnp += 1;
            }
            if self.components[i].exclude_from_bom {
                excluded += 1;
            }
            i += 1;
        }
        OverviewCounts {
            components: self.components.len(),
            nets: self.nets.len(),
            pins: self.pins.len(),
            dnp_components: dnp,
            bom_excluded_components: excluded,
        }
    }

    /// The answer sums the design up.
    pub open spec fn overview_answer(&self, e: OverviewEnvelope, rails: Seq<RailReading>) -> bool {
        let groups = page(self.subsystems(), 0, OVERVIEW_SUBSYSTEMS as int);
        &&& e.counts.components == self.components.len()
        &&& e.counts.nets == self.nets.len()
        &&& e.counts.pins == self.pins.len()
        &&& e.counts.dnp_components == self.dnp_count(self.components.len() as int)
        &&& e.counts.bom_excluded_components == self.excluded_count(self.components.len() as int)
        &&& e.refdes_classes.len() == self.classes().len()
        &&& forall|i: int|
            0 <= i < e.refdes_classes.len() ==> Some((#[trigger] e.refdes_classes@[i]).class@)
                == self.classes()[i] && e.refdes_classes@[i].count == occurrences(
                self.class_labels(),
                self.classes()[i],
            )
        &&& e.rails.len() == self.shown_rails(rails).len()
        &&& forall|i: int|
            0 <= i < e.rails.len() ==> self.rail_row_is(
                #[trigger] e.rails@[i],
                self.shown_rails(rails)[i],
                rails,
            )
        &&& e.connectors.len() == self.shown_connectors().len()
        &&& forall|i: int|
            0 <= i < e.connectors.len() ==> self.connector_is(
                #[trigger] e.connectors@[i],
                self.shown_connectors()[i],
            )
        &&& e.subsystems.len() == groups.len()
        &&& forall|i: int|
            0 <= i < e.subsystems.len() ==> (#[trigger] e.subsystems@[i]).name@ == subsystem_name(
                groups[i],
            ) && e.subsystems@[i].component_count == self.subsystem_size(groups[i])
        &&& e.top_nets_by_fanout.len() == self.shown_nets().len()
        &&& forall|i: int|
            0 <= i < e.top_nets_by_fanout.len() ==> (#[trigger] e.top_nets_by_fanout@[i]).net
                == self.nets@[self.shown_nets()[i]].name && e.top_nets_by_fanout@[i].fanout
                == self.net_pins(self.shown_nets()[i]).len()
    }

    /// The design at a glance.
    pub fn design_overview(&self, rails: &Vec<RailReading>) -> (r: OverviewEnvelope)
        requires
            rails.len() == self.nets.len(),
        ensures
            self.overview_answer(r, rails@),
    {
        let groups = self.count_subsystems();
        let ghost shown = page(self.subsystems(), 0, OVERVIEW_SUBSYSTEMS as int);
        let mut subsystems: Vec<SubsystemSummaryRow> = Vec::new();
        let mut i: usize = 0;
        while i < groups.len() && i < OVERVIEW_SUBSYSTEMS
            invariant
                i <= groups.len(),
                i <= OVERVIEW_SUBSYSTEMS,
                self.subsystem_rows_are(groups@, self.subsystems()),
                shown == page(self.subsystems(), 0, OVERVIEW_SUBSYSTEMS as int),
                subsystems.len() == i,
                forall|k: int|
                    0 <= k < i ==> (#[trigger] subsystems@[k]).name@ == subsystem_name(shown[k])
                        && subsystems@[k].component_count == self.subsystem_size(shown[k]),
            decreases groups.len() - i,
        {
            let g = &groups[i];
            assert(self.subsystem_row_is(groups@[i as int], self.subsystems()[i as int]));
            assert(shown[i as int] == self.subsystems()[i as int]);
            subsystems.push(
                SubsystemSummaryRow { name: g.name.clone(), component_count: g.component_count },
            );
            i += 1;
        }
        OverviewEnvelope {
            counts: self.count_all(),
            refdes_classes: self.count_classes(),
            rails: self.list_rails(rails),
            connectors: self.list_connectors(),
            subsystems,
            top_nets_by_fanout: self.list_busiest(),
        }
    }
}

/// Every part is in exactly one subsystem: the sizes of the subsystems add up to the
/// number of parts.
pub proof fn lemma_subsystems_add_up(d: &Design)
    ensures
        total(d.subsystem_labels(), distinct(d.subsystem_labels())) == d.components.len(),
{
    lemma_counts_add_up(d.subsystem_labels());
}

/// Every part is of exactly one class: the sizes of the classes add up to the number of
/// parts.
pub proof fn lemma_classes_add_up(d: &Design)
    ensures
        total(d.class_labels(), distinct(d.class_labels())) == d.components.len(),
{
    lemma_counts_add_up(d.class_labels());
}

} // verus!
