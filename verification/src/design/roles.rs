//! What part a net plays in the design, and the nets whose part is worth a look.
use vstd::prelude::*;

use super::classes::{in_connector_classes, is_connector_class, is_endpoint_class, is_ic_class};
use super::classes::{is_passive_passthrough, is_probe_class, refdes_class};
use super::role_laws::{audit_told, lemma_audit_told, lemma_role_of_pins, role_told};
use super::sheets::{hierarchy_is, net_hierarchy_in, NetHierarchy};
use super::{lemma_lists_in_range, Design, Net};
use crate::lists::{arranged, count_where, lemma_count_where, page};
use crate::ranking::{arrange, key_of, keys_of, lemma_ranked, places, rank, ranked};
use crate::ranking::{Key, Mark, Part};
use crate::text::{decimal, decimal_text, same_text, texts};

verus! {

/// What a net is joined to, as far as pin types and classes say. It is no judgement: a
/// net fed from a source off the net has none on it.
#[derive(Debug, Clone)]
pub struct NetRole {
    /// A power output is on the net.
    pub has_source: bool,
    /// A pin that can drive the net is on it.
    pub has_driver: bool,
    /// A power input is on the net.
    pub has_power_in: bool,
    /// An input is on the net.
    pub has_input: bool,
    /// How many of the pins belong to ICs.
    pub ic_pin_count: usize,
    /// How many of the pins belong to parts that the net can end on.
    pub endpoint_pin_count: usize,
    /// There are pins, and all belong to two-pin passives.
    pub passive_only: bool,
}

/// How many pins of a net belong to parts of each class. Endpoints cut across the
/// other four.
#[derive(Debug)]
pub struct NetClassCounts {
    pub ic: usize,
    pub connector: usize,
    pub passive: usize,
    pub other: usize,
    pub endpoint: usize,
}

/// The class of parts that a pin counts to.
pub enum Bucket {
    Ic,
    Connector,
    Passive,
    Other,
}

impl Design {
    pub open spec fn bucket(&self, p: int) -> Bucket {
        let c = self.owner(p);
        if is_ic_class(self.class(c)) {
            Bucket::Ic
        } else if is_connector_class(self.class(c)) {
            Bucket::Connector
        } else if self.passes(c) {
            Bucket::Passive
        } else {
            Bucket::Other
        }
    }

    pub open spec fn bucket_count(&self, n: int, b: Bucket) -> nat {
        count_where(|p: int| self.bucket(p) == b, self.net_pins(n))
    }

    pub open spec fn endpoint_count(&self, n: int) -> nat {
        count_where(|p: int| self.ends_on(self.owner(p)), self.net_pins(n))
    }

    pub open spec fn counts_are(&self, r: NetClassCounts, n: int) -> bool {
        &&& r.ic == self.bucket_count(n, Bucket::Ic)
        &&& r.connector == self.bucket_count(n, Bucket::Connector)
        &&& r.passive == self.bucket_count(n, Bucket::Passive)
        &&& r.other == self.bucket_count(n, Bucket::Other)
        &&& r.endpoint == self.endpoint_count(n)
    }

    /// The types of pins that can drive a net.
    pub open spec fn has_driver(&self, n: int) -> bool {
        self.type_count_on(n, "output"@) > 0 || self.type_count_on(n, "bidirectional"@) > 0
            || self.type_count_on(n, "tri_state"@) > 0 || self.type_count_on(n, "open_collector"@)
            > 0 || self.type_count_on(n, "open_emitter"@) > 0 || self.type_count_on(n, "power_out"@)
            > 0
    }

    pub open spec fn role_is(&self, r: NetRole, n: int) -> bool {
        &&& r.has_source == (self.type_count_on(n, "power_out"@) > 0)
        &&& r.has_driver == self.has_driver(n)
        &&& r.has_power_in == (self.type_count_on(n, "power_in"@) > 0)
        &&& r.has_input == (self.type_count_on(n, "input"@) > 0)
        &&& r.ic_pin_count == self.bucket_count(n, Bucket::Ic)
        &&& r.endpoint_pin_count == self.endpoint_count(n)
        &&& r.passive_only == (self.net_pins(n).len() > 0 && self.bucket_count(n, Bucket::Passive)
            == self.net_pins(n).len())
    }

    /// Counts the classes of the parts on a net.
    pub fn net_class_counts(&self, net: &Net) -> (r: NetClassCounts)
        requires
            self.wf(),
            self.has_net(net),
        ensures
            self.counts_are(r, net.id.0 as int),
    {
        let ghost n = net.id.0 as int;
        let ghost all = self.net_pins(n);
        let ghost ic = |p: int| self.bucket(p) == Bucket::Ic;
        let ghost connector = |p: int| self.bucket(p) == Bucket::Connector;
        let ghost passive = |p: int| self.bucket(p) == Bucket::Passive;
        let ghost other = |p: int| self.bucket(p) == Bucket::Other;
        let ghost endpoint = |p: int| self.ends_on(self.owner(p));
        let mut r = NetClassCounts { ic: 0, connector: 0, passive: 0, other: 0, endpoint: 0 };
        let mut i: usize = 0;
        proof {
            lemma_lists_in_range(self);
            assert(all.take(0) =~= Seq::<int>::empty());
        }
        while i < net.pins.len()
            invariant
                i <= net.pins.len(),
                self.wf(),
                self.has_net(net),
                n == net.id.0,
                all == self.net_pins(n),
                forall|k: int|
                    0 <= k < net.pins.len() ==> (#[trigger] net.pins@[k]).0 < self.pins.len(),
                ic == (|p: int| self.bucket(p) == Bucket::Ic),
                connector == (|p: int| self.bucket(p) == Bucket::Connector),
                passive == (|p: int| self.bucket(p) == Bucket::Passive),
                other == (|p: int| self.bucket(p) == Bucket::Other),
                endpoint == (|p: int| self.ends_on(self.owner(p))),
                r.ic <= i,
                r.connector <= i,
                r.passive <= i,
                r.other <= i,
                r.endpoint <= i,
                r.ic == count_where(ic, all.take(i as int)),
                r.connector == count_where(connector, all.take(i as int)),
                r.passive == count_where(passive, all.take(i as int)),
                r.other == count_where(other, all.take(i as int)),
                r.endpoint == count_where(endpoint, all.take(i as int)),
            decreases net.pins.len() - i,
        {
            let ghost next = all.take(i + 1);
            assert(next.drop_last() =~= all.take(i as int));
            assert(next.last() == net.pins@[i as int].0);
            let comp = &self.components[self.pins[net.pins[i].0].comp.0];
            let class = refdes_class(comp.refdes.as_str());
            let pin_count = comp.pins.len();
            if is_endpoint_class(class.as_str(), pin_count) {
                r.endpoint = r.endpoint + 1;
            }
            if same_text(class.as_str(), "U") {
                r.ic = r.ic + 1;
            } else if in_connector_classes(class.as_str()) {
                r.connector = r.connector + 1;
            } else if is_passive_passthrough(class.as_str(), pin_count) {
                r.passive = r.passive + 1;
            } else {
                r.other = r.other + 1;
            }
            i += 1;
        }
        assert(all.take(all.len() as int) =~= all);
        r
    }

    fn drives(&self, net: &Net) -> (r: bool)
        requires
            self.wf(),
            self.has_net(net),
        ensures
            r == self.has_driver(net.id.0 as int),
    {
        self.count_of_type(net, "output") > 0 || self.count_of_type(net, "bidirectional") > 0
            || self.count_of_type(net, "tri_state") > 0 || self.count_of_type(
            net,
            "open_collector",
        ) > 0 || self.count_of_type(net, "open_emitter") > 0 || self.count_of_type(
            net,
            "power_out",
        ) > 0
    }

    /// What part a net plays.
    pub fn net_role(&self, net: &Net) -> (r: NetRole)
        requires
            self.wf(),
            self.has_net(net),
        ensures
            self.role_is(r, net.id.0 as int),
            role_told(self, r, net.id.0 as int),
    {
        let counts = self.net_class_counts(net);
        let fanout = net.pins.len();
        let r = NetRole {
            has_source: self.count_of_type(net, "power_out") > 0,
            has_driver: self.drives(net),
            has_power_in: self.count_of_type(net, "power_in") > 0,
            has_input: self.count_of_type(net, "input") > 0,
            ic_pin_count: counts.ic,
            endpoint_pin_count: counts.endpoint,
            passive_only: fanout > 0 && counts.passive == fanout,
        };
        proof {
            lemma_role_of_pins(self, r, net.id.0 as int);
        }
        r
    }

    /// A net name taken apart at the sheet of this design that it begins with.
    pub fn net_hierarchy(&self, name: &str) -> (r: NetHierarchy)
        ensures
            hierarchy_is(r, name@, texts(self.sheet_paths@)),
    {
        net_hierarchy_in(name, &self.sheet_paths)
    }
}

/// Every pin of a net counts to exactly one class, so the four counts add up to the
/// number of pins.
pub proof fn lemma_buckets_add_up(d: &Design, n: int)
    ensures
        d.bucket_count(n, Bucket::Ic) + d.bucket_count(n, Bucket::Connector) + d.bucket_count(
            n,
            Bucket::Passive,
        ) + d.bucket_count(n, Bucket::Other) == d.net_pins(n).len(),
{
    lemma_buckets_of(d, d.net_pins(n));
}

proof fn lemma_buckets_of(d: &Design, s: Seq<int>)
    ensures
        count_where(|p: int| d.bucket(p) == Bucket::Ic, s) + count_where(
            |p: int| d.bucket(p) == Bucket::Connector,
            s,
        ) + count_where(|p: int| d.bucket(p) == Bucket::Passive, s) + count_where(
            |p: int| d.bucket(p) == Bucket::Other,
            s,
        ) == s.len(),
    decreases s.len(),
{
    if s.len() > 0 {
        lemma_buckets_of(d, s.drop_last());
    }
}

/// A net with two-pin passives alone has nothing to end on; a net has nothing to end on
/// exactly when all its parts are two-pin passives or probes.
pub proof fn lemma_role_endpoints(d: &Design, r: NetRole, n: int)
    requires
        d.role_is(r, n),
    ensures
        r.passive_only ==> r.endpoint_pin_count == 0 && r.ic_pin_count == 0,
        r.endpoint_pin_count == 0 <==> forall|i: int|
            0 <= i < d.net_pins(n).len() ==> {
                let c = d.owner(#[trigger] d.net_pins(n)[i]);
                d.passes(c) || is_probe_class(d.class(c))
            },
{
    let s = d.net_pins(n);
    let ends = |p: int| d.ends_on(d.owner(p));
    let passive = |p: int| d.bucket(p) == Bucket::Passive;
    let ic = |p: int| d.bucket(p) == Bucket::Ic;
    lemma_count_where(ends, s);
    lemma_count_where(passive, s);
    lemma_count_where(ic, s);
    if r.passive_only {
        assert forall|i: int| 0 <= i < s.len() implies !ends(#[trigger] s[i]) && !ic(s[i]) by {
            assert(passive(s[i]));
        }
    }
    assert forall|i: int|
        0 <= i < s.len() implies (ends(#[trigger] s[i]) <==> !(d.passes(d.owner(s[i]))
        || is_probe_class(d.class(d.owner(s[i]))))) by {}
}

/// One net in an audit, with what put it there in words.
#[derive(Debug)]
pub struct AuditNetRow {
    pub net: String,
    pub code: usize,
    pub fanout: usize,
    pub note: String,
}

/// One category of an audit: how many nets are in it, and the first of them.
#[derive(Debug)]
pub struct AuditBucket {
    pub count: usize,
    pub returned: usize,
    pub nets: Vec<AuditNetRow>,
}

/// The categories of an audit. A net can be in several.
#[derive(Debug)]
pub struct AuditEnvelope {
    pub unpowered_power_in: AuditBucket,
    pub undriven_input: AuditBucket,
    pub single_ic_pin: AuditBucket,
    pub stub: AuditBucket,
}

/// A category of an audit.
pub enum Pattern {
    UnpoweredPowerIn,
    UndrivenInput,
    SingleIcPin,
    Stub,
}

impl Design {
    /// Whether a net shows a pattern.
    pub open spec fn shows(&self, k: Pattern, n: int) -> bool {
        match k {
            Pattern::UnpoweredPowerIn => self.type_count_on(n, "power_in"@) > 0
                && self.type_count_on(n, "power_out"@) == 0,
            Pattern::UndrivenInput => self.type_count_on(n, "input"@) > 0 && !self.has_driver(n),
            Pattern::SingleIcPin => self.bucket_count(n, Bucket::Ic) == 1 && self.bucket_count(
                n,
                Bucket::Passive,
            ) == self.net_pins(n).len() - 1,
            Pattern::Stub => self.net_pins(n).len() <= 1 || self.endpoint_count(n) == 0,
        }
    }

    /// What is said of a net that shows a pattern.
    pub open spec fn remark(&self, k: Pattern, n: int) -> Seq<char> {
        match k {
            Pattern::UnpoweredPowerIn => decimal(self.type_count_on(n, "power_in"@))
                + " power_in pin(s), no power_out source"@,
            Pattern::UndrivenInput => decimal(self.type_count_on(n, "input"@))
                + " input pin(s), no driver"@,
            Pattern::SingleIcPin => "1 IC pin + only passives"@,
            Pattern::Stub => if self.net_pins(n).len() <= 1 {
                "single-pin net"@
            } else if self.bucket_count(n, Bucket::Passive) == 0 {
                "only probe/mechanical parts, no endpoint part"@
            } else if self.bucket_count(n, Bucket::Passive) == self.net_pins(n).len() {
                "only passives, no endpoint part"@
            } else {
                "only passives and probe/mechanical parts, no endpoint part"@
            },
        }
    }

    /// The nets among the first `k` that show a pattern.
    pub open spec fn showing(&self, t: Pattern, k: int) -> Seq<int>
        decreases k,
    {
        if k <= 0 {
            Seq::empty()
        } else if self.shows(t, k - 1) {
            self.showing(t, k - 1).push(k - 1)
        } else {
            self.showing(t, k - 1)
        }
    }

    /// What nets are sorted by where the busiest come first.
    pub open spec fn fanout_key(&self, n: int) -> Key {
        seq![Mark::Number(-(self.net_pins(n).len() as int)), Mark::Text(self.nets@[n].name@)]
    }

    /// The nets with the busiest first, and by name where they tie.
    pub open spec fn busiest_first(&self, s: Seq<int>) -> Seq<int> {
        arranged(s, ranked(s.map_values(|n: int| self.fanout_key(n))))
    }

    pub open spec fn audit_row_is(&self, r: AuditNetRow, t: Pattern, n: int) -> bool {
        &&& r.net == self.nets@[n].name
        &&& r.code == self.nets@[n].code
        &&& r.fanout == self.net_pins(n).len()
        &&& r.note@ == self.remark(t, n)
    }

    pub open spec fn audit_rows_are(&self, v: Seq<AuditNetRow>, t: Pattern, s: Seq<int>) -> bool {
        v.len() == s.len() && forall|i: int|
            0 <= i < v.len() ==> self.audit_row_is(#[trigger] v[i], t, s[i])
    }

    /// The bucket holds how many nets show a pattern and the first `limit` of them.
    pub open spec fn bucket_is(&self, b: AuditBucket, t: Pattern, limit: u32) -> bool {
        let all = self.showing(t, self.nets.len() as int);
        &&& b.count == all.len()
        &&& self.audit_rows_are(b.nets@, t, page(self.busiest_first(all), 0, limit as int))
        &&& b.returned == b.nets.len()
    }

    /// Sorts a category and cuts it to `limit` rows; the count stays that of all.
    fn bucket_audit(
        &self,
        rows: Vec<AuditNetRow>,
        limit: u32,
        Ghost(t): Ghost<Pattern>,
        Ghost(s): Ghost<Seq<int>>,
    ) -> (r: AuditBucket)
        requires
            self.audit_rows_are(rows@, t, s),
        ensures
            r.count == s.len(),
            self.audit_rows_are(r.nets@, t, page(self.busiest_first(s), 0, limit as int)),
            r.returned == r.nets.len(),
    {
        let count = rows.len();
        let mut keys: Vec<Vec<Part>> = Vec::new();
        let mut i: usize = 0;
        while i < rows.len()
            invariant
                i <= rows.len(),
                keys.len() == i,
                self.audit_rows_are(rows@, t, s),
                forall|k: int|
                    0 <= k < i ==> key_of((#[trigger] keys@[k])@) == self.fanout_key(s[k]),
            decreases rows.len() - i,
        {
            let row = &rows[i];
            assert(self.audit_row_is(rows@[i as int], t, s[i as int]));
            let mut key: Vec<Part> = Vec::new();
            key.push(Part::Down(row.fanout));
            key.push(Part::Text(row.net.clone()));
            assert(key_of(key@) =~= self.fanout_key(s[i as int]));
            keys.push(key);
            i += 1;
        }
        let order = rank(&keys);
        proof {
            assert(keys_of(keys@) =~= s.map_values(|n: int| self.fanout_key(n)));
            lemma_ranked(keys_of(keys@));
        }
        let ghost before = rows@;
        let mut nets = arrange(rows, &order);
        let ghost sorted = self.busiest_first(s);
        proof {
            let p = places(order@);
            assert forall|k: int| 0 <= k < nets.len() implies self.audit_row_is(
                #[trigger] nets@[k],
                t,
                sorted[k],
            ) by {
                assert(self.audit_row_is(before[p[k]], t, s[p[k]]));
            }
        }
        let ghost whole = nets@;
        if (limit as usize) < nets.len() {
            nets.truncate(limit as usize);
        }
        proof {
            let shown = page(sorted, 0, limit as int);
            assert forall|k: int| 0 <= k < nets.len() implies self.audit_row_is(
                #[trigger] nets@[k],
                t,
                shown[k],
            ) by {
                assert(nets@[k] == whole[k]);
            }
        }
        let returned = nets.len();
        AuditBucket { count, returned, nets }
    }

    fn audit_row(&self, net: &Net, note: String) -> (r: AuditNetRow)
        requires
            self.has_net(net),
        ensures
            r.net == net.name,
            r.code == net.code,
            r.fanout == self.net_pins(net.id.0 as int).len(),
            r.note == note,
    {
        AuditNetRow { net: net.name.clone(), code: net.code, fanout: net.pins.len(), note }
    }

    /// The remark on a net that shows a pattern, if it does.
    fn find_remark(&self, net: &Net, t: &Pattern) -> (r: Option<String>)
        requires
            self.wf(),
            self.has_net(net),
        ensures
            match r {
                Some(s) => self.shows(*t, net.id.0 as int) && s@ == self.remark(
                    *t,
                    net.id.0 as int,
                ),
                None => !self.shows(*t, net.id.0 as int),
            },
    {
        let ghost n = net.id.0 as int;
        let fanout = net.pins.len();
        match t {
            Pattern::UnpoweredPowerIn => {
                let ins = self.count_of_type(net, "power_in");
                if ins > 0 && self.count_of_type(net, "power_out") == 0 {
                    let mut note = decimal_text(ins);
                    note.append(" power_in pin(s), no power_out source");
                    Some(note)
                } else {
                    None
                }
            },
            Pattern::UndrivenInput => {
                let ins = self.count_of_type(net, "input");
                if ins > 0 && !self.drives(net) {
                    let mut note = decimal_text(ins);
                    note.append(" input pin(s), no driver");
                    Some(note)
                } else {
                    None
                }
            },
            Pattern::SingleIcPin => {
                let counts = self.net_class_counts(net);
                proof {
                    lemma_buckets_add_up(self, n);
                }
                if counts.ic == 1 && counts.connector == 0 && counts.other == 0 {
                    Some("1 IC pin + only passives".to_owned())
                } else {
                    None
                }
            },
            Pattern::Stub => {
                if fanout <= 1 {
                    return Some("single-pin net".to_owned());
                }
                let counts = self.net_class_counts(net);
                if counts.endpoint != 0 {
                    return None;
                }
                let note = if counts.passive == 0 {
                    "only probe/mechanical parts, no endpoint part"
                } else if counts.passive == fanout {
                    "only passives, no endpoint part"
                } else {
                    "only passives and probe/mechanical parts, no endpoint part"
                };
                Some(note.to_owned())
            },
        }
    }

    fn audit_for(&self, t: Pattern, limit: u32) -> (r: AuditBucket)
        requires
            self.wf(),
        ensures
            self.bucket_is(r, t, limit),
    {
        let mut rows: Vec<AuditNetRow> = Vec::new();
        let mut i: usize = 0;
        while i < self.nets.len()
            invariant
                i <= self.nets.len(),
                self.wf(),
                self.audit_rows_are(rows@, t, self.showing(t, i as int)),
            decreases self.nets.len() - i,
        {
            let net = &self.nets[i];
            assert(self.nets@[i as int].id.0 == i);
            if let Some(note) = self.find_remark(net, &t) {
                rows.push(self.audit_row(net, note));
            }
            i += 1;
        }
        self.bucket_audit(rows, limit, Ghost(t), Ghost(self.showing(t, self.nets.len() as int)))
    }

    /// The nets that show patterns worth a look. It reports what is there and never
    /// says that it is wrong.
    pub fn audit(&self, limit: u32) -> (r: AuditEnvelope)
        requires
            self.wf(),
        ensures
            self.bucket_is(r.unpowered_power_in, Pattern::UnpoweredPowerIn, limit),
            self.bucket_is(r.undriven_input, Pattern::UndrivenInput, limit),
            self.bucket_is(r.single_ic_pin, Pattern::SingleIcPin, limit),
            self.bucket_is(r.stub, Pattern::Stub, limit),
            audit_told(self, r, limit),
    {
        let r = AuditEnvelope {
            unpowered_power_in: self.audit_for(Pattern::UnpoweredPowerIn, limit),
            undriven_input: self.audit_for(Pattern::UndrivenInput, limit),
            single_ic_pin: self.audit_for(Pattern::SingleIcPin, limit),
            stub: self.audit_for(Pattern::Stub, limit),
        };
        proof {
            lemma_audit_told(self, r, limit);
        }
        r
    }
}

/// A category of an audit lists exactly the nets that show its pattern, in the order of
/// the design.
pub proof fn lemma_showing(d: &Design, t: Pattern, k: int)
    requires
        0 <= k,
    ensures
        forall|n: int| #[trigger]
            d.showing(t, k).contains(n) <==> 0 <= n < k && d.shows(t, n),
        d.showing(t, k).no_duplicates(),
    decreases k,
{
    if k > 0 {
        lemma_showing(d, t, k - 1);
        let front = d.showing(t, k - 1);
        let all = d.showing(t, k);
        assert forall|n: int| #[trigger] all.contains(n) <==> 0 <= n < k && d.shows(t, n) by {
            if all.contains(n) {
                let i = choose|i: int| 0 <= i < all.len() && all[i] == n;
                if i < front.len() {
                    assert(front[i] == n);
                    assert(front.contains(n));
                }
            }
            if 0 <= n < k - 1 && d.shows(t, n) {
                assert(front.contains(n));
                let i = choose|i: int| 0 <= i < front.len() && front[i] == n;
                assert(all[i] == n);
            }
            if n == k - 1 && d.shows(t, n) {
                assert(all[all.len() - 1] == n);
            }
        }
        assert forall|i: int, j: int| 0 <= i < all.len() && 0 <= j < all.len() && i
            != j implies all[i] != all[j] by {
            if i < front.len() {
                assert(front.contains(front[i]));
            }
            if j < front.len() {
                assert(front.contains(front[j]));
            }
        }
    }
}

/// An audit counts all the nets of a category whatever the limit, shows the smaller of
/// the count and the limit, and shows a busier net before a less busy one.
pub proof fn lemma_audit_bucket(d: &Design, b: AuditBucket, t: Pattern, limit: u32)
    requires
        d.bucket_is(b, t, limit),
    ensures
        b.count == d.showing(t, d.nets.len() as int).len(),
        b.returned == (if b.count < limit {
            b.count as int
        } else {
            limit as int
        }),
        forall|i: int, j: int|
            0 <= i < j < b.nets.len() ==> (#[trigger] b.nets@[i]).fanout >= (
            #[trigger] b.nets@[j]).fanout,
{
    let s = d.showing(t, d.nets.len() as int);
    let keys = s.map_values(|n: int| d.fanout_key(n));
    lemma_ranked(keys);
    let p = ranked(keys);
    let shown = page(d.busiest_first(s), 0, limit as int);
    assert forall|i: int, j: int| 0 <= i < j < b.nets.len() implies (#[trigger] b.nets@[i]).fanout
        >= (#[trigger] b.nets@[j]).fanout by {
        assert(d.audit_row_is(b.nets@[i], t, shown[i]) && d.audit_row_is(b.nets@[j], t, shown[j]));
        assert(shown[i] == s[p[i]] && shown[j] == s[p[j]]);
        let a = keys[p[i]];
        let c = keys[p[j]];
        assert(!(crate::ranking::key_order(a, c) is Greater));
        assert(a == d.fanout_key(s[p[i]]) && c == d.fanout_key(s[p[j]]));
    }
}

} // verus!
