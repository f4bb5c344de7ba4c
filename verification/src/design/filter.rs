//! Exhaustive filters over components and nets.
use vstd::prelude::*;

use super::classes::{natural_key, prefix_text, push_natural, refdes_prefix};
use super::details::{find_keywords, keywords_of};
use super::filter_laws::{lemma_rows_of_class, rows_of_class};
use super::sheets::{opt_str, opt_view, parsed_filter, selects, sheet_views};
use super::sheets::{widened, Selector, SubsystemFilter};
use super::{Component, Design};
use crate::lists::{arranged, page, page_bounds};
use crate::parser::netlist::opt_text;
use crate::ranking::{key_of, keys_of, places, rank, ranked};
use crate::ranking::{Key, Mark, Part};
use crate::table::Table;
use crate::text::{contains, copy_text, fields};
use crate::text::{lowercase, occurs_at, same_text, split_fields, text_contains};
use crate::text::{texts, trim_matches, trimmed, Whitespace};

verus! {

/// One component of a filtered list.
#[derive(Debug)]
pub struct FilterRow {
    pub refdes: String,
    pub value: String,
    pub description: Option<String>,
    pub footprint: Option<String>,
    pub sheet: Option<String>,
    pub keywords: Option<String>,
    pub dnp: bool,
    pub pin_count: usize,
}

/// A page of the components that a filter lets through.
#[derive(Debug)]
pub struct FilterEnvelope {
    pub total: usize,
    pub offset: u32,
    pub limit: u32,
    pub returned: usize,
    /// Says so where the `subsystem` argument was widened.
    pub subsystem_note: Option<String>,
    pub rows: Vec<FilterRow>,
}

/// One net of a filtered list.
#[derive(Debug)]
pub struct NetRow {
    pub name: String,
    pub code: usize,
    pub fanout: usize,
    pub pin_types: Table<usize>,
    pub sheet_path: Option<String>,
    pub depth: usize,
    /// The rail score in hundredths, given where a subsystem was asked for.
    pub rail_hundredths: Option<u32>,
}

/// A page of the nets that a filter lets through.
#[derive(Debug)]
pub struct NetEnvelope {
    pub total: usize,
    pub offset: u32,
    pub limit: u32,
    pub returned: usize,
    /// Says so where the `subsystem` argument was widened.
    pub subsystem_note: Option<String>,
    /// Says so where rails were moved to the end.
    pub rail_note: Option<String>,
    pub rows: Vec<NetRow>,
}

/// The values of the properties, lowercased, each with a space behind it.
pub open spec fn values_text(rows: Seq<(Seq<char>, Option<String>)>) -> Seq<char>
    decreases rows.len(),
{
    if rows.len() == 0 {
        Seq::empty()
    } else {
        values_text(rows.drop_last()) + opt_part(opt_text(rows.last().1))
    }
}

/// A lowercased text with a space behind it.
pub open spec fn part_text(s: Seq<char>) -> Seq<char> {
    lowercase(s) + " "@
}

pub open spec fn opt_part(o: Option<Seq<char>>) -> Seq<char> {
    match o {
        Some(s) => part_text(s),
        None => Seq::empty(),
    }
}

/// What a component is searched by: its fields and the values of its properties.
pub open spec fn search_text(c: Component) -> Seq<char> {
    part_text(c.refdes@) + part_text(c.value@) + opt_part(opt_text(c.description)) + opt_part(
        opt_text(c.footprint),
    ) + opt_part(opt_text(c.sheet)) + values_text(c.properties.rows())
}

fn push_part(out: &mut String, s: &str)
    ensures
        final(out)@ == old(out)@ + part_text(s@),
{
    let ghost before = out@;
    out.append(s.to_lowercase().as_str());
    out.append(" ");
    assert(out@ =~= before + part_text(s@));
}

fn push_opt_part(out: &mut String, o: &Option<String>)
    ensures
        final(out)@ == old(out)@ + opt_part(opt_text(*o)),
{
    if let Some(s) = o {
        push_part(out, s.as_str());
    }
    assert(old(out)@ + Seq::<char>::empty() =~= old(out)@);
}

impl Component {
    /// What the component is searched by.
    pub fn search_bundle(&self) -> (r: String)
        ensures
            r@ == search_text(*self),
    {
        let mut out = String::new();
        push_part(&mut out, self.refdes.as_str());
        push_part(&mut out, self.value.as_str());
        push_opt_part(&mut out, &self.description);
        push_opt_part(&mut out, &self.footprint);
        push_opt_part(&mut out, &self.sheet);
        let ghost own = out@;
        let ghost rows = self.properties.rows();
        let n = self.properties.len();
        let mut i: usize = 0;
        assert(rows.take(0) =~= Seq::<(Seq<char>, Option<String>)>::empty());
        assert(own + Seq::<char>::empty() =~= own);
        while i < n
            invariant
                i <= n,
                rows == self.properties.rows(),
                n == rows.len(),
                out@ == own + values_text(rows.take(i as int)),
            decreases n - i,
        {
            let ghost next = rows.take(i + 1);
            let ghost was = out@;
            assert(next.drop_last() =~= rows.take(i as int));
            let (_, v) = self.properties.row(i);
            push_opt_part(&mut out, v);
            assert(out@ =~= own + values_text(next));
            i += 1;
        }
        assert(rows.take(n as int) =~= rows);
        assert(own =~= Seq::<char>::empty() + part_text(self.refdes@) + part_text(self.value@)
            + opt_part(opt_text(self.description)) + opt_part(opt_text(self.footprint)) + opt_part(
            opt_text(self.sheet),
        ));
        assert(out@ =~= search_text(*self));
        out
    }
}

/// The lowercased words of a query.
pub open spec fn query_terms(q: Seq<char>) -> Seq<Seq<char>> {
    fields(q, Whitespace).map_values(|t: Seq<char>| lowercase(t))
}

/// The words that a query asks for; a blank query asks for none.
pub open spec fn terms_of(query: Option<Seq<char>>) -> Seq<Seq<char>> {
    match query {
        Some(q) => query_terms(q),
        None => Seq::empty(),
    }
}

/// Every word occurs in the text.
pub open spec fn holds_all(text: Seq<char>, terms: Seq<Seq<char>>) -> bool {
    forall|i: int| 0 <= i < terms.len() ==> contains(text, #[trigger] terms[i])
}

fn split_terms(query: &str) -> (r: Vec<String>)
    ensures
        texts(r@) == query_terms(query@),
{
    let words = split_fields(query, &Whitespace);
    let mut out: Vec<String> = Vec::new();
    let mut i: usize = 0;
    while i < words.len()
        invariant
            i <= words.len(),
            out.len() == i,
            texts(words@) == fields(query@, Whitespace),
            forall|k: int| 0 <= k < i ==> (#[trigger] out@[k])@ == lowercase(texts(words@)[k]),
        decreases words.len() - i,
    {
        assert(texts(words@)[i as int] == words@[i as int]@);
        out.push(words[i].as_str().to_lowercase());
        i += 1;
    }
    assert(texts(out@) =~= query_terms(query@));
    out
}

fn contains_all(text: &str, terms: &Vec<String>) -> (r: bool)
    ensures
        r == holds_all(text@, texts(terms@)),
{
    let mut i: usize = 0;
    while i < terms.len()
        invariant
            i <= terms.len(),
            forall|k: int| 0 <= k < i ==> contains(text@, #[trigger] texts(terms@)[k]),
        decreases terms.len() - i,
    {
        assert(texts(terms@)[i as int] == terms@[i as int]@);
        if !text_contains(text, terms[i].as_str()) {
            return false;
        }
        i += 1;
    }
    true
}

/// What is said of a filter that was widened.
pub open spec fn widened_note(arg: Seq<char>, prefix: Seq<char>) -> Seq<char> {
    "no sheet in this design answers to '"@ + trimmed(arg)
        + "'; widened to sheets whose path starts with '"@ + prefix
        + "' — for an unanchored match, drop the leading slash"@
}

impl Design {
    /// The sheets that a filter is held against: those of the components, and those that
    /// the design has.
    pub open spec fn known_sheets(&self) -> Seq<Option<Seq<char>>> {
        self.components@.map_values(|c: Component| opt_text(c.sheet)) + texts(
            self.sheet_paths@,
        ).map_values(|s: Seq<char>| Some(s))
    }

    /// The filter that a `subsystem` argument gives in this design.
    pub open spec fn filter_for(&self, arg: Option<Seq<char>>) -> Option<Selector> {
        match parsed_filter(arg) {
            None => None,
            Some(f) => Some(widened(f, self.known_sheets())),
        }
    }

    /// What is said of the filter that a `subsystem` argument gives.
    pub open spec fn note_for(&self, arg: Option<Seq<char>>) -> Option<Seq<char>> {
        match self.filter_for(arg) {
            Some(Selector::PathPrefix(prefix)) => Some(widened_note(arg.unwrap(), prefix)),
            _ => None,
        }
    }

    fn sheet_list(&self) -> (r: Vec<Option<&str>>)
        ensures
            sheet_views(r@) == self.known_sheets(),
    {
        let mut out: Vec<Option<&str>> = Vec::new();
        let mut i: usize = 0;
        while i < self.components.len()
            invariant
                i <= self.components.len(),
                out.len() == i,
                forall|k: int|
                    0 <= k < i ==> opt_str(#[trigger] out@[k]) == opt_text(
                        self.components@[k].sheet,
                    ),
            decreases self.components.len() - i,
        {
            let sheet: Option<&str> = match &self.components[i].sheet {
                Some(s) => Some(s.as_str()),
                None => None,
            };
            out.push(sheet);
            i += 1;
        }
        let mut k: usize = 0;
        while k < self.sheet_paths.len()
            invariant
                k <= self.sheet_paths.len(),
                out.len() == self.components.len() + k,
                forall|j: int|
                    0 <= j < self.components.len() ==> opt_str(#[trigger] out@[j]) == opt_text(
                        self.components@[j].sheet,
                    ),
                forall|j: int|
                    self.components.len() <= j < out.len() ==> opt_str(#[trigger] out@[j]) == Some(
                        self.sheet_paths@[j - self.components.len()]@,
                    ),
            decreases self.sheet_paths.len() - k,
        {
            out.push(Some(self.sheet_paths[k].as_str()));
            k += 1;
        }
        assert(sheet_views(out@) =~= self.known_sheets());
        out
    }

    /// The filter that a `subsystem` argument gives in this design, and what to say of it
    /// where it was widened. A sheet without parts is a sheet too: asking for it finds
    /// nothing and does not widen.
    pub fn subsystem_filter(&self, arg: Option<&str>) -> (r: (
        Option<SubsystemFilter>,
        Option<String>,
    ))
        ensures
            opt_view(r.0) == self.filter_for(opt_str(arg)),
            opt_text(r.1) == self.note_for(opt_str(arg)),
    {
        let parsed = match SubsystemFilter::parse(arg) {
            None => return (None, None),
            Some(parsed) => parsed,
        };
        let sheets = self.sheet_list();
        let filter = parsed.widen_if_unmatched(&sheets);
        let note = match &filter {
            SubsystemFilter::PathPrefix(prefix) => {
                let mut s = "no sheet in this design answers to '".to_owned();
                match arg {
                    Some(a) => s.append(trim_matches(a, &Whitespace).as_str()),
                    None => {},
                }
                s.append("'; widened to sheets whose path starts with '");
                s.append(prefix.as_str());
                s.append("' — for an unanchored match, drop the leading slash");
                Some(s)
            },
            _ => None,
        };
        (Some(filter), note)
    }

    /// Whether a component passes a filter.
    pub open spec fn component_passes(
        &self,
        c: int,
        terms: Seq<Seq<char>>,
        class: Option<Seq<char>>,
        filter: Option<Selector>,
        dnp: Option<bool>,
    ) -> bool {
        let comp = self.components@[c];
        &&& class matches Some(k) ==> lowercase(refdes_prefix(comp.refdes@)) == lowercase(k)
        &&& filter matches Some(f) ==> selects(f, opt_text(comp.sheet))
        &&& dnp matches Some(want) ==> comp.dnp == want
        &&& holds_all(search_text(comp), terms)
    }

    /// The components among the first `k` that pass a filter.
    pub open spec fn passing(
        &self,
        k: int,
        terms: Seq<Seq<char>>,
        class: Option<Seq<char>>,
        filter: Option<Selector>,
        dnp: Option<bool>,
    ) -> Seq<int>
        decreases k,
    {
        if k <= 0 {
            Seq::empty()
        } else {
            let front = self.passing(k - 1, terms, class, filter, dnp);
            if self.component_passes(k - 1, terms, class, filter, dnp) {
                front.push(k - 1)
            } else {
                front
            }
        }
    }

    pub open spec fn refdes_key(&self, c: int) -> Key {
        natural_key(self.components@[c].refdes@)
    }

    /// The components by designator.
    pub open spec fn by_refdes(&self, s: Seq<int>) -> Seq<int> {
        arranged(s, ranked(s.map_values(|c: int| self.refdes_key(c))))
    }

    pub open spec fn row_is(&self, r: FilterRow, c: int) -> bool {
        let comp = self.components@[c];
        &&& r.refdes == comp.refdes
        &&& r.value == comp.value
        &&& r.description == comp.description
        &&& r.footprint == comp.footprint
        &&& r.sheet == comp.sheet
        &&& r.keywords == keywords_of(comp)
        &&& r.dnp == comp.dnp
        &&& r.pin_count == self.comp_pins(c).len()
    }

    pub open spec fn rows_are(&self, v: Seq<FilterRow>, s: Seq<int>) -> bool {
        v.len() == s.len() && forall|i: int|
            0 <= i < v.len() ==> self.row_is(#[trigger] v[i], s[i])
    }

    /// The answer holds a page of the components that pass.
    pub open spec fn filter_answer(
        &self,
        e: FilterEnvelope,
        all: Seq<int>,
        note: Option<Seq<char>>,
        limit: u32,
        offset: u32,
    ) -> bool {
        &&& e.total == all.len()
        &&& e.offset == offset
        &&& e.limit == limit
        &&& e.returned == e.rows.len()
        &&& opt_text(e.subsystem_note) == note
        &&& self.rows_are(e.rows@, page(self.by_refdes(all), offset as int, limit as int))
    }

    /// The row of one component.
    pub fn filter_row(&self, c: usize) -> (r: FilterRow)
        requires
            c < self.components.len(),
        ensures
            self.row_is(r, c as int),
    {
        let comp = &self.components[c];
        FilterRow {
            refdes: comp.refdes.clone(),
            value: comp.value.clone(),
            description: copy_text(&comp.description),
            footprint: copy_text(&comp.footprint),
            sheet: copy_text(&comp.sheet),
            keywords: find_keywords(comp),
            dnp: comp.dnp,
            pin_count: comp.pins.len(),
        }
    }

    /// Sorts components by designator.
    pub fn sort_components(&self, ids: &Vec<usize>) -> (r: Vec<usize>)
        requires
            forall|i: int| 0 <= i < ids.len() ==> #[trigger] ids@[i] < self.components.len(),
        ensures
            places(r@) == self.by_refdes(places(ids@)),
            r.len() == ids.len(),
            forall|i: int| 0 <= i < r.len() ==> #[trigger] r@[i] < self.components.len(),
    {
        let ghost s = places(ids@);
        let mut keys: Vec<Vec<Part>> = Vec::new();
        let mut i: usize = 0;
        while i < ids.len()
            invariant
                i <= ids.len(),
                keys.len() == i,
                s == places(ids@),
                forall|i: int| 0 <= i < ids.len() ==> #[trigger] ids@[i] < self.components.len(),
                forall|k: int|
                    0 <= k < i ==> key_of((#[trigger] keys@[k])@) == self.refdes_key(s[k]),
            decreases ids.len() - i,
        {
            let mut key: Vec<Part> = Vec::new();
            assert(key_of(key@) =~= Seq::<Mark>::empty());
            push_natural(self.components[ids[i]].refdes.as_str(), &mut key);
            assert(key_of(key@) =~= self.refdes_key(s[i as int]));
            keys.push(key);
            i += 1;
        }
        let order = rank(&keys);
        assert(keys_of(keys@) =~= s.map_values(|c: int| self.refdes_key(c)));
        pick(ids, &order)
    }

    fn test_component(
        &self,
        c: usize,
        terms: &Vec<String>,
        class: &Option<String>,
        filter: &Option<SubsystemFilter>,
        dnp: Option<bool>,
        Ghost(wanted): Ghost<Option<Seq<char>>>,
    ) -> (r: bool)
        requires
            c < self.components.len(),
            opt_text(*class) == (match wanted {
                Some(k) => Some(lowercase(k)),
                None => None,
            }),
        ensures
            r == self.component_passes(
                c as int,
                texts(terms@),
                wanted,
                opt_view(*filter),
                dnp,
            ),
    {
        let comp = &self.components[c];
        if let Some(class) = class {
            let prefix = prefix_text(comp.refdes.as_str()).as_str().to_lowercase();
            if !same_text(prefix.as_str(), class.as_str()) {
                return false;
            }
        }
        if let Some(filter) = filter {
            let sheet: Option<&str> = match &comp.sheet {
                Some(s) => Some(s.as_str()),
                None => None,
            };
            if !filter.matches(sheet) {
                return false;
            }
        }
        if let Some(want) = dnp {
            if comp.dnp != want {
                return false;
            }
        }
        terms.len() == 0 || contains_all(comp.search_bundle().as_str(), terms)
    }

    /// The components of a class, on a sheet, fitted or not, that hold all words of a
    /// query: every one of them, by designator, cut to a page.
    pub fn filter_components(
        &self,
        query: Option<&str>,
        refdes_class: Option<&str>,
        subsystem: Option<&str>,
        dnp: Option<bool>,
        limit: u32,
        offset: u32,
    ) -> (r: FilterEnvelope)
        ensures
            self.filter_answer(
                r,
                self.passing(
                    self.components.len() as int,
                    terms_of(opt_str(query)),
                    opt_str(refdes_class),
                    self.filter_for(opt_str(subsystem)),
                    dnp,
                ),
                self.note_for(opt_str(subsystem)),
                limit,
                offset,
            ),
            rows_of_class(r, opt_str(refdes_class)),
    {
        let terms = match query {
            Some(q) => split_terms(q),
            None => Vec::new(),
        };
        let class = match refdes_class {
            Some(c) => Some(c.to_lowercase()),
            None => None,
        };
        let (filter, subsystem_note) = self.subsystem_filter(subsystem);
        let ghost f = self.filter_for(opt_str(subsystem));
        let ghost words = terms_of(opt_str(query));
        assert(texts(terms@) =~= words);
        let mut matches: Vec<usize> = Vec::new();
        let mut i: usize = 0;
        assert(places(matches@) =~= Seq::<int>::empty());
        while i < self.components.len()
            invariant
                i <= self.components.len(),
                texts(terms@) == words,
                opt_view(filter) == f,
                opt_text(class) == (match opt_str(refdes_class) {
                    Some(k) => Some(lowercase(k)),
                    None => None,
                }),
                places(matches@) == self.passing(
                    i as int,
                    words,
                    opt_str(refdes_class),
                    f,
                    dnp,
                ),
                forall|k: int|
                    0 <= k < matches.len() ==> #[trigger] matches@[k] < self.components.len(),
            decreases self.components.len() - i,
        {
            let ghost was = matches@;
            if self.test_component(i, &terms, &class, &filter, dnp, Ghost(opt_str(refdes_class))) {
                matches.push(i);
                assert(places(matches@) =~= places(was).push(i as int));
            }
            i += 1;
        }
        let sorted = self.sort_components(&matches);
        let ghost all = places(sorted@);
        let (from, to) = page_bounds(sorted.len(), offset, limit);
        let ghost shown = page(all, offset as int, limit as int);
        let mut rows: Vec<FilterRow> = Vec::new();
        let mut k: usize = from;
        while k < to
            invariant
                from <= k <= to <= sorted.len(),
                all == places(sorted@),
                shown == all.subrange(from as int, to as int),
                rows.len() == k - from,
                forall|j: int| 0 <= j < sorted.len() ==> #[trigger] sorted@[j] < self.components.len(),
                forall|j: int| 0 <= j < rows.len() ==> self.row_is(#[trigger] rows@[j], shown[j]),
            decreases to - k,
        {
            assert(shown[k - from] == sorted@[k as int]);
            rows.push(self.filter_row(sorted[k]));
            k += 1;
        }
        let r = FilterEnvelope {
            total: matches.len(),
            offset,
            limit,
            returned: rows.len(),
            subsystem_note,
            rows,
        };
        proof {
            lemma_rows_of_class(
                self,
                r,
                opt_str(query),
                opt_str(refdes_class),
                opt_str(subsystem),
                dnp,
                limit,
                offset,
            );
        }
        r
    }
}

/// The items at the places that `order` lists.
pub fn pick(ids: &Vec<usize>, order: &Vec<usize>) -> (r: Vec<usize>)
    requires
        forall|i: int| 0 <= i < order.len() ==> #[trigger] order@[i] < ids.len(),
    ensures
        places(r@) == arranged(places(ids@), places(order@)),
        r.len() == order.len(),
        forall|i: int| 0 <= i < r.len() ==> #[trigger] r@[i] == ids@[order@[i] as int],
{
    let mut out: Vec<usize> = Vec::new();
    let mut k: usize = 0;
    while k < order.len()
        invariant
            k <= order.len(),
            out.len() == k,
            forall|i: int| 0 <= i < order.len() ==> #[trigger] order@[i] < ids.len(),
            forall|i: int| 0 <= i < k ==> #[trigger] out@[i] == ids@[order@[i] as int],
        decreases order.len() - k,
    {
        out.push(ids[order[k]]);
        k += 1;
    }
    assert(places(out@) =~= arranged(places(ids@), places(order@)));
    out
}

/// A page of filtered components is cut from the list of all that pass, whose number
/// it states whatever page was asked for.
pub proof fn lemma_filter_pages(
    d: &Design,
    a: FilterEnvelope,
    b: FilterEnvelope,
    all: Seq<int>,
    note: Option<Seq<char>>,
    first: u32,
    second: u32,
    offset: u32,
)
    requires
        d.filter_answer(a, all, note, first, offset),
        d.filter_answer(b, all, note, second, (offset + first) as u32),
        offset + first <= u32::MAX,
    ensures
        a.total == b.total,
        d.rows_are(
            a.rows@ + b.rows@,
            page(d.by_refdes(all), offset as int, first + second),
        ),
{
    let s = d.by_refdes(all);
    crate::lists::lemma_pages(s, offset as int, first as int, second as int);
    let pa = page(s, offset as int, first as int);
    let pb = page(s, offset + first, second as int);
    let both = a.rows@ + b.rows@;
    assert forall|i: int| 0 <= i < both.len() implies d.row_is(#[trigger] both[i], (pa + pb)[i]) by {
        if i < a.rows.len() {
            assert(d.row_is(a.rows@[i], pa[i]));
        } else {
            assert(d.row_is(b.rows@[i - a.rows.len()], pb[i - a.rows.len()]));
        }
    }
}

/// A word without spaces occurs in a text made of parts with spaces between them exactly
/// when it occurs in one of the parts.
proof fn lemma_occurs_in_part(x: Seq<char>, s: Seq<char>, t: Seq<char>)
    requires
        t.len() > 0,
        !t.contains(' '),
        x.len() == 0 || x.last() == ' ',
    ensures
        contains(x + (s + " "@), t) <==> contains(x, t) || contains(s, t),
        (x + (s + " "@)).last() == ' ',
{
    reveal_strlit(" ");
    let all = x + (s + " "@);
    if contains(x, t) {
        let i = choose|i: int| #[trigger] occurs_at(x, t, i);
        assert(all.subrange(i, i + t.len()) =~= x.subrange(i, i + t.len()));
        assert(occurs_at(all, t, i));
    }
    if contains(s, t) {
        let i = choose|i: int| #[trigger] occurs_at(s, t, i);
        assert(all.subrange(x.len() + i, x.len() + i + t.len()) =~= s.subrange(i, i + t.len()));
        assert(occurs_at(all, t, x.len() + i));
    }
    if contains(all, t) {
        let i = choose|i: int| #[trigger] occurs_at(all, t, i);
        let a = x.len() as int;
        let b = (x.len() + s.len()) as int;
        if i + t.len() <= a {
            assert(x.subrange(i, i + t.len()) =~= all.subrange(i, i + t.len()));
            assert(occurs_at(x, t, i));
        } else if i >= a && i + t.len() <= b {
            assert(s.subrange(i - a, i - a + t.len()) =~= all.subrange(i, i + t.len()));
            assert(occurs_at(s, t, i - a));
        } else if i < a {
            assert(all.subrange(i, i + t.len())[a - 1 - i] == all[a - 1]);
            assert(t[a - 1 - i] == ' ');
            assert(t.contains(' '));
        } else {
            assert(all.subrange(i, i + t.len())[b - i] == all[b]);
            assert(t[b - i] == ' ');
            assert(t.contains(' '));
        }
    }
}

proof fn lemma_occurs_in_opt(x: Seq<char>, o: Option<Seq<char>>, t: Seq<char>)
    requires
        t.len() > 0,
        !t.contains(' '),
        x.len() == 0 || x.last() == ' ',
    ensures
        contains(x + opt_part(o), t) <==> contains(x, t) || opt_holds(o, t),
        x.len() > 0 ==> (x + opt_part(o)).len() > 0,
        (x + opt_part(o)).len() == 0 || (x + opt_part(o)).last() == ' ',
{
    match o {
        Some(s) => lemma_occurs_in_part(x, lowercase(s), t),
        None => {
            assert(x + Seq::<char>::empty() =~= x);
        },
    }
}

/// A word occurs in a text, letter case aside.
pub open spec fn opt_holds(o: Option<Seq<char>>, t: Seq<char>) -> bool {
    o matches Some(s) && contains(lowercase(s), t)
}

proof fn lemma_occurs_in_values(
    x: Seq<char>,
    rows: Seq<(Seq<char>, Option<String>)>,
    t: Seq<char>,
)
    requires
        t.len() > 0,
        !t.contains(' '),
        x.len() == 0 || x.last() == ' ',
    ensures
        contains(x + values_text(rows), t) <==> contains(x, t) || exists|i: int|
            0 <= i < rows.len() && opt_holds(opt_text((#[trigger] rows[i]).1), t),
        (x + values_text(rows)).len() == 0 || (x + values_text(rows)).last() == ' ',
    decreases rows.len(),
{
    if rows.len() == 0 {
        assert(x + Seq::<char>::empty() =~= x);
    } else {
        let front = rows.drop_last();
        lemma_occurs_in_values(x, front, t);
        let before = x + values_text(front);
        lemma_occurs_in_opt(before, opt_text(rows.last().1), t);
        assert(x + values_text(rows) =~= before + opt_part(opt_text(rows.last().1)));
        if exists|i: int| 0 <= i < rows.len() && opt_holds(opt_text((#[trigger] rows[i]).1), t) {
            let i = choose|i: int|
                0 <= i < rows.len() && opt_holds(opt_text((#[trigger] rows[i]).1), t);
            if i < front.len() {
                assert(front[i] == rows[i]);
            }
        }
        if exists|i: int| 0 <= i < front.len() && opt_holds(opt_text((#[trigger] front[i]).1), t) {
            let i = choose|i: int|
                0 <= i < front.len() && opt_holds(opt_text((#[trigger] front[i]).1), t);
            assert(rows[i] == front[i]);
        }
        if opt_holds(opt_text(rows.last().1), t) {
            assert(opt_holds(opt_text(rows[rows.len() - 1].1), t));
        }
    }
}

/// A component holds a word of a query exactly when one of its fields or one of its
/// property values does: neither their order nor what stands between them matters.
pub proof fn lemma_search_text(c: Component, t: Seq<char>)
    requires
        t.len() > 0,
        !t.contains(' '),
    ensures
        contains(search_text(c), t) <==> {
            ||| contains(lowercase(c.refdes@), t)
            ||| contains(lowercase(c.value@), t)
            ||| opt_holds(opt_text(c.description), t)
            ||| opt_holds(opt_text(c.footprint), t)
            ||| opt_holds(opt_text(c.sheet), t)
            ||| exists|i: int|
                0 <= i < c.properties.rows().len() && opt_holds(
                    opt_text((#[trigger] c.properties.rows()[i]).1),
                    t,
                )
        },
{
    let e = Seq::<char>::empty();
    assert(!contains(e, t)) by {
        if contains(e, t) {
            let i = choose|i: int| #[trigger] occurs_at(e, t, i);
        }
    }
    lemma_occurs_in_part(e, lowercase(c.refdes@), t);
    let x1 = e + part_text(c.refdes@);
    lemma_occurs_in_part(x1, lowercase(c.value@), t);
    let x2 = x1 + part_text(c.value@);
    lemma_occurs_in_opt(x2, opt_text(c.description), t);
    let x3 = x2 + opt_part(opt_text(c.description));
    lemma_occurs_in_opt(x3, opt_text(c.footprint), t);
    let x4 = x3 + opt_part(opt_text(c.footprint));
    lemma_occurs_in_opt(x4, opt_text(c.sheet), t);
    let x5 = x4 + opt_part(opt_text(c.sheet));
    lemma_occurs_in_values(x5, c.properties.rows(), t);
    assert(x5 + values_text(c.properties.rows()) =~= search_text(c));
}

/// A sheet that the design has is taken at face value, with nothing to say of it: one of
/// a component, or one of the design's paths, parts or not.
pub proof fn lemma_known_sheet_is_not_widened(d: &Design, arg: Seq<char>, i: int)
    requires
        0 <= i < d.known_sheets().len(),
        d.known_sheets()[i] == Some(arg),
    ensures
        d.filter_for(Some(arg)) == parsed_filter(Some(arg)),
        d.note_for(Some(arg)) is None,
{
    if let Some(f) = parsed_filter(Some(arg)) {
        if let Selector::Path(p) = f {
            assert(p.take(p.len() as int) =~= p);
            assert(selects(f, d.known_sheets()[i]));
        }
    }
}

} // verus!
