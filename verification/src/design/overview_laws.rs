//! What an overview counts and lists, in terms of what the design says of each part and
//! net.
use vstd::prelude::*;

use super::classes::{class_of, is_connector_class, natural_key};
use super::facts::{lemma_class_letters, lemma_comp_pins, lemma_count_is_size, lemma_lettered};
use super::facts::{lemma_net_count, lemma_net_pins, lemma_sorted_page, lettered, pins_where};
use super::facts::sits_on;
use super::overview::{group_key, subsystem_name, subsystem_of, ConnectorRow, OverviewEnvelope};
use super::overview::{RailRow, SubsystemRow};
use super::rails::RailReading;
use super::sheets::display_name;
use super::{Component, Design};
use crate::lists::{lemma_count_where, page};
use crate::parser::netlist::opt_text;
use crate::ranking::{in_order, key_order, lemma_ranked, mark_order, ranked, Mark};
use crate::tally::{distinct, lemma_distinct, occurrences};
use crate::text::{text_order, then_order};

verus! {

/// The part is on the sheet: of `None`, on no sheet, or on one without a name.
pub open spec fn drawn_on(c: Component, sheet: Option<Seq<char>>) -> bool {
    match sheet {
        Some(path) => path.len() > 0 && c.sheet.is_some() && c.sheet.unwrap()@ == path,
        None => c.sheet.is_none() || c.sheet.unwrap()@.len() == 0,
    }
}

proof fn lemma_occurrences_are<A>(s: Seq<A>, a: A)
    ensures
        Set::new(|i: int| 0 <= i < s.len() && s[i] == a).finite(),
        occurrences(s, a) == Set::new(|i: int| 0 <= i < s.len() && s[i] == a).len(),
    decreases s.len(),
{
    let all = Set::new(|i: int| 0 <= i < s.len() && s[i] == a);
    if s.len() == 0 {
        assert(all =~= Set::empty());
    } else {
        let t = s.drop_last();
        lemma_occurrences_are(t, a);
        let some = Set::new(|i: int| 0 <= i < t.len() && t[i] == a);
        if s.last() == a {
            assert(all =~= some.insert(s.len() - 1));
        } else {
            assert(all =~= some);
        }
    }
}

/// The larger count first, and where they tie by name.
pub open spec fn larger_first(m: nat, a: Seq<char>, n: nat, b: Seq<char>) -> bool {
    m > n || (m == n && !(text_order(a, b) is Greater))
}

proof fn lemma_larger_first(m: nat, a: Seq<char>, n: nat, b: Seq<char>)
    requires
        !(key_order(group_key(m, a), group_key(n, b)) is Greater),
    ensures
        larger_first(m, a, n, b),
{
    let x = group_key(m, a);
    let y = group_key(n, b);
    assert(key_order(x, y) == then_order(
        mark_order(x[0], y[0]),
        key_order(x.skip(1), y.skip(1)),
    ));
    let u = x.skip(1);
    let v = y.skip(1);
    assert(u[0] == Mark::Text(a) && v[0] == Mark::Text(b));
    assert(u.skip(1).len() == 0 && v.skip(1).len() == 0);
    assert(key_order(u.skip(1), v.skip(1)) is Equal);
    assert(key_order(u, v) == then_order(
        mark_order(u[0], v[0]),
        key_order(u.skip(1), v.skip(1)),
    ));
}

proof fn lemma_sheet_groups(d: &Design)
    ensures
        d.subsystems().no_duplicates(),
        forall|g: Option<Seq<char>>| #[trigger]
            d.subsystems().contains(g) <==> exists|c: int|
                0 <= c < d.components.len() && drawn_on(#[trigger] d.components@[c], g),
        forall|g: Option<Seq<char>>| #[trigger]
            d.subsystem_size(g) == Set::new(
                |c: int| 0 <= c < d.components.len() && drawn_on(d.components@[c], g),
            ).len() || (g is Some && g.unwrap().len() == 0),
        forall|i: int, j: int|
            0 <= i < j < d.subsystems().len() ==> larger_first(
                d.subsystem_size(#[trigger] d.subsystems()[i]),
                subsystem_name(d.subsystems()[i]),
                d.subsystem_size(#[trigger] d.subsystems()[j]),
                subsystem_name(d.subsystems()[j]),
            ),
{
    let labels = d.subsystem_labels();
    let all = distinct(labels);
    let keys = all.map_values(
        |g: Option<Seq<char>>| group_key(d.subsystem_size(g), subsystem_name(g)),
    );
    let groups = d.subsystems();
    lemma_distinct(labels);
    lemma_ranked(keys);
    lemma_sorted_page(all, keys, 0, all.len() as int);
    assert(page(groups, 0, all.len() as int) =~= groups);
    assert forall|c: int, g: Option<Seq<char>>|
        0 <= c < d.components.len() implies (#[trigger] drawn_on(d.components@[c], g) <==> labels[c]
        == g) by {}
    assert forall|g: Option<Seq<char>>| #[trigger] groups.contains(g) <==> exists|c: int|
        0 <= c < d.components.len() && drawn_on(#[trigger] d.components@[c], g) by {
        if groups.contains(g) {
            let i = choose|i: int| 0 <= i < groups.len() && groups[i] == g;
            assert(all.contains(groups[i]));
            assert(labels.contains(g));
            let c = choose|c: int| 0 <= c < labels.len() && labels[c] == g;
            assert(drawn_on(d.components@[c], g));
        }
        if exists|c: int| 0 <= c < d.components.len() && drawn_on(#[trigger] d.components@[c], g) {
            let c = choose|c: int|
                0 <= c < d.components.len() && drawn_on(#[trigger] d.components@[c], g);
            assert(labels[c] == g);
            assert(all.contains(g));
        }
    }
    assert forall|g: Option<Seq<char>>| #[trigger]
        d.subsystem_size(g) == Set::new(
            |c: int| 0 <= c < d.components.len() && drawn_on(d.components@[c], g),
        ).len() || (g is Some && g.unwrap().len() == 0) by {
        lemma_occurrences_are(labels, g);
        assert(Set::new(|i: int| 0 <= i < labels.len() && labels[i] == g) =~= Set::new(
            |c: int| 0 <= c < d.components.len() && drawn_on(d.components@[c], g),
        ));
    }
    let p = ranked(keys);
    assert forall|i: int, j: int| 0 <= i < j < groups.len() implies larger_first(
        d.subsystem_size(#[trigger] groups[i]),
        subsystem_name(groups[i]),
        d.subsystem_size(#[trigger] groups[j]),
        subsystem_name(groups[j]),
    ) by {
        assert(groups[i] == all[p[i]] && groups[j] == all[p[j]]);
        lemma_larger_first(
            d.subsystem_size(groups[i]),
            subsystem_name(groups[i]),
            d.subsystem_size(groups[j]),
            subsystem_name(groups[j]),
        );
    }
}

/// The subsystems are the sheets that parts are on, each once, and parts on none are one
/// more; each is shown with how many parts are on it, the largest first.
pub proof fn lemma_subsystems_told(d: &Design, rows: Seq<SubsystemRow>)
    requires
        d.subsystem_rows_are(rows, d.subsystems()),
    ensures
        forall|i: int|
            0 <= i < rows.len() ==> {
                let r = #[trigger] rows[i];
                &&& r.component_count == Set::new(
                    |c: int|
                        0 <= c < d.components.len() && drawn_on(d.components@[c], opt_text(r.path)),
                ).len()
                &&& opt_text(r.path) matches Some(path) ==> r.name@ == display_name(path)
                &&& opt_text(r.path) is None ==> r.name@ == "(unassigned)"@
            },
        forall|i: int, j: int|
            0 <= i < j < rows.len() ==> opt_text((#[trigger] rows[i]).path) != opt_text(
                (#[trigger] rows[j]).path,
            ) && larger_first(
                rows[i].component_count as nat,
                rows[i].name@,
                rows[j].component_count as nat,
                rows[j].name@,
            ),
        forall|c: int|
            0 <= c < d.components.len() ==> sheet_listed(rows, #[trigger] d.components@[c]),
{
    lemma_sheet_groups(d);
    let groups = d.subsystems();
    assert forall|i: int| 0 <= i < rows.len() implies {
        let r = #[trigger] rows[i];
        &&& r.component_count == Set::new(
            |c: int|
                0 <= c < d.components.len() && drawn_on(d.components@[c], opt_text(r.path)),
        ).len()
        &&& opt_text(r.path) matches Some(path) ==> r.name@ == display_name(path)
        &&& opt_text(r.path) is None ==> r.name@ == "(unassigned)"@
    } by {
        assert(d.subsystem_row_is(rows[i], groups[i]));
        assert(groups.contains(groups[i]));
        let c = choose|c: int|
            0 <= c < d.components.len() && drawn_on(#[trigger] d.components@[c], groups[i]);
        assert(drawn_on(d.components@[c], groups[i]));
    }
    assert forall|i: int, j: int| 0 <= i < j < rows.len() implies opt_text(
        (#[trigger] rows[i]).path,
    ) != opt_text((#[trigger] rows[j]).path) && larger_first(
        rows[i].component_count as nat,
        rows[i].name@,
        rows[j].component_count as nat,
        rows[j].name@,
    ) by {
        assert(d.subsystem_row_is(rows[i], groups[i]));
        assert(d.subsystem_row_is(rows[j], groups[j]));
    }
    assert forall|c: int| 0 <= c < d.components.len() implies sheet_listed(
        rows,
        #[trigger] d.components@[c],
    ) by {
        let g = subsystem_of(d.components@[c]);
        assert(drawn_on(d.components@[c], g));
        assert(groups.contains(g));
        let i = choose|i: int| 0 <= i < groups.len() && groups[i] == g;
        assert(d.subsystem_row_is(rows[i], groups[i]));
        assert(drawn_on(d.components@[c], opt_text(rows[i].path)));
    }
}

/// One of the rows is that of the sheet that the part is on.
pub open spec fn sheet_listed(rows: Seq<SubsystemRow>, c: Component) -> bool {
    exists|i: int| 0 <= i < rows.len() && drawn_on(c, opt_text((#[trigger] rows[i]).path))
}

/// An overview shows the largest subsystems, fifteen of them where there are as many, each
/// once with how many parts are on it, and leaves out none that is larger.
pub proof fn lemma_overview_subsystems(
    d: &Design,
    e: OverviewEnvelope,
    rails: Seq<RailReading>,
) -> (shown: Seq<Option<Seq<char>>>)
    requires
        d.overview_answer(e, rails),
    ensures
        shown.len() == e.subsystems.len(),
        shown.no_duplicates(),
        e.subsystems.len() <= 15,
        forall|i: int|
            0 <= i < shown.len() ==> {
                let r = #[trigger] e.subsystems@[i];
                &&& r.component_count == Set::new(
                    |c: int| 0 <= c < d.components.len() && drawn_on(d.components@[c], shown[i]),
                ).len()
                &&& shown[i] matches Some(path) ==> r.name@ == display_name(path)
                &&& shown[i] is None ==> r.name@ == "(unassigned)"@
            },
        forall|i: int, j: int|
            0 <= i < j < shown.len() ==> larger_first(
                (#[trigger] e.subsystems@[i]).component_count as nat,
                e.subsystems@[i].name@,
                (#[trigger] e.subsystems@[j]).component_count as nat,
                e.subsystems@[j].name@,
            ),
        forall|c: int|
            0 <= c < d.components.len() ==> sheet_shown_or_small(
                d,
                e,
                shown,
                #[trigger] d.components@[c],
            ),
{
    lemma_sheet_groups(d);
    let groups = d.subsystems();
    let shown = page(groups, 0, 15);
    assert forall|i: int| 0 <= i < shown.len() implies #[trigger] shown[i] == groups[i] by {}
    assert forall|i: int| 0 <= i < shown.len() implies {
        let r = #[trigger] e.subsystems@[i];
        &&& r.component_count == Set::new(
            |c: int| 0 <= c < d.components.len() && drawn_on(d.components@[c], shown[i]),
        ).len()
        &&& shown[i] matches Some(path) ==> r.name@ == display_name(path)
        &&& shown[i] is None ==> r.name@ == "(unassigned)"@
    } by {
        assert(groups.contains(groups[i]));
        let c = choose|c: int|
            0 <= c < d.components.len() && drawn_on(#[trigger] d.components@[c], groups[i]);
        assert(drawn_on(d.components@[c], groups[i]));
        assert(shown[i] == groups[i]);
    }
    assert forall|i: int, j: int| 0 <= i < j < shown.len() implies larger_first(
        (#[trigger] e.subsystems@[i]).component_count as nat,
        e.subsystems@[i].name@,
        (#[trigger] e.subsystems@[j]).component_count as nat,
        e.subsystems@[j].name@,
    ) by {
        assert(shown[i] == groups[i] && shown[j] == groups[j]);
    }
    assert forall|i: int, j: int| 0 <= i < shown.len() && 0 <= j < shown.len() && i
        != j implies shown[i] != shown[j] by {
        assert(groups[i] != groups[j]);
    }
    assert forall|c: int| 0 <= c < d.components.len() implies sheet_shown_or_small(
        d,
        e,
        shown,
        #[trigger] d.components@[c],
    ) by {
        let g = subsystem_of(d.components@[c]);
        assert(drawn_on(d.components@[c], g));
        assert(groups.contains(g));
        let k = choose|k: int| 0 <= k < groups.len() && groups[k] == g;
        if k < shown.len() {
            assert(shown[k] == g);
        } else {
            assert forall|i: int| 0 <= i < shown.len() implies (
            #[trigger] e.subsystems@[i]).component_count >= Set::new(
                |b: int| 0 <= b < d.components.len() && drawn_on(d.components@[b], g),
            ).len() by {
                assert(shown[i] == groups[i]);
                assert(larger_first(
                    d.subsystem_size(groups[i]),
                    subsystem_name(groups[i]),
                    d.subsystem_size(groups[k]),
                    subsystem_name(groups[k]),
                ));
            }
            assert(drawn_on(d.components@[c], g));
        }
    }
    shown
}

/// The sheet that the part is on is shown, or no more parts are on it than on any that is.
pub open spec fn sheet_shown_or_small(
    d: &Design,
    e: OverviewEnvelope,
    shown: Seq<Option<Seq<char>>>,
    c: Component,
) -> bool {
    exists|g: Option<Seq<char>>| #[trigger]
        drawn_on(c, g) && (shown.contains(g) || (e.subsystems.len() == 15 && forall|i: int|
            0 <= i < e.subsystems.len() ==> (#[trigger] e.subsystems@[i]).component_count
                >= Set::new(
                |b: int| 0 <= b < d.components.len() && drawn_on(d.components@[b], g),
            ).len()))
}

/// An overview counts parts, nets and pins, the parts that are not fitted and those left
/// out of the bill of materials.
pub proof fn lemma_overview_counts(d: &Design, e: OverviewEnvelope, rails: Seq<RailReading>)
    requires
        d.overview_answer(e, rails),
    ensures
        e.counts.components == d.components.len(),
        e.counts.nets == d.nets.len(),
        e.counts.pins == d.pins.len(),
        e.counts.dnp_components == Set::new(
            |c: int| 0 <= c < d.components.len() && d.components@[c].dnp,
        ).len(),
        e.counts.bom_excluded_components == Set::new(
            |c: int| 0 <= c < d.components.len() && d.components@[c].exclude_from_bom,
        ).len(),
{
    lemma_flag_counts(d, d.components.len() as int);
}

proof fn lemma_flag_counts(d: &Design, k: int)
    requires
        0 <= k <= d.components.len(),
    ensures
        Set::new(|c: int| 0 <= c < k && d.components@[c].dnp).finite(),
        d.dnp_count(k) == Set::new(|c: int| 0 <= c < k && d.components@[c].dnp).len(),
        Set::new(|c: int| 0 <= c < k && d.components@[c].exclude_from_bom).finite(),
        d.excluded_count(k) == Set::new(
            |c: int| 0 <= c < k && d.components@[c].exclude_from_bom,
        ).len(),
    decreases k,
{
    let a = Set::new(|c: int| 0 <= c < k && d.components@[c].dnp);
    let b = Set::new(|c: int| 0 <= c < k && d.components@[c].exclude_from_bom);
    if k == 0 {
        assert(a =~= Set::empty());
        assert(b =~= Set::empty());
    } else {
        lemma_flag_counts(d, k - 1);
        let x = Set::new(|c: int| 0 <= c < k - 1 && d.components@[c].dnp);
        let y = Set::new(|c: int| 0 <= c < k - 1 && d.components@[c].exclude_from_bom);
        if d.components@[k - 1].dnp {
            assert(a =~= x.insert(k - 1));
        } else {
            assert(a =~= x);
        }
        if d.components@[k - 1].exclude_from_bom {
            assert(b =~= y.insert(k - 1));
        } else {
            assert(b =~= y);
        }
    }
}

/// An overview counts the parts of each class, every class once, the largest first.
pub proof fn lemma_overview_classes(d: &Design, e: OverviewEnvelope, rails: Seq<RailReading>)
    requires
        d.overview_answer(e, rails),
    ensures
        forall|i: int|
            0 <= i < e.refdes_classes.len() ==> {
                let r = #[trigger] e.refdes_classes@[i];
                r.count == Set::new(
                    |c: int|
                        0 <= c < d.components.len() && lettered(
                            d.components@[c].refdes@,
                            r.class@,
                        ),
                ).len()
            },
        forall|i: int, j: int|
            0 <= i < j < e.refdes_classes.len() ==> (#[trigger] e.refdes_classes@[i]).class@ != (
            #[trigger] e.refdes_classes@[j]).class@ && larger_first(
                e.refdes_classes@[i].count as nat,
                e.refdes_classes@[i].class@,
                e.refdes_classes@[j].count as nat,
                e.refdes_classes@[j].class@,
            ),
        forall|c: int|
            0 <= c < d.components.len() ==> class_listed(e, #[trigger] d.components@[c]),
{
    let labels = d.class_labels();
    let all = distinct(labels);
    let keys = all.map_values(
        |g: Option<Seq<char>>| group_key(occurrences(d.class_labels(), g), g.unwrap()),
    );
    let groups = d.classes();
    let p = ranked(keys);
    lemma_distinct(labels);
    lemma_ranked(keys);
    lemma_sorted_page(all, keys, 0, all.len() as int);
    assert(page(groups, 0, all.len() as int) =~= groups);
    assert forall|i: int| 0 <= i < e.refdes_classes.len() implies {
        let r = #[trigger] e.refdes_classes@[i];
        r.count == Set::new(
            |c: int|
                0 <= c < d.components.len() && lettered(d.components@[c].refdes@, r.class@),
        ).len()
    } by {
        let r = e.refdes_classes@[i];
        lemma_occurrences_are(labels, groups[i]);
        assert forall|c: int| 0 <= c < d.components.len() implies (labels[c] == groups[i]
            <==> #[trigger] lettered(d.components@[c].refdes@, r.class@)) by {
            lemma_lettered(d.components@[c].refdes@, r.class@);
        }
        assert(Set::new(|k: int| 0 <= k < labels.len() && labels[k] == groups[i]) =~= Set::new(
            |c: int|
                0 <= c < d.components.len() && lettered(d.components@[c].refdes@, r.class@),
        ));
    }
    assert forall|i: int, j: int| 0 <= i < j < e.refdes_classes.len() implies (
    #[trigger] e.refdes_classes@[i]).class@ != (#[trigger] e.refdes_classes@[j]).class@
        && larger_first(
        e.refdes_classes@[i].count as nat,
        e.refdes_classes@[i].class@,
        e.refdes_classes@[j].count as nat,
        e.refdes_classes@[j].class@,
    ) by {
        assert(groups[i] == all[p[i]] && groups[j] == all[p[j]]);
        assert(groups[i] != groups[j]);
        lemma_larger_first(
            occurrences(labels, groups[i]),
            groups[i].unwrap(),
            occurrences(labels, groups[j]),
            groups[j].unwrap(),
        );
    }
    assert forall|c: int| 0 <= c < d.components.len() implies class_listed(
        e,
        #[trigger] d.components@[c],
    ) by {
        assert(labels[c] == Some(class_of(d.components@[c].refdes@)));
        assert(labels.contains(labels[c]));
        assert(all.contains(labels[c]));
        assert(groups.contains(labels[c]));
        let i = choose|i: int| 0 <= i < groups.len() && groups[i] == labels[c];
        lemma_lettered(d.components@[c].refdes@, e.refdes_classes@[i].class@);
        assert(lettered(d.components@[c].refdes@, e.refdes_classes@[i].class@));
    }
}

/// One of the classes is that of the part.
pub open spec fn class_listed(e: OverviewEnvelope, c: Component) -> bool {
    exists|i: int|
        0 <= i < e.refdes_classes.len() && lettered(
            c.refdes@,
            (#[trigger] e.refdes_classes@[i]).class@,
        )
}

/// A part whose designator starts with J, P, CN, RJ or USB.
pub open spec fn plugs(c: Component) -> bool {
    lettered(c.refdes@, seq!['J']) || lettered(c.refdes@, seq!['P']) || lettered(
        c.refdes@,
        seq!['C', 'N'],
    ) || lettered(c.refdes@, seq!['R', 'J']) || lettered(c.refdes@, seq!['U', 'S', 'B'])
}

pub proof fn lemma_plugs(c: Component)
    ensures
        is_connector_class(class_of(c.refdes@)) <==> plugs(c),
{
    lemma_class_letters();
    lemma_lettered(c.refdes@, seq!['J']);
    lemma_lettered(c.refdes@, seq!['P']);
    lemma_lettered(c.refdes@, seq!['C', 'N']);
    lemma_lettered(c.refdes@, seq!['R', 'J']);
    lemma_lettered(c.refdes@, seq!['U', 'S', 'B']);
}

proof fn lemma_connector_list(d: &Design, k: int)
    requires
        0 <= k <= d.components.len(),
    ensures
        d.connector_list(k).no_duplicates(),
        forall|c: int| #[trigger]
            d.connector_list(k).contains(c) <==> 0 <= c < k && plugs(d.components@[c]),
    decreases k,
{
    if k > 0 {
        lemma_connector_list(d, k - 1);
        lemma_plugs(d.components@[k - 1]);
        let front = d.connector_list(k - 1);
        let all = d.connector_list(k);
        let yes = plugs(d.components@[k - 1]);
        lemma_grown(front, all, k - 1, yes);
    }
}

/// A list that grew by an item that was not on it, or stayed, has what it had and perhaps
/// the item.
proof fn lemma_grown(front: Seq<int>, all: Seq<int>, x: int, yes: bool)
    requires
        all == (if yes {
            front.push(x)
        } else {
            front
        }),
        front.no_duplicates(),
        !front.contains(x),
    ensures
        all.no_duplicates(),
        forall|c: int| #[trigger] all.contains(c) <==> front.contains(c) || (yes && c == x),
{
    assert forall|c: int| #[trigger] all.contains(c) <==> front.contains(c) || (yes && c == x) by {
        if front.contains(c) {
            let i = choose|i: int| 0 <= i < front.len() && front[i] == c;
            assert(all[i] == c);
        }
        if yes && c == x {
            assert(all[front.len() as int] == c);
        }
        if all.contains(c) {
            let i = choose|i: int| 0 <= i < all.len() && all[i] == c;
            if i < front.len() {
                assert(front[i] == c);
            }
        }
    }
    assert forall|i: int, j: int| 0 <= i < all.len() && 0 <= j < all.len() && i != j implies all[i]
        != all[j] by {
        if i < front.len() {
            assert(front.contains(front[i]));
        }
        if j < front.len() {
            assert(front.contains(front[j]));
        }
    }
}

/// The row tells of the connector.
pub open spec fn tells_connector(d: &Design, r: ConnectorRow, c: int) -> bool {
    &&& r.refdes@ == d.components@[c].refdes@
    &&& r.value@ == d.components@[c].value@
    &&& r.pin_count == Set::new(|p: int| sits_on(d, p, c)).len()
    &&& r.dnp == d.components@[c].dnp
}

/// An overview lists the connectors, each once, in natural order of their designators:
/// all of them, or the first fifty.
pub proof fn lemma_overview_connectors(
    d: &Design,
    e: OverviewEnvelope,
    rails: Seq<RailReading>,
) -> (shown: Seq<int>)
    requires
        d.wf(),
        d.overview_answer(e, rails),
    ensures
        shown.len() == e.connectors.len(),
        shown.no_duplicates(),
        e.connectors.len() <= 50,
        forall|i: int|
            0 <= i < shown.len() ==> 0 <= shown[i] < d.components.len() && plugs(
                d.components@[shown[i]],
            ) && tells_connector(d, #[trigger] e.connectors@[i], shown[i]),
        e.connectors.len() < 50 ==> forall|c: int|
            0 <= c < d.components.len() && plugs(#[trigger] d.components@[c]) ==> shown.contains(c),
        forall|i: int, j: int|
            0 <= i < j < shown.len() ==> in_order(
                natural_key(d.components@[#[trigger] shown[i]].refdes@),
                natural_key(d.components@[#[trigger] shown[j]].refdes@),
            ),
{
    let all = d.connector_list(d.components.len() as int);
    let keys = all.map_values(|c: int| d.refdes_key(c));
    let shown = d.shown_connectors();
    lemma_connector_list(d, d.components.len() as int);
    lemma_sorted_page(all, keys, 0, 50);
    lemma_ranked(keys);
    let p = ranked(keys);
    assert forall|i: int| 0 <= i < shown.len() implies 0 <= shown[i] < d.components.len() && plugs(
        d.components@[shown[i]],
    ) && tells_connector(d, #[trigger] e.connectors@[i], shown[i]) by {
        let c = shown[i];
        assert(all.contains(c));
        assert(d.connector_is(e.connectors@[i], c));
        lemma_comp_pins(d, c);
        let s = d.comp_pins(c);
        lemma_count_is_size(|q: int| true, s);
        lemma_count_where(|q: int| true, s);
        assert(Set::new(|x: int| s.contains(x) && (|q: int| true)(x)) =~= Set::new(
            |q: int| sits_on(d, q, c),
        ));
    }
    assert forall|i: int, j: int| 0 <= i < j < shown.len() implies in_order(
        natural_key(d.components@[#[trigger] shown[i]].refdes@),
        natural_key(d.components@[#[trigger] shown[j]].refdes@),
    ) by {
        assert(shown[i] == all[p[i]] && shown[j] == all[p[j]]);
        assert(keys[p[i]] == d.refdes_key(shown[i]) && keys[p[j]] == d.refdes_key(shown[j]));
    }
    shown
}

proof fn lemma_rail_nets(rails: Seq<RailReading>, k: int)
    requires
        0 <= k <= rails.len(),
    ensures
        Design::rail_nets(rails, k).no_duplicates(),
        forall|n: int| #[trigger]
            Design::rail_nets(rails, k).contains(n) <==> 0 <= n < k && rails[n].rail,
    decreases k,
{
    if k > 0 {
        lemma_rail_nets(rails, k - 1);
        let front = Design::rail_nets(rails, k - 1);
        lemma_grown(front, Design::rail_nets(rails, k), k - 1, rails[k - 1].rail);
    }
}

/// The row tells of the net and its score.
pub open spec fn tells_rail(d: &Design, r: RailRow, n: int, rails: Seq<RailReading>) -> bool {
    &&& r.net@ == d.nets@[n].name@
    &&& r.fanout == pins_where(d, n, |p: int| true).len()
    &&& r.hundredths == rails[n].hundredths
    &&& r.evidence@ == rails[n].evidence@
}

/// An overview lists the rails, each once, the surest first and of equals the busiest: all
/// of them, or the first twenty-five.
pub proof fn lemma_overview_rails(
    d: &Design,
    e: OverviewEnvelope,
    rails: Seq<RailReading>,
) -> (shown: Seq<int>)
    requires
        d.wf(),
        rails.len() == d.nets.len(),
        d.overview_answer(e, rails),
    ensures
        shown.len() == e.rails.len(),
        shown.no_duplicates(),
        e.rails.len() <= 25,
        forall|i: int|
            0 <= i < shown.len() ==> 0 <= shown[i] < d.nets.len() && rails[shown[i]].rail
                && tells_rail(d, #[trigger] e.rails@[i], shown[i], rails),
        e.rails.len() < 25 ==> forall|n: int|
            0 <= n < d.nets.len() && (#[trigger] rails[n]).rail ==> shown.contains(n),
        forall|i: int, j: int|
            0 <= i < j < e.rails.len() ==> {
                let a = #[trigger] e.rails@[i];
                let b = #[trigger] e.rails@[j];
                a.hundredths > b.hundredths || (a.hundredths == b.hundredths && a.fanout
                    >= b.fanout)
            },
{
    let all = Design::rail_nets(rails, d.nets.len() as int);
    let keys = all.map_values(
        |n: int|
            seq![
                Mark::Number(-(rails[n].hundredths as int)),
                Mark::Number(-(d.net_pins(n).len() as int)),
            ],
    );
    let shown = d.shown_rails(rails);
    lemma_rail_nets(rails, d.nets.len() as int);
    lemma_sorted_page(all, keys, 0, 25);
    lemma_ranked(keys);
    let p = ranked(keys);
    assert forall|i: int| 0 <= i < shown.len() implies 0 <= shown[i] < d.nets.len()
        && rails[shown[i]].rail && tells_rail(d, #[trigger] e.rails@[i], shown[i], rails) by {
        let n = shown[i];
        assert(all.contains(n));
        assert(d.rail_row_is(e.rails@[i], n, rails));
        lemma_net_pins(d, n);
        lemma_net_count(d, n, |q: int| true);
        lemma_count_where(|q: int| true, d.net_pins(n));
    }
    assert forall|i: int, j: int| 0 <= i < j < e.rails.len() implies {
        let a = #[trigger] e.rails@[i];
        let b = #[trigger] e.rails@[j];
        a.hundredths > b.hundredths || (a.hundredths == b.hundredths && a.fanout >= b.fanout)
    } by {
        assert(shown[i] == all[p[i]] && shown[j] == all[p[j]]);
        assert(d.rail_row_is(e.rails@[i], shown[i], rails));
        assert(d.rail_row_is(e.rails@[j], shown[j], rails));
        let x = keys[p[i]];
        let y = keys[p[j]];
        assert(key_order(x, y) == then_order(
            mark_order(x[0], y[0]),
            key_order(x.skip(1), y.skip(1)),
        ));
        let u = x.skip(1);
        let v = y.skip(1);
        assert(u[0] == x[1] && v[0] == y[1]);
        assert(key_order(u, v) == then_order(
            mark_order(u[0], v[0]),
            key_order(u.skip(1), v.skip(1)),
        ));
    }
    shown
}

/// An overview lists the nets with most pins, each once, the busiest first and of equals
/// by name, fifteen of them where there are as many, and none that it leaves out is
/// busier; and of the subsystems the fifteen largest.
pub proof fn lemma_overview_nets(
    d: &Design,
    e: OverviewEnvelope,
    rails: Seq<RailReading>,
) -> (shown: Seq<int>)
    requires
        d.wf(),
        d.overview_answer(e, rails),
    ensures
        shown.len() == e.top_nets_by_fanout.len(),
        shown.no_duplicates(),
        e.top_nets_by_fanout.len() == (if d.nets.len() < 15 {
            d.nets.len() as int
        } else {
            15
        }),
        forall|i: int|
            0 <= i < shown.len() ==> 0 <= shown[i] < d.nets.len() && (
            #[trigger] e.top_nets_by_fanout@[i]).net@ == d.nets@[shown[i]].name@
                && e.top_nets_by_fanout@[i].fanout == pins_where(
                d,
                shown[i],
                |p: int| true,
            ).len(),
        forall|i: int, n: int|
            0 <= i < shown.len() && 0 <= n < d.nets.len() && !shown.contains(n) ==> (
            #[trigger] e.top_nets_by_fanout@[i]).fanout >= (#[trigger] d.nets@[n]).pins.len(),
        forall|i: int, j: int|
            0 <= i < j < shown.len() ==> larger_first(
                (#[trigger] e.top_nets_by_fanout@[i]).fanout as nat,
                e.top_nets_by_fanout@[i].net@,
                (#[trigger] e.top_nets_by_fanout@[j]).fanout as nat,
                e.top_nets_by_fanout@[j].net@,
            ),
{
    let all = d.all_nets();
    let keys = all.map_values(|n: int| d.fanout_key(n));
    let shown = d.shown_nets();
    let sorted = d.busiest_first(all);
    let p = ranked(keys);
    lemma_sorted_page(all, keys, 0, 15);
    lemma_ranked(keys);
    assert(all.no_duplicates());
    assert forall|i: int| 0 <= i < shown.len() implies #[trigger] shown[i] == all[p[i]] by {}
    assert forall|i: int| 0 <= i < shown.len() implies 0 <= shown[i] < d.nets.len() && (
    #[trigger] e.top_nets_by_fanout@[i]).net@ == d.nets@[shown[i]].name@
        && e.top_nets_by_fanout@[i].fanout == pins_where(d, shown[i], |p: int| true).len()
        && e.top_nets_by_fanout@[i].fanout == d.nets@[shown[i]].pins.len() by {
        let n = shown[i];
        assert(n == all[p[i]]);
        lemma_net_pins(d, n);
        lemma_net_count(d, n, |q: int| true);
        lemma_count_where(|q: int| true, d.net_pins(n));
    }
    assert forall|x: int, y: int| 0 <= x < y < p.len() implies larger_first(
        d.nets@[#[trigger] p[x]].pins.len() as nat,
        d.nets@[p[x]].name@,
        d.nets@[#[trigger] p[y]].pins.len() as nat,
        d.nets@[p[y]].name@,
    ) by {
        assert(keys[p[x]] =~= group_key(d.nets@[p[x]].pins.len() as nat, d.nets@[p[x]].name@));
        assert(keys[p[y]] =~= group_key(d.nets@[p[y]].pins.len() as nat, d.nets@[p[y]].name@));
        lemma_larger_first(
            d.nets@[p[x]].pins.len() as nat,
            d.nets@[p[x]].name@,
            d.nets@[p[y]].pins.len() as nat,
            d.nets@[p[y]].name@,
        );
    }
    assert forall|i: int, j: int| 0 <= i < j < shown.len() implies larger_first(
        (#[trigger] e.top_nets_by_fanout@[i]).fanout as nat,
        e.top_nets_by_fanout@[i].net@,
        (#[trigger] e.top_nets_by_fanout@[j]).fanout as nat,
        e.top_nets_by_fanout@[j].net@,
    ) by {
        assert(shown[i] == p[i] && shown[j] == p[j]);
    }
    assert forall|i: int, n: int|
        0 <= i < shown.len() && 0 <= n < d.nets.len() && !shown.contains(n) implies (
    #[trigger] e.top_nets_by_fanout@[i]).fanout >= (#[trigger] d.nets@[n]).pins.len() by {
        assert(p.contains(n));
        let k = choose|k: int| 0 <= k < p.len() && p[k] == n;
        assert(shown[i] == p[i]);
        if k < shown.len() {
            assert(shown[k] == n);
        }
        assert(i < k);
    }
    shown
}

} // verus!
