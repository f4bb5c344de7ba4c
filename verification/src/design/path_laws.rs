//! What an answer about two pins says about the design.
use vstd::prelude::*;

use super::rails::RailReading;
use super::trace::{Verdict, PATH_DEPTH, PATH_ENDPOINTS};
use super::walk::LARGE_NET;
use super::walk_distance::{lemma_walk_is_shortest, lemma_walk_reports_all_in_depth};
use super::walk_laws::lemma_walk_is_sound;
use super::Design;
use crate::lists::lemma_first_where_found;

verus! {

/// A path that is found is real and none is shorter: its parts, one after the other, lead
/// from the first pin's net to that of a pin with the second's name, and no fewer do. One
/// over a rail leads to a rail with the name of the second pin's net.
pub proof fn lemma_path_is_shortest(d: &Design, p: int, q: int, rails: Seq<RailReading>)
    requires
        d.wf(),
        rails.len() == d.nets.len(),
        0 <= p < d.pins.len(),
        0 <= q < d.pins.len(),
    ensures
        match d.verdict(p, q, rails) {
            Verdict::Path(r) => {
                &&& d.label(r.pin) == d.label(q)
                &&& d.net_of(r.pin) matches Some(n) && d.leads_to(
                    d.path_rules(p),
                    rails,
                    r.via,
                    n,
                ) && d.is_nearest(d.path_rules(p), rails, n, r.depth)
                &&& r.depth == r.via.len()
                &&& r.depth <= PATH_DEPTH
            },
            Verdict::Rail(s) => {
                &&& rails[s.net].rail
                &&& d.net_of(q) matches Some(n) && d.nets@[n].name@ == d.nets@[s.net].name@
                &&& d.leads_to(d.path_rules(p), rails, s.via, s.net)
                &&& d.is_nearest(d.path_rules(p), rails, s.net, s.via.len() as int)
                &&& s.via.len() <= PATH_DEPTH
            },
            _ => true,
        },
{
    if d.net_of(p) is Some {
        assert(d.pins@[p].id.0 == p);
        let rules = d.path_rules(p);
        let w = d.path_walk(p, rails);
        lemma_walk_is_sound(d, rules, rails);
        lemma_walk_is_shortest(d, rules, rails);
        lemma_first_where_found(
            |i: int| d.label(w.endpoints[i].pin) == d.label(q),
            0,
            w.endpoints.len() as int,
        );
        if let Some(n) = d.net_of(q) {
            lemma_first_where_found(
                |i: int| d.nets@[w.rails[i].net].name@ == d.nets@[n].name@,
                0,
                w.rails.len() as int,
            );
        }
    }
}

/// A path is found wherever there is one: where parts, no more than are followed, lead to
/// the second pin's net without a rail or a large net on the way, the pin ends there, and
/// there are no more endpoints than are followed.
pub proof fn lemma_path_is_found(
    d: &Design,
    p: int,
    q: int,
    rails: Seq<RailReading>,
    chain: Seq<int>,
)
    requires
        d.wf(),
        rails.len() == d.nets.len(),
        0 <= p < d.pins.len(),
        0 <= q < d.pins.len(),
        d.net_of(p) is Some,
        d.net_of(q) matches Some(n) && d.leads_to(d.path_rules(p), rails, chain, n) && d.enters(
            d.path_rules(p),
            rails,
            n,
        ),
        chain.len() <= PATH_DEPTH,
        !d.passes(d.owner(q)),
        d.owner(q) != d.owner(p),
        d.path_walk(p, rails).endpoints.len() < PATH_ENDPOINTS,
    ensures
        d.verdict(p, q, rails) is Path || d.verdict(p, q, rails) is SameNet,
{
    assert(d.pins@[p].id.0 == p && d.pins@[q].id.0 == q);
    let rules = d.path_rules(p);
    let w = d.path_walk(p, rails);
    lemma_walk_reports_all_in_depth(d, rules, rails, chain, q);
    let i = choose|i: int|
        0 <= i < w.endpoints.len() && d.label((#[trigger] w.endpoints[i]).pin) == d.label(q);
    let named = |i: int| d.label(w.endpoints[i].pin) == d.label(q);
    assert(named(i));
    lemma_first_where_found(named, 0, w.endpoints.len() as int);
}

impl Design {
    /// A net that a walk goes on from wherever it started: neither a rail nor large, and
    /// with more than one pin.
    pub open spec fn is_plain(&self, rails: Seq<RailReading>, n: int) -> bool {
        &&& 0 <= n < self.nets.len()
        &&& !rails[n].rail
        &&& self.net_pins(n).len() <= LARGE_NET
        &&& self.net_pins(n).len() != 1
    }
}

/// The parts of `chain` lead from one net to another over plain nets.
spec fn linked(d: &Design, rails: Seq<RailReading>, a: int, chain: Seq<int>, b: int) -> bool
    decreases chain.len(),
{
    if chain.len() == 0 {
        a == b
    } else {
        exists|m: int| #[trigger]
            d.bridges(chain.last(), m, b) && d.is_plain(rails, m) && linked(
                d,
                rails,
                a,
                chain.drop_last(),
                m,
            )
    }
}

proof fn lemma_leads_is_linked(
    d: &Design,
    p: int,
    rails: Seq<RailReading>,
    chain: Seq<int>,
    n: int,
)
    requires
        d.leads_to(d.path_rules(p), rails, chain, n),
        d.is_plain(rails, d.path_rules(p).start_net as int),
    ensures
        linked(d, rails, d.path_rules(p).start_net as int, chain, n),
    decreases chain.len(),
{
    if chain.len() > 0 {
        let rules = d.path_rules(p);
        let m = choose|m: int|
            {
                &&& #[trigger] d.bridges(chain.last(), m, n)
                &&& 0 <= m < d.nets.len()
                &&& d.enters(rules, rails, m)
                &&& !(m == rules.start_net && rules.start_comp == Some(chain.last() as usize))
                &&& d.leads_to(rules, rails, chain.drop_last(), m)
            };
        lemma_leads_is_linked(d, p, rails, chain.drop_last(), m);
        assert(d.bridges(chain.last(), m, n) && d.is_plain(rails, m));
    }
}

proof fn lemma_linked_leads(
    d: &Design,
    q: int,
    rails: Seq<RailReading>,
    chain: Seq<int>,
    n: int,
)
    requires
        linked(d, rails, d.path_rules(q).start_net as int, chain, n),
        !d.passes(d.owner(q)),
        0 <= d.owner(q) < d.components.len(),
    ensures
        d.leads_to(d.path_rules(q), rails, chain, n),
    decreases chain.len(),
{
    if chain.len() > 0 {
        let rules = d.path_rules(q);
        let m = choose|m: int| #[trigger]
            d.bridges(chain.last(), m, n) && d.is_plain(rails, m) && linked(
                d,
                rails,
                rules.start_net as int,
                chain.drop_last(),
                m,
            );
        lemma_linked_leads(d, q, rails, chain.drop_last(), m);
        assert(d.bridges(chain.last(), m, n));
        assert(d.enters(rules, rails, m));
        assert(chain.last() != d.owner(q));
    }
}

/// A part before the first leads on to the same net.
proof fn lemma_linked_before(
    d: &Design,
    rails: Seq<RailReading>,
    c: int,
    b: int,
    m: int,
    chain: Seq<int>,
    a: int,
)
    requires
        d.bridges(c, b, m),
        d.is_plain(rails, b),
        linked(d, rails, m, chain, a),
    ensures
        linked(d, rails, b, seq![c] + chain, a),
    decreases chain.len(),
{
    let whole = seq![c] + chain;
    if chain.len() == 0 {
        assert(whole.drop_last() =~= Seq::<int>::empty());
        assert(whole.last() == c);
        assert(linked(d, rails, b, whole.drop_last(), b));
        assert(d.bridges(whole.last(), b, a));
    } else {
        let x = choose|x: int| #[trigger]
            d.bridges(chain.last(), x, a) && d.is_plain(rails, x) && linked(
                d,
                rails,
                m,
                chain.drop_last(),
                x,
            );
        lemma_linked_before(d, rails, c, b, m, chain.drop_last(), x);
        assert(whole.drop_last() =~= seq![c] + chain.drop_last());
        assert(whole.last() == chain.last());
        assert(d.bridges(whole.last(), x, a));
    }
}

/// Parts that lead from one net to another lead back in the other order.
proof fn lemma_linked_back(d: &Design, rails: Seq<RailReading>, a: int, chain: Seq<int>, b: int)
    requires
        linked(d, rails, a, chain, b),
        d.is_plain(rails, b),
    ensures
        linked(d, rails, b, chain.reverse(), a),
    decreases chain.len(),
{
    if chain.len() > 0 {
        let front = chain.drop_last();
        let m = choose|m: int| #[trigger]
            d.bridges(chain.last(), m, b) && d.is_plain(rails, m) && linked(d, rails, a, front, m);
        lemma_linked_back(d, rails, a, front, m);
        assert(d.bridges(chain.last(), b, m));
        lemma_linked_before(d, rails, chain.last(), b, m, front.reverse(), a);
        assert(chain.reverse() =~= seq![chain.last()] + front.reverse());
    }
}

/// Two pins on plain nets that end there are connected both ways round or neither: where
/// a path leads from the first to the second, one leads back.
pub proof fn lemma_path_is_symmetric(d: &Design, p: int, q: int, rails: Seq<RailReading>)
    requires
        d.wf(),
        rails.len() == d.nets.len(),
        0 <= p < d.pins.len(),
        0 <= q < d.pins.len(),
        d.net_of(p) matches Some(m) && d.is_plain(rails, m),
        d.net_of(q) matches Some(n) && d.is_plain(rails, n),
        !d.passes(d.owner(p)),
        !d.passes(d.owner(q)),
        forall|x: int|
            0 <= x < d.pins.len() && #[trigger] d.label(x) == d.label(q) ==> x == q,
        d.path_walk(q, rails).endpoints.len() < PATH_ENDPOINTS,
        d.verdict(p, q, rails) is Path,
    ensures
        d.verdict(q, p, rails) is Path,
{
    let rules = d.path_rules(p);
    let r = d.verdict(p, q, rails)->Path_0;
    assert(d.pins@[p].id.0 == p && d.pins@[q].id.0 == q);
    lemma_path_is_shortest(d, p, q, rails);
    lemma_walk_is_sound(d, rules, rails);
    let w = d.path_walk(p, rails);
    let named = |i: int| d.label(w.endpoints[i].pin) == d.label(q);
    lemma_first_where_found(named, 0, w.endpoints.len() as int);
    assert(d.reached_sound(rules, rails, r));
    assert(r.pin == q);
    let m = d.net_of(p).unwrap();
    let n = d.net_of(q).unwrap();
    lemma_leads_is_linked(d, p, rails, r.via, n);
    lemma_linked_back(d, rails, m, r.via, n);
    lemma_linked_leads(d, q, rails, r.via.reverse(), m);
    lemma_path_is_found(d, q, p, rails, r.via.reverse());
}

} // verus!
