//! How names are read: their trailing numbers, and what makes one that of a rail.
use vstd::prelude::*;

use super::classes::{is_rail_name, natural, natural_key, power_name, voltage_at};
use super::error::{refusal_text, Refusal};
use super::facts::{lemma_class_letters, lemma_lettered, lemma_net_count, lemma_net_pins};
use super::facts::{lemma_type_count, lettered, pins_where, typed};
use super::net_laws::stands_in;
use super::rails::RailSignals;
use super::Design;
use crate::lists::{count_where, lemma_count_where};
use crate::ranking::{in_order, key_order, mark_order, Mark};
use crate::text::{after_last, all_digits, decimal, digit_char, digits_value, is_digit};
use crate::text::{lemma_run_len, lemma_run_len_unique, lemma_text_order, lemma_trim_end, lowercase};
use crate::text::{run_len, text_order, then_order, trim_end, trim_start, trimmed, unsigned_value};
use crate::text::{AsciiDigit, Whitespace};

verus! {

/// A numeral is made of digits, has one, and spells its number.
pub proof fn lemma_decimal_spells(n: nat)
    ensures
        decimal(n).len() > 0,
        all_digits(decimal(n)),
        digits_value(decimal(n)) == n,
    decreases n,
{
    let s = decimal(n);
    let d = digit_char(n % 10);
    assert(is_digit(d) && d as nat == 48 + n % 10);
    if n < 10 {
        assert(s.drop_last() =~= Seq::<char>::empty());
        assert(digits_value(s.drop_last()) == 0);
    } else {
        lemma_decimal_spells(n / 10);
        assert(s.drop_last() =~= decimal(n / 10));
        assert(n == (n / 10) * 10 + n % 10);
    }
}

/// A numeral on its own, or with a plus sign before it, reads as its number, where that
/// is not too large; anything that does not end in a digit reads as none.
pub proof fn lemma_numeral_reads(n: nat, max: nat)
    ensures
        unsigned_value(decimal(n), max) == (if n <= max {
            Some(n)
        } else {
            None
        }),
        unsigned_value(seq!['+'] + decimal(n), max) == unsigned_value(decimal(n), max),
        forall|s: Seq<char>|
            s.len() == 0 || !is_digit(s.last()) ==> #[trigger] unsigned_value(s, max) is None,
{
    lemma_decimal_spells(n);
    let s = decimal(n);
    assert(is_digit(s[0]));
    let t = seq!['+'] + s;
    assert(t.skip(1) =~= s);
    assert(t[0] == '+');
}

/// A name that ends in a number is read as what stands before it and the number.
pub proof fn lemma_natural_reads(prefix: Seq<char>, n: nat)
    requires
        prefix.len() == 0 || !is_digit(prefix.last()),
        n <= u32::MAX,
    ensures
        natural(prefix + decimal(n)) == (prefix, n),
        natural(prefix) == (prefix, 0nat),
{
    lemma_decimal_spells(n);
    lemma_numeral_reads(n, u32::MAX as nat);
    let s = prefix + decimal(n);
    lemma_trim_end(s, AsciiDigit);
    lemma_trim_end(prefix, AsciiDigit);
    let t = trim_end(s, AsciiDigit);
    assert(t =~= prefix) by {
        if t.len() < prefix.len() {
            assert(is_digit(s[prefix.len() - 1]));
            assert(s[prefix.len() - 1] == prefix.last());
        }
        if t.len() > prefix.len() {
            let k = t.len() - 1;
            assert(t.last() == s[k]);
            assert(s[k] == decimal(n)[k - prefix.len()]);
            assert(is_digit(decimal(n)[k - prefix.len()]));
        }
    }
    assert(s.skip(prefix.len() as int) =~= decimal(n));
    assert(trim_end(prefix, AsciiDigit) == prefix);
    assert(prefix.skip(prefix.len() as int).len() == 0);
}

/// Names are sorted by what stands before their trailing number, in the order of the
/// dictionary, and where that is the same by the number.
pub proof fn lemma_natural_sorts(a: Seq<char>, m: nat, b: Seq<char>, n: nat)
    requires
        a.len() == 0 || !is_digit(a.last()),
        b.len() == 0 || !is_digit(b.last()),
        m <= u32::MAX,
        n <= u32::MAX,
    ensures
        in_order(natural_key(a + decimal(m)), natural_key(b + decimal(n))) <==> text_order(
            a,
            b,
        ) is Less || (a == b && m <= n),
{
    lemma_natural_reads(a, m);
    lemma_natural_reads(b, n);
    lemma_text_order(a, b);
    let x = natural_key(a + decimal(m));
    let y = natural_key(b + decimal(n));
    assert(x =~= seq![Mark::Text(a), Mark::Number(m as int)]);
    assert(y =~= seq![Mark::Text(b), Mark::Number(n as int)]);
    assert(key_order(x, y) == then_order(
        mark_order(x[0], y[0]),
        key_order(x.skip(1), y.skip(1)),
    ));
    let u = x.skip(1);
    let v = y.skip(1);
    assert(u[0] == Mark::Number(m as int) && v[0] == Mark::Number(n as int));
    assert(u.skip(1).len() == 0 && v.skip(1).len() == 0);
    assert(key_order(u.skip(1), v.skip(1)) is Equal);
    assert(key_order(u, v) == then_order(
        mark_order(u[0], v[0]),
        key_order(u.skip(1), v.skip(1)),
    ));
}

/// The common names of rails.
pub open spec fn rail_names() -> Seq<Seq<char>> {
    seq![
        "gnd"@,
        "gnda"@,
        "agnd"@,
        "dgnd"@,
        "pgnd"@,
        "vss"@,
        "vssa"@,
        "vcc"@,
        "vdd"@,
        "vbat"@,
        "vbus"@,
        "vee"@,
        "vin"@,
    ]
}

/// A 'v' stands in the text next to a digit.
pub open spec fn has_voltage(s: Seq<char>) -> bool {
    exists|i: int, j: int|
        0 <= i < s.len() && 0 <= j < s.len() && (j == i + 1 || j == i - 1) && #[trigger] s[i] == 'v'
            && '0' <= #[trigger] s[j] <= '9'
}

proof fn lemma_after_last(path: Seq<char>, s: Seq<char>)
    requires
        !s.contains('/'),
    ensures
        after_last(s, '/') == s,
        after_last(path + seq!['/'] + s, '/') == s,
    decreases s.len(),
{
    let whole = path + seq!['/'] + s;
    if s.len() == 0 {
        assert(whole.last() == '/');
        assert(after_last(s, '/') =~= s);
    } else {
        let front = s.drop_last();
        assert(!front.contains('/')) by {
            if front.contains('/') {
                let i = choose|i: int| 0 <= i < front.len() && front[i] == '/';
                assert(s[i] == '/');
            }
        }
        lemma_after_last(path, front);
        assert(s.last() != '/') by {
            assert(s[s.len() - 1] == s.last());
        }
        assert(whole.last() == s.last());
        assert(whole.drop_last() =~= path + seq!['/'] + front);
        assert(front.push(s.last()) =~= s);
    }
}

/// A net's name is a rail's by what follows its last slash alone: a common name of a
/// rail, letter case aside, one that starts with a sign, or one with a voltage in it.
pub proof fn lemma_power_name(path: Seq<char>, s: Seq<char>)
    requires
        !s.contains('/'),
        trimmed(s) == s,
    ensures
        power_name(path + seq!['/'] + s) == power_name(s),
        power_name(s) <==> rail_names().contains(lowercase(s)) || (s.len() > 0 && (s[0] == '+' || s[0]
            == '-')) || has_voltage(lowercase(s)),
{
    lemma_after_last(path, s);
    let lower = lowercase(s);
    let names = rail_names();
    if is_rail_name(lower) {
        assert(names[0] == lower || names[1] == lower || names[2] == lower || names[3] == lower
            || names[4] == lower || names[5] == lower || names[6] == lower || names[7] == lower
            || names[8] == lower || names[9] == lower || names[10] == lower || names[11] == lower
            || names[12] == lower);
    }
    if names.contains(lower) {
        let i = choose|i: int| 0 <= i < names.len() && names[i] == lower;
        assert(is_rail_name(lower));
    }
    if has_voltage(lower) {
        let (i, j) = choose|i: int, j: int|
            0 <= i < lower.len() && 0 <= j < lower.len() && (j == i + 1 || j == i - 1)
                && #[trigger] lower[i] == 'v' && '0' <= #[trigger] lower[j] <= '9';
        assert(is_digit(lower[j]));
        assert(voltage_at(lower, i));
    }
    if exists|i: int| 0 <= i < lower.len() && #[trigger] voltage_at(lower, i) {
        let i = choose|i: int|
            0 <= i < lower.len() && #[trigger] voltage_at(lower, i);
        if i > 0 && is_digit(lower[i - 1]) {
            assert(lower[i] == 'v' && '0' <= lower[i - 1] <= '9');
        } else {
            assert(lower[i] == 'v' && '0' <= lower[i + 1] <= '9');
        }
    }
}

/// The facts that a rail score weighs, in terms of the pins on the net.
pub open spec fn weighs(d: &Design, r: RailSignals, n: int) -> bool {
    &&& r.fanout == pins_where(d, n, |p: int| true).len()
    &&& r.power_pins == pins_where(
        d,
        n,
        |p: int| typed(d, p, "power_in"@) || typed(d, p, "power_out"@),
    ).len()
    &&& r.cap_pins == pins_where(
        d,
        n,
        |p: int| lettered(d.components@[d.pins@[p].comp.0 as int].refdes@, seq!['C']),
    ).len()
    &&& r.name_match == power_name(d.nets@[n].name@)
}

proof fn lemma_caps(d: &Design, ids: Seq<int>)
    ensures
        d.cap_count(ids) == count_where(
            |p: int| lettered(d.components@[d.pins@[p].comp.0 as int].refdes@, seq!['C']),
            ids,
        ),
    decreases ids.len(),
{
    if ids.len() > 0 {
        lemma_caps(d, ids.drop_last());
        lemma_class_letters();
        lemma_lettered(d.components@[d.owner(ids.last())].refdes@, seq!['C']);
    }
}

proof fn lemma_either(f: spec_fn(int) -> bool, g: spec_fn(int) -> bool, ids: Seq<int>)
    requires
        forall|i: int| 0 <= i < ids.len() ==> !(f(#[trigger] ids[i]) && g(ids[i])),
    ensures
        count_where(|p: int| f(p) || g(p), ids) == count_where(f, ids) + count_where(g, ids),
    decreases ids.len(),
{
    if ids.len() > 0 {
        let front = ids.drop_last();
        assert forall|i: int| 0 <= i < front.len() implies !(f(#[trigger] front[i])
            && g(front[i])) by {
            assert(front[i] == ids[i]);
        }
        lemma_either(f, g, front);
        assert(ids[ids.len() - 1] == ids.last());
    }
}

/// A rail score weighs how many pins are on the net, how many are power inputs or outputs,
/// how many belong to capacitors, and what the net is called.
pub proof fn lemma_weighs(d: &Design, r: RailSignals, n: int)
    requires
        d.wf(),
        0 <= n < d.nets.len(),
        r.fanout == d.net_pins(n).len(),
        r.power_pins == d.type_count_on(n, "power_in"@) + d.type_count_on(n, "power_out"@),
        r.cap_pins == d.cap_count(d.net_pins(n)),
        r.name_match == power_name(d.nets@[n].name@),
    ensures
        weighs(d, r, n),
{
    let ids = d.net_pins(n);
    lemma_net_pins(d, n);
    lemma_net_count(d, n, |p: int| true);
    lemma_count_where(|p: int| true, ids);
    let f = |p: int| typed(d, p, "power_in"@);
    let g = |p: int| typed(d, p, "power_out"@);
    lemma_type_count(d, ids, "power_in"@);
    lemma_type_count(d, ids, "power_out"@);
    reveal_strlit("power_in");
    reveal_strlit("power_out");
    assert("power_in"@.len() != "power_out"@.len());
    lemma_either(f, g, ids);
    lemma_net_count(d, n, |p: int| f(p) || g(p));
    assert(pins_where(d, n, |p: int| f(p) || g(p)) =~= pins_where(
        d,
        n,
        |p: int| typed(d, p, "power_in"@) || typed(d, p, "power_out"@),
    ));
    lemma_caps(d, ids);
    lemma_net_count(
        d,
        n,
        |p: int| lettered(d.components@[d.pins@[p].comp.0 as int].refdes@, seq!['C']),
    );
}

/// White space around a text goes once and for all.
proof fn lemma_trimmed_twice(s: Seq<char>)
    ensures
        trimmed(trimmed(s)) == trimmed(s),
        trimmed(s).contains('/') ==> s.contains('/'),
{
    let n = run_len(s, Whitespace, true) as int;
    lemma_run_len(s, Whitespace, true);
    let rest = trim_start(s, Whitespace);
    assert(rest == s.skip(n));
    lemma_trim_end(rest, Whitespace);
    let t = trimmed(s);
    if t.len() > 0 {
        assert(t[0] == rest[0] && rest[0] == s[n]);
        lemma_run_len_unique(t, Whitespace, true, 0);
        assert(t.skip(0) =~= t);
        assert(trim_end(t, Whitespace) == t);
    } else {
        assert(trim_start(t, Whitespace).len() == 0) by {
            lemma_run_len(t, Whitespace, true);
        }
        assert(t =~= Seq::<char>::empty());
        assert(trimmed(t) =~= t);
    }
    if t.contains('/') {
        let i = choose|i: int| 0 <= i < t.len() && t[i] == '/';
        assert(t[i] == rest[i] && rest[i] == s[n + i]);
    }
}

/// White space around what follows the last slash does not make or unmake a rail's name.
pub proof fn lemma_power_name_trimmed(s: Seq<char>)
    requires
        !s.contains('/'),
    ensures
        power_name(s) == power_name(trimmed(s)),
{
    lemma_trimmed_twice(s);
    lemma_after_last(Seq::empty(), s);
    lemma_after_last(Seq::empty(), trimmed(s));
}

/// A refusal quotes what was asked for, so that two of one kind differ where their
/// questions do.
pub proof fn lemma_refusals_quote(a: Refusal, b: Refusal)
    ensures
        stands_in(subject(a), refusal_text(a)),
        refusal_text(a) == refusal_text(b) && same_kind(a, b) ==> a == b,
{
    lemma_quoted_between(a);
    lemma_quoted_between(b);
    let s = subject(a);
    let t = subject(b);
    let x = refusal_text(a);
    let y = refusal_text(b);
    if x == y && same_kind(a, b) {
        let (before, after) = around(a);
        assert(x == before + s + after && y == before + t + after);
        assert(s =~= x.subrange(before.len() as int, x.len() - after.len()));
        assert(t =~= y.subrange(before.len() as int, y.len() - after.len()));
    }
}

/// What a refusal is about.
pub open spec fn subject(e: Refusal) -> Seq<char> {
    match e {
        Refusal::Refdes(s) => s,
        Refusal::Component(s) => s,
        Refusal::Net(s) => s,
        Refusal::NetCalled(s) => s,
        Refusal::Pin(s) => s,
        Refusal::Unconnected(s) => s,
    }
}

/// Both refusals are for the same reason.
pub open spec fn same_kind(a: Refusal, b: Refusal) -> bool {
    match a {
        Refusal::Refdes(_) => b is Refdes,
        Refusal::Component(_) => b is Component,
        Refusal::Net(_) => b is Net,
        Refusal::NetCalled(_) => b is NetCalled,
        Refusal::Pin(_) => b is Pin,
        Refusal::Unconnected(_) => b is Unconnected,
    }
}

/// The words around what a refusal is about.
pub open spec fn around(e: Refusal) -> (Seq<char>, Seq<char>) {
    match e {
        Refusal::Refdes(_) => ("Refdes "@, " not found in component map"@),
        Refusal::Component(_) => ("component "@, " not found"@),
        Refusal::Net(_) => ("no net named or coded '"@, "'"@),
        Refusal::NetCalled(_) => ("no net called '"@, "'"@),
        Refusal::Pin(_) => ("no pin named '"@, "'"@),
        Refusal::Unconnected(_) => ("pin '"@, "' has no net"@),
    }
}

proof fn lemma_quoted_between(e: Refusal)
    ensures
        refusal_text(e) == around(e).0 + subject(e) + around(e).1,
        stands_in(subject(e), refusal_text(e)),
{
    let (before, after) = around(e);
    let s = subject(e);
    let x = refusal_text(e);
    assert(x == before + s + after);
    let k = before.len() as int;
    assert(x.subrange(k, k + s.len()) =~= s);
}

} // verus!
