//! How frequencies and the impedance of a bead read, said of the tokens that state them.
use vstd::prelude::*;

use super::bead::{bare, frequency_of, frequency_prefix, frequency_text, frequency_unit, literal_of};
use super::bead::{mark_of, ohm_marked, starts_hertz, BeadModel, BeadValue, ChoiceModel, MarkModel};
use super::bead::Ohms;
use super::value::{lemma_number_len, number_char, number_len, spells_number, unit_char};
use super::value_laws::{lemma_dots, plain_number};
use crate::text::{alphanumeric, ascii_lower, ascii_lower_text, ends_with, is_digit, is_letter};
use crate::text::{lemma_run_len_unique, trim_end, Punctuation};

verus! {

/// The letters that a frequency's unit may start with, and the one it is shown with: kilo,
/// mega in either case, and giga.
pub open spec fn scale(c: char, shown: char) -> bool {
    ||| (c == 'k' || c == 'K') && shown == 'k'
    ||| (c == 'm' || c == 'M') && shown == 'M'
    ||| (c == 'g' || c == 'G') && shown == 'G'
}

/// "hz" in any case.
pub open spec fn hertz(h: char, z: char) -> bool {
    (h == 'h' || h == 'H') && (z == 'z' || z == 'Z')
}

proof fn lemma_bare(s: Seq<char>)
    requires
        s.len() > 0,
        alphanumeric(s[0]),
        alphanumeric(s.last()),
    ensures
        bare(s) == s,
        frequency_text(s) == s,
{
    lemma_run_len_unique(s, Punctuation, true, 0);
    assert(s.skip(0) =~= s);
    assert(trim_end(s, Punctuation) == s);
}

proof fn lemma_number_first(n: Seq<char>, rest: Seq<char>)
    requires
        plain_number(n),
        rest.len() > 0 ==> !number_char(rest[0]),
    ensures
        number_len(n + rest) == n.len(),
        (n + rest).take(n.len() as int) == n,
        (n + rest).skip(n.len() as int) == rest,
        spells_number(n),
{
    let s = n + rest;
    assert forall|i: int| 0 <= i < n.len() implies number_char(#[trigger] s[i]) by {
        assert(s[i] == n[i]);
    }
    if rest.len() > 0 {
        assert(s[n.len() as int] == rest[0]);
    }
    lemma_number_len(s, n.len() as int);
    assert(s.take(n.len() as int) =~= n);
    assert(s.skip(n.len() as int) =~= rest);
    lemma_dots(n);
    let i = choose|i: int| 0 <= i < n.len() && is_digit(#[trigger] n[i]);
    assert(n[i] != '.');
}

/// A frequency is its number and its unit, however the letters are cased, and shown in one
/// spelling: with a scale and hertz, with a scale alone, or with hertz alone. A number
/// alone is none.
pub proof fn lemma_frequency_reads(n: Seq<char>, c: char, shown: char, h: char, z: char)
    requires
        plain_number(n),
        is_digit(n[0]),
        is_digit(n.last()),
        scale(c, shown),
        hertz(h, z),
    ensures
        frequency_of(n.push(c).push(h).push(z)) == Some(n + seq![shown, 'H', 'z']),
        frequency_of(n.push(c)) == Some(n + seq![shown, 'H', 'z']),
        frequency_of(n.push(h).push(z)) == Some(n + seq!['H', 'z']),
        frequency_of(n) is None,
{
    reveal_strlit("Hz");
    assert("Hz"@ =~= seq!['H', 'z']);
    let e = Seq::<char>::empty();
    let a = seq![c, h, z];
    let b = seq![c];
    let d = seq![h, z];
    assert(n.push(c).push(h).push(z) =~= n + a);
    assert(n.push(c) =~= n + b);
    assert(n.push(h).push(z) =~= n + d);
    assert(n + e =~= n);
    lemma_number_first(n, a);
    lemma_number_first(n, b);
    lemma_number_first(n, d);
    lemma_number_first(n, e);
    assert((n + a)[0] == n[0] && (n + b)[0] == n[0] && (n + d)[0] == n[0]);
    assert((n + a).last() == z && (n + b).last() == c && (n + d).last() == z);
    assert(n[0] == n.first());
    lemma_bare(n + a);
    lemma_bare(n + b);
    lemma_bare(n + d);
    lemma_bare(n);
    assert(a[0] == c && b[0] == c && d[0] == h);
    assert(a.skip(1) =~= d);
    assert(a.skip(1).skip(2).len() == 0);
    assert(b.skip(1).len() == 0);
    assert(d.skip(0) =~= d);
    assert(d.skip(2).len() == 0);
    assert(frequency_prefix(a) == seq![shown]);
    assert(frequency_prefix(b) == seq![shown]);
    assert(frequency_prefix(d) == e);
    assert(frequency_prefix(e) == e);
    assert(starts_hertz(d));
    assert(n + seq![shown] + "Hz"@ =~= n + seq![shown, 'H', 'z']);
    assert(n + e + "Hz"@ =~= n + seq!['H', 'z']);
    assert(e.skip(0) =~= e);
}

/// "DC" and "DCR", letter case aside, say that the value was measured at DC, and nothing
/// else does.
pub proof fn lemma_dc(mark: Seq<char>)
    ensures
        mark_of(mark) is Dc <==> ascii_lower_text(mark) == "dc"@ || ascii_lower_text(mark)
            == "dcr"@,
        mark_of(mark) matches MarkModel::Frequency(f) ==> frequency_of(mark) == Some(f),
{
    reveal_strlit("dc");
    reveal_strlit("dcr");
    let lower = ascii_lower_text(mark);
    if lower == "dc"@ || lower == "dcr"@ {
        assert(lower.len() == mark.len());
        assert(lower[0] == 'd' && lower[lower.len() - 1] == ascii_lower(mark.last()));
        assert(ascii_lower(mark[0]) == 'd');
        assert(mark[0] == 'd' || mark[0] == 'D');
        let last = mark.last();
        assert(ascii_lower(last) == 'c' || ascii_lower(last) == 'r');
        assert(is_letter(last)) by {
            if 'A' <= last <= 'Z' {
            } else {
                assert(ascii_lower(last) == last);
            }
        }
        lemma_bare(mark);
        assert(!number_char(mark[0]));
        lemma_number_len(mark, 0);
        assert(mark.take(0).len() == 0);
    }
}

/// A token that is a value: neither an `@` nor a frequency.
pub open spec fn is_value(tok: Seq<char>) -> bool {
    tok != "@"@ && literal_of(tok) is None
}

/// The token at place `i`, with nothing said of it.
pub open spec fn unmarked(i: int) -> BeadModel {
    BeadModel { index: i, freq: None, dc: false }
}

proof fn lemma_one(b: BeadValue, t: BeadModel)
    ensures
        ({
            let s = seq![t];
            let ok = !t.dc && b.ohms[t.index].plausible;
            let c = b.candidates(s, 1);
            &&& c == (if ok {
                s
            } else {
                Seq::empty()
            })
            &&& ok && t.freq is Some ==> BeadValue::rated(c, c.len() as int) == s
            &&& !(ok && t.freq is Some) ==> BeadValue::rated(c, c.len() as int).len() == 0
            &&& ok && ohm_marked(b.tokens[t.index], b.ohms[t.index]) ==> b.spelled(
                c,
                c.len() as int,
            ) == s
            &&& !(ok && ohm_marked(b.tokens[t.index], b.ohms[t.index])) ==> b.spelled(
                c,
                c.len() as int,
            ).len() == 0
        }),
{
    let s = seq![t];
    let e = Seq::<BeadModel>::empty();
    assert(b.candidates(s, 0) == e);
    assert(e.push(t) =~= s);
    let c = b.candidates(s, 1);
    assert(BeadValue::rated(c, 0) == e);
    assert(b.spelled(c, 0) == e);
    if c.len() == 1 {
        assert(c[0] == t);
        assert(BeadValue::rated(c, 1) == (if t.freq is Some {
            e.push(t)
        } else {
            e
        }));
        assert(b.spelled(c, 1) == (if ohm_marked(b.tokens[t.index], b.ohms[t.index]) {
            e.push(t)
        } else {
            e
        }));
    }
}

/// A value of one token is that token: taken as it is where it says that it is ohms and a
/// bead can be rated at it, and else read like a resistance.
pub proof fn lemma_single_value(b: BeadValue)
    requires
        b.tokens.len() == 1,
        is_value(b.tokens[0]),
    ensures
        b.choice() == (if b.ohms[0].plausible && ohm_marked(b.tokens[0], b.ohms[0]) {
            ChoiceModel::Token(0, None)
        } else {
            ChoiceModel::From(0)
        }),
{
    let e = Seq::<BeadModel>::empty();
    let t = unmarked(0);
    let s = seq![t];
    assert(e.push(t) =~= s);
    assert(b.scan(1, s) == Some(s));
    assert(b.scan(0, e) == Some(s));
    lemma_one(b, t);
    assert(s[0] == t);
}

/// A value with an `@` and a frequency behind it is stated at the frequency; with an `@`
/// and "DC" it is no impedance.
pub proof fn lemma_value_at(b: BeadValue)
    requires
        b.tokens.len() == 3,
        is_value(b.tokens[0]),
        b.tokens[1] == "@"@,
        b.ohms[0].parses,
        b.ohms[0].plausible,
    ensures
        mark_of(b.tokens[2]) matches MarkModel::Frequency(f) ==> b.choice() == ChoiceModel::Token(
            0,
            Some(f),
        ),
        mark_of(b.tokens[2]) is Dc ==> b.choice() is Nothing,
{
    let e = Seq::<BeadModel>::empty();
    let t = unmarked(0);
    let s = seq![t];
    let mark = mark_of(b.tokens[2]);
    assert(e.push(t) =~= s);
    assert(b.mark_after(1) == (b.tokens[2], 3int));
    assert(b.bound(s, true, 1) == Some(0int));
    assert(s[0] == t);
    let u = match mark {
        MarkModel::Frequency(f) => BeadModel { freq: Some(f), ..t },
        MarkModel::Dc => BeadModel { dc: true, ..t },
        MarkModel::Other => t,
    };
    let after = seq![u];
    assert(s.update(0, u) =~= after);
    if !(mark is Other) {
        assert(b.marked(s, mark, true) == Some(after));
        assert(b.scan(3, after) == Some(after));
        assert(b.scan(1, s) == Some(after));
        assert(b.scan(0, e) == Some(after));
        lemma_one(b, u);
        assert(after[0] == u);
        assert(b.agree(after));
    }
}

/// A frequency beside a value rates it where the value says that it is ohms; a bare number,
/// such as the code of a package, it does not.
pub proof fn lemma_value_beside_frequency(b: BeadValue, f: Seq<char>)
    requires
        b.tokens.len() == 2,
        is_value(b.tokens[0]),
        b.tokens[1] != "@"@,
        literal_of(b.tokens[1]) == Some(f),
        b.ohms[0].plausible,
    ensures
        b.choice() == (if ohm_marked(b.tokens[0], b.ohms[0]) {
            ChoiceModel::Token(0, Some(f))
        } else {
            ChoiceModel::From(0)
        }),
{
    let e = Seq::<BeadModel>::empty();
    let t = unmarked(0);
    let s = seq![t];
    assert(e.push(t) =~= s);
    assert(s[0] == t);
    assert(b.bound(s, false, 0) is None);
    let u = BeadModel { freq: Some(f), ..t };
    let after = seq![u];
    assert(s.update(0, u) =~= after);
    if ohm_marked(b.tokens[0], b.ohms[0]) {
        assert(b.bound(s, false, 1) == Some(0int));
        assert(b.marked(s, MarkModel::Frequency(f), false) == Some(after));
        assert(b.scan(2, after) == Some(after));
        assert(b.scan(1, s) == Some(after));
        assert(b.scan(0, e) == Some(after));
        lemma_one(b, u);
        assert(after[0] == u);
        assert(b.agree(after));
    } else {
        assert(b.bound(s, false, 1) is None);
        assert(b.marked(s, MarkModel::Frequency(f), false) == Some(s));
        assert(b.scan(2, s) == Some(s));
        assert(b.scan(1, s) == Some(s));
        assert(b.scan(0, e) == Some(s));
        lemma_one(b, t);
    }
}

/// A frequency whose unit stands apart from its number is the same frequency.
pub proof fn lemma_unit_apart(b: BeadValue, c: BeadValue)
    requires
        b.tokens.len() == 4,
        c.tokens.len() == 3,
        b.tokens[0] == c.tokens[0],
        is_value(b.tokens[0]),
        b.tokens[1] == "@"@,
        c.tokens[1] == "@"@,
        b.ohms[0] == c.ohms[0],
        forall|k: int| 0 <= k < b.tokens[2].len() ==> number_char(#[trigger] b.tokens[2][k]),
        frequency_unit(b.tokens[3]),
        c.tokens[2] == b.tokens[2] + bare(b.tokens[3]),
        c.ohms[0].parses,
        c.ohms[0].plausible,
        mark_of(c.tokens[2]) is Frequency,
    ensures
        b.choice() == c.choice(),
{
    lemma_value_at(c);
    let e = Seq::<BeadModel>::empty();
    let t = unmarked(0);
    let s = seq![t];
    let mark = mark_of(c.tokens[2]);
    assert(e.push(t) =~= s);
    assert(b.mark_after(1) == (c.tokens[2], 4int));
    assert(b.bound(s, true, 1) == Some(0int));
    assert(s[0] == t);
    let u = BeadModel { freq: Some(mark->Frequency_0), ..t };
    let after = seq![u];
    assert(s.update(0, u) =~= after);
    assert(b.marked(s, mark, true) == Some(after));
    assert(b.scan(4, after) == Some(after));
    assert(b.scan(1, s) == Some(after));
    assert(b.scan(0, e) == Some(after));
    lemma_one(b, u);
    assert(after[0] == u);
    assert(b.agree(after));
}

/// The tokens from the first on, with nothing said of any.
spec fn all_unmarked(k: int) -> Seq<BeadModel> {
    Seq::new(k as nat, |i: int| unmarked(i))
}

proof fn lemma_scan_values(b: BeadValue, i: int)
    requires
        0 <= i <= b.tokens.len(),
        forall|k: int| 0 <= k < b.tokens.len() ==> is_value(#[trigger] b.tokens[k]),
    ensures
        b.scan(i, all_unmarked(i)) == Some(all_unmarked(b.tokens.len() as int)),
    decreases b.tokens.len() - i,
{
    if i < b.tokens.len() {
        lemma_scan_values(b, i + 1);
        assert(is_value(b.tokens[i]));
        assert(all_unmarked(i).push(unmarked(i)) =~= all_unmarked(i + 1));
    }
}

/// The token could be the impedance and says that it is ohms.
pub open spec fn spells_ohms(b: BeadValue, i: int) -> bool {
    b.ohms[i].plausible && ohm_marked(b.tokens[i], b.ohms[i])
}

proof fn lemma_unmarked_lists(b: BeadValue, k: int)
    requires
        0 <= k <= b.tokens.len(),
    ensures
        ({
            let c = b.candidates(all_unmarked(b.tokens.len() as int), k);
            &&& BeadValue::rated(c, c.len() as int).len() == 0
            &&& forall|j: int| 0 <= j < c.len() ==> (#[trigger] c[j]).freq is None
            &&& b.spelled(c, c.len() as int) == spelled_upto(b, k)
            &&& c == plausible_upto(b, k)
        }),
    decreases k,
{
    let s = all_unmarked(b.tokens.len() as int);
    let c = b.candidates(s, k);
    if k > 0 {
        lemma_unmarked_lists(b, k - 1);
        let d = b.candidates(s, k - 1);
        let t = unmarked(k - 1);
        assert(s[k - 1] == t);
        if b.ohms[k - 1].plausible {
            assert(c == d.push(t));
            lemma_rated_prefix(c, d, d.len() as int);
            lemma_spelled_prefix(b, c, d, d.len() as int);
            assert(c[c.len() - 1] == t);
            assert(BeadValue::rated(c, c.len() as int) == BeadValue::rated(c, d.len() as int));
        }
    }
}

proof fn lemma_rated_prefix(c: Seq<BeadModel>, d: Seq<BeadModel>, k: int)
    requires
        0 <= k <= d.len() <= c.len(),
        forall|i: int| 0 <= i < d.len() ==> #[trigger] c[i] == d[i],
    ensures
        BeadValue::rated(c, k) == BeadValue::rated(d, k),
    decreases k,
{
    if k > 0 {
        lemma_rated_prefix(c, d, k - 1);
        assert(c[k - 1] == d[k - 1]);
    }
}

proof fn lemma_spelled_prefix(b: BeadValue, c: Seq<BeadModel>, d: Seq<BeadModel>, k: int)
    requires
        0 <= k <= d.len() <= c.len(),
        forall|i: int| 0 <= i < d.len() ==> #[trigger] c[i] == d[i],
    ensures
        b.spelled(c, k) == b.spelled(d, k),
    decreases k,
{
    if k > 0 {
        lemma_spelled_prefix(b, c, d, k - 1);
        assert(c[k - 1] == d[k - 1]);
    }
}

/// Those of the first `k` tokens that could be the impedance.
spec fn plausible_upto(b: BeadValue, k: int) -> Seq<BeadModel>
    decreases k,
{
    if k <= 0 {
        Seq::empty()
    } else if b.ohms[k - 1].plausible {
        plausible_upto(b, k - 1).push(unmarked(k - 1))
    } else {
        plausible_upto(b, k - 1)
    }
}

/// Those of the first `k` tokens that could be and say that they are ohms.
spec fn spelled_upto(b: BeadValue, k: int) -> Seq<BeadModel>
    decreases k,
{
    if k <= 0 {
        Seq::empty()
    } else if spells_ohms(b, k - 1) {
        spelled_upto(b, k - 1).push(unmarked(k - 1))
    } else {
        spelled_upto(b, k - 1)
    }
}

proof fn lemma_upto(b: BeadValue, k: int)
    requires
        0 <= k,
    ensures
        forall|i: int|
            0 <= i < spelled_upto(b, k).len() ==> ({
                let t = #[trigger] spelled_upto(b, k)[i];
                0 <= t.index < k && t == unmarked(t.index) && spells_ohms(b, t.index)
            }),
        forall|i: int|
            0 <= i < plausible_upto(b, k).len() ==> ({
                let t = #[trigger] plausible_upto(b, k)[i];
                0 <= t.index < k && t == unmarked(t.index) && b.ohms[t.index].plausible
            }),
        forall|i: int, j: int|
            0 <= i < j < k && spells_ohms(b, i) && spells_ohms(b, j) ==> spelled_upto(b, k).len()
                >= 2,
        forall|i: int, j: int|
            0 <= i < j < k && b.ohms[i].plausible && b.ohms[j].plausible ==> plausible_upto(
                b,
                k,
            ).len() >= 2,
        forall|i: int| 0 <= i < k && #[trigger] spells_ohms(b, i) ==> spelled_upto(b, k).len() >= 1,
        forall|i: int|
            0 <= i < k && (#[trigger] b.ohms[i]).plausible ==> plausible_upto(b, k).len() >= 1,
        spelled_upto(b, k).len() >= 2 ==> exists|i: int, j: int|
            0 <= i < j < k && #[trigger] spells_ohms(b, i) && #[trigger] spells_ohms(b, j),
        plausible_upto(b, k).len() >= 2 ==> exists|i: int, j: int|
            0 <= i < j < k && (#[trigger] b.ohms[i]).plausible && (#[trigger] b.ohms[j]).plausible,
    decreases k,
{
    if k > 0 {
        lemma_upto(b, k - 1);
        let x = spelled_upto(b, k - 1);
        let y = plausible_upto(b, k - 1);
        if spells_ohms(b, k - 1) && x.len() >= 1 {
            assert(spells_ohms(b, x[0].index) && spells_ohms(b, k - 1));
        }
        if b.ohms[k - 1].plausible && y.len() >= 1 {
            assert(b.ohms[y[0].index].plausible && b.ohms[k - 1].plausible);
        }
        assert forall|i: int| 0 <= i < spelled_upto(b, k).len() implies ({
            let t = #[trigger] spelled_upto(b, k)[i];
            0 <= t.index < k && t == unmarked(t.index) && spells_ohms(b, t.index)
        }) by {
            if i < x.len() {
                assert(spelled_upto(b, k)[i] == x[i]);
            }
        }
        assert forall|i: int| 0 <= i < plausible_upto(b, k).len() implies ({
            let t = #[trigger] plausible_upto(b, k)[i];
            0 <= t.index < k && t == unmarked(t.index) && b.ohms[t.index].plausible
        }) by {
            if i < y.len() {
                assert(plausible_upto(b, k)[i] == y[i]);
            }
        }
    }
}

/// Of tokens that are values with nothing said of them, the one that could be the impedance
/// and says that it is ohms is the impedance, wherever it stands. Two such cannot be told
/// apart. Where none says so, the one that could be it is read like a resistance, and two
/// cannot be told apart either.
pub proof fn lemma_values_alone(b: BeadValue, i: int, j: int)
    requires
        forall|k: int| 0 <= k < b.tokens.len() ==> is_value(#[trigger] b.tokens[k]),
        0 <= i < b.tokens.len(),
        0 <= j < b.tokens.len(),
    ensures
        spells_ohms(b, i) && (forall|k: int|
            0 <= k < b.tokens.len() && #[trigger] spells_ohms(b, k) ==> k == i) ==> b.choice()
            == ChoiceModel::Token(i, None),
        i != j && spells_ohms(b, i) && spells_ohms(b, j) ==> b.choice() is Nothing,
        b.ohms[i].plausible && (forall|k: int|
            0 <= k < b.tokens.len() ==> !#[trigger] spells_ohms(b, k)) && (forall|k: int|
            0 <= k < b.tokens.len() && (#[trigger] b.ohms[k]).plausible ==> k == i) ==> b.choice()
            == ChoiceModel::From(i),
        i != j && b.ohms[i].plausible && b.ohms[j].plausible && (forall|k: int|
            0 <= k < b.tokens.len() ==> !#[trigger] spells_ohms(b, k)) ==> b.choice() is Nothing,
{
    let n = b.tokens.len() as int;
    let s = all_unmarked(n);
    lemma_scan_values(b, 0);
    assert(all_unmarked(0) =~= Seq::<BeadModel>::empty());
    lemma_unmarked_lists(b, n);
    lemma_upto(b, n);
    let x = spelled_upto(b, n);
    let y = plausible_upto(b, n);
    let c = b.candidates(s, n);
    assert(c == y);
    assert(BeadValue::rated(c, c.len() as int).len() == 0);
    assert(b.spelled(c, c.len() as int) == x);
    if spells_ohms(b, i) && (forall|k: int|
        0 <= k < b.tokens.len() && #[trigger] spells_ohms(b, k) ==> k == i) {
        assert(x.len() >= 1);
        if x.len() >= 2 {
            let (p, q) = choose|p: int, q: int|
                0 <= p < q < n && #[trigger] spells_ohms(b, p) && #[trigger] spells_ohms(b, q);
            assert(p == i && q == i);
        }
        assert(x[0] == unmarked(x[0].index) && spells_ohms(b, x[0].index));
    }
    if i != j && spells_ohms(b, i) && spells_ohms(b, j) {
        if i < j {
            assert(x.len() >= 2);
        } else {
            assert(x.len() >= 2);
        }
    }
    if forall|k: int| 0 <= k < b.tokens.len() ==> !#[trigger] spells_ohms(b, k) {
        if x.len() > 0 {
            assert(spells_ohms(b, x[0].index));
        }
        if b.ohms[i].plausible && (forall|k: int|
            0 <= k < b.tokens.len() && (#[trigger] b.ohms[k]).plausible ==> k == i) {
            assert(y.len() >= 1);
            if y.len() >= 2 {
                let (p, q) = choose|p: int, q: int|
                    0 <= p < q < n && (#[trigger] b.ohms[p]).plausible && (
                    #[trigger] b.ohms[q]).plausible;
                assert(p == i && q == i);
            }
            assert(y[0] == unmarked(y[0].index) && b.ohms[y[0].index].plausible);
        }
        if i != j && b.ohms[i].plausible && b.ohms[j].plausible {
            assert(y.len() >= 2);
        }
    }
}

/// A token says that it is ohms if it reads as a number of them and has the letter R, the
/// ohm sign, or the word at its end.
pub proof fn lemma_says_ohms(tok: Seq<char>, o: Ohms)
    ensures
        ohm_marked(tok, o) <==> o.parses && ((exists|i: int|
            0 <= i < tok.len() && (#[trigger] tok[i] == 'R' || tok[i] == 'r' || tok[i]
                == '\u{3a9}')) || ends_with(ascii_lower_text(tok), "ohm"@) || ends_with(
            ascii_lower_text(tok),
            "ohms"@,
        )),
{
    reveal_strlit("ohm");
    reveal_strlit("ohms");
    if exists|i: int|
        0 <= i < tok.len() && (#[trigger] tok[i] == 'R' || tok[i] == 'r' || tok[i] == '\u{3a9}') {
        let i = choose|i: int|
            0 <= i < tok.len() && (#[trigger] tok[i] == 'R' || tok[i] == 'r' || tok[i]
                == '\u{3a9}');
        assert(unit_char(tok[i], 'R'));
    }
    if exists|i: int| 0 <= i < tok.len() && unit_char(#[trigger] tok[i], 'R') {
        let i = choose|i: int| 0 <= i < tok.len() && unit_char(#[trigger] tok[i], 'R');
        assert(tok[i] == 'R' || tok[i] == 'r' || tok[i] == '\u{3a9}');
    }
}

/// An `@` is about the last value before it that is a number of ohms; a frequency on its
/// own about the last that could be the impedance and says that it is ohms.
pub proof fn lemma_bound(b: BeadValue, out: Seq<BeadModel>, any: bool, k: int)
    requires
        0 <= k <= out.len(),
    ensures
        match b.bound(out, any, k) {
            Some(i) => {
                &&& 0 <= i < k && about(b, out[i], any)
                &&& forall|j: int| i < j < k ==> !about(b, #[trigger] out[j], any)
            },
            None => forall|j: int| 0 <= j < k ==> !about(b, #[trigger] out[j], any),
        },
    decreases k,
{
    if k > 0 && !b.binds(out[k - 1], any) {
        lemma_bound(b, out, any, k - 1);
    }
}

/// What is said can be about the value.
pub open spec fn about(b: BeadValue, t: BeadModel, any: bool) -> bool {
    if any {
        b.ohms[t.index].parses
    } else {
        b.ohms[t.index].plausible && ohm_marked(b.tokens[t.index], b.ohms[t.index])
    }
}

proof fn lemma_scan_upto(b: BeadValue, i: int, k: int)
    requires
        0 <= i <= k <= b.tokens.len(),
        forall|j: int| 0 <= j < k ==> is_value(#[trigger] b.tokens[j]),
    ensures
        b.scan(i, all_unmarked(i)) == b.scan(k, all_unmarked(k)),
    decreases k - i,
{
    if i < k {
        lemma_scan_upto(b, i + 1, k);
        assert(is_value(b.tokens[i]));
        assert(all_unmarked(i).push(unmarked(i)) =~= all_unmarked(i + 1));
    }
}

proof fn lemma_only_rated(b: BeadValue, s: Seq<BeadModel>, i: int, k: int)
    requires
        0 <= k <= s.len(),
        0 <= i < s.len(),
        forall|j: int| 0 <= j < s.len() && j != i ==> (#[trigger] s[j]).freq is None,
        s[i].freq is Some,
        !s[i].dc,
        b.ohms[s[i].index].plausible,
    ensures
        ({
            let c = b.candidates(s, k);
            BeadValue::rated(c, c.len() as int) == (if k > i {
                seq![s[i]]
            } else {
                Seq::empty()
            })
        }),
    decreases k,
{
    let c = b.candidates(s, k);
    if k > 0 {
        lemma_only_rated(b, s, i, k - 1);
        let d = b.candidates(s, k - 1);
        let t = s[k - 1];
        if !t.dc && b.ohms[t.index].plausible {
            assert(c == d.push(t));
            assert forall|j: int| 0 <= j < d.len() implies #[trigger] c[j] == d[j] by {}
            lemma_rated_prefix(c, d, d.len() as int);
            assert(c[c.len() - 1] == t);
            if k - 1 == i {
                assert(Seq::<BeadModel>::empty().push(t) =~= seq![s[i]]);
            }
        }
    }
}

/// Of several values before an `@` and a frequency, the last that is a number of ohms is
/// stated at the frequency, and is the impedance where a bead can be rated at it.
pub proof fn lemma_last_value_at(b: BeadValue, i: int, f: Seq<char>)
    requires
        b.tokens.len() >= 3,
        forall|j: int| 0 <= j < b.tokens.len() - 2 ==> is_value(#[trigger] b.tokens[j]),
        b.tokens[b.tokens.len() - 2] == "@"@,
        mark_of(b.tokens[b.tokens.len() - 1]) == MarkModel::Frequency(f),
        0 <= i < b.tokens.len() - 2,
        b.ohms[i].parses,
        b.ohms[i].plausible,
        forall|j: int| i < j < b.tokens.len() - 2 ==> !(#[trigger] b.ohms[j]).parses,
    ensures
        b.choice() == ChoiceModel::Token(i, Some(f)),
{
    let n = b.tokens.len() - 2;
    let s = all_unmarked(n);
    let e = Seq::<BeadModel>::empty();
    assert(all_unmarked(0) =~= e);
    lemma_scan_upto(b, 0, n);
    lemma_bound(b, s, true, n);
    assert(b.bound(s, true, n) == Some(i)) by {
        assert(s[i] == unmarked(i));
        match b.bound(s, true, n) {
            Some(k) => {
                assert(s[k] == unmarked(k));
                if k < i {
                    assert(!about(b, s[i], true));
                }
                if i < k {
                    assert(!b.ohms[k].parses);
                }
            },
            None => {
                assert(!about(b, s[i], true));
            },
        }
    }
    assert(b.mark_after(n) == (b.tokens[n + 1], n + 2));
    let u = BeadModel { freq: Some(f), ..unmarked(i) };
    let after = s.update(i, u);
    assert(b.marked(s, MarkModel::Frequency(f), true) == Some(after));
    assert(b.scan(n + 2, after) == Some(after));
    assert(b.scan(n, s) == Some(after));
    assert(b.scan(0, e) == Some(after));
    assert forall|j: int| 0 <= j < after.len() && j != i implies (
    #[trigger] after[j]).freq is None by {
        assert(after[j] == unmarked(j));
    }
    assert(after[i] == u);
    lemma_only_rated(b, after, i, n);
    let rated = seq![u];
    assert(rated[0] == u);
    assert(b.agree(rated));
}

} // verus!
