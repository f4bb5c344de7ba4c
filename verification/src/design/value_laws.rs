//! How values read, said of the numbers and letters that they are written with.
use vstd::prelude::*;

use super::value::{dot_count, is_decimal, is_marker, later_exponent, lemma_number_len};
use super::value::{marker_place, number_char, number_len, passive_of, prefix_exponent};
use super::value::{simple_reading, spells_number, stripped_reading, token_reading, unit_char};
use super::value::{unit_of, unit_token_exponent, unsigned_part, without_word, Passive};
use super::value::ReadingModel;
use crate::lists::lemma_first_where;
use crate::text::{all_digits, ascii_lower, ascii_lower_text, ends_with, is_digit};

verus! {

/// The power of ten that a letter stands for before a unit: of resistances milli and micro,
/// kilo, mega and giga; of capacitances and inductances milli and below, a capital M being
/// milli on an inductance.
pub open spec fn stands_for(c: char, unit: char, e: int) -> bool {
    let micro = c == 'u' || c == 'U' || c == '\u{b5}' || c == '\u{3bc}';
    let low = (e == -12 && (c == 'p' || c == 'P')) || (e == -9 && (c == 'n' || c == 'N'));
    let both = (e == -6 && micro) || (e == -3 && c == 'm');
    let high = (e == 3 && (c == 'k' || c == 'K')) || (e == 6 && c == 'M') || (e == 9 && c == 'G');
    ||| unit == 'R' && (both || high)
    ||| unit == 'F' && (both || low)
    ||| unit == 'H' && (both || low || (e == -3 && c == 'M'))
}

/// One of the three letters that units are written with.
pub open spec fn is_unit(unit: char) -> bool {
    unit == 'R' || unit == 'F' || unit == 'H'
}

/// The letter that marks the unit itself, in either case, or for ohms their sign.
pub open spec fn marks_unit(c: char, unit: char) -> bool {
    ||| unit == 'R' && (c == 'R' || c == 'r' || c == '\u{3a9}')
    ||| unit == 'F' && (c == 'F' || c == 'f')
    ||| unit == 'H' && (c == 'H' || c == 'h')
}

/// Prefix letters stand for their power of ten where parts are made in that decade, and
/// for nothing elsewhere.
pub proof fn lemma_prefixes(c: char, unit: char, e: int)
    requires
        is_unit(unit),
    ensures
        prefix_exponent(c, unit) == Some(e) <==> stands_for(c, unit, e),
        unit_char(c, unit) <==> marks_unit(c, unit),
{
}

/// Resistors, capacitors, inductors and beads are the classes whose values read, each in
/// its unit.
pub proof fn lemma_passives(class: Seq<char>)
    ensures
        passive_of(class) == Some(Passive::Resistor) <==> class == seq!['R'],
        passive_of(class) == Some(Passive::Capacitor) <==> class == seq!['C'],
        passive_of(class) == Some(Passive::Inductor) <==> class == seq!['L'],
        passive_of(class) == Some(Passive::Bead) <==> class == seq!['F', 'B'],
        passive_of(class) matches Some(p) ==> unit_of(p) == (if class == seq!['C'] {
            'F'
        } else if class == seq!['L'] {
            'H'
        } else {
            'R'
        }),
{
    reveal_strlit("R");
    reveal_strlit("C");
    reveal_strlit("L");
    reveal_strlit("FB");
    assert("R"@ =~= seq!['R']);
    assert("C"@ =~= seq!['C']);
    assert("L"@ =~= seq!['L']);
    assert("FB"@ =~= seq!['F', 'B']);
    let r = seq!['R'];
    let c = seq!['C'];
    let l = seq!['L'];
    let fb = seq!['F', 'B'];
    assert(r[0] == 'R' && c[0] == 'C' && l[0] == 'L' && fb[0] == 'F');
}

/// Digits with at most one point among them.
pub open spec fn plain_number(s: Seq<char>) -> bool {
    &&& forall|i: int| 0 <= i < s.len() ==> is_digit(#[trigger] s[i]) || s[i] == '.'
    &&& forall|i: int, j: int|
        0 <= i < j < s.len() ==> !(#[trigger] s[i] == '.' && #[trigger] s[j] == '.')
    &&& exists|i: int| 0 <= i < s.len() && is_digit(#[trigger] s[i])
}

pub proof fn lemma_dots(s: Seq<char>)
    requires
        forall|i: int, j: int|
            0 <= i < j < s.len() ==> !(#[trigger] s[i] == '.' && #[trigger] s[j] == '.'),
    ensures
        dot_count(s) <= 1,
        dot_count(s) <= s.len(),
        dot_count(s) == 0 <==> forall|i: int| 0 <= i < s.len() ==> #[trigger] s[i] != '.',
        (exists|i: int| 0 <= i < s.len() && #[trigger] s[i] != '.') ==> dot_count(s) < s.len(),
    decreases s.len(),
{
    if s.len() > 0 {
        let t = s.drop_last();
        let last = s.len() - 1;
        assert forall|i: int, j: int| 0 <= i < j < t.len() implies !(#[trigger] t[i] == '.'
            && #[trigger] t[j] == '.') by {
            assert(t[i] == s[i] && t[j] == s[j]);
        }
        lemma_dots(t);
        assert(s[last] == s.last());
        if s.last() == '.' {
            assert forall|i: int| 0 <= i < t.len() implies #[trigger] t[i] != '.' by {
                assert(t[i] == s[i]);
                assert(!(s[i] == '.' && s[last] == '.'));
            }
            assert(dot_count(t) == 0);
            if exists|i: int| 0 <= i < s.len() && #[trigger] s[i] != '.' {
                let i = choose|i: int| 0 <= i < s.len() && #[trigger] s[i] != '.';
                assert(i < last);
            }
        } else {
            if dot_count(t) == 0 {
                assert forall|i: int| 0 <= i < s.len() implies #[trigger] s[i] != '.' by {
                    if i < last {
                        assert(t[i] == s[i]);
                    }
                }
            }
            if forall|i: int| 0 <= i < s.len() ==> #[trigger] s[i] != '.' {
                assert forall|i: int| 0 <= i < t.len() implies #[trigger] t[i] != '.' by {
                    assert(t[i] == s[i]);
                }
            }
        }
    }
}

/// A plain number is one in decimal digits.
pub proof fn lemma_plain_is_decimal(s: Seq<char>)
    requires
        plain_number(s),
    ensures
        is_decimal(s),
        s.len() > 0,
        number_char(s[0]),
        number_char(s.last()),
{
    lemma_dots(s);
    let i = choose|i: int| 0 <= i < s.len() && is_digit(#[trigger] s[i]);
    assert(s[i] != '.');
    assert(s[0] == '.' || is_digit(s[0]));
    assert(s[s.len() - 1] == '.' || is_digit(s[s.len() - 1]));
    assert(unsigned_part(s) == s);
    lemma_number_len(s, s.len() as int);
    assert(s.take(s.len() as int) =~= s);
    assert(s.skip(s.len() as int).len() == 0);
}

/// A token whose last letter but one is no letter of "ohms", or whose last is none, has no
/// unit word at its end.
proof fn lemma_no_word(s: Seq<char>, unit: char)
    requires
        s.len() > 0 ==> (s.last() != 'm' && s.last() != 'M' && s.last() != 's' && s.last() != 'S')
            || (s.len() >= 2 && number_char(s[s.len() - 2])) || s.len() == 1,
    ensures
        without_word(s, unit) == s,
{
    reveal_strlit("ohm");
    reveal_strlit("ohms");
    let lower = ascii_lower_text(s);
    if ends_with(lower, "ohms"@) {
        let end = lower.skip(lower.len() - 4);
        assert(end[3] == 's' && end[2] == 'm');
        assert(lower[s.len() - 1] == end[3] && lower[s.len() - 2] == end[2]);
        assert(ascii_lower(s[s.len() - 1]) == 's' && ascii_lower(s[s.len() - 2]) == 'm');
        assert(s.last() == s[s.len() - 1]);
    }
    if ends_with(lower, "ohm"@) {
        let end = lower.skip(lower.len() - 3);
        assert(end[2] == 'm' && end[1] == 'h');
        assert(lower[s.len() - 1] == end[2] && lower[s.len() - 2] == end[1]);
        assert(ascii_lower(s[s.len() - 1]) == 'm' && ascii_lower(s[s.len() - 2]) == 'h');
        assert(s.last() == s[s.len() - 1]);
    }
}

proof fn lemma_marker(s: Seq<char>, unit: char, k: int)
    requires
        0 <= k <= s.len(),
        is_unit(unit),
        forall|i: int| 0 <= i < k ==> number_char(#[trigger] s[i]),
        k < s.len() ==> is_marker(s[k], unit),
    ensures
        marker_place(s, unit) == (if k < s.len() {
            Some(k)
        } else {
            None
        }),
{
    let p = |i: int| is_marker(s[i], unit);
    assert forall|i: int| 0 <= i < k implies !#[trigger] p(i) by {
        assert(number_char(s[i]));
    }
    if k < s.len() {
        assert(p(k));
    }
    lemma_first_where(p, 0, s.len() as int, k);
}

/// A bare number reads as itself.
pub proof fn lemma_bare_number(n: Seq<char>, unit: char)
    requires
        is_unit(unit),
        plain_number(n),
    ensures
        token_reading(n, unit) == Some(ReadingModel { number: n, exponent: 0 }),
{
    lemma_plain_is_decimal(n);
    lemma_no_word(n, unit);
    lemma_marker(n, unit, n.len() as int);
}

/// A number with the unit behind it reads as the number; with a prefix letter, and the unit
/// or not, as the number at that power of ten.
pub proof fn lemma_number_and_letters(n: Seq<char>, c: char, u: char, unit: char, e: int)
    requires
        is_unit(unit),
        plain_number(n),
        marks_unit(u, unit),
        stands_for(c, unit, e),
    ensures
        token_reading(n.push(u), unit) == Some(ReadingModel { number: n, exponent: 0 }),
        token_reading(n.push(c), unit) == Some(ReadingModel { number: n, exponent: e }),
        token_reading(n.push(c).push(u), unit) == Some(ReadingModel { number: n, exponent: e }),
{
    lemma_plain_is_decimal(n);
    lemma_prefixes(c, unit, e);
    lemma_prefixes(u, unit, 0);
    let a = n.push(u);
    lemma_no_word(a, unit);
    lemma_marker(a, unit, n.len() as int);
    assert(a.take(n.len() as int) =~= n);
    assert(a.skip(n.len() as int + 1).len() == 0);
    assert(prefix_exponent(u, unit) is None);
    let b = n.push(c);
    lemma_no_word(b, unit);
    lemma_marker(b, unit, n.len() as int);
    assert(b.take(n.len() as int) =~= n);
    assert(b.skip(n.len() as int + 1).len() == 0);
    let d = n.push(c).push(u);
    lemma_no_word(d, unit);
    assert forall|i: int| 0 <= i < n.len() implies number_char(#[trigger] d[i]) by {
        assert(d[i] == n[i]);
    }
    assert(d[n.len() as int] == c);
    lemma_marker(d, unit, n.len() as int);
    assert(d.take(n.len() as int) =~= n);
    let tail = d.skip(n.len() as int + 1);
    assert(tail.len() == 1 && tail[0] == u);
}

/// A letter between digits is their decimal point: "4R7" is 4.7 and "4k7" is 4.7 kilo,
/// where at most three digits follow it. With more it is a part number and reads as
/// nothing.
pub proof fn lemma_letter_for_point(a: Seq<char>, c: char, b: Seq<char>, unit: char)
    requires
        is_unit(unit),
        a.len() > 0,
        all_digits(a),
        b.len() > 0,
        all_digits(b),
        prefix_exponent(c, unit) is Some || marks_unit(c, unit),
    ensures
        token_reading(a.push(c) + b, unit) == (if b.len() <= 3 {
            Some(
                ReadingModel {
                    number: a + seq!['.'] + b,
                    exponent: match prefix_exponent(c, unit) {
                        Some(e) => e,
                        None => 0,
                    },
                },
            )
        } else {
            None
        }),
{
    reveal_strlit(".");
    assert("."@ =~= seq!['.']);
    let s = a.push(c) + b;
    assert(s.last() == b[b.len() - 1]);
    assert(is_digit(b[b.len() - 1]));
    lemma_prefixes(c, unit, 0);
    lemma_no_word(s, unit);
    assert forall|i: int| 0 <= i < a.len() implies number_char(#[trigger] s[i]) by {
        assert(s[i] == a[i]);
    }
    assert(s[a.len() as int] == c);
    lemma_marker(s, unit, a.len() as int);
    assert(s.take(a.len() as int) =~= a);
    assert(s.skip(a.len() as int + 1) =~= b);
    let n = a + seq!['.'] + b;
    assert(plain_number(n)) by {
        assert forall|i: int| 0 <= i < n.len() implies is_digit(#[trigger] n[i]) || n[i] == '.' by {
            if i < a.len() {
                assert(n[i] == a[i]);
            } else if i > a.len() {
                assert(n[i] == b[i - a.len() - 1]);
            }
        }
        assert forall|i: int, j: int| 0 <= i < j < n.len() implies !(#[trigger] n[i] == '.'
            && #[trigger] n[j] == '.') by {
            if i < a.len() {
                assert(n[i] == a[i]);
            } else {
                assert(n[j] == b[j - a.len() - 1]);
            }
        }
        assert(n[0] == a[0]);
        assert(is_digit(n[0]));
    }
    lemma_plain_is_decimal(n);
    assert(is_digit(b[0]));
}

/// A resistance may spell its unit out: "ohm" or "ohms", letter case aside, behind a token
/// changes nothing.
pub proof fn lemma_unit_word(s: Seq<char>, w: Seq<char>)
    requires
        ascii_lower_text(w) == "ohm"@ || ascii_lower_text(w) == "ohms"@,
    ensures
        token_reading(s + w, 'R') == stripped_reading(s, 'R'),
{
    reveal_strlit("ohm");
    reveal_strlit("ohms");
    let t = s + w;
    let lower = ascii_lower_text(t);
    assert(lower =~= ascii_lower_text(s) + ascii_lower_text(w));
    assert(lower.skip(lower.len() - w.len()) =~= ascii_lower_text(w));
    assert(ascii_lower_text(w).len() == w.len());
    if ascii_lower_text(w) == "ohm"@ {
        assert(ends_with(lower, "ohm"@));
        assert(!ends_with(lower, "ohms"@)) by {
            if ends_with(lower, "ohms"@) {
                let end = lower.skip(lower.len() - 4);
                assert(end[3] == 's');
                assert(end[3] == lower[lower.len() - 1]);
                assert(lower.skip(lower.len() - 3)[2] == lower[lower.len() - 1]);
            }
        }
        assert(t.take(t.len() - 3) =~= s);
    } else {
        assert(ends_with(lower, "ohms"@));
        assert(t.take(t.len() - 4) =~= s);
    }
}

/// A value is read from its first token where that has a letter in it; what follows is left
/// aside.
pub proof fn lemma_first_token_counts(tokens: Seq<Seq<char>>, unit: char)
    requires
        tokens.len() > 0,
        marker_place(without_word(tokens[0], unit), unit) is Some,
    ensures
        simple_reading(tokens, unit) == token_reading(tokens[0], unit),
{
}

/// A bare number has its power of ten from the token behind it: a prefix letter, with the
/// unit or without, or the unit alone.
pub proof fn lemma_letter_apart(n: Seq<char>, c: char, u: char, unit: char, e: int)
    requires
        is_unit(unit),
        plain_number(n),
        marks_unit(u, unit),
        stands_for(c, unit, e),
    ensures
        simple_reading(seq![n], unit) == Some(ReadingModel { number: n, exponent: 0 }),
        simple_reading(seq![n, seq![c]], unit) == Some(ReadingModel { number: n, exponent: e }),
        simple_reading(seq![n, seq![c, u]], unit) == Some(ReadingModel { number: n, exponent: e }),
        simple_reading(seq![n, seq![u]], unit) == Some(ReadingModel { number: n, exponent: 0 }),
{
    lemma_bare_number(n, unit);
    lemma_plain_is_decimal(n);
    lemma_no_word(n, unit);
    lemma_marker(n, unit, n.len() as int);
    lemma_prefixes(c, unit, e);
    lemma_prefixes(c, unit, 0);
    lemma_prefixes(u, unit, 0);
    let one = seq![n];
    assert(later_exponent(one, unit, 1) == 0);
    let x = seq![c];
    let y = seq![c, u];
    let z = seq![u];
    lemma_no_word(x, unit);
    lemma_no_word(z, unit);
    assert(y.last() == u);
    lemma_no_word(y, unit);
    assert(x[0] == c && z[0] == u && y[0] == c && y[1] == u);
    assert(unit_token_exponent(x, unit, true) == Some(e));
    assert(unit_token_exponent(y, unit, true) == Some(e));
    assert(unit_token_exponent(z, unit, true) == Some(0int));
    let a = seq![n, x];
    let b = seq![n, y];
    let d = seq![n, z];
    assert(a[1] == x && b[1] == y && d[1] == z);
    assert(later_exponent(a, unit, 1) == e);
    assert(later_exponent(b, unit, 1) == e);
    assert(later_exponent(d, unit, 1) == 0);
}

/// A lone letter that does not stand right behind a bare number is left aside: it is a
/// tolerance or a dielectric.
pub proof fn lemma_letter_further_on(n: Seq<char>, x: Seq<char>, c: char, unit: char)
    requires
        is_unit(unit),
        plain_number(n),
        unit_token_exponent(x, unit, true) is None,
        !marks_unit(c, unit),
    ensures
        simple_reading(seq![n, x, seq![c]], unit) == Some(ReadingModel { number: n, exponent: 0 }),
{
    lemma_bare_number(n, unit);
    lemma_plain_is_decimal(n);
    lemma_no_word(n, unit);
    lemma_marker(n, unit, n.len() as int);
    lemma_prefixes(c, unit, 0);
    let y = seq![c];
    lemma_no_word(y, unit);
    let t = seq![n, x, y];
    assert(t[0] == n && t[1] == x && t[2] == y && y[0] == c);
    assert(unit_token_exponent(t[2], unit, false) is None);
    assert(later_exponent(t, unit, 3) == 0);
    assert(later_exponent(t, unit, 2) == 0);
    assert(later_exponent(t, unit, 1) == 0);
}

/// A number may have a sign before it and a power of ten behind it.
pub proof fn lemma_decimal_forms(n: Seq<char>, sign: char, e: char, power: Seq<char>)
    requires
        plain_number(n),
        sign == '+' || sign == '-',
        e == 'e' || e == 'E',
        power.len() > 0,
        all_digits(power),
    ensures
        is_decimal(n),
        is_decimal(seq![sign] + n),
        is_decimal(n.push(e) + power),
        is_decimal(n.push(e).push(sign) + power),
        !is_decimal(n.push(e)),
        !is_decimal(seq![sign]),
{
    lemma_plain_is_decimal(n);
    let a = seq![sign] + n;
    assert(a[0] == sign);
    assert(a.skip(1) =~= n);
    assert(unsigned_part(n) == n);
    let k = n.len() as int;
    let b = n.push(e) + power;
    let c = n.push(e).push(sign) + power;
    let d = n.push(e);
    lemma_split_at(n, b);
    lemma_split_at(n, c);
    lemma_split_at(n, d);
    assert(b.skip(k) =~= seq![e] + power);
    assert((seq![e] + power).skip(1) =~= power);
    assert(is_digit(power[0]));
    assert(unsigned_part(power) == power);
    assert(c.skip(k) =~= seq![e, sign] + power);
    let rest = (seq![e, sign] + power).skip(1);
    assert(rest =~= seq![sign] + power);
    assert(rest[0] == sign);
    assert(rest.skip(1) =~= power);
    assert(d.skip(k) =~= seq![e]);
    assert(seq![e].skip(1).len() == 0);
    let s = seq![sign];
    assert(s[0] == sign);
    assert(s.skip(1).len() == 0);
    lemma_number_len(s.skip(1), 0);
    assert(s.skip(1).take(0).len() == 0);
}

proof fn lemma_split_at(n: Seq<char>, s: Seq<char>)
    requires
        plain_number(n),
        n.len() < s.len(),
        forall|i: int| 0 <= i < n.len() ==> #[trigger] s[i] == n[i],
        !number_char(s[n.len() as int]),
    ensures
        unsigned_part(s) == s,
        number_len(s) == n.len(),
        s.take(n.len() as int) == n,
        spells_number(n),
{
    lemma_plain_is_decimal(n);
    lemma_dots(n);
    let i = choose|i: int| 0 <= i < n.len() && is_digit(#[trigger] n[i]);
    assert(n[i] != '.');
    assert(s[0] == n[0]);
    assert forall|j: int| 0 <= j < n.len() implies number_char(#[trigger] s[j]) by {
        assert(s[j] == n[j]);
    }
    lemma_number_len(s, n.len() as int);
    assert(s.take(n.len() as int) =~= n);
}

} // verus!
