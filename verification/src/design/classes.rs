//! What a reference designator and a net name say about a part and a net.
use vstd::prelude::*;

use crate::text::{after_last, chars_of, is_digit, lowercase, parse_unsigned, run_len, same_text};
use crate::text::{text_after_last, text_of, text_starts_with_char, trim_end, trim_end_matches};
use crate::text::{trim_matches, trimmed, unsigned_value, uppercase, AsciiDigit, Whitespace};
use crate::text::lemma_run_len_unique;
use crate::ranking::{key_of, Key, Mark, Part};

verus! {

/// The part of a reference designator before its first digit.
pub open spec fn refdes_prefix(refdes: Seq<char>) -> Seq<char> {
    refdes.take(run_len(refdes, AsciiDigit, false) as int)
}

/// The class of a part: its designator's prefix in capitals, "R" of "R40".
pub open spec fn class_of(refdes: Seq<char>) -> Seq<char> {
    uppercase(refdes_prefix(refdes))
}

pub fn prefix_text(refdes: &str) -> (r: String)
    ensures
        r@ == refdes_prefix(refdes@),
{
    let v = chars_of(refdes);
    let mut i: usize = 0;
    while i < v.len() && (v[i] < '0' || '9' < v[i])
        invariant
            i <= v.len(),
            v@ == refdes@,
            forall|k: int| 0 <= k < i ==> !is_digit(#[trigger] v@[k]),
        decreases v.len() - i,
    {
        i += 1;
    }
    proof {
        lemma_run_len_unique(v@, AsciiDigit, false, i as int);
        assert(v@.subrange(0, i as int) == v@.take(i as int));
    }
    text_of(&v, 0, i)
}

/// The class of a part.
pub fn refdes_class(refdes: &str) -> (r: String)
    ensures
        r@ == class_of(refdes@),
{
    prefix_text(refdes).as_str().to_uppercase()
}

/// The two-terminal classes that a walk passes through.
pub open spec fn is_passive_class(class: Seq<char>) -> bool {
    class == "R"@ || class == "L"@ || class == "C"@ || class == "FB"@
}

pub open spec fn is_connector_class(class: Seq<char>) -> bool {
    class == "J"@ || class == "P"@ || class == "CN"@ || class == "RJ"@ || class == "USB"@
}

pub open spec fn is_ic_class(class: Seq<char>) -> bool {
    class == "U"@
}

/// Probe points and mechanical hardware, which touch a net without ending it.
pub open spec fn is_probe_class(class: Seq<char>) -> bool {
    class == "TP"@ || class == "H"@ || class == "MH"@ || class == "FID"@
}

/// A passive with exactly two pins: a walk goes through it.
pub open spec fn passthrough(class: Seq<char>, pin_count: int) -> bool {
    is_passive_class(class) && pin_count == 2
}

/// A part that a net can end on: neither a passthrough nor a probe.
pub open spec fn endpoint(class: Seq<char>, pin_count: int) -> bool {
    !passthrough(class, pin_count) && !is_probe_class(class)
}

pub fn in_passive_classes(class: &str) -> (r: bool)
    ensures
        r == is_passive_class(class@),
{
    same_text(class, "R") || same_text(class, "L") || same_text(class, "C") || same_text(
        class,
        "FB",
    )
}

pub fn in_connector_classes(class: &str) -> (r: bool)
    ensures
        r == is_connector_class(class@),
{
    same_text(class, "J") || same_text(class, "P") || same_text(class, "CN") || same_text(
        class,
        "RJ",
    ) || same_text(class, "USB")
}

pub fn in_probe_classes(class: &str) -> (r: bool)
    ensures
        r == is_probe_class(class@),
{
    same_text(class, "TP") || same_text(class, "H") || same_text(class, "MH") || same_text(
        class,
        "FID",
    )
}

/// Whether a part is the two-terminal passive that a walk passes through. The class
/// alone does not say: an `L` with four pins is a choke, on which a net ends.
pub fn is_passive_passthrough(class: &str, pin_count: usize) -> (r: bool)
    ensures
        r == passthrough(class@, pin_count as int),
{
    pin_count == 2 && in_passive_classes(class)
}

/// Whether a net can end on a part. All parts count but the few that are known not
/// to, so a class that nobody has heard of counts too.
pub fn is_endpoint_class(class: &str, pin_count: usize) -> (r: bool)
    ensures
        r == endpoint(class@, pin_count as int),
{
    !is_passive_passthrough(class, pin_count) && !in_probe_classes(class)
}

/// A passive is passed through or ended on, never both and never neither.
pub proof fn lemma_passthrough_or_endpoint(class: Seq<char>, pin_count: int)
    requires
        is_passive_class(class),
    ensures
        passthrough(class, pin_count) <==> !endpoint(class, pin_count),
        passthrough(class, pin_count) <==> pin_count == 2,
{
    reveal_strlit("R");
    reveal_strlit("L");
    reveal_strlit("C");
    reveal_strlit("FB");
    reveal_strlit("TP");
    reveal_strlit("H");
    reveal_strlit("MH");
    reveal_strlit("FID");
    if is_probe_class(class) {
        assert(class[0] == 'R' || class[0] == 'L' || class[0] == 'C' || (class[0] == 'F'
            && class.len() == 2));
        assert(class[0] == 'T' || class[0] == 'H' || class[0] == 'M' || class.len() == 3);
    }
}

/// A probe is never ended on, however many pins it has, and a part that is neither
/// passive nor a probe always is.
pub proof fn lemma_endpoint_by_class(class: Seq<char>, pin_count: int)
    ensures
        is_probe_class(class) ==> !endpoint(class, pin_count),
        !is_passive_class(class) && !is_probe_class(class) ==> endpoint(class, pin_count),
        is_passive_class(class) && pin_count != 2 ==> endpoint(class, pin_count),
{
    if is_passive_class(class) {
        lemma_passthrough_or_endpoint(class, pin_count);
    }
}

/// The broad grouping of a part that a walk ends on.
pub open spec fn kind_of(class: Seq<char>) -> Seq<char> {
    if is_ic_class(class) {
        "ic"@
    } else if is_connector_class(class) {
        "connector"@
    } else if class == "D"@ {
        "diode"@
    } else if class == "Q"@ {
        "transistor"@
    } else if class == "T"@ {
        "transformer"@
    } else if class == "X"@ || class == "Y"@ {
        "crystal"@
    } else if class == "SW"@ {
        "switch"@
    } else if class == "TP"@ {
        "test_point"@
    } else if is_passive_class(class) {
        "passive"@
    } else {
        "other"@
    }
}

/// The broad grouping of a part that a walk ends on.
pub fn endpoint_kind(class: &str) -> (r: String)
    ensures
        r@ == kind_of(class@),
{
    let kind = if same_text(class, "U") {
        "ic"
    } else if in_connector_classes(class) {
        "connector"
    } else if same_text(class, "D") {
        "diode"
    } else if same_text(class, "Q") {
        "transistor"
    } else if same_text(class, "T") {
        "transformer"
    } else if same_text(class, "X") || same_text(class, "Y") {
        "crystal"
    } else if same_text(class, "SW") {
        "switch"
    } else if same_text(class, "TP") {
        "test_point"
    } else if in_passive_classes(class) {
        "passive"
    } else {
        "other"
    };
    kind.to_owned()
}

/// A name split before its trailing digits, and the number they spell, 0 if there are
/// none or if they do not fit.
pub open spec fn natural(s: Seq<char>) -> (Seq<char>, nat) {
    let prefix = trim_end(s, AsciiDigit);
    (
        prefix,
        match unsigned_value(s.skip(prefix.len() as int), u32::MAX as nat) {
            Some(n) => n,
            None => 0,
        },
    )
}

/// What names are sorted by, so that "R2" comes before "R10".
pub open spec fn natural_key(s: Seq<char>) -> Key {
    seq![Mark::Text(natural(s).0), Mark::Number(natural(s).1 as int)]
}

/// Appends the key of a name.
pub fn push_natural(s: &str, out: &mut Vec<Part>)
    ensures
        key_of(final(out)@) == key_of(old(out)@) + natural_key(s@),
{
    let v = chars_of(s);
    let prefix = trim_end_matches(s, &AsciiDigit);
    let n = chars_of(prefix.as_str()).len();
    proof {
        crate::text::lemma_trim_end(s@, AsciiDigit);
    }
    let digits = text_of(&v, n, v.len());
    assert(v@.subrange(n as int, v@.len() as int) == v@.skip(n as int));
    let number: usize = match parse_unsigned(digits.as_str(), u32::MAX as u64) {
        Some(number) => number as usize,
        None => 0,
    };
    let ghost before = key_of(out@);
    out.push(Part::Text(prefix));
    out.push(Part::Up(number));
    assert(key_of(out@) =~= before + natural_key(s@));
}

/// Names that differ in their number alone are sorted by the number: "R2" before "R10".
pub proof fn lemma_natural_order(prefix: Seq<char>, a: Seq<char>, b: Seq<char>)
    requires
        natural(a).0 == prefix,
        natural(b).0 == prefix,
        natural(a).1 < natural(b).1,
    ensures
        crate::ranking::key_order(natural_key(a), natural_key(b)) is Less,
{
    let ka = natural_key(a);
    let kb = natural_key(b);
    crate::text::lemma_text_order(prefix, prefix);
    assert(ka.skip(1)[0] == ka[1] && kb.skip(1)[0] == kb[1]);
    reveal_with_fuel(crate::ranking::key_order, 3);
}

/// The names that are power rails by themselves.
pub open spec fn is_rail_name(lower: Seq<char>) -> bool {
    lower == "gnd"@ || lower == "gnda"@ || lower == "agnd"@ || lower == "dgnd"@ || lower
        == "pgnd"@ || lower == "vss"@ || lower == "vssa"@ || lower == "vcc"@ || lower == "vdd"@
        || lower == "vbat"@ || lower == "vbus"@ || lower == "vee"@ || lower == "vin"@
}

/// A `v` at place `i` with a digit on either side of it.
pub open spec fn voltage_at(s: Seq<char>, i: int) -> bool {
    s[i] == 'v' && ((i > 0 && is_digit(s[i - 1])) || (i + 1 < s.len() && is_digit(s[i + 1])))
}

/// A net name whose last segment is a common rail name, starts with a sign, or holds a
/// supply voltage such as "3v3".
pub open spec fn power_name(name: Seq<char>) -> bool {
    let segment = trimmed(after_last(name, '/'));
    let lower = lowercase(segment);
    ||| is_rail_name(lower)
    ||| segment.len() > 0 && (segment[0] == '+' || segment[0] == '-')
    ||| exists|i: int| 0 <= i < lower.len() && #[trigger] voltage_at(lower, i)
}

fn in_rail_names(lower: &str) -> (r: bool)
    ensures
        r == is_rail_name(lower@),
{
    same_text(lower, "gnd") || same_text(lower, "gnda") || same_text(lower, "agnd") || same_text(
        lower,
        "dgnd",
    ) || same_text(lower, "pgnd") || same_text(lower, "vss") || same_text(lower, "vssa")
        || same_text(lower, "vcc") || same_text(lower, "vdd") || same_text(lower, "vbat")
        || same_text(lower, "vbus") || same_text(lower, "vee") || same_text(lower, "vin")
}

fn holds_voltage(lower: &str) -> (r: bool)
    ensures
        r == (exists|i: int| 0 <= i < lower@.len() && #[trigger] voltage_at(lower@, i)),
{
    let v = chars_of(lower);
    let mut i: usize = 0;
    while i < v.len()
        invariant
            i <= v.len(),
            v@ == lower@,
            forall|k: int| 0 <= k < i ==> !#[trigger] voltage_at(v@, k),
        decreases v.len() - i,
    {
        if v[i] == 'v' {
            let before = i > 0 && '0' <= v[i - 1] && v[i - 1] <= '9';
            let after = i + 1 < v.len() && '0' <= v[i + 1] && v[i + 1] <= '9';
            if before || after {
                assert(voltage_at(v@, i as int));
                return true;
            }
        }
        i += 1;
    }
    false
}

/// Whether a net name looks like that of a power or ground rail.
pub fn is_power_name(name: &str) -> (r: bool)
    ensures
        r == power_name(name@),
{
    let last = text_after_last(name, '/');
    let segment = trim_matches(last.as_str(), &Whitespace);
    let lower = segment.as_str().to_lowercase();
    in_rail_names(lower.as_str()) || text_starts_with_char(segment.as_str(), '+')
        || text_starts_with_char(segment.as_str(), '-') || holds_voltage(lower.as_str())
}

} // verus!
