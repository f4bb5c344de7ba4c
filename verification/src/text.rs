//! Text over `Seq<char>`: the string vocabulary that the rest of the library is stated in.
use vstd::prelude::*;
use vstd::utf8::{encode_utf8, encode_utf8_decode_utf8};

verus! {

/// The Unicode `White_Space` property.
pub open spec fn is_white(c: char) -> bool {
    ||| '\u{9}' <= c <= '\u{d}'
    ||| c == ' '
    ||| c == '\u{85}'
    ||| c == '\u{a0}'
    ||| c == '\u{1680}'
    ||| '\u{2000}' <= c <= '\u{200a}'
    ||| c == '\u{2028}'
    ||| c == '\u{2029}'
    ||| c == '\u{202f}'
    ||| c == '\u{205f}'
    ||| c == '\u{3000}'
}

pub open spec fn is_digit(c: char) -> bool {
    '0' <= c <= '9'
}

pub open spec fn is_letter(c: char) -> bool {
    ('a' <= c <= 'z') || ('A' <= c <= 'Z')
}

pub open spec fn ascii_lower(c: char) -> char {
    if 'A' <= c <= 'Z' {
        ((c as u8) + 32) as char
    } else {
        c
    }
}

pub open spec fn ascii_upper(c: char) -> char {
    if 'a' <= c <= 'z' {
        ((c as u8) - 32) as char
    } else {
        c
    }
}

pub open spec fn is_ascii(c: char) -> bool {
    c <= '\u{7f}'
}

pub open spec fn is_ascii_text(s: Seq<char>) -> bool {
    forall|i: int| 0 <= i < s.len() ==> is_ascii(#[trigger] s[i])
}

pub open spec fn ascii_lower_text(s: Seq<char>) -> Seq<char> {
    s.map_values(|c: char| ascii_lower(c))
}

pub open spec fn ascii_upper_text(s: Seq<char>) -> Seq<char> {
    s.map_values(|c: char| ascii_upper(c))
}

/// Whether a character outside ASCII is a letter or a number in the sense of
/// Unicode.
pub uninterp spec fn unicode_alphanumeric(c: char) -> bool;

/// The Unicode lowercase mapping of a text that is not all ASCII.
pub uninterp spec fn unicode_lowercase(s: Seq<char>) -> Seq<char>;

/// The Unicode uppercase mapping of a text that is not all ASCII.
pub uninterp spec fn unicode_uppercase(s: Seq<char>) -> Seq<char>;

/// A letter or a number: of the ASCII characters, the letters and the digits.
pub open spec fn alphanumeric(c: char) -> bool {
    if is_ascii(c) {
        is_letter(c) || is_digit(c)
    } else {
        unicode_alphanumeric(c)
    }
}

/// The lowercase form of a text: an ASCII text has its letters lowered in place.
pub open spec fn lowercase(s: Seq<char>) -> Seq<char> {
    if is_ascii_text(s) {
        ascii_lower_text(s)
    } else {
        unicode_lowercase(s)
    }
}

/// The uppercase form of a text: an ASCII text has its letters raised in place.
pub open spec fn uppercase(s: Seq<char>) -> Seq<char> {
    if is_ascii_text(s) {
        ascii_upper_text(s)
    } else {
        unicode_uppercase(s)
    }
}

/// `char::is_whitespace` holds exactly of the characters with the Unicode
/// property `White_Space`.
pub assume_specification[ char::is_whitespace ](c: char) -> (r: bool)
    ensures
        r == is_white(c),
;

/// `char::is_alphanumeric` is a property of the character alone; among the
/// ASCII characters it holds of the letters and the digits.
pub assume_specification[ char::is_alphanumeric ](c: char) -> (r: bool)
    ensures
        is_ascii(c) ==> r == (is_letter(c) || is_digit(c)),
        !is_ascii(c) ==> r == unicode_alphanumeric(c),
;

/// `str::to_lowercase` maps a text to its lowercase form, a function of the
/// text alone; an ASCII text has each of its letters lowered in place.
pub assume_specification[ str::to_lowercase ](s: &str) -> (r: String)
    ensures
        is_ascii_text(s@) ==> r@ == ascii_lower_text(s@),
        !is_ascii_text(s@) ==> r@ == unicode_lowercase(s@),
;

/// `str::to_uppercase` maps a text to its uppercase form, a function of the
/// text alone; an ASCII text has each of its letters raised in place.
pub assume_specification[ str::to_uppercase ](s: &str) -> (r: String)
    ensures
        is_ascii_text(s@) ==> r@ == ascii_upper_text(s@),
        !is_ascii_text(s@) ==> r@ == unicode_uppercase(s@),
;

/// `String::push` appends the character to the end of the string.
pub assume_specification[ String::push ](s: &mut String, c: char)
    ensures
        final(s)@ == old(s)@.push(c),
;

/// The characters of a text.
pub fn chars_of(s: &str) -> (r: Vec<char>)
    ensures
        r@ == s@,
{
    let mut out: Vec<char> = Vec::new();
    for c in it: s.chars()
        invariant
            out@ == it.seq().take(it.index()),
    {
        out.push(c);
    }
    out
}

/// The text made of `v[from..to]`.
pub fn text_of(v: &Vec<char>, from: usize, to: usize) -> (r: String)
    requires
        from <= to <= v.len(),
    ensures
        r@ == v@.subrange(from as int, to as int),
{
    let mut out = String::new();
    let mut i: usize = from;
    while i < to
        invariant
            from <= i <= to <= v.len(),
            out@ == v@.subrange(from as int, i as int),
        decreases to - i,
    {
        out.push(v[i]);
        i += 1;
    }
    out
}

/// A set of characters that can be tested.
pub trait CharClass {
    spec fn has(&self, c: char) -> bool;

    fn test(&self, c: char) -> (r: bool)
        ensures
            r == self.has(c),
    ;
}

pub struct Whitespace;

pub struct Exactly(pub char);

pub struct Punctuation;

pub struct AsciiDigit;

impl CharClass for Whitespace {
    open spec fn has(&self, c: char) -> bool {
        is_white(c)
    }

    fn test(&self, c: char) -> (r: bool) {
        c.is_whitespace()
    }
}

impl CharClass for Exactly {
    open spec fn has(&self, c: char) -> bool {
        c == self.0
    }

    fn test(&self, c: char) -> (r: bool) {
        c == self.0
    }
}

impl CharClass for Punctuation {
    open spec fn has(&self, c: char) -> bool {
        !alphanumeric(c)
    }

    fn test(&self, c: char) -> (r: bool) {
        !c.is_alphanumeric()
    }
}

impl CharClass for AsciiDigit {
    open spec fn has(&self, c: char) -> bool {
        is_digit(c)
    }

    fn test(&self, c: char) -> (r: bool) {
        '0' <= c && c <= '9'
    }
}

/// How many leading characters of `s` are in (`inside`) or out of the class.
pub open spec fn run_len<P: CharClass>(s: Seq<char>, p: P, inside: bool) -> nat
    decreases s.len(),
{
    if s.len() > 0 && p.has(s[0]) == inside {
        1 + run_len(s.skip(1), p, inside)
    } else {
        0
    }
}

pub proof fn lemma_run_len<P: CharClass>(s: Seq<char>, p: P, inside: bool)
    ensures
        run_len(s, p, inside) <= s.len(),
        forall|i: int| 0 <= i < run_len(s, p, inside) ==> p.has(#[trigger] s[i]) == inside,
        run_len(s, p, inside) < s.len() ==> p.has(s[run_len(s, p, inside) as int]) != inside,
    decreases s.len(),
{
    if s.len() > 0 && p.has(s[0]) == inside {
        let t = s.skip(1);
        lemma_run_len(t, p, inside);
        let n = run_len(t, p, inside);
        assert forall|i: int| 0 <= i < n + 1 implies p.has(#[trigger] s[i]) == inside by {
            if i > 0 {
                assert(s[i] == t[i - 1]);
            }
        }
        if n < t.len() {
            assert(s[n as int + 1] == t[n as int]);
        }
    }
}

/// The run length is the only count with the run's two properties.
pub proof fn lemma_run_len_unique<P: CharClass>(s: Seq<char>, p: P, inside: bool, n: int)
    requires
        0 <= n <= s.len(),
        forall|i: int| 0 <= i < n ==> p.has(#[trigger] s[i]) == inside,
        n < s.len() ==> p.has(s[n]) != inside,
    ensures
        run_len(s, p, inside) == n,
{
    lemma_run_len(s, p, inside);
    let m = run_len(s, p, inside) as int;
    if m < n {
        assert(p.has(s[m]) == inside);
    }
    if n < m {
        assert(p.has(s[n]) == inside);
    }
}

/// `s` without the characters of the class at its start.
pub open spec fn trim_start<P: CharClass>(s: Seq<char>, p: P) -> Seq<char> {
    s.skip(run_len(s, p, true) as int)
}

/// `s` without the characters of the class at its end.
pub open spec fn trim_end<P: CharClass>(s: Seq<char>, p: P) -> Seq<char>
    decreases s.len(),
{
    if s.len() > 0 && p.has(s.last()) {
        trim_end(s.drop_last(), p)
    } else {
        s
    }
}

/// `s` without the characters of the class at either end.
pub open spec fn trim_both<P: CharClass>(s: Seq<char>, p: P) -> Seq<char> {
    trim_end(trim_start(s, p), p)
}

/// Trimming the end leaves the text up to its last character outside the class.
pub proof fn lemma_trim_end<P: CharClass>(s: Seq<char>, p: P)
    ensures
        trim_end(s, p).len() <= s.len(),
        trim_end(s, p) == s.take(trim_end(s, p).len() as int),
        forall|i: int| trim_end(s, p).len() <= i < s.len() ==> p.has(#[trigger] s[i]),
        trim_end(s, p).len() > 0 ==> !p.has(trim_end(s, p).last()),
    decreases s.len(),
{
    if s.len() > 0 && p.has(s.last()) {
        let t = s.drop_last();
        lemma_trim_end(t, p);
        assert(t.take(trim_end(t, p).len() as int) =~= s.take(trim_end(t, p).len() as int));
        assert forall|i: int| trim_end(s, p).len() <= i < s.len() implies p.has(
            #[trigger] s[i],
        ) by {
            if i < t.len() {
                assert(t[i] == s[i]);
            }
        }
    } else {
        assert(s.take(s.len() as int) =~= s);
    }
}

/// `s` without the white space at either end.
pub open spec fn trimmed(s: Seq<char>) -> Seq<char> {
    trim_both(s, Whitespace)
}

/// The maximal runs of characters outside the class, in order.
pub open spec fn fields<P: CharClass>(s: Seq<char>, p: P) -> Seq<Seq<char>>
    decreases s.len(),
{
    if s.len() == 0 {
        Seq::empty()
    } else if p.has(s[0]) {
        fields(s.skip(1), p)
    } else {
        let n = run_len(s, p, false) as int;
        if 0 < n <= s.len() {
            seq![s.take(n)] + fields(s.skip(n), p)
        } else {
            Seq::empty()
        }
    }
}

/// A non-empty text without characters of the class.
pub open spec fn is_field<P: CharClass>(f: Seq<char>, p: P) -> bool {
    f.len() > 0 && forall|i: int| 0 <= i < f.len() ==> !p.has(#[trigger] f[i])
}

/// Every field is a non-empty text without characters of the class.
pub proof fn lemma_fields<P: CharClass>(s: Seq<char>, p: P)
    ensures
        forall|k: int| 0 <= k < fields(s, p).len() ==> is_field(#[trigger] fields(s, p)[k], p),
    decreases s.len(),
{
    if s.len() == 0 {
        assert(fields(s, p).len() == 0);
    } else if p.has(s[0]) {
        lemma_fields(s.skip(1), p);
        assert(fields(s, p) == fields(s.skip(1), p));
    } else {
        lemma_run_len(s, p, false);
        let n = run_len(s, p, false) as int;
        lemma_fields(s.skip(n), p);
        let rest = fields(s.skip(n), p);
        assert forall|k: int| 0 <= k < fields(s, p).len() implies is_field(
            #[trigger] fields(s, p)[k],
            p,
        ) by {
            if k == 0 {
                assert(fields(s, p)[0] == s.take(n));
            } else {
                assert(fields(s, p)[k] == rest[k - 1]);
            }
        }
    }
}

fn start_run<P: CharClass>(v: &Vec<char>, from: usize, p: &P, inside: bool) -> (r: usize)
    requires
        from <= v.len(),
    ensures
        from <= r <= v.len(),
        r - from == run_len(v@.skip(from as int), *p, inside),
{
    let mut i: usize = from;
    while i < v.len() && p.test(v[i]) == inside
        invariant
            from <= i <= v.len(),
            forall|k: int| from <= k < i ==> p.has(#[trigger] v@[k]) == inside,
        decreases v.len() - i,
    {
        i += 1;
    }
    proof {
        let s = v@.skip(from as int);
        assert forall|k: int| 0 <= k < i - from implies p.has(#[trigger] s[k]) == inside by {
            assert(s[k] == v@[from + k]);
        }
        lemma_run_len_unique(s, *p, inside, i - from);
    }
    i
}

fn end_run<P: CharClass>(v: &Vec<char>, from: usize, p: &P) -> (r: usize)
    requires
        from <= v.len(),
    ensures
        from <= r <= v.len(),
        v@.subrange(from as int, r as int) == trim_end(v@.skip(from as int), *p),
{
    let mut i: usize = v.len();
    assert(v@.subrange(from as int, i as int) == v@.skip(from as int));
    while i > from && p.test(v[i - 1])
        invariant
            from <= i <= v.len(),
            trim_end(v@.subrange(from as int, i as int), *p) == trim_end(v@.skip(from as int), *p),
        decreases i,
    {
        assert(v@.subrange(from as int, i as int).drop_last() == v@.subrange(from as int, i - 1));
        i -= 1;
    }
    i
}

/// The text without the characters of the class at either end.
pub fn trim_matches<P: CharClass>(s: &str, p: &P) -> (r: String)
    ensures
        r@ == trim_both(s@, *p),
{
    let v = chars_of(s);
    assert(v@.skip(0) == v@);
    let from = start_run(&v, 0, p, true);
    let to = end_run(&v, from, p);
    text_of(&v, from, to)
}

/// The text without the characters of the class at its start.
pub fn trim_start_matches<P: CharClass>(s: &str, p: &P) -> (r: String)
    ensures
        r@ == trim_start(s@, *p),
{
    let v = chars_of(s);
    assert(v@.skip(0) == v@);
    let from = start_run(&v, 0, p, true);
    assert(v@.subrange(from as int, v@.len() as int) == v@.skip(from as int));
    text_of(&v, from, v.len())
}

/// The text without the characters of the class at its end.
pub fn trim_end_matches<P: CharClass>(s: &str, p: &P) -> (r: String)
    ensures
        r@ == trim_end(s@, *p),
{
    let v = chars_of(s);
    assert(v@.skip(0) == v@);
    let to = end_run(&v, 0, p);
    text_of(&v, 0, to)
}

/// The contents of a list of strings.
pub open spec fn texts(v: Seq<String>) -> Seq<Seq<char>> {
    v.map_values(|s: String| s@)
}

/// The maximal runs of characters outside the class, in order.
pub fn split_fields<P: CharClass>(s: &str, p: &P) -> (r: Vec<String>)
    ensures
        texts(r@) == fields(s@, *p),
{
    let v = chars_of(s);
    let mut out: Vec<String> = Vec::new();
    let mut i: usize = 0;
    assert(v@.skip(0) == v@);
    assert(texts(out@) =~= Seq::<Seq<char>>::empty());
    while i < v.len()
        invariant
            i <= v.len(),
            texts(out@) + fields(v@.skip(i as int), *p) == fields(v@, *p),
        decreases v.len() - i,
    {
        let ghost rest = v@.skip(i as int);
        if p.test(v[i]) {
            assert(rest.skip(1) == v@.skip(i + 1));
            i += 1;
        } else {
            let end = start_run(&v, i, p, false);
            proof {
                lemma_run_len(rest, *p, false);
                assert(rest[0] == v@[i as int]);
                assert(rest.skip(end - i) == v@.skip(end as int));
                assert(v@.subrange(i as int, end as int) == rest.take(end - i));
            }
            let ghost before = out@;
            out.push(text_of(&v, i, end));
            assert(texts(out@) =~= texts(before).push(rest.take(end - i)));
            assert(texts(out@) + fields(v@.skip(end as int), *p) =~= texts(before) + (seq![
                rest.take(end - i),
            ] + fields(v@.skip(end as int), *p)));
            i = end;
        }
    }
    assert(v@.skip(v@.len() as int) == Seq::<char>::empty());
    assert(texts(out@) + Seq::<Seq<char>>::empty() =~= texts(out@));
    out
}

pub open spec fn starts_with(s: Seq<char>, p: Seq<char>) -> bool {
    p.len() <= s.len() && s.take(p.len() as int) == p
}

pub open spec fn ends_with(s: Seq<char>, p: Seq<char>) -> bool {
    p.len() <= s.len() && s.skip(s.len() - p.len()) == p
}

/// `p` stands in `s` at offset `i`.
pub open spec fn occurs_at(s: Seq<char>, p: Seq<char>, i: int) -> bool {
    0 <= i <= s.len() - p.len() && s.subrange(i, i + p.len()) == p
}

pub open spec fn contains(s: Seq<char>, p: Seq<char>) -> bool {
    exists|i: int| #[trigger] occurs_at(s, p, i)
}

fn matches_at(v: &Vec<char>, p: &Vec<char>, at: usize) -> (r: bool)
    requires
        at + p.len() <= v.len(),
    ensures
        r == occurs_at(v@, p@, at as int),
{
    let mut k: usize = 0;
    while k < p.len()
        invariant
            k <= p.len(),
            at + p.len() <= v.len(),
            forall|j: int| 0 <= j < k ==> v@[at + j] == #[trigger] p@[j],
        decreases p.len() - k,
    {
        if v[at + k] != p[k] {
            proof {
                let w = v@.subrange(at as int, at + p@.len());
                assert(w[k as int] == v@[at + k]);
            }
            return false;
        }
        k += 1;
    }
    assert(v@.subrange(at as int, at + p@.len()) =~= p@);
    true
}

/// Whether the two texts are the same.
pub fn same_text(a: &str, b: &str) -> (r: bool)
    ensures
        r == (a@ == b@),
{
    let x = a.as_bytes();
    let y = b.as_bytes();
    if x.len() != y.len() {
        return false;
    }
    let mut i: usize = 0;
    while i < x.len()
        invariant
            i <= x.len(),
            x.len() == y.len(),
            x@ == encode_utf8(a@),
            y@ == encode_utf8(b@),
            forall|k: int| 0 <= k < i ==> x@[k] == y@[k],
        decreases x.len() - i,
    {
        if x[i] != y[i] {
            return false;
        }
        i += 1;
    }
    proof {
        assert(x@ =~= y@);
        encode_utf8_decode_utf8(a@);
        encode_utf8_decode_utf8(b@);
    }
    true
}

pub fn text_starts_with(s: &str, p: &str) -> (r: bool)
    ensures
        r == starts_with(s@, p@),
{
    let v = chars_of(s);
    let q = chars_of(p);
    if q.len() > v.len() {
        return false;
    }
    assert(v@.subrange(0, q@.len() as int) == v@.take(q@.len() as int));
    matches_at(&v, &q, 0)
}

pub fn text_ends_with(s: &str, p: &str) -> (r: bool)
    ensures
        r == ends_with(s@, p@),
{
    let v = chars_of(s);
    let q = chars_of(p);
    if q.len() > v.len() {
        return false;
    }
    assert(v@.subrange(v@.len() - q@.len(), v@.len() as int) == v@.skip(v@.len() - q@.len()));
    matches_at(&v, &q, v.len() - q.len())
}

pub fn text_contains(s: &str, p: &str) -> (r: bool)
    ensures
        r == contains(s@, p@),
{
    let v = chars_of(s);
    let q = chars_of(p);
    if q.len() > v.len() {
        return false;
    }
    let mut i: usize = 0;
    while i <= v.len() - q.len()
        invariant
            q.len() <= v.len(),
            i <= v.len() - q.len() + 1,
            v@ == s@,
            q@ == p@,
            forall|k: int| 0 <= k < i ==> !#[trigger] occurs_at(v@, q@, k),
        decreases v.len() + 1 - i,
    {
        if matches_at(&v, &q, i) {
            return true;
        }
        if i == v.len() - q.len() {
            return false;
        }
        i += 1;
    }
    false
}

/// Whether the character is the text's first one.
pub fn text_starts_with_char(s: &str, c: char) -> (r: bool)
    ensures
        r == (s@.len() > 0 && s@[0] == c),
{
    let v = chars_of(s);
    v.len() > 0 && v[0] == c
}

/// Whether the character is the text's last one.
pub fn text_ends_with_char(s: &str, c: char) -> (r: bool)
    ensures
        r == (s@.len() > 0 && s@.last() == c),
{
    let v = chars_of(s);
    v.len() > 0 && v[v.len() - 1] == c
}

/// Whether the character occurs in the text.
pub fn text_contains_char(s: &str, c: char) -> (r: bool)
    ensures
        r == s@.contains(c),
{
    let v = chars_of(s);
    let mut i: usize = 0;
    while i < v.len()
        invariant
            i <= v.len(),
            v@ == s@,
            forall|k: int| 0 <= k < i ==> #[trigger] v@[k] != c,
        decreases v.len() - i,
    {
        if v[i] == c {
            assert(s@[i as int] == c);
            return true;
        }
        i += 1;
    }
    false
}

/// What follows the last occurrence of `c` in `s`, all of `s` where there is none.
pub open spec fn after_last(s: Seq<char>, c: char) -> Seq<char>
    decreases s.len(),
{
    if s.len() == 0 || s.last() == c {
        Seq::empty()
    } else {
        after_last(s.drop_last(), c).push(s.last())
    }
}

pub fn text_after_last(s: &str, c: char) -> (r: String)
    ensures
        r@ == after_last(s@, c),
{
    let v = chars_of(s);
    let mut i: usize = v.len();
    assert(v@.take(v@.len() as int) == v@);
    assert(v@.skip(v@.len() as int) =~= Seq::<char>::empty());
    while i > 0 && v[i - 1] != c
        invariant
            i <= v.len(),
            after_last(v@.take(i as int), c) + v@.skip(i as int) == after_last(v@, c),
        decreases i,
    {
        proof {
            let t = v@.take(i as int);
            assert(t.drop_last() == v@.take(i - 1));
            assert(after_last(t, c) + v@.skip(i as int) =~= after_last(v@.take(i - 1), c) + v@.skip(
                i - 1,
            ));
        }
        i -= 1;
    }
    assert(after_last(v@.take(i as int), c) + v@.skip(i as int) =~= v@.skip(i as int));
    assert(v@.subrange(i as int, v@.len() as int) == v@.skip(i as int));
    text_of(&v, i, v.len())
}

/// The texts one after the other with `sep` between neighbours.
pub open spec fn joined(parts: Seq<Seq<char>>, sep: Seq<char>) -> Seq<char>
    decreases parts.len(),
{
    if parts.len() == 0 {
        Seq::empty()
    } else if parts.len() == 1 {
        parts[0]
    } else {
        joined(parts.drop_last(), sep) + sep + parts.last()
    }
}

/// Joins `parts[from..to]`.
pub fn join_texts(parts: &Vec<String>, from: usize, to: usize, sep: &str) -> (r: String)
    requires
        from <= to <= parts.len(),
    ensures
        r@ == joined(texts(parts@).subrange(from as int, to as int), sep@),
{
    let mut out = String::new();
    let mut i: usize = from;
    while i < to
        invariant
            from <= i <= to <= parts.len(),
            out@ == joined(texts(parts@).subrange(from as int, i as int), sep@),
        decreases to - i,
    {
        let ghost done = texts(parts@).subrange(from as int, i as int);
        let ghost next = texts(parts@).subrange(from as int, i + 1);
        assert(next.drop_last() == done);
        if i > from {
            out.append(sep);
        }
        out.append(parts[i].as_str());
        assert(out@ =~= joined(next, sep@));
        i += 1;
    }
    out
}

/// Three-way outcome of a comparison.
#[derive(Debug, Clone, Copy, PartialEq, Eq, Structural)]
pub enum Order {
    Less,
    Equal,
    Greater,
}

/// Dictionary order by code point.
pub open spec fn text_order(a: Seq<char>, b: Seq<char>) -> Order
    decreases a.len(),
{
    if a.len() == 0 || b.len() == 0 {
        int_order(a.len() as int, b.len() as int)
    } else if a[0] != b[0] {
        int_order(a[0] as int, b[0] as int)
    } else {
        text_order(a.skip(1), b.skip(1))
    }
}

pub open spec fn int_order(a: int, b: int) -> Order {
    if a < b {
        Order::Less
    } else if a == b {
        Order::Equal
    } else {
        Order::Greater
    }
}

/// `first`, or `second` where `first` is a tie.
pub open spec fn then_order(first: Order, second: Order) -> Order {
    if first is Equal {
        second
    } else {
        first
    }
}

pub open spec fn reversed(o: Order) -> Order {
    match o {
        Order::Less => Order::Greater,
        Order::Equal => Order::Equal,
        Order::Greater => Order::Less,
    }
}

pub fn order_usize(a: usize, b: usize) -> (r: Order)
    ensures
        r == int_order(a as int, b as int),
{
    if a < b {
        Order::Less
    } else if a == b {
        Order::Equal
    } else {
        Order::Greater
    }
}

pub fn order_text(a: &str, b: &str) -> (r: Order)
    ensures
        r == text_order(a@, b@),
{
    let v = chars_of(a);
    let w = chars_of(b);
    let mut i: usize = 0;
    assert(v@.skip(0) == v@ && w@.skip(0) == w@);
    while i < v.len() && i < w.len()
        invariant
            i <= v.len(),
            i <= w.len(),
            v@ == a@,
            w@ == b@,
            text_order(v@.skip(i as int), w@.skip(i as int)) == text_order(v@, w@),
        decreases v.len() - i,
    {
        assert(v@.skip(i as int)[0] == v@[i as int] && w@.skip(i as int)[0] == w@[i as int]);
        if v[i] != w[i] {
            return if v[i] < w[i] {
                Order::Less
            } else {
                Order::Greater
            };
        }
        assert(v@.skip(i as int).skip(1) == v@.skip(i + 1));
        assert(w@.skip(i as int).skip(1) == w@.skip(i + 1));
        i += 1;
    }
    order_usize(v.len(), w.len())
}

/// Text order is a total order: equal only of equal texts, and mirrored when
/// the two are swapped.
pub proof fn lemma_text_order(a: Seq<char>, b: Seq<char>)
    ensures
        text_order(a, b) is Equal <==> a == b,
        text_order(b, a) == reversed(text_order(a, b)),
    decreases a.len(),
{
    if a.len() > 0 && b.len() > 0 {
        lemma_text_order(a.skip(1), b.skip(1));
        if a[0] == b[0] && a.skip(1) == b.skip(1) {
            assert(a =~= seq![a[0]] + a.skip(1));
            assert(b =~= seq![b[0]] + b.skip(1));
        }
    } else if a.len() == b.len() {
        assert(a =~= b);
    }
}

/// Text order is transitive.
pub proof fn lemma_text_order_transitive(a: Seq<char>, b: Seq<char>, c: Seq<char>)
    requires
        !(text_order(a, b) is Greater),
        !(text_order(b, c) is Greater),
    ensures
        !(text_order(a, c) is Greater),
        text_order(a, c) is Equal ==> text_order(a, b) is Equal && text_order(b, c) is Equal,
    decreases a.len(),
{
    if a.len() > 0 && b.len() > 0 && c.len() > 0 && a[0] == b[0] && b[0] == c[0] {
        lemma_text_order_transitive(a.skip(1), b.skip(1), c.skip(1));
    }
}

/// The character of a decimal digit.
pub open spec fn digit_char(d: nat) -> char {
    ((48 + d) as u8) as char
}

/// The decimal numeral of `n`.
pub open spec fn decimal(n: nat) -> Seq<char>
    decreases n,
{
    if n < 10 {
        seq![digit_char(n)]
    } else {
        decimal(n / 10).push(digit_char(n % 10))
    }
}

pub fn decimal_text(n: usize) -> (r: String)
    ensures
        r@ == decimal(n as nat),
    decreases n,
{
    let mut out = if n < 10 {
        String::new()
    } else {
        decimal_text(n / 10)
    };
    let d: u8 = (n % 10) as u8;
    out.push((48 + d) as char);
    assert(out@ =~= decimal(n as nat));
    out
}

pub open spec fn all_digits(s: Seq<char>) -> bool {
    forall|i: int| 0 <= i < s.len() ==> is_digit(#[trigger] s[i])
}

/// The number that a row of digits spells.
pub open spec fn digits_value(s: Seq<char>) -> nat
    decreases s.len(),
{
    if s.len() == 0 {
        0
    } else {
        digits_value(s.drop_last()) * 10 + (s.last() as nat - 48) as nat
    }
}

/// An unsigned number as a string spells it: digits after an optional plus sign,
/// at most `max`.
pub open spec fn unsigned_value(s: Seq<char>, max: nat) -> Option<nat> {
    let d = if s.len() > 0 && s[0] == '+' {
        s.skip(1)
    } else {
        s
    };
    if d.len() > 0 && all_digits(d) && digits_value(d) <= max {
        Some(digits_value(d))
    } else {
        None
    }
}

proof fn lemma_digits_value_grows(s: Seq<char>, k: int)
    requires
        0 <= k <= s.len(),
        all_digits(s),
    ensures
        digits_value(s.take(k)) <= digits_value(s),
    decreases s.len(),
{
    if k < s.len() {
        assert(s.drop_last().take(k) == s.take(k));
        lemma_digits_value_grows(s.drop_last(), k);
    } else {
        assert(s.take(k) == s);
    }
}

/// Reads an unsigned number of at most `max`.
pub fn parse_unsigned(s: &str, max: u64) -> (r: Option<u64>)
    ensures
        r is Some <==> unsigned_value(s@, max as nat) is Some,
        r matches Some(n) ==> unsigned_value(s@, max as nat) == Some(n as nat),
{
    let v = chars_of(s);
    let from: usize = if v.len() > 0 && v[0] == '+' {
        1
    } else {
        0
    };
    let ghost d = v@.skip(from as int);
    assert(v@.skip(0) == v@);
    if from == v.len() {
        return None;
    }
    let mut n: u64 = 0;
    let mut big = false;
    let mut i: usize = from;
    while i < v.len()
        invariant
            from < v.len(),
            from <= i <= v.len(),
            v@ == s@,
            from == if s@.len() > 0 && s@[0] == '+' { 1int } else { 0 },
            d == v@.skip(from as int),
            n <= max,
            all_digits(d.take(i - from)),
            big ==> digits_value(d.take(i - from)) > max,
            !big ==> digits_value(d.take(i - from)) == n,
        decreases v.len() - i,
    {
        let c = v[i];
        assert(d[i - from] == c);
        if c < '0' || '9' < c {
            return None;
        }
        let ghost done = d.take(i - from);
        let ghost next = d.take(i - from + 1);
        assert(next.drop_last() == done);
        assert forall|k: int| 0 <= k < next.len() implies is_digit(#[trigger] next[k]) by {
            if k < done.len() {
                assert(next[k] == done[k]);
            }
        }
        let digit: u64 = (c as u32 - 48) as u64;
        if !big {
            if digit > max || n > (max - digit) / 10 {
                big = true;
            } else {
                n = n * 10 + digit;
            }
        }
        i += 1;
    }
    assert(d.take(d.len() as int) == d);
    if big {
        None
    } else {
        Some(n)
    }
}

/// The text with each ASCII letter lowered.
pub fn ascii_lowered(s: &str) -> (r: String)
    ensures
        r@ == ascii_lower_text(s@),
{
    let v = chars_of(s);
    let mut out = String::new();
    let mut i: usize = 0;
    while i < v.len()
        invariant
            i <= v.len(),
            v@ == s@,
            out@ == ascii_lower_text(v@.take(i as int)),
        decreases v.len() - i,
    {
        out.push(lower_char(v[i]));
        assert(out@ =~= ascii_lower_text(v@.take(i + 1)));
        i += 1;
    }
    assert(v@.take(v@.len() as int) == v@);
    out
}

pub fn lower_char(c: char) -> (r: char)
    ensures
        r == ascii_lower(c),
{
    if 'A' <= c && c <= 'Z' {
        (c as u8 + 32) as char
    } else {
        c
    }
}

pub fn upper_char(c: char) -> (r: char)
    ensures
        r == ascii_upper(c),
{
    if 'a' <= c && c <= 'z' {
        (c as u8 - 32) as char
    } else {
        c
    }
}

/// A copy of an optional string.
pub fn copy_text(o: &Option<String>) -> (r: Option<String>)
    ensures
        r == *o,
{
    match o {
        Some(s) => Some(s.clone()),
        None => None,
    }
}

} // verus!
