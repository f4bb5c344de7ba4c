//! What the pieces of a text are, said of the places they stand at.
use vstd::prelude::*;

use crate::text::{ascii_lower, ascii_upper, fields, is_ascii, is_ascii_text, lemma_run_len};
use crate::text::{lowercase, run_len, text_order, uppercase, CharClass};

verus! {

/// From place `i` up to place `j` a piece of the text stands between separators: no
/// character in it separates, and the ones around it, where there are any, do.
pub open spec fn piece_at<P: CharClass>(s: Seq<char>, p: P, i: int, j: int) -> bool {
    &&& 0 <= i < j <= s.len()
    &&& forall|k: int| i <= k < j ==> !p.has(#[trigger] s[k])
    &&& i > 0 ==> p.has(s[i - 1])
    &&& j < s.len() ==> p.has(s[j])
}

/// The fields of a text are the pieces that stand between separators, and no others.
pub proof fn lemma_fields_are_pieces<P: CharClass>(s: Seq<char>, p: P, w: Seq<char>)
    ensures
        fields(s, p).contains(w) <==> exists|i: int, j: int| #[trigger]
            piece_at(s, p, i, j) && s.subrange(i, j) == w,
    decreases s.len(),
{
    let all = fields(s, p);
    if s.len() == 0 {
        assert(all.len() == 0);
    } else if p.has(s[0]) {
        let t = s.skip(1);
        lemma_fields_are_pieces(t, p, w);
        lemma_shifted(s, p, w, 1);
        assert forall|i: int, j: int| #[trigger] piece_at(s, p, i, j) implies i >= 1 by {
            if i == 0 {
                assert(!p.has(s[0]));
            }
        }
    } else {
        let n = run_len(s, p, false) as int;
        lemma_run_len(s, p, false);
        assert(0 < n <= s.len());
        let t = s.skip(n);
        lemma_fields_are_pieces(t, p, w);
        let rest = fields(t, p);
        assert(all =~= seq![s.take(n)] + rest);
        assert(piece_at(s, p, 0, n));
        assert(s.subrange(0, n) =~= s.take(n));
        if n < s.len() {
            lemma_shifted(s, p, w, n);
        }
        assert forall|i: int, j: int| #[trigger] piece_at(s, p, i, j) implies (i == 0 && j == n)
            || i >= n by {
            if i < n {
                if i > 0 {
                    assert(p.has(s[i - 1]));
                }
                if j < n {
                    assert(p.has(s[j]));
                }
                if n < j {
                    assert(!p.has(s[n]));
                }
            }
        }
        if all.contains(w) {
            let k = choose|k: int| 0 <= k < all.len() && all[k] == w;
            if k > 0 {
                assert(rest[k - 1] == w);
                assert(rest.contains(w));
                if n == s.len() {
                    assert(t.len() == 0);
                }
            }
        }
        if exists|i: int, j: int| #[trigger] piece_at(s, p, i, j) && s.subrange(i, j) == w {
            let (i, j) = choose|i: int, j: int| #[trigger]
                piece_at(s, p, i, j) && s.subrange(i, j) == w;
            if i == 0 && j == n {
                assert(all[0] == w);
            } else {
                assert(i >= n);
                assert(n < s.len());
                assert(rest.contains(w));
                let k = choose|k: int| 0 <= k < rest.len() && rest[k] == w;
                assert(all[k + 1] == w);
            }
        }
    }
}

/// Behind a separator at its front, or in front of it, a text has the same pieces.
proof fn lemma_shifted<P: CharClass>(s: Seq<char>, p: P, w: Seq<char>, n: int)
    requires
        0 < n <= s.len(),
        n < s.len() ==> p.has(s[n]) || p.has(s[n - 1]),
    ensures
        (exists|i: int, j: int| #[trigger]
            piece_at(s.skip(n), p, i, j) && s.skip(n).subrange(i, j) == w) <==> exists|
            i: int,
            j: int,
        | #[trigger]
            piece_at(s, p, i, j) && i >= n && s.subrange(i, j) == w,
{
    let t = s.skip(n);
    if exists|i: int, j: int| #[trigger] piece_at(t, p, i, j) && t.subrange(i, j) == w {
        let (i, j) = choose|i: int, j: int| #[trigger]
            piece_at(t, p, i, j) && t.subrange(i, j) == w;
        assert forall|k: int| i + n <= k < j + n implies !p.has(#[trigger] s[k]) by {
            assert(t[k - n] == s[k]);
        }
        if i == 0 {
            assert(t[0] == s[n]);
        } else {
            assert(t[i - 1] == s[i + n - 1]);
        }
        if j < t.len() {
            assert(t[j] == s[j + n]);
        }
        assert(piece_at(s, p, i + n, j + n));
        assert(s.subrange(i + n, j + n) =~= t.subrange(i, j));
    }
    if exists|i: int, j: int| #[trigger] piece_at(s, p, i, j) && i >= n && s.subrange(i, j) == w {
        let (i, j) = choose|i: int, j: int| #[trigger]
            piece_at(s, p, i, j) && i >= n && s.subrange(i, j) == w;
        assert forall|k: int| i - n <= k < j - n implies !p.has(#[trigger] t[k]) by {
            assert(t[k] == s[k + n]);
        }
        if i > n {
            assert(t[i - n - 1] == s[i - 1]);
        }
        if j < s.len() {
            assert(t[j - n] == s[j]);
        }
        assert(piece_at(t, p, i - n, j - n));
        assert(s.subrange(i, j) =~= t.subrange(i - n, j - n));
    }
}

/// Letters change case in place, and nothing else does.
pub proof fn lemma_case(c: char)
    ensures
        ascii_lower(c) != c <==> 'A' <= c <= 'Z',
        ascii_upper(c) != c <==> 'a' <= c <= 'z',
        'A' <= c <= 'Z' ==> 'a' <= ascii_lower(c) <= 'z' && ascii_upper(ascii_lower(c)) == c,
        'a' <= c <= 'z' ==> 'A' <= ascii_upper(c) <= 'Z' && ascii_lower(ascii_upper(c)) == c,
        ascii_lower(ascii_lower(c)) == ascii_lower(c),
        ascii_lower(ascii_upper(c)) == ascii_lower(c),
{
}

/// Plain texts are the same letter case aside exactly when they are character by character,
/// and lowering a text twice changes nothing more.
pub proof fn lemma_same_letters(a: Seq<char>, b: Seq<char>)
    requires
        is_ascii_text(a),
        is_ascii_text(b),
    ensures
        lowercase(a) == lowercase(b) <==> a.len() == b.len() && forall|i: int|
            0 <= i < a.len() ==> ascii_lower(#[trigger] a[i]) == ascii_lower(b[i]),
        lowercase(a).len() == a.len(),
        lowercase(uppercase(a)) == lowercase(a),
{
    let x = lowercase(a);
    let y = lowercase(b);
    if x == y {
        assert(x.len() == a.len() && y.len() == b.len());
        assert forall|i: int| 0 <= i < a.len() implies ascii_lower(#[trigger] a[i]) == ascii_lower(
            b[i],
        ) by {
            assert(x[i] == y[i]);
        }
    }
    if a.len() == b.len() && forall|i: int|
        0 <= i < a.len() ==> ascii_lower(#[trigger] a[i]) == ascii_lower(b[i]) {
        assert(x =~= y);
    }
    let u = uppercase(a);
    assert(is_ascii_text(u)) by {
        assert forall|i: int| 0 <= i < u.len() implies is_ascii(#[trigger] u[i]) by {
            assert(u[i] == ascii_upper(a[i]));
            assert(is_ascii(a[i]));
        }
    }
    assert forall|i: int| 0 <= i < a.len() implies #[trigger] lowercase(u)[i] == x[i] by {
        lemma_case(a[i]);
    }
    assert(lowercase(u) =~= x);
}

/// Texts stand as in a dictionary: the first character in which they differ decides, and a
/// text comes before those that go on from it.
pub proof fn lemma_dictionary(p: Seq<char>, x: char, a: Seq<char>, y: char, b: Seq<char>)
    requires
        x < y,
    ensures
        text_order(p + seq![x] + a, p + seq![y] + b) is Less,
        text_order(p, p + seq![x] + a) is Less,
    decreases p.len(),
{
    let s = p + seq![x] + a;
    let t = p + seq![y] + b;
    if p.len() > 0 {
        let q = p.skip(1);
        lemma_dictionary(q, x, a, y, b);
        assert(s[0] == p[0] && t[0] == p[0]);
        assert(s.skip(1) =~= q + seq![x] + a);
        assert(t.skip(1) =~= q + seq![y] + b);
    } else {
        assert(s[0] == x && t[0] == y);
    }
}

} // verus!
