//! Which sheets a subsystem filter selects, and where a net's name is taken apart, said of
//! the characters of paths and names.
use vstd::prelude::*;

use super::net_laws::{lemma_stands_in, stands_in};
use super::sheets::{closed_path, display_name, hierarchy_is, lemma_hierarchy_names_a_sheet};
use super::sheets::{lowered, names_sheet, normalized, only_slashes, parsed_filter, segments};
use super::sheets::{selects, NetHierarchy, Selector};
use crate::parser::netlist::opt_text;
use crate::text::{ascii_lower, fields, is_ascii, is_ascii_text, is_field, joined, lemma_run_len};
use crate::text::{lemma_run_len_unique, lemma_trim_end, lowercase, run_len, starts_with, trim_both};
use crate::text::{trim_end, trim_start, trimmed, CharClass, Exactly};

verus! {

/// A path in plain characters, with no white space around it, that starts at the root and
/// goes on from there.
pub open spec fn plain_path(s: Seq<char>) -> bool {
    is_ascii_text(s) && trimmed(s) == s && s.len() > 0 && s[0] == '/' && !only_slashes(s)
}

proof fn lemma_lowered(s: Seq<char>)
    requires
        is_ascii_text(s),
    ensures
        lowered(s) == s.map_values(|c: char| ascii_lower(c)),
{
    lemma_trim_end(s, Exactly('/'));
    let stem = trim_end(s, Exactly('/'));
    let rest = s.skip(stem.len() as int);
    assert(is_ascii_text(stem)) by {
        assert forall|i: int| 0 <= i < stem.len() implies is_ascii(
            #[trigger] stem[i],
        ) by {
            assert(stem[i] == s[i]);
        }
    }
    assert forall|i: int| 0 <= i < rest.len() implies #[trigger] rest[i] == '/' by {
        assert(Exactly('/').has(s[stem.len() + i]));
    }
    assert(lowered(s) =~= s.map_values(|c: char| ascii_lower(c))) by {
        assert forall|i: int| 0 <= i < s.len() implies lowered(s)[i] == ascii_lower(s[i]) by {
            if i < stem.len() {
                assert(stem[i] == s[i]);
            } else {
                assert(rest[i - stem.len()] == s[i]);
            }
        }
    }
}

/// A rooted path selects a rooted sheet exactly when the sheet's path starts with it,
/// letter case aside, and goes on with a slash or stops there: the sheet itself and every
/// sheet under it, and no sheet whose name only begins like it.
pub proof fn lemma_path_selects(p: Seq<char>, s: Seq<char>)
    requires
        plain_path(p),
        p.last() != '/',
        plain_path(s),
    ensures
        parsed_filter(Some(p)) is Some,
        selects(parsed_filter(Some(p)).unwrap(), Some(s)) <==> {
            &&& p.len() <= s.len()
            &&& forall|i: int|
                0 <= i < p.len() ==> ascii_lower(#[trigger] p[i]) == ascii_lower(s[i])
            &&& s.len() > p.len() ==> s[p.len() as int] == '/'
        },
{
    lemma_lowered(p);
    lemma_lowered(s);
    let key = closed_path(p);
    assert(key =~= p.map_values(|c: char| ascii_lower(c)).push('/'));
    assert(parsed_filter(Some(p)) == Some(Selector::Path(key)));
    let path = closed_path(s);
    let low = s.map_values(|c: char| ascii_lower(c));
    assert(path == (if s.last() == '/' {
        low
    } else {
        low.push('/')
    }));
    if starts_with(path, key) {
        let head = path.take(key.len() as int);
        assert forall|i: int| 0 <= i < p.len() implies ascii_lower(#[trigger] p[i]) == ascii_lower(
            s[i],
        ) by {
            assert(head[i] == key[i]);
            if i == s.len() {
                assert(path[i] == '/');
            }
        }
        assert(head[p.len() as int] == key[p.len() as int]);
        if p.len() > s.len() {
            assert(path.len() == s.len() + 1);
            assert(p.len() + 1 <= path.len());
        }
        if s.len() > p.len() {
            let c = s[p.len() as int];
            assert(ascii_lower(c) == '/');
        }
    }
    if p.len() <= s.len() && (forall|i: int|
        0 <= i < p.len() ==> ascii_lower(#[trigger] p[i]) == ascii_lower(s[i])) && (s.len()
        > p.len() ==> s[p.len() as int] == '/') {
        if s.len() == p.len() && s.last() == '/' {
            assert(ascii_lower(p[p.len() - 1]) == ascii_lower(s[p.len() - 1]));
            assert(p.last() == p[p.len() - 1]);
            assert(ascii_lower(p.last()) == '/');
        }
        assert(path.take(key.len() as int) =~= key);
    }
}

/// A text that does not start at the root selects the sheets in whose path, without its
/// outer slashes, it stands, letter case aside.
pub proof fn lemma_text_selects(t: Seq<char>, s: Seq<char>)
    requires
        t.len() > 0,
        trimmed(t) == t,
        t[0] != '/',
        trimmed(s).len() > 0,
    ensures
        parsed_filter(Some(t)) is Some,
        selects(parsed_filter(Some(t)).unwrap(), Some(s)) <==> stands_in(
            lowercase(trim_both(t, Exactly('/'))),
            lowercase(trim_both(trimmed(s), Exactly('/'))),
        ),
{
    lemma_stands_in(
        lowercase(trim_both(t, Exactly('/'))),
        lowercase(trim_both(trimmed(s), Exactly('/'))),
    );
}

proof fn lemma_bare(x: Seq<char>)
    requires
        x.len() > 0,
        x[0] != '/',
        x.last() != '/',
    ensures
        trim_both(x, Exactly('/')) == x,
        trim_both(seq!['/'] + x, Exactly('/')) == x,
        trim_both(x.push('/'), Exactly('/')) == x,
        trim_both((seq!['/'] + x).push('/'), Exactly('/')) == x,
{
    let p = Exactly('/');
    lemma_run_len_unique(x, p, true, 0);
    assert(x.skip(0) =~= x);
    let a = seq!['/'] + x;
    assert(a[1] == x[0]);
    lemma_run_len_unique(a, p, true, 1);
    assert(a.skip(1) =~= x);
    let b = x.push('/');
    assert(b[0] == x[0]);
    lemma_run_len_unique(b, p, true, 0);
    assert(b.skip(0) =~= b);
    assert(b.drop_last() =~= x);
    assert(trim_end(x, p) == x);
    assert(trim_end(b, p) == x);
    let c = a.push('/');
    assert(c[0] == '/' && c[1] == x[0]);
    lemma_run_len_unique(c, p, true, 1);
    assert(c.skip(1) =~= b);
}

/// A sheet has one spelling: with or without slashes around it, its path is kept in lower
/// case between two slashes.
pub proof fn lemma_one_spelling(x: Seq<char>)
    requires
        x.len() > 0,
        x[0] != '/',
        x.last() != '/',
        trimmed(x) == x,
        trimmed(seq!['/'] + x) == seq!['/'] + x,
        trimmed(x.push('/')) == x.push('/'),
        trimmed((seq!['/'] + x).push('/')) == (seq!['/'] + x).push('/'),
    ensures
        normalized(x) == seq!['/'] + lowercase(x) + seq!['/'],
        normalized(seq!['/'] + x) == normalized(x),
        normalized(x.push('/')) == normalized(x),
        normalized((seq!['/'] + x).push('/')) == normalized(x),
{
    reveal_strlit("/");
    assert("/"@ =~= seq!['/']);
    lemma_bare(x);
}

/// A segment behind a slash is one field more.
proof fn lemma_fields_append(s: Seq<char>, b: Seq<char>)
    requires
        is_field(b, Exactly('/')),
    ensures
        fields(s.push('/') + b, Exactly('/')) == fields(s, Exactly('/')).push(b),
        fields(b, Exactly('/')) == seq![b],
    decreases s.len(),
{
    let p = Exactly('/');
    let whole = s.push('/') + b;
    lemma_run_len_unique(b, p, false, b.len() as int);
    assert(b.take(b.len() as int) =~= b);
    assert(b.skip(b.len() as int).len() == 0);
    assert(fields(b.skip(b.len() as int), p) =~= Seq::<Seq<char>>::empty());
    assert(!p.has(b[0]));
    assert(fields(b, p) =~= seq![b]);
    if s.len() == 0 {
        assert(whole[0] == '/');
        assert(whole.skip(1) =~= b);
        assert(fields(s, p) =~= Seq::<Seq<char>>::empty());
        assert(fields(whole, p) =~= Seq::<Seq<char>>::empty().push(b));
    } else {
        assert(whole[0] == s[0]);
        if p.has(s[0]) {
            lemma_fields_append(s.skip(1), b);
            assert(whole.skip(1) =~= s.skip(1).push('/') + b);
        } else {
            let n = run_len(s, p, false) as int;
            lemma_run_len(s, p, false);
            assert forall|i: int| 0 <= i < n implies !p.has(#[trigger] whole[i]) by {
                assert(whole[i] == s[i]);
            }
            if n < s.len() {
                assert(whole[n] == s[n]);
            } else {
                assert(whole[n] == '/');
            }
            lemma_run_len_unique(whole, p, false, n);
            assert(whole.take(n) =~= s.take(n));
            lemma_fields_append(s.skip(n), b);
            assert(whole.skip(n) =~= s.skip(n).push('/') + b);
            assert(n > 0);
            let rest = fields(s.skip(n), p);
            assert(fields(whole, p) == seq![s.take(n)] + rest.push(b));
            assert(seq![s.take(n)] + rest.push(b) =~= (seq![s.take(n)] + rest).push(b));
        }
    }
}

/// The segments of a name are those that it is joined of, with a slash before the first or
/// without.
pub proof fn lemma_segments(parts: Seq<Seq<char>>)
    requires
        parts.len() > 0,
        forall|i: int| 0 <= i < parts.len() ==> is_field(#[trigger] parts[i], Exactly('/')),
    ensures
        segments(joined(parts, "/"@)) == parts,
        segments(seq!['/'] + joined(parts, "/"@)) == parts,
    decreases parts.len(),
{
    reveal_strlit("/");
    assert("/"@ =~= seq!['/']);
    let all = joined(parts, "/"@);
    let last = parts[parts.len() - 1];
    assert(is_field(last, Exactly('/')));
    if parts.len() == 1 {
        assert(all =~= last);
        lemma_fields_append(Seq::empty(), last);
        assert(Seq::<char>::empty().push('/') + last =~= seq!['/'] + all);
        assert(fields(Seq::<char>::empty(), Exactly('/')) =~= Seq::<Seq<char>>::empty());
        assert(seq![last] =~= parts);
        assert(Seq::<Seq<char>>::empty().push(last) =~= parts);
    } else {
        let front = parts.drop_last();
        assert forall|i: int| 0 <= i < front.len() implies is_field(
            #[trigger] front[i],
            Exactly('/'),
        ) by {
            assert(front[i] == parts[i]);
        }
        lemma_segments(front);
        let head = joined(front, "/"@);
        assert(all =~= head.push('/') + last);
        lemma_fields_append(head, last);
        lemma_fields_append(seq!['/'] + head, last);
        assert(seq!['/'] + all =~= (seq!['/'] + head).push('/') + last);
        assert(front.push(last) =~= parts);
    }
}

/// A net's name is taken apart at the deepest sheet that its first segments spell: the
/// path is these, the label is the rest, and put together with slashes they are the name
/// again. Where none is a sheet the whole name is the label. The last segment is always
/// the label's.
pub proof fn lemma_name_taken_apart(
    h: NetHierarchy,
    parts: Seq<Seq<char>>,
    from_root: bool,
    sheets: Seq<Seq<char>>,
)
    requires
        parts.len() > 0,
        forall|i: int| 0 <= i < parts.len() ==> is_field(#[trigger] parts[i], Exactly('/')),
        hierarchy_is(
            h,
            if from_root {
                seq!['/'] + joined(parts, "/"@)
            } else {
                joined(parts, "/"@)
            },
            sheets,
        ),
    ensures
        h.rooted == from_root,
        h.scope_hint@ == (if from_root {
            "hierarchical"@
        } else {
            "flat"@
        }),
        h.depth < parts.len(),
        h.local_name@ == joined(parts.skip(h.depth as int), "/"@),
        opt_text(h.sheet_path) == (if h.depth > 0 {
            Some(seq!['/'] + joined(parts.take(h.depth as int), "/"@))
        } else {
            None
        }),
        h.depth > 0 ==> sheets.contains(
            normalized(joined(parts.take(h.depth as int), "/"@)),
        ),
        forall|k: int|
            h.depth < k < parts.len() ==> !sheets.contains(
                #[trigger] normalized(joined(parts.take(k), "/"@)),
            ),
{
    reveal_strlit("/");
    assert("/"@ =~= seq!['/']);
    lemma_segments(parts);
    let all = joined(parts, "/"@);
    let name = if from_root {
        seq!['/'] + all
    } else {
        all
    };
    assert(segments(name) == parts);
    lemma_hierarchy_names_a_sheet(name, sheets);
    lemma_joined_start(parts);
    assert forall|k: int| h.depth < k < parts.len() implies !sheets.contains(
        #[trigger] normalized(joined(parts.take(k), "/"@)),
    ) by {
        assert(!names_sheet(parts, sheets, k));
    }
    if h.depth == 0 {
        let p = Exactly('/');
        assert(parts.skip(0) =~= parts);
        if from_root {
            assert(name[1] == all[0]);
            lemma_run_len_unique(name, p, true, 1);
            assert(name.skip(1) =~= all);
        } else {
            lemma_run_len_unique(name, p, true, 0);
            assert(name.skip(0) =~= name);
        }
    }
}

proof fn lemma_joined_start(parts: Seq<Seq<char>>)
    requires
        parts.len() > 0,
        forall|i: int| 0 <= i < parts.len() ==> is_field(#[trigger] parts[i], Exactly('/')),
    ensures
        joined(parts, "/"@).len() > 0,
        joined(parts, "/"@)[0] != '/',
    decreases parts.len(),
{
    assert(is_field(parts[0], Exactly('/')));
    assert(!Exactly('/').has(parts[0][0]));
    if parts.len() > 1 {
        let front = parts.drop_last();
        assert forall|i: int| 0 <= i < front.len() implies is_field(
            #[trigger] front[i],
            Exactly('/'),
        ) by {
            assert(front[i] == parts[i]);
        }
        lemma_joined_start(front);
    } else {
        assert(joined(parts, "/"@) =~= parts[0]);
    }
}

/// A sheet is shown under its path without the slashes around it; what slashes alone spell
/// is the root, shown as one slash.
pub proof fn lemma_shown_name(before: int, x: Seq<char>, after: int)
    requires
        0 <= before,
        0 <= after,
        x.len() > 0 ==> x[0] != '/' && x.last() != '/',
    ensures
        display_name(slashes(before) + x + slashes(after)) == (if x.len() == 0 {
            seq!['/']
        } else {
            x
        }),
        x.len() == 0 ==> normalized(slashes(before) + x + slashes(after)) == seq!['/'],
{
    reveal_strlit("/");
    assert("/"@ =~= seq!['/']);
    let p = Exactly('/');
    let path = slashes(before) + x + slashes(after);
    let n = if x.len() == 0 {
        path.len() as int
    } else {
        before
    };
    assert forall|i: int| 0 <= i < n implies p.has(#[trigger] path[i]) by {}
    if x.len() > 0 {
        assert(path[n] == x[0]);
    }
    lemma_run_len_unique(path, p, true, n);
    let t = path.skip(n);
    assert(trim_start(path, p) == t);
    if x.len() == 0 {
        assert(t.len() == 0);
        assert(trim_end(t, p) == t);
    } else {
        assert(t =~= x + slashes(after));
        lemma_end_slashes(x, after);
    }
}

/// So many slashes.
pub open spec fn slashes(n: int) -> Seq<char> {
    Seq::new(n as nat, |i: int| '/')
}

proof fn lemma_end_slashes(x: Seq<char>, n: int)
    requires
        0 <= n,
        x.len() > 0,
        x.last() != '/',
    ensures
        trim_end(x + slashes(n), Exactly('/')) == x,
    decreases n,
{
    let s = x + slashes(n);
    if n > 0 {
        lemma_end_slashes(x, n - 1);
        assert(s.drop_last() =~= x + slashes(n - 1));
        assert(s.last() == '/');
    } else {
        assert(s =~= x);
    }
}

/// A widened path selects the rooted sheets whose path starts with it, letter case aside,
/// whatever follows.
pub proof fn lemma_prefix_selects(p: Seq<char>, s: Seq<char>)
    requires
        is_ascii_text(p),
        plain_path(s),
    ensures
        selects(
            Selector::PathPrefix(p.map_values(|c: char| ascii_lower(c))),
            Some(s),
        ) <==> p.len() <= s.len() && forall|i: int|
            0 <= i < p.len() ==> ascii_lower(#[trigger] p[i]) == ascii_lower(s[i]),
{
    lemma_lowered(s);
    let key = p.map_values(|c: char| ascii_lower(c));
    let low = s.map_values(|c: char| ascii_lower(c));
    if starts_with(low, key) {
        let head = low.take(key.len() as int);
        assert forall|i: int| 0 <= i < p.len() implies ascii_lower(#[trigger] p[i]) == ascii_lower(
            s[i],
        ) by {
            assert(head[i] == key[i]);
        }
    }
    if p.len() <= s.len() && forall|i: int|
        0 <= i < p.len() ==> ascii_lower(#[trigger] p[i]) == ascii_lower(s[i]) {
        assert(low.take(key.len() as int) =~= key);
    }
}

} // verus!
