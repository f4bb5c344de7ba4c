//! Schematic sheets: their paths, the filters that select them, and the sheet that a
//! net name begins with.
use vstd::prelude::*;

use crate::text::{chars_of, contains, fields, joined, lowercase, occurs_at, text_of};
use crate::text::{is_field, join_texts, lemma_fields, lemma_run_len};
use crate::text::{lemma_run_len_unique, lemma_trim_end, run_len, same_text, split_fields};
use crate::text::{starts_with, text_contains, text_ends_with_char, text_starts_with};
use crate::text::{text_starts_with_char, texts, trim_both, trim_end, trim_end_matches};
use crate::text::{trim_matches, trim_start, trim_start_matches, trimmed, CharClass, Exactly, Whitespace};

verus! {

/// The segments of a path or a net name between its slashes.
pub open spec fn segments(s: Seq<char>) -> Seq<Seq<char>> {
    fields(s, Exactly('/'))
}

/// A sheet path in lower case, with one slash before it and one behind it; the root sheet's,
/// which is slashes alone, is one slash.
pub open spec fn normalized(path: Seq<char>) -> Seq<char> {
    if trim_both(path, Exactly('/')).len() == 0 {
        "/"@
    } else {
        "/"@ + lowercase(trim_both(trimmed(path), Exactly('/'))) + "/"@
    }
}

/// The normalized path of the first `k` segments.
pub open spec fn ancestor(parts: Seq<Seq<char>>, k: int) -> Seq<char> {
    normalized(joined(parts.take(k), "/"@))
}

/// Whether `p` is the root sheet, one of the sheets, or an ancestor of one.
pub open spec fn is_sheet(sheets: Seq<Seq<char>>, p: Seq<char>) -> bool {
    p == "/"@ || exists|i: int, k: int|
        0 <= i < sheets.len() && 1 <= k <= segments(sheets[i]).len() && p == #[trigger] ancestor(
            segments(sheets[i]),
            k,
        )
}

/// The one spelling under which a sheet path is stored and looked up.
pub fn normalize_sheet_path(path: &str) -> (r: String)
    ensures
        r@ == normalized(path@),
{
    let mut out = "/".to_owned();
    if trim_matches(path, &Exactly('/')).as_str().is_empty() {
        return out;
    }
    let inner = trim_matches(trim_matches(path, &Whitespace).as_str(), &Exactly('/'));
    out.append(inner.as_str().to_lowercase().as_str());
    out.append("/");
    out
}

/// Whether a text stands in a list.
pub fn holds_text(list: &Vec<String>, s: &str) -> (r: bool)
    ensures
        r == texts(list@).contains(s@),
{
    let mut i: usize = 0;
    while i < list.len()
        invariant
            i <= list.len(),
            forall|k: int| 0 <= k < i ==> (#[trigger] list@[k])@ != s@,
        decreases list.len() - i,
    {
        if same_text(list[i].as_str(), s) {
            assert(texts(list@)[i as int] == s@);
            return true;
        }
        i += 1;
    }
    assert(!texts(list@).contains(s@)) by {
        if texts(list@).contains(s@) {
            let k = choose|k: int| 0 <= k < texts(list@).len() && texts(list@)[k] == s@;
            assert(list@[k]@ == s@);
        }
    }
    false
}

proof fn lemma_pushed(list: Seq<String>, s: String)
    ensures
        texts(list.push(s)) == texts(list).push(s@),
        forall|p: Seq<char>| #[trigger]
            texts(list.push(s)).contains(p) <==> texts(list).contains(p) || p == s@,
{
    let a = texts(list);
    let b = texts(list.push(s));
    assert(b =~= a.push(s@));
    assert forall|p: Seq<char>| #[trigger] b.contains(p) <==> a.contains(p) || p == s@ by {
        if a.contains(p) {
            let k = choose|k: int| 0 <= k < a.len() && a[k] == p;
            assert(b[k] == p);
        }
        if p == s@ {
            assert(b[a.len() as int] == p);
        }
        if b.contains(p) {
            let k = choose|k: int| 0 <= k < b.len() && b[k] == p;
            if k < a.len() {
                assert(a[k] == p);
            }
        }
    }
}

fn put_text(list: &mut Vec<String>, s: String)
    requires
        texts(old(list)@).no_duplicates(),
    ensures
        texts(final(list)@).no_duplicates(),
        forall|p: Seq<char>| #[trigger]
            texts(final(list)@).contains(p) <==> texts(old(list)@).contains(p) || p == s@,
{
    if !holds_text(list, s.as_str()) {
        proof {
            lemma_pushed(list@, s);
            let a = texts(list@);
            assert forall|i: int, j: int| 0 <= i < j < a.len() + 1 implies a.push(s@)[i] != a.push(
                s@,
            )[j] by {
                if j == a.len() {
                    assert(a.contains(a[i]));
                }
            }
        }
        list.push(s);
    }
}

/// The sheets of a design with all their ancestors and the root sheet. A sheet whose
/// children hold every part is still a sheet, and nets can be labelled on it.
pub fn sheet_path_set(sheets: &Vec<&str>) -> (r: Vec<String>)
    ensures
        texts(r@).no_duplicates(),
        forall|p: Seq<char>| #[trigger]
            texts(r@).contains(p) <==> is_sheet(sheets@.map_values(|s: &str| s@), p),
{
    let ghost all = sheets@.map_values(|s: &str| s@);
    let mut out: Vec<String> = Vec::new();
    out.push("/".to_owned());
    assert forall|p: Seq<char>| #[trigger] texts(out@).contains(p) <==> is_sheet(
        all.take(0),
        p,
    ) by {
        assert(texts(out@)[0] == "/"@);
    }
    let mut i: usize = 0;
    while i < sheets.len()
        invariant
            i <= sheets.len(),
            all == sheets@.map_values(|s: &str| s@),
            texts(out@).no_duplicates(),
            forall|p: Seq<char>| #[trigger]
                texts(out@).contains(p) <==> is_sheet(all.take(i as int), p),
        decreases sheets.len() - i,
    {
        let ghost before = texts(out@);
        let parts = split_fields(sheets[i], &Exactly('/'));
        let ghost segs = segments(all[i as int]);
        let mut k: usize = 0;
        while k < parts.len()
            invariant
                k <= parts.len(),
                texts(parts@) == segs,
                texts(out@).no_duplicates(),
                forall|p: Seq<char>| #[trigger]
                    texts(out@).contains(p) <==> before.contains(p) || exists|j: int|
                        1 <= j <= k && p == #[trigger] ancestor(segs, j),
            decreases parts.len() - k,
        {
            let ghost mid = texts(out@);
            let path = normalize_sheet_path(join_texts(&parts, 0, k + 1, "/").as_str());
            assert(texts(parts@).subrange(0, k + 1) == segs.take(k + 1));
            put_text(&mut out, path);
            assert forall|p: Seq<char>| #[trigger] texts(out@).contains(p) <==> before.contains(p)
                || exists|j: int| 1 <= j <= k + 1 && p == #[trigger] ancestor(segs, j) by {
                if exists|j: int| 1 <= j <= k + 1 && p == #[trigger] ancestor(segs, j) {
                    let j = choose|j: int| 1 <= j <= k + 1 && p == #[trigger] ancestor(segs, j);
                    if j <= k {
                        assert(mid.contains(p));
                    }
                }
                if texts(out@).contains(p) && !before.contains(p) {
                    if mid.contains(p) {
                        let j = choose|j: int| 1 <= j <= k && p == #[trigger] ancestor(segs, j);
                        assert(p == ancestor(segs, j));
                    } else {
                        assert(p == ancestor(segs, k + 1));
                    }
                }
            }
            k += 1;
        }
        assert forall|p: Seq<char>| #[trigger] texts(out@).contains(p) <==> is_sheet(
            all.take(i + 1),
            p,
        ) by {
            let now = all.take(i + 1);
            let then = all.take(i as int);
            if texts(out@).contains(p) {
                if before.contains(p) {
                    if p != "/"@ {
                        let (a, b) = choose|a: int, b: int|
                            0 <= a < then.len() && 1 <= b <= segments(then[a]).len() && p
                                == #[trigger] ancestor(segments(then[a]), b);
                        assert(now[a] == then[a]);
                        assert(p == ancestor(segments(now[a]), b));
                    }
                } else {
                    let j = choose|j: int| 1 <= j <= k && p == #[trigger] ancestor(segs, j);
                    assert(now[i as int] == all[i as int]);
                    assert(p == ancestor(segments(now[i as int]), j));
                }
            }
            if is_sheet(now, p) && p != "/"@ {
                let (a, b) = choose|a: int, b: int|
                    0 <= a < now.len() && 1 <= b <= segments(now[a]).len() && p
                        == #[trigger] ancestor(segments(now[a]), b);
                if a < i {
                    assert(then[a] == now[a]);
                    assert(p == ancestor(segments(then[a]), b));
                } else {
                    assert(now[a] == all[i as int]);
                    assert(p == ancestor(segs, b));
                }
            }
        }
        i += 1;
    }
    assert(all.take(all.len() as int) == all);
    out
}

/// With a sheet a design has all the sheets above it, and every design has the root.
pub proof fn lemma_sheets_have_ancestors(sheets: Seq<Seq<char>>, i: int, k: int)
    requires
        0 <= i < sheets.len(),
        1 <= k <= segments(sheets[i]).len(),
    ensures
        is_sheet(sheets, ancestor(segments(sheets[i]), k)),
        is_sheet(sheets, "/"@),
{
}

/// The name that a sheet path is shown under: the path without its outer slashes, and
/// the root sheet's slash.
pub open spec fn display_name(path: Seq<char>) -> Seq<char> {
    let name = trim_both(path, Exactly('/'));
    if name.len() == 0 {
        "/"@
    } else {
        name
    }
}

/// The name that a sheet path is shown under. An empty one would read as no filter
/// where names are taken as filters, so the root sheet keeps its slash.
pub fn subsystem_display_name(path: &str) -> (r: String)
    ensures
        r@ == display_name(path@),
{
    let name = trim_matches(path, &Exactly('/'));
    if name.as_str().is_empty() {
        "/".to_owned()
    } else {
        name
    }
}

/// How a `subsystem` argument selects sheets.
#[derive(Debug, PartialEq)]
pub enum SubsystemFilter {
    /// The root sheet, and only it.
    Root,
    /// A rooted path, lowercased and closed by a slash: the sheet and all below it.
    Path(String),
    /// A rooted path that named no sheet, without its closing slash: the sheets whose
    /// path starts with it.
    PathPrefix(String),
    /// A bare name, lowercased: the sheets whose path holds it.
    Substring(String),
}

pub enum Selector {
    Root,
    Path(Seq<char>),
    PathPrefix(Seq<char>),
    Substring(Seq<char>),
}

impl View for SubsystemFilter {
    type V = Selector;

    open spec fn view(&self) -> Selector {
        match self {
            SubsystemFilter::Root => Selector::Root,
            SubsystemFilter::Path(p) => Selector::Path(p@),
            SubsystemFilter::PathPrefix(p) => Selector::PathPrefix(p@),
            SubsystemFilter::Substring(t) => Selector::Substring(t@),
        }
    }
}

pub open spec fn opt_view(f: Option<SubsystemFilter>) -> Option<Selector> {
    match f {
        Some(f) => Some(f@),
        None => None,
    }
}

/// The text of an optional string slice.
pub open spec fn opt_str(o: Option<&str>) -> Option<Seq<char>> {
    match o {
        Some(s) => Some(s@),
        None => None,
    }
}

pub open spec fn only_slashes(s: Seq<char>) -> bool {
    forall|i: int| 0 <= i < s.len() ==> #[trigger] s[i] == '/'
}

/// The path starts at the root.
pub open spec fn rooted(s: Seq<char>) -> bool {
    s.len() > 0 && s[0] == '/'
}

/// The path in lower case; the slashes at its end stay as they are.
pub open spec fn lowered(s: Seq<char>) -> Seq<char> {
    let stem = trim_end(s, Exactly('/'));
    lowercase(stem) + s.skip(stem.len() as int)
}

/// The path in lower case, closed by a slash.
pub open spec fn closed_path(s: Seq<char>) -> Seq<char> {
    if s.len() > 0 && s.last() == '/' {
        lowered(s)
    } else {
        lowered(s).push('/')
    }
}

/// The filter that a trimmed argument spells.
pub open spec fn spelled_filter(arg: Seq<char>) -> Selector {
    if !rooted(arg) {
        Selector::Substring(lowercase(trim_both(arg, Exactly('/'))))
    } else if only_slashes(arg) {
        Selector::Root
    } else {
        Selector::Path(closed_path(arg))
    }
}

/// The filter that an argument spells, `None` where it is absent or blank.
pub open spec fn parsed_filter(arg: Option<Seq<char>>) -> Option<Selector> {
    match arg {
        None => None,
        Some(a) => if trimmed(a).len() == 0 {
            None
        } else {
            Some(spelled_filter(trimmed(a)))
        },
    }
}

/// Whether a filter selects a sheet. A part on no sheet is never selected, and a rooted
/// path selects rooted sheets only.
pub open spec fn selects(f: Selector, sheet: Option<Seq<char>>) -> bool {
    match sheet {
        None => false,
        Some(s) => {
            let path = trimmed(s);
            path.len() > 0 && match f {
                Selector::Root => path == "/"@,
                Selector::Path(p) => rooted(path) && starts_with(closed_path(path), p),
                Selector::PathPrefix(p) => rooted(path) && starts_with(lowered(path), p),
                Selector::Substring(t) => contains(lowercase(trim_both(path, Exactly('/'))), t),
            }
        },
    }
}

/// Whether a filter selects one of the sheets.
pub open spec fn selects_any(f: Selector, sheets: Seq<Option<Seq<char>>>) -> bool {
    exists|i: int| 0 <= i < sheets.len() && selects(f, #[trigger] sheets[i])
}

/// The filter, or where it is a path that selects none of the sheets, the prefix
/// filter on the same path.
pub open spec fn widened(f: Selector, sheets: Seq<Option<Seq<char>>>) -> Selector {
    match f {
        Selector::Path(p) => if selects_any(f, sheets) {
            f
        } else {
            Selector::PathPrefix(trim_end(p, Exactly('/')))
        },
        _ => f,
    }
}

pub open spec fn sheet_views(sheets: Seq<Option<&str>>) -> Seq<Option<Seq<char>>> {
    sheets.map_values(|s: Option<&str>| opt_str(s))
}

fn has_only_slashes(s: &str) -> (r: bool)
    ensures
        r == only_slashes(s@),
{
    let v = chars_of(s);
    let mut i: usize = 0;
    while i < v.len()
        invariant
            i <= v.len(),
            v@ == s@,
            forall|k: int| 0 <= k < i ==> #[trigger] v@[k] == '/',
        decreases v.len() - i,
    {
        if v[i] != '/' {
            return false;
        }
        i += 1;
    }
    true
}

fn lower_path(s: &str) -> (r: String)
    ensures
        r@ == lowered(s@),
{
    let v = chars_of(s);
    let stem = trim_end_matches(s, &Exactly('/'));
    proof {
        lemma_trim_end(s@, Exactly('/'));
    }
    let n = chars_of(stem.as_str()).len();
    let mut path = stem.as_str().to_lowercase();
    path.append(text_of(&v, n, v.len()).as_str());
    assert(v@.subrange(n as int, v@.len() as int) =~= s@.skip(n as int));
    path
}

fn close_path(s: &str) -> (r: String)
    ensures
        r@ == closed_path(s@),
{
    let mut path = lower_path(s);
    if !text_ends_with_char(s, '/') {
        path.push('/');
    }
    path
}

impl SubsystemFilter {
    /// The filter that an argument spells. `None` is no filter at all, never one that
    /// selects nothing.
    pub fn parse(arg: Option<&str>) -> (r: Option<SubsystemFilter>)
        ensures
            opt_view(r) == parsed_filter(opt_str(arg)),
    {
        let raw = match arg {
            None => return None,
            Some(a) => trim_matches(a, &Whitespace),
        };
        if raw.as_str().is_empty() {
            return None;
        }
        if !text_starts_with_char(raw.as_str(), '/') {
            let name = trim_matches(raw.as_str(), &Exactly('/'));
            return Some(SubsystemFilter::Substring(name.as_str().to_lowercase()));
        }
        if has_only_slashes(raw.as_str()) {
            return Some(SubsystemFilter::Root);
        }
        Some(SubsystemFilter::Path(close_path(raw.as_str())))
    }

    /// The filter, widened to a rooted prefix where it is a path that selects none of
    /// the sheets. It stays anchored at the root, so that "/E" does not reach "/Power/".
    pub fn widen_if_unmatched(self, sheets: &Vec<Option<&str>>) -> (r: SubsystemFilter)
        ensures
            r@ == widened(self@, sheet_views(sheets@)),
    {
        let ghost all = sheet_views(sheets@);
        let mut i: usize = 0;
        while i < sheets.len()
            invariant
                i <= sheets.len(),
                all == sheet_views(sheets@),
                forall|k: int| 0 <= k < i ==> !selects(self@, #[trigger] all[k]),
            decreases sheets.len() - i,
        {
            let sheet = sheets[i];
            assert(all[i as int] == opt_str(sheet));
            if self.matches(sheet) {
                return self;
            }
            i += 1;
        }
        match self {
            SubsystemFilter::Path(path) => SubsystemFilter::PathPrefix(
                trim_end_matches(path.as_str(), &Exactly('/')),
            ),
            other => other,
        }
    }

    /// Whether the filter selects a part's sheet, `None` for a part on no sheet.
    pub fn matches(&self, sheet: Option<&str>) -> (r: bool)
        ensures
            r == selects(self@, opt_str(sheet)),
    {
        let raw = match sheet {
            None => return false,
            Some(s) => trim_matches(s, &Whitespace),
        };
        let sheet_path = raw.as_str();
        if sheet_path.is_empty() {
            return false;
        }
        match self {
            SubsystemFilter::Root => same_text(sheet_path, "/"),
            SubsystemFilter::Path(path) => text_starts_with_char(sheet_path, '/')
                && text_starts_with(close_path(sheet_path).as_str(), path.as_str()),
            SubsystemFilter::PathPrefix(prefix) => text_starts_with_char(sheet_path, '/')
                && text_starts_with(lower_path(sheet_path).as_str(), prefix.as_str()),
            SubsystemFilter::Substring(term) => text_contains(
                trim_matches(sheet_path, &Exactly('/')).as_str().to_lowercase().as_str(),
                term.as_str(),
            ),
        }
    }
}

/// An argument gives no filter exactly when it is absent or blank, and the root filter
/// exactly when it is all slashes. None gives a prefix filter.
pub proof fn lemma_parsed_filter(arg: Option<Seq<char>>)
    ensures
        parsed_filter(arg) is None <==> (arg matches Some(a) ==> trimmed(a).len() == 0),
        parsed_filter(arg) == Some(Selector::Root) <==> (arg matches Some(a) && trimmed(a).len()
            > 0 && only_slashes(trimmed(a))),
        !(parsed_filter(arg) matches Some(Selector::PathPrefix(_))),
{
    if let Some(a) = arg {
        let t = trimmed(a);
        if t.len() > 0 && only_slashes(t) {
            assert(t[0] == '/');
        }
    }
}

/// The root filter selects the root sheet and nothing below it.
pub proof fn lemma_root_selects_root_alone(sheet: Seq<char>)
    ensures
        selects(Selector::Root, Some(sheet)) <==> trimmed(sheet) == "/"@,
{
    reveal_strlit("/");
}

/// No filter selects a part on no sheet, or on a blank one.
pub proof fn lemma_unassigned_is_never_selected(f: Selector, sheet: Option<Seq<char>>)
    requires
        sheet matches Some(s) ==> trimmed(s).len() == 0,
    ensures
        !selects(f, sheet),
{
}

/// A rooted path spells the filter of that path in lower case, with or without a closing
/// slash.
pub proof fn lemma_closing_slash_is_optional(p: Seq<char>)
    requires
        trimmed(p) == p,
        rooted(p),
        p.last() != '/',
    ensures
        parsed_filter(Some(p)) == Some(Selector::Path(lowercase(p) + "/"@)),
        parsed_filter(Some(p + "/"@)) == Some(Selector::Path(lowercase(p) + "/"@)),
{
    reveal_strlit("/");
    let q = p + "/"@;
    assert(q.drop_last() =~= p);
    assert(trim_end(q, Exactly('/')) == trim_end(p, Exactly('/')));
    assert(p.skip(p.len() as int) =~= Seq::<char>::empty());
    assert(lowered(p) =~= lowercase(p));
    assert(lowered(q) =~= lowercase(p) + "/"@);
    assert(lowercase(p).push('/') =~= lowercase(p) + "/"@);
    assert(!only_slashes(p)) by {
        assert(p[p.len() - 1] != '/');
    }
    assert(!only_slashes(q)) by {
        assert(q[p.len() - 1] != '/');
    }
    lemma_run_len_unique(q, Whitespace, true, 0);
    assert(trim_start(q, Whitespace) =~= q);
    assert(q.last() == '/');
}

/// A path filter is closed by a slash.
proof fn lemma_path_filter_is_closed(arg: Seq<char>)
    ensures
        parsed_filter(Some(arg)) matches Some(Selector::Path(p)) ==> p.len() > 0 && p.last() == '/',
{
    let t = trimmed(arg);
    if t.len() > 0 && t.last() == '/' {
        lemma_trim_end(t, Exactly('/'));
        let n = trim_end(t, Exactly('/')).len() as int;
        if n == t.len() {
            assert(trim_end(t, Exactly('/')).last() == '/');
        }
        assert(t.skip(n).last() == t.last());
    }
}

/// Only a path widens, and exactly where it selects none of the sheets: to the prefix filter
/// on the same path. What it selected before it still selects, and nothing that is not
/// rooted.
pub proof fn lemma_widening(
    arg: Seq<char>,
    f: Selector,
    sheets: Seq<Option<Seq<char>>>,
    sheet: Option<Seq<char>>,
)
    requires
        parsed_filter(Some(arg)) == Some(f),
    ensures
        widened(f, sheets) != f <==> f is Path && !selects_any(f, sheets),
        widened(f, sheets) != f ==> widened(f, sheets) == Selector::PathPrefix(
            trim_end(f->Path_0, Exactly('/')),
        ),
        selects(f, sheet) ==> selects(widened(f, sheets), sheet),
        f is Path && selects(widened(f, sheets), sheet) ==> sheet is Some && rooted(
            trimmed(sheet.unwrap()),
        ),
{
    if let Selector::Path(p) = f {
        lemma_path_filter_is_closed(arg);
        if selects(f, sheet) {
            let prefix = trim_end(p, Exactly('/'));
            lemma_trim_end(p, Exactly('/'));
            let path = trimmed(sheet.unwrap());
            let lc = lowered(path);
            assert(prefix.len() < p.len());
            assert forall|i: int| 0 <= i < prefix.len() implies lc[i] == #[trigger] prefix[i] by {
                assert(closed_path(path).take(p.len() as int)[i] == p[i]);
            }
            assert(lc.take(prefix.len() as int) =~= prefix);
        }
    }
}

/// Whatever a widened filter selects starts with the path that was asked for.
pub proof fn lemma_widening_stays_anchored(
    p: Seq<char>,
    sheets: Seq<Option<Seq<char>>>,
    sheet: Seq<char>,
)
    requires
        !selects_any(Selector::Path(p), sheets),
    ensures
        selects(widened(Selector::Path(p), sheets), Some(sheet)) ==> starts_with(
            lowered(trimmed(sheet)),
            trim_end(p, Exactly('/')),
        ),
{
}

proof fn lemma_trim_both_range(s: Seq<char>, a: int, b: int)
    requires
        0 <= a < b <= s.len(),
        forall|i: int| 0 <= i < a ==> #[trigger] s[i] == '/',
        forall|i: int| b <= i < s.len() ==> #[trigger] s[i] == '/',
        s[a] != '/',
        s[b - 1] != '/',
    ensures
        trim_both(s, Exactly('/')) == s.subrange(a, b),
    decreases s.len() - b,
{
    lemma_run_len_unique(s, Exactly('/'), true, a);
    let t = s.skip(a);
    assert(trim_start(s, Exactly('/')) == t);
    lemma_trim_end(t, Exactly('/'));
    let n = trim_end(t, Exactly('/')).len();
    if n < b - a {
        assert(Exactly('/').has(t[b - a - 1]));
    }
    if n > b - a {
        assert(t.take(n as int).last() == s[a + n - 1]);
    }
    assert(t.take(b - a) =~= s.subrange(a, b));
}

/// A sheet's name selects it: the name that a path is shown under is read back as a
/// filter that selects the sheet. Spaces at the ends of the name would be trimmed away
/// and are left out here.
pub proof fn lemma_display_name_selects(path: Seq<char>)
    requires
        trimmed(path) == path,
        trim_both(path, Exactly('/')).len() > 0,
        trimmed(display_name(path)) == display_name(path),
    ensures
        parsed_filter(Some(display_name(path))) is Some,
        selects(parsed_filter(Some(display_name(path))).unwrap(), Some(path)),
{
    let p = Exactly('/');
    let name = display_name(path);
    lemma_run_len(path, p, true);
    let a = run_len(path, p, true) as int;
    let t = trim_start(path, p);
    lemma_trim_end(t, p);
    assert(name[0] == t[0] && t[0] == path[a]);
    assert(!p.has(name.last()));
    lemma_trim_both_range(name, 0, name.len() as int);
    assert(name.subrange(0, name.len() as int) =~= name);
    let lower = lowercase(name);
    assert(lower.subrange(0, lower.len() as int) =~= lower);
    assert(occurs_at(lower, lower, 0));
}

/// A sheet with a plain name between its slashes is shown under that name.
pub proof fn lemma_display_name_of_sheet(x: Seq<char>)
    requires
        x.len() > 0,
        x[0] != '/',
        x.last() != '/',
        trimmed(x) == x,
    ensures
        display_name("/"@ + x + "/"@) == x,
        parsed_filter(Some(x)) == Some(Selector::Substring(lowercase(x))),
        selects(Selector::Substring(lowercase(x)), Some("/"@ + x + "/"@)),
{
    reveal_strlit("/");
    let path = "/"@ + x + "/"@;
    lemma_trim_both_range(path, 1, 1 + x.len() as int);
    assert(path.subrange(1, 1 + x.len() as int) =~= x);
    lemma_run_len_unique(path, Whitespace, true, 0);
    assert(trim_start(path, Whitespace) =~= path);
    assert(path.last() == '/');
    lemma_display_name_selects(path);
    lemma_trim_both_range(x, 0, x.len() as int);
    assert(x.subrange(0, x.len() as int) =~= x);
}

/// The root sheet's name selects the root sheet and only it.
pub proof fn lemma_root_name_selects_root()
    ensures
        display_name("/"@) == "/"@,
        parsed_filter(Some("/"@)) == Some(Selector::Root),
        selects(Selector::Root, Some("/"@)),
{
    reveal_strlit("/");
    let s = "/"@;
    lemma_run_len_unique(s, Exactly('/'), true, 1);
    assert(trim_start(s, Exactly('/')).len() == 0);
    lemma_run_len_unique(s, Whitespace, true, 0);
    assert(s.skip(0) =~= s);
    assert(trimmed(s) =~= s);
}

/// Normalizing a path again changes nothing, where lowering its text twice is lowering it
/// once and leaves no slash at its ends. A path that is blank and no slashes alone has no
/// text, and is left out.
pub proof fn lemma_normalized_is_stable(path: Seq<char>)
    requires
        trim_both(path, Exactly('/')).len() > 0 ==> {
            let lower = lowercase(trim_both(trimmed(path), Exactly('/')));
            &&& lower.len() > 0 && lower[0] != '/' && lower.last() != '/'
            &&& lowercase(lower) == lower
        },
    ensures
        normalized(normalized(path)) == normalized(path),
{
    reveal_strlit("/");
    let p = Exactly('/');
    let root = "/"@;
    lemma_run_len_unique(root, p, true, 1);
    assert(trim_start(root, p).len() == 0);
    if trim_both(path, p).len() > 0 {
        let lower = lowercase(trim_both(trimmed(path), p));
        let n = normalized(path);
        lemma_run_len_unique(n, Whitespace, true, 0);
        assert(trim_start(n, Whitespace) =~= n);
        assert(n.last() == '/');
        assert(trimmed(n) == n);
        lemma_trim_both_range(n, 1, 1 + lower.len() as int);
        assert(n.subrange(1, 1 + lower.len() as int) =~= lower);
    }
}

/// A net name taken apart at the sheet that it begins with.
#[derive(Debug, Clone)]
pub struct NetHierarchy {
    /// The name starts with a slash.
    pub rooted: bool,
    /// The label: what follows the sheet path, or the whole name where no prefix of it
    /// is a sheet.
    pub local_name: String,
    /// The sheet path, with a leading slash.
    pub sheet_path: Option<String>,
    /// How many segments the sheet path has.
    pub depth: usize,
    /// "hierarchical" for a rooted name, else "flat": a hint from the spelling alone.
    pub scope_hint: &'static str,
}

/// Whether the first `k` segments are a sheet.
pub open spec fn names_sheet(parts: Seq<Seq<char>>, sheets: Seq<Seq<char>>, k: int) -> bool {
    sheets.contains(ancestor(parts, k))
}

/// The largest `j <= k` such that the first `j` segments are a sheet, 0 if none is.
pub open spec fn sheet_depth(parts: Seq<Seq<char>>, sheets: Seq<Seq<char>>, k: int) -> int
    decreases k,
{
    if k <= 0 {
        0
    } else if names_sheet(parts, sheets, k) {
        k
    } else {
        sheet_depth(parts, sheets, k - 1)
    }
}

/// How many leading segments of a net name are a sheet of the design. The last segment
/// is always part of the label.
pub open spec fn name_depth(name: Seq<char>, sheets: Seq<Seq<char>>) -> int {
    sheet_depth(segments(name), sheets, segments(name).len() - 1)
}

pub open spec fn hierarchy_is(h: NetHierarchy, name: Seq<char>, sheets: Seq<Seq<char>>) -> bool {
    let parts = segments(name);
    let k = name_depth(name, sheets);
    &&& h.rooted == (name.len() > 0 && name[0] == '/')
    &&& h.depth == k
    &&& h.local_name@ == (if k == 0 {
        trim_start(name, Exactly('/'))
    } else {
        joined(parts.skip(k), "/"@)
    })
    &&& match h.sheet_path {
        None => k == 0,
        Some(path) => k > 0 && path@ == "/"@ + joined(parts.take(k), "/"@),
    }
    &&& h.scope_hint@ == (if h.rooted {
        "hierarchical"@
    } else {
        "flat"@
    })
}

proof fn lemma_sheet_depth(parts: Seq<Seq<char>>, sheets: Seq<Seq<char>>, k: int)
    ensures
        sheet_depth(parts, sheets, k) <= (if k > 0 {
            k
        } else {
            0
        }),
        0 <= sheet_depth(parts, sheets, k),
        sheet_depth(parts, sheets, k) > 0 ==> names_sheet(
            parts,
            sheets,
            sheet_depth(parts, sheets, k),
        ),
        forall|j: int|
            sheet_depth(parts, sheets, k) < j <= k ==> !#[trigger] names_sheet(parts, sheets, j),
    decreases k,
{
    if k > 0 && !names_sheet(parts, sheets, k) {
        lemma_sheet_depth(parts, sheets, k - 1);
    }
}

/// Splits a net name at the deepest sheet of the design that it begins with. A slash
/// may belong to the label, so a prefix that names no sheet is not taken for one.
pub fn net_hierarchy_in(name: &str, sheets: &Vec<String>) -> (r: NetHierarchy)
    ensures
        hierarchy_is(r, name@, texts(sheets@)),
{
    let rooted = text_starts_with_char(name, '/');
    let parts = split_fields(name, &Exactly('/'));
    let ghost segs = segments(name@);
    let ghost set = texts(sheets@);
    let n = parts.len();
    let mut k: usize = if n == 0 {
        0
    } else {
        n - 1
    };
    while k > 0
        invariant_except_break
            sheet_depth(segs, set, k as int) == name_depth(name@, set),
        invariant
            k <= n,
            n == parts.len(),
            texts(parts@) == segs,
            set == texts(sheets@),
            segs == segments(name@),
        ensures
            k == name_depth(name@, set),
        decreases k,
    {
        let path = normalize_sheet_path(join_texts(&parts, 0, k, "/").as_str());
        assert(texts(parts@).subrange(0, k as int) == segs.take(k as int));
        if holds_text(sheets, path.as_str()) {
            break;
        }
        k -= 1;
    }
    let scope_hint = if rooted {
        "hierarchical"
    } else {
        "flat"
    };
    if k == 0 {
        return NetHierarchy {
            rooted,
            local_name: trim_start_matches(name, &Exactly('/')),
            sheet_path: None,
            depth: 0,
            scope_hint,
        };
    }
    let local_name = join_texts(&parts, k, n, "/");
    assert(texts(parts@).subrange(k as int, n as int) == segs.skip(k as int));
    let mut path = "/".to_owned();
    path.append(join_texts(&parts, 0, k, "/").as_str());
    assert(texts(parts@).subrange(0, k as int) == segs.take(k as int));
    NetHierarchy { rooted, local_name, sheet_path: Some(path), depth: k, scope_hint }
}

proof fn lemma_joined_head(parts: Seq<Seq<char>>, sep: Seq<char>)
    requires
        parts.len() > 0,
        parts[0].len() > 0,
    ensures
        joined(parts, sep).len() > 0,
        joined(parts, sep)[0] == parts[0][0],
    decreases parts.len(),
{
    if parts.len() > 1 {
        lemma_joined_head(parts.drop_last(), sep);
        assert(parts.drop_last()[0] == parts[0]);
    }
}

/// No run of a net name's segments is the root sheet, so a name is never split at it.
pub proof fn lemma_root_splits_no_name(name: Seq<char>, k: int)
    requires
        1 <= k <= segments(name).len(),
    ensures
        ancestor(segments(name), k) != "/"@,
{
    reveal_strlit("/");
    let p = Exactly('/');
    let parts = segments(name);
    let head = parts.take(k);
    let path = joined(head, "/"@);
    lemma_fields(name, p);
    assert(is_field(parts[0], p));
    assert(head[0] == parts[0]);
    lemma_joined_head(head, "/"@);
    assert(path.len() > 0 && path[0] == parts[0][0]);
    assert(!p.has(parts[0][0]));
    lemma_run_len_unique(path, p, true, 0);
    assert(trim_start(path, p) =~= path);
    lemma_trim_end(path, p);
    if trim_end(path, p).len() == 0 {
        assert(p.has(path[0]));
    }
}

/// A net name is split at a sheet that the design has, at the deepest such one, and never
/// behind its last segment; a name without such a sheet is flat.
pub proof fn lemma_hierarchy_names_a_sheet(name: Seq<char>, sheets: Seq<Seq<char>>)
    ensures
        name_depth(name, sheets) > 0 ==> names_sheet(
            segments(name),
            sheets,
            name_depth(name, sheets),
        ),
        forall|j: int|
            name_depth(name, sheets) < j < segments(name).len() ==> !#[trigger] names_sheet(
                segments(name),
                sheets,
                j,
            ),
        0 <= name_depth(name, sheets),
        name_depth(name, sheets) > 0 ==> name_depth(name, sheets) < segments(name).len(),
        segments(name).len() <= 1 ==> name_depth(name, sheets) == 0,
{
    lemma_sheet_depth(segments(name), sheets, segments(name).len() - 1);
}

} // verus!
