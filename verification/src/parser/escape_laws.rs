//! Escapes in texts, and the sheets that an export declares.
use vstd::prelude::*;

use super::error::ParseError;
use super::kicad_parser::{children, declared_sheets, escape_char, find, lists_keyed, only_value};
use super::kicad_parser::{place_of, sheet_names, sheets_of, solid, symbol, unescaped, Node};
use super::read_laws::{gives, headed, lemma_find, lemma_lists_keyed, lemma_turns_up_solid};
use super::read_laws::{lemma_value_read, stands_at, turns_up};
use super::readable_laws::{lemma_keyed_is_ok, lemma_value_is_read, tidy, well_headed};

verus! {

/// How a character that has an escape is written: the word between the braces.
pub open spec fn escape_word(c: char) -> Option<Seq<char>> {
    if c == '/' {
        Some("slash"@)
    } else if c == '\\' {
        Some("backslash"@)
    } else if c == '"' {
        Some("dblquote"@)
    } else if c == '<' {
        Some("lt"@)
    } else if c == '>' {
        Some("gt"@)
    } else if c == ':' {
        Some("colon"@)
    } else if c == ' ' {
        Some("space"@)
    } else if c == '\t' {
        Some("tab"@)
    } else if c == '\r' {
        Some("return"@)
    } else if c == '\n' {
        Some("newline"@)
    } else if c == '{' {
        Some("brace"@)
    } else {
        None
    }
}

/// A text with every character that has an escape written as one.
pub open spec fn fully_escaped(s: Seq<char>) -> Seq<char>
    decreases s.len(),
{
    if s.len() == 0 {
        Seq::empty()
    } else {
        (match escape_word(s[0]) {
            Some(w) => seq!['{'] + w + seq!['}'],
            None => seq![s[0]],
        }) + fully_escaped(s.skip(1))
    }
}

proof fn lemma_place_of(s: Seq<char>, c: char, n: int)
    requires
        0 <= n < s.len(),
        s[n] == c,
        forall|i: int| 0 <= i < n ==> #[trigger] s[i] != c,
    ensures
        place_of(s, c) == Some(n),
    decreases s.len(),
{
    if n > 0 {
        let t = s.skip(1);
        assert(s[0] != c);
        assert forall|i: int| 0 <= i < n - 1 implies #[trigger] t[i] != c by {
            assert(t[i] == s[i + 1]);
        }
        assert(t[n - 1] == s[n]);
        lemma_place_of(t, c, n - 1);
    }
}

/// A word between braces is replaced where it is known, and what follows is read on.
pub proof fn lemma_escape_is_read(word: Seq<char>, c: char, rest: Seq<char>)
    requires
        escape_char(word) == Some(c),
        !word.contains('}'),
    ensures
        unescaped(seq!['{'] + word + seq!['}'] + rest) == seq![c] + unescaped(rest),
{
    let s = seq!['{'] + word + seq!['}'] + rest;
    let n = word.len() as int + 1;
    assert forall|i: int| 0 <= i < n implies #[trigger] s[i] != '}' by {
        if i > 0 {
            assert(s[i] == word[i - 1]);
            assert(word.contains(word[i - 1]));
        }
    }
    assert(s[n] == '}');
    lemma_place_of(s, '}', n);
    assert(s.subrange(1, n) =~= word);
    assert(s.skip(n + 1) =~= rest);
}

/// A character that starts no escape stays, and what follows is read on.
pub proof fn lemma_plain_is_kept(c: char, rest: Seq<char>)
    requires
        c != '{',
    ensures
        unescaped(seq![c] + rest) == seq![c] + unescaped(rest),
{
    let s = seq![c] + rest;
    assert(s[0] == c);
    assert(s.skip(1) =~= rest);
}

/// The words of the escapes are known, each for its character, and hold no brace.
pub proof fn lemma_words_known(c: char)
    ensures
        escape_word(c) matches Some(w) ==> escape_char(w) == Some(c) && !w.contains('}'),
        c == '{' ==> escape_word(c) is Some,
{
    reveal_strlit("slash");
    reveal_strlit("backslash");
    reveal_strlit("dblquote");
    reveal_strlit("lt");
    reveal_strlit("gt");
    reveal_strlit("colon");
    reveal_strlit("space");
    reveal_strlit("tab");
    reveal_strlit("return");
    reveal_strlit("newline");
    reveal_strlit("brace");
    if let Some(w) = escape_word(c) {
        assert(!w.contains('}')) by {
            if w.contains('}') {
                let i = choose|i: int| 0 <= i < w.len() && w[i] == '}';
                assert(0 <= i < 9);
            }
        }
        let a = "slash"@;
        let b = "colon"@;
        let d = "space"@;
        let e = "brace"@;
        assert(a.len() == 5 && b.len() == 5 && d.len() == 5 && e.len() == 5);
        assert(a[0] == 's' && a[1] == 'l' && b[0] == 'c' && d[0] == 's' && d[1] == 'p' && e[0]
            == 'b');
        let f = "lt"@;
        let g = "gt"@;
        assert(f.len() == 2 && g.len() == 2 && f[0] == 'l' && g[0] == 'g');
        assert("backslash"@.len() == 9 && "dblquote"@.len() == 8 && "tab"@.len() == 3
            && "return"@.len() == 6 && "newline"@.len() == 7);
    }
}

/// Any text written with its escapes is read as it was.
pub proof fn lemma_escapes_read_back(s: Seq<char>)
    ensures
        unescaped(fully_escaped(s)) == s,
    decreases s.len(),
{
    if s.len() > 0 {
        let t = s.skip(1);
        lemma_escapes_read_back(t);
        lemma_words_known(s[0]);
        let rest = fully_escaped(t);
        match escape_word(s[0]) {
            Some(w) => {
                lemma_escape_is_read(w, s[0], rest);
                assert(fully_escaped(s) == seq!['{'] + w + seq!['}'] + rest);
            },
            None => {
                lemma_plain_is_kept(s[0], rest);
            },
        }
        assert(seq![s[0]] + t =~= s);
    }
}

/// The name is that of a sheet in a list of sheets.
spec fn named_among(s: Seq<Node>, v: Seq<char>) -> bool {
    exists|i: int|
        0 <= i < s.len() && only_value(#[trigger] s[i], symbol("name"@)) == Ok::<
            Seq<char>,
            ParseError,
        >(v)
}

proof fn lemma_sheet_names(s: Seq<Node>, v: Seq<char>)
    ensures
        sheet_names(s).contains(v) <==> named_among(s, v),
    decreases s.len(),
{
    if s.len() > 0 {
        let t = s.skip(1);
        lemma_sheet_names(t, v);
        let rest = sheet_names(t);
        let first = match only_value(s[0], symbol("name"@)) {
            Ok(name) => seq![name],
            Err(_) => Seq::<Seq<char>>::empty(),
        };
        let all = sheet_names(s);
        assert(all == first + rest);
        lemma_either_holds(first, rest, v);
        if named_among(t, v) {
            let i = choose|i: int|
                0 <= i < t.len() && only_value(#[trigger] t[i], symbol("name"@)) == Ok::<
                    Seq<char>,
                    ParseError,
                >(v);
            assert(t[i] == s[i + 1]);
            assert(named_among(s, v));
        }
        if named_among(s, v) {
            let i = choose|i: int|
                0 <= i < s.len() && only_value(#[trigger] s[i], symbol("name"@)) == Ok::<
                    Seq<char>,
                    ParseError,
                >(v);
            if i > 0 {
                assert(t[i - 1] == s[i]);
                assert(named_among(t, v));
            } else {
                assert(first[0] == v);
            }
        }
        if first.contains(v) {
            assert(only_value(s[0], symbol("name"@)) == Ok::<Seq<char>, ParseError>(v));
        }
    }
}

proof fn lemma_either_holds(a: Seq<Seq<char>>, b: Seq<Seq<char>>, v: Seq<char>)
    ensures
        (a + b).contains(v) <==> a.contains(v) || b.contains(v),
{
    let all = a + b;
    if all.contains(v) {
        let i = choose|i: int| 0 <= i < all.len() && all[i] == v;
        if i < a.len() {
            assert(a[i] == v);
        } else {
            assert(b[i - a.len()] == v);
        }
    }
    if a.contains(v) {
        let i = choose|i: int| 0 <= i < a.len() && a[i] == v;
        assert(all[i] == v);
    }
    if b.contains(v) {
        let i = choose|i: int| 0 <= i < b.len() && b[i] == v;
        assert(all[a.len() + i] == v);
    }
}

/// One of the headers declares the sheet.
spec fn declared_among(s: Seq<Node>, v: Seq<char>) -> bool {
    exists|i: int|
        0 <= i < s.len() && (children(#[trigger] s[i], symbol("sheet"@)) matches Ok(c)
            && named_among(c, v))
}

proof fn lemma_declared(s: Seq<Node>, v: Seq<char>)
    ensures
        declared_sheets(s).contains(v) <==> declared_among(s, v),
    decreases s.len(),
{
    if s.len() > 0 {
        let t = s.skip(1);
        lemma_declared(t, v);
        let rest = declared_sheets(t);
        let first = match children(s[0], symbol("sheet"@)) {
            Ok(c) => sheet_names(c),
            Err(_) => Seq::<Seq<char>>::empty(),
        };
        assert(declared_sheets(s) == first + rest);
        lemma_either_holds(first, rest, v);
        if let Ok(c) = children(s[0], symbol("sheet"@)) {
            lemma_sheet_names(c, v);
        }
        if declared_among(t, v) {
            let i = choose|i: int|
                0 <= i < t.len() && (children(#[trigger] t[i], symbol("sheet"@)) matches Ok(c)
                    && named_among(c, v));
            assert(t[i] == s[i + 1]);
            assert(declared_among(s, v));
        }
        if declared_among(s, v) {
            let i = choose|i: int|
                0 <= i < s.len() && (children(#[trigger] s[i], symbol("sheet"@)) matches Ok(c)
                    && named_among(c, v));
            if i > 0 {
                assert(t[i - 1] == s[i]);
                assert(declared_among(t, v));
            }
        }
    }
}

/// The header has a list `sheet` that gives the name.
pub open spec fn declares(h: Node, v: Seq<char>) -> bool {
    exists|i: int, x: Node| #[trigger]
        stands_at(h, i, x) && headed(x, "sheet"@) && gives(x, "name"@, v)
}

/// An export's sheets are those that the lists `sheet` in its design headers give: each of
/// them is one, and wherever the lists are in order there are no others.
pub proof fn lemma_sheets_declared(tree: Node, v: Seq<char>)
    requires
        solid(tree),
    ensures
        sheets_of(tree).contains(v) ==> exists|h: Node| #[trigger]
            turns_up(tree, "design"@, h) && declares(h, v),
        (exists|h: Node| #[trigger]
            turns_up(tree, "design"@, h) && tidy(h) && declares(h, v) && (forall|i: int, x: Node|
                #[trigger]
                stands_at(h, i, x) && headed(x, "sheet"@) ==> tidy(x))) ==> sheets_of(
            tree,
        ).contains(v),
{
    lemma_find(tree, "design"@);
    if let Ok(headers) = find(tree, symbol("design"@)) {
        lemma_declared(headers, v);
        if sheets_of(tree).contains(v) {
            let k = choose|k: int|
                0 <= k < headers.len() && (children(#[trigger] headers[k], symbol("sheet"@))
                    matches Ok(c) && named_among(c, v));
            let h = headers[k];
            assert(headers.contains(h));
            lemma_turns_up_solid(tree, "design"@, h);
            let c = children(h, symbol("sheet"@)).unwrap();
            let list = h->List_0;
            let t = list.skip(1);
            assert forall|i: int| 0 <= i < t.len() implies solid(#[trigger] t[i]) by {
                assert(t[i] == list[i + 1]);
                assert(solid(list[i + 1]));
            }
            lemma_lists_keyed(t, "sheet"@);
            let j = choose|j: int|
                0 <= j < c.len() && only_value(#[trigger] c[j], symbol("name"@)) == Ok::<
                    Seq<char>,
                    ParseError,
                >(v);
            assert(headed(c[j], "sheet"@) && t.contains(c[j]));
            let i = choose|i: int| 0 <= i < t.len() && t[i] == c[j];
            assert(solid(t[i]));
            lemma_value_read(c[j], "name"@);
            assert(stands_at(h, i + 1, c[j]));
            assert(declares(h, v));
        }
    }
    if exists|h: Node| #[trigger]
        turns_up(tree, "design"@, h) && tidy(h) && declares(h, v) && (forall|i: int, x: Node|
            #[trigger]
            stands_at(h, i, x) && headed(x, "sheet"@) ==> tidy(x)) {
        let h = choose|h: Node| #[trigger]
            turns_up(tree, "design"@, h) && tidy(h) && declares(h, v) && (forall|i: int, x: Node|
                #[trigger]
                stands_at(h, i, x) && headed(x, "sheet"@) ==> tidy(x));
        let headers = find(tree, symbol("design"@)).unwrap();
        assert(headers.contains(h));
        let k = choose|k: int| 0 <= k < headers.len() && headers[k] == h;
        let (i, x) = choose|i: int, x: Node| #[trigger]
            stands_at(h, i, x) && headed(x, "sheet"@) && gives(x, "name"@, v);
        let list = h->List_0;
        let t = list.skip(1);
        assert forall|j: int| 0 <= j < t.len() implies well_headed(#[trigger] t[j]) by {
            assert(t[j] == list[j + 1]);
            assert(well_headed(list[j + 1]));
        }
        lemma_keyed_is_ok(t, "sheet"@);
        let c = lists_keyed(t, symbol("sheet"@)).unwrap();
        assert(t[i - 1] == x);
        lemma_keyed_holds(t, "sheet"@, i - 1);
        let j = choose|j: int| 0 <= j < c.len() && c[j] == x;
        lemma_value_is_read(x, "name"@, v);
        assert(only_value(c[j], symbol("name"@)) == Ok::<Seq<char>, ParseError>(v));
        assert(named_among(c, v));
        assert(children(headers[k], symbol("sheet"@)) matches Ok(d) && named_among(d, v));
        assert(declared_among(headers, v));
    }
}

proof fn lemma_keyed_holds(s: Seq<Node>, word: Seq<char>, i: int)
    requires
        0 <= i < s.len(),
        headed(s[i], word),
        lists_keyed(s, symbol(word)) is Ok,
    ensures
        lists_keyed(s, symbol(word)).unwrap().contains(s[i]),
    decreases s.len(),
{
    let t = s.skip(1);
    let all = lists_keyed(s, symbol(word)).unwrap();
    if i == 0 {
        assert(all[0] == s[0]);
    } else {
        assert(t[i - 1] == s[i]);
        lemma_keyed_holds(t, word, i - 1);
        let rest = lists_keyed(t, symbol(word)).unwrap();
        let k = choose|k: int| 0 <= k < rest.len() && rest[k] == s[i];
        if all.len() == rest.len() {
            assert(all == rest);
        } else {
            assert(all == seq![s[0]] + rest);
            assert(all[k + 1] == s[i]);
        }
    }
}

} // verus!
