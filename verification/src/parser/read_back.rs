//! What the scanner and the tree builder read back of a text that was written.
use vstd::prelude::*;

use super::error::ParseError;
use super::kicad_parser::{build, build_rest, closed_export, netlist_of, parsed, Node};
use super::kicad_scanner::{
    all_tokens, first_token, lemma_first_token_shrinks, quoted, Delimiter, Lexeme,
};
use crate::text::{is_field, is_white, lemma_run_len, lemma_run_len_unique};
use crate::text::{run_len, trim_start, Whitespace};

verus! {

/// A text as it is written between quotes.
pub open spec fn escaped(body: Seq<char>) -> Seq<char>
    decreases body.len(),
{
    if body.len() == 0 {
        Seq::empty()
    } else if body[0] == '"' || body[0] == '\\' {
        seq!['\\', body[0]] + escaped(body.skip(1))
    } else {
        seq![body[0]] + escaped(body.skip(1))
    }
}

/// Any text written between quotes, with a backslash before its quotes and backslashes, is
/// read back as it was, and what follows it is left.
pub proof fn lemma_quoted_reads_back(body: Seq<char>, rest: Seq<char>)
    ensures
        quoted(escaped(body) + seq!['"'] + rest) == Some((body, rest)),
    decreases body.len(),
{
    let s = escaped(body) + seq!['"'] + rest;
    if body.len() == 0 {
        assert(s[0] == '"');
        assert(s.skip(1) =~= rest);
        assert(body =~= Seq::<char>::empty());
    } else {
        let tail = escaped(body.skip(1)) + seq!['"'] + rest;
        lemma_quoted_reads_back(body.skip(1), rest);
        if body[0] == '"' || body[0] == '\\' {
            assert(s[0] == '\\' && s[1] == body[0]);
            assert(s.skip(2) =~= tail);
        } else {
            assert(s[0] == body[0]);
            assert(s.skip(1) =~= tail);
        }
        assert(seq![body[0]] + body.skip(1) =~= body);
    }
}

/// A text written in quotes is read as one value, whatever it holds, and what follows it is
/// left.
pub proof fn lemma_value_reads_back(body: Seq<char>, rest: Seq<char>)
    ensures
        quoted((seq!['"'] + escaped(body) + seq!['"'] + rest).skip(1)) == Some((body, rest)),
        first_token(seq!['"'] + escaped(body) + seq!['"'] + rest) == Some(
            (Ok::<_, ParseError>(Lexeme::Value(body)), rest),
        ),
{
    let s = seq!['"'] + escaped(body) + seq!['"'] + rest;
    lemma_quoted_reads_back(body, rest);
    assert(s.skip(1) =~= escaped(body) + seq!['"'] + rest);
    lemma_run_len_unique(s, Whitespace, true, 0);
    assert(trim_start(s, Whitespace) =~= s);
}

/// A symbol is a text of at least one character, with no parenthesis, quote or white
/// space in it.
pub open spec fn is_plain_symbol(t: Lexeme) -> bool {
    t matches Lexeme::Symbol(name) ==> is_field(name, Delimiter)
}

/// Every symbol among the tokens of a text is plain.
pub proof fn lemma_symbols_are_plain(s: Seq<char>)
    ensures
        all_tokens(s) matches Ok(tokens) ==> forall|i: int|
            0 <= i < tokens.len() ==> is_plain_symbol(#[trigger] tokens[i]),
    decreases s.len(),
{
    lemma_first_token_shrinks(s);
    lemma_run_len(s, Whitespace, true);
    let t = trim_start(s, Whitespace);
    if t.len() > 0 {
        lemma_run_len(t, Delimiter, false);
        assert(t[0] == s[run_len(s, Whitespace, true) as int]);
    }
    if let Some((Ok(token), rest)) = first_token(s) {
        assert(is_plain_symbol(token));
        lemma_symbols_are_plain(rest);
    }
}

/// A token as text. A blank closes a symbol.
pub open spec fn written(t: Lexeme) -> Seq<char> {
    match t {
        Lexeme::LParen => seq!['('],
        Lexeme::RParen => seq![')'],
        Lexeme::Symbol(name) => name + seq![' '],
        Lexeme::Value(body) => seq!['"'] + escaped(body) + seq!['"'],
    }
}

/// Tokens as text, one after the other.
pub open spec fn all_written(tokens: Seq<Lexeme>) -> Seq<char>
    decreases tokens.len(),
{
    if tokens.len() == 0 {
        Seq::empty()
    } else {
        written(tokens[0]) + all_written(tokens.skip(1))
    }
}

/// A blank before a text changes nothing of its tokens.
proof fn lemma_leading_blank(s: Seq<char>)
    ensures
        all_tokens(seq![' '] + s) == all_tokens(s),
{
    let t = seq![' '] + s;
    assert(t.skip(1) =~= s);
    assert(is_white(' '));
    lemma_run_len(s, Whitespace, true);
    let n = run_len(s, Whitespace, true) as int;
    lemma_run_len_unique(t, Whitespace, true, n + 1);
    assert(trim_start(t, Whitespace) =~= trim_start(s, Whitespace));
    lemma_first_token_shrinks(s);
    lemma_first_token_shrinks(t);
}

/// Tokens with plain symbols, written down one after the other, are read back as they were.
pub proof fn lemma_tokens_read_back(tokens: Seq<Lexeme>)
    requires
        forall|i: int| 0 <= i < tokens.len() ==> is_plain_symbol(#[trigger] tokens[i]),
    ensures
        all_tokens(all_written(tokens)) == Ok::<_, ParseError>(tokens),
    decreases tokens.len(),
{
    let s = all_written(tokens);
    if tokens.len() == 0 {
        assert(tokens =~= Seq::<Lexeme>::empty());
    } else {
        let rest = all_written(tokens.skip(1));
        lemma_tokens_read_back(tokens.skip(1));
        lemma_first_token_shrinks(s);
        lemma_run_len_unique(s, Whitespace, true, 0);
        assert(trim_start(s, Whitespace) =~= s);
        assert(seq![tokens[0]] + tokens.skip(1) =~= tokens);
        match tokens[0] {
            Lexeme::LParen | Lexeme::RParen => {
                assert(s.skip(1) =~= rest);
            },
            Lexeme::Symbol(name) => {
                lemma_run_len_unique(s, Delimiter, false, name.len() as int);
                assert(s.take(name.len() as int) =~= name);
                assert(s.skip(name.len() as int) =~= seq![' '] + rest);
                lemma_leading_blank(rest);
            },
            Lexeme::Value(body) => {
                assert(s.skip(1) =~= escaped(body) + seq!['"'] + rest);
                lemma_quoted_reads_back(body, rest);
            },
        }
    }
}

/// Every list of the tree is a key and at least one more element, and no atom is a
/// parenthesis.
pub open spec fn keyed(n: Node) -> bool
    decreases n,
{
    match n {
        Node::Atom(t) => !(t is LParen) && !(t is RParen),
        Node::List(s) => s.len() >= 2 && s[0] is Atom && forall|i: int|
            0 <= i < s.len() ==> keyed(#[trigger] s[i]),
    }
}

/// The tokens that a tree is written with.
pub open spec fn tokens_of(n: Node) -> Seq<Lexeme>
    decreases n,
{
    match n {
        Node::Atom(t) => seq![t],
        Node::List(s) => seq![Lexeme::LParen] + tokens_of_all(s) + seq![Lexeme::RParen],
    }
}

/// The tokens that trees are written with, one after the other.
pub open spec fn tokens_of_all(s: Seq<Node>) -> Seq<Lexeme>
    decreases s,
{
    if s.len() == 0 {
        Seq::empty()
    } else {
        tokens_of(s[0]) + tokens_of_all(s.subrange(1, s.len() as int))
    }
}

/// A tree of keyed lists is built again from the tokens that it is written with, and the
/// tokens behind them are left.
pub proof fn lemma_tree_reads_back(n: Node, rest: Seq<Lexeme>)
    requires
        keyed(n),
        n is List,
    ensures
        build(tokens_of(n) + rest) == Some(Ok::<_, ParseError>((n, rest))),
    decreases n,
{
    let s = n->List_0;
    let t = tokens_of(n) + rest;
    let more = s.subrange(1, s.len() as int);
    assert(keyed(s[0]));
    let key = s[0]->Atom_0;
    assert(tokens_of(s[0]) == seq![key]);
    assert(tokens_of_all(s) =~= seq![key] + tokens_of_all(more));
    assert(t[0] is LParen && t[1] == key);
    assert(t.skip(2) =~= tokens_of_all(more) + seq![Lexeme::RParen] + rest);
    assert forall|i: int| 0 <= i < more.len() implies keyed(#[trigger] more[i]) by {
        assert(more[i] == s[i + 1]);
    }
    lemma_elements_read_back(more, seq![Node::Atom(key)], rest);
    assert(seq![Node::Atom(key)] + more =~= s);
}

proof fn lemma_elements_read_back(s: Seq<Node>, done: Seq<Node>, rest: Seq<Lexeme>)
    requires
        forall|i: int| 0 <= i < s.len() ==> keyed(#[trigger] s[i]),
        done.len() > 0,
        done.len() + s.len() >= 2,
    ensures
        build_rest(tokens_of_all(s) + seq![Lexeme::RParen] + rest, done) == Some(
            Ok::<_, ParseError>((Node::List(done + s), rest)),
        ),
    decreases s,
{
    let t = tokens_of_all(s) + seq![Lexeme::RParen] + rest;
    if s.len() == 0 {
        assert(t[0] is RParen);
        assert(t.skip(1) =~= rest);
        assert(done + s =~= done);
    } else {
        let more = s.subrange(1, s.len() as int);
        let tail = tokens_of_all(more) + seq![Lexeme::RParen] + rest;
        assert(keyed(s[0]));
        assert(t =~= tokens_of(s[0]) + tail);
        assert forall|i: int| 0 <= i < more.len() implies keyed(#[trigger] more[i]) by {
            assert(more[i] == s[i + 1]);
        }
        lemma_elements_read_back(more, done.push(s[0]), rest);
        assert(done.push(s[0]) + more =~= done + s);
        match s[0] {
            Node::Atom(atom) => {
                assert(t.skip(1) =~= tail);
            },
            Node::List(_) => {
                lemma_tree_reads_back(s[0], tail);
                assert(t[0] is LParen);
            },
        }
    }
}

/// A tree of keyed lists and plain symbols, written down as text, is scanned and built as it
/// was.
pub proof fn lemma_text_reads_back(n: Node)
    requires
        keyed(n),
        n is List,
        forall|i: int|
            0 <= i < tokens_of(n).len() ==> is_plain_symbol(#[trigger] tokens_of(n)[i]),
    ensures
        match all_tokens(all_written(tokens_of(n))) {
            Ok(tokens) => build(tokens) == Some(
                Ok::<_, ParseError>((n, Seq::<Lexeme>::empty())),
            ),
            Err(_) => false,
        },
{
    lemma_tokens_read_back(tokens_of(n));
    lemma_tree_reads_back(n, Seq::empty());
    assert(tokens_of(n) + Seq::<Lexeme>::empty() =~= tokens_of(n));
}

/// The text of an export describes what its tree does.
pub proof fn lemma_export_reads_back(n: Node)
    requires
        keyed(n),
        n is List,
        forall|i: int|
            0 <= i < tokens_of(n).len() ==> is_plain_symbol(#[trigger] tokens_of(n)[i]),
    ensures
        parsed(all_written(tokens_of(n))) == netlist_of(n),
        closed_export(all_written(tokens_of(n))),
{
    lemma_text_reads_back(n);
}

/// A string that is never closed is refused, whatever stands in it: of its quotes each has
/// a backslash before it.
pub proof fn lemma_open_string_is_refused(body: Seq<char>)
    ensures
        quoted(escaped(body)) is None,
        first_token(seq!['"'] + escaped(body)) == Some(
            (Err::<Lexeme, ParseError>(ParseError::UnterminatedString), Seq::<char>::empty()),
        ),
        all_tokens(seq!['"'] + escaped(body)) == Err::<Seq<Lexeme>, ParseError>(
            ParseError::UnterminatedString,
        ),
{
    lemma_never_closed(body);
    let s = seq!['"'] + escaped(body);
    assert(s[0] == '"');
    lemma_run_len_unique(s, Whitespace, true, 0);
    assert(s.skip(0) =~= s);
    assert(s.skip(1) =~= escaped(body));
}

proof fn lemma_never_closed(body: Seq<char>)
    ensures
        quoted(escaped(body)) is None,
    decreases body.len(),
{
    let s = escaped(body);
    if body.len() > 0 {
        let t = body.skip(1);
        lemma_never_closed(t);
        if body[0] == '"' || body[0] == '\\' {
            assert(s[0] == '\\');
            assert(s.skip(2) =~= escaped(t));
        } else {
            assert(s[0] == body[0]);
            assert(s.skip(1) =~= escaped(t));
        }
    }
}

} // verus!
