//! The tokens of a netlist export: parentheses, bare symbols and quoted values.
use vstd::prelude::*;

use super::error::ParseError;
use crate::text::{chars_of, is_white, run_len, text_of, trim_start, CharClass, Whitespace};
use crate::text::{lemma_run_len, lemma_run_len_unique};

verus! {

#[derive(Debug, PartialEq, Clone)]
pub enum Token {
    LParen,
    RParen,
    Symbol(String),
    Value(String),
}

/// A token as the text it carries.
pub enum Lexeme {
    LParen,
    RParen,
    Symbol(Seq<char>),
    Value(Seq<char>),
}

impl View for Token {
    type V = Lexeme;

    open spec fn view(&self) -> Lexeme {
        match self {
            Token::LParen => Lexeme::LParen,
            Token::RParen => Lexeme::RParen,
            Token::Symbol(s) => Lexeme::Symbol(s@),
            Token::Value(s) => Lexeme::Value(s@),
        }
    }
}

impl Token {
    pub fn sym(str: &str) -> (r: Token)
        ensures
            r@ == Lexeme::Symbol(str@),
    {
        Token::Symbol(str.to_owned())
    }

    /// Whether the two tokens are of one kind and carry the same text.
    pub fn same(&self, other: &Token) -> (r: bool)
        ensures
            r == (self@ == other@),
    {
        match (self, other) {
            (Token::LParen, Token::LParen) => true,
            (Token::RParen, Token::RParen) => true,
            (Token::Symbol(a), Token::Symbol(b)) => *a == *b,
            (Token::Value(a), Token::Value(b)) => *a == *b,
            _ => false,
        }
    }

    pub fn duplicate(&self) -> (r: Token)
        ensures
            r == *self,
    {
        match self {
            Token::LParen => Token::LParen,
            Token::RParen => Token::RParen,
            Token::Symbol(s) => Token::Symbol(s.clone()),
            Token::Value(s) => Token::Value(s.clone()),
        }
    }
}

/// The characters that end a bare symbol.
pub struct Delimiter;

impl CharClass for Delimiter {
    open spec fn has(&self, c: char) -> bool {
        c == '(' || c == ')' || c == '"' || is_white(c)
    }

    fn test(&self, c: char) -> (r: bool) {
        c == '(' || c == ')' || c == '"' || c.is_whitespace()
    }
}

/// What a quoted string holds, and what follows its closing quote. `s` begins
/// behind the opening quote; a backslash stands for the character after it.
/// `None` where the text ends before the closing quote.
pub open spec fn quoted(s: Seq<char>) -> Option<(Seq<char>, Seq<char>)>
    decreases s.len(),
{
    if s.len() == 0 {
        None
    } else if s[0] == '"' {
        Some((Seq::empty(), s.skip(1)))
    } else if s[0] == '\\' {
        if s.len() == 1 {
            None
        } else {
            match quoted(s.skip(2)) {
                Some((body, rest)) => Some((seq![s[1]] + body, rest)),
                None => None,
            }
        }
    } else {
        match quoted(s.skip(1)) {
            Some((body, rest)) => Some((seq![s[0]] + body, rest)),
            None => None,
        }
    }
}

/// The first token of `s` and what follows it; `None` where only white space is
/// left. A string without its closing quote takes all of the text.
pub open spec fn first_token(s: Seq<char>) -> Option<(Result<Lexeme, ParseError>, Seq<char>)> {
    let t = trim_start(s, Whitespace);
    if t.len() == 0 {
        None
    } else if t[0] == '(' {
        Some((Ok(Lexeme::LParen), t.skip(1)))
    } else if t[0] == ')' {
        Some((Ok(Lexeme::RParen), t.skip(1)))
    } else if t[0] == '"' {
        match quoted(t.skip(1)) {
            Some((body, rest)) => Some((Ok(Lexeme::Value(body)), rest)),
            None => Some((Err(ParseError::UnterminatedString), Seq::empty())),
        }
    } else {
        let n = run_len(t, Delimiter, false) as int;
        Some((Ok(Lexeme::Symbol(t.take(n))), t.skip(n)))
    }
}

/// All the tokens of `s`, or the first error.
pub open spec fn all_tokens(s: Seq<char>) -> Result<Seq<Lexeme>, ParseError>
    decreases s.len(),
{
    match first_token(s) {
        None => Ok(Seq::empty()),
        Some((Err(e), _)) => Err(e),
        Some((Ok(t), rest)) => {
            if rest.len() < s.len() {
                match all_tokens(rest) {
                    Ok(more) => Ok(seq![t] + more),
                    Err(e) => Err(e),
                }
            } else {
                Ok(seq![t])
            }
        },
    }
}

pub proof fn lemma_quoted_shrinks(s: Seq<char>)
    ensures
        quoted(s) matches Some((body, rest)) ==> rest.len() < s.len(),
    decreases s.len(),
{
    if s.len() > 0 && s[0] != '"' {
        if s[0] == '\\' {
            if s.len() > 1 {
                lemma_quoted_shrinks(s.skip(2));
            }
        } else {
            lemma_quoted_shrinks(s.skip(1));
        }
    }
}

/// Every token takes at least one character.
pub proof fn lemma_first_token_shrinks(s: Seq<char>)
    ensures
        first_token(s) matches Some((r, rest)) ==> rest.len() < s.len(),
{
    lemma_run_len(s, Whitespace, true);
    let t = trim_start(s, Whitespace);
    if t.len() > 0 {
        lemma_run_len(t, Delimiter, false);
        lemma_quoted_shrinks(t.skip(1));
        assert(t[0] == s[run_len(s, Whitespace, true) as int]);
    }
}

/// A cursor over the text of an export.
pub struct Scanner {
    chars: Vec<char>,
    pos: usize,
}

impl View for Scanner {
    type V = Seq<char>;

    /// The text that is still to be scanned.
    closed spec fn view(&self) -> Seq<char> {
        self.chars@.skip(self.pos as int)
    }
}

impl Scanner {
    #[verifier::type_invariant]
    spec fn in_bounds(self) -> bool {
        self.pos <= self.chars.len()
    }

    pub fn new(data: &str) -> (r: Scanner)
        ensures
            r@ == data@,
    {
        let chars = chars_of(data);
        assert(chars@.skip(0) == chars@);
        Scanner { chars, pos: 0 }
    }

    /// Reads a quoted string whose opening quote is the next character.
    pub fn scan_string(&mut self) -> (r: Result<Token, ParseError>)
        requires
            old(self)@.len() > 0,
        ensures
            match quoted(old(self)@.skip(1)) {
                Some((body, rest)) => {
                    &&& r matches Ok(t)
                    &&& t@ == Lexeme::Value(body)
                    &&& final(self)@ == rest
                },
                None => r == Err::<Token, _>(ParseError::UnterminatedString) && final(self)@.len() == 0,
            },
    {
        proof {
            use_type_invariant(&*self);
        }
        let mut buf = String::new();
        let mut i: usize = self.pos + 1;
        let n = self.chars.len();
        let ghost start = self.chars@.skip(self.pos + 1);
        assert(self@.skip(1) == start);
        while i < n
            invariant
                n == self.chars.len(),
                self.pos < i <= n,
                self.chars == old(self).chars,
                start == old(self)@.skip(1),
                match quoted(self.chars@.skip(i as int)) {
                    Some((body, rest)) => quoted(start) == Some((buf@ + body, rest)),
                    None => quoted(start) is None,
                },
            decreases n - i,
        {
            let ghost here = self.chars@.skip(i as int);
            assert(here[0] == self.chars@[i as int]);
            let chr = self.chars[i];
            if chr == '"' {
                assert(here.skip(1) == self.chars@.skip(i + 1));
                assert(buf@ + Seq::<char>::empty() =~= buf@);
                self.pos = i + 1;
                return Ok(Token::Value(buf));
            }
            if chr == '\\' {
                if i + 1 == n {
                    self.pos = n;
                    return Err(ParseError::UnterminatedString);
                }
                let ghost before = buf@;
                buf.push(self.chars[i + 1]);
                proof {
                    assert(here[1] == self.chars@[i + 1]);
                    assert(here.skip(2) == self.chars@.skip(i + 2));
                    if let Some((body, rest)) = quoted(here.skip(2)) {
                        assert(before + (seq![here[1]] + body) =~= buf@ + body);
                    }
                }
                i += 2;
            } else {
                let ghost before = buf@;
                buf.push(chr);
                proof {
                    assert(here.skip(1) == self.chars@.skip(i + 1));
                    if let Some((body, rest)) = quoted(here.skip(1)) {
                        assert(before + (seq![here[0]] + body) =~= buf@ + body);
                    }
                }
                i += 1;
            }
        }
        self.pos = n;
        Err(ParseError::UnterminatedString)
    }

    /// Reads the bare symbol that begins at the next character.
    fn scan_symbol(&mut self) -> (r: Token)
        requires
            old(self)@.len() > 0,
            !Delimiter.has(old(self)@[0]),
        ensures
            ({
                let n = run_len(old(self)@, Delimiter, false) as int;
                r@ == Lexeme::Symbol(old(self)@.take(n)) && final(self)@ == old(self)@.skip(n)
            }),
    {
        proof {
            use_type_invariant(&*self);
        }
        let start = self.pos;
        let end = self.run(Delimiter, false);
        let buf = text_of(&self.chars, start, end);
        proof {
            let s = self.chars@.skip(start as int);
            assert(self.chars@.subrange(start as int, end as int) == s.take(end - start));
            assert(self.chars@.skip(end as int) == s.skip(end - start));
        }
        self.pos = end;
        Token::Symbol(buf)
    }

    /// The end of the run of characters in or out of the class.
    fn run<P: CharClass>(&self, p: P, inside: bool) -> (r: usize)
        ensures
            self.pos <= r <= self.chars.len(),
            r - self.pos == run_len(self@, p, inside),
    {
        proof {
            use_type_invariant(&*self);
        }
        let mut i: usize = self.pos;
        while i < self.chars.len() && p.test(self.chars[i]) == inside
            invariant
                self.pos <= i <= self.chars.len(),
                forall|k: int| self.pos <= k < i ==> p.has(#[trigger] self.chars@[k]) == inside,
            decreases self.chars.len() - i,
        {
            i += 1;
        }
        proof {
            let s = self@;
            assert forall|k: int| 0 <= k < i - self.pos implies p.has(#[trigger] s[k]) == inside by {
                assert(s[k] == self.chars@[self.pos + k]);
            }
            lemma_run_len_unique(s, p, inside, i - self.pos);
        }
        i
    }

    /// The next token, or `None` at the end of the text.
    pub fn next(&mut self) -> (r: Option<Result<Token, ParseError>>)
        ensures
            match first_token(old(self)@) {
                None => r is None && final(self)@.len() == 0,
                Some((Ok(t), rest)) => {
                    &&& r matches Some(Ok(token))
                    &&& token@ == t
                    &&& final(self)@ == rest
                },
                Some((Err(e), rest)) => {
                    &&& r matches Some(Err(err))
                    &&& err == e
                    &&& final(self)@ == rest
                },
            },
    {
        proof {
            use_type_invariant(&*self);
        }
        let end = self.run(Whitespace, true);
        let ghost s = self@;
        assert(self.chars@.skip(end as int) == s.skip(end - self.pos));
        self.pos = end;
        if end == self.chars.len() {
            return None;
        }
        let chr = self.chars[end];
        assert(self@[0] == chr);
        proof {
            lemma_run_len(s, Whitespace, true);
            assert(s[end - old(self).pos] == chr);
        }
        if chr == '(' {
            assert(self@.skip(1) == self.chars@.skip(end + 1));
            self.pos = end + 1;
            Some(Ok(Token::LParen))
        } else if chr == ')' {
            assert(self@.skip(1) == self.chars@.skip(end + 1));
            self.pos = end + 1;
            Some(Ok(Token::RParen))
        } else if chr == '"' {
            let r = self.scan_string();
            assert(self@.len() == 0 ==> self@ =~= Seq::<char>::empty());
            Some(r)
        } else {
            Some(Ok(self.scan_symbol()))
        }
    }
}

/// The contents of a list of tokens.
pub open spec fn lexemes(v: Seq<Token>) -> Seq<Lexeme> {
    v.map_values(|t: Token| t@)
}

/// All the tokens of a text, or the first error.
pub fn scan_all(data: &str) -> (r: Result<Vec<Token>, ParseError>)
    ensures
        match all_tokens(data@) {
            Ok(tokens) => r matches Ok(v) && lexemes(v@) == tokens,
            Err(e) => r matches Err(err) && err == e,
        },
{
    let mut scanner = Scanner::new(data);
    let mut out: Vec<Token> = Vec::new();
    assert(lexemes(out@) =~= Seq::<Lexeme>::empty());
    proof {
        if let Ok(more) = all_tokens(data@) {
            assert(lexemes(out@) + more =~= more);
        }
    }
    loop
        invariant
            match all_tokens(scanner@) {
                Ok(more) => all_tokens(data@) == Ok::<_, ParseError>(lexemes(out@) + more),
                Err(e) => all_tokens(data@) == Err::<Seq<Lexeme>, _>(e),
            },
        decreases scanner@.len(),
    {
        let ghost before = scanner@;
        proof {
            lemma_first_token_shrinks(before);
        }
        match scanner.next() {
            None => {
                assert(lexemes(out@) + Seq::<Lexeme>::empty() =~= lexemes(out@));
                return Ok(out);
            },
            Some(Err(e)) => {
                return Err(e);
            },
            Some(Ok(token)) => {
                let ghost prior = lexemes(out@);
                out.push(token);
                proof {
                    assert(lexemes(out@) =~= prior.push(token@));
                    if let Ok(more) = all_tokens(scanner@) {
                        assert(prior + (seq![token@] + more) =~= lexemes(out@) + more);
                    }
                }
            },
        }
    }
}

} // verus!
