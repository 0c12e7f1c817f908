//! The grammar of the dialect, as spec functions over the input that is left,
//! and the scanner proved to follow it.
//!
//! At each position the alternatives are tried in a fixed order: metadata,
//! material, timer, ingredient, backstory, comment, word, space. The first one
//! that matches gives the token; one that fails after an opening `{` or `(` and
//! its payload fails the whole parse.
use vstd::prelude::*;

use crate::chars::{lead, run_end, trim, trim_bounds, chars_of, Class};
use crate::token::{Token, TokenView, views};

verus! {

/// Why a parse failed.
#[derive(Debug, Clone, Copy, PartialEq, Eq, Structural)]
pub enum ErrorKind {
    /// A `{` and its payload are not followed by `}`.
    MissingClosingBrace,
    /// A `(` and its payload are not followed by `)`.
    MissingClosingParen,
    /// No alternative matches: the input is empty.
    NoToken,
}

/// A failed parse: what was expected, and the character position where it was not found.
#[derive(Debug, Clone, Copy, PartialEq, Eq, Structural)]
pub struct ParseError {
    pub kind: ErrorKind,
    pub at: usize,
}

/// The expected construct that a failure of kind `k` names.
pub open spec fn context_of(k: ErrorKind) -> Seq<char> {
    match k {
        ErrorKind::MissingClosingBrace => "missing closing }"@,
        ErrorKind::MissingClosingParen => "missing closing )"@,
        ErrorKind::NoToken => "a token"@,
    }
}

impl ParseError {
    /// A description of what was expected where the parse failed.
    pub fn context(&self) -> (r: &'static str)
        ensures
            r@ == context_of(self.kind),
    {
        match self.kind {
            ErrorKind::MissingClosingBrace => "missing closing }",
            ErrorKind::MissingClosingParen => "missing closing )",
            ErrorKind::NoToken => "a token",
        }
    }

    /// The part of `input` that was left unconsumed where the parse failed;
    /// empty when the position lies beyond `input`.
    pub fn remaining<'a>(&self, input: &'a str) -> (r: &'a str)
        ensures
            r@ == if self.at <= input@.len() {
                input@.skip(self.at as int)
            } else {
                Seq::empty()
            },
    {
        let len = input.unicode_len();
        if self.at <= len {
            input.substring_char(self.at, len)
        } else {
            proof {
                reveal_strlit("");
            }
            ""
        }
    }
}

/// The outcome of one rule on the input that is left: no match, a match that
/// consumes `len` characters, or a failure at a position relative to the start.
pub enum Outcome<T> {
    Miss,
    Hit(T, nat),
    Fail(ErrorKind, nat),
}

pub open spec fn first<T>(a: Outcome<T>, b: Outcome<T>) -> Outcome<T> {
    if a is Miss {
        b
    } else {
        a
    }
}

/// Moves an outcome `d` characters further into the input.
pub open spec fn shift<T>(o: Outcome<T>, d: nat) -> Outcome<T> {
    match o {
        Outcome::Miss => Outcome::Miss,
        Outcome::Hit(x, n) => Outcome::Hit(x, n + d),
        Outcome::Fail(k, at) => Outcome::Fail(k, at + d),
    }
}

/// `{payload}`: the payload trimmed of separators.
pub open spec fn curly(t: Seq<char>) -> Outcome<Seq<char>> {
    if t.len() == 0 || t[0] != '{' {
        Outcome::Miss
    } else {
        let n = lead(t.skip(1), Class::Payload) as int;
        if n == 0 {
            Outcome::Miss
        } else if n + 1 < t.len() && t[n + 1] == '}' {
            Outcome::Hit(trim(t.subrange(1, n + 1)), (n + 2) as nat)
        } else {
            Outcome::Fail(ErrorKind::MissingClosingBrace, (n + 1) as nat)
        }
    }
}

/// `(amount)`: the amount as written.
pub open spec fn amount(t: Seq<char>) -> Outcome<Seq<char>> {
    if t.len() == 0 || t[0] != '(' {
        Outcome::Miss
    } else {
        let n = lead(t.skip(1), Class::Payload) as int;
        if n == 0 {
            Outcome::Miss
        } else if n + 1 < t.len() && t[n + 1] == ')' {
            Outcome::Hit(t.subrange(1, n + 1), (n + 2) as nat)
        } else {
            Outcome::Fail(ErrorKind::MissingClosingParen, (n + 1) as nat)
        }
    }
}

/// `>>key:value` up to the end of the line, key and value trimmed; the line
/// break itself is left for the next token.
pub open spec fn metadata(t: Seq<char>) -> Outcome<TokenView> {
    if !(t.len() >= 2 && t[0] == '>' && t[1] == '>') {
        Outcome::Miss
    } else {
        let a = 2 + lead(t.skip(2), Class::Blank) as int;
        let k = lead(t.skip(a), Class::NotColon) as int;
        if k == 0 || a + k >= t.len() {
            Outcome::Miss
        } else {
            let b = a + k + 1 + lead(t.skip(a + k + 1), Class::Blank) as int;
            let l = lead(t.skip(b), Class::NotNewline) as int;
            if b + l >= t.len() {
                Outcome::Miss
            } else {
                Outcome::Hit(
                    TokenView::Metadata {
                        key: trim(t.subrange(a, a + k)),
                        value: trim(t.subrange(b, b + l)),
                    },
                    (b + l) as nat,
                )
            }
        }
    }
}

/// A letter immediately followed by `{payload}`.
pub open spec fn prefixed(t: Seq<char>, letter: char) -> Outcome<Seq<char>> {
    if t.len() > 0 && t[0] == letter {
        shift(curly(t.skip(1)), 1)
    } else {
        Outcome::Miss
    }
}

/// `m{name}`.
pub open spec fn material(t: Seq<char>) -> Outcome<TokenView> {
    match prefixed(t, 'm') {
        Outcome::Miss => Outcome::Miss,
        Outcome::Hit(x, n) => Outcome::Hit(TokenView::Material(x), n),
        Outcome::Fail(k, at) => Outcome::Fail(k, at),
    }
}

/// `t{duration}`.
pub open spec fn timer(t: Seq<char>) -> Outcome<TokenView> {
    match prefixed(t, 't') {
        Outcome::Miss => Outcome::Miss,
        Outcome::Hit(x, n) => Outcome::Hit(TokenView::Timer(x), n),
        Outcome::Fail(k, at) => Outcome::Fail(k, at),
    }
}

/// `{name}`, with `(amount)` attached when it follows at once.
pub open spec fn ingredient(t: Seq<char>) -> Outcome<TokenView> {
    match curly(t) {
        Outcome::Miss => Outcome::Miss,
        Outcome::Fail(k, at) => Outcome::Fail(k, at),
        Outcome::Hit(name, l) => match amount(t.skip(l as int)) {
            Outcome::Miss => Outcome::Hit(TokenView::Ingredient { name, amount: None }, l),
            Outcome::Hit(a, m) => Outcome::Hit(
                TokenView::Ingredient { name, amount: Some(a) },
                l + m,
            ),
            Outcome::Fail(k, at) => Outcome::Fail(k, l + at),
        },
    }
}

/// The length of a line break at the start of `t`: `\n` or `\r\n`; zero if none.
pub open spec fn line_break(t: Seq<char>) -> nat {
    if t.len() >= 1 && t[0] == '\n' {
        1
    } else if t.len() >= 2 && t[0] == '\r' && t[1] == '\n' {
        2
    } else {
        0
    }
}

/// A line break, separators, `---`, a line break and separators: the rest of
/// the input is the backstory.
pub open spec fn backstory(t: Seq<char>) -> Outcome<TokenView> {
    let e1 = line_break(t) as int;
    if e1 == 0 {
        Outcome::Miss
    } else {
        let a = e1 + lead(t.skip(e1), Class::White) as int;
        if !(a + 3 <= t.len() && t[a] == '-' && t[a + 1] == '-' && t[a + 2] == '-') {
            Outcome::Miss
        } else {
            let e2 = line_break(t.skip(a + 3)) as int;
            if e2 == 0 {
                Outcome::Miss
            } else {
                let b = a + 3 + e2 + lead(t.skip(a + 3 + e2), Class::White) as int;
                Outcome::Hit(TokenView::Backstory(t.skip(b)), t.len())
            }
        }
    }
}

/// Where the first `*/` of `t` starts, if there is one.
pub open spec fn close_at(t: Seq<char>) -> Option<nat>
    decreases t.len(),
{
    if t.len() < 2 {
        None
    } else if t[0] == '*' && t[1] == '/' {
        Some(0)
    } else {
        match close_at(t.drop_first()) {
            Some(k) => Some(k + 1),
            None => None,
        }
    }
}

/// `/* text */` and the spaces and tabs after it; the text trimmed.
pub open spec fn comment(t: Seq<char>) -> Outcome<TokenView> {
    if !(t.len() >= 2 && t[0] == '/' && t[1] == '*') {
        Outcome::Miss
    } else {
        match close_at(t.skip(2)) {
            None => Outcome::Miss,
            Some(k) => {
                let e = k + 4;
                Outcome::Hit(
                    TokenView::Comment(trim(t.subrange(2, k + 2 as int))),
                    e + lead(t.skip(e as int), Class::Blank),
                )
            },
        }
    }
}

/// A maximal run of characters other than separators.
pub open spec fn word(t: Seq<char>) -> Outcome<TokenView> {
    let n = lead(t, Class::NotWhite);
    if n == 0 {
        Outcome::Miss
    } else {
        Outcome::Hit(TokenView::Word(t.take(n as int)), n)
    }
}

/// A maximal run of separators.
pub open spec fn space(t: Seq<char>) -> Outcome<TokenView> {
    let n = lead(t, Class::White);
    if n == 0 {
        Outcome::Miss
    } else {
        Outcome::Hit(TokenView::Space(t.take(n as int)), n)
    }
}

/// The token at the start of `t`: the first alternative that does not miss.
pub open spec fn scan(t: Seq<char>) -> Outcome<TokenView> {
    first(
        metadata(t),
        first(
            material(t),
            first(
                timer(t),
                first(
                    ingredient(t),
                    first(backstory(t), first(comment(t), first(word(t), space(t)))),
                ),
            ),
        ),
    )
}

/// Puts a token consuming `n` characters in front of what the rest gives.
pub open spec fn prepend(
    tok: TokenView,
    n: nat,
    rest: Result<Seq<TokenView>, (ErrorKind, nat)>,
) -> Result<Seq<TokenView>, (ErrorKind, nat)> {
    match rest {
        Ok(ts) => Ok(seq![tok] + ts),
        Err((k, at)) => Err((k, at + n)),
    }
}

/// The tokens of `t`, scanned from its start to its end, or the first failure.
pub open spec fn tokens(t: Seq<char>) -> Result<Seq<TokenView>, (ErrorKind, nat)>
    decreases t.len(),
{
    if t.len() == 0 {
        Ok(Seq::empty())
    } else {
        match scan(t) {
            Outcome::Hit(tok, n) => if 0 < n <= t.len() {
                prepend(tok, n, tokens(t.skip(n as int)))
            } else {
                Err((ErrorKind::NoToken, 0))
            },
            Outcome::Fail(k, at) => Err((k, at)),
            Outcome::Miss => Err((ErrorKind::NoToken, 0)),
        }
    }
}

/// What a whole document parses to: an empty document has no token.
pub open spec fn parsed(s: Seq<char>) -> Result<Seq<TokenView>, (ErrorKind, nat)> {
    if s.len() == 0 {
        Err((ErrorKind::NoToken, 0))
    } else {
        tokens(s)
    }
}

} // verus!
