//! The tokenizer: each rule of the grammar as a scan over the characters of
//! the input, and `parse`, which applies them from the start to the end.
use vstd::prelude::*;

use crate::chars::{chars_of, run_end, trim_bounds, Class};
use crate::grammar::{
    amount, backstory, close_at, comment, curly, ingredient, line_break, material, metadata,
    parsed, prefixed, prepend, scan, space, timer, tokens, word, ErrorKind, Outcome,
    ParseError,
};
use crate::token::{Token, TokenView, views};

verus! {

pub broadcast proof fn lemma_skip_skip(s: Seq<char>, i: int, d: int)
    requires
        0 <= i,
        0 <= d,
        i + d <= s.len(),
    ensures
        #[trigger] s.skip(i).skip(d) == s.skip(i + d),
{
    assert(s.skip(i).skip(d) =~= s.skip(i + d));
}

pub broadcast proof fn lemma_skip_subrange(s: Seq<char>, i: int, x: int, y: int)
    requires
        0 <= i,
        0 <= x <= y,
        i + y <= s.len(),
    ensures
        #[trigger] s.skip(i).subrange(x, y) == s.subrange(i + x, i + y),
{
    assert(s.skip(i).subrange(x, y) =~= s.subrange(i + x, i + y));
}

pub broadcast proof fn lemma_skip_take(s: Seq<char>, i: int, n: int)
    requires
        0 <= i,
        0 <= n,
        i + n <= s.len(),
    ensures
        #[trigger] s.skip(i).take(n) == s.subrange(i, i + n),
{
    assert(s.skip(i).take(n) =~= s.subrange(i, i + n));
}

/// What one scan found, with positions counted from the start of the input.
enum Step<T> {
    Miss,
    Hit(T, usize),
    Fail(ErrorKind, usize),
}

/// `r`, found at position `i` of `v`, is what the rule's outcome `o` says, for a payload.
spec fn follows_payload(v: Seq<char>, i: int, r: Step<(usize, usize)>, o: Outcome<Seq<char>>) -> bool {
    match r {
        Step::Miss => o is Miss,
        Step::Hit(p, e) => i < e <= v.len() && p.0 <= p.1 <= v.len() && o == Outcome::Hit(
            v.subrange(p.0 as int, p.1 as int),
            (e - i) as nat,
        ),
        Step::Fail(k, at) => i <= at && o == Outcome::<Seq<char>>::Fail(k, (at - i) as nat),
    }
}

/// `r`, found at position `i` of `v`, is what the rule's outcome `o` says, for a token.
spec fn follows_token(v: Seq<char>, i: int, r: Step<Token>, o: Outcome<TokenView>) -> bool {
    match r {
        Step::Miss => o is Miss,
        Step::Hit(t, e) => i < e <= v.len() && o == Outcome::Hit(t@, (e - i) as nat),
        Step::Fail(k, at) => i <= at && o == Outcome::<TokenView>::Fail(k, (at - i) as nat),
    }
}

/// `open payload close` at `i`; the payload's bounds, trimmed when `trimmed` holds.
fn scan_delimited(
    v: &Vec<char>,
    i: usize,
    open: char,
    close: char,
    missing: ErrorKind,
    trimmed: bool,
) -> (r: Step<(usize, usize)>)
    requires
        i <= v.len(),
        (open, close, missing, trimmed) == ('{', '}', ErrorKind::MissingClosingBrace, true)
            || (open, close, missing, trimmed) == ('(', ')', ErrorKind::MissingClosingParen, false),
    ensures
        follows_payload(
            v@,
            i as int,
            r,
            if trimmed {
                curly(v@.skip(i as int))
            } else {
                amount(v@.skip(i as int))
            },
        ),
{
    broadcast use lemma_skip_skip, lemma_skip_subrange;

    if i >= v.len() || v[i] != open {
        return Step::Miss;
    }
    let j = run_end(v, i + 1, Class::Payload);
    if j == i + 1 {
        return Step::Miss;
    }
    if j < v.len() && v[j] == close {
        if trimmed {
            let (a, b) = trim_bounds(v, i + 1, j);
            Step::Hit((a, b), j + 1)
        } else {
            Step::Hit((i + 1, j), j + 1)
        }
    } else {
        Step::Fail(missing, j)
    }
}

fn scan_curly(v: &Vec<char>, i: usize) -> (r: Step<(usize, usize)>)
    requires
        i <= v.len(),
    ensures
        follows_payload(v@, i as int, r, curly(v@.skip(i as int))),
{
    scan_delimited(v, i, '{', '}', ErrorKind::MissingClosingBrace, true)
}

fn scan_amount(v: &Vec<char>, i: usize) -> (r: Step<(usize, usize)>)
    requires
        i <= v.len(),
    ensures
        follows_payload(v@, i as int, r, amount(v@.skip(i as int))),
{
    scan_delimited(v, i, '(', ')', ErrorKind::MissingClosingParen, false)
}

fn scan_prefixed(v: &Vec<char>, i: usize, letter: char) -> (r: Step<(usize, usize)>)
    requires
        i <= v.len(),
    ensures
        follows_payload(v@, i as int, r, prefixed(v@.skip(i as int), letter)),
{
    broadcast use lemma_skip_skip;

    if i < v.len() && v[i] == letter {
        scan_curly(v, i + 1)
    } else {
        Step::Miss
    }
}

fn scan_metadata<'a>(src: &'a str, v: &Vec<char>, i: usize) -> (r: Step<Token<'a>>)
    requires
        v@ == src@,
        i <= v.len(),
    ensures
        follows_token(v@, i as int, r, metadata(v@.skip(i as int))),
{
    broadcast use lemma_skip_skip, lemma_skip_subrange;

    if !(v.len() - i >= 2 && v[i] == '>' && v[i + 1] == '>') {
        return Step::Miss;
    }
    let a = run_end(v, i + 2, Class::Blank);
    let k = run_end(v, a, Class::NotColon);
    if k == a || k >= v.len() {
        return Step::Miss;
    }
    let b = run_end(v, k + 1, Class::Blank);
    let l = run_end(v, b, Class::NotNewline);
    if l >= v.len() {
        return Step::Miss;
    }
    let (ka, kb) = trim_bounds(v, a, k);
    let (va, vb) = trim_bounds(v, b, l);
    let key = src.substring_char(ka, kb);
    let value = src.substring_char(va, vb);
    Step::Hit(Token::Metadata { key, value }, l)
}

fn scan_material<'a>(src: &'a str, v: &Vec<char>, i: usize) -> (r: Step<Token<'a>>)
    requires
        v@ == src@,
        i <= v.len(),
    ensures
        follows_token(v@, i as int, r, material(v@.skip(i as int))),
{
    match scan_prefixed(v, i, 'm') {
        Step::Miss => Step::Miss,
        Step::Hit((a, b), e) => Step::Hit(Token::Material(src.substring_char(a, b)), e),
        Step::Fail(k, at) => Step::Fail(k, at),
    }
}

fn scan_timer<'a>(src: &'a str, v: &Vec<char>, i: usize) -> (r: Step<Token<'a>>)
    requires
        v@ == src@,
        i <= v.len(),
    ensures
        follows_token(v@, i as int, r, timer(v@.skip(i as int))),
{
    match scan_prefixed(v, i, 't') {
        Step::Miss => Step::Miss,
        Step::Hit((a, b), e) => Step::Hit(Token::Timer(src.substring_char(a, b)), e),
        Step::Fail(k, at) => Step::Fail(k, at),
    }
}

fn scan_ingredient<'a>(src: &'a str, v: &Vec<char>, i: usize) -> (r: Step<Token<'a>>)
    requires
        v@ == src@,
        i <= v.len(),
    ensures
        follows_token(v@, i as int, r, ingredient(v@.skip(i as int))),
{
    broadcast use lemma_skip_skip;

    match scan_curly(v, i) {
        Step::Miss => Step::Miss,
        Step::Fail(k, at) => Step::Fail(k, at),
        Step::Hit((a, b), e) => {
            let name = src.substring_char(a, b);
            match scan_amount(v, e) {
                Step::Miss => Step::Hit(Token::Ingredient { name, amount: None }, e),
                Step::Hit((c, d), e2) => Step::Hit(
                    Token::Ingredient { name, amount: Some(src.substring_char(c, d)) },
                    e2,
                ),
                Step::Fail(k, at) => Step::Fail(k, at),
            }
        },
    }
}

fn line_break_len(v: &Vec<char>, i: usize) -> (n: usize)
    requires
        i <= v.len(),
    ensures
        n == line_break(v@.skip(i as int)),
        i + n <= v.len(),
{
    if i < v.len() && v[i] == '\n' {
        1
    } else if v.len() - i >= 2 && v[i] == '\r' && v[i + 1] == '\n' {
        2
    } else {
        0
    }
}

fn scan_backstory<'a>(src: &'a str, v: &Vec<char>, i: usize) -> (r: Step<Token<'a>>)
    requires
        v@ == src@,
        i <= v.len(),
    ensures
        follows_token(v@, i as int, r, backstory(v@.skip(i as int))),
{
    broadcast use lemma_skip_skip;

    let e1 = line_break_len(v, i);
    if e1 == 0 {
        return Step::Miss;
    }
    let a = run_end(v, i + e1, Class::White);
    if !(v.len() - a >= 3 && v[a] == '-' && v[a + 1] == '-' && v[a + 2] == '-') {
        return Step::Miss;
    }
    let e2 = line_break_len(v, a + 3);
    if e2 == 0 {
        return Step::Miss;
    }
    let b = run_end(v, a + 3 + e2, Class::White);
    Step::Hit(Token::Backstory(src.substring_char(b, v.len())), v.len())
}

/// Where the first `*/` at or after `i` starts.
fn find_close(v: &Vec<char>, i: usize) -> (r: Option<usize>)
    requires
        i <= v.len(),
    ensures
        match close_at(v@.skip(i as int)) {
            Some(k) => r == Some((i + k) as usize) && i + k + 2 <= v.len(),
            None => r is None,
        },
{
    let mut j = i;
    while j < v.len() && j + 1 < v.len() && !(v[j] == '*' && v[j + 1] == '/')
        invariant
            i <= j <= v.len(),
            close_at(v@.skip(i as int)) == (match close_at(v@.skip(j as int)) {
                Some(k) => Some((k + (j - i)) as nat),
                None => None,
            }),
        decreases v.len() - j,
    {
        assert(v@.skip(j as int).drop_first() =~= v@.skip(j + 1));
        j = j + 1;
    }
    if j < v.len() && j + 1 < v.len() {
        Some(j)
    } else {
        None
    }
}

fn scan_comment<'a>(src: &'a str, v: &Vec<char>, i: usize) -> (r: Step<Token<'a>>)
    requires
        v@ == src@,
        i <= v.len(),
    ensures
        follows_token(v@, i as int, r, comment(v@.skip(i as int))),
{
    broadcast use lemma_skip_skip, lemma_skip_subrange;

    if !(v.len() - i >= 2 && v[i] == '/' && v[i + 1] == '*') {
        return Step::Miss;
    }
    match find_close(v, i + 2) {
        None => Step::Miss,
        Some(c) => {
            let (a, b) = trim_bounds(v, i + 2, c);
            let e = run_end(v, c + 2, Class::Blank);
            Step::Hit(Token::Comment(src.substring_char(a, b)), e)
        },
    }
}

fn scan_word<'a>(src: &'a str, v: &Vec<char>, i: usize) -> (r: Step<Token<'a>>)
    requires
        v@ == src@,
        i <= v.len(),
    ensures
        follows_token(v@, i as int, r, word(v@.skip(i as int))),
{
    broadcast use lemma_skip_take;

    let j = run_end(v, i, Class::NotWhite);
    if j == i {
        Step::Miss
    } else {
        Step::Hit(Token::Word(src.substring_char(i, j)), j)
    }
}

fn scan_space<'a>(src: &'a str, v: &Vec<char>, i: usize) -> (r: Step<Token<'a>>)
    requires
        v@ == src@,
        i <= v.len(),
    ensures
        follows_token(v@, i as int, r, space(v@.skip(i as int))),
{
    broadcast use lemma_skip_take;

    let j = run_end(v, i, Class::White);
    if j == i {
        Step::Miss
    } else {
        Step::Hit(Token::Space(src.substring_char(i, j)), j)
    }
}

/// The token at position `i`: the first rule, in the grammar's order, that does not miss.
fn scan_token<'a>(src: &'a str, v: &Vec<char>, i: usize) -> (r: Step<Token<'a>>)
    requires
        v@ == src@,
        i <= v.len(),
    ensures
        follows_token(v@, i as int, r, scan(v@.skip(i as int))),
{
    let r = scan_metadata(src, v, i);
    if !matches!(r, Step::Miss) {
        return r;
    }
    let r = scan_material(src, v, i);
    if !matches!(r, Step::Miss) {
        return r;
    }
    let r = scan_timer(src, v, i);
    if !matches!(r, Step::Miss) {
        return r;
    }
    let r = scan_ingredient(src, v, i);
    if !matches!(r, Step::Miss) {
        return r;
    }
    let r = scan_backstory(src, v, i);
    if !matches!(r, Step::Miss) {
        return r;
    }
    let r = scan_comment(src, v, i);
    if !matches!(r, Step::Miss) {
        return r;
    }
    let r = scan_word(src, v, i);
    if !matches!(r, Step::Miss) {
        return r;
    }
    scan_space(src, v, i)
}

/// The tokens already found, in front of what the rest of the input gives;
/// a failure there is moved `off` characters further.
pub open spec fn join(
    found: Seq<TokenView>,
    off: nat,
    rest: Result<Seq<TokenView>, (ErrorKind, nat)>,
) -> Result<Seq<TokenView>, (ErrorKind, nat)> {
    match rest {
        Ok(ts) => Ok(found + ts),
        Err((k, at)) => Err((k, at + off)),
    }
}

proof fn lemma_join_prepend(
    found: Seq<TokenView>,
    off: nat,
    tok: TokenView,
    n: nat,
    rest: Result<Seq<TokenView>, (ErrorKind, nat)>,
)
    ensures
        join(found, off, prepend(tok, n, rest)) == join(found.push(tok), off + n, rest),
{
    if let Ok(ts) = rest {
        assert(found + (seq![tok] + ts) =~= found.push(tok) + ts);
    }
}

/// Splits `i` into tokens, in order.
///
/// On success the second component holds the tokens and the first the input
/// left over, which is always empty: every character belongs to one token.
/// An empty input, and a `{` or `(` whose payload is not closed, are errors.
pub fn parse<'a>(i: &'a str) -> (r: Result<(&'a str, Vec<Token<'a>>), ParseError>)
    ensures
        match parsed(i@) {
            Ok(ts) => r is Ok && r->Ok_0.0@.len() == 0 && views(r->Ok_0.1@) == ts,
            Err((k, at)) => r is Err && r->Err_0.kind == k && r->Err_0.at == at,
        },
{
    broadcast use lemma_skip_skip;

    let v = chars_of(i);
    if v.len() == 0 {
        return Err(ParseError { kind: ErrorKind::NoToken, at: 0 });
    }
    let mut out: Vec<Token<'a>> = Vec::new();
    let mut pos: usize = 0;
    proof {
        assert(v@.skip(0) =~= v@);
        if let Ok(ts) = tokens(v@) {
            assert(Seq::<TokenView>::empty() + ts =~= ts);
        }
        assert(views(out@) =~= Seq::<TokenView>::empty());
    }
    while pos < v.len()
        invariant
            v@ == i@,
            pos <= v.len(),
            tokens(v@) == join(views(out@), pos as nat, tokens(v@.skip(pos as int))),
        decreases v.len() - pos,
    {
        match scan_token(i, &v, pos) {
            Step::Hit(tok, e) => {
                proof {
                    let t = v@.skip(pos as int);
                    assert(t.skip(e - pos) == v@.skip(e as int));
                    assert(tokens(t) == prepend(tok@, (e - pos) as nat, tokens(t.skip(e - pos))));
                    lemma_join_prepend(
                        views(out@),
                        pos as nat,
                        tok@,
                        (e - pos) as nat,
                        tokens(v@.skip(e as int)),
                    );
                    assert(views(out@.push(tok)) =~= views(out@).push(tok@));
                }
                out.push(tok);
                pos = e;
            },
            Step::Fail(k, at) => {
                return Err(ParseError { kind: k, at });
            },
            Step::Miss => {
                return Err(ParseError { kind: ErrorKind::NoToken, at: pos });
            },
        }
    }
    proof {
        reveal_strlit("");
        assert(v@.skip(pos as int) =~= Seq::<char>::empty());
        assert(views(out@) + Seq::<TokenView>::empty() =~= views(out@));
    }
    Ok(("", out))
}

} // verus!
