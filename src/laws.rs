//! Properties of the grammar that hold for every input, proved over its spec.
use vstd::prelude::*;

use crate::chars::{
    blank, lead, lemma_lead_bound, payload_char, trim, trim_back, trim_front, white, Class,
};
use crate::grammar::{
    amount, backstory, close_at, comment, curly, ingredient, line_break, material, metadata,
    prepend, scan, timer, tokens, word, ErrorKind, Outcome,
};
use crate::token::{rendered, rendered_all, TokenView};

verus! {

/// Every character of `x` may stand inside `{...}` or `(...)`.
pub open spec fn all_payload(x: Seq<char>) -> bool {
    forall|k: int| 0 <= k < x.len() ==> payload_char(#[trigger] x[k])
}

/// Every character of `x` is a space or a tab.
pub open spec fn all_blank(x: Seq<char>) -> bool {
    forall|k: int| 0 <= k < x.len() ==> blank(#[trigger] x[k])
}

proof fn lemma_lead_concat(x: Seq<char>, r: Seq<char>, c: Class)
    requires
        forall|k: int| 0 <= k < x.len() ==> c.holds(#[trigger] x[k]),
    ensures
        lead(x + r, c) == x.len() + lead(r, c),
    decreases x.len(),
{
    if x.len() > 0 {
        assert((x + r)[0] == x[0]);
        assert((x + r).drop_first() =~= x.drop_first() + r);
        assert forall|k: int| 0 <= k < x.drop_first().len() implies c.holds(
            #[trigger] x.drop_first()[k],
        ) by {
            assert(x.drop_first()[k] == x[k + 1]);
        }
        lemma_lead_concat(x.drop_first(), r, c);
    } else {
        assert(x + r =~= r);
    }
}

/// The run of payload characters in `x` followed by `r` ends where `x` ends.
proof fn lemma_payload_run(x: Seq<char>, r: Seq<char>)
    requires
        all_payload(x),
        r.len() == 0 || !payload_char(r[0]),
    ensures
        lead(x + r, Class::Payload) == x.len(),
{
    lemma_lead_concat(x, r, Class::Payload);
}

proof fn lemma_curly(x: Seq<char>, rest: Seq<char>)
    requires
        x.len() > 0,
        all_payload(x),
    ensures
        curly(seq!['{'] + x + seq!['}'] + rest) == Outcome::Hit(trim(x), x.len() + 2),
{
    let s = seq!['{'] + x + seq!['}'] + rest;
    assert(s.skip(1) =~= x + (seq!['}'] + rest));
    lemma_payload_run(x, seq!['}'] + rest);
    assert(s[x.len() + 1 as int] == '}');
    assert(s.subrange(1, x.len() + 1 as int) =~= x);
}

proof fn lemma_amount(y: Seq<char>, rest: Seq<char>)
    requires
        y.len() > 0,
        all_payload(y),
    ensures
        amount(seq!['('] + y + seq![')'] + rest) == Outcome::Hit(y, y.len() + 2),
{
    let s = seq!['('] + y + seq![')'] + rest;
    assert(s.skip(1) =~= y + (seq![')'] + rest));
    lemma_payload_run(y, seq![')'] + rest);
    assert(s[y.len() + 1 as int] == ')');
    assert(s.subrange(1, y.len() + 1 as int) =~= y);
}

/// `m{x}` is always a material and `t{x}` a timer, never a word followed by an
/// ingredient: the token takes the letter, the braces and the payload, and the
/// tokens after it are those of the rest.
pub proof fn prefix_beats_ingredient(letter: char, x: Seq<char>, rest: Seq<char>)
    requires
        letter == 'm' || letter == 't',
        x.len() > 0,
        all_payload(x),
    ensures
        ({
            let s = seq![letter, '{'] + x + seq!['}'] + rest;
            let tok = if letter == 'm' {
                TokenView::Material(trim(x))
            } else {
                TokenView::Timer(trim(x))
            };
            &&& scan(s) == Outcome::Hit(tok, x.len() + 3)
            &&& tokens(s) == prepend(tok, x.len() + 3, tokens(rest))
        }),
{
    let s = seq![letter, '{'] + x + seq!['}'] + rest;
    assert(s.skip(1) =~= seq!['{'] + x + seq!['}'] + rest);
    lemma_curly(x, rest);
    assert(metadata(s) is Miss);
    assert(s.skip(x.len() + 3 as int) =~= rest);
}

/// Separators around the payload do not change the name: `{  x  }` and `{x}`
/// give the same token when followed by the same text (unless an unclosed
/// amount follows, which fails both).
pub proof fn trim_inside_braces(p: Seq<char>, x: Seq<char>, q: Seq<char>, rest: Seq<char>)
    requires
        all_blank(p),
        all_blank(q),
        x.len() > 0,
        all_payload(x),
    ensures
        ({
            let padded = seq!['{'] + p + x + q + seq!['}'] + rest;
            let bare = seq!['{'] + x + seq!['}'] + rest;
            &&& scan(padded) is Hit <==> scan(bare) is Hit
            &&& scan(bare) is Hit ==> {
                &&& scan(padded)->Hit_0 == scan(bare)->Hit_0
                &&& scan(bare)->Hit_0 matches TokenView::Ingredient { name, .. } && name == trim(x)
            }
        }),
{
    let body = p + x + q;
    assert forall|k: int| 0 <= k < body.len() implies payload_char(#[trigger] body[k]) by {
        if k < p.len() {
            assert(body[k] == p[k]);
        } else if k < p.len() + x.len() {
            assert(body[k] == x[k - p.len()]);
        } else {
            assert(body[k] == q[k - p.len() - x.len()]);
        }
    }
    lemma_curly(body, rest);
    lemma_curly(x, rest);
    lemma_trim_pads(p, x, q);
    let padded = seq!['{'] + p + x + q + seq!['}'] + rest;
    let bare = seq!['{'] + x + seq!['}'] + rest;
    assert(padded =~= seq!['{'] + body + seq!['}'] + rest);
    assert(padded.skip(body.len() + 2 as int) =~= rest);
    assert(bare.skip(x.len() + 2 as int) =~= rest);
    assert(metadata(padded) is Miss);
    assert(metadata(bare) is Miss);
    assert(curly(padded) == Outcome::Hit(trim(x), body.len() + 2));
    assert(amount(padded.skip(body.len() + 2 as int)) == amount(rest));
    assert(amount(bare.skip(x.len() + 2 as int)) == amount(rest));
    match amount(rest) {
        Outcome::Miss => {},
        Outcome::Hit(a, m) => {},
        Outcome::Fail(k, at) => {},
    }
    assert(material(padded) is Miss);
    assert(material(bare) is Miss);
    assert(timer(padded) is Miss);
    assert(timer(bare) is Miss);
}

proof fn lemma_trim_front_white(p: Seq<char>, y: Seq<char>)
    requires
        all_blank(p),
    ensures
        trim_front(p + y) == trim_front(y),
    decreases p.len(),
{
    if p.len() > 0 {
        assert((p + y)[0] == p[0]);
        assert((p + y).drop_first() =~= p.drop_first() + y);
        assert forall|k: int| 0 <= k < p.drop_first().len() implies blank(
            #[trigger] p.drop_first()[k],
        ) by {
            assert(p.drop_first()[k] == p[k + 1]);
        }
        lemma_trim_front_white(p.drop_first(), y);
    } else {
        assert(p + y =~= y);
    }
}

proof fn lemma_trim_back_white(y: Seq<char>, q: Seq<char>)
    requires
        all_blank(q),
    ensures
        trim_back(y + q) == trim_back(y),
    decreases q.len(),
{
    if q.len() > 0 {
        assert((y + q).last() == q.last());
        assert((y + q).drop_last() =~= y + q.drop_last());
        assert forall|k: int| 0 <= k < q.drop_last().len() implies blank(
            #[trigger] q.drop_last()[k],
        ) by {
            assert(q.drop_last()[k] == q[k]);
        }
        lemma_trim_back_white(y, q.drop_last());
    } else {
        assert(y + q =~= y);
    }
}

proof fn lemma_trim_front_then_pad(y: Seq<char>, q: Seq<char>)
    requires
        all_blank(q),
    ensures
        trim_back(trim_front(y + q)) == trim_back(trim_front(y)),
    decreases y.len(),
{
    if y.len() == 0 {
        assert(y + q =~= q + Seq::<char>::empty());
        lemma_trim_front_white(q, Seq::<char>::empty());
    } else if white(y[0]) {
        assert((y + q)[0] == y[0]);
        assert((y + q).drop_first() =~= y.drop_first() + q);
        lemma_trim_front_then_pad(y.drop_first(), q);
    } else {
        assert((y + q)[0] == y[0]);
        lemma_trim_back_white(y, q);
    }
}

proof fn lemma_trim_pads(p: Seq<char>, x: Seq<char>, q: Seq<char>)
    requires
        all_blank(p),
        all_blank(q),
    ensures
        trim(p + x + q) == trim(x),
{
    assert(p + x + q =~= p + (x + q));
    lemma_trim_front_white(p, x + q);
    lemma_trim_front_then_pad(x, q);
}

/// `{x}(y)` binds the amount `y` to the ingredient `x`.
pub proof fn adjacent_amount_attaches(x: Seq<char>, y: Seq<char>, rest: Seq<char>)
    requires
        x.len() > 0,
        all_payload(x),
        y.len() > 0,
        all_payload(y),
    ensures
        scan(seq!['{'] + x + seq!['}', '('] + y + seq![')'] + rest) == Outcome::Hit(
            TokenView::Ingredient { name: trim(x), amount: Some(y) },
            x.len() + y.len() + 4,
        ),
{
    let s = seq!['{'] + x + seq!['}', '('] + y + seq![')'] + rest;
    let after = seq!['('] + y + seq![')'] + rest;
    assert(s =~= seq!['{'] + x + seq!['}'] + after);
    lemma_curly(x, after);
    assert(s.skip(x.len() + 2 as int) =~= after);
    lemma_amount(y, rest);
    assert(metadata(s) is Miss);
}

/// In `{x} (y)` the space keeps the amount apart: the ingredient has none, and
/// ` (y)` is left for the tokens that follow.
pub proof fn spaced_amount_stays_apart(x: Seq<char>, y: Seq<char>, rest: Seq<char>)
    requires
        x.len() > 0,
        all_payload(x),
    ensures
        ({
            let after = seq![' ', '('] + y + seq![')'] + rest;
            let s = seq!['{'] + x + seq!['}'] + after;
            let tok = TokenView::Ingredient { name: trim(x), amount: None };
            &&& scan(s) == Outcome::Hit(tok, x.len() + 2)
            &&& tokens(s) == prepend(tok, x.len() + 2, tokens(after))
        }),
{
    let after = seq![' ', '('] + y + seq![')'] + rest;
    let s = seq!['{'] + x + seq!['}'] + after;
    lemma_curly(x, after);
    assert(s.skip(x.len() + 2 as int) =~= after);
    assert(amount(after) is Miss);
    assert(metadata(s) is Miss);
}

/// A `{` whose payload is not followed by `}` fails the whole parse with the
/// missing-brace error, at the position where `}` was expected.
pub proof fn unclosed_brace_fails(x: Seq<char>, rest: Seq<char>)
    requires
        x.len() > 0,
        all_payload(x),
        rest.len() == 0 || (!payload_char(rest[0]) && rest[0] != '}'),
    ensures
        tokens(seq!['{'] + x + rest) == Err::<Seq<TokenView>, (ErrorKind, nat)>(
            (ErrorKind::MissingClosingBrace, x.len() + 1),
        ),
{
    let s = seq!['{'] + x + rest;
    assert(s.skip(1) =~= x + rest);
    lemma_payload_run(x, rest);
    assert(metadata(s) is Miss);
}

/// An ingredient whose `(` and amount are not followed by `)` fails the whole
/// parse with the missing-parenthesis error.
pub proof fn unclosed_paren_fails(x: Seq<char>, y: Seq<char>, rest: Seq<char>)
    requires
        x.len() > 0,
        all_payload(x),
        y.len() > 0,
        all_payload(y),
        rest.len() == 0 || (!payload_char(rest[0]) && rest[0] != ')'),
    ensures
        tokens(seq!['{'] + x + seq!['}', '('] + y + rest) == Err::<
            Seq<TokenView>,
            (ErrorKind, nat),
        >((ErrorKind::MissingClosingParen, x.len() + y.len() + 3)),
{
    let after = seq!['('] + y + rest;
    let s = seq!['{'] + x + seq!['}'] + after;
    assert(s =~= seq!['{'] + x + seq!['}', '('] + y + rest);
    lemma_curly(x, after);
    assert(s.skip(x.len() + 2 as int) =~= after);
    assert(after.skip(1) =~= y + rest);
    lemma_payload_run(y, rest);
    assert(metadata(s) is Miss);
}

/// Empty braces and empty parentheses hold no payload: neither matches.
pub proof fn empty_payload_misses(rest: Seq<char>)
    ensures
        curly(seq!['{', '}'] + rest) is Miss,
        amount(seq!['(', ')'] + rest) is Miss,
{
    assert((seq!['{', '}'] + rest).skip(1) =~= seq!['}'] + rest);
    assert((seq!['(', ')'] + rest).skip(1) =~= seq![')'] + rest);
}

/// A line break, `---` and a line break make the rest of the input one
/// backstory token, the last one.
pub proof fn backstory_takes_the_rest(b: Seq<char>)
    requires
        b.len() == 0 || !white(b[0]),
    ensures
        tokens(seq!['\n', '-', '-', '-', '\n'] + b) == Ok::<Seq<TokenView>, (ErrorKind, nat)>(
            seq![TokenView::Backstory(b)],
        ),
{
    let s = seq!['\n', '-', '-', '-', '\n'] + b;
    assert(s.skip(5) =~= b);
    assert(s.skip(4) =~= seq!['\n'] + b);
    assert(lead(s.skip(1), Class::White) == 0);
    assert(lead(s.skip(5), Class::White) == 0);
    assert(metadata(s) is Miss);
    assert(material(s) is Miss);
    assert(timer(s) is Miss);
    assert(ingredient(s) is Miss);
    assert(s.skip(1)[0] == '-');
    assert(lead(s.skip(1), Class::White) == 0);
    assert(s.skip(4)[0] == '\n');
    if b.len() > 0 {
        assert(s.skip(5)[0] == b[0]);
    }
    assert(lead(s.skip(5), Class::White) == 0);
    assert(backstory(s) == Outcome::Hit(TokenView::Backstory(b), s.len()));
    assert(scan(s) == Outcome::Hit(TokenView::Backstory(b), s.len()));
    assert(s.skip(s.len() as int) =~= Seq::<char>::empty());
    assert(tokens(Seq::<char>::empty()) == Ok::<Seq<TokenView>, (ErrorKind, nat)>(Seq::empty()));
    assert(seq![TokenView::Backstory(b)] + Seq::<TokenView>::empty() =~= seq![
        TokenView::Backstory(b),
    ]);
}

/// A backstory token only ever stands last.
pub proof fn backstory_is_last(s: Seq<char>)
    ensures
        tokens(s) is Ok ==> forall|k: int|
            0 <= k < tokens(s)->Ok_0.len() - 1 ==> !(#[trigger] tokens(s)->Ok_0[k] is Backstory),
    decreases s.len(),
{
    if s.len() > 0 {
        if let Outcome::Hit(tok, n) = scan(s) {
            if 0 < n <= s.len() {
                backstory_is_last(s.skip(n as int));
                if tok is Backstory {
                    assert(n == s.len());
                    assert(s.skip(n as int) =~= Seq::<char>::empty());
                }
                if let Ok(rest) = tokens(s.skip(n as int)) {
                    let ts = seq![tok] + rest;
                    assert forall|k: int| 0 <= k < ts.len() - 1 implies !(#[trigger] ts[k] is Backstory) by {
                        if k > 0 {
                            assert(ts[k] == rest[k - 1]);
                        }
                    }
                }
            }
        }
    }
}

/// Every character of `x` is a separator.
pub open spec fn all_white(x: Seq<char>) -> bool {
    forall|k: int| 0 <= k < x.len() ==> white(#[trigger] x[k])
}

/// `src[lo..hi]` is `{`, a non-empty payload, `}`; `name` is the payload trimmed.
pub open spec fn braced(src: Seq<char>, lo: int, hi: int, name: Seq<char>) -> bool {
    &&& 0 <= lo
    &&& lo + 3 <= hi <= src.len()
    &&& src[lo] == '{'
    &&& src[hi - 1] == '}'
    &&& all_payload(src.subrange(lo + 1, hi - 1))
    &&& name == trim(src.subrange(lo + 1, hi - 1))
}

/// `src` is text that the token `tok` can be read from: the markup around its
/// payload, and the payload as the token holds it.
pub open spec fn source_of(tok: TokenView, src: Seq<char>) -> bool {
    match tok {
        TokenView::Word(w) => src == w && w.len() > 0 && forall|k: int|
            0 <= k < w.len() ==> !white(#[trigger] w[k]),
        TokenView::Space(w) => src == w && w.len() > 0 && all_white(w),
        TokenView::Material(n) => src.len() > 0 && src[0] == 'm' && braced(src, 1, src.len() as int, n),
        TokenView::Timer(n) => src.len() > 0 && src[0] == 't' && braced(src, 1, src.len() as int, n),
        TokenView::Ingredient { name, amount: None } => braced(src, 0, src.len() as int, name),
        TokenView::Ingredient { name, amount: Some(a) } => {
            &&& braced(src, 0, src.len() - a.len() - 2, name)
            &&& src.skip(src.len() - a.len() - 2) == seq!['('] + a + seq![')']
            &&& a.len() > 0
            &&& all_payload(a)
        },
        TokenView::Comment(text) => exists|e: int|
            {
                &&& 4 <= e <= src.len()
                &&& src[0] == '/' && src[1] == '*'
                &&& src[e - 2] == '*' && src[e - 1] == '/'
                &&& all_blank(#[trigger] src.skip(e))
                &&& text == trim(src.subrange(2, e - 2))
            },
        TokenView::Metadata { key, value } => exists|a: int, c: int, b: int|
            {
                &&& 2 <= a < c < b <= src.len()
                &&& src[0] == '>' && src[1] == '>'
                &&& all_blank(#[trigger] src.subrange(2, a))
                &&& src[c] == ':'
                &&& key == trim(src.subrange(a, c))
                &&& all_blank(#[trigger] src.subrange(c + 1, b))
                &&& value == trim(src.skip(b))
                &&& forall|k: int| b <= k < src.len() ==> #[trigger] src[k] != '\n'
            },
        TokenView::Backstory(text) => exists|d: int, a: int|
            {
                &&& 0 < d
                &&& d + 3 < a <= src.len()
                &&& (src[0] == '\n' || src[0] == '\r')
                &&& all_white(#[trigger] src.take(d))
                &&& src[d] == '-' && src[d + 1] == '-' && src[d + 2] == '-'
                &&& all_white(#[trigger] src.subrange(d + 3, a))
                &&& src.skip(a) == text
            },
    }
}

/// The spans of `t` that its tokens are read from, in order.
pub open spec fn pieces(t: Seq<char>) -> Seq<Seq<char>>
    decreases t.len(),
{
    if t.len() == 0 {
        Seq::empty()
    } else {
        match scan(t) {
            Outcome::Hit(_, n) => if 0 < n <= t.len() {
                seq![t.take(n as int)] + pieces(t.skip(n as int))
            } else {
                Seq::empty()
            },
            _ => Seq::empty(),
        }
    }
}

proof fn lemma_lead_span(t: Seq<char>, lo: int, c: Class, src: Seq<char>)
    requires
        0 <= lo <= t.len(),
        lo + lead(t.skip(lo), c) <= src.len(),
        src.len() <= t.len(),
        src == t.take(src.len() as int),
    ensures
        forall|k: int|
            lo <= k < lo + lead(t.skip(lo), c) ==> c.holds(#[trigger] src[k]),
{
    lemma_lead_bound(t.skip(lo), c);
    assert forall|k: int| lo <= k < lo + lead(t.skip(lo), c) implies c.holds(#[trigger] src[k]) by {
        assert(src[k] == t.skip(lo)[k - lo]);
    }
}

proof fn lemma_curly_shape(t: Seq<char>, lo: int, n: int)
    requires
        0 <= lo <= t.len(),
        curly(t.skip(lo)) is Hit,
        lo + curly(t.skip(lo))->Hit_1 <= n <= t.len(),
    ensures
        braced(t.take(n), lo, lo + curly(t.skip(lo))->Hit_1, curly(t.skip(lo))->Hit_0),
{
    let u = t.skip(lo);
    let src = t.take(n);
    let m = lead(u.skip(1), Class::Payload) as int;
    assert(u.skip(1) =~= t.skip(lo + 1));
    lemma_lead_span(t, lo + 1, Class::Payload, src);
    let body = src.subrange(lo + 1, lo + 1 + m);
    assert(body =~= u.subrange(1, m + 1));
    assert forall|k: int| 0 <= k < body.len() implies payload_char(#[trigger] body[k]) by {
        assert(body[k] == src[lo + 1 + k]);
    }
}

proof fn lemma_amount_shape(t: Seq<char>, lo: int)
    requires
        0 <= lo <= t.len(),
        amount(t.skip(lo)) is Hit,
    ensures
        ({
            let a = amount(t.skip(lo))->Hit_0;
            let l = amount(t.skip(lo))->Hit_1;
            &&& l == a.len() + 2
            &&& lo + l <= t.len()
            &&& t.subrange(lo, lo + l) == seq!['('] + a + seq![')']
            &&& a.len() > 0
            &&& all_payload(a)
        }),
{
    let u = t.skip(lo);
    let m = lead(u.skip(1), Class::Payload) as int;
    lemma_lead_bound(u.skip(1), Class::Payload);
    let a = u.subrange(1, m + 1);
    assert forall|k: int| 0 <= k < a.len() implies payload_char(#[trigger] a[k]) by {
        assert(a[k] == u.skip(1)[k]);
    }
    assert(t.subrange(lo, lo + m + 2) =~= seq!['('] + a + seq![')']);
}

proof fn lemma_close_at(u: Seq<char>)
    ensures
        close_at(u) matches Some(k) ==> k + 2 <= u.len() && u[k as int] == '*' && u[k + 1 as int] == '/',
    decreases u.len(),
{
    if u.len() >= 2 && !(u[0] == '*' && u[1] == '/') {
        lemma_close_at(u.drop_first());
    }
}

proof fn lemma_scan_source(t: Seq<char>)
    requires
        scan(t) is Hit,
        0 < scan(t)->Hit_1 <= t.len(),
    ensures
        source_of(scan(t)->Hit_0, t.take(scan(t)->Hit_1 as int)),
{
    let n = scan(t)->Hit_1 as int;
    let src = t.take(n);
    if metadata(t) is Hit {
        let a = 2 + lead(t.skip(2), Class::Blank) as int;
        let k = lead(t.skip(a), Class::NotColon) as int;
        let b = a + k + 1 + lead(t.skip(a + k + 1), Class::Blank) as int;
        let l = lead(t.skip(b), Class::NotNewline) as int;
        lemma_lead_bound(t.skip(2), Class::Blank);
        lemma_lead_bound(t.skip(a), Class::NotColon);
        lemma_lead_bound(t.skip(a + k + 1), Class::Blank);
        lemma_lead_bound(t.skip(b), Class::NotNewline);
        lemma_lead_span(t, 2, Class::Blank, src);
        lemma_lead_span(t, a + k + 1, Class::Blank, src);
        lemma_lead_span(t, b, Class::NotNewline, src);
        assert(src[a + k] == t.skip(a)[k]);
        assert(src.subrange(a, a + k) =~= t.subrange(a, a + k));
        assert(src.skip(b) =~= t.subrange(b, b + l));
        let before_key = src.subrange(2, a);
        let before_value = src.subrange(a + k + 1, b);
        assert forall|j: int| 0 <= j < before_key.len() implies blank(#[trigger] before_key[j]) by {
            assert(before_key[j] == src[2 + j]);
        }
        assert forall|j: int| 0 <= j < before_value.len() implies blank(#[trigger] before_value[j]) by {
            assert(before_value[j] == src[a + k + 1 + j]);
        }
        assert(source_of(scan(t)->Hit_0, src));
    } else if material(t) is Hit || timer(t) is Hit {
        assert(t.skip(1) =~= t.skip(1 as int));
        lemma_curly_shape(t, 1, n);
    } else if ingredient(t) is Hit {
        assert(t.skip(0) =~= t);
        lemma_curly_shape(t, 0, n);
        let l = curly(t)->Hit_1 as int;
        if amount(t.skip(l)) is Hit {
            lemma_amount_shape(t, l);
            assert(src.skip(l) =~= t.subrange(l, n));
        }
    } else if backstory(t) is Hit {
        let e1 = line_break(t) as int;
        let d = e1 + lead(t.skip(e1), Class::White) as int;
        let e2 = line_break(t.skip(d + 3)) as int;
        let a = d + 3 + e2 + lead(t.skip(d + 3 + e2), Class::White) as int;
        assert(src =~= t);
        lemma_lead_span(t, e1, Class::White, src);
        assert(d + 3 + e2 <= t.len());
        lemma_lead_bound(t.skip(d + 3 + e2), Class::White);
        lemma_lead_span(t, d + 3 + e2, Class::White, src);
        let w1 = src.take(d);
        let w2 = src.subrange(d + 3, a);
        assert forall|j: int| 0 <= j < w1.len() implies white(#[trigger] w1[j]) by {
            assert(w1[j] == src[j]);
        }
        assert forall|j: int| 0 <= j < w2.len() implies white(#[trigger] w2[j]) by {
            assert(w2[j] == src[d + 3 + j]);
            if j < e2 {
                assert(t.skip(d + 3)[j] == src[d + 3 + j]);
            }
        }
        assert(source_of(scan(t)->Hit_0, src));
    } else if comment(t) is Hit {
        let k = close_at(t.skip(2))->0 as int;
        lemma_close_at(t.skip(2));
        let e = k + 4;
        lemma_lead_span(t, e, Class::Blank, src);
        let tail = src.skip(e);
        assert forall|j: int| 0 <= j < tail.len() implies blank(#[trigger] tail[j]) by {
            assert(tail[j] == src[e + j]);
        }
        assert(src.subrange(2, e - 2) =~= t.subrange(2, k + 2));
        assert(src[e - 2] == t.skip(2)[k]);
        assert(src[e - 1] == t.skip(2)[k + 1]);
        assert(source_of(scan(t)->Hit_0, src));
    } else if word(t) is Hit {
        lemma_lead_bound(t, Class::NotWhite);
    } else {
        lemma_lead_bound(t, Class::White);
    }
}

proof fn lemma_rendered_all(ts: Seq<TokenView>)
    ensures
        rendered_all(ts) == ts.map_values(|t: TokenView| rendered(t)).flatten_alt(),
    decreases ts.len(),
{
    if ts.len() > 0 {
        lemma_rendered_all(ts.drop_last());
        assert(ts.map_values(|t: TokenView| rendered(t)).drop_last() =~= ts.drop_last().map_values(
            |t: TokenView| rendered(t),
        ));
    }
}

proof fn lemma_tokens_step(s: Seq<char>)
    requires
        s.len() > 0,
        tokens(s) is Ok,
    ensures
        scan(s) is Hit,
        0 < scan(s)->Hit_1 <= s.len(),
        tokens(s.skip(scan(s)->Hit_1 as int)) is Ok,
        tokens(s)->Ok_0 == seq![scan(s)->Hit_0] + tokens(s.skip(scan(s)->Hit_1 as int))->Ok_0,
        pieces(s) == seq![s.take(scan(s)->Hit_1 as int)] + pieces(s.skip(scan(s)->Hit_1 as int)),
{
}

/// Reconstruction: the spans that the tokens of a parsed input are read from
/// are, concatenated, the input itself, so every character belongs to exactly
/// one token; each span is the token's markup around its payload; and the
/// rendered prose is the tokens' rendered payloads, concatenated in order.
pub proof fn reconstruction(s: Seq<char>)
    requires
        tokens(s) is Ok,
    ensures
        pieces(s).len() == tokens(s)->Ok_0.len(),
        pieces(s).flatten() == s,
        forall|k: int|
            0 <= k < pieces(s).len() ==> source_of(tokens(s)->Ok_0[k], #[trigger] pieces(s)[k]),
        rendered_all(tokens(s)->Ok_0) == tokens(s)->Ok_0.map_values(
            |t: TokenView| rendered(t),
        ).flatten(),
    decreases s.len(),
{
    let ts = tokens(s)->Ok_0;
    lemma_rendered_all(ts);
    ts.map_values(|t: TokenView| rendered(t)).lemma_flatten_and_flatten_alt_are_equivalent();
    if s.len() > 0 {
        lemma_tokens_step(s);
        let n = scan(s)->Hit_1 as int;
        let rest = s.skip(n);
        reconstruction(rest);
        lemma_scan_source(s);
        let ps = pieces(s);
        assert(ps.drop_first() =~= pieces(rest));
        assert(s.take(n) + rest =~= s);
        assert forall|k: int| 0 <= k < ps.len() implies source_of(ts[k], #[trigger] ps[k]) by {
            if k > 0 {
                assert(ps[k] == pieces(rest)[k - 1]);
                assert(ts[k] == tokens(rest)->Ok_0[k - 1]);
            }
        }
    } else {
        assert(pieces(s).flatten() =~= s);
    }
}

} // verus!
