//! The tokens of a recipe and the prose they render to.
use vstd::prelude::*;

verus! {

/// One recognized unit of a recipe. Every payload is a span of the parsed text.
#[derive(Debug, Clone, Copy, PartialEq, Eq)]
pub enum Token<'a> {
    Metadata { key: &'a str, value: &'a str },
    Ingredient { name: &'a str, amount: Option<&'a str> },
    Timer(&'a str),
    Material(&'a str),
    Word(&'a str),
    Space(&'a str),
    Comment(&'a str),
    Backstory(&'a str),
}

/// The mathematical value of a [`Token`]: its variant and the characters of its payloads.
pub enum TokenView {
    Metadata { key: Seq<char>, value: Seq<char> },
    Ingredient { name: Seq<char>, amount: Option<Seq<char>> },
    Timer(Seq<char>),
    Material(Seq<char>),
    Word(Seq<char>),
    Space(Seq<char>),
    Comment(Seq<char>),
    Backstory(Seq<char>),
}

impl<'a> View for Token<'a> {
    type V = TokenView;

    open spec fn view(&self) -> TokenView {
        match *self {
            Token::Metadata { key, value } => TokenView::Metadata { key: key@, value: value@ },
            Token::Ingredient { name, amount } => TokenView::Ingredient {
                name: name@,
                amount: match amount {
                    Some(a) => Some(a@),
                    None => None,
                },
            },
            Token::Timer(d) => TokenView::Timer(d@),
            Token::Material(m) => TokenView::Material(m@),
            Token::Word(w) => TokenView::Word(w@),
            Token::Space(w) => TokenView::Space(w@),
            Token::Comment(c) => TokenView::Comment(c@),
            Token::Backstory(b) => TokenView::Backstory(b@),
        }
    }
}

/// The views of a sequence of tokens.
pub open spec fn views<'a>(ts: Seq<Token<'a>>) -> Seq<TokenView> {
    ts.map_values(|t: Token<'a>| t@)
}

/// What a token contributes to the prose: an ingredient its name, metadata and
/// comments nothing, every other token its payload.
pub open spec fn rendered(t: TokenView) -> Seq<char> {
    match t {
        TokenView::Ingredient { name, .. } => name,
        TokenView::Timer(v) => v,
        TokenView::Material(v) => v,
        TokenView::Word(v) => v,
        TokenView::Space(v) => v,
        TokenView::Backstory(v) => v,
        TokenView::Metadata { .. } => Seq::empty(),
        TokenView::Comment(_) => Seq::empty(),
    }
}

/// The prose of a token sequence: the rendered tokens, concatenated in order.
pub open spec fn rendered_all(ts: Seq<TokenView>) -> Seq<char>
    decreases ts.len(),
{
    if ts.len() == 0 {
        Seq::empty()
    } else {
        rendered_all(ts.drop_last()) + rendered(ts.last())
    }
}

impl<'a> Token<'a> {
    /// The text this token contributes to the prose.
    pub fn render(&self) -> (r: &'a str)
        ensures
            r@ == rendered(self@),
    {
        proof {
            reveal_strlit("");
        }
        match *self {
            Token::Ingredient { name, .. } => name,
            Token::Backstory(v) => v,
            Token::Timer(v) => v,
            Token::Material(v) => v,
            Token::Word(v) => v,
            Token::Space(v) => v,
            Token::Metadata { .. } => "",
            Token::Comment(_) => "",
        }
    }
}

/// The prose of `tokens`: each token rendered, in order.
pub fn render_all(tokens: &Vec<Token>) -> (r: String)
    ensures
        r@ == rendered_all(views(tokens@)),
{
    let mut out = String::new();
    let mut i: usize = 0;
    while i < tokens.len()
        invariant
            i <= tokens.len(),
            out@ == rendered_all(views(tokens@.take(i as int))),
        decreases tokens.len() - i,
    {
        let piece = tokens[i].render();
        out.append(piece);
        proof {
            let next = views(tokens@.take(i + 1));
            assert(next.drop_last() =~= views(tokens@.take(i as int)));
            assert(next.last() == tokens@[i as int]@);
        }
        i = i + 1;
    }
    assert(tokens@.take(tokens.len() as int) =~= tokens@);
    out
}

} // verus!
