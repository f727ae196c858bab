//! Tokens, and the tokenizer that cuts source text into them.
use crate::intern::{canonical, interned};
use crate::lexer::rules::Placed;
use crate::Span;
use internment::Intern;
use vstd::prelude::*;
use vstd::string::StringSliceAdditionalSpecFns;
use vstd::utf8::encode_utf8_decode_utf8;

pub mod laws;
pub mod rules;
pub mod scanner;

pub use scanner::tokenize;



verus! {

/// A classified piece of source text.
///
/// `Comment`, `Whitespace` and `Newline` name text that the tokenizer
/// recognises and drops: they never occur in a token sequence.
#[derive(Clone, Copy, Debug, PartialEq, Eq, Hash)]
pub enum Token<'s> {
    /// `#[ ... ]#`, or `#` up to the end of the line.
    Comment,
    /// A string literal, as written, with its quotes.
    String(&'s str),
    /// A run of decimal digits whose value fits in an `i64`.
    Integer(i64),
    /// A number with a fractional part, as written.
    Float(&'s str),
    /// An identifier.
    Ident(Intern<String>),
    /// An identifier behind a colon; the name is kept without the colon.
    Symbol(Intern<String>),
    /// `,`
    Comma,
    /// `;`
    Semicol,
    /// `:`
    Colon,
    /// `=`
    Assign,
    /// `let`
    KwLet,
    /// `end`
    KwEnd,
    /// `do`
    KwDo,
    /// `class`
    KwClass,
    /// `responds`
    KwResp,
    /// `.`
    Field,
    /// `<|`
    Send,
    /// `|`
    Pipe,
    /// `\`
    Lambda,
    /// `->`
    ThinArrow,
    /// `+`
    Add,
    /// `-`
    Sub,
    /// `*`
    Mul,
    /// `/`
    Div,
    /// `==`
    Eq,
    /// `!=`
    Neq,
    /// `<`
    Lt,
    /// `>`
    Gt,
    /// `<=`. In the token list of the language `Ge` is the name of `<=`.
    Ge,
    /// `>=`. In the token list of the language `Le` is the name of `>=`.
    Le,
    /// `]`
    RBracket,
    /// `[`
    LBracket,
    /// `)`
    RParen,
    /// `(`
    LParen,
    /// Spaces, tabs and form feeds.
    Whitespace,
    /// Line feeds.
    Newline,
    /// Text that no lexical rule matches.
    Error,
}

/// What a token is, without what it carries.
#[derive(Clone, Copy, Debug, PartialEq, Eq, Hash, Structural)]
pub enum TokenKind {
    Comment,
    String,
    Integer,
    Float,
    Ident,
    Symbol,
    Comma,
    Semicol,
    Colon,
    Assign,
    KwLet,
    KwEnd,
    KwDo,
    KwClass,
    KwResp,
    Field,
    Send,
    Pipe,
    Lambda,
    ThinArrow,
    Add,
    Sub,
    Mul,
    Div,
    Eq,
    Neq,
    Lt,
    Gt,
    Ge,
    Le,
    RBracket,
    LBracket,
    RParen,
    LParen,
    Whitespace,
    Newline,
    Error,
}

/// A token as a mathematical value: its kind, the characters it carries (for
/// strings, floats, identifiers and symbols; empty otherwise) and the number
/// it carries (for integers; zero otherwise).
pub ghost struct TokenView {
    pub kind: TokenKind,
    pub text: Seq<char>,
    pub value: int,
}

impl<'s> Token<'s> {
    pub open spec fn spec_kind(&self) -> TokenKind {
        match self {
            Token::Comment => TokenKind::Comment,
            Token::String(_) => TokenKind::String,
            Token::Integer(_) => TokenKind::Integer,
            Token::Float(_) => TokenKind::Float,
            Token::Ident(_) => TokenKind::Ident,
            Token::Symbol(_) => TokenKind::Symbol,
            Token::Comma => TokenKind::Comma,
            Token::Semicol => TokenKind::Semicol,
            Token::Colon => TokenKind::Colon,
            Token::Assign => TokenKind::Assign,
            Token::KwLet => TokenKind::KwLet,
            Token::KwEnd => TokenKind::KwEnd,
            Token::KwDo => TokenKind::KwDo,
            Token::KwClass => TokenKind::KwClass,
            Token::KwResp => TokenKind::KwResp,
            Token::Field => TokenKind::Field,
            Token::Send => TokenKind::Send,
            Token::Pipe => TokenKind::Pipe,
            Token::Lambda => TokenKind::Lambda,
            Token::ThinArrow => TokenKind::ThinArrow,
            Token::Add => TokenKind::Add,
            Token::Sub => TokenKind::Sub,
            Token::Mul => TokenKind::Mul,
            Token::Div => TokenKind::Div,
            Token::Eq => TokenKind::Eq,
            Token::Neq => TokenKind::Neq,
            Token::Lt => TokenKind::Lt,
            Token::Gt => TokenKind::Gt,
            Token::Ge => TokenKind::Ge,
            Token::Le => TokenKind::Le,
            Token::RBracket => TokenKind::RBracket,
            Token::LBracket => TokenKind::LBracket,
            Token::RParen => TokenKind::RParen,
            Token::LParen => TokenKind::LParen,
            Token::Whitespace => TokenKind::Whitespace,
            Token::Newline => TokenKind::Newline,
            Token::Error => TokenKind::Error,
        }
    }

    /// The kind of this token.
    #[verifier::when_used_as_spec(spec_kind)]
    pub fn kind(&self) -> (kind: TokenKind)
        ensures
            kind == self.spec_kind(),
    {
        match self {
            Token::Comment => TokenKind::Comment,
            Token::String(_) => TokenKind::String,
            Token::Integer(_) => TokenKind::Integer,
            Token::Float(_) => TokenKind::Float,
            Token::Ident(_) => TokenKind::Ident,
            Token::Symbol(_) => TokenKind::Symbol,
            Token::Comma => TokenKind::Comma,
            Token::Semicol => TokenKind::Semicol,
            Token::Colon => TokenKind::Colon,
            Token::Assign => TokenKind::Assign,
            Token::KwLet => TokenKind::KwLet,
            Token::KwEnd => TokenKind::KwEnd,
            Token::KwDo => TokenKind::KwDo,
            Token::KwClass => TokenKind::KwClass,
            Token::KwResp => TokenKind::KwResp,
            Token::Field => TokenKind::Field,
            Token::Send => TokenKind::Send,
            Token::Pipe => TokenKind::Pipe,
            Token::Lambda => TokenKind::Lambda,
            Token::ThinArrow => TokenKind::ThinArrow,
            Token::Add => TokenKind::Add,
            Token::Sub => TokenKind::Sub,
            Token::Mul => TokenKind::Mul,
            Token::Div => TokenKind::Div,
            Token::Eq => TokenKind::Eq,
            Token::Neq => TokenKind::Neq,
            Token::Lt => TokenKind::Lt,
            Token::Gt => TokenKind::Gt,
            Token::Ge => TokenKind::Ge,
            Token::Le => TokenKind::Le,
            Token::RBracket => TokenKind::RBracket,
            Token::LBracket => TokenKind::LBracket,
            Token::RParen => TokenKind::RParen,
            Token::LParen => TokenKind::LParen,
            Token::Whitespace => TokenKind::Whitespace,
            Token::Newline => TokenKind::Newline,
            Token::Error => TokenKind::Error,
        }
    }
}

impl<'s> View for Token<'s> {
    type V = TokenView;

    open spec fn view(&self) -> TokenView {
        TokenView {
            kind: self.spec_kind(),
            text: match self {
                Token::String(text) => text@,
                Token::Float(text) => text@,
                Token::Ident(name) => interned(*name),
                Token::Symbol(name) => interned(*name),
                _ => Seq::empty(),
            },
            value: match self {
                Token::Integer(value) => *value as int,
                _ => 0,
            },
        }
    }
}

/// The tokens as mathematical values, each with the offsets of its span.
pub open spec fn placed<'s, 'p>(tokens: Seq<(Token<'s>, Span<'p>)>) -> Seq<Placed> {
    tokens.map_values(
        |item: (Token<'s>, Span<'p>)|
            Placed { token: item.0@, start: item.1.start as int, end: item.1.end as int },
    )
}

/// The spans are well formed, lie in one source, and stand in the order in
/// which a reader meets them going from left to right.
pub open spec fn in_order<'s, 'p>(tokens: Seq<(Token<'s>, Span<'p>)>) -> bool {
    &&& forall|i: int| 0 <= i < tokens.len() ==> (#[trigger] tokens[i]).1.wf()
    &&& forall|i: int, j: int|
        0 <= i < j < tokens.len() ==> (#[trigger] tokens[i]).1.precedes((#[trigger] tokens[j]).1)
}

/// Every identifier and every symbol among the tokens carries the one
/// interned name of its spelling.
pub open spec fn names_interned<'s, 'p>(tokens: Seq<(Token<'s>, Span<'p>)>) -> bool {
    forall|i: int|
        0 <= i < tokens.len() ==> match (#[trigger] tokens[i]).0 {
            Token::Ident(name) => canonical(name),
            Token::Symbol(name) => canonical(name),
            _ => true,
        }
}

/// Whether two source names are the same text.
fn same_text(first: &str, second: &str) -> (same: bool)
    ensures
        same == (first@ == second@),
{
    let left = first.as_bytes();
    let right = second.as_bytes();
    proof {
        encode_utf8_decode_utf8(first@);
        encode_utf8_decode_utf8(second@);
    }
    if left.len() != right.len() {
        return false;
    }
    let mut at: usize = 0;
    while at < left.len()
        invariant
            left@ == first.spec_bytes(),
            right@ == second.spec_bytes(),
            left@.len() == right@.len(),
            at <= left@.len(),
            forall|k: int| 0 <= k < at ==> left@[k] == right@[k],
        decreases left@.len() - at,
    {
        if left[at] != right[at] {
            return false;
        }
        at += 1;
    }
    assert(left@ =~= right@);
    true
}

/// Whether the spans of `tokens` are in order: what [`in_order`] states,
/// found out by looking at each span and its neighbour.
pub fn check_order<'s, 'p>(tokens: &[(Token<'s>, Span<'p>)]) -> (ok: bool)
    ensures
        ok == in_order(tokens@),
{
    let mut at: usize = 0;
    while at < tokens.len()
        invariant
            at <= tokens@.len(),
            forall|i: int| 0 <= i < at ==> (#[trigger] tokens@[i]).1.wf(),
            forall|i: int, j: int|
                0 <= i < j < at ==> (#[trigger] tokens@[i]).1.precedes((#[trigger] tokens@[j]).1),
        decreases tokens@.len() - at,
    {
        let span = tokens[at].1;
        if span.start > span.end {
            return false;
        }
        if at > 0 {
            let before = tokens[at - 1].1;
            if !same_text(before.file, span.file) || before.start > span.start || before.end
                > span.end {
                assert(!tokens@[at - 1].1.precedes(tokens@[at as int].1));
                return false;
            }
            assert forall|i: int| 0 <= i < at implies (#[trigger] tokens@[i]).1.precedes(
                tokens@[at as int].1,
            ) by {
                if i < at - 1 {
                    assert(tokens@[i].1.precedes(tokens@[at - 1].1));
                }
            }
        }
        at += 1;
    }
    true
}

} // verus!
