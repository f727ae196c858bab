//! The lexical rules, as functions on the bytes of the source.
//!
//! At each offset the rules are tried in a fixed order and the first that
//! matches decides the lexeme: comment, string, number, identifier or keyword,
//! symbol, operator or punctuation, blank space. Each rule takes as many bytes
//! as it can. Where none matches, the character at the offset is an error
//! lexeme, so that a scan always moves on.
use crate::lexer::{TokenKind, TokenView};
use vstd::prelude::*;
use vstd::utf8::decode_utf8;

verus! {

/// `#`
pub const HASH: u8 = 0x23;

/// `"`
pub const QUOTE: u8 = 0x22;

/// `\`
pub const BACKSLASH: u8 = 0x5c;

/// `.`
pub const DOT: u8 = 0x2e;

/// `:`
pub const COLON: u8 = 0x3a;

/// `_`
pub const UNDERSCORE: u8 = 0x5f;

/// `[`
pub const OPEN_BRACKET: u8 = 0x5b;

/// `]`
pub const CLOSE_BRACKET: u8 = 0x5d;

/// `(`
pub const OPEN_PAREN: u8 = 0x28;

/// `)`
pub const CLOSE_PAREN: u8 = 0x29;

/// `,`
pub const COMMA: u8 = 0x2c;

/// `;`
pub const SEMICOLON: u8 = 0x3b;

/// `=`
pub const EQUALS: u8 = 0x3d;

/// `|`
pub const BAR: u8 = 0x7c;

/// `<`
pub const LESS: u8 = 0x3c;

/// `>`
pub const GREATER: u8 = 0x3e;

/// `!`
pub const BANG: u8 = 0x21;

/// `+`
pub const PLUS: u8 = 0x2b;

/// `-`
pub const MINUS: u8 = 0x2d;

/// `*`
pub const STAR: u8 = 0x2a;

/// `/`
pub const SLASH: u8 = 0x2f;

/// A space.
pub const SPACE: u8 = 0x20;

/// A tab.
pub const TAB: u8 = 0x09;

/// A form feed.
pub const FORM_FEED: u8 = 0x0c;

/// A line feed.
pub const LINE_FEED: u8 = 0x0a;

/// `0`
pub const DIGIT_0: u8 = 0x30;

/// `9`
pub const DIGIT_9: u8 = 0x39;

/// `A`
pub const UPPER_A: u8 = 0x41;

/// `Z`
pub const UPPER_Z: u8 = 0x5a;

/// `a`
pub const LOWER_A: u8 = 0x61;

/// `z`
pub const LOWER_Z: u8 = 0x7a;

/// `n`
pub const LOWER_N: u8 = 0x6e;

/// `t`
pub const LOWER_T: u8 = 0x74;

/// `u`
pub const LOWER_U: u8 = 0x75;


/// A set of bytes that a rule repeats.
#[derive(Clone, Copy, Debug, PartialEq, Eq, Structural)]
pub enum ByteClass {
    /// `0` to `9`.
    Digit,
    /// Letters, digits and `_`.
    IdentPart,
    /// Space, tab and form feed.
    Blank,
    /// Line feed.
    Newline,
    /// Anything but `]`.
    BlockBody,
    /// Anything but a line feed.
    LineBody,
    /// The second and later bytes of a character that takes several.
    Continuation,
}

pub open spec fn is_digit(byte: u8) -> bool {
    DIGIT_0 <= byte <= DIGIT_9
}

pub open spec fn is_ident_start(byte: u8) -> bool {
    ||| byte == UNDERSCORE
    ||| UPPER_A <= byte <= UPPER_Z
    ||| LOWER_A <= byte <= LOWER_Z
}

impl ByteClass {
    pub open spec fn holds(self, byte: u8) -> bool {
        match self {
            ByteClass::Digit => is_digit(byte),
            ByteClass::IdentPart => is_ident_start(byte) || is_digit(byte),
            ByteClass::Blank => byte == SPACE || byte == TAB || byte == FORM_FEED,
            ByteClass::Newline => byte == LINE_FEED,
            ByteClass::BlockBody => byte != CLOSE_BRACKET,
            ByteClass::LineBody => byte != LINE_FEED,
            ByteClass::Continuation => 0x80 <= byte <= 0xbf,
        }
    }
}

/// The first offset at or after `pos` whose byte is not in `class`, or the
/// length of `bytes` if there is none.
pub open spec fn run_end(bytes: Seq<u8>, class: ByteClass, pos: int) -> int
    decreases bytes.len() - pos,
{
    if 0 <= pos < bytes.len() && class.holds(bytes[pos]) {
        run_end(bytes, class, pos + 1)
    } else {
        pos
    }
}

/// The offset just past a block comment `#[ ... ]#` that starts at `pos`.
/// The body holds no `]`, so the comment ends at the first `]`, which must be
/// followed by `#`.
pub open spec fn block_comment_end(bytes: Seq<u8>, pos: int) -> Option<int> {
    let close = run_end(bytes, ByteClass::BlockBody, pos + 2);
    if pos + 1 < bytes.len() && bytes[pos] == HASH && bytes[pos + 1] == OPEN_BRACKET && close + 1
        < bytes.len() && bytes[close + 1] == HASH {
        Some(close + 2)
    } else {
        None
    }
}

/// The bytes that may follow a backslash inside a string: `t`, `u`, `n`, `"`.
pub open spec fn is_escape(byte: u8) -> bool {
    byte == LOWER_T || byte == LOWER_U || byte == LOWER_N || byte == QUOTE
}

/// The offset just past the closing quote of a string whose body continues at
/// `pos`, if the body is well formed up to a closing quote.
pub open spec fn string_end(bytes: Seq<u8>, pos: int) -> Option<int>
    decreases bytes.len() - pos,
{
    if pos < 0 || pos >= bytes.len() {
        None
    } else if bytes[pos] == QUOTE {
        Some(pos + 1)
    } else if bytes[pos] == BACKSLASH {
        if pos + 1 < bytes.len() && is_escape(bytes[pos + 1]) {
            string_end(bytes, pos + 2)
        } else {
            None
        }
    } else {
        string_end(bytes, pos + 1)
    }
}

/// The number that the decimal digits in `bytes[from..to]` write.
pub open spec fn decimal(bytes: Seq<u8>, from: int, to: int) -> nat
    decreases to - from,
{
    if to <= from {
        0
    } else {
        decimal(bytes, from, to - 1) * 10 + (bytes[to - 1] - DIGIT_0) as nat
    }
}

/// The keyword that `word` spells, if any: `let`, `end`, `do`, `class` or
/// `responds`.
pub open spec fn keyword(word: Seq<u8>) -> Option<TokenKind> {
    if word == seq![0x6cu8, 0x65, 0x74] {
        // let
        Some(TokenKind::KwLet)
    } else if word == seq![0x65u8, 0x6e, 0x64] {
        // end
        Some(TokenKind::KwEnd)
    } else if word == seq![0x64u8, 0x6f] {
        // do
        Some(TokenKind::KwDo)
    } else if word == seq![0x63u8, 0x6c, 0x61, 0x73, 0x73] {
        // class
        Some(TokenKind::KwClass)
    } else if word == seq![0x72u8, 0x65, 0x73, 0x70, 0x6f, 0x6e, 0x64, 0x73] {
        // responds
        Some(TokenKind::KwResp)
    } else {
        None
    }
}

/// The operator that the two bytes spell, if any.
pub open spec fn operator2(first: u8, second: u8) -> Option<TokenKind> {
    if first == LESS && second == BAR {
        Some(TokenKind::Send)
    } else if first == MINUS && second == GREATER {
        Some(TokenKind::ThinArrow)
    } else if first == EQUALS && second == EQUALS {
        Some(TokenKind::Eq)
    } else if first == BANG && second == EQUALS {
        Some(TokenKind::Neq)
    } else if first == LESS && second == EQUALS {
        Some(TokenKind::Ge)
    } else if first == GREATER && second == EQUALS {
        Some(TokenKind::Le)
    } else {
        None
    }
}

/// The operator or punctuation mark that the byte spells, if any.
pub open spec fn operator1(byte: u8) -> Option<TokenKind> {
    if byte == COMMA {
        Some(TokenKind::Comma)
    } else if byte == SEMICOLON {
        Some(TokenKind::Semicol)
    } else if byte == COLON {
        Some(TokenKind::Colon)
    } else if byte == EQUALS {
        Some(TokenKind::Assign)
    } else if byte == DOT {
        Some(TokenKind::Field)
    } else if byte == BAR {
        Some(TokenKind::Pipe)
    } else if byte == BACKSLASH {
        Some(TokenKind::Lambda)
    } else if byte == PLUS {
        Some(TokenKind::Add)
    } else if byte == MINUS {
        Some(TokenKind::Sub)
    } else if byte == STAR {
        Some(TokenKind::Mul)
    } else if byte == SLASH {
        Some(TokenKind::Div)
    } else if byte == LESS {
        Some(TokenKind::Lt)
    } else if byte == GREATER {
        Some(TokenKind::Gt)
    } else if byte == CLOSE_BRACKET {
        Some(TokenKind::RBracket)
    } else if byte == OPEN_BRACKET {
        Some(TokenKind::LBracket)
    } else if byte == CLOSE_PAREN {
        Some(TokenKind::RParen)
    } else if byte == OPEN_PAREN {
        Some(TokenKind::LParen)
    } else {
        None
    }
}

/// What one lexical rule matched: the kind of token, or `None` for text that
/// is dropped, and the offset just past the match.
pub ghost struct Lexeme {
    pub kind: Option<TokenKind>,
    pub end: int,
}

/// The lexeme that starts at `pos`, for `pos` inside `bytes`.
pub open spec fn lexeme_at(bytes: Seq<u8>, pos: int) -> Lexeme {
    let byte = bytes[pos];
    let digits = run_end(bytes, ByteClass::Digit, pos);
    if byte == HASH {
        match block_comment_end(bytes, pos) {
            Some(end) => Lexeme { kind: None, end: end },
            None => Lexeme { kind: None, end: run_end(bytes, ByteClass::LineBody, pos + 1) },
        }
    } else if byte == QUOTE {
        match string_end(bytes, pos + 1) {
            Some(end) => Lexeme { kind: Some(TokenKind::String), end: end },
            None => Lexeme { kind: Some(TokenKind::Error), end: run_end(bytes, ByteClass::Continuation, pos + 1) },
        }
    } else if digits + 1 < bytes.len() && bytes[digits] == DOT && is_digit(bytes[digits + 1]) {
        Lexeme { kind: Some(TokenKind::Float), end: run_end(bytes, ByteClass::Digit, digits + 1) }
    } else if digits > pos {
        if decimal(bytes, pos, digits) <= i64::MAX {
            Lexeme { kind: Some(TokenKind::Integer), end: digits }
        } else {
            Lexeme { kind: Some(TokenKind::Error), end: digits }
        }
    } else if is_ident_start(byte) {
        let end = run_end(bytes, ByteClass::IdentPart, pos + 1);
        match keyword(bytes.subrange(pos, end)) {
            Some(kind) => Lexeme { kind: Some(kind), end: end },
            None => Lexeme { kind: Some(TokenKind::Ident), end: end },
        }
    } else if byte == COLON && pos + 1 < bytes.len() && is_ident_start(bytes[pos + 1]) {
        Lexeme { kind: Some(TokenKind::Symbol), end: run_end(bytes, ByteClass::IdentPart, pos + 2) }
    } else if pos + 1 < bytes.len() && operator2(byte, bytes[pos + 1]) is Some {
        Lexeme { kind: operator2(byte, bytes[pos + 1]), end: pos + 2 }
    } else if operator1(byte) is Some {
        Lexeme { kind: operator1(byte), end: pos + 1 }
    } else if ByteClass::Blank.holds(byte) {
        Lexeme { kind: None, end: run_end(bytes, ByteClass::Blank, pos + 1) }
    } else if ByteClass::Newline.holds(byte) {
        Lexeme { kind: None, end: run_end(bytes, ByteClass::Newline, pos + 1) }
    } else {
        Lexeme { kind: Some(TokenKind::Error), end: run_end(bytes, ByteClass::Continuation, pos + 1) }
    }
}

/// The token of kind `kind` that is read from `bytes[start..end]`.
pub open spec fn token_of(bytes: Seq<u8>, kind: TokenKind, start: int, end: int) -> TokenView {
    TokenView {
        kind,
        text: match kind {
            TokenKind::String | TokenKind::Float | TokenKind::Ident => decode_utf8(
                bytes.subrange(start, end),
            ),
            TokenKind::Symbol => decode_utf8(bytes.subrange(start + 1, end)),
            _ => Seq::empty(),
        },
        value: match kind {
            TokenKind::Integer => decimal(bytes, start, end) as int,
            _ => 0,
        },
    }
}

/// A token with the offsets of the text it was read from.
pub ghost struct Placed {
    pub token: TokenView,
    pub start: int,
    pub end: int,
}

/// The tokens of `bytes` from offset `pos` on, in order.
pub open spec fn tokens_from(bytes: Seq<u8>, pos: int) -> Seq<Placed>
    decreases bytes.len() - pos,
{
    if pos < 0 || pos >= bytes.len() {
        Seq::empty()
    } else {
        let lexeme = lexeme_at(bytes, pos);
        if lexeme.end <= pos || lexeme.end > bytes.len() {
            Seq::empty()
        } else {
            match lexeme.kind {
                Some(kind) => seq![
                    Placed {
                        token: token_of(bytes, kind, pos, lexeme.end),
                        start: pos,
                        end: lexeme.end,
                    },
                ] + tokens_from(bytes, lexeme.end),
                None => tokens_from(bytes, lexeme.end),
            }
        }
    }
}

/// The tokens of a whole source.
pub open spec fn tokens(bytes: Seq<u8>) -> Seq<Placed> {
    tokens_from(bytes, 0)
}

} // verus!
