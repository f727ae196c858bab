//! The tokenizer: the lexical rules, run over a source.
use crate::intern::intern;
use crate::lexer::laws::{
    lemma_boundary_after_ascii, lemma_decimal_grows, lemma_run_end, lemma_tokens_in_order,
};
use crate::lexer::rules::{
    BACKSLASH, BANG, BAR, CLOSE_BRACKET, CLOSE_PAREN, COLON, COMMA, DIGIT_0, DIGIT_9, DOT, EQUALS,
    FORM_FEED, GREATER, HASH, LESS, LINE_FEED, LOWER_A, LOWER_N, LOWER_T, LOWER_U, LOWER_Z, MINUS,
    OPEN_BRACKET, OPEN_PAREN, PLUS, QUOTE, SEMICOLON, SLASH, SPACE, STAR, TAB, UNDERSCORE, UPPER_A,
    UPPER_Z,
    block_comment_end, decimal, is_digit, keyword, lexeme_at, operator1, operator2, run_end,
    string_end, token_of, tokens, tokens_from, ByteClass, Placed,
};
use crate::lexer::{in_order, names_interned, placed, Token, TokenKind, TokenView};
use crate::Span;
use vstd::prelude::*;
use vstd::string::StringSliceAdditionalSpecFns;
use vstd::utf8::{
    decode_utf8, encode_utf8_decode_utf8, encode_utf8_valid_utf8, is_char_boundary,
    is_char_boundary_iff_not_is_continuation_byte, is_char_boundary_start_end_of_seq, valid_utf8,
};

verus! {

impl ByteClass {
    /// Whether `byte` belongs to the class.
    pub fn contains(self, byte: u8) -> (found: bool)
        ensures
            found == self.holds(byte),
    {
        match self {
            ByteClass::Digit => DIGIT_0 <= byte && byte <= DIGIT_9,
            ByteClass::IdentPart => byte == UNDERSCORE || (UPPER_A <= byte && byte <= UPPER_Z) || (LOWER_A <= byte
                && byte <= LOWER_Z) || (DIGIT_0 <= byte && byte <= DIGIT_9),
            ByteClass::Blank => byte == SPACE || byte == TAB || byte == FORM_FEED,
            ByteClass::Newline => byte == LINE_FEED,
            ByteClass::BlockBody => byte != CLOSE_BRACKET,
            ByteClass::LineBody => byte != LINE_FEED,
            ByteClass::Continuation => 0x80 <= byte && byte <= 0xbf,
        }
    }
}

/// The end of the run of bytes of `class` that starts at `pos`.
pub fn skip_run(bytes: &[u8], class: ByteClass, pos: usize) -> (end: usize)
    requires
        pos <= bytes@.len(),
    ensures
        end == run_end(bytes@, class, pos as int),
        pos <= end <= bytes@.len(),
{
    let mut end: usize = pos;
    while end < bytes.len() && class.contains(bytes[end])
        invariant
            pos <= end <= bytes@.len(),
            run_end(bytes@, class, pos as int) == run_end(bytes@, class, end as int),
        decreases bytes@.len() - end,
    {
        end += 1;
    }
    end
}

/// The end of the block comment that starts at `pos`, if one does.
pub fn scan_block_comment(bytes: &[u8], pos: usize) -> (end: Option<usize>)
    requires
        pos < bytes@.len(),
    ensures
        match end {
            Some(end) => block_comment_end(bytes@, pos as int) == Some(end as int) && pos < end
                <= bytes@.len(),
            None => block_comment_end(bytes@, pos as int) is None,
        },
{
    if bytes.len() - pos < 2 || bytes[pos] != HASH || bytes[pos + 1] != OPEN_BRACKET {
        return None;
    }
    let close = skip_run(bytes, ByteClass::BlockBody, pos + 2);
    if bytes.len() - close >= 2 && bytes[close + 1] == HASH {
        Some(close + 2)
    } else {
        None
    }
}

/// The end of the string whose body continues at `pos`, if it closes.
pub fn scan_string(bytes: &[u8], pos: usize) -> (end: Option<usize>)
    requires
        pos <= bytes@.len(),
    ensures
        match end {
            Some(end) => string_end(bytes@, pos as int) == Some(end as int) && pos < end
                <= bytes@.len() && bytes@[end - 1] == QUOTE,
            None => string_end(bytes@, pos as int) is None,
        },
{
    let mut at: usize = pos;
    while at < bytes.len()
        invariant
            pos <= at <= bytes@.len(),
            string_end(bytes@, pos as int) == string_end(bytes@, at as int),
        decreases bytes@.len() - at,
    {
        let byte = bytes[at];
        if byte == QUOTE {
            return Some(at + 1);
        } else if byte == BACKSLASH {
            if bytes.len() - at >= 2 && (bytes[at + 1] == LOWER_T || bytes[at + 1] == LOWER_U || bytes[at
                + 1] == LOWER_N || bytes[at + 1] == QUOTE) {
                at += 2;
            } else {
                return None;
            }
        } else {
            at += 1;
        }
    }
    None
}

/// The number that the digits in `bytes[from..to]` write, if it fits in an
/// `i64`.
pub fn parse_decimal(bytes: &[u8], from: usize, to: usize) -> (number: Option<i64>)
    requires
        from <= to <= bytes@.len(),
        forall|k: int| from <= k < to ==> is_digit(#[trigger] bytes@[k]),
    ensures
        match number {
            Some(number) => number == decimal(bytes@, from as int, to as int),
            None => decimal(bytes@, from as int, to as int) > i64::MAX,
        },
{
    let mut number: i64 = 0;
    let mut at: usize = from;
    while at < to
        invariant
            from <= at <= to <= bytes@.len(),
            forall|k: int| from <= k < to ==> is_digit(#[trigger] bytes@[k]),
            0 <= number,
            number == decimal(bytes@, from as int, at as int),
        decreases to - at,
    {
        let digit: i64 = (bytes[at] - DIGIT_0) as i64;
        assert(decimal(bytes@, from as int, at + 1) == number * 10 + digit);
        if number > (i64::MAX - digit) / 10 {
            proof {
                lemma_decimal_grows(bytes@, from as int, at + 1, to as int);
            }
            return None;
        }
        number = number * 10 + digit;
        at += 1;
    }
    Some(number)
}

/// The keyword that `bytes[from..to]` spells, if any.
pub fn keyword_at(bytes: &[u8], from: usize, to: usize) -> (kind: Option<TokenKind>)
    requires
        from <= to <= bytes@.len(),
    ensures
        kind == keyword(bytes@.subrange(from as int, to as int)),
{
    let ghost word = bytes@.subrange(from as int, to as int);
    let len = to - from;
    if len == 3 && bytes[from] == 0x6c && bytes[from + 1] == 0x65 && bytes[from + 2] == 0x74 {
        // let
        assert(word =~= seq![0x6cu8, 0x65, 0x74]);
        Some(TokenKind::KwLet)
    } else if len == 3 && bytes[from] == 0x65 && bytes[from + 1] == 0x6e && bytes[from + 2]
        == 0x64 {
        // end
        assert(word =~= seq![0x65u8, 0x6e, 0x64]);
        Some(TokenKind::KwEnd)
    } else if len == 2 && bytes[from] == 0x64 && bytes[from + 1] == 0x6f {
        // do
        assert(word =~= seq![0x64u8, 0x6f]);
        Some(TokenKind::KwDo)
    } else if len == 5 && bytes[from] == 0x63 && bytes[from + 1] == 0x6c && bytes[from + 2]
        == 0x61 && bytes[from + 3] == 0x73 && bytes[from + 4] == 0x73 {
        // class
        assert(word =~= seq![0x63u8, 0x6c, 0x61, 0x73, 0x73]);
        Some(TokenKind::KwClass)
    } else if len == 8 && bytes[from] == 0x72 && bytes[from + 1] == 0x65 && bytes[from + 2]
        == 0x73 && bytes[from + 3] == 0x70 && bytes[from + 4] == 0x6f && bytes[from + 5] == 0x6e
        && bytes[from + 6] == 0x64 && bytes[from + 7] == 0x73 {
        // responds
        assert(word =~= seq![0x72u8, 0x65, 0x73, 0x70, 0x6f, 0x6e, 0x64, 0x73]);
        Some(TokenKind::KwResp)
    } else {
        assert(word.len() == len);
        assert(forall|k: int| 0 <= k < len ==> word[k] == bytes@[from + k]);
        None
    }
}

/// The operator that two bytes spell, if any.
pub fn operator2_of(first: u8, second: u8) -> (kind: Option<TokenKind>)
    ensures
        kind == operator2(first, second),
{
    if first == LESS && second == BAR {
        Some(TokenKind::Send)
    } else if first == MINUS && second == GREATER {
        Some(TokenKind::ThinArrow)
    } else if first == EQUALS && second == EQUALS {
        Some(TokenKind::Eq)
    } else if first == BANG && second == EQUALS {
        Some(TokenKind::Neq)
    } else if first == LESS && second == EQUALS {
        Some(TokenKind::Ge)
    } else if first == GREATER && second == EQUALS {
        Some(TokenKind::Le)
    } else {
        None
    }
}

/// The operator or punctuation mark that one byte spells, if any.
pub fn operator1_of(byte: u8) -> (kind: Option<TokenKind>)
    ensures
        kind == operator1(byte),
{
    if byte == COMMA {
        Some(TokenKind::Comma)
    } else if byte == SEMICOLON {
        Some(TokenKind::Semicol)
    } else if byte == COLON {
        Some(TokenKind::Colon)
    } else if byte == EQUALS {
        Some(TokenKind::Assign)
    } else if byte == DOT {
        Some(TokenKind::Field)
    } else if byte == BAR {
        Some(TokenKind::Pipe)
    } else if byte == BACKSLASH {
        Some(TokenKind::Lambda)
    } else if byte == PLUS {
        Some(TokenKind::Add)
    } else if byte == MINUS {
        Some(TokenKind::Sub)
    } else if byte == STAR {
        Some(TokenKind::Mul)
    } else if byte == SLASH {
        Some(TokenKind::Div)
    } else if byte == LESS {
        Some(TokenKind::Lt)
    } else if byte == GREATER {
        Some(TokenKind::Gt)
    } else if byte == CLOSE_BRACKET {
        Some(TokenKind::RBracket)
    } else if byte == OPEN_BRACKET {
        Some(TokenKind::LBracket)
    } else if byte == CLOSE_PAREN {
        Some(TokenKind::RParen)
    } else if byte == OPEN_PAREN {
        Some(TokenKind::LParen)
    } else {
        None
    }
}

/// The kinds of token that carry a piece of the source text.
pub open spec fn carries_text(kind: TokenKind) -> bool {
    kind is String || kind is Float || kind is Ident || kind is Symbol
}

/// What the scanner found at an offset.
pub struct Scanned {
    /// The kind of token, or `None` for text that is dropped.
    pub kind: Option<TokenKind>,
    /// The offset just past the lexeme.
    pub end: usize,
    /// The number written, for an integer; zero otherwise.
    pub value: i64,
}

/// The lexeme that starts at `pos`.
pub fn scan(bytes: &[u8], pos: usize) -> (found: Scanned)
    requires
        pos < bytes@.len(),
    ensures
        found.kind == lexeme_at(bytes@, pos as int).kind,
        found.end == lexeme_at(bytes@, pos as int).end,
        pos < found.end <= bytes@.len(),
        found.kind == Some(TokenKind::Integer) ==> found.value == decimal(
            bytes@,
            pos as int,
            found.end as int,
        ),
        found.kind matches Some(kind) && carries_text(kind) ==> bytes@[pos as int] < 0x80
            && bytes@[found.end - 1] < 0x80,
        found.kind == Some(TokenKind::Symbol) ==> pos + 1 < found.end && bytes@[pos + 1] < 0x80,
{
    let byte = bytes[pos];
    let digits = skip_run(bytes, ByteClass::Digit, pos);
    proof {
        lemma_run_end(bytes@, ByteClass::Digit, pos as int);
    }
    if byte == HASH {
        match scan_block_comment(bytes, pos) {
            Some(end) => Scanned { kind: None, end, value: 0 },
            None => {
                let end = skip_run(bytes, ByteClass::LineBody, pos + 1);
                Scanned { kind: None, end, value: 0 }
            },
        }
    } else if byte == QUOTE {
        match scan_string(bytes, pos + 1) {
            Some(end) => Scanned { kind: Some(TokenKind::String), end, value: 0 },
            None => {
                let end = skip_run(bytes, ByteClass::Continuation, pos + 1);
                Scanned { kind: Some(TokenKind::Error), end, value: 0 }
            },
        }
    } else if bytes.len() - digits >= 2 && bytes[digits] == DOT && ByteClass::Digit.contains(
        bytes[digits + 1],
    ) {
        let end = skip_run(bytes, ByteClass::Digit, digits + 1);
        proof {
            lemma_run_end(bytes@, ByteClass::Digit, digits + 1);
        }
        Scanned { kind: Some(TokenKind::Float), end, value: 0 }
    } else if digits > pos {
        match parse_decimal(bytes, pos, digits) {
            Some(value) => Scanned { kind: Some(TokenKind::Integer), end: digits, value },
            None => Scanned { kind: Some(TokenKind::Error), end: digits, value: 0 },
        }
    } else if byte == UNDERSCORE || (UPPER_A <= byte && byte <= UPPER_Z) || (LOWER_A <= byte && byte <= LOWER_Z) {
        let end = skip_run(bytes, ByteClass::IdentPart, pos + 1);
        proof {
            lemma_run_end(bytes@, ByteClass::IdentPart, pos + 1);
        }
        match keyword_at(bytes, pos, end) {
            Some(kind) => Scanned { kind: Some(kind), end, value: 0 },
            None => Scanned { kind: Some(TokenKind::Ident), end, value: 0 },
        }
    } else if byte == COLON && bytes.len() - pos >= 2 && (bytes[pos + 1] == UNDERSCORE || (UPPER_A
        <= bytes[pos + 1] && bytes[pos + 1] <= UPPER_Z) || (LOWER_A <= bytes[pos + 1] && bytes[pos + 1]
        <= LOWER_Z)) {
        let end = skip_run(bytes, ByteClass::IdentPart, pos + 2);
        proof {
            lemma_run_end(bytes@, ByteClass::IdentPart, pos + 2);
        }
        Scanned { kind: Some(TokenKind::Symbol), end, value: 0 }
    } else {
        let double = if bytes.len() - pos >= 2 {
            operator2_of(byte, bytes[pos + 1])
        } else {
            None
        };
        let single = operator1_of(byte);
        if double.is_some() {
            Scanned { kind: double, end: pos + 2, value: 0 }
        } else if single.is_some() {
            Scanned { kind: single, end: pos + 1, value: 0 }
        } else if ByteClass::Blank.contains(byte) {
            let end = skip_run(bytes, ByteClass::Blank, pos + 1);
            Scanned { kind: None, end, value: 0 }
        } else if ByteClass::Newline.contains(byte) {
            let end = skip_run(bytes, ByteClass::Newline, pos + 1);
            Scanned { kind: None, end, value: 0 }
        } else {
            let end = skip_run(bytes, ByteClass::Continuation, pos + 1);
            Scanned { kind: Some(TokenKind::Error), end, value: 0 }
        }
    }
}

/// The piece of `source` between two offsets that fall between characters.
pub fn slice<'s>(source: &'s str, from: usize, to: usize) -> (text: &'s str)
    requires
        from <= to <= source.spec_bytes().len(),
        is_char_boundary(source.spec_bytes(), from as int),
        is_char_boundary(source.spec_bytes(), to as int),
    ensures
        text.spec_bytes() == source.spec_bytes().subrange(from as int, to as int),
        text@ == decode_utf8(source.spec_bytes().subrange(from as int, to as int)),
{
    let (head, _) = source.split_at(to);
    proof {
        encode_utf8_valid_utf8(source@);
        encode_utf8_valid_utf8(head@);
        if from < to {
            is_char_boundary_iff_not_is_continuation_byte(source.spec_bytes(), from as int);
            is_char_boundary_iff_not_is_continuation_byte(head.spec_bytes(), from as int);
        } else {
            is_char_boundary_start_end_of_seq(head.spec_bytes());
        }
    }
    let (_, text) = head.split_at(from);
    proof {
        encode_utf8_decode_utf8(text@);
        assert(text.spec_bytes() =~= source.spec_bytes().subrange(from as int, to as int));
    }
    text
}

/// The token of a kind that carries neither text nor a number.
pub fn plain<'s>(kind: TokenKind) -> (token: Token<'s>)
    requires
        !carries_text(kind),
        !(kind is Integer),
    ensures
        token@ == (TokenView { kind, text: Seq::empty(), value: 0 }),
{
    match kind {
        TokenKind::Comment => Token::Comment,
        TokenKind::Comma => Token::Comma,
        TokenKind::Semicol => Token::Semicol,
        TokenKind::Colon => Token::Colon,
        TokenKind::Assign => Token::Assign,
        TokenKind::KwLet => Token::KwLet,
        TokenKind::KwEnd => Token::KwEnd,
        TokenKind::KwDo => Token::KwDo,
        TokenKind::KwClass => Token::KwClass,
        TokenKind::KwResp => Token::KwResp,
        TokenKind::Field => Token::Field,
        TokenKind::Send => Token::Send,
        TokenKind::Pipe => Token::Pipe,
        TokenKind::Lambda => Token::Lambda,
        TokenKind::ThinArrow => Token::ThinArrow,
        TokenKind::Add => Token::Add,
        TokenKind::Sub => Token::Sub,
        TokenKind::Mul => Token::Mul,
        TokenKind::Div => Token::Div,
        TokenKind::Eq => Token::Eq,
        TokenKind::Neq => Token::Neq,
        TokenKind::Lt => Token::Lt,
        TokenKind::Gt => Token::Gt,
        TokenKind::Ge => Token::Ge,
        TokenKind::Le => Token::Le,
        TokenKind::RBracket => Token::RBracket,
        TokenKind::LBracket => Token::LBracket,
        TokenKind::RParen => Token::RParen,
        TokenKind::LParen => Token::LParen,
        TokenKind::Whitespace => Token::Whitespace,
        TokenKind::Newline => Token::Newline,
        _ => Token::Error,
    }
}

/// The tokens of `source`, in order, each with its span in the source named
/// `file`. Comments and blank space are dropped; text that no rule matches
/// becomes an `Error` token, and the scan goes on behind it.
pub fn tokenize<'s, 'p>(source: &'s str, file: &'p str) -> (found: Vec<(Token<'s>, Span<'p>)>)
    ensures
        placed(found@) == tokens(source.spec_bytes()),
        forall|i: int| 0 <= i < found@.len() ==> (#[trigger] found@[i]).1.file == file,
        in_order(found@),
        names_interned(found@),
{
    let bytes = source.as_bytes();
    let mut found: Vec<(Token<'s>, Span<'p>)> = Vec::new();
    let mut pos: usize = 0;
    proof {
        encode_utf8_valid_utf8(source@);
    }
    while pos < bytes.len()
        invariant
            bytes@ == source.spec_bytes(),
            valid_utf8(bytes@),
            pos <= bytes@.len(),
            placed(found@) + tokens_from(bytes@, pos as int) == tokens(bytes@),
            forall|i: int| 0 <= i < found@.len() ==> (#[trigger] found@[i]).1.file == file,
            names_interned(found@),
        decreases bytes@.len() - pos,
    {
        let lexeme = scan(bytes, pos);
        let end = lexeme.end;
        match lexeme.kind {
            None => {},
            Some(kind) => {
                proof {
                    if carries_text(kind) {
                        is_char_boundary_iff_not_is_continuation_byte(bytes@, pos as int);
                        lemma_boundary_after_ascii(bytes@, end - 1);
                        if kind is Symbol {
                            is_char_boundary_iff_not_is_continuation_byte(bytes@, pos + 1);
                        }
                    }
                }
                let token = match kind {
                    TokenKind::String => Token::String(slice(source, pos, end)),
                    TokenKind::Float => Token::Float(slice(source, pos, end)),
                    TokenKind::Ident => Token::Ident(intern(slice(source, pos, end).to_owned())),
                    TokenKind::Symbol => Token::Symbol(
                        intern(slice(source, pos + 1, end).to_owned()),
                    ),
                    TokenKind::Integer => Token::Integer(lexeme.value),
                    _ => plain(kind),
                };
                let ghost before = found@;
                found.push((token, Span { file, start: pos, end }));
                proof {
                    let item = Placed {
                        token: token_of(bytes@, kind, pos as int, end as int),
                        start: pos as int,
                        end: end as int,
                    };
                    assert(token@ == item.token);
                    assert(placed(found@) =~= placed(before).push(item));
                    assert(placed(before).push(item) + tokens_from(bytes@, end as int) =~= placed(
                        before,
                    ) + (seq![item] + tokens_from(bytes@, end as int)));
                }
            },
        }
        pos = end;
    }
    proof {
        lemma_tokens_in_order(bytes@, 0);
        assert(placed(found@) =~= tokens(bytes@));
        assert forall|i: int, j: int| 0 <= i < j < found@.len() implies (#[trigger] found@[i]).1.precedes(
            (#[trigger] found@[j]).1,
        ) by {
            assert(placed(found@)[i].end <= placed(found@)[j].start);
        }
        assert forall|i: int| 0 <= i < found@.len() implies (#[trigger] found@[i]).1.wf() by {
            assert(placed(found@)[i].start < placed(found@)[i].end);
        }
    }
    found
}

} // verus!
