use chainmail::lexer::{check_order, tokenize, Token, TokenKind};
use chainmail::Span;
use internment::Intern;

fn name(text: &str) -> Intern<String> {
    Intern::new(text.to_string())
}

fn kinds(source: &str) -> Vec<TokenKind> {
    tokenize(source, "test").iter().map(|item| item.0.kind()).collect()
}

fn at(start: usize, end: usize) -> Span<'static> {
    Span::new("test", start..end)
}

#[test]
fn empty_source_has_no_tokens() {
    assert_eq!(tokenize("", "test"), vec![]);
}

#[test]
fn blank_space_and_comments_alone_give_no_tokens() {
    assert_eq!(tokenize(" \t\x0c\n\n# a comment\n#[ a\nblock ]#  ", "test"), vec![]);
}

#[test]
fn arithmetic_tokens_with_spans() {
    assert_eq!(
        tokenize("1 + 2 * 3", "test"),
        vec![
            (Token::Integer(1), at(0, 1)),
            (Token::Add, at(2, 3)),
            (Token::Integer(2), at(4, 5)),
            (Token::Mul, at(6, 7)),
            (Token::Integer(3), at(8, 9)),
        ]
    );
}

#[test]
fn spans_name_the_source_they_were_given() {
    let found = tokenize("a b", "other.cm");
    assert_eq!(found.len(), 2);
    assert_eq!(found[0].1.context(), "other.cm");
    assert_eq!(found[1].1, Span::new("other.cm", 2..3));
}

#[test]
fn keywords_are_told_from_identifiers() {
    assert_eq!(
        tokenize("let letx end do class responds classy _let", "test"),
        vec![
            (Token::KwLet, at(0, 3)),
            (Token::Ident(name("letx")), at(4, 8)),
            (Token::KwEnd, at(9, 12)),
            (Token::KwDo, at(13, 15)),
            (Token::KwClass, at(16, 21)),
            (Token::KwResp, at(22, 30)),
            (Token::Ident(name("classy")), at(31, 37)),
            (Token::Ident(name("_let")), at(38, 42)),
        ]
    );
}

#[test]
fn identifiers_are_interned_by_spelling() {
    let found = tokenize("abc abd abc", "test");
    let names: Vec<Intern<String>> = found
        .iter()
        .map(|item| match item.0 {
            Token::Ident(name) => name,
            _ => panic!("not an identifier"),
        })
        .collect();
    assert_eq!(names.len(), 3);
    assert_eq!(names[0].as_str(), "abc");
    assert_eq!(names[1].as_str(), "abd");
    assert_eq!(names[0], names[2]);
    assert_ne!(names[0], names[1]);
}

#[test]
fn identifier_with_digits_and_underscores() {
    assert_eq!(tokenize("a1_b2", "test"), vec![(Token::Ident(name("a1_b2")), at(0, 5))]);
}

#[test]
fn symbol_keeps_the_name_without_the_colon() {
    assert_eq!(
        tokenize(":ok : ok :_x1 :1", "test"),
        vec![
            (Token::Symbol(name("ok")), at(0, 3)),
            (Token::Colon, at(4, 5)),
            (Token::Ident(name("ok")), at(6, 8)),
            (Token::Symbol(name("_x1")), at(9, 13)),
            (Token::Colon, at(14, 15)),
            (Token::Integer(1), at(15, 16)),
        ]
    );
}

#[test]
fn numbers() {
    assert_eq!(
        tokenize("12 1.5 .5 1. 007 1.2.3", "test"),
        vec![
            (Token::Integer(12), at(0, 2)),
            (Token::Float("1.5"), at(3, 6)),
            (Token::Float(".5"), at(7, 9)),
            (Token::Integer(1), at(10, 11)),
            (Token::Field, at(11, 12)),
            (Token::Integer(7), at(13, 16)),
            (Token::Float("1.2"), at(17, 20)),
            (Token::Float(".3"), at(20, 22)),
        ]
    );
}

#[test]
fn largest_integer_is_read() {
    assert_eq!(
        tokenize("9223372036854775807", "test"),
        vec![(Token::Integer(i64::MAX), at(0, 19))]
    );
}

#[test]
fn integer_out_of_range_is_one_error_token() {
    assert_eq!(tokenize("9223372036854775808", "test"), vec![(Token::Error, at(0, 19))]);
    assert_eq!(
        tokenize("99999999999999999999999 1", "test"),
        vec![(Token::Error, at(0, 23)), (Token::Integer(1), at(24, 25))]
    );
}

#[test]
fn strings_are_kept_as_written() {
    assert_eq!(
        tokenize(r#""" "abc" "a\n\t\u\"b" "é#""#, "test"),
        vec![
            (Token::String(r#""""#), at(0, 2)),
            (Token::String(r#""abc""#), at(3, 8)),
            (Token::String(r#""a\n\t\u\"b""#), at(9, 21)),
            (Token::String("\"é#\""), at(22, 27)),
        ]
    );
}

#[test]
fn string_may_hold_line_feeds() {
    assert_eq!(tokenize("\"a\nb\"", "test"), vec![(Token::String("\"a\nb\""), at(0, 5))]);
}

#[test]
fn unclosed_string_is_an_error_at_the_quote() {
    assert_eq!(
        tokenize("\"abc", "test"),
        vec![(Token::Error, at(0, 1)), (Token::Ident(name("abc")), at(1, 4))]
    );
}

#[test]
fn string_with_unknown_escape_is_an_error_at_the_quote() {
    assert_eq!(kinds(r#""a\qb""#)[0], TokenKind::Error);
    assert_eq!(tokenize(r#""a\qb""#, "test")[0].1, at(0, 1));
    assert_eq!(kinds(r#""a\\b""#)[0], TokenKind::Error);
}

#[test]
fn operators_and_punctuation() {
    assert_eq!(
        kinds(", ; : = . <| | \\ -> + - * / == != < > <= >= ] [ ) ("),
        vec![
            TokenKind::Comma,
            TokenKind::Semicol,
            TokenKind::Colon,
            TokenKind::Assign,
            TokenKind::Field,
            TokenKind::Send,
            TokenKind::Pipe,
            TokenKind::Lambda,
            TokenKind::ThinArrow,
            TokenKind::Add,
            TokenKind::Sub,
            TokenKind::Mul,
            TokenKind::Div,
            TokenKind::Eq,
            TokenKind::Neq,
            TokenKind::Lt,
            TokenKind::Gt,
            TokenKind::Ge,
            TokenKind::Le,
            TokenKind::RBracket,
            TokenKind::LBracket,
            TokenKind::RParen,
            TokenKind::LParen,
        ]
    );
}

#[test]
fn two_byte_operators_are_taken_before_one_byte_ones() {
    assert_eq!(
        tokenize("a<|b->c==d", "test"),
        vec![
            (Token::Ident(name("a")), at(0, 1)),
            (Token::Send, at(1, 3)),
            (Token::Ident(name("b")), at(3, 4)),
            (Token::ThinArrow, at(4, 6)),
            (Token::Ident(name("c")), at(6, 7)),
            (Token::Eq, at(7, 9)),
            (Token::Ident(name("d")), at(9, 10)),
        ]
    );
    assert_eq!(kinds("==="), vec![TokenKind::Eq, TokenKind::Assign]);
    assert_eq!(kinds("!"), vec![TokenKind::Error]);
}

#[test]
fn line_comment_ends_at_the_line_feed() {
    assert_eq!(
        tokenize("1 # two 2\n3", "test"),
        vec![(Token::Integer(1), at(0, 1)), (Token::Integer(3), at(10, 11))]
    );
}

#[test]
fn block_comment_may_span_lines_and_ends_at_its_mark() {
    assert_eq!(
        tokenize("1 #[ two\n2 ]# 3", "test"),
        vec![(Token::Integer(1), at(0, 1)), (Token::Integer(3), at(14, 15))]
    );
}

#[test]
fn block_comment_that_does_not_close_is_a_line_comment() {
    assert_eq!(
        tokenize("#[ open ] 1\n2", "test"),
        vec![(Token::Integer(2), at(12, 13))]
    );
}

#[test]
fn unmatched_text_is_an_error_token_and_the_scan_goes_on() {
    assert_eq!(
        tokenize("1 @ 2", "test"),
        vec![
            (Token::Integer(1), at(0, 1)),
            (Token::Error, at(2, 3)),
            (Token::Integer(2), at(4, 5)),
        ]
    );
}

#[test]
fn each_unmatched_character_is_its_own_error_token() {
    assert_eq!(
        tokenize("@$", "test"),
        vec![(Token::Error, at(0, 1)), (Token::Error, at(1, 2))]
    );
}

#[test]
fn character_of_several_bytes_is_one_error_token() {
    assert_eq!(
        tokenize("aé€😀b", "test"),
        vec![
            (Token::Ident(name("a")), at(0, 1)),
            (Token::Error, at(1, 3)),
            (Token::Error, at(3, 6)),
            (Token::Error, at(6, 10)),
            (Token::Ident(name("b")), at(10, 11)),
        ]
    );
}

#[test]
fn carriage_return_is_no_blank_space() {
    assert_eq!(kinds("1\r\n2"), vec![TokenKind::Integer, TokenKind::Error, TokenKind::Integer]);
}

#[test]
fn comments_may_hold_any_characters() {
    assert_eq!(tokenize("#[ é ]# x # €\n", "test"), vec![(Token::Ident(name("x")), at(9, 10))]);
}

#[test]
fn kind_of_each_token() {
    assert_eq!(Token::String("\"a\"").kind(), TokenKind::String);
    assert_eq!(Token::Integer(3).kind(), TokenKind::Integer);
    assert_eq!(Token::Float("1.0").kind(), TokenKind::Float);
    assert_eq!(Token::Ident(name("a")).kind(), TokenKind::Ident);
    assert_eq!(Token::Symbol(name("a")).kind(), TokenKind::Symbol);
    assert_eq!(Token::KwLet.kind(), TokenKind::KwLet);
    assert_eq!(Token::Comment.kind(), TokenKind::Comment);
    assert_eq!(Token::Whitespace.kind(), TokenKind::Whitespace);
    assert_eq!(Token::Newline.kind(), TokenKind::Newline);
    assert_eq!(Token::Error.kind(), TokenKind::Error);
}

fn is_dropped_text(text: &str) -> bool {
    let mut rest = text;
    loop {
        let trimmed = rest.trim_start_matches(|c| c == ' ' || c == '\t' || c == '\x0c' || c == '\n');
        if trimmed.is_empty() {
            return true;
        }
        if !trimmed.starts_with('#') {
            return false;
        }
        if trimmed.starts_with("#[") {
            if let Some(close) = trimmed[2..].find(']') {
                if trimmed[2 + close..].starts_with("]#") {
                    rest = &trimmed[2 + close + 2..];
                    continue;
                }
            }
        }
        rest = match trimmed.find('\n') {
            Some(end) => &trimmed[end..],
            None => "",
        };
    }
}

fn covers(source: &str) {
    let found = tokenize(source, "test");
    let mut rebuilt = String::new();
    let mut from = 0;
    for (_, span) in found.iter() {
        assert!(from <= span.start());
        assert!(span.start() < span.end());
        assert!(span.end() <= source.len());
        assert!(is_dropped_text(&source[from..span.start()]));
        rebuilt.push_str(&source[from..span.start()]);
        rebuilt.push_str(&source[span.start()..span.end()]);
        from = span.end();
    }
    assert!(is_dropped_text(&source[from..]));
    rebuilt.push_str(&source[from..]);
    assert_eq!(rebuilt, source);
}

#[test]
fn spans_and_dropped_text_make_up_the_source() {
    covers("");
    covers("let x = 1; x + 1");
    covers("  #[ block\n ]# f(1, 2) # tail");
    covers("\"str\" :sym 1.5 @ é \\x -> [x, -x]\n\n");
    covers("#[ open\nclass A a: B end # c");
    covers("\"open 99999999999999999999 <| <= ");
}

#[test]
fn token_text_is_the_text_under_its_span() {
    let source = "foo \"bar\" 1.25 :baz";
    let found = tokenize(source, "test");
    assert_eq!(found.len(), 4);
    assert_eq!(found[0].0, Token::Ident(name(&source[0..3])));
    assert_eq!(found[1].0, Token::String(&source[4..9]));
    assert_eq!(found[2].0, Token::Float(&source[10..14]));
    assert_eq!(found[3].0, Token::Symbol(name(&source[16..19])));
}

#[test]
fn tokens_of_a_source_are_in_order() {
    assert!(check_order(&tokenize("let x = [1, 2]; # c\n x . y", "test")));
    assert!(check_order(&[]));
}

#[test]
fn spans_out_of_order_are_found() {
    let a = (Token::Comma, Span::new("test", 0..1));
    let b = (Token::Comma, Span::new("test", 1..2));
    let elsewhere = (Token::Comma, Span::new("other", 1..2));
    let backwards = (Token::Comma, Span::new("test", 2..1));
    let inside = (Token::Comma, Span::new("test", 0..5));
    assert!(check_order(&[a, b]));
    assert!(check_order(&[a, a]));
    assert!(!check_order(&[b, a]));
    assert!(!check_order(&[a, elsewhere]));
    assert!(!check_order(&[backwards]));
    assert!(!check_order(&[a, b, backwards]));
    assert!(!check_order(&[inside, b]));
    assert!(check_order(&[a, inside]));
}
