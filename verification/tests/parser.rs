use chainmail::lexer::{tokenize, Token, TokenKind};
use chainmail::parser::parsers::{expr, literal, statement};
use chainmail::parser::{parser, AstNode, Literal, Op, ParseError};
use chainmail::Span;
use internment::Intern;

fn name(text: &str) -> Intern<String> {
    Intern::new(text.to_string())
}

fn at(start: usize, end: usize) -> Span<'static> {
    Span::new("test", start..end)
}

fn parse(source: &'static str) -> Result<(Span<'static>, AstNode<'static, 'static>), ParseError<'static, 'static>> {
    let found = tokenize(source, "test");
    match parser(&found, "test") {
        Ok(node) => Ok(node),
        Err(errors) => {
            assert_eq!(errors.len(), 1);
            Err(errors[0])
        }
    }
}

fn show(node: &AstNode) -> String {
    match node {
        AstNode::Class(name) => format!("Class({})", name.1.as_str()),
        AstNode::Let(name, value, rest) => {
            format!("Let({}, {}, {})", name.1.as_str(), show(&value.1), show(&rest.1))
        }
        AstNode::Statement(first, rest) => {
            format!("Statement({}, {})", show(&first.1), show(&rest.1))
        }
        AstNode::Literal(Literal::Int(value)) => format!("Int({})", value),
        AstNode::Literal(Literal::UInt(value)) => format!("UInt({})", value),
        AstNode::Literal(Literal::Symbol(name)) => format!("Symbol({})", name.as_str()),
        AstNode::Literal(Literal::String(text)) => format!("String({})", text),
        AstNode::Literal(Literal::Float(text)) => format!("Float({})", text),
        AstNode::List(items) => format!("List[{}]", show_all(items)),
        AstNode::Ident(name) => format!("Ident({})", name.as_str()),
        AstNode::Call(callee, arguments) => {
            format!("Call({}, [{}])", show(&callee.1), show_all(arguments))
        }
        AstNode::Lambda(parameters, body) => {
            let names: Vec<&str> = parameters.iter().map(|item| item.1.as_str()).collect();
            format!("Lambda([{}], {})", names.join(", "), show(&body.1))
        }
        AstNode::UnaryOp(op, operand) => format!("UnaryOp({:?}, {})", op, show(&operand.1)),
        AstNode::BinOp(left, op, right) => {
            format!("BinOp({}, {:?}, {})", show(&left.1), op, show(&right.1))
        }
    }
}

fn show_all(nodes: &[(Span, AstNode)]) -> String {
    let shown: Vec<String> = nodes.iter().map(|item| show(&item.1)).collect();
    shown.join(", ")
}

fn shown(source: &'static str) -> String {
    match parse(source) {
        Ok(node) => show(&node.1),
        Err(error) => panic!("no program: {:?}", error),
    }
}

fn lit(value: i64, start: usize, end: usize) -> (Span<'static>, AstNode<'static, 'static>) {
    (at(start, end), AstNode::Literal(Literal::Int(value)))
}

fn var(text: &str, start: usize, end: usize) -> (Span<'static>, AstNode<'static, 'static>) {
    (at(start, end), AstNode::Ident(name(text)))
}

#[test]
fn literals() {
    let found = tokenize("42 :sym \"text\" 1.5 x", "test");
    let first = literal(&found, 0);
    assert_eq!(first.value, Some((lit(42, 0, 2), 1)));
    let second = literal(&found, 1);
    assert_eq!(
        second.value,
        Some(((at(3, 7), AstNode::Literal(Literal::Symbol(name("sym")))), 2))
    );
    let third = literal(&found, 2);
    assert_eq!(
        third.value,
        Some(((at(8, 14), AstNode::Literal(Literal::String("\"text\""))), 3))
    );
    let fourth = literal(&found, 3);
    assert_eq!(
        fourth.value,
        Some(((at(15, 18), AstNode::Literal(Literal::Float("1.5"))), 4))
    );
    for pos in 4..7 {
        let other = literal(&found, pos);
        assert_eq!(other.value, None);
        assert_eq!(other.miss.at, pos);
        assert_eq!(
            other.miss.expected.to_vec(),
            vec![
                Some(TokenKind::String),
                Some(TokenKind::Integer),
                Some(TokenKind::Float),
                Some(TokenKind::Symbol),
            ]
        );
    }
}

#[test]
fn multiplication_binds_tighter_than_addition() {
    assert_eq!(shown("1 + 2 * 3"), "BinOp(Int(1), Add, BinOp(Int(2), Mul, Int(3)))");
    assert_eq!(
        parse("1 + 2 * 3"),
        Ok((
            at(0, 9),
            AstNode::BinOp(
                Box::new(lit(1, 0, 1)),
                Op::Add,
                Box::new((
                    at(4, 9),
                    AstNode::BinOp(Box::new(lit(2, 4, 5)), Op::Mul, Box::new(lit(3, 8, 9)))
                ))
            )
        ))
    );
}

#[test]
fn field_access_binds_tighter_than_send() {
    assert_eq!(
        shown("a . b <| c"),
        "BinOp(BinOp(Ident(a), Field, Ident(b)), Send, Ident(c))"
    );
    assert_eq!(
        parse("a . b <| c"),
        Ok((
            at(0, 10),
            AstNode::BinOp(
                Box::new((
                    at(0, 5),
                    AstNode::BinOp(
                        Box::new(var("a", 0, 1)),
                        Op::Field,
                        Box::new(var("b", 4, 5))
                    )
                )),
                Op::Send,
                Box::new(var("c", 9, 10))
            )
        ))
    );
}

#[test]
fn let_binds_a_name_in_the_rest() {
    assert_eq!(
        shown("let x = 1; x + 1"),
        "Let(x, Int(1), BinOp(Ident(x), Add, Int(1)))"
    );
    assert_eq!(
        parse("let x = 1; x + 1"),
        Ok((
            at(0, 16),
            AstNode::Let(
                (at(4, 5), name("x")),
                Box::new(lit(1, 8, 9)),
                Box::new((
                    at(11, 16),
                    AstNode::BinOp(
                        Box::new(var("x", 11, 12)),
                        Op::Add,
                        Box::new(lit(1, 15, 16))
                    )
                ))
            )
        ))
    );
}

#[test]
fn call_with_arguments() {
    assert_eq!(shown("f(1, 2)"), "Call(Ident(f), [Int(1), Int(2)])");
    assert_eq!(
        parse("f(1, 2)"),
        Ok((
            at(0, 7),
            AstNode::Call(Box::new(var("f", 0, 1)), vec![lit(1, 2, 3), lit(2, 5, 6)])
        ))
    );
}

#[test]
fn bare_identifier_is_no_call() {
    assert_eq!(parse("f"), Ok(var("f", 0, 1)));
}

#[test]
fn lambda_with_one_parameter() {
    assert_eq!(shown("\\x -> x + 1"), "Lambda([x], BinOp(Ident(x), Add, Int(1)))");
    assert_eq!(
        parse("\\x -> x + 1"),
        Ok((
            at(0, 11),
            AstNode::Lambda(
                vec![(at(1, 2), name("x"))],
                Box::new((
                    at(6, 11),
                    AstNode::BinOp(Box::new(var("x", 6, 7)), Op::Add, Box::new(lit(1, 10, 11)))
                ))
            )
        ))
    );
}

#[test]
fn lambda_with_no_and_with_several_parameters() {
    assert_eq!(shown("\\ -> 1"), "Lambda([], Int(1))");
    assert_eq!(shown("\\a, b, c -> a"), "Lambda([a, b, c], Ident(a))");
}

#[test]
fn lambda_body_takes_the_whole_expression() {
    assert_eq!(
        shown("\\x -> \\y -> x = y"),
        "Lambda([x], Lambda([y], BinOp(Ident(x), Assign, Ident(y))))"
    );
}

#[test]
fn lambda_in_parentheses_may_be_called() {
    assert_eq!(shown("(\\x -> x)(1)"), "Call(Lambda([x], Ident(x)), [Int(1)])");
    match parse("(\\x -> x)(1)") {
        Ok((span, AstNode::Call(callee, arguments))) => {
            assert_eq!(span, at(0, 12));
            assert_eq!(callee.0, at(0, 9));
            assert_eq!(arguments, vec![lit(1, 10, 11)]);
        }
        other => panic!("no call: {:?}", other),
    }
}

#[test]
fn lambda_in_parentheses_without_arguments_is_the_lambda() {
    assert_eq!(shown("(\\x -> x)"), "Lambda([x], Ident(x))");
    assert_eq!(parse("(\\x -> x)").map(|node| node.0), Ok(at(0, 9)));
}

#[test]
fn call_without_arguments_and_with_nested_calls() {
    assert_eq!(shown("f()"), "Call(Ident(f), [])");
    assert_eq!(shown("f(g(1), [2])"), "Call(Ident(f), [Call(Ident(g), [Int(1)]), List[Int(2)]])");
}

#[test]
fn call_is_not_chained() {
    assert!(parse("f(1)(2)").is_err());
    assert!(parse("1(2)").is_err());
}

#[test]
fn lists() {
    assert_eq!(shown("[]"), "List[]");
    assert_eq!(shown("[1, :a, [x]]"), "List[Int(1), Symbol(a), List[Ident(x)]]");
    assert_eq!(
        parse("[1, 2]"),
        Ok((at(0, 6), AstNode::List(vec![lit(1, 1, 2), lit(2, 4, 5)])))
    );
}

#[test]
fn comma_at_the_end_of_a_list_is_refused() {
    let error = parse("[1, ]").unwrap_err();
    assert_eq!(error.found, Some(Token::RBracket));
    assert_eq!(error.at, at(4, 5));
    let error = parse("f(1,)").unwrap_err();
    assert_eq!(error.found, Some(Token::RParen));
    assert_eq!(error.at, at(4, 5));
}

#[test]
fn parentheses_group_and_widen_the_span() {
    assert_eq!(shown("(1 + 2) * 3"), "BinOp(BinOp(Int(1), Add, Int(2)), Mul, Int(3))");
    match parse("(1 + 2) * 3") {
        Ok((span, AstNode::BinOp(left, Op::Mul, right))) => {
            assert_eq!(span, at(0, 11));
            assert_eq!(left.0, at(0, 7));
            assert_eq!(right.0, at(10, 11));
        }
        other => panic!("no product: {:?}", other),
    }
    assert_eq!(parse("((x))"), Ok((at(0, 5), AstNode::Ident(name("x")))));
}

#[test]
fn operators_of_one_level_group_to_the_left() {
    assert_eq!(shown("1 - 2 + 3"), "BinOp(BinOp(Int(1), Sub, Int(2)), Add, Int(3))");
    assert_eq!(shown("8 / 4 * 2"), "BinOp(BinOp(Int(8), Div, Int(4)), Mul, Int(2))");
    assert_eq!(shown("a . b . c"), "BinOp(BinOp(Ident(a), Field, Ident(b)), Field, Ident(c))");
    assert_eq!(shown("a <| b <| c"), "BinOp(BinOp(Ident(a), Send, Ident(b)), Send, Ident(c))");
    assert_eq!(shown("a = b = c"), "BinOp(BinOp(Ident(a), Assign, Ident(b)), Assign, Ident(c))");
}

#[test]
fn levels_from_tightest_to_loosest() {
    assert_eq!(
        shown("a = b + c * d <| e . f"),
        "BinOp(Ident(a), Assign, BinOp(Ident(b), Add, BinOp(Ident(c), Mul, BinOp(Ident(d), Send, BinOp(Ident(e), Field, Ident(f))))))"
    );
    assert_eq!(
        shown("a . b <| c * d + e = f"),
        "BinOp(BinOp(BinOp(BinOp(BinOp(Ident(a), Field, Ident(b)), Send, Ident(c)), Mul, Ident(d)), Add, Ident(e)), Assign, Ident(f))"
    );
    assert_eq!(shown("a * b <| c"), "BinOp(Ident(a), Mul, BinOp(Ident(b), Send, Ident(c)))");
}

#[test]
fn minus_before_an_atom() {
    assert_eq!(shown("-1"), "UnaryOp(Sub, Int(1))");
    assert_eq!(shown("- - x"), "UnaryOp(Sub, UnaryOp(Sub, Ident(x)))");
    assert_eq!(shown("1 - -2"), "BinOp(Int(1), Sub, UnaryOp(Sub, Int(2)))");
    assert_eq!(shown("-a . b"), "BinOp(UnaryOp(Sub, Ident(a)), Field, Ident(b))");
    assert_eq!(shown("-f(1)"), "UnaryOp(Sub, Call(Ident(f), [Int(1)]))");
}

#[test]
fn minus_spans_run_from_the_sign_to_the_operand() {
    assert_eq!(
        parse("- -x"),
        Ok((
            at(0, 4),
            AstNode::UnaryOp(
                Op::Sub,
                Box::new((
                    at(2, 4),
                    AstNode::UnaryOp(Op::Sub, Box::new(var("x", 3, 4)))
                ))
            )
        ))
    );
}

#[test]
fn many_minus_signs() {
    let mut source = String::new();
    for _ in 0..2000 {
        source.push('-');
    }
    source.push('x');
    let found = tokenize(&source, "test");
    let step = expr(&found, 0);
    let (node, next) = step.value.expect("an expression");
    assert_eq!(next, 2001);
    assert_eq!(node.0, Span::new("test", 0..2001));
    let mut depth = 0;
    let mut inner = &node.1;
    while let AstNode::UnaryOp(Op::Sub, operand) = inner {
        depth += 1;
        inner = &operand.1;
    }
    assert_eq!(depth, 2000);
    assert_eq!(inner, &AstNode::Ident(name("x")));
}

#[test]
fn statements_chain_to_the_right() {
    assert_eq!(shown("a; b; c"), "Statement(Ident(a), Statement(Ident(b), Ident(c)))");
    assert_eq!(
        shown("let a = 1; f(a); let b = 2; a + b"),
        "Let(a, Int(1), Statement(Call(Ident(f), [Ident(a)]), Let(b, Int(2), BinOp(Ident(a), Add, Ident(b)))))"
    );
    assert_eq!(
        parse("a; b"),
        Ok((
            at(0, 4),
            AstNode::Statement(Box::new(var("a", 0, 1)), Box::new(var("b", 3, 4)))
        ))
    );
}

#[test]
fn chain_must_end_in_an_expression_or_a_class() {
    let error = parse("a;").unwrap_err();
    assert_eq!(error.found, None);
    assert_eq!(error.at, at(2, 2));
    let error = parse("let x = 1;").unwrap_err();
    assert_eq!(error.found, None);
    assert_eq!(error.at, at(10, 10));
    assert_eq!(shown("a; class B end"), "Statement(Ident(a), Class(B))");
}

#[test]
fn class_keeps_its_name_and_drops_its_fields() {
    assert_eq!(
        parse("class Point end"),
        Ok((at(0, 15), AstNode::Class((at(6, 11), name("Point")))))
    );
    assert_eq!(
        parse("class Point x: Int y: Int end"),
        Ok((at(0, 29), AstNode::Class((at(6, 11), name("Point")))))
    );
}

#[test]
fn class_field_needs_a_colon_and_a_class() {
    let error = parse("class A x end").unwrap_err();
    assert_eq!(error.found, Some(Token::KwEnd));
    assert_eq!(error.at, at(10, 13));
    assert!(error.expected.contains(Some(TokenKind::Colon)));
    assert!(!error.expected.contains(Some(TokenKind::KwEnd)));
    let error = parse("class A x: end").unwrap_err();
    assert_eq!(error.found, Some(Token::KwEnd));
    assert!(error.expected.contains(Some(TokenKind::Ident)));
}

#[test]
fn nothing_may_follow_a_class() {
    let error = parse("class A end; 1").unwrap_err();
    assert_eq!(error.found, Some(Token::Semicol));
    assert_eq!(error.at, at(11, 12));
    assert!(error.expected.contains(None));
}

#[test]
fn string_alone_is_a_program() {
    assert_eq!(
        parse("\"hi\""),
        Ok((at(0, 4), AstNode::Literal(Literal::String("\"hi\""))))
    );
}

#[test]
fn float_alone_is_a_program() {
    assert_eq!(parse("1.5"), Ok((at(0, 3), AstNode::Literal(Literal::Float("1.5")))));
    assert_eq!(parse(".5"), Ok((at(0, 2), AstNode::Literal(Literal::Float(".5")))));
}

#[test]
fn strings_and_floats_are_operands() {
    assert_eq!(shown("1 + 2.5"), "BinOp(Int(1), Add, Float(2.5))");
    assert_eq!(
        shown("f(\"a\", -1.5, [\"b\"])"),
        "Call(Ident(f), [String(\"a\"), UnaryOp(Sub, Float(1.5)), List[String(\"b\")]])"
    );
    assert_eq!(
        shown("let s = \"x\"; s"),
        "Let(s, String(\"x\"), Ident(s))"
    );
    assert_eq!(
        parse("\"a\" . 2.0"),
        Ok((
            at(0, 9),
            AstNode::BinOp(
                Box::new((at(0, 3), AstNode::Literal(Literal::String("\"a\"")))),
                Op::Field,
                Box::new((at(6, 9), AstNode::Literal(Literal::Float("2.0"))))
            )
        ))
    );
}

#[test]
fn literal_is_no_callee() {
    let error = parse("\"f\"(1)").unwrap_err();
    assert_eq!(error.found, Some(Token::LParen));
    assert_eq!(error.at, at(3, 4));
}

#[test]
fn empty_input_is_no_program() {
    let error = parse("").unwrap_err();
    assert_eq!(error.found, None);
    assert_eq!(error.at, at(0, 0));
    for kind in [
        TokenKind::KwLet,
        TokenKind::KwClass,
        TokenKind::Ident,
        TokenKind::LParen,
        TokenKind::Lambda,
        TokenKind::String,
        TokenKind::Integer,
        TokenKind::Float,
        TokenKind::Symbol,
        TokenKind::LBracket,
        TokenKind::Sub,
    ] {
        assert!(error.expected.contains(Some(kind)));
    }
    for kind in [
        TokenKind::KwEnd,
        TokenKind::Comma,
        TokenKind::ThinArrow,
        TokenKind::RParen,
        TokenKind::Add,
        TokenKind::Semicol,
        TokenKind::Error,
    ] {
        assert!(!error.expected.contains(Some(kind)));
    }
    assert!(!error.expected.contains(None));
}

#[test]
fn tokens_behind_a_program_are_refused() {
    let error = parse("1 2").unwrap_err();
    assert_eq!(error.found, Some(Token::Integer(2)));
    assert_eq!(error.at, at(2, 3));
    for kind in [
        TokenKind::Field,
        TokenKind::Send,
        TokenKind::Mul,
        TokenKind::Div,
        TokenKind::Add,
        TokenKind::Sub,
        TokenKind::Assign,
        TokenKind::Semicol,
    ] {
        assert!(error.expected.contains(Some(kind)));
    }
    assert!(error.expected.contains(None));
    assert!(!error.expected.contains(Some(TokenKind::Integer)));
    assert!(!error.expected.contains(Some(TokenKind::LParen)));
}

#[test]
fn error_lies_at_the_furthest_miss() {
    let error = parse("f(1, 2").unwrap_err();
    assert_eq!(error.found, None);
    assert_eq!(error.at, at(6, 6));
    assert!(error.expected.contains(Some(TokenKind::RParen)));
    assert!(error.expected.contains(Some(TokenKind::Comma)));
    assert!(error.expected.contains(Some(TokenKind::Add)));
    assert!(!error.expected.contains(None));
    let error = parse("1 +").unwrap_err();
    assert_eq!(error.found, None);
    assert_eq!(error.at, at(3, 3));
    assert!(error.expected.contains(Some(TokenKind::Integer)));
    assert!(error.expected.contains(Some(TokenKind::String)));
    assert!(error.expected.contains(Some(TokenKind::Float)));
    assert!(error.expected.contains(Some(TokenKind::Sub)));
    assert!(!error.expected.contains(Some(TokenKind::Add)));
}

#[test]
fn unmatched_text_is_refused_at_its_span() {
    let error = parse("1 + @").unwrap_err();
    assert_eq!(error.found, Some(Token::Error));
    assert_eq!(error.at, at(4, 5));
    let error = parse("let x = 1 $ 2; x").unwrap_err();
    assert_eq!(error.found, Some(Token::Error));
    assert_eq!(error.at, at(10, 11));
    let error = parse("@").unwrap_err();
    assert_eq!(error.found, Some(Token::Error));
    assert_eq!(error.at, at(0, 1));
}

#[test]
fn error_before_unmatched_text_is_reported_first() {
    let error = parse(") @").unwrap_err();
    assert_eq!(error.found, Some(Token::RParen));
    assert_eq!(error.at, at(0, 1));
    let error = parse("1 2 @").unwrap_err();
    assert_eq!(error.found, Some(Token::Integer(2)));
    assert_eq!(error.at, at(2, 3));
}

#[test]
fn unmatched_text_behind_a_good_start_is_where_the_error_lies() {
    for source in ["@", "1 @", "1 + @ 2", "f(1, @)", "let x = @", "a; b; $ c", "[1, 2 @ ]", "\\x -> @"] {
        let found = tokenize(source, "test");
        let index = found.iter().position(|item| item.0 == Token::Error).expect("an error token");
        let errors = parser(&found, "test").unwrap_err();
        assert_eq!(errors.len(), 1);
        assert_eq!(errors[0].found, Some(Token::Error));
        assert_eq!(errors[0].at, found[index].1);
    }
}

#[test]
fn keyword_is_no_identifier() {
    let error = parse("let end = 1; 2").unwrap_err();
    assert_eq!(error.found, Some(Token::KwEnd));
    assert_eq!(error.at, at(4, 7));
    assert!(error.expected.contains(Some(TokenKind::Ident)));
}

#[test]
fn root_span_covers_all_tokens() {
    for source in ["x", "  f(1)  ", "let a = [1, 2]; a . b", "# c\n\\x -> -x # d"] {
        let found = tokenize(source, "test");
        let node = parser(&found, "test").expect("a program");
        let first = found[0].1;
        let last = found[found.len() - 1].1;
        assert_eq!(node.0, first.merge(last));
    }
}

#[test]
fn statement_and_expr_read_from_a_position() {
    let found = tokenize("1; 2 + 3 )", "test");
    let step = expr(&found, 2);
    assert_eq!(
        step.value,
        Some((
            (
                at(3, 8),
                AstNode::BinOp(Box::new(lit(2, 3, 4)), Op::Add, Box::new(lit(3, 7, 8)))
            ),
            5
        ))
    );
    assert_eq!(step.miss.at, 5);
    assert!(step.miss.expected.contains(Some(TokenKind::Mul)));
    let step = statement(&found, 0);
    let (node, next) = step.value.expect("a statement");
    assert_eq!(next, 5);
    assert_eq!(node.0, at(0, 8));
    assert_eq!(show(&node.1), "Statement(Int(1), BinOp(Int(2), Add, Int(3)))");
}

#[test]
fn end_of_input_span_lies_behind_the_last_token() {
    let found = tokenize("  (1  ", "other");
    let errors = parser(&found, "other").unwrap_err();
    assert_eq!(errors.len(), 1);
    assert_eq!(errors[0].found, None);
    assert_eq!(errors[0].at, Span::new("other", 4..4));
    assert!(errors[0].expected.contains(Some(TokenKind::RParen)));
}

#[test]
fn long_chain_of_statements() {
    let mut source = String::new();
    for _ in 0..3000 {
        source.push_str("let a = 1; f(a); ");
    }
    source.push_str("a");
    let found = tokenize(&source, "test");
    let node = parser(&found, "test").expect("a program");
    assert_eq!(node.0, Span::new("test", 0..source.len()));
    let mut bindings = 0;
    let mut sequences = 0;
    let mut inner = &node.1;
    loop {
        match inner {
            AstNode::Let(_, _, rest) => {
                bindings += 1;
                inner = &rest.1;
            }
            AstNode::Statement(_, rest) => {
                sequences += 1;
                inner = &rest.1;
            }
            other => {
                assert_eq!(other, &AstNode::Ident(name("a")));
                break;
            }
        }
    }
    assert_eq!(bindings, 3000);
    assert_eq!(sequences, 3000);
}

#[test]
fn chain_that_breaks_off_falls_back_to_its_last_expression() {
    let found = tokenize("a; b; let", "test");
    let step = statement(&found, 0);
    let (node, next) = step.value.expect("a statement");
    assert_eq!(show(&node.1), "Statement(Ident(a), Ident(b))");
    assert_eq!(next, 3);
    assert_eq!(step.miss.at, 5);
    assert!(step.miss.expected.contains(Some(TokenKind::Ident)));
    let errors = parser(&found, "test").unwrap_err();
    assert_eq!(errors[0].found, None);
    assert_eq!(errors[0].at, at(9, 9));
}

#[test]
fn binding_whose_rest_breaks_off_is_no_statement() {
    let found = tokenize("let a = 1; )", "test");
    let step = statement(&found, 0);
    assert_eq!(step.value, None);
    assert_eq!(step.miss.at, 5);
    assert!(step.miss.expected.contains(Some(TokenKind::KwLet)));
    assert!(step.miss.expected.contains(Some(TokenKind::KwClass)));
    assert!(step.miss.expected.contains(Some(TokenKind::Ident)));
    assert!(!step.miss.expected.contains(Some(TokenKind::RParen)));
}

#[test]
fn expected_kinds_are_listed() {
    let error = parse("class A x end").unwrap_err();
    assert_eq!(error.expected.to_vec(), vec![Some(TokenKind::Colon)]);
    let error = parse("1 2").unwrap_err();
    assert_eq!(
        error.expected.to_vec(),
        vec![
            None,
            Some(TokenKind::Semicol),
            Some(TokenKind::Assign),
            Some(TokenKind::Field),
            Some(TokenKind::Send),
            Some(TokenKind::Add),
            Some(TokenKind::Sub),
            Some(TokenKind::Mul),
            Some(TokenKind::Div),
        ]
    );
    let error = parse("").unwrap_err();
    assert_eq!(
        error.expected.to_vec(),
        vec![
            Some(TokenKind::String),
            Some(TokenKind::Integer),
            Some(TokenKind::Float),
            Some(TokenKind::Ident),
            Some(TokenKind::Symbol),
            Some(TokenKind::KwLet),
            Some(TokenKind::KwClass),
            Some(TokenKind::Lambda),
            Some(TokenKind::Sub),
            Some(TokenKind::LBracket),
            Some(TokenKind::LParen),
        ]
    );
}

fn encloses(outer: Span, inner: Span) -> bool {
    outer.context() == inner.context() && outer.start() <= inner.start() && inner.end() <= outer.end()
}

fn before(first: Span, second: Span) -> bool {
    first.context() == second.context()
        && first.start() <= second.start()
        && first.end() <= second.end()
}

fn check_nesting(span: Span, node: &AstNode) {
    assert!(span.start() <= span.end());
    let children: Vec<Span> = match node {
        AstNode::Class(name) => vec![name.0],
        AstNode::Let(name, value, rest) => {
            check_nesting(value.0, &value.1);
            check_nesting(rest.0, &rest.1);
            vec![name.0, value.0, rest.0]
        }
        AstNode::Statement(first, rest) => {
            check_nesting(first.0, &first.1);
            check_nesting(rest.0, &rest.1);
            vec![first.0, rest.0]
        }
        AstNode::Literal(_) | AstNode::Ident(_) => vec![],
        AstNode::List(items) => {
            for item in items {
                check_nesting(item.0, &item.1);
            }
            items.iter().map(|item| item.0).collect()
        }
        AstNode::Call(callee, arguments) => {
            check_nesting(callee.0, &callee.1);
            for item in arguments {
                check_nesting(item.0, &item.1);
            }
            let mut spans = vec![callee.0];
            spans.extend(arguments.iter().map(|item| item.0));
            spans
        }
        AstNode::Lambda(parameters, body) => {
            check_nesting(body.0, &body.1);
            let mut spans: Vec<Span> = parameters.iter().map(|item| item.0).collect();
            spans.push(body.0);
            spans
        }
        AstNode::UnaryOp(_, operand) => {
            check_nesting(operand.0, &operand.1);
            vec![operand.0]
        }
        AstNode::BinOp(left, _, right) => {
            check_nesting(left.0, &left.1);
            check_nesting(right.0, &right.1);
            vec![left.0, right.0]
        }
    };
    for (i, child) in children.iter().enumerate() {
        assert!(encloses(span, *child));
        for later in &children[i + 1..] {
            assert!(before(*child, *later));
        }
    }
}

#[test]
fn spans_enclose_the_spans_of_the_children() {
    for source in [
        "1 + 2 * 3",
        "(1 + 2) * (3)",
        "let f = \\a, b -> a . b <| [b, -a, \"s\"]; f(1, 2.5); class C x: T end",
        "(\\x -> x)((y), [], f())",
        "- - (a = b)",
    ] {
        let found = tokenize(source, "test");
        let node = parser(&found, "test").expect("a program");
        check_nesting(node.0, &node.1);
    }
}

#[test]
fn operator_span_is_the_merge_of_its_operands_unless_in_parentheses() {
    match parse("a + (b * c)") {
        Ok((span, AstNode::BinOp(left, Op::Add, right))) => {
            assert_eq!(span, left.0.merge(right.0));
            assert_eq!(right.0, at(4, 11));
            match right.1 {
                AstNode::BinOp(inner_left, Op::Mul, inner_right) => {
                    assert_eq!(inner_left.0.merge(inner_right.0), at(5, 10));
                }
                other => panic!("no product: {:?}", other),
            }
        }
        other => panic!("no sum: {:?}", other),
    }
}
