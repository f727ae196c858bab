//! What a rule reads depends only on the tokens it can reach.
//!
//! No rule reads an `Error` token, and none reads behind the end of input.
//! So up to such a place two token sequences that hold the same tokens are
//! read alike, and where tokens break off at an `Error` token the parser
//! finds what it would find if they ended there.
use crate::lexer::TokenKind;
use crate::parser::grammar::{
    atom, binary, binding, binding_head, call, callee, class_decl, expr, exprs, fields, fold,
    just, kind_at, lambda, list, more_exprs, more_names, names, operand, operator_at,
    parenthesised, program, raw_ident, sequence, sequence_head, statement, unary, Miss, Outcome,
    Tokens,
};
use crate::parser::laws::{bounded, is_error, lemma_binding_head, lemma_callee, lemma_expr, lemma_exprs, lemma_fields, lemma_lambda, lemma_names, lemma_operand, lemma_sequence_head, lemma_statement, lemma_unary};
use crate::parser::{Node, Tree};
use crate::Spanned;
use internment::Intern;
use vstd::prelude::*;

verus! {

broadcast use crate::parser::grammar::lemma_join_at;

/// No rule reads a token at `at`: the tokens end there, or an `Error` token
/// stands there.
pub open spec fn unread(ts: Tokens, at: int) -> bool {
    at == ts.len() || is_error(ts, at)
}

/// The two token sequences hold the same tokens before `upto`, and in
/// neither does a rule read a token at `upto`.
pub open spec fn alike<'s, 'p>(a: Tokens<'s, 'p>, b: Tokens<'s, 'p>, upto: int) -> bool {
    &&& 0 <= upto <= a.len()
    &&& upto <= b.len()
    &&& forall|i: int| 0 <= i < upto ==> a[i] == b[i]
    &&& unread(a, upto)
    &&& unread(b, upto)
}

/// What is read before a place that no rule reads ends at that place or
/// before it.
proof fn lemma_within<T>(ts: Tokens, pos: int, out: Outcome<T>, upto: int)
    requires
        bounded(ts, pos, out),
        unread(ts, upto),
        0 <= pos <= upto <= ts.len(),
    ensures
        out.value is Some ==> pos <= out.next() <= upto,
        0 <= out.miss.at <= upto,
{
    assert(is_error(ts, upto) ==> ts[upto].0.spec_kind() == TokenKind::Error);
}

pub proof fn lemma_same_more_names<'s, 'p>(
    a: Tokens<'s, 'p>,
    b: Tokens<'s, 'p>,
    upto: int,
    pos: int,
    got: Seq<Spanned<'p, Intern<String>>>,
    miss: Miss,
)
    requires
        alike(a, b, upto),
        0 <= pos <= upto,
    ensures
        more_names(a, pos, got, miss) == more_names(b, pos, got, miss),
    decreases upto - pos,
{
    reveal_with_fuel(more_names, 1);
    if just(a, pos, TokenKind::Comma).value is Some && raw_ident(a, pos + 1).value is Some {
        lemma_same_more_names(a, b, upto, pos + 2, got.push(raw_ident(a, pos + 1).item()), miss);
    }
}

pub proof fn lemma_same_names(a: Tokens, b: Tokens, upto: int, pos: int)
    requires
        alike(a, b, upto),
        0 <= pos <= upto,
    ensures
        names(a, pos) == names(b, pos),
{
    reveal_with_fuel(names, 1);
    if raw_ident(a, pos).value is Some {
        lemma_same_more_names(a, b, upto, pos + 1, seq![raw_ident(a, pos).item()], Miss::nothing());
    }
}

pub proof fn lemma_same_fields(a: Tokens, b: Tokens, upto: int, pos: int, miss: Miss)
    requires
        alike(a, b, upto),
        0 <= pos <= upto,
    ensures
        fields(a, pos, miss) == fields(b, pos, miss),
    decreases upto - pos,
{
    reveal_with_fuel(fields, 1);
    if raw_ident(a, pos).value is Some && just(a, pos + 1, TokenKind::Colon).value is Some
        && raw_ident(a, pos + 2).value is Some {
        lemma_same_fields(a, b, upto, pos + 3, miss);
    }
}

pub proof fn lemma_same_class_decl(a: Tokens, b: Tokens, upto: int, pos: int)
    requires
        alike(a, b, upto),
        0 <= pos <= upto,
    ensures
        class_decl(a, pos) == class_decl(b, pos),
{
    reveal_with_fuel(class_decl, 1);
    if pos + 2 <= upto {
        lemma_same_fields(a, b, upto, pos + 2, Miss::nothing());
        lemma_fields(a, pos + 2, Miss::nothing());
        lemma_within(a, pos + 2, fields(a, pos + 2, Miss::nothing()), upto);
    }
}

pub proof fn lemma_same_lambda(a: Tokens, b: Tokens, upto: int, pos: int)
    requires
        alike(a, b, upto),
        0 <= pos <= upto,
    ensures
        lambda(a, pos) == lambda(b, pos),
    decreases upto - pos, 5int,
{
    reveal_with_fuel(lambda, 1);
    reveal_with_fuel(expr, 1);
    if pos < upto {
        let parameters = names(a, pos + 1);
        lemma_same_names(a, b, upto, pos + 1);
        lemma_names(a, pos + 1);
        lemma_within(a, pos + 1, parameters, upto);
        if parameters.next() < upto {
            lemma_same_expr(a, b, upto, parameters.next() + 1);
            lemma_expr(a, parameters.next() + 1);
            lemma_within(a, parameters.next() + 1, expr(a, parameters.next() + 1), upto);
        }
    }
}

pub proof fn lemma_same_callee(a: Tokens, b: Tokens, upto: int, pos: int)
    requires
        alike(a, b, upto),
        0 <= pos <= upto,
    ensures
        callee(a, pos) == callee(b, pos),
    decreases upto - pos, 6int,
{
    reveal_with_fuel(callee, 1);
    reveal_with_fuel(lambda, 1);
    if pos < upto {
        lemma_same_lambda(a, b, upto, pos + 1);
        lemma_lambda(a, pos + 1);
        lemma_within(a, pos + 1, lambda(a, pos + 1), upto);
    }
}

pub proof fn lemma_same_more_exprs<'s, 'p>(
    a: Tokens<'s, 'p>,
    b: Tokens<'s, 'p>,
    upto: int,
    pos: int,
    got: Seq<Node<'s, 'p>>,
    miss: Miss,
)
    requires
        alike(a, b, upto),
        0 <= pos <= upto,
    ensures
        more_exprs(a, pos, got, miss) == more_exprs(b, pos, got, miss),
    decreases upto - pos, 0int,
{
    reveal_with_fuel(more_exprs, 1);
    reveal_with_fuel(expr, 1);
    if pos < upto {
        let item = expr(a, pos + 1);
        lemma_same_expr(a, b, upto, pos + 1);
        lemma_expr(a, pos + 1);
        lemma_within(a, pos + 1, item, upto);
        if just(a, pos, TokenKind::Comma).value is Some && item.reaches(pos + 1, a.len()) {
            lemma_same_more_exprs(a, b, upto, item.next(), got.push(item.item()), miss.join(item.miss));
        }
    }
}

pub proof fn lemma_same_exprs(a: Tokens, b: Tokens, upto: int, pos: int)
    requires
        alike(a, b, upto),
        0 <= pos <= upto,
    ensures
        exprs(a, pos) == exprs(b, pos),
    decreases upto - pos, 21int,
{
    reveal_with_fuel(exprs, 1);
    reveal_with_fuel(expr, 1);
    reveal_with_fuel(more_exprs, 1);
    let first = expr(a, pos);
    lemma_same_expr(a, b, upto, pos);
    lemma_expr(a, pos);
    lemma_within(a, pos, first, upto);
    if first.reaches(pos, a.len()) {
        lemma_same_more_exprs(a, b, upto, first.next(), seq![first.item()], first.miss);
    }
}

pub proof fn lemma_same_call(a: Tokens, b: Tokens, upto: int, pos: int)
    requires
        alike(a, b, upto),
        0 <= pos <= upto,
    ensures
        call(a, pos) == call(b, pos),
    decreases upto - pos, 7int,
{
    reveal_with_fuel(call, 1);
    reveal_with_fuel(callee, 1);
    reveal_with_fuel(exprs, 1);
    let target = callee(a, pos);
    lemma_same_callee(a, b, upto, pos);
    lemma_callee(a, pos);
    lemma_within(a, pos, target, upto);
    if target.reaches(pos, a.len()) && target.next() < upto {
        let arguments = exprs(a, target.next() + 1);
        lemma_same_exprs(a, b, upto, target.next() + 1);
        lemma_exprs(a, target.next() + 1);
        lemma_within(a, target.next() + 1, arguments, upto);
    }
}

pub proof fn lemma_same_parenthesised(a: Tokens, b: Tokens, upto: int, pos: int)
    requires
        alike(a, b, upto),
        0 <= pos <= upto,
    ensures
        parenthesised(a, pos) == parenthesised(b, pos),
    decreases upto - pos, 5int,
{
    reveal_with_fuel(parenthesised, 1);
    reveal_with_fuel(expr, 1);
    if pos < upto {
        lemma_same_expr(a, b, upto, pos + 1);
        lemma_expr(a, pos + 1);
        lemma_within(a, pos + 1, expr(a, pos + 1), upto);
    }
}

pub proof fn lemma_same_list(a: Tokens, b: Tokens, upto: int, pos: int)
    requires
        alike(a, b, upto),
        0 <= pos <= upto,
    ensures
        list(a, pos) == list(b, pos),
    decreases upto - pos, 5int,
{
    reveal_with_fuel(list, 1);
    reveal_with_fuel(exprs, 1);
    if pos < upto {
        lemma_same_exprs(a, b, upto, pos + 1);
        lemma_exprs(a, pos + 1);
        lemma_within(a, pos + 1, exprs(a, pos + 1), upto);
    }
}

pub proof fn lemma_same_atom(a: Tokens, b: Tokens, upto: int, pos: int)
    requires
        alike(a, b, upto),
        0 <= pos <= upto,
    ensures
        atom(a, pos) == atom(b, pos),
    decreases upto - pos, 8int,
{
    reveal_with_fuel(atom, 1);
    reveal_with_fuel(call, 1);
    reveal_with_fuel(lambda, 1);
    reveal_with_fuel(parenthesised, 1);
    reveal_with_fuel(list, 1);
    lemma_same_call(a, b, upto, pos);
    lemma_same_lambda(a, b, upto, pos);
    lemma_same_parenthesised(a, b, upto, pos);
    lemma_same_list(a, b, upto, pos);
}

pub proof fn lemma_same_unary(a: Tokens, b: Tokens, upto: int, pos: int)
    requires
        alike(a, b, upto),
        0 <= pos <= upto,
    ensures
        unary(a, pos) == unary(b, pos),
    decreases upto - pos, 9int,
{
    reveal_with_fuel(unary, 1);
    reveal_with_fuel(atom, 1);
    if kind_at(a, pos) == Some(TokenKind::Sub) {
        lemma_same_unary(a, b, upto, pos + 1);
        lemma_unary(a, pos + 1);
        lemma_within(a, pos + 1, unary(a, pos + 1), upto);
    } else {
        lemma_same_atom(a, b, upto, pos);
    }
}

pub proof fn lemma_same_operand(a: Tokens, b: Tokens, upto: int, pos: int, level: nat)
    requires
        alike(a, b, upto),
        0 <= pos <= upto,
    ensures
        operand(a, pos, level) == operand(b, pos, level),
    decreases upto - pos, 10 + 2 * level,
{
    reveal_with_fuel(operand, 1);
    reveal_with_fuel(unary, 1);
    reveal_with_fuel(binary, 1);
    if level == 0 {
        lemma_same_unary(a, b, upto, pos);
    } else {
        lemma_same_binary(a, b, upto, pos, (level - 1) as nat);
    }
}

pub proof fn lemma_same_fold<'s, 'p>(
    a: Tokens<'s, 'p>,
    b: Tokens<'s, 'p>,
    upto: int,
    pos: int,
    level: nat,
    left: Node<'s, 'p>,
    miss: Miss,
)
    requires
        alike(a, b, upto),
        0 <= pos <= upto,
    ensures
        fold(a, pos, level, left, miss) == fold(b, pos, level, left, miss),
    decreases upto - pos, 0int,
{
    reveal_with_fuel(fold, 1);
    reveal_with_fuel(operand, 1);
    if pos < upto {
        let right = operand(a, pos + 1, level);
        lemma_same_operand(a, b, upto, pos + 1, level);
        lemma_operand(a, pos + 1, level);
        lemma_within(a, pos + 1, right, upto);
        match operator_at(a, pos, level) {
            Some(op) => {
                if right.reaches(pos + 1, a.len()) {
                    lemma_same_fold(
                        a,
                        b,
                        upto,
                        right.next(),
                        level,
                        (
                            left.0.merged(right.item().0),
                            Tree::BinOp(Box::new(left), op, Box::new(right.item())),
                        ),
                        miss.join(right.miss),
                    );
                }
            },
            None => {},
        }
    }
}

pub proof fn lemma_same_binary(a: Tokens, b: Tokens, upto: int, pos: int, level: nat)
    requires
        alike(a, b, upto),
        0 <= pos <= upto,
    ensures
        binary(a, pos, level) == binary(b, pos, level),
    decreases upto - pos, 11 + 2 * level,
{
    reveal_with_fuel(binary, 1);
    reveal_with_fuel(operand, 1);
    reveal_with_fuel(fold, 1);
    let first = operand(a, pos, level);
    lemma_same_operand(a, b, upto, pos, level);
    lemma_operand(a, pos, level);
    lemma_within(a, pos, first, upto);
    if first.reaches(pos, a.len()) {
        lemma_same_fold(a, b, upto, first.next(), level, first.item(), first.miss);
    }
}

pub proof fn lemma_same_expr(a: Tokens, b: Tokens, upto: int, pos: int)
    requires
        alike(a, b, upto),
        0 <= pos <= upto,
    ensures
        expr(a, pos) == expr(b, pos),
    decreases upto - pos, 20int,
{
    reveal_with_fuel(expr, 1);
    reveal_with_fuel(binary, 1);
    lemma_same_binary(a, b, upto, pos, 4);
}

pub proof fn lemma_same_binding_head(a: Tokens, b: Tokens, upto: int, pos: int)
    requires
        alike(a, b, upto),
        0 <= pos <= upto,
    ensures
        binding_head(a, pos) == binding_head(b, pos),
{
    reveal_with_fuel(binding_head, 1);
    if pos + 3 <= upto {
        lemma_same_expr(a, b, upto, pos + 3);
        lemma_expr(a, pos + 3);
        lemma_within(a, pos + 3, expr(a, pos + 3), upto);
    }
}

pub proof fn lemma_same_sequence_head(a: Tokens, b: Tokens, upto: int, pos: int)
    requires
        alike(a, b, upto),
        0 <= pos <= upto,
    ensures
        sequence_head(a, pos) == sequence_head(b, pos),
{
    reveal_with_fuel(sequence_head, 1);
    lemma_same_expr(a, b, upto, pos);
    lemma_expr(a, pos);
    lemma_within(a, pos, expr(a, pos), upto);
}

pub proof fn lemma_same_binding(a: Tokens, b: Tokens, upto: int, pos: int)
    requires
        alike(a, b, upto),
        0 <= pos <= upto,
    ensures
        binding(a, pos) == binding(b, pos),
    decreases upto - pos, 22int,
{
    reveal_with_fuel(binding, 1);
    reveal_with_fuel(statement, 1);
    let head = binding_head(a, pos);
    lemma_same_binding_head(a, b, upto, pos);
    lemma_binding_head(a, pos);
    lemma_within(a, pos, head, upto);
    if head.value is Some {
        lemma_same_statement(a, b, upto, head.next());
        lemma_statement(a, head.next());
        lemma_within(a, head.next(), statement(a, head.next()), upto);
    }
}

pub proof fn lemma_same_sequence(a: Tokens, b: Tokens, upto: int, pos: int)
    requires
        alike(a, b, upto),
        0 <= pos <= upto,
    ensures
        sequence(a, pos) == sequence(b, pos),
    decreases upto - pos, 22int,
{
    reveal_with_fuel(sequence, 1);
    reveal_with_fuel(statement, 1);
    let head = sequence_head(a, pos);
    lemma_same_sequence_head(a, b, upto, pos);
    lemma_sequence_head(a, pos);
    lemma_within(a, pos, head, upto);
    if head.value is Some {
        lemma_same_statement(a, b, upto, head.next());
        lemma_statement(a, head.next());
        lemma_within(a, head.next(), statement(a, head.next()), upto);
    }
}

pub proof fn lemma_same_statement(a: Tokens, b: Tokens, upto: int, pos: int)
    requires
        alike(a, b, upto),
        0 <= pos <= upto,
    ensures
        statement(a, pos) == statement(b, pos),
    decreases upto - pos, 23int,
{
    reveal_with_fuel(statement, 1);
    reveal_with_fuel(binding, 1);
    reveal_with_fuel(sequence, 1);
    reveal_with_fuel(expr, 1);
    lemma_same_binding(a, b, upto, pos);
    lemma_same_class_decl(a, b, upto, pos);
    lemma_same_sequence(a, b, upto, pos);
    lemma_same_expr(a, b, upto, pos);
}

/// The tokens before `at` can begin a program: they are a program, or they
/// fail to be one only at their end.
pub open spec fn begins_well(ts: Tokens, at: int) -> bool {
    program(ts.take(at)).value is Some || program(ts.take(at)).miss.at == at
}

/// Where the tokens before an `Error` token can begin a program, the miss
/// that is reported lies at the `Error` token.
pub proof fn lemma_error_lies_at_error_token(ts: Tokens, at: int)
    requires
        is_error(ts, at),
        begins_well(ts, at),
    ensures
        program(ts).value is None,
        program(ts).miss.at == at,
{
    let before = ts.take(at);
    assert(alike(ts, before, at));
    lemma_same_statement(ts, before, at, 0);
    lemma_statement(ts, 0);
    lemma_within(ts, 0, statement(ts, 0), at);
}

} // verus!
