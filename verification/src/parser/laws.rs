//! What holds of everything the grammar reads.
//!
//! For each rule `r` of the grammar, `lemma_r` shows that what the rule reads
//! is [`bounded`] and, where it is a node, that it [`covers`] the tokens read.
//! The laws of the parser as a whole follow from these: a program spans all
//! the tokens, and tokens that hold an `Error` token are no program.
use crate::lexer::laws::{lemma_unmatched_text_is_error, reached};
use crate::lexer::rules::{lexeme_at, tokens};
use crate::lexer::{in_order, placed, TokenKind};
use crate::parser::grammar::{
    atom, binary, binding, binding_head, bound, call, callee, chained, class_decl, expr, exprs,
    fields, fold, just, kind_at, lambda, list, more_exprs, more_names, names, operand, operator_at,
    parenthesised, program, raw_ident, sequence, sequence_head, statement, unary, Miss, Outcome,
    Tokens,
};
use crate::parser::{node_view, nodes_view, AstNode, Node, Tree};
use crate::Spanned;
use internment::Intern;
use vstd::prelude::*;

verus! {

broadcast use crate::parser::grammar::lemma_join_at;

/// The token at `at` is one that no lexical rule matched.
pub open spec fn is_error(ts: Tokens, at: int) -> bool {
    0 <= at < ts.len() && ts[at].0.spec_kind() == TokenKind::Error
}

/// The miss lies inside the input or at its end, and not behind an `Error`
/// token that stands at `pos` or later.
pub open spec fn stops(ts: Tokens, pos: int, miss: Miss) -> bool {
    &&& 0 <= miss.at <= ts.len()
    &&& forall|e: int| pos <= e && #[trigger] is_error(ts, e) ==> miss.at <= e
}

/// What was read from `pos` on ends inside the input, and neither it nor the
/// miss reaches behind an `Error` token.
pub open spec fn bounded<T>(ts: Tokens, pos: int, out: Outcome<T>) -> bool {
    &&& stops(ts, pos, out.miss)
    &&& out.value is Some ==> {
        &&& pos <= out.next() <= ts.len()
        &&& forall|e: int| pos <= e && #[trigger] is_error(ts, e) ==> out.next() <= e
    }
}

/// What was read from `pos` on holds at least one token, and its span runs
/// from the first token read to the last.
pub open spec fn covers<'s, 'p>(ts: Tokens<'s, 'p>, pos: int, out: Outcome<Node<'s, 'p>>) -> bool {
    out.value is Some ==> {
        &&& 0 <= pos < out.next() <= ts.len()
        &&& out.item().0 == ts[pos].1.merged(ts[out.next() - 1].1)
    }
}

/// Brings up the token at `at`, so that what is known of `Error` tokens is
/// applied to it.
proof fn consider(ts: Tokens, at: int)
    ensures
        is_error(ts, at) ==> ts[at].0.spec_kind() == TokenKind::Error,
{
}

pub proof fn lemma_more_names<'s, 'p>(
    ts: Tokens<'s, 'p>,
    pos: int,
    got: Seq<Spanned<'p, Intern<String>>>,
    miss: Miss,
)
    requires
        0 <= pos <= ts.len(),
        stops(ts, pos, miss),
    ensures
        bounded(ts, pos, more_names(ts, pos, got, miss)),
        more_names(ts, pos, got, miss).value is Some,
    decreases ts.len() - pos,
{
    reveal_with_fuel(more_names, 1);
    let comma = just(ts, pos, TokenKind::Comma);
    let name = raw_ident(ts, pos + 1);
    if comma.value is Some && name.value is Some {
        lemma_more_names(ts, pos + 2, got.push(name.item()), miss);
    }
}

pub proof fn lemma_names(ts: Tokens, pos: int)
    requires
        0 <= pos <= ts.len(),
    ensures
        bounded(ts, pos, names(ts, pos)),
        names(ts, pos).value is Some,
{
    reveal_with_fuel(names, 1);
    let first = raw_ident(ts, pos);
    if first.value is Some {
        lemma_more_names(ts, pos + 1, seq![first.item()], Miss::nothing());
    }
}

pub proof fn lemma_fields(ts: Tokens, pos: int, miss: Miss)
    requires
        0 <= pos <= ts.len(),
        stops(ts, pos, miss),
    ensures
        bounded(ts, pos, fields(ts, pos, miss)),
        fields(ts, pos, miss).value is Some,
    decreases ts.len() - pos,
{
    reveal_with_fuel(fields, 1);
    let name = raw_ident(ts, pos);
    let colon = just(ts, pos + 1, TokenKind::Colon);
    let class = raw_ident(ts, pos + 2);
    if name.value is Some && colon.value is Some && class.value is Some {
        lemma_fields(ts, pos + 3, miss);
    }
}

pub proof fn lemma_class_decl(ts: Tokens, pos: int)
    requires
        0 <= pos <= ts.len(),
    ensures
        bounded(ts, pos, class_decl(ts, pos)),
        covers(ts, pos, class_decl(ts, pos)),
{
    reveal_with_fuel(class_decl, 1);
    consider(ts, pos);
    consider(ts, pos + 1);
    if pos + 2 <= ts.len() {
        lemma_fields(ts, pos + 2, Miss::nothing());
        consider(ts, fields(ts, pos + 2, Miss::nothing()).next());
    }
}

pub proof fn lemma_lambda(ts: Tokens, pos: int)
    requires
        0 <= pos <= ts.len(),
    ensures
        bounded(ts, pos, lambda(ts, pos)),
        covers(ts, pos, lambda(ts, pos)),
    decreases ts.len() - pos, 5int,
{
    reveal_with_fuel(lambda, 1);
    reveal_with_fuel(expr, 1);
    consider(ts, pos);
    if pos < ts.len() {
        lemma_names(ts, pos + 1);
        let parameters = names(ts, pos + 1);
        consider(ts, parameters.next());
        if parameters.next() < ts.len() {
            lemma_expr(ts, parameters.next() + 1);
        }
    }
}

pub proof fn lemma_callee(ts: Tokens, pos: int)
    requires
        0 <= pos <= ts.len(),
    ensures
        bounded(ts, pos, callee(ts, pos)),
        covers(ts, pos, callee(ts, pos)),
    decreases ts.len() - pos, 6int,
{
    reveal_with_fuel(callee, 1);
    reveal_with_fuel(lambda, 1);
    consider(ts, pos);
    if pos < ts.len() {
        lemma_lambda(ts, pos + 1);
        consider(ts, lambda(ts, pos + 1).next());
    }
}

pub proof fn lemma_more_exprs<'s, 'p>(
    ts: Tokens<'s, 'p>,
    pos: int,
    got: Seq<Node<'s, 'p>>,
    miss: Miss,
)
    requires
        0 <= pos <= ts.len(),
        stops(ts, pos, miss),
    ensures
        bounded(ts, pos, more_exprs(ts, pos, got, miss)),
        more_exprs(ts, pos, got, miss).value is Some,
    decreases ts.len() - pos, 0int,
{
    reveal_with_fuel(more_exprs, 1);
    reveal_with_fuel(expr, 1);
    consider(ts, pos);
    if pos < ts.len() {
        lemma_expr(ts, pos + 1);
        let item = expr(ts, pos + 1);
        if just(ts, pos, TokenKind::Comma).value is Some && item.reaches(pos + 1, ts.len()) {
            lemma_more_exprs(ts, item.next(), got.push(item.item()), miss.join(item.miss));
        }
    }
}

pub proof fn lemma_exprs(ts: Tokens, pos: int)
    requires
        0 <= pos <= ts.len(),
    ensures
        bounded(ts, pos, exprs(ts, pos)),
        exprs(ts, pos).value is Some,
    decreases ts.len() - pos, 21int,
{
    reveal_with_fuel(exprs, 1);
    reveal_with_fuel(expr, 1);
    reveal_with_fuel(more_exprs, 1);
    lemma_expr(ts, pos);
    let first = expr(ts, pos);
    if first.reaches(pos, ts.len()) {
        lemma_more_exprs(ts, first.next(), seq![first.item()], first.miss);
    }
}

pub proof fn lemma_call(ts: Tokens, pos: int)
    requires
        0 <= pos <= ts.len(),
    ensures
        bounded(ts, pos, call(ts, pos)),
        covers(ts, pos, call(ts, pos)),
    decreases ts.len() - pos, 7int,
{
    reveal_with_fuel(call, 1);
    reveal_with_fuel(callee, 1);
    reveal_with_fuel(exprs, 1);
    lemma_callee(ts, pos);
    let target = callee(ts, pos);
    if target.reaches(pos, ts.len()) {
        consider(ts, target.next());
        if target.next() < ts.len() {
            lemma_exprs(ts, target.next() + 1);
            consider(ts, exprs(ts, target.next() + 1).next());
        }
    }
}

pub proof fn lemma_parenthesised(ts: Tokens, pos: int)
    requires
        0 <= pos <= ts.len(),
    ensures
        bounded(ts, pos, parenthesised(ts, pos)),
        covers(ts, pos, parenthesised(ts, pos)),
    decreases ts.len() - pos, 5int,
{
    reveal_with_fuel(parenthesised, 1);
    reveal_with_fuel(expr, 1);
    consider(ts, pos);
    if pos < ts.len() {
        lemma_expr(ts, pos + 1);
        consider(ts, expr(ts, pos + 1).next());
    }
}

pub proof fn lemma_list(ts: Tokens, pos: int)
    requires
        0 <= pos <= ts.len(),
    ensures
        bounded(ts, pos, list(ts, pos)),
        covers(ts, pos, list(ts, pos)),
    decreases ts.len() - pos, 5int,
{
    reveal_with_fuel(list, 1);
    reveal_with_fuel(exprs, 1);
    consider(ts, pos);
    if pos < ts.len() {
        lemma_exprs(ts, pos + 1);
        consider(ts, exprs(ts, pos + 1).next());
    }
}

pub proof fn lemma_atom(ts: Tokens, pos: int)
    requires
        0 <= pos <= ts.len(),
    ensures
        bounded(ts, pos, atom(ts, pos)),
        covers(ts, pos, atom(ts, pos)),
    decreases ts.len() - pos, 8int,
{
    reveal_with_fuel(atom, 1);
    reveal_with_fuel(call, 1);
    reveal_with_fuel(lambda, 1);
    reveal_with_fuel(parenthesised, 1);
    reveal_with_fuel(list, 1);
    consider(ts, pos);
    lemma_call(ts, pos);
    lemma_lambda(ts, pos);
    lemma_parenthesised(ts, pos);
    lemma_list(ts, pos);
}

pub proof fn lemma_unary(ts: Tokens, pos: int)
    requires
        0 <= pos <= ts.len(),
    ensures
        bounded(ts, pos, unary(ts, pos)),
        covers(ts, pos, unary(ts, pos)),
    decreases ts.len() - pos, 9int,
{
    reveal_with_fuel(unary, 1);
    reveal_with_fuel(atom, 1);
    consider(ts, pos);
    if pos < ts.len() && ts[pos].0.spec_kind() == TokenKind::Sub {
        lemma_unary(ts, pos + 1);
    } else {
        lemma_atom(ts, pos);
    }
}

pub proof fn lemma_operand(ts: Tokens, pos: int, level: nat)
    requires
        0 <= pos <= ts.len(),
    ensures
        bounded(ts, pos, operand(ts, pos, level)),
        covers(ts, pos, operand(ts, pos, level)),
    decreases ts.len() - pos, 10 + 2 * level,
{
    reveal_with_fuel(operand, 1);
    reveal_with_fuel(unary, 1);
    reveal_with_fuel(binary, 1);
    if level == 0 {
        lemma_unary(ts, pos);
    } else {
        lemma_binary(ts, pos, (level - 1) as nat);
    }
}

pub proof fn lemma_fold<'s, 'p>(
    ts: Tokens<'s, 'p>,
    pos: int,
    level: nat,
    left: Node<'s, 'p>,
    miss: Miss,
    start: int,
)
    requires
        0 <= start < pos <= ts.len(),
        stops(ts, pos, miss),
        left.0 == ts[start].1.merged(ts[pos - 1].1),
    ensures
        bounded(ts, pos, fold(ts, pos, level, left, miss)),
        fold(ts, pos, level, left, miss).value is Some,
        fold(ts, pos, level, left, miss).item().0 == ts[start].1.merged(
            ts[fold(ts, pos, level, left, miss).next() - 1].1,
        ),
    decreases ts.len() - pos, 0int,
{
    reveal_with_fuel(fold, 1);
    reveal_with_fuel(operand, 1);
    consider(ts, pos);
    if pos < ts.len() {
        lemma_operand(ts, pos + 1, level);
        let right = operand(ts, pos + 1, level);
        match operator_at(ts, pos, level) {
            Some(op) => {
                if right.reaches(pos + 1, ts.len()) {
                    lemma_fold(
                        ts,
                        right.next(),
                        level,
                        (
                            left.0.merged(right.item().0),
                            Tree::BinOp(
                                Box::new(left),
                                op,
                                Box::new(right.item()),
                            ),
                        ),
                        miss.join(right.miss),
                        start,
                    );
                }
            },
            None => {},
        }
    }
}

pub proof fn lemma_binary(ts: Tokens, pos: int, level: nat)
    requires
        0 <= pos <= ts.len(),
    ensures
        bounded(ts, pos, binary(ts, pos, level)),
        covers(ts, pos, binary(ts, pos, level)),
    decreases ts.len() - pos, 11 + 2 * level,
{
    reveal_with_fuel(binary, 1);
    reveal_with_fuel(operand, 1);
    reveal_with_fuel(fold, 1);
    lemma_operand(ts, pos, level);
    let first = operand(ts, pos, level);
    if first.reaches(pos, ts.len()) {
        lemma_fold(ts, first.next(), level, first.item(), first.miss, pos);
    }
}

pub proof fn lemma_expr(ts: Tokens, pos: int)
    requires
        0 <= pos <= ts.len(),
    ensures
        bounded(ts, pos, expr(ts, pos)),
        covers(ts, pos, expr(ts, pos)),
    decreases ts.len() - pos, 20int,
{
    reveal_with_fuel(expr, 1);
    reveal_with_fuel(binary, 1);
    lemma_binary(ts, pos, 4);
}

/// The head of a binding starts with `let`, ends with `;` and holds an
/// expression between them.
pub proof fn lemma_binding_head(ts: Tokens, pos: int)
    requires
        0 <= pos <= ts.len(),
    ensures
        bounded(ts, pos, binding_head(ts, pos)),
        binding_head(ts, pos).value is Some ==> {
            &&& pos + 4 < binding_head(ts, pos).next() <= ts.len()
            &&& kind_at(ts, pos) == Some(TokenKind::KwLet)
            &&& binding_head(ts, pos).item().0 == ts[pos].1
        },
        binding_head(ts, pos).value is None ==> binding(ts, pos) == Outcome::<Node>::fail(
            binding_head(ts, pos).miss,
        ),
{
    reveal_with_fuel(binding_head, 1);
    reveal_with_fuel(binding, 1);
    consider(ts, pos);
    consider(ts, pos + 1);
    consider(ts, pos + 2);
    if pos + 3 <= ts.len() {
        lemma_expr(ts, pos + 3);
        consider(ts, expr(ts, pos + 3).next());
    }
}

/// The head of a sequence is an expression with `;` behind it.
pub proof fn lemma_sequence_head(ts: Tokens, pos: int)
    requires
        0 <= pos <= ts.len(),
    ensures
        bounded(ts, pos, sequence_head(ts, pos)),
        sequence_head(ts, pos).value is Some ==> {
            &&& pos + 1 < sequence_head(ts, pos).next() <= ts.len()
            &&& expr(ts, pos) == Outcome::found(
                sequence_head(ts, pos).item(),
                sequence_head(ts, pos).next() - 1,
                sequence_head(ts, pos).miss,
            )
        },
        sequence_head(ts, pos).value is None ==> sequence(ts, pos) == Outcome::<Node>::fail(
            sequence_head(ts, pos).miss,
        ),
{
    reveal_with_fuel(sequence_head, 1);
    reveal_with_fuel(sequence, 1);
    lemma_expr(ts, pos);
    consider(ts, expr(ts, pos).next());
}

pub proof fn lemma_binding(ts: Tokens, pos: int)
    requires
        0 <= pos <= ts.len(),
    ensures
        bounded(ts, pos, binding(ts, pos)),
        covers(ts, pos, binding(ts, pos)),
    decreases ts.len() - pos, 22int,
{
    reveal_with_fuel(binding, 1);
    reveal_with_fuel(statement, 1);
    lemma_binding_head(ts, pos);
    let head = binding_head(ts, pos);
    if head.value is Some {
        lemma_statement(ts, head.next());
    }
}

pub proof fn lemma_sequence(ts: Tokens, pos: int)
    requires
        0 <= pos <= ts.len(),
    ensures
        bounded(ts, pos, sequence(ts, pos)),
        covers(ts, pos, sequence(ts, pos)),
    decreases ts.len() - pos, 22int,
{
    reveal_with_fuel(sequence, 1);
    reveal_with_fuel(statement, 1);
    lemma_sequence_head(ts, pos);
    lemma_expr(ts, pos);
    let head = sequence_head(ts, pos);
    if head.value is Some {
        lemma_statement(ts, head.next());
    }
}

pub proof fn lemma_statement(ts: Tokens, pos: int)
    requires
        0 <= pos <= ts.len(),
    ensures
        bounded(ts, pos, statement(ts, pos)),
        covers(ts, pos, statement(ts, pos)),
    decreases ts.len() - pos, 23int,
{
    reveal_with_fuel(statement, 1);
    reveal_with_fuel(binding, 1);
    reveal_with_fuel(sequence, 1);
    reveal_with_fuel(expr, 1);
    lemma_binding(ts, pos);
    lemma_class_decl(ts, pos);
    lemma_sequence(ts, pos);
    lemma_expr(ts, pos);
}

/// A list node shows the nodes it holds.
pub proof fn lemma_list_view<'s, 'p>(items: Vec<Spanned<'p, AstNode<'s, 'p>>>)
    ensures
        AstNode::List(items)@ == Tree::List(nodes_view(items@)),
{
    let node = AstNode::List(items);
    let shown = node.tree();
    assert(node->List_0 == items);
    assert(shown->List_0.len() == items@.len());
    assert(shown->List_0 =~= nodes_view(items@));
}

/// A call node shows the callee and the arguments it holds.
pub proof fn lemma_call_view<'s, 'p>(
    target: Spanned<'p, AstNode<'s, 'p>>,
    arguments: Vec<Spanned<'p, AstNode<'s, 'p>>>,
)
    ensures
        AstNode::Call(Box::new(target), arguments)@ == Tree::Call(
            Box::new(node_view(target)),
            nodes_view(arguments@),
        ),
{
    let node = AstNode::Call(Box::new(target), arguments);
    let shown = node.tree();
    assert(node->Call_1 == arguments);
    assert(shown->Call_1.len() == arguments@.len());
    assert(shown->Call_1 =~= nodes_view(arguments@));
}

/// Spans that run over tokens in order can be merged, and the merged span
/// runs from the first token to the last.
pub proof fn lemma_merge_in_order<'s, 'p>(
    ts: Tokens<'s, 'p>,
    first: int,
    mid: int,
    then: int,
    last: int,
)
    requires
        in_order(ts),
        0 <= first <= mid <= last < ts.len(),
        first <= then <= last,
    ensures
        ts[first].1.merged(ts[mid].1).precedes(ts[then].1.merged(ts[last].1)),
        ts[first].1.merged(ts[mid].1).wf(),
        ts[then].1.merged(ts[last].1).wf(),
        ts[first].1.merged(ts[mid].1).merged(ts[then].1.merged(ts[last].1)) == ts[first].1.merged(
            ts[last].1,
        ),
{
    assert(ts[first].1.wf() && ts[mid].1.wf() && ts[then].1.wf() && ts[last].1.wf());
    if first < mid {
        assert(ts[first].1.precedes(ts[mid].1));
    }
    if first < then {
        assert(ts[first].1.precedes(ts[then].1));
    }
    if then < last {
        assert(ts[then].1.precedes(ts[last].1));
    }
    if mid < last {
        assert(ts[mid].1.precedes(ts[last].1));
    }
    if first < last {
        assert(ts[first].1.precedes(ts[last].1));
    }
}

/// Behind a run of `-` that ends where nothing can be read, nothing can be
/// read from the start of the run either, and the miss is the same.
pub proof fn lemma_unary_fails<'s, 'p>(ts: Tokens<'s, 'p>, pos: int, at: int)
    requires
        0 <= pos <= at <= ts.len(),
        forall|k: int| pos <= k < at ==> (#[trigger] ts[k]).0.spec_kind() == TokenKind::Sub,
        unary(ts, at).value is None,
    ensures
        unary(ts, pos) == Outcome::<Node<'s, 'p>>::fail(unary(ts, at).miss),
    decreases at - pos,
{
    reveal_with_fuel(unary, 1);
    if pos < at {
        lemma_unary_fails(ts, pos + 1, at);
    }
}

/// A token of this kind may start an expression.
pub open spec fn starts_expr(kind: Option<TokenKind>) -> bool {
    ||| kind == Some(TokenKind::Ident)
    ||| kind == Some(TokenKind::LParen)
    ||| kind == Some(TokenKind::Lambda)
    ||| kind == Some(TokenKind::String)
    ||| kind == Some(TokenKind::Integer)
    ||| kind == Some(TokenKind::Float)
    ||| kind == Some(TokenKind::Symbol)
    ||| kind == Some(TokenKind::LBracket)
    ||| kind == Some(TokenKind::Sub)
}

proof fn lemma_call_needs_start(ts: Tokens, pos: int)
    requires
        !starts_expr(kind_at(ts, pos)),
    ensures
        call(ts, pos).value is None,
{
    reveal_with_fuel(call, 1);
    reveal_with_fuel(callee, 1);
}

proof fn lemma_atom_needs_start(ts: Tokens, pos: int)
    requires
        !starts_expr(kind_at(ts, pos)),
    ensures
        atom(ts, pos).value is None,
{
    reveal_with_fuel(atom, 1);
    reveal_with_fuel(call, 1);
    reveal_with_fuel(lambda, 1);
    reveal_with_fuel(parenthesised, 1);
    reveal_with_fuel(list, 1);
    lemma_call_needs_start(ts, pos);
}

proof fn lemma_unary_needs_start(ts: Tokens, pos: int)
    requires
        !starts_expr(kind_at(ts, pos)),
    ensures
        unary(ts, pos).value is None,
{
    reveal_with_fuel(unary, 1);
    reveal_with_fuel(atom, 1);
    lemma_atom_needs_start(ts, pos);
}

proof fn lemma_binary_needs_start(ts: Tokens, pos: int, level: nat)
    requires
        !starts_expr(kind_at(ts, pos)),
    ensures
        binary(ts, pos, level).value is None,
    decreases level,
{
    reveal_with_fuel(binary, 1);
    reveal_with_fuel(operand, 1);
    reveal_with_fuel(unary, 1);
    if level == 0 {
        lemma_unary_needs_start(ts, pos);
    } else {
        lemma_binary_needs_start(ts, pos, (level - 1) as nat);
    }
}

/// Where no expression can start, none is read.
pub proof fn lemma_expr_needs_start(ts: Tokens, pos: int)
    requires
        !starts_expr(kind_at(ts, pos)),
    ensures
        expr(ts, pos).value is None,
{
    reveal_with_fuel(expr, 1);
    reveal_with_fuel(binary, 1);
    lemma_binary_needs_start(ts, pos, 4);
}

/// At `let` only a binding can be read: there is no class and no expression
/// there, and so no sequence.
pub proof fn lemma_only_binding_at_let(ts: Tokens, pos: int)
    requires
        kind_at(ts, pos) == Some(TokenKind::KwLet),
    ensures
        class_decl(ts, pos).value is None,
        expr(ts, pos).value is None,
        sequence(ts, pos) == Outcome::<Node>::fail(expr(ts, pos).miss),
{
    reveal_with_fuel(class_decl, 1);
    reveal_with_fuel(sequence, 1);
    reveal_with_fuel(sequence_head, 1);
    lemma_expr_needs_start(ts, pos);
}

/// Behind the head of a binding a statement is the binding, if the
/// statements behind the head are read; else nothing is read.
pub proof fn lemma_statement_with_binding(ts: Tokens, pos: int)
    requires
        0 <= pos <= ts.len(),
        binding_head(ts, pos).value is Some,
    ensures
        ({
            let head = binding_head(ts, pos);
            let made = bound(head, statement(ts, head.next()), ts.len());
            statement(ts, pos) == if made.value is Some {
                made
            } else {
                Outcome::fail(
                    made.miss.join(class_decl(ts, pos).miss).join(expr(ts, pos).miss).join(
                        expr(ts, pos).miss,
                    ),
                )
            }
        }),
{
    reveal_with_fuel(statement, 1);
    reveal_with_fuel(binding, 1);
    reveal_with_fuel(sequence, 1);
    reveal_with_fuel(expr, 1);
    lemma_binding_head(ts, pos);
    lemma_only_binding_at_let(ts, pos);
}

/// Behind the head of a sequence, where neither a binding nor a class is
/// read, a statement is the sequence, if the statements behind the head are
/// read; else it is the first expression alone.
pub proof fn lemma_statement_with_sequence(ts: Tokens, pos: int)
    requires
        0 <= pos <= ts.len(),
        binding_head(ts, pos).value is None,
        class_decl(ts, pos).value is None,
        sequence_head(ts, pos).value is Some,
    ensures
        ({
            let head = sequence_head(ts, pos);
            let before = binding_head(ts, pos).miss.join(class_decl(ts, pos).miss);
            let made = chained(head, statement(ts, head.next()), ts.len());
            statement(ts, pos) == if made.value is Some {
                made.after(before)
            } else {
                Outcome::found(head.item(), head.next() - 1, before.join(made.miss).join(head.miss))
            }
        }),
{
    reveal_with_fuel(statement, 1);
    reveal_with_fuel(binding, 1);
    reveal_with_fuel(sequence, 1);
    reveal_with_fuel(expr, 1);
    lemma_binding_head(ts, pos);
    lemma_sequence_head(ts, pos);
}

/// Where no `(` follows an identifier, no call is read at the identifier.
pub proof fn lemma_call_needs_arguments(ts: Tokens, pos: int)
    requires
        0 <= pos < ts.len(),
        ts[pos].0 is Ident,
        kind_at(ts, pos + 1) != Some(TokenKind::LParen),
    ensures
        call(ts, pos).value is None,
{
    reveal_with_fuel(call, 1);
    reveal_with_fuel(callee, 1);
}

/// An identifier that no `(` follows is read as the identifier alone: the
/// call, which is tried before it, reads nothing there.
pub proof fn lemma_identifier_alone(ts: Tokens, pos: int)
    requires
        0 <= pos < ts.len(),
        ts[pos].0 is Ident,
        kind_at(ts, pos + 1) != Some(TokenKind::LParen),
    ensures
        atom(ts, pos).value == Some(((ts[pos].1, Tree::Ident(ts[pos].0->Ident_0)), pos + 1)),
{
    reveal_with_fuel(atom, 1);
    reveal_with_fuel(call, 1);
    reveal_with_fuel(lambda, 1);
    reveal_with_fuel(parenthesised, 1);
    reveal_with_fuel(list, 1);
    lemma_call_needs_arguments(ts, pos);
}

/// A program takes up all the tokens, and its span runs from the first of
/// them to the last.
pub proof fn lemma_program(ts: Tokens)
    ensures
        bounded(ts, 0, program(ts)),
        program(ts).value is Some ==> {
            &&& ts.len() > 0
            &&& program(ts).next() == ts.len()
            &&& program(ts).item().0 == ts[0].1.merged(ts.last().1)
        },
{
    lemma_statement(ts, 0);
    consider(ts, statement(ts, 0).next());
}

/// A token sequence that holds an `Error` token is no program, and the
/// miss that is reported lies at that token or before it.
pub proof fn lemma_error_token_rejected(ts: Tokens, at: int)
    requires
        is_error(ts, at),
    ensures
        program(ts).value is None,
        0 <= program(ts).miss.at <= at,
{
    lemma_program(ts);
}

/// Text that no lexical rule matches makes a source that is no program:
/// where the scan of `bytes` comes to stand at such text, the tokens hold an
/// `Error` token that starts there, and the miss that is reported lies at
/// that token or before it.
pub proof fn lemma_unmatched_text_is_rejected(bytes: Seq<u8>, at: int, ts: Tokens)
    requires
        placed(ts) == tokens(bytes),
        0 <= at < bytes.len(),
        reached(bytes, 0, at),
        lexeme_at(bytes, at).kind == Some(TokenKind::Error),
    ensures
        program(ts).value is None,
        exists|index: int| #[trigger]
            is_error(ts, index) && ts[index].1.start == at && 0 <= program(ts).miss.at <= index,
{
    let index = lemma_unmatched_text_is_error(bytes, 0, at);
    assert(placed(ts)[index].token.kind == TokenKind::Error);
    assert(is_error(ts, index));
    lemma_error_token_rejected(ts, index);
}

} // verus!
