//! How the spans of a tree lie in one another.
//!
//! In every tree that the grammar reads from tokens in order, the span of a
//! node encloses the spans of its children, and the children stand in the
//! order of the source.
use crate::lexer::{in_order, TokenKind};
use crate::parser::grammar::{atom, binary, binding, binding_head, call, callee, class_decl, expr, exprs, fold, just, kind_at, lambda, list, more_exprs, more_names, names, operand, operator_at, parenthesised, program, raw_ident, sequence, sequence_head, statement, unary, Miss, Tokens};
use crate::parser::laws::{lemma_binding_head, lemma_callee, lemma_class_decl, lemma_expr, lemma_lambda, lemma_operand, lemma_sequence_head, lemma_statement, lemma_unary};
use crate::parser::{Node, Tree};
use crate::{Span, Spanned};
use internment::Intern;
use vstd::prelude::*;

verus! {

/// `inner` lies in `outer`.
pub open spec fn encloses<'p>(outer: Span<'p>, inner: Span<'p>) -> bool {
    &&& outer.file@ == inner.file@
    &&& outer.start <= inner.start
    &&& inner.end <= outer.end
}

/// The nodes stand in the order of the source.
pub open spec fn in_row<'s, 'p>(nodes: Seq<Node<'s, 'p>>) -> bool {
    forall|i: int, j: int|
        0 <= i < j < nodes.len() ==> (#[trigger] nodes[i]).0.precedes((#[trigger] nodes[j]).0)
}

/// The names stand in the order of the source.
pub open spec fn names_in_row<'p>(found: Seq<Spanned<'p, Intern<String>>>) -> bool {
    forall|i: int, j: int|
        0 <= i < j < found.len() ==> (#[trigger] found[i]).0.precedes((#[trigger] found[j]).0)
}

/// The span of the node is well formed and encloses the spans of its
/// children, the children stand in the order of the source, and the same
/// holds of each child.
pub open spec fn nested<'s, 'p>(span: Span<'p>, tree: Tree<'s, 'p>) -> bool
    decreases tree,
{
    &&& span.wf()
    &&& match tree {
        Tree::Class(name) => encloses(span, name.0),
        Tree::Let(name, value, rest) => {
            &&& encloses(span, name.0)
            &&& encloses(span, value.0)
            &&& encloses(span, rest.0)
            &&& name.0.precedes(value.0)
            &&& value.0.precedes(rest.0)
            &&& nested(value.0, value.1)
            &&& nested(rest.0, rest.1)
        },
        Tree::Statement(first, rest) => {
            &&& encloses(span, first.0)
            &&& encloses(span, rest.0)
            &&& first.0.precedes(rest.0)
            &&& nested(first.0, first.1)
            &&& nested(rest.0, rest.1)
        },
        Tree::Literal(_) => true,
        Tree::List(items) => {
            &&& in_row(items)
            &&& forall|i: int|
                0 <= i < items.len() ==> encloses(span, (#[trigger] items[i]).0) && nested(
                    items[i].0,
                    items[i].1,
                )
        },
        Tree::Ident(_) => true,
        Tree::Call(target, arguments) => {
            &&& encloses(span, target.0)
            &&& nested(target.0, target.1)
            &&& in_row(arguments)
            &&& forall|i: int|
                0 <= i < arguments.len() ==> encloses(span, (#[trigger] arguments[i]).0)
                    && target.0.precedes(arguments[i].0) && nested(
                    arguments[i].0,
                    arguments[i].1,
                )
        },
        Tree::Lambda(parameters, body) => {
            &&& encloses(span, body.0)
            &&& nested(body.0, body.1)
            &&& names_in_row(parameters)
            &&& forall|i: int|
                0 <= i < parameters.len() ==> encloses(span, (#[trigger] parameters[i]).0)
                    && parameters[i].0.precedes(body.0)
        },
        Tree::UnaryOp(_, operand) => encloses(span, operand.0) && nested(operand.0, operand.1),
        Tree::BinOp(left, _, right) => {
            &&& encloses(span, left.0)
            &&& encloses(span, right.0)
            &&& left.0.precedes(right.0)
            &&& nested(left.0, left.1)
            &&& nested(right.0, right.1)
        },
    }
}

/// The span lies among the tokens from `lo` up to `hi`: it starts and ends
/// no earlier than the first of them and no later than the last.
pub open spec fn within<'p>(ts: Tokens<'_, 'p>, span: Span<'p>, lo: int, hi: int) -> bool {
    &&& 0 <= lo < hi <= ts.len()
    &&& span.wf()
    &&& span.file@ == ts[lo].1.file@
    &&& ts[lo].1.start <= span.start <= ts[hi - 1].1.start
    &&& ts[lo].1.end <= span.end <= ts[hi - 1].1.end
}

/// Of two tokens in order the first neither starts nor ends after the second.
proof fn lemma_order(ts: Tokens, i: int, j: int)
    requires
        in_order(ts),
        0 <= i <= j < ts.len(),
    ensures
        ts[i].1.wf(),
        ts[j].1.wf(),
        ts[i].1.precedes(ts[j].1),
{
    if i < j {
        assert(ts[i].1.precedes(ts[j].1));
    }
}

/// The span of the tokens from `from` up to `to` lies among any tokens that
/// take them in.
proof fn lemma_cover_within(ts: Tokens, lo: int, from: int, to: int, hi: int)
    requires
        in_order(ts),
        0 <= lo <= from < to <= hi <= ts.len(),
    ensures
        within(ts, ts[from].1.merged(ts[to - 1].1), lo, hi),
{
    lemma_order(ts, lo, from);
    lemma_order(ts, from, to - 1);
    lemma_order(ts, to - 1, hi - 1);
    lemma_order(ts, lo, to - 1);
    lemma_order(ts, from, hi - 1);
}

/// A span among earlier tokens stands before a span among later ones.
proof fn lemma_within_precedes<'p>(
    ts: Tokens<'_, 'p>,
    first: Span<'p>,
    lo: int,
    hi: int,
    second: Span<'p>,
    from: int,
    to: int,
)
    requires
        in_order(ts),
        within(ts, first, lo, hi),
        within(ts, second, from, to),
        hi <= from + 1,
    ensures
        first.precedes(second),
{
    lemma_order(ts, hi - 1, from);
    lemma_order(ts, lo, from);
}

/// A span among some tokens lies in the span of any tokens that take them in.
proof fn lemma_within_enclosed<'p>(
    ts: Tokens<'_, 'p>,
    span: Span<'p>,
    lo: int,
    hi: int,
    from: int,
    to: int,
)
    requires
        in_order(ts),
        within(ts, span, lo, hi),
        0 <= from <= lo,
        hi <= to <= ts.len(),
    ensures
        encloses(ts[from].1.merged(ts[to - 1].1), span),
        ts[from].1.merged(ts[to - 1].1).wf(),
        within(ts, span, from, to),
{
    lemma_order(ts, from, lo);
    lemma_order(ts, hi - 1, to - 1);
    lemma_order(ts, from, to - 1);
}

/// A node stays nested when its span is widened.
proof fn lemma_widen<'s, 'p>(span: Span<'p>, tree: Tree<'s, 'p>, wider: Span<'p>)
    requires
        nested(span, tree),
        encloses(wider, span),
        wider.wf(),
    ensures
        nested(wider, tree),
{
}

/// The nodes lie among the tokens from `lo` up to `hi`, in the order of the
/// source, and each is nested.
pub open spec fn row<'s, 'p>(ts: Tokens<'s, 'p>, nodes: Seq<Node<'s, 'p>>, lo: int, hi: int) -> bool {
    &&& in_row(nodes)
    &&& forall|i: int|
        0 <= i < nodes.len() ==> within(ts, (#[trigger] nodes[i]).0, lo, hi) && nested(
            nodes[i].0,
            nodes[i].1,
        )
}

/// The names lie among the tokens from `lo` up to `hi`, in the order of the
/// source.
pub open spec fn name_row<'s, 'p>(
    ts: Tokens<'s, 'p>,
    found: Seq<Spanned<'p, Intern<String>>>,
    lo: int,
    hi: int,
) -> bool {
    &&& names_in_row(found)
    &&& forall|i: int| 0 <= i < found.len() ==> within(ts, (#[trigger] found[i]).0, lo, hi)
}

proof fn lemma_nested_more_names<'s, 'p>(
    ts: Tokens<'s, 'p>,
    pos: int,
    got: Seq<Spanned<'p, Intern<String>>>,
    miss: Miss,
    lo: int,
)
    requires
        in_order(ts),
        0 <= lo < pos <= ts.len(),
        name_row(ts, got, lo, pos),
    ensures
        more_names(ts, pos, got, miss).value is Some,
        pos <= more_names(ts, pos, got, miss).next() <= ts.len(),
        name_row(ts, more_names(ts, pos, got, miss).item(), lo, more_names(ts, pos, got, miss).next()),
    decreases ts.len() - pos,
{
    reveal_with_fuel(more_names, 1);
    let comma = just(ts, pos, TokenKind::Comma);
    let name = raw_ident(ts, pos + 1);
    if comma.value is Some && name.value is Some {
        let more = got.push(name.item());
        lemma_cover_within(ts, lo, pos + 1, pos + 2, pos + 2);
        assert(ts[pos + 1].1.merged(ts[pos + 1].1) == ts[pos + 1].1);
        assert forall|i: int| 0 <= i < more.len() implies within(
            ts,
            (#[trigger] more[i]).0,
            lo,
            pos + 2,
        ) by {
            if i < got.len() {
                lemma_within_enclosed(ts, got[i].0, lo, pos, lo, pos + 2);
            }
        }
        assert forall|i: int, j: int| 0 <= i < j < more.len() implies (#[trigger] more[i]).0.precedes(
            (#[trigger] more[j]).0,
        ) by {
            if j == got.len() {
                lemma_within_precedes(ts, got[i].0, lo, pos, more[j].0, pos + 1, pos + 2);
            }
        }
        lemma_nested_more_names(ts, pos + 2, more, miss, lo);
    }
}

proof fn lemma_nested_names(ts: Tokens, pos: int)
    requires
        in_order(ts),
        0 <= pos <= ts.len(),
    ensures
        names(ts, pos).value is Some,
        pos <= names(ts, pos).next() <= ts.len(),
        names(ts, pos).next() == pos ==> names(ts, pos).item().len() == 0,
        names(ts, pos).next() > pos ==> name_row(
            ts,
            names(ts, pos).item(),
            pos,
            names(ts, pos).next(),
        ),
{
    reveal_with_fuel(names, 1);
    let first = raw_ident(ts, pos);
    if first.value is Some {
        lemma_cover_within(ts, pos, pos, pos + 1, pos + 1);
        assert(ts[pos].1.merged(ts[pos].1) == ts[pos].1);
        lemma_nested_more_names(ts, pos + 1, seq![first.item()], Miss::nothing(), pos);
    }
}

proof fn lemma_nested_class_decl(ts: Tokens, pos: int)
    requires
        in_order(ts),
        0 <= pos <= ts.len(),
    ensures
        class_decl(ts, pos).value is Some ==> nested(
            class_decl(ts, pos).item().0,
            class_decl(ts, pos).item().1,
        ),
{
    reveal_with_fuel(class_decl, 1);
    lemma_class_decl(ts, pos);
    let out = class_decl(ts, pos);
    if out.value is Some {
        lemma_cover_within(ts, pos, pos + 1, pos + 2, out.next());
        assert(ts[pos + 1].1.merged(ts[pos + 1].1) == ts[pos + 1].1);
        lemma_within_enclosed(ts, ts[pos + 1].1, pos, out.next(), pos, out.next());
    }
}

proof fn lemma_nested_lambda(ts: Tokens, pos: int)
    requires
        in_order(ts),
        0 <= pos <= ts.len(),
    ensures
        lambda(ts, pos).value is Some ==> nested(lambda(ts, pos).item().0, lambda(ts, pos).item().1),
    decreases ts.len() - pos, 5int,
{
    reveal_with_fuel(lambda, 1);
    reveal_with_fuel(expr, 1);
    lemma_lambda(ts, pos);
    let out = lambda(ts, pos);
    if out.value is Some {
        let parameters = names(ts, pos + 1);
        lemma_nested_names(ts, pos + 1);
        let from = parameters.next() + 1;
        let body = expr(ts, from);
        lemma_nested_expr(ts, from);
        lemma_expr(ts, from);
        let end = out.next();
        lemma_cover_within(ts, pos, from, end, end);
        lemma_within_enclosed(ts, body.item().0, pos, end, pos, end);
        assert forall|i: int| 0 <= i < parameters.item().len() implies encloses(
            out.item().0,
            (#[trigger] parameters.item()[i]).0,
        ) && parameters.item()[i].0.precedes(body.item().0) by {
            lemma_within_enclosed(ts, parameters.item()[i].0, pos + 1, parameters.next(), pos, end);
            lemma_cover_within(ts, from, from, end, end);
            lemma_within_precedes(
                ts,
                parameters.item()[i].0,
                pos + 1,
                parameters.next(),
                body.item().0,
                from,
                end,
            );
        }
    }
}

proof fn lemma_nested_callee(ts: Tokens, pos: int)
    requires
        in_order(ts),
        0 <= pos <= ts.len(),
    ensures
        callee(ts, pos).value is Some ==> nested(callee(ts, pos).item().0, callee(ts, pos).item().1),
    decreases ts.len() - pos, 6int,
{
    reveal_with_fuel(callee, 1);
    reveal_with_fuel(lambda, 1);
    lemma_callee(ts, pos);
    let out = callee(ts, pos);
    if out.value is Some {
        lemma_order(ts, pos, pos);
        if !(ts[pos].0 is Ident) {
            let inner = lambda(ts, pos + 1);
            lemma_nested_lambda(ts, pos + 1);
            lemma_lambda(ts, pos + 1);
            lemma_cover_within(ts, pos, pos + 1, inner.next(), out.next());
            lemma_within_enclosed(ts, inner.item().0, pos, out.next(), pos, out.next());
            lemma_widen(inner.item().0, inner.item().1, out.item().0);
        }
    }
}

proof fn lemma_nested_more_exprs<'s, 'p>(
    ts: Tokens<'s, 'p>,
    pos: int,
    got: Seq<Node<'s, 'p>>,
    miss: Miss,
    lo: int,
)
    requires
        in_order(ts),
        0 <= lo < pos <= ts.len(),
        row(ts, got, lo, pos),
    ensures
        more_exprs(ts, pos, got, miss).value is Some,
        pos <= more_exprs(ts, pos, got, miss).next() <= ts.len(),
        row(ts, more_exprs(ts, pos, got, miss).item(), lo, more_exprs(ts, pos, got, miss).next()),
    decreases ts.len() - pos, 0int,
{
    reveal_with_fuel(more_exprs, 1);
    reveal_with_fuel(expr, 1);
    let comma = just(ts, pos, TokenKind::Comma);
    if comma.value is Some {
        let item = expr(ts, pos + 1);
        lemma_expr(ts, pos + 1);
        lemma_nested_expr(ts, pos + 1);
        if item.reaches(pos + 1, ts.len()) {
            let more = got.push(item.item());
            let end = item.next();
            lemma_cover_within(ts, lo, pos + 1, end, end);
            lemma_cover_within(ts, pos + 1, pos + 1, end, end);
            assert forall|i: int| 0 <= i < more.len() implies within(
                ts,
                (#[trigger] more[i]).0,
                lo,
                end,
            ) && nested(more[i].0, more[i].1) by {
                if i < got.len() {
                    lemma_within_enclosed(ts, got[i].0, lo, pos, lo, end);
                }
            }
            assert forall|i: int, j: int| 0 <= i < j < more.len() implies (
            #[trigger] more[i]).0.precedes((#[trigger] more[j]).0) by {
                if j == got.len() {
                    lemma_within_precedes(ts, got[i].0, lo, pos, more[j].0, pos + 1, end);
                }
            }
            lemma_nested_more_exprs(ts, end, more, miss.join(item.miss), lo);
        }
    }
}

proof fn lemma_nested_exprs(ts: Tokens, pos: int)
    requires
        in_order(ts),
        0 <= pos <= ts.len(),
    ensures
        exprs(ts, pos).value is Some,
        pos <= exprs(ts, pos).next() <= ts.len(),
        exprs(ts, pos).next() == pos ==> exprs(ts, pos).item().len() == 0,
        exprs(ts, pos).next() > pos ==> row(ts, exprs(ts, pos).item(), pos, exprs(ts, pos).next()),
    decreases ts.len() - pos, 21int,
{
    reveal_with_fuel(exprs, 1);
    reveal_with_fuel(expr, 1);
    reveal_with_fuel(more_exprs, 1);
    let first = expr(ts, pos);
    lemma_expr(ts, pos);
    lemma_nested_expr(ts, pos);
    if first.reaches(pos, ts.len()) {
        lemma_cover_within(ts, pos, pos, first.next(), first.next());
        lemma_nested_more_exprs(ts, first.next(), seq![first.item()], first.miss, pos);
    }
}

proof fn lemma_nested_call(ts: Tokens, pos: int)
    requires
        in_order(ts),
        0 <= pos <= ts.len(),
    ensures
        call(ts, pos).value is Some ==> nested(call(ts, pos).item().0, call(ts, pos).item().1),
    decreases ts.len() - pos, 7int,
{
    reveal_with_fuel(call, 1);
    reveal_with_fuel(callee, 1);
    reveal_with_fuel(exprs, 1);
    let out = call(ts, pos);
    if out.value is Some {
        let target = callee(ts, pos);
        lemma_callee(ts, pos);
        lemma_nested_callee(ts, pos);
        let from = target.next() + 1;
        let arguments = exprs(ts, from);
        lemma_nested_exprs(ts, from);
        let end = out.next();
        lemma_cover_within(ts, pos, pos, target.next(), target.next());
        lemma_within_enclosed(ts, target.item().0, pos, target.next(), pos, end);
        assert(out.item().0 == ts[pos].1.merged(ts[end - 1].1));
        assert forall|i: int| 0 <= i < arguments.item().len() implies encloses(
            out.item().0,
            (#[trigger] arguments.item()[i]).0,
        ) && target.item().0.precedes(arguments.item()[i].0) by {
            lemma_within_enclosed(ts, arguments.item()[i].0, from, arguments.next(), pos, end);
            lemma_within_precedes(
                ts,
                target.item().0,
                pos,
                target.next(),
                arguments.item()[i].0,
                from,
                arguments.next(),
            );
        }
    }
}

proof fn lemma_nested_parenthesised(ts: Tokens, pos: int)
    requires
        in_order(ts),
        0 <= pos <= ts.len(),
    ensures
        parenthesised(ts, pos).value is Some ==> nested(
            parenthesised(ts, pos).item().0,
            parenthesised(ts, pos).item().1,
        ),
    decreases ts.len() - pos, 5int,
{
    reveal_with_fuel(parenthesised, 1);
    reveal_with_fuel(expr, 1);
    let out = parenthesised(ts, pos);
    if out.value is Some {
        let inner = expr(ts, pos + 1);
        lemma_expr(ts, pos + 1);
        lemma_nested_expr(ts, pos + 1);
        lemma_cover_within(ts, pos, pos + 1, inner.next(), out.next());
        lemma_within_enclosed(ts, inner.item().0, pos, out.next(), pos, out.next());
        lemma_widen(inner.item().0, inner.item().1, out.item().0);
    }
}

proof fn lemma_nested_list(ts: Tokens, pos: int)
    requires
        in_order(ts),
        0 <= pos <= ts.len(),
    ensures
        list(ts, pos).value is Some ==> nested(list(ts, pos).item().0, list(ts, pos).item().1),
    decreases ts.len() - pos, 5int,
{
    reveal_with_fuel(list, 1);
    reveal_with_fuel(exprs, 1);
    let out = list(ts, pos);
    if out.value is Some {
        let items = exprs(ts, pos + 1);
        lemma_nested_exprs(ts, pos + 1);
        let end = out.next();
        lemma_order(ts, pos, end - 1);
        assert forall|i: int| 0 <= i < items.item().len() implies encloses(
            out.item().0,
            (#[trigger] items.item()[i]).0,
        ) by {
            lemma_within_enclosed(ts, items.item()[i].0, pos + 1, items.next(), pos, end);
        }
    }
}

proof fn lemma_nested_atom(ts: Tokens, pos: int)
    requires
        in_order(ts),
        0 <= pos <= ts.len(),
    ensures
        atom(ts, pos).value is Some ==> nested(atom(ts, pos).item().0, atom(ts, pos).item().1),
    decreases ts.len() - pos, 8int,
{
    reveal_with_fuel(atom, 1);
    reveal_with_fuel(call, 1);
    reveal_with_fuel(lambda, 1);
    reveal_with_fuel(parenthesised, 1);
    reveal_with_fuel(list, 1);
    lemma_nested_call(ts, pos);
    lemma_nested_lambda(ts, pos);
    lemma_nested_parenthesised(ts, pos);
    lemma_nested_list(ts, pos);
    if pos < ts.len() {
        lemma_order(ts, pos, pos);
    }
}

proof fn lemma_nested_unary(ts: Tokens, pos: int)
    requires
        in_order(ts),
        0 <= pos <= ts.len(),
    ensures
        unary(ts, pos).value is Some ==> nested(unary(ts, pos).item().0, unary(ts, pos).item().1),
    decreases ts.len() - pos, 9int,
{
    reveal_with_fuel(unary, 1);
    reveal_with_fuel(atom, 1);
    let out = unary(ts, pos);
    if out.value is Some {
        if kind_at(ts, pos) == Some(TokenKind::Sub) {
            let inner = unary(ts, pos + 1);
            lemma_unary(ts, pos + 1);
            lemma_nested_unary(ts, pos + 1);
            lemma_cover_within(ts, pos, pos + 1, inner.next(), inner.next());
            lemma_within_enclosed(ts, inner.item().0, pos, inner.next(), pos, inner.next());
        } else {
            lemma_nested_atom(ts, pos);
        }
    }
}

proof fn lemma_nested_operand(ts: Tokens, pos: int, level: nat)
    requires
        in_order(ts),
        0 <= pos <= ts.len(),
    ensures
        operand(ts, pos, level).value is Some ==> nested(
            operand(ts, pos, level).item().0,
            operand(ts, pos, level).item().1,
        ),
    decreases ts.len() - pos, 10 + 2 * level,
{
    reveal_with_fuel(operand, 1);
    reveal_with_fuel(unary, 1);
    reveal_with_fuel(binary, 1);
    if level == 0 {
        lemma_nested_unary(ts, pos);
    } else {
        lemma_nested_binary(ts, pos, (level - 1) as nat);
    }
}

proof fn lemma_nested_fold<'s, 'p>(
    ts: Tokens<'s, 'p>,
    pos: int,
    level: nat,
    left: Node<'s, 'p>,
    miss: Miss,
    start: int,
)
    requires
        in_order(ts),
        0 <= start < pos <= ts.len(),
        left.0 == ts[start].1.merged(ts[pos - 1].1),
        nested(left.0, left.1),
    ensures
        fold(ts, pos, level, left, miss).value is Some,
        nested(fold(ts, pos, level, left, miss).item().0, fold(ts, pos, level, left, miss).item().1),
    decreases ts.len() - pos, 0int,
{
    reveal_with_fuel(fold, 1);
    reveal_with_fuel(operand, 1);
    if pos < ts.len() {
        let right = operand(ts, pos + 1, level);
        lemma_operand(ts, pos + 1, level);
        lemma_nested_operand(ts, pos + 1, level);
        match operator_at(ts, pos, level) {
            Some(op) => {
                if right.reaches(pos + 1, ts.len()) {
                    let end = right.next();
                    let joined = (
                        left.0.merged(right.item().0),
                        Tree::BinOp(Box::new(left), op, Box::new(right.item())),
                    );
                    lemma_cover_within(ts, start, start, pos, pos);
                    lemma_cover_within(ts, pos + 1, pos + 1, end, end);
                    lemma_within_precedes(ts, left.0, start, pos, right.item().0, pos + 1, end);
                    lemma_within_enclosed(ts, left.0, start, pos, start, end);
                    lemma_within_enclosed(ts, right.item().0, pos + 1, end, start, end);
                    assert(joined.0 == ts[start].1.merged(ts[end - 1].1));
                    assert(nested(joined.0, joined.1));
                    lemma_nested_fold(ts, end, level, joined, miss.join(right.miss), start);
                }
            },
            None => {},
        }
    }
}

proof fn lemma_nested_binary(ts: Tokens, pos: int, level: nat)
    requires
        in_order(ts),
        0 <= pos <= ts.len(),
    ensures
        binary(ts, pos, level).value is Some ==> nested(
            binary(ts, pos, level).item().0,
            binary(ts, pos, level).item().1,
        ),
    decreases ts.len() - pos, 11 + 2 * level,
{
    reveal_with_fuel(binary, 1);
    reveal_with_fuel(operand, 1);
    reveal_with_fuel(fold, 1);
    let first = operand(ts, pos, level);
    lemma_operand(ts, pos, level);
    lemma_nested_operand(ts, pos, level);
    if first.reaches(pos, ts.len()) {
        lemma_nested_fold(ts, first.next(), level, first.item(), first.miss, pos);
    }
}

proof fn lemma_nested_expr(ts: Tokens, pos: int)
    requires
        in_order(ts),
        0 <= pos <= ts.len(),
    ensures
        expr(ts, pos).value is Some ==> nested(expr(ts, pos).item().0, expr(ts, pos).item().1),
    decreases ts.len() - pos, 20int,
{
    reveal_with_fuel(expr, 1);
    reveal_with_fuel(binary, 1);
    lemma_nested_binary(ts, pos, 4);
}

proof fn lemma_nested_binding(ts: Tokens, pos: int)
    requires
        in_order(ts),
        0 <= pos <= ts.len(),
    ensures
        binding(ts, pos).value is Some ==> nested(binding(ts, pos).item().0, binding(ts, pos).item().1),
    decreases ts.len() - pos, 22int,
{
    reveal_with_fuel(binding, 1);
    reveal_with_fuel(statement, 1);
    reveal_with_fuel(binding_head, 1);
    let out = binding(ts, pos);
    if out.value is Some {
        let head = binding_head(ts, pos);
        lemma_binding_head(ts, pos);
        let value = expr(ts, pos + 3);
        lemma_expr(ts, pos + 3);
        lemma_nested_expr(ts, pos + 3);
        let rest = statement(ts, head.next());
        lemma_statement(ts, head.next());
        lemma_nested_statement(ts, head.next());
        let end = out.next();
        lemma_cover_within(ts, pos + 1, pos + 1, pos + 2, pos + 2);
        assert(ts[pos + 1].1.merged(ts[pos + 1].1) == ts[pos + 1].1);
        lemma_cover_within(ts, pos + 3, pos + 3, value.next(), value.next());
        lemma_cover_within(ts, head.next(), head.next(), end, end);
        lemma_within_enclosed(ts, ts[pos + 1].1, pos + 1, pos + 2, pos, end);
        lemma_within_enclosed(ts, value.item().0, pos + 3, value.next(), pos, end);
        lemma_within_enclosed(ts, rest.item().0, head.next(), end, pos, end);
        lemma_within_precedes(ts, ts[pos + 1].1, pos + 1, pos + 2, value.item().0, pos + 3, value.next());
        lemma_within_precedes(
            ts,
            value.item().0,
            pos + 3,
            value.next(),
            rest.item().0,
            head.next(),
            end,
        );
    }
}

proof fn lemma_nested_sequence(ts: Tokens, pos: int)
    requires
        in_order(ts),
        0 <= pos <= ts.len(),
    ensures
        sequence(ts, pos).value is Some ==> nested(
            sequence(ts, pos).item().0,
            sequence(ts, pos).item().1,
        ),
    decreases ts.len() - pos, 22int,
{
    reveal_with_fuel(sequence, 1);
    reveal_with_fuel(statement, 1);
    reveal_with_fuel(sequence_head, 1);
    let out = sequence(ts, pos);
    if out.value is Some {
        let head = sequence_head(ts, pos);
        lemma_sequence_head(ts, pos);
        let first = expr(ts, pos);
        lemma_expr(ts, pos);
        lemma_nested_expr(ts, pos);
        let rest = statement(ts, head.next());
        lemma_statement(ts, head.next());
        lemma_nested_statement(ts, head.next());
        let end = out.next();
        lemma_cover_within(ts, pos, pos, first.next(), first.next());
        lemma_cover_within(ts, head.next(), head.next(), end, end);
        lemma_within_enclosed(ts, first.item().0, pos, first.next(), pos, end);
        lemma_within_enclosed(ts, rest.item().0, head.next(), end, pos, end);
        lemma_within_precedes(ts, first.item().0, pos, first.next(), rest.item().0, head.next(), end);
    }
}

proof fn lemma_nested_statement(ts: Tokens, pos: int)
    requires
        in_order(ts),
        0 <= pos <= ts.len(),
    ensures
        statement(ts, pos).value is Some ==> nested(
            statement(ts, pos).item().0,
            statement(ts, pos).item().1,
        ),
    decreases ts.len() - pos, 23int,
{
    reveal_with_fuel(statement, 1);
    reveal_with_fuel(binding, 1);
    reveal_with_fuel(sequence, 1);
    reveal_with_fuel(expr, 1);
    lemma_nested_binding(ts, pos);
    lemma_nested_class_decl(ts, pos);
    lemma_nested_sequence(ts, pos);
    lemma_nested_expr(ts, pos);
}

/// In the tree of a program every span encloses the spans of the children,
/// and the children stand in the order of the source.
pub proof fn lemma_program_is_nested(ts: Tokens)
    requires
        in_order(ts),
    ensures
        program(ts).value is Some ==> nested(program(ts).item().0, program(ts).item().1),
{
    lemma_nested_statement(ts, 0);
}

} // verus!
