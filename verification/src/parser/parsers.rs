//! The parser: the grammar, run over a token sequence.
//!
//! Each function reads what the rule of the same name in [`grammar`] reads,
//! by recursive descent. Where the grammar repeats (lists, runs of `-`, the
//! operators of one level, chains of statements) the parser loops.
use crate::lexer::{in_order, Token, TokenKind};
use crate::parser::grammar;
use crate::parser::grammar::{Miss, Outcome};
use crate::parser::kinds::KindSet;
use crate::parser::laws::{
    lemma_binding_head, lemma_call_view, lemma_callee, lemma_expr, lemma_exprs, lemma_fields,
    lemma_lambda, lemma_list_view, lemma_merge_in_order, lemma_names, lemma_only_binding_at_let,
    lemma_operand, lemma_program, lemma_sequence_head, lemma_statement,
    lemma_statement_with_binding, lemma_statement_with_sequence, lemma_unary, lemma_unary_fails,
    is_error,
};
use crate::parser::locality::{begins_well, lemma_error_lies_at_error_token};
use crate::parser::nesting::{lemma_program_is_nested, nested};
use crate::parser::{node_view, nodes_view, AstNode, Literal, Node, Op, ParseError};
use crate::{Span, Spanned};
use internment::Intern;
use vstd::prelude::*;

verus! {

/// The furthest place at which a token was looked for in vain, and the kinds
/// that were looked for there.
#[derive(Debug, Clone, Copy, PartialEq, Eq)]
pub struct Missed {
    pub at: usize,
    pub expected: KindSet,
}

impl View for Missed {
    type V = Miss;

    open spec fn view(&self) -> Miss {
        Miss { at: self.at as int, expected: self.expected@ }
    }
}

impl Missed {
    /// No token has been looked for in vain.
    pub fn nothing() -> (miss: Missed)
        ensures
            miss@ == Miss::nothing(),
    {
        Missed { at: 0, expected: KindSet::empty() }
    }

    /// `kind` was looked for at `at`.
    pub fn token(at: usize, kind: TokenKind) -> (miss: Missed)
        ensures
            miss@ == Miss::token(at as int, kind),
    {
        Missed { at, expected: KindSet::only(Some(kind)) }
    }

    /// The end of input was looked for at `at`.
    pub fn end(at: usize) -> (miss: Missed)
        ensures
            miss@ == Miss::end(at as int),
    {
        Missed { at, expected: KindSet::only(None) }
    }

    /// The further of two misses; at one place, what either looked for.
    pub fn join(self, later: Missed) -> (miss: Missed)
        ensures
            miss@ == self@.join(later@),
    {
        proof {
            reveal(Miss::join);
        }
        if self.at > later.at {
            self
        } else if later.at > self.at {
            later
        } else {
            Missed { at: self.at, expected: self.expected.union(later.expected) }
        }
    }
}

/// What a rule read at a position: the value and the position behind it, or
/// nothing; and the furthest miss on the way.
#[derive(Debug)]
pub struct Step<T> {
    pub value: Option<(T, usize)>,
    pub miss: Missed,
}

impl<T> Step<T> {
    pub fn fail(miss: Missed) -> (step: Self)
        ensures
            step == (Step { value: None::<(T, usize)>, miss }),
    {
        Step { value: None, miss }
    }

    pub fn found(item: T, next: usize, miss: Missed) -> (step: Self)
        ensures
            step == (Step { value: Some((item, next)), miss }),
    {
        Step { value: Some((item, next)), miss }
    }

    /// The same step behind an earlier miss.
    pub fn after(self, earlier: Missed) -> (step: Self)
        ensures
            step.value == self.value,
            step.miss@ == earlier@.join(self.miss@),
    {
        Step { value: self.value, miss: earlier.join(self.miss) }
    }
}

/// The step holds what the outcome holds.
pub open spec fn same<T>(step: Step<T>, out: Outcome<T>) -> bool {
    &&& step.miss@ == out.miss
    &&& match step.value {
        Some((item, next)) => out.value == Some((item, next as int)),
        None => out.value is None,
    }
}

/// The step holds the node that the outcome holds.
pub open spec fn same_node<'s, 'p>(
    step: Step<Spanned<'p, AstNode<'s, 'p>>>,
    out: Outcome<Node<'s, 'p>>,
) -> bool {
    &&& step.miss@ == out.miss
    &&& match step.value {
        Some((node, next)) => out.value == Some((node_view(node), next as int)),
        None => out.value is None,
    }
}

/// The step holds the nodes that the outcome holds.
pub open spec fn same_nodes<'s, 'p>(
    step: Step<Vec<Spanned<'p, AstNode<'s, 'p>>>>,
    out: Outcome<Seq<Node<'s, 'p>>>,
) -> bool {
    &&& step.miss@ == out.miss
    &&& match step.value {
        Some((nodes, next)) => out.value == Some((nodes_view(nodes@), next as int)),
        None => out.value is None,
    }
}

/// The step holds the names that the outcome holds.
pub open spec fn same_names<'p>(
    step: Step<Vec<Spanned<'p, Intern<String>>>>,
    out: Outcome<Seq<Spanned<'p, Intern<String>>>>,
) -> bool {
    &&& step.miss@ == out.miss
    &&& match step.value {
        Some((names, next)) => out.value == Some((names@, next as int)),
        None => out.value is None,
    }
}

/// One token of the given kind; the value is its span.
pub fn just<'s, 'p>(ts: &[(Token<'s>, Span<'p>)], pos: usize, kind: TokenKind) -> (step: Step<
    Span<'p>,
>)
    ensures
        same(step, grammar::just(ts@, pos as int, kind)),
{
    if pos < ts.len() && ts[pos].0.kind() == kind {
        Step::found(ts[pos].1, pos + 1, Missed::nothing())
    } else {
        Step::fail(Missed::token(pos, kind))
    }
}

/// An identifier token, as a name with its span.
pub fn raw_ident<'s, 'p>(ts: &[(Token<'s>, Span<'p>)], pos: usize) -> (step: Step<
    Spanned<'p, Intern<String>>,
>)
    ensures
        same(step, grammar::raw_ident(ts@, pos as int)),
{
    if pos < ts.len() {
        if let Token::Ident(name) = ts[pos].0 {
            return Step::found((ts[pos].1, name), pos + 1, Missed::nothing());
        }
    }
    Step::fail(Missed::token(pos, TokenKind::Ident))
}

/// An identifier token, as a node.
pub fn ident<'s, 'p>(ts: &[(Token<'s>, Span<'p>)], pos: usize) -> (step: Step<
    Spanned<'p, AstNode<'s, 'p>>,
>)
    ensures
        same_node(step, grammar::ident(ts@, pos as int)),
{
    if pos < ts.len() {
        if let Token::Ident(name) = ts[pos].0 {
            return Step::found((ts[pos].1, AstNode::Ident(name)), pos + 1, Missed::nothing());
        }
    }
    Step::fail(Missed::token(pos, TokenKind::Ident))
}

/// A string, an integer, a float or a symbol token, as a literal node.
pub fn literal<'s, 'p>(ts: &[(Token<'s>, Span<'p>)], pos: usize) -> (step: Step<
    Spanned<'p, AstNode<'s, 'p>>,
>)
    ensures
        same_node(step, grammar::literal(ts@, pos as int)),
{
    if pos < ts.len() {
        let literal = match ts[pos].0 {
            Token::String(text) => Some(Literal::String(text)),
            Token::Integer(value) => Some(Literal::Int(value)),
            Token::Float(text) => Some(Literal::Float(text)),
            Token::Symbol(name) => Some(Literal::Symbol(name)),
            _ => None,
        };
        if let Some(literal) = literal {
            return Step::found((ts[pos].1, AstNode::Literal(literal)), pos + 1, Missed::nothing());
        }
    }
    Step::fail(
        Missed::token(pos, TokenKind::String).join(Missed::token(pos, TokenKind::Integer)).join(
            Missed::token(pos, TokenKind::Float),
        ).join(Missed::token(pos, TokenKind::Symbol)),
    )
}

/// Names with commas between them, or none.
pub fn names<'s, 'p>(ts: &[(Token<'s>, Span<'p>)], pos: usize) -> (step: Step<
    Vec<Spanned<'p, Intern<String>>>,
>)
    requires
        pos <= ts@.len(),
    ensures
        same_names(step, grammar::names(ts@, pos as int)),
{
    proof {
        reveal_with_fuel(grammar::names, 1);
        reveal_with_fuel(grammar::more_names, 1);
    }
    let mut found: Vec<Spanned<'p, Intern<String>>> = Vec::new();
    let first = raw_ident(ts, pos);
    match first.value {
        None => {
            return Step::found(found, pos, first.miss);
        },
        Some((name, _)) => {
            found.push(name);
        },
    }
    let mut at: usize = pos + 1;
    let miss = Missed::nothing();
    loop
        invariant
            pos < at <= ts@.len(),
            miss@ == Miss::nothing(),
            grammar::names(ts@, pos as int) == grammar::more_names(ts@, at as int, found@, miss@),
        decreases ts@.len() - at,
    {
        proof {
            reveal_with_fuel(grammar::more_names, 1);
        }
        let comma = just(ts, at, TokenKind::Comma);
        if comma.value.is_none() {
            return Step::found(found, at, miss.join(comma.miss));
        }
        let name = raw_ident(ts, at + 1);
        match name.value {
            None => {
                return Step::found(found, at, miss.join(name.miss));
            },
            Some((name, _)) => {
                found.push(name);
                at += 2;
            },
        }
    }
}

/// Fields of a class, each a name, a colon and a name. They are read and
/// not kept.
pub fn fields<'s, 'p>(ts: &[(Token<'s>, Span<'p>)], pos: usize) -> (step: Step<()>)
    requires
        pos <= ts@.len(),
    ensures
        same(step, grammar::fields(ts@, pos as int, Miss::nothing())),
{
    let mut at: usize = pos;
    let miss = Missed::nothing();
    loop
        invariant
            pos <= at <= ts@.len(),
            miss@ == Miss::nothing(),
            grammar::fields(ts@, pos as int, miss@) == grammar::fields(ts@, at as int, miss@),
        decreases ts@.len() - at,
    {
        proof {
            reveal_with_fuel(grammar::fields, 1);
        }
        let name = raw_ident(ts, at);
        if name.value.is_none() {
            return Step::found((), at, miss.join(name.miss));
        }
        let colon = just(ts, at + 1, TokenKind::Colon);
        if colon.value.is_none() {
            return Step::found((), at, miss.join(colon.miss));
        }
        let class = raw_ident(ts, at + 2);
        if class.value.is_none() {
            return Step::found((), at, miss.join(class.miss));
        }
        at += 3;
    }
}

/// `class` name fields `end`.
pub fn class_decl<'s, 'p>(ts: &[(Token<'s>, Span<'p>)], pos: usize) -> (step: Step<
    Spanned<'p, AstNode<'s, 'p>>,
>)
    requires
        in_order(ts@),
        pos <= ts@.len(),
    ensures
        same_node(step, grammar::class_decl(ts@, pos as int)),
{
    proof {
        reveal_with_fuel(grammar::class_decl, 1);
    }
    let keyword = just(ts, pos, TokenKind::KwClass);
    let open = match keyword.value {
        None => {
            return Step::fail(keyword.miss);
        },
        Some((span, _)) => span,
    };
    let name = raw_ident(ts, pos + 1);
    let name = match name.value {
        None => {
            return Step::fail(name.miss);
        },
        Some((name, _)) => name,
    };
    let body = fields(ts, pos + 2);
    proof {
        lemma_fields(ts@, pos + 2, Miss::nothing());
    }
    let next = match body.value {
        None => {
            return Step::fail(body.miss);
        },
        Some((_, next)) => next,
    };
    let close = just(ts, next, TokenKind::KwEnd);
    match close.value {
        None => Step::fail(body.miss.join(close.miss)),
        Some((close, after)) => Step::found(
            (open.merge(close), AstNode::Class(name)),
            after,
            body.miss,
        ),
    }
}

/// The operator that a token of kind `kind` is on a level, if it is one.
pub fn operator_of(level: u8, kind: TokenKind) -> (op: Option<Op>)
    ensures
        op == grammar::operator(level as nat, kind),
{
    match (level, kind) {
        (0, TokenKind::Field) => Some(Op::Field),
        (1, TokenKind::Send) => Some(Op::Send),
        (2, TokenKind::Mul) => Some(Op::Mul),
        (2, TokenKind::Div) => Some(Op::Div),
        (3, TokenKind::Add) => Some(Op::Add),
        (3, TokenKind::Sub) => Some(Op::Sub),
        (4, TokenKind::Assign) => Some(Op::Assign),
        _ => None,
    }
}

/// The miss of a level that finds none of its operators at `pos`.
pub fn operator_miss_of(pos: usize, level: u8) -> (miss: Missed)
    ensures
        miss@ == grammar::operator_miss(pos as int, level as nat),
{
    if level == 0 {
        Missed::token(pos, TokenKind::Field)
    } else if level == 1 {
        Missed::token(pos, TokenKind::Send)
    } else if level == 2 {
        Missed::token(pos, TokenKind::Mul).join(Missed::token(pos, TokenKind::Div))
    } else if level == 3 {
        Missed::token(pos, TokenKind::Add).join(Missed::token(pos, TokenKind::Sub))
    } else {
        Missed::token(pos, TokenKind::Assign)
    }
}

/// `\` names `->` body.
pub fn lambda<'s, 'p>(ts: &[(Token<'s>, Span<'p>)], pos: usize) -> (step: Step<
    Spanned<'p, AstNode<'s, 'p>>,
>)
    requires
        in_order(ts@),
        pos <= ts@.len(),
    ensures
        same_node(step, grammar::lambda(ts@, pos as int)),
    decreases ts@.len() - pos, 5int,
{
    proof {
        reveal_with_fuel(grammar::lambda, 1);
        reveal_with_fuel(grammar::expr, 1);
    }
    let backslash = just(ts, pos, TokenKind::Lambda);
    let open = match backslash.value {
        None => {
            return Step::fail(backslash.miss);
        },
        Some((span, _)) => span,
    };
    let parameters = names(ts, pos + 1);
    proof {
        lemma_names(ts@, pos + 1);
    }
    let before = parameters.miss;
    let (parameters, at) = match parameters.value {
        None => {
            return Step::fail(before);
        },
        Some(read) => read,
    };
    let arrow = just(ts, at, TokenKind::ThinArrow);
    if arrow.value.is_none() {
        return Step::fail(before.join(arrow.miss));
    }
    let body = expr(ts, at + 1);
    proof {
        lemma_expr(ts@, at + 1);
    }
    let miss = before.join(body.miss);
    match body.value {
        None => Step::fail(miss),
        Some((body, next)) => {
            proof {
                lemma_merge_in_order(ts@, pos as int, pos as int, at + 1, next - 1);
            }
            let span = open.merge(body.0);
            Step::found((span, AstNode::Lambda(parameters, Box::new(body))), next, miss)
        },
    }
}

/// What may be called: an identifier, or a lambda in parentheses.
pub fn callee<'s, 'p>(ts: &[(Token<'s>, Span<'p>)], pos: usize) -> (step: Step<
    Spanned<'p, AstNode<'s, 'p>>,
>)
    requires
        in_order(ts@),
        pos <= ts@.len(),
    ensures
        same_node(step, grammar::callee(ts@, pos as int)),
    decreases ts@.len() - pos, 6int,
{
    proof {
        reveal_with_fuel(grammar::callee, 1);
        reveal_with_fuel(grammar::lambda, 1);
    }
    let name = ident(ts, pos);
    if name.value.is_some() {
        return name;
    }
    let open = just(ts, pos, TokenKind::LParen);
    let left = match open.value {
        None => {
            return Step::fail(name.miss.join(open.miss));
        },
        Some((span, _)) => span,
    };
    let inner = lambda(ts, pos + 1);
    proof {
        lemma_lambda(ts@, pos + 1);
    }
    let miss = name.miss.join(inner.miss);
    let (inner, at) = match inner.value {
        None => {
            return Step::fail(miss);
        },
        Some(read) => read,
    };
    let close = just(ts, at, TokenKind::RParen);
    match close.value {
        None => Step::fail(miss.join(close.miss)),
        Some((right, next)) => {
            proof {
                lemma_merge_in_order(ts@, pos as int, pos as int, at as int, at as int);
            }
            Step::found((left.merge(right), inner.1), next, miss)
        },
    }
}

/// Expressions with commas between them, or none.
pub fn exprs<'s, 'p>(ts: &[(Token<'s>, Span<'p>)], pos: usize) -> (step: Step<
    Vec<Spanned<'p, AstNode<'s, 'p>>>,
>)
    requires
        in_order(ts@),
        pos <= ts@.len(),
    ensures
        same_nodes(step, grammar::exprs(ts@, pos as int)),
    decreases ts@.len() - pos, 21int,
{
    proof {
        reveal_with_fuel(grammar::exprs, 1);
        reveal_with_fuel(grammar::expr, 1);
        reveal_with_fuel(grammar::more_exprs, 1);
    }
    let mut found: Vec<Spanned<'p, AstNode<'s, 'p>>> = Vec::new();
    let first = expr(ts, pos);
    proof {
        lemma_expr(ts@, pos as int);
    }
    let mut miss = first.miss;
    let mut at: usize = pos;
    match first.value {
        None => {
            assert(nodes_view(found@) =~= Seq::empty());
            return Step::found(found, pos, miss);
        },
        Some((node, next)) => {
            found.push(node);
            at = next;
            assert(nodes_view(found@) =~= seq![node_view(node)]);
        },
    }
    loop
        invariant
            in_order(ts@),
            pos < at <= ts@.len(),
            grammar::exprs(ts@, pos as int) == grammar::more_exprs(
                ts@,
                at as int,
                nodes_view(found@),
                miss@,
            ),
        decreases ts@.len() - at,
    {
        proof {
            reveal_with_fuel(grammar::more_exprs, 1);
            reveal_with_fuel(grammar::expr, 1);
        }
        let comma = just(ts, at, TokenKind::Comma);
        if comma.value.is_none() {
            return Step::found(found, at, miss.join(comma.miss));
        }
        let item = expr(ts, at + 1);
        proof {
            lemma_expr(ts@, at + 1);
        }
        match item.value {
            None => {
                return Step::found(found, at, miss.join(item.miss));
            },
            Some((node, next)) => {
                let ghost before = found@;
                found.push(node);
                assert(nodes_view(found@) =~= nodes_view(before).push(node_view(node)));
                miss = miss.join(item.miss);
                at = next;
            },
        }
    }
}

/// callee `(` arguments `)`.
pub fn call<'s, 'p>(ts: &[(Token<'s>, Span<'p>)], pos: usize) -> (step: Step<
    Spanned<'p, AstNode<'s, 'p>>,
>)
    requires
        in_order(ts@),
        pos <= ts@.len(),
    ensures
        same_node(step, grammar::call(ts@, pos as int)),
    decreases ts@.len() - pos, 7int,
{
    proof {
        reveal_with_fuel(grammar::call, 1);
        reveal_with_fuel(grammar::callee, 1);
        reveal_with_fuel(grammar::exprs, 1);
    }
    let target = callee(ts, pos);
    proof {
        lemma_callee(ts@, pos as int);
    }
    let before = target.miss;
    let (target, at) = match target.value {
        None => {
            return Step::fail(before);
        },
        Some(read) => read,
    };
    let open = just(ts, at, TokenKind::LParen);
    if open.value.is_none() {
        return Step::fail(before.join(open.miss));
    }
    let arguments = exprs(ts, at + 1);
    proof {
        lemma_exprs(ts@, at + 1);
    }
    let miss = before.join(arguments.miss);
    let (arguments, end) = match arguments.value {
        None => {
            return Step::fail(miss);
        },
        Some(read) => read,
    };
    let close = just(ts, end, TokenKind::RParen);
    match close.value {
        None => Step::fail(miss.join(close.miss)),
        Some((right, next)) => {
            proof {
                lemma_merge_in_order(ts@, pos as int, at - 1, end as int, end as int);
                lemma_call_view(target, arguments);
            }
            let span = target.0.merge(right);
            Step::found((span, AstNode::Call(Box::new(target), arguments)), next, miss)
        },
    }
}

/// `(` expression `)`.
pub fn parenthesised<'s, 'p>(ts: &[(Token<'s>, Span<'p>)], pos: usize) -> (step: Step<
    Spanned<'p, AstNode<'s, 'p>>,
>)
    requires
        in_order(ts@),
        pos <= ts@.len(),
    ensures
        same_node(step, grammar::parenthesised(ts@, pos as int)),
    decreases ts@.len() - pos, 5int,
{
    proof {
        reveal_with_fuel(grammar::parenthesised, 1);
        reveal_with_fuel(grammar::expr, 1);
    }
    let open = just(ts, pos, TokenKind::LParen);
    let left = match open.value {
        None => {
            return Step::fail(open.miss);
        },
        Some((span, _)) => span,
    };
    let inner = expr(ts, pos + 1);
    proof {
        lemma_expr(ts@, pos + 1);
    }
    let miss = inner.miss;
    let (inner, at) = match inner.value {
        None => {
            return Step::fail(miss);
        },
        Some(read) => read,
    };
    let close = just(ts, at, TokenKind::RParen);
    match close.value {
        None => Step::fail(miss.join(close.miss)),
        Some((right, next)) => {
            proof {
                lemma_merge_in_order(ts@, pos as int, pos as int, at as int, at as int);
            }
            Step::found((left.merge(right), inner.1), next, miss)
        },
    }
}

/// `[` items `]`.
pub fn list<'s, 'p>(ts: &[(Token<'s>, Span<'p>)], pos: usize) -> (step: Step<
    Spanned<'p, AstNode<'s, 'p>>,
>)
    requires
        in_order(ts@),
        pos <= ts@.len(),
    ensures
        same_node(step, grammar::list(ts@, pos as int)),
    decreases ts@.len() - pos, 5int,
{
    proof {
        reveal_with_fuel(grammar::list, 1);
        reveal_with_fuel(grammar::exprs, 1);
    }
    let open = just(ts, pos, TokenKind::LBracket);
    let left = match open.value {
        None => {
            return Step::fail(open.miss);
        },
        Some((span, _)) => span,
    };
    let items = exprs(ts, pos + 1);
    proof {
        lemma_exprs(ts@, pos + 1);
    }
    let miss = items.miss;
    let (items, at) = match items.value {
        None => {
            return Step::fail(miss);
        },
        Some(read) => read,
    };
    let close = just(ts, at, TokenKind::RBracket);
    match close.value {
        None => Step::fail(miss.join(close.miss)),
        Some((right, next)) => {
            proof {
                lemma_merge_in_order(ts@, pos as int, pos as int, at as int, at as int);
                lemma_list_view(items);
            }
            Step::found((left.merge(right), AstNode::List(items)), next, miss)
        },
    }
}

/// A call, an identifier, a lambda, a literal, an expression in parentheses
/// or a list, tried in this order.
pub fn atom<'s, 'p>(ts: &[(Token<'s>, Span<'p>)], pos: usize) -> (step: Step<
    Spanned<'p, AstNode<'s, 'p>>,
>)
    requires
        in_order(ts@),
        pos <= ts@.len(),
    ensures
        same_node(step, grammar::atom(ts@, pos as int)),
    decreases ts@.len() - pos, 8int,
{
    proof {
        reveal_with_fuel(grammar::atom, 1);
        reveal_with_fuel(grammar::call, 1);
        reveal_with_fuel(grammar::lambda, 1);
        reveal_with_fuel(grammar::parenthesised, 1);
        reveal_with_fuel(grammar::list, 1);
    }
    let first = call(ts, pos);
    if first.value.is_some() {
        return first;
    }
    let second = ident(ts, pos).after(first.miss);
    if second.value.is_some() {
        return second;
    }
    let third = lambda(ts, pos).after(second.miss);
    if third.value.is_some() {
        return third;
    }
    let fourth = literal(ts, pos).after(third.miss);
    if fourth.value.is_some() {
        return fourth;
    }
    let fifth = parenthesised(ts, pos).after(fourth.miss);
    if fifth.value.is_some() {
        return fifth;
    }
    list(ts, pos).after(fifth.miss)
}

/// An atom behind any number of `-`.
pub fn unary<'s, 'p>(ts: &[(Token<'s>, Span<'p>)], pos: usize) -> (step: Step<
    Spanned<'p, AstNode<'s, 'p>>,
>)
    requires
        in_order(ts@),
        pos <= ts@.len(),
    ensures
        same_node(step, grammar::unary(ts@, pos as int)),
    decreases ts@.len() - pos, 9int,
{
    let mut at: usize = pos;
    while at < ts.len() && ts[at].0.kind() == TokenKind::Sub
        invariant
            pos <= at <= ts@.len(),
            forall|k: int| pos <= k < at ==> (#[trigger] ts@[k]).0.spec_kind() == TokenKind::Sub,
        decreases ts@.len() - at,
    {
        at += 1;
    }
    let inner = atom(ts, at).after(Missed::token(at, TokenKind::Sub));
    proof {
        reveal_with_fuel(grammar::unary, 1);
        reveal_with_fuel(grammar::atom, 1);
        lemma_unary(ts@, at as int);
    }
    let miss = inner.miss;
    let (mut node, next) = match inner.value {
        None => {
            proof {
                lemma_unary_fails(ts@, pos as int, at as int);
            }
            return Step::fail(miss);
        },
        Some(read) => read,
    };
    let mut from: usize = at;
    while from > pos
        invariant
            in_order(ts@),
            pos <= from <= at < next <= ts@.len(),
            forall|k: int| pos <= k < at ==> (#[trigger] ts@[k]).0.spec_kind() == TokenKind::Sub,
            grammar::unary(ts@, from as int) == Outcome::found(node_view(node), next as int, miss@),
            node.0 == ts@[from as int].1.merged(ts@[next - 1].1),
        decreases from,
    {
        from -= 1;
        proof {
            reveal_with_fuel(grammar::unary, 1);
            lemma_merge_in_order(ts@, from as int, from as int, from + 1, next - 1);
        }
        let span = ts[from].1.merge(node.0);
        node = (span, AstNode::UnaryOp(Op::Sub, Box::new(node)));
    }
    Step::found(node, next, miss)
}

/// What stands on either side of an operator of a level.
pub fn operand<'s, 'p>(ts: &[(Token<'s>, Span<'p>)], pos: usize, level: u8) -> (step: Step<
    Spanned<'p, AstNode<'s, 'p>>,
>)
    requires
        in_order(ts@),
        pos <= ts@.len(),
        level <= 4,
    ensures
        same_node(step, grammar::operand(ts@, pos as int, level as nat)),
    decreases ts@.len() - pos, 10 + 2 * level,
{
    proof {
        reveal_with_fuel(grammar::operand, 1);
        reveal_with_fuel(grammar::unary, 1);
        reveal_with_fuel(grammar::binary, 1);
    }
    if level == 0 {
        unary(ts, pos)
    } else {
        binary(ts, pos, level - 1)
    }
}

/// An expression of a level: operands with operators of the level between
/// them, grouped to the left.
pub fn binary<'s, 'p>(ts: &[(Token<'s>, Span<'p>)], pos: usize, level: u8) -> (step: Step<
    Spanned<'p, AstNode<'s, 'p>>,
>)
    requires
        in_order(ts@),
        pos <= ts@.len(),
        level <= 4,
    ensures
        same_node(step, grammar::binary(ts@, pos as int, level as nat)),
    decreases ts@.len() - pos, 11 + 2 * level,
{
    proof {
        reveal_with_fuel(grammar::binary, 1);
        reveal_with_fuel(grammar::operand, 1);
        reveal_with_fuel(grammar::fold, 1);
    }
    let first = operand(ts, pos, level);
    proof {
        lemma_operand(ts@, pos as int, level as nat);
    }
    let mut miss = first.miss;
    let (mut left, mut at) = match first.value {
        None => {
            return Step::fail(miss);
        },
        Some(read) => read,
    };
    loop
        invariant
            in_order(ts@),
            level <= 4,
            pos < at <= ts@.len(),
            left.0 == ts@[pos as int].1.merged(ts@[at - 1].1),
            grammar::binary(ts@, pos as int, level as nat) == grammar::fold(
                ts@,
                at as int,
                level as nat,
                node_view(left),
                miss@,
            ),
        decreases ts@.len() - at,
    {
        proof {
            reveal_with_fuel(grammar::fold, 1);
            reveal_with_fuel(grammar::operand, 1);
        }
        let op = if at < ts.len() {
            operator_of(level, ts[at].0.kind())
        } else {
            None
        };
        let op = match op {
            None => {
                return Step::found(left, at, miss.join(operator_miss_of(at, level)));
            },
            Some(op) => op,
        };
        let right = operand(ts, at + 1, level);
        proof {
            lemma_operand(ts@, at + 1, level as nat);
        }
        match right.value {
            None => {
                return Step::found(left, at, miss.join(right.miss));
            },
            Some((right_node, next)) => {
                proof {
                    lemma_merge_in_order(ts@, pos as int, at - 1, at + 1, next - 1);
                }
                let span = left.0.merge(right_node.0);
                left = (span, AstNode::BinOp(Box::new(left), op, Box::new(right_node)));
                miss = miss.join(right.miss);
                at = next;
            },
        }
    }
}

/// An expression.
pub fn expr<'s, 'p>(ts: &[(Token<'s>, Span<'p>)], pos: usize) -> (step: Step<
    Spanned<'p, AstNode<'s, 'p>>,
>)
    requires
        in_order(ts@),
        pos <= ts@.len(),
    ensures
        same_node(step, grammar::expr(ts@, pos as int)),
    decreases ts@.len() - pos, 20int,
{
    proof {
        reveal_with_fuel(grammar::expr, 1);
        reveal_with_fuel(grammar::binary, 1);
    }
    binary(ts, pos, 4)
}

/// The step holds the head of a binding that the outcome holds.
pub open spec fn same_head<'s, 'p>(
    step: Step<(Span<'p>, Spanned<'p, Intern<String>>, Spanned<'p, AstNode<'s, 'p>>)>,
    out: Outcome<(Span<'p>, Spanned<'p, Intern<String>>, Node<'s, 'p>)>,
) -> bool {
    &&& step.miss@ == out.miss
    &&& match step.value {
        Some((head, next)) => out.value == Some(
            ((head.0, head.1, node_view(head.2)), next as int),
        ),
        None => out.value is None,
    }
}

/// The head of a binding: `let` name `=` value `;`.
pub fn binding_head<'s, 'p>(ts: &[(Token<'s>, Span<'p>)], pos: usize) -> (step: Step<
    (Span<'p>, Spanned<'p, Intern<String>>, Spanned<'p, AstNode<'s, 'p>>),
>)
    requires
        in_order(ts@),
        pos <= ts@.len(),
    ensures
        same_head(step, grammar::binding_head(ts@, pos as int)),
{
    proof {
        reveal_with_fuel(grammar::binding_head, 1);
    }
    let keyword = just(ts, pos, TokenKind::KwLet);
    let open = match keyword.value {
        None => {
            return Step::fail(keyword.miss);
        },
        Some((span, _)) => span,
    };
    let name = raw_ident(ts, pos + 1);
    let name = match name.value {
        None => {
            return Step::fail(name.miss);
        },
        Some((name, _)) => name,
    };
    let equals = just(ts, pos + 2, TokenKind::Assign);
    if equals.value.is_none() {
        return Step::fail(equals.miss);
    }
    let value = expr(ts, pos + 3);
    proof {
        lemma_expr(ts@, pos + 3);
    }
    let miss = value.miss;
    let (value, at) = match value.value {
        None => {
            return Step::fail(miss);
        },
        Some(read) => read,
    };
    let semicolon = just(ts, at, TokenKind::Semicol);
    if semicolon.value.is_none() {
        return Step::fail(miss.join(semicolon.miss));
    }
    Step::found((open, name, value), at + 1, miss)
}

/// `let` name `=` value `;` rest.
pub fn binding<'s, 'p>(ts: &[(Token<'s>, Span<'p>)], pos: usize) -> (step: Step<
    Spanned<'p, AstNode<'s, 'p>>,
>)
    requires
        in_order(ts@),
        pos <= ts@.len(),
    ensures
        same_node(step, grammar::binding(ts@, pos as int)),
{
    proof {
        reveal_with_fuel(grammar::binding, 1);
        reveal_with_fuel(grammar::statement, 1);
        lemma_binding_head(ts@, pos as int);
    }
    let head = binding_head(ts, pos);
    let before = head.miss;
    let ((open, name, value), at) = match head.value {
        None => {
            return Step::fail(before);
        },
        Some(read) => read,
    };
    let rest = statement(ts, at);
    proof {
        lemma_statement(ts@, at as int);
    }
    let miss = before.join(rest.miss);
    match rest.value {
        None => Step::fail(miss),
        Some((rest, next)) => {
            proof {
                lemma_merge_in_order(ts@, pos as int, pos as int, at as int, next - 1);
            }
            let span = open.merge(rest.0);
            Step::found((span, AstNode::Let(name, Box::new(value), Box::new(rest))), next, miss)
        },
    }
}

/// first `;` rest.
pub fn sequence<'s, 'p>(ts: &[(Token<'s>, Span<'p>)], pos: usize) -> (step: Step<
    Spanned<'p, AstNode<'s, 'p>>,
>)
    requires
        in_order(ts@),
        pos <= ts@.len(),
    ensures
        same_node(step, grammar::sequence(ts@, pos as int)),
{
    proof {
        reveal_with_fuel(grammar::sequence, 1);
        reveal_with_fuel(grammar::sequence_head, 1);
        reveal_with_fuel(grammar::statement, 1);
    }
    let first = expr(ts, pos);
    proof {
        lemma_expr(ts@, pos as int);
    }
    let before = first.miss;
    let (first, at) = match first.value {
        None => {
            return Step::fail(before);
        },
        Some(read) => read,
    };
    let semicolon = just(ts, at, TokenKind::Semicol);
    if semicolon.value.is_none() {
        return Step::fail(before.join(semicolon.miss));
    }
    let rest = statement(ts, at + 1);
    proof {
        lemma_statement(ts@, at + 1);
    }
    let miss = before.join(rest.miss);
    match rest.value {
        None => Step::fail(miss),
        Some((rest, next)) => {
            proof {
                lemma_merge_in_order(ts@, pos as int, at - 1, at + 1, next - 1);
            }
            let span = first.0.merge(rest.0);
            Step::found((span, AstNode::Statement(Box::new(first), Box::new(rest))), next, miss)
        },
    }
}

/// The head of a statement that has been read, kept while the statements
/// behind it are read.
#[derive(Debug)]
pub enum Pending<'s, 'p> {
    /// `let` name `=` value `;`, with the miss of the head.
    Binding {
        open: Span<'p>,
        name: Spanned<'p, Intern<String>>,
        value: Spanned<'p, AstNode<'s, 'p>>,
        miss: Missed,
        from: usize,
        next: usize,
    },
    /// first `;`, with the miss of the head, and the misses of the binding
    /// and the class that were tried before it.
    Sequence {
        first: Spanned<'p, AstNode<'s, 'p>>,
        miss: Missed,
        before: Missed,
        from: usize,
        next: usize,
    },
}

impl<'s, 'p> Pending<'s, 'p> {
    /// The position at which the head starts.
    pub open spec fn start(self) -> int {
        match self {
            Pending::Binding { from, .. } => from as int,
            Pending::Sequence { from, .. } => from as int,
        }
    }

    /// The position behind the head.
    pub open spec fn end(self) -> int {
        match self {
            Pending::Binding { next, .. } => next as int,
            Pending::Sequence { next, .. } => next as int,
        }
    }

    /// The head is what the grammar reads at its position, and where it is
    /// the head of a sequence, neither a binding nor a class is read there.
    pub open spec fn holds(self, ts: Seq<(Token<'s>, Span<'p>)>) -> bool {
        match self {
            Pending::Binding { open, name, value, miss, from, next } => {
                &&& from < next <= ts.len()
                &&& grammar::binding_head(ts, from as int) == Outcome::found(
                    (open, name, node_view(value)),
                    next as int,
                    miss@,
                )
            },
            Pending::Sequence { first, miss, before, from, next } => {
                &&& from + 1 < next <= ts.len()
                &&& grammar::binding_head(ts, from as int).value is None
                &&& grammar::class_decl(ts, from as int).value is None
                &&& before@ == grammar::binding_head(ts, from as int).miss.join(
                    grammar::class_decl(ts, from as int).miss,
                )
                &&& grammar::sequence_head(ts, from as int) == Outcome::found(
                    node_view(first),
                    next as int,
                    miss@,
                )
            },
        }
    }
}

impl<'s, 'p> Pending<'s, 'p> {
    /// The position behind the head.
    pub fn next(&self) -> (next: usize)
        ensures
            next == self.end(),
    {
        match self {
            Pending::Binding { next, .. } => *next,
            Pending::Sequence { next, .. } => *next,
        }
    }
}

/// The heads follow one another from `from` to `to`.
pub open spec fn linked(heads: Seq<Pending>, from: int, to: int) -> bool {
    &&& heads.len() == 0 ==> from == to
    &&& heads.len() > 0 ==> heads[0].start() == from && heads.last().end() == to
    &&& forall|i: int, j: int|
        0 <= i && j == i + 1 && j < heads.len() ==> (#[trigger] heads[i]).end() == (
        #[trigger] heads[j]).start()
}

/// A binding, a class, an expression with more statements behind it, or an
/// expression that ends the chain, tried in this order.
///
/// A chain of statements is read in a loop: the heads of the bindings and
/// sequences are kept until the end of the chain is found, and the nodes are
/// then built from the last statement back to the first.
pub fn statement<'s, 'p>(ts: &[(Token<'s>, Span<'p>)], pos: usize) -> (step: Step<
    Spanned<'p, AstNode<'s, 'p>>,
>)
    requires
        in_order(ts@),
        pos <= ts@.len(),
    ensures
        same_node(step, grammar::statement(ts@, pos as int)),
{
    let mut heads: Vec<Pending<'s, 'p>> = Vec::new();
    let mut at: usize = pos;
    let mut last: Step<Spanned<'p, AstNode<'s, 'p>>> = Step::fail(Missed::nothing());
    loop
        invariant
            in_order(ts@),
            pos <= at <= ts@.len(),
            linked(heads@, pos as int, at as int),
            forall|i: int|
                0 <= i < heads@.len() ==> (#[trigger] heads@[i]).holds(ts@) && pos
                    <= heads@[i].start(),
        ensures
            same_node(last, grammar::statement(ts@, at as int)),
        decreases ts@.len() - at,
    {
        proof {
            reveal_with_fuel(grammar::statement, 1);
            reveal_with_fuel(grammar::binding, 1);
            reveal_with_fuel(grammar::sequence, 1);
            reveal_with_fuel(grammar::sequence_head, 1);
            reveal_with_fuel(grammar::expr, 1);
            lemma_binding_head(ts@, at as int);
            lemma_sequence_head(ts@, at as int);
            lemma_expr(ts@, at as int);
        }
        let head = binding_head(ts, at);
        let before = head.miss;
        match head.value {
            Some(((open, name, value), next)) => {
                heads.push(Pending::Binding { open, name, value, miss: before, from: at, next });
                at = next;
            },
            None => {
                let class = class_decl(ts, at).after(before);
                if class.value.is_some() {
                    last = class;
                    break ;
                }
                let first = expr(ts, at);
                let miss = first.miss;
                match first.value {
                    None => {
                        last = Step::fail(class.miss.join(miss).join(miss));
                        break ;
                    },
                    Some((first, end)) => {
                        let semicolon = just(ts, end, TokenKind::Semicol);
                        if semicolon.value.is_none() {
                            last = Step::found(
                                first,
                                end,
                                class.miss.join(miss.join(semicolon.miss)).join(miss),
                            );
                            break ;
                        }
                        heads.push(
                            Pending::Sequence {
                                first,
                                miss,
                                before: class.miss,
                                from: at,
                                next: end + 1,
                            },
                        );
                        at = end + 1;
                    },
                }
            },
        }
    }
    while heads.len() > 0
        invariant
            in_order(ts@),
            pos <= at <= ts@.len(),
            linked(heads@, pos as int, at as int),
            forall|i: int|
                0 <= i < heads@.len() ==> (#[trigger] heads@[i]).holds(ts@) && pos
                    <= heads@[i].start(),
            same_node(last, grammar::statement(ts@, at as int)),
        decreases heads@.len(),
    {
        match heads.pop() {
            None => {},
            Some(head) => {
                let ghost from = head.start();
                last = close(ts, head, last);
                at = match heads.last() {
                    Some(before) => before.next(),
                    None => pos,
                };
                assert(at == from);
            },
        }
    }
    last
}

/// The statement that starts with `head`, made of the head and of what the
/// statements behind it read.
pub fn close<'s, 'p>(
    ts: &[(Token<'s>, Span<'p>)],
    head: Pending<'s, 'p>,
    rest: Step<Spanned<'p, AstNode<'s, 'p>>>,
) -> (step: Step<Spanned<'p, AstNode<'s, 'p>>>)
    requires
        in_order(ts@),
        head.holds(ts@),
        same_node(rest, grammar::statement(ts@, head.end())),
    ensures
        same_node(step, grammar::statement(ts@, head.start())),
{
    let miss = rest.miss;
    match head {
        Pending::Binding { open, name, value, miss: before, from, next } => {
            proof {
                lemma_statement(ts@, next as int);
                lemma_binding_head(ts@, from as int);
                lemma_statement_with_binding(ts@, from as int);
            }
            let joined = before.join(miss);
            match rest.value {
                Some((rest, end)) => {
                    proof {
                        lemma_merge_in_order(ts@, from as int, from as int, next as int, end - 1);
                    }
                    let span = open.merge(rest.0);
                    Step::found(
                        (span, AstNode::Let(name, Box::new(value), Box::new(rest))),
                        end,
                        joined,
                    )
                },
                None => {
                    proof {
                        lemma_only_binding_at_let(ts@, from as int);
                    }
                    let class = class_decl(ts, from);
                    let other = expr(ts, from);
                    Step::fail(joined.join(class.miss).join(other.miss).join(other.miss))
                },
            }
        },
        Pending::Sequence { first, miss: head_miss, before, from, next } => {
            proof {
                lemma_statement(ts@, next as int);
                lemma_sequence_head(ts@, from as int);
                lemma_expr(ts@, from as int);
                lemma_statement_with_sequence(ts@, from as int);
            }
            let joined = head_miss.join(miss);
            match rest.value {
                Some((rest, end)) => {
                    proof {
                        lemma_merge_in_order(ts@, from as int, next - 2, next as int, end - 1);
                    }
                    let span = first.0.merge(rest.0);
                    Step::found(
                        (span, AstNode::Statement(Box::new(first), Box::new(rest))),
                        end,
                        before.join(joined),
                    )
                },
                None => Step::found(first, next - 1, before.join(joined).join(head_miss)),
            }
        },
    }
}

/// Parses the tokens of one source as a program: a statement that takes up
/// all the tokens. `file` names the source; it is used for the span of the
/// end of input.
///
/// The result is the tree that the grammar reads, or one error that reports
/// the furthest miss. A tree spans all the tokens, and tokens that hold an
/// `Error` token are never a program: the error then lies at the first such
/// token or before it, and at that token where the tokens before it can
/// begin a program. In a tree every span encloses the spans of the children.
pub fn parser<'s, 'p>(tokens: &[(Token<'s>, Span<'p>)], file: &'p str) -> (result: Result<
    Spanned<'p, AstNode<'s, 'p>>,
    Vec<ParseError<'s, 'p>>,
>)
    requires
        in_order(tokens@),
    ensures
        match result {
            Ok(node) => grammar::program(tokens@).value == Some(
                (node_view(node), tokens@.len() as int),
            ),
            Err(errors) => {
                &&& grammar::program(tokens@).value is None
                &&& errors@.len() == 1
                &&& grammar::reports(errors@[0], tokens@, file, grammar::program(tokens@).miss)
            },
        },
        result matches Ok(node) ==> tokens@.len() > 0 && node.0.wf() && node.0
            == tokens@[0].1.merged(tokens@.last().1),
        result matches Ok(node) ==> nested(node.0, node.1@),
        forall|at: int| #[trigger]
            is_error(tokens@, at) ==> result is Err && grammar::program(tokens@).miss.at <= at,
        forall|at: int| #[trigger]
            is_error(tokens@, at) && begins_well(tokens@, at) ==> result is Err
                && result->Err_0@[0].found == Some(tokens@[at].0) && result->Err_0@[0].at
                == tokens@[at].1,
{
    let body = statement(tokens, 0);
    proof {
        lemma_program(tokens@);
        lemma_statement(tokens@, 0);
        lemma_program_is_nested(tokens@);
        assert forall|at: int| #[trigger]
            is_error(tokens@, at) && begins_well(tokens@, at) implies grammar::program(
            tokens@,
        ).miss.at == at by {
            lemma_error_lies_at_error_token(tokens@, at);
        }
    }
    let miss = match body.value {
        Some((node, next)) => {
            if next == tokens.len() {
                proof {
                    lemma_merge_in_order(tokens@, 0, 0, 0, tokens@.len() - 1);
                }
                return Ok(node);
            }
            body.miss.join(Missed::end(next))
        },
        None => body.miss,
    };
    let (found, at) = if miss.at < tokens.len() {
        (Some(tokens[miss.at].0), tokens[miss.at].1)
    } else if tokens.len() == 0 {
        (None, Span { file, start: 0, end: 0 })
    } else {
        let end = tokens[tokens.len() - 1].1.end;
        (None, Span { file, start: end, end })
    };
    let mut errors: Vec<ParseError<'s, 'p>> = Vec::new();
    errors.push(ParseError { expected: miss.expected, found, at });
    Err(errors)
}

} // verus!
