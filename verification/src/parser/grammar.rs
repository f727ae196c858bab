//! The grammar, as functions from a token sequence and a position to what
//! a rule reads there.
//!
//! The grammar is an ordered choice: where a rule has alternatives they are
//! tried in the order written, and the first that reads something is taken.
//! From tightest to loosest an expression is an atom, a run of `-` before an
//! atom, and then five levels of operators that group to the left: `.`, `<|`,
//! `*` `/`, `+` `-`, `=`.
//!
//! Besides what a rule reads, each function tells the furthest place at which
//! a token was looked for and not found, and which kinds were looked for
//! there. Of a failed parse this is what is reported.
//!
//! The rules call one another, so they are opaque: a proof that follows a
//! rule into its parts reveals the rule and the rules it calls, as the proofs
//! in [`crate::parser::laws`] do.
use crate::lexer::{Token, TokenKind};
use crate::parser::{Literal, Node, Op, ParseError, Tree};
use crate::{Span, Spanned};
use internment::Intern;
use vstd::prelude::*;

verus! {

/// The tokens of one source, each with its span.
pub type Tokens<'s, 'p> = Seq<(Token<'s>, Span<'p>)>;

/// The furthest place at which a token was looked for in vain, and the kinds
/// that were looked for there (`None`: the end of input).
pub ghost struct Miss {
    pub at: int,
    pub expected: Set<Option<TokenKind>>,
}

impl Miss {
    /// No token has been looked for in vain.
    pub open spec fn nothing() -> Miss {
        Miss { at: 0, expected: Set::empty() }
    }

    /// `kind` was looked for at `at`.
    pub open spec fn token(at: int, kind: TokenKind) -> Miss {
        Miss { at, expected: Set::empty().insert(Some(kind)) }
    }

    /// The end of input was looked for at `at`.
    pub open spec fn end(at: int) -> Miss {
        Miss { at, expected: Set::empty().insert(None) }
    }

    /// The further of two misses; at one place, what either looked for.
    #[verifier::opaque]
    pub open spec fn join(self, later: Miss) -> Miss {
        if self.at > later.at {
            self
        } else if later.at > self.at {
            later
        } else {
            Miss { at: self.at, expected: self.expected.union(later.expected) }
        }
    }
}

/// Two misses joined lie where the further of them lies.
pub broadcast proof fn lemma_join_at(first: Miss, later: Miss)
    ensures
        #[trigger] first.join(later).at == if first.at > later.at {
            first.at
        } else {
            later.at
        },
{
    reveal(Miss::join);
}

/// What a rule reads at a position: the value and the position behind it, or
/// nothing; and the furthest miss on the way.
pub ghost struct Outcome<T> {
    pub value: Option<(T, int)>,
    pub miss: Miss,
}

impl<T> Outcome<T> {
    pub open spec fn fail(miss: Miss) -> Self {
        Outcome { value: None, miss }
    }

    pub open spec fn found(item: T, next: int, miss: Miss) -> Self {
        Outcome { value: Some((item, next)), miss }
    }

    /// The value read.
    pub open spec fn item(self) -> T {
        (self.value->Some_0).0
    }

    /// The position behind what was read.
    pub open spec fn next(self) -> int {
        (self.value->Some_0).1
    }

    /// Something was read, from `pos` on, and it holds at least one token.
    pub open spec fn reaches(self, pos: int, len: nat) -> bool {
        self.value is Some && pos < self.next() <= len
    }

    /// The same outcome behind an earlier miss.
    pub open spec fn after(self, earlier: Miss) -> Self {
        Outcome { value: self.value, miss: earlier.join(self.miss) }
    }

    /// Ordered choice: `self` if it read something, else `other`.
    pub open spec fn or(self, other: Self) -> Self {
        if self.value is Some {
            self
        } else {
            other.after(self.miss)
        }
    }
}

/// The kind of the token at `pos`, if there is one.
pub open spec fn kind_at(ts: Tokens, pos: int) -> Option<TokenKind> {
    if 0 <= pos < ts.len() {
        Some(ts[pos].0.spec_kind())
    } else {
        None
    }
}

/// One token of the given kind; the value is its span.
pub open spec fn just<'s, 'p>(ts: Tokens<'s, 'p>, pos: int, kind: TokenKind) -> Outcome<Span<'p>> {
    if kind_at(ts, pos) == Some(kind) {
        Outcome::found(ts[pos].1, pos + 1, Miss::nothing())
    } else {
        Outcome::fail(Miss::token(pos, kind))
    }
}

/// An identifier token, as a name with its span.
pub open spec fn raw_ident<'s, 'p>(ts: Tokens<'s, 'p>, pos: int) -> Outcome<
    Spanned<'p, Intern<String>>,
> {
    if 0 <= pos < ts.len() && ts[pos].0 is Ident {
        Outcome::found((ts[pos].1, ts[pos].0->Ident_0), pos + 1, Miss::nothing())
    } else {
        Outcome::fail(Miss::token(pos, TokenKind::Ident))
    }
}

/// An identifier token, as a node.
pub open spec fn ident<'s, 'p>(ts: Tokens<'s, 'p>, pos: int) -> Outcome<Node<'s, 'p>> {
    if 0 <= pos < ts.len() && ts[pos].0 is Ident {
        Outcome::found((ts[pos].1, Tree::Ident(ts[pos].0->Ident_0)), pos + 1, Miss::nothing())
    } else {
        Outcome::fail(Miss::token(pos, TokenKind::Ident))
    }
}

/// The miss of a literal that finds none of its tokens at `pos`.
pub open spec fn literal_miss(pos: int) -> Miss {
    Miss::token(pos, TokenKind::String).join(Miss::token(pos, TokenKind::Integer)).join(
        Miss::token(pos, TokenKind::Float),
    ).join(Miss::token(pos, TokenKind::Symbol))
}

/// A string, an integer, a float or a symbol token, as a literal node that
/// carries what the token carries. An integer token is read as `Int`: the
/// tokenizer gives no number that needs `UInt`.
pub open spec fn literal<'s, 'p>(ts: Tokens<'s, 'p>, pos: int) -> Outcome<Node<'s, 'p>> {
    if 0 <= pos < ts.len() && ts[pos].0 is String {
        Outcome::found(
            (ts[pos].1, Tree::Literal(Literal::String(ts[pos].0->String_0))),
            pos + 1,
            Miss::nothing(),
        )
    } else if 0 <= pos < ts.len() && ts[pos].0 is Integer {
        Outcome::found(
            (ts[pos].1, Tree::Literal(Literal::Int(ts[pos].0->Integer_0))),
            pos + 1,
            Miss::nothing(),
        )
    } else if 0 <= pos < ts.len() && ts[pos].0 is Float {
        Outcome::found(
            (ts[pos].1, Tree::Literal(Literal::Float(ts[pos].0->Float_0))),
            pos + 1,
            Miss::nothing(),
        )
    } else if 0 <= pos < ts.len() && ts[pos].0 is Symbol {
        Outcome::found(
            (ts[pos].1, Tree::Literal(Literal::Symbol(ts[pos].0->Symbol_0))),
            pos + 1,
            Miss::nothing(),
        )
    } else {
        Outcome::fail(literal_miss(pos))
    }
}

/// Further names of a list, each behind a comma. A comma that no name
/// follows is not read.
#[verifier::opaque]
pub open spec fn more_names<'s, 'p>(
    ts: Tokens<'s, 'p>,
    pos: int,
    got: Seq<Spanned<'p, Intern<String>>>,
    miss: Miss,
) -> Outcome<Seq<Spanned<'p, Intern<String>>>>
    decreases ts.len() - pos,
{
    let comma = just(ts, pos, TokenKind::Comma);
    let name = raw_ident(ts, pos + 1);
    if comma.value is None {
        Outcome::found(got, pos, miss.join(comma.miss))
    } else if name.value is None {
        Outcome::found(got, pos, miss.join(name.miss))
    } else {
        more_names(ts, pos + 2, got.push(name.item()), miss)
    }
}

/// Names with commas between them, or none.
#[verifier::opaque]
pub open spec fn names<'s, 'p>(ts: Tokens<'s, 'p>, pos: int) -> Outcome<
    Seq<Spanned<'p, Intern<String>>>,
> {
    let first = raw_ident(ts, pos);
    if first.value is None {
        Outcome::found(Seq::empty(), pos, first.miss)
    } else {
        more_names(ts, pos + 1, seq![first.item()], Miss::nothing())
    }
}

/// Fields of a class, each a name, a colon and a name.
#[verifier::opaque]
pub open spec fn fields(ts: Tokens, pos: int, miss: Miss) -> Outcome<()>
    decreases ts.len() - pos,
{
    let name = raw_ident(ts, pos);
    let colon = just(ts, pos + 1, TokenKind::Colon);
    let class = raw_ident(ts, pos + 2);
    if name.value is None {
        Outcome::found((), pos, miss.join(name.miss))
    } else if colon.value is None {
        Outcome::found((), pos, miss.join(colon.miss))
    } else if class.value is None {
        Outcome::found((), pos, miss.join(class.miss))
    } else {
        fields(ts, pos + 3, miss)
    }
}

/// `class` name fields `end`.
#[verifier::opaque]
pub open spec fn class_decl<'s, 'p>(ts: Tokens<'s, 'p>, pos: int) -> Outcome<Node<'s, 'p>> {
    let keyword = just(ts, pos, TokenKind::KwClass);
    let name = raw_ident(ts, pos + 1);
    let body = fields(ts, pos + 2, Miss::nothing());
    let close = just(ts, body.next(), TokenKind::KwEnd);
    if keyword.value is None {
        Outcome::fail(keyword.miss)
    } else if name.value is None {
        Outcome::fail(name.miss)
    } else if close.value is None {
        Outcome::fail(body.miss.join(close.miss))
    } else {
        Outcome::found(
            (ts[pos].1.merged(close.item()), Tree::Class(name.item())),
            body.next() + 1,
            body.miss,
        )
    }
}

/// The operator that a token of kind `kind` is on a level, if it is one.
/// The levels, from tightest to loosest: 0 `.`, 1 `<|`, 2 `*` `/`, 3 `+` `-`,
/// 4 `=`.
pub open spec fn operator(level: nat, kind: TokenKind) -> Option<Op> {
    if level == 0 && kind == TokenKind::Field {
        Some(Op::Field)
    } else if level == 1 && kind == TokenKind::Send {
        Some(Op::Send)
    } else if level == 2 && kind == TokenKind::Mul {
        Some(Op::Mul)
    } else if level == 2 && kind == TokenKind::Div {
        Some(Op::Div)
    } else if level == 3 && kind == TokenKind::Add {
        Some(Op::Add)
    } else if level == 3 && kind == TokenKind::Sub {
        Some(Op::Sub)
    } else if level == 4 && kind == TokenKind::Assign {
        Some(Op::Assign)
    } else {
        None
    }
}

/// The operator of a level at `pos`, if one stands there.
pub open spec fn operator_at(ts: Tokens, pos: int, level: nat) -> Option<Op> {
    match kind_at(ts, pos) {
        Some(kind) => operator(level, kind),
        None => None,
    }
}

/// The miss of a level that finds none of its operators at `pos`.
pub open spec fn operator_miss(pos: int, level: nat) -> Miss {
    if level == 0 {
        Miss::token(pos, TokenKind::Field)
    } else if level == 1 {
        Miss::token(pos, TokenKind::Send)
    } else if level == 2 {
        Miss::token(pos, TokenKind::Mul).join(Miss::token(pos, TokenKind::Div))
    } else if level == 3 {
        Miss::token(pos, TokenKind::Add).join(Miss::token(pos, TokenKind::Sub))
    } else {
        Miss::token(pos, TokenKind::Assign)
    }
}

/// `\` names `->` body.
#[verifier::opaque]
pub open spec fn lambda<'s, 'p>(ts: Tokens<'s, 'p>, pos: int) -> Outcome<Node<'s, 'p>>
    decreases ts.len() - pos, 5int,
{
    let backslash = just(ts, pos, TokenKind::Lambda);
    let parameters = names(ts, pos + 1);
    let arrow = just(ts, parameters.next(), TokenKind::ThinArrow);
    if backslash.value is None {
        Outcome::fail(backslash.miss)
    } else if arrow.value is None || parameters.next() <= pos {
        Outcome::fail(parameters.miss.join(arrow.miss))
    } else {
        let body = expr(ts, parameters.next() + 1);
        if !body.reaches(parameters.next() + 1, ts.len()) {
            Outcome::fail(parameters.miss.join(body.miss))
        } else {
            Outcome::found(
                (
                    ts[pos].1.merged(body.item().0),
                    Tree::Lambda(parameters.item(), Box::new(body.item())),
                ),
                body.next(),
                parameters.miss.join(body.miss),
            )
        }
    }
}

/// What may be called: an identifier, or a lambda in parentheses, whose span
/// then takes in the parentheses.
#[verifier::opaque]
pub open spec fn callee<'s, 'p>(ts: Tokens<'s, 'p>, pos: int) -> Outcome<Node<'s, 'p>>
    decreases ts.len() - pos, 6int,
{
    let name = ident(ts, pos);
    let open = just(ts, pos, TokenKind::LParen);
    if name.value is Some {
        name
    } else if open.value is None {
        Outcome::fail(name.miss.join(open.miss))
    } else {
        let inner = lambda(ts, pos + 1);
        let close = just(ts, inner.next(), TokenKind::RParen);
        if !inner.reaches(pos + 1, ts.len()) {
            Outcome::fail(name.miss.join(inner.miss))
        } else if close.value is None {
            Outcome::fail(name.miss.join(inner.miss).join(close.miss))
        } else {
            Outcome::found(
                (ts[pos].1.merged(close.item()), inner.item().1),
                inner.next() + 1,
                name.miss.join(inner.miss),
            )
        }
    }
}

/// Further expressions of a list, each behind a comma. A comma that no
/// expression follows is not read.
#[verifier::opaque]
pub open spec fn more_exprs<'s, 'p>(
    ts: Tokens<'s, 'p>,
    pos: int,
    got: Seq<Node<'s, 'p>>,
    miss: Miss,
) -> Outcome<Seq<Node<'s, 'p>>>
    decreases ts.len() - pos, 0int,
{
    let comma = just(ts, pos, TokenKind::Comma);
    if comma.value is None {
        Outcome::found(got, pos, miss.join(comma.miss))
    } else {
        let item = expr(ts, pos + 1);
        if !item.reaches(pos + 1, ts.len()) {
            Outcome::found(got, pos, miss.join(item.miss))
        } else {
            more_exprs(ts, item.next(), got.push(item.item()), miss.join(item.miss))
        }
    }
}

/// Expressions with commas between them, or none.
#[verifier::opaque]
pub open spec fn exprs<'s, 'p>(ts: Tokens<'s, 'p>, pos: int) -> Outcome<Seq<Node<'s, 'p>>>
    decreases ts.len() - pos, 21int,
{
    let first = expr(ts, pos);
    if !first.reaches(pos, ts.len()) {
        Outcome::found(Seq::empty(), pos, first.miss)
    } else {
        more_exprs(ts, first.next(), seq![first.item()], first.miss)
    }
}

/// callee `(` arguments `)`.
#[verifier::opaque]
pub open spec fn call<'s, 'p>(ts: Tokens<'s, 'p>, pos: int) -> Outcome<Node<'s, 'p>>
    decreases ts.len() - pos, 7int,
{
    let target = callee(ts, pos);
    let open = just(ts, target.next(), TokenKind::LParen);
    if !target.reaches(pos, ts.len()) {
        Outcome::fail(target.miss)
    } else if open.value is None {
        Outcome::fail(target.miss.join(open.miss))
    } else {
        let arguments = exprs(ts, target.next() + 1);
        let close = just(ts, arguments.next(), TokenKind::RParen);
        if close.value is None {
            Outcome::fail(target.miss.join(arguments.miss).join(close.miss))
        } else {
            Outcome::found(
                (
                    target.item().0.merged(close.item()),
                    Tree::Call(Box::new(target.item()), arguments.item()),
                ),
                arguments.next() + 1,
                target.miss.join(arguments.miss),
            )
        }
    }
}

/// `(` expression `)`: the expression, with a span that takes in the
/// parentheses.
#[verifier::opaque]
pub open spec fn parenthesised<'s, 'p>(ts: Tokens<'s, 'p>, pos: int) -> Outcome<Node<'s, 'p>>
    decreases ts.len() - pos, 5int,
{
    let open = just(ts, pos, TokenKind::LParen);
    if open.value is None {
        Outcome::fail(open.miss)
    } else {
        let inner = expr(ts, pos + 1);
        let close = just(ts, inner.next(), TokenKind::RParen);
        if !inner.reaches(pos + 1, ts.len()) {
            Outcome::fail(inner.miss)
        } else if close.value is None {
            Outcome::fail(inner.miss.join(close.miss))
        } else {
            Outcome::found(
                (ts[pos].1.merged(close.item()), inner.item().1),
                inner.next() + 1,
                inner.miss,
            )
        }
    }
}

/// `[` items `]`.
#[verifier::opaque]
pub open spec fn list<'s, 'p>(ts: Tokens<'s, 'p>, pos: int) -> Outcome<Node<'s, 'p>>
    decreases ts.len() - pos, 5int,
{
    let open = just(ts, pos, TokenKind::LBracket);
    if open.value is None {
        Outcome::fail(open.miss)
    } else {
        let items = exprs(ts, pos + 1);
        let close = just(ts, items.next(), TokenKind::RBracket);
        if close.value is None {
            Outcome::fail(items.miss.join(close.miss))
        } else {
            Outcome::found(
                (ts[pos].1.merged(close.item()), Tree::List(items.item())),
                items.next() + 1,
                items.miss,
            )
        }
    }
}

/// A call, an identifier, a lambda, a literal, an expression in parentheses
/// or a list, tried in this order. The call stands first: it begins as an
/// identifier or a lambda in parentheses does, and goes on.
#[verifier::opaque]
pub open spec fn atom<'s, 'p>(ts: Tokens<'s, 'p>, pos: int) -> Outcome<Node<'s, 'p>>
    decreases ts.len() - pos, 8int,
{
    call(ts, pos).or(ident(ts, pos)).or(lambda(ts, pos)).or(literal(ts, pos)).or(
        parenthesised(ts, pos),
    ).or(list(ts, pos))
}

/// An atom behind any number of `-`. Each `-` negates all that follows it.
#[verifier::opaque]
pub open spec fn unary<'s, 'p>(ts: Tokens<'s, 'p>, pos: int) -> Outcome<Node<'s, 'p>>
    decreases ts.len() - pos, 9int,
{
    if kind_at(ts, pos) == Some(TokenKind::Sub) {
        let operand = unary(ts, pos + 1);
        if !operand.reaches(pos + 1, ts.len()) {
            Outcome::fail(operand.miss)
        } else {
            Outcome::found(
                (
                    ts[pos].1.merged(operand.item().0),
                    Tree::UnaryOp(Op::Sub, Box::new(operand.item())),
                ),
                operand.next(),
                operand.miss,
            )
        }
    } else {
        atom(ts, pos).after(Miss::token(pos, TokenKind::Sub))
    }
}

/// What stands on either side of an operator of a level: an expression of
/// the next tighter level.
#[verifier::opaque]
pub open spec fn operand<'s, 'p>(ts: Tokens<'s, 'p>, pos: int, level: nat) -> Outcome<
    Node<'s, 'p>,
>
    decreases ts.len() - pos, 10 + 2 * level,
{
    if level == 0 {
        unary(ts, pos)
    } else {
        binary(ts, pos, (level - 1) as nat)
    }
}

/// Having read `left`, reads operators of the level with their right
/// operands for as long as there are any, and groups them to the left. An
/// operator that no operand follows is not read.
#[verifier::opaque]
pub open spec fn fold<'s, 'p>(
    ts: Tokens<'s, 'p>,
    pos: int,
    level: nat,
    left: Node<'s, 'p>,
    miss: Miss,
) -> Outcome<Node<'s, 'p>>
    decreases ts.len() - pos, 0int,
{
    match operator_at(ts, pos, level) {
        None => Outcome::found(left, pos, miss.join(operator_miss(pos, level))),
        Some(op) => {
            let right = operand(ts, pos + 1, level);
            if !right.reaches(pos + 1, ts.len()) {
                Outcome::found(left, pos, miss.join(right.miss))
            } else {
                fold(
                    ts,
                    right.next(),
                    level,
                    (
                        left.0.merged(right.item().0),
                        Tree::BinOp(Box::new(left), op, Box::new(right.item())),
                    ),
                    miss.join(right.miss),
                )
            }
        },
    }
}

/// An expression of a level: operands with operators of the level between
/// them.
#[verifier::opaque]
pub open spec fn binary<'s, 'p>(ts: Tokens<'s, 'p>, pos: int, level: nat) -> Outcome<
    Node<'s, 'p>,
>
    decreases ts.len() - pos, 11 + 2 * level,
{
    let first = operand(ts, pos, level);
    if !first.reaches(pos, ts.len()) {
        Outcome::fail(first.miss)
    } else {
        fold(ts, first.next(), level, first.item(), first.miss)
    }
}

/// An expression.
#[verifier::opaque]
pub open spec fn expr<'s, 'p>(ts: Tokens<'s, 'p>, pos: int) -> Outcome<Node<'s, 'p>>
    decreases ts.len() - pos, 20int,
{
    binary(ts, pos, 4)
}

/// The head of a binding: `let` name `=` value `;`. What is read is the
/// span of `let`, the name and the value.
#[verifier::opaque]
pub open spec fn binding_head<'s, 'p>(ts: Tokens<'s, 'p>, pos: int) -> Outcome<
    (Span<'p>, Spanned<'p, Intern<String>>, Node<'s, 'p>),
> {
    let keyword = just(ts, pos, TokenKind::KwLet);
    let name = raw_ident(ts, pos + 1);
    let equals = just(ts, pos + 2, TokenKind::Assign);
    let value = expr(ts, pos + 3);
    let semicolon = just(ts, value.next(), TokenKind::Semicol);
    if keyword.value is None {
        Outcome::fail(keyword.miss)
    } else if name.value is None {
        Outcome::fail(name.miss)
    } else if equals.value is None {
        Outcome::fail(equals.miss)
    } else if !value.reaches(pos + 3, ts.len()) {
        Outcome::fail(value.miss)
    } else if semicolon.value is None {
        Outcome::fail(value.miss.join(semicolon.miss))
    } else {
        Outcome::found((ts[pos].1, name.item(), value.item()), value.next() + 1, value.miss)
    }
}

/// A binding, made of its head and of what the statements behind it read.
pub open spec fn bound<'s, 'p>(
    head: Outcome<(Span<'p>, Spanned<'p, Intern<String>>, Node<'s, 'p>)>,
    rest: Outcome<Node<'s, 'p>>,
    len: nat,
) -> Outcome<Node<'s, 'p>> {
    if !rest.reaches(head.next(), len) {
        Outcome::fail(head.miss.join(rest.miss))
    } else {
        Outcome::found(
            (
                head.item().0.merged(rest.item().0),
                Tree::Let(head.item().1, Box::new(head.item().2), Box::new(rest.item())),
            ),
            rest.next(),
            head.miss.join(rest.miss),
        )
    }
}

/// `let` name `=` value `;` rest.
#[verifier::opaque]
pub open spec fn binding<'s, 'p>(ts: Tokens<'s, 'p>, pos: int) -> Outcome<Node<'s, 'p>>
    decreases ts.len() - pos, 22int,
{
    let head = binding_head(ts, pos);
    if !head.reaches(pos, ts.len()) {
        Outcome::fail(head.miss)
    } else {
        bound(head, statement(ts, head.next()), ts.len())
    }
}

/// The head of a sequence: first `;`. What is read is the first expression.
#[verifier::opaque]
pub open spec fn sequence_head<'s, 'p>(ts: Tokens<'s, 'p>, pos: int) -> Outcome<Node<'s, 'p>> {
    let first = expr(ts, pos);
    let semicolon = just(ts, first.next(), TokenKind::Semicol);
    if !first.reaches(pos, ts.len()) {
        Outcome::fail(first.miss)
    } else if semicolon.value is None {
        Outcome::fail(first.miss.join(semicolon.miss))
    } else {
        Outcome::found(first.item(), first.next() + 1, first.miss)
    }
}

/// A sequence, made of its head and of what the statements behind it read.
pub open spec fn chained<'s, 'p>(
    head: Outcome<Node<'s, 'p>>,
    rest: Outcome<Node<'s, 'p>>,
    len: nat,
) -> Outcome<Node<'s, 'p>> {
    if !rest.reaches(head.next(), len) {
        Outcome::fail(head.miss.join(rest.miss))
    } else {
        Outcome::found(
            (
                head.item().0.merged(rest.item().0),
                Tree::Statement(Box::new(head.item()), Box::new(rest.item())),
            ),
            rest.next(),
            head.miss.join(rest.miss),
        )
    }
}

/// first `;` rest.
#[verifier::opaque]
pub open spec fn sequence<'s, 'p>(ts: Tokens<'s, 'p>, pos: int) -> Outcome<Node<'s, 'p>>
    decreases ts.len() - pos, 22int,
{
    let head = sequence_head(ts, pos);
    if !head.reaches(pos, ts.len()) {
        Outcome::fail(head.miss)
    } else {
        chained(head, statement(ts, head.next()), ts.len())
    }
}

/// A binding, a class, an expression with more statements behind it, or an
/// expression that ends the chain, tried in this order.
#[verifier::opaque]
pub open spec fn statement<'s, 'p>(ts: Tokens<'s, 'p>, pos: int) -> Outcome<Node<'s, 'p>>
    decreases ts.len() - pos, 23int,
{
    binding(ts, pos).or(class_decl(ts, pos)).or(sequence(ts, pos)).or(expr(ts, pos))
}

/// A statement that takes up all the tokens.
pub open spec fn program<'s, 'p>(ts: Tokens<'s, 'p>) -> Outcome<Node<'s, 'p>> {
    let body = statement(ts, 0);
    if body.value is Some && body.next() != ts.len() {
        Outcome::fail(body.miss.join(Miss::end(body.next())))
    } else {
        body
    }
}

/// The empty span behind the last token, which stands for the end of input.
pub open spec fn end_of_input<'p>(ts: Tokens<'_, 'p>, file: &'p str) -> Span<'p> {
    if ts.len() == 0 {
        Span { file, start: 0, end: 0 }
    } else {
        Span { file, start: ts.last().1.end, end: ts.last().1.end }
    }
}

/// `error` reports `miss`: it names the kinds that were looked for, and the
/// token at the place of the miss with its span, or the end of input.
pub open spec fn reports<'s, 'p>(
    error: ParseError<'s, 'p>,
    ts: Tokens<'s, 'p>,
    file: &'p str,
    miss: Miss,
) -> bool {
    &&& error.expected@ == miss.expected
    &&& if 0 <= miss.at < ts.len() {
        error.found == Some(ts[miss.at].0) && error.at == ts[miss.at].1
    } else {
        error.found is None && error.at == end_of_input(ts, file)
    }
}

} // verus!
