//! The syntax tree, and the parser that builds it from tokens.
use crate::lexer::Token;
use crate::parser::kinds::KindSet;
use crate::{Span, Spanned};
use internment::Intern;
use vstd::prelude::*;

pub mod grammar;
pub mod kinds;
pub mod laws;
pub mod locality;
pub mod nesting;
pub mod parsers;

pub use parsers::parser;

verus! {

/// A node of the syntax tree. Each child stands with the span of the source
/// text it was read from, and belongs to its parent alone.
#[derive(Debug, PartialEq, Eq)]
pub enum AstNode<'s, 'p> {
    /// `class` name fields `end`. The fields are checked when the class is
    /// read and are not kept.
    Class(Spanned<'p, Intern<String>>),
    /// `let` name `=` value `;` rest: the name is bound in the rest.
    Let(
        Spanned<'p, Intern<String>>,
        Box<Spanned<'p, AstNode<'s, 'p>>>,
        Box<Spanned<'p, AstNode<'s, 'p>>>,
    ),
    /// first `;` rest.
    Statement(Box<Spanned<'p, AstNode<'s, 'p>>>, Box<Spanned<'p, AstNode<'s, 'p>>>),
    Literal(Literal<'s>),
    /// `[` items `]`.
    List(Vec<Spanned<'p, AstNode<'s, 'p>>>),
    Ident(Intern<String>),
    /// callee `(` arguments `)`.
    Call(Box<Spanned<'p, AstNode<'s, 'p>>>, Vec<Spanned<'p, AstNode<'s, 'p>>>),
    /// `\` parameters `->` body.
    Lambda(Vec<Spanned<'p, Intern<String>>>, Box<Spanned<'p, AstNode<'s, 'p>>>),
    UnaryOp(Op, Box<Spanned<'p, AstNode<'s, 'p>>>),
    BinOp(Box<Spanned<'p, AstNode<'s, 'p>>>, Op, Box<Spanned<'p, AstNode<'s, 'p>>>),
}

/// The operators of the language.
#[derive(Debug, Clone, Copy, PartialEq, Eq, Structural)]
pub enum Op {
    Assign,
    Field,
    Pipe,
    Send,
    Add,
    Sub,
    Mul,
    Div,
    Eq,
    Neq,
    Lt,
    Gt,
    Ge,
    Le,
}

/// A literal value. A string is kept as it was written, with its quotes, and
/// a float is kept as it was written.
#[derive(Debug, Clone, Copy, PartialEq, Eq)]
pub enum Literal<'s> {
    String(&'s str),
    Symbol(Intern<String>),
    Int(i64),
    UInt(u64),
    Float(&'s str),
}

/// A syntax tree as a mathematical value: an [`AstNode`] whose lists of
/// children are sequences.
pub ghost enum Tree<'s, 'p> {
    Class(Spanned<'p, Intern<String>>),
    Let(Spanned<'p, Intern<String>>, Box<Node<'s, 'p>>, Box<Node<'s, 'p>>),
    Statement(Box<Node<'s, 'p>>, Box<Node<'s, 'p>>),
    Literal(Literal<'s>),
    List(Seq<Node<'s, 'p>>),
    Ident(Intern<String>),
    Call(Box<Node<'s, 'p>>, Seq<Node<'s, 'p>>),
    Lambda(Seq<Spanned<'p, Intern<String>>>, Box<Node<'s, 'p>>),
    UnaryOp(Op, Box<Node<'s, 'p>>),
    BinOp(Box<Node<'s, 'p>>, Op, Box<Node<'s, 'p>>),
}

/// A tree with the span it was read from.
pub type Node<'s, 'p> = (Span<'p>, Tree<'s, 'p>);

impl<'s, 'p> AstNode<'s, 'p> {
    /// The tree that this node is.
    pub open spec fn tree(&self) -> Tree<'s, 'p>
        decreases self,
    {
        match self {
            AstNode::Class(name) => Tree::Class(*name),
            AstNode::Let(name, value, rest) => Tree::Let(
                *name,
                Box::new((value.0, value.1.tree())),
                Box::new((rest.0, rest.1.tree())),
            ),
            AstNode::Statement(first, rest) => Tree::Statement(
                Box::new((first.0, first.1.tree())),
                Box::new((rest.0, rest.1.tree())),
            ),
            AstNode::Literal(literal) => Tree::Literal(*literal),
            AstNode::List(items) => Tree::List(
                Seq::new(
                    items@.len(),
                    |i: int|
                        if 0 <= i < items@.len() {
                            (items@[i].0, items@[i].1.tree())
                        } else {
                            arbitrary()
                        },
                ),
            ),
            AstNode::Ident(name) => Tree::Ident(*name),
            AstNode::Call(callee, arguments) => Tree::Call(
                Box::new((callee.0, callee.1.tree())),
                Seq::new(
                    arguments@.len(),
                    |i: int|
                        if 0 <= i < arguments@.len() {
                            (arguments@[i].0, arguments@[i].1.tree())
                        } else {
                            arbitrary()
                        },
                ),
            ),
            AstNode::Lambda(parameters, body) => Tree::Lambda(
                parameters@,
                Box::new((body.0, body.1.tree())),
            ),
            AstNode::UnaryOp(op, operand) => Tree::UnaryOp(
                *op,
                Box::new((operand.0, operand.1.tree())),
            ),
            AstNode::BinOp(left, op, right) => Tree::BinOp(
                Box::new((left.0, left.1.tree())),
                *op,
                Box::new((right.0, right.1.tree())),
            ),
        }
    }
}

impl<'s, 'p> View for AstNode<'s, 'p> {
    type V = Tree<'s, 'p>;

    open spec fn view(&self) -> Tree<'s, 'p> {
        self.tree()
    }
}

/// A node with its span, as a mathematical value.
pub open spec fn node_view<'s, 'p>(node: Spanned<'p, AstNode<'s, 'p>>) -> Node<'s, 'p> {
    (node.0, node.1@)
}

/// A list of nodes, as a sequence of mathematical values.
pub open spec fn nodes_view<'s, 'p>(nodes: Seq<Spanned<'p, AstNode<'s, 'p>>>) -> Seq<
    Node<'s, 'p>,
> {
    Seq::new(nodes.len(), |i: int| node_view(nodes[i]))
}

/// Why a token sequence is no program: the kinds of token, or the end of
/// input (`None`), that could have stood at the place where the parser got
/// furthest; the token that stands there, or `None` at the end of input; and
/// the span of that place.
#[derive(Debug, Clone, Copy, PartialEq, Eq)]
pub struct ParseError<'s, 'p> {
    pub expected: KindSet,
    pub found: Option<Token<'s>>,
    pub at: Span<'p>,
}

} // verus!
