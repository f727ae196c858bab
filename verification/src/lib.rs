//! Front end of a small expression-oriented language.
//!
//! Source text is cut into tokens by [`lexer::tokenize`], and the tokens are
//! turned into a tree of syntax nodes by [`parser::parser`]. Every token and
//! every node carries the [`Span`] of source text it was read from.
//!
//! What the tokenizer and the parser give is stated over two mathematical
//! descriptions: the lexical rules in [`lexer::rules`], which are functions
//! on the bytes of a source, and the grammar in [`parser::grammar`], which is
//! a set of functions on token sequences. [`lexer::laws`], [`parser::laws`],
//! [`parser::locality`] and [`parser::nesting`] prove what holds of all
//! sources and all token sequences.
//!
//! The parser follows the nesting of the source by recursion, so the call
//! stack grows with the depth of parentheses, lists, arguments and lambda
//! bodies; it does not grow with the length of a chain of statements, of a
//! run of `-` or of a row of operators, which are read in loops.
use vstd::prelude::*;

pub mod intern;
pub mod lexer;
pub mod parser;

verus! {

/// A value together with the range of source text it was read from.
pub type Spanned<'p, T> = (Span<'p>, T);

/// A half-open range of byte offsets, `start..end`, into one named source.
///
/// A span is well formed when `start <= end`. Spans are plain values: they
/// are copied freely and never changed in place.
#[derive(Clone, Copy, Debug, PartialEq, Eq)]
pub struct Span<'p> {
    pub file: &'p str,
    pub start: usize,
    pub end: usize,
}

impl<'p> Span<'p> {
    /// `start <= end`.
    pub open spec fn wf(self) -> bool {
        self.start <= self.end
    }

    /// Both spans lie in the same source, and `self` neither starts nor ends
    /// after `other`: the order in which spans are met when a source is read
    /// from left to right.
    pub open spec fn precedes(self, other: Span<'p>) -> bool {
        &&& self.file@ == other.file@
        &&& self.start <= other.start
        &&& self.end <= other.end
    }

    /// The range from the start of `self` to the end of `other`.
    pub open spec fn merged(self, other: Span<'p>) -> Span<'p> {
        Span { file: self.file, start: self.start, end: other.end }
    }

    /// The span of `range` in the source named `context`.
    pub fn new(context: &'p str, range: std::ops::Range<usize>) -> (span: Self)
        requires
            range.start <= range.end,
        ensures
            span == (Span { file: context, start: range.start, end: range.end }),
            span.wf(),
    {
        Span { file: context, start: range.start, end: range.end }
    }

    /// The smallest span that encloses `self` and a later span `other`.
    pub fn merge(self, other: Self) -> (span: Self)
        requires
            self.precedes(other),
            other.wf(),
        ensures
            span == self.merged(other),
            span.wf(),
    {
        Span { file: self.file, start: self.start, end: other.end }
    }

    /// The name of the source this span points into.
    pub fn context(&self) -> (file: &'p str)
        ensures
            file == self.file,
    {
        self.file
    }

    /// Offset of the first byte of the range.
    pub fn start(&self) -> (offset: usize)
        ensures
            offset == self.start,
    {
        self.start
    }

    /// Offset just past the last byte of the range.
    pub fn end(&self) -> (offset: usize)
        ensures
            offset == self.end,
    {
        self.end
    }
}

/// Merging is associative on spans met in left-to-right order: for `a`
/// before `b` before `c`, both groupings may be formed and give the same span,
/// which runs from the start of `a` to the end of `c`.
pub proof fn lemma_merge_associative<'p>(a: Span<'p>, b: Span<'p>, c: Span<'p>)
    requires
        a.wf(),
        b.wf(),
        c.wf(),
        a.precedes(b),
        b.precedes(c),
    ensures
        a.merged(b).precedes(c),
        a.precedes(b.merged(c)),
        b.merged(c).wf(),
        a.merged(b).merged(c) == a.merged(b.merged(c)),
        a.merged(b).merged(c) == (Span { file: a.file, start: a.start, end: c.end }),
        a.merged(b).merged(c).wf(),
{
}

} // verus!
