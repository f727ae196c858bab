//! What holds of every token sequence that the lexical rules give.
use crate::lexer::rules::{BACKSLASH, QUOTE,
    decimal, is_escape, lexeme_at, run_end, string_end, tokens, tokens_from, ByteClass, Placed,
};
use crate::lexer::TokenKind;
use vstd::prelude::*;
use vstd::utf8::{is_char_boundary, length_of_first_scalar, pop_first_scalar, valid_utf8};

verus! {

/// A run ends inside the source, and every byte of it is in the class.
pub proof fn lemma_run_end(bytes: Seq<u8>, class: ByteClass, pos: int)
    requires
        0 <= pos <= bytes.len(),
    ensures
        pos <= run_end(bytes, class, pos) <= bytes.len(),
        forall|k: int| pos <= k < run_end(bytes, class, pos) ==> class.holds(#[trigger] bytes[k]),
        run_end(bytes, class, pos) < bytes.len() ==> !class.holds(
            bytes[run_end(bytes, class, pos)],
        ),
    decreases bytes.len() - pos,
{
    if pos < bytes.len() && class.holds(bytes[pos]) {
        lemma_run_end(bytes, class, pos + 1);
    }
}

/// A string that closes does so with a quote, inside the source.
pub proof fn lemma_string_end(bytes: Seq<u8>, pos: int)
    requires
        0 <= pos,
    ensures
        string_end(bytes, pos) matches Some(end) ==> pos < end <= bytes.len() && bytes[end - 1]
            == QUOTE,
    decreases bytes.len() - pos,
{
    if pos < bytes.len() && bytes[pos] != QUOTE {
        if bytes[pos] == BACKSLASH {
            if pos + 1 < bytes.len() && is_escape(bytes[pos + 1]) {
                lemma_string_end(bytes, pos + 2);
            }
        } else {
            lemma_string_end(bytes, pos + 1);
        }
    }
}

/// Every lexeme holds at least one byte and ends inside the source.
pub proof fn lemma_lexeme_bounds(bytes: Seq<u8>, pos: int)
    requires
        0 <= pos < bytes.len(),
    ensures
        pos < lexeme_at(bytes, pos).end <= bytes.len(),
{
    let digits = run_end(bytes, ByteClass::Digit, pos);
    lemma_run_end(bytes, ByteClass::Digit, pos);
    if pos + 2 <= bytes.len() {
        lemma_run_end(bytes, ByteClass::BlockBody, pos + 2);
    }
    lemma_run_end(bytes, ByteClass::LineBody, pos + 1);
    lemma_run_end(bytes, ByteClass::Continuation, pos + 1);
    lemma_run_end(bytes, ByteClass::IdentPart, pos + 1);
    lemma_run_end(bytes, ByteClass::Blank, pos + 1);
    lemma_run_end(bytes, ByteClass::Newline, pos + 1);
    lemma_string_end(bytes, pos + 1);
    if digits + 1 < bytes.len() {
        lemma_run_end(bytes, ByteClass::Digit, digits + 1);
    }
    if pos + 1 < bytes.len() {
        lemma_run_end(bytes, ByteClass::IdentPart, pos + 2);
    }
}

/// A longer run of digits writes no smaller a number.
pub proof fn lemma_decimal_grows(bytes: Seq<u8>, from: int, mid: int, to: int)
    requires
        from <= mid <= to,
    ensures
        decimal(bytes, from, mid) <= decimal(bytes, from, to),
    decreases to - mid,
{
    if mid < to {
        lemma_decimal_grows(bytes, from, mid, to - 1);
    }
}

/// The byte after a one-byte character starts a character or ends the text.
pub proof fn lemma_boundary_after_ascii(bytes: Seq<u8>, at: int)
    requires
        valid_utf8(bytes),
        0 <= at < bytes.len(),
        bytes[at] < 0x80,
    ensures
        is_char_boundary(bytes, at + 1),
    decreases bytes.len(),
{
    reveal_with_fuel(is_char_boundary, 2);
    let first = length_of_first_scalar(bytes);
    if at >= first {
        lemma_boundary_after_ascii(pop_first_scalar(bytes), at - first);
    }
}

/// The tokens from an offset on lie inside the source, one after the other,
/// and none is empty.
pub proof fn lemma_tokens_in_order(bytes: Seq<u8>, pos: int)
    requires
        0 <= pos,
    ensures
        forall|i: int|
            0 <= i < tokens_from(bytes, pos).len() ==> pos <= (#[trigger] tokens_from(
                bytes,
                pos,
            )[i]).start < tokens_from(bytes, pos)[i].end <= bytes.len(),
        forall|i: int, j: int|
            0 <= i < j < tokens_from(bytes, pos).len() ==> (#[trigger] tokens_from(
                bytes,
                pos,
            )[i]).end <= (#[trigger] tokens_from(bytes, pos)[j]).start,
    decreases bytes.len() - pos,
{
    if pos < bytes.len() {
        let lexeme = lexeme_at(bytes, pos);
        lemma_lexeme_bounds(bytes, pos);
        lemma_tokens_in_order(bytes, lexeme.end);
    }
}

/// The bytes from `from` to `to` are text that is dropped: comments and
/// blank space, one lexeme behind the other.
pub open spec fn dropped(bytes: Seq<u8>, from: int, to: int) -> bool
    decreases to - from,
{
    if from >= to {
        from == to
    } else {
        &&& lexeme_at(bytes, from).kind is None
        &&& from < lexeme_at(bytes, from).end <= to
        &&& dropped(bytes, lexeme_at(bytes, from).end, to)
    }
}

/// From `from` on the source is made of the given tokens, each a lexeme of
/// its kind, with nothing but dropped text before, between and behind them.
pub open spec fn tiles(bytes: Seq<u8>, found: Seq<Placed>, from: int) -> bool
    decreases found.len(),
{
    if found.len() == 0 {
        dropped(bytes, from, bytes.len() as int)
    } else {
        &&& dropped(bytes, from, found[0].start)
        &&& 0 <= found[0].start < found[0].end <= bytes.len()
        &&& lexeme_at(bytes, found[0].start).kind == Some(found[0].token.kind)
        &&& lexeme_at(bytes, found[0].start).end == found[0].end
        &&& tiles(bytes, found.drop_first(), found[0].end)
    }
}

/// The text from `from` on, put together again: before each token the text
/// that was dropped, then the text of the token, and behind the last token
/// the text that is left.
pub open spec fn stitched(bytes: Seq<u8>, found: Seq<Placed>, from: int) -> Seq<u8>
    decreases found.len(),
{
    if found.len() == 0 {
        bytes.subrange(from, bytes.len() as int)
    } else {
        bytes.subrange(from, found[0].start) + bytes.subrange(found[0].start, found[0].end)
            + stitched(bytes, found.drop_first(), found[0].end)
    }
}

/// The scan, started at `from`, comes to stand at `at`.
pub open spec fn reached(bytes: Seq<u8>, from: int, at: int) -> bool
    decreases at - from,
{
    from == at || (from < at && from < lexeme_at(bytes, from).end <= at && reached(
        bytes,
        lexeme_at(bytes, from).end,
        at,
    ))
}

proof fn lemma_dropped_before(bytes: Seq<u8>, pos: int)
    requires
        0 <= pos <= bytes.len(),
    ensures
        tiles(bytes, tokens_from(bytes, pos), pos),
    decreases bytes.len() - pos,
{
    if pos < bytes.len() {
        let lexeme = lexeme_at(bytes, pos);
        lemma_lexeme_bounds(bytes, pos);
        lemma_dropped_before(bytes, lexeme.end);
        lemma_tokens_in_order(bytes, lexeme.end);
        let rest = tokens_from(bytes, lexeme.end);
        match lexeme.kind {
            Some(kind) => {
                assert(tokens_from(bytes, pos).drop_first() =~= rest);
            },
            None => {
                if rest.len() > 0 {
                    assert(lexeme.end <= rest[0].start);
                }
            },
        }
    }
}

proof fn lemma_stitched(bytes: Seq<u8>, found: Seq<Placed>, from: int)
    requires
        0 <= from <= bytes.len(),
        forall|i: int| 0 <= i < found.len() ==> from <= (#[trigger] found[i]).start < found[i].end
            <= bytes.len(),
        forall|i: int, j: int|
            0 <= i < j < found.len() ==> (#[trigger] found[i]).end <= (#[trigger] found[j]).start,
    ensures
        stitched(bytes, found, from) == bytes.subrange(from, bytes.len() as int),
    decreases found.len(),
{
    if found.len() > 0 {
        let rest = found.drop_first();
        assert forall|i: int| 0 <= i < rest.len() implies found[0].end <= (#[trigger] rest[i]).start
            < rest[i].end <= bytes.len() by {
            assert(rest[i] == found[i + 1]);
        }
        assert forall|i: int, j: int| 0 <= i < j < rest.len() implies (#[trigger] rest[i]).end <= (
        #[trigger] rest[j]).start by {
            assert(rest[i] == found[i + 1]);
            assert(rest[j] == found[j + 1]);
        }
        lemma_stitched(bytes, rest, found[0].end);
        assert(bytes.subrange(from, found[0].start) + bytes.subrange(found[0].start, found[0].end)
            + bytes.subrange(found[0].end, bytes.len() as int) =~= bytes.subrange(
            from,
            bytes.len() as int,
        ));
    }
}

/// The tokens of a source cover it: each token is a lexeme of its kind that
/// lies inside the source, the tokens stand in order, the text before,
/// between and behind them is dropped text, and the spans of the tokens with
/// the dropped text between them, put together in order, are the source.
pub proof fn lemma_tokens_cover_source(bytes: Seq<u8>)
    ensures
        tiles(bytes, tokens(bytes), 0),
        stitched(bytes, tokens(bytes), 0) == bytes,
        forall|i: int|
            0 <= i < tokens(bytes).len() ==> 0 <= (#[trigger] tokens(bytes)[i]).start < tokens(
                bytes,
            )[i].end <= bytes.len(),
        forall|i: int, j: int|
            0 <= i < j < tokens(bytes).len() ==> (#[trigger] tokens(bytes)[i]).end <= (
            #[trigger] tokens(bytes)[j]).start,
{
    lemma_dropped_before(bytes, 0);
    lemma_tokens_in_order(bytes, 0);
    lemma_stitched(bytes, tokens(bytes), 0);
    assert(bytes.subrange(0, bytes.len() as int) =~= bytes);
}

/// Where the scan comes to stand at text that no rule matches, the tokens
/// from `from` on hold an `Error` token that starts there.
pub proof fn lemma_unmatched_text_is_error(bytes: Seq<u8>, from: int, at: int) -> (index: int)
    requires
        0 <= from <= at < bytes.len(),
        reached(bytes, from, at),
        lexeme_at(bytes, at).kind == Some(TokenKind::Error),
    ensures
        0 <= index < tokens_from(bytes, from).len(),
        tokens_from(bytes, from)[index].start == at,
        tokens_from(bytes, from)[index].token.kind == TokenKind::Error,
    decreases at - from,
{
    lemma_lexeme_bounds(bytes, from);
    if from == at {
        0
    } else {
        let lexeme = lexeme_at(bytes, from);
        let index = lemma_unmatched_text_is_error(bytes, lexeme.end, at);
        match lexeme.kind {
            Some(kind) => index + 1,
            None => index,
        }
    }
}

} // verus!
