//! What the compiler does with a pattern tree.
//!
//! The compiler reads characters, not trees. Where the characters spell a
//! tree, the steps that the compiler takes over them add up to one step per
//! piece of the tree, stated here.

use vstd::prelude::*;
use crate::builder::{run, step, Builder};
use crate::error::CompileError;
use crate::syntax::{alternatives_end, piece_end, row_end, Piece};

verus! {

/// The builder after a piece.
pub open spec fn wire_piece(b: Builder, piece: Piece) -> Builder
    decreases piece,
{
    match piece {
        Piece::Atom(item) => b.atom(item.code, item.q),
        Piece::Group(alternatives, q) => wire_alternatives(
            b.open_group(),
            alternatives,
        ).close_group(q),
    }
}

/// The builder after the pieces of a row.
pub open spec fn wire_row(b: Builder, row: Seq<Piece>) -> Builder
    decreases row,
{
    if row.len() == 0 {
        b
    } else {
        wire_piece(wire_row(b, row.drop_last()), row.last())
    }
}

/// The builder after the last of some alternatives, with a `|` read between
/// each two.
pub open spec fn wire_alternatives(b: Builder, alternatives: Seq<Seq<Piece>>) -> Builder
    decreases alternatives,
{
    if alternatives.len() == 0 {
        b
    } else if alternatives.len() == 1 {
        wire_row(b, alternatives[0])
    } else {
        wire_row(wire_alternatives(b, alternatives.drop_last()).alternate(), alternatives.last())
    }
}

/// Over the characters that spell a piece the compiler does what
/// [`wire_piece`] says.
pub proof fn lemma_run_piece(b: Builder, pattern: Seq<char>, i: int, piece: Piece)
    requires
        piece_end(pattern, i, piece) is Some,
        b.groups.len() >= 1,
    ensures
        run(b, pattern, i) == run(wire_piece(b, piece), pattern, piece_end(pattern, i, piece)->0),
        wire_piece(b, piece).groups.len() == b.groups.len(),
        i < piece_end(pattern, i, piece)->0 <= pattern.len(),
    decreases piece,
{
    match piece {
        Piece::Atom(item) => {
            let after = b.atom(item.code, item.q);
            let j = i + 1 + item.q.width();
            assert(step(b, pattern, i) == Ok::<(Builder, int), CompileError>((after, j)));
        },
        Piece::Group(alternatives, q) => {
            let opened = b.open_group();
            assert(step(b, pattern, i) == Ok::<(Builder, int), CompileError>((opened, i + 1)));
            lemma_run_alternatives(opened, pattern, i + 1, alternatives);
            let inner = wire_alternatives(opened, alternatives);
            let j = alternatives_end(pattern, i + 1, alternatives)->0;
            let closed = inner.close_group(q);
            assert(step(inner, pattern, j) == Ok::<(Builder, int), CompileError>(
                (closed, j + 1 + q.width()),
            ));
        },
    }
}

/// Over the characters that spell a row the compiler does what [`wire_row`]
/// says.
pub proof fn lemma_run_row(b: Builder, pattern: Seq<char>, i: int, row: Seq<Piece>)
    requires
        row_end(pattern, i, row) is Some,
        0 <= i <= pattern.len(),
        b.groups.len() >= 1,
    ensures
        run(b, pattern, i) == run(wire_row(b, row), pattern, row_end(pattern, i, row)->0),
        wire_row(b, row).groups.len() == b.groups.len(),
        i <= row_end(pattern, i, row)->0 <= pattern.len(),
    decreases row,
{
    if row.len() > 0 {
        lemma_run_row(b, pattern, i, row.drop_last());
        let j = row_end(pattern, i, row.drop_last())->0;
        lemma_run_piece(wire_row(b, row.drop_last()), pattern, j, row.last());
    }
}

/// Over the characters that spell some alternatives the compiler does what
/// [`wire_alternatives`] says.
pub proof fn lemma_run_alternatives(
    b: Builder,
    pattern: Seq<char>,
    i: int,
    alternatives: Seq<Seq<Piece>>,
)
    requires
        alternatives_end(pattern, i, alternatives) is Some,
        0 <= i <= pattern.len(),
        b.groups.len() >= 1,
    ensures
        run(b, pattern, i) == run(
            wire_alternatives(b, alternatives),
            pattern,
            alternatives_end(pattern, i, alternatives)->0,
        ),
        wire_alternatives(b, alternatives).groups.len() == b.groups.len(),
        i <= alternatives_end(pattern, i, alternatives)->0 <= pattern.len(),
    decreases alternatives,
{
    if alternatives.len() == 1 {
        lemma_run_row(b, pattern, i, alternatives[0]);
    } else {
        lemma_run_alternatives(b, pattern, i, alternatives.drop_last());
        let before = wire_alternatives(b, alternatives.drop_last());
        let j = alternatives_end(pattern, i, alternatives.drop_last())->0;
        assert(step(before, pattern, j) == Ok::<(Builder, int), CompileError>(
            (before.alternate(), j + 1),
        ));
        lemma_run_row(before.alternate(), pattern, j + 1, alternatives.last());
    }
}

} // verus!
