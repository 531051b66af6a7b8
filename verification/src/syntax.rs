//! Patterns as trees, and the strings that a tree matches.
//!
//! A pattern is a list of alternatives; an alternative is a row of pieces; a
//! piece is an atom or a group under a quantifier, and a group again holds
//! alternatives. What such a tree matches is defined here on the tree alone:
//! no graph is involved.

use vstd::prelude::*;
use crate::builder::{atom_code, atom_quantifier, group_quantifier, is_quantifier, Quantifier};
use crate::graph::{char_code, Kind};
use crate::scanner::lookahead;

verus! {

/// An atom under its quantifier.
pub struct Item {
    pub code: u32,
    pub q: Quantifier,
}

impl Item {
    /// The atom admits the character.
    pub open spec fn admits(self, c: char) -> bool {
        Kind::Literal(self.code).admits(char_code(c))
    }

    /// Every character of the piece of text is one that the atom admits.
    pub open spec fn admits_all(self, text: Seq<char>) -> bool {
        forall|i: int| 0 <= i < text.len() ==> self.admits(#[trigger] text[i])
    }

    /// The item can consume the text in one go: the text holds only
    /// characters that the atom admits, and as many as the quantifier allows.
    pub open spec fn consumes(self, text: Seq<char>) -> bool {
        &&& self.admits_all(text)
        &&& match self.q {
            Quantifier::One => text.len() == 1,
            Quantifier::ZeroOrOne => text.len() <= 1,
            Quantifier::ZeroOrMore => true,
            Quantifier::OneOrMore => text.len() >= 1,
        }
    }

    /// The item can consume the text, which is not empty.
    pub open spec fn consumes_some(self, text: Seq<char>) -> bool {
        &&& self.admits_all(text)
        &&& text.len() >= 1
        &&& text.len() == 1 || self.q.repeats()
    }
}

/// One piece of a row.
pub enum Piece {
    /// An atom under its quantifier.
    Atom(Item),
    /// A group with its alternatives, under its quantifier.
    Group(Seq<Seq<Piece>>, Quantifier),
}

/// The piece matches the whole of the text. A group that may repeat matches
/// what its alternatives match once or several times in a row, and the empty
/// text as well if it may be left out.
pub open spec fn piece_matches(piece: Piece, text: Seq<char>) -> bool
    decreases piece, 0nat,
{
    match piece {
        Piece::Atom(item) => item.consumes(text),
        Piece::Group(alternatives, q) => {
            if q is One {
                alternatives_match(alternatives, text)
            } else if q.skips() {
                repeats_match(alternatives, text)
            } else {
                text.len() > 0 && repeats_match(alternatives, text)
            }
        },
    }
}

/// The pieces of the row match the text piece by piece, in order.
pub open spec fn row_matches(row: Seq<Piece>, text: Seq<char>) -> bool
    decreases row, 0nat,
{
    if row.len() == 0 {
        text.len() == 0
    } else {
        exists|k: int|
            0 <= k <= text.len() && row_matches(row.drop_last(), #[trigger] text.take(k))
                && piece_matches(row.last(), text.skip(k))
    }
}

/// One of the alternatives matches the whole of the text.
pub open spec fn alternatives_match(alternatives: Seq<Seq<Piece>>, text: Seq<char>) -> bool
    decreases alternatives, 0nat,
{
    exists|i: int|
        0 <= i < alternatives.len() && row_matches(#[trigger] alternatives[i], text)
}

/// The text is empty, or it is a text of the same kind followed by a text
/// that is not empty and that one of the alternatives matches.
pub open spec fn repeats_match(alternatives: Seq<Seq<Piece>>, text: Seq<char>) -> bool
    decreases alternatives, text.len() + 1,
{
    text.len() == 0 || exists|k: int|
        0 <= k < text.len() && repeats_match(alternatives, #[trigger] text.take(k))
            && alternatives_match(alternatives, text.skip(k))
}

/// The row begins with an atom that cannot be left out.
pub open spec fn begins_firmly(row: Seq<Piece>) -> bool {
    &&& row.len() >= 1
    &&& row[0] is Atom
    &&& !row[0]->Atom_0.q.skips()
}

/// Every group of the piece has an alternative, and every alternative of a
/// group that may repeat begins with an atom that cannot be left out.
pub open spec fn piece_wf(piece: Piece) -> bool
    decreases piece,
{
    match piece {
        Piece::Atom(_) => true,
        Piece::Group(alternatives, q) => {
            &&& alternatives_wf(alternatives)
            &&& !(q is ZeroOrOne)
            &&& q.repeats() ==> forall|i: int|
                0 <= i < alternatives.len() ==> begins_firmly(#[trigger] alternatives[i])
        },
    }
}

/// Every piece of the row is well formed.
pub open spec fn row_wf(row: Seq<Piece>) -> bool
    decreases row,
{
    forall|i: int| 0 <= i < row.len() ==> piece_wf(#[trigger] row[i])
}

/// There is an alternative, and every alternative is well formed.
pub open spec fn alternatives_wf(alternatives: Seq<Seq<Piece>>) -> bool
    decreases alternatives,
{
    alternatives.len() >= 1 && forall|i: int|
        0 <= i < alternatives.len() ==> row_wf(#[trigger] alternatives[i])
}

/// A character that stands for itself or, as `.`, for any character.
pub open spec fn is_atom(c: char) -> bool {
    !is_quantifier(c) && c != '(' && c != ')' && c != '|'
}

/// Where the piece ends if the pattern spells it at `i`.
pub open spec fn piece_end(pattern: Seq<char>, i: int, piece: Piece) -> Option<int>
    decreases piece,
{
    match piece {
        Piece::Atom(item) => {
            if 0 <= i < pattern.len() && is_atom(pattern[i]) && item.code == atom_code(pattern[i])
                && item.q == atom_quantifier(lookahead(pattern, i + 1)) {
                Some(i + 1 + item.q.width())
            } else {
                None
            }
        },
        Piece::Group(alternatives, q) => {
            if 0 <= i < pattern.len() && pattern[i] == '(' && alternatives.len() >= 1 {
                match alternatives_end(pattern, i + 1, alternatives) {
                    Some(j) => {
                        if j < pattern.len() && pattern[j] == ')' && q == group_quantifier(
                            lookahead(pattern, j + 1),
                        ) {
                            Some(j + 1 + q.width())
                        } else {
                            None
                        }
                    },
                    None => None,
                }
            } else {
                None
            }
        },
    }
}

/// Where the row ends if the pattern spells it at `i`.
pub open spec fn row_end(pattern: Seq<char>, i: int, row: Seq<Piece>) -> Option<int>
    decreases row,
{
    if row.len() == 0 {
        Some(i)
    } else {
        match row_end(pattern, i, row.drop_last()) {
            Some(j) => piece_end(pattern, j, row.last()),
            None => None,
        }
    }
}

/// Where the alternatives end if the pattern spells them at `i`, with a `|`
/// between each two. A `|` counts only where it is no fault.
pub open spec fn alternatives_end(
    pattern: Seq<char>,
    i: int,
    alternatives: Seq<Seq<Piece>>,
) -> Option<int>
    decreases alternatives,
{
    if alternatives.len() == 0 {
        None
    } else if alternatives.len() == 1 {
        row_end(pattern, i, alternatives[0])
    } else {
        match alternatives_end(pattern, i, alternatives.drop_last()) {
            Some(j) => {
                if 0 < j && j + 1 < pattern.len() && pattern[j] == '|' && pattern[j - 1] != '|' {
                    row_end(pattern, j + 1, alternatives.last())
                } else {
                    None
                }
            },
            None => None,
        }
    }
}

/// The pattern, from its first character to its last, spells the
/// alternatives.
pub open spec fn reads_as(pattern: Seq<char>, alternatives: Seq<Seq<Piece>>) -> bool {
    pattern.len() > 0 && alternatives_end(pattern, 0, alternatives) == Some(pattern.len() as int)
}

} // verus!
