//! The tree that a pattern spells.
//!
//! A pattern without a fault spells one tree, which is read off here from
//! left to right.

use vstd::prelude::*;
use crate::builder::{atom_code, atom_quantifier, group_quantifier, is_quantifier, Quantifier};
use crate::faults::{depth, fault, fault_at, first_fault};
use crate::scanner::lookahead;
use crate::syntax::{alternatives_end, is_atom, piece_end, reads_as, row_end, Item, Piece};

verus! {

/// The piece that begins at `i`, and where it ends.
pub open spec fn parse_piece(pattern: Seq<char>, i: int) -> (Piece, int)
    decreases pattern.len() - i, 0int,
{
    if i < 0 || i >= pattern.len() {
        (Piece::Atom(Item { code: 0, q: Quantifier::One }), i)
    } else if pattern[i] == '(' {
        let (alternatives, j) = parse_alternatives(pattern, i + 1);
        let q = group_quantifier(lookahead(pattern, j + 1));
        (Piece::Group(alternatives, q), j + 1 + q.width())
    } else {
        let q = atom_quantifier(lookahead(pattern, i + 1));
        (Piece::Atom(Item { code: atom_code(pattern[i]), q }), i + 1 + q.width())
    }
}

/// The row that begins at `i`, up to the next `|` or `)` or to the end of
/// the pattern, and where it ends.
pub open spec fn parse_row(pattern: Seq<char>, i: int) -> (Seq<Piece>, int)
    decreases pattern.len() - i, 1int,
{
    if i < 0 || i >= pattern.len() || pattern[i] == '|' || pattern[i] == ')' {
        (Seq::empty(), i)
    } else {
        let (piece, j) = parse_piece(pattern, i);
        let next = if i < j <= pattern.len() {
            j
        } else {
            pattern.len() as int
        };
        let (rest, k) = parse_row(pattern, next);
        (seq![piece] + rest, k)
    }
}

/// The alternatives that begin at `i`, up to the `)` that closes them or to
/// the end of the pattern, and where they end.
pub open spec fn parse_alternatives(pattern: Seq<char>, i: int) -> (Seq<Seq<Piece>>, int)
    decreases pattern.len() - i, 2int,
{
    let (row, j) = parse_row(pattern, i);
    if i <= j < pattern.len() && pattern[j] == '|' {
        let (more, k) = parse_alternatives(pattern, j + 1);
        (seq![row] + more, k)
    } else {
        (seq![row], j)
    }
}

/// The tree of the pattern.
pub open spec fn tree_of(pattern: Seq<char>) -> Seq<Seq<Piece>> {
    parse_alternatives(pattern, 0).0
}

/// A row with a piece put before it ends where the row ends after the
/// piece.
pub proof fn lemma_row_end_prepend(pattern: Seq<char>, i: int, piece: Piece, rest: Seq<Piece>)
    ensures
        row_end(pattern, i, seq![piece] + rest) == match piece_end(pattern, i, piece) {
            Some(j) => row_end(pattern, j, rest),
            None => None::<int>,
        },
    decreases rest.len(),
{
    let row = seq![piece] + rest;
    if rest.len() == 0 {
        assert(row.drop_last() =~= Seq::<Piece>::empty());
        assert(row.last() == piece);
        assert(row_end(pattern, i, row.drop_last()) == Some(i));
    } else {
        assert(row.drop_last() =~= seq![piece] + rest.drop_last());
        assert(row.last() == rest.last());
        lemma_row_end_prepend(pattern, i, piece, rest.drop_last());
    }
}

/// Alternatives with a row put before them end where the alternatives end
/// after the row and a `|`.
pub proof fn lemma_alternatives_end_prepend(
    pattern: Seq<char>,
    i: int,
    row: Seq<Piece>,
    more: Seq<Seq<Piece>>,
)
    requires
        more.len() >= 1,
    ensures
        alternatives_end(pattern, i, seq![row] + more) == match row_end(pattern, i, row) {
            Some(j) => {
                if 0 < j && j + 1 < pattern.len() && pattern[j] == '|' && pattern[j - 1] != '|' {
                    alternatives_end(pattern, j + 1, more)
                } else {
                    None::<int>
                }
            },
            None => None::<int>,
        },
    decreases more.len(),
{
    let all = seq![row] + more;
    assert(all.last() == more.last());
    if more.len() == 1 {
        assert(all.drop_last() =~= seq![row]);
        assert(seq![row][0] == row);
        assert(more[0] == more.last());
    } else {
        assert(all.drop_last() =~= seq![row] + more.drop_last());
        lemma_alternatives_end_prepend(pattern, i, row, more.drop_last());
    }
}

/// A pattern whose first fault lies nowhere has no fault at any place, and
/// no group of it is left open.
pub proof fn lemma_no_fault_anywhere(pattern: Seq<char>, i: int, j: int)
    requires
        0 <= i <= j <= pattern.len(),
        first_fault(pattern, i) is None,
    ensures
        j < pattern.len() ==> fault_at(pattern, j) is None,
        depth(pattern, pattern.len() as int) <= 0,
    decreases pattern.len() - i,
{
    if i < pattern.len() {
        if i < j {
            lemma_no_fault_anywhere(pattern, i + 1, j);
        } else {
            lemma_no_fault_anywhere(pattern, i + 1, i + 1);
        }
    }
}

/// The pattern has no fault at any place, and no group of it is left open.
pub open spec fn clean(pattern: Seq<char>) -> bool {
    &&& forall|j: int| 0 <= j < pattern.len() ==> (#[trigger] fault_at(pattern, j)) is None
    &&& depth(pattern, pattern.len() as int) <= 0
}

/// In a clean pattern the piece that begins at `i` is spelled there.
pub proof fn lemma_parse_piece(pattern: Seq<char>, i: int)
    requires
        clean(pattern),
        0 <= i < pattern.len(),
        depth(pattern, i) >= 0,
        is_atom(pattern[i]) || pattern[i] == '(',
    ensures
        piece_end(pattern, i, parse_piece(pattern, i).0) == Some(parse_piece(pattern, i).1),
        i < parse_piece(pattern, i).1 <= pattern.len(),
        depth(pattern, parse_piece(pattern, i).1) == depth(pattern, i),
        parse_piece(pattern, i).1 < pattern.len() ==> !is_quantifier(
            pattern[parse_piece(pattern, i).1],
        ),
    decreases pattern.len() - i, 0int,
{
    let (piece, end) = parse_piece(pattern, i);
    if pattern[i] == '(' {
        assert(depth(pattern, i + 1) == depth(pattern, i) + 1);
        if i + 1 < pattern.len() {
            assert(fault_at(pattern, i + 1) is None);
        }
        lemma_parse_alternatives(pattern, i + 1);
        let (alternatives, j) = parse_alternatives(pattern, i + 1);
        assert(j < pattern.len());
        assert(pattern[j] == ')');
        let q = group_quantifier(lookahead(pattern, j + 1));
        assert(depth(pattern, j + 1) == depth(pattern, i));
        if q.width() == 1 {
            assert(depth(pattern, j + 2) == depth(pattern, j + 1));
        }
        if end < pattern.len() {
            assert(fault_at(pattern, end) is None);
        }
    } else {
        let q = atom_quantifier(lookahead(pattern, i + 1));
        assert(depth(pattern, i + 1) == depth(pattern, i));
        if q.width() == 1 {
            assert(depth(pattern, i + 2) == depth(pattern, i + 1));
        }
        if end < pattern.len() {
            assert(fault_at(pattern, end) is None);
        }
    }
}

/// In a clean pattern the row that begins at `i` is spelled there, and it
/// ends at a `|`, at a `)` or at the end of the pattern.
pub proof fn lemma_parse_row(pattern: Seq<char>, i: int)
    requires
        clean(pattern),
        0 <= i <= pattern.len(),
        depth(pattern, i) >= 0,
        i < pattern.len() ==> !is_quantifier(pattern[i]),
    ensures
        row_end(pattern, i, parse_row(pattern, i).0) == Some(parse_row(pattern, i).1),
        i <= parse_row(pattern, i).1 <= pattern.len(),
        depth(pattern, parse_row(pattern, i).1) == depth(pattern, i),
        parse_row(pattern, i).1 < pattern.len() ==> pattern[parse_row(pattern, i).1] == '|'
            || pattern[parse_row(pattern, i).1] == ')',
    decreases pattern.len() - i, 1int,
{
    if i < pattern.len() && pattern[i] != '|' && pattern[i] != ')' {
        lemma_parse_piece(pattern, i);
        let (piece, j) = parse_piece(pattern, i);
        lemma_parse_row(pattern, j);
        let (rest, k) = parse_row(pattern, j);
        lemma_row_end_prepend(pattern, i, piece, rest);
    }
}

/// In a clean pattern the alternatives that begin at `i` are spelled there,
/// and they end at the `)` that closes them or, where no group is open, at
/// the end of the pattern.
pub proof fn lemma_parse_alternatives(pattern: Seq<char>, i: int)
    requires
        clean(pattern),
        0 <= i <= pattern.len(),
        depth(pattern, i) >= 0,
        i < pattern.len() ==> !is_quantifier(pattern[i]),
    ensures
        alternatives_end(pattern, i, parse_alternatives(pattern, i).0) == Some(
            parse_alternatives(pattern, i).1,
        ),
        parse_alternatives(pattern, i).0.len() >= 1,
        i <= parse_alternatives(pattern, i).1 <= pattern.len(),
        depth(pattern, parse_alternatives(pattern, i).1) == depth(pattern, i),
        depth(pattern, i) > 0 ==> parse_alternatives(pattern, i).1 < pattern.len()
            && pattern[parse_alternatives(pattern, i).1] == ')',
        depth(pattern, i) == 0 ==> parse_alternatives(pattern, i).1 == pattern.len(),
    decreases pattern.len() - i, 2int,
{
    lemma_parse_row(pattern, i);
    let (row, j) = parse_row(pattern, i);
    if j < pattern.len() {
        assert(fault_at(pattern, j) is None);
    }
    if j < pattern.len() && pattern[j] == '|' {
        assert(depth(pattern, j + 1) == depth(pattern, j));
        assert(fault_at(pattern, j + 1) is None);
        lemma_parse_alternatives(pattern, j + 1);
        let (more, k) = parse_alternatives(pattern, j + 1);
        lemma_alternatives_end_prepend(pattern, i, row, more);
    } else {
        assert(seq![row][0] == row);
    }
}

/// A pattern without a fault spells its tree.
pub proof fn lemma_reads_as_its_tree(pattern: Seq<char>)
    requires
        fault(pattern) is None,
    ensures
        reads_as(pattern, tree_of(pattern)),
{
    assert forall|j: int| 0 <= j < pattern.len() implies (#[trigger] fault_at(pattern, j))
        is None by {
        lemma_no_fault_anywhere(pattern, 0, j);
    }
    lemma_no_fault_anywhere(pattern, 0, 0);
    assert(fault_at(pattern, 0) is None);
    lemma_parse_alternatives(pattern, 0);
}

} // verus!
