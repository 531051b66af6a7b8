//! What compiling a pattern means, stated on lists.
//!
//! A [`Layout`] is the compiler's state as it lies in memory: each state with
//! the list of its targets, the anchors and the open groups as lists, all in
//! their order. Each token of the pattern is one step from layout to layout;
//! [`compile_lists`] runs them all. The [`crate::builder`] says the same of
//! the sets that these lists hold.

use vstd::prelude::*;
use crate::builder::{
    atom_code, atom_quantifier, compile_spec, group_quantifier, is_quantifier, run, step, Builder,
    Group, Quantifier,
};
use crate::error::CompileError;
use crate::graph::{
    index_set, joined, lemma_index_set_contains, lemma_index_set_empty, lemma_index_set_single,
    lemma_link_twice, lemma_merged, lemma_merged_one, link, merged, wired, Cell, Kind, Node,
};
use crate::scanner::lookahead;

verus! {

/// The record of an open group, as lists.
#[verifier::ext_equal]
pub struct Record {
    /// The anchors at the point where the group was opened.
    pub entry: Seq<usize>,
    /// The index of the first state of each alternative.
    pub starts: Seq<usize>,
    /// The anchors at the end of each complete alternative.
    pub ends: Seq<usize>,
}

/// The state of a compilation, as lists.
#[verifier::ext_equal]
pub struct Layout {
    pub cells: Seq<Cell>,
    pub anchors: Seq<usize>,
    pub groups: Seq<Record>,
}

impl Layout {
    /// The index that the next state will get.
    pub open spec fn next_index(self) -> usize {
        self.cells.len() as usize
    }

    /// Before the first token.
    pub open spec fn start() -> Layout {
        Layout {
            cells: seq![Cell { kind: Kind::Begin, edges: Seq::empty() }],
            anchors: seq![0usize],
            groups: seq![Record { entry: seq![0usize], starts: seq![1usize], ends: Seq::empty() }],
        }
    }

    /// Applies a quantifier to an item. Where the item repeats, each exit
    /// gets the starts merged into its targets. The anchors become the
    /// exits, after the entry where the item may be left out.
    pub open spec fn quantify(
        self,
        entry: Seq<usize>,
        starts: Seq<usize>,
        exits: Seq<usize>,
        q: Quantifier,
    ) -> Layout {
        Layout {
            cells: if q.repeats() {
                wired(self.cells, exits, starts)
            } else {
                self.cells
            },
            anchors: if q.skips() {
                merged(entry, exits)
            } else {
                exits
            },
            groups: self.groups,
        }
    }

    /// An atom: every anchor gets the index of the new state joined to its
    /// targets, and the new state is appended.
    pub open spec fn atom(self, code: u32, q: Quantifier) -> Layout {
        let n = self.next_index();
        Layout {
            cells: wired(self.cells, self.anchors, seq![n]).push(
                Cell { kind: Kind::Literal(code), edges: Seq::empty() },
            ),
            anchors: self.anchors,
            groups: self.groups,
        }.quantify(self.anchors, seq![n], seq![n], q)
    }

    /// A `(`.
    pub open spec fn open_group(self) -> Layout {
        Layout {
            cells: self.cells,
            anchors: self.anchors,
            groups: self.groups.push(
                Record {
                    entry: self.anchors,
                    starts: seq![self.next_index()],
                    ends: Seq::empty(),
                },
            ),
        }
    }

    /// A `|`.
    pub open spec fn alternate(self) -> Layout {
        let top = self.groups.last();
        Layout {
            cells: self.cells,
            anchors: top.entry,
            groups: self.groups.drop_last().push(
                Record {
                    entry: top.entry,
                    starts: joined(top.starts, self.next_index()),
                    ends: merged(top.ends, self.anchors),
                },
            ),
        }
    }

    /// A `)`.
    pub open spec fn close_group(self, q: Quantifier) -> Layout {
        let top = self.groups.last();
        Layout {
            cells: self.cells,
            anchors: self.anchors,
            groups: self.groups.drop_last(),
        }.quantify(top.entry, top.starts, merged(top.ends, self.anchors), q)
    }

    /// The end of the pattern: the anchors, and then the ends of the
    /// outermost group, get the index of the accepting state joined to their
    /// targets, and the accepting state is appended.
    pub open spec fn finish(self) -> Layout {
        let n = self.next_index();
        Layout {
            cells: wired(
                wired(self.cells, self.anchors, seq![n]),
                self.groups.last().ends,
                seq![n],
            ).push(Cell { kind: Kind::Match, edges: Seq::empty() }),
            anchors: Seq::empty(),
            groups: self.groups.drop_last(),
        }
    }
}

/// One token of the pattern, read at `i`: the layout after it and the
/// position of the next token, or the reason the token is refused.
pub open spec fn step_lists(l: Layout, pattern: Seq<char>, i: int) -> Result<
    (Layout, int),
    CompileError,
> {
    let c = pattern[i];
    let next = lookahead(pattern, i + 1);
    if is_quantifier(c) {
        Err(CompileError::DanglingQuantifier)
    } else if c == '|' {
        if next is None {
            Err(CompileError::TrailingAlternation)
        } else if i == 0 || pattern[i - 1] == '|' {
            Err(CompileError::DanglingQuantifier)
        } else {
            Ok((l.alternate(), i + 1))
        }
    } else if c == '(' {
        Ok((l.open_group(), i + 1))
    } else if c == ')' {
        if l.groups.len() <= 1 {
            Err(CompileError::UnbalancedGroup)
        } else {
            let q = group_quantifier(next);
            Ok((l.close_group(q), i + 1 + q.width()))
        }
    } else {
        let q = atom_quantifier(next);
        Ok((l.atom(atom_code(c), q), i + 1 + q.width()))
    }
}

/// The tokens from `i` to the end of the pattern, and then the end itself.
pub open spec fn run_lists(l: Layout, pattern: Seq<char>, i: int) -> Result<Layout, CompileError>
    decreases pattern.len() - i,
{
    if i >= pattern.len() {
        if l.groups.len() == 1 {
            Ok(l.finish())
        } else {
            Err(CompileError::UnbalancedGroup)
        }
    } else {
        match step_lists(l, pattern, i) {
            Ok((after, j)) => run_lists(after, pattern, j),
            Err(e) => Err(e),
        }
    }
}

/// The states of a pattern, each with the list of its targets, or the reason
/// the pattern has none.
pub open spec fn compile_lists(pattern: Seq<char>) -> Result<Seq<Cell>, CompileError> {
    if pattern.len() == 0 {
        Err(CompileError::EmptyPattern)
    } else {
        match run_lists(Layout::start(), pattern, 0) {
            Ok(l) => Ok(l.cells),
            Err(e) => Err(e),
        }
    }
}

/// The cells as nodes: each with the set that its list of targets holds.
pub open spec fn nodes_of(cells: Seq<Cell>) -> Seq<Node> {
    Seq::new(cells.len(), |i: int| Node { kind: cells[i].kind, edges: index_set(cells[i].edges) })
}

impl Record {
    /// The group that the record holds.
    pub open spec fn group(self) -> Group {
        Group {
            entry: index_set(self.entry),
            starts: index_set(self.starts),
            exits: index_set(self.ends),
        }
    }
}

impl Layout {
    /// The builder that the layout holds: the same compilation on sets.
    pub open spec fn builder(self) -> Builder {
        Builder {
            nodes: nodes_of(self.cells),
            anchors: index_set(self.anchors),
            groups: Seq::new(self.groups.len(), |k: int| self.groups[k].group()),
        }
    }
}

/// Wiring lists is linking the sets that they hold.
pub proof fn lemma_wired_is_link(cells: Seq<Cell>, from: Seq<usize>, to: Seq<usize>)
    requires
        cells.len() <= usize::MAX,
    ensures
        nodes_of(wired(cells, from, to)) == link(nodes_of(cells), index_set(from), index_set(to)),
{
    assert forall|i: int| 0 <= i < cells.len() implies #[trigger] nodes_of(
        wired(cells, from, to),
    )[i] =~= link(nodes_of(cells), index_set(from), index_set(to))[i] by {
        lemma_index_set_contains(from, i as usize);
        lemma_merged(cells[i].edges, to);
    }
    assert(nodes_of(wired(cells, from, to)) =~~= link(
        nodes_of(cells),
        index_set(from),
        index_set(to),
    ));
}

/// A quantifier does to the sets what it does to the lists.
pub proof fn lemma_quantify_agrees(
    l: Layout,
    entry: Seq<usize>,
    starts: Seq<usize>,
    exits: Seq<usize>,
    q: Quantifier,
)
    requires
        l.cells.len() <= usize::MAX,
    ensures
        l.quantify(entry, starts, exits, q).builder() == l.builder().quantify(
            index_set(entry),
            index_set(starts),
            index_set(exits),
            q,
        ),
{
    lemma_wired_is_link(l.cells, exits, starts);
    lemma_merged(entry, exits);
    assert(l.quantify(entry, starts, exits, q).builder() =~~= l.builder().quantify(
        index_set(entry),
        index_set(starts),
        index_set(exits),
        q,
    ));
}

/// A token does to the sets what it does to the lists.
pub proof fn lemma_step_agrees(l: Layout, pattern: Seq<char>, i: int)
    requires
        0 <= i < pattern.len(),
        l.cells.len() < usize::MAX,
        l.groups.len() >= 1,
    ensures
        match step_lists(l, pattern, i) {
            Ok((after, j)) => step(l.builder(), pattern, i) == Ok::<(Builder, int), CompileError>(
                (after.builder(), j),
            ) && after.cells.len() <= l.cells.len() + 1 && i < j <= pattern.len()
                && after.groups.len() >= 1,
            Err(e) => step(l.builder(), pattern, i) == Err::<(Builder, int), CompileError>(e),
        },
{
    let c = pattern[i];
    let next = lookahead(pattern, i + 1);
    let n = l.next_index();
    let b = l.builder();
    lemma_index_set_empty();
    lemma_index_set_single(n);
    if is_quantifier(c) {
    } else if c == '|' {
        if next is Some && i != 0 && pattern[i - 1] != '|' {
            let top = l.groups.last();
            lemma_merged(top.ends, l.anchors);
            lemma_merged_one(top.starts, n);
            lemma_merged(top.starts, seq![n]);
            assert(b.groups.last() == top.group());
            assert(index_set(joined(top.starts, n)) =~= index_set(top.starts).insert(n as int));
            assert(l.alternate().builder().groups =~~= b.alternate().groups);
            assert(l.alternate().builder() =~~= b.alternate());
        }
    } else if c == '(' {
        assert(l.open_group().builder() =~~= b.open_group());
    } else if c == ')' {
        if l.groups.len() > 1 {
            let q = group_quantifier(next);
            let top = l.groups.last();
            let popped = Layout { cells: l.cells, anchors: l.anchors, groups: l.groups.drop_last() };
            lemma_merged(top.ends, l.anchors);
            lemma_quantify_agrees(popped, top.entry, top.starts, merged(top.ends, l.anchors), q);
            assert(popped.builder() =~~= Builder {
                nodes: b.nodes,
                anchors: b.anchors,
                groups: b.groups.drop_last(),
            });
            assert(l.close_group(q).builder() =~~= b.close_group(q));
        }
    } else {
        let q = atom_quantifier(next);
        let code = atom_code(c);
        let grown = Layout {
            cells: wired(l.cells, l.anchors, seq![n]).push(
                Cell { kind: Kind::Literal(code), edges: Seq::empty() },
            ),
            anchors: l.anchors,
            groups: l.groups,
        };
        lemma_wired_is_link(l.cells, l.anchors, seq![n]);
        lemma_quantify_agrees(grown, l.anchors, seq![n], seq![n], q);
        assert(grown.builder() =~~= Builder {
            nodes: link(b.nodes, b.anchors, set![n as int]).push(
                Node { kind: Kind::Literal(code), edges: Set::empty() },
            ),
            anchors: b.anchors,
            groups: b.groups,
        });
        assert(l.atom(code, q).builder() =~~= b.atom(code, q));
    }
}

/// The end of the pattern does to the sets what it does to the lists.
pub proof fn lemma_finish_agrees(l: Layout)
    requires
        l.cells.len() < usize::MAX,
        l.groups.len() >= 1,
    ensures
        l.finish().builder().nodes == l.builder().finish().nodes,
{
    let n = l.next_index();
    let b = l.builder();
    lemma_index_set_empty();
    lemma_index_set_single(n);
    lemma_wired_is_link(l.cells, l.anchors, seq![n]);
    lemma_wired_is_link(wired(l.cells, l.anchors, seq![n]), l.groups.last().ends, seq![n]);
    lemma_link_twice(b.nodes, b.anchors, b.groups.last().exits, set![n as int]);
    assert(b.groups.last() == l.groups.last().group());
    assert(l.finish().builder().nodes =~~= b.finish().nodes);
}

/// A run does to the sets what it does to the lists.
pub proof fn lemma_run_agrees(l: Layout, pattern: Seq<char>, i: int)
    requires
        0 <= i <= pattern.len(),
        l.cells.len() + pattern.len() - i < usize::MAX,
        l.groups.len() >= 1,
    ensures
        match run_lists(l, pattern, i) {
            Ok(done) => run(l.builder(), pattern, i) matches Ok(b) && b.nodes == nodes_of(
                done.cells,
            ),
            Err(e) => run(l.builder(), pattern, i) == Err::<Builder, CompileError>(e),
        },
    decreases pattern.len() - i,
{
    if i >= pattern.len() {
        if l.groups.len() == 1 {
            lemma_finish_agrees(l);
        }
    } else {
        lemma_step_agrees(l, pattern, i);
        match step_lists(l, pattern, i) {
            Ok((after, j)) => {
                lemma_run_agrees(after, pattern, j);
            },
            Err(_) => {},
        }
    }
}

/// The states of a pattern, as lists, hold the graph of the pattern: the two
/// accounts of compiling agree on which patterns compile, on the error of
/// those that do not, and on the graph of those that do.
pub proof fn lemma_lists_hold_the_graph(pattern: Seq<char>)
    requires
        pattern.len() + 1 < usize::MAX,
    ensures
        match compile_lists(pattern) {
            Ok(cells) => compile_spec(pattern) == Ok::<Seq<Node>, CompileError>(nodes_of(cells)),
            Err(e) => compile_spec(pattern) == Err::<Seq<Node>, CompileError>(e),
        },
{
    if pattern.len() > 0 {
        lemma_index_set_empty();
        lemma_index_set_single(0);
        lemma_index_set_single(1);
        assert(Layout::start().builder() =~~= Builder::start());
        lemma_run_agrees(Layout::start(), pattern, 0);
    }
}

} // verus!
