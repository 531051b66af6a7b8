//! What compiling a pattern means, stated on sets.
//!
//! A [`Builder`] is the compiler's state as mathematics: the nodes built so
//! far, the anchors (the nodes that must be connected to whatever atom comes
//! next) and one [`Group`] per group that is still open, the whole pattern
//! counting as the outermost one. Each token of the pattern is one step from
//! builder to builder; [`compile_spec`] runs them all.

use vstd::prelude::*;
use crate::error::CompileError;
use crate::graph::{char_code, extends, link, Kind, Node, WILDCARD};
use crate::scanner::lookahead;

verus! {

/// How often the item before a quantifier may occur.
#[derive(Clone, Copy, Debug, PartialEq, Eq, Structural)]
pub enum Quantifier {
    /// Exactly once: no quantifier.
    One,
    /// At most once.
    ZeroOrOne,
    /// Any number of times.
    ZeroOrMore,
    /// At least once.
    OneOrMore,
}

impl Quantifier {
    /// The item may occur again after it has occurred.
    pub open spec fn repeats(self) -> bool {
        self is ZeroOrMore || self is OneOrMore
    }

    /// The item may be left out.
    pub open spec fn skips(self) -> bool {
        self is ZeroOrOne || self is ZeroOrMore
    }

    /// The number of pattern characters that spell the quantifier.
    pub open spec fn width(self) -> int {
        if self is One {
            0
        } else {
            1
        }
    }
}

/// The character is one of `*`, `+` and `?`.
pub open spec fn is_quantifier(c: char) -> bool {
    c == '*' || c == '+' || c == '?'
}

/// The quantifier that `next`, the character after an atom, puts on the atom.
pub open spec fn atom_quantifier(next: Option<char>) -> Quantifier {
    if next == Some('*') {
        Quantifier::ZeroOrMore
    } else if next == Some('?') {
        Quantifier::ZeroOrOne
    } else if next == Some('+') {
        Quantifier::OneOrMore
    } else {
        Quantifier::One
    }
}

/// The quantifier that `next`, the character after a `)`, puts on the group.
/// On a group `?` lets the group repeat, as `*` does.
pub open spec fn group_quantifier(next: Option<char>) -> Quantifier {
    if next == Some('*') || next == Some('?') {
        Quantifier::ZeroOrMore
    } else if next == Some('+') {
        Quantifier::OneOrMore
    } else {
        Quantifier::One
    }
}

/// The code of the node that an atom becomes: `.` admits every character.
pub open spec fn atom_code(c: char) -> u32 {
    if c == '.' {
        WILDCARD
    } else {
        char_code(c)
    }
}

/// A group that is still open.
#[verifier::ext_equal]
pub struct Group {
    /// The anchors at the point where the group was opened.
    pub entry: Set<int>,
    /// The index of the first node of each alternative.
    pub starts: Set<int>,
    /// The anchors at the end of each alternative that is complete.
    pub exits: Set<int>,
}

impl Group {
    /// The group speaks of a graph of `len` nodes.
    pub open spec fn wf(self, len: int) -> bool {
        &&& forall|i: int| self.entry.contains(i) ==> 0 <= i < len
        &&& forall|i: int| self.exits.contains(i) ==> 0 <= i < len
        &&& forall|i: int| self.starts.contains(i) ==> 1 <= i <= len
    }
}

/// The state of a compilation.
#[verifier::ext_equal]
pub struct Builder {
    pub nodes: Seq<Node>,
    pub anchors: Set<int>,
    pub groups: Seq<Group>,
}

impl Builder {
    /// The index that the next node will get.
    pub open spec fn next_index(self) -> int {
        self.nodes.len() as int
    }

/// The entry sentinel comes first and literal nodes follow. Every edge leads to
/// a node that is there or to the one that comes next, never to the first.
/// The anchors and the open groups speak of nodes of the graph.
    pub open spec fn wf(self) -> bool {
        &&& self.nodes.len() >= 1
        &&& self.nodes[0].kind is Begin
        &&& forall|i: int| 1 <= i < self.nodes.len() ==> (#[trigger] self.nodes[i]).kind is Literal
        &&& forall|i: int, t: int|
            0 <= i < self.nodes.len() && #[trigger] self.nodes[i].edges.contains(t) ==> 1 <= t
                <= self.nodes.len()
        &&& forall|i: int| self.anchors.contains(i) ==> 0 <= i < self.nodes.len()
        &&& forall|k: int|
            0 <= k < self.groups.len() ==> (#[trigger] self.groups[k]).wf(self.next_index())
    }

    /// Before the first token: the entry sentinel alone, which is the only
    /// anchor, and the outermost group.
    pub open spec fn start() -> Builder {
        Builder {
            nodes: seq![Node { kind: Kind::Begin, edges: Set::empty() }],
            anchors: set![0int],
            groups: seq![Group { entry: set![0int], starts: set![1int], exits: Set::empty() }],
        }
    }

    /// Applies a quantifier to an item that is entered at `starts` and left
    /// at `exits`, and before which the anchors were `entry`. An item that
    /// repeats gets an edge from each exit back to each start. What follows
    /// the item is connected to its exits, and to `entry` as well when the
    /// item may be left out.
    pub open spec fn quantify(
        self,
        entry: Set<int>,
        starts: Set<int>,
        exits: Set<int>,
        q: Quantifier,
    ) -> Builder {
        Builder {
            nodes: if q.repeats() {
                link(self.nodes, exits, starts)
            } else {
                self.nodes
            },
            anchors: if q.skips() {
                exits + entry
            } else {
                exits
            },
            groups: self.groups,
        }
    }

    /// An atom: a new literal node, to which every anchor is connected, under
    /// its quantifier.
    pub open spec fn atom(self, code: u32, q: Quantifier) -> Builder {
        let n = self.next_index();
        Builder {
            nodes: link(self.nodes, self.anchors, set![n]).push(
                Node { kind: Kind::Literal(code), edges: Set::empty() },
            ),
            anchors: self.anchors,
            groups: self.groups,
        }.quantify(self.anchors, set![n], set![n], q)
    }

    /// A `(`: a new group whose first alternative starts at the next node.
    pub open spec fn open_group(self) -> Builder {
        Builder {
            nodes: self.nodes,
            anchors: self.anchors,
            groups: self.groups.push(
                Group {
                    entry: self.anchors,
                    starts: set![self.next_index()],
                    exits: Set::empty(),
                },
            ),
        }
    }

    /// A `|`: the alternative that ends here leaves its anchors with the
    /// innermost group, and the next one begins where the group was entered.
    pub open spec fn alternate(self) -> Builder {
        let top = self.groups.last();
        Builder {
            nodes: self.nodes,
            anchors: top.entry,
            groups: self.groups.drop_last().push(
                Group {
                    entry: top.entry,
                    starts: top.starts.insert(self.next_index()),
                    exits: top.exits + self.anchors,
                },
            ),
        }
    }

    /// A `)`: the innermost group is complete and gets its quantifier.
    pub open spec fn close_group(self, q: Quantifier) -> Builder {
        let top = self.groups.last();
        Builder {
            nodes: self.nodes,
            anchors: self.anchors,
            groups: self.groups.drop_last(),
        }.quantify(top.entry, top.starts, top.exits + self.anchors, q)
    }

    /// The end of the pattern: the accepting sentinel, to which the anchors
    /// and the exits of every earlier alternative are connected.
    pub open spec fn finish(self) -> Builder {
        Builder {
            nodes: link(
                self.nodes,
                self.anchors + self.groups.last().exits,
                set![self.next_index()],
            ).push(Node { kind: Kind::Match, edges: Set::empty() }),
            anchors: Set::empty(),
            groups: self.groups.drop_last(),
        }
    }
}

/// One token of the pattern, read at `i`: the builder after it and the
/// position of the next token, or the reason the token is refused.
pub open spec fn step(b: Builder, pattern: Seq<char>, i: int) -> Result<
    (Builder, int),
    CompileError,
> {
    let c = pattern[i];
    let next = lookahead(pattern, i + 1);
    if is_quantifier(c) {
        Err(CompileError::DanglingQuantifier)
    } else if c == '|' {
        if next is None {
            Err(CompileError::TrailingAlternation)
        } else if i == 0 || pattern[i - 1] == '|' {
            Err(CompileError::DanglingQuantifier)
        } else {
            Ok((b.alternate(), i + 1))
        }
    } else if c == '(' {
        Ok((b.open_group(), i + 1))
    } else if c == ')' {
        if b.groups.len() <= 1 {
            Err(CompileError::UnbalancedGroup)
        } else {
            let q = group_quantifier(next);
            Ok((b.close_group(q), i + 1 + q.width()))
        }
    } else {
        let q = atom_quantifier(next);
        Ok((b.atom(atom_code(c), q), i + 1 + q.width()))
    }
}

/// The tokens from `i` to the end of the pattern, one after the other, and
/// then the end itself. The first token that is refused ends the run.
pub open spec fn run(b: Builder, pattern: Seq<char>, i: int) -> Result<Builder, CompileError>
    decreases pattern.len() - i,
{
    if i >= pattern.len() {
        if b.groups.len() == 1 {
            Ok(b.finish())
        } else {
            Err(CompileError::UnbalancedGroup)
        }
    } else {
        match step(b, pattern, i) {
            Ok((after, j)) => run(after, pattern, j),
            Err(e) => Err(e),
        }
    }
}

/// The graph of a pattern, or the reason it has none.
pub open spec fn compile_spec(pattern: Seq<char>) -> Result<Seq<Node>, CompileError> {
    if pattern.len() == 0 {
        Err(CompileError::EmptyPattern)
    } else {
        match run(Builder::start(), pattern, 0) {
            Ok(b) => Ok(b.nodes),
            Err(e) => Err(e),
        }
    }
}

/// A graph as compilation leaves it: the entry sentinel first, the accepting
/// sentinel last, literal nodes between them, and every edge leading to a
/// node of the graph other than the entry sentinel.
pub open spec fn compiled(graph: Seq<Node>) -> bool {
    &&& graph.len() >= 2
    &&& graph[0].kind is Begin
    &&& graph.last().kind is Match
    &&& graph.last().edges == Set::<int>::empty()
    &&& forall|i: int| 1 <= i < graph.len() - 1 ==> (#[trigger] graph[i]).kind is Literal
    &&& forall|i: int, t: int|
        0 <= i < graph.len() && #[trigger] graph[i].edges.contains(t) ==> 1 <= t < graph.len()
}

/// The builder is well formed before the first token.
pub proof fn lemma_start_wf()
    ensures
        Builder::start().wf(),
{
}

/// Edges to nodes of the graph, or to the node that comes next, leave the
/// builder well formed and the graph grown.
pub proof fn lemma_link_wf(b: Builder, from: Set<int>, to: Set<int>)
    requires
        b.wf(),
        forall|t: int| to.contains(t) ==> 1 <= t <= b.nodes.len(),
    ensures
        (Builder { nodes: link(b.nodes, from, to), anchors: b.anchors, groups: b.groups }).wf(),
        extends(link(b.nodes, from, to), b.nodes),
{
    let after = Builder { nodes: link(b.nodes, from, to), anchors: b.anchors, groups: b.groups };
    assert forall|k: int| 0 <= k < after.groups.len() implies (#[trigger] after.groups[k]).wf(
        after.next_index(),
    ) by {
        assert(b.groups[k].wf(b.next_index()));
    }
    assert forall|i: int, t: int|
        0 <= i < after.nodes.len() && #[trigger] after.nodes[i].edges.contains(t) implies 1 <= t
        <= after.nodes.len() by {
        if !b.nodes[i].edges.contains(t) {
            assert(to.contains(t));
        }
    }
}

/// A quantifier on an item that speaks of nodes of the graph leaves the builder
/// well formed and the graph grown.
pub proof fn lemma_quantify_wf(
    b: Builder,
    entry: Set<int>,
    starts: Set<int>,
    exits: Set<int>,
    q: Quantifier,
)
    requires
        b.wf(),
        (Group { entry, starts, exits }).wf(b.next_index()),
    ensures
        b.quantify(entry, starts, exits, q).wf(),
        extends(b.quantify(entry, starts, exits, q).nodes, b.nodes),
{
    let after = b.quantify(entry, starts, exits, q);
    let item = Group { entry, starts, exits };
    assert(item.wf(b.next_index()));
    assert forall|k: int| 0 <= k < after.groups.len() implies (#[trigger] after.groups[k]).wf(
        after.next_index(),
    ) by {
        assert(b.groups[k].wf(b.next_index()));
    }
    assert forall|i: int, t: int|
        0 <= i < after.nodes.len() && #[trigger] after.nodes[i].edges.contains(t) implies 1 <= t
        <= after.nodes.len() by {
        if !b.nodes[i].edges.contains(t) {
            assert(item.starts.contains(t));
        }
    }
    assert forall|i: int| after.anchors.contains(i) implies 0 <= i < after.nodes.len() by {
        if !item.exits.contains(i) {
            assert(item.entry.contains(i));
        }
    }
}

/// An atom leaves the builder well formed and the graph grown by one node.
pub proof fn lemma_atom_wf(b: Builder, code: u32, q: Quantifier)
    requires
        b.wf(),
    ensures
        b.atom(code, q).wf(),
        extends(b.atom(code, q).nodes, b.nodes),
        b.atom(code, q).nodes.len() == b.nodes.len() + 1,
{
    let n = b.next_index();
    let grown = Builder {
        nodes: link(b.nodes, b.anchors, set![n]).push(
            Node { kind: Kind::Literal(code), edges: Set::empty() },
        ),
        anchors: b.anchors,
        groups: b.groups,
    };
    assert forall|k: int| 0 <= k < grown.groups.len() implies (#[trigger] grown.groups[k]).wf(
        grown.next_index(),
    ) by {
        assert(b.groups[k].wf(b.next_index()));
    }
    assert(grown.wf());
    lemma_quantify_wf(grown, b.anchors, set![n], set![n], q);
}

/// Opening a group leaves the builder well formed.
pub proof fn lemma_open_group_wf(b: Builder)
    requires
        b.wf(),
    ensures
        b.open_group().wf(),
{
    let after = b.open_group();
    assert forall|k: int| 0 <= k < after.groups.len() implies (#[trigger] after.groups[k]).wf(
        after.next_index(),
    ) by {
        if k < b.groups.len() {
            assert(b.groups[k].wf(b.next_index()));
        }
    }
}

/// Going on to the next alternative leaves the builder well formed.
pub proof fn lemma_alternate_wf(b: Builder)
    requires
        b.wf(),
        b.groups.len() >= 1,
    ensures
        b.alternate().wf(),
{
    let after = b.alternate();
    let top = b.groups.last();
    assert(top.wf(b.next_index()));
    assert forall|k: int| 0 <= k < after.groups.len() implies (#[trigger] after.groups[k]).wf(
        after.next_index(),
    ) by {
        if k < b.groups.len() - 1 {
            assert(b.groups[k].wf(b.next_index()));
        }
    }
}

/// Closing a group leaves the builder well formed and the graph grown, with
/// as many nodes as before.
pub proof fn lemma_close_group_wf(b: Builder, q: Quantifier)
    requires
        b.wf(),
        b.groups.len() >= 2,
    ensures
        b.close_group(q).wf(),
        extends(b.close_group(q).nodes, b.nodes),
        b.close_group(q).nodes.len() == b.nodes.len(),
{
    let top = b.groups.last();
    assert(top.wf(b.next_index()));
    let popped = Builder { nodes: b.nodes, anchors: b.anchors, groups: b.groups.drop_last() };
    assert forall|k: int| 0 <= k < popped.groups.len() implies (#[trigger] popped.groups[k]).wf(
        popped.next_index(),
    ) by {
        assert(b.groups[k].wf(b.next_index()));
    }
    lemma_quantify_wf(popped, top.entry, top.starts, top.exits + b.anchors, q);
}

/// The end of the pattern completes the graph.
pub proof fn lemma_finish_compiled(b: Builder)
    requires
        b.wf(),
        b.groups.len() >= 1,
    ensures
        compiled(b.finish().nodes),
        extends(b.finish().nodes, b.nodes),
        b.finish().nodes.len() == b.nodes.len() + 1,
{
    let top = b.groups.last();
    assert(top.wf(b.next_index()));
}

} // verus!
