//! What it means for a graph to accept a string.
//!
//! A string is accepted when some path through the graph, starting at the
//! entry sentinel, consumes the string character by character, all of it, and
//! ends at a node with an edge to an accepting sentinel. The sentinels
//! themselves consume nothing: acceptance is an edge to `Match`, never a stay
//! in it.

use vstd::prelude::*;
use crate::graph::{char_code, Node};

verus! {

/// Every edge leads to a node of the graph, and the graph has a first node.
pub open spec fn closed(graph: Seq<Node>) -> bool {
    &&& graph.len() >= 1
    &&& forall|i: int, t: int|
        0 <= i < graph.len() && #[trigger] graph[i].edges.contains(t) ==> 0 <= t < graph.len()
}

/// The graph has an edge from `from` to `to`.
pub open spec fn edge(graph: Seq<Node>, from: int, to: int) -> bool {
    &&& 0 <= from < graph.len()
    &&& 0 <= to < graph.len()
    &&& graph[from].edges.contains(to)
}

/// Reading `c` takes the graph from `from` to `to`.
pub open spec fn moves(graph: Seq<Node>, from: int, c: char, to: int) -> bool {
    edge(graph, from, to) && graph[to].kind.admits(char_code(c))
}

/// `path` consumes `text`: it starts at the entry sentinel and makes one move
/// for each character.
pub open spec fn is_run(graph: Seq<Node>, path: Seq<int>, text: Seq<char>) -> bool {
    &&& path.len() == text.len() + 1
    &&& path[0] == 0
    &&& forall|i: int| 0 <= i < text.len() ==> moves(graph, #[trigger] path[i], text[i], path[i + 1])
}

/// `from` has an edge to an accepting sentinel.
pub open spec fn leads_to_match(graph: Seq<Node>, from: int) -> bool {
    exists|to: int| edge(graph, from, to) && (#[trigger] graph[to]).kind is Match
}

/// The graph accepts the whole of `text`.
pub open spec fn accepts(graph: Seq<Node>, text: Seq<char>) -> bool {
    exists|path: Seq<int>| #[trigger]
        is_run(graph, path, text) && leads_to_match(graph, path.last())
}

/// The nodes that one character leads to from the nodes of `frontier`.
pub open spec fn advance(graph: Seq<Node>, frontier: Set<int>, c: char) -> Set<int> {
    Set::new(|to: int| exists|from: int| frontier.contains(from) && #[trigger] moves(graph, from, c, to))
}

/// The frontier after `text`, from a given frontier.
pub open spec fn advance_all(graph: Seq<Node>, frontier: Set<int>, text: Seq<char>) -> Set<int>
    decreases text.len(),
{
    if text.len() == 0 {
        frontier
    } else {
        advance(graph, advance_all(graph, frontier, text.drop_last()), text.last())
    }
}

/// The frontier after `text`: the nodes at which a path that consumes `text`
/// can end.
pub open spec fn reach(graph: Seq<Node>, text: Seq<char>) -> Set<int> {
    advance_all(graph, set![0int], text)
}

/// Some node of the frontier has an edge to an accepting sentinel.
pub open spec fn accepting(graph: Seq<Node>, frontier: Set<int>) -> bool {
    exists|from: int| frontier.contains(from) && #[trigger] leads_to_match(graph, from)
}

/// Nothing leads out of an empty frontier.
pub proof fn lemma_advance_empty(graph: Seq<Node>, c: char)
    ensures
        advance(graph, Set::empty(), c) == Set::<int>::empty(),
{
    assert(advance(graph, Set::empty(), c) =~= Set::<int>::empty());
}

/// The frontier after two frontiers taken together is what comes after the one
/// together with what comes after the other.
pub proof fn lemma_advance_union(graph: Seq<Node>, a: Set<int>, b: Set<int>, c: char)
    ensures
        advance(graph, a + b, c) == advance(graph, a, c) + advance(graph, b, c),
{
    let whole = advance(graph, a + b, c);
    let parts = advance(graph, a, c) + advance(graph, b, c);
    assert forall|to: int| whole.contains(to) <==> parts.contains(to) by {
        if whole.contains(to) {
            let from = choose|from: int| (a + b).contains(from) && moves(graph, from, c, to);
            if a.contains(from) {
                assert(advance(graph, a, c).contains(to));
            } else {
                assert(advance(graph, b, c).contains(to));
            }
        }
        if advance(graph, a, c).contains(to) {
            let from = choose|from: int| a.contains(from) && moves(graph, from, c, to);
            assert((a + b).contains(from));
        }
        if advance(graph, b, c).contains(to) {
            let from = choose|from: int| b.contains(from) && moves(graph, from, c, to);
            assert((a + b).contains(from));
        }
    }
    assert(whole =~= parts);
}

/// In a closed graph every node of a frontier is a node of the graph.
pub proof fn lemma_reach_in_graph(graph: Seq<Node>, text: Seq<char>, node: int)
    requires
        closed(graph),
        reach(graph, text).contains(node),
    ensures
        0 <= node < graph.len(),
{
    if text.len() > 0 {
        let before = advance_all(graph, set![0int], text.drop_last());
        let from = choose|from: int| before.contains(from) && moves(graph, from, text.last(), node);
    }
}

/// A node is in the frontier after `text` exactly when a path that consumes
/// `text` ends at it.
pub proof fn lemma_reach_is_run(graph: Seq<Node>, text: Seq<char>, node: int)
    ensures
        reach(graph, text).contains(node) <==> exists|path: Seq<int>| #[trigger]
            is_run(graph, path, text) && path.last() == node,
    decreases text.len(),
{
    if text.len() == 0 {
        if node == 0 {
            assert(is_run(graph, seq![0int], text));
            assert(seq![0int].last() == node);
        }
        if exists|path: Seq<int>| #[trigger] is_run(graph, path, text) && path.last() == node {
            let path = choose|path: Seq<int>| #[trigger]
                is_run(graph, path, text) && path.last() == node;
            assert(path[0] == 0);
        }
    } else {
        let shorter = text.drop_last();
        let c = text.last();
        let before = reach(graph, shorter);
        if reach(graph, text).contains(node) {
            let from = choose|from: int| before.contains(from) && moves(graph, from, c, node);
            lemma_reach_is_run(graph, shorter, from);
            let head = choose|path: Seq<int>| #[trigger]
                is_run(graph, path, shorter) && path.last() == from;
            let path = head.push(node);
            assert forall|i: int| 0 <= i < text.len() implies moves(
                graph,
                #[trigger] path[i],
                text[i],
                path[i + 1],
            ) by {
                if i < shorter.len() {
                    assert(moves(graph, head[i], shorter[i], head[i + 1]));
                }
            }
            assert(is_run(graph, path, text));
            assert(path.last() == node);
        }
        if exists|path: Seq<int>| #[trigger] is_run(graph, path, text) && path.last() == node {
            let path = choose|path: Seq<int>| #[trigger]
                is_run(graph, path, text) && path.last() == node;
            let head = path.drop_last();
            let from = head.last();
            assert forall|i: int| 0 <= i < shorter.len() implies moves(
                graph,
                #[trigger] head[i],
                shorter[i],
                head[i + 1],
            ) by {
                assert(moves(graph, path[i], text[i], path[i + 1]));
            }
            assert(is_run(graph, head, shorter));
            lemma_reach_is_run(graph, shorter, from);
            assert(before.contains(from));
            assert(moves(graph, path[text.len() - 1], text[text.len() - 1], path[text.len() as int]));
            assert(moves(graph, from, c, node));
        }
    }
}

/// A string is accepted exactly when the frontier after it is accepting.
pub proof fn lemma_accepts_is_accepting(graph: Seq<Node>, text: Seq<char>)
    ensures
        accepts(graph, text) <==> accepting(graph, reach(graph, text)),
{
    if accepts(graph, text) {
        let path = choose|path: Seq<int>| #[trigger]
            is_run(graph, path, text) && leads_to_match(graph, path.last());
        lemma_reach_is_run(graph, text, path.last());
        assert(reach(graph, text).contains(path.last()));
    }
    if accepting(graph, reach(graph, text)) {
        let from = choose|from: int|
            reach(graph, text).contains(from) && #[trigger] leads_to_match(graph, from);
        lemma_reach_is_run(graph, text, from);
        let path = choose|path: Seq<int>| #[trigger]
            is_run(graph, path, text) && path.last() == from;
        assert(is_run(graph, path, text) && leads_to_match(graph, path.last()));
    }
}

} // verus!
