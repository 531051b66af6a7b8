//! Graphs that grow forward, and why what was reached stays reached.
//!
//! A graph grows forward when nodes are appended and every added edge leads
//! to an appended node or lies among the appended nodes. Such growth does not
//! change which of the old nodes a text reaches.

use vstd::prelude::*;
use crate::accept::{advance, moves, reach};
use crate::graph::Node;

verus! {

/// Every edge leads to a node of the graph other than the first.
pub open spec fn tight(graph: Seq<Node>) -> bool {
    forall|m: int, t: int|
        0 <= m < graph.len() && #[trigger] graph[m].edges.contains(t) ==> 1 <= t < graph.len()
}

/// `later` is `earlier` with nodes appended and with edges added that all
/// lead to the appended nodes.
pub open spec fn forward(earlier: Seq<Node>, later: Seq<Node>) -> bool {
    &&& earlier.len() <= later.len()
    &&& forall|m: int| 0 <= m < earlier.len() ==> (#[trigger] later[m]).kind == earlier[m].kind
    &&& forall|m: int, t: int|
        0 <= m < earlier.len() && t < earlier.len() ==> (#[trigger] later[m].edges.contains(t)
            <==> earlier[m].edges.contains(t))
    &&& forall|m: int, t: int|
        earlier.len() <= m < later.len() && #[trigger] later[m].edges.contains(t)
            ==> earlier.len() <= t
}

/// The nodes that the text leads to from the nodes of `origin`, where only
/// nodes from `floor` on may be entered.
pub open spec fn walk(graph: Seq<Node>, floor: int, origin: Set<int>, text: Seq<char>) -> Set<int>
    decreases text.len(),
{
    if text.len() == 0 {
        origin
    } else {
        Set::new(
            |to: int|
                floor <= to && exists|from: int|
                    walk(graph, floor, origin, text.drop_last()).contains(from) && #[trigger] moves(
                        graph,
                        from,
                        text.last(),
                        to,
                    ),
        )
    }
}

/// Some node of `nodes` is reached by the text.
pub open spec fn live(
    graph: Seq<Node>,
    floor: int,
    origin: Set<int>,
    nodes: Set<int>,
    text: Seq<char>,
) -> bool {
    exists|a: int| #[trigger] nodes.contains(a) && walk(graph, floor, origin, text).contains(a)
}

/// Every member of the set is at least `floor`.
pub open spec fn above(nodes: Set<int>, floor: int) -> bool {
    forall|a: int| nodes.contains(a) ==> floor <= a
}

/// The set has a member.
pub open spec fn inhabited(nodes: Set<int>) -> bool {
    exists|a: int| nodes.contains(a)
}

/// A walk from the entry sentinel with no floor is what the text reaches.
pub proof fn lemma_walk_is_reach(graph: Seq<Node>, text: Seq<char>)
    ensures
        walk(graph, 0, set![0int], text) == reach(graph, text),
    decreases text.len(),
{
    if text.len() > 0 {
        lemma_walk_is_reach(graph, text.drop_last());
        assert(walk(graph, 0, set![0int], text) =~= advance(
            graph,
            reach(graph, text.drop_last()),
            text.last(),
        ));
    }
}

/// After a text that is not empty a walk stands on nodes from the floor on.
pub proof fn lemma_walk_above(
    graph: Seq<Node>,
    floor: int,
    origin: Set<int>,
    text: Seq<char>,
    m: int,
)
    requires
        text.len() > 0,
        walk(graph, floor, origin, text).contains(m),
    ensures
        floor <= m < graph.len(),
{
    let from = choose|from: int|
        walk(graph, floor, origin, text.drop_last()).contains(from) && moves(
            graph,
            from,
            text.last(),
            m,
        );
}

/// A graph grows forward from itself.
pub proof fn lemma_forward_itself(graph: Seq<Node>)
    ensures
        forward(graph, graph),
{
}

/// Forward growth after forward growth is forward growth.
pub proof fn lemma_forward_chain(first: Seq<Node>, second: Seq<Node>, third: Seq<Node>)
    requires
        forward(first, second),
        forward(second, third),
    ensures
        forward(first, third),
{
    assert forall|m: int| 0 <= m < first.len() implies (#[trigger] third[m]).kind
        == first[m].kind by {
        assert(second[m].kind == first[m].kind);
    }
    assert forall|m: int, t: int| 0 <= m < first.len() && t < first.len() implies (
    #[trigger] third[m].edges.contains(t) <==> first[m].edges.contains(t)) by {
        assert(second[m].edges.contains(t) <==> first[m].edges.contains(t));
        assert(third[m].edges.contains(t) <==> second[m].edges.contains(t));
    }
    assert forall|m: int, t: int|
        first.len() <= m < third.len() && #[trigger] third[m].edges.contains(
            t,
        ) implies first.len() <= t by {
        if m < second.len() {
            if t < second.len() {
                assert(third[m].edges.contains(t) <==> second[m].edges.contains(t));
            }
        }
    }
}

/// A text reaches an old node of the grown graph exactly when it reached the
/// node before the graph grew.
pub proof fn lemma_reach_stable(
    earlier: Seq<Node>,
    later: Seq<Node>,
    floor: int,
    origin: Set<int>,
    text: Seq<char>,
    m: int,
)
    requires
        forward(earlier, later),
        0 <= m < earlier.len(),
    ensures
        walk(later, floor, origin, text).contains(m) <==> walk(
            earlier,
            floor,
            origin,
            text,
        ).contains(m),
    decreases text.len(),
{
    if text.len() > 0 {
        let shorter = text.drop_last();
        let c = text.last();
        if walk(later, floor, origin, text).contains(m) {
            let from = choose|from: int|
                walk(later, floor, origin, shorter).contains(from) && moves(later, from, c, m);
            assert(later[from].edges.contains(m));
            assert(from < earlier.len());
            lemma_reach_stable(earlier, later, floor, origin, shorter, from);
            assert(moves(earlier, from, c, m));
        }
        if walk(earlier, floor, origin, text).contains(m) {
            let from = choose|from: int|
                walk(earlier, floor, origin, shorter).contains(from) && moves(earlier, from, c, m);
            lemma_reach_stable(earlier, later, floor, origin, shorter, from);
            assert(later[from].edges.contains(m) <==> earlier[from].edges.contains(m));
            assert(later[m].kind == earlier[m].kind);
            assert(moves(later, from, c, m));
        }
    }
}

/// Which of a set of old nodes is reached does not change when the graph
/// grows.
pub proof fn lemma_live_stable(
    earlier: Seq<Node>,
    later: Seq<Node>,
    floor: int,
    origin: Set<int>,
    nodes: Set<int>,
    text: Seq<char>,
)
    requires
        forward(earlier, later),
        forall|a: int| nodes.contains(a) ==> 0 <= a < earlier.len(),
    ensures
        live(later, floor, origin, nodes, text) <==> live(earlier, floor, origin, nodes, text),
{
    if live(later, floor, origin, nodes, text) {
        let a = choose|a: int|
            #[trigger] nodes.contains(a) && walk(later, floor, origin, text).contains(a);
        lemma_reach_stable(earlier, later, floor, origin, text, a);
    }
    if live(earlier, floor, origin, nodes, text) {
        let a = choose|a: int|
            #[trigger] nodes.contains(a) && walk(earlier, floor, origin, text).contains(a);
        lemma_reach_stable(earlier, later, floor, origin, text, a);
    }
}

/// A node of one set or another is reached when one of the first or one of
/// the second is.
pub proof fn lemma_live_union(
    graph: Seq<Node>,
    floor: int,
    origin: Set<int>,
    a: Set<int>,
    b: Set<int>,
    text: Seq<char>,
)
    ensures
        live(graph, floor, origin, a + b, text) <==> live(graph, floor, origin, a, text) || live(
            graph,
            floor,
            origin,
            b,
            text,
        ),
{
    if live(graph, floor, origin, a + b, text) {
        let x = choose|x: int|
            #[trigger] (a + b).contains(x) && walk(graph, floor, origin, text).contains(x);
        if a.contains(x) {
            assert(live(graph, floor, origin, a, text));
        } else {
            assert(b.contains(x));
            assert(live(graph, floor, origin, b, text));
        }
    }
    if live(graph, floor, origin, a, text) {
        let x = choose|x: int|
            #[trigger] a.contains(x) && walk(graph, floor, origin, text).contains(x);
        assert((a + b).contains(x));
    }
    if live(graph, floor, origin, b, text) {
        let x = choose|x: int|
            #[trigger] b.contains(x) && walk(graph, floor, origin, text).contains(x);
        assert((a + b).contains(x));
    }
}

} // verus!
