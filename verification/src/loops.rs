//! Groups that repeat.
//!
//! When a repeating group is closed, each of its exits gets an edge back to
//! each of its starts. A text then reaches a node of the group exactly when
//! some part of it brings the graph to the door of the group, by the way that
//! led there before or by way of an exit, and the rest leads from the door to
//! the node in one pass through the group.

use vstd::prelude::*;
use crate::accept::moves;
use crate::graph::{link, Node};
use crate::growth::{inhabited, lemma_walk_above, live, walk};
use crate::syntax::{alternatives_match, repeats_match, Piece};

verus! {

/// A group at the moment it is closed.
pub struct Loop {
    /// The graph before the edges that lead back are added.
    pub graph: Seq<Node>,
    /// The index of the first node of the group.
    pub first: int,
    /// The anchors before the group.
    pub entry: Set<int>,
    /// The first node of each alternative.
    pub starts: Set<int>,
    /// Where the alternatives end.
    pub exits: Set<int>,
}

impl Loop {
    /// The graph with the edges that lead back.
    pub open spec fn closed(self) -> Seq<Node> {
        link(self.graph, self.exits, self.starts)
    }

    /// The group is entered from its entry, at its starts, and nowhere else;
    /// its starts and exits are nodes of the group, and no edge leads out of
    /// the group.
    pub open spec fn wf(self) -> bool {
        &&& 0 <= self.first <= self.graph.len()
        &&& inhabited(self.entry)
        &&& forall|e: int| self.entry.contains(e) ==> 0 <= e < self.first
        &&& forall|s: int| self.starts.contains(s) ==> self.first <= s < self.graph.len()
        &&& forall|x: int| self.exits.contains(x) ==> self.first <= x < self.graph.len()
        &&& forall|m: int, t: int|
            self.first <= m < self.graph.len() && #[trigger] self.graph[m].edges.contains(t)
                ==> self.first <= t
        &&& forall|m: int, t: int|
            0 <= m < self.first && self.first <= t ==> (#[trigger] self.graph[m].edges.contains(t)
                <==> self.entry.contains(m) && self.starts.contains(t))
    }

    /// After the text the graph stands at the door of the group: an entry or
    /// an exit is live.
    pub open spec fn at_door(self, floor: int, origin: Set<int>, text: Seq<char>) -> bool {
        live(self.closed(), floor, origin, self.entry, text) || live(
            self.closed(),
            floor,
            origin,
            self.exits,
            text,
        )
    }

    /// The text leads from the door of the group to the node in one pass.
    pub open spec fn passes(self, text: Seq<char>, m: int) -> bool {
        walk(self.graph, self.first, self.entry, text).contains(m)
    }

    /// A part of the text leads to the door and the rest, which is not
    /// empty, from the door to the node.
    pub open spec fn enters(self, floor: int, origin: Set<int>, text: Seq<char>, m: int) -> bool {
        exists|j: int|
            0 <= j < text.len() && self.at_door(floor, origin, #[trigger] text.take(j))
                && self.passes(text.skip(j), m)
    }
}

/// A text reaches a node of a closed group exactly when it enters the group
/// and passes to the node.
pub proof fn lemma_loop_enters(l: Loop, floor: int, origin: Set<int>, text: Seq<char>, m: int)
    requires
        l.wf(),
        floor <= l.first,
        forall|o: int| origin.contains(o) ==> o < l.first,
        l.first <= m < l.graph.len(),
    ensures
        walk(l.closed(), floor, origin, text).contains(m) <==> l.enters(floor, origin, text, m),
    decreases text.len(),
{
    let closed = l.closed();
    if text.len() > 0 {
        let shorter = text.drop_last();
        let c = text.last();
        let last = text.len() - 1;
        let one = text.skip(last);
        assert(text.take(last) =~= shorter);
        assert(one.drop_last() =~= Seq::<char>::empty());
        assert(one.last() == c);
        assert(walk(l.graph, l.first, l.entry, one.drop_last()) == l.entry);
        if walk(closed, floor, origin, text).contains(m) {
            let from = choose|from: int|
                walk(closed, floor, origin, shorter).contains(from) && moves(closed, from, c, m);
            if l.graph[from].edges.contains(m) {
                if from < l.first {
                    assert(l.entry.contains(from) && l.starts.contains(m));
                    assert(live(closed, floor, origin, l.entry, shorter));
                    assert(moves(l.graph, from, c, m));
                    assert(l.passes(one, m));
                } else {
                    lemma_loop_enters(l, floor, origin, shorter, from);
                    let j = choose|j: int|
                        0 <= j < shorter.len() && l.at_door(floor, origin, #[trigger] shorter.take(j))
                            && l.passes(shorter.skip(j), from);
                    assert(text.take(j) =~= shorter.take(j));
                    assert(text.skip(j).drop_last() =~= shorter.skip(j));
                    assert(moves(l.graph, from, c, m));
                    assert(l.passes(text.skip(j), m));
                }
            } else {
                assert(l.exits.contains(from) && l.starts.contains(m));
                assert(live(closed, floor, origin, l.exits, shorter));
                let e = choose|e: int| l.entry.contains(e);
                assert(l.graph[e].edges.contains(m));
                assert(moves(l.graph, e, c, m));
                assert(l.passes(one, m));
            }
        }
        if l.enters(floor, origin, text, m) {
            let j = choose|j: int|
                0 <= j < text.len() && l.at_door(floor, origin, #[trigger] text.take(j))
                    && l.passes(text.skip(j), m);
            let rest = text.skip(j);
            let from = choose|from: int|
                walk(l.graph, l.first, l.entry, rest.drop_last()).contains(from) && moves(
                    l.graph,
                    from,
                    rest.last(),
                    m,
                );
            assert(rest.last() == c);
            if j == last {
                assert(rest.drop_last() =~= Seq::<char>::empty());
                assert(l.entry.contains(from));
                assert(l.starts.contains(m));
                if live(closed, floor, origin, l.entry, shorter) {
                    let e = choose|e: int|
                        #[trigger] l.entry.contains(e) && walk(closed, floor, origin, shorter).contains(
                            e,
                        );
                    assert(l.graph[e].edges.contains(m));
                    assert(moves(closed, e, c, m));
                } else {
                    let x = choose|x: int|
                        #[trigger] l.exits.contains(x) && walk(
                            closed,
                            floor,
                            origin,
                            shorter,
                        ).contains(x);
                    assert(closed[x].edges.contains(m));
                    assert(moves(closed, x, c, m));
                }
            } else {
                assert(rest.drop_last() =~= shorter.skip(j));
                lemma_walk_above(l.graph, l.first, l.entry, rest.drop_last(), from);
                assert(shorter.take(j) =~= text.take(j));
                assert(l.enters(floor, origin, shorter, from));
                lemma_loop_enters(l, floor, origin, shorter, from);
                assert(moves(closed, from, c, m));
            }
        }
    }
}

/// An exit of a closed group is live after a text exactly when an entry of
/// the group is live after a part of the text and the rest, which is not
/// empty, is one pass through the group after another, each from the door to
/// an exit.
pub proof fn lemma_loop_language(
    l: Loop,
    floor: int,
    origin: Set<int>,
    alternatives: Seq<Seq<Piece>>,
    text: Seq<char>,
)
    requires
        l.wf(),
        floor <= l.first,
        forall|o: int| origin.contains(o) ==> o < l.first,
        forall|v: Seq<char>|
            #[trigger] live(l.graph, l.first, l.entry, l.exits, v) <==> alternatives_match(
                alternatives,
                v,
            ),
    ensures
        live(l.closed(), floor, origin, l.exits, text) <==> exists|k: int|
            0 <= k < text.len() && live(l.closed(), floor, origin, l.entry, #[trigger] text.take(k))
                && repeats_match(alternatives, text.skip(k)),
    decreases text.len(),
{
    let closed = l.closed();
    if live(closed, floor, origin, l.exits, text) {
        let x = choose|x: int|
            #[trigger] l.exits.contains(x) && walk(closed, floor, origin, text).contains(x);
        lemma_loop_enters(l, floor, origin, text, x);
        let j = choose|j: int|
            0 <= j < text.len() && l.at_door(floor, origin, #[trigger] text.take(j)) && l.passes(
                text.skip(j),
                x,
            );
        let rest = text.skip(j);
        assert(live(l.graph, l.first, l.entry, l.exits, rest));
        assert(alternatives_match(alternatives, rest));
        if live(closed, floor, origin, l.entry, text.take(j)) {
            assert(rest.take(0) =~= Seq::<char>::empty());
            assert(rest.skip(0) =~= rest);
            assert(repeats_match(alternatives, rest.take(0)));
            assert(repeats_match(alternatives, rest));
        } else {
            let head = text.take(j);
            lemma_loop_language(l, floor, origin, alternatives, head);
            let k = choose|k: int|
                0 <= k < head.len() && live(closed, floor, origin, l.entry, #[trigger] head.take(k))
                    && repeats_match(alternatives, head.skip(k));
            let tail = text.skip(k);
            assert(text.take(k) =~= head.take(k));
            assert(tail.take(j - k) =~= head.skip(k));
            assert(tail.skip(j - k) =~= rest);
            assert(repeats_match(alternatives, tail.take(j - k)));
            assert(repeats_match(alternatives, tail));
        }
    }
    if exists|k: int|
        0 <= k < text.len() && live(closed, floor, origin, l.entry, #[trigger] text.take(k))
            && repeats_match(alternatives, text.skip(k)) {
        let k = choose|k: int|
            0 <= k < text.len() && live(closed, floor, origin, l.entry, #[trigger] text.take(k))
                && repeats_match(alternatives, text.skip(k));
        let tail = text.skip(k);
        let d = choose|d: int|
            0 <= d < tail.len() && repeats_match(alternatives, #[trigger] tail.take(d))
                && alternatives_match(alternatives, tail.skip(d));
        let j = k + d;
        let head = text.take(j);
        let rest = text.skip(j);
        assert(rest =~= tail.skip(d));
        assert(live(l.graph, l.first, l.entry, l.exits, rest));
        let x = choose|x: int|
            #[trigger] l.exits.contains(x) && walk(l.graph, l.first, l.entry, rest).contains(x);
        assert(head.take(k) =~= text.take(k));
        assert(head.skip(k) =~= tail.take(d));
        if d > 0 {
            lemma_loop_language(l, floor, origin, alternatives, head);
            assert(live(closed, floor, origin, l.exits, head));
        } else {
            assert(head =~= text.take(k));
        }
        assert(l.at_door(floor, origin, text.take(j)));
        assert(l.passes(text.skip(j), x));
        lemma_loop_enters(l, floor, origin, text, x);
    }
}

} // verus!
