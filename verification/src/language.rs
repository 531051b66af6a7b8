//! The graph of a pattern accepts what the pattern matches.
//!
//! Where a pattern spells a well-formed tree, the strings that its graph
//! accepts are the strings that the tree matches. The proof follows the
//! compiler through the tree: after each piece the anchors are live exactly
//! after the texts that the pieces so far match.

use vstd::prelude::*;
use crate::accept::{
    accepting, accepts, edge, leads_to_match, lemma_accepts_is_accepting, moves, reach,
};
use crate::builder::{
    compile_spec, lemma_alternate_wf, lemma_atom_wf, lemma_close_group_wf, lemma_open_group_wf,
    lemma_start_wf, run, Builder,
};
use crate::error::CompileError;
use crate::graph::{Kind, Node};
use crate::growth::{
    above, forward, inhabited, lemma_forward_chain, lemma_forward_itself, lemma_live_stable,
    lemma_live_union, lemma_reach_stable, lemma_walk_above, lemma_walk_is_reach, live, tight,
    walk,
};
use crate::is_match_spec;
use crate::loops::{lemma_loop_language, Loop};
use crate::syntax::{
    alternatives_match, alternatives_wf, begins_firmly, piece_matches, piece_wf, reads_as,
    repeats_match, row_matches, row_wf, Item, Piece,
};
use crate::wiring::{lemma_run_alternatives, wire_alternatives, wire_piece, wire_row};

verus! {

/// Where walks through a graph begin, and which nodes they may enter.
pub struct Base {
    pub floor: int,
    pub origin: Set<int>,
}

/// The builder is well formed, none of its edges leads out of its graph, and
/// its anchors and the entries of its open groups are not empty.
pub open spec fn sound(b: Builder) -> bool {
    &&& b.wf()
    &&& tight(b.nodes)
    &&& b.groups.len() >= 1
    &&& inhabited(b.anchors)
    &&& forall|k: int| 0 <= k < b.groups.len() ==> inhabited((#[trigger] b.groups[k]).entry)
}

/// Walks begin in the graph of the builder and may enter whatever is added
/// to it.
pub open spec fn fits(base: Base, b: Builder) -> bool {
    &&& base.floor <= b.nodes.len()
    &&& forall|o: int| base.origin.contains(o) ==> 0 <= o < b.nodes.len()
}

/// Some anchor of the builder is live after the text.
pub open spec fn ready(b: Builder, base: Base, text: Seq<char>) -> bool {
    live(b.nodes, base.floor, base.origin, b.anchors, text)
}

/// The text can be cut in two such that the builder is ready after the first
/// part and the item consumes the second.
pub open spec fn ready_then_item(b: Builder, base: Base, item: Item, text: Seq<char>) -> bool {
    exists|k: int|
        0 <= k <= text.len() && ready(b, base, #[trigger] text.take(k)) && item.consumes(
            text.skip(k),
        )
}

/// The same, with a second part that is not empty.
pub open spec fn ready_then_some(b: Builder, base: Base, item: Item, text: Seq<char>) -> bool {
    exists|k: int|
        0 <= k < text.len() && ready(b, base, #[trigger] text.take(k)) && item.consumes_some(
            text.skip(k),
        )
}

/// The same for a piece.
pub open spec fn ready_then_piece(b: Builder, base: Base, piece: Piece, text: Seq<char>) -> bool {
    exists|k: int|
        0 <= k <= text.len() && ready(b, base, #[trigger] text.take(k)) && piece_matches(
            piece,
            text.skip(k),
        )
}

/// The same for a row.
pub open spec fn ready_then_row(b: Builder, base: Base, row: Seq<Piece>, text: Seq<char>) -> bool {
    exists|k: int|
        0 <= k <= text.len() && ready(b, base, #[trigger] text.take(k)) && row_matches(
            row,
            text.skip(k),
        )
}

/// The same for alternatives.
pub open spec fn ready_then_alternatives(
    b: Builder,
    base: Base,
    alternatives: Seq<Seq<Piece>>,
    text: Seq<char>,
) -> bool {
    exists|k: int|
        0 <= k <= text.len() && ready(b, base, #[trigger] text.take(k)) && alternatives_match(
            alternatives,
            text.skip(k),
        )
}

/// The exits of the innermost group together with the anchors: where the
/// group can be left once it is closed.
pub open spec fn ways_out(b: Builder) -> Set<int> {
    b.groups.last().exits + b.anchors
}

/// The nodes below `lo` are the same in both graphs.
pub open spec fn same_below(earlier: Seq<Node>, later: Seq<Node>, lo: int) -> bool {
    forall|m: int| 0 <= m < lo ==> #[trigger] later[m] == earlier[m]
}

/// An atom appends one node and adds edges to that node only.
pub proof fn lemma_atom_shape(b: Builder, item: Item)
    requires
        sound(b),
    ensures
        sound(b.atom(item.code, item.q)),
        forward(b.nodes, b.atom(item.code, item.q).nodes),
        b.atom(item.code, item.q).groups == b.groups,
        b.atom(item.code, item.q).nodes.len() == b.nodes.len() + 1,
        b.atom(item.code, item.q).nodes.last().kind == Kind::Literal(item.code),
        b.atom(item.code, item.q).anchors == if item.q.skips() {
            b.anchors.insert(b.nodes.len() as int)
        } else {
            set![b.nodes.len() as int]
        },
        forall|m: int|
            edge(b.atom(item.code, item.q).nodes, m, b.nodes.len() as int) <==> b.anchors.contains(
                m,
            ) || (m == b.nodes.len() && item.q.repeats()),
        forall|m: int, t: int|
            0 <= m < b.nodes.len() ==> (#[trigger] b.atom(item.code, item.q).nodes[m].edges.contains(
                t,
            ) <==> b.nodes[m].edges.contains(t) || (b.anchors.contains(m) && t == b.nodes.len())),
{
    lemma_atom_wf(b, item.code, item.q);
    let a = b.atom(item.code, item.q);
    let n = b.nodes.len() as int;
    assert(a.anchors =~= if item.q.skips() {
        b.anchors.insert(n)
    } else {
        set![n]
    });
    assert(a.anchors.contains(n));
    assert forall|m: int| edge(a.nodes, m, n) <==> b.anchors.contains(m) || (m == n
        && item.q.repeats()) by {
        if 0 <= m < n {
            assert(b.nodes[m].edges.contains(n) ==> false);
        }
    }
    assert forall|m: int, t: int| 0 <= m < n && t < n implies (#[trigger] a.nodes[m].edges.contains(
        t,
    ) <==> b.nodes[m].edges.contains(t)) by {}
    assert forall|m: int, t: int|
        0 <= m < a.nodes.len() && #[trigger] a.nodes[m].edges.contains(t) implies 1 <= t
        < a.nodes.len() by {
        if m < n {
            if t != n {
                assert(b.nodes[m].edges.contains(t));
            }
        }
    }
    assert forall|k: int| 0 <= k < a.groups.len() implies inhabited(
        (#[trigger] a.groups[k]).entry,
    ) by {
        assert(inhabited(b.groups[k].entry));
    }
}

/// The node of an atom is live after a text exactly when the builder was
/// ready after a part of the text and the atom consumes the rest, which is
/// not empty.
pub proof fn lemma_atom_lands(b: Builder, base: Base, item: Item, text: Seq<char>)
    requires
        sound(b),
        fits(base, b),
    ensures
        walk(b.atom(item.code, item.q).nodes, base.floor, base.origin, text).contains(
            b.nodes.len() as int,
        ) <==> ready_then_some(b, base, item, text),
    decreases text.len(),
{
    let a = b.atom(item.code, item.q);
    let n = b.nodes.len() as int;
    let floor = base.floor;
    let origin = base.origin;
    lemma_atom_shape(b, item);
    if text.len() > 0 {
        let shorter = text.drop_last();
        let c = text.last();
        let last = text.len() - 1;
        assert(text.take(last) =~= shorter);
        if walk(a.nodes, floor, origin, text).contains(n) {
            let m = choose|m: int|
                walk(a.nodes, floor, origin, shorter).contains(m) && moves(a.nodes, m, c, n);
            assert(edge(a.nodes, m, n));
            assert(item.admits(c));
            if b.anchors.contains(m) {
                lemma_reach_stable(b.nodes, a.nodes, floor, origin, shorter, m);
                assert(ready(b, base, shorter));
                assert(text.skip(last) =~= seq![c]);
                assert(item.consumes_some(text.skip(last)));
                assert(ready(b, base, text.take(last)));
            } else {
                lemma_atom_lands(b, base, item, shorter);
                let k = choose|k: int|
                    0 <= k < shorter.len() && ready(b, base, #[trigger] shorter.take(k))
                        && item.consumes_some(shorter.skip(k));
                assert(text.take(k) =~= shorter.take(k));
                assert(text.skip(k) =~= shorter.skip(k).push(c));
                assert forall|i: int| 0 <= i < text.skip(k).len() implies item.admits(
                    #[trigger] text.skip(k)[i],
                ) by {
                    if i < shorter.skip(k).len() {
                        assert(text.skip(k)[i] == shorter.skip(k)[i]);
                    }
                }
                assert(item.consumes_some(text.skip(k)));
                assert(ready(b, base, text.take(k)));
            }
        }
        if ready_then_some(b, base, item, text) {
            let k = choose|k: int|
                0 <= k < text.len() && ready(b, base, #[trigger] text.take(k))
                    && item.consumes_some(text.skip(k));
            let rest = text.skip(k);
            assert(rest[rest.len() - 1] == c);
            assert(item.admits(c));
            if k == last {
                let x = choose|x: int|
                    #[trigger] b.anchors.contains(x) && walk(
                        b.nodes,
                        floor,
                        origin,
                        shorter,
                    ).contains(x);
                lemma_reach_stable(b.nodes, a.nodes, floor, origin, shorter, x);
                assert(edge(a.nodes, x, n));
                assert(moves(a.nodes, x, c, n));
            } else {
                assert(shorter.take(k) =~= text.take(k));
                assert(shorter.skip(k) =~= rest.drop_last());
                assert forall|i: int| 0 <= i < shorter.skip(k).len() implies item.admits(
                    #[trigger] shorter.skip(k)[i],
                ) by {
                    assert(shorter.skip(k)[i] == rest[i]);
                }
                assert(item.consumes_some(shorter.skip(k)));
                assert(ready(b, base, shorter.take(k)));
                assert(ready_then_some(b, base, item, shorter));
                lemma_atom_lands(b, base, item, shorter);
                assert(edge(a.nodes, n, n));
                assert(moves(a.nodes, n, c, n));
            }
        }
    }
}

/// After an atom the builder is ready exactly when it was ready after a part
/// of the text and the atom consumes the rest.
pub proof fn lemma_atom_language(b: Builder, base: Base, item: Item, text: Seq<char>)
    requires
        sound(b),
        fits(base, b),
    ensures
        ready(b.atom(item.code, item.q), base, text) <==> ready_then_item(b, base, item, text),
{
    let a = b.atom(item.code, item.q);
    let n = b.nodes.len() as int;
    let whole = text.len() as int;
    let floor = base.floor;
    let origin = base.origin;
    lemma_atom_shape(b, item);
    lemma_atom_lands(b, base, item, text);
    assert(text.take(whole) =~= text);
    assert(text.skip(whole) =~= Seq::<char>::empty());
    if ready(a, base, text) {
        let x = choose|x: int|
            #[trigger] a.anchors.contains(x) && walk(a.nodes, floor, origin, text).contains(x);
        if x == n {
            let k = choose|k: int|
                0 <= k < text.len() && ready(b, base, #[trigger] text.take(k))
                    && item.consumes_some(text.skip(k));
            assert(item.consumes(text.skip(k)));
        } else {
            assert(b.anchors.contains(x));
            lemma_reach_stable(b.nodes, a.nodes, floor, origin, text, x);
            assert(ready(b, base, text.take(whole)));
            assert(item.consumes(text.skip(whole)));
        }
    }
    if ready_then_item(b, base, item, text) {
        let k = choose|k: int|
            0 <= k <= text.len() && ready(b, base, #[trigger] text.take(k)) && item.consumes(
                text.skip(k),
            );
        if k == whole {
            let x = choose|x: int|
                #[trigger] b.anchors.contains(x) && walk(b.nodes, floor, origin, text).contains(x);
            lemma_reach_stable(b.nodes, a.nodes, floor, origin, text, x);
            assert(a.anchors.contains(x));
        } else {
            assert(item.consumes_some(text.skip(k)));
            assert(ready_then_some(b, base, item, text));
            assert(a.anchors.contains(n));
        }
    }
}

/// Opening a group keeps the builder sound.
pub proof fn lemma_open_sound(b: Builder)
    requires
        sound(b),
    ensures
        sound(b.open_group()),
        b.open_group().groups.drop_last() == b.groups,
{
    lemma_open_group_wf(b);
    let opened = b.open_group();
    assert(opened.groups.drop_last() =~= b.groups);
    assert forall|k: int| 0 <= k < opened.groups.len() implies inhabited(
        (#[trigger] opened.groups[k]).entry,
    ) by {
        if k < b.groups.len() {
            assert(inhabited(b.groups[k].entry));
        }
    }
}

/// Going on to the next alternative keeps the builder sound.
pub proof fn lemma_alternate_sound(b: Builder)
    requires
        sound(b),
    ensures
        sound(b.alternate()),
        b.alternate().groups.drop_last() == b.groups.drop_last(),
{
    lemma_alternate_wf(b);
    let next = b.alternate();
    assert(next.groups.drop_last() =~= b.groups.drop_last());
    assert(inhabited(b.groups[b.groups.len() - 1].entry));
    assert forall|k: int| 0 <= k < next.groups.len() implies inhabited(
        (#[trigger] next.groups[k]).entry,
    ) by {
        if k < b.groups.len() - 1 {
            assert(inhabited(b.groups[k].entry));
        }
    }
}

/// A piece grows the graph forward, leaves the open groups as they are, and
/// leaves alone every node below `lo` where the anchors lie from `lo` on.
pub proof fn lemma_piece_shape(b: Builder, piece: Piece, lo: int)
    requires
        sound(b),
        piece_wf(piece),
        0 <= lo <= b.nodes.len(),
        above(b.anchors, lo),
    ensures
        sound(wire_piece(b, piece)),
        forward(b.nodes, wire_piece(b, piece).nodes),
        wire_piece(b, piece).groups == b.groups,
        above(wire_piece(b, piece).anchors, lo),
        same_below(b.nodes, wire_piece(b, piece).nodes, lo),
    decreases piece,
{
    match piece {
        Piece::Atom(item) => {
            lemma_atom_shape(b, item);
            let a = b.atom(item.code, item.q);
            assert forall|m: int| 0 <= m < lo implies #[trigger] a.nodes[m] == b.nodes[m] by {
                assert(a.nodes[m].edges =~= b.nodes[m].edges);
            }
        },
        Piece::Group(alternatives, q) => {
            let opened = b.open_group();
            let n0 = b.nodes.len() as int;
            lemma_open_sound(b);
            lemma_alternatives_shape(opened, alternatives, lo);
            let inner = wire_alternatives(opened, alternatives);
            let closed = inner.close_group(q);
            lemma_close_group_wf(inner, q);
            assert(inner.groups.last().wf(inner.next_index()));
            if q.repeats() {
                lemma_firm_alternatives(opened, alternatives);
            }
            assert(tight(closed.nodes)) by {
                assert forall|m: int, t: int|
                    0 <= m < closed.nodes.len() && #[trigger] closed.nodes[m].edges.contains(
                        t,
                    ) implies 1 <= t < closed.nodes.len() by {
                    if !inner.nodes[m].edges.contains(t) {
                        assert(inner.groups.last().starts.contains(t));
                    }
                }
            }
            assert(forward(b.nodes, closed.nodes)) by {
                if q.repeats() {
                    assert forall|m: int, t: int|
                        0 <= m < n0 && t < n0 implies (#[trigger] closed.nodes[m].edges.contains(t)
                        <==> b.nodes[m].edges.contains(t)) by {
                        assert(!ways_out(inner).contains(m));
                        assert(inner.nodes[m].edges.contains(t) <==> b.nodes[m].edges.contains(t));
                    }
                    assert forall|m: int, t: int|
                        n0 <= m < closed.nodes.len() && #[trigger] closed.nodes[m].edges.contains(
                            t,
                        ) implies n0 <= t by {
                        if !inner.nodes[m].edges.contains(t) {
                            assert(inner.groups.last().starts.contains(t));
                        }
                    }
                }
            }
            assert(same_below(b.nodes, closed.nodes, lo)) by {
                assert forall|m: int| 0 <= m < lo implies #[trigger] closed.nodes[m]
                    == b.nodes[m] by {
                    assert(inner.nodes[m] == b.nodes[m]);
                    if ways_out(inner).contains(m) {
                        assert(false);
                    }
                }
            }
            assert(closed.anchors.contains(choose|a: int| inner.anchors.contains(a)));
        },
    }
}

/// A row grows the graph forward, leaves the open groups as they are, and
/// leaves alone every node below `lo` where the anchors lie from `lo` on.
pub proof fn lemma_row_shape(b: Builder, row: Seq<Piece>, lo: int)
    requires
        sound(b),
        row_wf(row),
        0 <= lo <= b.nodes.len(),
        above(b.anchors, lo),
    ensures
        sound(wire_row(b, row)),
        forward(b.nodes, wire_row(b, row).nodes),
        wire_row(b, row).groups == b.groups,
        above(wire_row(b, row).anchors, lo),
        same_below(b.nodes, wire_row(b, row).nodes, lo),
    decreases row,
{
    if row.len() == 0 {
        lemma_forward_itself(b.nodes);
    } else {
        let init = row.drop_last();
        assert forall|i: int| 0 <= i < init.len() implies piece_wf(#[trigger] init[i]) by {
            assert(init[i] == row[i]);
        }
        assert(piece_wf(row[row.len() - 1]));
        lemma_row_shape(b, init, lo);
        let mid = wire_row(b, init);
        lemma_piece_shape(mid, row.last(), lo);
        let done = wire_row(b, row);
        lemma_forward_chain(b.nodes, mid.nodes, done.nodes);
        assert forall|m: int| 0 <= m < lo implies #[trigger] done.nodes[m] == b.nodes[m] by {
            assert(mid.nodes[m] == b.nodes[m]);
        }
    }
}

/// Alternatives grow the graph forward and change nothing of the open groups
/// but the innermost, which keeps its entry. They leave alone every node
/// below `lo` where the anchors and the innermost group lie from `lo` on.
pub proof fn lemma_alternatives_shape(b: Builder, alternatives: Seq<Seq<Piece>>, lo: int)
    requires
        sound(b),
        alternatives_wf(alternatives),
        0 <= lo <= b.nodes.len(),
        above(b.anchors, lo),
        above(b.groups.last().entry, lo),
        above(b.groups.last().exits, lo),
    ensures
        sound(wire_alternatives(b, alternatives)),
        forward(b.nodes, wire_alternatives(b, alternatives).nodes),
        wire_alternatives(b, alternatives).groups.len() == b.groups.len(),
        wire_alternatives(b, alternatives).groups.drop_last() == b.groups.drop_last(),
        wire_alternatives(b, alternatives).groups.last().entry == b.groups.last().entry,
        above(wire_alternatives(b, alternatives).anchors, lo),
        above(wire_alternatives(b, alternatives).groups.last().exits, lo),
        same_below(b.nodes, wire_alternatives(b, alternatives).nodes, lo),
    decreases alternatives,
{
    assert(row_wf(alternatives[alternatives.len() - 1]));
    if alternatives.len() == 1 {
        lemma_row_shape(b, alternatives[0], lo);
    } else {
        let init = alternatives.drop_last();
        assert forall|i: int| 0 <= i < init.len() implies row_wf(#[trigger] init[i]) by {
            assert(init[i] == alternatives[i]);
        }
        lemma_alternatives_shape(b, init, lo);
        let mid = wire_alternatives(b, init);
        lemma_alternate_sound(mid);
        let next = mid.alternate();
        lemma_row_shape(next, alternatives.last(), lo);
        let done = wire_alternatives(b, alternatives);
        lemma_forward_chain(b.nodes, mid.nodes, done.nodes);
        assert forall|m: int| 0 <= m < lo implies #[trigger] done.nodes[m] == b.nodes[m] by {
            assert(mid.nodes[m] == b.nodes[m]);
        }
    }
}

/// A row that begins with an atom that cannot be left out: the anchors
/// before the row get an edge to the node of that atom, which is the next
/// node, and nothing else changes in the nodes that were there.
pub proof fn lemma_firm_row(b: Builder, row: Seq<Piece>)
    requires
        sound(b),
        row_wf(row),
        begins_firmly(row),
    ensures
        above(wire_row(b, row).anchors, b.nodes.len() as int),
        wire_row(b, row).nodes.len() > b.nodes.len(),
        forall|m: int, t: int|
            0 <= m < b.nodes.len() ==> (#[trigger] wire_row(b, row).nodes[m].edges.contains(t)
                <==> b.nodes[m].edges.contains(t) || (b.anchors.contains(m) && t
                == b.nodes.len())),
    decreases row,
{
    let n = b.nodes.len() as int;
    let init = row.drop_last();
    let done = wire_row(b, row);
    assert(piece_wf(row[row.len() - 1]));
    if row.len() == 1 {
        assert(wire_row(b, init) == b);
        let item = row[0]->Atom_0;
        assert(row.last() == row[0]);
        assert(row[0] == Piece::Atom(item));
        assert(done == wire_piece(wire_row(b, init), row.last()));
        assert(wire_piece(b, row.last()) == b.atom(item.code, item.q));
        lemma_atom_shape(b, item);
    } else {
        assert forall|i: int| 0 <= i < init.len() implies piece_wf(#[trigger] init[i]) by {
            assert(init[i] == row[i]);
        }
        assert(init[0] == row[0]);
        lemma_firm_row(b, init);
        lemma_row_shape(b, init, 0);
        let mid = wire_row(b, init);
        lemma_piece_shape(mid, row.last(), n);
        assert(done == wire_piece(mid, row.last()));
        assert(done.nodes.len() >= mid.nodes.len());
        assert forall|m: int, t: int| 0 <= m < n implies (#[trigger] done.nodes[m].edges.contains(t)
            <==> b.nodes[m].edges.contains(t) || (b.anchors.contains(m) && t == n)) by {
            assert(done.nodes[m] == mid.nodes[m]);
        }
    }
}

/// The alternatives of a group, each beginning with an atom that cannot be
/// left out: the starts of the group and the ways out of it are nodes of the
/// group, and the nodes that were there before the group lead into it from
/// the entry of the group to its starts and in no other way.
pub proof fn lemma_firm_alternatives(b: Builder, alternatives: Seq<Seq<Piece>>)
    requires
        sound(b),
        alternatives_wf(alternatives),
        forall|i: int| 0 <= i < alternatives.len() ==> begins_firmly(#[trigger] alternatives[i]),
        b.anchors == b.groups.last().entry,
        b.groups.last().starts == set![b.nodes.len() as int],
        b.groups.last().exits == Set::<int>::empty(),
    ensures
        above(wire_alternatives(b, alternatives).groups.last().starts, b.nodes.len() as int),
        forall|s: int|
            wire_alternatives(b, alternatives).groups.last().starts.contains(s) ==> s
                < wire_alternatives(b, alternatives).nodes.len(),
        above(ways_out(wire_alternatives(b, alternatives)), b.nodes.len() as int),
        forall|m: int, t: int|
            0 <= m < b.nodes.len() ==> (#[trigger] wire_alternatives(
                b,
                alternatives,
            ).nodes[m].edges.contains(t) <==> b.nodes[m].edges.contains(t) || (b.anchors.contains(
                m,
            ) && wire_alternatives(b, alternatives).groups.last().starts.contains(t))),
    decreases alternatives,
{
    let n0 = b.nodes.len() as int;
    let done = wire_alternatives(b, alternatives);
    let last = alternatives.last();
    assert(row_wf(alternatives[alternatives.len() - 1]));
    assert(begins_firmly(alternatives[alternatives.len() - 1]));
    if alternatives.len() == 1 {
        lemma_firm_row(b, last);
        lemma_row_shape(b, last, 0);
    } else {
        let init = alternatives.drop_last();
        assert forall|i: int| 0 <= i < init.len() implies row_wf(#[trigger] init[i])
            && begins_firmly(init[i]) by {
            assert(init[i] == alternatives[i]);
        }
        lemma_firm_alternatives(b, init);
        lemma_alternatives_shape(b, init, 0);
        let mid = wire_alternatives(b, init);
        lemma_alternate_sound(mid);
        let next = mid.alternate();
        let n = mid.nodes.len() as int;
        assert(next.groups.last().exits =~= ways_out(mid));
        lemma_firm_row(next, last);
        lemma_row_shape(next, last, 0);
        assert(done.groups.last().starts =~= mid.groups.last().starts.insert(n));
        assert forall|m: int, t: int| 0 <= m < n0 implies (#[trigger] done.nodes[m].edges.contains(
            t,
        ) <==> b.nodes[m].edges.contains(t) || (b.anchors.contains(m)
            && done.groups.last().starts.contains(t))) by {
            assert(done.nodes[m].edges.contains(t) <==> mid.nodes[m].edges.contains(t) || (
            next.anchors.contains(m) && t == n));
            assert(mid.nodes[m].edges.contains(t) <==> b.nodes[m].edges.contains(t) || (
            b.anchors.contains(m) && mid.groups.last().starts.contains(t)));
        }
    }
}

/// Some alternative matches when one of all but the last does, or the last.
pub proof fn lemma_alternatives_split(alternatives: Seq<Seq<Piece>>, text: Seq<char>)
    requires
        alternatives.len() >= 1,
    ensures
        alternatives_match(alternatives, text) <==> alternatives_match(
            alternatives.drop_last(),
            text,
        ) || row_matches(alternatives.last(), text),
{
    let init = alternatives.drop_last();
    if alternatives_match(alternatives, text) {
        let i = choose|i: int|
            0 <= i < alternatives.len() && row_matches(#[trigger] alternatives[i], text);
        if i < init.len() {
            assert(init[i] == alternatives[i]);
        }
    }
    if alternatives_match(init, text) {
        let i = choose|i: int| 0 <= i < init.len() && row_matches(#[trigger] init[i], text);
        assert(alternatives[i] == init[i]);
    }
    if row_matches(alternatives.last(), text) {
        assert(alternatives[alternatives.len() - 1] == alternatives.last());
    }
}

/// At the door of a group, with nothing of the group built, the builder is
/// ready after the empty text and after no other.
pub proof fn lemma_door_ready(b: Builder, text: Seq<char>)
    requires
        sound(b),
    ensures
        ready(b, Base { floor: b.nodes.len() as int, origin: b.anchors }, text) <==> text.len()
            == 0,
{
    let base = Base { floor: b.nodes.len() as int, origin: b.anchors };
    if text.len() == 0 {
        let a = choose|a: int| b.anchors.contains(a);
        assert(b.anchors.contains(a) && walk(b.nodes, base.floor, base.origin, text).contains(a));
    } else {
        if ready(b, base, text) {
            let a = choose|a: int|
                #[trigger] b.anchors.contains(a) && walk(
                    b.nodes,
                    base.floor,
                    base.origin,
                    text,
                ).contains(a);
            lemma_walk_above(b.nodes, base.floor, base.origin, text, a);
        }
    }
}

/// After a piece the builder is ready exactly when it was ready after a part
/// of the text and the piece matches the rest.
pub proof fn lemma_piece_language(b: Builder, base: Base, piece: Piece, text: Seq<char>)
    requires
        sound(b),
        fits(base, b),
        piece_wf(piece),
    ensures
        ready(wire_piece(b, piece), base, text) <==> ready_then_piece(b, base, piece, text),
    decreases piece,
{
    let whole = text.len() as int;
    match piece {
        Piece::Atom(item) => {
            lemma_atom_language(b, base, item, text);
            if ready_then_item(b, base, item, text) {
                let k = choose|k: int|
                    0 <= k <= text.len() && ready(b, base, #[trigger] text.take(k))
                        && item.consumes(text.skip(k));
                assert(piece_matches(piece, text.skip(k)));
            }
            if ready_then_piece(b, base, piece, text) {
                let k = choose|k: int|
                    0 <= k <= text.len() && ready(b, base, #[trigger] text.take(k))
                        && piece_matches(piece, text.skip(k));
                assert(item.consumes(text.skip(k)));
            }
        },
        Piece::Group(alternatives, q) => {
            let opened = b.open_group();
            let n0 = b.nodes.len() as int;
            lemma_open_sound(b);
            lemma_alternatives_shape(opened, alternatives, 0);
            let inner = wire_alternatives(opened, alternatives);
            let closed = inner.close_group(q);
            assert(opened.groups.last().exits =~= Set::<int>::empty());
            if q is One {
                lemma_alternatives_language(opened, base, alternatives, text);
                assert(closed.anchors =~= ways_out(inner));
                assert(!live(
                    opened.nodes,
                    base.floor,
                    base.origin,
                    opened.groups.last().exits,
                    text,
                ));
                if ready_then_alternatives(opened, base, alternatives, text) {
                    let k = choose|k: int|
                        0 <= k <= text.len() && ready(opened, base, #[trigger] text.take(k))
                            && alternatives_match(alternatives, text.skip(k));
                    assert(ready(b, base, text.take(k)));
                    assert(piece_matches(piece, text.skip(k)));
                }
                if ready_then_piece(b, base, piece, text) {
                    let k = choose|k: int|
                        0 <= k <= text.len() && ready(b, base, #[trigger] text.take(k))
                            && piece_matches(piece, text.skip(k));
                    assert(ready(opened, base, text.take(k)));
                    assert(alternatives_match(alternatives, text.skip(k)));
                }
            } else {
                lemma_piece_shape(b, piece, 0);
                lemma_firm_alternatives(opened, alternatives);
                assert(inner.groups.last().wf(inner.next_index()));
                let l = Loop {
                    graph: inner.nodes,
                    first: n0,
                    entry: b.anchors,
                    starts: inner.groups.last().starts,
                    exits: ways_out(inner),
                };
                assert(l.wf()) by {
                    assert forall|m: int, t: int| 0 <= m < n0 && n0 <= t implies (
                    #[trigger] inner.nodes[m].edges.contains(t) <==> b.anchors.contains(m)
                        && inner.groups.last().starts.contains(t)) by {
                        assert(!b.nodes[m].edges.contains(t));
                    }
                }
                assert(l.closed() == closed.nodes);
                let inside = Base { floor: n0, origin: b.anchors };
                assert forall|v: Seq<char>| #[trigger]
                    live(l.graph, l.first, l.entry, l.exits, v) <==> alternatives_match(
                        alternatives,
                        v,
                    ) by {
                    lemma_alternatives_language(opened, inside, alternatives, v);
                    assert(!live(opened.nodes, n0, b.anchors, opened.groups.last().exits, v));
                    if ready_then_alternatives(opened, inside, alternatives, v) {
                        let k = choose|k: int|
                            0 <= k <= v.len() && ready(opened, inside, #[trigger] v.take(k))
                                && alternatives_match(alternatives, v.skip(k));
                        lemma_door_ready(b, v.take(k));
                        assert(ready(b, inside, v.take(k)));
                        assert(v.skip(k) =~= v);
                    }
                    if alternatives_match(alternatives, v) {
                        lemma_door_ready(b, v.take(0));
                        assert(ready(opened, inside, v.take(0)));
                        assert(v.skip(0) =~= v);
                    }
                }
                lemma_loop_language(l, base.floor, base.origin, alternatives, text);
                lemma_live_union(
                    closed.nodes,
                    base.floor,
                    base.origin,
                    l.exits,
                    l.entry,
                    text,
                );
                assert(closed.anchors =~= if q.skips() {
                    l.exits + l.entry
                } else {
                    l.exits
                });
                assert(text.take(whole) =~= text);
                assert(text.skip(whole) =~= Seq::<char>::empty());
                if live(closed.nodes, base.floor, base.origin, l.exits, text) {
                    let k = choose|k: int|
                        0 <= k < text.len() && live(
                            closed.nodes,
                            base.floor,
                            base.origin,
                            l.entry,
                            #[trigger] text.take(k),
                        ) && repeats_match(alternatives, text.skip(k));
                    lemma_live_stable(
                        b.nodes,
                        closed.nodes,
                        base.floor,
                        base.origin,
                        b.anchors,
                        text.take(k),
                    );
                    assert(ready(b, base, text.take(k)));
                    assert(piece_matches(piece, text.skip(k)));
                }
                if q.skips() && live(closed.nodes, base.floor, base.origin, l.entry, text) {
                    lemma_live_stable(
                        b.nodes,
                        closed.nodes,
                        base.floor,
                        base.origin,
                        b.anchors,
                        text,
                    );
                    assert(ready(b, base, text.take(whole)));
                    assert(piece_matches(piece, text.skip(whole)));
                }
                if ready_then_piece(b, base, piece, text) {
                    let k = choose|k: int|
                        0 <= k <= text.len() && ready(b, base, #[trigger] text.take(k))
                            && piece_matches(piece, text.skip(k));
                    lemma_live_stable(
                        b.nodes,
                        closed.nodes,
                        base.floor,
                        base.origin,
                        b.anchors,
                        text.take(k),
                    );
                    assert(live(closed.nodes, base.floor, base.origin, l.entry, text.take(k)));
                    if k == whole {
                        assert(q.skips());
                    } else {
                        assert(repeats_match(alternatives, text.skip(k)));
                    }
                }
            }
        },
    }
}

/// After a row the builder is ready exactly when it was ready after a part
/// of the text and the row matches the rest.
pub proof fn lemma_row_language(b: Builder, base: Base, row: Seq<Piece>, text: Seq<char>)
    requires
        sound(b),
        fits(base, b),
        row_wf(row),
    ensures
        ready(wire_row(b, row), base, text) <==> ready_then_row(b, base, row, text),
    decreases row,
{
    let whole = text.len() as int;
    if row.len() == 0 {
        assert(text.take(whole) =~= text);
        assert(text.skip(whole) =~= Seq::<char>::empty());
        if ready(b, base, text) {
            assert(ready(b, base, text.take(whole)));
            assert(row_matches(row, text.skip(whole)));
        }
        if ready_then_row(b, base, row, text) {
            let k = choose|k: int|
                0 <= k <= text.len() && ready(b, base, #[trigger] text.take(k)) && row_matches(
                    row,
                    text.skip(k),
                );
            assert(text.skip(k).len() == 0);
            assert(text.take(k) =~= text);
        }
    } else {
        let init = row.drop_last();
        let last = row.last();
        assert forall|i: int| 0 <= i < init.len() implies piece_wf(#[trigger] init[i]) by {
            assert(init[i] == row[i]);
        }
        assert(piece_wf(row[row.len() - 1]));
        lemma_row_shape(b, init, 0);
        let mid = wire_row(b, init);
        lemma_piece_language(mid, base, last, text);
        if ready(wire_row(b, row), base, text) {
            let k = choose|k: int|
                0 <= k <= text.len() && ready(mid, base, #[trigger] text.take(k))
                    && piece_matches(last, text.skip(k));
            let head = text.take(k);
            lemma_row_language(b, base, init, head);
            let m = choose|m: int|
                0 <= m <= head.len() && ready(b, base, #[trigger] head.take(m)) && row_matches(
                    init,
                    head.skip(m),
                );
            let rest = text.skip(m);
            assert(text.take(m) =~= head.take(m));
            assert(rest.take(k - m) =~= head.skip(m));
            assert(rest.skip(k - m) =~= text.skip(k));
            assert(row_matches(init, rest.take(k - m)));
            assert(row_matches(row, rest));
            assert(ready(b, base, text.take(m)));
        }
        if ready_then_row(b, base, row, text) {
            let m = choose|m: int|
                0 <= m <= text.len() && ready(b, base, #[trigger] text.take(m)) && row_matches(
                    row,
                    text.skip(m),
                );
            let rest = text.skip(m);
            let d = choose|d: int|
                0 <= d <= rest.len() && row_matches(init, #[trigger] rest.take(d))
                    && piece_matches(last, rest.skip(d));
            let k = m + d;
            let head = text.take(k);
            assert(head.take(m) =~= text.take(m));
            assert(head.skip(m) =~= rest.take(d));
            assert(text.skip(k) =~= rest.skip(d));
            lemma_row_language(b, base, init, head);
            assert(ready(b, base, head.take(m)));
            assert(ready_then_row(b, base, init, head));
            assert(ready(mid, base, text.take(k)));
            assert(ready_then_piece(mid, base, last, text));
        }
    }
}

/// After some alternatives a way out of the group is live exactly when an
/// exit of the group was live before, or the group was entered after a part
/// of the text and one of the alternatives matches the rest.
pub proof fn lemma_alternatives_language(
    b: Builder,
    base: Base,
    alternatives: Seq<Seq<Piece>>,
    text: Seq<char>,
)
    requires
        sound(b),
        fits(base, b),
        alternatives_wf(alternatives),
        b.anchors == b.groups.last().entry,
    ensures
        live(
            wire_alternatives(b, alternatives).nodes,
            base.floor,
            base.origin,
            ways_out(wire_alternatives(b, alternatives)),
            text,
        ) <==> live(b.nodes, base.floor, base.origin, b.groups.last().exits, text)
            || ready_then_alternatives(b, base, alternatives, text),
    decreases alternatives,
{
    let done = wire_alternatives(b, alternatives);
    let last = alternatives.last();
    let floor = base.floor;
    let origin = base.origin;
    assert(row_wf(alternatives[alternatives.len() - 1]));
    assert(b.groups.last().wf(b.next_index()));
    if alternatives.len() == 1 {
        lemma_row_shape(b, last, 0);
        lemma_row_language(b, base, last, text);
        lemma_live_union(done.nodes, floor, origin, done.groups.last().exits, done.anchors, text);
        lemma_live_stable(b.nodes, done.nodes, floor, origin, b.groups.last().exits, text);
        if ready_then_row(b, base, last, text) {
            let k = choose|k: int|
                0 <= k <= text.len() && ready(b, base, #[trigger] text.take(k)) && row_matches(
                    last,
                    text.skip(k),
                );
            assert(alternatives_match(alternatives, text.skip(k)));
        }
        if ready_then_alternatives(b, base, alternatives, text) {
            let k = choose|k: int|
                0 <= k <= text.len() && ready(b, base, #[trigger] text.take(k))
                    && alternatives_match(alternatives, text.skip(k));
            lemma_alternatives_split(alternatives, text.skip(k));
            assert(!alternatives_match(alternatives.drop_last(), text.skip(k)));
            assert(row_matches(last, text.skip(k)));
        }
    } else {
        let init = alternatives.drop_last();
        assert forall|i: int| 0 <= i < init.len() implies row_wf(#[trigger] init[i]) by {
            assert(init[i] == alternatives[i]);
        }
        lemma_alternatives_shape(b, init, 0);
        lemma_alternatives_language(b, base, init, text);
        let mid = wire_alternatives(b, init);
        lemma_alternate_sound(mid);
        let next = mid.alternate();
        assert(mid.groups.last().wf(mid.next_index()));
        assert(next.groups.last().wf(next.next_index()));
        assert(next.groups.last().exits =~= ways_out(mid));
        lemma_row_shape(next, last, 0);
        lemma_row_language(next, base, last, text);
        lemma_live_union(done.nodes, floor, origin, done.groups.last().exits, done.anchors, text);
        lemma_live_stable(next.nodes, done.nodes, floor, origin, next.groups.last().exits, text);
        if ready_then_row(next, base, last, text) {
            let k = choose|k: int|
                0 <= k <= text.len() && ready(next, base, #[trigger] text.take(k))
                    && row_matches(last, text.skip(k));
            lemma_live_stable(b.nodes, mid.nodes, floor, origin, b.anchors, text.take(k));
            lemma_alternatives_split(alternatives, text.skip(k));
            assert(ready(b, base, text.take(k)));
            assert(ready_then_alternatives(b, base, alternatives, text));
        }
        if ready_then_alternatives(b, base, init, text) {
            let k = choose|k: int|
                0 <= k <= text.len() && ready(b, base, #[trigger] text.take(k))
                    && alternatives_match(init, text.skip(k));
            lemma_alternatives_split(alternatives, text.skip(k));
            assert(ready_then_alternatives(b, base, alternatives, text));
        }
        if ready_then_alternatives(b, base, alternatives, text) {
            let k = choose|k: int|
                0 <= k <= text.len() && ready(b, base, #[trigger] text.take(k))
                    && alternatives_match(alternatives, text.skip(k));
            lemma_alternatives_split(alternatives, text.skip(k));
            if row_matches(last, text.skip(k)) {
                lemma_live_stable(b.nodes, mid.nodes, floor, origin, b.anchors, text.take(k));
                assert(ready(next, base, text.take(k)));
                assert(ready_then_row(next, base, last, text));
            } else {
                assert(ready_then_alternatives(b, base, init, text));
            }
        }
    }
}

/// Walks from the entry sentinel that may enter every node.
pub open spec fn whole_graph() -> Base {
    Base { floor: 0, origin: set![0int] }
}

/// Before the first character the builder is sound, and it is ready after
/// the empty text and after no other.
pub proof fn lemma_start_ready(text: Seq<char>)
    ensures
        sound(Builder::start()),
        fits(whole_graph(), Builder::start()),
        ready(Builder::start(), whole_graph(), text) <==> text.len() == 0,
{
    let start = Builder::start();
    lemma_start_wf();
    assert(start.anchors.contains(0));
    assert(start.groups[0].entry.contains(0));
    if text.len() > 0 {
        if ready(start, whole_graph(), text) {
            let a = choose|a: int|
                #[trigger] start.anchors.contains(a) && walk(
                    start.nodes,
                    0,
                    set![0int],
                    text,
                ).contains(a);
            let from = choose|from: int|
                walk(start.nodes, 0, set![0int], text.drop_last()).contains(from) && moves(
                    start.nodes,
                    from,
                    text.last(),
                    a,
                );
        }
    }
}

/// The graph that ends a compilation accepts a text exactly when, before the
/// accepting sentinel was added, a way out of the outermost group was live
/// after the text.
pub proof fn lemma_finish_language(b: Builder, text: Seq<char>)
    requires
        sound(b),
    ensures
        accepts(b.finish().nodes, text) <==> live(b.nodes, 0, set![0int], ways_out(b), text),
{
    let graph = b.finish().nodes;
    let n = b.nodes.len() as int;
    let out = b.anchors + b.groups.last().exits;
    assert(out =~= ways_out(b));
    assert(b.groups.last().wf(b.next_index()));
    assert forall|m: int, t: int| 0 <= m < n && t < n implies (#[trigger] graph[m].edges.contains(
        t,
    ) <==> b.nodes[m].edges.contains(t)) by {}
    assert(forward(b.nodes, graph));
    lemma_accepts_is_accepting(graph, text);
    lemma_walk_is_reach(graph, text);
    lemma_live_stable(b.nodes, graph, 0, set![0int], ways_out(b), text);
    if accepting(graph, reach(graph, text)) {
        let from = choose|from: int|
            reach(graph, text).contains(from) && #[trigger] leads_to_match(graph, from);
        let to = choose|to: int| edge(graph, from, to) && (#[trigger] graph[to]).kind is Match;
        if to < n {
            assert(graph[to].kind == b.nodes[to].kind);
            if to >= 1 {
                assert(b.nodes[to].kind is Literal);
            }
        }
        assert(to == n);
        if !out.contains(from) {
            assert(b.nodes[from].edges.contains(n));
        }
        assert(ways_out(b).contains(from));
    }
    if live(graph, 0, set![0int], ways_out(b), text) {
        let a = choose|a: int|
            #[trigger] ways_out(b).contains(a) && walk(graph, 0, set![0int], text).contains(a);
        assert(out.contains(a));
        assert(edge(graph, a, n));
        assert(graph[n].kind is Match);
        assert(leads_to_match(graph, a));
    }
}

/// A pattern matches exactly the strings that it matches when read as a
/// tree: where the pattern spells `alternatives` and these are well formed,
/// the pattern compiles, and its graph accepts a text exactly when one of
/// the alternatives matches the whole of the text.
pub proof fn lemma_pattern_language(
    pattern: Seq<char>,
    alternatives: Seq<Seq<Piece>>,
    text: Seq<char>,
)
    requires
        reads_as(pattern, alternatives),
        alternatives_wf(alternatives),
    ensures
        is_match_spec(text, pattern) == Ok::<bool, CompileError>(
            alternatives_match(alternatives, text),
        ),
{
    let start = Builder::start();
    let base = whole_graph();
    lemma_start_ready(text);
    lemma_run_alternatives(start, pattern, 0, alternatives);
    let done = wire_alternatives(start, alternatives);
    assert(start.anchors =~= start.groups.last().entry);
    assert(start.groups.last().exits =~= Set::<int>::empty());
    lemma_alternatives_shape(start, alternatives, 0);
    assert(run(done, pattern, pattern.len() as int) == Ok::<Builder, CompileError>(done.finish()));
    assert(compile_spec(pattern) == Ok::<Seq<Node>, CompileError>(done.finish().nodes));
    lemma_alternatives_language(start, base, alternatives, text);
    lemma_finish_language(done, text);
    assert(!live(start.nodes, 0, set![0int], start.groups.last().exits, text));
    if ready_then_alternatives(start, base, alternatives, text) {
        let k = choose|k: int|
            0 <= k <= text.len() && ready(start, base, #[trigger] text.take(k))
                && alternatives_match(alternatives, text.skip(k));
        lemma_start_ready(text.take(k));
        assert(k == 0);
        assert(text.skip(0) =~= text);
    }
    if alternatives_match(alternatives, text) {
        assert(text.take(0) =~= Seq::<char>::empty());
        assert(text.skip(0) =~= text);
        lemma_start_ready(text.take(0));
        assert(ready(start, base, text.take(0)));
    }
}

} // verus!
