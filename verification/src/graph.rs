//! The state graph: nodes with a match condition and outgoing edges.
//!
//! A graph is an arena of [`State`]s addressed by their index. Edges are plain
//! indices, so loops and back edges need no special care. A state lists its
//! targets in the order in which they were added, each once. It has two
//! models: a [`Cell`], its [`Kind`] and the *list* of its targets, and a
//! [`Node`], its kind and the *set* that the list holds.

use std::collections::VecDeque;
use vstd::prelude::*;

verus! {

/// The code of a literal node that admits every character. No character has
/// this code: it lies above the last scalar value.
pub const WILDCARD: u32 = 0x11_0000;

/// The code under which a character is compared: its scalar value.
pub open spec fn char_code(c: char) -> u32 {
    c as u32
}

/// Computes [`char_code`].
pub fn code_of(c: char) -> (code: u32)
    ensures
        code == char_code(c),
{
    c as u32
}

/// No character has the code of the wildcard, and no two characters have the
/// same code.
pub proof fn lemma_char_code(c: char, d: char)
    ensures
        char_code(c) != WILDCARD,
        char_code(c) == char_code(d) ==> c == d,
{
    assert(c as u32 <= 0x10_FFFF);
    if c as u32 == d as u32 {
        assert((c as u32) as char == c);
        assert((d as u32) as char == d);
    }
}

/// The match condition of a state.
#[non_exhaustive]
#[derive(Clone, Debug)]
pub enum Type {
    /// One character code, or [`WILDCARD`].
    Literal(u32),
    /// Any of the listed character codes. No pattern compiles to this.
    LiteralClass(Vec<u32>),
    /// The entry sentinel.
    Begin,
    /// The accepting sentinel.
    Match,
}

/// The model of a [`Type`].
pub enum Kind {
    Literal(u32),
    LiteralClass(Seq<u32>),
    Begin,
    Match,
}

impl View for Type {
    type V = Kind;

    open spec fn view(&self) -> Kind {
        match self {
            Type::Literal(code) => Kind::Literal(*code),
            Type::LiteralClass(codes) => Kind::LiteralClass(codes@),
            Type::Begin => Kind::Begin,
            Type::Match => Kind::Match,
        }
    }
}

impl Kind {
    /// Whether a node of this kind consumes a character with the given code.
    /// The sentinels consume nothing.
    pub open spec fn admits(self, code: u32) -> bool {
        match self {
            Kind::Literal(own) => own == WILDCARD || own == code,
            Kind::LiteralClass(codes) => codes.contains(code),
            Kind::Begin => false,
            Kind::Match => false,
        }
    }
}

/// The model of a [`State`]: what it matches and where it leads.
#[verifier::ext_equal]
pub struct Node {
    pub kind: Kind,
    pub edges: Set<int>,
}

/// The set of indices that a list holds.
pub open spec fn index_set(list: Seq<usize>) -> Set<int> {
    Set::new(|i: int| exists|k: int| 0 <= k < list.len() && (#[trigger] list[k]) as int == i)
}

/// The set of a list holds what the list holds.
pub proof fn lemma_index_set_contains(list: Seq<usize>, x: usize)
    ensures
        index_set(list).contains(x as int) <==> list.contains(x),
{
    if list.contains(x) {
        let k = choose|k: int| 0 <= k < list.len() && list[k] == x;
        assert(list[k] as int == x as int);
    }
}

/// The empty list holds nothing.
pub proof fn lemma_index_set_empty()
    ensures
        index_set(Seq::<usize>::empty()) == Set::<int>::empty(),
{
    assert(index_set(Seq::<usize>::empty()) =~= Set::<int>::empty());
}

/// A list with one more index holds that index and what it held.
pub proof fn lemma_index_set_push(list: Seq<usize>, x: usize)
    ensures
        index_set(list.push(x)) == index_set(list).insert(x as int),
{
    let grown = list.push(x);
    assert forall|i: int| index_set(grown).contains(i) <==> index_set(list).insert(
        x as int,
    ).contains(i) by {
        if index_set(grown).contains(i) {
            let k = choose|k: int| 0 <= k < grown.len() && grown[k] as int == i;
            if k < list.len() {
                assert(list[k] as int == i);
            }
        }
        if index_set(list).contains(i) {
            let k = choose|k: int| 0 <= k < list.len() && list[k] as int == i;
            assert(grown[k] as int == i);
        }
        if i == x as int {
            assert(grown[list.len() as int] as int == i);
        }
    }
    assert(index_set(grown) =~= index_set(list).insert(x as int));
}

/// One more index from the front of a list adds that index to the set.
pub proof fn lemma_index_set_take(list: Seq<usize>, k: int)
    requires
        0 <= k < list.len(),
    ensures
        index_set(list.take(k + 1)) == index_set(list.take(k)).insert(list[k] as int),
{
    assert(list.take(k + 1) =~= list.take(k).push(list[k]));
    lemma_index_set_push(list.take(k), list[k]);
}

/// One more index from the back of a list adds that index to the set.
pub proof fn lemma_index_set_skip(list: Seq<usize>, k: int)
    requires
        0 <= k < list.len(),
    ensures
        index_set(list.skip(k)) == index_set(list.skip(k + 1)).insert(list[k] as int),
{
    let more = list.skip(k);
    let fewer = list.skip(k + 1);
    assert forall|n: int| index_set(more).contains(n) <==> index_set(fewer).insert(
        list[k] as int,
    ).contains(n) by {
        if index_set(more).contains(n) {
            let j = choose|j: int| 0 <= j < more.len() && (#[trigger] more[j]) as int == n;
            if j > 0 {
                assert(fewer[j - 1] as int == n);
            }
        }
        if index_set(fewer).contains(n) {
            let j = choose|j: int| 0 <= j < fewer.len() && (#[trigger] fewer[j]) as int == n;
            assert(more[j + 1] as int == n);
        }
        if n == list[k] as int {
            assert(more[0] as int == n);
        }
    }
    assert(index_set(more) =~= index_set(fewer).insert(list[k] as int));
}

/// A list of one index holds that index alone.
pub proof fn lemma_index_set_single(x: usize)
    ensures
        index_set(seq![x]) == set![x as int],
{
    lemma_index_set_empty();
    lemma_index_set_push(Seq::<usize>::empty(), x);
    assert(seq![x] =~= Seq::<usize>::empty().push(x));
    assert(Set::<int>::empty().insert(x as int) =~= set![x as int]);
}

/// The list with the index at its end, unless the list holds it already.
pub open spec fn joined(list: Seq<usize>, x: usize) -> Seq<usize> {
    if list.contains(x) {
        list
    } else {
        list.push(x)
    }
}

/// The list with each index of `more` joined to it, in the order of `more`.
pub open spec fn merged(list: Seq<usize>, more: Seq<usize>) -> Seq<usize>
    decreases more.len(),
{
    if more.len() == 0 {
        list
    } else {
        joined(merged(list, more.drop_last()), more.last())
    }
}

/// Joining one index is merging a list of one.
pub proof fn lemma_merged_one(list: Seq<usize>, x: usize)
    ensures
        merged(list, seq![x]) == joined(list, x),
        joined(joined(list, x), x) == joined(list, x),
{
    reveal_with_fuel(merged, 2);
    assert(seq![x].drop_last() =~= Seq::<usize>::empty());
    if !list.contains(x) {
        assert(list.push(x)[list.len() as int] == x);
    }
}

/// A merged list begins with the list it was merged into, holds what both
/// lists hold, and lists nothing twice if that list did not.
pub proof fn lemma_merged(list: Seq<usize>, more: Seq<usize>)
    ensures
        list.is_prefix_of(merged(list, more)),
        index_set(merged(list, more)) == index_set(list) + index_set(more),
        list.no_duplicates() ==> merged(list, more).no_duplicates(),
    decreases more.len(),
{
    if more.len() == 0 {
        lemma_index_set_empty();
        assert(more =~= Seq::<usize>::empty());
        assert(index_set(list) =~= index_set(list) + index_set(more));
    } else {
        let init = merged(list, more.drop_last());
        let x = more.last();
        lemma_merged(list, more.drop_last());
        lemma_index_set_contains(init, x);
        lemma_index_set_push(init, x);
        lemma_index_set_push(more.drop_last(), x);
        assert(more.drop_last().push(x) =~= more);
        assert(index_set(merged(list, more)) =~= index_set(list) + index_set(more));
    }
}

/// Whether the list holds the index.
pub fn contains_index(list: &Vec<usize>, x: usize) -> (found: bool)
    ensures
        found == list@.contains(x),
        found == index_set(list@).contains(x as int),
{
    let mut k: usize = 0;
    while k < list.len()
        invariant
            k <= list.len(),
            forall|j: int| 0 <= j < k ==> list@[j] != x,
        decreases list.len() - k,
    {
        if list[k] == x {
            proof {
                lemma_index_set_contains(list@, x);
            }
            return true;
        }
        k += 1;
    }
    proof {
        lemma_index_set_contains(list@, x);
    }
    false
}

/// Appends the index unless the list holds it already.
pub fn insert_index(list: &mut Vec<usize>, x: usize)
    ensures
        final(list)@ == if old(list)@.contains(x) {
            old(list)@
        } else {
            old(list)@.push(x)
        },
        index_set(final(list)@) == index_set(old(list)@).insert(x as int),
        old(list)@.no_duplicates() ==> final(list)@.no_duplicates(),
{
    proof {
        lemma_index_set_contains(list@, x);
        lemma_index_set_push(list@, x);
    }
    if !contains_index(list, x) {
        list.push(x);
    } else {
        assert(index_set(list@) =~= index_set(list@).insert(x as int));
    }
}

/// Adds every index of `more` to `list`, skipping those already there.
pub fn insert_indices(list: &mut Vec<usize>, more: &Vec<usize>)
    ensures
        final(list)@ == merged(old(list)@, more@),
        index_set(final(list)@) == index_set(old(list)@) + index_set(more@),
        old(list)@.no_duplicates() ==> final(list)@.no_duplicates(),
{
    let mut k: usize = 0;
    proof {
        assert(more@.take(0) =~= Seq::<usize>::empty());
    }
    while k < more.len()
        invariant
            k <= more.len(),
            list@ == merged(old(list)@, more@.take(k as int)),
        decreases more.len() - k,
    {
        proof {
            assert(more@.take(k + 1).drop_last() =~= more@.take(k as int));
            assert(more@.take(k + 1).last() == more@[k as int]);
        }
        insert_index(list, more[k]);
        k += 1;
    }
    proof {
        assert(more@.take(more.len() as int) =~= more@);
        lemma_merged(old(list)@, more@);
    }
}

/// The indices of a queue, as a list.
pub fn list_of(queue: &VecDeque<usize>) -> (list: Vec<usize>)
    ensures
        list@ == queue@,
{
    let mut list: Vec<usize> = Vec::new();
    let mut k: usize = 0;
    while k < queue.len()
        invariant
            k <= queue.len(),
            list@ == queue@.take(k as int),
        decreases queue.len() - k,
    {
        list.push(queue[k]);
        assert(queue@.take(k + 1) =~= queue@.take(k as int).push(queue@[k as int]));
        k += 1;
    }
    assert(queue@.take(queue.len() as int) =~= queue@);
    list
}

/// The indices of a list, as a queue.
pub fn queue_of(list: &Vec<usize>) -> (queue: VecDeque<usize>)
    ensures
        queue@ == list@,
{
    let mut queue: VecDeque<usize> = VecDeque::new();
    let mut k: usize = 0;
    while k < list.len()
        invariant
            k <= list.len(),
            queue@ == list@.take(k as int),
        decreases list.len() - k,
    {
        queue.push_back(list[k]);
        assert(list@.take(k + 1) =~= list@.take(k as int).push(list@[k as int]));
        k += 1;
    }
    assert(list@.take(list.len() as int) =~= list@);
    queue
}

/// One node of the graph.
#[derive(Clone, Debug)]
pub struct State {
    /// The index of the state in its graph.
    pub id: usize,
    /// What the state matches.
    pub t: Type,
    /// The indices of the states that may follow this one, each listed once.
    pub transitions: Vec<usize>,
}

impl View for State {
    type V = Node;

    open spec fn view(&self) -> Node {
        Node { kind: self.t@, edges: index_set(self.transitions@) }
    }
}

impl State {
    /// No target is listed twice.
    pub open spec fn wf(&self) -> bool {
        self.transitions@.no_duplicates()
    }

/// A state with the given index, condition and targets.
    pub fn new(id: usize, kind: Type, transitions: Vec<usize>) -> (state: State)
        ensures
            state.id == id,
            state.t == kind,
            state.transitions == transitions,
    {
        State { id, t: kind, transitions }
    }

    /// Adds an edge to the state at `ptr`. An edge that is already there is
    /// not added again.
    pub fn push_to_transitions(&mut self, ptr: usize)
        ensures
            final(self).id == old(self).id,
            final(self).t == old(self).t,
            final(self).transitions@ == if old(self).transitions@.contains(ptr) {
                old(self).transitions@
            } else {
                old(self).transitions@.push(ptr)
            },
            final(self)@.kind == old(self)@.kind,
            final(self)@.edges == old(self)@.edges.insert(ptr as int),
            old(self).wf() ==> final(self).wf(),
    {
        insert_index(&mut self.transitions, ptr);
    }
}

/// The model of a list of states: the nodes in the same order.
pub open spec fn graph_of(states: Seq<State>) -> Seq<Node> {
    Seq::new(states.len(), |i: int| states[i]@)
}

/// Every state is well formed and knows its own index.
pub open spec fn states_wf(states: Seq<State>) -> bool {
    forall|i: int| 0 <= i < states.len() ==> (#[trigger] states[i]).wf() && states[i].id == i
}

/// The graph in which every node of `from` has gained an edge to every index
/// of `to`. Kinds and the number of nodes stay as they are.
pub open spec fn link(nodes: Seq<Node>, from: Set<int>, to: Set<int>) -> Seq<Node> {
    Seq::new(
        nodes.len(),
        |i: int|
            if from.contains(i) {
                Node { kind: nodes[i].kind, edges: nodes[i].edges + to }
            } else {
                nodes[i]
            },
    )
}

/// Edges to the same targets from two sets of nodes, one after the other, are
/// edges from both sets at once.
pub proof fn lemma_link_twice(nodes: Seq<Node>, first: Set<int>, second: Set<int>, to: Set<int>)
    ensures
        link(link(nodes, first, to), second, to) == link(nodes, first + second, to),
{
    assert(link(link(nodes, first, to), second, to) =~~= link(nodes, first + second, to));
}

/// The set of a list holds each index of the list.
pub proof fn lemma_index_set_member(list: Seq<usize>, k: int)
    requires
        0 <= k < list.len(),
    ensures
        index_set(list).contains(list[k] as int),
{
}

/// `later` is `earlier` grown: it has the nodes of `earlier` at the same
/// indices with the same kinds, and every edge of `earlier`.
pub open spec fn extends(later: Seq<Node>, earlier: Seq<Node>) -> bool {
    &&& earlier.len() <= later.len()
    &&& forall|i: int|
        0 <= i < earlier.len() ==> (#[trigger] later[i]).kind == earlier[i].kind
            && earlier[i].edges.subset_of(later[i].edges)
}

/// A state as its kind and the list of its targets, in their order.
#[verifier::ext_equal]
pub struct Cell {
    pub kind: Kind,
    pub edges: Seq<usize>,
}

/// The states as cells.
pub open spec fn cells_of(states: Seq<State>) -> Seq<Cell> {
    Seq::new(states.len(), |i: int| Cell { kind: states[i].t@, edges: states[i].transitions@ })
}

/// The cells in which each of `from` has the indices of `to` merged into its
/// targets. The other cells stay as they are.
pub open spec fn wired(cells: Seq<Cell>, from: Seq<usize>, to: Seq<usize>) -> Seq<Cell> {
    Seq::new(
        cells.len(),
        |i: int|
            if from.contains(i as usize) {
                Cell { kind: cells[i].kind, edges: merged(cells[i].edges, to) }
            } else {
                cells[i]
            },
    )
}

/// Every cell of `earlier` is there in `later`, with the same kind and with
/// a list of targets that begins with the list it had.
pub open spec fn lists_kept(earlier: Seq<Cell>, later: Seq<Cell>) -> bool {
    &&& earlier.len() <= later.len()
    &&& forall|i: int|
        0 <= i < earlier.len() ==> (#[trigger] later[i]).kind == earlier[i].kind
            && earlier[i].edges.is_prefix_of(later[i].edges)
}

/// Wiring keeps the lists.
pub proof fn lemma_wired_keeps(cells: Seq<Cell>, from: Seq<usize>, to: Seq<usize>)
    ensures
        lists_kept(cells, wired(cells, from, to)),
{
    assert forall|i: int| 0 <= i < cells.len() implies (#[trigger] wired(cells, from, to)[i]).kind
        == cells[i].kind && cells[i].edges.is_prefix_of(wired(cells, from, to)[i].edges) by {
        lemma_merged(cells[i].edges, to);
    }
}

/// Lists kept twice are kept.
pub proof fn lemma_lists_kept_chain(first: Seq<Cell>, second: Seq<Cell>, third: Seq<Cell>)
    requires
        lists_kept(first, second),
        lists_kept(second, third),
    ensures
        lists_kept(first, third),
{
    assert forall|i: int| 0 <= i < first.len() implies (#[trigger] third[i]).kind == first[i].kind
        && first[i].edges.is_prefix_of(third[i].edges) by {
        assert(second[i].kind == first[i].kind);
        assert(first[i].edges.is_prefix_of(second[i].edges));
        assert(second[i].edges.is_prefix_of(third[i].edges));
    }
}

/// Connects every state listed in `from` to the index `to`.
pub fn connect_all(states: &mut Vec<State>, from: &Vec<usize>, to: usize)
    requires
        forall|k: int| 0 <= k < from.len() ==> from[k] < old(states).len(),
        states_wf(old(states)@),
    ensures
        final(states).len() == old(states).len(),
        states_wf(final(states)@),
        graph_of(final(states)@) == link(
            graph_of(old(states)@),
            index_set(from@),
            set![to as int],
        ),
        cells_of(final(states)@) == wired(cells_of(old(states)@), from@, seq![to]),
{
    let mut k: usize = 0;
    proof {
        lemma_index_set_empty();
        assert(from@.take(0) =~= Seq::<usize>::empty());
        assert(cells_of(states@) =~= wired(cells_of(old(states)@), from@.take(0), seq![to]));
        assert(graph_of(states@) =~~= link(
            graph_of(old(states)@),
            index_set(from@.take(0)),
            set![to as int],
        ));
    }
    while k < from.len()
        invariant
            k <= from.len(),
            states.len() == old(states).len(),
            forall|j: int| 0 <= j < from.len() ==> from[j] < states.len(),
            states_wf(states@),
            graph_of(states@) == link(
                graph_of(old(states)@),
                index_set(from@.take(k as int)),
                set![to as int],
            ),
            cells_of(states@) == wired(cells_of(old(states)@), from@.take(k as int), seq![to]),
        decreases from.len() - k,
    {
        let source = from[k];
        let ghost before = states@;
        states[source].push_to_transitions(to);
        proof {
            lemma_index_set_take(from@, k as int);
            let sooner = from@.take(k as int);
            let later = from@.take(k + 1);
            assert(later =~= sooner.push(source));
            assert forall|i: int| 0 <= i < states.len() implies #[trigger] cells_of(states@)[i]
                == wired(cells_of(old(states)@), later, seq![to])[i] by {
                let was = cells_of(old(states)@)[i].edges;
                lemma_merged_one(was, to);
                assert(cells_of(before)[i] == wired(cells_of(old(states)@), sooner, seq![to])[i]);
                if i == source as int {
                    assert(later[k as int] == source);
                    assert(later.contains(i as usize));
                } else {
                    assert(states@[i] == before[i]);
                    if later.contains(i as usize) {
                        let j = choose|j: int| 0 <= j < later.len() && later[j] == i as usize;
                        assert(sooner[j] == i as usize);
                    }
                    if sooner.contains(i as usize) {
                        let j = choose|j: int| 0 <= j < sooner.len() && sooner[j] == i as usize;
                        assert(later[j] == i as usize);
                    }
                }
            }
            assert(cells_of(states@) =~= wired(cells_of(old(states)@), later, seq![to]));
            let target = link(
                graph_of(old(states)@),
                index_set(from@.take(k + 1)),
                set![to as int],
            );
            assert(states@ == before.update(source as int, states@[source as int]));
            assert forall|i: int| 0 <= i < states.len() implies graph_of(states@)[i]
                =~= target[i] by {
                assert(graph_of(before)[i] == before[i]@);
                if i == source as int {
                    assert(index_set(from@.take(k + 1)).contains(i));
                } else {
                    assert(states@[i] == before[i]);
                }
            }
            assert(graph_of(states@) =~~= link(
                graph_of(old(states)@),
                index_set(from@.take(k + 1)),
                set![to as int],
            ));
        }
        k += 1;
    }
    assert(from@.take(from.len() as int) =~= from@);
}

/// Connects every state listed in `from` to every index listed in `to`.
pub fn connect_each(states: &mut Vec<State>, from: &Vec<usize>, to: &Vec<usize>)
    requires
        forall|k: int| 0 <= k < from.len() ==> from[k] < old(states).len(),
        states_wf(old(states)@),
    ensures
        final(states).len() == old(states).len(),
        states_wf(final(states)@),
        graph_of(final(states)@) == link(
            graph_of(old(states)@),
            index_set(from@),
            index_set(to@),
        ),
        cells_of(final(states)@) == wired(cells_of(old(states)@), from@, to@),
{
    let mut k: usize = 0;
    proof {
        lemma_index_set_empty();
        assert(to@.take(0) =~= Seq::<usize>::empty());
        assert(cells_of(states@) =~= wired(cells_of(old(states)@), from@, to@.take(0)));
        assert(graph_of(states@) =~~= link(
            graph_of(old(states)@),
            index_set(from@),
            index_set(to@.take(0)),
        ));
    }
    while k < to.len()
        invariant
            k <= to.len(),
            states.len() == old(states).len(),
            forall|j: int| 0 <= j < from.len() ==> from[j] < states.len(),
            states_wf(states@),
            graph_of(states@) == link(
                graph_of(old(states)@),
                index_set(from@),
                index_set(to@.take(k as int)),
            ),
            cells_of(states@) == wired(cells_of(old(states)@), from@, to@.take(k as int)),
        decreases to.len() - k,
    {
        let ghost before = cells_of(states@);
        connect_all(states, from, to[k]);
        proof {
            lemma_index_set_take(to@, k as int);
            assert(to@.take(k + 1).drop_last() =~= to@.take(k as int));
            assert(to@.take(k + 1).last() == to@[k as int]);
            assert forall|i: int| 0 <= i < states.len() implies #[trigger] cells_of(states@)[i]
                == wired(cells_of(old(states)@), from@, to@.take(k + 1))[i] by {
                lemma_merged_one(before[i].edges, to@[k as int]);
                assert(cells_of(states@)[i] == wired(before, from@, seq![to@[k as int]])[i]);
                assert(before[i] == wired(cells_of(old(states)@), from@, to@.take(k as int))[i]);
            }
            assert(cells_of(states@) =~= wired(cells_of(old(states)@), from@, to@.take(k + 1)));
            assert(graph_of(states@) =~~= link(
                graph_of(old(states)@),
                index_set(from@),
                index_set(to@.take(k + 1)),
            ));
        }
        k += 1;
    }
    assert(to@.take(to.len() as int) =~= to@);
}

} // verus!
