//! The pattern compiler.
//!
//! A [`Regex`] is built in one pass over the pattern. While it is built it
//! holds, beside the states, the cursor of the compilation; each method below
//! performs one step of [`crate::layout`] on it, and with it one step of
//! [`crate::builder`].

use std::collections::VecDeque;
use vstd::prelude::*;
use crate::builder::{
    atom_quantifier, compile_spec, compiled, group_quantifier, lemma_alternate_wf, lemma_atom_wf,
    lemma_close_group_wf, lemma_finish_compiled, lemma_link_wf, lemma_open_group_wf,
    lemma_quantify_wf, lemma_start_wf, run, step, Builder, Group, Quantifier,
};
use crate::error::CompileError;
use crate::faults::{fault, lemma_compile_fails_on_first_fault};
use crate::graph::{
    cells_of, code_of, connect_all, connect_each, extends, graph_of, index_set, insert_index,
    insert_indices, joined, lemma_index_set_contains, lemma_index_set_empty,
    lemma_index_set_member, lemma_index_set_single, lemma_link_twice, lemma_lists_kept_chain,
    lemma_merged, lemma_merged_one, lemma_wired_keeps, link, list_of, lists_kept, merged,
    queue_of, states_wf, wired, Cell, Kind, Node, State, Type, WILDCARD,
};
use crate::layout::{compile_lists, run_lists, step_lists, Layout, Record};
use crate::scanner::{lookahead, Scanner};

verus! {

/// The record of one open group.
#[derive(Debug)]
pub struct Frame {
    /// The anchors at the point where the group was opened.
    pub group_anchors: Vec<usize>,
    /// The index of the first state of each alternative.
    pub starts: Vec<usize>,
    /// The anchors at the end of each complete alternative.
    pub ends: Vec<usize>,
}

impl View for Frame {
    type V = Group;

    open spec fn view(&self) -> Group {
        Group {
            entry: index_set(self.group_anchors@),
            starts: index_set(self.starts@),
            exits: index_set(self.ends@),
        }
    }
}

impl Frame {
    /// The frame as lists.
    pub open spec fn record(&self) -> Record {
        Record { entry: self.group_anchors@, starts: self.starts@, ends: self.ends@ }
    }

    /// No list holds an index twice.
    pub open spec fn wf(&self) -> bool {
        &&& self.group_anchors@.no_duplicates()
        &&& self.starts@.no_duplicates()
        &&& self.ends@.no_duplicates()
    }
}

/// The model of a stack of frames.
pub open spec fn groups_of(frames: Seq<Frame>) -> Seq<Group> {
    Seq::new(frames.len(), |k: int| frames[k]@)
}

/// The stack of frames as lists.
pub open spec fn records_of(frames: Seq<Frame>) -> Seq<Record> {
    Seq::new(frames.len(), |k: int| frames[k].record())
}

/// A pattern, compiled or being compiled. Its view is its graph.
#[derive(Debug)]
pub struct Regex {
    /// The graph.
    pub states: Vec<State>,
    /// While compiling: the index of the state added last.
    pub ptr: usize,
    /// While compiling: the states that lead to whatever atom comes next.
    pub anchors: VecDeque<usize>,
    /// While compiling: the open groups, the innermost last.
    pub groups: Vec<Frame>,
    /// While matching: the states that are live.
    pub next_states: Vec<usize>,
}

impl View for Regex {
    type V = Seq<Node>;

    open spec fn view(&self) -> Seq<Node> {
        graph_of(self.states@)
    }
}

/// The quantifier that the character after an atom puts on it.
pub fn quantifier_of_atom(next: Option<char>) -> (q: Quantifier)
    ensures
        q == atom_quantifier(next),
{
    match next {
        Some(c) => {
            if c == '*' {
                Quantifier::ZeroOrMore
            } else if c == '?' {
                Quantifier::ZeroOrOne
            } else if c == '+' {
                Quantifier::OneOrMore
            } else {
                Quantifier::One
            }
        },
        None => Quantifier::One,
    }
}

/// The quantifier that the character after a `)` puts on the group.
pub fn quantifier_of_group(next: Option<char>) -> (q: Quantifier)
    ensures
        q == group_quantifier(next),
{
    match next {
        Some(c) => {
            if c == '*' || c == '?' {
                Quantifier::ZeroOrMore
            } else if c == '+' {
                Quantifier::OneOrMore
            } else {
                Quantifier::One
            }
        },
        None => Quantifier::One,
    }
}

impl Regex {
    /// The state of the compilation, on sets.
    pub open spec fn builder(&self) -> Builder {
        Builder {
            nodes: self@,
            anchors: index_set(self.anchors@),
            groups: groups_of(self.groups@),
        }
    }

    /// The state of the compilation, on lists.
    pub open spec fn layout(&self) -> Layout {
        Layout {
            cells: cells_of(self.states@),
            anchors: self.anchors@,
            groups: records_of(self.groups@),
        }
    }

    /// The set of live states.
    pub open spec fn frontier(&self) -> Set<int> {
        index_set(self.next_states@)
    }

    /// What holds between the steps of a compilation.
    pub open spec fn wf_building(&self) -> bool {
        &&& states_wf(self.states@)
        &&& self.ptr + 1 == self.states.len()
        &&& self.anchors@.no_duplicates()
        &&& forall|k: int| 0 <= k < self.groups.len() ==> (#[trigger] self.groups[k]).wf()
        &&& self.builder().wf()
    }

    /// What holds of a pattern that has been compiled: the graph is complete
    /// and the cursor of the compilation is gone.
    pub open spec fn wf_compiled(&self) -> bool {
        &&& states_wf(self.states@)
        &&& compiled(self@)
        &&& self.ptr == 0
        &&& self.anchors.len() == 0
        &&& self.groups.len() == 0
    }

    /// A compilation that has read nothing yet.
    pub fn new() -> (regex: Regex)
        ensures
            regex.wf_building(),
            regex.builder() == Builder::start(),
            regex.layout() == Layout::start(),
            regex.ptr == 0,
            regex.next_states@ == seq![0usize],
    {
        let mut anchors: VecDeque<usize> = VecDeque::new();
        anchors.push_back(0);
        let regex = Regex {
            states: vec![State::new(0, Type::Begin, Vec::new())],
            ptr: 0,
            anchors,
            groups: vec![
                Frame { group_anchors: vec![0], starts: vec![1], ends: Vec::new() },
            ],
            next_states: vec![0],
        };
        proof {
            lemma_index_set_empty();
            lemma_index_set_single(0);
            lemma_index_set_single(1);
            lemma_start_wf();
            assert(regex.anchors@ =~= seq![0usize]);
            assert(regex.states@[0]@ =~= Builder::start().nodes[0]);
            assert(regex.builder() =~~= Builder::start());
            assert(regex.layout() =~~= Layout::start());
        }
        regex
    }

    /// Connects every anchor to the state at `ptr`: the index is put at the
    /// end of the anchor's list of targets unless the list holds it already.
    pub fn update_previous_nodes(&mut self, ptr: usize)
        requires
            old(self).wf_building(),
            1 <= ptr <= old(self).states.len(),
        ensures
            final(self).wf_building(),
            final(self)@ == link(old(self)@, index_set(old(self).anchors@), set![ptr as int]),
            extends(final(self)@, old(self)@),
            cells_of(final(self).states@) == wired(
                cells_of(old(self).states@),
                old(self).anchors@,
                seq![ptr],
            ),
            final(self).states.len() == old(self).states.len(),
            forall|i: int|
                0 <= i < old(self).states.len() ==> (#[trigger] final(self).states[i]).transitions@
                    == if old(self).anchors@.contains(i as usize) {
                    joined(old(self).states[i].transitions@, ptr)
                } else {
                    old(self).states[i].transitions@
                },
            lists_kept(cells_of(old(self).states@), cells_of(final(self).states@)),
            final(self).ptr == old(self).ptr,
            final(self).anchors == old(self).anchors,
            final(self).groups == old(self).groups,
            final(self).next_states == old(self).next_states,
    {
        proof {
            assert forall|k: int| 0 <= k < self.anchors.len() implies self.anchors@[k]
                < self.states.len() by {
                lemma_index_set_member(self.anchors@, k);
                assert(self.builder().anchors.contains(self.anchors@[k] as int));
            }
            lemma_link_wf(self.builder(), index_set(self.anchors@), set![ptr as int]);
            lemma_wired_keeps(cells_of(self.states@), self.anchors@, seq![ptr]);
        }
        let anchors = list_of(&self.anchors);
        connect_all(&mut self.states, &anchors, ptr);
        proof {
            assert forall|i: int| 0 <= i < old(self).states.len() implies (
            #[trigger] self.states[i]).transitions@ == if old(self).anchors@.contains(i as usize) {
                joined(old(self).states[i].transitions@, ptr)
            } else {
                old(self).states[i].transitions@
            } by {
                lemma_merged_one(old(self).states[i].transitions@, ptr);
                assert(cells_of(self.states@)[i] == wired(
                    cells_of(old(self).states@),
                    old(self).anchors@,
                    seq![ptr],
                )[i]);
            }
        }
    }

    /// Applies a quantifier to the item that is entered at `starts` and left
    /// at `exits`, and before which the anchors were `entry`: the shared part
    /// of an atom and of a group.
    pub fn quantify(
        &mut self,
        entry: Vec<usize>,
        starts: Vec<usize>,
        exits: Vec<usize>,
        q: Quantifier,
    )
        requires
            old(self).wf_building(),
            entry@.no_duplicates(),
            exits@.no_duplicates(),
            (Group {
                entry: index_set(entry@),
                starts: index_set(starts@),
                exits: index_set(exits@),
            }).wf(old(self).states.len() as int),
        ensures
            final(self).wf_building(),
            final(self).builder() == old(self).builder().quantify(
                index_set(entry@),
                index_set(starts@),
                index_set(exits@),
                q,
            ),
            final(self).layout() == old(self).layout().quantify(entry@, starts@, exits@, q),
            extends(final(self)@, old(self)@),
            lists_kept(cells_of(old(self).states@), cells_of(final(self).states@)),
            final(self).states.len() == old(self).states.len(),
            final(self).ptr == old(self).ptr,
            final(self).groups == old(self).groups,
            final(self).next_states == old(self).next_states,
    {
        proof {
            lemma_quantify_wf(
                self.builder(),
                index_set(entry@),
                index_set(starts@),
                index_set(exits@),
                q,
            );
            let item = Group {
                entry: index_set(entry@),
                starts: index_set(starts@),
                exits: index_set(exits@),
            };
            assert(item.wf(self.states.len() as int));
            assert forall|k: int| 0 <= k < exits.len() implies exits[k] < self.states.len() by {
                lemma_index_set_member(exits@, k);
                assert(item.exits.contains(exits@[k] as int));
            }
            lemma_wired_keeps(cells_of(self.states@), exits@, starts@);
            lemma_merged(entry@, exits@);
        }
        match q {
            Quantifier::ZeroOrMore | Quantifier::OneOrMore => {
                connect_each(&mut self.states, &exits, &starts);
            },
            _ => {},
        }
        let anchors = match q {
            Quantifier::ZeroOrOne | Quantifier::ZeroOrMore => {
                let mut anchors = entry;
                insert_indices(&mut anchors, &exits);
                anchors
            },
            _ => exits,
        };
        self.anchors = queue_of(&anchors);
        proof {
            assert(self.builder() =~~= old(self).builder().quantify(
                index_set(entry@),
                index_set(starts@),
                index_set(exits@),
                q,
            ));
            assert(self.layout() =~~= old(self).layout().quantify(entry@, starts@, exits@, q));
        }
    }

    /// Adds the state of an atom and applies the quantifier that follows the
    /// atom in the pattern, which is read. Returns whether any character
    /// followed the atom.
    ///
    /// Every anchor gets the new state at the end of its list of targets,
    /// unless the list holds it already.
    /// Under `*` and `+` the new state leads to itself. Under `?` and `*`
    /// the new state is put behind the anchors; otherwise it is the only
    /// anchor left.
    pub fn handle_literal(&mut self, state: State, chars: &mut Scanner) -> (continue_loop: bool)
        requires
            old(self).wf_building(),
            old(chars).wf(),
            state.t@ is Literal,
            state.transitions.len() == 0,
            state.id == old(self).ptr + 1,
        ensures
            final(self).wf_building(),
            final(chars).wf(),
            final(chars).chars == old(chars).chars,
            final(self).builder() == old(self).builder().atom(
                state.t@->Literal_0,
                atom_quantifier(lookahead(old(chars).chars@, old(chars).pos as int)),
            ),
            final(self).layout() == old(self).layout().atom(
                state.t@->Literal_0,
                atom_quantifier(lookahead(old(chars).chars@, old(chars).pos as int)),
            ),
            final(chars).pos == old(chars).pos + atom_quantifier(
                lookahead(old(chars).chars@, old(chars).pos as int),
            ).width(),
            final(self).anchors@ == if atom_quantifier(
                lookahead(old(chars).chars@, old(chars).pos as int),
            ).skips() {
                old(self).anchors@.push(state.id)
            } else {
                seq![state.id]
            },
            forall|i: int|
                0 <= i < old(self).states.len() ==> (#[trigger] final(self).states[i]).transitions@
                    == if old(self).anchors@.contains(i as usize) {
                    joined(old(self).states[i].transitions@, state.id)
                } else {
                    old(self).states[i].transitions@
                },
            final(self).states[state.id as int].transitions@ == if atom_quantifier(
                lookahead(old(chars).chars@, old(chars).pos as int),
            ).repeats() {
                seq![state.id]
            } else {
                Seq::<usize>::empty()
            },
            final(self).states[state.id as int].t@ == state.t@,
            extends(final(self)@, old(self)@),
            lists_kept(cells_of(old(self).states@), cells_of(final(self).states@)),
            final(self).states.len() == old(self).states.len() + 1,
            final(self).ptr == state.id,
            continue_loop == (old(chars).pos < old(chars).chars.len()),
            final(self).groups == old(self).groups,
            final(self).next_states == old(self).next_states,
    {
        let next = chars.peek();
        let q = quantifier_of_atom(next);
        match q {
            Quantifier::One => {},
            _ => {
                chars.next();
            },
        }
        let n = self.states.len();
        let ghost before = self.builder();
        let ghost plan = self.layout();
        let ghost code = state.t@->Literal_0;
        let entry = list_of(&self.anchors);
        self.update_previous_nodes(n);
        let ghost linked = cells_of(self.states@);
        self.states.push(state);
        self.ptr = n;
        proof {
            let node = Node { kind: Kind::Literal(code), edges: Set::empty() };
            let cell = Cell { kind: Kind::Literal(code), edges: Seq::empty() };
            let grown = link(before.nodes, before.anchors, set![n as int]).push(node);
            lemma_index_set_empty();
            lemma_index_set_single(n);
            lemma_atom_wf(before, code, Quantifier::One);
            lemma_atom_wf(before, code, q);
            assert(state@ =~= node);
            assert(self@ =~= grown);
            assert(state.transitions@ =~= Seq::<usize>::empty());
            assert(cells_of(self.states@) =~~= linked.push(cell));
            assert(before.atom(code, Quantifier::One).nodes == grown);
            assert forall|k: int| 0 <= k < before.groups.len() implies (
            #[trigger] before.groups[k]).wf(grown.len() as int) by {
                assert(before.groups[k].wf(before.next_index()));
            }
            assert(self.builder().wf());
            assert(seq![n].no_duplicates());
            assert forall|i: int| 0 <= i < linked.len() implies (#[trigger] linked.push(cell)[i]).kind
                == linked[i].kind && linked[i].edges.is_prefix_of(linked.push(cell)[i].edges) by {}
            assert(lists_kept(linked, linked.push(cell)));
            lemma_lists_kept_chain(plan.cells, linked, cells_of(self.states@));
        }
        let ghost pushed = cells_of(self.states@);
        let starts = vec![n];
        let exits = vec![n];
        proof {
            assert(starts@ =~= seq![n]);
            assert(exits@ =~= seq![n]);
            assert(self.layout() =~~= Layout {
                cells: wired(plan.cells, plan.anchors, seq![n]).push(
                    Cell { kind: Kind::Literal(code), edges: Seq::empty() },
                ),
                anchors: plan.anchors,
                groups: plan.groups,
            });
        }
        self.quantify(entry, starts, exits, q);
        proof {
            assert(self.builder() =~~= before.atom(code, q));
            assert(self.layout() =~~= plan.atom(code, q));
            lemma_lists_kept_chain(plan.cells, pushed, cells_of(self.states@));
            lemma_merged_one(plan.anchors, n);
            lemma_index_set_contains(plan.anchors, n);
            assert(!plan.anchors.contains(n)) by {
                if plan.anchors.contains(n) {
                    assert(before.anchors.contains(n as int));
                }
            }
            lemma_merged_one(Seq::<usize>::empty(), n);
            assert(Seq::<usize>::empty().push(n) =~= seq![n]);
            assert forall|i: int| 0 <= i < plan.cells.len() implies (
            #[trigger] self.states[i]).transitions@ == if plan.anchors.contains(i as usize) {
                joined(old(self).states[i].transitions@, n)
            } else {
                old(self).states[i].transitions@
            } by {
                let was = old(self).states[i].transitions@;
                lemma_merged_one(was, n);
                assert(pushed[i] == linked[i]);
                assert(linked[i] == wired(plan.cells, plan.anchors, seq![n])[i]);
                assert(cells_of(self.states@)[i] == plan.atom(code, q).cells[i]);
                assert(i != n as int);
                if q.repeats() {
                    assert(!seq![n].contains(i as usize)) by {
                        if seq![n].contains(i as usize) {
                            let j = choose|j: int| 0 <= j < 1 && seq![n][j] == i as usize;
                        }
                    }
                }
            }
            assert(cells_of(self.states@)[n as int] == plan.atom(code, q).cells[n as int]);
            assert(seq![n][0] == n);
            assert(seq![n].contains(n));
        }
        next.is_some()
    }

    /// Opens a group at `(`: a frame with the anchors as its entry and the
    /// index of the next state as its first start.
    pub fn open_group(&mut self)
        requires
            old(self).wf_building(),
        ensures
            final(self).wf_building(),
            final(self).builder() == old(self).builder().open_group(),
            final(self).layout() == old(self).layout().open_group(),
            final(self).groups@.drop_last() == old(self).groups@,
            final(self).states == old(self).states,
            final(self).ptr == old(self).ptr,
            final(self).anchors == old(self).anchors,
            final(self).next_states == old(self).next_states,
    {
        let n = self.states.len();
        let entry = list_of(&self.anchors);
        let frame = Frame { group_anchors: entry, starts: vec![n], ends: Vec::new() };
        proof {
            lemma_index_set_empty();
            lemma_index_set_single(n);
            lemma_open_group_wf(self.builder());
            assert(seq![n].no_duplicates());
            assert(frame@ =~= Group {
                entry: index_set(self.anchors@),
                starts: set![n as int],
                exits: Set::empty(),
            });
        }
        self.groups.push(frame);
        proof {
            assert(self.builder() =~~= old(self).builder().open_group());
            assert(self.layout() =~~= old(self).layout().open_group());
            assert(self.groups@.drop_last() =~= old(self).groups@);
        }
    }

    /// Ends an alternative at `|` and begins the next: the anchors are
    /// merged into the ends of the innermost group, the index of the next
    /// state is joined to its starts, and its entry becomes the anchors.
    pub fn alternate(&mut self)
        requires
            old(self).wf_building(),
            old(self).groups.len() >= 1,
        ensures
            final(self).wf_building(),
            final(self).builder() == old(self).builder().alternate(),
            final(self).layout() == old(self).layout().alternate(),
            final(self).groups.len() == old(self).groups.len(),
            final(self).groups@.drop_last() == old(self).groups@.drop_last(),
            final(self).states == old(self).states,
            final(self).ptr == old(self).ptr,
            final(self).next_states == old(self).next_states,
    {
        let n = self.states.len();
        let ghost before = self.builder();
        let ghost plan = self.layout();
        proof {
            lemma_alternate_wf(before);
            assert(self.groups[self.groups.len() - 1].wf());
            lemma_index_set_empty();
        }
        let mut top = self.groups.pop().unwrap();
        let current = list_of(&self.anchors);
        insert_indices(&mut top.ends, &current);
        insert_index(&mut top.starts, n);
        self.anchors = queue_of(&top.group_anchors);
        self.groups.push(top);
        proof {
            assert(self.builder().groups =~~= before.alternate().groups);
            assert(self.builder() =~~= before.alternate());
            assert(self.layout().groups =~~= plan.alternate().groups);
            assert(self.layout() =~~= plan.alternate());
            assert(self.groups@.drop_last() =~= old(self).groups@.drop_last());
            assert forall|k: int| 0 <= k < self.groups.len() implies (
            #[trigger] self.groups[k]).wf() by {
                if k < self.groups.len() - 1 {
                    assert(self.groups[k] == old(self).groups[k]);
                }
            }
        }
    }

    /// Closes the innermost group at `)` and applies the quantifier that
    /// follows it in the pattern, which is read. Returns whether any
    /// character followed the `)`.
    ///
    /// The frame of the group is taken off the stack. The ends of the group
    /// with the anchors merged into them are its exits. Where the group may
    /// repeat, each exit gets the starts of the group merged into its
    /// targets. The anchors become the exits, behind the entry of the group
    /// where the group may be left out.
    pub fn handle_close_group(&mut self, chars: &mut Scanner) -> (continue_loop: bool)
        requires
            old(self).wf_building(),
            old(self).groups.len() >= 2,
            old(chars).wf(),
        ensures
            final(self).wf_building(),
            final(chars).wf(),
            final(chars).chars == old(chars).chars,
            final(self).builder() == old(self).builder().close_group(
                group_quantifier(lookahead(old(chars).chars@, old(chars).pos as int)),
            ),
            final(self).layout() == old(self).layout().close_group(
                group_quantifier(lookahead(old(chars).chars@, old(chars).pos as int)),
            ),
            final(chars).pos == old(chars).pos + group_quantifier(
                lookahead(old(chars).chars@, old(chars).pos as int),
            ).width(),
            final(self).groups@ == old(self).groups@.drop_last(),
            extends(final(self)@, old(self)@),
            lists_kept(cells_of(old(self).states@), cells_of(final(self).states@)),
            final(self).states.len() == old(self).states.len(),
            final(self).ptr == old(self).ptr,
            continue_loop == (old(chars).pos < old(chars).chars.len()),
            final(self).next_states == old(self).next_states,
    {
        let next = chars.peek();
        let q = quantifier_of_group(next);
        match q {
            Quantifier::One => {},
            _ => {
                chars.next();
            },
        }
        let ghost before = self.builder();
        let ghost plan = self.layout();
        proof {
            lemma_close_group_wf(before, q);
            assert(self.groups[self.groups.len() - 1].wf());
            assert(before.groups.last().wf(before.next_index()));
        }
        let top = self.groups.pop().unwrap();
        let Frame { group_anchors, starts, ends } = top;
        let mut exits = ends;
        let current = list_of(&self.anchors);
        insert_indices(&mut exits, &current);
        proof {
            assert(self.builder().groups =~~= before.groups.drop_last());
            assert forall|k: int| 0 <= k < self.builder().groups.len() implies (
            #[trigger] self.builder().groups[k]).wf(self.builder().next_index()) by {
                assert(before.groups[k].wf(before.next_index()));
            }
            assert(self.layout().groups =~~= plan.groups.drop_last());
        }
        self.quantify(group_anchors, starts, exits, q);
        proof {
            assert(self.builder() =~~= before.close_group(q));
            assert(self.layout() =~~= plan.close_group(q));
        }
        next.is_some()
    }

    /// Takes the innermost group off the stack and connects the end of each
    /// of its complete alternatives to the state at `ptr`: the index is put
    /// at the end of the list of targets unless the list holds it already.
    pub fn update_ends(&mut self, ptr: usize)
        requires
            old(self).wf_building(),
            old(self).groups.len() >= 1,
            1 <= ptr <= old(self).states.len(),
        ensures
            final(self).wf_building(),
            final(self)@ == link(
                old(self)@,
                old(self).builder().groups.last().exits,
                set![ptr as int],
            ),
            extends(final(self)@, old(self)@),
            cells_of(final(self).states@) == wired(
                cells_of(old(self).states@),
                old(self).groups@.last().ends@,
                seq![ptr],
            ),
            final(self).states.len() == old(self).states.len(),
            forall|i: int|
                0 <= i < old(self).states.len() ==> (#[trigger] final(self).states[i]).transitions@
                    == if old(self).groups@.last().ends@.contains(i as usize) {
                    joined(old(self).states[i].transitions@, ptr)
                } else {
                    old(self).states[i].transitions@
                },
            lists_kept(cells_of(old(self).states@), cells_of(final(self).states@)),
            final(self).groups@ == old(self).groups@.drop_last(),
            final(self).ptr == old(self).ptr,
            final(self).anchors == old(self).anchors,
            final(self).next_states == old(self).next_states,
    {
        let ghost before = self.builder();
        proof {
            assert(before.groups.last().wf(before.next_index()));
        }
        let top = self.groups.pop().unwrap();
        proof {
            assert(top@ == before.groups.last());
            assert(self.builder().groups =~~= before.groups.drop_last());
            assert forall|k: int| 0 <= k < self.builder().groups.len() implies (
            #[trigger] self.builder().groups[k]).wf(self.builder().next_index()) by {
                assert(before.groups[k].wf(before.next_index()));
            }
            assert(self.builder().nodes == before.nodes);
            assert(self.builder().anchors == before.anchors);
            assert(self.builder().wf());
            assert forall|k: int| 0 <= k < top.ends.len() implies top.ends[k]
                < self.states.len() by {
                lemma_index_set_member(top.ends@, k);
                assert(before.groups.last().exits.contains(top.ends@[k] as int));
            }
            lemma_link_wf(self.builder(), index_set(top.ends@), set![ptr as int]);
            lemma_wired_keeps(cells_of(self.states@), top.ends@, seq![ptr]);
        }
        connect_all(&mut self.states, &top.ends, ptr);
        proof {
            assert forall|i: int| 0 <= i < old(self).states.len() implies (
            #[trigger] self.states[i]).transitions@ == if top.ends@.contains(i as usize) {
                joined(old(self).states[i].transitions@, ptr)
            } else {
                old(self).states[i].transitions@
            } by {
                lemma_merged_one(old(self).states[i].transitions@, ptr);
                assert(cells_of(self.states@)[i] == wired(
                    cells_of(old(self).states@),
                    top.ends@,
                    seq![ptr],
                )[i]);
            }
        }
    }

    /// Ends the compilation: connects the anchors, and then the ends of the
    /// outermost group, to the accepting state, which is appended. The
    /// cursor of the compilation is cleared. A group that is still open is an
    /// error, and leaves everything as it is.
    pub fn finish_regex(&mut self) -> (result: Result<(), CompileError>)
        requires
            old(self).wf_building(),
        ensures
            old(self).groups.len() == 1 ==> result is Ok,
            old(self).groups.len() == 1 ==> final(self).wf_compiled(),
            old(self).groups.len() == 1 ==> final(self)@ == old(self).builder().finish().nodes,
            old(self).groups.len() == 1 ==> final(self).layout() == old(self).layout().finish(),
            old(self).groups.len() == 1 ==> extends(final(self)@, old(self)@),
            old(self).groups.len() == 1 ==> lists_kept(
                cells_of(old(self).states@),
                cells_of(final(self).states@),
            ),
            old(self).groups.len() == 1 ==> final(self).next_states == old(self).next_states,
            old(self).groups.len() != 1 ==> result == Err::<(), CompileError>(
                CompileError::UnbalancedGroup,
            ) && *final(self) == *old(self),
    {
        if self.groups.len() != 1 {
            return Err(CompileError::UnbalancedGroup);
        }
        let new_ptr = self.ptr + 1;
        let state = State::new(new_ptr, Type::Match, Vec::new());
        let ghost before = self.builder();
        let ghost plan = self.layout();
        self.update_previous_nodes(new_ptr);
        let ghost first = cells_of(self.states@);
        self.update_ends(new_ptr);
        let ghost second = cells_of(self.states@);
        self.states.push(state);
        self.anchors.clear();
        self.ptr = 0;
        proof {
            lemma_index_set_empty();
            lemma_finish_compiled(before);
            lemma_link_twice(
                before.nodes,
                before.anchors,
                before.groups.last().exits,
                set![new_ptr as int],
            );
            let node = Node { kind: Kind::Match, edges: Set::empty() };
            let cell = Cell { kind: Kind::Match, edges: Seq::empty() };
            assert(state@ =~= node);
            assert(self@ =~= before.finish().nodes);
            assert(cells_of(self.states@) =~= second.push(cell));
            assert(self.anchors@ =~= Seq::<usize>::empty());
            assert(self.layout() =~~= plan.finish());
            lemma_lists_kept_chain(plan.cells, first, second);
            assert forall|i: int| 0 <= i < second.len() implies (#[trigger] second.push(cell)[i]).kind
                == second[i].kind && second[i].edges.is_prefix_of(second.push(cell)[i].edges) by {}
            lemma_lists_kept_chain(plan.cells, second, cells_of(self.states@));
        }
        Ok(())
    }

    /// Compiles a pattern.
    ///
    /// The pattern is read once from left to right. The first token that
    /// cannot stand where it stands ends the compilation with its error.
    /// Otherwise the states are those of [`compile_lists`], each with its
    /// targets in their order, and the graph is that of [`compile_spec`].
    pub fn compile(pattern: &str) -> (result: Result<Regex, CompileError>)
        ensures
            match result {
                Ok(regex) => compile_spec(pattern@) == Ok::<Seq<Node>, CompileError>(regex@)
                    && compile_lists(pattern@) == Ok::<Seq<Cell>, CompileError>(
                    cells_of(regex.states@),
                ) && regex.wf_compiled() && regex.next_states@ == seq![0usize],
                Err(e) => compile_spec(pattern@) == Err::<Seq<Node>, CompileError>(e)
                    && compile_lists(pattern@) == Err::<Seq<Cell>, CompileError>(e),
            },
            result is Ok <==> fault(pattern@) is None,
            result matches Err(e) ==> fault(pattern@) == Some(e),
    {
        proof {
            lemma_compile_fails_on_first_fault(pattern@);
        }
        if pattern.is_empty() {
            return Err(CompileError::EmptyPattern);
        }
        let mut regex = Regex::new();
        let mut chars = Scanner::new(pattern);
        loop
            invariant
                regex.wf_building(),
                regex.groups.len() >= 1,
                regex.next_states@ == seq![0usize],
                chars.wf(),
                chars.chars@ == pattern@,
                pattern@.len() > 0,
                compile_spec(pattern@) is Ok ==> fault(pattern@) is None,
                compile_spec(pattern@) matches Err(e) ==> fault(pattern@) == Some(e),
                run(Builder::start(), pattern@, 0) == run(
                    regex.builder(),
                    pattern@,
                    chars.pos as int,
                ),
                run_lists(Layout::start(), pattern@, 0) == run_lists(
                    regex.layout(),
                    pattern@,
                    chars.pos as int,
                ),
                regex.layout().groups.len() == regex.groups.len(),
            ensures
                chars.pos >= chars.chars.len(),
            decreases chars.chars.len() - chars.pos,
        {
            let ghost b = regex.builder();
            let ghost l = regex.layout();
            let ghost i = chars.pos as int;
            let prev = chars.previous();
            let c = match chars.next() {
                Some(c) => c,
                None => {
                    break ;
                },
            };
            assert(c == pattern@[i]);
            if c == '*' || c == '+' || c == '?' {
                assert(step(b, pattern@, i) is Err);
                assert(step_lists(l, pattern@, i) is Err);
                return Err(CompileError::DanglingQuantifier);
            } else if c == '|' {
                if chars.peek().is_none() {
                    assert(step(b, pattern@, i) is Err);
                    assert(step_lists(l, pattern@, i) is Err);
                    return Err(CompileError::TrailingAlternation);
                }
                let dangling = match prev {
                    Some(p) => p == '|',
                    None => true,
                };
                if dangling {
                    assert(step(b, pattern@, i) is Err);
                    assert(step_lists(l, pattern@, i) is Err);
                    return Err(CompileError::DanglingQuantifier);
                }
                regex.alternate();
                assert(step(b, pattern@, i) == Ok::<(Builder, int), CompileError>(
                    (regex.builder(), chars.pos as int),
                ));
                assert(step_lists(l, pattern@, i) == Ok::<(Layout, int), CompileError>(
                    (regex.layout(), chars.pos as int),
                ));
            } else if c == '(' {
                regex.open_group();
                assert(step(b, pattern@, i) == Ok::<(Builder, int), CompileError>(
                    (regex.builder(), chars.pos as int),
                ));
                assert(step_lists(l, pattern@, i) == Ok::<(Layout, int), CompileError>(
                    (regex.layout(), chars.pos as int),
                ));
            } else if c == ')' {
                if regex.groups.len() <= 1 {
                    assert(step(b, pattern@, i) is Err);
                    assert(step_lists(l, pattern@, i) is Err);
                    return Err(CompileError::UnbalancedGroup);
                }
                let more = regex.handle_close_group(&mut chars);
                assert(step(b, pattern@, i) == Ok::<(Builder, int), CompileError>(
                    (regex.builder(), chars.pos as int),
                ));
                assert(step_lists(l, pattern@, i) == Ok::<(Layout, int), CompileError>(
                    (regex.layout(), chars.pos as int),
                ));
                if !more {
                    break ;
                }
            } else {
                let code = if c == '.' {
                    WILDCARD
                } else {
                    code_of(c)
                };
                let state = State::new(regex.ptr + 1, Type::Literal(code), Vec::new());
                let more = regex.handle_literal(state, &mut chars);
                assert(step(b, pattern@, i) == Ok::<(Builder, int), CompileError>(
                    (regex.builder(), chars.pos as int),
                ));
                assert(step_lists(l, pattern@, i) == Ok::<(Layout, int), CompileError>(
                    (regex.layout(), chars.pos as int),
                ));
                if !more {
                    break ;
                }
            }
        }
        match regex.finish_regex() {
            Ok(()) => Ok(regex),
            Err(e) => Err(e),
        }
    }
}

} // verus!
