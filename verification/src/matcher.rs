//! The matching engine.
//!
//! The engine keeps the set of live states, the frontier, and moves all of it
//! over each character of the haystack in turn. Nothing is ever tried twice:
//! the work is bounded by the size of the graph times the length of the
//! haystack.

use vstd::prelude::*;
use crate::accept::{
    accepting, accepts, advance, closed, edge, leads_to_match, lemma_accepts_is_accepting,
    lemma_advance_empty, lemma_advance_union, lemma_reach_in_graph, moves, reach,
};
use crate::graph::{
    char_code, code_of, index_set, insert_index, lemma_index_set_contains,
    lemma_index_set_empty, lemma_index_set_member, lemma_index_set_single, lemma_index_set_skip,
    lemma_index_set_take,
    Type, WILDCARD,
};
use crate::haystack::HayStack;
use crate::regex::Regex;

verus! {

/// Whether the list holds the code.
pub fn contains_code(codes: &Vec<u32>, code: u32) -> (found: bool)
    ensures
        found == codes@.contains(code),
{
    let mut k: usize = 0;
    while k < codes.len()
        invariant
            k <= codes.len(),
            forall|j: int| 0 <= j < k ==> codes@[j] != code,
        decreases codes.len() - k,
    {
        if codes[k] == code {
            return true;
        }
        k += 1;
    }
    false
}

impl Regex {
    /// The frontier holds states of the graph only.
    pub open spec fn frontier_in_graph(&self) -> bool {
        forall|k: int| 0 <= k < self.next_states.len() ==> self.next_states[k] < self.states.len()
    }

    /// Takes one state out of the frontier, if any is left.
    pub fn get_next_state(&mut self) -> (next: Option<usize>)
        ensures
            final(self).states == old(self).states,
            final(self).ptr == old(self).ptr,
            final(self).anchors == old(self).anchors,
            final(self).groups == old(self).groups,
            old(self).next_states.len() == 0 ==> next is None && final(self).next_states@ == old(
                self,
            ).next_states@,
            old(self).next_states.len() > 0 ==> next == Some(old(self).next_states@.last())
                && final(self).next_states@ == old(self).next_states@.drop_last(),
    {
        self.next_states.pop()
    }

    /// Tests the state at `transition` against the character and adds it to
    /// `new_states` if it admits the character. The sentinels admit none.
    pub fn step(&self, transition: usize, c: char, new_states: &mut Vec<usize>)
        requires
            transition < self.states.len(),
        ensures
            final(new_states)@ == if self@[transition as int].kind.admits(char_code(c)) && !old(
                new_states,
            )@.contains(transition) {
                old(new_states)@.push(transition)
            } else {
                old(new_states)@
            },
            index_set(final(new_states)@) == if self@[transition as int].kind.admits(
                char_code(c),
            ) {
                index_set(old(new_states)@).insert(transition as int)
            } else {
                index_set(old(new_states)@)
            },
            old(new_states)@.no_duplicates() ==> final(new_states)@.no_duplicates(),
    {
        let code = code_of(c);
        let admitted = match &self.states[transition].t {
            Type::Literal(own) => *own == WILDCARD || *own == code,
            Type::LiteralClass(codes) => contains_code(codes, code),
            Type::Match => false,
            Type::Begin => false,
        };
        if admitted {
            insert_index(new_states, transition);
        }
    }

    /// Moves one state of the frontier over the character: every state that
    /// it leads to and that admits the character is added to `new_states`.
    pub fn follow(&self, state: usize, c: char, new_states: &mut Vec<usize>)
        requires
            closed(self@),
            state < self.states.len(),
        ensures
            index_set(final(new_states)@) == index_set(old(new_states)@) + advance(
                self@,
                set![state as int],
                c,
            ),
            old(new_states)@.no_duplicates() ==> final(new_states)@.no_duplicates(),
    {
        let ghost graph = self@;
        let ghost targets = self.states[state as int].transitions@;
        let ghost before = index_set(new_states@);
        let mut j: usize = 0;
        proof {
            lemma_index_set_empty();
            assert(targets.take(0) =~= Seq::<usize>::empty());
            assert(before =~= before + Set::new(
                |t: int|
                    index_set(targets.take(0)).contains(t) && 0 <= t < graph.len()
                        && graph[t].kind.admits(char_code(c)),
            ));
        }
        while j < self.states[state].transitions.len()
            invariant
                graph == self@,
                closed(graph),
                state < self.states.len(),
                targets == self.states[state as int].transitions@,
                j <= targets.len(),
                index_set(new_states@) == before + Set::new(
                    |t: int|
                        index_set(targets.take(j as int)).contains(t) && 0 <= t < graph.len()
                            && graph[t].kind.admits(char_code(c)),
                ),
                old(new_states)@.no_duplicates() ==> new_states@.no_duplicates(),
            decreases targets.len() - j,
        {
            let transition = self.states[state].transitions[j];
            proof {
                lemma_index_set_member(targets, j as int);
                assert(graph[state as int].edges.contains(transition as int));
                lemma_index_set_take(targets, j as int);
            }
            self.step(transition, c, new_states);
            proof {
                assert(index_set(new_states@) =~= before + Set::new(
                    |t: int|
                        index_set(targets.take(j + 1)).contains(t) && 0 <= t < graph.len()
                            && graph[t].kind.admits(char_code(c)),
                ));
            }
            j += 1;
        }
        proof {
            assert(targets.take(targets.len() as int) =~= targets);
            let gained = Set::new(
                |t: int|
                    index_set(targets).contains(t) && 0 <= t < graph.len() && graph[t].kind.admits(
                        char_code(c),
                    ),
            );
            let moved = advance(graph, set![state as int], c);
            assert forall|t: int| gained.contains(t) <==> moved.contains(t) by {
                if gained.contains(t) {
                    assert(moves(graph, state as int, c, t));
                }
                if moved.contains(t) {
                    let from = choose|from: int|
                        set![state as int].contains(from) && moves(graph, from, c, t);
                    assert(from == state as int);
                }
            }
            assert(gained =~= moved);
        }
    }

    /// Whether some state of the frontier has an edge to an accepting state.
    pub fn found_match(&self) -> (found: bool)
        requires
            closed(self@),
            self.frontier_in_graph(),
        ensures
            found == accepting(self@, self.frontier()),
    {
        let ghost graph = self@;
        let mut k: usize = 0;
        while k < self.next_states.len()
            invariant
                graph == self@,
                closed(graph),
                self.frontier_in_graph(),
                k <= self.next_states.len(),
                forall|i: int| 0 <= i < k ==> !leads_to_match(graph, self.next_states[i] as int),
            decreases self.next_states.len() - k,
        {
            let state = self.next_states[k];
            let ghost targets = self.states[state as int].transitions@;
            let mut j: usize = 0;
            while j < self.states[state].transitions.len()
                invariant
                    graph == self@,
                    closed(graph),
                    state < self.states.len(),
                    state == self.next_states[k as int],
                    k < self.next_states.len(),
                    targets == self.states[state as int].transitions@,
                    j <= targets.len(),
                    forall|i: int| 0 <= i < j ==> !(graph[targets[i] as int].kind is Match),
                decreases targets.len() - j,
            {
                let transition = self.states[state].transitions[j];
                proof {
                    lemma_index_set_member(targets, j as int);
                    assert(graph[state as int].edges.contains(transition as int));
                }
                if let Type::Match = self.states[transition].t {
                    proof {
                        lemma_index_set_member(self.next_states@, k as int);
                        assert(edge(graph, state as int, transition as int));
                        assert(graph[transition as int].kind is Match);
                        assert(leads_to_match(graph, state as int));
                    }
                    return true;
                }
                j += 1;
            }
            proof {
                if leads_to_match(graph, state as int) {
                    let to = choose|to: int|
                        edge(graph, state as int, to) && (#[trigger] graph[to]).kind is Match;
                    lemma_index_set_contains(targets, to as usize);
                    let i = choose|i: int| 0 <= i < targets.len() && targets[i] == to as usize;
                    assert(!(graph[targets[i] as int].kind is Match));
                }
            }
            k += 1;
        }
        proof {
            if accepting(graph, self.frontier()) {
                let from = choose|from: int|
                    self.frontier().contains(from) && #[trigger] leads_to_match(graph, from);
                lemma_index_set_contains(self.next_states@, from as usize);
                let i = choose|i: int|
                    0 <= i < self.next_states.len() && self.next_states@[i] == from as usize;
                assert(!leads_to_match(graph, self.next_states[i] as int));
            }
        }
        false
    }

    /// Decides whether the graph accepts what is left of the haystack.
    ///
    /// The frontier starts anew at the entry state, so a pattern can be
    /// matched any number of times. The graph stays as it is; the frontier is
    /// left as the last character left it.
    pub fn matches(&mut self, haystack: HayStack) -> (matched: bool)
        requires
            closed(old(self)@),
        ensures
            matched == accepts(old(self)@, haystack@),
            final(self).frontier() == reach(old(self)@, haystack@),
            final(self).next_states@.no_duplicates(),
            final(self).frontier_in_graph(),
            final(self).states == old(self).states,
            final(self).ptr == old(self).ptr,
            final(self).anchors == old(self).anchors,
            final(self).groups == old(self).groups,
    {
        let ghost graph = self@;
        let ghost text = haystack@;
        let ghost mut read: int = 0;
        let mut haystack = haystack;
        self.next_states = vec![0];
        proof {
            lemma_index_set_single(0);
            assert(text.take(0) =~= Seq::<char>::empty());
            assert(text.skip(0) =~= text);
            assert(seq![0usize].no_duplicates());
        }
        loop
            invariant
                self.states == old(self).states,
                self.ptr == old(self).ptr,
                self.anchors == old(self).anchors,
                self.groups == old(self).groups,
                graph == self@,
                closed(graph),
                0 <= read <= text.len(),
                haystack@ == text.skip(read),
                self.next_states@.no_duplicates(),
                self.frontier() == reach(graph, text.take(read)),
            ensures
                read == text.len(),
            decreases haystack@.len(),
        {
            let c = match haystack.get_char() {
                Some(c) => c,
                None => {
                    break ;
                },
            };
            let ghost frontier = self.next_states@;
            let mut new_states: Vec<usize> = Vec::new();
            proof {
                lemma_index_set_empty();
                lemma_advance_empty(graph, c);
                assert(frontier.skip(frontier.len() as int) =~= Seq::<usize>::empty());
                assert(frontier.take(frontier.len() as int) =~= frontier);
                assert forall|n: int| self.frontier().contains(n) implies 0 <= n < graph.len() by {
                    lemma_reach_in_graph(graph, text.take(read), n);
                }
            }
            loop
                invariant
                    self.states == old(self).states,
                    self.ptr == old(self).ptr,
                    self.anchors == old(self).anchors,
                    self.groups == old(self).groups,
                    graph == self@,
                    closed(graph),
                    self.next_states.len() <= frontier.len(),
                    self.next_states@ == frontier.take(self.next_states.len() as int),
                    forall|n: int| index_set(frontier).contains(n) ==> 0 <= n < graph.len(),
                    new_states@.no_duplicates(),
                    index_set(new_states@) == advance(
                        graph,
                        index_set(frontier.skip(self.next_states.len() as int)),
                        c,
                    ),
                ensures
                    self.next_states.len() == 0,
                decreases self.next_states.len(),
            {
                let ghost left = self.next_states.len() as int;
                let current = match self.get_next_state() {
                    Some(current) => current,
                    None => {
                        break ;
                    },
                };
                proof {
                    assert(current == frontier[left - 1]);
                    lemma_index_set_member(frontier, left - 1);
                    assert(self.next_states@ =~= frontier.take(left - 1));
                }
                self.follow(current, c, &mut new_states);
                proof {
                    let done = index_set(frontier.skip(left));
                    let more = index_set(frontier.skip(left - 1));
                    lemma_index_set_skip(frontier, left - 1);
                    assert(more =~= done + set![current as int]);
                    lemma_advance_union(graph, done, set![current as int], c);
                }
            }
            core::mem::swap(&mut self.next_states, &mut new_states);
            proof {
                assert(frontier.skip(0) =~= frontier);
                assert(text.skip(read)[0] == text[read]);
                assert(text.skip(read).drop_first() =~= text.skip(read + 1));
                assert(text.take(read + 1).drop_last() =~= text.take(read));
                assert(text.take(read + 1).last() == text[read]);
                read = read + 1;
            }
        }
        proof {
            assert(text.take(read) =~= text);
            lemma_accepts_is_accepting(graph, text);
            assert forall|k: int| 0 <= k < self.next_states.len() implies self.next_states[k]
                < self.states.len() by {
                lemma_index_set_member(self.next_states@, k);
                lemma_reach_in_graph(graph, text, self.next_states@[k] as int);
            }
        }
        self.found_match()
    }
}

} // verus!
