//! What holds of every pattern and every string.

use vstd::prelude::*;
use crate::accept::{
    accepting, accepts, advance_all, is_run, leads_to_match, lemma_accepts_is_accepting,
    lemma_advance_empty, moves, reach,
};
use crate::builder::{
    atom_code, atom_quantifier, compile_spec, compiled, is_quantifier, lemma_alternate_wf,
    lemma_atom_wf, lemma_close_group_wf, lemma_finish_compiled, lemma_open_group_wf,
    lemma_start_wf, run, step, Builder, Quantifier,
};
use crate::error::CompileError;
use crate::graph::{char_code, extends, lemma_char_code, Cell, Kind, Node, WILDCARD};
use crate::layout::compile_lists;
use crate::is_match_spec;
use crate::faults::fault;
use crate::language::lemma_pattern_language;
use crate::parse::{lemma_reads_as_its_tree, tree_of};
use crate::scanner::lookahead;
use crate::syntax::{
    alternatives_end, alternatives_match, alternatives_wf, is_atom, piece_end, row_end,
    row_matches, Item, Piece,
};

verus! {

/// Every step of a compilation keeps what was built: the nodes stay where
/// they are, keep their kinds and keep their edges. The graph that comes out
/// at the end is complete.
pub proof fn lemma_run_grows(b: Builder, pattern: Seq<char>, i: int)
    requires
        b.wf(),
        b.groups.len() >= 1,
        0 <= i,
    ensures
        run(b, pattern, i) matches Ok(done) ==> compiled(done.nodes) && extends(
            done.nodes,
            b.nodes,
        ),
    decreases pattern.len() - i,
{
    if i >= pattern.len() {
        lemma_finish_compiled(b);
    } else {
        match step(b, pattern, i) {
            Ok((after, j)) => {
                let c = pattern[i];
                if c == '|' {
                    lemma_alternate_wf(b);
                } else if c == '(' {
                    lemma_open_group_wf(b);
                } else if c == ')' {
                    let q = choose|q: Quantifier| after == b.close_group(q);
                    lemma_close_group_wf(b, q);
                } else {
                    let (code, q) = choose|code: u32, q: Quantifier| after == b.atom(code, q);
                    lemma_atom_wf(b, code, q);
                }
                lemma_run_grows(after, pattern, j);
                if run(after, pattern, j) is Ok {
                    let done = run(after, pattern, j)->Ok_0;
                    assert forall|k: int| 0 <= k < b.nodes.len() implies (
                    #[trigger] done.nodes[k]).kind == b.nodes[k].kind && b.nodes[k].edges.subset_of(
                        done.nodes[k].edges,
                    ) by {
                        assert(after.nodes[k].kind == b.nodes[k].kind);
                        assert(b.nodes[k].edges.subset_of(after.nodes[k].edges));
                    }
                }
            },
            Err(_) => {},
        }
    }
}

/// The graph of a pattern is complete: the entry sentinel first, the
/// accepting sentinel last, literal nodes between them, every edge within the
/// graph and none to the entry sentinel.
pub proof fn lemma_compile_spec_compiled(pattern: Seq<char>)
    ensures
        compile_spec(pattern) matches Ok(graph) ==> compiled(graph),
{
    if pattern.len() > 0 {
        lemma_start_wf();
        lemma_run_grows(Builder::start(), pattern, 0);
    }
}

/// The frontier after two strings in a row is the frontier after the first,
/// moved over the second.
pub proof fn lemma_reach_concat(graph: Seq<Node>, text: Seq<char>, rest: Seq<char>)
    ensures
        reach(graph, text + rest) == advance_all(graph, reach(graph, text), rest),
    decreases rest.len(),
{
    if rest.len() == 0 {
        assert(text + rest =~= text);
    } else {
        lemma_reach_concat(graph, text, rest.drop_last());
        assert((text + rest).drop_last() =~= text + rest.drop_last());
        assert((text + rest).last() == rest.last());
    }
}

/// A match is a match of the whole string. Whatever follows a part of the
/// string that has been read must itself be read from where that part left
/// the graph: `text + rest` is accepted exactly when the frontier after
/// `text`, moved over all of `rest`, is accepting. That `text` alone would be
/// accepted does not count.
pub proof fn lemma_unread_input_decides(graph: Seq<Node>, text: Seq<char>, rest: Seq<char>)
    ensures
        accepts(graph, text + rest) <==> accepting(
            graph,
            advance_all(graph, reach(graph, text), rest),
        ),
{
    lemma_reach_concat(graph, text, rest);
    lemma_accepts_is_accepting(graph, text + rest);
}

/// Nothing leads out of an empty frontier.
pub proof fn lemma_empty_frontier_stays_empty(graph: Seq<Node>, rest: Seq<char>)
    ensures
        advance_all(graph, Set::empty(), rest) == Set::<int>::empty(),
    decreases rest.len(),
{
    if rest.len() > 0 {
        lemma_empty_frontier_stays_empty(graph, rest.drop_last());
        lemma_advance_empty(graph, rest.last());
    }
}

/// Once no state is live, no continuation is accepted.
pub proof fn lemma_dead_prefix_rejects(graph: Seq<Node>, text: Seq<char>, rest: Seq<char>)
    requires
        reach(graph, text) == Set::<int>::empty(),
    ensures
        !accepts(graph, text + rest),
{
    lemma_unread_input_decides(graph, text, rest);
    lemma_empty_frontier_stays_empty(graph, rest);
}

/// Compiling is a function of the pattern: two compilations of one pattern
/// end alike, and where they succeed their graphs accept the same strings.
pub proof fn lemma_same_pattern_same_verdict(
    first: Result<Seq<Node>, CompileError>,
    second: Result<Seq<Node>, CompileError>,
    pattern: Seq<char>,
    text: Seq<char>,
)
    requires
        first == compile_spec(pattern),
        second == compile_spec(pattern),
    ensures
        first == second,
        first matches Ok(a) ==> second matches Ok(b) && accepts(a, text) == accepts(b, text),
{
}

/// Matching is a function of the graph and the string: two verdicts on the
/// same graph and the same string are the same verdict.
pub proof fn lemma_same_graph_same_verdict(
    graph: Seq<Node>,
    text: Seq<char>,
    first: bool,
    second: bool,
)
    requires
        first == accepts(graph, text),
        second == accepts(graph, text),
    ensures
        first == second,
{
}

/// The graph of the pattern `.*`.
pub open spec fn dot_star_graph() -> Seq<Node> {
    seq![
        Node { kind: Kind::Begin, edges: set![1int, 2int] },
        Node { kind: Kind::Literal(WILDCARD), edges: set![1int, 2int] },
        Node { kind: Kind::Match, edges: Set::empty() },
    ]
}

/// The pattern `.*` compiles to a wildcard node that leads to itself, with an
/// edge to the accepting sentinel from it and from the entry sentinel.
pub proof fn lemma_dot_star_compiles()
    ensures
        compile_spec(".*"@) == Ok::<Seq<Node>, CompileError>(dot_star_graph()),
{
    reveal_strlit(".*");
    let pattern = ".*"@;
    assert(pattern.len() == 2);
    assert(pattern[0] == '.');
    assert(pattern[1] == '*');
    let start = Builder::start();
    let after = start.atom(WILDCARD, Quantifier::ZeroOrMore);
    assert(step(start, pattern, 0) == Ok::<(Builder, int), CompileError>((after, 2int)));
    assert(run(after, pattern, 2) == Ok::<Builder, CompileError>(after.finish()));
    assert(run(start, pattern, 0) == run(after, pattern, 2));
    assert(after.anchors =~= set![0int, 1int]);
    assert(after.finish().nodes =~~= dot_star_graph());
}

/// The pattern `.*` matches every string.
pub proof fn lemma_dot_star_matches_everything(text: Seq<char>)
    ensures
        is_match_spec(text, ".*"@) == Ok::<bool, CompileError>(true),
{
    lemma_dot_star_compiles();
    let graph = dot_star_graph();
    let path = Seq::new(text.len() + 1, |i: int| if i == 0 { 0int } else { 1int });
    assert forall|i: int| 0 <= i < text.len() implies moves(
        graph,
        #[trigger] path[i],
        text[i],
        path[i + 1],
    ) by {
        assert(graph[1].kind.admits(crate::graph::char_code(text[i])));
    }
    assert(is_run(graph, path, text));
    assert(graph[2].kind is Match);
    assert(crate::accept::edge(graph, path.last(), 2));
    assert(leads_to_match(graph, path.last()));
}

/// A pattern that is one atom, with or without a quantifier, matches
/// exactly the strings that the atom consumes under that quantifier: one
/// character that the atom admits where there is no quantifier, at most one
/// under `?`, any number under `*`, and at least one under `+`.
pub proof fn lemma_one_atom_pattern(pattern: Seq<char>, text: Seq<char>)
    requires
        1 <= pattern.len() <= 2,
        is_atom(pattern[0]),
        pattern.len() == 2 ==> is_quantifier(pattern[1]),
    ensures
        is_match_spec(text, pattern) == Ok::<bool, CompileError>(
            (Item {
                code: atom_code(pattern[0]),
                q: atom_quantifier(lookahead(pattern, 1)),
            }).consumes(text),
        ),
{
    let item = Item { code: atom_code(pattern[0]), q: atom_quantifier(lookahead(pattern, 1)) };
    let piece = Piece::Atom(item);
    let row = seq![piece];
    let alternatives = seq![row];
    reveal_with_fuel(row_end, 2);
    reveal_with_fuel(row_matches, 2);
    assert(row.drop_last() =~= Seq::<Piece>::empty());
    assert(row.last() == piece);
    assert(piece_end(pattern, 0, piece) == Some(pattern.len() as int));
    assert(row_end(pattern, 0, row) == Some(pattern.len() as int));
    assert(alternatives_end(pattern, 0, alternatives) == Some(pattern.len() as int));
    lemma_pattern_language(pattern, alternatives, text);
    if alternatives_match(alternatives, text) {
        let i = choose|i: int|
            0 <= i < alternatives.len() && row_matches(#[trigger] alternatives[i], text);
        let k = choose|k: int|
            0 <= k <= text.len() && row_matches(row.drop_last(), #[trigger] text.take(k))
                && crate::syntax::piece_matches(row.last(), text.skip(k));
        assert(text.take(k).len() == 0);
        assert(text.skip(k) =~= text);
    }
    if item.consumes(text) {
        assert(text.take(0) =~= Seq::<char>::empty());
        assert(text.skip(0) =~= text);
        assert(row_matches(row.drop_last(), text.take(0)));
        assert(row_matches(alternatives[0], text));
    }
}

/// A pattern without a fault matches exactly the strings that its tree
/// matches, provided that in the tree every alternative of a group that may
/// repeat begins with an atom that cannot be left out.
pub proof fn lemma_pattern_matches_its_tree(pattern: Seq<char>, text: Seq<char>)
    requires
        fault(pattern) is None,
        alternatives_wf(tree_of(pattern)),
    ensures
        is_match_spec(text, pattern) == Ok::<bool, CompileError>(
            alternatives_match(tree_of(pattern), text),
        ),
{
    lemma_reads_as_its_tree(pattern);
    lemma_pattern_language(pattern, tree_of(pattern), text);
}

/// A pattern that is one literal character matches that character and
/// nothing else. Only `.` matches other characters than itself.
pub proof fn lemma_one_literal_pattern(c: char, text: Seq<char>)
    requires
        is_atom(c),
        c != '.',
    ensures
        is_match_spec(text, seq![c]) == Ok::<bool, CompileError>(text == seq![c]),
{
    let pattern = seq![c];
    lemma_one_atom_pattern(pattern, text);
    let item = Item { code: atom_code(c), q: atom_quantifier(lookahead(pattern, 1)) };
    assert(item.q is One);
    assert(item.code == char_code(c));
    if item.consumes(text) {
        lemma_char_code(text[0], c);
        assert(item.admits(text[0]));
        assert(text =~= seq![c]);
    }
    if text == seq![c] {
        lemma_char_code(c, c);
        assert forall|i: int| 0 <= i < text.len() implies item.admits(#[trigger] text[i]) by {}
        assert(item.consumes(text));
    }
}

/// Compiling lays the states out as a function of the pattern: two
/// compilations of one pattern end alike, and where they succeed they give
/// the same states, each with the same kind and the same list of targets in
/// the same order.
pub proof fn lemma_same_pattern_same_states(
    first: Result<Seq<Cell>, CompileError>,
    second: Result<Seq<Cell>, CompileError>,
    pattern: Seq<char>,
)
    requires
        first == compile_lists(pattern),
        second == compile_lists(pattern),
    ensures
        first == second,
        first matches Ok(a) ==> second matches Ok(b) && a.len() == b.len() && forall|i: int|
            0 <= i < a.len() ==> (#[trigger] a[i]).kind == b[i].kind && a[i].edges == b[i].edges,
{
}

} // verus!
