//! A regular-expression engine without backtracking.
//!
//! A pattern is compiled into a graph of states; a candidate string matches
//! when the graph can consume all of it and then reach the accepting state.
//! A pattern is made of literal characters, `.` for any character, the
//! quantifiers `*`, `+` and `?`, `|` between alternatives and `(` `)` around
//! groups.
//!
//! The engine:
//! - [`graph`]: states, their edges, and the graph as mathematics;
//! - [`regex`]: the compiler, one method for each kind of token;
//! - [`matcher`]: the matching engine;
//! - [`haystack`], [`scanner`], [`error`]: the text that is read and what can
//!   be wrong with a pattern.
//!
//! What the engine is proved to do:
//! - [`layout`]: what each token does to the states, their targets in
//!   order; [`builder`]: what it does to the graph that they hold; and
//!   [`faults`]: which patterns compile;
//! - [`accept`]: what it means for a graph to accept a string;
//! - [`syntax`], [`parse`]: patterns as trees, and what a tree matches;
//! - [`wiring`], [`growth`], [`loops`], [`language`]: the graph of a pattern
//!   accepts what its tree matches;
//! - [`laws`]: what follows for every pattern and every string.

use vstd::prelude::*;

pub mod accept;
pub mod builder;
pub mod error;
pub mod faults;
pub mod graph;
pub mod growth;
pub mod haystack;
pub mod language;
pub mod laws;
pub mod layout;
pub mod loops;
pub mod matcher;
pub mod parse;
pub mod regex;
pub mod scanner;
pub mod syntax;
pub mod wiring;

pub use crate::error::CompileError;
pub use crate::graph::{State, Type};
pub use crate::haystack::HayStack;
pub use crate::regex::Regex;

use crate::accept::accepts;
use crate::builder::compile_spec;
use crate::faults::fault;

verus! {

/// Whether the pattern `p` matches the whole of `s`, or why `p` is no
/// pattern.
pub open spec fn is_match_spec(s: Seq<char>, p: Seq<char>) -> Result<bool, CompileError> {
    match compile_spec(p) {
        Ok(graph) => Ok(accepts(graph, s)),
        Err(e) => Err(e),
    }
}

/// Compiles the pattern `p` and decides whether it matches the whole of `s`.
pub fn is_match(s: String, p: String) -> (result: Result<bool, CompileError>)
    ensures
        result == is_match_spec(s@, p@),
        result is Ok <==> fault(p@) is None,
        result matches Err(e) ==> fault(p@) == Some(e),
{
    let mut regex = match Regex::compile(p.as_str()) {
        Ok(regex) => regex,
        Err(e) => {
            return Err(e);
        },
    };
    let haystack = HayStack::new(s.as_str());
    Ok(regex.matches(haystack))
}

} // verus!
