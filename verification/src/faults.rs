//! Which patterns compile, read off the pattern text alone.
//!
//! A pattern is refused for its first fault: a quantifier with nothing to
//! repeat, a `|` that ends the pattern, begins it or follows another `|`, a
//! `)` that closes no group, or, at the end, a group that was never closed.

use vstd::prelude::*;
use crate::builder::{compile_spec, is_quantifier, run, step, Builder};
use crate::error::CompileError;

verus! {

/// The number of groups that are open before position `i`: the `(` before it
/// less the `)` before it.
pub open spec fn depth(pattern: Seq<char>, i: int) -> int
    decreases i,
{
    if i <= 0 {
        0
    } else if pattern[i - 1] == '(' {
        depth(pattern, i - 1) + 1
    } else if pattern[i - 1] == ')' {
        depth(pattern, i - 1) - 1
    } else {
        depth(pattern, i - 1)
    }
}

/// A quantifier at `i` has nothing before it to repeat: it begins the
/// pattern or follows `(`, `|` or another quantifier.
pub open spec fn dangles(pattern: Seq<char>, i: int) -> bool {
    is_quantifier(pattern[i]) && (i == 0 || pattern[i - 1] == '(' || pattern[i - 1] == '|'
        || is_quantifier(pattern[i - 1]))
}

/// What is wrong with the character at `i`, if anything.
pub open spec fn fault_at(pattern: Seq<char>, i: int) -> Option<CompileError> {
    if dangles(pattern, i) {
        Some(CompileError::DanglingQuantifier)
    } else if pattern[i] == '|' && i + 1 == pattern.len() {
        Some(CompileError::TrailingAlternation)
    } else if pattern[i] == '|' && (i == 0 || pattern[i - 1] == '|') {
        Some(CompileError::DanglingQuantifier)
    } else if pattern[i] == ')' && depth(pattern, i) <= 0 {
        Some(CompileError::UnbalancedGroup)
    } else {
        None
    }
}

/// The first fault at or after `i`; at the end of the pattern, a group that
/// is still open.
pub open spec fn first_fault(pattern: Seq<char>, i: int) -> Option<CompileError>
    decreases pattern.len() - i,
{
    if i >= pattern.len() {
        if depth(pattern, pattern.len() as int) > 0 {
            Some(CompileError::UnbalancedGroup)
        } else {
            None
        }
    } else if fault_at(pattern, i) is Some {
        fault_at(pattern, i)
    } else {
        first_fault(pattern, i + 1)
    }
}

/// The error of a pattern, if it has one.
pub open spec fn fault(pattern: Seq<char>) -> Option<CompileError> {
    if pattern.len() == 0 {
        Some(CompileError::EmptyPattern)
    } else {
        first_fault(pattern, 0)
    }
}

/// The compiler can stand at `i`: the character there is no quantifier that
/// the item before it has taken.
pub open spec fn token_start(pattern: Seq<char>, i: int) -> bool {
    i >= pattern.len() || !is_quantifier(pattern[i]) || dangles(pattern, i)
}

/// From any point that the compiler reaches, it fails exactly when a fault
/// lies ahead, and with the first one.
pub proof fn lemma_run_fails_on_first_fault(b: Builder, pattern: Seq<char>, i: int)
    requires
        0 <= i <= pattern.len(),
        token_start(pattern, i),
        b.groups.len() == depth(pattern, i) + 1,
        b.groups.len() >= 1,
    ensures
        match run(b, pattern, i) {
            Ok(_) => first_fault(pattern, i) is None,
            Err(e) => first_fault(pattern, i) == Some(e),
        },
    decreases pattern.len() - i,
{
    if i < pattern.len() {
        let c = pattern[i];
        match step(b, pattern, i) {
            Ok((after, j)) => {
                assert(fault_at(pattern, i) is None);
                assert(depth(pattern, i + 1) + 1 == after.groups.len());
                if j == i + 2 {
                    assert(is_quantifier(pattern[i + 1]));
                    assert(!dangles(pattern, i + 1));
                    assert(fault_at(pattern, i + 1) is None);
                    assert(depth(pattern, i + 2) == depth(pattern, i + 1));
                    assert(first_fault(pattern, i + 1) == first_fault(pattern, i + 2));
                } else {
                    assert(j == i + 1);
                }
                lemma_run_fails_on_first_fault(after, pattern, j);
            },
            Err(e) => {
                assert(fault_at(pattern, i) == Some(e));
            },
        }
    }
}

/// A pattern compiles exactly when it has no fault, and a pattern that does
/// not compile is refused for its first fault.
pub proof fn lemma_compile_fails_on_first_fault(pattern: Seq<char>)
    ensures
        match compile_spec(pattern) {
            Ok(_) => fault(pattern) is None,
            Err(e) => fault(pattern) == Some(e),
        },
{
    if pattern.len() > 0 {
        lemma_run_fails_on_first_fault(Builder::start(), pattern, 0);
    }
}

} // verus!
