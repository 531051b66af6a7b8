//! The pattern text, read with one character of lookahead.

use vstd::prelude::*;
use crate::haystack::collect_chars;

verus! {

/// The characters of a pattern and the position of the next one to read.
pub struct Scanner {
    pub chars: Vec<char>,
    pub pos: usize,
}

/// The character of `text` at `i`, if there is one.
pub open spec fn lookahead(text: Seq<char>, i: int) -> Option<char> {
    if 0 <= i < text.len() {
        Some(text[i])
    } else {
        None
    }
}

impl Scanner {
    /// The position lies within the text or at its end.
    pub open spec fn wf(&self) -> bool {
        self.pos <= self.chars.len()
    }

    /// A scanner at the start of the pattern.
    pub fn new(pattern: &str) -> (scanner: Scanner)
        ensures
            scanner.wf(),
            scanner.chars@ == pattern@,
            scanner.pos == 0,
    {
        Scanner { chars: collect_chars(pattern), pos: 0 }
    }

    /// The next character, which stays unread.
    pub fn peek(&self) -> (c: Option<char>)
        ensures
            c == lookahead(self.chars@, self.pos as int),
    {
        if self.pos < self.chars.len() {
            Some(self.chars[self.pos])
        } else {
            None
        }
    }

    /// The character read last.
    pub fn previous(&self) -> (c: Option<char>)
        requires
            self.wf(),
        ensures
            c == lookahead(self.chars@, self.pos - 1),
    {
        if self.pos > 0 {
            Some(self.chars[self.pos - 1])
        } else {
            None
        }
    }

    /// Reads the next character, if one is left.
    pub fn next(&mut self) -> (c: Option<char>)
        requires
            old(self).wf(),
        ensures
            final(self).wf(),
            final(self).chars == old(self).chars,
            c == lookahead(old(self).chars@, old(self).pos as int),
            final(self).pos == if c is Some {
                old(self).pos + 1
            } else {
                old(self).pos as int
            },
    {
        if self.pos < self.chars.len() {
            let c = self.chars[self.pos];
            self.pos = self.pos + 1;
            Some(c)
        } else {
            None
        }
    }
}

} // verus!
