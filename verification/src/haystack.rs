//! The candidate string, read one character at a time.

use vstd::prelude::*;

verus! {

/// The characters of a candidate string and the position of the next one to
/// read. Its view is what is still to be read.
pub struct HayStack {
    pub s: Vec<char>,
    pub ptr: usize,
}

impl View for HayStack {
    type V = Seq<char>;

    open spec fn view(&self) -> Seq<char> {
        if self.ptr <= self.s.len() {
            self.s@.skip(self.ptr as int)
        } else {
            Seq::empty()
        }
    }
}

/// The characters of a string, in order.
pub fn collect_chars(s: &str) -> (chars: Vec<char>)
    ensures
        chars@ == s@,
{
    let mut chars: Vec<char> = Vec::new();
    for c in it: s.chars()
        invariant
            chars@ == it.seq().take(it.index() as int),
    {
        chars.push(c);
    }
    chars
}

impl HayStack {
    /// A haystack of which nothing has been read.
    pub fn new(s: &str) -> (haystack: HayStack)
        ensures
            haystack@ == s@,
            haystack.s@ == s@,
            haystack.ptr == 0,
    {
        let s = collect_chars(s);
        HayStack { s, ptr: 0 }
    }

    /// Reads the next character, if one is left.
    pub fn get_char(&mut self) -> (c: Option<char>)
        ensures
            final(self).s == old(self).s,
            old(self)@.len() > 0 ==> c == Some(old(self)@[0]) && final(self)@ == old(
                self,
            )@.drop_first() && final(self).ptr == old(self).ptr + 1,
            old(self)@.len() == 0 ==> c is None && *final(self) == *old(self),
    {
        let old_ptr = self.ptr;
        if old_ptr < self.s.len() {
            self.ptr = old_ptr + 1;
            assert(self@ =~= old(self)@.drop_first());
            Some(self.s[old_ptr])
        } else {
            None
        }
    }
}

} // verus!
