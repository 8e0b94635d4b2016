use crate::text::{chars_of, string_of};
use vstd::prelude::*;

verus! {

/// Declaration text gathered line by line, to be loaded as a file of its own.
#[derive(Default, Clone, Debug, PartialEq, Eq)]
pub struct Options {
    init: String,
}

impl Options {
    pub closed spec fn text(&self) -> Seq<char> {
        self.init@
    }

    /// No lines yet.
    pub fn empty() -> (r: Options)
        ensures
            r.text().len() == 0,
    {
        Options { init: String::new() }
    }

    /// Adds `line`, and a line end after it.
    pub fn with(&mut self, line: &str) -> (r: &mut Options)
        ensures
            r.text() == old(self).text() + line@ + seq!['\n'],
            *final(self) == *final(r),
    {
        let mut v = chars_of(self.init.as_str());
        let w = chars_of(line);
        let ghost base = v@;
        let mut i: usize = 0;
        while i < w.len()
            invariant
                0 <= i <= w@.len(),
                v@ == base + w@.take(i as int),
            decreases w@.len() - i,
        {
            v.push(w[i]);
            assert(w@.take(i + 1) =~= w@.take(i as int).push(w@[i as int]));
            i = i + 1;
        }
        v.push('\n');
        assert(w@.take(w@.len() as int) =~= w@);
        assert(v@ =~= base + line@ + seq!['\n']);
        self.init = string_of(v.as_slice());
        self
    }

    /// The text gathered so far.
    pub fn init(&self) -> (r: &str)
        ensures
            r@ == self.text(),
    {
        self.init.as_str()
    }
}

} // verus!
