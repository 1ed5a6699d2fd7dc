//! A nesting depth for hierarchical log output.
use vstd::prelude::*;

verus! {

/// How deep the current log line nests.
#[derive(Clone, Copy)]
pub struct Indent {
    pub count: usize,
}

impl Indent {
    /// Start at the top level.
    pub fn new() -> (r: Indent)
        ensures
            r.count == 0,
    {
        Indent { count: 0 }
    }

    /// Step one level deeper.
    pub fn indent(&mut self)
        requires
            old(self).count < usize::MAX,
        ensures
            final(self).count == old(self).count + 1,
    {
        self.count += 1;
    }

    /// The line prefix this depth asks for: two dashes per level, then a
    /// single space after at least one level. The depth bound only keeps
    /// the prefix length within the machine's address range.
    pub fn render(&self) -> (r: Vec<u8>)
        requires
            self.count <= (usize::MAX - 1) / 2,
        ensures
            r@.len() == if self.count == 0 {
                0
            } else {
                2 * self.count + 1
            },
            forall|i: int| 0 <= i < 2 * self.count ==> r@[i] == 45,
            self.count > 0 ==> r@[2 * self.count] == 32,
    {
        let mut r: Vec<u8> = Vec::new();
        let mut i: usize = 0;
        while i < self.count
            invariant
                self.count <= (usize::MAX - 1) / 2,
                0 <= i <= self.count,
                r@.len() == 2 * i,
                forall|j: int| 0 <= j < 2 * i ==> r@[j] == 45,
            decreases self.count - i,
        {
            r.push(45);
            r.push(45);
            i += 1;
        }
        if self.count > 0 {
            r.push(32);
        }
        r
    }
}

} // verus!
