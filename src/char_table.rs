//! A dense table from characters to control tags, indexed by code point.
use vstd::prelude::*;

use crate::ControlFlow;

verus! {

/// Maps each character to its control tag, if it has one.
///
/// The table holds one slot per code point up to the largest one inserted.
#[derive(Clone, Debug)]
pub struct CharTable {
    max_idx: usize,
    table: Vec<Option<ControlFlow>>,
}

impl CharTable {
    /// The table's slots cover exactly the code points `0..=max_idx`.
    pub closed spec fn wf(&self) -> bool {
        self.table.len() == self.max_idx + 1
    }

    /// The tag that the table gives to `c`.
    pub closed spec fn lookup(&self, c: char) -> Option<ControlFlow> {
        if (c as u32) <= self.max_idx {
            self.table@[c as u32 as int]
        } else {
            None
        }
    }

    /// An empty table: no character has a tag.
    pub fn new() -> (r: CharTable)
        ensures
            r.wf(),
            forall|c: char| r.lookup(c) == None::<ControlFlow>,
    {
        CharTable { max_idx: 0, table: vec![None] }
    }

    /// Gives `idx` the tag `value`, replacing any tag it had before.
    pub fn insert(&mut self, idx: char, value: ControlFlow)
        requires
            old(self).wf(),
        ensures
            final(self).wf(),
            final(self).lookup(idx) == Some(value),
            forall|c: char| c != idx ==> final(self).lookup(c) == old(self).lookup(c),
    {
        let idx: usize = idx as u32 as usize;
        if idx > self.max_idx {
            while self.table.len() <= idx
                invariant
                    self.max_idx < self.table.len() <= idx + 1,
                    forall|i: int| 0 <= i <= self.max_idx ==> self.table@[i] == old(self).table@[i],
                    forall|i: int| self.max_idx < i < self.table.len() ==> self.table@[i] is None,
                    self.max_idx == old(self).max_idx,
                    old(self).wf(),
                decreases idx + 1 - self.table.len(),
            {
                self.table.push(None);
            }
            self.max_idx = idx;
        }
        self.table.set(idx, Some(value));
        proof {
            assert forall|c: char| c != idx implies self.lookup(c) == old(self).lookup(c) by {
                vstd::utf8::char_u32_cast(c, c as u32);
            }
        }
    }

    /// The tag of `idx`, if it has one.
    pub fn get(&self, idx: char) -> (r: Option<&ControlFlow>)
        requires
            self.wf(),
        ensures
            r is Some <==> self.lookup(idx) is Some,
            r is Some ==> *r->0 == self.lookup(idx)->0,
    {
        let idx: usize = idx as u32 as usize;
        if idx > self.max_idx {
            None
        } else {
            self.table[idx].as_ref()
        }
    }
}

impl Default for CharTable {
    fn default() -> (r: CharTable)
        ensures
            r.wf(),
            forall|c: char| r.lookup(c) == None::<ControlFlow>,
    {
        CharTable::new()
    }
}

} // verus!
