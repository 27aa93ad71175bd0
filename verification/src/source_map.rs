//! The sources of a compilation, each known by its index.

use vstd::prelude::*;
use crate::source::Source;

verus! {

/// All sources that were loaded, in the order of their loading.
pub struct SourceMap {
    pub files: Vec<Source>,
}

impl SourceMap {
    /// Every source has the line starts of its text.
    pub open spec fn wf(&self) -> bool {
        forall|i: int| 0 <= i < self.files@.len() ==> (#[trigger] self.files@[i]).wf()
    }

    /// A map without sources.
    pub fn new() -> (map: Self)
        ensures
            map.files@ == Seq::<Source>::empty(),
            map.wf(),
    {
        Self { files: Vec::new() }
    }

    /// Appends a source and returns its index.
    pub fn add(&mut self, source: Source) -> (id: usize)
        ensures
            final(self).files@ == old(self).files@.push(source),
            id == old(self).files@.len(),
            old(self).wf() && source.wf() ==> final(self).wf(),
    {
        self.files.push(source);
        self.files.len() - 1
    }
}

} // verus!
