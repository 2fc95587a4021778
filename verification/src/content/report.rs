//! What one pass of the loader did.
use vstd::prelude::*;
use crate::content::digest::Changed;
use crate::text::{sort_texts, texts_sorted};

verus! {

/// What one pass of the loader did.
#[derive(Debug, PartialEq, Eq)]
pub struct LoadReport {
    /// Keys whose content actually moved, sorted once the pass is finished.
    pub changed: Vec<String>,
    /// How many entries were already up to date.
    pub unchanged: usize,
}

impl Default for LoadReport {
    fn default() -> (r: Self)
        ensures
            r.changed@ == Seq::<String>::empty(),
            r.unchanged == 0,
    {
        LoadReport { changed: Vec::new(), unchanged: 0 }
    }
}

impl LoadReport {
    /// Count an entry that was already up to date.
    pub fn skip(&mut self)
        requires
            old(self).unchanged < usize::MAX,
        ensures
            final(self).changed@ == old(self).changed@,
            final(self).unchanged == old(self).unchanged + 1,
    {
        self.unchanged = self.unchanged + 1;
    }

    /// Record what writing `key` did: a key whose content moved is listed, one whose digest
    /// already matched is counted as unchanged.
    pub fn record(&mut self, key: String, outcome: Changed)
        requires
            outcome == Changed::No ==> old(self).unchanged < usize::MAX,
        ensures
            outcome == Changed::Yes ==> final(self).changed@ == old(self).changed@.push(key)
                && final(self).unchanged == old(self).unchanged,
            outcome == Changed::No ==> final(self).changed@ == old(self).changed@
                && final(self).unchanged == old(self).unchanged + 1,
    {
        match outcome {
            Changed::Yes => self.changed.push(key),
            Changed::No => self.unchanged = self.unchanged + 1,
        }
    }

    /// End the pass: the changed keys, in order.
    pub fn finish(&mut self)
        ensures
            texts_sorted(final(self).changed@),
            final(self).changed@.to_multiset() == old(self).changed@.to_multiset(),
            final(self).unchanged == old(self).unchanged,
    {
        sort_texts(&mut self.changed);
    }
}

impl Changed {
    /// What a targeted load reports for `key`: the key when its content moved, nothing when
    /// the digest already matched.
    pub fn moved_key(self, key: String) -> (r: Option<String>)
        ensures
            self == Changed::Yes ==> r == Some(key),
            self == Changed::No ==> r is None,
    {
        match self {
            Changed::Yes => Some(key),
            Changed::No => None,
        }
    }
}

} // verus!
