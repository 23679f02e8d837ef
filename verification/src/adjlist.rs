//! Adjacency list: a flat id sequence and a bitmap marking each position
//! that is the last sibling under its parent.
use vstd::prelude::*;

use crate::bits::{Bitmap, rank1_of, sel1, spec_find, lemma_sel1_props, lemma_sel1_unique,
    lemma_rank1_monotone};
use crate::sequence::Sequence;

verus! {

/// Pair of id sequence and last-sibling bitmap with constant-time
/// navigation between parents and child ranges.
pub struct AdjList {
    pub sequence: Sequence,
    pub bitmap: Bitmap,
}

impl AdjList {
    /// The stored ids.
    pub open spec fn ids(self) -> Seq<nat> {
        self.sequence.vals()
    }

    /// The last-sibling bits.
    pub open spec fn bits(self) -> Seq<bool> {
        self.bitmap@
    }

    /// Sequence and bitmap agree in length, and the final group terminates.
    pub open spec fn wf(self) -> bool {
        &&& self.sequence.wf()
        &&& self.bitmap@.len() == self.sequence.entries
        &&& self.sequence.entries > 0 ==> self.bitmap@[self.sequence.entries - 1]
    }

    /// Number of stored ids.
    pub fn len(&self) -> (r: usize)
        ensures
            r == self.sequence.entries,
    {
        self.sequence.len()
    }

    /// The id at `pos`; zero when out of range.
    pub fn get_id(&self, pos: usize) -> (r: usize)
        ensures
            self.sequence.wf() && pos < self.sequence.entries ==> r as nat == self.ids()[
                pos as int],
    {
        self.sequence.get(pos)
    }

    /// Whether `pos` is the last sibling under its parent.
    pub fn at_last_sibling(&self, pos: usize) -> (r: bool)
        ensures
            pos < self.bits().len() ==> r == self.bits()[pos as int],
    {
        self.bitmap.get(pos)
    }

    /// First position of the children of parent `k` (zero-based parents);
    /// the total length once `k` runs past the stored parents.
    pub fn find(&self, k: usize) -> (r: usize)
        ensures
            r as int == spec_find(self.bits(), k as nat),
            r <= self.bits().len(),
    {
        if k == 0 {
            return 0;
        }
        let n = self.bitmap.len();
        match self.bitmap.select1(k - 1) {
            Some(i) => {
                proof {
                    let s = self.bits();
                    lemma_rank1_monotone(s, i + 1, s.len() as int);
                    assert(rank1_of(s, i + 1) == (k - 1) + 1);
                    lemma_sel1_props(s, (k - 1) as nat);
                    lemma_sel1_unique(s, i as int, sel1(s, (k - 1) as nat));
                }
                i + 1
            },
            None => {
                n
            },
        }
    }

    /// Position of the last child of parent `k`; the total length once `k`
    /// runs past the stored parents.
    pub fn last(&self, k: usize) -> (r: usize)
        ensures
            k < rank1_of(self.bits(), self.bits().len() as int) ==> r as int == sel1(
                self.bits(),
                k as nat,
            ),
            r <= self.bits().len(),
    {
        match self.bitmap.select1(k) {
            Some(i) => {
                proof {
                    let s = self.bits();
                    lemma_rank1_monotone(s, i + 1, s.len() as int);
                    assert(rank1_of(s, i + 1) == k + 1);
                    lemma_sel1_props(s, k as nat);
                    lemma_sel1_unique(s, i as int, sel1(s, k as nat));
                }
                i
            },
            None => self.bitmap.len(),
        }
    }
}

} // verus!
