//! Copying and hashing an [`IndexSet`], and its chunk vector.
use vstd::prelude::*;
use vstd::std_specs::convert::FromSpecImpl;
use crate::index_set::IndexSet;

verus! {

impl Clone for IndexSet {
    /// A copy with the same variant and the same chunks.
    fn clone(&self) -> (r: Self)
        ensures
            r.tag() == self.tag(),
            r.num_chunks() == self.num_chunks(),
            forall|k: nat| #[trigger] r.chunk(k) == self.chunk(k),
            r@ == self@,
    {
        let r = match self {
            IndexSet::Small(b) => IndexSet::Small(*b),
            IndexSet::Medium(b) => IndexSet::Medium(*b),
            IndexSet::Large(b) => IndexSet::Large(*b),
            IndexSet::Heap(v) => {
                let mut w: Vec<u64> = Vec::new();
                let mut i: usize = 0;
                while i < v.len()
                    invariant
                        i <= v.len(),
                        w.len() == i,
                        forall|k: int| 0 <= k < i ==> w[k] == v[k],
                    decreases v.len() - i,
                {
                    w.push(v[i]);
                    i = i + 1;
                }
                IndexSet::Heap(w)
            },
        };
        proof {
            r.lemma_view_from_chunks(*self);
        }
        r
    }
}

impl From<IndexSet> for Vec<u64> {
    /// The chunks the variant stores, lowest first.
    fn from(set: IndexSet) -> (r: Vec<u64>)
        ensures
            r.len() == set.num_chunks(),
            forall|k: int| 0 <= k < r.len() ==> r[k] == set.chunk(k as nat),
    {
        match set {
            IndexSet::Small(bits) => {
                let mut v = Vec::new();
                v.push(bits as u64);
                v
            },
            IndexSet::Medium(bits) => {
                let mut v = Vec::new();
                v.push(bits);
                v
            },
            IndexSet::Large(bits) => {
                let mut v = Vec::new();
                v.push(bits as u64);
                v.push((bits >> 64u128) as u64);
                v
            },
            IndexSet::Heap(vec) => vec,
        }
    }
}

impl FromSpecImpl<IndexSet> for Vec<u64> {
    open spec fn obeys_from_spec() -> bool {
        false
    }

    open spec fn from_spec(v: IndexSet) -> Vec<u64> {
        vstd::pervasive::arbitrary()
    }
}

/// Calls `Hash::hash` of `usize`: feeds the value to the hasher. Nothing is
/// claimed of the hasher, which is `H`'s own code.
#[verifier::external_body]
fn hash_usize<H: core::hash::Hasher>(value: usize, state: &mut H) {
    core::hash::Hash::hash(&value, state)
}

impl core::hash::Hash for IndexSet {
    /// Feeds the hasher the number of slots, then each slot in ascending
    /// order, so that equal sets hash alike whatever their variants. A set
    /// with more than `usize::MAX / 64` chunks, whose slots `usize` cannot
    /// all number, feeds it nothing.
    fn hash<H: core::hash::Hasher>(&self, state: &mut H) {
        if self.max_chunks() <= usize::MAX / 64 {
            proof {
                self.lemma_numbered_by_usize();
            }
            hash_usize(self.count_ones(), state);
            let mut it = self.iter();
            loop
                invariant
                    it.wf(),
                decreases it.rest().len(),
            {
                match it.next() {
                    Some(idx) => hash_usize(idx, state),
                    None => break,
                }
            }
        }
    }
}

} // verus!
