//! Comparing [`IndexSet`]s: disjointness and equality of the slot sets,
//! whatever the variants that store them.
use vstd::prelude::*;
use vstd::std_specs::cmp::PartialEqSpecImpl;
use crate::bits::{bv64_bits, bv_words_a, bv_words_b, lemma_or_and_zero};
use crate::index_set::IndexSet;

verus! {

impl IndexSet {
    /// When one side has no chunk at or beyond `n`, disjointness is decided
    /// by the first `n` chunks.
    proof fn lemma_disjoint_upto(self, other: IndexSet, n: nat)
        requires
            n >= self.num_chunks() || n >= other.num_chunks(),
        ensures
            self@.disjoint(other@) <==> forall|k: nat| k < n ==> #[trigger] (self.chunk(k)
                & other.chunk(k)) == 0,
    {
        self.lemma_disjoint_chunks(other);
        assert forall|k: nat| k >= n implies #[trigger] (self.chunk(k) & other.chunk(k)) == 0 by {
            lemma_or_and_zero(self.chunk(k));
            lemma_or_and_zero(other.chunk(k));
        }
    }

    proof fn lemma_first_two(self, other: IndexSet)
        ensures
            (forall|k: nat| k < 2 ==> #[trigger] (self.chunk(k) & other.chunk(k)) == 0) <==> ((
            self.chunk(0) & other.chunk(0)) == 0 && (self.chunk(1) & other.chunk(1)) == 0),
    {
        if (self.chunk(0) & other.chunk(0)) == 0 && (self.chunk(1) & other.chunk(1)) == 0 {
            assert forall|k: nat| k < 2 implies #[trigger] (self.chunk(k) & other.chunk(k))
                == 0 by {
                if k == 0 {
                } else {
                }
            }
        }
    }

    /// No chunk pair among the first `n` overlaps.
    fn chunks_disjoint(&self, other: &Self, n: usize) -> (r: bool)
        ensures
            r == forall|k: nat| k < n ==> #[trigger] (self.chunk(k) & other.chunk(k)) == 0,
    {
        let mut i: usize = 0;
        while i < n
            invariant
                i <= n,
                forall|k: nat| k < i ==> #[trigger] (self.chunk(k) & other.chunk(k)) == 0,
            decreases n - i,
        {
            if (self.chunk_at(i) & other.chunk_at(i)) != 0 {
                return false;
            }
            i = i + 1;
        }
        true
    }

    /// Returns `true` if the two sets have no elements in common.
    pub fn is_disjoint(&self, other: &Self) -> (r: bool)
        ensures
            r == self@.disjoint(other@),
    {
        proof {
            self.lemma_disjoint_chunks(*other);
        }
        let r = match (self, other) {
            (Self::Small(a), Self::Small(b)) => {
                proof {
                    bv_words_b(0, *a, *b);
                }
                (*a & *b) == 0
            },
            (Self::Small(b), Self::Medium(a)) | (Self::Medium(a), Self::Small(b)) => {
                (*a & (*b as u64)) == 0
            },
            (Self::Small(b), Self::Large(a)) | (Self::Large(a), Self::Small(b)) => {
                proof {
                    bv_words_b(0, *b, 0);
                    bv_words_a(*a, *b as u128);
                }
                (*a & (*b as u128)) == 0
            },
            (Self::Medium(a), Self::Medium(b)) => (*a & *b) == 0,
            (Self::Medium(b), Self::Large(a)) | (Self::Large(a), Self::Medium(b)) => {
                proof {
                    bv_words_b(*b, 0, 0);
                    bv_words_a(*a, *b as u128);
                }
                (*a & (*b as u128)) == 0
            },
            (Self::Large(a), Self::Large(b)) => {
                proof {
                    bv_words_a(*a, *b);
                }
                (*a & *b) == 0
            },
            (Self::Heap(a), Self::Heap(b)) => {
                let min_len = if a.len() < b.len() {
                    a.len()
                } else {
                    b.len()
                };
                self.chunks_disjoint(other, min_len)
            },
            (Self::Small(b), Self::Heap(a)) | (Self::Heap(a), Self::Small(b)) => {
                a.len() == 0 || (a[0] & (*b as u64)) == 0
            },
            (Self::Medium(b), Self::Heap(a)) | (Self::Heap(a), Self::Medium(b)) => {
                a.len() == 0 || (a[0] & *b) == 0
            },
            (Self::Large(b), Self::Heap(a)) | (Self::Heap(a), Self::Large(b)) => {
                if a.len() == 0 {
                    true
                } else if (a[0] & (*b as u64)) != 0 {
                    false
                } else if a.len() > 1 && (a[1] & ((*b >> 64u128) as u64)) != 0 {
                    false
                } else {
                    true
                }
            },
        };
        proof {
            let x0 = self.chunk(0);
            let y0 = other.chunk(0);
            let x1 = self.chunk(1);
            let y1 = other.chunk(1);
            bv64_bits(x0, y0, 0, 0);
            bv64_bits(x1, y1, 0, 0);
            lemma_or_and_zero(x0);
            lemma_or_and_zero(y0);
            lemma_or_and_zero(x1);
            lemma_or_and_zero(y1);
            if self is Heap && other is Heap {
                let n = if self.num_chunks() < other.num_chunks() {
                    self.num_chunks()
                } else {
                    other.num_chunks()
                };
                self.lemma_disjoint_upto(*other, n);
            } else if self is Heap {
                other.lemma_disjoint_upto(*self, 2);
                other.lemma_first_two(*self);
                self.lemma_disjoint_chunks(*other);
                other.lemma_disjoint_chunks(*self);
                assert(self@.disjoint(other@) == other@.disjoint(self@));
            } else {
                self.lemma_disjoint_upto(*other, 2);
                self.lemma_first_two(*other);
            }
        }
        r
    }

    /// The first `n` chunks of the two sets agree.
    fn chunks_equal(&self, other: &Self, n: usize) -> (r: bool)
        ensures
            r == forall|k: nat| k < n ==> #[trigger] self.chunk(k) == other.chunk(k),
    {
        let mut i: usize = 0;
        while i < n
            invariant
                i <= n,
                forall|k: nat| k < i ==> #[trigger] self.chunk(k) == other.chunk(k),
            decreases n - i,
        {
            if self.chunk_at(i) != other.chunk_at(i) {
                return false;
            }
            i = i + 1;
        }
        true
    }
}

impl PartialEq for IndexSet {
    /// Two sets are equal when they hold the same slots, whatever their variants.
    fn eq(&self, other: &Self) -> (r: bool) {
        let r = match (self, other) {
            (Self::Small(a), Self::Small(b)) => {
                proof {
                    bv_words_b(0, *a, *b);
                }
                *a == *b
            },
            (Self::Medium(a), Self::Medium(b)) => *a == *b,
            (Self::Large(a), Self::Large(b)) => {
                proof {
                    bv_words_a(*a, *b);
                }
                *a == *b
            },
            _ => {
                let n = if self.max_chunks() < other.max_chunks() {
                    other.max_chunks()
                } else {
                    self.max_chunks()
                };
                self.chunks_equal(other, n)
            },
        };
        proof {
            if r {
                assert forall|k: nat| self.chunk(k) == other.chunk(k) by {
                    if self is Large && other is Large {
                        assert(k < 2 || (self.chunk(k) == 0 && other.chunk(k) == 0));
                    }
                }
                self.lemma_view_from_chunks(*other);
            } else {
                if self@ == other@ {
                    self.lemma_chunks_from_view(*other);
                    assert(self.chunk(0) == other.chunk(0));
                    assert(self.chunk(1) == other.chunk(1));
                }
            }
        }
        r
    }
}

impl PartialEqSpecImpl for IndexSet {
    open spec fn obeys_eq_spec() -> bool {
        true
    }

    open spec fn eq_spec(&self, other: &Self) -> bool {
        self@ == other@
    }
}

impl Eq for IndexSet {

}

} // verus!
