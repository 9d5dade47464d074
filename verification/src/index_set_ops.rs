//! Set algebra on [`IndexSet`]: union (`|`) and intersection (`&`).
use vstd::prelude::*;
use vstd::std_specs::ops::{BitAndSpecImpl, BitOrSpecImpl};
use core::ops::{BitAnd, BitAndAssign, BitOr, BitOrAssign};
use crate::bits::{bv64_bits, bv_join, bv_words_a, bv_words_b, bv_words_c, lemma_or_and_zero};
use crate::index_set::IndexSet;

verus! {

/// Larger of two naturals.
pub open spec fn max_nat(a: nat, b: nat) -> nat {
    if a >= b {
        a
    } else {
        b
    }
}

impl IndexSet {
    /// Union of the bits stored in two Heap vectors, in place in `a`.
    fn heap_or(a: &mut Vec<u64>, b: &Vec<u64>)
        ensures
            final(a).len() == max_nat(old(a).len() as nat, b.len() as nat),
            forall|k: nat| #[trigger] IndexSet::Heap(*final(a)).chunk(k) == IndexSet::Heap(
                *old(a),
            ).chunk(k) | IndexSet::Heap(*b).chunk(k),
    {
        let ghost a0 = *a;
        if a.len() < b.len() {
            a.resize(b.len(), 0);
        }
        let n = b.len();
        let mut i: usize = 0;
        while i < n
            invariant
                n == b.len(),
                a.len() == max_nat(a0.len() as nat, b.len() as nat),
                i <= n,
                forall|k: int| 0 <= k < i ==> a[k] == IndexSet::Heap(a0).chunk(k as nat) | b[k],
                forall|k: int|
                    i <= k < a.len() ==> a[k] == IndexSet::Heap(a0).chunk(k as nat),
            decreases n - i,
        {
            let x = a[i];
            a.set(i, x | b[i]);
            i = i + 1;
        }
        proof {
            assert forall|k: nat| #[trigger] IndexSet::Heap(*a).chunk(k) == IndexSet::Heap(
                a0,
            ).chunk(k) | IndexSet::Heap(*b).chunk(k) by {
                lemma_or_and_zero(IndexSet::Heap(a0).chunk(k));
            }
        }
    }

    /// Intersection of the bits stored in two Heap vectors, in place in `a`.
    fn heap_and(a: &mut Vec<u64>, b: &Vec<u64>)
        ensures
            final(a).len() <= old(a).len(),
            final(a).len() <= b.len(),
            forall|k: nat| #[trigger] IndexSet::Heap(*final(a)).chunk(k) == IndexSet::Heap(
                *old(a),
            ).chunk(k) & IndexSet::Heap(*b).chunk(k),
    {
        let ghost a0 = *a;
        let n = if a.len() < b.len() {
            a.len()
        } else {
            b.len()
        };
        a.truncate(n);
        let mut i: usize = 0;
        while i < n
            invariant
                n <= b.len(),
                n <= a0.len(),
                a.len() == n,
                i <= n,
                forall|k: int| 0 <= k < i ==> a[k] == a0[k] & b[k],
                forall|k: int| i <= k < n ==> a[k] == a0[k],
            decreases n - i,
        {
            let x = a[i];
            a.set(i, x & b[i]);
            i = i + 1;
        }
        proof {
            assert forall|k: nat| #[trigger] IndexSet::Heap(*a).chunk(k) == IndexSet::Heap(
                a0,
            ).chunk(k) & IndexSet::Heap(*b).chunk(k) by {
                lemma_or_and_zero(IndexSet::Heap(a0).chunk(k));
                lemma_or_and_zero(IndexSet::Heap(*b).chunk(k));
            }
        }
    }
}

impl BitOr for IndexSet {
    type Output = Self;

    /// Union of two sets; the result has the larger of the two variants.
    fn bitor(self, rhs: Self) -> (r: Self)
        ensures
            r@ == self@.union(rhs@),
            r.tag() == max_nat(self.tag(), rhs.tag()),
            r.tag() == 3 ==> r.num_chunks() == max_nat(self.num_chunks(), rhs.num_chunks()),
            self.fits() && rhs.fits() ==> r.fits(),
    {
        let ghost a0 = self;
        let ghost b0 = rhs;
        let r = match (self, rhs) {
            (Self::Small(a), Self::Small(b)) => Self::Small(a | b),
            (Self::Small(b), Self::Medium(a)) | (Self::Medium(a), Self::Small(b)) => {
                Self::Medium(a | (b as u64))
            },
            (Self::Small(b), Self::Large(a)) | (Self::Large(a), Self::Small(b)) => {
                proof {
                    bv_words_b(0, b, 0);
                    bv_words_a(a, b as u128);
                }
                Self::Large(a | (b as u128))
            },
            (Self::Small(b), Self::Heap(mut a)) | (Self::Heap(mut a), Self::Small(b)) => {
                let mut v = Vec::new();
                v.push(b as u64);
                Self::heap_or(&mut a, &v);
                Self::Heap(a)
            },
            (Self::Medium(a), Self::Medium(b)) => Self::Medium(a | b),
            (Self::Medium(b), Self::Large(a)) | (Self::Large(a), Self::Medium(b)) => {
                proof {
                    bv_words_b(b, 0, 0);
                    bv_words_a(a, b as u128);
                }
                Self::Large(a | (b as u128))
            },
            (Self::Medium(b), Self::Heap(mut a)) | (Self::Heap(mut a), Self::Medium(b)) => {
                let mut v = Vec::new();
                v.push(b);
                Self::heap_or(&mut a, &v);
                Self::Heap(a)
            },
            (Self::Large(a), Self::Large(b)) => {
                proof {
                    bv_words_a(a, b);
                }
                Self::Large(a | b)
            },
            (Self::Large(b), Self::Heap(mut a)) | (Self::Heap(mut a), Self::Large(b)) => {
                let mut v = Vec::new();
                v.push(b as u64);
                v.push((b >> 64u128) as u64);
                Self::heap_or(&mut a, &v);
                Self::Heap(a)
            },
            (Self::Heap(mut a), Self::Heap(b)) => {
                Self::heap_or(&mut a, &b);
                Self::Heap(a)
            },
        };
        proof {
            assert forall|k: nat| #[trigger] r.chunk(k) == a0.chunk(k) | b0.chunk(k) by {
                lemma_or_and_zero(a0.chunk(k));
                lemma_or_and_zero(b0.chunk(k));
                assert(a0.chunk(k) | b0.chunk(k) == b0.chunk(k) | a0.chunk(k)) by {
                    let x = a0.chunk(k);
                    let y = b0.chunk(k);
                    bv64_bits(x, y, 0, 0);
                }
            }
            r.lemma_union_from_chunks(a0, b0);
        }
        r
    }
}

impl BitOrSpecImpl for IndexSet {
    open spec fn obeys_bitor_spec() -> bool {
        false
    }

    open spec fn bitor_req(self, rhs: Self) -> bool {
        true
    }

    open spec fn bitor_spec(self, rhs: Self) -> Self {
        self
    }
}

impl BitOrAssign for IndexSet {
    /// In-place union.
    fn bitor_assign(&mut self, rhs: Self)
        ensures
            final(self)@ == old(self)@.union(rhs@),
            final(self).tag() == max_nat(old(self).tag(), rhs.tag()),
            final(self).tag() == 3 ==> final(self).num_chunks() == max_nat(
                old(self).num_chunks(),
                rhs.num_chunks(),
            ),
            old(self).fits() && rhs.fits() ==> final(self).fits(),
    {
        let cur = self.take();
        *self = cur | rhs;
    }
}

impl BitAnd for IndexSet {
    type Output = Self;

    /// Intersection of two sets, shrunk to the smallest variant.
    fn bitand(self, rhs: Self) -> (r: Self)
        ensures
            r@ == self@.intersect(rhs@),
            r.is_minimal(),
            self.fits() || rhs.fits() ==> r.fits(),
    {
        let ghost a0 = self;
        let ghost b0 = rhs;
        let r = match (self, rhs) {
            (Self::Small(a), Self::Small(b)) => Self::Small(a & b),
            (Self::Small(b), Self::Medium(a)) | (Self::Medium(a), Self::Small(b)) => {
                proof {
                    bv_words_b(a, b, 0);
                }
                Self::Small((a & (b as u64)) as u32)
            },
            (Self::Small(b), Self::Large(a)) | (Self::Large(a), Self::Small(b)) => {
                proof {
                    bv_words_c(a, 0, b);
                }
                Self::Small((a & (b as u128)) as u32)
            },
            (Self::Small(b), Self::Heap(a)) | (Self::Heap(a), Self::Small(b)) => {
                if a.len() == 0 {
                    Self::Small(0)
                } else {
                    proof {
                        bv_words_b(a[0], b, 0);
                    }
                    Self::Small((a[0] & (b as u64)) as u32)
                }
            },
            (Self::Medium(a), Self::Medium(b)) => Self::Medium(a & b),
            (Self::Medium(b), Self::Large(a)) | (Self::Large(a), Self::Medium(b)) => {
                proof {
                    bv_words_c(a, b, 0);
                }
                Self::Medium((a & (b as u128)) as u64)
            },
            (Self::Medium(b), Self::Heap(a)) | (Self::Heap(a), Self::Medium(b)) => {
                if a.len() == 0 {
                    Self::Medium(0)
                } else {
                    Self::Medium(a[0] & b)
                }
            },
            (Self::Large(a), Self::Large(b)) => {
                proof {
                    bv_words_a(a, b);
                }
                Self::Large(a & b)
            },
            (Self::Large(b), Self::Heap(a)) | (Self::Heap(a), Self::Large(b)) => {
                let lo = if a.len() > 0 {
                    a[0] & (b as u64)
                } else {
                    0
                };
                let hi = if a.len() > 1 {
                    a[1] & ((b >> 64u128) as u64)
                } else {
                    0
                };
                if hi == 0 {
                    Self::Medium(lo)
                } else {
                    proof {
                        bv_join(lo, hi);
                    }
                    Self::Large((lo as u128) | ((hi as u128) << 64u128))
                }
            },
            (Self::Heap(mut a), Self::Heap(b)) => {
                Self::heap_and(&mut a, &b);
                Self::Heap(a)
            },
        };
        proof {
            assert forall|k: nat| #[trigger] r.chunk(k) == a0.chunk(k) & b0.chunk(k) by {
                lemma_or_and_zero(a0.chunk(k));
                lemma_or_and_zero(b0.chunk(k));
                let x = a0.chunk(k);
                let y = b0.chunk(k);
                bv64_bits(x, y, 0, 0);
            }
            r.lemma_intersect_from_chunks(a0, b0);
            assert(a0.fits() || b0.fits() ==> r.fits());
        }
        r.minimized()
    }
}

impl BitAndSpecImpl for IndexSet {
    open spec fn obeys_bitand_spec() -> bool {
        false
    }

    open spec fn bitand_req(self, rhs: Self) -> bool {
        true
    }

    open spec fn bitand_spec(self, rhs: Self) -> Self {
        self
    }
}

impl BitAndAssign for IndexSet {
    /// In-place intersection.
    fn bitand_assign(&mut self, rhs: Self)
        ensures
            final(self)@ == old(self)@.intersect(rhs@),
            final(self).is_minimal(),
            old(self).fits() || rhs.fits() ==> final(self).fits(),
    {
        let cur = self.take();
        *self = cur & rhs;
    }
}

} // verus!
