//! The ascending listing of an [`IndexSet`], its size, and the operations that
//! depend on it: `count_ones`, `is_empty`, `minimize`.
use vstd::prelude::*;
use vstd::seq_lib::seq_to_set_is_finite;
use crate::bits::{
    bv_join, bv_words_a, bv_words_b, bit64, bits_seq, lemma_bit64_highest, lemma_bit64_nonzero, lemma_bit64_zero,
    lemma_bits_seq_len_base, lemma_bits_seq_props,
};
use crate::index_set::{chunk_of, lemma_div_mod64, lemma_div_mod64_converse, pos_of, IndexSet};

verus! {

/// Strictly increasing sequence.
pub open spec fn ascending(s: Seq<nat>) -> bool {
    forall|i: int, j: int| 0 <= i < j < s.len() ==> #[trigger] s[i] < #[trigger] s[j]
}

impl IndexSet {
    /// The slots of chunk `k`, in ascending order.
    pub open spec fn chunk_elems(self, k: nat) -> Seq<nat> {
        bits_seq(self.chunk(k), 64 * k, 0)
    }

    /// The slots of chunks `lo..hi`, in ascending order.
    pub open spec fn elems_range(self, lo: nat, hi: nat) -> Seq<nat>
        decreases hi - lo,
    {
        if lo >= hi {
            Seq::empty()
        } else {
            self.chunk_elems(lo).add(self.elems_range(lo + 1, hi))
        }
    }

    /// All slots of the set, in ascending order.
    pub open spec fn elems(self) -> Seq<nat> {
        self.elems_range(0, self.num_chunks())
    }

    pub proof fn lemma_chunk_elems_props(self, k: nat)
        ensures
            forall|e: nat| #[trigger]
                self.chunk_elems(k).contains(e) <==> chunk_of(e) == k && self.has(e),
            forall|i: int|
                0 <= i < self.chunk_elems(k).len() ==> 64 * k <= #[trigger] self.chunk_elems(k)[i]
                    < 64 * k + 64,
            ascending(self.chunk_elems(k)),
            self.chunk_elems(k).len() <= 64,
    {
        let x = self.chunk(k);
        let s = self.chunk_elems(k);
        lemma_bits_seq_props(x, 64 * k, 0);
        assert forall|e: nat| #[trigger] s.contains(e) <==> chunk_of(e) == k && self.has(e) by {
            lemma_div_mod64(e);
            if s.contains(e) {
                let j = (e - 64 * k) as nat;
                lemma_div_mod64_converse(k, j);
            }
            if chunk_of(e) == k && self.has(e) {
                assert(bit64(x, pos_of(e)));
                assert(s.contains(64 * k + pos_of(e)));
            }
        }
    }

    pub proof fn lemma_elems_range_props(self, lo: nat, hi: nat)
        ensures
            forall|e: nat| #[trigger]
                self.elems_range(lo, hi).contains(e) <==> lo <= chunk_of(e) < hi && self.has(e),
            forall|i: int|
                0 <= i < self.elems_range(lo, hi).len() ==> 64 * lo <= #[trigger] self.elems_range(
                    lo,
                    hi,
                )[i] < 64 * hi,
            ascending(self.elems_range(lo, hi)),
            lo <= hi ==> self.elems_range(lo, hi).len() <= 64 * (hi - lo),
        decreases hi - lo,
    {
        let s = self.elems_range(lo, hi);
        if lo < hi {
            self.lemma_chunk_elems_props(lo);
            self.lemma_elems_range_props(lo + 1, hi);
            let a = self.chunk_elems(lo);
            let b = self.elems_range(lo + 1, hi);
            assert(s == a.add(b));
            assert forall|e: nat| #[trigger] s.contains(e) <==> lo <= chunk_of(e) < hi
                && self.has(e) by {
                if s.contains(e) {
                    let i = choose|i: int| 0 <= i < s.len() && s[i] == e;
                    if i < a.len() {
                        assert(a.contains(e));
                    } else {
                        assert(b[i - a.len()] == e);
                        assert(b.contains(e));
                    }
                }
                if lo <= chunk_of(e) < hi && self.has(e) {
                    if chunk_of(e) == lo {
                        assert(a.contains(e));
                        let i = choose|i: int| 0 <= i < a.len() && a[i] == e;
                        assert(s[i] == e);
                    } else {
                        assert(b.contains(e));
                        let i = choose|i: int| 0 <= i < b.len() && b[i] == e;
                        assert(s[i + a.len()] == e);
                    }
                }
            }
            assert forall|i: int| 0 <= i < s.len() implies 64 * lo <= #[trigger] s[i] < 64 * hi by {
                if i < a.len() {
                    assert(s[i] == a[i]);
                } else {
                    assert(s[i] == b[i - a.len()]);
                }
            }
            assert forall|i: int, j: int| 0 <= i < j < s.len() implies #[trigger] s[i]
                < #[trigger] s[j] by {
                if j < a.len() {
                    assert(s[i] == a[i] && s[j] == a[j]);
                } else if i >= a.len() {
                    assert(s[i] == b[i - a.len()] && s[j] == b[j - a.len()]);
                } else {
                    assert(s[i] == a[i] && s[j] == b[j - a.len()]);
                }
            }
            assert(s.len() == a.len() + b.len());
            assert(64 * (hi - lo) == 64 + 64 * (hi - (lo + 1))) by (nonlinear_arith)
                requires
                    lo < hi,
            ;
        }
    }

    /// Splitting off the last chunk of a range.
    pub proof fn lemma_elems_range_split_last(self, lo: nat, hi: nat)
        requires
            lo < hi,
        ensures
            self.elems_range(lo, hi) == self.elems_range(lo, (hi - 1) as nat).add(
                self.chunk_elems((hi - 1) as nat),
            ),
        decreases hi - lo,
    {
        if lo + 1 == hi {
            assert(self.elems_range(lo + 1, hi) == Seq::<nat>::empty());
            assert(self.elems_range(lo, (hi - 1) as nat) == Seq::<nat>::empty());
            assert(self.chunk_elems(lo).add(Seq::<nat>::empty()) == Seq::<nat>::empty().add(
                self.chunk_elems(lo),
            ));
        } else {
            self.lemma_elems_range_split_last(lo + 1, hi);
            let a = self.chunk_elems(lo);
            let m = self.elems_range(lo + 1, (hi - 1) as nat);
            let c = self.chunk_elems((hi - 1) as nat);
            assert(a.add(m.add(c)) == a.add(m).add(c));
        }
    }

    /// Chunks beyond the stored ones list nothing.
    pub proof fn lemma_elems_range_zero(self, lo: nat, hi: nat)
        requires
            self.num_chunks() <= lo,
        ensures
            self.elems_range(lo, hi) == Seq::<nat>::empty(),
        decreases hi - lo,
    {
        if lo < hi {
            self.lemma_elems_range_zero(lo + 1, hi);
            crate::bits::lemma_bits_seq_zero(64 * lo, 0);
            assert(self.chunk_elems(lo) == Seq::<nat>::empty());
            assert(Seq::<nat>::empty().add(Seq::<nat>::empty()) == Seq::<nat>::empty());
        }
    }

    /// The listing holds each slot of the set once, in ascending order, and
    /// its length is the size of the set.
    pub proof fn lemma_elems_view(self)
        ensures
            ascending(self.elems()),
            self.elems().no_duplicates(),
            self.elems().to_set() == self@,
            self@.finite(),
            self@.len() == self.elems().len(),
            forall|e: nat| #[trigger] self.elems().contains(e) <==> self@.contains(e),
    {
        let s = self.elems();
        self.lemma_elems_range_props(0, self.num_chunks());
        assert forall|e: nat| #[trigger] s.contains(e) <==> self@.contains(e) by {
            if self.has(e) {
                self.lemma_has_bound(e);
            }
        }
        assert(s.to_set() =~= self@);
        seq_to_set_is_finite(s);
        s.unique_seq_to_set();
    }

    /// A set holds at most 64 slots per chunk.
    pub proof fn lemma_size_bound(self)
        ensures
            self@.finite(),
            self@.len() <= 64 * self.num_chunks(),
    {
        self.lemma_elems_view();
        self.lemma_elems_range_props(0, self.num_chunks());
    }

    /// A set of at most `usize::MAX / 64` chunks has slots that `usize`
    /// numbers, and a size that `usize` counts.
    pub proof fn lemma_numbered_by_usize(self)
        requires
            self.num_chunks() <= usize::MAX / 64,
        ensures
            self.fits(),
            self@.len() <= usize::MAX,
    {
        self.lemma_size_bound();
        assert(self.num_chunks() * 64 <= usize::MAX) by (nonlinear_arith)
            requires
                self.num_chunks() <= usize::MAX / 64,
        ;
    }

    /// Number of set bits of a word.
    fn popcount(x: u64) -> (r: u32)
        ensures
            r == bits_seq(x, 0, 0).len(),
            r <= 64,
    {
        let mut c: u32 = 0;
        let mut j: u64 = 0;
        proof {
            lemma_bits_seq_props(x, 0, 0);
        }
        while j < 64
            invariant
                j <= 64,
                c <= j,
                c + bits_seq(x, 0, j as nat).len() == bits_seq(x, 0, 0).len(),
            decreases 64 - j,
        {
            if (x >> j) & 1 == 1 {
                c = c + 1;
            }
            j = j + 1;
        }
        c
    }

    /// Returns the number of slot indices in the set (population count).
    pub fn count_ones(&self) -> (r: usize)
        requires
            self@.len() <= usize::MAX,
        ensures
            r == self@.len(),
            r == self.elems().len(),
    {
        proof {
            self.lemma_elems_view();
        }
        let n = self.max_chunks();
        let mut total: usize = 0;
        let mut k: usize = 0;
        while k < n
            invariant
                k <= n,
                n == self.num_chunks(),
                total == self.elems_range(0, k as nat).len(),
                self.elems().len() <= usize::MAX,
            decreases n - k,
        {
            let x = self.chunk_at(k);
            let c = Self::popcount(x);
            proof {
                lemma_bits_seq_len_base(x, 0, 64 * k as nat, 0);
                self.lemma_elems_range_split_last(0, (k + 1) as nat);
                self.lemma_elems_range_split_last(0, n as nat);
                assert(self.elems_range(0, n as nat) == self.elems_range(0, (n - 1) as nat).add(
                    self.chunk_elems((n - 1) as nat),
                ));
                self.lemma_elems_prefix_len(k as nat + 1, n as nat);
            }
            total = total + c as usize;
            k = k + 1;
        }
        total
    }

    /// A prefix of the chunks lists no more slots than all of them.
    proof fn lemma_elems_prefix_len(self, k: nat, n: nat)
        requires
            k <= n,
        ensures
            self.elems_range(0, k).len() <= self.elems_range(0, n).len(),
        decreases n - k,
    {
        if k < n {
            self.lemma_elems_prefix_len(k + 1, n);
            self.lemma_elems_range_split_last(0, k + 1);
        }
    }

    /// Returns `true` if the set contains no elements.
    pub fn is_empty(&self) -> (r: bool)
        ensures
            r == (self@ == Set::<nat>::empty()),
    {
        proof {
            self.lemma_empty_chunks();
        }
        match self {
            Self::Small(bits) => {
                proof {
                    let b = *bits;
                    bv_words_b(0, b, 0);
                    if b == 0 {
                        assert forall|k: nat| #[trigger] self.chunk(k) == 0 by {}
                    } else {
                        assert(self.chunk(0) != 0);
                    }
                }
                *bits == 0
            },
            Self::Medium(bits) => {
                proof {
                    if *bits == 0 {
                        assert forall|k: nat| #[trigger] self.chunk(k) == 0 by {}
                    } else {
                        assert(self.chunk(0) != 0);
                    }
                }
                *bits == 0
            },
            Self::Large(bits) => {
                proof {
                    let b = *bits;
                    bv_words_a(b, 0);
                    if b == 0 {
                        assert forall|k: nat| #[trigger] self.chunk(k) == 0 by {}
                    } else if (b as u64) != 0 {
                        assert(self.chunk(0) != 0);
                    } else {
                        assert(self.chunk(1) != 0);
                    }
                }
                *bits == 0
            },
            Self::Heap(vec) => {
                let mut i: usize = 0;
                assert(forall|k: nat| k < vec.len() ==> self.chunk(k) == vec[k as int]);
                while i < vec.len()
                    invariant
                        i <= vec.len(),
                        forall|k: nat| k < vec.len() ==> self.chunk(k) == vec[k as int],
                        self.num_chunks() == vec.len(),
                        forall|k: int| 0 <= k < i ==> vec[k] == 0,
                    decreases vec.len() - i,
                {
                    if vec[i] != 0 {
                        proof {
                            assert(self.chunk(i as nat) == vec[i as int]);
                            self.lemma_empty_chunks();
                        }
                        return false;
                    }
                    i = i + 1;
                }
                proof {
                    assert forall|k: nat| #[trigger] self.chunk(k) == 0 by {
                        if k < vec.len() {
                            assert(vec[k as int] == 0);
                        }
                    }
                }
                true
            },
        }
    }
}

impl IndexSet {
    /// Shrink to the smallest variant that can hold the current bits.
    ///
    /// Returns `self` for chaining; see also [`minimize`](Self::minimize).
    pub fn minimized(self) -> (r: Self)
        ensures
            r@ == self@,
            r.is_minimal(),
            self.fits() ==> r.fits(),
    {
        let mut s = self;
        s.minimize();
        s
    }

    /// Shrink to the smallest variant that can hold the current bits.
    ///
    /// Mutates `self`; see also [`minimized`](Self::minimized).
    pub fn minimize(&mut self)
        ensures
            final(self)@ == old(self)@,
            final(self).is_minimal(),
            old(self).fits() ==> final(self).fits(),
    {
        let ghost o = *self;
        let cur = self.take();
        let next = match cur {
            Self::Heap(mut vec) => {
                let mut last = vec.len();
                while last > 0 && vec[last - 1] == 0
                    invariant
                        last <= vec.len(),
                        forall|k: int| last <= k < vec.len() ==> vec[k] == 0,
                    decreases last,
                {
                    last = last - 1;
                }
                proof {
                    assert forall|k: nat| k >= last implies #[trigger] o.chunk(k) == 0 by {
                        if k < vec.len() {
                            assert(vec[k as int] == 0);
                        }
                    }
                }
                if last == 0 {
                    proof {
                        assert forall|k: nat| o.chunk(k) == IndexSet::Small(0).chunk(k) by {}
                        o.lemma_view_from_chunks(IndexSet::Small(0));
                    }
                    Self::Small(0)
                } else if last == 1 {
                    let v = vec[0];
                    let v32 = v as u32;
                    proof {
                        bv_words_b(v, 0, 0);
                    }
                    if v32 as u64 == v {
                        proof {
                            assert forall|k: nat| o.chunk(k) == IndexSet::Small(v32).chunk(k) by {}
                            o.lemma_view_from_chunks(IndexSet::Small(v32));
                        }
                        Self::Small(v32)
                    } else {
                        proof {
                            assert forall|k: nat| o.chunk(k) == IndexSet::Medium(v).chunk(k) by {}
                            o.lemma_view_from_chunks(IndexSet::Medium(v));
                        }
                        Self::Medium(v)
                    }
                } else if last == 2 {
                    let x = (vec[0] as u128) | ((vec[1] as u128) << 64u128);
                    proof {
                        bv_join(vec[0], vec[1]);
                        assert forall|k: nat| o.chunk(k) == IndexSet::Large(x).chunk(k) by {}
                        o.lemma_view_from_chunks(IndexSet::Large(x));
                    }
                    Self::Large(x)
                } else {
                    vec.truncate(last);
                    proof {
                        assert forall|k: nat| o.chunk(k) == IndexSet::Heap(vec).chunk(k) by {}
                        o.lemma_view_from_chunks(IndexSet::Heap(vec));
                    }
                    Self::Heap(vec)
                }
            },
            Self::Large(v) => {
                proof {
                    bv_words_a(v, 0);
                }
                if (v as u64) as u128 == v {
                    let low = v as u64;
                    proof {
                        bv_words_b(low, 0, 0);
                    }
                    if (low as u32) as u64 == low {
                        proof {
                            assert forall|k: nat| o.chunk(k) == IndexSet::Small(low as u32).chunk(k) by {}
                            o.lemma_view_from_chunks(IndexSet::Small(low as u32));
                        }
                        Self::Small(low as u32)
                    } else {
                        proof {
                            assert forall|k: nat| o.chunk(k) == IndexSet::Medium(low).chunk(k) by {}
                            o.lemma_view_from_chunks(IndexSet::Medium(low));
                        }
                        Self::Medium(low)
                    }
                } else {
                    Self::Large(v)
                }
            },
            Self::Medium(v) => {
                proof {
                    bv_words_b(v, 0, 0);
                }
                if (v as u32) as u64 == v {
                    proof {
                        assert forall|k: nat| o.chunk(k) == IndexSet::Small(v as u32).chunk(k) by {}
                        o.lemma_view_from_chunks(IndexSet::Small(v as u32));
                    }
                    Self::Small(v as u32)
                } else {
                    Self::Medium(v)
                }
            },
            other => other,
        };
        *self = next;
    }
}

} // verus!
