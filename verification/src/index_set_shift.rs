//! Shifting every slot of an [`IndexSet`] up (`<<`) or down (`>>`).
use vstd::prelude::*;
use vstd::std_specs::bits::{axiom_u64_leading_zeros, u64_leading_zeros};
use vstd::std_specs::ops::{ShlSpecImpl, ShrSpecImpl};
use core::ops::{Shl, ShlAssign, Shr, ShrAssign};
use crate::bits::{
    bit128, bit64, lemma_bit128_high, lemma_bit128_low, lemma_bit128_shl, lemma_bit128_shr,
    lemma_bit64_shl_pair, lemma_bit64_shr_pair, lemma_bit64_zero, lemma_or_and_zero,
};
use crate::index_set::{chunk_of, lemma_div_mod64, lemma_small0_empty, pos_of, IndexSet};

verus! {

/// Every slot moved up by `r`.
pub open spec fn shl_set(s: Set<nat>, r: nat) -> Set<nat> {
    Set::new(|i: nat| i >= r && s.contains((i - r) as nat))
}

/// Every slot moved down by `r`; slots below `r` drop out.
pub open spec fn shr_set(s: Set<nat>, r: nat) -> Set<nat> {
    Set::new(|i: nat| s.contains(i + r))
}

/// Chunk `k` of `s` shifted up by `64 * cs + bs` bits.
pub open spec fn shl_chunk(s: IndexSet, cs: nat, bs: nat, k: nat) -> u64 {
    if k < cs {
        0
    } else if bs == 0 {
        s.chunk((k - cs) as nat)
    } else {
        (s.chunk((k - cs) as nat) << (bs as u64)) | (if k > cs {
            s.chunk((k - cs - 1) as nat) >> ((64 - bs) as u64)
        } else {
            0
        })
    }
}

/// Chunk `k` of `s` shifted down by `64 * cs + bs` bits.
pub open spec fn shr_chunk(s: IndexSet, cs: nat, bs: nat, k: nat) -> u64 {
    if bs == 0 {
        s.chunk(k + cs)
    } else {
        (s.chunk(k + cs) >> (bs as u64)) | (s.chunk(k + cs + 1) << ((64 - bs) as u64))
    }
}

/// Number of leading zero bits of a 128-bit word.
fn leading_zeros128(x: u128) -> (r: u32)
    ensures
        r <= 128,
        x == 0 <==> r == 128,
        r < 128 ==> x >> ((128 - r) as u128) == 0,
        r < 128 ==> bit128(x, (127 - r) as nat),
{
    let hi = (x >> 64u128) as u64;
    let lo = x as u64;
    proof {
        bv_halves(x, 0);
    }
    if hi != 0 {
        let r = hi.leading_zeros();
        proof {
            axiom_u64_leading_zeros(hi);
            bv_halves(x, r as u64);
        }
        r
    } else {
        let r = lo.leading_zeros();
        proof {
            axiom_u64_leading_zeros(lo);
            bv_halves(x, r as u64);
        }
        64 + r
    }
}

/// Facts about a 128-bit word and its halves, proved at once.
proof fn bv_halves(x: u128, z: u64)
    by (bit_vector)
    ensures
        x == 0 <==> ((x >> 64u128) as u64 == 0 && x as u64 == 0),
        z < 64 && (((x >> 64u128) as u64) >> ((64 - z) as u64)) == 0 ==> x >> ((128 - z) as u128)
            == 0,
        z < 64 && ((((x >> 64u128) as u64) >> ((63 - z) as u64)) & 1u64 != 0u64) ==> (x >> ((127
            - z) as u128)) & 1u128 == 1u128,
        z <= 64 && ((x as u64) >> ((64 - z) as u64)) == 0 && (x >> 64u128) as u64 == 0 ==> (z < 64
            ==> x >> ((64 - z) as u128) == 0),
        z < 64 && (((x as u64) >> ((63 - z) as u64)) & 1u64 != 0u64) ==> (x >> ((63 - z) as u128))
            & 1u128 == 1u128,
        (x as u32) as u128 == x ==> ((x as u32) as u64 == x as u64 && ((x >> 64u128) as u64)
            == 0u64),
        (x as u64) as u128 == x ==> ((x >> 64u128) as u64) == 0u64,
        (x as u32) as u128 != x && (x as u64) as u128 == x ==> (x as u64) > 0xffff_ffffu64,
        (x as u64) as u128 != x ==> x > 0xffff_ffff_ffff_ffffu128,
        (0u128 >> (z as u128)) & 1u128 == 0u128,
        0u64 >> z == 0u64,
        0u64 << z == 0u64,
{
}

/// Facts about narrower words widened to 128 bits, proved at once.
proof fn bv_widen(b: u32, c: u64, t: u64)
    by (bit_vector)
    ensures
        ((b as u128) as u64) == b as u64 && (((b as u128) >> 64u128) as u64) == 0u64,
        ((c as u128) as u64) == c && (((c as u128) >> 64u128) as u64) == 0u64,
        t < 32 ==> (((b >> (t as u32)) as u128) == (b as u128) >> (t as u128) && ((b >> (t
            as u32)) as u64) == ((b >> (t as u32)) as u128) as u64 && ((((b >> (t as u32)) as u128)
            >> 64u128) as u64) == 0u64),
        t < 64 ==> (((c >> t) as u128) == (c as u128) >> (t as u128) && ((((c >> t) as u128)
            >> 64u128) as u64) == 0u64 && (((c >> t) as u128) as u64) == c >> t),
        32 <= t < 128 ==> ((b as u128) >> (t as u128)) & 1u128 == 0u128,
        64 <= t < 128 ==> ((c as u128) >> (t as u128)) & 1u128 == 0u128,
{
}

proof fn bv_no_loss(x: u128, r: u128, z: u128)
    by (bit_vector)
    requires
        0 < r <= z,
        z < 128,
        x >> ((128 - z) as u128) == 0,
    ensures
        (x << r) >> r == x,
{
}

impl IndexSet {
    /// The set equals the bits of the 128-bit word `x`.
    proof fn lemma_has_u128(self, x: u128)
        requires
            self.chunk(0) == x as u64,
            self.chunk(1) == (x >> 64u128) as u64,
            forall|k: nat| k >= 2 ==> #[trigger] self.chunk(k) == 0,
        ensures
            forall|i: nat| #[trigger] self.has(i) == bit128(x, i),
    {
        assert forall|i: nat| #[trigger] self.has(i) == bit128(x, i) by {
            lemma_div_mod64(i);
            let c = chunk_of(i);
            let p = pos_of(i);
            if c == 0 {
                lemma_bit128_low(x, p);
                assert(i == p);
                assert(self.has(i) == bit64(self.chunk(0), p));
            } else if c == 1 {
                lemma_bit128_high(x, p);
                assert(i == p + 64);
                assert(self.has(i) == bit64(self.chunk(1), p));
            } else {
                assert(self.chunk(c) == 0);
                lemma_bit64_zero(p);
                assert(i >= 128);
            }
        }
    }

    /// A set whose chunks are those of another shifted up holds its slots shifted up.
    proof fn lemma_shl_from_chunks(self, old: IndexSet, rhs: nat)
        requires
            forall|k: nat| #[trigger] self.chunk(k) == shl_chunk(old, chunk_of(rhs), pos_of(rhs), k),
        ensures
            self@ == shl_set(old@, rhs),
    {
        let cs = chunk_of(rhs);
        let bs = pos_of(rhs);
        lemma_div_mod64(rhs);
        assert forall|i: nat| self.has(i) == (i >= rhs && old.has((i - rhs) as nat)) by {
            lemma_div_mod64(i);
            let k = chunk_of(i);
            let j = pos_of(i);
            assert(self.chunk(k) == shl_chunk(old, cs, bs, k));
            if k < cs {
                lemma_bit64_zero(j);
                assert(i < rhs);
            } else if bs == 0 {
                old.lemma_has_chunk((k - cs) as nat, j);
            } else if j >= bs {
                if k > cs {
                    lemma_bit64_shl_pair(
                        old.chunk((k - cs) as nat),
                        old.chunk((k - cs - 1) as nat),
                        bs,
                        j,
                    );
                } else {
                    lemma_or_and_zero(old.chunk((k - cs) as nat) << (bs as u64));
                    lemma_bit64_shl_pair(old.chunk((k - cs) as nat), 0, bs, j);
                    bv_halves(0, ((64 - bs) as u64));
                }
                old.lemma_has_chunk((k - cs) as nat, (j - bs) as nat);
            } else {
                if k > cs {
                    lemma_bit64_shl_pair(
                        old.chunk((k - cs) as nat),
                        old.chunk((k - cs - 1) as nat),
                        bs,
                        j,
                    );
                    old.lemma_has_chunk((k - cs - 1) as nat, (j + 64 - bs) as nat);
                } else {
                    lemma_or_and_zero(old.chunk((k - cs) as nat) << (bs as u64));
                    lemma_bit64_shl_pair(old.chunk((k - cs) as nat), 0, bs, j);
                    bv_halves(0, ((64 - bs) as u64));
                    lemma_bit64_zero((j + 64 - bs) as nat);
                    assert(i < rhs);
                }
            }
        }
        assert(self@ =~= shl_set(old@, rhs));
    }

    /// A set whose chunks are those of another shifted down holds its slots shifted down.
    proof fn lemma_shr_from_chunks(self, old: IndexSet, rhs: nat)
        requires
            forall|k: nat| #[trigger] self.chunk(k) == shr_chunk(old, chunk_of(rhs), pos_of(rhs), k),
        ensures
            self@ == shr_set(old@, rhs),
    {
        let cs = chunk_of(rhs);
        let bs = pos_of(rhs);
        lemma_div_mod64(rhs);
        assert forall|i: nat| self.has(i) == old.has(i + rhs) by {
            lemma_div_mod64(i);
            let k = chunk_of(i);
            let j = pos_of(i);
            assert(self.chunk(k) == shr_chunk(old, cs, bs, k));
            if bs == 0 {
                old.lemma_has_chunk(k + cs, j);
            } else {
                lemma_bit64_shr_pair(old.chunk(k + cs), old.chunk(k + cs + 1), bs, j);
                if j + bs < 64 {
                    old.lemma_has_chunk(k + cs, j + bs);
                } else {
                    old.lemma_has_chunk(k + cs + 1, (j + bs - 64) as nat);
                }
            }
        }
        assert(self@ =~= shr_set(old@, rhs));
    }
}

/// Number of chunks of a heap set of chunks `v` shifted up by `rhs`: `rhs / 64`
/// zero chunks, the shifted chunks, and one more for the bits carried out
/// of the last chunk, if any.
pub open spec fn shl_heap_len(v: Seq<u64>, rhs: nat) -> nat {
    let cs = chunk_of(rhs);
    let bs = pos_of(rhs);
    cs + v.len() + if bs != 0 && v.len() > 0 && (v[v.len() - 1] >> ((64 - bs) as u64)) != 0 {
        1nat
    } else {
        0nat
    }
}

proof fn bv_shl_keeps(v: u64, bs: u64, c: u64)
    by (bit_vector)
    requires
        0 < bs < 64,
    ensures
        v != 0 && v >> ((64 - bs) as u64) == 0 ==> (v << bs) | c != 0,
{
}

/// Moves the bits stored in a Heap vector up by `rhs` bits.
fn heap_shl(vec: Vec<u64>, rhs: usize) -> (r: IndexSet)
    requires
        (rhs / 64 + vec.len() + 1) * 64 <= usize::MAX + 1,
    ensures
        r is Heap,
        forall|k: nat| #[trigger] r.chunk(k) == shl_chunk(
            IndexSet::Heap(vec),
            chunk_of(rhs as nat),
            pos_of(rhs as nat),
            k,
        ),
        r.num_chunks() <= rhs / 64 + vec.len() + 1,
        r.num_chunks() == shl_heap_len(vec@, rhs as nat),
        vec.len() > 0 && vec[vec.len() - 1] != 0 ==> r.num_chunks() > 0 && r.chunk(
            (r.num_chunks() - 1) as nat,
        ) != 0,
        r.fits(),
{
    let ghost old = IndexSet::Heap(vec);
    let chunk_shift = rhs / 64;
    let bit_shift = rhs % 64;
    let n = vec.len();
    let mut new_vec: Vec<u64> = Vec::with_capacity(chunk_shift + n + 1);
    let mut i: usize = 0;
    while i < chunk_shift
        invariant
            i <= chunk_shift,
            new_vec.len() == i,
            forall|k: int| 0 <= k < i ==> new_vec[k] == 0,
        decreases chunk_shift - i,
    {
        new_vec.push(0);
        i = i + 1;
    }
    let ghost cs = chunk_shift as nat;
    let ghost bs = bit_shift as nat;
    if bit_shift == 0 {
        let mut i: usize = 0;
        while i < n
            invariant
                n == vec.len(),
                old == IndexSet::Heap(vec),
                cs == chunk_shift,
                bs == bit_shift,
                chunk_shift == rhs / 64,
                bit_shift == 0,
                i <= n,
                new_vec.len() == chunk_shift + i,
                forall|k: int| 0 <= k < new_vec.len() ==> new_vec[k] == shl_chunk(
                    old,
                    cs,
                    bs,
                    k as nat,
                ),
            decreases n - i,
        {
            new_vec.push(vec[i]);
            i = i + 1;
        }
    } else {
        let mut carry: u64 = 0;
        let mut i: usize = 0;
        while i < n
            invariant
                n == vec.len(),
                old == IndexSet::Heap(vec),
                cs == chunk_shift,
                bs == bit_shift,
                chunk_shift == rhs / 64,
                bit_shift == rhs % 64,
                0 < bit_shift < 64,
                i <= n,
                new_vec.len() == chunk_shift + i,
                forall|k: int| 0 <= k < new_vec.len() ==> new_vec[k] == shl_chunk(
                    old,
                    cs,
                    bs,
                    k as nat,
                ),
                carry == (if i == 0 {
                    0u64
                } else {
                    vec[i - 1] >> ((64 - bit_shift) as u64)
                }),
            decreases n - i,
        {
            let v = vec[i];
            let val = (v << bit_shift) | carry;
            carry = v >> (64 - bit_shift);
            new_vec.push(val);
            proof {
                let k = (chunk_shift + i) as nat;
                assert(old.chunk((k - cs) as nat) == v);
                if i > 0 {
                    assert(old.chunk((k - cs - 1) as nat) == vec[i - 1]);
                } else {
                    lemma_or_and_zero(v << (bit_shift as u64));
                }
            }
            i = i + 1;
        }
        proof {
            let k = (chunk_shift + n) as nat;
            assert(old.chunk((k - cs) as nat) == 0);
            bv_halves(0, bit_shift as u64);
            lemma_or_and_zero(carry);
            if n > 0 {
                assert(old.chunk((k - cs - 1) as nat) == vec[n - 1]);
                let last = vec[n - 1];
                let prev = if n > 1 {
                    vec[n - 2] >> ((64 - bit_shift) as u64)
                } else {
                    0u64
                };
                assert(new_vec[k - 1] == shl_chunk(old, cs, bs, (k - 1) as nat));
                if n > 1 {
                    assert(old.chunk((k - 1 - cs - 1) as nat) == vec[n - 2]);
                } else {
                    lemma_or_and_zero(last << (bit_shift as u64));
                }
                assert(new_vec[k - 1] == (last << (bit_shift as u64)) | prev);
                bv_shl_keeps(last, bit_shift as u64, prev);
            } else {
                lemma_or_and_zero(0u64 << (bit_shift as u64));
            }
            assert(shl_chunk(old, cs, bs, k) == carry);
        }
        if carry != 0 {
            new_vec.push(carry);
        }
    }
    let r = IndexSet::Heap(new_vec);
    proof {
        assert forall|k: nat| #[trigger] r.chunk(k) == shl_chunk(old, cs, bs, k) by {
            if k >= new_vec.len() && k >= cs {
                assert(old.chunk((k - cs) as nat) == 0);
                bv_halves(0, bit_shift as u64);
                if k > cs {
                    assert(old.chunk((k - cs - 1) as nat) == 0 || k == cs + n);
                    bv_halves(0, (64 - bs) as u64);
                    lemma_or_and_zero(0u64);
                }
                lemma_or_and_zero(0u64);
            }
        }
    }
    r
}

impl Shr<usize> for IndexSet {
    type Output = Self;

    /// Moves every slot down by `rhs`; slots below `rhs` drop out.
    ///
    /// The result is shrunk to the smallest variant, except that a zero shift
    /// or an empty set is returned as it is.
    fn shr(self, rhs: usize) -> (r: Self)
        ensures
            r@ == shr_set(self@, rhs as nat),
            rhs == 0 || self@ == Set::<nat>::empty() ==> r == self,
            !(rhs == 0 || self@ == Set::<nat>::empty()) ==> r.is_minimal(),
            self.fits() ==> r.fits(),
    {
        if rhs == 0 || self.is_empty() {
            proof {
                assert(shr_set(self@, 0) =~= self@);
                assert(shr_set(Set::<nat>::empty(), rhs as nat) =~= Set::<nat>::empty());
            }
            return self;
        }
        let ghost o = self;
        let r = match self {
            Self::Small(bits) => {
                proof {
                    bv_widen(bits, 0, 0);
                    o.lemma_has_u128(bits as u128);
                }
                if rhs >= 32 {
                    proof {
                        assert forall|i: nat| !#[trigger] o.has(i + rhs as nat) by {
                            let t = (i + rhs) as u128;
                            if t < 128 {
                                bv_widen(bits, 0, t as u64);
                            }
                        }
                        lemma_small0_empty();
                        assert(shr_set(o@, rhs as nat) =~= IndexSet::Small(0)@);
                    }
                    Self::Small(0)
                } else {
                    let res = Self::Small(bits >> rhs);
                    proof {
                        bv_widen(bits, 0, rhs as u64);
                        res.lemma_has_u128((bits as u128) >> (rhs as u128));
                        assert forall|i: nat| #[trigger] res.has(i) == o.has(i + rhs as nat) by {
                            lemma_bit128_shr(bits as u128, rhs as nat, i);
                        }
                        assert(res@ =~= shr_set(o@, rhs as nat));
                    }
                    res
                }
            },
            Self::Medium(bits) => {
                proof {
                    bv_widen(0, bits, 0);
                    o.lemma_has_u128(bits as u128);
                }
                if rhs >= 64 {
                    proof {
                        assert forall|i: nat| !#[trigger] o.has(i + rhs as nat) by {
                            let t = (i + rhs) as u128;
                            if t < 128 {
                                bv_widen(0, bits, t as u64);
                            }
                        }
                        lemma_small0_empty();
                        assert(shr_set(o@, rhs as nat) =~= IndexSet::Small(0)@);
                    }
                    Self::Small(0)
                } else {
                    let res = Self::Medium(bits >> rhs);
                    proof {
                        bv_widen(0, bits, rhs as u64);
                        res.lemma_has_u128((bits as u128) >> (rhs as u128));
                        assert forall|i: nat| #[trigger] res.has(i) == o.has(i + rhs as nat) by {
                            lemma_bit128_shr(bits as u128, rhs as nat, i);
                        }
                        assert(res@ =~= shr_set(o@, rhs as nat));
                    }
                    res
                }
            },
            Self::Large(bits) => {
                proof {
                    o.lemma_has_u128(bits);
                }
                if rhs >= 128 {
                    proof {
                        assert forall|i: nat| !#[trigger] o.has(i + rhs as nat) by {}
                        lemma_small0_empty();
                        assert(shr_set(o@, rhs as nat) =~= IndexSet::Small(0)@);
                    }
                    Self::Small(0)
                } else {
                    let res = Self::Large(bits >> rhs);
                    proof {
                        res.lemma_has_u128(bits >> (rhs as u128));
                        assert forall|i: nat| #[trigger] res.has(i) == o.has(i + rhs as nat) by {
                            lemma_bit128_shr(bits, rhs as nat, i);
                        }
                        assert(res@ =~= shr_set(o@, rhs as nat));
                    }
                    res
                }
            },
            Self::Heap(vec) => {
                let chunk_shift = rhs / 64;
                let bit_shift = rhs % 64;
                let n = vec.len();
                if chunk_shift >= n {
                    proof {
                        lemma_div_mod64(rhs as nat);
                        assert forall|i: nat| !#[trigger] o.has(i + rhs as nat) by {
                            if o.has(i + rhs as nat) {
                                o.lemma_has_bound(i + rhs as nat);
                            }
                        }
                        lemma_small0_empty();
                        assert(shr_set(o@, rhs as nat) =~= IndexSet::Small(0)@);
                    }
                    return Self::Small(0);
                }
                let ghost cs = chunk_shift as nat;
                let ghost bs = bit_shift as nat;
                let m = n - chunk_shift;
                let mut new_vec: Vec<u64> = Vec::with_capacity(m);
                let mut i: usize = 0;
                while i < m
                    invariant
                        n == vec.len(),
                        o == IndexSet::Heap(vec),
                        chunk_shift < n,
                        m == n - chunk_shift,
                        chunk_shift == cs,
                        bit_shift == bs,
                        bs < 64,
                        i <= m,
                        new_vec.len() == i,
                        forall|k: int| 0 <= k < i ==> new_vec[k] == shr_chunk(o, cs, bs, k as nat),
                    decreases m - i,
                {
                    if bit_shift == 0 {
                        new_vec.push(vec[chunk_shift + i]);
                    } else {
                        let mut val = vec[chunk_shift + i] >> bit_shift;
                        if i + 1 < m {
                            val = val | (vec[chunk_shift + i + 1] << (64 - bit_shift));
                        } else {
                            proof {
                                assert(o.chunk(i as nat + cs + 1) == 0);
                                bv_halves(0, (64 - bit_shift) as u64);
                                lemma_or_and_zero(val);
                            }
                        }
                        new_vec.push(val);
                    }
                    i = i + 1;
                }
                let res = Self::Heap(new_vec);
                proof {
                    assert forall|k: nat| #[trigger] res.chunk(k) == shr_chunk(o, cs, bs, k) by {
                        if k >= m {
                            assert(o.chunk(k + cs) == 0);
                            assert(o.chunk(k + cs + 1) == 0);
                            bv_halves(0, bit_shift as u64);
                            bv_halves(0, (64 - bs) as u64);
                            lemma_or_and_zero(0u64);
                        }
                    }
                    lemma_div_mod64(rhs as nat);
                    res.lemma_shr_from_chunks(o, rhs as nat);
                }
                res
            },
        };
        r.minimized()
    }
}

impl ShrSpecImpl<usize> for IndexSet {
    open spec fn obeys_shr_spec() -> bool {
        false
    }

    open spec fn shr_req(self, rhs: usize) -> bool {
        true
    }

    open spec fn shr_spec(self, rhs: usize) -> Self {
        self
    }
}

impl ShrAssign<usize> for IndexSet {
    /// In-place shift down.
    fn shr_assign(&mut self, rhs: usize)
        ensures
            final(self)@ == shr_set(old(self)@, rhs as nat),
            rhs == 0 || old(self)@ == Set::<nat>::empty() ==> *final(self) == *old(self),
            !(rhs == 0 || old(self)@ == Set::<nat>::empty()) ==> final(self).is_minimal(),
            old(self).fits() ==> final(self).fits(),
    {
        let cur = self.take();
        *self = cur >> rhs;
    }
}

/// The in-register shift of a nonempty 128-bit word `val` that loses no bit.
proof fn lemma_shl_in_register(o: IndexSet, res: IndexSet, val: u128, rhs: usize, lz: u32)
    requires
        forall|i: nat| #[trigger] o.has(i) == bit128(val, i),
        forall|i: nat| #[trigger] res.has(i) == bit128(val << (rhs as u128), i),
        0 < rhs <= lz,
        lz < 128,
        val >> ((128 - lz) as u128) == 0,
    ensures
        res@ == shl_set(o@, rhs as nat),
{
    bv_no_loss(val, rhs as u128, lz as u128);
    assert forall|i: nat| #[trigger] res.has(i) == (i >= rhs && o.has((i - rhs) as nat)) by {
        lemma_bit128_shl(val, rhs as nat, i);
    }
    assert(res@ =~= shl_set(o@, rhs as nat));
}

impl ShlSpecImpl<usize> for IndexSet {
    open spec fn obeys_shl_spec() -> bool {
        false
    }

    /// The shifted slots can still be numbered by `usize`.
    open spec fn shl_req(self, rhs: usize) -> bool {
        rhs == 0 || self@ == Set::<nat>::empty() || (rhs / 64 + self.num_chunks() + 1) * 64
            <= usize::MAX + 1
    }

    open spec fn shl_spec(self, rhs: usize) -> Self {
        self
    }
}

impl Shl<usize> for IndexSet {
    type Output = Self;

    /// Moves every slot up by `rhs`.
    ///
    /// The variant grows when the shifted bits no longer fit; a zero shift or
    /// an empty set is returned as it is.
    fn shl(self, rhs: usize) -> (r: Self)
        ensures
            r@ == shl_set(self@, rhs as nat),
            rhs == 0 || self@ == Set::<nat>::empty() ==> r == self,
            self.fits() ==> r.fits(),
            r.tag() >= self.tag(),
            r.tag() == self.tag() || r.is_minimal(),
            match self {
                IndexSet::Heap(v) => !(rhs == 0 || self@ == Set::<nat>::empty()) ==> r.num_chunks()
                    == shl_heap_len(v@, rhs as nat),
                _ => true,
            },
    {
        if rhs == 0 || self.is_empty() {
            proof {
                assert(shl_set(self@, 0) =~= self@);
                assert(shl_set(Set::<nat>::empty(), rhs as nat) =~= Set::<nat>::empty());
            }
            return self;
        }
        let ghost o = self;
        proof {
            lemma_div_mod64(rhs as nat);
        }
        match self {
            Self::Small(bits) => {
                let val = bits as u128;
                proof {
                    bv_widen(bits, 0, 0);
                    o.lemma_has_u128(val);
                    if val == 0 {
                        assert forall|i: nat| !#[trigger] o.has(i) by {
                            if i < 128 {
                                bv_halves(0, i as u64);
                            }
                        }
                        assert(o@ =~= Set::<nat>::empty());
                    }
                }
                let lz = leading_zeros128(val);
                if (lz as usize) < rhs {
                    let mut v: Vec<u64> = Vec::new();
                    v.push(bits as u64);
                    let res = heap_shl(v, rhs);
                    proof {
                        assert forall|k: nat| #[trigger] res.chunk(k) == shl_chunk(
                            o,
                            chunk_of(rhs as nat),
                            pos_of(rhs as nat),
                            k,
                        ) by {
                            assert forall|c: nat| IndexSet::Heap(v).chunk(c) == o.chunk(c) by {}
                            assert(res.chunk(k) == shl_chunk(
                                IndexSet::Heap(v),
                                chunk_of(rhs as nat),
                                pos_of(rhs as nat),
                                k,
                            ));
                        }
                        res.lemma_shl_from_chunks(o, rhs as nat);
                        let top = (127 - lz) as nat;
                        assert(o@.contains(top));
                        assert(res@.contains(top + rhs as nat));
                        res.lemma_has_bound(top + rhs as nat);
                        lemma_div_mod64(top + rhs as nat);
                        assert(v@.len() > 0 && v@[v@.len() - 1] != 0);
                    }
                    res
                } else {
                    let shifted = val << rhs;
                    if (shifted as u32) as u128 == shifted {
                        let res = Self::Small(shifted as u32);
                        proof {
                            bv_halves(shifted, 0);
                            res.lemma_has_u128(shifted);
                            lemma_shl_in_register(o, res, val, rhs, lz);
                        }
                        res
                    } else if (shifted as u64) as u128 == shifted {
                        let res = Self::Medium(shifted as u64);
                        proof {
                            bv_halves(shifted, 0);
                            res.lemma_has_u128(shifted);
                            lemma_shl_in_register(o, res, val, rhs, lz);
                        }
                        res
                    } else {
                        let res = Self::Large(shifted);
                        proof {
                            bv_halves(shifted, 0);
                            res.lemma_has_u128(shifted);
                            lemma_shl_in_register(o, res, val, rhs, lz);
                        }
                        res
                    }
                }
            },
            Self::Medium(bits) => {
                let val = bits as u128;
                proof {
                    bv_widen(0, bits, 0);
                    o.lemma_has_u128(val);
                    if val == 0 {
                        assert forall|i: nat| !#[trigger] o.has(i) by {
                            if i < 128 {
                                bv_halves(0, i as u64);
                            }
                        }
                        assert(o@ =~= Set::<nat>::empty());
                    }
                }
                let lz = leading_zeros128(val);
                if (lz as usize) < rhs {
                    let mut v: Vec<u64> = Vec::new();
                    v.push(bits);
                    let res = heap_shl(v, rhs);
                    proof {
                        assert forall|k: nat| #[trigger] res.chunk(k) == shl_chunk(
                            o,
                            chunk_of(rhs as nat),
                            pos_of(rhs as nat),
                            k,
                        ) by {
                            assert forall|c: nat| IndexSet::Heap(v).chunk(c) == o.chunk(c) by {}
                            assert(res.chunk(k) == shl_chunk(
                                IndexSet::Heap(v),
                                chunk_of(rhs as nat),
                                pos_of(rhs as nat),
                                k,
                            ));
                        }
                        res.lemma_shl_from_chunks(o, rhs as nat);
                        let top = (127 - lz) as nat;
                        assert(o@.contains(top));
                        assert(res@.contains(top + rhs as nat));
                        res.lemma_has_bound(top + rhs as nat);
                        lemma_div_mod64(top + rhs as nat);
                        assert(v@.len() > 0 && v@[v@.len() - 1] != 0);
                    }
                    res
                } else {
                    let shifted = val << rhs;
                    if (shifted as u64) as u128 == shifted {
                        let res = Self::Medium(shifted as u64);
                        proof {
                            bv_halves(shifted, 0);
                            res.lemma_has_u128(shifted);
                            lemma_shl_in_register(o, res, val, rhs, lz);
                        }
                        res
                    } else {
                        let res = Self::Large(shifted);
                        proof {
                            bv_halves(shifted, 0);
                            res.lemma_has_u128(shifted);
                            lemma_shl_in_register(o, res, val, rhs, lz);
                        }
                        res
                    }
                }
            },
            Self::Large(bits) => {
                proof {
                    o.lemma_has_u128(bits);
                    if bits == 0 {
                        assert forall|i: nat| !#[trigger] o.has(i) by {
                            if i < 128 {
                                bv_halves(0, i as u64);
                            }
                        }
                        assert(o@ =~= Set::<nat>::empty());
                    }
                }
                let lz = leading_zeros128(bits);
                if (lz as usize) < rhs {
                    let lo = bits as u64;
                    let hi = (bits >> 64u128) as u64;
                    let mut v: Vec<u64> = Vec::new();
                    v.push(lo);
                    if hi != 0 {
                        v.push(hi);
                    }
                    let res = heap_shl(v, rhs);
                    proof {
                        assert forall|k: nat| #[trigger] res.chunk(k) == shl_chunk(
                            o,
                            chunk_of(rhs as nat),
                            pos_of(rhs as nat),
                            k,
                        ) by {
                            assert forall|c: nat| IndexSet::Heap(v).chunk(c) == o.chunk(c) by {}
                            assert(res.chunk(k) == shl_chunk(
                                IndexSet::Heap(v),
                                chunk_of(rhs as nat),
                                pos_of(rhs as nat),
                                k,
                            ));
                        }
                        res.lemma_shl_from_chunks(o, rhs as nat);
                        let top = (127 - lz) as nat;
                        assert(o@.contains(top));
                        assert(res@.contains(top + rhs as nat));
                        res.lemma_has_bound(top + rhs as nat);
                        lemma_div_mod64(top + rhs as nat);
                        assert(bits != 0);
                        bv_halves(bits, 0);
                        assert(v@.len() > 0 && v@[v@.len() - 1] != 0);
                    }
                    res
                } else {
                    let res = Self::Large(bits << rhs);
                    proof {
                        res.lemma_has_u128(bits << (rhs as u128));
                        lemma_shl_in_register(o, res, bits, rhs, lz);
                    }
                    res
                }
            },
            Self::Heap(vec) => {
                let res = heap_shl(vec, rhs);
                proof {
                    res.lemma_shl_from_chunks(o, rhs as nat);
                }
                res
            },
        }
    }
}

impl ShlAssign<usize> for IndexSet {
    /// In-place shift up.
    fn shl_assign(&mut self, rhs: usize)
        requires
            rhs == 0 || old(self)@ == Set::<nat>::empty() || (rhs / 64 + old(self).num_chunks()
                + 1) * 64 <= usize::MAX + 1,
        ensures
            final(self)@ == shl_set(old(self)@, rhs as nat),
            rhs == 0 || old(self)@ == Set::<nat>::empty() ==> *final(self) == *old(self),
            old(self).fits() ==> final(self).fits(),
            final(self).tag() >= old(self).tag(),
            final(self).tag() == old(self).tag() || final(self).is_minimal(),
            match *old(self) {
                IndexSet::Heap(v) => !(rhs == 0 || old(self)@ == Set::<nat>::empty())
                    ==> final(self).num_chunks() == shl_heap_len(v@, rhs as nat),
                _ => true,
            },
    {
        let cur = self.take();
        *self = cur << rhs;
    }
}

} // verus!
