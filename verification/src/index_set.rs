//! [`IndexSet`]: a compact bitset of slot indices.
//!
//! The set is viewed as a `Set<nat>`; its bits are read 64 at a time through
//! [`IndexSet::chunk`], whatever the variant that stores them.
use vstd::prelude::*;
use vstd::arithmetic::div_mod::{lemma_fundamental_div_mod, lemma_fundamental_div_mod_converse};
use crate::bits::{
    bit64, bv64_bits, lemma_bit64_and, lemma_bit64_clear, lemma_bit64_ext, lemma_bit64_nonzero, lemma_bit64_or,
    lemma_bit64_mask, lemma_bit64_set, lemma_bit64_zero,
};

verus! {

broadcast use {lemma_bit64_or, lemma_bit64_and, lemma_bit64_zero};

/// A compact bitset for tracking slot indices in CSE.
///
/// Uses stack-optimized representations for small sizes (up to 32, 64, and 128
/// bits) and falls back to a heap-allocated `Vec<u64>` for larger sets.
#[derive(Debug)]
pub enum IndexSet {
    /// Up to 32 bits stored inline.
    Small(u32),
    /// 33–64 bits stored inline.
    Medium(u64),
    /// 65–128 bits stored inline.
    Large(u128),
    /// More than 128 bits, stored as a heap-allocated vector of 64-bit chunks.
    Heap(Vec<u64>),
}

/// The variant that `singleton` and a growing `insert` choose for slot `i`:
/// 0 for `Small`, 1 for `Medium`, 2 for `Large`, 3 for `Heap`.
pub open spec fn kind_for(i: nat) -> nat {
    if i < 32 {
        0
    } else if i < 64 {
        1
    } else if i < 128 {
        2
    } else {
        3
    }
}

/// Index of the 64-bit chunk that holds slot `i`.
pub open spec fn chunk_of(i: nat) -> nat {
    i / 64
}

/// Position of slot `i` inside its chunk.
pub open spec fn pos_of(i: nat) -> nat {
    i % 64
}

pub proof fn lemma_div_mod64(i: nat)
    ensures
        i == 64 * chunk_of(i) + pos_of(i),
        pos_of(i) < 64,
{
    lemma_fundamental_div_mod(i as int, 64);
}

pub proof fn lemma_div_mod64_converse(k: nat, j: nat)
    requires
        j < 64,
    ensures
        chunk_of(64 * k + j) == k,
        pos_of(64 * k + j) == j,
{
    lemma_fundamental_div_mod_converse((64 * k + j) as int, 64, k as int, j as int);
}

impl View for IndexSet {
    type V = Set<nat>;

    /// The slot indices present in the set.
    open spec fn view(&self) -> Set<nat> {
        Set::new(|i: nat| self.has(i))
    }
}

impl IndexSet {
    /// The 64-bit chunk `k` of the bits; chunks that are not stored are zero.
    pub open spec fn chunk(self, k: nat) -> u64 {
        match self {
            IndexSet::Small(b) => if k == 0 {
                b as u64
            } else {
                0
            },
            IndexSet::Medium(b) => if k == 0 {
                b
            } else {
                0
            },
            IndexSet::Large(b) => if k == 0 {
                b as u64
            } else if k == 1 {
                (b >> 64u128) as u64
            } else {
                0
            },
            IndexSet::Heap(v) => if k < v.len() {
                v[k as int]
            } else {
                0
            },
        }
    }

    /// Slot `i` is present.
    pub open spec fn has(self, i: nat) -> bool {
        bit64(self.chunk(chunk_of(i)), pos_of(i))
    }

    /// Number of chunks the variant stores.
    pub open spec fn num_chunks(self) -> nat {
        match self {
            IndexSet::Small(_) => 1,
            IndexSet::Medium(_) => 1,
            IndexSet::Large(_) => 2,
            IndexSet::Heap(v) => v.len() as nat,
        }
    }

    /// The variant: 0 for `Small`, 1 for `Medium`, 2 for `Large`, 3 for `Heap`.
    pub open spec fn tag(self) -> nat {
        match self {
            IndexSet::Small(_) => 0,
            IndexSet::Medium(_) => 1,
            IndexSet::Large(_) => 2,
            IndexSet::Heap(_) => 3,
        }
    }

    /// Every slot index the representation can hold fits in a `usize`.
    pub open spec fn fits(self) -> bool {
        self.num_chunks() * 64 <= usize::MAX + 1
    }

    /// The representation is the smallest variant that holds the bits:
    /// `Medium` only above bit 31, `Large` only above bit 63, and `Heap`
    /// only above bit 127, with a nonzero last chunk.
    pub open spec fn is_minimal(self) -> bool {
        match self {
            IndexSet::Small(_) => true,
            IndexSet::Medium(b) => b > u32::MAX,
            IndexSet::Large(b) => b > u64::MAX,
            IndexSet::Heap(v) => v.len() >= 3 && v[v.len() - 1] != 0,
        }
    }

    /// Chunk `k` at position `j` holds slot `64 * k + j`.
    pub proof fn lemma_has_chunk(self, k: nat, j: nat)
        requires
            j < 64,
        ensures
            self.has(64 * k + j) == bit64(self.chunk(k), j),
    {
        lemma_div_mod64_converse(k, j);
    }

    /// Every slot of the set lies below `64 * num_chunks`.
    pub proof fn lemma_has_bound(self, i: nat)
        requires
            self.has(i),
        ensures
            chunk_of(i) < self.num_chunks(),
            i < 64 * self.num_chunks(),
    {
        lemma_div_mod64(i);
        if chunk_of(i) >= self.num_chunks() {
            assert(self.chunk(chunk_of(i)) == 0);
        }
    }

    /// Two sets whose chunks agree everywhere are equal.
    pub proof fn lemma_view_from_chunks(self, other: IndexSet)
        requires
            forall|k: nat| self.chunk(k) == other.chunk(k),
        ensures
            self@ == other@,
    {
        assert(self@ =~= other@);
    }

    /// Equal sets have equal chunks everywhere.
    pub proof fn lemma_chunks_from_view(self, other: IndexSet)
        requires
            self@ == other@,
        ensures
            forall|k: nat| self.chunk(k) == other.chunk(k),
    {
        assert forall|k: nat| self.chunk(k) == other.chunk(k) by {
            assert forall|j: nat| j < 64 implies bit64(self.chunk(k), j) == bit64(
                other.chunk(k),
                j,
            ) by {
                self.lemma_has_chunk(k, j);
                other.lemma_has_chunk(k, j);
                let i = 64 * k + j;
                assert(self@.contains(i) == self.has(i));
                assert(other@.contains(i) == other.has(i));
                assert(self@.contains(i) == other@.contains(i));
            }
            lemma_bit64_ext(self.chunk(k), other.chunk(k));
        }
    }

    /// The set is the union of two sets when every chunk is the union of theirs.
    pub proof fn lemma_union_from_chunks(self, a: IndexSet, b: IndexSet)
        requires
            forall|k: nat| self.chunk(k) == a.chunk(k) | b.chunk(k),
        ensures
            self@ == a@.union(b@),
    {
        assert(self@ =~= a@.union(b@));
    }

    /// The set is the intersection of two sets when every chunk is the intersection of theirs.
    pub proof fn lemma_intersect_from_chunks(self, a: IndexSet, b: IndexSet)
        requires
            forall|k: nat| self.chunk(k) == a.chunk(k) & b.chunk(k),
        ensures
            self@ == a@.intersect(b@),
    {
        assert(self@ =~= a@.intersect(b@));
    }

    /// Two sets are disjoint exactly when every pair of chunks is.
    pub proof fn lemma_disjoint_chunks(self, other: IndexSet)
        ensures
            self@.disjoint(other@) <==> forall|k: nat| #[trigger] (self.chunk(k) & other.chunk(k))
                == 0,
    {
        if self@.disjoint(other@) {
            assert forall|k: nat| #[trigger] (self.chunk(k) & other.chunk(k)) == 0 by {
                let x = self.chunk(k) & other.chunk(k);
                lemma_bit64_nonzero(x);
                if x != 0 {
                    let j = choose|j: nat| j < 64 && bit64(x, j);
                    self.lemma_has_chunk(k, j);
                    other.lemma_has_chunk(k, j);
                    assert(self@.contains(64 * k + j) && other@.contains(64 * k + j));
                }
            }
        }
        if forall|k: nat| #[trigger] (self.chunk(k) & other.chunk(k)) == 0 {
            assert forall|i: nat| self@.contains(i) implies !other@.contains(i) by {
                let x = self.chunk(chunk_of(i)) & other.chunk(chunk_of(i));
                assert(x == 0);
                assert(!bit64(x, pos_of(i)));
            }
        }
    }

    /// A set with all chunks zero is empty, and conversely.
    pub proof fn lemma_empty_chunks(self)
        ensures
            self@ == Set::<nat>::empty() <==> forall|k: nat| #[trigger] self.chunk(k) == 0,
    {
        if self@ == Set::<nat>::empty() {
            assert forall|k: nat| #[trigger] self.chunk(k) == 0 by {
                lemma_bit64_nonzero(self.chunk(k));
                if self.chunk(k) != 0 {
                    let j = choose|j: nat| j < 64 && bit64(self.chunk(k), j);
                    self.lemma_has_chunk(k, j);
                    assert(self@.contains(64 * k + j));
                }
            }
        }
        if forall|k: nat| #[trigger] self.chunk(k) == 0 {
            assert(self@ =~= Set::<nat>::empty());
        }
    }

    /// Setting or clearing bit `j` of chunk `kk` inserts or removes slot `64 * kk + j`.
    pub proof fn lemma_update_from_chunks(self, old: IndexSet, kk: nat, j: u64, value: bool)
        requires
            j < 64,
            forall|k: nat| k != kk ==> self.chunk(k) == old.chunk(k),
            value ==> self.chunk(kk) == old.chunk(kk) | (1u64 << j),
            !value ==> self.chunk(kk) == old.chunk(kk) & !(1u64 << j),
        ensures
            value ==> self@ == old@.insert((64 * kk + j) as nat),
            !value ==> self@ == old@.remove((64 * kk + j) as nat),
    {
        let s = (64 * kk + j) as nat;
        lemma_div_mod64_converse(kk, j as nat);
        assert forall|i: nat| self.has(i) == (if i == s { value } else { old.has(i) }) by {
            lemma_div_mod64(i);
            if chunk_of(i) == kk {
                if value {
                    lemma_bit64_set(old.chunk(kk), j, pos_of(i));
                } else {
                    lemma_bit64_clear(old.chunk(kk), j, pos_of(i));
                }
            }
        }
        if value {
            assert(self@ =~= old@.insert(s));
        } else {
            assert(self@ =~= old@.remove(s));
        }
    }
}

/// `Small(0)` holds no slot.
pub proof fn lemma_small0_empty()
    ensures
        IndexSet::Small(0)@ == Set::<nat>::empty(),
{
    assert(IndexSet::Small(0)@ =~= Set::<nat>::empty());
}

/// The word with only bit `t` set.
pub proof fn lemma_bit64_single(t: u64, j: nat)
    requires
        t < 64,
    ensures
        bit64(1u64 << t, j) == (j == t),
{
    bv64_bits(0, 0, t, 0);
    lemma_bit64_set(0u64, t, j);
}

/// Facts about a 32-bit word and slot `s`, proved at once.
proof fn bv_u32(b: u32, s: u32)
    by (bit_vector)
    ensures
        s < 32 ==> (b | (1u32 << s)) as u64 == (b as u64) | (1u64 << (s as u64)),
        s < 32 ==> (b & !(1u32 << s)) as u64 == (b as u64) & !(1u64 << (s as u64)),
        s < 32 ==> 0u32 | (1u32 << s) == 1u32 << s,
        s < 32 ==> ((b & (1u32 << s)) != 0) == (((b as u64) & (1u64 << (s as u64))) != 0),
        32 <= s < 64 ==> ((b as u64) >> (s as u64)) & 1u64 == 0u64,
        32 <= s < 64 ==> (b as u64) & !(1u64 << (s as u64)) == b as u64,
{
}

/// Facts about a 64-bit word and slot `s`, proved at once.
proof fn bv_u64(b: u64, s: u32)
    by (bit_vector)
    ensures
        64 <= s < 128 ==> ((b as u128) | (1u128 << s)) as u64 == b,
        64 <= s < 128 ==> (((b as u128) | (1u128 << s)) >> 64u128) as u64 == 1u64 << ((s
            - 64) as u64),
        64 <= s < 128 ==> 0u64 | (1u64 << ((s - 64) as u64)) == 1u64 << ((s - 64) as u64),
        32 <= s < 64 ==> (1u64 << (s as u64)) > 0xffff_ffffu64,
{
}

/// Facts about a 128-bit word and a slot `s` of its low half, proved at once.
proof fn bv_u128_low(b: u128, s: u32)
    by (bit_vector)
    requires
        s < 64,
    ensures
        (b | (1u128 << s)) as u64 == (b as u64) | (1u64 << (s as u64)),
        ((b | (1u128 << s)) >> 64u128) as u64 == (b >> 64u128) as u64,
        (b & !(1u128 << s)) as u64 == (b as u64) & !(1u64 << (s as u64)),
        ((b & !(1u128 << s)) >> 64u128) as u64 == (b >> 64u128) as u64,
        ((b & (1u128 << s)) != 0) == (((b as u64) & (1u64 << (s as u64))) != 0),
{
}

/// Facts about a 128-bit word and a slot `s` of its high half, proved at once.
proof fn bv_u128_high(b: u128, s: u32)
    by (bit_vector)
    requires
        64 <= s < 128,
    ensures
        (b | (1u128 << s)) as u64 == b as u64,
        ((b | (1u128 << s)) >> 64u128) as u64 == ((b >> 64u128) as u64) | (1u64 << ((s
            - 64) as u64)),
        (b & !(1u128 << s)) as u64 == b as u64,
        ((b & !(1u128 << s)) >> 64u128) as u64 == ((b >> 64u128) as u64) & !(1u64 << ((s
            - 64) as u64)),
        ((b & (1u128 << s)) != 0) == ((((b >> 64u128) as u64) & (1u64 << ((s - 64) as u64)))
            != 0),
        (1u128 << s) as u64 == 0u64,
        ((1u128 << s) >> 64u128) as u64 == 0u64 | (1u64 << ((s - 64) as u64)),
        (0u128 as u64) == 0u64,
        ((0u128 >> 64u128) as u64) == 0u64,
        (1u128 << s) > 0xffff_ffff_ffff_ffffu128,
{
}

impl IndexSet {
    /// Every slot of the set fits its variant: `Small` holds slots below 32,
    /// `Medium` below 64, `Large` below 128.
    pub proof fn lemma_slots_fit_variant(self)
        ensures
            forall|i: nat| #[trigger] self@.contains(i) ==> kind_for(i) <= self.tag(),
    {
        assert forall|i: nat| #[trigger] self@.contains(i) implies kind_for(i) <= self.tag() by {
            lemma_div_mod64(i);
            assert(self.has(i));
            match self {
                IndexSet::Small(b) => {
                    if i >= 64 {
                        assert(self.chunk(chunk_of(i)) == 0);
                        lemma_bit64_zero(pos_of(i));
                    } else if i >= 32 {
                        assert(chunk_of(i) == 0 && pos_of(i) == i);
                        bv_u32(b, i as u32);
                    }
                },
                IndexSet::Medium(_) => {
                    if i >= 64 {
                        assert(self.chunk(chunk_of(i)) == 0);
                        lemma_bit64_zero(pos_of(i));
                    }
                },
                IndexSet::Large(_) => {
                    if i >= 128 {
                        assert(self.chunk(chunk_of(i)) == 0);
                        lemma_bit64_zero(pos_of(i));
                    }
                },
                IndexSet::Heap(_) => {},
            }
        }
    }
}

/// A slot's chunk index, plus one, still counts at most `usize::MAX + 1` slots.
proof fn lemma_slot_fits(slot: usize)
    ensures
        (chunk_of(slot as nat) + 1) * 64 <= usize::MAX + 1,
{
    lemma_div_mod64(slot as nat);
    let q = chunk_of(slot as nat);
    assert(usize::MAX == 0xffff_ffff || usize::MAX == 0xffff_ffff_ffff_ffff);
    if usize::MAX == 0xffff_ffff {
        assert(64 * q <= 0xffff_ffff);
        assert(q < 0x400_0000);
        assert((q + 1) * 64 <= 0x1_0000_0000) by (nonlinear_arith)
            requires
                q < 0x400_0000,
        ;
    } else {
        assert(64 * q <= 0xffff_ffff_ffff_ffff);
        assert(q < 0x400_0000_0000_0000);
        assert((q + 1) * 64 <= 0x1_0000_0000_0000_0000) by (nonlinear_arith)
            requires
                q < 0x400_0000_0000_0000,
        ;
    }
}

impl Default for IndexSet {
    /// The empty set, stored as `Small(0)`.
    fn default() -> (r: Self)
        ensures
            r == IndexSet::Small(0),
            r@ == Set::<nat>::empty(),
    {
        proof {
            let e = IndexSet::Small(0);
            assert forall|k: nat| #[trigger] e.chunk(k) == 0 by {}
            e.lemma_empty_chunks();
        }
        Self::Small(0)
    }
}

impl IndexSet {
    /// Moves the set out, leaving the empty `Small(0)` behind.
    pub(crate) fn take(&mut self) -> (r: Self)
        ensures
            r == *old(self),
            *final(self) == IndexSet::Small(0),
    {
        let mut r = IndexSet::Small(0);
        core::mem::swap(self, &mut r);
        r
    }

    /// Chunk `k` of the bits.
    pub(crate) fn chunk_at(&self, k: usize) -> (r: u64)
        ensures
            r == self.chunk(k as nat),
    {
        match self {
            IndexSet::Small(b) => if k == 0 {
                *b as u64
            } else {
                0
            },
            IndexSet::Medium(b) => if k == 0 {
                *b
            } else {
                0
            },
            IndexSet::Large(b) => if k == 0 {
                *b as u64
            } else if k == 1 {
                (*b >> 64u128) as u64
            } else {
                0
            },
            IndexSet::Heap(v) => if k < v.len() {
                v[k]
            } else {
                0
            },
        }
    }

    /// Heap storage of `idx + 1` zero chunks.
    pub(crate) fn zero_chunks(idx: usize) -> (v: Vec<u64>)
        requires
            idx < usize::MAX,
        ensures
            v.len() == idx + 1,
            forall|k: int| 0 <= k < v.len() ==> v[k] == 0,
    {
        let mut v: Vec<u64> = Vec::new();
        let mut i: usize = 0;
        while i <= idx
            invariant
                i <= idx + 1,
                idx < usize::MAX,
                v.len() == i,
                forall|k: int| 0 <= k < v.len() ==> v[k] == 0,
            decreases idx + 1 - i,
        {
            v.push(0);
            i = i + 1;
        }
        v
    }

    /// Create a set containing exactly one slot index.
    ///
    /// The variant is the smallest one that holds the slot.
    pub fn singleton(slot: usize) -> (r: Self)
        ensures
            r@ == set![slot as nat],
            r.tag() == kind_for(slot as nat),
            r.tag() == 3 ==> r.num_chunks() == chunk_of(slot as nat) + 1,
            r.fits(),
            r.is_minimal(),
    {
        let ghost s = slot as nat;
        proof {
            lemma_div_mod64(s);
        }
        if slot < 32 {
            let r = Self::Small(1u32 << slot);
            proof {
                bv_u32(0u32, slot as u32);
                bv64_bits(1u64 << (slot as u64), 0, 0, 0);
                r.lemma_update_from_chunks(IndexSet::Small(0), 0, slot as u64, true);
                assert forall|k: nat| #[trigger] IndexSet::Small(0).chunk(k) == 0 by {}
                IndexSet::Small(0).lemma_empty_chunks();
                assert(set![s] =~= Set::<nat>::empty().insert(s));
            }
            r
        } else if slot < 64 {
            let r = Self::Medium(1u64 << slot);
            proof {
                bv64_bits(1u64 << (slot as u64), 0, 0, 0);
                r.lemma_update_from_chunks(IndexSet::Medium(0), 0, slot as u64, true);
                assert forall|k: nat| #[trigger] IndexSet::Medium(0).chunk(k) == 0 by {}
                IndexSet::Medium(0).lemma_empty_chunks();
                assert(set![s] =~= Set::<nat>::empty().insert(s));
                bv_u64(0, slot as u32);
            }
            r
        } else if slot < 128 {
            let r = Self::Large(1u128 << slot);
            proof {
                bv_u128_high(0, slot as u32);
                r.lemma_update_from_chunks(IndexSet::Large(0), 1, (slot - 64) as u64, true);
                assert forall|k: nat| #[trigger] IndexSet::Large(0).chunk(k) == 0 by {}
                IndexSet::Large(0).lemma_empty_chunks();
                assert(set![s] =~= Set::<nat>::empty().insert(s));
            }
            r
        } else {
            let idx = slot / 64;
            let mut vec = Self::zero_chunks(idx);
            let ghost zeros = IndexSet::Heap(vec);
            let c = vec[idx];
            vec.set(idx, c | (1u64 << (slot % 64)));
            let r = Self::Heap(vec);
            proof {
                lemma_slot_fits(slot);
                assert forall|k: nat| #[trigger] zeros.chunk(k) == 0 by {}
                zeros.lemma_empty_chunks();
                r.lemma_update_from_chunks(zeros, idx as nat, (slot % 64) as u64, true);
                assert(set![s] =~= Set::<nat>::empty().insert(s));
                lemma_bit64_single((slot % 64) as u64, 0);
                bv64_bits(1u64 << ((slot % 64) as u64), 0, 0, 0);
                assert((1u64 << ((slot % 64) as u64)) != 0) by {
                    lemma_bit64_single((slot % 64) as u64, (slot % 64) as nat);
                    lemma_bit64_zero((slot % 64) as nat);
                }
            }
            r
        }
    }

    /// Insert (`value == true`) or remove (`value == false`) a slot index.
    ///
    /// Automatically promotes the representation when the slot exceeds the
    /// current variant's capacity; removal never changes the variant.
    pub fn insert(&mut self, slot: usize, value: bool)
        requires
            old(self).fits(),
        ensures
            value ==> final(self)@ == old(self)@.insert(slot as nat),
            !value ==> final(self)@ == old(self)@.remove(slot as nat),
            final(self).fits(),
            final(self).tag() == (if value && kind_for(slot as nat) > old(self).tag() {
                kind_for(slot as nat)
            } else {
                old(self).tag()
            }),
            final(self).tag() == 3 ==> final(self).num_chunks() == (if value && chunk_of(
                slot as nat,
            ) + 1 > old(self).num_chunks() {
                chunk_of(slot as nat) + 1
            } else {
                old(self).num_chunks()
            }),
    {
        let ghost s = slot as nat;
        let ghost o = *self;
        proof {
            lemma_div_mod64(s);
            lemma_slot_fits(slot);
        }
        let cur = self.take();
        let next = match cur {
            Self::Small(bits) => {
                if slot < 32 {
                    proof {
                        bv_u32(bits, slot as u32);
                    }
                    if value {
                        Self::Small(bits | (1u32 << slot))
                    } else {
                        Self::Small(bits & !(1u32 << slot))
                    }
                } else if value {
                    if slot < 64 {
                        Self::Medium((bits as u64) | (1u64 << slot))
                    } else if slot < 128 {
                        proof {
                            bv_u64(bits as u64, slot as u32);
                        }
                        Self::Large((bits as u128) | (1u128 << slot))
                    } else {
                        let idx = slot / 64;
                        let mut vec = Self::zero_chunks(idx);
                        vec.set(0, bits as u64);
                        let c = vec[idx];
                        vec.set(idx, c | (1u64 << (slot % 64)));
                        Self::Heap(vec)
                    }
                } else {
                    Self::Small(bits)
                }
            },
            Self::Medium(bits) => {
                if slot < 64 {
                    if value {
                        Self::Medium(bits | (1u64 << slot))
                    } else {
                        Self::Medium(bits & !(1u64 << slot))
                    }
                } else if value {
                    if slot < 128 {
                        proof {
                            bv_u64(bits, slot as u32);
                        }
                        Self::Large((bits as u128) | (1u128 << slot))
                    } else {
                        let idx = slot / 64;
                        let mut vec = Self::zero_chunks(idx);
                        vec.set(0, bits);
                        let c = vec[idx];
                        vec.set(idx, c | (1u64 << (slot % 64)));
                        Self::Heap(vec)
                    }
                } else {
                    Self::Medium(bits)
                }
            },
            Self::Large(bits) => {
                if slot < 128 {
                    proof {
                        if slot < 64 {
                            bv_u128_low(bits, slot as u32);
                        } else {
                            bv_u128_high(bits, slot as u32);
                        }
                    }
                    if value {
                        Self::Large(bits | (1u128 << slot))
                    } else {
                        Self::Large(bits & !(1u128 << slot))
                    }
                } else if value {
                    let idx = slot / 64;
                    let mut vec = Self::zero_chunks(idx);
                    vec.set(0, bits as u64);
                    vec.set(1, (bits >> 64u128) as u64);
                    let c = vec[idx];
                    vec.set(idx, c | (1u64 << (slot % 64)));
                    Self::Heap(vec)
                } else {
                    Self::Large(bits)
                }
            },
            Self::Heap(mut vec) => {
                let idx = slot / 64;
                let bit = slot % 64;
                if value {
                    if idx >= vec.len() {
                        vec.resize(idx + 1, 0);
                    }
                    let c = vec[idx];
                    vec.set(idx, c | (1u64 << bit));
                } else if idx < vec.len() {
                    let c = vec[idx];
                    vec.set(idx, c & !(1u64 << bit));
                }
                Self::Heap(vec)
            },
        };
        proof {
            let kk = chunk_of(s);
            let j = pos_of(s) as u64;
            if slot < 32 {
                assert(kk == 0);
            } else if 64 <= slot < 128 && !(o is Heap) {
                assert(kk == 1);
            }
            if value {
                if !(o is Heap) && kind_for(s) <= o.tag() {
                    assert(next.chunk(kk) == o.chunk(kk) | (1u64 << j));
                }
                assert(next.chunk(kk) == o.chunk(kk) | (1u64 << j)) by {
                    bv64_bits(1u64 << j, 0, 0, 0);
                }
                next.lemma_update_from_chunks(o, kk, j, true);
            } else {
                if kk >= o.num_chunks() {
                    bv64_bits(!(1u64 << j), 0, 0, 0);
                    assert(next.chunk(kk) == o.chunk(kk) & !(1u64 << j));
                } else if o is Small && slot >= 32 {
                    let b = o->Small_0;
                    bv_u32(b, j as u32);
                }
                next.lemma_update_from_chunks(o, kk, j, false);
            }
        }
        *self = next;
    }

    /// Returns `true` if the given slot index is present in the set.
    pub fn contains(&self, slot: usize) -> (r: bool)
        ensures
            r == self@.contains(slot as nat),
    {
        let ghost s = slot as nat;
        proof {
            lemma_div_mod64(s);
        }
        match self {
            Self::Small(bits) => {
                proof {
                    if slot < 32 {
                        bv_u32(*bits, slot as u32);
                        lemma_bit64_mask(*bits as u64, slot as u64);
                    } else if slot < 64 {
                        bv_u32(*bits, slot as u32);
                    }
                }
                slot < 32 && (*bits & (1u32 << slot)) != 0
            },
            Self::Medium(bits) => {
                proof {
                    if slot < 64 {
                        lemma_bit64_mask(*bits, slot as u64);
                    }
                }
                slot < 64 && (*bits & (1u64 << slot)) != 0
            },
            Self::Large(bits) => {
                proof {
                    let b = *bits;
                    if slot < 64 {
                        bv_u128_low(b, slot as u32);
                        lemma_bit64_mask(b as u64, slot as u64);
                    } else if slot < 128 {
                        bv_u128_high(b, slot as u32);
                        lemma_bit64_mask((b >> 64u128) as u64, (slot - 64) as u64);
                    }
                }
                slot < 128 && (*bits & (1u128 << slot)) != 0
            },
            Self::Heap(vec) => {
                let idx = slot / 64;
                let bit = slot % 64;
                proof {
                    if idx < vec.len() {
                        lemma_bit64_mask(vec[idx as int], bit as u64);
                    }
                }
                idx < vec.len() && (vec[idx] & (1u64 << bit)) != 0
            },
        }
    }

    /// Chunk 0 of the bits.
    pub(crate) fn get_first_chunk(&self) -> (r: u64)
        ensures
            r == self.chunk(0),
    {
        match self {
            Self::Small(b) => *b as u64,
            Self::Medium(b) => *b,
            Self::Large(b) => *b as u64,
            Self::Heap(v) => if v.len() > 0 {
                v[0]
            } else {
                0
            },
        }
    }

    /// Number of chunks the variant stores.
    pub(crate) fn max_chunks(&self) -> (r: usize)
        ensures
            r == self.num_chunks(),
    {
        match self {
            Self::Small(_) | Self::Medium(_) => 1,
            Self::Large(_) => 2,
            Self::Heap(vec) => vec.len(),
        }
    }
}

} // verus!
