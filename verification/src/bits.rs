//! Single-bit reasoning over 64-bit words, and the ascending listing of the
//! positions of the set bits of a word.
use vstd::prelude::*;
use vstd::std_specs::bits::{
    axiom_u64_leading_zeros, axiom_u64_trailing_zeros, u64_leading_zeros, u64_trailing_zeros,
};

verus! {

/// Bit `j` of the word `x` is set (positions at or above 64 are never set).
pub open spec fn bit64(x: u64, j: nat) -> bool {
    j < 64 && (x >> (j as u64)) & 1u64 == 1u64
}

/// Facts about single bits of 64-bit words, proved at once.
pub proof fn bv64_bits(a: u64, b: u64, t: u64, j: u64)
    by (bit_vector)
    ensures
        j < 64 ==> (((a | b) >> j) & 1u64 == 1u64 <==> ((a >> j) & 1u64 == 1u64 || (b >> j) & 1u64
            == 1u64)),
        j < 64 ==> (((a & b) >> j) & 1u64 == 1u64 <==> ((a >> j) & 1u64 == 1u64 && (b >> j) & 1u64
            == 1u64)),
        j < 64 && t < 64 ==> (((a | (1u64 << t)) >> j) & 1u64 == 1u64 <==> (j == t || (a >> j)
            & 1u64 == 1u64)),
        j < 64 && t < 64 ==> (((a & !(1u64 << t)) >> j) & 1u64 == 1u64 <==> (j != t && (a >> j)
            & 1u64 == 1u64)),
        t < 64 ==> ((a & (1u64 << t)) != 0 <==> (a >> t) & 1u64 == 1u64),
        t < 64 && ((a ^ b) >> t) & 1u64 == 1u64 ==> (((a >> t) & 1u64 == 1u64) != ((b >> t)
            & 1u64 == 1u64)),
        (0u64 >> j) & 1u64 == 0u64,
        a | 0u64 == a,
        0u64 | a == a,
        a & 0u64 == 0u64,
        0u64 & a == 0u64,
        a != b ==> a ^ b != 0,
        (a >> t) & 1u64 != 0u64 ==> (a >> t) & 1u64 == 1u64,
        t < 64 ==> 0u64 | (1u64 << t) == 1u64 << t,
        a | b == b | a,
        a & b == b & a,
{
}

/// Facts about pairs of 128-bit words and their halves, proved at once.
pub proof fn bv_words_a(a: u128, b: u128)
    by (bit_vector)
    ensures
        ((a | b) as u64) == (a as u64) | (b as u64),
        (((a | b) >> 64u128) as u64) == ((a >> 64u128) as u64) | ((b >> 64u128) as u64),
        ((a & b) as u64) == (a as u64) & (b as u64),
        (((a & b) >> 64u128) as u64) == ((a >> 64u128) as u64) & ((b >> 64u128) as u64),
        ((a & b) == 0) == ((((a as u64) & (b as u64)) == 0) && ((((a >> 64u128) as u64) & ((b
            >> 64u128) as u64)) == 0)),
        (a == b) == (((a as u64) == (b as u64)) && (((a >> 64u128) as u64) == ((b
            >> 64u128) as u64))),
        (a == 0) == ((a as u64) == 0 && ((a >> 64u128) as u64) == 0),
        ((a as u64) as u128 == a) <==> a <= 0xffff_ffff_ffff_ffffu128,
        ((a as u64) as u128 == a) ==> (a >> 64u128) as u64 == 0u64,
{
}

/// Facts about 32- and 64-bit words seen as 64- and 128-bit ones, proved at once.
pub proof fn bv_words_b(c: u64, d: u32, e: u32)
    by (bit_vector)
    ensures
        ((d as u128) as u64) == (d as u64),
        (((d as u128) >> 64u128) as u64) == 0u64,
        ((d as u64) as u128) == (d as u128),
        ((d as u64) as u32) == d,
        ((c as u128) as u64) == c,
        (((c as u128) >> 64u128) as u64) == 0u64,
        (((c & (d as u64)) as u32) as u64) == c & (d as u64),
        ((d & e) == 0) == (((d as u64) & (e as u64)) == 0),
        (d == e) == ((d as u64) == (e as u64)),
        (d == 0) == ((d as u64) == 0),
        ((c as u32) as u64 == c) <==> c <= 0xffff_ffffu64,
{
}

/// Facts about a 128-bit word masked by a narrower one, proved at once.
pub proof fn bv_words_c(a: u128, c: u64, d: u32)
    by (bit_vector)
    ensures
        (((a & (d as u128)) as u32) as u64) == (a as u64) & (d as u64),
        ((a & (c as u128)) as u64) == (a as u64) & c,
{
}

/// Joining two 64-bit halves into a 128-bit word.
pub proof fn bv_join(lo: u64, hi: u64)
    by (bit_vector)
    ensures
        ((lo as u128) | ((hi as u128) << 64u128)) as u64 == lo,
        (((lo as u128) | ((hi as u128) << 64u128)) >> 64u128) as u64 == hi,
        hi != 0 ==> (lo as u128) | ((hi as u128) << 64u128) > 0xffff_ffff_ffff_ffffu128,
{
}

/// Zero is neutral for union and absorbing for intersection.
pub proof fn lemma_or_and_zero(x: u64)
    ensures
        x | 0u64 == x,
        0u64 | x == x,
        x & 0u64 == 0u64,
        0u64 & x == 0u64,
{
    bv64_bits(x, 0, 0, 0);
}

/// Bits of a union of words.
pub broadcast proof fn lemma_bit64_or(a: u64, b: u64, j: nat)
    ensures
        #[trigger] bit64(a | b, j) == (bit64(a, j) || bit64(b, j)),
{
    if j < 64 {
        bv64_bits(a, b, 0, j as u64);
    }
}

/// Bits of an intersection of words.
pub broadcast proof fn lemma_bit64_and(a: u64, b: u64, j: nat)
    ensures
        #[trigger] bit64(a & b, j) == (bit64(a, j) && bit64(b, j)),
{
    if j < 64 {
        bv64_bits(a, b, 0, j as u64);
    }
}

/// Setting bit `t` of a word.
pub broadcast proof fn lemma_bit64_set(a: u64, t: u64, j: nat)
    requires
        t < 64,
    ensures
        #[trigger] bit64(a | (1u64 << t), j) == (j == t || bit64(a, j)),
{
    if j < 64 {
        bv64_bits(a, 0, t, j as u64);
    }
}

/// Clearing bit `t` of a word.
pub broadcast proof fn lemma_bit64_clear(a: u64, t: u64, j: nat)
    requires
        t < 64,
    ensures
        #[trigger] bit64(a & !(1u64 << t), j) == (j != t && bit64(a, j)),
{
    if j < 64 {
        bv64_bits(a, 0, t, j as u64);
    }
}

/// The zero word has no bit set.
pub broadcast proof fn lemma_bit64_zero(j: nat)
    ensures
        !#[trigger] bit64(0u64, j),
{
    if j < 64 {
        bv64_bits(0, 0, 0, j as u64);
    }
}

/// Testing a bit with a one-bit mask.
pub proof fn lemma_bit64_mask(a: u64, t: u64)
    requires
        t < 64,
    ensures
        ((a & (1u64 << t)) != 0) == bit64(a, t as nat),
{
    bv64_bits(a, 0, t, 0);
}

/// A nonzero word has its lowest set bit at `trailing_zeros`, and no set bit below it.
pub proof fn lemma_bit64_lowest(x: u64)
    requires
        x != 0,
    ensures
        u64_trailing_zeros(x) < 64,
        bit64(x, u64_trailing_zeros(x) as nat),
        forall|j: nat| j < u64_trailing_zeros(x) ==> !#[trigger] bit64(x, j),
{
    axiom_u64_trailing_zeros(x);
    assert forall|j: nat| j < u64_trailing_zeros(x) implies !#[trigger] bit64(x, j) by {
        let jj = j as u64;
        assert((x >> jj) & 1u64 == 0u64);
    }
}

/// A nonzero word has its highest set bit at `63 - leading_zeros`, and no set bit above it.
pub proof fn lemma_bit64_highest(x: u64)
    requires
        x != 0,
    ensures
        0 <= u64_leading_zeros(x) < 64,
        bit64(x, (63 - u64_leading_zeros(x)) as nat),
        forall|j: nat| 63 - u64_leading_zeros(x) < j ==> !#[trigger] bit64(x, j),
{
    axiom_u64_leading_zeros(x);
    let h = (63 - u64_leading_zeros(x)) as u64;
    assert((x >> h) & 1u64 != 0u64);
    bv64_bits(x, 0, h, 0);
    assert forall|j: nat| 63 - u64_leading_zeros(x) < j implies !#[trigger] bit64(x, j) by {
        if j < 64 {
            let jj = j as u64;
            assert((x >> jj) & 1u64 == 0u64);
        }
    }
}

/// Two words with the same bits are equal.
pub proof fn lemma_bit64_ext(a: u64, b: u64)
    requires
        forall|j: nat| j < 64 ==> bit64(a, j) == bit64(b, j),
    ensures
        a == b,
{
    if a != b {
        let d = a ^ b;
        bv64_bits(a, b, 0, 0);
        lemma_bit64_lowest(d);
        let t = u64_trailing_zeros(d) as u64;
        bv64_bits(a, b, t, 0);
        assert(bit64(a, t as nat) == bit64(b, t as nat));
    }
}

/// A word is zero exactly when it has no set bit.
pub proof fn lemma_bit64_nonzero(x: u64)
    ensures
        x != 0 <==> exists|j: nat| j < 64 && bit64(x, j),
{
    if x != 0 {
        lemma_bit64_lowest(x);
        assert(bit64(x, u64_trailing_zeros(x) as nat));
    } else {
        assert forall|j: nat| j < 64 implies !bit64(x, j) by {
            lemma_bit64_zero(j);
        }
    }
}

/// Bit `j` of the 128-bit word `x` is set.
pub open spec fn bit128(x: u128, j: nat) -> bool {
    j < 128 && (x >> (j as u128)) & 1u128 == 1u128
}

/// Facts about single bits of 128-bit words and their halves, proved at once.
pub proof fn bv128_bits(x: u128, j: u128)
    by (bit_vector)
    ensures
        j < 64 ==> ((((x as u64) >> (j as u64)) & 1u64 == 1u64) <==> ((x >> j) & 1u128 == 1u128)),
        j < 64 ==> (((((x >> 64u128) as u64) >> (j as u64)) & 1u64 == 1u64) <==> ((x >> (j + 64))
            & 1u128 == 1u128)),
        (0u128 >> j) & 1u128 == 0u128,
{
}

/// Bits of a right shift of a 128-bit word.
proof fn bv128_shr(x: u128, r: u128, j: u128)
    by (bit_vector)
    requires
        r < 128,
        j < 128,
    ensures
        (((x >> r) >> j) & 1u128 == 1u128) <==> (j + r < 128 && ((x >> (j + r)) & 1u128 == 1u128)),
{
}

/// Bits of a left shift of a 128-bit word that loses no bit.
#[verifier::rlimit(60)]
proof fn bv128_shl(x: u128, r: u128, j: u128)
    by (bit_vector)
    requires
        r < 128,
        j < 128,
        (x << r) >> r == x,
    ensures
        (((x << r) >> j) & 1u128 == 1u128) <==> (j >= r && ((x >> ((j - r) as u128)) & 1u128
            == 1u128)),
        j + r >= 128 ==> (x >> j) & 1u128 == 0u128,
{
}

/// The low half of a 128-bit word holds its bits below 64.
pub proof fn lemma_bit128_low(x: u128, j: nat)
    requires
        j < 64,
    ensures
        bit64(x as u64, j) == bit128(x, j),
{
    bv128_bits(x, j as u128);
}

/// The high half of a 128-bit word holds its bits from 64 on.
pub proof fn lemma_bit128_high(x: u128, j: nat)
    requires
        j < 64,
    ensures
        bit64((x >> 64u128) as u64, j) == bit128(x, j + 64),
{
    bv128_bits(x, j as u128);
}

/// Bits of a right-shifted 128-bit word.
pub proof fn lemma_bit128_shr(x: u128, r: nat, j: nat)
    requires
        r < 128,
    ensures
        bit128(x >> (r as u128), j) == bit128(x, j + r),
{
    if j < 128 {
        bv128_shr(x, r as u128, j as u128);
    }
}

/// Bits of a left-shifted 128-bit word that loses no bit.
pub proof fn lemma_bit128_shl(x: u128, r: nat, j: nat)
    requires
        r < 128,
        (x << (r as u128)) >> (r as u128) == x,
    ensures
        bit128(x << (r as u128), j) == (j >= r && bit128(x, (j - r) as nat)),
        j + r >= 128 ==> !bit128(x, j),
{
    if j < 128 {
        bv128_shl(x, r as u128, j as u128);
    } else if j - r < 128 {
        bv128_shl(x, r as u128, (j - r) as u128);
    }
}

/// Bits of words built from two neighbours shifted up or down, proved at once.
proof fn bv_pair(a: u64, b: u64, bs: u64, j: u64)
    by (bit_vector)
    requires
        0 < bs < 64,
        j < 64,
    ensures
        ((((a << bs) | (b >> ((64 - bs) as u64))) >> j) & 1u64 == 1u64) <==> (if j >= bs {
            (a >> ((j - bs) as u64)) & 1u64 == 1u64
        } else {
            (b >> ((j + 64 - bs) as u64)) & 1u64 == 1u64
        }),
        ((((a >> bs) | (b << ((64 - bs) as u64))) >> j) & 1u64 == 1u64) <==> (if j + bs < 64 {
            (a >> ((j + bs) as u64)) & 1u64 == 1u64
        } else {
            (b >> ((j + bs - 64) as u64)) & 1u64 == 1u64
        }),
{
}

/// Bits of a word built from two neighbours shifted up by `bs`.
pub proof fn lemma_bit64_shl_pair(a: u64, b: u64, bs: nat, j: nat)
    requires
        0 < bs < 64,
        j < 64,
    ensures
        bit64((a << (bs as u64)) | (b >> ((64 - bs) as u64)), j) == (if j >= bs {
            bit64(a, (j - bs) as nat)
        } else {
            bit64(b, (j + 64 - bs) as nat)
        }),
{
    bv_pair(a, b, bs as u64, j as u64);
}

/// Bits of a word built from two neighbours shifted down by `bs`.
pub proof fn lemma_bit64_shr_pair(a: u64, b: u64, bs: nat, j: nat)
    requires
        0 < bs < 64,
        j < 64,
    ensures
        bit64((a >> (bs as u64)) | (b << ((64 - bs) as u64)), j) == (if j + bs < 64 {
            bit64(a, j + bs)
        } else {
            bit64(b, (j + bs - 64) as nat)
        }),
{
    bv_pair(a, b, bs as u64, j as u64);
}

/// Ascending positions, offset by `base`, of the set bits of `x` at or above position `j`.
pub open spec fn bits_seq(x: u64, base: nat, j: nat) -> Seq<nat>
    decreases 64 - j,
{
    if j >= 64 {
        Seq::empty()
    } else if bit64(x, j) {
        seq![base + j].add(bits_seq(x, base, j + 1))
    } else {
        bits_seq(x, base, j + 1)
    }
}

/// What `bits_seq` holds: exactly the set bits at or above `j`, in ascending order.
pub proof fn lemma_bits_seq_props(x: u64, base: nat, j: nat)
    ensures
        bits_seq(x, base, j).len() <= 64 - j || j >= 64,
        forall|k: int|
            0 <= k < bits_seq(x, base, j).len() ==> base + j <= #[trigger] bits_seq(x, base, j)[k]
                < base + 64,
        forall|k: int|
            0 <= k < bits_seq(x, base, j).len() ==> bit64(
                x,
                (#[trigger] bits_seq(x, base, j)[k] - base) as nat,
            ),
        forall|k1: int, k2: int|
            0 <= k1 < k2 < bits_seq(x, base, j).len() ==> #[trigger] bits_seq(x, base, j)[k1]
                < #[trigger] bits_seq(x, base, j)[k2],
        forall|t: nat| j <= t < 64 && bit64(x, t) ==> bits_seq(x, base, j).contains(base + t),
        forall|e: nat| #[trigger] bits_seq(x, base, j).contains(e) ==> base + j <= e < base + 64
            && bit64(x, (e - base) as nat),
    decreases 64 - j,
{
    if j < 64 {
        lemma_bits_seq_props(x, base, j + 1);
        let s = bits_seq(x, base, j);
        let r = bits_seq(x, base, j + 1);
        if bit64(x, j) {
            assert(s == seq![base + j].add(r));
            assert forall|k: int| 0 <= k < s.len() implies base + j <= #[trigger] s[k] < base
                + 64 by {
                if k > 0 {
                    assert(s[k] == r[k - 1]);
                }
            }
            assert forall|k: int| 0 <= k < s.len() implies bit64(x, (#[trigger] s[k] - base) as nat) by {
                if k > 0 {
                    assert(s[k] == r[k - 1]);
                }
            }
            assert forall|k1: int, k2: int| 0 <= k1 < k2 < s.len() implies #[trigger] s[k1]
                < #[trigger] s[k2] by {
                assert(s[k2] == r[k2 - 1]);
                if k1 > 0 {
                    assert(s[k1] == r[k1 - 1]);
                }
            }
            assert forall|t: nat| j <= t < 64 && bit64(x, t) implies s.contains(base + t) by {
                if t == j {
                    assert(s[0] == base + t);
                } else {
                    let k = choose|k: int| 0 <= k < r.len() && r[k] == base + t;
                    assert(s[k + 1] == base + t);
                }
            }
            assert forall|e: nat| #[trigger] s.contains(e) implies base + j <= e < base + 64
                && bit64(x, (e - base) as nat) by {
                let k = choose|k: int| 0 <= k < s.len() && s[k] == e;
                if k > 0 {
                    assert(s[k] == r[k - 1]);
                    assert(r.contains(e));
                }
            }
        } else {
            assert forall|t: nat| j <= t < 64 && bit64(x, t) implies s.contains(base + t) by {
                assert(t != j);
            }
        }
    }
}

/// Shifting the offset shifts every listed position.
pub proof fn lemma_bits_seq_len_base(x: u64, b1: nat, b2: nat, j: nat)
    ensures
        bits_seq(x, b1, j).len() == bits_seq(x, b2, j).len(),
    decreases 64 - j,
{
    if j < 64 {
        lemma_bits_seq_len_base(x, b1, b2, j + 1);
    }
}

/// Words that agree at and above `j` list the same positions from `j` on.
pub proof fn lemma_bits_seq_agree(x: u64, y: u64, base: nat, j: nat)
    requires
        forall|t: nat| j <= t ==> bit64(x, t) == bit64(y, t),
    ensures
        bits_seq(x, base, j) == bits_seq(y, base, j),
    decreases 64 - j,
{
    if j < 64 {
        lemma_bits_seq_agree(x, y, base, j + 1);
    }
}

/// With no set bit in `[j, k)`, the listing from `j` equals the listing from `k`.
pub proof fn lemma_bits_seq_skip(x: u64, base: nat, j: nat, k: nat)
    requires
        j <= k,
        forall|t: nat| j <= t < k ==> !bit64(x, t),
    ensures
        bits_seq(x, base, j) == bits_seq(x, base, k),
    decreases k - j,
{
    if j < k && j < 64 {
        lemma_bits_seq_skip(x, base, j + 1, k);
    } else if j < k {
        assert(bits_seq(x, base, j) == Seq::<nat>::empty());
        assert(bits_seq(x, base, k) == Seq::<nat>::empty());
    }
}

/// The zero word lists nothing.
pub proof fn lemma_bits_seq_zero(base: nat, j: nat)
    ensures
        bits_seq(0u64, base, j) == Seq::<nat>::empty(),
    decreases 64 - j,
{
    if j < 64 {
        lemma_bit64_zero(j);
        lemma_bits_seq_zero(base, j + 1);
    }
}

/// Removing the lowest set bit removes the first listed position.
pub proof fn lemma_bits_seq_pop_lowest(x: u64, base: nat)
    requires
        x != 0,
    ensures
        u64_trailing_zeros(x) < 64,
        bits_seq(x, base, 0) == seq![base + u64_trailing_zeros(x) as nat].add(
            bits_seq(x & !(1u64 << u64_trailing_zeros(x) as u64), base, 0),
        ),
{
    lemma_bit64_lowest(x);
    let t = u64_trailing_zeros(x) as u64;
    let y = x & !(1u64 << t);
    assert forall|j: nat| true implies #[trigger] bit64(y, j) == (j != t && bit64(x, j)) by {
        lemma_bit64_clear(x, t, j);
    }
    lemma_bits_seq_skip(x, base, 0, t as nat);
    lemma_bits_seq_skip(y, base, 0, (t + 1) as nat);
    lemma_bits_seq_agree(x, y, base, (t + 1) as nat);
}

/// Listing positions from `j`, with the highest set bit `h >= j` taken out and added at the end.
proof fn lemma_bits_seq_pop_highest_from(x: u64, y: u64, base: nat, h: nat, j: nat)
    requires
        j <= h < 64,
        bit64(x, h),
        forall|t: nat| h < t ==> !bit64(x, t),
        forall|t: nat| #[trigger] bit64(y, t) == (t != h && bit64(x, t)),
    ensures
        bits_seq(x, base, j) == bits_seq(y, base, j).push(base + h),
    decreases h - j,
{
    lemma_bits_seq_skip(x, base, h + 1, 64);
    lemma_bits_seq_skip(y, base, h + 1, 64);
    if j == h {
        assert(bits_seq(x, base, h) == seq![base + h].add(bits_seq(x, base, h + 1)));
        assert(bits_seq(y, base, h) == bits_seq(y, base, h + 1));
        assert(bits_seq(x, base, h + 1) == Seq::<nat>::empty());
        assert(bits_seq(y, base, h + 1) == Seq::<nat>::empty());
        assert(seq![base + h].add(Seq::<nat>::empty()) == Seq::<nat>::empty().push(base + h));
    } else {
        lemma_bits_seq_pop_highest_from(x, y, base, h, j + 1);
        if bit64(x, j) {
            assert(bits_seq(y, base, j) == seq![base + j].add(bits_seq(y, base, j + 1)));
            assert(seq![base + j].add(bits_seq(y, base, j + 1).push(base + h)) == seq![base
                + j].add(bits_seq(y, base, j + 1)).push(base + h));
        }
    }
}

/// Removing the highest set bit removes the last listed position.
pub proof fn lemma_bits_seq_pop_highest(x: u64, base: nat)
    requires
        x != 0,
    ensures
        0 <= u64_leading_zeros(x) < 64,
        bits_seq(x, base, 0) == bits_seq(
            x & !(1u64 << (63 - u64_leading_zeros(x)) as u64),
            base,
            0,
        ).push(base + (63 - u64_leading_zeros(x)) as nat),
{
    lemma_bit64_highest(x);
    let h = (63 - u64_leading_zeros(x)) as u64;
    let y = x & !(1u64 << h);
    assert forall|t: nat| true implies #[trigger] bit64(y, t) == (t != h && bit64(x, t)) by {
        lemma_bit64_clear(x, h, t);
    }
    lemma_bits_seq_pop_highest_from(x, y, base, h as nat, 0);
}

} // verus!
