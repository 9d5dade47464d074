//! [`IndexSetIter`]: the slots of an [`IndexSet`], produced in ascending
//! order from the front and in descending order from the back.
use vstd::prelude::*;
use vstd::std_specs::bits::{u64_leading_zeros, u64_trailing_zeros};
use crate::bits::{
    bits_seq, lemma_bit64_highest, lemma_bits_seq_pop_highest, lemma_bits_seq_pop_lowest,
    lemma_bits_seq_props, lemma_bits_seq_zero,
};
use crate::index_set::IndexSet;

verus! {

/// An iterator over the slot indices contained in an [`IndexSet`].
///
/// Produces indices in ascending order.
#[derive(Debug)]
pub struct IndexSetIter<'a> {
    inner: &'a IndexSet,
    front_chunk: usize,
    front_bits: u64,
    back_chunk: usize,
    back_bits: u64,
    remaining: usize,
}

impl<'a> Clone for IndexSetIter<'a> {
    /// A copy that goes on from the same place.
    fn clone(&self) -> (r: Self)
        ensures
            r == *self,
    {
        IndexSetIter {
            inner: self.inner,
            front_chunk: self.front_chunk,
            front_bits: self.front_bits,
            back_chunk: self.back_chunk,
            back_bits: self.back_bits,
            remaining: self.remaining,
        }
    }
}

/// Slots of the part of `s` between a front chunk `f` (holding `fb`) and a
/// back chunk `b` (holding `bb`), in ascending order.
pub open spec fn window(s: IndexSet, f: nat, fb: u64, b: nat, bb: u64) -> Seq<nat> {
    bits_seq(fb, 64 * f, 0).add(s.elems_range(f + 1, b)).add(
        if f < b {
            bits_seq(bb, 64 * b, 0)
        } else {
            Seq::empty()
        },
    )
}

impl<'a> IndexSetIter<'a> {
    /// The slots not produced yet, in ascending order.
    pub closed spec fn rest(self) -> Seq<nat> {
        window(
            *self.inner,
            self.front_chunk as nat,
            self.front_bits,
            self.back_chunk as nat,
            self.back_bits,
        )
    }

    /// The iterator's fields agree with each other.
    pub closed spec fn wf(self) -> bool {
        &&& self.front_chunk <= self.back_chunk
        &&& self.front_chunk == self.back_chunk ==> self.front_bits == self.back_bits
        &&& (self.back_chunk + 1) * 64 <= usize::MAX + 1
        &&& self.remaining == self.rest().len()
    }

    /// Chunk `chunk` of the set being walked.
    fn chunk_bits(&self, chunk: usize) -> (r: u64)
        ensures
            r == self.inner.chunk(chunk as nat),
    {
        self.inner.chunk_at(chunk)
    }

    /// Produces the smallest slot not produced yet.
    pub fn next(&mut self) -> (r: Option<usize>)
        requires
            old(self).wf(),
        ensures
            final(self).wf(),
            old(self).rest().len() == 0 ==> r is None && final(self).rest() == old(self).rest(),
            old(self).rest().len() > 0 ==> (r matches Some(x) && x as nat == old(self).rest()[0]
                && final(self).rest() == old(self).rest().drop_first()),
    {
        loop
            invariant
                self.wf(),
                self.rest() == old(self).rest(),
            decreases self.back_chunk - self.front_chunk,
        {
            let ghost s = *self.inner;
            let ghost f = self.front_chunk as nat;
            let ghost b = self.back_chunk as nat;
            let ghost fb = self.front_bits;
            let ghost bb = self.back_bits;
            let ghost m = s.elems_range(f + 1, b);
            let ghost tail = if f < b {
                bits_seq(bb, 64 * b, 0)
            } else {
                Seq::<nat>::empty()
            };
            if self.front_bits != 0 {
                let tz = self.front_bits.trailing_zeros() as usize;
                proof {
                    lemma_bits_seq_pop_lowest(fb, 64 * f);
                }
                let mask = 1u64 << tz;
                self.front_bits = self.front_bits & !mask;
                if self.front_chunk == self.back_chunk {
                    self.back_bits = self.back_bits & !mask;
                }
                proof {
                    let fb2 = self.front_bits;
                    let head = bits_seq(fb2, 64 * f, 0);
                    assert(bits_seq(fb, 64 * f, 0) == seq![64 * f + tz as nat].add(head));
                    assert(self.rest() == head.add(m).add(tail));
                    assert(old(self).rest() == seq![64 * f + tz as nat].add(head).add(m).add(tail));
                    assert(old(self).rest()[0] == 64 * f + tz as nat);
                    assert(old(self).rest().drop_first() =~= head.add(m).add(tail));
                }
                self.remaining = self.remaining - 1;
                return Some(self.front_chunk * 64 + tz);
            }
            proof {
                lemma_bits_seq_zero(64 * f, 0);
                assert(self.rest() =~= m.add(tail));
            }
            if self.remaining == 0 {
                return None;
            }
            proof {
                if f == b {
                    assert(m == Seq::<nat>::empty());
                }
            }
            self.front_chunk = self.front_chunk + 1;
            if self.front_chunk == self.back_chunk {
                self.front_bits = self.back_bits;
                proof {
                    assert(m == Seq::<nat>::empty());
                    assert(s.elems_range(f + 2, b) == Seq::<nat>::empty());
                    assert(self.rest() =~= bits_seq(bb, 64 * b, 0));
                }
            } else {
                self.front_bits = self.chunk_bits(self.front_chunk);
                proof {
                    assert(m == s.chunk_elems(f + 1).add(s.elems_range(f + 2, b)));
                    assert(self.rest() =~= m.add(tail));
                }
            }
        }
    }

    /// Produces the largest slot not produced yet.
    pub fn next_back(&mut self) -> (r: Option<usize>)
        requires
            old(self).wf(),
        ensures
            final(self).wf(),
            old(self).rest().len() == 0 ==> r is None && final(self).rest() == old(self).rest(),
            old(self).rest().len() > 0 ==> (r matches Some(x) && x as nat == old(self).rest().last()
                && final(self).rest() == old(self).rest().drop_last()),
    {
        loop
            invariant
                self.wf(),
                self.rest() == old(self).rest(),
            decreases self.back_chunk - self.front_chunk,
        {
            let ghost s = *self.inner;
            let ghost f = self.front_chunk as nat;
            let ghost b = self.back_chunk as nat;
            let ghost fb = self.front_bits;
            let ghost bb = self.back_bits;
            let ghost head = bits_seq(fb, 64 * f, 0);
            let ghost m = s.elems_range(f + 1, b);
            if self.back_bits != 0 {
                proof {
                    lemma_bit64_highest(bb);
                    lemma_bits_seq_pop_highest(bb, 64 * b);
                }
                let lz = 63 - self.back_bits.leading_zeros() as usize;
                let mask = 1u64 << lz;
                self.back_bits = self.back_bits & !mask;
                if self.front_chunk == self.back_chunk {
                    self.front_bits = self.front_bits & !mask;
                }
                proof {
                    let bb2 = self.back_bits;
                    let last = 64 * b + lz as nat;
                    assert(bits_seq(bb, 64 * b, 0) == bits_seq(bb2, 64 * b, 0).push(last));
                    if f < b {
                        assert(old(self).rest() == head.add(m).add(bits_seq(bb2, 64 * b, 0).push(
                            last,
                        )));
                        assert(old(self).rest() =~= head.add(m).add(bits_seq(bb2, 64 * b, 0)).push(
                            last,
                        ));
                        assert(self.rest() == head.add(m).add(bits_seq(bb2, 64 * b, 0)));
                    } else {
                        assert(old(self).rest() =~= bits_seq(bb2, 64 * b, 0).push(last));
                        assert(self.rest() =~= bits_seq(bb2, 64 * b, 0));
                    }
                    assert(old(self).rest().drop_last() =~= self.rest());
                }
                self.remaining = self.remaining - 1;
                return Some(self.back_chunk * 64 + lz);
            }
            proof {
                lemma_bits_seq_zero(64 * b, 0);
                if f < b {
                    assert(self.rest() =~= head.add(m));
                } else {
                    assert(fb == 0);
                    lemma_bits_seq_zero(64 * f, 0);
                    assert(self.rest() =~= Seq::<nat>::empty());
                }
            }
            if self.remaining == 0 {
                return None;
            }
            if self.back_chunk == 0 {
                self.remaining = 0;
                return None;
            }
            self.back_chunk = self.back_chunk - 1;
            if self.back_chunk == self.front_chunk {
                self.back_bits = self.front_bits;
                proof {
                    assert(m == Seq::<nat>::empty());
                    assert(self.rest() =~= head);
                }
            } else {
                self.back_bits = self.chunk_bits(self.back_chunk);
                proof {
                    s.lemma_elems_range_split_last(f + 1, b);
                    assert(self.rest() =~= head.add(m));
                }
            }
        }
    }

    /// Number of slots not produced yet, as a lower and an upper bound.
    pub fn size_hint(&self) -> (r: (usize, Option<usize>))
        requires
            self.wf(),
        ensures
            r.0 == self.rest().len(),
            r.1 == Some(r.0),
    {
        (self.remaining, Some(self.remaining))
    }

    /// Number of slots not produced yet.
    pub fn len(&self) -> (r: usize)
        requires
            self.wf(),
        ensures
            r == self.rest().len(),
    {
        self.remaining
    }
}

impl IndexSet {
    /// Iterate over all slot indices present in the set, in ascending order.
    pub fn iter(&self) -> (r: IndexSetIter<'_>)
        requires
            self.fits(),
            self@.len() <= usize::MAX,
        ensures
            r.wf(),
            r.rest() == self.elems(),
    {
        let n = self.max_chunks();
        let max = if n == 0 {
            0
        } else {
            n - 1
        };
        let remaining = self.count_ones();
        let r = IndexSetIter {
            inner: self,
            front_chunk: 0,
            front_bits: self.get_first_chunk(),
            back_chunk: max,
            back_bits: self.chunk_at(max),
            remaining,
        };
        proof {
            let e = self.elems();
            if n == 0 {
                lemma_bits_seq_zero(0, 0);
                assert(r.rest() =~= Seq::<nat>::empty());
                assert(e =~= Seq::<nat>::empty());
            } else if n == 1 {
                assert(r.rest() =~= self.chunk_elems(0));
                assert(self.elems_range(1, 1) == Seq::<nat>::empty());
                assert(e =~= self.chunk_elems(0));
            } else {
                self.lemma_elems_range_split_last(1, n as nat);
                assert(e == self.chunk_elems(0).add(self.elems_range(1, n as nat)));
                assert(r.rest() =~= e);
            }
        }
        r
    }
}

} // verus!
