//! A compact bit set backed by a vector of 64-bit words.
//!
//! The access guard uses one bit per required component type to record which
//! sub-lists of a resolved query have already been claimed.

use vstd::prelude::*;

verus! {

pub struct BitSet {
    set: Vec<u64>,
}

impl BitSet {
    /// The number of bits the set currently holds storage for.
    pub closed spec fn nbits(self) -> int {
        self.set@.len() * 64int
    }

    /// The value of bit `i`; bits outside the allocated words read as false.
    pub closed spec fn bit(self, i: int) -> bool {
        &&& 0 <= i < self.nbits()
        &&& (self.set@[i / 64] >> ((i % 64) as u64)) & 1 == 1
    }

    pub fn new() -> (r: Self)
        ensures
            r.nbits() == 0,
    {
        Self { set: Vec::new() }
    }

    /// Reserves room for `size` bits without making any bit readable yet.
    pub fn with_capacity(size: usize) -> (r: Self)
        ensures
            r.nbits() == 0,
    {
        let words: usize = size / 64 + if size % 64 == 0 { 0 } else { 1 };
        Self { set: Vec::with_capacity(words) }
    }

    /// A set of at least `size` bits, all false.
    pub fn with_capacity_zeroed(size: usize) -> (r: Self)
        ensures
            size <= r.nbits() < size + 64,
            r.nbits() % 64 == 0,
            forall|i: int| !r.bit(i),
    {
        let words: usize = size / 64 + if size % 64 == 0 { 0 } else { 1 };
        let mut set: Vec<u64> = Vec::new();
        let mut w: usize = 0;
        while w < words
            invariant
                w <= words,
                set@.len() == w,
                forall|k: int| 0 <= k < w ==> set@[k] == 0u64,
            decreases words - w,
        {
            set.push(0u64);
            w = w + 1;
        }
        let r = Self { set };
        proof {
            assert forall|i: int| !r.bit(i) by {
                if 0 <= i < r.nbits() {
                    let b = (i % 64) as u64;
                    assert((0u64 >> b) & 1 == 0) by (bit_vector);
                }
            }
        }
        r
    }

    /// Ors `value` into bit `index`; an index outside the allocated words is
    /// ignored.  A true bit is never cleared by this operation.
    pub fn set(&mut self, index: usize, value: bool)
        ensures
            final(self).nbits() == old(self).nbits(),
            forall|j: int|
                final(self).bit(j) == (old(self).bit(j) || (j == index && value && index
                    < old(self).nbits())),
    {
        let vec_idx = index / 64;
        let int_idx = (index % 64) as u64;
        if vec_idx < self.set.len() {
            let w = self.set[vec_idx];
            let vb: u64 = if value { 1u64 } else { 0u64 };
            let nw = w | (vb << int_idx);
            self.set[vec_idx] = nw;
            proof {
                assert forall|j: int|
                    final(self).bit(j) == (old(self).bit(j) || (j == index && value && index
                        < old(self).nbits())) by {
                    if 0 <= j < final(self).nbits() {
                        let jw = j / 64;
                        let jb = (j % 64) as u64;
                        assert(j == 64 * jw + j % 64);
                        assert(index == 64 * (index as int / 64) + index as int % 64);
                        if jw == vec_idx {
                            assert(((nw >> jb) & 1 == 1) == (((w >> jb) & 1 == 1) || (jb
                                == int_idx && vb == 1u64))) by (bit_vector)
                                requires
                                    nw == w | (vb << int_idx),
                                    jb < 64,
                                    int_idx < 64,
                                    vb == 0u64 || vb == 1u64,
                            ;
                            assert(j == index <==> jw == index / 64 && jb == (index % 64) as u64);
                        } else {
                            assert(final(self).set@[jw] == old(self).set@[jw]);
                        }
                    } else {
                        assert(!final(self).bit(j) && !old(self).bit(j));
                    }
                }
            }
        }
    }

    /// Reads bit `index`; an index outside the allocated words reads false.
    pub fn get(&self, index: usize) -> (r: bool)
        ensures
            r == self.bit(index as int),
    {
        let vec_idx = index / 64;
        let int_idx = (index % 64) as u64;
        if vec_idx < self.set.len() {
            let w = self.set[vec_idx];
            ((w >> int_idx) & 1) == 1
        } else {
            false
        }
    }

    /// Reserves room for `size` more bits; the stored bits are unchanged.
    pub fn reserve(&mut self, size: usize)
        ensures
            final(self).nbits() == old(self).nbits(),
            forall|j: int| final(self).bit(j) == old(self).bit(j),
    {
        let words: usize = size / 64 + if size % 64 == 0 { 0 } else { 1 };
        self.set.reserve(words);
    }
}

} // verus!
