//! The per-scan match bitmap, kept in a `bitvec` bit vector.
//!
//! The bit vector comes from the `bitvec` crate and is opaque to the
//! verifier, so it lives in a hidden field here; `bits_of` names its
//! contents, and the wrappers below state what each operation does to them.

use vstd::prelude::*;

verus! {

/// A bit vector of per-rule match flags, backed by `bitvec::vec::BitVec`.
#[verifier::external_body]
pub struct Bitmap {
    bits: bitvec::vec::BitVec<usize, bitvec::order::Lsb0>,
}

/// The sequence of bits held by a match bitmap.
pub uninterp spec fn bits_of(b: Bitmap) -> Seq<bool>;

/// The ascending positions of `bits[0 .. n]` that hold `val`.
pub open spec fn indices_with_upto(bits: Seq<bool>, val: bool, n: int) -> Seq<usize>
    decreases n,
{
    if n <= 0 {
        Seq::empty()
    } else if bits[n - 1] == val {
        indices_with_upto(bits, val, n - 1) + seq![(n - 1) as usize]
    } else {
        indices_with_upto(bits, val, n - 1)
    }
}

/// The ascending positions of zero bits: the non-matching rule identifiers.
pub open spec fn zero_indices(bits: Seq<bool>) -> Seq<usize> {
    indices_with_upto(bits, false, bits.len() as int)
}

/// The ascending positions of one bits: the matching rule identifiers.
pub open spec fn one_indices(bits: Seq<bool>) -> Seq<usize> {
    indices_with_upto(bits, true, bits.len() as int)
}

/// How many bits of the sequence are set.
pub open spec fn count_ones(bits: Seq<bool>) -> nat
    decreases bits.len(),
{
    if bits.len() == 0 {
        0
    } else {
        count_ones(bits.drop_last()) + if bits.last() {
            1nat
        } else {
            0nat
        }
    }
}

/// The positions holding `val` below `n` are as many as `count_ones`
/// counts there (or its complement, for zero bits).
pub proof fn lemma_indices_with_upto_len(bits: Seq<bool>, val: bool, n: int)
    requires
        0 <= n <= bits.len(),
    ensures
        val ==> indices_with_upto(bits, val, n).len() == count_ones(bits.take(n)),
        !val ==> indices_with_upto(bits, val, n).len() + count_ones(bits.take(n)) == n,
    decreases n,
{
    if n == 0 {
        assert(bits.take(0) =~= Seq::<bool>::empty());
    } else {
        lemma_indices_with_upto_len(bits, val, n - 1);
        assert(bits.take(n).drop_last() =~= bits.take(n - 1));
        assert(bits.take(n).last() == bits[n - 1]);
    }
}

/// What `indices_with_upto` yields: positions below `n` that hold `val`,
/// each exactly once, in ascending order, and all of them.
pub proof fn lemma_indices_with_upto_props(bits: Seq<bool>, val: bool, n: int)
    requires
        0 <= n <= bits.len(),
        n <= usize::MAX,
    ensures
        forall|k: int|
            0 <= k < indices_with_upto(bits, val, n).len() ==> (#[trigger] indices_with_upto(
                bits,
                val,
                n,
            )[k]) < n,
        forall|k: int|
            0 <= k < indices_with_upto(bits, val, n).len() ==> bits[indices_with_upto(
                bits,
                val,
                n,
            )[k] as int] == val,
        forall|k1: int, k2: int|
            0 <= k1 < k2 < indices_with_upto(bits, val, n).len() ==> (#[trigger] indices_with_upto(
                bits,
                val,
                n,
            )[k1]) < (#[trigger] indices_with_upto(bits, val, n)[k2]),
        forall|j: int|
            0 <= j < n && bits[j] == val ==> indices_with_upto(bits, val, n).contains(j as usize),
    decreases n,
{
    if n > 0 {
        lemma_indices_with_upto_props(bits, val, n - 1);
        let prev = indices_with_upto(bits, val, n - 1);
        let cur = indices_with_upto(bits, val, n);
        if bits[n - 1] == val {
            assert(cur == prev + seq![(n - 1) as usize]);
            assert forall|k: int| 0 <= k < cur.len() implies bits[cur[k] as int] == val by {
                if k < prev.len() {
                    assert(cur[k] == prev[k]);
                } else {
                    assert(cur[k] == (n - 1) as usize);
                }
            }
            assert forall|k1: int, k2: int| 0 <= k1 < k2 < cur.len() implies cur[k1] < cur[k2] by {
                if k2 < prev.len() {
                    assert(cur[k1] == prev[k1]);
                    assert(cur[k2] == prev[k2]);
                } else {
                    assert(cur[k1] == prev[k1]);
                    assert(cur[k2] == (n - 1) as usize);
                    assert(prev[k1] < n - 1);
                }
            }
            assert forall|j: int| 0 <= j < n && bits[j] == val implies cur.contains(
                j as usize,
            ) by {
                if j < n - 1 {
                    assert(prev.contains(j as usize));
                    let k = choose|k: int| 0 <= k < prev.len() && prev[k] == j as usize;
                    assert(cur[k] == j as usize);
                } else {
                    assert(cur[cur.len() - 1] == j as usize);
                }
            }
        } else {
            assert(cur == prev);
            assert forall|j: int| 0 <= j < n && bits[j] == val implies cur.contains(
                j as usize,
            ) by {
                assert(j != n - 1);
            }
        }
    }
}

impl Bitmap {
    /// Relies on `BitVec::repeat`: a bit vector of `len` copies of `bit`.
    #[verifier::external_body]
    pub fn repeat(bit: bool, len: usize) -> (r: Bitmap)
        ensures
            bits_of(r) == Seq::new(len as nat, |i: int| bit),
    {
        Bitmap { bits: bitvec::vec::BitVec::repeat(bit, len) }
    }

    /// Relies on `BitSlice::len`: the number of bits held.
    #[verifier::external_body]
    pub fn len(&self) -> (r: usize)
        ensures
            r == bits_of(*self).len(),
    {
        self.bits.len()
    }

    /// Relies on `BitSlice::set`: writes one bit, leaving the others
    /// unchanged. `set` panics when `index` is out of bounds, so that case
    /// is excluded.
    #[verifier::external_body]
    pub fn set(&mut self, index: usize, value: bool)
        requires
            index < bits_of(*old(self)).len(),
        ensures
            bits_of(*final(self)) == bits_of(*old(self)).update(index as int, value),
    {
        self.bits.set(index, value);
    }

    /// Relies on `BitSlice::get`: reads one bit.
    #[verifier::external_body]
    pub fn get(&self, index: usize) -> (r: bool)
        requires
            index < bits_of(*self).len(),
        ensures
            r == bits_of(*self)[index as int],
    {
        *self.bits.get(index).unwrap()
    }

    /// Relies on `BitSlice::fill`: overwrites every bit with `value`.
    #[verifier::external_body]
    pub fn fill(&mut self, value: bool)
        ensures
            bits_of(*final(self)) == Seq::new(bits_of(*old(self)).len(), |i: int| value),
    {
        self.bits.fill(value);
    }

    /// Relies on `BitSlice::iter_zeros`: yields the indices of the zero bits
    /// in ascending order.
    #[verifier::external_body]
    pub fn zeros(&self) -> (r: Vec<usize>)
        ensures
            r@ == zero_indices(bits_of(*self)),
    {
        self.bits.iter_zeros().collect()
    }
}

} // verus!
