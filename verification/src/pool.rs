//! The runtime string pool: an append-only interner that hands out dense
//! 32-bit identifiers for byte strings produced during a scan.

use vstd::prelude::*;
use crate::bytes::bytes_eq;

verus! {

/// An append-only interner for byte strings. Identifiers are dense indices
/// into the pool, and no byte string is stored twice.
pub struct BStringPool {
    strings: Vec<Vec<u8>>,
}

impl BStringPool {
    /// The interned byte strings, in insertion order.
    pub closed spec fn view(&self) -> Seq<Seq<u8>> {
        self.strings@.map(|i: int, s: Vec<u8>| s@)
    }

    /// No byte string appears twice in the pool.
    pub open spec fn wf(&self) -> bool {
        forall|i: int, j: int|
            0 <= i < j < self@.len() ==> self@[i] != self@[j]
    }

    /// Creates an empty pool.
    pub fn new() -> (r: BStringPool)
        ensures
            r@ == Seq::<Seq<u8>>::empty(),
            r.wf(),
    {
        let r = BStringPool { strings: Vec::new() };
        proof {
            assert(r@ =~= Seq::<Seq<u8>>::empty());
        }
        r
    }

    /// The number of interned byte strings.
    pub fn len(&self) -> (r: usize)
        ensures
            r == self@.len(),
    {
        self.strings.len()
    }

    /// The byte string interned under `id`.
    pub fn get(&self, id: u32) -> (r: &Vec<u8>)
        requires
            id < self@.len(),
        ensures
            r@ == self@[id as int],
    {
        &self.strings[id as usize]
    }

    /// Interns `s`: returns the identifier it already has, or appends it and
    /// returns the new identifier. Identifiers stay dense and stable.
    pub fn get_or_intern(&mut self, s: &[u8]) -> (r: u32)
        requires
            old(self).wf(),
            old(self)@.len() < u32::MAX,
        ensures
            final(self).wf(),
            final(self)@ == if old(self)@.contains(s@) {
                old(self)@
            } else {
                old(self)@.push(s@)
            },
            r < final(self)@.len(),
            final(self)@[r as int] == s@,
    {
        let n = self.strings.len();
        for i in 0..n
            invariant
                *self == *old(self),
                self.wf(),
                n == self@.len(),
                n < u32::MAX,
                forall|j: int| 0 <= j < i ==> self@[j] != s@,
        {
            if bytes_eq(self.strings[i].as_slice(), s) {
                assert(self@[i as int] == s@);
                assert(self@.contains(s@));
                return i as u32;
            }
        }
        assert(!self@.contains(s@)) by {
            if self@.contains(s@) {
                let k = choose|k: int| 0 <= k < self@.len() && self@[k] == s@;
                assert(self@[k] != s@);
            }
        }
        let owned: Vec<u8> = crate::bytes::copy_bytes(s);
        self.strings.push(owned);
        proof {
            assert(self@ =~= old(self)@.push(s@));
        }
        (self.strings.len() - 1) as u32
    }
}

} // verus!
