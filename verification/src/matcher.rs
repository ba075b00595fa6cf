//! Pattern search: finds every occurrence of a byte pattern in the scanned
//! buffer, in ascending offset order.

use vstd::prelude::*;
use crate::bytes::bytes_eq;

verus! {

/// One occurrence of a pattern within the scanned data.
#[derive(Clone, Copy, Debug, PartialEq, Eq, Structural)]
pub struct Match {
    /// Offset within the data where the match occurred.
    pub offset: usize,
    /// Length of the match.
    pub length: usize,
}

/// True when `pat` occurs in `data` at offset `i`.
pub open spec fn occurs_at(data: Seq<u8>, pat: Seq<u8>, i: int) -> bool {
    &&& 0 <= i
    &&& i + pat.len() <= data.len()
    &&& data.subrange(i, i + pat.len() as int) == pat
}

/// The ascending offsets below `n` at which `pat` occurs in `data`.
pub open spec fn occurrences_upto(data: Seq<u8>, pat: Seq<u8>, n: int) -> Seq<usize>
    decreases n,
{
    if n <= 0 {
        Seq::empty()
    } else if occurs_at(data, pat, n - 1) {
        occurrences_upto(data, pat, n - 1) + seq![(n - 1) as usize]
    } else {
        occurrences_upto(data, pat, n - 1)
    }
}

/// The ascending offsets of every occurrence of `pat` in `data`.
pub open spec fn occurrences(data: Seq<u8>, pat: Seq<u8>) -> Seq<usize> {
    occurrences_upto(data, pat, data.len() - pat.len() + 1)
}

/// True when `pat` occurs somewhere in `data`.
pub open spec fn pattern_found(data: Seq<u8>, pat: Seq<u8>) -> bool {
    occurrences(data, pat).len() > 0
}

/// The matches of `pat` in `data` as offset/length records, in ascending
/// offset order.
pub open spec fn match_seq(data: Seq<u8>, pat: Seq<u8>) -> Seq<Match> {
    occurrences(data, pat).map(|k: int, off: usize| Match { offset: off, length: pat.len() as usize })
}

/// Finds every occurrence of `pat` in `data`, in ascending offset order.
/// Each reported match has the pattern's length.
pub fn find_matches(data: &[u8], pat: &[u8]) -> (r: Vec<Match>)
    requires
        pat@.len() > 0,
    ensures
        r@.len() == occurrences(data@, pat@).len(),
        forall|k: int|
            0 <= k < r@.len() ==> #[trigger] r@[k] == (Match {
                offset: occurrences(data@, pat@)[k],
                length: pat@.len() as usize,
            }),
{
    let mut r: Vec<Match> = Vec::new();
    let m = pat.len();
    let dlen = data.len();
    if m > dlen {
        proof {
            assert(occurrences(data@, pat@) =~= Seq::<usize>::empty());
        }
        return r;
    }
    let end = dlen - m + 1;
    for i in 0..end
        invariant
            m == pat@.len(),
            dlen == data@.len(),
            0 < m <= dlen,
            end == dlen - m + 1,
            r@.len() == occurrences_upto(data@, pat@, i as int).len(),
            forall|k: int|
                0 <= k < r@.len() ==> #[trigger] r@[k] == (Match {
                    offset: occurrences_upto(data@, pat@, i as int)[k],
                    length: m,
                }),
    {
        assert(i + m <= dlen);
        let here = &data[i..i + m];
        if bytes_eq(here, pat) {
            assert(occurs_at(data@, pat@, i as int));
            r.push(Match { offset: i, length: m });
        } else {
            assert(!occurs_at(data@, pat@, i as int));
        }
    }
    r
}

/// True exactly when `pat` occurs somewhere in `data`.
pub fn contains_pattern(data: &[u8], pat: &[u8]) -> (r: bool)
    requires
        pat@.len() > 0,
    ensures
        r == pattern_found(data@, pat@),
{
    let ms = find_matches(data, pat);
    ms.len() > 0
}

} // verus!
