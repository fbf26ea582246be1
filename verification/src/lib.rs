//! A lossless LZ77 byte-stream compressor with a fixed three-byte token
//! encoding: a 12-bit back-reference distance, a 4-bit match length and one
//! literal byte.  The behaviour of every function is stated in its contract
//! and proved; the round-trip laws live in [`model`].
use vstd::prelude::*;

pub mod model;
pub mod lz77;

pub use lz77::LZ77;
pub use lz77::DecompressError;

verus! {

use crate::model::{match_at, rightmost_match_start, best_match_upto, best_match};
use crate::model::{lemma_best_match_upto, lemma_best_match};

/// The capability offered by a compressor: turn raw bytes into a token
/// stream and a token-aligned stream back into raw bytes.
pub trait LZ {
    /// Compress `raw_data` under the implementation's configured windows.
    fn compress(&self, raw_data: &[u8]) -> Vec<u8>;

    /// Decompress a stream of whole three-byte tokens.
    fn decompress(&self, compressed_data: &[u8]) -> Vec<u8>
        requires
            compressed_data@.len() % 3 == 0,
    ;
}

/// Do the first `len` bytes of `ahead` occur in `search` at `start`?
fn range_eq(search: &[u8], start: usize, ahead: &[u8], len: usize) -> (r: bool)
    requires
        start + len <= search@.len(),
        len <= ahead@.len(),
    ensures
        r == match_at(search@, ahead@, start as int, len as int),
{
    let n: usize = search.len();
    let mut k: usize = 0;
    while k < len
        invariant
            k <= len,
            n == search@.len(),
            start + len <= n,
            len <= ahead@.len(),
            forall|j: int| 0 <= j < k ==> search@[start + j] == ahead@[j],
        decreases len - k,
    {
        if search[start + k] != ahead[k] {
            proof {
                assert(search@.subrange(start as int, start + len)[k as int]
                    != ahead@.subrange(0, len as int)[k as int]);
            }
            return false;
        }
        k += 1;
    }
    proof {
        assert(search@.subrange(start as int, start + len) =~= ahead@.subrange(0, len as int));
    }
    true
}

/// Find the longest prefix of `ahead` that occurs somewhere in `search`, and
/// among equally long occurrences the one nearest the end of `search`.
/// Returns (distance back from the end of `search`, match length), or (0, 0)
/// when no prefix of `ahead` occurs in `search` at all.
#[verifier::loop_isolation(false)]
pub fn find_longest_match(search: &[u8], ahead: &[u8]) -> (r: (usize, usize))
    ensures
        r.0 == best_match(search@, ahead@).0,
        r.1 == best_match(search@, ahead@).1,
        r.1 <= ahead@.len() && r.1 <= r.0 <= search@.len(),
        r.1 == 0 ==> r.0 == 0,
        r.1 > 0 ==> match_at(search@, ahead@, search@.len() - r.0, r.1 as int),
        // No longer prefix of `ahead` occurs anywhere in `search` ...
        forall|t: int, l2: int| r.1 < l2 <= ahead@.len() ==> !match_at(search@, ahead@, t, l2),
        // ... and no equally long one occurs nearer the end of `search`.
        forall|t: int| search@.len() - r.0 < t ==> !match_at(search@, ahead@, t, r.1 as int),
{
    proof {
        lemma_best_match_upto(search@, ahead@, ahead@.len() as int);
        lemma_best_match(search@, ahead@);
    }
    let search_length: usize = search.len();
    let mut length: usize = ahead.len();
    while length >= 1
        invariant
            length <= ahead@.len(),
            search_length == search@.len(),
            best_match(search@, ahead@) == best_match_upto(search@, ahead@, length as int),
        decreases length,
    {
        if length <= search_length {
            let mut start_plus: usize = search_length - length + 1;
            while start_plus > 0
                invariant
                    start_plus <= search_length - length + 1,
                    1 <= length <= search_length,
                    length <= ahead@.len(),
                    search_length == search@.len(),
                    best_match(search@, ahead@)
                        == best_match_upto(search@, ahead@, length as int),
                    rightmost_match_start(search@, ahead@, length as int,
                        search@.len() - length as int)
                        == rightmost_match_start(search@, ahead@, length as int,
                            start_plus - 1),
                decreases start_plus,
            {
                let start: usize = start_plus - 1;
                if range_eq(search, start, ahead, length) {
                    proof {
                        assert(rightmost_match_start(search@, ahead@, length as int,
                            start as int) == start as int);
                    }
                    return (search_length - start, length);
                }
                start_plus = start_plus - 1;
            }
            proof {
                assert(rightmost_match_start(search@, ahead@, length as int, -1) == -1);
            }
        } else {
            proof {
                assert(rightmost_match_start(search@, ahead@, length as int,
                    search@.len() - length as int) == -1);
            }
        }
        length = length - 1;
    }
    proof {
        assert(best_match_upto(search@, ahead@, 0) == (0nat, 0nat));
    }
    (0, 0)
}

} // verus!
