//! The chunker: divides the whole buffer into contiguous, line-aligned byte
//! ranges for parallel workers.

use vstd::prelude::*;

use crate::bytes::{find_byte, lemma_first_idx_props, TERM};

verus! {

/// Whether `cs` is a chain of contiguous in-bounds ranges starting at zero.
pub open spec fn chunks_chain(cs: Seq<(usize, usize)>, len: int) -> bool {
    &&& (cs.len() > 0 ==> cs[0].0 == 0)
    &&& forall|i: int| 0 <= i < cs.len() ==> (#[trigger] cs[i]).0 <= cs[i].1 <= len
    &&& forall|i: int| 0 <= i < cs.len() - 1 ==> (#[trigger] cs[i]).1 == cs[i + 1].0
}

/// Whether the first `upto` ranges each end just after a terminator that is
/// the first one at or past the range's approximate cut `start + csize`: a
/// boundary that would fall mid-line is adjusted forward to the next
/// terminator, never splitting a line.
pub open spec fn chunks_aligned(cs: Seq<(usize, usize)>, data: Seq<u8>, csize: int, upto: int) -> bool {
    forall|i: int| 0 <= i < upto ==> {
        &&& (#[trigger] cs[i]).1 >= 1
        &&& data[cs[i].1 - 1] == TERM
        &&& cs[i].0 + csize <= cs[i].1 - 1
        &&& forall|j: int| cs[i].0 + csize <= j < cs[i].1 - 1 ==> data[j] != TERM
    }
}

/// Divides the buffer into at most `num_threads` contiguous ranges whose
/// union is the whole buffer, cutting each internal boundary immediately
/// after the first terminator at or past the approximate cut. Chunking stops
/// early, with fewer ranges, when no terminator can be found before the end
/// of the buffer.
pub fn get_chunks(data: &[u8], num_threads: usize) -> (r: Vec<(usize, usize)>)
    requires
        num_threads >= 1,
    ensures
        1 <= r@.len() <= num_threads,
        r@[0].0 == 0,
        r@[r@.len() - 1].1 == data@.len(),
        chunks_chain(r@, data@.len() as int),
        chunks_aligned(r@, data@, data@.len() as int / num_threads as int, r@.len() - 1),
        r@.len() < num_threads ==> forall|j: int|
            r@[r@.len() - 1].0 + data@.len() as int / num_threads as int <= j < data@.len() - 1
                ==> data@[j] != TERM,
{
    let n = data.len();
    let csize = n / num_threads;
    let mut chunks: Vec<(usize, usize)> = Vec::new();
    let mut start: usize = 0;
    let mut k: usize = 1;
    while k < num_threads
        invariant
            1 <= k <= num_threads,
            0 <= start <= n,
            n == data@.len(),
            csize == n as int / num_threads as int,
            chunks@.len() == k - 1,
            chunks_chain(chunks@, n as int),
            chunks_aligned(chunks@, data@, csize as int, chunks@.len() as int),
            chunks@.len() > 0 ==> chunks@[chunks@.len() - 1].1 == start,
            chunks@.len() == 0 ==> start == 0,
        ensures
            k == num_threads || n - start <= csize,
            1 <= k <= num_threads,
            0 <= start <= n,
            n == data@.len(),
            csize == n as int / num_threads as int,
            chunks@.len() == k - 1,
            chunks_chain(chunks@, n as int),
            chunks_aligned(chunks@, data@, csize as int, chunks@.len() as int),
            chunks@.len() > 0 ==> chunks@[chunks@.len() - 1].1 == start,
            chunks@.len() == 0 ==> start == 0,
        decreases num_threads - k,
    {
        if n - start <= csize {
            break ;
        }
        let approx = start + csize;
        match find_byte(&data[approx..n], TERM) {
            None => {
                proof {
                    assert forall|j: int| approx <= j < n implies data@[j] != TERM by {
                        assert(data@.subrange(approx as int, n as int)[j - approx] == data@[j]);
                    }
                }
                chunks.push((start, n));
                return chunks;
            },
            Some(rel) => {
                proof {
                    lemma_first_idx_props(data@.subrange(approx as int, n as int), TERM);
                    assert(data@.subrange(approx as int, n as int)[rel as int] == data@[approx
                        + rel]);
                    assert(data@[approx + rel] == TERM);
                    assert forall|j: int| approx <= j < approx + rel implies data@[j] != TERM by {
                        assert(data@.subrange(approx as int, n as int)[j - approx] == data@[j]);
                    }
                }
                let cut = approx + rel + 1;
                chunks.push((start, cut));
                start = cut;
                if start == n {
                    return chunks;
                }
            },
        }
        k = k + 1;
    }
    chunks.push((start, n));
    chunks
}

} // verus!
