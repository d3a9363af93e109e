//! Bounded-chunk byte streaming.
//!
//! All byte transfer goes through [`pipe`]: a fixed-size chunk is written
//! fully before the next chunk is read, so memory use stays bounded by the
//! chunk length however large the payload is.

use vstd::prelude::*;

verus! {

/// Bytes moved per chunk.
pub const CHUNK_LEN: usize = 1026;

/// Copy every byte of `from` onto the end of `to`, one bounded chunk at a
/// time, until the source is exhausted.
pub fn pipe(from: &Vec<u8>, to: &mut Vec<u8>)
    ensures
        final(to)@ == old(to)@ + from@,
{
    proof {
        assert(to@ =~= old(to)@ + from@.take(0));
    }
    let mut i: usize = 0;
    while i < from.len()
        invariant
            i <= from.len(),
            to@ == old(to)@ + from@.take(i as int),
        decreases from.len() - i,
    {
        let end: usize = if from.len() - i < CHUNK_LEN {
            from.len()
        } else {
            i + CHUNK_LEN
        };
        let mut j: usize = i;
        while j < end
            invariant
                i <= j <= end,
                end <= from.len(),
                to@ == old(to)@ + from@.take(j as int),
            decreases end - j,
        {
            to.push(from[j]);
            proof {
                assert(old(to)@ + from@.take(j + 1 as int) =~= (old(to)@ + from@.take(
                    j as int,
                )).push(from@[j as int]));
            }
            j = j + 1;
        }
        i = end;
    }
    proof {
        assert(old(to)@ + from@.take(from@.len() as int) =~= old(to)@ + from@);
    }
}

} // verus!

