//! What calls on chunk geometry return.

use vstd::prelude::*;

use crate::chunk::{
    chunk_bounds, chunk_count, law_chunk_reaches, num_chunks, CHUNK_STRIDE, TRAINING_LENGTH,
};

verus! {

/// A segment has 39/5 seconds of samples at 44100 Hz, and chunks start at
/// distances of three quarters of that.
pub proof fn law_segment_and_stride()
    ensures
        5 * TRAINING_LENGTH == 39 * 44100,
        4 * CHUNK_STRIDE == 3 * TRAINING_LENGTH,
{
}

/// A recording of any length is cut into as many chunks as it takes for the last
/// segment to reach its end, and into one at least.
pub proof fn law_num_chunks(n_samples: usize, count: usize)
    requires
        call_ensures(num_chunks, (n_samples,), count),
    ensures
        1 <= count,
        n_samples <= (count - 1) * 257985 + 343980,
        1 < count ==> (count - 2) * 257985 + 343980 < n_samples,
{
}

/// The number of chunks can be asked for any length, and bounds for each of them.
pub proof fn law_chunk_calls_are_taken(n_samples: usize, count: usize, index: usize)
    requires
        call_ensures(num_chunks, (n_samples,), count),
        index < count,
    ensures
        call_requires(num_chunks, (n_samples,)),
        call_requires(chunk_bounds, (index, n_samples)),
{
}

/// A chunk starts as many strides into the recording as there are chunks before
/// it, and ends a segment later, or where the recording ends.
pub proof fn law_chunk_bounds(n_samples: usize, count: usize, index: usize, bounds: (usize, usize))
    requires
        call_ensures(num_chunks, (n_samples,), count),
        index < count,
        call_ensures(chunk_bounds, (index, n_samples), bounds),
    ensures
        bounds.0 == index * 257985,
        bounds.0 <= bounds.1 <= n_samples,
        bounds.1 - bounds.0 <= 343980,
        bounds.1 < n_samples ==> bounds.1 - bounds.0 == 343980,
        bounds.1 == n_samples <==> index + 1 == count,
        count == chunk_count(n_samples as int),
{
    law_chunk_reaches(n_samples as int, index as int);
}

/// Neighbouring chunks overlap by a quarter of a segment.
pub proof fn law_neighbouring_bounds(
    n_samples: usize,
    count: usize,
    index: usize,
    bounds: (usize, usize),
    next: (usize, usize),
)
    requires
        call_ensures(num_chunks, (n_samples,), count),
        index + 1 < count,
        call_ensures(chunk_bounds, (index, n_samples), bounds),
        call_ensures(chunk_bounds, ((index + 1) as usize, n_samples), next),
    ensures
        4 * (bounds.1 - next.0) == 343980,
{
    law_chunk_reaches(n_samples as int, index as int);
}

} // verus!
