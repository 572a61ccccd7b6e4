//! Where the chunks of a long recording lie.

use vstd::prelude::*;

verus! {

/// Length of a network input in samples. All model variants were trained on
/// segments of 39/5 seconds at 44100 Hz, and shorter input is padded to this
/// length.
pub const TRAINING_LENGTH: usize = 343980;

/// Distance between the starts of neighbouring chunks: 75% of a segment, so
/// that neighbours overlap by 25%.
pub const CHUNK_STRIDE: usize = 257985;

/// The sample at which chunk `index` starts.
pub open spec fn chunk_start(index: int) -> int {
    index * CHUNK_STRIDE
}

/// The sample before which chunk `index` of `n_samples` samples ends.
pub open spec fn chunk_end(index: int, n_samples: int) -> int {
    if chunk_start(index) + TRAINING_LENGTH <= n_samples {
        chunk_start(index) + TRAINING_LENGTH
    } else {
        n_samples
    }
}

/// The number of samples in chunk `index` of `n_samples` samples.
pub open spec fn chunk_len(index: int, n_samples: int) -> int {
    chunk_end(index, n_samples) - chunk_start(index)
}

/// How many chunks it takes to cover `n_samples` samples: one, and one more for
/// every stride, or part of a stride, that lies beyond the first segment.
pub open spec fn chunk_count(n_samples: int) -> int {
    if n_samples <= TRAINING_LENGTH {
        1
    } else {
        (n_samples - TRAINING_LENGTH + CHUNK_STRIDE - 1) / CHUNK_STRIDE as int + 1
    }
}

/// Compute the number of chunks needed for a given sample count.
pub fn num_chunks(n_samples: usize) -> (count: usize)
    ensures
        count == chunk_count(n_samples as int),
{
    if n_samples <= TRAINING_LENGTH {
        return 1;
    }
    let excess: usize = n_samples - TRAINING_LENGTH;
    let whole: usize = excess / CHUNK_STRIDE;
    if excess % CHUNK_STRIDE == 0 {
        whole + 1
    } else {
        whole + 2
    }
}

/// The samples that chunk `index` takes: from the first number up to, and
/// without, the second.
pub fn chunk_bounds(index: usize, n_samples: usize) -> (bounds: (usize, usize))
    requires
        index < chunk_count(n_samples as int),
    ensures
        bounds.0 == chunk_start(index as int),
        bounds.1 == chunk_end(index as int, n_samples as int),
        bounds.0 <= bounds.1 <= n_samples,
        bounds.1 - bounds.0 <= TRAINING_LENGTH,
{
    proof {
        law_chunk_reaches(n_samples as int, index as int);
    }
    let start: usize = index * CHUNK_STRIDE;
    let end: usize = if n_samples - start < TRAINING_LENGTH {
        n_samples
    } else {
        start + TRAINING_LENGTH
    };
    (start, end)
}

/// Every chunk lies within the recording, and only the last one stops short of
/// a whole segment. Unless it is the only one, the last chunk goes further than
/// what it shares with its neighbour.
pub proof fn law_chunk_reaches(n_samples: int, index: int)
    requires
        0 <= n_samples,
        0 <= index < chunk_count(n_samples),
    ensures
        0 <= chunk_start(index) <= chunk_end(index, n_samples) <= n_samples,
        chunk_len(index, n_samples) <= TRAINING_LENGTH,
        index + 1 < chunk_count(n_samples) ==> chunk_len(index, n_samples) == TRAINING_LENGTH,
        index > 0 ==> chunk_len(index, n_samples) > TRAINING_LENGTH - CHUNK_STRIDE,
        index + 1 == chunk_count(n_samples) ==> chunk_end(index, n_samples) == n_samples,
{
}

/// Neighbouring chunks share a quarter of a segment.
pub proof fn law_neighbours_overlap(n_samples: int, index: int)
    requires
        0 <= n_samples,
        0 <= index,
        index + 1 < chunk_count(n_samples),
    ensures
        4 * (chunk_end(index, n_samples) - chunk_start(index + 1)) == TRAINING_LENGTH,
{
}

/// Every sample lies in some chunk.
pub proof fn law_chunks_cover(n_samples: int, sample: int) -> (index: int)
    requires
        0 <= sample < n_samples,
    ensures
        0 <= index < chunk_count(n_samples),
        chunk_start(index) <= sample < chunk_end(index, n_samples),
{
    let count = chunk_count(n_samples);
    let index = sample / CHUNK_STRIDE as int;
    if index < count {
        index
    } else {
        count - 1
    }
}

/// No sample lies in more than two chunks, and if it lies in two, they are
/// neighbours.
pub proof fn law_two_chunks_cover(n_samples: int, sample: int, one: int, other: int)
    requires
        chunk_start(one) <= sample < chunk_end(one, n_samples),
        chunk_start(other) <= sample < chunk_end(other, n_samples),
        one <= other,
    ensures
        other <= one + 1,
{
}

/// The number of chunks is the least with which the last segment reaches the
/// end of the recording.
pub proof fn law_chunk_count_is_least(n_samples: int, count: int)
    requires
        0 <= n_samples,
        1 <= count,
    ensures
        chunk_count(n_samples) <= count <==> n_samples <= chunk_start(count - 1) + TRAINING_LENGTH,
{
}

/// One chunk is enough exactly for what fits one segment.
pub proof fn law_single_chunk(n_samples: int)
    ensures
        chunk_count(n_samples) >= 1,
        chunk_count(n_samples) == 1 <==> n_samples <= TRAINING_LENGTH,
{
}

/// A longer recording never needs fewer chunks.
pub proof fn law_chunk_count_monotonic(shorter: int, longer: int)
    requires
        shorter <= longer,
    ensures
        chunk_count(shorter) <= chunk_count(longer),
{
}

} // verus!
