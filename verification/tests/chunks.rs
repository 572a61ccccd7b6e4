use demucs_core::{chunk_bounds, num_chunks, CHUNK_STRIDE, TRAINING_LENGTH};

#[test]
fn what_fits_a_segment_is_one_chunk() {
    assert_eq!(num_chunks(0), 1);
    assert_eq!(num_chunks(1), 1);
    assert_eq!(num_chunks(343_980), 1);
    assert_eq!(num_chunks(343_981), 2);
}

#[test]
fn every_started_stride_adds_a_chunk() {
    assert_eq!(num_chunks(343_980 + 257_985), 2);
    assert_eq!(num_chunks(343_980 + 257_985 + 1), 3);
    assert_eq!(num_chunks(343_980 + 2 * 257_985), 3);
    assert_eq!(num_chunks(4 * 60 * 44_100), 41);
}

#[test]
fn count_of_the_longest_recording_does_not_overflow() {
    let excess = usize::MAX - 343_980;
    assert_eq!(num_chunks(usize::MAX), excess.div_ceil(257_985) + 1);
}

#[test]
fn segment_is_39_fifths_of_a_second() {
    assert_eq!(TRAINING_LENGTH, 39 * 44_100 / 5);
    assert_eq!(CHUNK_STRIDE, TRAINING_LENGTH * 3 / 4);
}

#[test]
fn bounds_of_short_recordings() {
    assert_eq!(chunk_bounds(0, 0), (0, 0));
    assert_eq!(chunk_bounds(0, 1000), (0, 1000));
    assert_eq!(chunk_bounds(0, 343_980), (0, 343_980));
}

#[test]
fn last_chunk_is_cut_at_the_end() {
    assert_eq!(chunk_bounds(0, 600_000), (0, 343_980));
    assert_eq!(chunk_bounds(1, 600_000), (257_985, 600_000));
}

#[test]
fn neighbours_share_a_quarter_of_a_segment() {
    let n = 1_500_000;
    for k in 0..num_chunks(n) - 1 {
        let (_, end) = chunk_bounds(k, n);
        let (start, _) = chunk_bounds(k + 1, n);
        assert_eq!(end - start, 85_995);
    }
}

#[test]
fn chunks_cover_the_recording() {
    for n in [1, 343_980, 343_981, 601_965, 601_966, 1_500_000] {
        let count = num_chunks(n);
        assert_eq!(chunk_bounds(0, n).0, 0);
        assert_eq!(chunk_bounds(count - 1, n).1, n);
        for k in 1..count {
            assert!(chunk_bounds(k, n).0 < chunk_bounds(k - 1, n).1);
            assert!(chunk_bounds(k - 1, n).1 < n);
        }
    }
}

#[test]
fn no_sample_lies_in_three_chunks() {
    for n_samples in [343_981, 700_000, 1_000_000, 5_000_000] {
        for k in 2..num_chunks(n_samples) {
            assert!(chunk_bounds(k - 2, n_samples).1 <= chunk_bounds(k, n_samples).0);
        }
    }
}
