use demucs_core::{
    chunk_bounds, num_chunks, triangular_window, Arithmetic, ChunkAccumulator, ModelInfo, Stem,
    StemId,
};

struct Float;

impl Arithmetic<f32> for Float {
    fn count(n: usize) -> f32 {
        n as f32
    }

    fn plus(a: f32, b: f32) -> f32 {
        a + b
    }

    fn minus(a: f32, b: f32) -> f32 {
        a - b
    }

    fn times(a: f32, b: f32) -> f32 {
        a * b
    }

    fn over(a: f32, b: f32) -> f32 {
        a / b
    }

    fn magnitude(a: f32) -> f32 {
        a.abs()
    }

    fn is_positive(a: f32) -> bool {
        a > 0.0
    }
}

fn info() -> ModelInfo {
    ModelInfo {
        id: "two",
        stems: vec![StemId::Drums, StemId::Bass],
    }
}

fn stem(id: StemId, left: Vec<f32>, right: Vec<f32>) -> Stem<f32> {
    Stem { id, left, right }
}

#[test]
fn windows_of_small_lengths() {
    assert_eq!(triangular_window::<f32, Float>(0), Vec::<f32>::new());
    assert_eq!(triangular_window::<f32, Float>(1), vec![1.0]);
    assert_eq!(triangular_window::<f32, Float>(2), vec![0.0, 0.0]);
    assert_eq!(triangular_window::<f32, Float>(3), vec![0.0, 1.0, 0.0]);
    assert_eq!(
        triangular_window::<f32, Float>(5),
        vec![0.0, 0.5, 1.0, 0.5, 0.0]
    );
}

#[test]
fn window_of_a_segment_is_positive_inside() {
    let window = triangular_window::<f32, Float>(343_980);
    assert_eq!(window.len(), 343_980);
    assert_eq!(window[0], 0.0);
    assert_eq!(window[343_979], 0.0);
    assert!(window[1..343_979].iter().all(|w| *w > 0.0 && *w <= 1.0));
}

#[test]
fn window_matches_its_formula() {
    let window = triangular_window::<f32, Float>(1000);
    for (i, w) in window.iter().enumerate() {
        assert_eq!(*w, 1.0 - (2.0 * i as f32 / 999.0 - 1.0).abs());
    }
}

#[test]
fn nothing_added_is_silence() {
    let acc = ChunkAccumulator::<f32>::new::<Float>(2, 3);
    let stems = acc.finalize::<Float>(&info());
    assert_eq!(stems.len(), 2);
    assert_eq!(stems[0].id, StemId::Drums);
    assert_eq!(stems[1].id, StemId::Bass);
    for stem in &stems {
        assert_eq!(stem.left, vec![0.0; 3]);
        assert_eq!(stem.right, vec![0.0; 3]);
    }
}

#[test]
fn one_chunk_is_windowed_and_normalized() {
    let mut acc = ChunkAccumulator::<f32>::new::<Float>(2, 7);
    acc.add::<Float>(
        &info(),
        &vec![stem(
            StemId::Bass,
            vec![8.0, 6.0, 4.0, 2.0, 1.0],
            vec![1.0, 2.0, 3.0, 4.0, 5.0],
        )],
        1,
        5,
    );
    let stems = acc.finalize::<Float>(&info());
    assert_eq!(stems[0].left, vec![0.0; 7]);
    assert_eq!(stems[1].left, vec![0.0, 0.0, 6.0, 4.0, 2.0, 0.0, 0.0]);
    assert_eq!(stems[1].right, vec![0.0, 0.0, 2.0, 3.0, 4.0, 0.0, 0.0]);
}

#[test]
fn overlapping_chunks_are_averaged_by_weight() {
    let mut acc = ChunkAccumulator::<f32>::new::<Float>(2, 7);
    let first = vec![stem(StemId::Drums, vec![4.0; 5], vec![4.0; 5])];
    let second = vec![stem(StemId::Drums, vec![10.0; 5], vec![-2.0; 5])];
    acc.add::<Float>(&info(), &first, 0, 5);
    acc.add::<Float>(&info(), &second, 2, 5);
    let stems = acc.finalize::<Float>(&info());
    // Weights: 0 .5 1 .5 0 . . and . . 0 .5 1 .5 0
    assert_eq!(stems[0].left, vec![0.0, 4.0, 4.0, 7.0, 10.0, 10.0, 0.0]);
    assert_eq!(stems[0].right, vec![0.0, 4.0, 4.0, 1.0, -2.0, -2.0, 0.0]);
}

#[test]
fn a_stem_given_twice_is_added_twice() {
    let mut acc = ChunkAccumulator::<f32>::new::<Float>(2, 3);
    let twice = vec![
        stem(StemId::Bass, vec![3.0; 3], vec![1.0; 3]),
        stem(StemId::Bass, vec![4.0; 3], vec![1.0; 3]),
    ];
    acc.add::<Float>(&info(), &twice, 0, 3);
    let stems = acc.finalize::<Float>(&info());
    assert_eq!(stems[1].left, vec![0.0, 7.0, 0.0]);
    assert_eq!(stems[1].right, vec![0.0, 2.0, 0.0]);
}

#[test]
fn longer_stems_are_read_up_to_the_chunk() {
    let mut acc = ChunkAccumulator::<f32>::new::<Float>(2, 3);
    acc.add::<Float>(
        &info(),
        &vec![stem(StemId::Drums, vec![5.0; 9], vec![6.0; 9])],
        0,
        3,
    );
    let stems = acc.finalize::<Float>(&info());
    assert_eq!(stems[0].left, vec![0.0, 5.0, 0.0]);
}

#[test]
fn a_chunk_of_one_sample_counts_in_full() {
    let mut acc = ChunkAccumulator::<f32>::new::<Float>(2, 1);
    acc.add::<Float>(
        &info(),
        &vec![stem(StemId::Drums, vec![0.25], vec![0.5])],
        0,
        1,
    );
    let stems = acc.finalize::<Float>(&info());
    assert_eq!(stems[0].left, vec![0.25]);
    assert_eq!(stems[0].right, vec![0.5]);
}

#[test]
fn a_cut_signal_is_restored() {
    let n = 700_000;
    let signal: Vec<f32> = (0..n).map(|i| (i % 1000) as f32 / 1000.0 - 0.5).collect();
    let mut acc = ChunkAccumulator::<f32>::new::<Float>(2, n);
    for k in 0..num_chunks(n) {
        let (start, end) = chunk_bounds(k, n);
        let piece = signal[start..end].to_vec();
        let chunk = vec![stem(StemId::Drums, piece, vec![0.5; end - start])];
        acc.add::<Float>(&info(), &chunk, start, end - start);
    }
    let stems = acc.finalize::<Float>(&info());
    assert_eq!(stems[0].left.len(), n);
    assert_eq!(stems[0].left[0], 0.0);
    assert_eq!(stems[0].left[n - 1], 0.0);
    for p in 1..n - 1 {
        assert!((stems[0].left[p] - signal[p]).abs() < 1e-6);
        assert_eq!(stems[0].right[p], 0.5);
    }
    assert!(stems[1].left.iter().all(|x| *x == 0.0));
}

#[test]
fn two_chunks_can_be_added_in_either_order() {
    let wave = |scale: f32| (0..9).map(|i| (i as f32 * 0.7 + scale).sin() * scale).collect();
    let one = vec![
        stem(StemId::Drums, wave(0.1), wave(1e-7)),
        stem(StemId::Bass, wave(3.3), wave(1e7)),
    ];
    let other = vec![
        stem(StemId::Bass, wave(1e-3), wave(0.3)),
        stem(StemId::Drums, wave(7.7), wave(123.4)),
    ];

    let mut acc = ChunkAccumulator::<f32>::new::<Float>(2, 14);
    acc.add::<Float>(&info(), &one, 0, 9);
    acc.add::<Float>(&info(), &other, 4, 9);
    let stems = acc.finalize::<Float>(&info());

    let mut acc = ChunkAccumulator::<f32>::new::<Float>(2, 14);
    acc.add::<Float>(&info(), &other, 4, 9);
    acc.add::<Float>(&info(), &one, 0, 9);
    let swapped = acc.finalize::<Float>(&info());

    assert!(stems[0].left[5] != 0.0);
    for (a, b) in stems.iter().zip(&swapped) {
        assert_eq!(a.id, b.id);
        for (x, y) in a.left.iter().zip(&b.left).chain(a.right.iter().zip(&b.right)) {
            assert_eq!(x.to_bits(), y.to_bits());
        }
    }
}

#[test]
fn slices_at_any_place_restore_the_signal() {
    let left: Vec<f32> = (0..16).map(|i| i as f32 + 1.0).collect();
    let right: Vec<f32> = (0..16).map(|i| -2.0 * i as f32).collect();
    let mut acc = ChunkAccumulator::<f32>::new::<Float>(2, 16);
    // The same slice twice, one within another, out of order, and a gap.
    for (start, end) in [(9, 14), (1, 6), (1, 6), (2, 5), (6, 7)] {
        let slice = vec![stem(
            StemId::Drums,
            left[start..end].to_vec(),
            right[start..end].to_vec(),
        )];
        acc.add::<Float>(&info(), &slice, start, end - start);
    }
    let stems = acc.finalize::<Float>(&info());
    let heard = [2, 3, 4, 6, 10, 11, 12];
    for i in 0..16 {
        let (l, r) = if heard.contains(&i) { (left[i], right[i]) } else { (0.0, 0.0) };
        assert!((stems[0].left[i] - l).abs() < 1e-5);
        assert!((stems[0].right[i] - r).abs() < 1e-5);
    }
    assert_eq!(stems[1].id, StemId::Bass);
    assert_eq!(stems[1].left, vec![0.0; 16]);
    assert_eq!(stems[1].right, vec![0.0; 16]);
}

#[test]
fn an_empty_chunk_adds_nothing_anywhere() {
    let mut acc = ChunkAccumulator::<f32>::new::<Float>(2, 3);
    let chunk = vec![stem(StemId::Drums, vec![5.0; 3], vec![6.0; 3])];
    acc.add::<Float>(&info(), &chunk, 0, 3);
    acc.add::<Float>(&info(), &chunk, 3, 0);
    acc.add::<Float>(&info(), &chunk, 1000, 0);
    let stems = acc.finalize::<Float>(&info());
    assert_eq!(stems[0].left, vec![0.0, 5.0, 0.0]);
    assert_eq!(stems[0].right, vec![0.0, 6.0, 0.0]);
}

#[test]
fn only_the_rows_of_the_stems_given_are_needed() {
    let mut acc = ChunkAccumulator::<f32>::new::<Float>(1, 3);
    acc.add::<Float>(
        &info(),
        &vec![stem(StemId::Drums, vec![5.0; 3], vec![6.0; 3])],
        0,
        3,
    );
    let drums = ModelInfo {
        id: "one",
        stems: vec![StemId::Drums],
    };
    let stems = acc.finalize::<Float>(&drums);
    assert_eq!(stems.len(), 1);
    assert_eq!(stems[0].left, vec![0.0, 5.0, 0.0]);
}

#[test]
fn a_sample_depends_on_the_chunks_over_it() {
    let n_samples = 700_000;
    let mix = |last: f32| {
        let mut acc = ChunkAccumulator::<f32>::new::<Float>(2, n_samples);
        for (k, value) in [0.3f32, 0.7, last].into_iter().enumerate() {
            let (start, end) = chunk_bounds(k, n_samples);
            let samples = vec![value; end - start];
            let chunk = vec![stem(StemId::Drums, samples.clone(), samples)];
            acc.add::<Float>(&info(), &chunk, start, end - start);
        }
        acc.finalize::<Float>(&info())
    };
    assert_eq!(num_chunks(n_samples), 3);
    let (start, _) = chunk_bounds(2, n_samples);
    let one = mix(0.1);
    let other = mix(-5.5);
    assert_eq!(one[0].left[..start], other[0].left[..start]);
    assert_eq!(one[0].right[..start], other[0].right[..start]);
    assert!(one[0].left[start + 1] != other[0].left[start + 1]);
}
