use std::cell::RefCell;

use demucs_core::{
    branch_lengths, decode_stem, frame_count, overlay, pad_channel, pad_segment, segment_input,
    segment_spectra, stem_channels, stems_from_segment, time_input, Arithmetic, DemucsError,
    ModelInfo, Result, SegmentData, StemId, Transfer, FREQ_BINS, N_FFT, TRAINING_LENGTH,
};

struct Float;

impl Arithmetic<f32> for Float {
    fn count(n: usize) -> f32 {
        n as f32
    }

    fn plus(a: f32, b: f32) -> f32 {
        a + b
    }

    fn minus(a: f32, b: f32) -> f32 {
        a - b
    }

    fn times(a: f32, b: f32) -> f32 {
        a * b
    }

    fn over(a: f32, b: f32) -> f32 {
        a / b
    }

    fn magnitude(a: f32) -> f32 {
        a.abs()
    }

    fn is_positive(a: f32) -> bool {
        a > 0.0
    }
}

fn info() -> ModelInfo {
    ModelInfo {
        id: "two",
        stems: vec![StemId::Drums, StemId::Bass],
    }
}

/// Two stems of one frame and three samples. Every spectrum holds one value.
fn data() -> SegmentData<f32> {
    let half = 2 * FREQ_BINS;
    let mut freq_data = Vec::new();
    for value in [1.0f32, 2.0, 3.0, 4.0] {
        freq_data.extend(vec![value; half]);
    }
    let time_data = (0..12).map(|i| i as f32 * 10.0).collect();
    SegmentData {
        freq_data,
        time_data,
        n_frames: 1,
        n_samples: 3,
    }
}

fn flat(cac: &[f32], freq_bins: usize, n_frames: usize, padded_len: usize) -> Result<Vec<f32>> {
    assert_eq!(freq_bins, 2048);
    assert_eq!(n_frames, 1);
    assert_eq!(padded_len, TRAINING_LENGTH);
    assert_eq!(cac.len(), 4096);
    assert!(cac.iter().all(|x| *x == cac[0]));
    Ok(vec![cac[0]; 5])
}

#[test]
fn bins_are_half_of_the_transform() {
    assert_eq!(FREQ_BINS, N_FFT / 2);
}

#[test]
fn padding_fills_a_segment() {
    let padded = pad_channel(&[1.0f32, 2.0], 0.0);
    assert_eq!(padded.len(), 343_980);
    assert_eq!(&padded[..3], &[1.0, 2.0, 0.0]);
    assert!(padded[2..].iter().all(|x| *x == 0.0));
}

#[test]
fn a_full_segment_is_not_padded() {
    let channel = vec![0.5f32; TRAINING_LENGTH];
    assert_eq!(pad_channel(&channel, 0.0), channel);
}

#[test]
fn time_input_stacks_the_channels() {
    assert_eq!(
        time_input(&[1.0f32, 2.0, 3.0], &[4.0, 5.0, 6.0], 3, 0.0),
        vec![1.0, 2.0, 3.0, 4.0, 5.0, 6.0]
    );
    assert_eq!(
        time_input(&[1.0f32], &[4.0, 5.0], 3, 0.0),
        vec![1.0, 0.0, 0.0, 4.0, 5.0, 0.0]
    );
}

#[test]
fn right_channel_overwrites_a_left_one_that_is_too_long() {
    assert_eq!(
        time_input(&[1.0f32, 2.0, 3.0, 4.0], &[5.0], 2, 0.0),
        vec![1.0, 2.0, 5.0, 4.0]
    );
}

#[test]
fn frames_of_a_spectrum() {
    assert_eq!(frame_count(0), 0);
    assert_eq!(frame_count(2047), 0);
    assert_eq!(frame_count(2048 * 336), 336);
}

#[test]
fn lengths_of_the_branches() {
    assert_eq!(
        branch_lengths(4, 336, 343_980),
        (4 * 4 * 2048 * 336, 4 * 2 * 343_980)
    );
    assert_eq!(branch_lengths(0, 336, 10), (0, 0));
}

#[test]
fn channels_of_a_stem() {
    let first = stem_channels(0);
    assert_eq!((first.freq, first.time), ((0, 4), (0, 2)));
    let fourth = stem_channels(3);
    assert_eq!((fourth.freq, fourth.time), ((12, 4), (6, 2)));
}

#[test]
fn overlay_adds_over_the_track() {
    assert_eq!(
        overlay::<f32, Float>(&[1.0, 2.0, 3.0], &[10.0, 20.0]),
        vec![11.0, 22.0]
    );
    assert_eq!(overlay::<f32, Float>(&[1.0], &[]), Vec::<f32>::new());
}

#[test]
fn stems_take_their_parts_of_both_branches() {
    let stems = stems_from_segment::<f32, Float, _>(&data(), &info(), &flat).unwrap();
    assert_eq!(stems.len(), 2);
    assert_eq!(stems[0].id, StemId::Drums);
    assert_eq!(stems[0].left, vec![1.0, 11.0, 21.0]);
    assert_eq!(stems[0].right, vec![32.0, 42.0, 52.0]);
    assert_eq!(stems[1].id, StemId::Bass);
    assert_eq!(stems[1].left, vec![63.0, 73.0, 83.0]);
    assert_eq!(stems[1].right, vec![94.0, 104.0, 114.0]);
}

#[test]
fn a_model_without_stems_decodes_to_none() {
    let none = ModelInfo {
        id: "none",
        stems: vec![],
    };
    let stems = stems_from_segment::<f32, Float, _>(&data(), &none, &flat).unwrap();
    assert!(stems.is_empty());
}

#[test]
fn one_stem_can_be_decoded_alone() {
    let stem = decode_stem::<f32, Float, _>(&data(), 1, StemId::Vocals, &flat).unwrap();
    assert_eq!(stem.id, StemId::Vocals);
    assert_eq!(stem.left, vec![63.0, 73.0, 83.0]);
    assert_eq!(stem.right, vec![94.0, 104.0, 114.0]);
}

#[test]
fn the_first_failure_ends_decoding() {
    let seen = RefCell::new(Vec::new());
    let decode = |cac: &[f32], _: usize, _: usize, _: usize| -> Result<Vec<f32>> {
        seen.borrow_mut().push(cac[0]);
        if cac[0] >= 3.0 {
            Err(DemucsError::Dsp(format!("bad spectrum {}", cac[0])))
        } else {
            Ok(vec![0.0; 3])
        }
    };
    let result = stems_from_segment::<f32, Float, _>(&data(), &info(), &decode);
    assert!(matches!(result, Err(DemucsError::Dsp(reason)) if reason == "bad spectrum 3"));
    assert_eq!(*seen.borrow(), vec![1.0, 2.0, 3.0]);
}

#[test]
fn the_right_side_can_fail_too() {
    let decode = |cac: &[f32], _: usize, _: usize, _: usize| -> Result<Vec<f32>> {
        if cac[0] == 2.0 {
            Err(DemucsError::Cancelled)
        } else {
            Ok(vec![0.0; 3])
        }
    };
    let result = decode_stem::<f32, Float, _>(&data(), 0, StemId::Drums, &decode);
    assert!(matches!(result, Err(DemucsError::Cancelled)));
}

#[test]
fn messages_of_failed_transfers() {
    let cases = [
        (Transfer::FreqBulkRead, "freq bulk read failed: lost"),
        (Transfer::TimeBulkRead, "time bulk read failed: lost"),
        (Transfer::FreqRead, "freq read failed: lost"),
        (Transfer::TimeRead, "time read failed: lost"),
        (Transfer::FreqExtraction, "freq extraction failed: lost"),
        (Transfer::TimeExtraction, "time extraction failed: lost"),
    ];
    for (transfer, expected) in cases {
        assert!(
            matches!(transfer.failed("lost"), DemucsError::Tensor(message) if message == expected)
        );
    }
}

#[test]
fn both_channels_of_a_segment_are_padded() {
    let (left, right) = pad_segment(&[1.0f32, 2.0, 3.0], &[-1.0, -2.0, -3.0], 3, 0.0);
    assert_eq!(left.len(), 343_980);
    assert_eq!(right.len(), 343_980);
    assert_eq!(left[..4], [1.0, 2.0, 3.0, 0.0]);
    assert_eq!(right[..4], [-1.0, -2.0, -3.0, 0.0]);
    assert!(left[3..].iter().chain(&right[3..]).all(|x| *x == 0.0));
}

/// As a spectrum, the samples at the start, each as often as it says itself.
fn repeats(samples: &[f32]) -> Result<Vec<i32>> {
    assert_eq!(samples.len(), TRAINING_LENGTH);
    if samples[0] < 0.0 {
        return Err(DemucsError::Dsp(format!("bad start {}", samples[0])));
    }
    Ok(vec![samples[1] as i32; samples[0] as usize])
}

#[test]
fn frames_are_counted_on_the_left_spectrum() {
    let (left, right, n_frames) =
        segment_spectra(&[6200.0f32, 7.0], &[2.0, 8.0], 2, 0.0, &repeats).unwrap();
    assert_eq!(left, vec![7; 6200]);
    assert_eq!(right, vec![8, 8]);
    assert_eq!(n_frames, 3);
}

#[test]
fn the_first_failed_transform_is_reported() {
    let both = segment_spectra(&[-1.0f32], &[-2.0], 1, 0.0, &repeats);
    assert!(matches!(both, Err(DemucsError::Dsp(reason)) if reason == "bad start -1"));
    let right = segment_spectra(&[1.0f32], &[-2.0], 1, 0.0, &repeats);
    assert!(matches!(right, Err(DemucsError::Dsp(reason)) if reason == "bad start -2"));
    let input = segment_input(&[1.0f32], &[-2.0], 1, 0.0, &repeats);
    assert!(matches!(input, Err(DemucsError::Dsp(reason)) if reason == "bad start -2"));
}

#[test]
fn padding_beforehand_keeps_the_input() {
    let (left, right) = ([4096.0f32, 5.0, 6.0], [1.0f32, 2.0, 3.0]);
    let input = segment_input(&left, &right, 3, 0.0, &repeats).unwrap();
    assert_eq!(input.n_frames, 2);
    assert_eq!(input.left, vec![5; 4096]);
    assert_eq!(input.right, vec![2]);
    assert_eq!(input.time_data.len(), 2 * TRAINING_LENGTH);
    assert_eq!(input.time_data[..4], [4096.0, 5.0, 6.0, 0.0]);
    assert_eq!(
        input.time_data[TRAINING_LENGTH..TRAINING_LENGTH + 4],
        [1.0, 2.0, 3.0, 0.0]
    );

    let (long_left, long_right) = pad_segment(&left, &right, 3, 0.0);
    let long = segment_input(&long_left, &long_right, TRAINING_LENGTH, 0.0, &repeats).unwrap();
    assert_eq!(input.left, long.left);
    assert_eq!(input.right, long.right);
    assert_eq!(input.n_frames, long.n_frames);
    assert_eq!(input.time_data, long.time_data);
}

/// What is read back of a network's output for channels `channels` of the
/// frequency branch, and half as many of the time branch.
fn read_back(channels: std::ops::Range<usize>, n_samples: usize) -> SegmentData<f32> {
    let time = channels.start / 2..channels.end / 2;
    SegmentData {
        freq_data: channels
            .flat_map(|channel| vec![(channel / 2) as f32; FREQ_BINS])
            .collect(),
        time_data: time
            .flat_map(|channel| (0..n_samples).map(move |i| (100 * channel + i) as f32))
            .collect(),
        n_frames: 1,
        n_samples,
    }
}

#[test]
fn a_stem_read_alone_is_that_of_the_bulk_read() {
    let bulk =
        stems_from_segment::<f32, Float, _>(&read_back(0..8, 4), &info(), &flat).unwrap();
    for (i, of_bulk) in bulk.iter().enumerate() {
        let channels = stem_channels(i).freq;
        let data = read_back(channels.0..channels.0 + channels.1, 4);
        let alone = decode_stem::<f32, Float, _>(&data, 0, of_bulk.id, &flat).unwrap();
        assert_eq!(alone.left, of_bulk.left);
        assert_eq!(alone.right, of_bulk.right);
    }
    assert_eq!(bulk[1].right, vec![303.0, 304.0, 305.0, 306.0]);
}

#[test]
fn a_short_segment_is_the_start_of_a_longer_one() {
    let long = stems_from_segment::<f32, Float, _>(&read_back(0..8, 5), &info(), &flat).unwrap();
    let short = stems_from_segment::<f32, Float, _>(&read_back(0..8, 2), &info(), &flat).unwrap();
    for (one, other) in short.iter().zip(&long) {
        assert_eq!(one.id, other.id);
        assert_eq!(one.left, other.left[..2]);
        assert_eq!(one.right, other.right[..2]);
    }
}

#[test]
fn swapped_sides_come_out_swapped() {
    let mut turned = data();
    for stem in 0..2 {
        for i in 0..2 * FREQ_BINS {
            let place = 4 * FREQ_BINS * stem + i;
            turned.freq_data.swap(place, place + 2 * FREQ_BINS);
        }
        for i in 0..3 {
            turned.time_data.swap(6 * stem + i, 6 * stem + i + 3);
        }
    }
    let stems = stems_from_segment::<f32, Float, _>(&data(), &info(), &flat).unwrap();
    let exchanged = stems_from_segment::<f32, Float, _>(&turned, &info(), &flat).unwrap();
    for (one, other) in stems.iter().zip(&exchanged) {
        assert_eq!(one.id, other.id);
        assert_eq!(one.left, other.right);
        assert_eq!(one.right, other.left);
    }
}

#[test]
fn one_stem_does_not_reach_another() {
    let mut changed = data();
    for i in 0..4 * FREQ_BINS {
        changed.freq_data[i] = 99.0;
    }
    for i in 0..6 {
        changed.time_data[i] = -1.0;
    }
    let stems = stems_from_segment::<f32, Float, _>(&data(), &info(), &flat).unwrap();
    let others = stems_from_segment::<f32, Float, _>(&changed, &info(), &flat).unwrap();
    assert_eq!(others[0].left, vec![98.0; 3]);
    assert_eq!(stems[1].left, others[1].left);
    assert_eq!(stems[1].right, others[1].right);
}
