use demucs_core::{to_network_rate, to_source_rate, DemucsError, Stem, StemId, SAMPLE_RATE};

/// Marks each sample with the rates it went through.
fn mark(samples: &[f32], from: u32, to: u32) -> Result<Vec<f32>, String> {
    Ok(samples
        .iter()
        .map(|x| x + from as f32 + to as f32 / 2.0)
        .collect())
}

fn refuse_negative(samples: &[f32], _from: u32, _to: u32) -> Result<Vec<f32>, String> {
    if samples.iter().any(|x| *x < 0.0) {
        Err(format!("negative sample among {}", samples.len()))
    } else {
        Ok(samples.to_vec())
    }
}

fn stems(values: &[(f32, f32)]) -> Vec<Stem<f32>> {
    values
        .iter()
        .map(|(l, r)| Stem {
            id: StemId::Other,
            left: vec![*l],
            right: vec![*r],
        })
        .collect()
}

#[test]
fn network_rate_is_cd_rate() {
    assert_eq!(SAMPLE_RATE, 44_100);
}

#[test]
fn input_at_the_network_rate_is_left_alone() {
    let result = to_network_rate(&[-1.0f32], &[-2.0], 44_100, &refuse_negative);
    assert!(matches!(result, Ok(None)));
}

#[test]
fn input_at_another_rate_is_resampled() {
    let (left, right) = to_network_rate(&[1.0f32], &[2.0, 3.0], 48_000, &mark)
        .unwrap()
        .unwrap();
    assert_eq!(left, vec![1.0 + 48_000.0 + 22_050.0]);
    assert_eq!(right, vec![2.0 + 48_000.0 + 22_050.0, 3.0 + 48_000.0 + 22_050.0]);
}

#[test]
fn failed_input_resampling_is_reported() {
    let left = to_network_rate(&[-1.0f32], &[-2.0, 0.0], 48_000, &refuse_negative);
    assert!(matches!(left, Err(DemucsError::Dsp(reason)) if reason == "negative sample among 1"));
    let right = to_network_rate(&[1.0f32], &[-2.0, 0.0], 48_000, &refuse_negative);
    assert!(matches!(right, Err(DemucsError::Dsp(reason)) if reason == "negative sample among 2"));
}

#[test]
fn stems_at_the_network_rate_are_left_alone() {
    let restored = to_source_rate(stems(&[(-1.0, -2.0)]), 44_100, &refuse_negative).unwrap();
    assert_eq!(restored[0].left, vec![-1.0]);
    assert_eq!(restored[0].right, vec![-2.0]);
}

#[test]
fn stems_are_brought_back_to_the_source_rate() {
    let restored = to_source_rate(stems(&[(1.0, 2.0), (3.0, 4.0)]), 48_000, &mark).unwrap();
    let shift = 44_100.0 + 24_000.0;
    assert_eq!(restored.len(), 2);
    assert_eq!(restored[0].id, StemId::Other);
    assert_eq!(restored[0].left, vec![1.0 + shift]);
    assert_eq!(restored[0].right, vec![2.0 + shift]);
    assert_eq!(restored[1].left, vec![3.0 + shift]);
    assert_eq!(restored[1].right, vec![4.0 + shift]);
}

#[test]
fn failed_stem_resampling_is_reported() {
    let result = to_source_rate(stems(&[(1.0, 2.0), (3.0, -4.0)]), 8_000, &refuse_negative);
    assert!(matches!(result, Err(DemucsError::Dsp(reason)) if reason == "negative sample among 1"));
}

#[test]
fn no_stems_need_no_resampling() {
    let result = to_source_rate(Vec::<Stem<f32>>::new(), 8_000, &refuse_negative);
    assert!(result.unwrap().is_empty());
}
