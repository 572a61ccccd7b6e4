use demucs_core::{
    finish_recording, num_chunks, start_recording, Arithmetic, DemucsError, ForwardEvent,
    ModelOptions, Reply, Result, SeparationRun, Stem, StemId, Step,
};

struct Float;

impl Arithmetic<f32> for Float {
    fn count(n: usize) -> f32 {
        n as f32
    }

    fn plus(a: f32, b: f32) -> f32 {
        a + b
    }

    fn minus(a: f32, b: f32) -> f32 {
        a - b
    }

    fn times(a: f32, b: f32) -> f32 {
        a * b
    }

    fn over(a: f32, b: f32) -> f32 {
        a / b
    }

    fn magnitude(a: f32) -> f32 {
        a.abs()
    }

    fn is_positive(a: f32) -> bool {
        a > 0.0
    }
}

fn made(id: StemId, length: usize, value: f32) -> Stem<f32> {
    Stem {
        id,
        left: vec![value; length],
        right: vec![-value; length],
    }
}

/// Takes a run to its end. Stem `i` of every chunk holds `i + 1`. Cancels when
/// asked for the `cancel_at`th time, and fails the step before which `fail_at`
/// steps went well.
fn drive(
    options: ModelOptions,
    n_samples: usize,
    cancel_at: usize,
    fail_at: usize,
) -> (Vec<Step>, Result<Vec<Stem<f32>>>) {
    let run = SeparationRun::<f32>::new::<Float>(options.clone(), n_samples);
    let (steps, result) = take_to_end(run, options, cancel_at, fail_at);
    (steps, result.map(|run| run.finish::<Float>()))
}

fn take_to_end(
    mut run: SeparationRun<f32>,
    options: ModelOptions,
    cancel_at: usize,
    fail_at: usize,
) -> (Vec<Step>, Result<SeparationRun<f32>>) {
    let ids = options.model_info().stems;
    let mut steps = Vec::new();
    let mut polls = 0;
    let mut lengths = Vec::new();
    let mut read = 0;
    loop {
        let step = run.step::<Float>();
        steps.push(step);
        let mut reply = match step {
            Step::Finish => return (steps, Ok(run)),
            Step::Notify(_) | Step::Prepare { .. } => Reply::Done,
            Step::Forward { start, end, .. } => {
                lengths.push(end - start);
                Reply::Done
            }
            Step::Read => {
                read = lengths.remove(0);
                Reply::Done
            }
            Step::Decode => Reply::Stems(
                ids.iter()
                    .enumerate()
                    .map(|(i, id)| made(*id, read, i as f32 + 1.0))
                    .collect(),
            ),
            Step::Extract { stem } => {
                let length = lengths.remove(0);
                Reply::Stems(vec![made(ids[stem], length, stem as f32 + 1.0)])
            }
            Step::PollCancelled => {
                polls += 1;
                Reply::Cancelled(polls == cancel_at)
            }
        };
        if steps.len() == fail_at + 1 {
            reply = Reply::Failed(DemucsError::Tensor(format!("step {fail_at}")));
        }
        if let Err(error) = run.advance::<Float>(reply) {
            return (steps, Err(error));
        }
    }
}

fn stem_done(index: usize, total: usize) -> Step {
    Step::Notify(ForwardEvent::StemDone { index, total })
}

fn chunk_started(index: usize, total: usize) -> Step {
    Step::Notify(ForwardEvent::ChunkStarted { index, total })
}

fn chunk_done(index: usize, total: usize) -> Step {
    Step::Notify(ForwardEvent::ChunkDone { index, total })
}

fn forward(model: usize, start: usize, end: usize) -> Step {
    Step::Forward { model, start, end }
}

fn selection() -> ModelOptions {
    ModelOptions::FineTuned(vec![StemId::Vocals, StemId::Bass])
}

#[test]
fn short_recording_through_one_network() {
    let (steps, result) = drive(ModelOptions::FourStem, 1000, 0, usize::MAX - 1);
    assert_eq!(
        steps,
        vec![
            forward(0, 0, 1000),
            Step::Read,
            Step::Decode,
            stem_done(0, 4),
            stem_done(1, 4),
            stem_done(2, 4),
            stem_done(3, 4),
            Step::Finish,
        ]
    );
    let stems = result.unwrap();
    assert_eq!(stems.len(), 4);
    assert_eq!(stems[3].id, StemId::Vocals);
    assert_eq!(stems[3].left, vec![4.0; 1000]);
    assert_eq!(stems[3].right, vec![-4.0; 1000]);
}

#[test]
fn six_stems_are_told_of_one_by_one() {
    let (steps, result) = drive(ModelOptions::SixStem, 343_980, 0, usize::MAX - 1);
    assert_eq!(steps.len(), 10);
    assert_eq!(steps[8], stem_done(5, 6));
    assert_eq!(result.unwrap().len(), 6);
}

#[test]
fn short_recording_through_selected_networks() {
    let (steps, result) = drive(selection(), 1000, 0, usize::MAX - 1);
    assert_eq!(
        steps,
        vec![
            Step::Prepare {
                start: 0,
                end: 1000
            },
            forward(1, 0, 1000),
            Step::Extract { stem: 1 },
            stem_done(1, 4),
            forward(3, 0, 1000),
            Step::Extract { stem: 3 },
            stem_done(3, 4),
            Step::Finish,
        ]
    );
    let stems = result.unwrap();
    assert_eq!(stems.len(), 2);
    assert_eq!(stems[0].id, StemId::Bass);
    assert_eq!(stems[0].left, vec![2.0; 1000]);
    assert_eq!(stems[1].id, StemId::Vocals);
    assert_eq!(stems[1].left, vec![4.0; 1000]);
}

#[test]
fn nothing_selected_is_nothing_separated() {
    let (steps, result) = drive(ModelOptions::FineTuned(vec![]), 10, 0, usize::MAX - 1);
    assert_eq!(steps, vec![Step::Prepare { start: 0, end: 10 }, Step::Finish]);
    assert!(result.unwrap().is_empty());
}

#[test]
fn long_recording_is_pipelined() {
    let n = 600_000;
    let (steps, result) = drive(ModelOptions::FourStem, n, 0, usize::MAX - 1);
    assert_eq!(
        steps,
        vec![
            chunk_started(0, 2),
            forward(0, 0, 343_980),
            Step::Read,
            forward(0, 257_985, 600_000),
            Step::Decode,
            stem_done(0, 4),
            stem_done(1, 4),
            stem_done(2, 4),
            stem_done(3, 4),
            chunk_done(0, 2),
            Step::PollCancelled,
            chunk_started(1, 2),
            Step::Read,
            Step::Decode,
            stem_done(0, 4),
            stem_done(1, 4),
            stem_done(2, 4),
            stem_done(3, 4),
            chunk_done(1, 2),
            Step::PollCancelled,
            Step::Finish,
        ]
    );
    let stems = result.unwrap();
    assert_eq!(stems.len(), 4);
    for (i, stem) in stems.iter().enumerate() {
        let value = i as f32 + 1.0;
        assert_eq!(stem.left.len(), n);
        assert_eq!((stem.left[0], stem.left[n - 1]), (0.0, 0.0));
        for p in 1..n - 1 {
            assert!((stem.left[p] - value).abs() < 1e-5);
            assert!((stem.right[p] + value).abs() < 1e-5);
        }
    }
}

#[test]
fn long_recording_through_selected_networks() {
    let n = 600_000;
    let (steps, result) = drive(selection(), n, 0, usize::MAX - 1);
    let chunk = |k: usize, start: usize, end: usize| {
        vec![
            chunk_started(k, 2),
            Step::Prepare { start, end },
            forward(1, start, end),
            Step::Extract { stem: 1 },
            stem_done(1, 4),
            forward(3, start, end),
            Step::Extract { stem: 3 },
            stem_done(3, 4),
            chunk_done(k, 2),
            Step::PollCancelled,
        ]
    };
    let mut expected = chunk(0, 0, 343_980);
    expected.extend(chunk(1, 257_985, 600_000));
    expected.push(Step::Finish);
    assert_eq!(steps, expected);

    // All four stems come out, and those that were not run are silent.
    let stems = result.unwrap();
    assert_eq!(stems.len(), 4);
    assert!(stems[0].left.iter().all(|x| *x == 0.0));
    assert!(stems[2].right.iter().all(|x| *x == 0.0));
    assert!((stems[1].left[300_000] - 2.0).abs() < 1e-5);
    assert!((stems[3].right[300_000] + 4.0).abs() < 1e-5);
}

#[test]
fn cancelling_ends_a_pipelined_run_after_the_chunk() {
    let (steps, result) = drive(ModelOptions::FourStem, 1_500_000, 2, usize::MAX - 1);
    assert!(matches!(result, Err(DemucsError::Cancelled)));
    let total = num_chunks(1_500_000);
    assert_eq!(total, 6);
    assert_eq!(steps[steps.len() - 2], chunk_done(1, total));
    assert_eq!(steps[steps.len() - 1], Step::PollCancelled);
}

#[test]
fn cancelling_ends_a_sequential_run_after_the_chunk() {
    let (steps, result) = drive(selection(), 600_000, 1, usize::MAX - 1);
    assert!(matches!(result, Err(DemucsError::Cancelled)));
    assert_eq!(steps.len(), 10);
    assert_eq!(steps[8], chunk_done(0, 2));
}

#[test]
fn a_failed_step_ends_the_run_with_its_error() {
    for (options, n, fail_at) in [
        (ModelOptions::FourStem, 1000, 0),
        (ModelOptions::FourStem, 1000, 2),
        (ModelOptions::FourStem, 600_000, 3),
        (ModelOptions::FourStem, 600_000, 12),
        (selection(), 1000, 2),
        (selection(), 600_000, 1),
    ] {
        let (steps, result) = drive(options, n, 0, fail_at);
        assert_eq!(steps.len(), fail_at + 1);
        let expected = format!("step {fail_at}");
        assert!(matches!(result, Err(DemucsError::Tensor(reason)) if reason == expected));
    }
}

#[test]
fn at_most_one_pass_waits() {
    let (steps, _) = drive(ModelOptions::SixStem, 1_500_000, 0, usize::MAX - 1);
    let mut waiting = 0;
    for step in &steps {
        match step {
            Step::Forward { .. } => waiting += 1,
            Step::Read => waiting -= 1,
            _ => {}
        }
        assert!(waiting == 0 || waiting == 1);
    }
    assert_eq!(waiting, 0);
}

#[test]
fn pipelining_keeps_the_output() {
    let all = vec![StemId::Drums, StemId::Bass, StemId::Other, StemId::Vocals];
    let (_, pipelined) = drive(ModelOptions::FourStem, 700_000, 0, usize::MAX - 1);
    let (_, sequential) = drive(ModelOptions::FineTuned(all), 700_000, 0, usize::MAX - 1);
    let pipelined = pipelined.unwrap();
    let sequential = sequential.unwrap();
    assert_eq!(pipelined.len(), sequential.len());
    for (one, other) in pipelined.iter().zip(&sequential) {
        assert_eq!(one.id, other.id);
        assert_eq!(one.left, other.left);
        assert_eq!(one.right, other.right);
    }
}

#[test]
fn a_stem_does_not_depend_on_the_selection() {
    let run = |selected: Vec<StemId>| {
        let (_, stems) = drive(ModelOptions::FineTuned(selected), 1000, 0, usize::MAX - 1);
        stems.unwrap()
    };
    let some = run(vec![StemId::Vocals, StemId::Bass]);
    let more = run(vec![StemId::Drums, StemId::Vocals, StemId::Other]);
    assert_eq!(some[1].id, StemId::Vocals);
    assert_eq!(more[2].id, StemId::Vocals);
    assert_eq!(some[1].left, more[2].left);
    assert_eq!(some[1].right, more[2].right);

    let again = run(vec![StemId::Bass, StemId::Vocals, StemId::Bass]);
    assert_eq!(again.len(), some.len());
    for (one, other) in some.iter().zip(&again) {
        assert_eq!(one.id, other.id);
        assert_eq!(one.left, other.left);
        assert_eq!(one.right, other.right);
    }
}

/// Twice as many samples on the way in, and every other one on the way out.
fn double_or_halve(
    samples: &[f32],
    from: u32,
    to: u32,
) -> std::result::Result<Vec<f32>, String> {
    if from < to {
        Ok(samples.iter().flat_map(|x| [*x, *x]).collect())
    } else {
        Ok(samples.iter().step_by(2).map(|x| x + 0.5).collect())
    }
}

#[test]
fn the_resampled_length_decides_the_route() {
    let channel = vec![0.0f32; 200_000];
    let (run, resampled) = start_recording::<f32, Float, _>(
        ModelOptions::FourStem,
        &channel,
        &channel,
        22_050,
        &double_or_halve,
    )
    .unwrap();
    let (left, right) = resampled.unwrap();
    assert_eq!(left.len(), 400_000);
    assert_eq!(right.len(), 400_000);
    assert!(matches!(run, SeparationRun::Pipelined(_)));

    let (run, resampled) = start_recording::<f32, Float, _>(
        ModelOptions::FourStem,
        &channel,
        &channel,
        44_100,
        &double_or_halve,
    )
    .unwrap();
    assert!(resampled.is_none());
    assert!(matches!(run, SeparationRun::Single(_)));
}

#[test]
fn a_recording_at_another_rate_is_run_resampled() {
    let channel = vec![0.25f32; 1000];
    let (run, resampled) =
        start_recording::<f32, Float, _>(selection(), &channel, &channel, 22_050, &double_or_halve)
            .unwrap();
    let (left, right) = resampled.unwrap();
    let (steps, run) = take_to_end(run, selection(), 0, usize::MAX - 1);
    let stems =
        finish_recording::<f32, Float, _>(run.unwrap(), 22_050, &double_or_halve).unwrap();

    let (base_run, none) =
        start_recording::<f32, Float, _>(selection(), &left, &right, 44_100, &double_or_halve)
            .unwrap();
    assert!(none.is_none());
    let (base_steps, base_run) = take_to_end(base_run, selection(), 0, usize::MAX - 1);
    let base =
        finish_recording::<f32, Float, _>(base_run.unwrap(), 44_100, &double_or_halve).unwrap();

    assert_eq!(steps, base_steps);
    assert_eq!(stems.len(), base.len());
    for (stem, whole) in stems.iter().zip(&base) {
        assert_eq!(stem.id, whole.id);
        assert_eq!(whole.left.len(), 2000);
        assert_eq!(stem.left, double_or_halve(&whole.left, 44_100, 22_050).unwrap());
        assert_eq!(stem.right, double_or_halve(&whole.right, 44_100, 22_050).unwrap());
    }
}

#[test]
fn failed_resampling_of_a_recording_is_reported() {
    let refuse = |samples: &[f32], from: u32, _to: u32| -> std::result::Result<Vec<f32>, String> {
        if from == 44_100 && samples[0] < -1.5 {
            Err(format!("cannot take {}", samples[0]))
        } else if samples.is_empty() {
            Err("empty".to_string())
        } else {
            Ok(samples.to_vec())
        }
    };
    let start =
        start_recording::<f32, Float, _>(selection(), &[1.0], &[], 8_000, &refuse);
    assert!(matches!(start, Err(DemucsError::Dsp(reason)) if reason == "empty"));

    let (run, _) =
        start_recording::<f32, Float, _>(selection(), &[1.0], &[1.0], 8_000, &refuse).unwrap();
    let (_, run) = take_to_end(run, selection(), 0, usize::MAX - 1);
    let stems = finish_recording::<f32, Float, _>(run.unwrap(), 8_000, &refuse);
    assert!(matches!(stems, Err(DemucsError::Dsp(reason)) if reason == "cannot take -2"));
}
