//! A recording at any sample rate: it is brought to the rate of the network, run
//! there, and its stems are brought back.

use vstd::prelude::*;

use crate::arithmetic::{repeatable, Arithmetic};
use crate::device::{
    chunks_mixed, law_finished_pipelined_run, law_finished_segment, law_finished_sequential_run,
    law_mixed_chunks_agree, law_pipelined_run_is_made_on_device, law_segment_is_made_on_device,
    law_sequential_run_is_made_on_device, segment_stems, Device, Networks,
};
use crate::error::Result;
use crate::model::{stem_views, ModelOptions, Stem, StemView};
use crate::overlap::chunk_additions;
use crate::rate::{
    bringing_back_failed, brought_back, resampled_to, resampling_failed, stems_resampled,
    to_network_rate, to_source_rate, SAMPLE_RATE,
};
use crate::repeat::{law_mix_depends_on_additions, law_stems_depend_on_mix};
use crate::separation::{route_of, Route, SeparationRun};
use crate::step::{Reply, Step};

verus! {

/// `network_left` and `network_right` are the two sides of a recording at the
/// rate of the network.
pub open spec fn at_network_rate<
    T,
    R: Fn(&[T], u32, u32) -> core::result::Result<Vec<T>, String>,
>(
    resample: R,
    left: Seq<T>,
    right: Seq<T>,
    sample_rate: u32,
    network_left: Seq<T>,
    network_right: Seq<T>,
) -> bool {
    if sample_rate == SAMPLE_RATE {
        network_left == left && network_right == right
    } else {
        &&& resampled_to(resample, left, sample_rate, SAMPLE_RATE, network_left)
        &&& resampled_to(resample, right, sample_rate, SAMPLE_RATE, network_right)
    }
}

/// Starts the run of a recording. It goes over the recording at the rate of the
/// network, which is handed out too unless it is the recording itself. Whether
/// that is short or long is decided by its left side.
///
/// Fails with the first error of `resample`.
pub fn start_recording<
    T: Copy,
    A: Arithmetic<T>,
    R: Fn(&[T], u32, u32) -> core::result::Result<Vec<T>, String>,
>(
    options: ModelOptions,
    left: &[T],
    right: &[T],
    sample_rate: u32,
    resample: &R,
) -> (result: Result<(SeparationRun<T>, Option<(Vec<T>, Vec<T>)>)>)
    requires
        sample_rate != SAMPLE_RATE ==> forall|values: &[T]| #[trigger]
            call_requires(*resample, (values, sample_rate, SAMPLE_RATE)),
    ensures
        match result {
            Ok((run, None)) => sample_rate == SAMPLE_RATE && run.starts::<A>(
                &options,
                left@.len() as usize,
            ),
            Ok((run, Some((network_left, network_right)))) => {
                &&& sample_rate != SAMPLE_RATE
                &&& at_network_rate(
                    *resample,
                    left@,
                    right@,
                    sample_rate,
                    network_left@,
                    network_right@,
                )
                &&& run.starts::<A>(&options, network_left@.len() as usize)
            },
            Err(error) => {
                &&& sample_rate != SAMPLE_RATE
                &&& resampling_failed(
                    *resample,
                    left@,
                    right@,
                    sample_rate,
                    SAMPLE_RATE,
                    error,
                )
            },
        },
{
    match to_network_rate(left, right, sample_rate, resample) {
        Ok(None) => Ok((SeparationRun::new::<A>(options, left.len()), None)),
        Ok(Some((network_left, network_right))) => {
            let run: SeparationRun<T> = SeparationRun::new::<A>(options, network_left.len());
            Ok((run, Some((network_left, network_right))))
        },
        Err(error) => Err(error),
    }
}

/// The stems of a recording whose run is over, at the rate of the recording.
///
/// Fails with the first error of `resample`.
pub fn finish_recording<
    T: Copy,
    A: Arithmetic<T>,
    R: Fn(&[T], u32, u32) -> core::result::Result<Vec<T>, String>,
>(run: SeparationRun<T>, sample_rate: u32, resample: &R) -> (result: Result<Vec<Stem<T>>>)
    requires
        run.wf::<A>(),
        run.next_step() == Step::Finish,
        sample_rate != SAMPLE_RATE ==> forall|values: &[T]| #[trigger]
            call_requires(*resample, (values, SAMPLE_RATE, sample_rate)),
    ensures
        sample_rate == SAMPLE_RATE ==> result is Ok,
        exists|stems: Seq<StemView<T>>| #[trigger]
            run.ends_with::<A>(stems) && match result {
                Ok(restored) => brought_back(
                    *resample,
                    stems,
                    sample_rate,
                    stem_views(restored@),
                ),
                Err(error) => bringing_back_failed(*resample, stems, sample_rate, error),
            },
{
    let stems: Vec<Stem<T>> = run.finish::<A>();
    assert(run.ends_with::<A>(stem_views(stems@)));
    to_source_rate(stems, sample_rate, resample)
}

/// Two runs that start with the same options and length are in the same state.
pub proof fn law_started_runs_are_alike<T: Copy, A: Arithmetic<T>>(
    options: &ModelOptions,
    n_samples: usize,
    one: SeparationRun<T>,
    other: SeparationRun<T>,
)
    requires
        repeatable::<T, A>(),
        one.starts::<A>(options, n_samples),
        other.starts::<A>(options, n_samples),
    ensures
        one.stays(&other),
{
    match (one, other) {
        (SeparationRun::Pipelined(run), SeparationRun::Pipelined(next)) => {
            assert(run@.heard =~= next@.heard);
            lemma_same_mix::<T, A>(one, other);
        },
        (SeparationRun::Sequential(run), SeparationRun::Sequential(next)) => {
            assert(run@.heard =~= next@.heard);
            lemma_same_mix::<T, A>(one, other);
        },
        _ => {},
    }
}

proof fn lemma_same_mix<T: Copy, A: Arithmetic<T>>(one: SeparationRun<T>, other: SeparationRun<T>)
    requires
        repeatable::<T, A>(),
        one.wf::<A>(),
        other.wf::<A>(),
        one.n_samples() == other.n_samples(),
        one.ids() == other.ids(),
    ensures
        match (one, other) {
            (SeparationRun::Pipelined(run), SeparationRun::Pipelined(next)) => run@.heard
                == next@.heard ==> run@.mix == next@.mix,
            (SeparationRun::Sequential(run), SeparationRun::Sequential(next)) => run@.heard
                == next@.heard ==> run@.mix == next@.mix,
            _ => true,
        },
{
    let ids = one.ids();
    let n_samples = one.n_samples() as int;
    match (one, other) {
        (SeparationRun::Pipelined(run), SeparationRun::Pipelined(next)) => {
            if run@.heard == next@.heard {
                law_mix_depends_on_additions::<T, A>(
                    ids, n_samples, chunk_additions(n_samples, run@.heard), run@.mix, next@.mix);
            }
        },
        (SeparationRun::Sequential(run), SeparationRun::Sequential(next)) => {
            if run@.heard == next@.heard {
                law_mix_depends_on_additions::<T, A>(
                    ids, n_samples, chunk_additions(n_samples, run@.heard), run@.mix, next@.mix);
            }
        },
        _ => {},
    }
}

/// Runs in the same state ask for the same step, take the same reply to the same
/// state again, and end with the same stems.
pub proof fn law_alike_runs_stay_alike<T: Copy, A: Arithmetic<T>>(
    one: SeparationRun<T>,
    other: SeparationRun<T>,
    reply: Reply<T>,
    after_one: SeparationRun<T>,
    after_other: SeparationRun<T>,
    stems: Seq<StemView<T>>,
    others: Seq<StemView<T>>,
)
    requires
        repeatable::<T, A>(),
        one.stays(&other),
    ensures
        one.next_step() == other.next_step(),
        one.leads_to::<A>(reply, &after_one) && other.leads_to::<A>(reply, &after_other)
            && after_one.wf::<A>() && after_other.wf::<A>() ==> after_one.stays(&after_other),
        one.ends_with::<A>(stems) && other.ends_with::<A>(others) ==> stems == others,
{
    if one.leads_to::<A>(reply, &after_one) && other.leads_to::<A>(reply, &after_other)
        && after_one.wf::<A>() && after_other.wf::<A>() {
        lemma_same_mix::<T, A>(after_one, after_other);
    }
    if one.ends_with::<A>(stems) && other.ends_with::<A>(others) {
        match one {
            SeparationRun::Single(_) => {},
            SeparationRun::Pipelined(run) => {
                law_stems_depend_on_mix::<T, A>(run@.ids, run@.mix, stems, others);
            },
            SeparationRun::Sequential(run) => {
                law_stems_depend_on_mix::<T, A>(run@.ids(), run@.mix, stems, others);
            },
        }
    }
}

/// `resample` makes at most one channel of the same samples.
pub open spec fn resamples_repeatably<
    T,
    R: Fn(&[T], u32, u32) -> core::result::Result<Vec<T>, String>,
>(resample: R) -> bool {
    forall|channel: Seq<T>, from: u32, to: u32, one: Seq<T>, other: Seq<T>| #[trigger]
        resampled_to(resample, channel, from, to, one) && #[trigger] resampled_to(
            resample,
            channel,
            from,
            to,
            other,
        ) ==> one == other
}

/// A recording at another rate starts the run that it starts once it has been
/// resampled. So both ask for the same steps and tell a listener the same, as
/// long as they get the same replies, and the resampled length decides whether
/// the recording is short or long.
pub proof fn law_other_rate_starts_same_run<
    T: Copy,
    A: Arithmetic<T>,
    R: Fn(&[T], u32, u32) -> core::result::Result<Vec<T>, String>,
>(
    resample: R,
    options: &ModelOptions,
    left: Seq<T>,
    right: Seq<T>,
    sample_rate: u32,
    network_left: Vec<T>,
    network_right: Vec<T>,
    run: SeparationRun<T>,
    resampled_left: Vec<T>,
    resampled_right: Vec<T>,
    other: SeparationRun<T>,
)
    requires
        repeatable::<T, A>(),
        resamples_repeatably(resample),
        sample_rate != SAMPLE_RATE,
        at_network_rate(resample, left, right, sample_rate, network_left@, network_right@),
        run.starts::<A>(options, network_left@.len() as usize),
        resampled_to(resample, left, sample_rate, SAMPLE_RATE, resampled_left@),
        resampled_to(resample, right, sample_rate, SAMPLE_RATE, resampled_right@),
        other.starts::<A>(options, resampled_left@.len() as usize),
    ensures
        network_left@ == resampled_left@,
        network_right@ == resampled_right@,
        run.stays(&other),
        run is Single <==> route_of(options, resampled_left@.len() as usize) == Route::Single,
{
    assert(network_left@ == resampled_left@);
    law_started_runs_are_alike::<T, A>(
        options, resampled_left@.len() as usize, run, other);
}

impl<T: Copy> SeparationRun<T> {
    /// The stems that the current step brings on the given device.
    pub open spec fn brings(&self, device: Device<T>) -> Seq<StemView<T>> {
        match self {
            SeparationRun::Single(run) => run@.brings(device),
            SeparationRun::Pipelined(run) => run@.brings(device),
            SeparationRun::Sequential(run) => run@.brings(device),
        }
    }

    /// The stems so far are those of the given device.
    pub open spec fn made_on(&self, device: Device<T>) -> bool {
        match self {
            SeparationRun::Single(run) => run@.made_on(device),
            SeparationRun::Pipelined(run) => run@.made_on(device),
            SeparationRun::Sequential(run) => run@.made_on(device),
        }
    }
}

/// `stems` is a result of separating `n_samples` samples on the given device: in
/// one piece if they fit a segment, and else in chunks that are mixed.
pub open spec fn separated<T, A: Arithmetic<T>>(
    options: &ModelOptions,
    device: Device<T>,
    n_samples: usize,
    stems: Seq<StemView<T>>,
) -> bool {
    if route_of(options, n_samples) == Route::Single {
        stems == segment_stems(options, device, 0, n_samples as int)
    } else {
        chunks_mixed::<T, A>(options, device, n_samples as int, stems)
    }
}

/// What a run with the given options has come to on a device, if nothing failed.
pub open spec fn runs_on<T: Copy, A: Arithmetic<T>>(
    run: SeparationRun<T>,
    options: &ModelOptions,
    device: Device<T>,
    n_samples: usize,
) -> bool {
    &&& run.wf::<A>()
    &&& run.is_of(options)
    &&& run.n_samples() == n_samples
    &&& run is Single <==> route_of(options, n_samples) == Route::Single
    &&& run.made_on(device)
}

/// A run starts on any device, and every reply that brings what the device makes
/// keeps it there.
pub proof fn law_run_is_made_on_device<T: Copy, A: Arithmetic<T>>(
    options: &ModelOptions,
    device: Device<T>,
    n_samples: usize,
    run: SeparationRun<T>,
    reply: Reply<T>,
    after: SeparationRun<T>,
)
    ensures
        run.starts::<A>(options, n_samples) ==> runs_on::<T, A>(run, options, device, n_samples),
        runs_on::<T, A>(run, options, device, n_samples) && run.expects(reply) && !(reply
            is Failed) && reply.stems() == run.brings(device) && run.leads_to::<A>(reply, &after)
            && after.wf::<A>() ==> runs_on::<T, A>(after, options, device, n_samples),
{
    match (run, after) {
        (SeparationRun::Single(one), _) => {
            if run.wf::<A>() {
                law_segment_is_made_on_device(options, device, 0, one@.end, one@);
            }
        },
        (SeparationRun::Pipelined(one), SeparationRun::Pipelined(next)) => {
            if run.wf::<A>() {
                law_pipelined_run_is_made_on_device::<T, A>(device, one@, reply, next@);
            }
        },
        (SeparationRun::Pipelined(one), _) => {
            if run.wf::<A>() {
                law_pipelined_run_is_made_on_device::<T, A>(device, one@, reply, one@);
            }
        },
        (SeparationRun::Sequential(one), SeparationRun::Sequential(next)) => {
            if run.wf::<A>() {
                law_sequential_run_is_made_on_device::<T, A>(device, one@, reply, next@);
            }
        },
        (SeparationRun::Sequential(one), _) => {
            if run.wf::<A>() {
                law_sequential_run_is_made_on_device::<T, A>(device, one@, reply, one@);
            }
        },
    }
}

/// A run that is over has separated the recording on its device.
pub proof fn law_finished_run_separates<T: Copy, A: Arithmetic<T>>(
    options: &ModelOptions,
    device: Device<T>,
    n_samples: usize,
    run: SeparationRun<T>,
    stems: Seq<StemView<T>>,
)
    requires
        runs_on::<T, A>(run, options, device, n_samples),
        run.ends_with::<A>(stems),
    ensures
        separated::<T, A>(options, device, n_samples, stems),
{
    match run {
        SeparationRun::Single(one) => {
            law_finished_segment(options, device, one@);
        },
        SeparationRun::Pipelined(one) => {
            law_finished_pipelined_run::<T, A>(options, device, one@, stems);
        },
        SeparationRun::Sequential(one) => {
            law_finished_sequential_run::<T, A>(device, one@, stems);
        },
    }
}

/// Separating the same samples on the same device gives the same stems.
pub proof fn law_separation_repeats<T, A: Arithmetic<T>>(
    options: &ModelOptions,
    device: Device<T>,
    n_samples: usize,
    stems: Seq<StemView<T>>,
    other: Seq<StemView<T>>,
)
    requires
        repeatable::<T, A>(),
        separated::<T, A>(options, device, n_samples, stems),
        separated::<T, A>(options, device, n_samples, other),
    ensures
        stems == other,
{
    if route_of(options, n_samples) != Route::Single {
        law_mixed_chunks_agree::<T, A>(options, device, n_samples as int, stems, other);
    }
}

/// `stems` is a result of separating a recording with the given networks: they
/// are run on the recording at their own rate, and what they make is brought back
/// to the rate of the recording.
pub open spec fn recording_separated<
    T,
    A: Arithmetic<T>,
    R: Fn(&[T], u32, u32) -> core::result::Result<Vec<T>, String>,
>(
    resample: R,
    networks: Networks<T>,
    options: &ModelOptions,
    left: Seq<T>,
    right: Seq<T>,
    sample_rate: u32,
    stems: Seq<StemView<T>>,
) -> bool {
    exists|network_left: Seq<T>, network_right: Seq<T>, base: Seq<StemView<T>>|
        #[trigger] at_network_rate(
            resample,
            left,
            right,
            sample_rate,
            network_left,
            network_right,
        ) && separated::<T, A>(
            options,
            networks.on(network_left, network_right),
            network_left.len() as usize,
            base,
        ) && #[trigger] brought_back(resample, base, sample_rate, stems)
}

/// What comes out of a run over the recording at the rate of the network, on the
/// device that runs the networks on it, and is brought back, is the separated
/// recording.
pub proof fn law_finished_recording<
    T: Copy,
    A: Arithmetic<T>,
    R: Fn(&[T], u32, u32) -> core::result::Result<Vec<T>, String>,
>(
    resample: R,
    networks: Networks<T>,
    options: &ModelOptions,
    left: Seq<T>,
    right: Seq<T>,
    sample_rate: u32,
    network_left: Seq<T>,
    network_right: Seq<T>,
    run: SeparationRun<T>,
    base: Seq<StemView<T>>,
    stems: Seq<StemView<T>>,
)
    requires
        at_network_rate(resample, left, right, sample_rate, network_left, network_right),
        runs_on::<T, A>(
            run,
            options,
            networks.on(network_left, network_right),
            network_left.len() as usize,
        ),
        run.ends_with::<A>(base),
        brought_back(resample, base, sample_rate, stems),
    ensures
        recording_separated::<T, A, R>(
            resample,
            networks,
            options,
            left,
            right,
            sample_rate,
            stems,
        ),
{
    law_finished_run_separates::<T, A>(
        options, networks.on(network_left, network_right), network_left.len() as usize, run,
        base);
}

/// Separating a recording at another rate is separating it resampled to the rate
/// of the network, with both sides of every stem resampled back. The stems and
/// their order stay.
pub proof fn law_other_rate_is_resampled_back<
    T,
    A: Arithmetic<T>,
    R: Fn(&[T], u32, u32) -> core::result::Result<Vec<T>, String>,
>(
    resample: R,
    networks: Networks<T>,
    options: &ModelOptions,
    left: Seq<T>,
    right: Seq<T>,
    sample_rate: u32,
    resampled_left: Seq<T>,
    resampled_right: Seq<T>,
    base: Seq<StemView<T>>,
    stems: Seq<StemView<T>>,
)
    requires
        repeatable::<T, A>(),
        resamples_repeatably(resample),
        sample_rate != SAMPLE_RATE,
        resampled_to(resample, left, sample_rate, SAMPLE_RATE, resampled_left),
        resampled_to(resample, right, sample_rate, SAMPLE_RATE, resampled_right),
        recording_separated::<T, A, R>(
            resample,
            networks,
            options,
            resampled_left,
            resampled_right,
            SAMPLE_RATE,
            base,
        ),
        recording_separated::<T, A, R>(
            resample,
            networks,
            options,
            left,
            right,
            sample_rate,
            stems,
        ),
    ensures
        stems_resampled(resample, base, SAMPLE_RATE, sample_rate, stems),
{
    let (l, r, b) = choose|l: Seq<T>, r: Seq<T>, b: Seq<StemView<T>>|
        #[trigger] at_network_rate(resample, left, right, sample_rate, l, r) && separated::<T, A>(
            options,
            networks.on(l, r),
            l.len() as usize,
            b,
        ) && #[trigger] brought_back(resample, b, sample_rate, stems);
    assert(l == resampled_left && r == resampled_right);
    assert(separated::<T, A>(
        options,
        networks.on(resampled_left, resampled_right),
        resampled_left.len() as usize,
        base,
    ));
    law_separation_repeats::<T, A>(
        options, networks.on(l, r), l.len() as usize, b, base);
}

} // verus!
