//! What calls on whole recordings return, and what they take.

use vstd::prelude::*;

use crate::arithmetic::Arithmetic;
use crate::device::{law_finished_segment, Device};
use crate::error::{DemucsError, Result};
use crate::laws::pipelined_runs::law_pipelined_steps_left;
use crate::laws::rates::{law_failed_pair, law_resampled_channel_is_whole};
use crate::laws::segment_runs::{law_fresh_segment_of_selection, law_segment_steps_left};
use crate::laws::sequential_runs::law_sequential_steps_left;
use crate::model::{stem_views, ModelOptions, Stem, StemId, StemView};
use crate::overlap::{accumulated, finished};
use crate::pipelined_run::{law_pipelined_run_follows_steps, PipelinedPhase};
use crate::rate::{
    bringing_back_failed, brought_back, resampling_failed, stems_resampled, SAMPLE_RATE,
};
use crate::recording::{finish_recording, runs_on, start_recording};
use crate::segment_run::{fresh_segment, law_segment_run_follows_steps};
use crate::separation::{route, Route, SeparationRun};
use crate::sequential_run::{law_sequential_run_follows_steps, SequentialPhase};
use crate::step::{Reply, Step};

verus! {

/// A recording is run in one piece exactly if it has at most as many samples as a
/// segment, whatever the model. Of the longer ones, those of the fine-tuned model
/// are run sequentially, and all others pipelined.
pub proof fn law_route(options: &ModelOptions, n_samples: usize, taken: Route)
    requires
        call_ensures(route, (options, n_samples), taken),
    ensures
        call_requires(route, (options, n_samples)),
        taken == Route::Single <==> n_samples <= 343980,
        taken == Route::Sequential <==> n_samples > 343980 && options is FineTuned,
        taken == Route::Pipelined <==> n_samples > 343980 && !(options is FineTuned),
{
}

/// The run of a recording starts in one piece if the recording has at most as many
/// samples as a segment, and else in chunks, and nothing has come of it yet.
pub proof fn law_started_run<T: Copy, A: Arithmetic<T>>(
    options: &ModelOptions,
    n_samples: usize,
    run: SeparationRun<T>,
)
    requires
        run.starts::<A>(options, n_samples),
    ensures
        run.wf::<A>(),
        run is Single <==> n_samples <= 343980,
        run is Sequential <==> n_samples > 343980 && options is FineTuned,
        run is Pipelined <==> n_samples > 343980 && !(options is FineTuned),
        run matches SeparationRun::Single(one) ==> one@ == fresh_segment::<T>(
            options,
            0,
            n_samples,
        ),
        run matches SeparationRun::Pipelined(one) ==> one@.ids == options.stem_order()
            && one@.n_samples == n_samples && one@.phase == PipelinedPhase::Started(0)
            && one@.heard.len() == 0,
        run matches SeparationRun::Sequential(one) ==> one@.options == *options && one@.n_samples
            == n_samples && one@.phase == SequentialPhase::Started(0) && one@.segment is None
            && one@.heard.len() == 0,
{
}

/// A sound run is a sound run of its kind.
pub proof fn law_sound_run<T: Copy, A: Arithmetic<T>>(run: SeparationRun<T>)
    requires
        run.wf::<A>(),
    ensures
        run matches SeparationRun::Single(one) ==> one@.valid() && one@.start == 0,
        run matches SeparationRun::Pipelined(one) ==> one.wf::<A>() && one@.valid::<A>(),
        run matches SeparationRun::Sequential(one) ==> one.wf::<A>() && one@.valid::<A>(),
{
}

/// A new run is at its start.
pub proof fn law_new_run<T: Copy, A: Arithmetic<T>>(
    options: ModelOptions,
    n_samples: usize,
    run: SeparationRun<T>,
)
    requires
        call_ensures(SeparationRun::<T>::new::<A>, (options, n_samples), run),
    ensures
        call_requires(SeparationRun::<T>::new::<A>, (options, n_samples)),
        run.starts::<A>(&options, n_samples),
{
}

/// A short recording of the fine-tuned model is run in one piece: the input is
/// built once for all of its samples, and then come, for each selected stem and no
/// other, a pass, an extraction and a notice. There are no chunks to be told of,
/// and nobody is asked whether to stop.
pub proof fn law_short_selection_in_one_piece<T: Copy, A: Arithmetic<T>>(
    selected: Vec<StemId>,
    n_samples: usize,
    run: SeparationRun<T>,
) -> (rows: Seq<usize>)
    requires
        n_samples <= 343980,
        call_ensures(
            SeparationRun::<T>::new::<A>,
            (ModelOptions::FineTuned(selected), n_samples),
            run,
        ),
    ensures
        run is Single,
        forall|j: int, k: int| 0 <= j < k < rows.len() ==> rows[j] < rows[k],
        forall|j: int| 0 <= j < rows.len() ==> #[trigger] rows[j] < 4,
        rows.contains(0) <==> selected@.contains(StemId::Drums),
        rows.contains(1) <==> selected@.contains(StemId::Bass),
        rows.contains(2) <==> selected@.contains(StemId::Other),
        rows.contains(3) <==> selected@.contains(StemId::Vocals),
        ({
            let steps = run->Single_0@.steps();
            &&& steps.len() == 1 + 3 * rows.len()
            &&& steps[0] == (Step::Prepare { start: 0, end: n_samples })
            &&& forall|j: int| 0 <= j < rows.len() ==> steps[1 + 3 * j] == (Step::Forward {
                model: #[trigger] rows[j],
                start: 0,
                end: n_samples,
            })
            &&& forall|j: int| 0 <= j < rows.len() ==> steps[2 + 3 * j] == (Step::Extract {
                stem: #[trigger] rows[j],
            })
        }),
{
    law_fresh_segment_of_selection::<T>(selected, 0, n_samples)
}

/// A short recording of the fine-tuned model ends with exactly one stem for each
/// selected one, and each is what its network made of the whole recording, as it
/// was made.
pub proof fn law_short_selection_is_what_networks_made<T: Copy, A: Arithmetic<T>>(
    selected: Vec<StemId>,
    device: Device<T>,
    n_samples: usize,
    run: SeparationRun<T>,
    stems: Vec<Stem<T>>,
    i: int,
) -> (rows: Seq<usize>)
    requires
        n_samples <= 343980,
        runs_on::<T, A>(run, &ModelOptions::FineTuned(selected), device, n_samples),
        run.next_step() == Step::Finish,
        call_ensures(SeparationRun::<T>::finish::<A>, (run,), stems),
    ensures
        call_requires(SeparationRun::<T>::finish::<A>, (run,)),
        forall|j: int, k: int| 0 <= j < k < rows.len() ==> rows[j] < rows[k],
        forall|j: int| 0 <= j < rows.len() ==> #[trigger] rows[j] < 4,
        rows.contains(0) <==> selected@.contains(StemId::Drums),
        rows.contains(1) <==> selected@.contains(StemId::Bass),
        rows.contains(2) <==> selected@.contains(StemId::Other),
        rows.contains(3) <==> selected@.contains(StemId::Vocals),
        stems@.len() == rows.len(),
        0 <= i < stems@.len() ==> ({
            let made = (device.one)(rows[i] as int, 0, n_samples as int);
            &&& stems@[i].id == made.id
            &&& stems@[i].left@ == made.left
            &&& stems@[i].right@ == made.right
        }),
{
    let rows = law_fresh_segment_of_selection::<T>(selected, 0, n_samples);
    let state = run->Single_0@;
    law_finished_segment(&ModelOptions::FineTuned(selected), device, state);
    let views = stem_views(stems@);
    assert(views.len() == stems@.len());
    if 0 <= i < stems@.len() {
        assert(views[i] == state.stems[i]);
    }
    rows
}

/// A run asks for the first of the steps that are left, and for nothing more once
/// there are none.
pub proof fn law_run_step<T: Copy, A: Arithmetic<T>>(run: &SeparationRun<T>, step: Step)
    requires
        run.wf::<A>(),
        call_ensures(SeparationRun::<T>::step::<A>, (run,), step),
    ensures
        call_requires(SeparationRun::<T>::step::<A>, (run,)),
        step == run.next_step(),
        run matches SeparationRun::Single(one) ==> if one@.steps().len() == 0 {
            step == Step::Finish
        } else {
            step == one@.steps()[0]
        },
        run matches SeparationRun::Pipelined(one) ==> step == one@.steps()[0],
        run matches SeparationRun::Sequential(one) ==> step == one@.steps()[0],
{
    match run {
        SeparationRun::Single(one) => {
            law_segment_steps_left(one@);
        },
        SeparationRun::Pipelined(one) => {
            law_pipelined_steps_left::<T, A>(one@);
        },
        SeparationRun::Sequential(one) => {
            law_sequential_steps_left::<T, A>(one@);
        },
    }
}

/// A run expects what a run of its kind expects, and takes it.
pub proof fn law_run_takes_replies<T: Copy, A: Arithmetic<T>>(
    run: &mut SeparationRun<T>,
    reply: Reply<T>,
)
    requires
        old(run).wf::<A>(),
        match *old(run) {
            SeparationRun::Single(one) => reply.answers(
                one@.step(),
                one@.ids,
                one@.end - one@.start,
            ),
            SeparationRun::Pipelined(one) => one@.expects(reply),
            SeparationRun::Sequential(one) => one@.expects(reply),
        },
    ensures
        old(run).expects(reply),
        call_requires(SeparationRun::<T>::advance::<A>, (run, reply)),
{
}

/// A failure ends a run with its error, and a listener that asks to stop ends it as
/// cancelled. Neither changes anything. Any other reply takes it one step on. The
/// stems that a reply brings are kept unchanged: in a run of one piece behind those
/// that are there, in a pipelined run as a chunk that was heard, and in a sequential
/// run with the segment until its chunk is next told of, and then as heard.
pub proof fn law_run_advance<T: Copy, A: Arithmetic<T>>(
    run: &mut SeparationRun<T>,
    reply: Reply<T>,
    result: Result<()>,
)
    requires
        old(run).wf::<A>(),
        old(run).next_step() != Step::Finish,
        old(run).expects(reply),
        call_ensures(SeparationRun::<T>::advance::<A>, (run, reply), result),
    ensures
        final(run).wf::<A>(),
        reply matches Reply::Failed(error) ==> result == Err::<(), DemucsError>(error),
        reply == Reply::<T>::Cancelled(true) ==> result == Err::<(), DemucsError>(
            DemucsError::Cancelled,
        ),
        !(reply is Failed) && reply != Reply::<T>::Cancelled(true) ==> result is Ok,
        ({
            let brought = match reply {
                Reply::Stems(stems) => Seq::new(
                    stems@.len(),
                    |i: int|
                        StemView {
                            id: stems@[i].id,
                            left: stems@[i].left@,
                            right: stems@[i].right@,
                        },
                ),
                _ => Seq::empty(),
            };
            let ended = reply is Failed || reply == Reply::<T>::Cancelled(true);
            match (*old(run), *final(run)) {
                (SeparationRun::Single(one), SeparationRun::Single(next)) => if ended {
                    next@ == one@
                } else {
                    &&& next@.ids == one@.ids
                    &&& next@.picks == one@.picks
                    &&& next@.start == one@.start
                    &&& next@.end == one@.end
                    &&& next@.steps() == one@.steps().drop_first()
                    &&& next@.stems == one@.stems + brought
                },
                (SeparationRun::Pipelined(one), SeparationRun::Pipelined(next)) => if ended {
                    next@ == one@
                } else {
                    &&& next@.ids == one@.ids
                    &&& next@.n_samples == one@.n_samples
                    &&& next@.steps() == one@.steps().drop_first()
                    &&& reply is Stems ==> next@.heard == one@.heard.push(brought)
                    &&& !(reply is Stems) ==> next@.heard == one@.heard
                },
                (SeparationRun::Sequential(one), SeparationRun::Sequential(next)) => if ended {
                    next@ == one@
                } else {
                    let step = next@.steps()[0];
                    let ends_segment = step is Notify && step->Notify_0 is ChunkDone;
                    &&& next@.options == one@.options
                    &&& next@.n_samples == one@.n_samples
                    &&& next@.steps() == one@.steps().drop_first()
                    &&& match one@.segment {
                        Some(segment) => if ends_segment {
                            &&& next@.heard == one@.heard.push(segment.stems + brought)
                            &&& next@.segment is None
                        } else {
                            &&& next@.heard == one@.heard
                            &&& next@.segment is Some
                            &&& next@.segment->0.stems == segment.stems + brought
                        },
                        None => {
                            &&& next@.heard == one@.heard
                            &&& next@.segment is Some ==> next@.segment->0.stems.len() == 0
                        },
                    }
                },
                _ => false,
            }
        }),
{
    let brought = match reply {
        Reply::Stems(stems) => Seq::new(
            stems@.len(),
            |i: int| StemView { id: stems@[i].id, left: stems@[i].left@, right: stems@[i].right@ },
        ),
        _ => Seq::empty(),
    };
    assert(reply.stems() =~= brought);
    let ended = reply is Failed || reply == Reply::<T>::Cancelled(true);
    if !ended {
        match (*old(run), *final(run)) {
            (SeparationRun::Single(one), SeparationRun::Single(next)) => {
                law_segment_run_follows_steps(one@, reply.stems());
                assert(one@.steps().drop_first() =~= next@.steps());
            },
            (SeparationRun::Pipelined(one), SeparationRun::Pipelined(next)) => {
                law_pipelined_run_follows_steps::<T, A>(one@, reply, next@);
                assert(one@.steps().drop_first() =~= next@.steps());
            },
            (SeparationRun::Sequential(one), SeparationRun::Sequential(next)) => {
                law_sequential_run_follows_steps::<T, A>(one@, reply, next@);
                law_sequential_steps_left::<T, A>(one@);
                law_sequential_steps_left::<T, A>(next@);
                assert(one@.steps().drop_first() =~= next@.steps());
            },
            _ => {},
        }
    }
}

/// What a run that is over ends with: in one piece, the stems that it was brought;
/// in chunks, what was accumulated of the chunks that it heard, finished.
pub proof fn law_ended_run<T: Copy, A: Arithmetic<T>>(
    run: SeparationRun<T>,
    stems: Seq<StemView<T>>,
)
    requires
        run.wf::<A>(),
        run.ends_with::<A>(stems),
    ensures
        run.next_step() == Step::Finish,
        run matches SeparationRun::Single(one) ==> stems == one@.stems,
        run matches SeparationRun::Pipelined(one) ==> {
            &&& 1 <= one@.heard.len()
            &&& one@.n_samples <= (one@.heard.len() - 1) * 257985 + 343980
            &&& one@.heard.len() > 1 ==> (one@.heard.len() - 2) * 257985 + 343980 < one@.n_samples
            &&& accumulated::<T, A>(one@.ids, one@.n_samples as int, one@.heard, one@.mix)
            &&& finished::<T, A>(one@.ids, one@.mix, stems)
        },
        run matches SeparationRun::Sequential(one) ==> {
            let ids = one@.options.stem_order();
            &&& 1 <= one@.heard.len()
            &&& one@.n_samples <= (one@.heard.len() - 1) * 257985 + 343980
            &&& one@.heard.len() > 1 ==> (one@.heard.len() - 2) * 257985 + 343980 < one@.n_samples
            &&& accumulated::<T, A>(ids, one@.n_samples as int, one@.heard, one@.mix)
            &&& finished::<T, A>(ids, one@.mix, stems)
        },
{
}

/// The stems of a run that is over are what it ends with, id by id and sample by
/// sample.
pub proof fn law_run_finish<T: Copy, A: Arithmetic<T>>(
    run: SeparationRun<T>,
    stems: Vec<Stem<T>>,
)
    requires
        run.wf::<A>(),
        run.next_step() == Step::Finish,
        call_ensures(SeparationRun::<T>::finish::<A>, (run,), stems),
    ensures
        call_requires(SeparationRun::<T>::finish::<A>, (run,)),
        run.ends_with::<A>(
            Seq::new(
                stems@.len(),
                |i: int|
                    StemView { id: stems@[i].id, left: stems@[i].left@, right: stems@[i].right@ },
            ),
        ),
{
    assert(stem_views(stems@) =~= Seq::new(
        stems@.len(),
        |i: int| StemView { id: stems@[i].id, left: stems@[i].left@, right: stems@[i].right@ },
    ));
}

/// A recording at 44100 Hz starts a run over itself. At any other rate, each of its
/// sides is resampled, and the run goes over the whole results: its length is that
/// of the resampled left side. It fails only if the resampler does, on the left side
/// first, and with what it said.
pub proof fn law_start_recording<
    T: Copy,
    A: Arithmetic<T>,
    R: Fn(&[T], u32, u32) -> core::result::Result<Vec<T>, String>,
>(
    options: ModelOptions,
    left: &[T],
    right: &[T],
    sample_rate: u32,
    resample: &R,
    result: Result<(SeparationRun<T>, Option<(Vec<T>, Vec<T>)>)>,
)
    requires
        sample_rate != 44100 ==> forall|samples: &[T]| #[trigger]
            call_requires(*resample, (samples, sample_rate, 44100u32)),
        call_ensures(
            start_recording::<T, A, R>,
            (options, left, right, sample_rate, resample),
            result,
        ),
    ensures
        call_requires(
            start_recording::<T, A, R>,
            (options, left, right, sample_rate, resample),
        ),
        sample_rate == 44100 ==> result is Ok && (result->Ok_0).1 is None && (
        result->Ok_0).0.starts::<A>(&options, left@.len() as usize),
        sample_rate != 44100 && result is Ok ==> (result->Ok_0).1 is Some,
        result matches Ok((run, Some(pair))) ==> {
            &&& run.starts::<A>(&options, pair.0@.len() as usize)
            &&& exists|samples: &[T], values: Vec<T>| #[trigger]
                call_ensures(
                    *resample,
                    (samples, sample_rate, 44100u32),
                    Ok::<Vec<T>, String>(values),
                ) && samples@ == left@ && values@ == pair.0@
            &&& exists|samples: &[T], values: Vec<T>| #[trigger]
                call_ensures(
                    *resample,
                    (samples, sample_rate, 44100u32),
                    Ok::<Vec<T>, String>(values),
                ) && samples@ == right@ && values@ == pair.1@
        },
        result matches Err(error) ==> error is Dsp && {
            ||| exists|samples: &[T]| #[trigger]
                call_ensures(
                    *resample,
                    (samples, sample_rate, 44100u32),
                    Err::<Vec<T>, String>(error->Dsp_0),
                ) && samples@ == left@
            ||| {
                &&& exists|samples: &[T], values: Vec<T>| #[trigger]
                    call_ensures(
                        *resample,
                        (samples, sample_rate, 44100u32),
                        Ok::<Vec<T>, String>(values),
                    ) && samples@ == left@
                &&& exists|samples: &[T]| #[trigger]
                    call_ensures(
                        *resample,
                        (samples, sample_rate, 44100u32),
                        Err::<Vec<T>, String>(error->Dsp_0),
                    ) && samples@ == right@
            }
        },
{
    match result {
        Ok((run, None)) => {},
        Ok((run, Some(pair))) => {
            law_resampled_channel_is_whole(*resample, left@, sample_rate, SAMPLE_RATE, pair.0@);
            law_resampled_channel_is_whole(*resample, right@, sample_rate, SAMPLE_RATE, pair.1@);
        },
        Err(error) => {
            law_failed_pair(*resample, left@, right@, sample_rate, SAMPLE_RATE, error);
        },
    }
}

/// A recording at 44100 Hz gives what its run ends with. At any other rate, every
/// stem of that keeps its id and its place, and either side of it becomes the whole
/// result of resampling that side from 44100 Hz to the rate of the recording.
pub proof fn law_finish_recording<
    T: Copy,
    A: Arithmetic<T>,
    R: Fn(&[T], u32, u32) -> core::result::Result<Vec<T>, String>,
>(
    run: SeparationRun<T>,
    sample_rate: u32,
    resample: &R,
    restored: Vec<Stem<T>>,
) -> (base: Seq<StemView<T>>)
    requires
        run.wf::<A>(),
        run.next_step() == Step::Finish,
        sample_rate != 44100 ==> forall|samples: &[T]| #[trigger]
            call_requires(*resample, (samples, 44100u32, sample_rate)),
        call_ensures(
            finish_recording::<T, A, R>,
            (run, sample_rate, resample),
            Ok::<Vec<Stem<T>>, DemucsError>(restored),
        ),
    ensures
        call_requires(finish_recording::<T, A, R>, (run, sample_rate, resample)),
        run.ends_with::<A>(base),
        restored@.len() == base.len(),
        forall|k: int| 0 <= k < base.len() ==> (#[trigger] restored@[k]).id == base[k].id,
        sample_rate == 44100 ==> forall|k: int| 0 <= k < base.len() ==> (#[trigger]
        restored@[k]).left@ == base[k].left && restored@[k].right@ == base[k].right,
        sample_rate != 44100 ==> forall|k: int| 0 <= k < base.len() && restored@.contains(
            #[trigger] restored@[k],
        ) ==> exists|samples: &[T], values: Vec<T>| #[trigger]
            call_ensures(
                *resample,
                (samples, 44100u32, sample_rate),
                Ok::<Vec<T>, String>(values),
            ) && samples@ == base[k].left && values@ == restored@[k].left@,
        sample_rate != 44100 ==> forall|k: int| 0 <= k < base.len() && restored@.contains(
            #[trigger] restored@[k],
        ) ==> exists|samples: &[T], values: Vec<T>| #[trigger]
            call_ensures(
                *resample,
                (samples, 44100u32, sample_rate),
                Ok::<Vec<T>, String>(values),
            ) && samples@ == base[k].right && values@ == restored@[k].right@,
{
    let after = stem_views(restored@);
    let base = choose|base: Seq<StemView<T>>| #[trigger]
        run.ends_with::<A>(base) && brought_back(*resample, base, sample_rate, after);
    assert(after.len() == restored@.len());
    assert forall|k: int| 0 <= k < base.len() implies (#[trigger] restored@[k]).id
        == base[k].id by {
        assert(after[k].id == base[k].id);
    }
    if sample_rate == SAMPLE_RATE {
        assert forall|k: int| 0 <= k < base.len() implies (#[trigger] restored@[k]).left@
            == base[k].left && restored@[k].right@ == base[k].right by {
            assert(after[k] == base[k]);
        }
    } else {
        assert forall|k: int| 0 <= k < base.len() && restored@.contains(
            #[trigger] restored@[k],
        ) implies exists|samples: &[T], values: Vec<T>| #[trigger]
            call_ensures(
                *resample,
                (samples, 44100u32, sample_rate),
                Ok::<Vec<T>, String>(values),
            ) && samples@ == base[k].left && values@ == restored@[k].left@ by {
            assert(after[k].id == base[k].id);
            law_resampled_channel_is_whole(
                *resample, base[k].left, SAMPLE_RATE, sample_rate, after[k].left);
        }
        assert forall|k: int| 0 <= k < base.len() && restored@.contains(
            #[trigger] restored@[k],
        ) implies exists|samples: &[T], values: Vec<T>| #[trigger]
            call_ensures(
                *resample,
                (samples, 44100u32, sample_rate),
                Ok::<Vec<T>, String>(values),
            ) && samples@ == base[k].right && values@ == restored@[k].right@ by {
            assert(after[k].id == base[k].id);
            law_resampled_channel_is_whole(
                *resample, base[k].right, SAMPLE_RATE, sample_rate, after[k].right);
        }
    }
    base
}

/// A recording whose run is over fails only at a rate other than 44100 Hz, and with
/// what the resampler said of the first side, among those of the stems that the run
/// ends with, that it failed on.
pub proof fn law_failed_recording<
    T: Copy,
    A: Arithmetic<T>,
    R: Fn(&[T], u32, u32) -> core::result::Result<Vec<T>, String>,
>(
    run: SeparationRun<T>,
    sample_rate: u32,
    resample: &R,
    error: DemucsError,
) -> (failed: (Seq<StemView<T>>, int))
    requires
        run.wf::<A>(),
        run.next_step() == Step::Finish,
        call_ensures(
            finish_recording::<T, A, R>,
            (run, sample_rate, resample),
            Err::<Vec<Stem<T>>, DemucsError>(error),
        ),
    ensures
        sample_rate != 44100,
        error is Dsp,
        run.ends_with::<A>(failed.0),
        0 <= failed.1 < failed.0.len(),
        ({
            let stem = failed.0[failed.1];
            ||| exists|samples: &[T]| #[trigger]
                call_ensures(
                    *resample,
                    (samples, 44100u32, sample_rate),
                    Err::<Vec<T>, String>(error->Dsp_0),
                ) && samples@ == stem.left
            ||| {
                &&& exists|samples: &[T], values: Vec<T>| #[trigger]
                    call_ensures(
                        *resample,
                        (samples, 44100u32, sample_rate),
                        Ok::<Vec<T>, String>(values),
                    ) && samples@ == stem.left
                &&& exists|samples: &[T]| #[trigger]
                    call_ensures(
                        *resample,
                        (samples, 44100u32, sample_rate),
                        Err::<Vec<T>, String>(error->Dsp_0),
                    ) && samples@ == stem.right
            }
        }),
        forall|k: int| 0 <= k < failed.1 && failed.0.contains(#[trigger] failed.0[k]) ==> exists|
            samples: &[T],
            values: Vec<T>,
        | #[trigger]
            call_ensures(
                *resample,
                (samples, 44100u32, sample_rate),
                Ok::<Vec<T>, String>(values),
            ) && samples@ == failed.0[k].left,
        forall|k: int| 0 <= k < failed.1 && failed.0.contains(#[trigger] failed.0[k]) ==> exists|
            samples: &[T],
            values: Vec<T>,
        | #[trigger]
            call_ensures(
                *resample,
                (samples, 44100u32, sample_rate),
                Ok::<Vec<T>, String>(values),
            ) && samples@ == failed.0[k].right,
{
    let base = choose|base: Seq<StemView<T>>| #[trigger]
        run.ends_with::<A>(base) && bringing_back_failed(*resample, base, sample_rate, error);
    let done = choose|done: Seq<StemView<T>>|
        done.len() < base.len()
        && #[trigger] stems_resampled(
            *resample,
            base.take(done.len() as int),
            SAMPLE_RATE,
            sample_rate,
            done,
        )
        && resampling_failed(
            *resample,
            base[done.len() as int].left,
            base[done.len() as int].right,
            SAMPLE_RATE,
            sample_rate,
            error,
        );
    let k = done.len() as int;
    law_failed_pair(*resample, base[k].left, base[k].right, SAMPLE_RATE, sample_rate, error);
    assert forall|m: int| 0 <= m < k && base.contains(#[trigger] base[m]) implies exists|
        samples: &[T],
        values: Vec<T>,
    | #[trigger]
        call_ensures(
            *resample,
            (samples, 44100u32, sample_rate),
            Ok::<Vec<T>, String>(values),
        ) && samples@ == base[m].left by {
        assert(base.take(k)[m] == base[m]);
        assert(done[m].id == base.take(k)[m].id);
        law_resampled_channel_is_whole(
            *resample, base[m].left, SAMPLE_RATE, sample_rate, done[m].left);
    }
    assert forall|m: int| 0 <= m < k && base.contains(#[trigger] base[m]) implies exists|
        samples: &[T],
        values: Vec<T>,
    | #[trigger]
        call_ensures(
            *resample,
            (samples, 44100u32, sample_rate),
            Ok::<Vec<T>, String>(values),
        ) && samples@ == base[m].right by {
        assert(base.take(k)[m] == base[m]);
        assert(done[m].id == base.take(k)[m].id);
        law_resampled_channel_is_whole(
            *resample, base[m].right, SAMPLE_RATE, sample_rate, done[m].right);
    }
    (base, k)
}

} // verus!
