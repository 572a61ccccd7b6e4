//! What calls on a sequential run return, and what they take.

use vstd::prelude::*;

use crate::arithmetic::Arithmetic;
use crate::chunk::{chunk_end, chunk_len, chunk_start, law_chunk_reaches};
use crate::error::{DemucsError, Result};
use crate::laws::segment_runs::{
    law_fresh_segment_of_one_network, law_fresh_segment_of_selection, law_segment_steps_left,
};
use crate::model::{stem_views, ModelOptions, StemView};
use crate::segment_run::fresh_segment;
use crate::sequential_run::{
    fresh_chunk, law_sequential_run_follows_steps, law_sequential_steps, SequentialPhase,
    SequentialRun, SequentialState,
};
use crate::step::{are_stems, ForwardEvent, Reply, Step};

verus! {

/// A sequential run always has a step left, and if it is only one, the run is
/// over.
pub proof fn law_sequential_steps_left<T, A: Arithmetic<T>>(state: SequentialState<T>)
    requires
        state.valid::<A>(),
    ensures
        state.steps().len() > 0,
        state.steps()[0] == state.step(),
        state.steps()[0] == Step::Finish <==> state.phase == SequentialPhase::Finish,
{
    if let Some(segment) = state.segment {
        law_segment_steps_left(segment);
    }
}

proof fn lemma_segment_length<T>(options: ModelOptions, start: usize, end: usize, other: usize)
    requires
        start <= end,
        end - start <= 343980,
        other <= 343980,
    ensures
        fresh_segment::<T>(&options, start, end).steps().len() == fresh_segment::<T>(
            &options,
            0,
            other,
        ).steps().len(),
{
    match options {
        ModelOptions::FineTuned(selected) => {
            let rows = law_fresh_segment_of_selection::<T>(selected, start, end);
            let same = law_fresh_segment_of_selection::<T>(selected, 0, other);
        },
        _ => {
            law_fresh_segment_of_one_network::<T>(&options, start, end);
            law_fresh_segment_of_one_network::<T>(&options, 0, other);
        },
    }
}

proof fn lemma_chunk_block<T>(state: SequentialState<T>, k: int)
    requires
        0 <= k < state.total(),
    ensures
        ({
            let segment = fresh_chunk::<T>(&state.options, state.n_samples as int, k).steps();
            let size = segment.len() as int;
            let steps = state.steps_from_chunk(k);
            let total = state.total() as usize;
            let rest = if k + 1 < state.total() {
                state.steps_from_chunk(k + 1)
            } else {
                seq![Step::Finish]
            };
            &&& steps.len() == segment.len() + 3 + rest.len()
            &&& steps[0] == Step::Notify(
                ForwardEvent::ChunkStarted { index: k as usize, total },
            )
            &&& forall|j: int| 0 <= j < segment.len() ==> #[trigger] steps[1 + j] == segment[j]
            &&& steps[1 + size] == Step::Notify(
                ForwardEvent::ChunkDone { index: k as usize, total },
            )
            &&& steps[2 + size] == Step::PollCancelled
            &&& forall|i: int| 0 <= i < rest.len() ==> #[trigger] steps[size + 3 + i]
                == rest[i]
        }),
{
}

proof fn lemma_steps_of_chunk<T>(
    state: SequentialState<T>,
    from: int,
    k: int,
    j: int,
    block: int,
)
    requires
        0 <= from <= k < state.total(),
        block == fresh_segment::<T>(&state.options, 0, 0).steps().len() + 3,
    ensures
        ({
            let steps = state.steps_from_chunk(from);
            let own = state.steps_from_chunk(k);
            &&& steps.len() == (k - from) * block + own.len()
            &&& 0 <= j < own.len() ==> steps[(k - from) * block + j] == own[j]
            &&& 0 <= (k - from) * block
        }),
    decreases k - from,
{
    if from < k {
        lemma_steps_of_chunk(state, from + 1, k, j, block);
        lemma_chunk_block(state, from);
        law_chunk_reaches(state.n_samples as int, from);
        lemma_segment_length::<T>(
            state.options, chunk_start(from) as usize,
            chunk_end(from, state.n_samples as int) as usize, 0);
        let rest = state.steps_from_chunk(from + 1);
        let place = (k - from - 1) * block + j;
        assert((k - from) * block == (k - from - 1) * block + block) by (nonlinear_arith);
        assert((k - (from + 1)) * block == (k - from - 1) * block);
        if 0 <= j < state.steps_from_chunk(k).len() {
            assert(0 <= place < rest.len());
            assert(state.steps_from_chunk(from)[block + place] == rest[place]);
        }
    } else {
        assert((k - from) * block == 0) by (nonlinear_arith) requires k == from;
    }
}

/// A sequential run over `total` chunks does the same with every chunk: announce
/// it, take all steps of the run of a segment over its samples, tell of it, and ask
/// whether to go on. After the last chunk it is over.
pub proof fn law_sequential_run_steps<T>(state: SequentialState<T>, total: int, k: int, j: int)
    requires
        state.phase == SequentialPhase::Started(0),
        state.segment is None,
        1 <= total,
        state.n_samples <= (total - 1) * 257985 + 343980,
        total > 1 ==> (total - 2) * 257985 + 343980 < state.n_samples,
        0 <= k < total,
    ensures
        ({
            let start = k * 257985;
            let end = if state.n_samples < start + 343980 {
                state.n_samples as int
            } else {
                start + 343980
            };
            let segment = fresh_segment::<T>(
                &state.options,
                start as usize,
                end as usize,
            ).steps();
            let size = segment.len() as int;
            let steps = state.steps();
            let at = k * (size + 3);
            &&& 0 <= start <= end <= state.n_samples
            &&& steps.len() == total * (size + 3) + 1
            &&& steps[at] == Step::Notify(
                ForwardEvent::ChunkStarted { index: k as usize, total: total as usize },
            )
            &&& 0 <= j < segment.len() ==> steps[at + 1 + j] == segment[j]
            &&& steps[at + 1 + size] == Step::Notify(
                ForwardEvent::ChunkDone { index: k as usize, total: total as usize },
            )
            &&& steps[at + 2 + size] == Step::PollCancelled
            &&& k + 1 == total ==> steps[at + 3 + size] == Step::Finish
        }),
{
    assert(total == state.total());
    law_sequential_steps(state);
    law_chunk_reaches(state.n_samples as int, k);
    law_chunk_reaches(state.n_samples as int, total - 1);
    let start = chunk_start(k) as usize;
    let end = chunk_end(k, state.n_samples as int) as usize;
    let segment = fresh_segment::<T>(&state.options, start, end).steps();
    let size = segment.len() as int;
    let block = fresh_segment::<T>(&state.options, 0, 0).steps().len() as int + 3;
    lemma_segment_length::<T>(state.options, start, end, 0);
    lemma_segment_length::<T>(
        state.options, chunk_start(total - 1) as usize,
        chunk_end(total - 1, state.n_samples as int) as usize, 0);
    lemma_chunk_block(state, k);
    lemma_chunk_block(state, total - 1);
    lemma_steps_of_chunk(state, 0, total - 1, 0, block);
    lemma_steps_of_chunk(state, 0, k, 0, block);
    lemma_steps_of_chunk(state, 0, k, 1 + j, block);
    lemma_steps_of_chunk(state, 0, k, 1 + size, block);
    lemma_steps_of_chunk(state, 0, k, 2 + size, block);
    lemma_steps_of_chunk(state, 0, k, 3 + size, block);
    assert(total * block == (total - 1) * block + block) by (nonlinear_arith);
    if 0 <= j < segment.len() {
        assert(state.steps_from_chunk(k)[1 + j] == segment[j]);
    }
    if k + 1 == total {
        assert(state.steps_from_chunk(k)[size + 3 + 0] == seq![Step::Finish][0]);
    }
}

/// A new sequential run is at its start, and has heard nothing.
pub proof fn law_new_sequential_run<T: Copy, A: Arithmetic<T>>(
    options: ModelOptions,
    n_samples: usize,
    run: SequentialRun<T>,
)
    requires
        call_ensures(SequentialRun::<T>::new::<A>, (options, n_samples), run),
    ensures
        call_requires(SequentialRun::<T>::new::<A>, (options, n_samples)),
        run.wf::<A>(),
        run@.valid::<A>(),
        run@.options == options,
        run@.n_samples == n_samples,
        run@.phase == SequentialPhase::Started(0),
        run@.segment is None,
        run@.heard.len() == 0,
{
}

/// A sequential run asks for the first of the steps that are left.
pub proof fn law_sequential_run_step<T: Copy, A: Arithmetic<T>>(run: &SequentialRun<T>, step: Step)
    requires
        run.wf::<A>(),
        run@.valid::<A>(),
        call_ensures(SequentialRun::<T>::step::<A>, (run,), step),
    ensures
        call_requires(SequentialRun::<T>::step::<A>, (run,)),
        step == run@.steps()[0],
{
    law_sequential_steps_left::<T, A>(run@);
}

/// A failure ends a sequential run with its error, and a listener that asks to stop
/// ends it as cancelled. Neither changes anything. Any other reply takes it one
/// step on. The stems that replies bring are put behind those of their segment, and
/// are heard, unchanged, when the chunk is next told of.
pub proof fn law_sequential_run_advance<T: Copy, A: Arithmetic<T>>(
    run: &mut SequentialRun<T>,
    reply: Reply<T>,
    result: Result<()>,
)
    requires
        old(run).wf::<A>(),
        old(run)@.valid::<A>(),
        old(run)@.expects(reply),
        call_ensures(SequentialRun::<T>::advance::<A>, (run, reply), result),
    ensures
        final(run).wf::<A>(),
        final(run)@.valid::<A>(),
        reply matches Reply::Failed(error) ==> result == Err::<(), DemucsError>(error)
            && final(run)@ == old(run)@,
        reply == Reply::<T>::Cancelled(true) ==> result == Err::<(), DemucsError>(
            DemucsError::Cancelled,
        ) && final(run)@ == old(run)@,
        !(reply is Failed) && reply != Reply::<T>::Cancelled(true) ==> {
            let brought = match reply {
                Reply::Stems(stems) => Seq::new(
                    stems@.len(),
                    |i: int|
                        StemView {
                            id: stems@[i].id,
                            left: stems@[i].left@,
                            right: stems@[i].right@,
                        },
                ),
                _ => Seq::empty(),
            };
            let next = final(run)@.steps()[0];
            let ends_segment = next is Notify && next->Notify_0 is ChunkDone;
            &&& result is Ok
            &&& final(run)@.options == old(run)@.options
            &&& final(run)@.n_samples == old(run)@.n_samples
            &&& final(run)@.steps() == old(run)@.steps().drop_first()
            &&& match old(run)@.segment {
                Some(segment) => if ends_segment {
                    &&& final(run)@.heard == old(run)@.heard.push(segment.stems + brought)
                    &&& final(run)@.segment is None
                } else {
                    &&& final(run)@.heard == old(run)@.heard
                    &&& final(run)@.segment is Some
                    &&& final(run)@.segment->0.stems == segment.stems + brought
                },
                None => {
                    &&& final(run)@.heard == old(run)@.heard
                    &&& final(run)@.segment is Some ==> final(run)@.segment->0.stems.len() == 0
                },
            }
        },
{
    let before = old(run)@;
    let after = final(run)@;
    law_sequential_steps_left::<T, A>(before);
    if !(reply is Failed) && reply != Reply::<T>::Cancelled(true) {
        law_sequential_run_follows_steps::<T, A>(before, reply, after);
        law_sequential_steps_left::<T, A>(after);
        assert(before.steps().drop_first() =~= after.steps());
        if let Reply::Stems(stems) = reply {
            assert(reply.stems() =~= Seq::new(
                stems@.len(),
                |i: int|
                    StemView {
                        id: stems@[i].id,
                        left: stems@[i].left@,
                        right: stems@[i].right@,
                    },
            ));
        }
    }
}

/// A sequential run expects what can come of its steps: word that a step is done or,
/// where something was to be computed, that it failed; all stems of the model where
/// all were to be decoded; the one that was to be extracted; and whether to stop.
/// Every stem is as long as the chunk.
pub proof fn law_sequential_replies<T, A: Arithmetic<T>>(
    state: SequentialState<T>,
    reply: Reply<T>,
)
    requires
        state.valid::<A>(),
        ({
            let ids = state.options.stem_order();
            let start = state.heard.len() * 257985;
            let length = if state.n_samples < start + 343980 {
                state.n_samples - start
            } else {
                343980
            };
            match state.steps()[0] {
                Step::Notify(_) => reply is Done,
                Step::Prepare { .. } => reply is Done || reply is Failed,
                Step::Forward { .. } => reply is Done || reply is Failed,
                Step::Read => reply is Done || reply is Failed,
                Step::Decode => reply is Failed || (reply is Stems && reply->Stems_0@.len()
                    == ids.len() && (forall|i: int|
                    0 <= i < ids.len() ==> (#[trigger] reply->Stems_0@[i]).id == ids[i]
                        && reply->Stems_0@[i].left@.len() == length
                        && reply->Stems_0@[i].right@.len() == length)),
                Step::Extract { stem } => reply is Failed || (reply is Stems
                    && reply->Stems_0@.len() == 1 && reply->Stems_0@[0].id == ids[stem as int]
                    && reply->Stems_0@[0].left@.len() == length
                    && reply->Stems_0@[0].right@.len() == length),
                Step::PollCancelled => reply is Cancelled,
                _ => false,
            }
        }),
    ensures
        state.expects(reply),
{
    let ids = state.options.stem_order();
    law_sequential_steps_left::<T, A>(state);
    if reply is Stems && (state.step() is Decode || state.step() is Extract) {
        let views = stem_views(reply->Stems_0@);
        let length = chunk_len(state.chunk(), state.n_samples as int);
        law_chunk_reaches(state.n_samples as int, state.chunk());
        assert(state.phase is Segment);
        assert(state.chunk() == state.heard.len());
        assert(reply.stems() == views);
        if state.step() is Decode {
            assert forall|i: int| 0 <= i < ids.len() implies (#[trigger] views[i]).id == ids[i]
                && views[i].left.len() == length && views[i].right.len() == length by {
                assert(reply->Stems_0@[i].id == ids[i]);
            }
            assert(are_stems(views, ids, length));
        } else {
            assert(views[0].id == reply->Stems_0@[0].id);
        }
    }
}

/// A sequential run takes every reply that it expects.
pub proof fn law_sequential_run_takes_replies<T: Copy, A: Arithmetic<T>>(
    run: &mut SequentialRun<T>,
    reply: Reply<T>,
)
    requires
        old(run).wf::<A>(),
        old(run)@.expects(reply),
    ensures
        call_requires(SequentialRun::<T>::advance::<A>, (run, reply)),
{
}

} // verus!
