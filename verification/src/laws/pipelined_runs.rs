//! What calls on a pipelined run return, and what they take.

use vstd::prelude::*;

use crate::arithmetic::Arithmetic;
use crate::chunk::{chunk_len, law_chunk_reaches};
use crate::error::{DemucsError, Result};
use crate::model::{stem_views, ModelInfo, StemView};
use crate::pipelined_run::{
    forward_chunk, law_pipelined_run_follows_steps, law_pipelined_steps, PipelinedPhase,
    PipelinedRun, PipelinedState,
};
use crate::step::{are_stems, ForwardEvent, Reply, Step};

verus! {

/// A pipelined run always has a step left, and if it is only one, the run is over.
pub proof fn law_pipelined_steps_left<T, A: Arithmetic<T>>(state: PipelinedState<T>)
    requires
        state.valid::<A>(),
    ensures
        state.steps().len() > 0,
        state.steps()[0] == state.step(),
        state.steps()[0] == Step::Finish <==> state.phase == PipelinedPhase::Finish,
        state.steps()[0] == Step::Finish <==> state.steps().len() == 1,
{
    if state.phase != PipelinedPhase::Finish {
        assert(state.at(state.next_phase()).steps().len() > 0);
    }
}

proof fn lemma_block<T>(state: PipelinedState<T>, k: int)
    requires
        0 <= k,
        k + 1 < state.total(),
    ensures
        ({
            let count = state.ids.len() as int;
            let steps = state.steps_from_chunk(k);
            let rest = state.steps_from_chunk(k + 1);
            let total = state.total() as usize;
            &&& steps.len() == count + 6 + rest.len()
            &&& steps[0] == Step::Read
            &&& steps[1] == forward_chunk(0, k + 1, state.n_samples as int)
            &&& steps[2] == Step::Decode
            &&& forall|i: int| 0 <= i < count ==> #[trigger] steps[3 + i] == Step::Notify(
                ForwardEvent::StemDone { index: i as usize, total: count as usize },
            )
            &&& steps[3 + count] == Step::Notify(
                ForwardEvent::ChunkDone { index: k as usize, total },
            )
            &&& steps[4 + count] == Step::PollCancelled
            &&& steps[5 + count] == Step::Notify(
                ForwardEvent::ChunkStarted { index: (k + 1) as usize, total },
            )
            &&& forall|i: int| 0 <= i < rest.len() ==> #[trigger] steps[count + 6 + i] == rest[i]
        }),
{
    let notices = state.stem_notices(0);
    let steps = state.steps_from_chunk(k);
    assert forall|i: int| 0 <= i < state.ids.len() implies #[trigger] steps[3 + i]
        == notices[i] by {}
}

proof fn lemma_last_block<T>(state: PipelinedState<T>, k: int)
    requires
        0 <= k,
        k + 1 == state.total(),
    ensures
        ({
            let count = state.ids.len() as int;
            let steps = state.steps_from_chunk(k);
            let total = state.total() as usize;
            &&& steps.len() == count + 5
            &&& steps[0] == Step::Read
            &&& steps[1] == Step::Decode
            &&& forall|i: int| 0 <= i < count ==> #[trigger] steps[2 + i] == Step::Notify(
                ForwardEvent::StemDone { index: i as usize, total: count as usize },
            )
            &&& steps[2 + count] == Step::Notify(
                ForwardEvent::ChunkDone { index: k as usize, total },
            )
            &&& steps[3 + count] == Step::PollCancelled
            &&& steps[4 + count] == Step::Finish
        }),
{
    let notices = state.stem_notices(0);
    let steps = state.steps_from_chunk(k);
    assert forall|i: int| 0 <= i < state.ids.len() implies #[trigger] steps[2 + i]
        == notices[i] by {}
}

proof fn lemma_steps_of_chunk<T>(state: PipelinedState<T>, from: int, k: int, j: int)
    requires
        0 <= from <= k < state.total(),
    ensures
        ({
            let block = state.ids.len() + 6;
            let steps = state.steps_from_chunk(from);
            let own = state.steps_from_chunk(k);
            &&& steps.len() == (k - from) * block + own.len()
            &&& 0 <= j < own.len() ==> steps[(k - from) * block + j] == own[j]
            &&& 0 <= (k - from) * block
        }),
    decreases k - from,
{
    let block = state.ids.len() + 6;
    if from < k {
        lemma_steps_of_chunk(state, from + 1, k, j);
        lemma_block(state, from);
        let rest = state.steps_from_chunk(from + 1);
        let place = (k - from - 1) * block + j;
        assert((k - from) * block == (k - from - 1) * block + block) by (nonlinear_arith);
        assert((k - (from + 1)) * block == (k - from - 1) * block);
        if 0 <= j < state.steps_from_chunk(k).len() {
            assert(0 <= place < rest.len());
            assert(state.steps_from_chunk(from)[block + place] == rest[place]);
        }
    } else {
        assert((k - from) * block == 0) by (nonlinear_arith) requires k == from;
    }
}

/// A pipelined run over `total` chunks announces the first one and enqueues its
/// pass. From then on it does the same with every chunk: read it back, enqueue the
/// pass over the next chunk if there is one, decode, tell of each stem and of the
/// chunk, ask whether to go on, and announce the next chunk. After the last chunk
/// it is over. The passes go over the samples of the chunks, and stems and chunks
/// are told of by their number.
pub proof fn law_pipelined_run_steps<T>(state: PipelinedState<T>, total: int, k: int, i: int)
    requires
        state.phase == PipelinedPhase::Started(0),
        state.ids.len() <= usize::MAX,
        1 <= total,
        state.n_samples <= (total - 1) * 257985 + 343980,
        total > 1 ==> (total - 2) * 257985 + 343980 < state.n_samples,
        0 <= k < total,
        0 <= i < state.ids.len(),
    ensures
        ({
            let count = state.ids.len() as int;
            let steps = state.steps();
            let at = 2 + k * (count + 6);
            let notice = Step::Notify(
                ForwardEvent::StemDone { index: i as usize, total: count as usize },
            );
            let done = Step::Notify(
                ForwardEvent::ChunkDone { index: k as usize, total: total as usize },
            );
            &&& steps.len() == 2 + (total - 1) * (count + 6) + count + 5
            &&& steps[0] == Step::Notify(
                ForwardEvent::ChunkStarted { index: 0, total: total as usize },
            )
            &&& steps[1] == (Step::Forward {
                model: 0,
                start: 0,
                end: if state.n_samples < 343980 {
                    state.n_samples
                } else {
                    343980
                },
            })
            &&& steps[at] == Step::Read
            &&& if k + 1 < total {
                &&& steps[at + 1] == (Step::Forward {
                    model: 0,
                    start: ((k + 1) * 257985) as usize,
                    end: if state.n_samples < (k + 1) * 257985 + 343980 {
                        state.n_samples
                    } else {
                        ((k + 1) * 257985 + 343980) as usize
                    },
                })
                &&& steps[at + 2] == Step::Decode
                &&& steps[at + 3 + i] == notice
                &&& steps[at + 3 + count] == done
                &&& steps[at + 4 + count] == Step::PollCancelled
                &&& steps[at + 5 + count] == Step::Notify(
                    ForwardEvent::ChunkStarted { index: (k + 1) as usize, total: total as usize },
                )
            } else {
                &&& steps[at + 1] == Step::Decode
                &&& steps[at + 2 + i] == notice
                &&& steps[at + 2 + count] == done
                &&& steps[at + 3 + count] == Step::PollCancelled
                &&& steps[at + 4 + count] == Step::Finish
            }
        }),
{
    let count = state.ids.len() as int;
    let at = k * (count + 6);
    assert(total == state.total());
    law_pipelined_steps(state);
    let steps = state.steps();
    let rest = state.steps_from_chunk(0);
    assert forall|p: int| 0 <= p < rest.len() implies #[trigger] steps[2 + p] == rest[p] by {}
    lemma_steps_of_chunk(state, 0, total - 1, 0);
    lemma_last_block(state, total - 1);
    lemma_steps_of_chunk(state, 0, k, 0);
    lemma_steps_of_chunk(state, 0, k, 1);
    lemma_steps_of_chunk(state, 0, k, 2);
    if k + 1 < total {
        lemma_block(state, k);
        let own = state.steps_from_chunk(k);
        lemma_steps_of_chunk(state, 0, k, 3 + i);
        lemma_steps_of_chunk(state, 0, k, 3 + count);
        lemma_steps_of_chunk(state, 0, k, 4 + count);
        lemma_steps_of_chunk(state, 0, k, 5 + count);
        assert(own[3 + i] == rest[at + 3 + i]);
        assert(steps[2 + at] == rest[at]);
        assert(steps[2 + (at + 1)] == rest[at + 1]);
        assert(steps[2 + (at + 2)] == rest[at + 2]);
        assert(steps[2 + (at + 3 + i)] == rest[at + 3 + i]);
        assert(steps[2 + (at + 3 + count)] == rest[at + 3 + count]);
        assert(steps[2 + (at + 4 + count)] == rest[at + 4 + count]);
        assert(steps[2 + (at + 5 + count)] == rest[at + 5 + count]);
    } else {
        let own = state.steps_from_chunk(k);
        lemma_steps_of_chunk(state, 0, k, 2 + i);
        lemma_steps_of_chunk(state, 0, k, 2 + count);
        lemma_steps_of_chunk(state, 0, k, 3 + count);
        lemma_steps_of_chunk(state, 0, k, 4 + count);
        assert(own[2 + i] == rest[at + 2 + i]);
        assert(steps[2 + at] == rest[at]);
        assert(steps[2 + (at + 1)] == rest[at + 1]);
        assert(steps[2 + (at + 2 + i)] == rest[at + 2 + i]);
        assert(steps[2 + (at + 2 + count)] == rest[at + 2 + count]);
        assert(steps[2 + (at + 3 + count)] == rest[at + 3 + count]);
        assert(steps[2 + (at + 4 + count)] == rest[at + 4 + count]);
    }
}

/// A new pipelined run is at its start, and has heard nothing.
pub proof fn law_new_pipelined_run<T: Copy, A: Arithmetic<T>>(
    info: ModelInfo,
    n_samples: usize,
    run: PipelinedRun<T>,
)
    requires
        call_ensures(PipelinedRun::<T>::new::<A>, (info, n_samples), run),
    ensures
        call_requires(PipelinedRun::<T>::new::<A>, (info, n_samples)),
        run.wf::<A>(),
        run@.valid::<A>(),
        run@.ids == info.stems@,
        run@.n_samples == n_samples,
        run@.phase == PipelinedPhase::Started(0),
        run@.heard.len() == 0,
{
}

/// A pipelined run asks for the first of the steps that are left.
pub proof fn law_pipelined_run_step<T: Copy, A: Arithmetic<T>>(run: &PipelinedRun<T>, step: Step)
    requires
        run.wf::<A>(),
        run@.valid::<A>(),
        call_ensures(PipelinedRun::<T>::step::<A>, (run,), step),
    ensures
        call_requires(PipelinedRun::<T>::step::<A>, (run,)),
        step == run@.steps()[0],
{
    law_pipelined_steps_left::<T, A>(run@);
}

/// A failure ends a pipelined run with its error, and a listener that asks to stop
/// ends it as cancelled. Neither changes anything. Any other reply takes it one
/// step on, and the stems of a chunk are heard as they were brought.
pub proof fn law_pipelined_run_advance<T: Copy, A: Arithmetic<T>>(
    run: &mut PipelinedRun<T>,
    reply: Reply<T>,
    result: Result<()>,
)
    requires
        old(run).wf::<A>(),
        old(run)@.valid::<A>(),
        old(run)@.expects(reply),
        call_ensures(PipelinedRun::<T>::advance::<A>, (run, reply), result),
    ensures
        final(run).wf::<A>(),
        final(run)@.valid::<A>(),
        reply matches Reply::Failed(error) ==> result == Err::<(), DemucsError>(error)
            && final(run)@ == old(run)@,
        reply == Reply::<T>::Cancelled(true) ==> result == Err::<(), DemucsError>(
            DemucsError::Cancelled,
        ) && final(run)@ == old(run)@,
        !(reply is Failed) && reply != Reply::<T>::Cancelled(true) ==> {
            &&& result is Ok
            &&& final(run)@.ids == old(run)@.ids
            &&& final(run)@.n_samples == old(run)@.n_samples
            &&& final(run)@.steps() == old(run)@.steps().drop_first()
        },
        reply matches Reply::Stems(brought) ==> final(run)@.heard == old(run)@.heard.push(
            Seq::new(
                brought@.len(),
                |i: int|
                    StemView {
                        id: brought@[i].id,
                        left: brought@[i].left@,
                        right: brought@[i].right@,
                    },
            ),
        ),
        !(reply is Stems) ==> final(run)@.heard == old(run)@.heard,
{
    let before = old(run)@;
    let after = final(run)@;
    law_pipelined_steps_left::<T, A>(before);
    if !(reply is Failed) && reply != Reply::<T>::Cancelled(true) {
        law_pipelined_run_follows_steps::<T, A>(before, reply, after);
        assert(before.steps().drop_first() =~= after.steps());
        if let Reply::Stems(brought) = reply {
            assert(reply.stems() =~= Seq::new(
                brought@.len(),
                |i: int|
                    StemView {
                        id: brought@[i].id,
                        left: brought@[i].left@,
                        right: brought@[i].right@,
                    },
            ));
        }
    }
}

/// A pipelined run expects what can come of its steps: word that a step is done or,
/// where something was to be computed, that it failed; all stems of the model,
/// each as long as the chunk, where a chunk was to be decoded; and whether to stop.
pub proof fn law_pipelined_replies<T, A: Arithmetic<T>>(state: PipelinedState<T>, reply: Reply<T>)
    requires
        state.valid::<A>(),
        ({
            let start = state.heard.len() * 257985;
            let length = if state.n_samples < start + 343980 {
                state.n_samples - start
            } else {
                343980
            };
            match state.steps()[0] {
                Step::Notify(_) => reply is Done,
                Step::Forward { .. } => reply is Done || reply is Failed,
                Step::Read => reply is Done || reply is Failed,
                Step::Decode => reply is Failed || (reply is Stems && reply->Stems_0@.len()
                    == state.ids.len() && (forall|i: int|
                    0 <= i < state.ids.len() ==> (#[trigger] reply->Stems_0@[i]).id
                        == state.ids[i] && reply->Stems_0@[i].left@.len() == length
                        && reply->Stems_0@[i].right@.len() == length)),
                Step::PollCancelled => reply is Cancelled,
                _ => false,
            }
        }),
    ensures
        state.expects(reply),
{
    law_pipelined_steps_left::<T, A>(state);
    if state.step() == Step::Decode && reply is Stems {
        let views = stem_views(reply->Stems_0@);
        let length = chunk_len(state.chunk(), state.n_samples as int);
        law_chunk_reaches(state.n_samples as int, state.chunk());
        assert(reply.stems() == views);
        assert forall|i: int| 0 <= i < state.ids.len() implies (#[trigger] views[i]).id
            == state.ids[i] && views[i].left.len() == length && views[i].right.len()
            == length by {
            assert(reply->Stems_0@[i].id == state.ids[i]);
        }
        assert(are_stems(views, state.ids, length));
    }
}

/// A pipelined run takes every reply that it expects.
pub proof fn law_pipelined_run_takes_replies<T: Copy, A: Arithmetic<T>>(
    run: &mut PipelinedRun<T>,
    reply: Reply<T>,
)
    requires
        old(run).wf::<A>(),
        old(run)@.expects(reply),
    ensures
        call_requires(PipelinedRun::<T>::advance::<A>, (run, reply)),
{
}

} // verus!
