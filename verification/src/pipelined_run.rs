//! The run of a long recording through one network for all stems.

use vstd::prelude::*;

use crate::arithmetic::Arithmetic;
use crate::chunk::{
    chunk_bounds, chunk_count, chunk_end, chunk_len, chunk_start, num_chunks,
};
use crate::error::{DemucsError, Result};
use crate::model::{stem_views, ModelInfo, Side, Stem, StemId, StemView};
use crate::overlap::{
    accumulated, chunk_additions, finished, is_window, law_gathered_shape,
    law_next_chunk_accumulates, mixed_in, ChunkAccumulator, MixView,
};
use crate::step::{are_stems, ForwardEvent, Reply, Step};

verus! {

/// How far a pipelined run has come. The first number is that of a chunk.
#[derive(Clone, Copy, Debug, PartialEq, Eq, Structural)]
pub enum PipelinedPhase {
    Started(usize),
    ForwardFirst,
    Read(usize),
    ForwardNext(usize),
    Decode(usize),
    StemDone(usize, usize),
    ChunkDone(usize),
    Poll(usize),
    Finish,
}

/// The state of a pipelined run.
pub struct PipelinedState<T> {
    /// The stems of the model, in order.
    pub ids: Seq<StemId>,
    pub n_samples: usize,
    pub phase: PipelinedPhase,
    /// The stems of the chunks that have gone into the mix.
    pub heard: Seq<Seq<StemView<T>>>,
    pub mix: MixView<T>,
}

/// The pass of the network over chunk `index`.
pub open spec fn forward_chunk(model: usize, index: int, n_samples: int) -> Step {
    Step::Forward {
        model,
        start: chunk_start(index) as usize,
        end: chunk_end(index, n_samples) as usize,
    }
}

impl<T> PipelinedState<T> {
    /// The number of chunks.
    pub open spec fn total(self) -> int {
        chunk_count(self.n_samples as int)
    }

    /// The chunk that the current phase works on.
    pub open spec fn chunk(self) -> int {
        match self.phase {
            PipelinedPhase::Started(k) => k as int,
            PipelinedPhase::ForwardFirst => 0,
            PipelinedPhase::Read(k) => k as int,
            PipelinedPhase::ForwardNext(k) => k as int,
            PipelinedPhase::Decode(k) => k as int,
            PipelinedPhase::StemDone(k, _) => k as int,
            PipelinedPhase::ChunkDone(k) => k as int,
            PipelinedPhase::Poll(k) => k as int,
            PipelinedPhase::Finish => self.total() - 1,
        }
    }

    /// How many chunks are in the mix in the current phase.
    pub open spec fn heard_count(self) -> int {
        match self.phase {
            PipelinedPhase::StemDone(_, _)
            | PipelinedPhase::ChunkDone(_)
            | PipelinedPhase::Poll(_)
            | PipelinedPhase::Finish => self.chunk() + 1,
            _ => self.chunk(),
        }
    }

    /// The run can be in this phase.
    pub open spec fn valid_phase(self) -> bool {
        &&& 0 <= self.chunk() < self.total()
        &&& self.phase matches PipelinedPhase::ForwardNext(k) ==> k + 1 < self.total()
        &&& self.phase matches PipelinedPhase::StemDone(_, i) ==> i < self.ids.len()
    }

    /// The run can be in this state.
    pub open spec fn valid<A: Arithmetic<T>>(self) -> bool {
        &&& self.ids.len() <= usize::MAX
        &&& self.valid_phase()
        &&& self.heard.len() == self.heard_count()
        &&& forall|k: int| 0 <= k < self.heard.len() ==>
            are_stems(#[trigger] self.heard[k], self.ids, chunk_len(k, self.n_samples as int))
        &&& accumulated::<T, A>(self.ids, self.n_samples as int, self.heard, self.mix)
    }

    /// What is to be done next.
    pub open spec fn step(self) -> Step {
        let total = self.total() as usize;
        match self.phase {
            PipelinedPhase::Started(k) => Step::Notify(
                ForwardEvent::ChunkStarted { index: k, total },
            ),
            PipelinedPhase::ForwardFirst => forward_chunk(0, 0, self.n_samples as int),
            PipelinedPhase::Read(_) => Step::Read,
            PipelinedPhase::ForwardNext(k) => forward_chunk(0, k + 1, self.n_samples as int),
            PipelinedPhase::Decode(_) => Step::Decode,
            PipelinedPhase::StemDone(_, i) => Step::Notify(
                ForwardEvent::StemDone { index: i, total: self.ids.len() as usize },
            ),
            PipelinedPhase::ChunkDone(k) => Step::Notify(
                ForwardEvent::ChunkDone { index: k, total },
            ),
            PipelinedPhase::Poll(_) => Step::PollCancelled,
            PipelinedPhase::Finish => Step::Finish,
        }
    }

    /// The phase after this one.
    pub open spec fn next_phase(self) -> PipelinedPhase {
        match self.phase {
            PipelinedPhase::Started(k) => if k == 0 {
                PipelinedPhase::ForwardFirst
            } else {
                PipelinedPhase::Read(k)
            },
            PipelinedPhase::ForwardFirst => PipelinedPhase::Read(0),
            PipelinedPhase::Read(k) => if k + 1 < self.total() {
                PipelinedPhase::ForwardNext(k)
            } else {
                PipelinedPhase::Decode(k)
            },
            PipelinedPhase::ForwardNext(k) => PipelinedPhase::Decode(k),
            PipelinedPhase::Decode(k) => if self.ids.len() == 0 {
                PipelinedPhase::ChunkDone(k)
            } else {
                PipelinedPhase::StemDone(k, 0)
            },
            PipelinedPhase::StemDone(k, i) => if i + 1 < self.ids.len() {
                PipelinedPhase::StemDone(k, (i + 1) as usize)
            } else {
                PipelinedPhase::ChunkDone(k)
            },
            PipelinedPhase::ChunkDone(k) => PipelinedPhase::Poll(k),
            PipelinedPhase::Poll(k) => if k + 1 < self.total() {
                PipelinedPhase::Started((k + 1) as usize)
            } else {
                PipelinedPhase::Finish
            },
            PipelinedPhase::Finish => PipelinedPhase::Finish,
        }
    }

    /// This reply can come of the current step.
    pub open spec fn expects(self, reply: Reply<T>) -> bool {
        reply.answers(
            self.step(),
            self.ids,
            chunk_len(self.chunk(), self.n_samples as int),
        )
    }

    /// `after` is a state that `reply` can take the run to: one phase on, and if
    /// the reply brought the stems of a chunk, with these in the mix.
    pub open spec fn leads_to<A: Arithmetic<T>>(self, reply: Reply<T>, after: Self) -> bool {
        &&& after.ids == self.ids
        &&& after.n_samples == self.n_samples
        &&& after.phase == self.next_phase()
        &&& if reply is Stems {
            &&& after.heard == self.heard.push(reply.stems())
            &&& exists|window: Seq<T>| #[trigger]
                is_window::<T, A>(chunk_len(self.chunk(), self.n_samples as int), window)
                && mixed_in::<T, A>(
                    self.mix,
                    self.ids,
                    reply.stems(),
                    chunk_start(self.chunk()),
                    window,
                    after.mix,
                )
        } else {
            &&& after.heard == self.heard
            &&& after.mix == self.mix
        }
    }
}

impl<T> PipelinedState<T> {
    /// This state, but in another phase.
    pub open spec fn at(self, phase: PipelinedPhase) -> Self {
        PipelinedState { phase, ..self }
    }

    /// How many phases of the current chunk are left at most.
    pub open spec fn phases_left(self) -> int {
        match self.phase {
            PipelinedPhase::Started(_) => self.ids.len() as int + 8,
            PipelinedPhase::ForwardFirst => self.ids.len() as int + 7,
            PipelinedPhase::Read(_) => self.ids.len() as int + 6,
            PipelinedPhase::ForwardNext(_) => self.ids.len() as int + 5,
            PipelinedPhase::Decode(_) => self.ids.len() as int + 4,
            PipelinedPhase::StemDone(_, i) => self.ids.len() - i + 3,
            PipelinedPhase::ChunkDone(_) => 2,
            PipelinedPhase::Poll(_) => 1,
            PipelinedPhase::Finish => 0,
        }
    }

    /// The steps from the current one on, if all goes well and nobody cancels.
    pub open spec fn steps(self) -> Seq<Step>
        decreases self.total() - self.chunk(), self.phases_left(),
            when self.valid_phase() && self.ids.len() <= usize::MAX
    {
        if self.phase == PipelinedPhase::Finish {
            seq![Step::Finish]
        } else {
            seq![self.step()] + self.at(self.next_phase()).steps()
        }
    }

    /// The listener is told of the stems from `from` on.
    pub open spec fn stem_notices(self, from: int) -> Seq<Step> {
        Seq::new(
            (self.ids.len() - from) as nat,
            |i: int|
                Step::Notify(
                    ForwardEvent::StemDone {
                        index: (from + i) as usize,
                        total: self.ids.len() as usize,
                    },
                ),
        )
    }

    /// The steps that a run takes from reading back chunk `k` on: read it,
    /// enqueue the next chunk, decode, tell of the stems and of the chunk, and
    /// ask whether to go on. Then the same for the next chunk.
    pub open spec fn steps_from_chunk(self, k: int) -> Seq<Step>
        decreases self.total() - k,
    {
        let total = self.total() as usize;
        let told = seq![
            Step::Notify(ForwardEvent::ChunkDone { index: k as usize, total }),
            Step::PollCancelled,
        ];
        if k + 1 < self.total() {
            seq![Step::Read, forward_chunk(0, k + 1, self.n_samples as int), Step::Decode]
                + self.stem_notices(0) + told + seq![
                Step::Notify(ForwardEvent::ChunkStarted { index: (k + 1) as usize, total }),
            ] + self.steps_from_chunk(k + 1)
        } else {
            seq![Step::Read, Step::Decode] + self.stem_notices(0) + told + seq![Step::Finish]
        }
    }
}

proof fn lemma_stem_notices<T>(state: PipelinedState<T>, k: usize, i: int)
    requires
        0 <= k < state.total(),
        state.ids.len() <= usize::MAX,
        0 <= i <= state.ids.len(),
    ensures
        ({
            let phase = if i < state.ids.len() {
                PipelinedPhase::StemDone(k, i as usize)
            } else {
                PipelinedPhase::ChunkDone(k)
            };
            state.at(phase).steps() == state.stem_notices(i) + state.at(
                PipelinedPhase::ChunkDone(k),
            ).steps()
        }),
    decreases state.ids.len() - i,
{
    if i < state.ids.len() {
        lemma_stem_notices(state, k, i + 1);
        let here = state.at(PipelinedPhase::StemDone(k, i as usize));
        assert(here.at(here.next_phase()) == state.at(here.next_phase()));
        assert(seq![here.step()] + state.stem_notices(i + 1) =~= state.stem_notices(i));
        assert(seq![here.step()] + (state.stem_notices(i + 1) + state.at(
            PipelinedPhase::ChunkDone(k),
        ).steps()) =~= state.stem_notices(i) + state.at(PipelinedPhase::ChunkDone(k)).steps());
    } else {
        assert(state.stem_notices(i) + state.at(PipelinedPhase::ChunkDone(k)).steps() =~= state.at(
            PipelinedPhase::ChunkDone(k),
        ).steps());
    }
}

proof fn lemma_steps_from_chunk<T>(state: PipelinedState<T>, k: usize)
    requires
        0 <= k < state.total(),
        state.ids.len() <= usize::MAX,
    ensures
        state.at(PipelinedPhase::Read(k)).steps() == state.steps_from_chunk(k as int),
    decreases state.total() - k,
{
    let read = state.at(PipelinedPhase::Read(k));
    let forward = state.at(PipelinedPhase::ForwardNext(k));
    let decode = state.at(PipelinedPhase::Decode(k));
    let done = state.at(PipelinedPhase::ChunkDone(k));
    let poll = state.at(PipelinedPhase::Poll(k));
    lemma_stem_notices(state, k, 0);
    assert(decode.at(decode.next_phase()) == state.at(decode.next_phase()));
    assert(done.at(done.next_phase()) == poll);
    assert(poll.at(poll.next_phase()) == state.at(poll.next_phase()));
    let notices = state.stem_notices(0);
    let told = seq![done.step(), poll.step()];
    if k + 1 < state.total() {
        let next = (k + 1) as usize;
        let started = state.at(PipelinedPhase::Started(next));
        lemma_steps_from_chunk(state, next);
        assert(read.at(read.next_phase()) == forward);
        assert(forward.at(forward.next_phase()) == decode);
        assert(started.at(started.next_phase()) == state.at(PipelinedPhase::Read(next)));
        let rest = state.steps_from_chunk(k + 1);
        assert(started.steps() == seq![started.step()] + rest);
        assert(poll.steps() == seq![poll.step()] + started.steps());
        assert(done.steps() =~= told + seq![started.step()] + rest);
        assert(decode.steps() == seq![Step::Decode] + (notices + done.steps()));
        assert(forward.steps() == seq![forward.step()] + decode.steps());
        assert(read.steps() == seq![Step::Read] + forward.steps());
        assert(read.steps() =~= seq![Step::Read, forward.step(), Step::Decode] + notices + told
            + seq![started.step()] + rest);
    } else {
        let finish = state.at(PipelinedPhase::Finish);
        assert(read.at(read.next_phase()) == decode);
        assert(finish.steps() == seq![Step::Finish]);
        assert(poll.steps() == seq![poll.step()] + finish.steps());
        assert(done.steps() =~= told + seq![Step::Finish]);
        assert(decode.steps() == seq![Step::Decode] + (notices + done.steps()));
        assert(read.steps() == seq![Step::Read] + decode.steps());
        assert(read.steps() =~= seq![Step::Read, Step::Decode] + notices + told + seq![
            Step::Finish,
        ]);
    }
}

/// A run that goes well announces and enqueues the first chunk, and then goes
/// through all chunks in order. Every chunk but the first is enqueued right
/// after the chunk before it was read back, and before that one is decoded.
pub proof fn law_pipelined_steps<T>(state: PipelinedState<T>)
    requires
        state.phase == PipelinedPhase::Started(0),
        state.ids.len() <= usize::MAX,
    ensures
        state.steps() == seq![
            Step::Notify(ForwardEvent::ChunkStarted { index: 0, total: state.total() as usize }),
            forward_chunk(0, 0, state.n_samples as int),
        ] + state.steps_from_chunk(0),
{
    let first = state.at(PipelinedPhase::ForwardFirst);
    lemma_steps_from_chunk(state, 0);
    assert(state.at(state.next_phase()) == first);
    assert(first.at(first.next_phase()) == state.at(PipelinedPhase::Read(0)));
    assert(state.steps() == seq![state.step()] + first.steps());
    assert(first.steps() == seq![first.step()] + state.steps_from_chunk(0));
    assert(state.steps() =~= seq![state.step(), first.step()] + state.steps_from_chunk(0));
}

proof fn lemma_steps_depend_on_phase<T>(one: PipelinedState<T>, other: PipelinedState<T>)
    requires
        one.ids == other.ids,
        one.n_samples == other.n_samples,
        one.phase == other.phase,
        one.valid_phase(),
        one.ids.len() <= usize::MAX,
    ensures
        one.steps() == other.steps(),
    decreases one.total() - one.chunk(), one.phases_left(),
{
    if one.phase != PipelinedPhase::Finish {
        lemma_steps_depend_on_phase(one.at(one.next_phase()), other.at(other.next_phase()));
    }
}

/// Every reply that does not end the run takes it one step on.
pub proof fn law_pipelined_run_follows_steps<T, A: Arithmetic<T>>(
    before: PipelinedState<T>,
    reply: Reply<T>,
    after: PipelinedState<T>,
)
    requires
        before.valid::<A>(),
        before.expects(reply),
        before.leads_to::<A>(reply, after),
    ensures
        before.steps() == seq![before.step()] + after.steps(),
{
    lemma_steps_depend_on_phase(before.at(before.next_phase()), after);
}

impl<T> PipelinedState<T> {
    /// The chunk whose pass has been enqueued, and not yet read back.
    pub open spec fn waiting(self) -> Option<int> {
        match self.phase {
            PipelinedPhase::Started(k) => if k == 0 {
                None
            } else {
                Some(k as int)
            },
            PipelinedPhase::ForwardFirst => None,
            PipelinedPhase::Read(k) => Some(k as int),
            PipelinedPhase::ForwardNext(_) => None,
            PipelinedPhase::Finish => None,
            _ => if self.chunk() + 1 < self.total() {
                Some(self.chunk() + 1)
            } else {
                None
            },
        }
    }
}

/// At no time does more than one pass wait to be read back: none does when a
/// pass is enqueued. The pass that is read is that of the chunk which is then
/// decoded, and none is left over at the end.
pub proof fn law_pipelined_waiting<T>(state: PipelinedState<T>)
    requires
        state.valid_phase(),
        state.ids.len() <= usize::MAX,
    ensures
        state.phase == PipelinedPhase::Started(0) || state.phase == PipelinedPhase::Finish ==>
            state.waiting() is None,
        match state.step() {
            Step::Forward { .. } => {
                &&& state.waiting() is None
                &&& state.at(state.next_phase()).waiting() matches Some(index)
                &&& 0 <= index < state.total()
                &&& state.step() == forward_chunk(0, index, state.n_samples as int)
            },
            Step::Read => {
                &&& state.waiting() == Some(state.chunk())
                &&& state.at(state.next_phase()).chunk() == state.chunk()
                &&& state.at(state.next_phase()).waiting() is None
            },
            _ => state.at(state.next_phase()).waiting() == state.waiting(),
        },
{
}

/// Separates a long recording chunk by chunk.
///
/// The pass for the next chunk is enqueued right after the output for the
/// current one is read back, so that the device works on it while the current
/// one is decoded and mixed.
pub struct PipelinedRun<T> {
    info: ModelInfo,
    n_samples: usize,
    total: usize,
    phase: PipelinedPhase,
    acc: ChunkAccumulator<T>,
    heard: Ghost<Seq<Seq<StemView<T>>>>,
}

impl<T> View for PipelinedRun<T> {
    type V = PipelinedState<T>;

    closed spec fn view(&self) -> PipelinedState<T> {
        PipelinedState {
            ids: self.info.stems@,
            n_samples: self.n_samples,
            phase: self.phase,
            heard: self.heard@,
            mix: self.acc@,
        }
    }
}

impl<T: Copy> PipelinedRun<T> {
    pub closed spec fn wf<A: Arithmetic<T>>(&self) -> bool {
        &&& self@.valid::<A>()
        &&& self.total == self@.total()
    }

    pub fn new<A: Arithmetic<T>>(info: ModelInfo, n_samples: usize) -> (run: Self)
        ensures
            run.wf::<A>(),
            run@.valid::<A>(),
            run@.ids == info.stems@,
            run@.n_samples == n_samples,
            run@.phase == PipelinedPhase::Started(0),
            run@.heard.len() == 0,
    {
        let acc: ChunkAccumulator<T> = ChunkAccumulator::new::<A>(info.stems.len(), n_samples);
        let total: usize = num_chunks(n_samples);
        PipelinedRun {
            info,
            n_samples,
            total,
            phase: PipelinedPhase::Started(0),
            acc,
            heard: Ghost(Seq::empty()),
        }
    }

    /// What is to be done next.
    pub fn step<A: Arithmetic<T>>(&self) -> (step: Step)
        requires
            self.wf::<A>(),
        ensures
            step == self@.step(),
    {
        match self.phase {
            PipelinedPhase::Started(index) => Step::Notify(
                ForwardEvent::ChunkStarted { index, total: self.total },
            ),
            PipelinedPhase::ForwardFirst => {
                let (start, end) = chunk_bounds(0, self.n_samples);
                Step::Forward { model: 0, start, end }
            },
            PipelinedPhase::Read(_) => Step::Read,
            PipelinedPhase::ForwardNext(k) => {
                let (start, end) = chunk_bounds(k + 1, self.n_samples);
                Step::Forward { model: 0, start, end }
            },
            PipelinedPhase::Decode(_) => Step::Decode,
            PipelinedPhase::StemDone(_, index) => Step::Notify(
                ForwardEvent::StemDone { index, total: self.info.stems.len() },
            ),
            PipelinedPhase::ChunkDone(index) => Step::Notify(
                ForwardEvent::ChunkDone { index, total: self.total },
            ),
            PipelinedPhase::Poll(_) => Step::PollCancelled,
            PipelinedPhase::Finish => Step::Finish,
        }
    }

    /// Takes what came of the step. An error ends the run.
    pub fn advance<A: Arithmetic<T>>(&mut self, reply: Reply<T>) -> (result: Result<()>)
        requires
            old(self).wf::<A>(),
            old(self)@.expects(reply),
        ensures
            final(self).wf::<A>(),
            final(self)@.valid::<A>(),
            match reply {
                Reply::Failed(error) => result == Err::<(), DemucsError>(error) && final(self)@
                    == old(self)@,
                Reply::Cancelled(true) => result == Err::<(), DemucsError>(
                    DemucsError::Cancelled,
                ) && final(self)@ == old(self)@,
                _ => result is Ok && old(self)@.leads_to::<A>(reply, final(self)@),
            },
    {
        let ghost before = self@;
        match reply {
            Reply::Failed(error) => {
                return Err(error);
            },
            Reply::Cancelled(cancelled) => {
                if cancelled {
                    return Err(DemucsError::Cancelled);
                }
            },
            Reply::Stems(stems) => {
                if let PipelinedPhase::Decode(k) = self.phase {
                    let (start, end) = chunk_bounds(k, self.n_samples);
                    let ghost views = stem_views(stems@);
                    proof {
                        law_gathered_shape::<T, A>(
                            before.ids, before.n_samples as int,
                            chunk_additions(before.n_samples as int, before.heard), before.mix);
                        assert forall|i: int| 0 <= i < views.len() implies
                            before.ids.contains((#[trigger] views[i]).id) by {
                            assert(before.ids[i] == views[i].id);
                        }
                        assert(before.mix.rows(Side::Left).len() == before.ids.len());
                    }
                    self.acc.add::<A>(&self.info, &stems, start, end - start);
                    self.heard = Ghost(self.heard@.push(views));
                    proof {
                        let window = choose|window: Seq<T>| #[trigger]
                            is_window::<T, A>(chunk_len(k as int, before.n_samples as int), window)
                            && mixed_in::<T, A>(
                                before.mix, before.ids, views, chunk_start(k as int), window,
                                self.acc@);
                        law_next_chunk_accumulates::<T, A>(
                            before.ids, before.n_samples as int, before.heard, before.mix, views,
                            window, self.acc@);
                    }
                }
            },
            Reply::Done => {},
        }
        self.phase = match self.phase {
            PipelinedPhase::Started(k) => if k == 0 {
                PipelinedPhase::ForwardFirst
            } else {
                PipelinedPhase::Read(k)
            },
            PipelinedPhase::ForwardFirst => PipelinedPhase::Read(0),
            PipelinedPhase::Read(k) => if k + 1 < self.total {
                PipelinedPhase::ForwardNext(k)
            } else {
                PipelinedPhase::Decode(k)
            },
            PipelinedPhase::ForwardNext(k) => PipelinedPhase::Decode(k),
            PipelinedPhase::Decode(k) => if self.info.stems.len() == 0 {
                PipelinedPhase::ChunkDone(k)
            } else {
                PipelinedPhase::StemDone(k, 0)
            },
            PipelinedPhase::StemDone(k, i) => if i + 1 < self.info.stems.len() {
                PipelinedPhase::StemDone(k, i + 1)
            } else {
                PipelinedPhase::ChunkDone(k)
            },
            PipelinedPhase::ChunkDone(k) => PipelinedPhase::Poll(k),
            PipelinedPhase::Poll(k) => if k + 1 < self.total {
                PipelinedPhase::Started(k + 1)
            } else {
                PipelinedPhase::Finish
            },
            PipelinedPhase::Finish => PipelinedPhase::Finish,
        };
        Ok(())
    }

    /// The full-length stems.
    pub fn finish<A: Arithmetic<T>>(self) -> (stems: Vec<Stem<T>>)
        requires
            self.wf::<A>(),
            self@.phase == PipelinedPhase::Finish,
        ensures
            self@.heard.len() == self@.total(),
            accumulated::<T, A>(
                self@.ids,
                self@.n_samples as int,
                self@.heard,
                self@.mix,
            ),
            finished::<T, A>(self@.ids, self@.mix, stem_views(stems@)),
    {
        proof {
            law_gathered_shape::<T, A>(
                self@.ids, self@.n_samples as int,
                chunk_additions(self@.n_samples as int, self@.heard), self@.mix);
            assert(self@.mix.rows(Side::Left).len() == self@.ids.len());
        }
        self.acc.finalize::<A>(&self.info)
    }
}

} // verus!
