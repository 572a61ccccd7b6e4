//! The run of a long recording, one segment at a time.

use vstd::prelude::*;

use crate::arithmetic::Arithmetic;
use crate::chunk::{chunk_bounds, chunk_count, chunk_end, chunk_len, chunk_start, num_chunks};
use crate::error::{DemucsError, Result};
use crate::model::{
    law_picked, stem_views, ModelInfo, ModelOptions, Side, Stem, StemId, StemView,
};
use crate::overlap::{
    accumulated, chunk_additions, finished, is_window, law_gathered_shape,
    law_next_chunk_accumulates, mixed_in, ChunkAccumulator, MixView,
};
use crate::segment_run::{
    fresh_segment, law_segment_waiting, SegmentPhase, SegmentRun, SegmentState,
};
use crate::step::{are_stems, ForwardEvent, Reply, Step};

verus! {

/// How far a sequential run has come. The number is that of a chunk.
#[derive(Clone, Copy, Debug, PartialEq, Eq, Structural)]
pub enum SequentialPhase {
    Started(usize),
    Segment(usize),
    ChunkDone(usize),
    Poll(usize),
    Finish,
}

/// The state of a sequential run.
pub struct SequentialState<T> {
    pub options: ModelOptions,
    pub n_samples: usize,
    pub phase: SequentialPhase,
    /// The state of the segment that is being run.
    pub segment: Option<SegmentState<T>>,
    /// The stems of the chunks that have gone into the mix.
    pub heard: Seq<Seq<StemView<T>>>,
    pub mix: MixView<T>,
}

/// The state in which the segment of chunk `index` starts.
pub open spec fn fresh_chunk<T>(
    options: &ModelOptions,
    n_samples: int,
    index: int,
) -> SegmentState<T> {
    fresh_segment(
        options,
        chunk_start(index) as usize,
        chunk_end(index, n_samples) as usize,
    )
}

impl<T> SequentialState<T> {
    /// The stems of the model, in order.
    pub open spec fn ids(self) -> Seq<StemId> {
        self.options.stem_order()
    }

    /// The number of chunks.
    pub open spec fn total(self) -> int {
        chunk_count(self.n_samples as int)
    }

    /// The chunk that the current phase works on.
    pub open spec fn chunk(self) -> int {
        match self.phase {
            SequentialPhase::Started(k) => k as int,
            SequentialPhase::Segment(k) => k as int,
            SequentialPhase::ChunkDone(k) => k as int,
            SequentialPhase::Poll(k) => k as int,
            SequentialPhase::Finish => self.total() - 1,
        }
    }

    /// How many chunks are in the mix in the current phase.
    pub open spec fn heard_count(self) -> int {
        match self.phase {
            SequentialPhase::Started(k) | SequentialPhase::Segment(k) => k as int,
            _ => self.chunk() + 1,
        }
    }

    /// The ids of the stems that are made of each chunk, in order.
    pub open spec fn made(self) -> Seq<StemId> {
        fresh_chunk::<T>(&self.options, self.n_samples as int, 0).made()
    }

    /// The run can be in this phase. There is a segment exactly while one is
    /// run: that of the current chunk, which is not over.
    pub open spec fn valid_phase(self) -> bool {
        let fresh = fresh_chunk::<T>(&self.options, self.n_samples as int, self.chunk());
        &&& 0 <= self.chunk() < self.total()
        &&& self.segment is Some <==> self.phase is Segment
        &&& self.segment matches Some(segment) ==> {
            &&& segment.valid_phase()
            &&& segment.phase != SegmentPhase::Finish
            &&& segment.ids == fresh.ids
            &&& segment.picks == fresh.picks
            &&& segment.start == fresh.start
            &&& segment.end == fresh.end
        }
    }

    /// The run can be in this state.
    pub open spec fn valid<A: Arithmetic<T>>(self) -> bool {
        &&& self.valid_phase()
        &&& self.segment matches Some(segment) ==> segment.valid()
        &&& self.heard.len() == self.heard_count()
        &&& forall|k: int| 0 <= k < self.heard.len() ==>
            are_stems(#[trigger] self.heard[k], self.made(), chunk_len(k, self.n_samples as int))
        &&& accumulated::<T, A>(self.ids(), self.n_samples as int, self.heard, self.mix)
    }

    /// What is to be done next.
    pub open spec fn step(self) -> Step {
        let total = self.total() as usize;
        match self.phase {
            SequentialPhase::Started(k) => Step::Notify(
                ForwardEvent::ChunkStarted { index: k, total },
            ),
            SequentialPhase::Segment(_) => self.segment->0.step(),
            SequentialPhase::ChunkDone(k) => Step::Notify(
                ForwardEvent::ChunkDone { index: k, total },
            ),
            SequentialPhase::Poll(_) => Step::PollCancelled,
            SequentialPhase::Finish => Step::Finish,
        }
    }

    /// This reply can come of the current step.
    pub open spec fn expects(self, reply: Reply<T>) -> bool {
        reply.answers(
            self.step(),
            self.ids(),
            chunk_len(self.chunk(), self.n_samples as int),
        )
    }

    /// The phase after this one.
    pub open spec fn next_phase(self) -> SequentialPhase {
        match self.phase {
            SequentialPhase::Started(k) => SequentialPhase::Segment(k),
            SequentialPhase::Segment(k) => if self.segment->0.next_phase()
                == SegmentPhase::Finish {
                SequentialPhase::ChunkDone(k)
            } else {
                SequentialPhase::Segment(k)
            },
            SequentialPhase::ChunkDone(k) => SequentialPhase::Poll(k),
            SequentialPhase::Poll(k) => if k + 1 < self.total() {
                SequentialPhase::Started((k + 1) as usize)
            } else {
                SequentialPhase::Finish
            },
            SequentialPhase::Finish => SequentialPhase::Finish,
        }
    }

    /// The segment in the phase after this one, if the step brings the given
    /// stems.
    pub open spec fn next_segment(self, brought: Seq<StemView<T>>) -> Option<SegmentState<T>> {
        match self.phase {
            SequentialPhase::Started(k) => Some(
                fresh_chunk(&self.options, self.n_samples as int, k as int),
            ),
            SequentialPhase::Segment(_) => if self.segment->0.next_phase()
                == SegmentPhase::Finish {
                None
            } else {
                Some(self.segment->0.next(brought))
            },
            _ => None,
        }
    }

    /// `after` is a state that `reply` can take the run to: one phase on, and if
    /// that ends a segment, with its stems in the mix.
    pub open spec fn leads_to<A: Arithmetic<T>>(self, reply: Reply<T>, after: Self) -> bool {
        &&& after.options == self.options
        &&& after.n_samples == self.n_samples
        &&& after.phase == self.next_phase()
        &&& after.segment == self.next_segment(reply.stems())
        &&& if self.phase is Segment && after.phase is ChunkDone {
            let stems = self.segment->0.next(reply.stems()).stems;
            &&& after.heard == self.heard.push(stems)
            &&& exists|window: Seq<T>| #[trigger]
                is_window::<T, A>(chunk_len(self.chunk(), self.n_samples as int), window)
                && mixed_in::<T, A>(
                    self.mix,
                    self.ids(),
                    stems,
                    chunk_start(self.chunk()),
                    window,
                    after.mix,
                )
        } else {
            &&& after.heard == self.heard
            &&& after.mix == self.mix
        }
    }
}

impl<T> SequentialState<T> {
    /// This state, but in another phase, and with another segment.
    pub open spec fn at(self, phase: SequentialPhase, segment: Option<SegmentState<T>>) -> Self {
        SequentialState { phase, segment, ..self }
    }

    /// This state after a step that brought nothing.
    pub open spec fn passed(self) -> Self {
        self.at(self.next_phase(), self.next_segment(Seq::empty()))
    }

    /// How many phases of the current chunk are left.
    pub open spec fn phases_left(self) -> int {
        match self.phase {
            SequentialPhase::Started(_) => 4,
            SequentialPhase::Segment(_) => 3,
            SequentialPhase::ChunkDone(_) => 2,
            SequentialPhase::Poll(_) => 1,
            SequentialPhase::Finish => 0,
        }
    }

    /// How many phases of the segment are left at most.
    pub open spec fn segment_left(self) -> int {
        match self.segment {
            Some(segment) => segment.phases_left(),
            None => 0,
        }
    }

    /// The steps from the current one on, if all goes well and nobody cancels.
    pub open spec fn steps(self) -> Seq<Step>
        decreases self.total() - self.chunk(), self.phases_left(), self.segment_left(),
            when self.valid_phase()
    {
        if self.phase == SequentialPhase::Finish {
            seq![Step::Finish]
        } else {
            seq![self.step()] + self.passed().steps()
        }
    }

    /// The steps that a run takes from the start of chunk `k` on: announce it,
    /// run its segment, tell of it, and ask whether to go on. Then the same for
    /// the next chunk.
    pub open spec fn steps_from_chunk(self, k: int) -> Seq<Step>
        decreases self.total() - k,
    {
        let total = self.total() as usize;
        seq![Step::Notify(ForwardEvent::ChunkStarted { index: k as usize, total })]
            + fresh_chunk::<T>(&self.options, self.n_samples as int, k).steps() + seq![
            Step::Notify(ForwardEvent::ChunkDone { index: k as usize, total }),
            Step::PollCancelled,
        ] + if k + 1 < self.total() {
            self.steps_from_chunk(k + 1)
        } else {
            seq![Step::Finish]
        }
    }
}

proof fn lemma_segment_steps<T>(state: SequentialState<T>, k: usize, segment: SegmentState<T>)
    requires
        state.at(SequentialPhase::Segment(k), Some(segment)).valid_phase(),
    ensures
        state.at(SequentialPhase::Segment(k), Some(segment)).steps() == segment.steps() + state.at(
            SequentialPhase::ChunkDone(k),
            None,
        ).steps(),
    decreases segment.phases_left(),
{
    let here = state.at(SequentialPhase::Segment(k), Some(segment));
    let done = state.at(SequentialPhase::ChunkDone(k), None);
    let next = segment.next(Seq::empty());
    assert(next == segment.at(segment.next_phase())) by {
        assert(segment.stems + Seq::<StemView<T>>::empty() =~= segment.stems);
    }
    if segment.next_phase() == SegmentPhase::Finish {
        assert(here.passed() == done);
        assert(next.steps() == Seq::<Step>::empty());
        assert(segment.steps() == seq![segment.step()] + next.steps());
        assert(segment.steps() =~= seq![segment.step()]);
    } else {
        assert(here.passed() == state.at(SequentialPhase::Segment(k), Some(next)));
        lemma_segment_steps(state, k, next);
        assert(segment.steps() == seq![segment.step()] + next.steps());
        assert(here.steps() =~= segment.steps() + done.steps());
    }
}

proof fn lemma_fresh_chunk<T>(options: &ModelOptions, n_samples: int, k: int)
    ensures
        fresh_chunk::<T>(options, n_samples, k).valid_phase(),
        fresh_chunk::<T>(options, n_samples, k).phase != SegmentPhase::Finish,
{
    if let ModelOptions::FineTuned(selected) = options {
        law_picked(options.stem_order(), selected@, options.stem_order().len() as int);
    }
}

proof fn lemma_steps_from_chunk<T>(state: SequentialState<T>, k: usize)
    requires
        0 <= k < state.total(),
    ensures
        state.at(SequentialPhase::Started(k), None).steps() == state.steps_from_chunk(k as int),
    decreases state.total() - k,
{
    let fresh = fresh_chunk::<T>(&state.options, state.n_samples as int, k as int);
    let started = state.at(SequentialPhase::Started(k), None);
    let segment = state.at(SequentialPhase::Segment(k), Some(fresh));
    let done = state.at(SequentialPhase::ChunkDone(k), None);
    let poll = state.at(SequentialPhase::Poll(k), None);
    lemma_fresh_chunk::<T>(&state.options, state.n_samples as int, k as int);
    lemma_segment_steps(state, k, fresh);
    assert(started.passed() == segment);
    assert(done.passed() == poll);
    assert(poll.passed() == state.at(poll.next_phase(), None));
    let rest = if k + 1 < state.total() {
        lemma_steps_from_chunk(state, (k + 1) as usize);
        state.steps_from_chunk(k + 1)
    } else {
        seq![Step::Finish]
    };
    assert(poll.passed().steps() == rest);
    assert(poll.steps() == seq![poll.step()] + rest);
    assert(done.steps() == seq![done.step()] + poll.steps());
    assert(started.steps() == seq![started.step()] + (fresh.steps() + done.steps()));
    assert(started.steps() =~= seq![started.step()] + fresh.steps() + seq![
        done.step(),
        poll.step(),
    ] + rest);
}

/// A run that goes well takes the chunks in order, and is through with one
/// before it starts the next.
pub proof fn law_sequential_steps<T>(state: SequentialState<T>)
    requires
        state.phase == SequentialPhase::Started(0),
        state.segment is None,
    ensures
        state.steps() == state.steps_from_chunk(0),
{
    lemma_steps_from_chunk(state, 0);
    assert(state.at(SequentialPhase::Started(0), None) == state);
}

proof fn lemma_steps_depend_on_phase<T>(one: SequentialState<T>, other: SequentialState<T>)
    requires
        one.options == other.options,
        one.n_samples == other.n_samples,
        one.phase == other.phase,
        one.segment is Some <==> other.segment is Some,
        one.segment is Some ==> one.segment->0.phase == other.segment->0.phase,
        one.valid_phase(),
        other.valid_phase(),
    ensures
        one.steps() == other.steps(),
    decreases one.total() - one.chunk(), one.phases_left(), one.segment_left(),
{
    if one.phase != SequentialPhase::Finish {
        if let SequentialPhase::Started(k) = one.phase {
            lemma_fresh_chunk::<T>(&one.options, one.n_samples as int, k as int);
        }
        lemma_steps_depend_on_phase(one.passed(), other.passed());
    }
}

/// Every reply that does not end the run takes it one step on.
pub proof fn law_sequential_run_follows_steps<T, A: Arithmetic<T>>(
    before: SequentialState<T>,
    reply: Reply<T>,
    after: SequentialState<T>,
)
    requires
        before.valid::<A>(),
        before.expects(reply),
        before.leads_to::<A>(reply, after),
    ensures
        before.steps() == seq![before.step()] + after.steps(),
{
    if let SequentialPhase::Started(k) = before.phase {
        lemma_fresh_chunk::<T>(&before.options, before.n_samples as int, k as int);
    }
    lemma_steps_depend_on_phase(before.passed(), after);
}

/// Passes are enqueued and read back only while a segment is run, every pass is
/// read back before the next one is enqueued, and none waits when a segment is
/// over.
pub proof fn law_sequential_waiting<T>(state: SequentialState<T>)
    requires
        state.valid_phase(),
    ensures
        match state.segment {
            Some(segment) => {
                &&& state.step() is Forward ==> segment.waiting() is None
                &&& state.passed().segment is None ==> segment.at(
                    segment.next_phase(),
                ).waiting() is None
            },
            None => !(state.step() is Forward || state.step() is Read || state.step() is Extract),
        },
{
    if let Some(segment) = state.segment {
        law_segment_waiting(segment);
        law_segment_waiting(segment.at(segment.next_phase()));
    }
}

/// Separates a long recording one segment at a time: every segment is decoded
/// and mixed before the next one is started.
pub struct SequentialRun<T> {
    options: ModelOptions,
    info: ModelInfo,
    n_samples: usize,
    total: usize,
    phase: SequentialPhase,
    segment: Option<SegmentRun<T>>,
    acc: ChunkAccumulator<T>,
    heard: Ghost<Seq<Seq<StemView<T>>>>,
}

impl<T> View for SequentialRun<T> {
    type V = SequentialState<T>;

    closed spec fn view(&self) -> SequentialState<T> {
        SequentialState {
            options: self.options,
            n_samples: self.n_samples,
            phase: self.phase,
            segment: match self.segment {
                None => None,
                Some(run) => Some(run@),
            },
            heard: self.heard@,
            mix: self.acc@,
        }
    }
}

impl<T: Copy> SequentialRun<T> {
    pub closed spec fn wf<A: Arithmetic<T>>(&self) -> bool {
        &&& self@.valid::<A>()
        &&& self.total == self@.total()
        &&& self.info.stems@ == self@.ids()
    }

    pub fn new<A: Arithmetic<T>>(options: ModelOptions, n_samples: usize) -> (run: Self)
        ensures
            run.wf::<A>(),
            run@.valid::<A>(),
            run@.options == options,
            run@.n_samples == n_samples,
            run@.phase == SequentialPhase::Started(0),
            run@.heard.len() == 0,
    {
        let info: ModelInfo = options.model_info();
        let acc: ChunkAccumulator<T> = ChunkAccumulator::new::<A>(info.stems.len(), n_samples);
        let total: usize = num_chunks(n_samples);
        SequentialRun {
            options,
            info,
            n_samples,
            total,
            phase: SequentialPhase::Started(0),
            segment: None,
            acc,
            heard: Ghost(Seq::empty()),
        }
    }

    /// What is to be done next.
    pub fn step<A: Arithmetic<T>>(&self) -> (step: Step)
        requires
            self.wf::<A>(),
        ensures
            step == self@.step(),
    {
        match self.phase {
            SequentialPhase::Started(index) => Step::Notify(
                ForwardEvent::ChunkStarted { index, total: self.total },
            ),
            SequentialPhase::Segment(_) => match &self.segment {
                Some(run) => run.step(),
                None => Step::Finish,
            },
            SequentialPhase::ChunkDone(index) => Step::Notify(
                ForwardEvent::ChunkDone { index, total: self.total },
            ),
            SequentialPhase::Poll(_) => Step::PollCancelled,
            SequentialPhase::Finish => Step::Finish,
        }
    }

    /// Takes what came of the step. An error ends the run.
    pub fn advance<A: Arithmetic<T>>(&mut self, reply: Reply<T>) -> (result: Result<()>)
        requires
            old(self).wf::<A>(),
            old(self)@.expects(reply),
        ensures
            final(self).wf::<A>(),
            final(self)@.valid::<A>(),
            match reply {
                Reply::Failed(error) => result == Err::<(), DemucsError>(error) && final(self)@
                    == old(self)@,
                Reply::Cancelled(true) => result == Err::<(), DemucsError>(
                    DemucsError::Cancelled,
                ) && final(self)@ == old(self)@,
                _ => result is Ok && old(self)@.leads_to::<A>(reply, final(self)@),
            },
    {
        match self.phase {
            SequentialPhase::Started(k) => {
                let (start, end) = chunk_bounds(k, self.n_samples);
                self.segment = Some(SegmentRun::new(&self.options, start, end));
                self.phase = SequentialPhase::Segment(k);
                Ok(())
            },
            SequentialPhase::Segment(k) => self.advance_segment::<A>(k, reply),
            SequentialPhase::ChunkDone(k) => {
                self.phase = SequentialPhase::Poll(k);
                Ok(())
            },
            SequentialPhase::Poll(k) => {
                if let Reply::Cancelled(cancelled) = reply {
                    if cancelled {
                        return Err(DemucsError::Cancelled);
                    }
                }
                self.phase = if k + 1 < self.total {
                    SequentialPhase::Started(k + 1)
                } else {
                    SequentialPhase::Finish
                };
                Ok(())
            },
            SequentialPhase::Finish => Ok(()),
        }
    }

    /// Takes what came of a step of the segment of chunk `k`, and mixes in the
    /// segment when it is over.
    fn advance_segment<A: Arithmetic<T>>(&mut self, k: usize, reply: Reply<T>) -> (result: Result<
        (),
    >)
        requires
            old(self).wf::<A>(),
            old(self)@.expects(reply),
            old(self)@.phase == SequentialPhase::Segment(k),
        ensures
            final(self).wf::<A>(),
            match reply {
                Reply::Failed(error) => result == Err::<(), DemucsError>(error) && final(self)@
                    == old(self)@,
                _ => result is Ok && old(self)@.leads_to::<A>(reply, final(self)@),
            },
    {
        let ghost before = self@;
        if let Some(segment) = self.segment.take() {
            let mut run: SegmentRun<T> = segment;
            let result: Result<()> = run.advance(reply);
            if result.is_err() || !run.is_finished() {
                self.segment = Some(run);
                return result;
            }
            let ghost ended = run@;
            let stems: Vec<Stem<T>> = run.finish();
            let ghost views = stem_views(stems@);
            let (start, end) = chunk_bounds(k, self.n_samples);
            proof {
                law_gathered_shape::<T, A>(
                    before.ids(), before.n_samples as int,
                    chunk_additions(before.n_samples as int, before.heard), before.mix);
                assert(before.mix.rows(Side::Left).len() == before.ids().len());
                assert forall|i: int| 0 <= i < views.len() implies
                    before.ids().contains((#[trigger] views[i]).id) by {
                    assert(views[i].id == ended.made()[i]);
                    match ended.picks {
                        None => {
                            assert(before.ids()[i] == views[i].id);
                        },
                        Some(rows) => {
                            assert(before.ids()[rows[i] as int] == views[i].id);
                        },
                    }
                }
            }
            self.acc.add::<A>(&self.info, &stems, start, end - start);
            self.heard = Ghost(self.heard@.push(views));
            self.phase = SequentialPhase::ChunkDone(k);
            proof {
                let window = choose|window: Seq<T>| #[trigger]
                    is_window::<T, A>(chunk_len(k as int, before.n_samples as int), window)
                    && mixed_in::<T, A>(
                        before.mix, before.ids(), views, chunk_start(k as int), window, self.acc@);
                law_next_chunk_accumulates::<T, A>(
                    before.ids(), before.n_samples as int, before.heard, before.mix, views, window,
                    self.acc@);
            }
        }
        Ok(())
    }

    /// The full-length stems: all stems of the model, of which those that were
    /// not run are silent.
    pub fn finish<A: Arithmetic<T>>(self) -> (stems: Vec<Stem<T>>)
        requires
            self.wf::<A>(),
            self@.phase == SequentialPhase::Finish,
        ensures
            self@.heard.len() == self@.total(),
            accumulated::<T, A>(
                self@.ids(),
                self@.n_samples as int,
                self@.heard,
                self@.mix,
            ),
            finished::<T, A>(self@.ids(), self@.mix, stem_views(stems@)),
    {
        proof {
            law_gathered_shape::<T, A>(
                self@.ids(), self@.n_samples as int,
                chunk_additions(self@.n_samples as int, self@.heard), self@.mix);
            assert(self@.mix.rows(Side::Left).len() == self@.ids().len());
        }
        self.acc.finalize::<A>(&self.info)
    }
}

} // verus!
