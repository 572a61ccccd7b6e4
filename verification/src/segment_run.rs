//! The run of a single segment.

use vstd::prelude::*;

use crate::chunk::TRAINING_LENGTH;
use crate::error::{DemucsError, Result};
use crate::model::{
    law_picked, picked, picked_rows, stem_views, ModelOptions, Stem, StemId, StemView,
};
use crate::step::{are_stems, ForwardEvent, Reply, Step};

verus! {

/// How far the run of a segment has come.
#[derive(Clone, Copy, Debug, PartialEq, Eq, Structural)]
pub enum SegmentPhase {
    Prepare,
    Forward(usize),
    Read,
    Decode,
    Extract(usize),
    StemDone(usize),
    Finish,
}

/// The state of the run of a segment.
pub struct SegmentState<T> {
    /// The stems of the model, in order.
    pub ids: Seq<StemId>,
    /// The rows of the stems that are run one by one, each through its own
    /// network, or `None` where one network does all stems.
    pub picks: Option<Seq<usize>>,
    /// The samples of the segment.
    pub start: usize,
    pub end: usize,
    pub phase: SegmentPhase,
    /// The stems so far.
    pub stems: Seq<StemView<T>>,
}

/// The rows that the given options run one by one.
pub open spec fn picks_of(options: &ModelOptions) -> Option<Seq<usize>> {
    match options {
        ModelOptions::FineTuned(selected) => Some(
            picked(options.stem_order(), selected@, options.stem_order().len() as int),
        ),
        _ => None,
    }
}

impl<T> SegmentState<T> {
    /// The ids of the stems that the run makes, in order.
    pub open spec fn made(self) -> Seq<StemId> {
        match self.picks {
            None => self.ids,
            Some(rows) => Seq::new(rows.len(), |j: int| self.ids[rows[j] as int]),
        }
    }

    /// This is a state of the run of a segment with the given options.
    pub open spec fn is_of(self, options: &ModelOptions) -> bool {
        &&& self.ids == options.stem_order()
        &&& self.picks == picks_of(options)
    }

    /// How many stems there are in the current phase.
    pub open spec fn stem_count(self) -> int {
        match self.phase {
            SegmentPhase::Prepare | SegmentPhase::Read | SegmentPhase::Decode => 0,
            SegmentPhase::Forward(j) => j as int,
            SegmentPhase::Extract(j) => j as int,
            SegmentPhase::StemDone(j) => if self.picks is Some {
                j + 1
            } else {
                self.ids.len() as int
            },
            SegmentPhase::Finish => self.made().len() as int,
        }
    }

    /// Every picked row is that of a stem.
    pub open spec fn valid_rows(self) -> bool {
        &&& self.ids.len() <= usize::MAX
        &&& self.picks matches Some(rows) ==> {
            &&& rows.len() <= usize::MAX
            &&& forall|j: int| 0 <= j < rows.len() ==> #[trigger] rows[j] < self.ids.len()
        }
    }

    /// The run can be in this phase.
    pub open spec fn valid_phase(self) -> bool {
        &&& self.valid_rows()
        &&& match self.phase {
            SegmentPhase::Prepare => self.picks is Some,
            SegmentPhase::Forward(j) => if self.picks is Some {
                j < self.made().len()
            } else {
                j == 0
            },
            SegmentPhase::Read | SegmentPhase::Decode => self.picks is None,
            SegmentPhase::Extract(j) => self.picks is Some && j < self.made().len(),
            SegmentPhase::StemDone(j) => j < self.made().len(),
            SegmentPhase::Finish => true,
        }
    }

    /// The run can be in this state.
    pub open spec fn valid(self) -> bool {
        &&& self.start <= self.end
        &&& self.end - self.start <= TRAINING_LENGTH
        &&& self.valid_phase()
        &&& are_stems(self.stems, self.made().take(self.stem_count()), self.end - self.start)
    }

    /// What is to be done next.
    pub open spec fn step(self) -> Step {
        let total = self.ids.len() as usize;
        match self.phase {
            SegmentPhase::Prepare => Step::Prepare { start: self.start, end: self.end },
            SegmentPhase::Forward(j) => Step::Forward {
                model: match self.picks {
                    None => 0,
                    Some(rows) => rows[j as int],
                },
                start: self.start,
                end: self.end,
            },
            SegmentPhase::Read => Step::Read,
            SegmentPhase::Decode => Step::Decode,
            SegmentPhase::Extract(j) => Step::Extract {
                stem: match self.picks {
                    None => j,
                    Some(rows) => rows[j as int],
                },
            },
            SegmentPhase::StemDone(j) => Step::Notify(
                ForwardEvent::StemDone {
                    index: match self.picks {
                        None => j,
                        Some(rows) => rows[j as int],
                    },
                    total,
                },
            ),
            SegmentPhase::Finish => Step::Finish,
        }
    }

    /// The phase after this one.
    pub open spec fn next_phase(self) -> SegmentPhase {
        let count = self.made().len();
        match self.phase {
            SegmentPhase::Prepare => if count == 0 {
                SegmentPhase::Finish
            } else {
                SegmentPhase::Forward(0)
            },
            SegmentPhase::Forward(j) => if self.picks is Some {
                SegmentPhase::Extract(j)
            } else {
                SegmentPhase::Read
            },
            SegmentPhase::Read => SegmentPhase::Decode,
            SegmentPhase::Decode => if count == 0 {
                SegmentPhase::Finish
            } else {
                SegmentPhase::StemDone(0)
            },
            SegmentPhase::Extract(j) => SegmentPhase::StemDone(j),
            SegmentPhase::StemDone(j) => if j + 1 == count {
                SegmentPhase::Finish
            } else if self.picks is Some {
                SegmentPhase::Forward((j + 1) as usize)
            } else {
                SegmentPhase::StemDone((j + 1) as usize)
            },
            SegmentPhase::Finish => SegmentPhase::Finish,
        }
    }

    /// The state after a step that went well and brought the given stems.
    pub open spec fn next(self, brought: Seq<StemView<T>>) -> Self {
        SegmentState { phase: self.next_phase(), stems: self.stems + brought, ..self }
    }
}

/// The state in which the run of a segment starts.
pub open spec fn fresh_segment<T>(
    options: &ModelOptions,
    start: usize,
    end: usize,
) -> SegmentState<T> {
    SegmentState {
        ids: options.stem_order(),
        picks: picks_of(options),
        start,
        end,
        phase: if picks_of(options) is Some {
            SegmentPhase::Prepare
        } else {
            SegmentPhase::Forward(0)
        },
        stems: Seq::empty(),
    }
}

impl<T> SegmentState<T> {
    /// This state, but in another phase.
    pub open spec fn at(self, phase: SegmentPhase) -> Self {
        SegmentState { phase, ..self }
    }

    /// How many phases are left at most.
    pub open spec fn phases_left(self) -> int {
        let count = self.made().len() as int;
        match self.phase {
            SegmentPhase::Prepare => 3 * count + 1,
            SegmentPhase::Forward(j) => if self.picks is Some {
                3 * (count - j)
            } else {
                count + 3
            },
            SegmentPhase::Read => count + 2,
            SegmentPhase::Decode => count + 1,
            SegmentPhase::Extract(j) => 3 * (count - j) - 1,
            SegmentPhase::StemDone(j) => if self.picks is Some {
                3 * (count - j) - 2
            } else {
                count - j
            },
            SegmentPhase::Finish => 0,
        }
    }

    /// The steps from the current one on, without the last, if all goes well.
    pub open spec fn steps(self) -> Seq<Step>
        decreases self.phases_left(),
            when self.valid_phase()
    {
        if self.phase == SegmentPhase::Finish {
            Seq::empty()
        } else {
            seq![self.step()] + self.at(self.next_phase()).steps()
        }
    }

    /// Network passes and notices for the picked stems from `from` on, one stem
    /// after the other.
    pub open spec fn stem_passes(self, from: int) -> Seq<Step> {
        let rows = self.picks->0;
        Seq::new(
            (3 * (rows.len() - from)) as nat,
            |i: int|
                {
                    let row = rows[from + i / 3];
                    if i % 3 == 0 {
                        Step::Forward { model: row, start: self.start, end: self.end }
                    } else if i % 3 == 1 {
                        Step::Extract { stem: row }
                    } else {
                        Step::Notify(
                            ForwardEvent::StemDone { index: row, total: self.ids.len() as usize },
                        )
                    }
                },
        )
    }

    /// The listener is told of the stems from `from` on.
    pub open spec fn stem_notices(self, from: int) -> Seq<Step> {
        Seq::new(
            (self.ids.len() - from) as nat,
            |i: int|
                Step::Notify(
                    ForwardEvent::StemDone {
                        index: (from + i) as usize,
                        total: self.ids.len() as usize,
                    },
                ),
        )
    }
}

proof fn lemma_stem_passes<T>(state: SegmentState<T>, j: int)
    requires
        state.valid_rows(),
        state.picks is Some,
        0 <= j <= state.made().len(),
    ensures
        state.at(
            if j < state.made().len() {
                SegmentPhase::Forward(j as usize)
            } else {
                SegmentPhase::Finish
            },
        ).steps() == state.stem_passes(j),
    decreases state.made().len() - j,
{
    if j < state.made().len() {
        lemma_stem_passes(state, j + 1);
        let forward = state.at(SegmentPhase::Forward(j as usize));
        let extract = state.at(SegmentPhase::Extract(j as usize));
        let done = state.at(SegmentPhase::StemDone(j as usize));
        assert(forward.at(forward.next_phase()) == extract);
        assert(extract.at(extract.next_phase()) == done);
        assert(done.at(done.next_phase()) == state.at(done.next_phase()));
        let rest = state.stem_passes(j + 1);
        assert(done.steps() == seq![done.step()] + rest);
        assert(extract.steps() == seq![extract.step()] + done.steps());
        assert(forward.steps() == seq![forward.step()] + extract.steps());
        assert(forward.steps() =~= seq![forward.step(), extract.step(), done.step()] + rest);
        assert(seq![forward.step(), extract.step(), done.step()] + rest =~= state.stem_passes(j));
    } else {
        assert(state.stem_passes(j) =~= Seq::empty());
    }
}

proof fn lemma_stem_notices<T>(state: SegmentState<T>, j: int)
    requires
        state.valid_rows(),
        state.picks is None,
        0 <= j <= state.ids.len(),
    ensures
        state.at(
            if j < state.ids.len() {
                SegmentPhase::StemDone(j as usize)
            } else {
                SegmentPhase::Finish
            },
        ).steps() == state.stem_notices(j),
    decreases state.ids.len() - j,
{
    if j < state.ids.len() {
        lemma_stem_notices(state, j + 1);
        let done = state.at(SegmentPhase::StemDone(j as usize));
        assert(done.at(done.next_phase()) == state.at(done.next_phase()));
        assert(seq![done.step()] + state.stem_notices(j + 1) =~= state.stem_notices(j));
    } else {
        assert(state.stem_notices(j) =~= Seq::empty());
    }
}

/// Where one network does all stems, a run that goes well enqueues one pass,
/// reads it back in bulk, decodes it, and tells of each stem. Where every stem
/// has its own network, it builds the input once, and for each selected stem,
/// in order, enqueues a pass of that stem's network, reads the stem back, and
/// tells of it before it goes on to the next.
pub proof fn law_segment_steps<T>(options: &ModelOptions, start: usize, end: usize)
    requires
        start <= end,
    ensures
        ({
            let state = fresh_segment::<T>(options, start, end);
            state.steps() == match options {
                ModelOptions::FineTuned(_) => seq![Step::Prepare { start, end }]
                    + state.stem_passes(0),
                _ => seq![Step::Forward { model: 0, start, end }, Step::Read, Step::Decode]
                    + state.stem_notices(0),
            }
        }),
{
    let state = fresh_segment::<T>(options, start, end);
    match options {
        ModelOptions::FineTuned(selected) => {
            law_picked(state.ids, selected@, state.ids.len() as int);
            lemma_stem_passes(state, 0);
            assert(state.at(state.next_phase()).steps() == state.stem_passes(0));
        },
        _ => {
            let read = state.at(SegmentPhase::Read);
            let decode = state.at(SegmentPhase::Decode);
            lemma_stem_notices(state, 0);
            assert(state.at(state.next_phase()) == read);
            assert(read.at(read.next_phase()) == decode);
            assert(decode.at(decode.next_phase()) == state.at(decode.next_phase()));
            assert(decode.steps() == seq![Step::Decode] + state.stem_notices(0));
            assert(read.steps() == seq![Step::Read] + decode.steps());
            assert(state.steps() == seq![state.step()] + read.steps());
            assert(state.steps() =~= seq![state.step(), Step::Read, Step::Decode]
                + state.stem_notices(0));
        },
    }
}

proof fn lemma_steps_depend_on_phase<T>(one: SegmentState<T>, other: SegmentState<T>)
    requires
        one.ids == other.ids,
        one.picks == other.picks,
        one.start == other.start,
        one.end == other.end,
        one.phase == other.phase,
        one.valid_phase(),
    ensures
        one.steps() == other.steps(),
    decreases one.phases_left(),
{
    if one.phase != SegmentPhase::Finish {
        lemma_steps_depend_on_phase(one.at(one.next_phase()), other.at(other.next_phase()));
    }
}

/// Every reply that does not end the run takes it one step on.
pub proof fn law_segment_run_follows_steps<T>(before: SegmentState<T>, brought: Seq<StemView<T>>)
    requires
        before.valid(),
        before.phase != SegmentPhase::Finish,
    ensures
        before.steps() == seq![before.step()] + before.next(brought).steps(),
{
    lemma_steps_depend_on_phase(before.at(before.next_phase()), before.next(brought));
}

impl<T> SegmentState<T> {
    /// The network whose pass has been enqueued, and not yet read back.
    pub open spec fn waiting(self) -> Option<usize> {
        match self.phase {
            SegmentPhase::Read => Some(0),
            SegmentPhase::Extract(j) => Some(self.picks->0[j as int]),
            _ => None,
        }
    }
}

/// Every pass is read back before the next one is enqueued, and none is left
/// over at the end. What is extracted is the stem that the network is for.
pub proof fn law_segment_waiting<T>(state: SegmentState<T>)
    requires
        state.valid_phase(),
    ensures
        state.phase == SegmentPhase::Prepare || state.phase == SegmentPhase::Finish ==>
            state.waiting() is None,
        match state.step() {
            Step::Forward { model, .. } => {
                &&& state.waiting() is None
                &&& state.at(state.next_phase()).waiting() == Some(model)
            },
            Step::Read => {
                &&& state.waiting() == Some(0usize)
                &&& state.at(state.next_phase()).waiting() is None
            },
            Step::Extract { stem } => {
                &&& state.waiting() == Some(stem)
                &&& state.at(state.next_phase()).waiting() is None
            },
            _ => state.waiting() is None && state.at(state.next_phase()).waiting() is None,
        },
{
}

/// A run passes over only such networks as the model has: one for each stem
/// where every stem has its own, and else a single one.
pub proof fn law_segment_models<T>(state: SegmentState<T>)
    requires
        state.valid_phase(),
    ensures
        state.step() matches Step::Forward { model, .. } ==> if state.picks is Some {
            model < state.ids.len()
        } else {
            model == 0
        },
        state.step() matches Step::Extract { stem } ==> stem < state.ids.len(),
{
}

/// Separates a single segment.
///
/// Where one network does all stems, it is run once, and its output is read in
/// bulk. Where every stem has its own network, the input is built once, and the
/// networks of the selected stems are run one after the other.
pub struct SegmentRun<T> {
    ids: Vec<StemId>,
    picks: Option<Vec<usize>>,
    start: usize,
    end: usize,
    phase: SegmentPhase,
    stems: Vec<Stem<T>>,
}

impl<T> View for SegmentRun<T> {
    type V = SegmentState<T>;

    closed spec fn view(&self) -> SegmentState<T> {
        SegmentState {
            ids: self.ids@,
            picks: match self.picks {
                None => None,
                Some(rows) => Some(rows@),
            },
            start: self.start,
            end: self.end,
            phase: self.phase,
            stems: stem_views(self.stems@),
        }
    }
}

impl<T> SegmentRun<T> {
    /// The run of the samples from `start` up to `end`.
    pub fn new(options: &ModelOptions, start: usize, end: usize) -> (run: Self)
        requires
            start <= end,
            end - start <= TRAINING_LENGTH,
        ensures
            run@.valid(),
            run@ == fresh_segment::<T>(options, start, end),
    {
        let ids: Vec<StemId> = options.model_info().stems;
        let stems: Vec<Stem<T>> = Vec::new();
        let run = match options {
            ModelOptions::FineTuned(selected) => {
                let rows: Vec<usize> = picked_rows(&ids, selected);
                proof {
                    law_picked(ids@, selected@, ids@.len() as int);
                }
                SegmentRun {
                    ids,
                    picks: Some(rows),
                    start,
                    end,
                    phase: SegmentPhase::Prepare,
                    stems,
                }
            },
            _ => SegmentRun {
                ids,
                picks: None,
                start,
                end,
                phase: SegmentPhase::Forward(0),
                stems,
            },
        };
        assert(run@.stems =~= Seq::empty());
        run
    }

    /// What is to be done next.
    pub fn step(&self) -> (step: Step)
        requires
            self@.valid(),
        ensures
            step == self@.step(),
    {
        match self.phase {
            SegmentPhase::Prepare => Step::Prepare { start: self.start, end: self.end },
            SegmentPhase::Forward(j) => {
                let model: usize = match &self.picks {
                    None => 0,
                    Some(rows) => rows[j],
                };
                Step::Forward { model, start: self.start, end: self.end }
            },
            SegmentPhase::Read => Step::Read,
            SegmentPhase::Decode => Step::Decode,
            SegmentPhase::Extract(j) => {
                let stem: usize = match &self.picks {
                    None => j,
                    Some(rows) => rows[j],
                };
                Step::Extract { stem }
            },
            SegmentPhase::StemDone(j) => {
                let index: usize = match &self.picks {
                    None => j,
                    Some(rows) => rows[j],
                };
                Step::Notify(ForwardEvent::StemDone { index, total: self.ids.len() })
            },
            SegmentPhase::Finish => Step::Finish,
        }
    }

    /// Takes what came of the step. An error ends the run.
    pub fn advance(&mut self, reply: Reply<T>) -> (result: Result<()>)
        requires
            old(self)@.valid(),
            reply.answers(
                old(self)@.step(),
                old(self)@.ids,
                old(self)@.end - old(self)@.start,
            ),
        ensures
            final(self)@.valid(),
            match reply {
                Reply::Failed(error) => result == Err::<(), DemucsError>(error) && final(self)@
                    == old(self)@,
                _ => result is Ok && final(self)@ == old(self)@.next(reply.stems()),
            },
    {
        let ghost before = self@;
        let count: usize = match &self.picks {
            None => self.ids.len(),
            Some(rows) => rows.len(),
        };
        let joint: bool = self.picks.is_none();
        assert(count == before.made().len());
        match reply {
            Reply::Failed(error) => {
                return Err(error);
            },
            Reply::Stems(brought) => {
                let mut brought: Vec<Stem<T>> = brought;
                let ghost views = stem_views(brought@);
                self.stems.append(&mut brought);
                assert(stem_views(self.stems@) =~= before.stems + views);
            },
            _ => {
                assert(before.stems + Seq::<StemView<T>>::empty() =~= before.stems);
            },
        }
        self.phase = match self.phase {
            SegmentPhase::Prepare => if count == 0 {
                SegmentPhase::Finish
            } else {
                SegmentPhase::Forward(0)
            },
            SegmentPhase::Forward(j) => if joint {
                SegmentPhase::Read
            } else {
                SegmentPhase::Extract(j)
            },
            SegmentPhase::Read => SegmentPhase::Decode,
            SegmentPhase::Decode => if count == 0 {
                SegmentPhase::Finish
            } else {
                SegmentPhase::StemDone(0)
            },
            SegmentPhase::Extract(j) => SegmentPhase::StemDone(j),
            SegmentPhase::StemDone(j) => if j + 1 == count {
                SegmentPhase::Finish
            } else if joint {
                SegmentPhase::StemDone(j + 1)
            } else {
                SegmentPhase::Forward(j + 1)
            },
            SegmentPhase::Finish => SegmentPhase::Finish,
        };
        Ok(())
    }

    /// Whether the run is over.
    pub fn is_finished(&self) -> (over: bool)
        ensures
            over == (self@.phase == SegmentPhase::Finish),
    {
        match self.phase {
            SegmentPhase::Finish => true,
            _ => false,
        }
    }

    /// The stems that the run made.
    pub fn finish(self) -> (stems: Vec<Stem<T>>)
        requires
            self@.valid(),
            self@.phase == SegmentPhase::Finish,
        ensures
            stem_views(stems@) == self@.stems,
            are_stems(stem_views(stems@), self@.made(), self@.end - self@.start),
    {
        proof {
            assert(self@.made().take(self@.stem_count()) =~= self@.made());
        }
        self.stems
    }
}

} // verus!
