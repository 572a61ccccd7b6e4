//! The steps of a run, and what is reported back on them.
//!
//! A run decides what is to be done next, and takes what came of it. It does
//! not run a network, wait for a device or call a listener itself.

use vstd::prelude::*;

use crate::error::DemucsError;
use crate::model::{stem_views, Stem, StemId, StemView};

verus! {

/// Progress that a listener is told of.
#[derive(Clone, Copy, Debug, PartialEq, Eq, Structural)]
pub enum ForwardEvent {
    ChunkStarted { index: usize, total: usize },
    ChunkDone { index: usize, total: usize },
    StemDone { index: usize, total: usize },
}

/// What a run wants done.
#[derive(Clone, Copy, Debug, PartialEq, Eq, Structural)]
pub enum Step {
    /// Tell the listener.
    Notify(ForwardEvent),
    /// Build the network input for the samples from `start` up to `end`, and
    /// keep it for the passes that follow.
    Prepare { start: usize, end: usize },
    /// Enqueue a pass of network `model` over the samples from `start` up to
    /// `end`.
    Forward { model: usize, start: usize, end: usize },
    /// Wait for the oldest pass that has not been read, and read back the
    /// output for all stems.
    Read,
    /// Make stems of what was last read.
    Decode,
    /// Wait for the pass that has not been read, read back the output for the
    /// given stem alone, and make a stem of it.
    Extract { stem: usize },
    /// Ask the listener whether to stop.
    PollCancelled,
    /// Nothing: the run is over.
    Finish,
}

/// What came of a step.
pub enum Reply<T> {
    Done,
    Stems(Vec<Stem<T>>),
    Cancelled(bool),
    Failed(DemucsError),
}

impl<T> Reply<T> {
    /// The stems that came of the step.
    pub open spec fn stems(self) -> Seq<StemView<T>> {
        match self {
            Reply::Stems(stems) => stem_views(stems@),
            _ => Seq::empty(),
        }
    }

    /// This reply can come of `step`, where stems are ordered as in `ids` and
    /// have `length` samples on either side.
    pub open spec fn answers(self, step: Step, ids: Seq<StemId>, length: int) -> bool {
        match step {
            Step::Notify(_) => self is Done,
            Step::Prepare { .. } => self is Done || self is Failed,
            Step::Forward { .. } => self is Done || self is Failed,
            Step::Read => self is Done || self is Failed,
            Step::Decode => self is Failed || (self is Stems && are_stems(
                self.stems(),
                ids,
                length,
            )),
            Step::Extract { stem } => self is Failed || (self is Stems && are_stems(
                self.stems(),
                seq![ids[stem as int]],
                length,
            )),
            Step::PollCancelled => self is Cancelled,
            Step::Finish => false,
        }
    }
}

/// `stems` are the stems `ids`, in order, with `length` samples on either side.
pub open spec fn are_stems<T>(stems: Seq<StemView<T>>, ids: Seq<StemId>, length: int) -> bool {
    &&& stems.len() == ids.len()
    &&& forall|i: int| 0 <= i < ids.len() ==>
        (#[trigger] stems[i]).id == ids[i]
        && stems[i].left.len() == length
        && stems[i].right.len() == length
}

} // verus!
