//! The run of a whole recording.

use vstd::prelude::*;

use crate::arithmetic::Arithmetic;
use crate::chunk::{law_chunk_reaches, TRAINING_LENGTH};
use crate::error::{DemucsError, Result};
use crate::model::{stem_views, ModelOptions, Stem, StemId, StemView};
use crate::overlap::{accumulated, finished};
use crate::pipelined_run::{PipelinedPhase, PipelinedRun};
use crate::segment_run::{fresh_segment, law_segment_models, SegmentRun};
use crate::sequential_run::{SequentialPhase, SequentialRun};
use crate::step::{are_stems, Reply, Step};

verus! {

/// How a recording is taken through the model.
#[derive(Clone, Copy, Debug, PartialEq, Eq, Structural)]
pub enum Route {
    /// In one piece.
    Single,
    /// In chunks, of which the next is on the device while one is decoded.
    Pipelined,
    /// In chunks, one after the other.
    Sequential,
}

/// The route of a recording of `n_samples` samples. What fits one segment is
/// run in one piece. Of the rest, models with a network for each stem are run
/// chunk after chunk: they make several passes for each chunk, and pipelining
/// would keep the output of all of them on the device at once.
pub open spec fn route_of(options: &ModelOptions, n_samples: usize) -> Route {
    if n_samples <= TRAINING_LENGTH {
        Route::Single
    } else if options is FineTuned {
        Route::Sequential
    } else {
        Route::Pipelined
    }
}

/// The route of a recording of `n_samples` samples.
pub fn route(options: &ModelOptions, n_samples: usize) -> (route: Route)
    ensures
        route == route_of(options, n_samples),
{
    if n_samples <= TRAINING_LENGTH {
        return Route::Single;
    }
    match options {
        ModelOptions::FourStem | ModelOptions::SixStem => Route::Pipelined,
        ModelOptions::FineTuned(_) => Route::Sequential,
    }
}

/// Separates a recording.
///
/// As long as [`SeparationRun::step`] is not [`Step::Finish`], do what it says
/// and hand what came of it to [`SeparationRun::advance`].
pub enum SeparationRun<T> {
    Single(SegmentRun<T>),
    Pipelined(PipelinedRun<T>),
    Sequential(SequentialRun<T>),
}

impl<T: Copy> SeparationRun<T> {
    pub open spec fn wf<A: Arithmetic<T>>(&self) -> bool {
        match self {
            SeparationRun::Single(run) => {
                &&& run@.valid()
                &&& run@.start == 0
                &&& run@.end <= TRAINING_LENGTH
            },
            SeparationRun::Pipelined(run) => run.wf::<A>() && run@.valid::<A>(),
            SeparationRun::Sequential(run) => run.wf::<A>() && run@.valid::<A>(),
        }
    }

    /// The length of the recording.
    pub open spec fn n_samples(&self) -> usize {
        match self {
            SeparationRun::Single(run) => run@.end,
            SeparationRun::Pipelined(run) => run@.n_samples,
            SeparationRun::Sequential(run) => run@.n_samples,
        }
    }

    /// The stems of the model, in order.
    pub open spec fn ids(&self) -> Seq<StemId> {
        match self {
            SeparationRun::Single(run) => run@.ids,
            SeparationRun::Pipelined(run) => run@.ids,
            SeparationRun::Sequential(run) => run@.ids(),
        }
    }

    /// What is to be done next.
    pub open spec fn next_step(&self) -> Step {
        match self {
            SeparationRun::Single(run) => run@.step(),
            SeparationRun::Pipelined(run) => run@.step(),
            SeparationRun::Sequential(run) => run@.step(),
        }
    }

    /// This reply can come of the current step.
    pub open spec fn expects(&self, reply: Reply<T>) -> bool {
        match self {
            SeparationRun::Single(run) => reply.answers(
                run@.step(),
                run@.ids,
                run@.end - run@.start,
            ),
            SeparationRun::Pipelined(run) => run@.expects(reply),
            SeparationRun::Sequential(run) => run@.expects(reply),
        }
    }

    /// `after` is a run that `reply` can take this run to.
    pub open spec fn leads_to<A: Arithmetic<T>>(&self, reply: Reply<T>, after: &Self) -> bool {
        match (self, after) {
            (SeparationRun::Single(run), SeparationRun::Single(next)) => next@ == run@.next(
                reply.stems(),
            ),
            (SeparationRun::Pipelined(run), SeparationRun::Pipelined(next)) => run@.leads_to::<A>(
                reply,
                next@,
            ),
            (SeparationRun::Sequential(run), SeparationRun::Sequential(next)) =>
                run@.leads_to::<A>(reply, next@),
            _ => false,
        }
    }

    /// `after` is the same run in the same state.
    pub open spec fn stays(&self, after: &Self) -> bool {
        match (self, after) {
            (SeparationRun::Single(run), SeparationRun::Single(next)) => next@ == run@,
            (SeparationRun::Pipelined(run), SeparationRun::Pipelined(next)) => next@ == run@,
            (SeparationRun::Sequential(run), SeparationRun::Sequential(next)) => next@ == run@,
            _ => false,
        }
    }

    /// This is a run with the given options.
    pub open spec fn is_of(&self, options: &ModelOptions) -> bool {
        match self {
            SeparationRun::Single(run) => run@.is_of(options),
            SeparationRun::Pipelined(run) => run@.ids == options.stem_order() && !(options
                is FineTuned),
            SeparationRun::Sequential(run) => run@.options == *options,
        }
    }

    /// This is the start of the run of a recording of `n_samples` samples.
    pub open spec fn starts<A: Arithmetic<T>>(
        &self,
        options: &ModelOptions,
        n_samples: usize,
    ) -> bool {
        &&& self.wf::<A>()
        &&& self.n_samples() == n_samples
        &&& self.is_of(options)
        &&& match self {
            SeparationRun::Single(run) => route_of(options, n_samples) == Route::Single && run@
                == fresh_segment::<T>(options, 0, n_samples),
            SeparationRun::Pipelined(run) => route_of(options, n_samples) == Route::Pipelined
                && run@.phase == PipelinedPhase::Started(0) && run@.heard.len() == 0,
            SeparationRun::Sequential(run) => route_of(options, n_samples) == Route::Sequential
                && run@.phase == SequentialPhase::Started(0) && run@.heard.len() == 0,
        }
    }

    /// The run of a recording of `n_samples` samples.
    pub fn new<A: Arithmetic<T>>(options: ModelOptions, n_samples: usize) -> (run: Self)
        ensures
            run.starts::<A>(&options, n_samples),
            run.ids() == options.stem_order(),
    {
        match route(&options, n_samples) {
            Route::Single => SeparationRun::Single(SegmentRun::new(&options, 0, n_samples)),
            Route::Pipelined => SeparationRun::Pipelined(
                PipelinedRun::new::<A>(options.model_info(), n_samples),
            ),
            Route::Sequential => SeparationRun::Sequential(
                SequentialRun::new::<A>(options, n_samples),
            ),
        }
    }

    /// What is to be done next. The samples that a network is to be run over lie
    /// in the recording and fit one segment, and a stem that is to be extracted
    /// is one of the model.
    pub fn step<A: Arithmetic<T>>(&self) -> (step: Step)
        requires
            self.wf::<A>(),
        ensures
            step == self.next_step(),
            step matches Step::Forward { start, end, .. } ==> start <= end <= self.n_samples()
                && end - start <= TRAINING_LENGTH,
            step matches Step::Prepare { start, end } ==> start <= end <= self.n_samples() && end
                - start <= TRAINING_LENGTH,
            step matches Step::Forward { model, .. } ==> model == 0 || model < self.ids().len(),
            step matches Step::Extract { stem } ==> stem < self.ids().len(),
    {
        match self {
            SeparationRun::Single(run) => {
                proof {
                    law_segment_models(run@);
                }
                run.step()
            },
            SeparationRun::Pipelined(run) => {
                proof {
                    law_chunk_reaches(run@.n_samples as int, 0);
                    law_chunk_reaches(run@.n_samples as int, run@.chunk());
                    if run@.chunk() + 1 < run@.total() {
                        law_chunk_reaches(run@.n_samples as int, run@.chunk() + 1);
                    }
                }
                run.step::<A>()
            },
            SeparationRun::Sequential(run) => {
                proof {
                    law_chunk_reaches(run@.n_samples as int, run@.chunk());
                    if let Some(segment) = run@.segment {
                        law_segment_models(segment);
                    }
                }
                run.step::<A>()
            },
        }
    }

    /// Takes what came of the step. An error ends the run.
    pub fn advance<A: Arithmetic<T>>(&mut self, reply: Reply<T>) -> (result: Result<()>)
        requires
            old(self).wf::<A>(),
            old(self).expects(reply),
        ensures
            final(self).wf::<A>(),
            final(self).n_samples() == old(self).n_samples(),
            final(self).ids() == old(self).ids(),
            match reply {
                Reply::Failed(error) => result == Err::<(), DemucsError>(error) && old(self).stays(
                    &*final(self),
                ),
                Reply::Cancelled(true) => result == Err::<(), DemucsError>(
                    DemucsError::Cancelled,
                ) && old(self).stays(&*final(self)),
                _ => result is Ok && old(self).leads_to::<A>(reply, &*final(self)),
            },
    {
        match self {
            SeparationRun::Single(run) => run.advance(reply),
            SeparationRun::Pipelined(run) => run.advance::<A>(reply),
            SeparationRun::Sequential(run) => run.advance::<A>(reply),
        }
    }

    /// The run is over, and `stems` is a result of it.
    pub open spec fn ends_with<A: Arithmetic<T>>(&self, stems: Seq<StemView<T>>) -> bool {
        &&& self.next_step() == Step::Finish
        &&& match self {
            SeparationRun::Single(run) => {
                &&& stems == run@.stems
                &&& are_stems(stems, run@.made(), run@.end - run@.start)
            },
            SeparationRun::Pipelined(run) => {
                &&& run@.heard.len() == run@.total()
                &&& accumulated::<T, A>(run@.ids, run@.n_samples as int, run@.heard, run@.mix)
                &&& finished::<T, A>(run@.ids, run@.mix, stems)
            },
            SeparationRun::Sequential(run) => {
                &&& run@.heard.len() == run@.total()
                &&& accumulated::<T, A>(run@.ids(), run@.n_samples as int, run@.heard, run@.mix)
                &&& finished::<T, A>(run@.ids(), run@.mix, stems)
            },
        }
    }

    /// The stems of the recording.
    ///
    /// A recording in one piece gives the stems that were run. One in chunks
    /// gives all stems of the model, of which those that were not run are
    /// silent.
    pub fn finish<A: Arithmetic<T>>(self) -> (stems: Vec<Stem<T>>)
        requires
            self.wf::<A>(),
            self.next_step() == Step::Finish,
        ensures
            self.ends_with::<A>(stem_views(stems@)),
    {
        match self {
            SeparationRun::Single(run) => run.finish(),
            SeparationRun::Pipelined(run) => run.finish::<A>(),
            SeparationRun::Sequential(run) => run.finish::<A>(),
        }
    }
}

} // verus!
