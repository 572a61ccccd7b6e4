//! What runs make on a device that always makes the same stems of the same
//! samples.
//!
//! A run is told what came of each step, and its contract holds whatever that
//! is. Here it is what the networks make of a recording, so that whole runs can
//! be compared.

use vstd::prelude::*;

use crate::arithmetic::{repeatable, Arithmetic};
use crate::chunk::{chunk_count, chunk_end, chunk_start, law_chunk_reaches};
use crate::model::{
    law_picked, law_stems_are_distinct, picked, ModelOptions, Side, StemId, StemView,
};
use crate::overlap::{accumulated, chunk_additions, finished, MixView};
use crate::pipelined_run::{PipelinedPhase, PipelinedState};
use crate::repeat::{
    agrees_at, law_mix_depends_on_additions, law_sample_depends_on_covering_additions,
    law_stems_depend_on_mix,
};
use crate::segment_run::{fresh_segment, picks_of, SegmentPhase, SegmentState};
use crate::sequential_run::{fresh_chunk, SequentialPhase, SequentialState};
use crate::step::Reply;

verus! {

/// The stems that a device makes of the samples of a recording, which are given
/// by where they start and end.
pub struct Device<T> {
    /// The stems that one network for all of them makes.
    pub all: spec_fn(int, int) -> Seq<StemView<T>>,
    /// The stem that the network for the given row makes.
    pub one: spec_fn(int, int, int) -> StemView<T>,
}

/// The networks of a model: what they make of the two sides of a segment.
#[verifier::reject_recursive_types(T)]
pub struct Networks<T> {
    /// The stems that one network for all of them makes.
    pub all: spec_fn(Seq<T>, Seq<T>) -> Seq<StemView<T>>,
    /// The stem that the network for the given row makes.
    pub one: spec_fn(int, Seq<T>, Seq<T>) -> StemView<T>,
}

impl<T> Networks<T> {
    /// The device that runs these networks on a recording.
    pub open spec fn on(self, left: Seq<T>, right: Seq<T>) -> Device<T> {
        Device {
            all: |start: int, end: int|
                (self.all)(left.subrange(start, end), right.subrange(start, end)),
            one: |row: int, start: int, end: int|
                (self.one)(row, left.subrange(start, end), right.subrange(start, end)),
        }
    }
}

/// The stems of a segment: those that the selected networks make of it, in the
/// order of the model.
pub open spec fn segment_stems<T>(
    options: &ModelOptions,
    device: Device<T>,
    start: int,
    end: int,
) -> Seq<StemView<T>> {
    match picks_of(options) {
        None => (device.all)(start, end),
        Some(rows) => Seq::new(rows.len(), |j: int| (device.one)(rows[j] as int, start, end)),
    }
}

/// The stems of each chunk of a recording.
pub open spec fn chunk_stems<T>(
    options: &ModelOptions,
    device: Device<T>,
    n_samples: int,
) -> Seq<Seq<StemView<T>>> {
    Seq::new(
        chunk_count(n_samples) as nat,
        |k: int| segment_stems(options, device, chunk_start(k), chunk_end(k, n_samples)),
    )
}

/// `stems` is a result of mixing the stems of the chunks of a recording.
pub open spec fn chunks_mixed<T, A: Arithmetic<T>>(
    options: &ModelOptions,
    device: Device<T>,
    n_samples: int,
    stems: Seq<StemView<T>>,
) -> bool {
    exists|mix: MixView<T>| #[trigger]
        accumulated::<T, A>(
            options.stem_order(),
            n_samples,
            chunk_stems(options, device, n_samples),
            mix,
        ) && finished::<T, A>(options.stem_order(), mix, stems)
}

impl<T> SegmentState<T> {
    /// The stems that the current step brings on the given device.
    pub open spec fn brings(self, device: Device<T>) -> Seq<StemView<T>> {
        match self.phase {
            SegmentPhase::Decode => (device.all)(self.start as int, self.end as int),
            SegmentPhase::Extract(j) => seq![
                (device.one)(self.picks->0[j as int] as int, self.start as int, self.end as int),
            ],
            _ => Seq::empty(),
        }
    }

    /// The stems so far are those of the given device.
    pub open spec fn made_on(self, device: Device<T>) -> bool {
        match self.picks {
            None => self.stems == match self.phase {
                SegmentPhase::Forward(_) | SegmentPhase::Read | SegmentPhase::Decode =>
                    Seq::empty(),
                _ => (device.all)(self.start as int, self.end as int),
            },
            Some(rows) => self.stems == Seq::new(
                self.stem_count() as nat,
                |j: int| (device.one)(rows[j] as int, self.start as int, self.end as int),
            ),
        }
    }
}

/// A segment starts with no stems, and every step keeps what the device made so
/// far and adds what it makes in that step.
pub proof fn law_segment_is_made_on_device<T>(
    options: &ModelOptions,
    device: Device<T>,
    start: usize,
    end: usize,
    state: SegmentState<T>,
)
    ensures
        fresh_segment::<T>(options, start, end).is_of(options),
        fresh_segment::<T>(options, start, end).made_on(device),
        state.valid() && state.phase != SegmentPhase::Finish && state.is_of(options)
            && state.made_on(device) ==> state.next(state.brings(device)).is_of(options)
            && state.next(state.brings(device)).made_on(device),
{
    let fresh = fresh_segment::<T>(options, start, end);
    if let Some(rows) = picks_of(options) {
        assert(fresh.stems =~= Seq::new(
            0nat,
            |j: int| (device.one)(rows[j] as int, start as int, end as int),
        ));
    }
    if state.valid() && state.phase != SegmentPhase::Finish && state.is_of(options)
        && state.made_on(device) {
        let next = state.next(state.brings(device));
        match state.picks {
            None => {
                assert(next.stems =~= match next.phase {
                    SegmentPhase::Forward(_) | SegmentPhase::Read | SegmentPhase::Decode =>
                        Seq::empty(),
                    _ => (device.all)(state.start as int, state.end as int),
                });
            },
            Some(rows) => {
                assert(next.stems =~= Seq::new(
                    next.stem_count() as nat,
                    |j: int| (device.one)(rows[j] as int, state.start as int, state.end as int),
                ));
            },
        }
    }
}

/// A segment that is over has the stems that the selected networks make of it.
pub proof fn law_finished_segment<T>(
    options: &ModelOptions,
    device: Device<T>,
    state: SegmentState<T>,
)
    requires
        state.is_of(options),
        state.made_on(device),
        state.phase == SegmentPhase::Finish,
    ensures
        state.stems == segment_stems(
            options,
            device,
            state.start as int,
            state.end as int,
        ),
{
    if let Some(rows) = picks_of(options) {
        assert(state.stems =~= segment_stems(
            options,
            device,
            state.start as int,
            state.end as int,
        ));
    }
}

proof fn lemma_picked_depends_on_set(ids: Seq<StemId>, one: Seq<StemId>, other: Seq<StemId>, n: int)
    requires
        0 <= n <= ids.len(),
        forall|id: StemId| one.contains(id) <==> other.contains(id),
    ensures
        picked(ids, one, n) == picked(ids, other, n),
    decreases n,
{
    if n > 0 {
        lemma_picked_depends_on_set(ids, one, other, n - 1);
        assert(one.contains(ids[n - 1]) <==> other.contains(ids[n - 1]));
    }
}

/// Where every stem has its own network, a stem of a segment is the same whatever
/// else is selected: two runs that both select it finish with the same stem for
/// it, and have it. The order of the selection, and what it names twice, do not
/// matter either: runs that select the same stems finish with the same stems.
pub proof fn law_selection_keeps_stems<T>(
    selected: Vec<StemId>,
    others: Vec<StemId>,
    device: Device<T>,
    one: SegmentState<T>,
    other: SegmentState<T>,
)
    requires
        one.is_of(&ModelOptions::FineTuned(selected)),
        other.is_of(&ModelOptions::FineTuned(others)),
        one.start == other.start,
        one.end == other.end,
        one.phase == SegmentPhase::Finish,
        other.phase == SegmentPhase::Finish,
        one.valid(),
        other.valid(),
        one.made_on(device),
        other.made_on(device),
    ensures
        forall|id: StemId| one.ids.contains(id) && selected@.contains(id) ==> exists|j: int|
            0 <= j < one.stems.len() && (#[trigger] one.stems[j]).id == id,
        forall|j: int, k: int|
            0 <= j < one.stems.len() && 0 <= k < other.stems.len() && (#[trigger] one.stems[j]).id
                == (#[trigger] other.stems[k]).id ==> one.stems[j] == other.stems[k],
        (forall|id: StemId| selected@.contains(id) <==> others@.contains(id)) ==> one.stems
            == other.stems,
{
    let ids = one.ids;
    let n = ids.len() as int;
    let options = ModelOptions::FineTuned(selected);
    let rows = one.picks->0;
    let other_rows = other.picks->0;
    law_stems_are_distinct(options);
    law_picked(ids, selected@, n);
    law_picked(ids, others@, n);
    assert(one.made().take(one.stem_count()) =~= one.made());
    assert(other.made().take(other.stem_count()) =~= other.made());
    assert forall|id: StemId| ids.contains(id) && selected@.contains(id) implies exists|j: int|
        0 <= j < one.stems.len() && (#[trigger] one.stems[j]).id == id by {
        let row = choose|row: int| 0 <= row < n && ids[row] == id;
        assert(selected@.contains(ids[row]));
        assert(rows.contains(row as usize));
        let j = choose|j: int| 0 <= j < rows.len() && rows[j] == row as usize;
        assert(one.stems[j].id == one.made()[j]);
    }
    assert forall|j: int, k: int|
        0 <= j < one.stems.len() && 0 <= k < other.stems.len() && (#[trigger] one.stems[j]).id == (
        #[trigger] other.stems[k]).id implies one.stems[j] == other.stems[k] by {
        assert(one.stems[j].id == one.made()[j]);
        assert(other.stems[k].id == other.made()[k]);
        assert(rows[j] == other_rows[k]);
    }
    if forall|id: StemId| selected@.contains(id) <==> others@.contains(id) {
        lemma_picked_depends_on_set(ids, selected@, others@, n);
        assert(one.stems =~= other.stems);
    }
}

impl<T> PipelinedState<T> {
    /// The stems that the current step brings on the given device.
    pub open spec fn brings(self, device: Device<T>) -> Seq<StemView<T>> {
        match self.phase {
            PipelinedPhase::Decode(k) => (device.all)(
                chunk_start(k as int),
                chunk_end(k as int, self.n_samples as int),
            ),
            _ => Seq::empty(),
        }
    }

    /// The stems so far are those of the given device.
    pub open spec fn made_on(self, device: Device<T>) -> bool {
        self.heard == Seq::new(
            self.heard_count() as nat,
            |k: int| (device.all)(chunk_start(k), chunk_end(k, self.n_samples as int)),
        )
    }
}

/// A pipelined run starts with no stems, and every step keeps what the device
/// made so far and adds what it makes in that step.
pub proof fn law_pipelined_run_is_made_on_device<T, A: Arithmetic<T>>(
    device: Device<T>,
    before: PipelinedState<T>,
    reply: Reply<T>,
    after: PipelinedState<T>,
)
    requires
        before.valid::<A>(),
    ensures
        before.phase == PipelinedPhase::Started(0) ==> before.made_on(device),
        before.made_on(device) && before.expects(reply) && !(reply is Failed) && reply.stems()
            == before.brings(device) && before.leads_to::<A>(reply, after) ==> after.made_on(
            device,
        ),
{
    if before.phase == PipelinedPhase::Started(0) {
        assert(before.heard =~= Seq::new(
            0nat,
            |k: int| (device.all)(chunk_start(k), chunk_end(k, before.n_samples as int)),
        ));
    }
    if before.made_on(device) && before.expects(reply) && !(reply is Failed) && reply.stems()
        == before.brings(device) && before.leads_to::<A>(reply, after) {
        assert(after.heard =~= Seq::new(
            after.heard_count() as nat,
            |k: int| (device.all)(chunk_start(k), chunk_end(k, after.n_samples as int)),
        ));
    }
}

impl<T> SequentialState<T> {
    /// The stems that the current step brings on the given device.
    pub open spec fn brings(self, device: Device<T>) -> Seq<StemView<T>> {
        match self.segment {
            Some(segment) => segment.brings(device),
            None => Seq::empty(),
        }
    }

    /// The stems so far are those of the given device.
    pub open spec fn made_on(self, device: Device<T>) -> bool {
        &&& self.segment matches Some(segment) ==> segment.made_on(device)
        &&& self.heard == Seq::new(
            self.heard_count() as nat,
            |k: int|
                segment_stems(
                    &self.options,
                    device,
                    chunk_start(k),
                    chunk_end(k, self.n_samples as int),
                ),
        )
    }
}

/// A sequential run starts with no stems, and every step keeps what the device
/// made so far and adds what it makes in that step.
pub proof fn law_sequential_run_is_made_on_device<T, A: Arithmetic<T>>(
    device: Device<T>,
    before: SequentialState<T>,
    reply: Reply<T>,
    after: SequentialState<T>,
)
    requires
        before.valid::<A>(),
    ensures
        before.phase == SequentialPhase::Started(0) ==> before.made_on(device),
        before.made_on(device) && before.expects(reply) && !(reply is Failed) && reply.stems()
            == before.brings(device) && before.leads_to::<A>(reply, after) ==> after.made_on(
            device,
        ),
{
    let n_samples = before.n_samples as int;
    let stems_of = |k: int|
        segment_stems(&before.options, device, chunk_start(k), chunk_end(k, n_samples));
    if before.phase == SequentialPhase::Started(0) {
        assert(before.heard =~= Seq::new(0nat, stems_of));
    }
    if before.made_on(device) && before.expects(reply) && !(reply is Failed) && reply.stems()
        == before.brings(device) && before.leads_to::<A>(reply, after) {
        let k = before.chunk();
        law_chunk_reaches(n_samples, k);
        let start = chunk_start(k) as usize;
        let end = chunk_end(k, n_samples) as usize;
        if let Some(segment) = before.segment {
            law_segment_is_made_on_device(&before.options, device, start, end, segment);
            let next = segment.next(reply.stems());
            if next.phase == SegmentPhase::Finish {
                law_finished_segment(&before.options, device, next);
                assert(after.heard.last() == stems_of(k));
            }
        } else {
            law_segment_is_made_on_device(
                &before.options, device, start, end,
                fresh_chunk::<T>(&before.options, n_samples, k));
        }
        assert(after.heard =~= Seq::new(after.heard_count() as nat, stems_of));
    }
}

/// A pipelined run that is over has mixed the stems of all chunks.
pub proof fn law_finished_pipelined_run<T, A: Arithmetic<T>>(
    options: &ModelOptions,
    device: Device<T>,
    state: PipelinedState<T>,
    stems: Seq<StemView<T>>,
)
    requires
        !(options is FineTuned),
        state.valid::<A>(),
        state.ids == options.stem_order(),
        state.phase == PipelinedPhase::Finish,
        state.made_on(device),
        finished::<T, A>(state.ids, state.mix, stems),
    ensures
        chunks_mixed::<T, A>(options, device, state.n_samples as int, stems),
{
    assert(state.heard =~= chunk_stems(options, device, state.n_samples as int));
    assert(accumulated::<T, A>(
        options.stem_order(),
        state.n_samples as int,
        chunk_stems(options, device, state.n_samples as int),
        state.mix,
    ));
}

/// A sequential run that is over has mixed the stems of all chunks.
pub proof fn law_finished_sequential_run<T, A: Arithmetic<T>>(
    device: Device<T>,
    state: SequentialState<T>,
    stems: Seq<StemView<T>>,
)
    requires
        state.valid::<A>(),
        state.phase == SequentialPhase::Finish,
        state.made_on(device),
        finished::<T, A>(state.ids(), state.mix, stems),
    ensures
        chunks_mixed::<T, A>(&state.options, device, state.n_samples as int, stems),
{
    assert(state.heard =~= chunk_stems(&state.options, device, state.n_samples as int));
    assert(accumulated::<T, A>(
        state.options.stem_order(),
        state.n_samples as int,
        chunk_stems(&state.options, device, state.n_samples as int),
        state.mix,
    ));
}

/// The stems of the same chunks are always mixed to the same result. So a
/// pipelined and a sequential run on the same device finish with the same stems.
pub proof fn law_mixed_chunks_agree<T, A: Arithmetic<T>>(
    options: &ModelOptions,
    device: Device<T>,
    n_samples: int,
    stems: Seq<StemView<T>>,
    other: Seq<StemView<T>>,
)
    requires
        repeatable::<T, A>(),
        chunks_mixed::<T, A>(options, device, n_samples, stems),
        chunks_mixed::<T, A>(options, device, n_samples, other),
    ensures
        stems == other,
{
    let ids = options.stem_order();
    let chunks = chunk_stems(options, device, n_samples);
    let mix = choose|mix: MixView<T>| #[trigger]
        accumulated::<T, A>(ids, n_samples, chunks, mix) && finished::<T, A>(ids, mix, stems);
    let again = choose|mix: MixView<T>| #[trigger]
        accumulated::<T, A>(ids, n_samples, chunks, mix) && finished::<T, A>(ids, mix, other);
    law_mix_depends_on_additions::<T, A>(
        ids, n_samples, chunk_additions(n_samples, chunks), mix, again);
    law_stems_depend_on_mix::<T, A>(ids, mix, stems, other);
}

/// Pipelining changes when work is done, and never the result: on the same
/// device, a pipelined run finishes with the stems with which a sequential run
/// finishes.
pub proof fn law_pipelining_keeps_result<T, A: Arithmetic<T>>(
    device: Device<T>,
    pipelined: PipelinedState<T>,
    sequential: SequentialState<T>,
    stems: Seq<StemView<T>>,
    other: Seq<StemView<T>>,
)
    requires
        repeatable::<T, A>(),
        !(sequential.options is FineTuned),
        pipelined.valid::<A>(),
        sequential.valid::<A>(),
        pipelined.ids == sequential.ids(),
        pipelined.n_samples == sequential.n_samples,
        pipelined.phase == PipelinedPhase::Finish,
        sequential.phase == SequentialPhase::Finish,
        pipelined.made_on(device),
        sequential.made_on(device),
        finished::<T, A>(pipelined.ids, pipelined.mix, stems),
        finished::<T, A>(sequential.ids(), sequential.mix, other),
    ensures
        stems == other,
{
    law_finished_pipelined_run::<T, A>(&sequential.options, device, pipelined, stems);
    law_finished_sequential_run::<T, A>(device, sequential, other);
    law_mixed_chunks_agree::<T, A>(
        &sequential.options, device, sequential.n_samples as int, stems, other);
}

/// The two recordings agree on every chunk that covers sample `t`.
pub open spec fn agree_around<T>(
    left: Seq<T>,
    right: Seq<T>,
    other_left: Seq<T>,
    other_right: Seq<T>,
    n_samples: int,
    t: int,
) -> bool {
    forall|k: int, p: int|
        0 <= k < chunk_count(n_samples) && chunk_start(k) <= t < chunk_end(k, n_samples)
            && #[trigger] chunk_start(k) <= p < chunk_end(k, n_samples) ==> (#[trigger] left[p])
            == other_left[p] && right[p] == other_right[p]
}

/// A sample of a stem depends only on the chunks that cover it: two recordings
/// of the same length that agree on those come out the same at that sample.
pub proof fn law_sample_depends_on_covering_chunks<T, A: Arithmetic<T>>(
    options: &ModelOptions,
    networks: Networks<T>,
    left: Seq<T>,
    right: Seq<T>,
    other_left: Seq<T>,
    other_right: Seq<T>,
    n_samples: int,
    stems: Seq<StemView<T>>,
    others: Seq<StemView<T>>,
    row: int,
    side: Side,
    t: int,
)
    requires
        repeatable::<T, A>(),
        left.len() == n_samples,
        right.len() == n_samples,
        other_left.len() == n_samples,
        other_right.len() == n_samples,
        0 <= t < n_samples,
        agree_around(left, right, other_left, other_right, n_samples, t),
        chunks_mixed::<T, A>(options, networks.on(left, right), n_samples, stems),
        chunks_mixed::<T, A>(options, networks.on(other_left, other_right), n_samples, others),
        0 <= row < options.stem_order().len(),
    ensures
        stems[row].channel(side)[t] == others[row].channel(side)[t],
{
    let ids = options.stem_order();
    let device = networks.on(left, right);
    let other_device = networks.on(other_left, other_right);
    let chunks = chunk_stems(options, device, n_samples);
    let other_chunks = chunk_stems(options, other_device, n_samples);
    let mix = choose|mix: MixView<T>| #[trigger]
        accumulated::<T, A>(ids, n_samples, chunks, mix) && finished::<T, A>(ids, mix, stems);
    let other_mix = choose|mix: MixView<T>| #[trigger]
        accumulated::<T, A>(ids, n_samples, other_chunks, mix)
        && finished::<T, A>(ids, mix, others);
    let one = chunk_additions(n_samples, chunks);
    let other = chunk_additions(n_samples, other_chunks);
    assert forall|k: int| 0 <= k < one.len() implies agrees_at(#[trigger] one[k], other[k], t) by {
        let start = chunk_start(k);
        let end = chunk_end(k, n_samples);
        law_chunk_reaches(n_samples, k);
        if start <= t < end {
            assert forall|p: int| start <= p < end implies left[p] == other_left[p] && right[p]
                == other_right[p] by {
                assert(chunk_start(k) <= p);
            }
            assert(left.subrange(start, end) =~= other_left.subrange(start, end));
            assert(right.subrange(start, end) =~= other_right.subrange(start, end));
            assert(segment_stems(options, device, start, end) =~= segment_stems(
                options,
                other_device,
                start,
                end,
            ));
        }
    }
    law_sample_depends_on_covering_additions::<T, A>(
        ids, n_samples, one, other, mix, other_mix, stems, others, row, side, t);
}

} // verus!
