//! What calls on the run of a segment return, and what they take.

use vstd::prelude::*;

use crate::error::{DemucsError, Result};
use crate::model::{law_picked, stem_views, ModelOptions, Stem, StemId, StemView};
use crate::segment_run::{
    fresh_segment, law_segment_run_follows_steps, law_segment_steps, SegmentPhase, SegmentRun,
    SegmentState,
};
use crate::step::{are_stems, ForwardEvent, Reply, Step};

verus! {

/// A run of a segment is over exactly if it has no steps left.
pub proof fn law_segment_steps_left<T>(state: SegmentState<T>)
    requires
        state.valid(),
    ensures
        state.steps().len() == 0 <==> state.phase == SegmentPhase::Finish,
        state.steps().len() > 0 ==> state.steps()[0] == state.step(),
        state.steps().len() == 0 ==> state.step() == Step::Finish,
{
}

/// Where one network does all stems, the run of a segment enqueues one pass over
/// all of its samples, reads it back, decodes it, and tells of each stem.
pub proof fn law_fresh_segment_of_one_network<T>(
    options: &ModelOptions,
    start: usize,
    end: usize,
)
    requires
        start <= end,
        end - start <= 343980,
        !(options is FineTuned),
    ensures
        ({
            let state = fresh_segment::<T>(options, start, end);
            let count = if options is SixStem { 6int } else { 4int };
            &&& state.valid()
            &&& state.ids == options.stem_order()
            &&& state.ids.len() == count
            &&& state.start == start
            &&& state.end == end
            &&& state.stems.len() == 0
            &&& state.steps().len() == 3 + count
            &&& state.steps()[0] == (Step::Forward { model: 0, start, end })
            &&& state.steps()[1] == Step::Read
            &&& state.steps()[2] == Step::Decode
            &&& forall|i: int| 0 <= i < count ==> #[trigger] state.steps()[3 + i] == Step::Notify(
                ForwardEvent::StemDone { index: i as usize, total: count as usize },
            )
        }),
{
    let state = fresh_segment::<T>(options, start, end);
    law_segment_steps::<T>(options, start, end);
    let notices = state.stem_notices(0);
    assert forall|i: int| 0 <= i < state.ids.len() implies #[trigger] state.steps()[3 + i]
        == notices[i] by {}
    assert(state.made().take(0) =~= Seq::empty());
}

/// Where every stem has its own network, the run of a segment builds the input for
/// all of its samples once. Then it takes the selected stems one by one, in the
/// order of the model and each once: it enqueues a pass of the stem's own network,
/// extracts that stem, and tells of it.
pub proof fn law_fresh_segment_of_selection<T>(
    selected: Vec<StemId>,
    start: usize,
    end: usize,
) -> (rows: Seq<usize>)
    requires
        start <= end,
        end - start <= 343980,
    ensures
        forall|j: int, k: int| 0 <= j < k < rows.len() ==> rows[j] < rows[k],
        rows.contains(0) <==> selected@.contains(StemId::Drums),
        rows.contains(1) <==> selected@.contains(StemId::Bass),
        rows.contains(2) <==> selected@.contains(StemId::Other),
        rows.contains(3) <==> selected@.contains(StemId::Vocals),
        forall|j: int| 0 <= j < rows.len() ==> #[trigger] rows[j] < 4,
        ({
            let state = fresh_segment::<T>(&ModelOptions::FineTuned(selected), start, end);
            &&& state.valid()
            &&& state.ids.len() == 4
            &&& state.ids[0] == StemId::Drums
            &&& state.ids[1] == StemId::Bass
            &&& state.ids[2] == StemId::Other
            &&& state.ids[3] == StemId::Vocals
            &&& state.start == start
            &&& state.end == end
            &&& state.stems.len() == 0
            &&& state.picks == Some(rows)
            &&& state.steps().len() == 1 + 3 * rows.len()
            &&& state.steps()[0] == (Step::Prepare { start, end })
            &&& forall|j: int| 0 <= j < rows.len() ==> state.steps()[1 + 3 * j] == (Step::Forward {
                model: #[trigger] rows[j],
                start,
                end,
            })
            &&& forall|j: int| 0 <= j < rows.len() ==> state.steps()[2 + 3 * j] == (Step::Extract {
                stem: #[trigger] rows[j],
            })
            &&& forall|j: int| 0 <= j < rows.len() ==> state.steps()[3 + 3 * j] == Step::Notify(
                ForwardEvent::StemDone { index: #[trigger] rows[j], total: 4 },
            )
        }),
{
    let options = ModelOptions::FineTuned(selected);
    let state = fresh_segment::<T>(&options, start, end);
    let rows = state.picks->0;
    let ids = state.ids;
    law_segment_steps::<T>(&options, start, end);
    law_picked(ids, selected@, 4);
    assert(state.made().take(0) =~= Seq::empty());
    assert forall|row: usize| row < 4 implies (#[trigger] rows.contains(row)
        <==> selected@.contains(ids[row as int])) by {
        if rows.contains(row) {
            let j = choose|j: int| 0 <= j < rows.len() && rows[j] == row;
            assert(selected@.contains(ids[rows[j] as int]));
        }
    }
    assert(rows.contains(0) <==> selected@.contains(ids[0]));
    assert(rows.contains(1) <==> selected@.contains(ids[1]));
    assert(rows.contains(2) <==> selected@.contains(ids[2]));
    assert(rows.contains(3) <==> selected@.contains(ids[3]));
    let passes = state.stem_passes(0);
    assert forall|j: int| 0 <= j < rows.len() implies state.steps()[1 + 3 * j] == (Step::Forward {
        model: #[trigger] rows[j],
        start,
        end,
    }) && state.steps()[2 + 3 * j] == (Step::Extract { stem: rows[j] }) && state.steps()[3 + 3 * j]
        == Step::Notify(ForwardEvent::StemDone { index: rows[j], total: 4 }) by {
        assert(state.steps()[1 + 3 * j] == passes[3 * j]);
        assert(state.steps()[2 + 3 * j] == passes[3 * j + 1]);
        assert(state.steps()[3 + 3 * j] == passes[3 * j + 2]);
    }
    rows
}

/// A new run of a segment is at its start.
pub proof fn law_new_segment_run<T>(
    options: &ModelOptions,
    start: usize,
    end: usize,
    run: SegmentRun<T>,
)
    requires
        start <= end,
        end - start <= 343980,
        call_ensures(SegmentRun::<T>::new, (options, start, end), run),
    ensures
        call_requires(SegmentRun::<T>::new, (options, start, end)),
        run@.valid(),
        run@ == fresh_segment::<T>(options, start, end),
{
}

/// A run of a segment asks for the first of the steps that are left, and for
/// nothing more once there are none.
pub proof fn law_segment_run_step<T>(run: &SegmentRun<T>, step: Step, over: bool)
    requires
        run@.valid(),
        call_ensures(SegmentRun::<T>::step, (run,), step),
        call_ensures(SegmentRun::<T>::is_finished, (run,), over),
    ensures
        call_requires(SegmentRun::<T>::step, (run,)),
        call_requires(SegmentRun::<T>::is_finished, (run,)),
        run@.steps().len() > 0 ==> step == run@.steps()[0],
        run@.steps().len() == 0 ==> step == Step::Finish,
        over <==> run@.steps().len() == 0,
{
    law_segment_steps_left(run@);
}

/// A failure ends the run of a segment with its error and changes nothing. Any
/// other reply takes it one step on, and puts the stems that it brings behind
/// those that are there, unchanged.
pub proof fn law_segment_run_advance<T>(
    run: &mut SegmentRun<T>,
    reply: Reply<T>,
    result: Result<()>,
)
    requires
        old(run)@.valid(),
        old(run)@.steps().len() > 0,
        call_ensures(SegmentRun::<T>::advance, (run, reply), result),
    ensures
        final(run)@.valid(),
        reply matches Reply::Failed(error) ==> result == Err::<(), DemucsError>(error)
            && final(run)@ == old(run)@,
        !(reply is Failed) ==> {
            &&& result is Ok
            &&& final(run)@.ids == old(run)@.ids
            &&& final(run)@.picks == old(run)@.picks
            &&& final(run)@.start == old(run)@.start
            &&& final(run)@.end == old(run)@.end
            &&& final(run)@.steps() == old(run)@.steps().drop_first()
        },
        reply matches Reply::Stems(brought) ==> final(run)@.stems == old(run)@.stems + Seq::new(
            brought@.len(),
            |i: int|
                StemView { id: brought@[i].id, left: brought@[i].left@, right: brought@[i].right@ },
        ),
        !(reply is Failed) && !(reply is Stems) ==> final(run)@.stems == old(run)@.stems,
{
    let before = old(run)@;
    law_segment_steps_left(before);
    if !(reply is Failed) {
        law_segment_run_follows_steps(before, reply.stems());
        assert(before.steps().drop_first() =~= before.next(reply.stems()).steps());
        if let Reply::Stems(brought) = reply {
            assert(reply.stems() =~= Seq::new(
                brought@.len(),
                |i: int|
                    StemView {
                        id: brought@[i].id,
                        left: brought@[i].left@,
                        right: brought@[i].right@,
                    },
            ));
        } else {
            assert(before.stems + Seq::<StemView<T>>::empty() =~= before.stems);
        }
    }
}

/// A run of a segment expects what can come of its steps: word that a step is done
/// or, where something was to be computed, that it failed; all stems of the model
/// where all were to be decoded; and the one that was to be extracted. Every stem
/// is as long as the segment.
pub proof fn law_segment_replies<T>(state: SegmentState<T>, reply: Reply<T>)
    requires
        state.valid(),
        state.steps().len() > 0,
        match state.steps()[0] {
            Step::Notify(_) => reply is Done,
            Step::Prepare { .. } => reply is Done || reply is Failed,
            Step::Forward { .. } => reply is Done || reply is Failed,
            Step::Read => reply is Done || reply is Failed,
            Step::Decode => reply is Failed || (reply is Stems && reply->Stems_0@.len()
                == state.ids.len() && (forall|i: int|
                0 <= i < state.ids.len() ==> (#[trigger] reply->Stems_0@[i]).id == state.ids[i]
                    && reply->Stems_0@[i].left@.len() == state.end - state.start
                    && reply->Stems_0@[i].right@.len() == state.end - state.start)),
            Step::Extract { stem } => reply is Failed || (reply is Stems && reply->Stems_0@.len()
                == 1 && reply->Stems_0@[0].id == state.ids[stem as int]
                && reply->Stems_0@[0].left@.len() == state.end - state.start
                && reply->Stems_0@[0].right@.len() == state.end - state.start),
            _ => false,
        },
    ensures
        reply.answers(state.step(), state.ids, state.end - state.start),
{
    law_segment_steps_left(state);
    let length = state.end - state.start;
    if reply is Stems {
        let views = stem_views(reply->Stems_0@);
        assert(reply.stems() == views);
        if state.step() == Step::Decode {
            assert forall|i: int| 0 <= i < state.ids.len() implies (#[trigger] views[i]).id
                == state.ids[i] && views[i].left.len() == length && views[i].right.len()
                == length by {
                assert(reply->Stems_0@[i].id == state.ids[i]);
            }
            assert(are_stems(views, state.ids, length));
        }
    }
    assert(reply.answers(state.step(), state.ids, length));
}

/// A run of a segment takes every reply that it expects.
pub proof fn law_segment_run_takes_replies<T>(run: &mut SegmentRun<T>, reply: Reply<T>)
    requires
        old(run)@.valid(),
        reply.answers(old(run)@.step(), old(run)@.ids, old(run)@.end - old(run)@.start),
    ensures
        call_requires(SegmentRun::<T>::advance, (run, reply)),
{
}

/// A run of a segment with no steps left gives the stems that it was brought, in
/// the order in which they came.
pub proof fn law_segment_run_finish<T>(run: SegmentRun<T>, stems: Vec<Stem<T>>, i: int)
    requires
        run@.valid(),
        run@.steps().len() == 0,
        call_ensures(SegmentRun::<T>::finish, (run,), stems),
    ensures
        call_requires(SegmentRun::<T>::finish, (run,)),
        stems@.len() == run@.stems.len(),
        0 <= i < stems@.len() ==> stems@[i].id == run@.stems[i].id && stems@[i].left@
            == run@.stems[i].left && stems@[i].right@ == run@.stems[i].right,
        0 <= i < stems@.len() ==> stems@[i].left@.len() == run@.end - run@.start
            && stems@[i].right@.len() == run@.end - run@.start,
        run@.picks is None ==> stems@.len() == run@.ids.len(),
        run@.picks is None && 0 <= i < stems@.len() ==> stems@[i].id == run@.ids[i],
        run@.picks matches Some(rows) ==> stems@.len() == rows.len(),
        run@.picks matches Some(rows) ==> 0 <= i < stems@.len() ==> stems@[i].id
            == run@.ids[rows[i] as int],
{
    law_segment_steps_left(run@);
    assert(run@.made().take(run@.stem_count()) =~= run@.made());
    let views = stem_views(stems@);
    assert(views.len() == stems@.len());
    if 0 <= i < stems@.len() {
        assert(views[i] == run@.stems[i]);
    }
}

} // verus!
