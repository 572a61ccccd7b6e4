//! What a run puts out depends on the chunks alone, as long as the arithmetic
//! gives the same result on the same operands.

use vstd::prelude::*;

use crate::arithmetic::{counts, products, repeatable, sums, Arithmetic};
use crate::model::{is_row, Side, StemId, StemView};
use crate::overlap::{
    blended, chunk_additions, finished, finished_row, gathered, is_silence, is_window,
    law_gathered_shape, mixed_in, normalized, ramps, weighted, Addition, MixView,
};
use crate::pipelined_run::{PipelinedPhase, PipelinedState};
use crate::sequential_run::{SequentialPhase, SequentialState};

verus! {

proof fn lemma_ramps_agree<T, A: Arithmetic<T>>(
    one: T,
    two: T,
    last: T,
    i: usize,
    weight: T,
    other: T,
)
    requires
        repeatable::<T, A>(),
        ramps::<T, A>(one, two, last, i, weight),
        ramps::<T, A>(one, two, last, i, other),
    ensures
        weight == other,
{
}

pub(crate) proof fn lemma_windows_agree<T, A: Arithmetic<T>>(
    length: int,
    window: Seq<T>,
    other: Seq<T>,
)
    requires
        repeatable::<T, A>(),
        is_window::<T, A>(length, window),
        is_window::<T, A>(length, other),
    ensures
        window == other,
{
    assert forall|i: int| 0 <= i < length implies window[i] == other[i] by {
        if length <= 1 {
            assert(counts::<T, A>(1, window[i]));
            assert(counts::<T, A>(1, other[i]));
        } else {
            let (one, two, last) = choose|one: T, two: T, last: T| #![trigger
                counts::<T, A>(1, one),
                counts::<T, A>(2, two),
                counts::<T, A>((length - 1) as usize, last)]
                counts::<T, A>(1, one)
                && counts::<T, A>(2, two)
                && counts::<T, A>((length - 1) as usize, last)
                && (forall|i: int| 0 <= i < length ==>
                    ramps::<T, A>(one, two, last, i as usize, #[trigger] window[i]));
            assert(ramps::<T, A>(one, two, last, i as usize, window[i]));
            assert(ramps::<T, A>(one, two, last, i as usize, other[i]));
            lemma_ramps_agree::<T, A>(one, two, last, i as usize, window[i], other[i]);
        }
    }
    assert(window =~= other);
}

proof fn lemma_blends_agree<T, A: Arithmetic<T>>(
    before: T,
    weight: T,
    ids: Seq<StemId>,
    stems: Seq<StemView<T>>,
    row: int,
    side: Side,
    i: int,
    after: T,
    other: T,
)
    requires
        repeatable::<T, A>(),
        blended::<T, A>(before, weight, ids, stems, row, side, i, after),
        blended::<T, A>(before, weight, ids, stems, row, side, i, other),
    ensures
        after == other,
    decreases stems.len(),
{
    if stems.len() > 0 {
        let earlier = stems.drop_last();
        if is_row(ids, stems.last().id, row) {
            let sample = stems.last().channel(side)[i];
            let x = choose|x: T|
                blended::<T, A>(before, weight, ids, earlier, row, side, i, x)
                && #[trigger] weighted::<T, A>(x, weight, sample, after);
            let y = choose|y: T|
                blended::<T, A>(before, weight, ids, earlier, row, side, i, y)
                && #[trigger] weighted::<T, A>(y, weight, sample, other);
            lemma_blends_agree::<T, A>(before, weight, ids, earlier, row, side, i, x, y);
            let p = choose|p: T|
                products::<T, A>(weight, sample, p) && #[trigger] sums::<T, A>(x, p, after);
            let q = choose|q: T|
                products::<T, A>(weight, sample, q) && #[trigger] sums::<T, A>(y, q, other);
            assert(p == q);
        } else {
            lemma_blends_agree::<T, A>(before, weight, ids, earlier, row, side, i, after, other);
        }
    }
}

pub(crate) proof fn lemma_equal_mixes<T>(
    mix: MixView<T>,
    other: MixView<T>,
    rows: int,
    n_samples: int,
)
    requires
        mix.shaped(rows, n_samples),
        other.shaped(rows, n_samples),
        forall|side: Side, row: int, p: int| 0 <= row < rows && 0 <= p < n_samples ==>
            #[trigger] mix.rows(side)[row][p] == other.rows(side)[row][p],
        forall|p: int| 0 <= p < n_samples ==> #[trigger] mix.weight[p] == other.weight[p],
    ensures
        mix == other,
{
    assert forall|side: Side| #[trigger] mix.rows(side) == other.rows(side) by {
        assert forall|row: int| 0 <= row < rows implies
            #[trigger] mix.rows(side)[row] == other.rows(side)[row] by {
            assert(mix.rows(side)[row].len() == n_samples);
            assert(other.rows(side)[row].len() == n_samples);
            assert forall|p: int| 0 <= p < n_samples implies
                mix.rows(side)[row][p] == other.rows(side)[row][p] by {}
            assert(mix.rows(side)[row] =~= other.rows(side)[row]);
        }
        assert(mix.rows(side) =~= other.rows(side));
    }
    assert(mix.left == mix.rows(Side::Left));
    assert(mix.right == mix.rows(Side::Right));
    assert(other.left == other.rows(Side::Left));
    assert(other.right == other.rows(Side::Right));
    assert(mix.weight =~= other.weight);
}

pub(crate) proof fn lemma_silences_agree<T, A: Arithmetic<T>>(
    mix: MixView<T>,
    other: MixView<T>,
    rows: int,
    n_samples: int,
)
    requires
        repeatable::<T, A>(),
        is_silence::<T, A>(mix, rows, n_samples),
        is_silence::<T, A>(other, rows, n_samples),
    ensures
        mix == other,
{
    let zero = choose|zero: T| #[trigger] counts::<T, A>(0, zero) && mix.filled(zero);
    let also = choose|zero: T| #[trigger] counts::<T, A>(0, zero) && other.filled(zero);
    assert(zero == also);
    assert forall|side: Side, row: int, p: int| 0 <= row < rows && 0 <= p < n_samples implies
        #[trigger] mix.rows(side)[row][p] == other.rows(side)[row][p] by {
        assert(mix.rows(side)[row].len() == n_samples);
        assert(other.rows(side)[row].len() == n_samples);
        assert(other.rows(side)[row][p] == also);
    }
    lemma_equal_mixes(mix, other, rows, n_samples);
}

/// The same additions always gather to the same mix.
pub proof fn law_mix_depends_on_additions<T, A: Arithmetic<T>>(
    ids: Seq<StemId>,
    n_samples: int,
    additions: Seq<Addition<T>>,
    mix: MixView<T>,
    other: MixView<T>,
)
    requires
        repeatable::<T, A>(),
        gathered::<T, A>(ids, n_samples, additions, mix),
        gathered::<T, A>(ids, n_samples, additions, other),
    ensures
        mix == other,
    decreases additions.len(),
{
    law_gathered_shape::<T, A>(ids, n_samples, additions, mix);
    law_gathered_shape::<T, A>(ids, n_samples, additions, other);
    if additions.len() == 0 {
        lemma_silences_agree::<T, A>(mix, other, ids.len() as int, n_samples);
    } else {
        let last = additions.last();
        let earlier = additions.drop_last();
        let start = last.start;
        let (prior, window) = choose|prior: MixView<T>, window: Seq<T>|
            gathered::<T, A>(ids, n_samples, earlier, prior)
            && is_window::<T, A>(last.length, window)
            && #[trigger] mixed_in::<T, A>(prior, ids, last.stems, start, window, mix);
        let (past, frame) = choose|past: MixView<T>, frame: Seq<T>|
            gathered::<T, A>(ids, n_samples, earlier, past)
            && is_window::<T, A>(last.length, frame)
            && #[trigger] mixed_in::<T, A>(past, ids, last.stems, start, frame, other);
        law_mix_depends_on_additions::<T, A>(ids, n_samples, earlier, prior, past);
        lemma_windows_agree::<T, A>(last.length, window, frame);
        law_gathered_shape::<T, A>(ids, n_samples, earlier, prior);
        assert(prior.rows(Side::Left).len() == ids.len());
        assert forall|side: Side, row: int, p: int| 0 <= row < ids.len() && 0 <= p
            < n_samples implies #[trigger] mix.rows(side)[row][p] == other.rows(side)[row][p] by {
            let here = mix.rows(side)[row][p];
            let there = other.rows(side)[row][p];
            if start <= p < start + window.len() {
                lemma_blends_agree::<T, A>(
                    prior.rows(side)[row][p], window[p - start], ids, last.stems, row, side,
                    p - start, here, there);
            }
        }
        assert forall|p: int| 0 <= p < n_samples implies
            #[trigger] mix.weight[p] == other.weight[p] by {
            if start <= p < start + window.len() {
                assert(sums::<T, A>(prior.weight[p], window[p - start], mix.weight[p]));
                assert(sums::<T, A>(prior.weight[p], window[p - start], other.weight[p]));
            } else {
                assert(mix.weight[p] == prior.weight[p]);
                assert(other.weight[p] == prior.weight[p]);
            }
        }
        lemma_equal_mixes(mix, other, ids.len() as int, n_samples);
    }
}

/// The same mix is always finished to the same stems.
pub proof fn law_stems_depend_on_mix<T, A: Arithmetic<T>>(
    ids: Seq<StemId>,
    mix: MixView<T>,
    stems: Seq<StemView<T>>,
    other: Seq<StemView<T>>,
)
    requires
        repeatable::<T, A>(),
        finished::<T, A>(ids, mix, stems),
        finished::<T, A>(ids, mix, other),
    ensures
        stems == other,
{
    assert forall|row: int| 0 <= row < ids.len() implies stems[row] == other[row] by {
        let one = stems[row];
        let two = other[row];
        assert(finished_row::<T, A>(mix, row, one));
        assert(finished_row::<T, A>(mix, row, two));
        assert forall|p: int| 0 <= p < mix.weight.len() implies one.left[p] == two.left[p]
            && one.right[p] == two.right[p] by {
            let w = mix.weight[p];
            let l = mix.left[row][p];
            let r = mix.right[row][p];
            assert(normalized::<T, A>(w, l, r, one.left[p], one.right[p]));
            assert(normalized::<T, A>(w, l, r, two.left[p], two.right[p]));
        }
        assert(one.left =~= two.left);
        assert(one.right =~= two.right);
    }
    assert(stems =~= other);
}

/// What is gathered for a sample depends only on the additions that cover it.
proof fn lemma_sample_depends_on_covering_additions<T, A: Arithmetic<T>>(
    ids: Seq<StemId>,
    n_samples: int,
    additions: Seq<Addition<T>>,
    others: Seq<Addition<T>>,
    mix: MixView<T>,
    other_mix: MixView<T>,
    row: int,
    side: Side,
    t: int,
)
    requires
        repeatable::<T, A>(),
        gathered::<T, A>(ids, n_samples, additions, mix),
        gathered::<T, A>(ids, n_samples, others, other_mix),
        additions_agree_at(additions, others, t),
        0 <= row < ids.len(),
        0 <= t < n_samples,
    ensures
        mix.weight[t] == other_mix.weight[t],
        mix.rows(side)[row][t] == other_mix.rows(side)[row][t],
    decreases additions.len(),
{
    law_gathered_shape::<T, A>(ids, n_samples, additions, mix);
    law_gathered_shape::<T, A>(ids, n_samples, others, other_mix);
    if additions.len() == 0 {
        lemma_silences_agree::<T, A>(mix, other_mix, ids.len() as int, n_samples);
    } else {
        let last = additions.last();
        let other_last = others.last();
        let earlier = additions.drop_last();
        let other_earlier = others.drop_last();
        let start = last.start;
        assert(additions[additions.len() - 1] == last);
        assert forall|k: int| 0 <= k < earlier.len() implies
            agrees_at(#[trigger] earlier[k], other_earlier[k], t) by {
            assert(additions[k] == earlier[k]);
        }
        let (prior, window) = choose|prior: MixView<T>, window: Seq<T>|
            gathered::<T, A>(ids, n_samples, earlier, prior)
            && is_window::<T, A>(last.length, window)
            && #[trigger] mixed_in::<T, A>(prior, ids, last.stems, start, window, mix);
        let (past, frame) = choose|past: MixView<T>, frame: Seq<T>|
            gathered::<T, A>(ids, n_samples, other_earlier, past)
            && is_window::<T, A>(other_last.length, frame)
            && #[trigger] mixed_in::<T, A>(
                past, ids, other_last.stems, other_last.start, frame, other_mix);
        lemma_sample_depends_on_covering_additions::<T, A>(
            ids, n_samples, earlier, other_earlier, prior, past, row, side, t);
        lemma_windows_agree::<T, A>(last.length, window, frame);
        law_gathered_shape::<T, A>(ids, n_samples, earlier, prior);
        law_gathered_shape::<T, A>(ids, n_samples, other_earlier, past);
        assert(prior.rows(Side::Left).len() == ids.len());
        assert(past.rows(Side::Left).len() == ids.len());
        let here = mix.rows(side)[row][t];
        let there = other_mix.rows(side)[row][t];
        if start <= t < start + window.len() {
            lemma_blends_agree::<T, A>(
                prior.rows(side)[row][t], window[t - start], ids, last.stems, row, side,
                t - start, here, there);
            assert(sums::<T, A>(prior.weight[t], window[t - start], mix.weight[t]));
            assert(sums::<T, A>(past.weight[t], window[t - start], other_mix.weight[t]));
        } else {
            assert(here == prior.rows(side)[row][t]);
            assert(there == past.rows(side)[row][t]);
            assert(mix.weight[t] == prior.weight[t]);
            assert(other_mix.weight[t] == past.weight[t]);
        }
    }
}

/// The additions cover the same samples, and add the same stems if sample `t` is
/// one of those.
pub open spec fn agrees_at<T>(one: Addition<T>, other: Addition<T>, t: int) -> bool {
    &&& one.start == other.start
    &&& one.length == other.length
    &&& one.start <= t < one.start + one.length ==> one.stems == other.stems
}

/// The additions agree one by one at sample `t`.
pub open spec fn additions_agree_at<T>(
    additions: Seq<Addition<T>>,
    others: Seq<Addition<T>>,
    t: int,
) -> bool {
    &&& additions.len() == others.len()
    &&& forall|k: int| 0 <= k < additions.len() ==>
        agrees_at(#[trigger] additions[k], others[k], t)
}

/// A finished sample depends only on the additions that cover it: where those
/// agree, whatever the others hold, the same comes out.
pub proof fn law_sample_depends_on_covering_additions<T, A: Arithmetic<T>>(
    ids: Seq<StemId>,
    n_samples: int,
    additions: Seq<Addition<T>>,
    others: Seq<Addition<T>>,
    mix: MixView<T>,
    other_mix: MixView<T>,
    stems: Seq<StemView<T>>,
    other_stems: Seq<StemView<T>>,
    row: int,
    side: Side,
    t: int,
)
    requires
        repeatable::<T, A>(),
        gathered::<T, A>(ids, n_samples, additions, mix),
        gathered::<T, A>(ids, n_samples, others, other_mix),
        finished::<T, A>(ids, mix, stems),
        finished::<T, A>(ids, other_mix, other_stems),
        additions_agree_at(additions, others, t),
        0 <= row < ids.len(),
        0 <= t < n_samples,
    ensures
        stems[row].channel(side)[t] == other_stems[row].channel(side)[t],
{
    law_gathered_shape::<T, A>(ids, n_samples, additions, mix);
    law_gathered_shape::<T, A>(ids, n_samples, others, other_mix);
    lemma_sample_depends_on_covering_additions::<T, A>(
        ids, n_samples, additions, others, mix, other_mix, row, Side::Left, t);
    lemma_sample_depends_on_covering_additions::<T, A>(
        ids, n_samples, additions, others, mix, other_mix, row, Side::Right, t);
    let one = stems[row];
    let two = other_stems[row];
    let weight = mix.weight[t];
    let left = mix.left[row][t];
    let right = mix.right[row][t];
    assert(finished_row::<T, A>(mix, row, one));
    assert(finished_row::<T, A>(other_mix, row, two));
    assert(left == mix.rows(Side::Left)[row][t]);
    assert(right == mix.rows(Side::Right)[row][t]);
    assert(other_mix.left[row][t] == left && other_mix.right[row][t] == right);
    assert(normalized::<T, A>(weight, left, right, one.left[t], one.right[t]));
    assert(normalized::<T, A>(
        other_mix.weight[t], other_mix.left[row][t], other_mix.right[row][t], two.left[t],
        two.right[t]));
}

/// Pipelining changes when the chunks are worked on, and not what comes out: a
/// pipelined and a sequential run that heard the same chunks finish with the
/// same stems.
pub proof fn law_pipelining_keeps_output<T, A: Arithmetic<T>>(
    pipelined: PipelinedState<T>,
    sequential: SequentialState<T>,
    stems: Seq<StemView<T>>,
    other: Seq<StemView<T>>,
)
    requires
        repeatable::<T, A>(),
        pipelined.valid::<A>(),
        sequential.valid::<A>(),
        pipelined.phase == PipelinedPhase::Finish,
        sequential.phase == SequentialPhase::Finish,
        pipelined.ids == sequential.ids(),
        pipelined.n_samples == sequential.n_samples,
        pipelined.heard == sequential.heard,
        finished::<T, A>(pipelined.ids, pipelined.mix, stems),
        finished::<T, A>(sequential.ids(), sequential.mix, other),
    ensures
        stems == other,
{
    law_mix_depends_on_additions::<T, A>(
        pipelined.ids, pipelined.n_samples as int,
        chunk_additions(pipelined.n_samples as int, pipelined.heard), pipelined.mix,
        sequential.mix);
    law_stems_depend_on_mix::<T, A>(pipelined.ids, pipelined.mix, stems, other);
}

} // verus!
