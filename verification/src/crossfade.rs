//! What overlap-add computes when the arithmetic is exact.
//!
//! With real numbers for samples, a finished sample is the average of what the
//! chunks over it hold, weighted by how close to its center each chunk has it.
//! Machine arithmetic rounds, and these laws say nothing of how far.

use vstd::prelude::*;

use crate::arithmetic::{
    counts, differences, exact, magnitudes, positives, products, quotients, real_abs, sums,
    Arithmetic,
};
use crate::chunk::{
    chunk_count, chunk_end, chunk_len, chunk_start, law_chunk_reaches, law_chunks_cover,
};
use crate::model::{is_row, Side, StemId, StemView};
use crate::overlap::{
    accumulated, additions_lie_within, blended, chunk_additions, finished, finished_row, gathered,
    is_window, law_gathered_shape, lies_within, mixed_in, normalized, ramps, row_unheard, weighted,
    Addition, MixView,
};

verus! {

/// The height of a triangle over the samples `0` to `length - 1` at sample `i`.
pub open spec fn triangle(length: int, i: int) -> real {
    if length <= 1 {
        1 as real
    } else {
        1 as real - real_abs((2 * i) as real / (length - 1) as real - 1 as real)
    }
}

/// The window is the triangle.
pub proof fn law_window_is_triangle<T, A: Arithmetic<T>>(
    value: spec_fn(T) -> real,
    length: int,
    window: Seq<T>,
    i: int,
)
    requires
        exact::<T, A>(value),
        length <= usize::MAX,
        is_window::<T, A>(length, window),
        0 <= i < length,
    ensures
        value(window[i]) == triangle(length, i),
{
    if length <= 1 {
        assert(counts::<T, A>(1, window[i]));
    } else {
        let (one, two, last) = choose|one: T, two: T, last: T| #![trigger
            counts::<T, A>(1, one),
            counts::<T, A>(2, two),
            counts::<T, A>((length - 1) as usize, last)]
            counts::<T, A>(1, one)
            && counts::<T, A>(2, two)
            && counts::<T, A>((length - 1) as usize, last)
            && (forall|i: int| 0 <= i < length ==>
                ramps::<T, A>(one, two, last, i as usize, #[trigger] window[i]));
        assert(ramps::<T, A>(one, two, last, i as usize, window[i]));
        let n = i as usize;
        let (position, doubled, ratio, offset, distance) =
            choose|position: T, doubled: T, ratio: T, offset: T, distance: T| #![trigger
            counts::<T, A>(n, position),
            products::<T, A>(two, position, doubled),
            quotients::<T, A>(doubled, last, ratio),
            differences::<T, A>(ratio, one, offset),
            magnitudes::<T, A>(offset, distance)]
            counts::<T, A>(n, position)
            && products::<T, A>(two, position, doubled)
            && quotients::<T, A>(doubled, last, ratio)
            && differences::<T, A>(ratio, one, offset)
            && magnitudes::<T, A>(offset, distance)
            && differences::<T, A>(one, distance, window[i]);
        assert(value(last) == (length - 1) as real);
        assert(value(doubled) == (2 * i) as real) by (nonlinear_arith)
            requires
                value(doubled) == value(two) * value(position),
                value(two) == 2 as real,
                value(position) == i as real,
        ;
    }
}

/// On the rising side the triangle climbs in equal steps of `2 / (length - 1)`,
/// and on the falling side it goes back down the same way.
proof fn lemma_triangle_steps(length: int, i: int)
    requires
        2 <= length,
        0 <= i < length,
    ensures
        2 * i <= length - 1 ==> triangle(length, i) == (2 * i) as real / (length - 1) as real,
        2 * i >= length - 1 ==> triangle(length, i) == (2 * (length - 1 - i)) as real / (length
            - 1) as real,
{
    let d = (length - 1) as real;
    let x = (2 * i) as real;
    let y = (2 * (length - 1 - i)) as real;
    assert(y == 2 as real * d - x);
    assert(d > 0 as real);
    assert(x <= d ==> x / d <= 1 as real) by (nonlinear_arith) requires d > 0 as real;
    assert(x >= d ==> x / d >= 1 as real) by (nonlinear_arith) requires d > 0 as real;
    assert(y / d == 2 as real - x / d) by (nonlinear_arith)
        requires
            d > 0 as real,
            y == 2 as real * d - x,
    ;
}

/// The triangle ramps linearly, in equal steps and on both sides alike, from 0
/// at the edges to its center, where it comes to 1 if there is a sample there.
pub proof fn law_triangle(length: int, i: int)
    requires
        2 <= length,
        0 <= i < length,
    ensures
        triangle(length, 0) == 0 as real,
        triangle(length, length - 1) == 0 as real,
        0 as real <= triangle(length, i) <= 1 as real,
        0 < i < length - 1 ==> triangle(length, i) > 0 as real,
        triangle(length, i) == triangle(length, length - 1 - i),
        2 * i <= length - 1 ==> triangle(length, i) == (2 * i) as real / (length - 1) as real,
        2 * i == length - 1 ==> triangle(length, i) == 1 as real,
{
    let d = (length - 1) as real;
    lemma_triangle_steps(length, i);
    lemma_triangle_steps(length, length - 1 - i);
    lemma_triangle_steps(length, 0);
    lemma_triangle_steps(length, length - 1);
    let low = if 2 * i <= length - 1 {
        (2 * i) as real
    } else {
        (2 * (length - 1 - i)) as real
    };
    assert(0 as real <= low <= d);
    assert(0 as real <= low / d <= 1 as real) by (nonlinear_arith)
        requires
            d > 0 as real,
            0 as real <= low <= d,
    ;
    assert(low > 0 as real ==> low / d > 0 as real) by (nonlinear_arith) requires d > 0 as real;
    assert(low == d ==> low / d == 1 as real) by (nonlinear_arith) requires d > 0 as real;
    assert(0 as real / d == 0 as real) by (nonlinear_arith) requires d > 0 as real;
}

/// How much an addition counts for sample `p`.
pub open spec fn addition_weight<T>(addition: Addition<T>, p: int) -> real {
    if addition.start <= p < addition.start + addition.length {
        triangle(addition.length, p - addition.start)
    } else {
        0 as real
    }
}

/// How much the additions count for sample `p`, taken together.
pub open spec fn gathered_weight<T>(additions: Seq<Addition<T>>, p: int) -> real
    decreases additions.len(),
{
    if additions.len() == 0 {
        0 as real
    } else {
        gathered_weight(additions.drop_last(), p) + addition_weight(additions.last(), p)
    }
}

/// What the stems of row `row` hold at sample `i` on one side, taken together.
pub open spec fn row_sum<T>(
    value: spec_fn(T) -> real,
    ids: Seq<StemId>,
    stems: Seq<StemView<T>>,
    row: int,
    side: Side,
    i: int,
) -> real
    decreases stems.len(),
{
    if stems.len() == 0 {
        0 as real
    } else if is_row(ids, stems.last().id, row) {
        row_sum(value, ids, stems.drop_last(), row, side, i) + value(
            stems.last().channel(side)[i],
        )
    } else {
        row_sum(value, ids, stems.drop_last(), row, side, i)
    }
}

/// What the additions hold for sample `p` of row `row`, each times its weight,
/// taken together.
pub open spec fn gathered_signal<T>(
    value: spec_fn(T) -> real,
    ids: Seq<StemId>,
    additions: Seq<Addition<T>>,
    row: int,
    side: Side,
    p: int,
) -> real
    decreases additions.len(),
{
    if additions.len() == 0 {
        0 as real
    } else {
        let last = additions.last();
        gathered_signal(value, ids, additions.drop_last(), row, side, p) + addition_weight(last, p)
            * row_sum(value, ids, last.stems, row, side, p - last.start)
    }
}

proof fn lemma_blended_value<T, A: Arithmetic<T>>(
    value: spec_fn(T) -> real,
    before: T,
    weight: T,
    ids: Seq<StemId>,
    stems: Seq<StemView<T>>,
    row: int,
    side: Side,
    i: int,
    after: T,
)
    requires
        exact::<T, A>(value),
        blended::<T, A>(before, weight, ids, stems, row, side, i, after),
    ensures
        value(after) == value(before) + value(weight) * row_sum(value, ids, stems, row, side, i),
    decreases stems.len(),
{
    let w = value(weight);
    if stems.len() == 0 {
        assert(w * 0 as real == 0 as real) by (nonlinear_arith);
    } else if is_row(ids, stems.last().id, row) {
        let sample = stems.last().channel(side)[i];
        let between = choose|between: T|
            blended::<T, A>(before, weight, ids, stems.drop_last(), row, side, i, between)
            && #[trigger] weighted::<T, A>(between, weight, sample, after);
        lemma_blended_value::<T, A>(
            value, before, weight, ids, stems.drop_last(), row, side, i, between);
        assert(weighted::<T, A>(between, weight, sample, after));
        let scaled = choose|scaled: T|
            products::<T, A>(weight, sample, scaled)
            && #[trigger] sums::<T, A>(between, scaled, after);
        let a = row_sum(value, ids, stems.drop_last(), row, side, i);
        let b = value(sample);
        assert(w * (a + b) == w * a + w * b) by (nonlinear_arith);
    } else {
        lemma_blended_value::<T, A>(
            value, before, weight, ids, stems.drop_last(), row, side, i, after);
    }
}

/// Adding stems puts what they hold, times their weight, on top of a sample, and
/// their weight on top of its weight.
pub proof fn law_mixed_in_value<T, A: Arithmetic<T>>(
    value: spec_fn(T) -> real,
    before: MixView<T>,
    ids: Seq<StemId>,
    addition: Addition<T>,
    window: Seq<T>,
    after: MixView<T>,
    row: int,
    side: Side,
    p: int,
)
    requires
        exact::<T, A>(value),
        is_window::<T, A>(addition.length, window),
        mixed_in::<T, A>(before, ids, addition.stems, addition.start, window, after),
        addition.length <= usize::MAX,
        0 <= row < before.left.len(),
        0 <= p < before.weight.len(),
    ensures
        value(after.weight[p]) == value(before.weight[p]) + addition_weight(addition, p),
        value(after.rows(side)[row][p]) == value(before.rows(side)[row][p]) + addition_weight(
            addition,
            p,
        ) * row_sum(value, ids, addition.stems, row, side, p - addition.start),
{
    let start = addition.start;
    let old_sample = before.rows(side)[row][p];
    let new_sample = after.rows(side)[row][p];
    let held = row_sum(value, ids, addition.stems, row, side, p - start);
    if start <= p < start + window.len() {
        law_window_is_triangle::<T, A>(value, addition.length, window, p - start);
        lemma_blended_value::<T, A>(
            value, old_sample, window[p - start], ids, addition.stems, row, side, p - start,
            new_sample);
        assert(sums::<T, A>(before.weight[p], window[p - start], after.weight[p]));
    } else {
        assert(0 as real * held == 0 as real) by (nonlinear_arith);
        assert(after.weight[p] == before.weight[p]);
    }
}

/// The order of two additions does not matter, whatever the mix they go into:
/// every sample and every weight comes out the same.
pub proof fn law_additions_commute<T, A: Arithmetic<T>>(
    value: spec_fn(T) -> real,
    before: MixView<T>,
    ids: Seq<StemId>,
    one: Addition<T>,
    one_window: Seq<T>,
    after_one: MixView<T>,
    other: Addition<T>,
    other_window: Seq<T>,
    one_other: MixView<T>,
    first_window: Seq<T>,
    after_other: MixView<T>,
    second_window: Seq<T>,
    other_one: MixView<T>,
    row: int,
    side: Side,
    p: int,
)
    requires
        exact::<T, A>(value),
        before.shaped(before.left.len() as int, before.weight.len() as int),
        one.length <= usize::MAX,
        other.length <= usize::MAX,
        is_window::<T, A>(one.length, one_window),
        mixed_in::<T, A>(before, ids, one.stems, one.start, one_window, after_one),
        is_window::<T, A>(other.length, other_window),
        mixed_in::<T, A>(after_one, ids, other.stems, other.start, other_window, one_other),
        is_window::<T, A>(other.length, first_window),
        mixed_in::<T, A>(before, ids, other.stems, other.start, first_window, after_other),
        is_window::<T, A>(one.length, second_window),
        mixed_in::<T, A>(after_other, ids, one.stems, one.start, second_window, other_one),
        0 <= row < before.left.len(),
        0 <= p < before.weight.len(),
    ensures
        value(one_other.weight[p]) == value(other_one.weight[p]),
        value(one_other.rows(side)[row][p]) == value(other_one.rows(side)[row][p]),
{
    assert(after_one.rows(Side::Left).len() == before.left.len());
    assert(after_other.rows(Side::Left).len() == before.left.len());
    law_mixed_in_value::<T, A>(value, before, ids, one, one_window, after_one, row, side, p);
    law_mixed_in_value::<T, A>(
        value, after_one, ids, other, other_window, one_other, row, side, p);
    law_mixed_in_value::<T, A>(value, before, ids, other, first_window, after_other, row, side, p);
    law_mixed_in_value::<T, A>(
        value, after_other, ids, one, second_window, other_one, row, side, p);
}

/// What has been gathered for a sample is the weighted sum of what the additions
/// hold for it, and its weight is the sum of theirs.
pub proof fn law_gathered_value<T, A: Arithmetic<T>>(
    value: spec_fn(T) -> real,
    ids: Seq<StemId>,
    n_samples: int,
    additions: Seq<Addition<T>>,
    mix: MixView<T>,
    row: int,
    side: Side,
    p: int,
)
    requires
        exact::<T, A>(value),
        gathered::<T, A>(ids, n_samples, additions, mix),
        additions_lie_within(additions, n_samples),
        0 <= row < ids.len(),
        0 <= p < n_samples <= usize::MAX,
    ensures
        value(mix.weight[p]) == gathered_weight(additions, p),
        value(mix.rows(side)[row][p]) == gathered_signal(value, ids, additions, row, side, p),
    decreases additions.len(),
{
    law_gathered_shape::<T, A>(ids, n_samples, additions, mix);
    if additions.len() == 0 {
        let zero = choose|zero: T| #[trigger] counts::<T, A>(0, zero) && mix.filled(zero);
        assert(mix.rows(side)[row].len() == n_samples);
        assert(mix.rows(side)[row][p] == zero);
        assert(mix.weight[p] == zero);
    } else {
        let last = additions.last();
        let earlier = additions.drop_last();
        let (prior, window) = choose|prior: MixView<T>, window: Seq<T>|
            gathered::<T, A>(ids, n_samples, earlier, prior)
            && is_window::<T, A>(last.length, window)
            && #[trigger] mixed_in::<T, A>(prior, ids, last.stems, last.start, window, mix);
        assert(additions[additions.len() - 1] == last);
        assert forall|k: int| 0 <= k < earlier.len() implies
            lies_within(#[trigger] earlier[k], n_samples) by {
            assert(earlier[k] == additions[k]);
        }
        law_gathered_value::<T, A>(value, ids, n_samples, earlier, prior, row, side, p);
        law_gathered_shape::<T, A>(ids, n_samples, earlier, prior);
        assert(prior.rows(Side::Left).len() == ids.len());
        law_mixed_in_value::<T, A>(value, prior, ids, last, window, mix, row, side, p);
    }
}

/// A finished sample is the weighted average of what the additions hold for it,
/// wherever they give it a positive weight.
pub proof fn law_finished_is_weighted_average<T, A: Arithmetic<T>>(
    value: spec_fn(T) -> real,
    ids: Seq<StemId>,
    n_samples: int,
    additions: Seq<Addition<T>>,
    mix: MixView<T>,
    stems: Seq<StemView<T>>,
    row: int,
    side: Side,
    p: int,
)
    requires
        exact::<T, A>(value),
        gathered::<T, A>(ids, n_samples, additions, mix),
        additions_lie_within(additions, n_samples),
        finished::<T, A>(ids, mix, stems),
        0 <= row < ids.len(),
        0 <= p < n_samples <= usize::MAX,
    ensures
        ({
            let weight = gathered_weight(additions, p);
            let signal = gathered_signal(value, ids, additions, row, side, p);
            value(stems[row].channel(side)[p]) == if weight > 0 as real {
                signal / weight
            } else {
                signal
            }
        }),
{
    law_gathered_shape::<T, A>(ids, n_samples, additions, mix);
    law_gathered_value::<T, A>(value, ids, n_samples, additions, mix, row, side, p);
    let stem = stems[row];
    assert(finished_row::<T, A>(mix, row, stem));
    assert(mix.rows(side)[row] == match side {
        Side::Left => mix.left[row],
        Side::Right => mix.right[row],
    });
    assert(normalized::<T, A>(
        mix.weight[p], mix.left[row][p], mix.right[row][p], stem.left[p], stem.right[p]));
    let heard = choose|heard: bool| #[trigger]
        positives::<T, A>(mix.weight[p], heard) && if heard {
            quotients::<T, A>(mix.left[row][p], mix.weight[p], stem.left[p])
            && quotients::<T, A>(mix.right[row][p], mix.weight[p], stem.right[p])
        } else {
            stem.left[p] == mix.left[row][p] && stem.right[p] == mix.right[row][p]
        };
}

/// No addition counts less than nothing, and the additions together count for a
/// sample exactly where one of them does.
pub proof fn law_gathered_weight<T>(additions: Seq<Addition<T>>, p: int)
    ensures
        gathered_weight(additions, p) >= 0 as real,
        gathered_weight(additions, p) > 0 as real <==> exists|k: int|
            0 <= k < additions.len() && addition_weight(#[trigger] additions[k], p) > 0 as real,
    decreases additions.len(),
{
    if additions.len() > 0 {
        let last = additions.last();
        let earlier = additions.drop_last();
        law_gathered_weight(earlier, p);
        if last.start <= p < last.start + last.length && last.length >= 2 {
            law_triangle(last.length, p - last.start);
        }
        assert(additions[additions.len() - 1] == last);
        if gathered_weight(earlier, p) > 0 as real {
            let k = choose|k: int|
                0 <= k < earlier.len() && addition_weight(#[trigger] earlier[k], p) > 0 as real;
            assert(additions[k] == earlier[k]);
        }
        if exists|k: int|
            0 <= k < additions.len() && addition_weight(#[trigger] additions[k], p) > 0 as real {
            let k = choose|k: int|
                0 <= k < additions.len() && addition_weight(#[trigger] additions[k], p)
                    > 0 as real;
            if k < earlier.len() {
                assert(earlier[k] == additions[k]);
            }
        }
    }
}

/// Every addition over sample `p` of row `row` holds `x` for it.
pub open spec fn additions_agree<T>(
    value: spec_fn(T) -> real,
    ids: Seq<StemId>,
    additions: Seq<Addition<T>>,
    row: int,
    side: Side,
    p: int,
    x: real,
) -> bool {
    forall|k: int| {
        let addition = #[trigger] additions[k];
        0 <= k < additions.len() && addition.start <= p < addition.start + addition.length
            ==> row_sum(value, ids, addition.stems, row, side, p - addition.start) == x
    }
}

proof fn lemma_agreeing_signal<T>(
    value: spec_fn(T) -> real,
    ids: Seq<StemId>,
    additions: Seq<Addition<T>>,
    row: int,
    side: Side,
    p: int,
    x: real,
)
    requires
        additions_agree(value, ids, additions, row, side, p, x),
    ensures
        gathered_signal(value, ids, additions, row, side, p) == x * gathered_weight(additions, p),
    decreases additions.len(),
{
    if additions.len() == 0 {
        assert(x * 0 as real == 0 as real) by (nonlinear_arith);
    } else {
        let last = additions.last();
        let earlier = additions.drop_last();
        assert(additions[additions.len() - 1] == last);
        assert forall|k: int| {
            let addition = #[trigger] earlier[k];
            0 <= k < earlier.len() && addition.start <= p < addition.start + addition.length
                ==> row_sum(value, ids, addition.stems, row, side, p - addition.start) == x
        } by {
            if 0 <= k < earlier.len() {
                assert(earlier[k] == additions[k]);
            }
        }
        lemma_agreeing_signal(value, ids, earlier, row, side, p, x);
        let total = gathered_weight(earlier, p);
        let weight = addition_weight(last, p);
        let held = row_sum(value, ids, last.stems, row, side, p - last.start);
        assert(weight * held == x * weight) by (nonlinear_arith)
            requires
                held == x || weight == 0 as real,
        ;
        assert(x * (total + weight) == x * total + x * weight) by (nonlinear_arith);
    }
}

/// Windowing and normalization cancel out: where all additions over a sample
/// hold the same for it, that is what comes out, wherever they lie and however
/// many they are. Samples that no addition gives a weight come out as 0.
pub proof fn law_crossfade_restores_signal<T, A: Arithmetic<T>>(
    value: spec_fn(T) -> real,
    ids: Seq<StemId>,
    n_samples: int,
    additions: Seq<Addition<T>>,
    mix: MixView<T>,
    stems: Seq<StemView<T>>,
    row: int,
    side: Side,
    p: int,
    x: real,
)
    requires
        exact::<T, A>(value),
        gathered::<T, A>(ids, n_samples, additions, mix),
        additions_lie_within(additions, n_samples),
        finished::<T, A>(ids, mix, stems),
        0 <= row < ids.len(),
        0 <= p < n_samples <= usize::MAX,
        additions_agree(value, ids, additions, row, side, p, x),
    ensures
        value(stems[row].channel(side)[p]) == if gathered_weight(additions, p) > 0 as real {
            x
        } else {
            0 as real
        },
{
    law_finished_is_weighted_average::<T, A>(
        value, ids, n_samples, additions, mix, stems, row, side, p);
    law_gathered_weight(additions, p);
    lemma_agreeing_signal(value, ids, additions, row, side, p, x);
    let weight = gathered_weight(additions, p);
    if weight > 0 as real {
        assert(x * weight / weight == x) by (nonlinear_arith) requires weight > 0 as real;
    } else {
        assert(x * 0 as real == 0 as real) by (nonlinear_arith);
    }
}

/// The addition holds exactly one stem of row `row`, and that is the part of
/// `signal` which the addition covers.
pub open spec fn holds_slice<T>(
    ids: Seq<StemId>,
    addition: Addition<T>,
    row: int,
    signal: StemView<T>,
) -> bool {
    exists|k: int| #[trigger] is_slice(ids, addition, row, signal, k)
}

/// Stem `k` is the only one of row `row` in the addition, and it is the part of
/// `signal` which the addition covers.
pub open spec fn is_slice<T>(
    ids: Seq<StemId>,
    addition: Addition<T>,
    row: int,
    signal: StemView<T>,
    k: int,
) -> bool {
    let end = addition.start + addition.length;
    &&& only_stem(ids, addition.stems, row, k)
    &&& addition.stems[k].left == signal.left.subrange(addition.start, end)
    &&& addition.stems[k].right == signal.right.subrange(addition.start, end)
}

/// Stem `k` is the only one of row `row`.
pub open spec fn only_stem<T>(
    ids: Seq<StemId>,
    stems: Seq<StemView<T>>,
    row: int,
    k: int,
) -> bool {
    &&& 0 <= k < stems.len()
    &&& forall|j: int| 0 <= j < stems.len() ==>
        (is_row(ids, (#[trigger] stems[j]).id, row) <==> j == k)
}

pub(crate) proof fn lemma_sum_of_only_stem<T>(
    value: spec_fn(T) -> real,
    ids: Seq<StemId>,
    stems: Seq<StemView<T>>,
    row: int,
    side: Side,
    i: int,
    k: int,
)
    requires
        only_stem(ids, stems, row, k),
    ensures
        row_sum(value, ids, stems, row, side, i) == value(stems[k].channel(side)[i]),
    decreases stems.len(),
{
    let earlier = stems.drop_last();
    assert(stems[stems.len() - 1] == stems.last());
    assert(forall|j: int| 0 <= j < earlier.len() ==> earlier[j] == stems[j]);
    if k == stems.len() - 1 {
        lemma_sum_of_no_stem(value, ids, earlier, row, side, i);
    } else {
        lemma_sum_of_only_stem(value, ids, earlier, row, side, i, k);
    }
}

proof fn lemma_sum_of_no_stem<T>(
    value: spec_fn(T) -> real,
    ids: Seq<StemId>,
    stems: Seq<StemView<T>>,
    row: int,
    side: Side,
    i: int,
)
    requires
        forall|j: int| 0 <= j < stems.len() ==> !is_row(ids, (#[trigger] stems[j]).id, row),
    ensures
        row_sum(value, ids, stems, row, side, i) == 0 as real,
    decreases stems.len(),
{
    if stems.len() > 0 {
        let earlier = stems.drop_last();
        assert(stems[stems.len() - 1] == stems.last());
        assert(forall|j: int| 0 <= j < earlier.len() ==> earlier[j] == stems[j]);
        lemma_sum_of_no_stem(value, ids, earlier, row, side, i);
    }
}

/// Slices of a signal, added wherever they were cut and in any number and order,
/// give the signal back at every sample where one of their windows is positive,
/// and 0 at every other.
pub proof fn law_slices_restore_signal<T, A: Arithmetic<T>>(
    value: spec_fn(T) -> real,
    ids: Seq<StemId>,
    n_samples: int,
    additions: Seq<Addition<T>>,
    mix: MixView<T>,
    stems: Seq<StemView<T>>,
    row: int,
    signal: StemView<T>,
    side: Side,
    p: int,
)
    requires
        exact::<T, A>(value),
        gathered::<T, A>(ids, n_samples, additions, mix),
        additions_lie_within(additions, n_samples),
        finished::<T, A>(ids, mix, stems),
        0 <= row < ids.len(),
        0 <= p < n_samples <= usize::MAX,
        signal.left.len() == n_samples,
        signal.right.len() == n_samples,
        forall|k: int| 0 <= k < additions.len() && 0 < additions[k].length ==>
            holds_slice(ids, #[trigger] additions[k], row, signal),
    ensures
        stems[row].channel(side).len() == n_samples,
        value(stems[row].channel(side)[p]) == if exists|k: int|
            0 <= k < additions.len() && addition_weight(#[trigger] additions[k], p) > 0 as real {
            value(signal.channel(side)[p])
        } else {
            0 as real
        },
{
    let x = value(signal.channel(side)[p]);
    assert forall|k: int| {
        let addition = #[trigger] additions[k];
        0 <= k < additions.len() && addition.start <= p < addition.start + addition.length
            ==> row_sum(value, ids, addition.stems, row, side, p - addition.start) == x
    } by {
        let addition = additions[k];
        if 0 <= k < additions.len() && addition.start <= p < addition.start + addition.length {
            assert(holds_slice(ids, additions[k], row, signal));
            let j = choose|j: int| #[trigger] is_slice(ids, addition, row, signal, j);
            lemma_sum_of_only_stem(
                value, ids, addition.stems, row, side, p - addition.start, j);
        }
    }
    law_gathered_shape::<T, A>(ids, n_samples, additions, mix);
    assert(finished_row::<T, A>(mix, row, stems[row]));
    law_gathered_weight(additions, p);
    law_crossfade_restores_signal::<T, A>(
        value, ids, n_samples, additions, mix, stems, row, side, p, x);
}

/// A stem that no addition brought is still among the finished ones, in its
/// place, and silent.
pub proof fn law_unheard_stem_comes_out_as_zero<T, A: Arithmetic<T>>(
    value: spec_fn(T) -> real,
    ids: Seq<StemId>,
    n_samples: int,
    additions: Seq<Addition<T>>,
    mix: MixView<T>,
    stems: Seq<StemView<T>>,
    row: int,
    side: Side,
    p: int,
)
    requires
        exact::<T, A>(value),
        gathered::<T, A>(ids, n_samples, additions, mix),
        additions_lie_within(additions, n_samples),
        finished::<T, A>(ids, mix, stems),
        0 <= row < ids.len(),
        row_unheard(ids, additions, row),
        0 <= p < n_samples <= usize::MAX,
    ensures
        stems[row].id == ids[row],
        stems[row].channel(side).len() == n_samples,
        value(stems[row].channel(side)[p]) == 0 as real,
{
    assert forall|k: int| {
        let addition = #[trigger] additions[k];
        0 <= k < additions.len() && addition.start <= p < addition.start + addition.length
            ==> row_sum(value, ids, addition.stems, row, side, p - addition.start) == 0 as real
    } by {
        if 0 <= k < additions.len() {
            assert forall|i: int| 0 <= i < additions[k].stems.len() implies
                !is_row(ids, (#[trigger] additions[k].stems[i]).id, row) by {}
            lemma_sum_of_no_stem(
                value, ids, additions[k].stems, row, side, p - additions[k].start);
        }
    }
    law_gathered_shape::<T, A>(ids, n_samples, additions, mix);
    assert(finished_row::<T, A>(mix, row, stems[row]));
    law_crossfade_restores_signal::<T, A>(
        value, ids, n_samples, additions, mix, stems, row, side, p, 0 as real);
}

/// The chunks of a recording lie within it.
pub proof fn law_chunks_lie_within<T>(n_samples: int, chunks: Seq<Seq<StemView<T>>>)
    requires
        0 <= n_samples,
        chunks.len() <= chunk_count(n_samples),
    ensures
        additions_lie_within(chunk_additions(n_samples, chunks), n_samples),
{
    let additions = chunk_additions(n_samples, chunks);
    assert forall|k: int| 0 <= k < additions.len() implies
        lies_within(#[trigger] additions[k], n_samples) by {
        law_chunk_reaches(n_samples, k);
    }
}

/// A stem that was separated from none of the chunks of a recording is still
/// among the finished ones, in its place, and silent.
pub proof fn law_stem_of_no_chunk_comes_out_as_zero<T, A: Arithmetic<T>>(
    value: spec_fn(T) -> real,
    ids: Seq<StemId>,
    n_samples: int,
    chunks: Seq<Seq<StemView<T>>>,
    mix: MixView<T>,
    stems: Seq<StemView<T>>,
    row: int,
    side: Side,
    p: int,
)
    requires
        exact::<T, A>(value),
        chunks.len() <= chunk_count(n_samples),
        accumulated::<T, A>(ids, n_samples, chunks, mix),
        finished::<T, A>(ids, mix, stems),
        0 <= row < ids.len(),
        forall|k: int, i: int| 0 <= k < chunks.len() && 0 <= i < chunks[k].len() ==>
            !is_row(ids, (#[trigger] chunks[k][i]).id, row),
        0 <= p < n_samples <= usize::MAX,
    ensures
        stems[row].id == ids[row],
        stems[row].channel(side).len() == n_samples,
        value(stems[row].channel(side)[p]) == 0 as real,
{
    let additions = chunk_additions(n_samples, chunks);
    law_chunks_lie_within(n_samples, chunks);
    assert forall|k: int, i: int|
        0 <= k < additions.len() && 0 <= i < additions[k].stems.len() implies
            !is_row(ids, (#[trigger] additions[k].stems[i]).id, row) by {
        assert(additions[k].stems[i] == chunks[k][i]);
    }
    law_unheard_stem_comes_out_as_zero::<T, A>(
        value, ids, n_samples, additions, mix, stems, row, side, p);
}

proof fn lemma_chunk_weight<T>(n_samples: int, chunks: Seq<Seq<StemView<T>>>, index: int, p: int)
    requires
        2 <= n_samples,
        0 <= index < chunks.len() <= chunk_count(n_samples),
        0 <= p < n_samples,
    ensures
        addition_weight(chunk_additions(n_samples, chunks)[index], p) > 0 as real <==> chunk_start(
            index,
        ) < p < chunk_end(index, n_samples) - 1,
{
    law_chunk_reaches(n_samples, index);
    if chunk_start(index) <= p < chunk_end(index, n_samples) {
        law_triangle(chunk_len(index, n_samples), p - chunk_start(index));
    }
}

/// Every sample but the first and the last is given a positive weight by the
/// chunks of a recording, taken together. Those two are given none. A recording
/// of one sample gives it a positive weight.
pub proof fn law_inner_samples_have_weight<T>(
    n_samples: int,
    chunks: Seq<Seq<StemView<T>>>,
    p: int,
)
    requires
        chunks.len() == chunk_count(n_samples),
        0 <= p < n_samples,
    ensures
        gathered_weight(chunk_additions(n_samples, chunks), p) > 0 as real <==> n_samples == 1 || 0
            < p < n_samples - 1,
{
    let additions = chunk_additions(n_samples, chunks);
    law_gathered_weight(additions, p);
    if n_samples == 1 {
        law_chunk_reaches(n_samples, 0);
        assert(addition_weight(additions[0], p) > 0 as real);
    } else if 0 < p < n_samples - 1 {
        let index = law_chunks_cover(n_samples, p);
        law_chunk_reaches(n_samples, index);
        let inner = if p == chunk_start(index) {
            index - 1
        } else if p == chunk_end(index, n_samples) - 1 {
            index + 1
        } else {
            index
        };
        law_chunk_reaches(n_samples, inner);
        lemma_chunk_weight(n_samples, chunks, inner, p);
        assert(addition_weight(additions[inner], p) > 0 as real);
    } else {
        assert forall|index: int| 0 <= index < additions.len() implies
            !(addition_weight(#[trigger] additions[index], p) > 0 as real) by {
            law_chunk_reaches(n_samples, index);
            lemma_chunk_weight(n_samples, chunks, index, p);
        }
    }
}

/// Chunk `index` of a signal.
pub open spec fn cut<T>(
    signal: Seq<StemView<T>>,
    n_samples: int,
    index: int,
) -> Seq<StemView<T>> {
    Seq::new(
        signal.len(),
        |row: int|
            StemView {
                id: signal[row].id,
                left: signal[row].left.subrange(
                    chunk_start(index),
                    chunk_end(index, n_samples),
                ),
                right: signal[row].right.subrange(
                    chunk_start(index),
                    chunk_end(index, n_samples),
                ),
            },
    )
}

/// Each stem of `signal` has its own row, and a whole recording on both sides.
pub open spec fn is_signal<T>(
    ids: Seq<StemId>,
    n_samples: int,
    signal: Seq<StemView<T>>,
) -> bool {
    &&& ids.no_duplicates()
    &&& signal.len() == ids.len()
    &&& forall|row: int| 0 <= row < ids.len() ==>
        (#[trigger] signal[row]).id == ids[row]
        && signal[row].left.len() == n_samples
        && signal[row].right.len() == n_samples
}

/// A recording that is cut into chunks, which are then accumulated and finished,
/// comes out as it was, but for its first and last sample, which come out as 0.
/// A recording of one sample comes out as it was.
pub proof fn law_cut_signal_is_restored<T, A: Arithmetic<T>>(
    value: spec_fn(T) -> real,
    ids: Seq<StemId>,
    n_samples: int,
    signal: Seq<StemView<T>>,
    mix: MixView<T>,
    stems: Seq<StemView<T>>,
    row: int,
    side: Side,
    p: int,
)
    requires
        exact::<T, A>(value),
        is_signal(ids, n_samples, signal),
        accumulated::<T, A>(
            ids,
            n_samples,
            Seq::new(
                chunk_count(n_samples) as nat,
                |index: int| cut(signal, n_samples, index),
            ),
            mix,
        ),
        finished::<T, A>(ids, mix, stems),
        0 <= row < ids.len(),
        0 <= p < n_samples <= usize::MAX,
    ensures
        stems[row].channel(side).len() == n_samples,
        value(stems[row].channel(side)[p]) == if n_samples == 1 || 0 < p < n_samples - 1 {
            value(signal[row].channel(side)[p])
        } else {
            0 as real
        },
{
    let count = chunk_count(n_samples);
    let chunks = Seq::new(count as nat, |index: int| cut(signal, n_samples, index));
    let additions = chunk_additions(n_samples, chunks);
    assert forall|k: int| 0 <= k < additions.len() implies
        holds_slice(ids, #[trigger] additions[k], row, signal[row]) by {
        assert(additions[k].stems == cut(signal, n_samples, k));
        assert(signal[row].id == ids[row]);
        assert forall|j: int| 0 <= j < additions[k].stems.len() implies
            (is_row(ids, (#[trigger] additions[k].stems[j]).id, row) <==> j == row) by {
            assert(signal[j].id == ids[j]);
        }
        assert(is_slice(ids, additions[k], row, signal[row], row));
    }
    assert(signal[row].left.len() == n_samples);
    law_chunks_lie_within(n_samples, chunks);
    law_gathered_weight(additions, p);
    law_inner_samples_have_weight(n_samples, chunks, p);
    law_slices_restore_signal::<T, A>(
        value, ids, n_samples, additions, mix, stems, row, signal[row], side, p);
}

} // verus!
