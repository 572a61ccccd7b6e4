//! The order in which two additions go into an empty mix does not matter, not
//! even to the last bit.

use vstd::prelude::*;

use crate::arithmetic::{counts, products, repeatable, sums, Arithmetic};
use crate::model::{is_row, Side, StemId, StemView};
use crate::overlap::{
    blended, gathered, is_silence, is_window, law_gathered_shape, lemma_unheard_sample, mixed_in,
    weighted, Addition, MixView,
};
use crate::repeat::{lemma_equal_mixes, lemma_silences_agree, lemma_windows_agree};

verus! {

/// No two of the stems share an id.
pub open spec fn distinct_stems<T>(stems: Seq<StemView<T>>) -> bool {
    forall|j: int, k: int| 0 <= j < stems.len() && 0 <= k < stems.len() && j != k ==>
        (#[trigger] stems[j]).id != (#[trigger] stems[k]).id
}

/// Every sample that the addition covers is `tame`.
pub open spec fn tame_samples<T>(tame: spec_fn(T) -> bool, addition: Addition<T>) -> bool {
    forall|k: int, side: Side, i: int|
        0 <= k < addition.stems.len() && 0 <= i < addition.length ==>
            tame(#[trigger] addition.stems[k].channel(side)[i])
}

/// Numbers that are `tame`, as finite ones are, can be added to zero in either
/// order. The weights of a window are tame, and so is a tame number times one of
/// them.
pub open spec fn tames<T, A: Arithmetic<T>>(tame: spec_fn(T) -> bool) -> bool {
    &&& forall|length: int, window: Seq<T>, i: int|
        0 <= i < length <= usize::MAX && #[trigger] is_window::<T, A>(length, window) ==>
            tame(#[trigger] window[i])
    &&& forall|length: int, window: Seq<T>, i: int, sample: T, scaled: T|
        0 <= i < length <= usize::MAX && #[trigger] is_window::<T, A>(length, window)
            && tame(sample) && #[trigger] products::<T, A>(window[i], sample, scaled) ==>
            tame(scaled)
    &&& forall|zero: T, a: T, b: T, x: T, y: T, sum: T, other: T|
        counts::<T, A>(0, zero) && tame(a) && tame(b)
            && #[trigger] sums::<T, A>(zero, a, x) && #[trigger] sums::<T, A>(x, b, sum)
            && #[trigger] sums::<T, A>(zero, b, y) && #[trigger] sums::<T, A>(y, a, other) ==>
            sum == other
}

/// The addition covers sample `p`.
spec fn covers<T>(addition: Addition<T>, p: int) -> bool {
    addition.start <= p < addition.start + addition.length
}

/// The addition holds a stem of row `row`.
spec fn holds_row<T>(ids: Seq<StemId>, addition: Addition<T>, row: int) -> bool {
    exists|k: int|
        0 <= k < addition.stems.len() && is_row(ids, (#[trigger] addition.stems[k]).id, row)
}

/// `scaled` is a result of windowing what the addition holds for sample `p` of
/// row `row`.
spec fn is_share<T, A: Arithmetic<T>>(
    ids: Seq<StemId>,
    addition: Addition<T>,
    window: Seq<T>,
    row: int,
    side: Side,
    p: int,
    scaled: T,
) -> bool {
    let i = p - addition.start;
    exists|k: int|
        0 <= k < addition.stems.len()
        && is_row(ids, (#[trigger] addition.stems[k]).id, row)
        && products::<T, A>(window[i], addition.stems[k].channel(side)[i], scaled)
}

proof fn lemma_blend_of_distinct<T, A: Arithmetic<T>>(
    before: T,
    weight: T,
    ids: Seq<StemId>,
    stems: Seq<StemView<T>>,
    row: int,
    side: Side,
    i: int,
    after: T,
    k: int,
)
    requires
        blended::<T, A>(before, weight, ids, stems, row, side, i, after),
        distinct_stems(stems),
        0 <= k < stems.len(),
        is_row(ids, stems[k].id, row),
    ensures
        weighted::<T, A>(before, weight, stems[k].channel(side)[i], after),
    decreases stems.len(),
{
    let earlier = stems.drop_last();
    assert(stems[stems.len() - 1] == stems.last());
    assert(forall|j: int| 0 <= j < earlier.len() ==> earlier[j] == stems[j]);
    assert forall|j: int| 0 <= j < stems.len() && j != k implies
        !is_row(ids, (#[trigger] stems[j]).id, row) by {
        assert(stems[j].id != stems[k].id);
    }
    if k == stems.len() - 1 {
        let between = choose|between: T|
            blended::<T, A>(before, weight, ids, earlier, row, side, i, between)
            && #[trigger] weighted::<T, A>(between, weight, stems[k].channel(side)[i], after);
        lemma_unheard_sample::<T, A>(before, weight, ids, earlier, row, side, i, between);
    } else {
        assert(distinct_stems(earlier));
        lemma_blend_of_distinct::<T, A>(
            before, weight, ids, earlier, row, side, i, after, k);
    }
}

/// What an addition does to one sample: it adds its share, if it has one.
proof fn lemma_share_is_added<T, A: Arithmetic<T>>(
    before: MixView<T>,
    ids: Seq<StemId>,
    addition: Addition<T>,
    window: Seq<T>,
    after: MixView<T>,
    row: int,
    side: Side,
    p: int,
) -> (share: T)
    requires
        window.len() == addition.length,
        mixed_in::<T, A>(before, ids, addition.stems, addition.start, window, after),
        distinct_stems(addition.stems),
        0 <= row < before.left.len(),
        0 <= p < before.weight.len(),
    ensures
        if covers(addition, p) && holds_row(ids, addition, row) {
            &&& is_share::<T, A>(ids, addition, window, row, side, p, share)
            &&& sums::<T, A>(before.rows(side)[row][p], share, after.rows(side)[row][p])
        } else {
            after.rows(side)[row][p] == before.rows(side)[row][p]
        },
{
    let old_sample = before.rows(side)[row][p];
    let new_sample = after.rows(side)[row][p];
    let i = p - addition.start;
    if covers(addition, p) {
        if holds_row(ids, addition, row) {
            let k = choose|k: int|
                0 <= k < addition.stems.len()
                && is_row(ids, (#[trigger] addition.stems[k]).id, row);
            lemma_blend_of_distinct::<T, A>(
                old_sample, window[i], ids, addition.stems, row, side, i, new_sample, k);
            choose|share: T|
                products::<T, A>(window[i], addition.stems[k].channel(side)[i], share)
                && #[trigger] sums::<T, A>(old_sample, share, new_sample)
        } else {
            lemma_unheard_sample::<T, A>(
                old_sample, window[i], ids, addition.stems, row, side, i, new_sample);
            old_sample
        }
    } else {
        old_sample
    }
}

proof fn lemma_shares<T, A: Arithmetic<T>>(
    tame: spec_fn(T) -> bool,
    ids: Seq<StemId>,
    addition: Addition<T>,
    window: Seq<T>,
    row: int,
    side: Side,
    p: int,
    share: T,
    other: T,
)
    requires
        repeatable::<T, A>(),
        tames::<T, A>(tame),
        addition.length <= usize::MAX,
        is_window::<T, A>(addition.length, window),
        distinct_stems(addition.stems),
        tame_samples(tame, addition),
        covers(addition, p),
        is_share::<T, A>(ids, addition, window, row, side, p, share),
        is_share::<T, A>(ids, addition, window, row, side, p, other),
    ensures
        share == other,
        tame(share),
{
    let i = p - addition.start;
    let k = choose|k: int|
        0 <= k < addition.stems.len()
        && is_row(ids, (#[trigger] addition.stems[k]).id, row)
        && products::<T, A>(window[i], addition.stems[k].channel(side)[i], share);
    let j = choose|j: int|
        0 <= j < addition.stems.len()
        && is_row(ids, (#[trigger] addition.stems[j]).id, row)
        && products::<T, A>(window[i], addition.stems[j].channel(side)[i], other);
    assert(j == k);
    assert(tame(addition.stems[k].channel(side)[i]));
}

/// Two additions to silence, taken apart.
proof fn lemma_two_additions<T, A: Arithmetic<T>>(
    ids: Seq<StemId>,
    n_samples: int,
    one: Addition<T>,
    other: Addition<T>,
    mix: MixView<T>,
) -> (parts: (MixView<T>, Seq<T>, MixView<T>, Seq<T>))
    requires
        gathered::<T, A>(ids, n_samples, seq![one, other], mix),
    ensures
        ({
            let (silence, window, between, frame) = parts;
            &&& is_silence::<T, A>(silence, ids.len() as int, n_samples)
            &&& is_window::<T, A>(one.length, window)
            &&& mixed_in::<T, A>(silence, ids, one.stems, one.start, window, between)
            &&& between.shaped(ids.len() as int, n_samples)
            &&& is_window::<T, A>(other.length, frame)
            &&& mixed_in::<T, A>(between, ids, other.stems, other.start, frame, mix)
            &&& mix.shaped(ids.len() as int, n_samples)
        }),
{
    let both = seq![one, other];
    assert(both.drop_last() =~= seq![one]);
    assert(seq![one].drop_last() =~= Seq::<Addition<T>>::empty());
    law_gathered_shape::<T, A>(ids, n_samples, both, mix);
    let (between, frame) = choose|between: MixView<T>, frame: Seq<T>|
        gathered::<T, A>(ids, n_samples, both.drop_last(), between)
        && is_window::<T, A>(both.last().length, frame)
        && #[trigger] mixed_in::<T, A>(
            between, ids, both.last().stems, both.last().start, frame, mix);
    let first = both.drop_last();
    law_gathered_shape::<T, A>(ids, n_samples, first, between);
    let (silence, window) = choose|silence: MixView<T>, window: Seq<T>|
        gathered::<T, A>(ids, n_samples, first.drop_last(), silence)
        && is_window::<T, A>(first.last().length, window)
        && #[trigger] mixed_in::<T, A>(
            silence, ids, first.last().stems, first.last().start, window, between);
    (silence, window, between, frame)
}

/// Two additions to silence give the same mix in either order, bit for bit: all
/// it takes is that two numbers can be added to zero in either order.
pub proof fn law_order_of_additions<T, A: Arithmetic<T>>(
    tame: spec_fn(T) -> bool,
    ids: Seq<StemId>,
    n_samples: int,
    one: Addition<T>,
    other: Addition<T>,
    mix: MixView<T>,
    swapped: MixView<T>,
)
    requires
        repeatable::<T, A>(),
        tames::<T, A>(tame),
        one.length <= usize::MAX,
        other.length <= usize::MAX,
        distinct_stems(one.stems),
        distinct_stems(other.stems),
        tame_samples(tame, one),
        tame_samples(tame, other),
        gathered::<T, A>(ids, n_samples, seq![one, other], mix),
        gathered::<T, A>(ids, n_samples, seq![other, one], swapped),
    ensures
        mix == swapped,
{
    let (silence, window, after_one, frame) = lemma_two_additions::<T, A>(
        ids, n_samples, one, other, mix);
    let (quiet, other_frame, after_other, other_window) = lemma_two_additions::<T, A>(
        ids, n_samples, other, one, swapped);
    lemma_windows_agree::<T, A>(one.length, window, other_window);
    lemma_windows_agree::<T, A>(other.length, frame, other_frame);
    lemma_silences_agree::<T, A>(silence, quiet, ids.len() as int, n_samples);
    let zero = choose|zero: T| #[trigger] counts::<T, A>(0, zero) && silence.filled(zero);
    assert(silence.rows(Side::Left).len() == ids.len());
    assert(after_one.rows(Side::Left).len() == ids.len());
    assert(after_other.rows(Side::Left).len() == ids.len());
    assert forall|side: Side, row: int, p: int| 0 <= row < ids.len() && 0 <= p
        < n_samples implies #[trigger] mix.rows(side)[row][p] == swapped.rows(side)[row][p] by {
        assert(silence.rows(side)[row].len() == n_samples);
        assert(silence.rows(side)[row][p] == zero);
        let a = lemma_share_is_added::<T, A>(
            silence, ids, one, window, after_one, row, side, p);
        let b = lemma_share_is_added::<T, A>(after_one, ids, other, frame, mix, row, side, p);
        let c = lemma_share_is_added::<T, A>(
            silence, ids, other, frame, after_other, row, side, p);
        let d = lemma_share_is_added::<T, A>(
            after_other, ids, one, window, swapped, row, side, p);
        if covers(one, p) && holds_row(ids, one, row) {
            lemma_shares::<T, A>(tame, ids, one, window, row, side, p, a, d);
        }
        if covers(other, p) && holds_row(ids, other, row) {
            lemma_shares::<T, A>(tame, ids, other, frame, row, side, p, b, c);
        }
    }
    assert forall|p: int| 0 <= p < n_samples implies
        #[trigger] mix.weight[p] == swapped.weight[p] by {
        assert(silence.weight[p] == zero);
        assert(covers(one, p) ==> tame(window[p - one.start]));
        assert(covers(other, p) ==> tame(frame[p - other.start]));
        assert(after_one.weight.len() == n_samples && after_other.weight.len() == n_samples);
        if covers(one, p) {
            assert(sums::<T, A>(zero, window[p - one.start], after_one.weight[p]));
            assert(sums::<T, A>(
                after_other.weight[p], window[p - one.start], swapped.weight[p]));
        } else {
            assert(after_one.weight[p] == zero);
            assert(swapped.weight[p] == after_other.weight[p]);
        }
        if covers(other, p) {
            assert(sums::<T, A>(zero, frame[p - other.start], after_other.weight[p]));
            assert(sums::<T, A>(after_one.weight[p], frame[p - other.start], mix.weight[p]));
        } else {
            assert(after_other.weight[p] == zero);
            assert(mix.weight[p] == after_one.weight[p]);
        }
    }
    lemma_equal_mixes(mix, swapped, ids.len() as int, n_samples);
}

} // verus!
