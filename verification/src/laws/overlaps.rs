//! What calls on windows and overlap-add return.

use vstd::prelude::*;

use crate::arithmetic::{
    counts, differences, exact, magnitudes, positives, products, quotients, sums, Arithmetic,
};
use crate::crossfade::{
    addition_weight, law_mixed_in_value, law_window_is_triangle, row_sum, triangle,
};
use crate::model::{is_row, stem_views, ModelInfo, Side, Stem, StemId, StemView};
use crate::overlap::{
    blended, finished_row, is_window, lemma_unheard_sample, mixed_in, normalized, ramps,
    stems_fit, triangular_window, weighted, Addition, ChunkAccumulator, MixView,
};

verus! {

/// A window has the given length. One of a single sample is the number one. In a
/// longer one, sample `i` is one minus the distance from one of twice `i` over the
/// number of the last sample, computed in that order.
pub proof fn law_triangular_window<T: Copy, A: Arithmetic<T>>(
    length: usize,
    window: Vec<T>,
    i: int,
)
    requires
        call_ensures(triangular_window::<T, A>, (length,), window),
        0 <= i < length,
    ensures
        call_requires(triangular_window::<T, A>, (length,)),
        window@.len() == length,
        length == 1 ==> call_ensures(A::count, (1usize,), window@[i]),
        length > 1 ==> exists|
            one: T,
            two: T,
            last: T,
            position: T,
            doubled: T,
            ratio: T,
            offset: T,
            distance: T,
        | #![trigger
            call_ensures(A::count, (1usize,), one),
            call_ensures(A::count, (2usize,), two),
            call_ensures(A::count, ((length - 1) as usize,), last),
            call_ensures(A::count, (i as usize,), position),
            call_ensures(A::times, (two, position), doubled),
            call_ensures(A::over, (doubled, last), ratio),
            call_ensures(A::minus, (ratio, one), offset),
            call_ensures(A::magnitude, (offset,), distance)]
            call_ensures(A::count, (1usize,), one)
            && call_ensures(A::count, (2usize,), two)
            && call_ensures(A::count, ((length - 1) as usize,), last)
            && call_ensures(A::count, (i as usize,), position)
            && call_ensures(A::times, (two, position), doubled)
            && call_ensures(A::over, (doubled, last), ratio)
            && call_ensures(A::minus, (ratio, one), offset)
            && call_ensures(A::magnitude, (offset,), distance)
            && call_ensures(A::minus, (one, distance), window@[i]),
{
    if length == 1 {
        assert(counts::<T, A>(1, window@[i]));
    } else if length > 1 {
        let (one, two, last) = choose|one: T, two: T, last: T| #![trigger
            counts::<T, A>(1, one),
            counts::<T, A>(2, two),
            counts::<T, A>((length - 1) as usize, last)]
            counts::<T, A>(1, one)
            && counts::<T, A>(2, two)
            && counts::<T, A>((length - 1) as usize, last)
            && (forall|j: int| 0 <= j < length ==>
                ramps::<T, A>(one, two, last, j as usize, #[trigger] window@[j]));
        assert(ramps::<T, A>(one, two, last, i as usize, window@[i]));
        let (position, doubled, ratio, offset, distance) = choose|
            position: T,
            doubled: T,
            ratio: T,
            offset: T,
            distance: T,
        | #![trigger
            counts::<T, A>(i as usize, position),
            products::<T, A>(two, position, doubled),
            quotients::<T, A>(doubled, last, ratio),
            differences::<T, A>(ratio, one, offset),
            magnitudes::<T, A>(offset, distance)]
            counts::<T, A>(i as usize, position)
            && products::<T, A>(two, position, doubled)
            && quotients::<T, A>(doubled, last, ratio)
            && differences::<T, A>(ratio, one, offset)
            && magnitudes::<T, A>(offset, distance)
            && differences::<T, A>(one, distance, window@[i]);
        assert(call_ensures(A::count, (1usize,), one));
        assert(call_ensures(A::count, (2usize,), two));
        assert(call_ensures(A::count, ((length - 1) as usize,), last));
        assert(call_ensures(A::count, (i as usize,), position));
        assert(call_ensures(A::times, (two, position), doubled));
        assert(call_ensures(A::over, (doubled, last), ratio));
        assert(call_ensures(A::minus, (ratio, one), offset));
        assert(call_ensures(A::magnitude, (offset,), distance));
    }
}

pub(crate) proof fn lemma_triangle_height(length: int, i: int)
    requires
        0 <= i < length,
    ensures
        length == 1 ==> triangle(length, i) == 1 as real,
        length > 1 && 2 * i <= length - 1 ==> triangle(length, i) == (2 * i) as real / (length
            - 1) as real,
        length > 1 && 2 * i >= length - 1 ==> triangle(length, i) == (2 * (length - 1 - i)) as real
            / (length - 1) as real,
{
    if length > 1 {
        let last = (length - 1) as real;
        let doubled = (2 * i) as real;
        assert(doubled / last <= 1 as real <==> doubled <= last) by (nonlinear_arith)
            requires
                last > 0 as real,
        ;
        assert(2 as real - doubled / last == (2 as real * last - doubled) / last)
            by (nonlinear_arith)
            requires
                last > 0 as real,
        ;
        assert(2 as real * last - doubled == (2 * (length - 1 - i)) as real);
    }
}

/// In exact arithmetic, a window rises in a straight line from 0 at its first
/// sample to 1 in the middle, and falls in the same way to 0 at its last.
pub proof fn law_window_rises_and_falls<T: Copy, A: Arithmetic<T>>(
    value: spec_fn(T) -> real,
    length: usize,
    window: Vec<T>,
    i: int,
)
    requires
        exact::<T, A>(value),
        call_ensures(triangular_window::<T, A>, (length,), window),
        0 <= i < length,
    ensures
        length == 1 ==> value(window@[i]) == 1 as real,
        length > 1 && 2 * i <= length - 1 ==> value(window@[i]) == (2 * i) as real / (length
            - 1) as real,
        length > 1 && 2 * i >= length - 1 ==> value(window@[i]) == (2 * (length - 1 - i)) as real
            / (length - 1) as real,
{
    law_window_is_triangle::<T, A>(value, length as int, window@, i);
    lemma_triangle_height(length as int, i);
}

/// A new accumulator has the given number of rows on either side, and the given
/// number of samples and weights, all of which are zero.
pub proof fn law_new_accumulator<T: Copy, A: Arithmetic<T>>(
    n_stems: usize,
    n_samples: usize,
    acc: ChunkAccumulator<T>,
) -> (zero: T)
    requires
        call_ensures(ChunkAccumulator::<T>::new::<A>, (n_stems, n_samples), acc),
    ensures
        call_requires(ChunkAccumulator::<T>::new::<A>, (n_stems, n_samples)),
        call_ensures(A::count, (0usize,), zero),
        acc@.left.len() == n_stems,
        acc@.right.len() == n_stems,
        acc@.weight == Seq::new(n_samples as nat, |p: int| zero),
        forall|row: int| 0 <= row < n_stems ==> #[trigger] acc@.left[row] == Seq::new(
            n_samples as nat,
            |p: int| zero,
        ),
        forall|row: int| 0 <= row < n_stems ==> #[trigger] acc@.right[row] == Seq::new(
            n_samples as nat,
            |p: int| zero,
        ),
{
    let zero = choose|zero: T| #[trigger] counts::<T, A>(0, zero) && acc@.filled(zero);
    let line = Seq::new(n_samples as nat, |p: int| zero);
    assert(acc@.rows(Side::Left).len() == n_stems);
    assert(acc@.rows(Side::Right).len() == n_stems);
    assert forall|row: int| 0 <= row < n_stems implies #[trigger] acc@.left[row] == line by {
        assert(acc@.rows(Side::Left)[row].len() == n_samples);
        assert forall|p: int| 0 <= p < n_samples implies acc@.left[row][p] == zero by {
            assert(acc@.rows(Side::Left)[row][p] == zero);
        }
        assert(acc@.left[row] =~= line);
    }
    assert forall|row: int| 0 <= row < n_stems implies #[trigger] acc@.right[row] == line by {
        assert(acc@.rows(Side::Right)[row].len() == n_samples);
        assert forall|p: int| 0 <= p < n_samples implies acc@.right[row][p] == zero by {
            assert(acc@.rows(Side::Right)[row][p] == zero);
        }
        assert(acc@.right[row] =~= line);
    }
    assert(acc@.weight =~= line);
    zero
}

proof fn lemma_shaped<T>(mix: MixView<T>)
    requires
        mix.left.len() == mix.right.len(),
        forall|r: int| 0 <= r < mix.left.len() ==> (#[trigger] mix.left[r]).len()
            == mix.weight.len(),
        forall|r: int| 0 <= r < mix.left.len() ==> (#[trigger] mix.right[r]).len()
            == mix.weight.len(),
    ensures
        mix.shaped(mix.left.len() as int, mix.weight.len() as int),
{
    assert forall|side: Side, r: int| 0 <= r < mix.left.len() implies (#[trigger] mix.rows(
        side,
    )[r]).len() == mix.weight.len() by {
        assert(mix.left[r].len() == mix.weight.len());
        assert(mix.right[r].len() == mix.weight.len());
    }
}

/// Stems can be added wherever the chunk lies within the samples, if each of them
/// is one of the model, has the samples of the chunk on both sides, and has a row.
/// An empty chunk can be added anywhere.
pub proof fn law_add_is_taken<T: Copy, A: Arithmetic<T>>(
    acc: &mut ChunkAccumulator<T>,
    info: &ModelInfo,
    stems: &Vec<Stem<T>>,
    start: usize,
    chunk_len: usize,
)
    requires
        old(acc)@.left.len() == old(acc)@.right.len(),
        forall|r: int| 0 <= r < old(acc)@.left.len() ==> (#[trigger] old(acc)@.left[r]).len()
            == old(acc)@.weight.len(),
        forall|r: int| 0 <= r < old(acc)@.left.len() ==> (#[trigger] old(acc)@.right[r]).len()
            == old(acc)@.weight.len(),
        chunk_len > 0 ==> start + chunk_len <= old(acc)@.weight.len(),
        forall|k: int| 0 <= k < stems@.len() ==> info.stems@.contains((#[trigger] stems@[k]).id),
        forall|k: int| 0 <= k < stems@.len() ==> chunk_len <= (#[trigger] stems@[k]).left@.len(),
        forall|k: int| 0 <= k < stems@.len() ==> chunk_len <= (#[trigger] stems@[k]).right@.len(),
        chunk_len > 0 ==> forall|k: int| 0 <= k < stems@.len() ==> info.stems@.take(
            old(acc)@.left.len() as int,
        ).contains((#[trigger] stems@[k]).id) || info.stems@.len() <= old(acc)@.left.len(),
    ensures
        call_requires(
            ChunkAccumulator::<T>::add::<A>,
            (acc, info, stems, start, chunk_len),
        ),
{
    lemma_shaped(old(acc)@);
    let views = stem_views(stems@);
    let rows = old(acc)@.left.len() as int;
    assert forall|k: int| 0 <= k < views.len() implies ({
        &&& info.stems@.contains((#[trigger] views[k]).id)
        &&& 0 < chunk_len as int ==> forall|row: int| #[trigger]
            is_row(info.stems@, views[k].id, row) ==> row < rows
        &&& chunk_len <= views[k].left.len()
        &&& chunk_len <= views[k].right.len()
    }) by {
        let stem = stems@[k];
        assert(info.stems@.contains(stem.id));
        if 0 < chunk_len {
            assert forall|row: int| #[trigger] is_row(info.stems@, views[k].id, row) implies row
                < rows by {
                if rows < info.stems@.len() {
                    let held = info.stems@.take(rows);
                    assert(held.contains(stem.id));
                    let j = choose|j: int| 0 <= j < held.len() && held[j] == stem.id;
                    assert(info.stems@[j] == stem.id);
                }
            }
        }
    }
    assert(stems_fit(info.stems@, rows, views, chunk_len as int));
}

/// Adding a chunk keeps the number of rows, samples and weights, and changes
/// nothing before the chunk or after it.
pub proof fn law_add_stays_in_chunk<T: Copy, A: Arithmetic<T>>(
    acc: &mut ChunkAccumulator<T>,
    info: &ModelInfo,
    stems: &Vec<Stem<T>>,
    start: usize,
    chunk_len: usize,
    row: int,
    p: int,
)
    requires
        old(acc)@.left.len() == old(acc)@.right.len(),
        forall|r: int| 0 <= r < old(acc)@.left.len() ==> (#[trigger] old(acc)@.left[r]).len()
            == old(acc)@.weight.len(),
        forall|r: int| 0 <= r < old(acc)@.left.len() ==> (#[trigger] old(acc)@.right[r]).len()
            == old(acc)@.weight.len(),
        call_ensures(
            ChunkAccumulator::<T>::add::<A>,
            (acc, info, stems, start, chunk_len),
            (),
        ),
        0 <= row < old(acc)@.left.len(),
        0 <= p < old(acc)@.weight.len(),
    ensures
        final(acc)@.left.len() == old(acc)@.left.len(),
        final(acc)@.right.len() == old(acc)@.right.len(),
        final(acc)@.weight.len() == old(acc)@.weight.len(),
        final(acc)@.left[row].len() == old(acc)@.weight.len(),
        final(acc)@.right[row].len() == old(acc)@.weight.len(),
        !(start <= p < start + chunk_len) ==> final(acc)@.left[row][p] == old(acc)@.left[row][p],
        !(start <= p < start + chunk_len) ==> final(acc)@.right[row][p] == old(
            acc,
        )@.right[row][p],
        !(start <= p < start + chunk_len) ==> final(acc)@.weight[p] == old(acc)@.weight[p],
{
    lemma_shaped(old(acc)@);
    let before = old(acc)@;
    let after = final(acc)@;
    assert(after.rows(Side::Left).len() == before.left.len());
    assert(after.rows(Side::Right).len() == before.left.len());
    assert(after.rows(Side::Left)[row].len() == before.weight.len());
    assert(after.rows(Side::Right)[row].len() == before.weight.len());
    if !(start <= p < start + chunk_len) {
        assert(after.rows(Side::Left)[row][p] == before.rows(Side::Left)[row][p]);
        assert(after.rows(Side::Right)[row][p] == before.rows(Side::Right)[row][p]);
        assert(after.weight[p] == before.weight[p]);
    }
}

/// Adding a chunk changes no row but those of its stems.
pub proof fn law_add_keeps_other_rows<T: Copy, A: Arithmetic<T>>(
    acc: &mut ChunkAccumulator<T>,
    info: &ModelInfo,
    stems: &Vec<Stem<T>>,
    start: usize,
    chunk_len: usize,
    row: int,
    p: int,
)
    requires
        old(acc)@.left.len() == old(acc)@.right.len(),
        forall|r: int| 0 <= r < old(acc)@.left.len() ==> (#[trigger] old(acc)@.left[r]).len()
            == old(acc)@.weight.len(),
        forall|r: int| 0 <= r < old(acc)@.left.len() ==> (#[trigger] old(acc)@.right[r]).len()
            == old(acc)@.weight.len(),
        call_ensures(
            ChunkAccumulator::<T>::add::<A>,
            (acc, info, stems, start, chunk_len),
            (),
        ),
        0 <= row < old(acc)@.left.len(),
        0 <= p < old(acc)@.weight.len(),
        forall|j: int| 0 <= j < stems@.len() ==> row >= info.stems@.len() || (#[trigger] stems@[j]
            ).id != info.stems@[row],
    ensures
        final(acc)@.left[row][p] == old(acc)@.left[row][p],
        final(acc)@.right[row][p] == old(acc)@.right[row][p],
{
    lemma_shaped(old(acc)@);
    let before = old(acc)@;
    let after = final(acc)@;
    let views = stem_views(stems@);
    let window = choose|window: Seq<T>| #[trigger]
        is_window::<T, A>(chunk_len as int, window) && mixed_in::<T, A>(
            before,
            info.stems@,
            views,
            start as int,
            window,
            after,
        );
    assert forall|j: int| 0 <= j < views.len() implies !is_row(
        info.stems@,
        (#[trigger] views[j]).id,
        row,
    ) by {
        assert(row >= info.stems@.len() || stems@[j].id != info.stems@[row]);
    }
    assert(after.rows(Side::Left)[row] == after.left[row]);
    assert(after.rows(Side::Right)[row] == after.right[row]);
    if start <= p < start + window.len() {
        lemma_unheard_sample::<T, A>(
            before.rows(Side::Left)[row][p], window[p - start], info.stems@, views, row,
            Side::Left, p - start, after.rows(Side::Left)[row][p]);
        lemma_unheard_sample::<T, A>(
            before.rows(Side::Right)[row][p], window[p - start], info.stems@, views, row,
            Side::Right, p - start, after.rows(Side::Right)[row][p]);
    } else {
        assert(after.rows(Side::Left)[row][p] == before.rows(Side::Left)[row][p]);
        assert(after.rows(Side::Right)[row][p] == before.rows(Side::Right)[row][p]);
    }
}

pub(crate) proof fn lemma_blend_of_only<T, A: Arithmetic<T>>(
    before: T,
    weight: T,
    ids: Seq<StemId>,
    stems: Seq<StemView<T>>,
    row: int,
    side: Side,
    i: int,
    after: T,
    k: int,
)
    requires
        blended::<T, A>(before, weight, ids, stems, row, side, i, after),
        0 <= k < stems.len(),
        forall|j: int| 0 <= j < stems.len() ==> (is_row(ids, (#[trigger] stems[j]).id, row)
            <==> j == k),
    ensures
        weighted::<T, A>(before, weight, stems[k].channel(side)[i], after),
    decreases stems.len(),
{
    let earlier = stems.drop_last();
    assert(stems[stems.len() - 1] == stems.last());
    assert(forall|j: int| 0 <= j < earlier.len() ==> earlier[j] == stems[j]);
    if k == stems.len() - 1 {
        let between = choose|between: T|
            blended::<T, A>(before, weight, ids, earlier, row, side, i, between)
            && #[trigger] weighted::<T, A>(between, weight, stems[k].channel(side)[i], after);
        lemma_unheard_sample::<T, A>(before, weight, ids, earlier, row, side, i, between);
    } else {
        lemma_blend_of_only::<T, A>(before, weight, ids, earlier, row, side, i, after, k);
    }
}

/// At every sample of a chunk, a stem goes into its row on both sides: what it
/// holds there is multiplied by the weight of the window, and the product is
/// added. The same weight is added to the weight of the sample. In exact
/// arithmetic it is the height of the triangle over the chunk.
pub proof fn law_add_windows_stems<T: Copy, A: Arithmetic<T>>(
    acc: &mut ChunkAccumulator<T>,
    info: &ModelInfo,
    stems: &Vec<Stem<T>>,
    start: usize,
    chunk_len: usize,
    row: int,
    k: int,
    p: int,
)
    requires
        old(acc)@.left.len() == old(acc)@.right.len(),
        forall|r: int| 0 <= r < old(acc)@.left.len() ==> (#[trigger] old(acc)@.left[r]).len()
            == old(acc)@.weight.len(),
        forall|r: int| 0 <= r < old(acc)@.left.len() ==> (#[trigger] old(acc)@.right[r]).len()
            == old(acc)@.weight.len(),
        call_ensures(
            ChunkAccumulator::<T>::add::<A>,
            (acc, info, stems, start, chunk_len),
            (),
        ),
        start + chunk_len <= old(acc)@.weight.len(),
        start <= p < start + chunk_len,
        0 <= row < old(acc)@.left.len(),
        row < info.stems@.len(),
        0 <= k < stems@.len(),
        stems@[k].id == info.stems@[row],
        !info.stems@.take(row).contains(info.stems@[row]),
        forall|j: int| 0 <= j < stems@.len() && j != k ==> (#[trigger] stems@[j]).id
            != info.stems@[row],
    ensures
        exists|weight: T, left: T, right: T| #![trigger
            call_ensures(A::plus, (old(acc)@.weight[p], weight), final(acc)@.weight[p]),
            call_ensures(A::times, (weight, stems@[k].left@[p - start]), left),
            call_ensures(A::times, (weight, stems@[k].right@[p - start]), right)]
            call_ensures(A::plus, (old(acc)@.weight[p], weight), final(acc)@.weight[p])
            && call_ensures(A::times, (weight, stems@[k].left@[p - start]), left)
            && call_ensures(A::plus, (old(acc)@.left[row][p], left), final(acc)@.left[row][p])
            && call_ensures(A::times, (weight, stems@[k].right@[p - start]), right)
            && call_ensures(A::plus, (old(acc)@.right[row][p], right), final(acc)@.right[row][p])
            && (forall|value: spec_fn(T) -> real| #[trigger]
                exact::<T, A>(value) ==> value(weight) == if chunk_len == 1 {
                    1 as real
                } else if 2 * (p - start) <= chunk_len - 1 {
                    (2 * (p - start)) as real / (chunk_len - 1) as real
                } else {
                    (2 * (chunk_len - 1 - (p - start))) as real / (chunk_len - 1) as real
                }),
{
    lemma_shaped(old(acc)@);
    let before = old(acc)@;
    let after = final(acc)@;
    let ids = info.stems@;
    let views = stem_views(stems@);
    let window = choose|window: Seq<T>| #[trigger]
        is_window::<T, A>(chunk_len as int, window) && mixed_in::<T, A>(
            before,
            ids,
            views,
            start as int,
            window,
            after,
        );
    let i = p - start;
    let weight = window[i];
    assert forall|j: int| 0 <= j < views.len() implies (is_row(ids, (#[trigger] views[j]).id, row)
        <==> j == k) by {
        assert(views[j].id == stems@[j].id);
        if j == k {
            assert forall|earlier: int| 0 <= earlier < row implies ids[earlier] != ids[row] by {
                assert(ids.take(row)[earlier] == ids[earlier]);
            }
        }
    }
    assert(after.rows(Side::Left)[row] == after.left[row]);
    assert(after.rows(Side::Right)[row] == after.right[row]);
    lemma_blend_of_only::<T, A>(
        before.rows(Side::Left)[row][p], weight, ids, views, row, Side::Left, i,
        after.rows(Side::Left)[row][p], k);
    lemma_blend_of_only::<T, A>(
        before.rows(Side::Right)[row][p], weight, ids, views, row, Side::Right, i,
        after.rows(Side::Right)[row][p], k);
    let left = choose|scaled: T|
        products::<T, A>(weight, views[k].channel(Side::Left)[i], scaled)
        && #[trigger] sums::<T, A>(before.rows(Side::Left)[row][p], scaled,
            after.rows(Side::Left)[row][p]);
    let right = choose|scaled: T|
        products::<T, A>(weight, views[k].channel(Side::Right)[i], scaled)
        && #[trigger] sums::<T, A>(before.rows(Side::Right)[row][p], scaled,
            after.rows(Side::Right)[row][p]);
    assert(sums::<T, A>(before.weight[p], weight, after.weight[p]));
    assert(views[k].left == stems@[k].left@ && views[k].right == stems@[k].right@);
    assert forall|value: spec_fn(T) -> real| #[trigger] exact::<T, A>(value) implies value(weight)
        == (if chunk_len == 1 {
        1 as real
    } else if 2 * i <= chunk_len - 1 {
        (2 * i) as real / (chunk_len - 1) as real
    } else {
        (2 * (chunk_len - 1 - i)) as real / (chunk_len - 1) as real
    }) by {
        law_window_is_triangle::<T, A>(value, chunk_len as int, window, i);
        lemma_triangle_height(chunk_len as int, i);
    }
    assert(call_ensures(A::plus, (before.weight[p], weight), after.weight[p]));
    assert(call_ensures(A::times, (weight, stems@[k].left@[i]), left));
    assert(call_ensures(A::times, (weight, stems@[k].right@[i]), right));
}

/// A finished stem has, on either side and at every sample, what was gathered
/// there over the weight that was gathered there, if that is positive, and else
/// what was gathered. There is one for each stem of the model, in order.
pub proof fn law_finalize<T: Copy, A: Arithmetic<T>>(
    acc: ChunkAccumulator<T>,
    info: &ModelInfo,
    stems: Vec<Stem<T>>,
    row: int,
    p: int,
) -> (heard: bool)
    requires
        acc@.left.len() == acc@.right.len(),
        forall|r: int| 0 <= r < acc@.left.len() ==> (#[trigger] acc@.left[r]).len()
            == acc@.weight.len(),
        forall|r: int| 0 <= r < acc@.left.len() ==> (#[trigger] acc@.right[r]).len()
            == acc@.weight.len(),
        info.stems@.len() <= acc@.left.len(),
        call_ensures(ChunkAccumulator::<T>::finalize::<A>, (acc, info), stems),
        0 <= row < info.stems@.len(),
        0 <= p < acc@.weight.len(),
    ensures
        call_requires(ChunkAccumulator::<T>::finalize::<A>, (acc, info)),
        stems@.len() == info.stems@.len(),
        stems@[row].id == info.stems@[row],
        stems@[row].left@.len() == acc@.weight.len(),
        stems@[row].right@.len() == acc@.weight.len(),
        call_ensures(A::is_positive, (acc@.weight[p],), heard),
        heard ==> call_ensures(
            A::over,
            (acc@.left[row][p], acc@.weight[p]),
            stems@[row].left@[p],
        ),
        heard ==> call_ensures(
            A::over,
            (acc@.right[row][p], acc@.weight[p]),
            stems@[row].right@[p],
        ),
        !heard ==> stems@[row].left@[p] == acc@.left[row][p],
        !heard ==> stems@[row].right@[p] == acc@.right[row][p],
{
    lemma_shaped(acc@);
    let views = stem_views(stems@);
    let stem = views[row];
    assert(views[row].id == info.stems@[row]);
    assert(stem.left == stems@[row].left@ && stem.right == stems@[row].right@);
    assert(finished_row::<T, A>(acc@, row, stem));
    assert(normalized::<T, A>(
        acc@.weight[p], acc@.left[row][p], acc@.right[row][p], stem.left[p], stem.right[p]));
    choose|heard: bool| #[trigger]
        positives::<T, A>(acc@.weight[p], heard) && if heard {
            quotients::<T, A>(acc@.left[row][p], acc@.weight[p], stem.left[p])
            && quotients::<T, A>(acc@.right[row][p], acc@.weight[p], stem.right[p])
        } else {
            stem.left[p] == acc@.left[row][p] && stem.right[p] == acc@.right[row][p]
        }
}

/// What the stems of a row hold at a sample, taken together, grows with each stem
/// of that row by what the stem holds there, and with no other stem.
pub proof fn law_row_sum<T>(
    value: spec_fn(T) -> real,
    ids: Seq<StemId>,
    stems: Seq<StemView<T>>,
    next: StemView<T>,
    row: int,
    i: int,
)
    requires
        0 <= row < ids.len(),
    ensures
        row_sum(value, ids, Seq::<StemView<T>>::empty(), row, Side::Left, i) == 0 as real,
        row_sum(value, ids, Seq::<StemView<T>>::empty(), row, Side::Right, i) == 0 as real,
        next.id == ids[row] && !ids.take(row).contains(ids[row]) ==> row_sum(
            value,
            ids,
            stems.push(next),
            row,
            Side::Left,
            i,
        ) == row_sum(value, ids, stems, row, Side::Left, i) + value(next.left[i]),
        next.id == ids[row] && !ids.take(row).contains(ids[row]) ==> row_sum(
            value,
            ids,
            stems.push(next),
            row,
            Side::Right,
            i,
        ) == row_sum(value, ids, stems, row, Side::Right, i) + value(next.right[i]),
        next.id != ids[row] || ids.take(row).contains(ids[row]) ==> forall|side: Side| #[trigger]
            row_sum(value, ids, stems.push(next), row, side, i) == row_sum(
                value,
                ids,
                stems,
                row,
                side,
                i,
            ),
{
    assert(stems.push(next).drop_last() =~= stems);
    assert(stems.push(next).last() == next);
    if !ids.take(row).contains(ids[row]) {
        assert forall|earlier: int| 0 <= earlier < row implies ids[earlier] != ids[row] by {
            assert(ids.take(row)[earlier] == ids[earlier]);
        }
    } else {
        let held = ids.take(row);
        let j = choose|j: int| 0 <= j < held.len() && held[j] == ids[row];
        assert(ids[j] == ids[row]);
    }
}

/// In exact arithmetic, adding stems puts on every sample of the chunk the height
/// of the triangle times what the stems of its row hold there, taken together,
/// and on its weight the height alone.
pub proof fn law_add_value<T: Copy, A: Arithmetic<T>>(
    value: spec_fn(T) -> real,
    acc: &mut ChunkAccumulator<T>,
    info: &ModelInfo,
    stems: &Vec<Stem<T>>,
    start: usize,
    chunk_len: usize,
    row: int,
    p: int,
)
    requires
        exact::<T, A>(value),
        old(acc)@.left.len() == old(acc)@.right.len(),
        forall|r: int| 0 <= r < old(acc)@.left.len() ==> (#[trigger] old(acc)@.left[r]).len()
            == old(acc)@.weight.len(),
        forall|r: int| 0 <= r < old(acc)@.left.len() ==> (#[trigger] old(acc)@.right[r]).len()
            == old(acc)@.weight.len(),
        call_ensures(
            ChunkAccumulator::<T>::add::<A>,
            (acc, info, stems, start, chunk_len),
            (),
        ),
        start <= p < start + chunk_len,
        0 <= p < old(acc)@.weight.len(),
        0 <= row < old(acc)@.left.len(),
    ensures
        ({
            let height = if chunk_len == 1 {
                1 as real
            } else if 2 * (p - start) <= chunk_len - 1 {
                (2 * (p - start)) as real / (chunk_len - 1) as real
            } else {
                (2 * (chunk_len - 1 - (p - start))) as real / (chunk_len - 1) as real
            };
            let views = Seq::new(
                stems@.len(),
                |j: int|
                    StemView {
                        id: stems@[j].id,
                        left: stems@[j].left@,
                        right: stems@[j].right@,
                    },
            );
            &&& value(final(acc)@.weight[p]) == value(old(acc)@.weight[p]) + height
            &&& value(final(acc)@.left[row][p]) == value(old(acc)@.left[row][p]) + height
                * row_sum(value, info.stems@, views, row, Side::Left, p - start)
            &&& value(final(acc)@.right[row][p]) == value(old(acc)@.right[row][p]) + height
                * row_sum(value, info.stems@, views, row, Side::Right, p - start)
        }),
{
    lemma_shaped(old(acc)@);
    let before = old(acc)@;
    let after = final(acc)@;
    let views = stem_views(stems@);
    assert(views =~= Seq::new(
        stems@.len(),
        |j: int|
            StemView { id: stems@[j].id, left: stems@[j].left@, right: stems@[j].right@ },
    ));
    let window = choose|window: Seq<T>| #[trigger]
        is_window::<T, A>(chunk_len as int, window) && mixed_in::<T, A>(
            before,
            info.stems@,
            views,
            start as int,
            window,
            after,
        );
    let addition = Addition { stems: views, start: start as int, length: chunk_len as int };
    lemma_triangle_height(chunk_len as int, p - start);
    assert(addition_weight(addition, p) == triangle(chunk_len as int, p - start));
    law_mixed_in_value::<T, A>(
        value, before, info.stems@, addition, window, after, row, Side::Left, p);
    law_mixed_in_value::<T, A>(
        value, before, info.stems@, addition, window, after, row, Side::Right, p);
    assert(after.rows(Side::Left)[row] == after.left[row]);
    assert(after.rows(Side::Right)[row] == after.right[row]);
}

} // verus!
