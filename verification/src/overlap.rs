//! Windowed overlap-add: chunks are cross-faded into full-length stems.

use vstd::prelude::*;

use crate::arithmetic::{
    counts, differences, magnitudes, positives, products, quotients, sums, Arithmetic,
};
use crate::chunk::{chunk_len, chunk_start};
use crate::model::{is_row, stem_row, stem_views, ModelInfo, Side, Stem, StemId, StemView};

verus! {

/// `weight` is a result of `one - |two * i / last - one|`.
pub open spec fn ramps<T, A: Arithmetic<T>>(
    one: T,
    two: T,
    last: T,
    i: usize,
    weight: T,
) -> bool {
    exists|position: T, doubled: T, ratio: T, offset: T, distance: T| #![trigger
        counts::<T, A>(i, position),
        products::<T, A>(two, position, doubled),
        quotients::<T, A>(doubled, last, ratio),
        differences::<T, A>(ratio, one, offset),
        magnitudes::<T, A>(offset, distance)]
        counts::<T, A>(i, position)
        && products::<T, A>(two, position, doubled)
        && quotients::<T, A>(doubled, last, ratio)
        && differences::<T, A>(ratio, one, offset)
        && magnitudes::<T, A>(offset, distance)
        && differences::<T, A>(one, distance, weight)
}

/// `window` is a triangular window of the given length.
pub open spec fn is_window<T, A: Arithmetic<T>>(length: int, window: Seq<T>) -> bool {
    &&& window.len() == length
    &&& if length <= 1 {
        forall|i: int| 0 <= i < length ==> counts::<T, A>(1, #[trigger] window[i])
    } else {
        exists|one: T, two: T, last: T| #![trigger
            counts::<T, A>(1, one),
            counts::<T, A>(2, two),
            counts::<T, A>((length - 1) as usize, last)]
            counts::<T, A>(1, one)
            && counts::<T, A>(2, two)
            && counts::<T, A>((length - 1) as usize, last)
            && (forall|i: int| 0 <= i < length ==>
                ramps::<T, A>(one, two, last, i as usize, #[trigger] window[i]))
    }
}

/// Build a triangular (Bartlett) window of the given length.
/// Ramps linearly from 0 at the edges to 1 at the center.
pub fn triangular_window<T: Copy, A: Arithmetic<T>>(length: usize) -> (window: Vec<T>)
    ensures
        is_window::<T, A>(length as int, window@),
{
    let one: T = A::count(1);
    let mut window: Vec<T> = Vec::new();
    if length <= 1 {
        if length == 1 {
            window.push(one);
        }
        return window;
    }
    let two: T = A::count(2);
    let last: T = A::count(length - 1);
    let mut i: usize = 0;
    while i < length
        invariant
            i <= length,
            window@.len() == i,
            forall|j: int| 0 <= j < i ==>
                ramps::<T, A>(one, two, last, j as usize, #[trigger] window@[j]),
        decreases length - i,
    {
        let position: T = A::count(i);
        let doubled: T = A::times(two, position);
        let ratio: T = A::over(doubled, last);
        let offset: T = A::minus(ratio, one);
        let distance: T = A::magnitude(offset);
        let weight: T = A::minus(one, distance);
        assert(counts::<T, A>(i, position));
        assert(products::<T, A>(two, position, doubled));
        assert(quotients::<T, A>(doubled, last, ratio));
        assert(differences::<T, A>(ratio, one, offset));
        assert(magnitudes::<T, A>(offset, distance));
        assert(differences::<T, A>(one, distance, weight));
        assert(ramps::<T, A>(one, two, last, i, weight));
        window.push(weight);
        i += 1;
    }
    assert(counts::<T, A>(1, one) && counts::<T, A>(2, two)
        && counts::<T, A>((length - 1) as usize, last));
    window
}

/// `after` is a result of `before + weight * sample`.
pub open spec fn weighted<T, A: Arithmetic<T>>(
    before: T,
    weight: T,
    sample: T,
    after: T,
) -> bool {
    exists|scaled: T|
        products::<T, A>(weight, sample, scaled) && #[trigger] sums::<T, A>(before, scaled, after)
}

/// `after` is a result of adding to `before`, with the given weight and one
/// after the other, sample `i` on one side of those `stems` that belong to row
/// `row`.
pub open spec fn blended<T, A: Arithmetic<T>>(
    before: T,
    weight: T,
    ids: Seq<StemId>,
    stems: Seq<StemView<T>>,
    row: int,
    side: Side,
    i: int,
    after: T,
) -> bool
    decreases stems.len(),
{
    if stems.len() == 0 {
        after == before
    } else if is_row(ids, stems.last().id, row) {
        exists|between: T|
            blended::<T, A>(before, weight, ids, stems.drop_last(), row, side, i, between)
            && #[trigger] weighted::<T, A>(between, weight, stems.last().channel(side)[i], after)
    } else {
        blended::<T, A>(before, weight, ids, stems.drop_last(), row, side, i, after)
    }
}

/// What a [`ChunkAccumulator`] holds: for each stem a row of samples on either
/// side, and the weight that has gone into each sample.
pub struct MixView<T> {
    pub left: Seq<Seq<T>>,
    pub right: Seq<Seq<T>>,
    pub weight: Seq<T>,
}

impl<T> MixView<T> {
    pub open spec fn rows(self, side: Side) -> Seq<Seq<T>> {
        match side {
            Side::Left => self.left,
            Side::Right => self.right,
        }
    }

    /// Both sides have `rows` rows, each with one sample per weight.
    pub open spec fn shaped(self, rows: int, n_samples: int) -> bool {
        &&& self.weight.len() == n_samples
        &&& forall|side: Side| (#[trigger] self.rows(side)).len() == rows
        &&& forall|side: Side, row: int| 0 <= row < rows ==>
            (#[trigger] self.rows(side)[row]).len() == n_samples
    }

    /// Every sample and every weight is `zero`.
    pub open spec fn filled(self, zero: T) -> bool {
        &&& forall|side: Side, row: int, i: int|
            0 <= row < self.rows(side).len() && 0 <= i < self.rows(side)[row].len() ==>
                #[trigger] self.rows(side)[row][i] == zero
        &&& forall|i: int| 0 <= i < self.weight.len() ==> #[trigger] self.weight[i] == zero
    }
}

/// `mix` holds silence that no chunk has gone into.
pub open spec fn is_silence<T, A: Arithmetic<T>>(
    mix: MixView<T>,
    rows: int,
    n_samples: int,
) -> bool {
    &&& mix.shaped(rows, n_samples)
    &&& exists|zero: T| #[trigger] counts::<T, A>(0, zero) && mix.filled(zero)
}

/// The rows of `after` are a result of adding the windowed `stems` to those of
/// `before`, from sample `start` on. Other samples stay as they were.
pub open spec fn rows_mixed_in<T, A: Arithmetic<T>>(
    before: MixView<T>,
    ids: Seq<StemId>,
    stems: Seq<StemView<T>>,
    start: int,
    window: Seq<T>,
    after: MixView<T>,
) -> bool {
    forall|side: Side, row: int, p: int|
        0 <= row < before.left.len() && 0 <= p < before.weight.len() ==> {
            let sample = #[trigger] after.rows(side)[row][p];
            if start <= p < start + window.len() {
                blended::<T, A>(
                    before.rows(side)[row][p],
                    window[p - start],
                    ids,
                    stems,
                    row,
                    side,
                    p - start,
                    sample,
                )
            } else {
                sample == before.rows(side)[row][p]
            }
        }
}

/// The weights `after` are a result of adding `window` to `before`, from sample
/// `start` on. Other weights stay as they were.
pub open spec fn weights_added<T, A: Arithmetic<T>>(
    before: Seq<T>,
    start: int,
    window: Seq<T>,
    after: Seq<T>,
) -> bool {
    &&& after.len() == before.len()
    &&& forall|p: int| 0 <= p < before.len() ==> {
        let weight = #[trigger] after[p];
        if start <= p < start + window.len() {
            sums::<T, A>(before[p], window[p - start], weight)
        } else {
            weight == before[p]
        }
    }
}

/// `after` is a result of adding the windowed `stems`, and the window itself,
/// to `before`, from sample `start` on.
pub open spec fn mixed_in<T, A: Arithmetic<T>>(
    before: MixView<T>,
    ids: Seq<StemId>,
    stems: Seq<StemView<T>>,
    start: int,
    window: Seq<T>,
    after: MixView<T>,
) -> bool {
    &&& after.shaped(before.left.len() as int, before.weight.len() as int)
    &&& rows_mixed_in::<T, A>(before, ids, stems, start, window, after)
    &&& weights_added::<T, A>(before.weight, start, window, after.weight)
}

/// Stems that are added to a mix, windowed to `length` samples, from sample
/// `start` on.
pub struct Addition<T> {
    pub stems: Seq<StemView<T>>,
    pub start: int,
    pub length: int,
}

/// `mix` is a result of adding the given stems, one addition after the other, to
/// silence of `n_samples` samples.
pub open spec fn gathered<T, A: Arithmetic<T>>(
    ids: Seq<StemId>,
    n_samples: int,
    additions: Seq<Addition<T>>,
    mix: MixView<T>,
) -> bool
    decreases additions.len(),
{
    if additions.len() == 0 {
        is_silence::<T, A>(mix, ids.len() as int, n_samples)
    } else {
        let last = additions.last();
        exists|prior: MixView<T>, window: Seq<T>|
            gathered::<T, A>(ids, n_samples, additions.drop_last(), prior)
            && is_window::<T, A>(last.length, window)
            && #[trigger] mixed_in::<T, A>(prior, ids, last.stems, last.start, window, mix)
    }
}

/// The addition lies within `n_samples` samples. An empty one does so anywhere.
pub open spec fn lies_within<T>(addition: Addition<T>, n_samples: int) -> bool {
    &&& 0 <= addition.start
    &&& 0 <= addition.length
    &&& 0 < addition.length ==> addition.start + addition.length <= n_samples
}

/// Every addition lies within `n_samples` samples.
pub open spec fn additions_lie_within<T>(additions: Seq<Addition<T>>, n_samples: int) -> bool {
    forall|k: int| 0 <= k < additions.len() ==> lies_within(#[trigger] additions[k], n_samples)
}

/// No addition holds a stem of row `row`.
pub open spec fn row_unheard<T>(
    ids: Seq<StemId>,
    additions: Seq<Addition<T>>,
    row: int,
) -> bool {
    forall|k: int, i: int|
        0 <= k < additions.len() && 0 <= i < additions[k].stems.len() ==>
            !is_row(ids, (#[trigger] additions[k].stems[i]).id, row)
}

/// The stems of the first chunks of a recording, each at its chunk's place.
pub open spec fn chunk_additions<T>(
    n_samples: int,
    chunks: Seq<Seq<StemView<T>>>,
) -> Seq<Addition<T>> {
    Seq::new(
        chunks.len(),
        |index: int|
            Addition {
                stems: chunks[index],
                start: chunk_start(index),
                length: chunk_len(index, n_samples),
            },
    )
}

/// `mix` is a result of adding the chunks of a recording of `n_samples` samples,
/// one after the other and from the first on, to silence. Each chunk is given by
/// the stems that were separated from it.
pub open spec fn accumulated<T, A: Arithmetic<T>>(
    ids: Seq<StemId>,
    n_samples: int,
    chunks: Seq<Seq<StemView<T>>>,
    mix: MixView<T>,
) -> bool {
    gathered::<T, A>(ids, n_samples, chunk_additions(n_samples, chunks), mix)
}

/// Mixing in stems adds them to what was gathered.
pub proof fn law_next_addition_is_gathered<T, A: Arithmetic<T>>(
    ids: Seq<StemId>,
    n_samples: int,
    additions: Seq<Addition<T>>,
    mix: MixView<T>,
    next: Addition<T>,
    window: Seq<T>,
    after: MixView<T>,
)
    requires
        gathered::<T, A>(ids, n_samples, additions, mix),
        is_window::<T, A>(next.length, window),
        mixed_in::<T, A>(mix, ids, next.stems, next.start, window, after),
    ensures
        gathered::<T, A>(ids, n_samples, additions.push(next), after),
{
    assert(additions.push(next).drop_last() =~= additions);
    assert(additions.push(next).last() == next);
}

/// Mixing in the next chunk accumulates it.
pub proof fn law_next_chunk_accumulates<T, A: Arithmetic<T>>(
    ids: Seq<StemId>,
    n_samples: int,
    chunks: Seq<Seq<StemView<T>>>,
    mix: MixView<T>,
    stems: Seq<StemView<T>>,
    window: Seq<T>,
    after: MixView<T>,
)
    requires
        accumulated::<T, A>(ids, n_samples, chunks, mix),
        is_window::<T, A>(chunk_len(chunks.len() as int, n_samples), window),
        mixed_in::<T, A>(mix, ids, stems, chunk_start(chunks.len() as int), window, after),
    ensures
        accumulated::<T, A>(ids, n_samples, chunks.push(stems), after),
{
    let index = chunks.len() as int;
    let next = Addition {
        stems,
        start: chunk_start(index),
        length: chunk_len(index, n_samples),
    };
    law_next_addition_is_gathered::<T, A>(
        ids, n_samples, chunk_additions(n_samples, chunks), mix, next, window, after);
    assert(chunk_additions(n_samples, chunks.push(stems)) =~= chunk_additions(
        n_samples,
        chunks,
    ).push(next));
}

/// What has been gathered has a row for each stem and a weight for each sample.
pub proof fn law_gathered_shape<T, A: Arithmetic<T>>(
    ids: Seq<StemId>,
    n_samples: int,
    additions: Seq<Addition<T>>,
    mix: MixView<T>,
)
    requires
        gathered::<T, A>(ids, n_samples, additions, mix),
    ensures
        mix.shaped(ids.len() as int, n_samples),
    decreases additions.len(),
{
    if additions.len() > 0 {
        let last = additions.last();
        let (prior, window) = choose|prior: MixView<T>, window: Seq<T>|
            gathered::<T, A>(ids, n_samples, additions.drop_last(), prior)
            && is_window::<T, A>(last.length, window)
            && #[trigger] mixed_in::<T, A>(prior, ids, last.stems, last.start, window, mix);
        law_gathered_shape::<T, A>(ids, n_samples, additions.drop_last(), prior);
        assert(prior.rows(Side::Left).len() == ids.len());
    }
}

/// The row of a stem that no addition brought stays silent.
pub proof fn law_unheard_row_is_silent<T, A: Arithmetic<T>>(
    ids: Seq<StemId>,
    n_samples: int,
    additions: Seq<Addition<T>>,
    mix: MixView<T>,
    row: int,
) -> (zero: T)
    requires
        gathered::<T, A>(ids, n_samples, additions, mix),
        0 <= row < ids.len(),
        row_unheard(ids, additions, row),
    ensures
        counts::<T, A>(0, zero),
        forall|side: Side, p: int| 0 <= p < n_samples ==>
            #[trigger] mix.rows(side)[row][p] == zero,
    decreases additions.len(),
{
    law_gathered_shape::<T, A>(ids, n_samples, additions, mix);
    if additions.len() == 0 {
        let zero = choose|zero: T| #[trigger] counts::<T, A>(0, zero) && mix.filled(zero);
        assert forall|side: Side, p: int| 0 <= p < n_samples implies
            #[trigger] mix.rows(side)[row][p] == zero by {
            assert(mix.rows(side)[row].len() == n_samples);
        }
        zero
    } else {
        let last = additions.last();
        let earlier = additions.drop_last();
        let (prior, window) = choose|prior: MixView<T>, window: Seq<T>|
            gathered::<T, A>(ids, n_samples, earlier, prior)
            && is_window::<T, A>(last.length, window)
            && #[trigger] mixed_in::<T, A>(prior, ids, last.stems, last.start, window, mix);
        law_gathered_shape::<T, A>(ids, n_samples, earlier, prior);
        assert(prior.rows(Side::Left).len() == ids.len());
        assert forall|k: int, i: int|
            0 <= k < earlier.len() && 0 <= i < earlier[k].stems.len() implies
                !is_row(ids, (#[trigger] earlier[k].stems[i]).id, row) by {
            assert(additions[k].stems[i] == earlier[k].stems[i]);
        }
        let zero = law_unheard_row_is_silent::<T, A>(ids, n_samples, earlier, prior, row);
        assert forall|side: Side, p: int| 0 <= p < n_samples implies
            #[trigger] mix.rows(side)[row][p] == zero by {
            let before = prior.rows(side)[row][p];
            let after = mix.rows(side)[row][p];
            if last.start <= p < last.start + window.len() {
                assert forall|i: int| 0 <= i < last.stems.len() implies
                    !is_row(ids, (#[trigger] last.stems[i]).id, row) by {
                    assert(additions[additions.len() - 1].stems[i] == last.stems[i]);
                }
                lemma_unheard_sample::<T, A>(
                    before, window[p - last.start], ids, last.stems, row, side, p - last.start,
                    after);
            }
        }
        zero
    }
}

/// A stem that no addition brought is still among the finished ones, in its
/// place, and all of its samples are zero. That takes no more of the arithmetic
/// than that zero over something positive is zero.
pub proof fn law_unheard_stem_is_finished_silent<T, A: Arithmetic<T>>(
    ids: Seq<StemId>,
    n_samples: int,
    additions: Seq<Addition<T>>,
    mix: MixView<T>,
    stems: Seq<StemView<T>>,
    row: int,
) -> (zero: T)
    requires
        forall|z: T, w: T, q: T|
            counts::<T, A>(0, z) && positives::<T, A>(w, true)
            && #[trigger] quotients::<T, A>(z, w, q) ==> q == z,
        gathered::<T, A>(ids, n_samples, additions, mix),
        finished::<T, A>(ids, mix, stems),
        0 <= row < ids.len(),
        row_unheard(ids, additions, row),
    ensures
        counts::<T, A>(0, zero),
        stems.len() == ids.len(),
        stems[row].id == ids[row],
        forall|side: Side| (#[trigger] stems[row].channel(side)).len() == n_samples,
        forall|side: Side, p: int| 0 <= p < n_samples ==>
            #[trigger] stems[row].channel(side)[p] == zero,
{
    law_gathered_shape::<T, A>(ids, n_samples, additions, mix);
    let zero = law_unheard_row_is_silent::<T, A>(ids, n_samples, additions, mix, row);
    let stem = stems[row];
    assert(finished_row::<T, A>(mix, row, stem));
    assert forall|side: Side, p: int| 0 <= p < n_samples implies
        #[trigger] stem.channel(side)[p] == zero by {
        assert(mix.rows(Side::Left)[row][p] == zero);
        assert(mix.rows(Side::Right)[row][p] == zero);
        assert(normalized::<T, A>(
            mix.weight[p], mix.left[row][p], mix.right[row][p], stem.left[p], stem.right[p]));
    }
    zero
}

pub(crate) proof fn lemma_unheard_sample<T, A: Arithmetic<T>>(
    before: T,
    weight: T,
    ids: Seq<StemId>,
    stems: Seq<StemView<T>>,
    row: int,
    side: Side,
    i: int,
    after: T,
)
    requires
        blended::<T, A>(before, weight, ids, stems, row, side, i, after),
        forall|k: int| 0 <= k < stems.len() ==> !is_row(ids, (#[trigger] stems[k]).id, row),
    ensures
        after == before,
    decreases stems.len(),
{
    if stems.len() > 0 {
        assert(stems[stems.len() - 1] == stems.last());
        lemma_unheard_sample::<T, A>(
            before, weight, ids, stems.drop_last(), row, side, i, after);
    }
}

/// Sample `p` of the two sides of a finished stem, given what was accumulated:
/// divided by its weight if that is positive, and else left as it is.
pub open spec fn normalized<T, A: Arithmetic<T>>(
    weight: T,
    left: T,
    right: T,
    out_left: T,
    out_right: T,
) -> bool {
    exists|heard: bool| #[trigger]
        positives::<T, A>(weight, heard) && if heard {
            quotients::<T, A>(left, weight, out_left) && quotients::<T, A>(right, weight, out_right)
        } else {
            out_left == left && out_right == right
        }
}

/// `stem` is row `row` of `mix`, normalized.
pub open spec fn finished_row<T, A: Arithmetic<T>>(
    mix: MixView<T>,
    row: int,
    stem: StemView<T>,
) -> bool {
    &&& stem.left.len() == mix.weight.len()
    &&& stem.right.len() == mix.weight.len()
    &&& forall|p: int|
        #![trigger stem.left[p]]
        #![trigger stem.right[p]]
        0 <= p < mix.weight.len() ==> normalized::<T, A>(
            mix.weight[p],
            mix.left[row][p],
            mix.right[row][p],
            stem.left[p],
            stem.right[p],
        )
}

/// `stems` are the normalized rows of `mix`, named by `ids`.
pub open spec fn finished<T, A: Arithmetic<T>>(
    ids: Seq<StemId>,
    mix: MixView<T>,
    stems: Seq<StemView<T>>,
) -> bool {
    &&& stems.len() == ids.len()
    &&& forall|row: int| 0 <= row < ids.len() ==>
        (#[trigger] stems[row]).id == ids[row] && finished_row::<T, A>(mix, row, stems[row])
}

/// Every stem is one of `ids`, and has enough samples on both sides for a chunk
/// of the given length. Unless that is empty, each has its place among the
/// `rows` rows of a mix.
pub open spec fn stems_fit<T>(
    ids: Seq<StemId>,
    rows: int,
    stems: Seq<StemView<T>>,
    length: int,
) -> bool {
    forall|k: int| 0 <= k < stems.len() ==> {
        &&& ids.contains((#[trigger] stems[k]).id)
        &&& 0 < length ==> forall|row: int| #[trigger]
            is_row(ids, stems[k].id, row) ==> row < rows
        &&& length <= stems[k].left.len()
        &&& length <= stems[k].right.len()
    }
}

fn filled<T: Copy>(n: usize, value: T) -> (values: Vec<T>)
    ensures
        values@ == Seq::new(n as nat, |i: int| value),
{
    let mut values: Vec<T> = Vec::new();
    let mut i: usize = 0;
    while i < n
        invariant
            i <= n,
            values@ == Seq::new(i as nat, |j: int| value),
        decreases n - i,
    {
        values.push(value);
        i += 1;
    }
    values
}

fn filled_rows<T: Copy>(rows: usize, n: usize, value: T) -> (values: Vec<Vec<T>>)
    ensures
        values@.len() == rows,
        forall|row: int| 0 <= row < rows ==>
            (#[trigger] values@[row])@ == Seq::new(n as nat, |i: int| value),
{
    let mut values: Vec<Vec<T>> = Vec::new();
    let mut row: usize = 0;
    while row < rows
        invariant
            row <= rows,
            values@.len() == row,
            forall|r: int| 0 <= r < row ==>
                (#[trigger] values@[r])@ == Seq::new(n as nat, |i: int| value),
        decreases rows - row,
    {
        values.push(filled(n, value));
        row += 1;
    }
    values
}

/// Adds the windowed `track` to `out`, from sample `start` on.
fn mix_track<T: Copy, A: Arithmetic<T>>(
    out: &mut Vec<T>,
    start: usize,
    window: &Vec<T>,
    track: &Vec<T>,
)
    requires
        start + window@.len() <= old(out)@.len(),
        window@.len() <= track@.len(),
    ensures
        final(out)@.len() == old(out)@.len(),
        forall|p: int| 0 <= p < old(out)@.len() ==> if start <= p < start + window@.len() {
            weighted::<T, A>(
                old(out)@[p],
                window@[p - start],
                track@[p - start],
                #[trigger] final(out)@[p],
            )
        } else {
            final(out)@[p] == old(out)@[p]
        },
{
    let ghost before = out@;
    let n_samples: usize = out.len();
    let mut i: usize = 0;
    while i < window.len()
        invariant
            i <= window@.len(),
            n_samples == before.len(),
            start + window@.len() <= n_samples,
            window@.len() <= track@.len(),
            out@.len() == before.len(),
            forall|p: int| 0 <= p < before.len() ==> if start <= p < start + i {
                weighted::<T, A>(
                    before[p],
                    window@[p - start],
                    track@[p - start],
                    #[trigger] out@[p],
                )
            } else {
                out@[p] == before[p]
            },
        decreases window@.len() - i,
    {
        let scaled: T = A::times(window[i], track[i]);
        let sum: T = A::plus(out[start + i], scaled);
        assert(products::<T, A>(window@[i as int], track@[i as int], scaled));
        assert(sums::<T, A>(before[start + i], scaled, sum));
        out[start + i] = sum;
        i += 1;
    }
}

/// Adds `window` to `weights`, from sample `start` on.
fn add_weights<T: Copy, A: Arithmetic<T>>(weights: &mut Vec<T>, start: usize, window: &Vec<T>)
    requires
        start + window@.len() <= old(weights)@.len(),
    ensures
        weights_added::<T, A>(old(weights)@, start as int, window@, final(weights)@),
{
    let ghost before = weights@;
    let n_samples: usize = weights.len();
    let mut i: usize = 0;
    while i < window.len()
        invariant
            i <= window@.len(),
            n_samples == before.len(),
            start + window@.len() <= n_samples,
            weights@.len() == before.len(),
            forall|p: int| 0 <= p < before.len() ==> if start <= p < start + i {
                sums::<T, A>(before[p], window@[p - start], #[trigger] weights@[p])
            } else {
                weights@[p] == before[p]
            },
        decreases window@.len() - i,
    {
        let sum: T = A::plus(weights[start + i], window[i]);
        weights[start + i] = sum;
        i += 1;
    }
}

/// Adding stem `k` to row `row` takes what the stems before it make to what the
/// stems up to it make.
proof fn lemma_blend_stem<T, A: Arithmetic<T>>(
    before: MixView<T>,
    ids: Seq<StemId>,
    stems: Seq<StemView<T>>,
    k: int,
    start: int,
    window: Seq<T>,
    row: int,
    between: MixView<T>,
    after: MixView<T>,
)
    requires
        0 <= k < stems.len(),
        is_row(ids, stems[k].id, row),
        rows_mixed_in::<T, A>(before, ids, stems.take(k), start, window, between),
        forall|side: Side, r: int| 0 <= r < before.left.len() && r != row ==>
            #[trigger] after.rows(side)[r] == between.rows(side)[r],
        forall|side: Side, p: int| 0 <= p < before.weight.len() ==>
            if start <= p < start + window.len() {
                weighted::<T, A>(
                    between.rows(side)[row][p],
                    window[p - start],
                    stems[k].channel(side)[p - start],
                    #[trigger] after.rows(side)[row][p],
                )
            } else {
                after.rows(side)[row][p] == between.rows(side)[row][p]
            },
    ensures
        rows_mixed_in::<T, A>(before, ids, stems.take(k + 1), start, window, after),
{
    let taken = stems.take(k + 1);
    assert(taken.drop_last() =~= stems.take(k));
    assert(taken.last() == stems[k]);
    assert forall|side: Side, r: int, p: int|
        0 <= r < before.left.len() && 0 <= p < before.weight.len() implies {
            let sample = #[trigger] after.rows(side)[r][p];
            if start <= p < start + window.len() {
                blended::<T, A>(
                    before.rows(side)[r][p],
                    window[p - start],
                    ids,
                    taken,
                    r,
                    side,
                    p - start,
                    sample,
                )
            } else {
                sample == before.rows(side)[r][p]
            }
        } by {
        let earlier = between.rows(side)[r][p];
        let sample = after.rows(side)[r][p];
        if r == row {
            if start <= p < start + window.len() {
                assert(weighted::<T, A>(
                    earlier, window[p - start], taken.last().channel(side)[p - start], sample));
            }
        } else {
            assert(after.rows(side)[r] == between.rows(side)[r]);
            assert(!is_row(ids, taken.last().id, r)) by {
                if is_row(ids, taken.last().id, r) {
                    if r < row {
                        assert(ids[r] != stems[k].id);
                    } else {
                        assert(ids[row] != stems[k].id);
                    }
                }
            }
        }
    }
}

/// Accumulates triangular-windowed chunk outputs into full-length stems.
pub struct ChunkAccumulator<T> {
    out_left: Vec<Vec<T>>,
    out_right: Vec<Vec<T>>,
    sum_weight: Vec<T>,
}

impl<T> View for ChunkAccumulator<T> {
    type V = MixView<T>;

    closed spec fn view(&self) -> MixView<T> {
        MixView {
            left: Seq::new(self.out_left@.len(), |row: int| self.out_left@[row]@),
            right: Seq::new(self.out_right@.len(), |row: int| self.out_right@[row]@),
            weight: self.sum_weight@,
        }
    }
}

impl<T: Copy> ChunkAccumulator<T> {
    pub fn new<A: Arithmetic<T>>(n_stems: usize, n_samples: usize) -> (acc: Self)
        ensures
            is_silence::<T, A>(acc@, n_stems as int, n_samples as int),
    {
        let zero: T = A::count(0);
        let acc = ChunkAccumulator {
            out_left: filled_rows(n_stems, n_samples, zero),
            out_right: filled_rows(n_stems, n_samples, zero),
            sum_weight: filled(n_samples, zero),
        };
        assert(counts::<T, A>(0, zero) && acc@.filled(zero));
        acc
    }

    /// Apply a triangular window to `stems` and add them in at `start`.
    pub fn add<A: Arithmetic<T>>(
        &mut self,
        info: &ModelInfo,
        stems: &Vec<Stem<T>>,
        start: usize,
        chunk_len: usize,
    )
        requires
            old(self)@.shaped(old(self)@.left.len() as int, old(self)@.weight.len() as int),
            chunk_len > 0 ==> start + chunk_len <= old(self)@.weight.len(),
            stems_fit(
                info.stems@,
                old(self)@.left.len() as int,
                stem_views(stems@),
                chunk_len as int,
            ),
        ensures
            exists|window: Seq<T>| #[trigger]
                is_window::<T, A>(chunk_len as int, window) && mixed_in::<T, A>(
                    old(self)@,
                    info.stems@,
                    stem_views(stems@),
                    start as int,
                    window,
                    final(self)@,
                ),
    {
        let window: Vec<T> = triangular_window::<T, A>(chunk_len);
        assert(is_window::<T, A>(chunk_len as int, window@));
        if chunk_len == 0 {
            return;
        }
        self.add_rows::<A>(info, stems, start, &window);
        let ghost between = self@;
        add_weights::<T, A>(&mut self.sum_weight, start, &window);
        proof {
            assert(self@.left =~= between.left);
            assert(self@.right =~= between.right);
            assert forall|side: Side| #[trigger] self@.rows(side) == between.rows(side) by {}
        }
    }

    /// Normalize by accumulated weight and produce the final stems.
    pub fn finalize<A: Arithmetic<T>>(self, info: &ModelInfo) -> (stems: Vec<Stem<T>>)
        requires
            self@.shaped(self@.left.len() as int, self@.weight.len() as int),
            info.stems@.len() <= self@.left.len(),
        ensures
            finished::<T, A>(info.stems@, self@, stem_views(stems@)),
    {
        let n_samples: usize = self.sum_weight.len();
        let mut stems: Vec<Stem<T>> = Vec::new();
        let mut row: usize = 0;
        while row < info.stems.len()
            invariant
                row <= info.stems@.len(),
                n_samples == self@.weight.len(),
                self@.shaped(self@.left.len() as int, n_samples as int),
                info.stems@.len() <= self@.left.len(),
                stems@.len() == row,
                forall|r: int| 0 <= r < row ==> (#[trigger] stems@[r]).id == info.stems@[r]
                    && finished_row::<T, A>(self@, r, stems@[r]@),
            decreases info.stems@.len() - row,
        {
            assert(self@.rows(Side::Left)[row as int].len() == n_samples);
            assert(self@.rows(Side::Right)[row as int].len() == n_samples);
            let mut left: Vec<T> = Vec::new();
            let mut right: Vec<T> = Vec::new();
            let mut i: usize = 0;
            while i < n_samples
                invariant
                    i <= n_samples,
                    n_samples == self@.weight.len(),
                    row < self@.left.len(),
                    row < self@.right.len(),
                    self@.left[row as int].len() == n_samples,
                    self@.right[row as int].len() == n_samples,
                    left@.len() == i,
                    right@.len() == i,
                    forall|p: int|
                        #![trigger left@[p]]
                        #![trigger right@[p]]
                        0 <= p < i ==> normalized::<T, A>(
                            self@.weight[p],
                            self@.left[row as int][p],
                            self@.right[row as int][p],
                            left@[p],
                            right@[p],
                        ),
                decreases n_samples - i,
            {
                let weight: T = self.sum_weight[i];
                let heard: bool = A::is_positive(weight);
                assert(positives::<T, A>(weight, heard));
                if heard {
                    left.push(A::over(self.out_left[row][i], weight));
                    right.push(A::over(self.out_right[row][i], weight));
                } else {
                    left.push(self.out_left[row][i]);
                    right.push(self.out_right[row][i]);
                }
                i += 1;
            }
            stems.push(Stem { id: info.stems[row], left, right });
            row += 1;
        }
        stems
    }

    /// Adds the windowed `stems` to the rows.
    fn add_rows<A: Arithmetic<T>>(
        &mut self,
        info: &ModelInfo,
        stems: &Vec<Stem<T>>,
        start: usize,
        window: &Vec<T>,
    )
        requires
            old(self)@.shaped(old(self)@.left.len() as int, old(self)@.weight.len() as int),
            0 < window@.len(),
            start + window@.len() <= old(self)@.weight.len(),
            stems_fit(
                info.stems@,
                old(self)@.left.len() as int,
                stem_views(stems@),
                window@.len() as int,
            ),
        ensures
            final(self)@.shaped(old(self)@.left.len() as int, old(self)@.weight.len() as int),
            final(self)@.weight == old(self)@.weight,
            rows_mixed_in::<T, A>(
                old(self)@,
                info.stems@,
                stem_views(stems@),
                start as int,
                window@,
                final(self)@,
            ),
    {
        let ghost before = self@;
        let ghost rows = self@.left.len() as int;
        let ghost n_samples = self@.weight.len() as int;
        let ghost views = stem_views(stems@);
        let mut k: usize = 0;
        while k < stems.len()
            invariant
                k <= stems@.len(),
                views == stem_views(stems@),
                rows == before.left.len(),
                n_samples == before.weight.len(),
                before.shaped(rows, n_samples),
                0 < window@.len(),
                start + window@.len() <= n_samples,
                stems_fit(info.stems@, rows, views, window@.len() as int),
                self@.shaped(rows, n_samples),
                self@.weight == before.weight,
                rows_mixed_in::<T, A>(
                    before,
                    info.stems@,
                    views.take(k as int),
                    start as int,
                    window@,
                    self@,
                ),
            decreases stems@.len() - k,
        {
            let ghost between = self@;
            assert(views[k as int] == stems@[k as int]@);
            match stem_row(&info.stems, stems[k].id) {
                Some(row) => {
                    assert(self@.rows(Side::Left)[row as int].len() == n_samples);
                    assert(self@.rows(Side::Right)[row as int].len() == n_samples);
                    mix_track::<T, A>(&mut self.out_left[row], start, window, &stems[k].left);
                    mix_track::<T, A>(&mut self.out_right[row], start, window, &stems[k].right);
                    proof {
                        assert forall|side: Side, r: int| 0 <= r < rows && r != row implies
                            #[trigger] self@.rows(side)[r] == between.rows(side)[r] by {}
                        assert forall|side: Side, r: int| 0 <= r < rows implies
                            (#[trigger] self@.rows(side)[r]).len() == n_samples by {}
                        lemma_blend_stem::<T, A>(
                            before, info.stems@, views, k as int, start as int, window@,
                            row as int, between, self@);
                    }
                },
                None => {
                    assert(false);
                },
            }
            k += 1;
        }
        assert(views.take(stems@.len() as int) =~= views);
    }
}

} // verus!
