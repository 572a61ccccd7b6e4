//! Which parts of a network's output a stem is made of, and what follows for
//! stems that are decoded from different outputs.

use vstd::prelude::*;

use vstd::arithmetic::div_mod::{lemma_hoist_over_denominator, lemma_mod_multiples_vanish};

use crate::arithmetic::{repeatable, sums, Arithmetic};
use crate::chunk::TRAINING_LENGTH;
use crate::error::Result;
use crate::model::{Side, StemId, StemView};
use crate::segment::{
    decodes, is_input, is_padded, is_spectrum, overlaid, segment_decoded, side_decoded,
    spectrum_len, spectrum_offset, stem_decoded, transforms, waveform_offset, InputView,
    SegmentData, FREQ_BINS,
};

verus! {

/// `decode` makes at most one waveform of the same spectrum.
pub open spec fn decodes_repeatably<T, D: Fn(&[T], usize, usize, usize) -> Result<Vec<T>>>(
    decode: D,
) -> bool {
    forall|spectrum: Seq<T>, n_frames: usize, one: Vec<T>, other: Vec<T>| #[trigger]
        decodes(decode, spectrum, n_frames, Ok(one)) && #[trigger] decodes(
            decode,
            spectrum,
            n_frames,
            Ok(other),
        ) ==> one@ == other@
}

/// One side of a stem of `data` and one of `other` have the same spectrum, and
/// the time branch of the second is the start of that of the first.
pub open spec fn side_continues<T>(
    data: &SegmentData<T>,
    index: int,
    side: Side,
    other: &SegmentData<T>,
    other_index: int,
    other_side: Side,
) -> bool {
    let whole = data.waveform(index, side);
    let part = other.waveform(other_index, other_side);
    &&& data.n_frames == other.n_frames
    &&& data.spectrum(index, side) == other.spectrum(other_index, other_side)
    &&& part.len() <= whole.len()
    &&& part == whole.take(part.len() as int)
}

/// One side of a stem of `data` and one of `other` have the same spectrum and the
/// same time branch.
pub open spec fn same_side<T>(
    data: &SegmentData<T>,
    index: int,
    side: Side,
    other: &SegmentData<T>,
    other_index: int,
    other_side: Side,
) -> bool {
    &&& data.n_frames == other.n_frames
    &&& data.spectrum(index, side) == other.spectrum(other_index, other_side)
    &&& data.waveform(index, side) == other.waveform(other_index, other_side)
}

proof fn lemma_side_continues<
    T,
    A: Arithmetic<T>,
    D: Fn(&[T], usize, usize, usize) -> Result<Vec<T>>,
>(
    decode: D,
    data: &SegmentData<T>,
    index: int,
    side: Side,
    samples: Seq<T>,
    other: &SegmentData<T>,
    other_index: int,
    other_side: Side,
    part: Seq<T>,
)
    requires
        repeatable::<T, A>(),
        decodes_repeatably(decode),
        side_continues(data, index, side, other, other_index, other_side),
        side_decoded::<T, A, D>(decode, data, index, side, samples),
        side_decoded::<T, A, D>(decode, other, other_index, other_side, part),
    ensures
        samples.len() == data.waveform(index, side).len(),
        part.len() == other.waveform(other_index, other_side).len(),
        part == samples.take(part.len() as int),
{
    let whole_track = data.waveform(index, side);
    let part_track = other.waveform(other_index, other_side);
    let wave = choose|wave: Vec<T>|
        decodes(decode, data.spectrum(index, side), data.n_frames, Ok(wave))
        && #[trigger] overlaid::<T, A>(wave@, whole_track, samples);
    let again = choose|wave: Vec<T>|
        decodes(decode, other.spectrum(other_index, other_side), other.n_frames, Ok(wave))
        && #[trigger] overlaid::<T, A>(wave@, part_track, part);
    assert(wave@ == again@);
    assert forall|i: int| 0 <= i < part.len() implies part[i] == samples[i] by {
        assert(part_track[i] == whole_track[i]);
        assert(sums::<T, A>(wave@[i], whole_track[i], samples[i]));
        assert(sums::<T, A>(wave@[i], whole_track[i], part[i]));
    }
    assert(part =~= samples.take(part.len() as int));
}

proof fn lemma_same_side<
    T,
    A: Arithmetic<T>,
    D: Fn(&[T], usize, usize, usize) -> Result<Vec<T>>,
>(
    decode: D,
    data: &SegmentData<T>,
    index: int,
    side: Side,
    samples: Seq<T>,
    other: &SegmentData<T>,
    other_index: int,
    other_side: Side,
    again: Seq<T>,
)
    requires
        repeatable::<T, A>(),
        decodes_repeatably(decode),
        same_side(data, index, side, other, other_index, other_side),
        side_decoded::<T, A, D>(decode, data, index, side, samples),
        side_decoded::<T, A, D>(decode, other, other_index, other_side, again),
    ensures
        samples == again,
{
    let track = data.waveform(index, side);
    assert(track.take(track.len() as int) =~= track);
    lemma_side_continues::<T, A, D>(
        decode, data, index, side, samples, other, other_index, other_side, again);
    assert(samples.take(samples.len() as int) =~= samples);
}

/// A stem depends on its own spectra and time branches alone: wherever they stand
/// in an output, the same ones decode to the same stem.
pub proof fn law_stem_depends_on_its_blocks<
    T,
    A: Arithmetic<T>,
    D: Fn(&[T], usize, usize, usize) -> Result<Vec<T>>,
>(
    decode: D,
    data: &SegmentData<T>,
    index: int,
    other: &SegmentData<T>,
    other_index: int,
    id: StemId,
    stem: StemView<T>,
    again: StemView<T>,
)
    requires
        repeatable::<T, A>(),
        decodes_repeatably(decode),
        forall|side: Side| #[trigger] same_side(data, index, side, other, other_index, side),
        stem_decoded::<T, A, D>(decode, data, index, id, stem),
        stem_decoded::<T, A, D>(decode, other, other_index, id, again),
    ensures
        stem == again,
{
    assert forall|side: Side| #[trigger] stem.channel(side) == again.channel(side) by {
        assert(same_side(data, index, side, other, other_index, side));
        assert(side_decoded::<T, A, D>(decode, data, index, side, stem.channel(side)));
        assert(side_decoded::<T, A, D>(decode, other, other_index, side, again.channel(side)));
        lemma_same_side::<T, A, D>(
            decode, data, index, side, stem.channel(side), other, other_index, side,
            again.channel(side));
    }
    assert(stem.channel(Side::Left) == again.channel(Side::Left));
    assert(stem.channel(Side::Right) == again.channel(Side::Right));
}

/// The other side.
pub open spec fn opposite(side: Side) -> Side {
    match side {
        Side::Left => Side::Right,
        Side::Right => Side::Left,
    }
}

/// `stem`, with its sides swapped.
pub open spec fn swapped<T>(stem: StemView<T>) -> StemView<T> {
    StemView { id: stem.id, left: stem.right, right: stem.left }
}

/// `other` is `data` with the two sides of each of its `n_sources` stems swapped,
/// in both branches.
pub open spec fn sides_swapped<T>(
    data: &SegmentData<T>,
    n_sources: int,
    other: &SegmentData<T>,
) -> bool {
    forall|index: int, side: Side| 0 <= index < n_sources ==> #[trigger]
        same_side(data, index, side, other, index, opposite(side))
}

/// Swapping the two sides of every stem of an output swaps the sides of every
/// stem that is decoded from it, and changes nothing else.
pub proof fn law_swapped_sides<
    T,
    A: Arithmetic<T>,
    D: Fn(&[T], usize, usize, usize) -> Result<Vec<T>>,
>(
    decode: D,
    data: &SegmentData<T>,
    other: &SegmentData<T>,
    ids: Seq<StemId>,
    stems: Seq<StemView<T>>,
    exchanged: Seq<StemView<T>>,
)
    requires
        repeatable::<T, A>(),
        decodes_repeatably(decode),
        sides_swapped(data, ids.len() as int, other),
        segment_decoded::<T, A, D>(decode, data, ids, stems),
        segment_decoded::<T, A, D>(decode, other, ids, exchanged),
    ensures
        exchanged == Seq::new(stems.len(), |i: int| swapped(stems[i])),
{
    assert forall|i: int| 0 <= i < ids.len() implies exchanged[i] == swapped(stems[i]) by {
        assert(stem_decoded::<T, A, D>(decode, data, i, ids[i], stems[i]));
        assert(stem_decoded::<T, A, D>(decode, other, i, ids[i], exchanged[i]));
        assert forall|side: Side| #[trigger]
            stems[i].channel(side) == exchanged[i].channel(opposite(side)) by {
            let facing = opposite(side);
            assert(same_side(data, i, side, other, i, facing));
            assert(side_decoded::<T, A, D>(decode, data, i, side, stems[i].channel(side)));
            assert(side_decoded::<T, A, D>(
                decode, other, i, facing, exchanged[i].channel(facing)));
            lemma_same_side::<T, A, D>(
                decode, data, i, side, stems[i].channel(side), other, i, facing,
                exchanged[i].channel(facing));
        }
        assert(stems[i].channel(Side::Left) == exchanged[i].right);
        assert(stems[i].channel(Side::Right) == exchanged[i].left);
    }
    assert(exchanged =~= Seq::new(stems.len(), |i: int| swapped(stems[i])));
}

/// `other` is `data` but for what it holds for stem `changed`.
pub open spec fn differs_in_stem<T>(
    data: &SegmentData<T>,
    changed: int,
    other: &SegmentData<T>,
) -> bool {
    let size = 2 * spectrum_len(data.n_frames as int);
    let length = 2 * data.n_samples;
    &&& data.n_frames == other.n_frames
    &&& data.n_samples == other.n_samples
    &&& data.freq_data@.len() == other.freq_data@.len()
    &&& data.time_data@.len() == other.time_data@.len()
    &&& forall|p: int|
        0 <= p < data.freq_data@.len() && !(changed * size <= p < changed * size + size) ==>
            #[trigger] data.freq_data@[p] == other.freq_data@[p]
    &&& forall|p: int|
        0 <= p < data.time_data@.len() && !(changed * length <= p < changed * length + length)
            ==> #[trigger] data.time_data@[p] == other.time_data@[p]
}

proof fn lemma_other_blocks<T>(
    data: &SegmentData<T>,
    changed: int,
    other: &SegmentData<T>,
    n_sources: int,
    index: int,
    side: Side,
)
    requires
        data.holds(n_sources),
        differs_in_stem(data, changed, other),
        0 <= index < n_sources,
        index != changed,
    ensures
        same_side(data, index, side, other, index, side),
{
    let size = 2 * spectrum_len(data.n_frames as int);
    let length = 2 * data.n_samples as int;
    lemma_blocks_apart(size, n_sources, index, changed);
    lemma_blocks_apart(length, n_sources, index, changed);
    let from = spectrum_offset(index, side, data.n_frames as int);
    let start = waveform_offset(index, side, data.n_samples as int);
    assert forall|i: int| 0 <= i < spectrum_len(data.n_frames as int) implies
        data.spectrum(index, side)[i] == other.spectrum(index, side)[i] by {
        assert(data.freq_data@[from + i] == other.freq_data@[from + i]);
    }
    assert forall|i: int| 0 <= i < data.n_samples implies data.waveform(index, side)[i]
        == other.waveform(index, side)[i] by {
        assert(data.time_data@[start + i] == other.time_data@[start + i]);
    }
    assert(data.spectrum(index, side) =~= other.spectrum(index, side));
    assert(data.waveform(index, side) =~= other.waveform(index, side));
}

proof fn lemma_blocks_apart(size: int, n_sources: int, index: int, changed: int)
    requires
        0 <= size,
        0 <= index < n_sources,
        index != changed,
    ensures
        0 <= index * size,
        index * size + size <= n_sources * size,
        index * size + size <= changed * size || changed * size + size <= index * size,
{
    assert(0 <= index * size && index * size + size <= n_sources * size) by (nonlinear_arith)
        requires
            0 <= size,
            0 <= index,
            index + 1 <= n_sources,
    ;
    if index < changed {
        assert(index * size + size <= changed * size) by (nonlinear_arith)
            requires
                0 <= size,
                index + 1 <= changed,
        ;
    } else {
        assert(changed * size + size <= index * size) by (nonlinear_arith)
            requires
                0 <= size,
                changed + 1 <= index,
        ;
    }
}

/// What an output holds for one stem reaches no other stem.
pub proof fn law_stems_are_independent<
    T,
    A: Arithmetic<T>,
    D: Fn(&[T], usize, usize, usize) -> Result<Vec<T>>,
>(
    decode: D,
    data: &SegmentData<T>,
    changed: int,
    other: &SegmentData<T>,
    ids: Seq<StemId>,
    stems: Seq<StemView<T>>,
    others: Seq<StemView<T>>,
    index: int,
)
    requires
        repeatable::<T, A>(),
        decodes_repeatably(decode),
        data.holds(ids.len() as int),
        differs_in_stem(data, changed, other),
        segment_decoded::<T, A, D>(decode, data, ids, stems),
        segment_decoded::<T, A, D>(decode, other, ids, others),
        0 <= index < ids.len(),
        index != changed,
    ensures
        stems[index] == others[index],
{
    assert forall|side: Side| #[trigger] same_side(data, index, side, other, index, side) by {
        lemma_other_blocks(data, changed, other, ids.len() as int, index, side);
    }
    assert(stem_decoded::<T, A, D>(decode, data, index, ids[index], stems[index]));
    assert(stem_decoded::<T, A, D>(decode, other, index, ids[index], others[index]));
    law_stem_depends_on_its_blocks::<T, A, D>(
        decode, data, index, other, index, ids[index], stems[index], others[index]);
}

/// The output of a network on the device: for each channel of the frequency
/// branch a value for each bin of each frame, and for each channel of the time
/// branch a value for each sample.
pub struct NetworkOutput<T> {
    pub freq: spec_fn(int, int, int) -> T,
    pub time: spec_fn(int, int) -> T,
}

impl<T> NetworkOutput<T> {
    /// `count` channels of the frequency branch from channel `first` on, trimmed
    /// to `n_frames` frames, one bin after the other.
    pub open spec fn freq_read(self, first: int, count: int, n_frames: int) -> Seq<T> {
        Seq::new(
            (count * (FREQ_BINS * n_frames)) as nat,
            |p: int|
                (self.freq)(
                    first + p / (FREQ_BINS * n_frames),
                    (p / n_frames) % FREQ_BINS as int,
                    p % n_frames,
                ),
        )
    }

    /// `count` channels of the time branch from channel `first` on, trimmed to
    /// `n_samples` samples.
    pub open spec fn time_read(self, first: int, count: int, n_samples: int) -> Seq<T> {
        Seq::new(
            (count * n_samples) as nat,
            |p: int| (self.time)(first + p / n_samples, p % n_samples),
        )
    }

    /// `data` is what is read back of this output for all of `n_sources` stems.
    pub open spec fn read_in_bulk(self, n_sources: int, data: &SegmentData<T>) -> bool {
        &&& data.freq_data@ == self.freq_read(0, 4 * n_sources, data.n_frames as int)
        &&& data.time_data@ == self.time_read(0, 2 * n_sources, data.n_samples as int)
    }

    /// `data` is what is read back of this output for stem `index` alone.
    pub open spec fn read_alone(self, index: int, data: &SegmentData<T>) -> bool {
        &&& data.freq_data@ == self.freq_read(4 * index, 4, data.n_frames as int)
        &&& data.time_data@ == self.time_read(2 * index, 2, data.n_samples as int)
    }

    /// This output and `other` hold the same for stem `index`, over the first
    /// `n_frames` frames and `n_samples` samples.
    pub open spec fn agrees_on_stem(
        self,
        other: Self,
        index: int,
        n_frames: int,
        n_samples: int,
    ) -> bool {
        &&& forall|channel: int, bin: int, frame: int|
            4 * index <= channel < 4 * index + 4 && 0 <= bin < FREQ_BINS && 0 <= frame < n_frames
                ==> #[trigger] (self.freq)(channel, bin, frame) == (other.freq)(
                channel,
                bin,
                frame,
            )
        &&& forall|channel: int, sample: int|
            2 * index <= channel < 2 * index + 2 && 0 <= sample < n_samples ==> #[trigger]
                (self.time)(channel, sample) == (other.time)(channel, sample)
    }
}

proof fn lemma_freq_part<T>(
    output: NetworkOutput<T>,
    first: int,
    count: int,
    n_frames: int,
    skip: int,
    taken: int,
)
    requires
        0 <= n_frames,
        0 <= skip,
        0 <= taken,
        skip + taken <= count,
    ensures
        0 <= skip * (FREQ_BINS * n_frames) <= skip * (FREQ_BINS * n_frames) + taken * (FREQ_BINS
            * n_frames) <= output.freq_read(first, count, n_frames).len(),
        output.freq_read(first, count, n_frames).subrange(
            skip * (FREQ_BINS * n_frames),
            skip * (FREQ_BINS * n_frames) + taken * (FREQ_BINS * n_frames),
        ) == output.freq_read(first + skip, taken, n_frames),
{
    let d = FREQ_BINS * n_frames;
    let whole = output.freq_read(first, count, n_frames);
    let part = output.freq_read(first + skip, taken, n_frames);
    lemma_part_lies_within(d, count, skip, taken);
    assert forall|x: int| 0 <= x < taken * d implies whole[skip * d + x] == part[x] by {
        assert(d > 0 && n_frames > 0) by (nonlinear_arith)
            requires
                0 <= x < taken * d,
                0 <= taken,
                0 <= d,
                d == FREQ_BINS * n_frames,
        ;
        lemma_hoist_over_denominator(x, skip, d as nat);
        lemma_hoist_over_denominator(x, skip * FREQ_BINS, n_frames as nat);
        assert((skip * FREQ_BINS) * n_frames == skip * d) by (nonlinear_arith)
            requires
                d == FREQ_BINS * n_frames,
        ;
        lemma_mod_multiples_vanish(skip, x / n_frames, FREQ_BINS as int);
        lemma_mod_multiples_vanish(skip * FREQ_BINS, x, n_frames);
        assert(n_frames * (skip * FREQ_BINS) == skip * d) by (nonlinear_arith)
            requires
                d == FREQ_BINS * n_frames,
        ;
    }
    assert(whole.subrange(skip * d, skip * d + taken * d) =~= part);
}

proof fn lemma_part_lies_within(d: int, count: int, skip: int, taken: int)
    requires
        0 <= d,
        0 <= skip,
        0 <= taken,
        skip + taken <= count,
    ensures
        0 <= skip * d,
        0 <= taken * d,
        skip * d + taken * d <= count * d,
{
    assert(0 <= skip * d && 0 <= taken * d && skip * d + taken * d <= count * d)
        by (nonlinear_arith)
        requires
            0 <= d,
            0 <= skip,
            0 <= taken,
            skip + taken <= count,
    ;
}

proof fn lemma_time_part<T>(
    output: NetworkOutput<T>,
    first: int,
    count: int,
    n_samples: int,
    skip: int,
)
    requires
        0 <= n_samples,
        0 <= skip < count,
    ensures
        0 <= skip * n_samples <= skip * n_samples + n_samples <= output.time_read(
            first,
            count,
            n_samples,
        ).len(),
        output.time_read(first, count, n_samples).subrange(
            skip * n_samples,
            skip * n_samples + n_samples,
        ) == Seq::new(n_samples as nat, |i: int| (output.time)(first + skip, i)),
{
    let whole = output.time_read(first, count, n_samples);
    lemma_part_lies_within(n_samples, count, skip, 1);
    let part = Seq::new(n_samples as nat, |i: int| (output.time)(first + skip, i));
    assert forall|x: int| 0 <= x < n_samples implies whole[skip * n_samples + x] == part[x] by {
        lemma_hoist_over_denominator(x, skip, n_samples as nat);
        lemma_mod_multiples_vanish(skip, x, n_samples);
        assert(n_samples * skip == skip * n_samples) by (nonlinear_arith);
        assert(x / n_samples == 0 && x % n_samples == x) by (nonlinear_arith)
            requires
                0 <= x < n_samples,
        ;
    }
    assert(whole.subrange(skip * n_samples, skip * n_samples + n_samples) =~= part);
}

/// The channel of the frequency branch at which one side of stem `index` starts.
pub open spec fn freq_channel(index: int, side: Side) -> int {
    match side {
        Side::Left => 4 * index,
        Side::Right => 4 * index + 2,
    }
}

/// The channel of the time branch for one side of stem `index`.
pub open spec fn time_channel(index: int, side: Side) -> int {
    match side {
        Side::Left => 2 * index,
        Side::Right => 2 * index + 1,
    }
}

proof fn lemma_blocks_of_channels<T>(
    output: NetworkOutput<T>,
    first: int,
    count: int,
    data: &SegmentData<T>,
    index: int,
    side: Side,
)
    requires
        0 <= index < count,
        data.freq_data@ == output.freq_read(4 * first, 4 * count, data.n_frames as int),
        data.time_data@ == output.time_read(2 * first, 2 * count, data.n_samples as int),
    ensures
        data.spectrum(index, side) == output.freq_read(
            freq_channel(first + index, side),
            2,
            data.n_frames as int,
        ),
        data.waveform(index, side) == Seq::new(
            data.n_samples as nat,
            |i: int| (output.time)(time_channel(first + index, side), i),
        ),
{
    let n_frames = data.n_frames as int;
    let n_samples = data.n_samples as int;
    let d = FREQ_BINS * n_frames;
    let skip = freq_channel(index, side);
    lemma_freq_part(output, 4 * first, 4 * count, n_frames, skip, 2);
    assert(2 * FREQ_BINS * n_frames == 2 * (FREQ_BINS * n_frames)) by (nonlinear_arith);
    assert(spectrum_len(n_frames) == 2 * d);
    assert(index * (2 * (2 * d)) == (4 * index) * d) by (nonlinear_arith);
    assert((4 * index + 2) * d == (4 * index) * d + 2 * d) by (nonlinear_arith);
    assert(spectrum_offset(index, side, n_frames) == skip * d);
    assert(4 * first + skip == freq_channel(first + index, side));

    let hop = time_channel(index, side);
    lemma_time_part(output, 2 * first, 2 * count, n_samples, hop);
    assert(index * (2 * n_samples) == (2 * index) * n_samples) by (nonlinear_arith);
    assert((2 * index + 1) * n_samples == (2 * index) * n_samples + n_samples)
        by (nonlinear_arith);
    assert(waveform_offset(index, side, n_samples) == hop * n_samples);
    assert(2 * first + hop == time_channel(first + index, side));
}

proof fn lemma_bulk_blocks<T>(
    output: NetworkOutput<T>,
    n_sources: int,
    data: &SegmentData<T>,
    index: int,
    side: Side,
)
    requires
        0 <= index < n_sources,
        output.read_in_bulk(n_sources, data),
    ensures
        data.spectrum(index, side) == output.freq_read(
            freq_channel(index, side),
            2,
            data.n_frames as int,
        ),
        data.waveform(index, side) == Seq::new(
            data.n_samples as nat,
            |i: int| (output.time)(time_channel(index, side), i),
        ),
{
    lemma_blocks_of_channels(output, 0, n_sources, data, index, side);
}

proof fn lemma_single_blocks<T>(
    output: NetworkOutput<T>,
    index: int,
    data: &SegmentData<T>,
    side: Side,
)
    requires
        output.read_alone(index, data),
    ensures
        data.spectrum(0, side) == output.freq_read(
            freq_channel(index, side),
            2,
            data.n_frames as int,
        ),
        data.waveform(0, side) == Seq::new(
            data.n_samples as nat,
            |i: int| (output.time)(time_channel(index, side), i),
        ),
{
    lemma_blocks_of_channels(output, index, 1, data, 0, side);
}

/// A stem that is read back and decoded alone is the same stem as that of the
/// bulk read.
pub proof fn law_stem_alone_is_stem_of_bulk<
    T,
    A: Arithmetic<T>,
    D: Fn(&[T], usize, usize, usize) -> Result<Vec<T>>,
>(
    decode: D,
    output: NetworkOutput<T>,
    bulk: &SegmentData<T>,
    ids: Seq<StemId>,
    stems: Seq<StemView<T>>,
    index: int,
    alone: &SegmentData<T>,
    stem: StemView<T>,
)
    requires
        repeatable::<T, A>(),
        decodes_repeatably(decode),
        0 <= index < ids.len(),
        bulk.n_frames == alone.n_frames,
        bulk.n_samples == alone.n_samples,
        output.read_in_bulk(ids.len() as int, bulk),
        output.read_alone(index, alone),
        segment_decoded::<T, A, D>(decode, bulk, ids, stems),
        stem_decoded::<T, A, D>(decode, alone, 0, ids[index], stem),
    ensures
        stem == stems[index],
{
    assert forall|side: Side| #[trigger] same_side(bulk, index, side, alone, 0, side) by {
        lemma_bulk_blocks(output, ids.len() as int, bulk, index, side);
        lemma_single_blocks(output, index, alone, side);
    }
    assert(stem_decoded::<T, A, D>(decode, bulk, index, ids[index], stems[index]));
    law_stem_depends_on_its_blocks::<T, A, D>(
        decode, bulk, index, alone, 0, ids[index], stems[index], stem);
}

/// A stem that is read back alone depends on its own channels alone, and only as
/// far as they are read: other stems, and what lies beyond the last frame or
/// sample, have no influence. It has all samples of the segment.
pub proof fn law_stem_depends_on_its_channels<
    T,
    A: Arithmetic<T>,
    D: Fn(&[T], usize, usize, usize) -> Result<Vec<T>>,
>(
    decode: D,
    output: NetworkOutput<T>,
    other: NetworkOutput<T>,
    index: int,
    data: &SegmentData<T>,
    again: &SegmentData<T>,
    id: StemId,
    stem: StemView<T>,
    same: StemView<T>,
)
    requires
        repeatable::<T, A>(),
        decodes_repeatably(decode),
        data.n_frames == again.n_frames,
        data.n_samples == again.n_samples,
        output.agrees_on_stem(other, index, data.n_frames as int, data.n_samples as int),
        output.read_alone(index, data),
        other.read_alone(index, again),
        stem_decoded::<T, A, D>(decode, data, 0, id, stem),
        stem_decoded::<T, A, D>(decode, again, 0, id, same),
    ensures
        stem == same,
        stem.id == id,
        stem.left.len() == data.n_samples,
        stem.right.len() == data.n_samples,
{
    let n_frames = data.n_frames as int;
    assert forall|side: Side| #[trigger] same_side(data, 0, side, again, 0, side) by {
        lemma_single_blocks(output, index, data, side);
        lemma_single_blocks(other, index, again, side);
        let channel = freq_channel(index, side);
        let one = output.freq_read(channel, 2, n_frames);
        let two = other.freq_read(channel, 2, n_frames);
        let d = FREQ_BINS * n_frames;
        assert forall|p: int| 0 <= p < one.len() implies one[p] == two[p] by {
            assert(0 <= p / d < 2 && 0 <= p % n_frames < n_frames) by (nonlinear_arith)
                requires
                    0 <= p < 2 * d,
                    d == FREQ_BINS * n_frames,
                    0 <= n_frames,
            ;
            let bin = (p / n_frames) % FREQ_BINS as int;
            assert((output.freq)(channel + p / d, bin, p % n_frames) == (other.freq)(
                channel + p / d,
                bin,
                p % n_frames,
            ));
        }
        assert(one =~= two);
        assert(data.waveform(0, side) =~= again.waveform(0, side));
    }
    law_stem_depends_on_its_blocks::<T, A, D>(decode, data, 0, again, 0, id, stem, same);
    assert forall|side: Side| (#[trigger] stem.channel(side)).len() == data.n_samples by {
        lemma_single_blocks(output, index, data, side);
        assert(side_decoded::<T, A, D>(decode, data, 0, side, stem.channel(side)));
    }
    assert(stem.channel(Side::Left).len() == data.n_samples);
    assert(stem.channel(Side::Right).len() == data.n_samples);
}

/// The first `n_samples` samples of a stem.
pub open spec fn cut_to<T>(stem: StemView<T>, n_samples: int) -> StemView<T> {
    StemView {
        id: stem.id,
        left: stem.left.take(n_samples),
        right: stem.right.take(n_samples),
    }
}

proof fn lemma_stem_continues<
    T,
    A: Arithmetic<T>,
    D: Fn(&[T], usize, usize, usize) -> Result<Vec<T>>,
>(
    decode: D,
    data: &SegmentData<T>,
    index: int,
    stem: StemView<T>,
    other: &SegmentData<T>,
    other_index: int,
    part: StemView<T>,
    id: StemId,
)
    requires
        repeatable::<T, A>(),
        decodes_repeatably(decode),
        forall|side: Side| #[trigger]
            side_continues(data, index, side, other, other_index, side)
            && other.waveform(other_index, side).len() == other.n_samples,
        stem_decoded::<T, A, D>(decode, data, index, id, stem),
        stem_decoded::<T, A, D>(decode, other, other_index, id, part),
    ensures
        part == cut_to(stem, other.n_samples as int),
{
    assert forall|side: Side| #[trigger]
        part.channel(side) == stem.channel(side).take(other.n_samples as int) by {
        assert(side_continues(data, index, side, other, other_index, side));
        assert(side_decoded::<T, A, D>(decode, data, index, side, stem.channel(side)));
        assert(side_decoded::<T, A, D>(decode, other, other_index, side, part.channel(side)));
        lemma_side_continues::<T, A, D>(
            decode, data, index, side, stem.channel(side), other, other_index, side,
            part.channel(side));
    }
    assert(part.channel(Side::Left) == stem.channel(Side::Left).take(other.n_samples as int));
    assert(part.channel(Side::Right) == stem.channel(Side::Right).take(other.n_samples as int));
}

/// `transform` makes at most one spectrum of the same samples.
pub open spec fn transforms_repeatably<T, C, F: Fn(&[T]) -> Result<Vec<C>>>(transform: F) -> bool {
    forall|one: &[T], other: &[T], spectrum: Vec<C>, again: Vec<C>|
        one@ == other@ && #[trigger] call_ensures(transform, (one,), Ok::<Vec<C>, _>(spectrum))
            && #[trigger] call_ensures(transform, (other,), Ok::<Vec<C>, _>(again)) ==> spectrum@
            == again@
}

proof fn lemma_padding_twice<T>(channel: Seq<T>, zero: T, padded: Seq<T>, one: Seq<T>, two: Seq<T>)
    requires
        channel.len() <= TRAINING_LENGTH,
        is_padded(channel, zero, padded),
        is_padded(channel, zero, one),
        is_padded(padded, zero, two),
    ensures
        one == two,
{
    assert(one =~= two);
}

/// A segment that is padded beforehand gives the same network input as one that
/// is padded for the input.
pub proof fn law_padding_keeps_input<T, C, F: Fn(&[T]) -> Result<Vec<C>>>(
    transform: F,
    left: Seq<T>,
    right: Seq<T>,
    zero: T,
    padded_left: Seq<T>,
    padded_right: Seq<T>,
    input: InputView<T, C>,
    padded_input: InputView<T, C>,
)
    requires
        transforms_repeatably(transform),
        left.len() <= TRAINING_LENGTH,
        right.len() <= TRAINING_LENGTH,
        is_padded(left, zero, padded_left),
        is_padded(right, zero, padded_right),
        is_input(transform, left, right, zero, input),
        is_input(transform, padded_left, padded_right, zero, padded_input),
    ensures
        input == padded_input,
{
    lemma_padding_keeps_spectrum(
        transform, left, zero, padded_left, input.left, padded_input.left);
    lemma_padding_keeps_spectrum(
        transform, right, zero, padded_right, input.right, padded_input.right);
    let half = TRAINING_LENGTH as int;
    let one = input.time_data;
    let two = padded_input.time_data;
    lemma_padding_twice(left, zero, padded_left, one.subrange(0, half), two.subrange(0, half));
    lemma_padding_twice(
        right, zero, padded_right, one.subrange(half, 2 * half), two.subrange(half, 2 * half));
    assert forall|i: int| 0 <= i < 2 * half implies one[i] == two[i] by {
        if i < half {
            assert(one.subrange(0, half)[i] == two.subrange(0, half)[i]);
        } else {
            assert(one.subrange(half, 2 * half)[i - half] == two.subrange(half, 2 * half)[i
                - half]);
        }
    }
    assert(one =~= two);
}

proof fn lemma_padding_keeps_spectrum<T, C, F: Fn(&[T]) -> Result<Vec<C>>>(
    transform: F,
    channel: Seq<T>,
    zero: T,
    padded: Seq<T>,
    spectrum: Seq<C>,
    again: Seq<C>,
)
    requires
        transforms_repeatably(transform),
        channel.len() <= TRAINING_LENGTH,
        is_padded(channel, zero, padded),
        is_spectrum(transform, channel, zero, spectrum),
        is_spectrum(transform, padded, zero, again),
    ensures
        spectrum == again,
{
    let one = choose|values: Vec<C>|
        values@ == spectrum && #[trigger] transforms(transform, channel, zero, Ok(values));
    let two = choose|values: Vec<C>|
        values@ == again && #[trigger] transforms(transform, padded, zero, Ok(values));
    let first = choose|values: &[T]|
        is_padded(channel, zero, values@)
        && #[trigger] call_ensures(transform, (values,), Ok::<Vec<C>, _>(one));
    let second = choose|values: &[T]|
        is_padded(padded, zero, values@)
        && #[trigger] call_ensures(transform, (values,), Ok::<Vec<C>, _>(two));
    lemma_padding_twice(channel, zero, padded, first@, second@);
}

/// A short segment gives the stems of its padded form, cut to its own length:
/// the network is run on the same input, and its output is read back only as far
/// as the segment goes.
pub proof fn law_short_segment_is_cut_of_padded<
    T,
    C,
    A: Arithmetic<T>,
    F: Fn(&[T]) -> Result<Vec<C>>,
    D: Fn(&[T], usize, usize, usize) -> Result<Vec<T>>,
>(
    transform: F,
    network: spec_fn(InputView<T, C>) -> NetworkOutput<T>,
    decode: D,
    left: Seq<T>,
    right: Seq<T>,
    zero: T,
    padded_left: Seq<T>,
    padded_right: Seq<T>,
    input: InputView<T, C>,
    padded_input: InputView<T, C>,
    data: &SegmentData<T>,
    padded_data: &SegmentData<T>,
    ids: Seq<StemId>,
    stems: Seq<StemView<T>>,
    padded_stems: Seq<StemView<T>>,
)
    requires
        repeatable::<T, A>(),
        transforms_repeatably(transform),
        decodes_repeatably(decode),
        left.len() == right.len() <= TRAINING_LENGTH,
        is_padded(left, zero, padded_left),
        is_padded(right, zero, padded_right),
        is_input(transform, left, right, zero, input),
        is_input(transform, padded_left, padded_right, zero, padded_input),
        data.n_frames == input.n_frames,
        data.n_samples == left.len(),
        network(input).read_in_bulk(ids.len() as int, data),
        padded_data.n_frames == padded_input.n_frames,
        padded_data.n_samples == TRAINING_LENGTH,
        network(padded_input).read_in_bulk(ids.len() as int, padded_data),
        segment_decoded::<T, A, D>(decode, data, ids, stems),
        segment_decoded::<T, A, D>(decode, padded_data, ids, padded_stems),
    ensures
        stems == Seq::new(
            padded_stems.len(),
            |i: int| cut_to(padded_stems[i], left.len() as int),
        ),
{
    law_padding_keeps_input(
        transform, left, right, zero, padded_left, padded_right, input, padded_input);
    let output = network(input);
    let n_samples = left.len() as int;
    assert forall|i: int| 0 <= i < ids.len() implies stems[i] == cut_to(
        padded_stems[i],
        n_samples,
    ) by {
        assert forall|side: Side| #[trigger]
            side_continues(padded_data, i, side, data, i, side)
            && data.waveform(i, side).len() == data.n_samples by {
            lemma_bulk_blocks(output, ids.len() as int, data, i, side);
            lemma_bulk_blocks(output, ids.len() as int, padded_data, i, side);
            assert(data.waveform(i, side) =~= padded_data.waveform(i, side).take(n_samples));
        }
        assert(stem_decoded::<T, A, D>(decode, data, i, ids[i], stems[i]));
        assert(stem_decoded::<T, A, D>(decode, padded_data, i, ids[i], padded_stems[i]));
        lemma_stem_continues::<T, A, D>(
            decode, padded_data, i, padded_stems[i], data, i, stems[i], ids[i]);
    }
    assert(stems =~= Seq::new(padded_stems.len(), |i: int| cut_to(padded_stems[i], n_samples)));
}

/// A stem of a short segment that is read back alone is that of the padded
/// segment, cut to the length of the short one.
pub proof fn law_short_stem_is_cut_of_padded<
    T,
    C,
    A: Arithmetic<T>,
    F: Fn(&[T]) -> Result<Vec<C>>,
    D: Fn(&[T], usize, usize, usize) -> Result<Vec<T>>,
>(
    transform: F,
    network: spec_fn(InputView<T, C>) -> NetworkOutput<T>,
    decode: D,
    left: Seq<T>,
    right: Seq<T>,
    zero: T,
    padded_left: Seq<T>,
    padded_right: Seq<T>,
    input: InputView<T, C>,
    padded_input: InputView<T, C>,
    index: int,
    data: &SegmentData<T>,
    padded_data: &SegmentData<T>,
    id: StemId,
    stem: StemView<T>,
    padded_stem: StemView<T>,
)
    requires
        repeatable::<T, A>(),
        transforms_repeatably(transform),
        decodes_repeatably(decode),
        left.len() == right.len() <= TRAINING_LENGTH,
        is_padded(left, zero, padded_left),
        is_padded(right, zero, padded_right),
        is_input(transform, left, right, zero, input),
        is_input(transform, padded_left, padded_right, zero, padded_input),
        data.n_frames == input.n_frames,
        data.n_samples == left.len(),
        network(input).read_alone(index, data),
        padded_data.n_frames == padded_input.n_frames,
        padded_data.n_samples == TRAINING_LENGTH,
        network(padded_input).read_alone(index, padded_data),
        stem_decoded::<T, A, D>(decode, data, 0, id, stem),
        stem_decoded::<T, A, D>(decode, padded_data, 0, id, padded_stem),
    ensures
        stem == cut_to(padded_stem, left.len() as int),
{
    law_padding_keeps_input(
        transform, left, right, zero, padded_left, padded_right, input, padded_input);
    let output = network(input);
    assert forall|side: Side| #[trigger]
        side_continues(padded_data, 0, side, data, 0, side)
        && data.waveform(0, side).len() == data.n_samples by {
        lemma_single_blocks(output, index, data, side);
        lemma_single_blocks(output, index, padded_data, side);
        assert(data.waveform(0, side) =~= padded_data.waveform(0, side).take(
            left.len() as int,
        ));
    }
    lemma_stem_continues::<T, A, D>(
        decode, padded_data, 0, padded_stem, data, 0, stem, id);
}

} // verus!
