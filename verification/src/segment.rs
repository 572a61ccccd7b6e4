//! One segment: the input buffers of the network and what is made of its
//! output.
//!
//! The network puts out two branches. The frequency branch holds for each stem
//! a left and a right spectrum, each as real and imaginary parts (CaC) over
//! bins and frames. The time branch holds for each stem a left and a right
//! waveform. A stem is the waveform of its spectrum plus its time branch.

use vstd::prelude::*;

use crate::arithmetic::{sums, Arithmetic};
use crate::chunk::TRAINING_LENGTH;
use crate::error::{DemucsError, Result};
use crate::model::{stem_views, ModelInfo, Side, Stem, StemId, StemView};
use crate::step::are_stems;

verus! {

pub const N_FFT: usize = 4096;

pub const HOP_LENGTH: usize = 1024;

/// Frequency bins per spectrum: half as many as a transform has points.
pub const FREQ_BINS: usize = 2048;

/// `padded` is `channel`, with as many times `zero` after it as a network input
/// is longer.
pub open spec fn is_padded<T>(channel: Seq<T>, zero: T, padded: Seq<T>) -> bool {
    &&& padded.len() == TRAINING_LENGTH
    &&& forall|i: int| 0 <= i < TRAINING_LENGTH ==> #[trigger] padded[i] == if i < channel.len() {
        channel[i]
    } else {
        zero
    }
}

/// `channel`, with as many times `zero` after it as a network input is longer.
pub fn pad_channel<T: Copy>(channel: &[T], zero: T) -> (padded: Vec<T>)
    requires
        channel@.len() <= TRAINING_LENGTH,
    ensures
        is_padded(channel@, zero, padded@),
{
    let mut padded: Vec<T> = Vec::new();
    let mut i: usize = 0;
    while i < TRAINING_LENGTH
        invariant
            i <= TRAINING_LENGTH,
            channel@.len() <= TRAINING_LENGTH,
            padded@.len() == i,
            forall|j: int| 0 <= j < i ==> #[trigger] padded@[j] == if j < channel@.len() {
                channel@[j]
            } else {
                zero
            },
        decreases TRAINING_LENGTH - i,
    {
        if i < channel.len() {
            padded.push(channel[i]);
        } else {
            padded.push(zero);
        }
        i += 1;
    }
    padded
}

/// Both channels of a segment, padded to the length of a network input. The
/// segment is no longer than that, and each channel has all of its samples.
pub fn pad_segment<T: Copy>(left: &[T], right: &[T], n_samples: usize, zero: T) -> (padded: (
    Vec<T>,
    Vec<T>,
))
    requires
        n_samples <= TRAINING_LENGTH,
        left@.len() == n_samples,
        right@.len() == n_samples,
    ensures
        is_padded(left@, zero, padded.0@),
        is_padded(right@, zero, padded.1@),
{
    (pad_channel(left, zero), pad_channel(right, zero))
}

/// The data of the time-domain input, which has the shape
/// `[1, 2, padded_len]`: the left channel, and from `padded_len` on the right
/// one.
pub fn time_input<T: Copy>(
    left: &[T],
    right: &[T],
    padded_len: usize,
    zero: T,
) -> (data: Vec<T>)
    requires
        2 * padded_len <= usize::MAX,
        left@.len() <= 2 * padded_len,
        right@.len() <= padded_len,
    ensures
        data@.len() == 2 * padded_len,
        forall|i: int| 0 <= i < 2 * padded_len ==> #[trigger] data@[i] == if padded_len <= i
            < padded_len + right@.len() {
            right@[i - padded_len]
        } else if i < left@.len() {
            left@[i]
        } else {
            zero
        },
{
    let total: usize = 2 * padded_len;
    let mut data: Vec<T> = Vec::new();
    let mut i: usize = 0;
    while i < total
        invariant
            i <= total,
            total == 2 * padded_len,
            left@.len() <= total,
            right@.len() <= padded_len,
            data@.len() == i,
            forall|j: int| 0 <= j < i ==> #[trigger] data@[j] == if padded_len <= j < padded_len
                + right@.len() {
                right@[j - padded_len]
            } else if j < left@.len() {
                left@[j]
            } else {
                zero
            },
        decreases total - i,
    {
        if padded_len <= i && i - padded_len < right.len() {
            data.push(right[i - padded_len]);
        } else if i < left.len() {
            data.push(left[i]);
        } else {
            data.push(zero);
        }
        i += 1;
    }
    data
}

/// The number of frames in a spectrum of `spectrum_len` complex values.
pub fn frame_count(spectrum_len: usize) -> (n_frames: usize)
    ensures
        n_frames == spectrum_len / FREQ_BINS,
{
    spectrum_len / FREQ_BINS
}

/// `result` is a result of transforming `channel`, padded with `zero` to the
/// length of a network input.
pub open spec fn transforms<T, C, F: Fn(&[T]) -> Result<Vec<C>>>(
    transform: F,
    channel: Seq<T>,
    zero: T,
    result: Result<Vec<C>>,
) -> bool {
    exists|values: &[T]|
        is_padded(channel, zero, values@) && #[trigger] call_ensures(transform, (values,), result)
}

/// Transforming the padded sides of a segment can fail with `error`: on the left
/// side, or after that went well on the right one.
pub open spec fn spectra_failed<T, C, F: Fn(&[T]) -> Result<Vec<C>>>(
    transform: F,
    left: Seq<T>,
    right: Seq<T>,
    zero: T,
    error: DemucsError,
) -> bool {
    ||| transforms::<T, C, F>(transform, left, zero, Err(error))
    ||| {
        &&& exists|spectrum: Vec<C>| #[trigger] transforms(transform, left, zero, Ok(spectrum))
        &&& transforms::<T, C, F>(transform, right, zero, Err(error))
    }
}

/// The spectra that `transform` makes of both channels of a segment, each padded
/// to the length of a network input, and their number of frames, which is that
/// of the left one.
///
/// Fails with the first error of `transform`.
pub fn segment_spectra<T: Copy, C, F: Fn(&[T]) -> Result<Vec<C>>>(
    left: &[T],
    right: &[T],
    n_samples: usize,
    zero: T,
    transform: &F,
) -> (result: Result<(Vec<C>, Vec<C>, usize)>)
    requires
        n_samples <= TRAINING_LENGTH,
        left@.len() == n_samples,
        right@.len() == n_samples,
        forall|values: &[T]| values@.len() == TRAINING_LENGTH ==>
            #[trigger] call_requires(*transform, (values,)),
    ensures
        match result {
            Ok((left_spectrum, right_spectrum, n_frames)) => {
                &&& transforms(*transform, left@, zero, Ok(left_spectrum))
                &&& transforms(*transform, right@, zero, Ok(right_spectrum))
                &&& n_frames == left_spectrum@.len() / FREQ_BINS as nat
            },
            Err(error) => spectra_failed::<T, C, F>(*transform, left@, right@, zero, error),
        },
{
    let (left_padded, right_padded) = pad_segment(left, right, n_samples, zero);
    let left_result: Result<Vec<C>> = transform(left_padded.as_slice());
    assert(transforms(*transform, left@, zero, left_result));
    let left_spectrum: Vec<C> = match left_result {
        Ok(spectrum) => spectrum,
        Err(error) => {
            return Err(error);
        },
    };
    let right_result: Result<Vec<C>> = transform(right_padded.as_slice());
    assert(transforms(*transform, right@, zero, right_result));
    let right_spectrum: Vec<C> = match right_result {
        Ok(spectrum) => spectrum,
        Err(error) => {
            return Err(error);
        },
    };
    let n_frames: usize = frame_count(left_spectrum.len());
    Ok((left_spectrum, right_spectrum, n_frames))
}

/// What a network is run on, in host memory: the spectra of both sides, their
/// number of frames, and the data of the time-domain input.
pub struct SegmentInput<T, C> {
    pub left: Vec<C>,
    pub right: Vec<C>,
    pub n_frames: usize,
    pub time_data: Vec<T>,
}

/// The contents of a [`SegmentInput`].
pub struct InputView<T, C> {
    pub left: Seq<C>,
    pub right: Seq<C>,
    pub n_frames: usize,
    pub time_data: Seq<T>,
}

impl<T, C> View for SegmentInput<T, C> {
    type V = InputView<T, C>;

    open spec fn view(&self) -> InputView<T, C> {
        InputView {
            left: self.left@,
            right: self.right@,
            n_frames: self.n_frames,
            time_data: self.time_data@,
        }
    }
}

/// `spectrum` is a result of transforming the padded `channel`.
pub open spec fn is_spectrum<T, C, F: Fn(&[T]) -> Result<Vec<C>>>(
    transform: F,
    channel: Seq<T>,
    zero: T,
    spectrum: Seq<C>,
) -> bool {
    exists|values: Vec<C>|
        values@ == spectrum && #[trigger] transforms(transform, channel, zero, Ok(values))
}

/// `data` is one padded channel after the other.
pub open spec fn is_time_data<T>(left: Seq<T>, right: Seq<T>, zero: T, data: Seq<T>) -> bool {
    &&& data.len() == 2 * TRAINING_LENGTH
    &&& is_padded(left, zero, data.subrange(0, TRAINING_LENGTH as int))
    &&& is_padded(right, zero, data.subrange(TRAINING_LENGTH as int, 2 * TRAINING_LENGTH))
}

/// `input` is a network input for a segment of the given channels.
pub open spec fn is_input<T, C, F: Fn(&[T]) -> Result<Vec<C>>>(
    transform: F,
    left: Seq<T>,
    right: Seq<T>,
    zero: T,
    input: InputView<T, C>,
) -> bool {
    &&& is_spectrum(transform, left, zero, input.left)
    &&& is_spectrum(transform, right, zero, input.right)
    &&& input.n_frames == input.left.len() / FREQ_BINS as nat
    &&& is_time_data(left, right, zero, input.time_data)
}

/// Builds the network input for a segment, in host memory.
///
/// Fails with the first error of `transform`.
pub fn segment_input<T: Copy, C, F: Fn(&[T]) -> Result<Vec<C>>>(
    left: &[T],
    right: &[T],
    n_samples: usize,
    zero: T,
    transform: &F,
) -> (result: Result<SegmentInput<T, C>>)
    requires
        n_samples <= TRAINING_LENGTH,
        left@.len() == n_samples,
        right@.len() == n_samples,
        forall|values: &[T]| values@.len() == TRAINING_LENGTH ==>
            #[trigger] call_requires(*transform, (values,)),
    ensures
        match result {
            Ok(input) => is_input(*transform, left@, right@, zero, input@),
            Err(error) => spectra_failed::<T, C, F>(*transform, left@, right@, zero, error),
        },
{
    match segment_spectra(left, right, n_samples, zero, transform) {
        Ok((left_spectrum, right_spectrum, n_frames)) => {
            let time_data: Vec<T> = time_input(left, right, TRAINING_LENGTH, zero);
            Ok(
                SegmentInput {
                    left: left_spectrum,
                    right: right_spectrum,
                    n_frames,
                    time_data,
                },
            )
        },
        Err(error) => Err(error),
    }
}

/// How many samples a spectrum of one side takes: a real and an imaginary part
/// for each bin of each frame.
pub open spec fn spectrum_len(n_frames: int) -> int {
    2 * FREQ_BINS * n_frames
}

/// The number of samples in the two branches for `n_sources` stems.
pub fn branch_lengths(n_sources: usize, n_frames: usize, n_samples: usize) -> (lengths: (
    usize,
    usize,
))
    requires
        4 * FREQ_BINS * n_sources <= usize::MAX,
        n_sources * (2 * spectrum_len(n_frames as int)) <= usize::MAX,
        n_sources * (2 * n_samples) <= usize::MAX,
    ensures
        lengths.0 == n_sources * (2 * spectrum_len(n_frames as int)),
        lengths.1 == n_sources * (2 * n_samples),
{
    proof {
        assert(n_sources * (2 * spectrum_len(n_frames as int)) == n_sources * 4 * FREQ_BINS
            * n_frames) by (nonlinear_arith)
            requires
                spectrum_len(n_frames as int) == 2 * FREQ_BINS * n_frames,
        ;
        assert(n_sources * 4 * FREQ_BINS == 4 * FREQ_BINS * n_sources) by (nonlinear_arith);
        assert(n_sources * (2 * n_samples) == n_sources * 2 * n_samples) by (nonlinear_arith);
    }
    (n_sources * 4 * FREQ_BINS * n_frames, n_sources * 2 * n_samples)
}

/// The output channels that belong to one stem: `freq.1` from `freq.0` on in
/// the frequency branch, and `time.1` from `time.0` on in the time branch.
pub struct StemChannels {
    pub freq: (usize, usize),
    pub time: (usize, usize),
}

/// The output channels of stem `index`.
pub fn stem_channels(index: usize) -> (channels: StemChannels)
    requires
        4 * index <= usize::MAX,
    ensures
        channels.freq == ((4 * index) as usize, 4usize),
        channels.time == ((2 * index) as usize, 2usize),
{
    StemChannels { freq: (4 * index, 4), time: (2 * index, 2) }
}

/// A segment's network output in host memory.
pub struct SegmentData<T> {
    pub freq_data: Vec<T>,
    pub time_data: Vec<T>,
    pub n_frames: usize,
    pub n_samples: usize,
}

/// The place of one side's spectrum of stem `index` in the frequency branch.
pub open spec fn spectrum_offset(index: int, side: Side, n_frames: int) -> int {
    index * (2 * spectrum_len(n_frames)) + match side {
        Side::Left => 0,
        Side::Right => spectrum_len(n_frames),
    }
}

/// The place of one side's waveform of stem `index` in the time branch.
pub open spec fn waveform_offset(index: int, side: Side, n_samples: int) -> int {
    index * (2 * n_samples) + match side {
        Side::Left => 0,
        Side::Right => n_samples,
    }
}

impl<T> SegmentData<T> {
    /// The branches hold at least `n_sources` stems.
    pub open spec fn holds(&self, n_sources: int) -> bool {
        &&& n_sources * (2 * spectrum_len(self.n_frames as int)) <= self.freq_data@.len()
        &&& n_sources * (2 * self.n_samples) <= self.time_data@.len()
    }

    pub open spec fn spectrum(&self, index: int, side: Side) -> Seq<T> {
        let offset = spectrum_offset(index, side, self.n_frames as int);
        self.freq_data@.subrange(offset, offset + spectrum_len(self.n_frames as int))
    }

    pub open spec fn waveform(&self, index: int, side: Side) -> Seq<T> {
        let offset = waveform_offset(index, side, self.n_samples as int);
        self.time_data@.subrange(offset, offset + self.n_samples)
    }
}

/// The stems tile both branches: no two sides share a sample, none reaches
/// beyond what the stems take together, and together they leave none out.
pub proof fn law_stems_tile_branches(n_sources: int, size: int, place: int) -> (found: (int, Side))
    requires
        0 < size,
        0 <= place < n_sources * (2 * size),
    ensures
        0 <= found.0 < n_sources,
        waveform_offset(found.0, found.1, size) <= place < waveform_offset(found.0, found.1, size)
            + size,
        forall|index: int, side: Side| #[trigger]
            waveform_offset(index, side, size) <= place < waveform_offset(index, side, size) + size
                ==> index == found.0 && side == found.1,
        forall|n_frames: int, index: int, side: Side| size == spectrum_len(n_frames) ==>
            #[trigger] spectrum_offset(index, side, n_frames) == waveform_offset(index, side, size),
{
    let index = place / (2 * size);
    let side = if place % (2 * size) < size {
        Side::Left
    } else {
        Side::Right
    };
    assert(place == index * (2 * size) + place % (2 * size) && 0 <= place % (2 * size) < 2 * size)
        by (nonlinear_arith)
        requires
            0 < size,
            index == place / (2 * size),
    ;
    assert(0 <= index < n_sources) by (nonlinear_arith)
        requires
            0 < size,
            0 <= place < n_sources * (2 * size),
            place == index * (2 * size) + place % (2 * size),
            0 <= place % (2 * size) < 2 * size,
    ;
    assert forall|other: int, s: Side| #[trigger]
        waveform_offset(other, s, size) <= place < waveform_offset(other, s, size) + size implies
        other == index && s == side by {
        assert(other == index) by (nonlinear_arith)
            requires
                0 < size,
                place == index * (2 * size) + place % (2 * size),
                0 <= place % (2 * size) < 2 * size,
                other * (2 * size) <= place < other * (2 * size) + 2 * size,
        ;
    }
    (index, side)
}

/// `out` is a result of adding `track` to the start of `wave`.
pub open spec fn overlaid<T, A: Arithmetic<T>>(wave: Seq<T>, track: Seq<T>, out: Seq<T>) -> bool {
    &&& out.len() == track.len()
    &&& forall|i: int| 0 <= i < track.len() ==>
        sums::<T, A>(wave[i], track[i], #[trigger] out[i])
}

/// Adds `track` to the start of `wave`.
pub fn overlay<T: Copy, A: Arithmetic<T>>(wave: &[T], track: &[T]) -> (out: Vec<T>)
    requires
        track@.len() <= wave@.len(),
    ensures
        overlaid::<T, A>(wave@, track@, out@),
{
    let mut out: Vec<T> = Vec::new();
    let mut i: usize = 0;
    while i < track.len()
        invariant
            i <= track@.len() <= wave@.len(),
            out@.len() == i,
            forall|j: int| 0 <= j < i ==> sums::<T, A>(wave@[j], track@[j], #[trigger] out@[j]),
        decreases track@.len() - i,
    {
        let sum: T = A::plus(wave[i], track[i]);
        assert(sums::<T, A>(wave@[i as int], track@[i as int], sum));
        out.push(sum);
        i += 1;
    }
    out
}

/// `result` is a result of handing `spectrum` to `decode`.
pub open spec fn decodes<T, D: Fn(&[T], usize, usize, usize) -> Result<Vec<T>>>(
    decode: D,
    spectrum: Seq<T>,
    n_frames: usize,
    result: Result<Vec<T>>,
) -> bool {
    exists|values: &[T]| values@ == spectrum && #[trigger] call_ensures(
        decode,
        (values, FREQ_BINS, n_frames, TRAINING_LENGTH),
        result,
    )
}

/// `decode` takes every spectrum of `n_frames` frames, and the waveform that it
/// makes of one is at least `n_samples` long.
pub open spec fn can_decode<T, D: Fn(&[T], usize, usize, usize) -> Result<Vec<T>>>(
    decode: D,
    n_frames: usize,
    n_samples: usize,
) -> bool {
    &&& forall|values: &[T]| values@.len() == spectrum_len(n_frames as int) ==>
        #[trigger] call_requires(decode, (values, FREQ_BINS, n_frames, TRAINING_LENGTH))
    &&& forall|values: &[T], wave: Vec<T>|
        values@.len() == spectrum_len(n_frames as int) && #[trigger] call_ensures(
            decode,
            (values, FREQ_BINS, n_frames, TRAINING_LENGTH),
            Ok::<Vec<T>, DemucsError>(wave),
        ) ==> n_samples <= wave@.len()
}

/// `stem` is a result of decoding stem `index` of `data`.
pub open spec fn stem_decoded<
    T,
    A: Arithmetic<T>,
    D: Fn(&[T], usize, usize, usize) -> Result<Vec<T>>,
>(decode: D, data: &SegmentData<T>, index: int, id: StemId, stem: StemView<T>) -> bool {
    &&& stem.id == id
    &&& forall|side: Side| #[trigger]
        side_decoded::<T, A, D>(decode, data, index, side, stem.channel(side))
}

/// `samples` is a result of decoding one side of stem `index` of `data`: the
/// waveform of its spectrum plus its time branch.
pub open spec fn side_decoded<
    T,
    A: Arithmetic<T>,
    D: Fn(&[T], usize, usize, usize) -> Result<Vec<T>>,
>(decode: D, data: &SegmentData<T>, index: int, side: Side, samples: Seq<T>) -> bool {
    exists|wave: Vec<T>|
        decodes(decode, data.spectrum(index, side), data.n_frames, Ok(wave))
        && #[trigger] overlaid::<T, A>(wave@, data.waveform(index, side), samples)
}

/// Decoding stem `index` of `data` can fail with `error`: on the left side, or
/// after that went well on the right one.
pub open spec fn stem_failed<T, D: Fn(&[T], usize, usize, usize) -> Result<Vec<T>>>(
    decode: D,
    data: &SegmentData<T>,
    index: int,
    error: DemucsError,
) -> bool {
    ||| decodes(decode, data.spectrum(index, Side::Left), data.n_frames, Err(error))
    ||| {
        &&& exists|wave: Vec<T>| #[trigger]
            decodes(decode, data.spectrum(index, Side::Left), data.n_frames, Ok(wave))
        &&& decodes(decode, data.spectrum(index, Side::Right), data.n_frames, Err(error))
    }
}

/// Decodes stem `index` of `data`: the waveform that `decode` makes of its
/// spectrum, plus its time branch, on both sides.
///
/// `decode` is handed a spectrum, its number of bins and of frames, and the
/// length of the waveform to make.
pub fn decode_stem<
    T: Copy,
    A: Arithmetic<T>,
    D: Fn(&[T], usize, usize, usize) -> Result<Vec<T>>,
>(
    data: &SegmentData<T>,
    index: usize,
    id: StemId,
    decode: &D,
) -> (result: Result<Stem<T>>)
    requires
        data.holds(index + 1),
        can_decode(*decode, data.n_frames, data.n_samples),
    ensures
        match result {
            Ok(stem) => stem_decoded::<T, A, D>(*decode, data, index as int, id, stem@),
            Err(error) => stem_failed(*decode, data, index as int, error),
        },
{
    let n_frames: usize = data.n_frames;
    let n_samples: usize = data.n_samples;
    let freq_len: usize = data.freq_data.len();
    let time_len: usize = data.time_data.len();
    let ghost size = spectrum_len(n_frames as int);
    proof {
        assert(size == 2 * FREQ_BINS * n_frames);
        assert((index + 1) * (2 * size) == index * (2 * size) + 2 * size) by (nonlinear_arith);
        assert((index + 1) * (2 * n_samples) == index * (2 * n_samples) + 2 * n_samples)
            by (nonlinear_arith);
        assert(0 <= index * (2 * size)) by (nonlinear_arith) requires 0 <= size;
        assert(0 <= index * (2 * n_samples)) by (nonlinear_arith);
    }
    let ch_stride: usize = 2 * FREQ_BINS * n_frames;
    let freq_offset: usize = index * (2 * ch_stride);
    let time_offset: usize = index * (2 * n_samples);

    let left_spec: &[T] = &data.freq_data[freq_offset..freq_offset + ch_stride];
    let right_spec: &[T] =
        &data.freq_data[freq_offset + ch_stride..freq_offset + 2 * ch_stride];
    assert(left_spec@ == data.spectrum(index as int, Side::Left));
    assert(right_spec@ == data.spectrum(index as int, Side::Right));

    let left_result: Result<Vec<T>> = decode(left_spec, FREQ_BINS, n_frames, TRAINING_LENGTH);
    assert(decodes(*decode, data.spectrum(index as int, Side::Left), n_frames, left_result));
    let left_wave: Vec<T> = match left_result {
        Ok(wave) => wave,
        Err(error) => {
            return Err(error);
        },
    };
    let right_result: Result<Vec<T>> = decode(right_spec, FREQ_BINS, n_frames, TRAINING_LENGTH);
    assert(decodes(*decode, data.spectrum(index as int, Side::Right), n_frames, right_result));
    let right_wave: Vec<T> = match right_result {
        Ok(wave) => wave,
        Err(error) => {
            return Err(error);
        },
    };

    let left_time: &[T] = &data.time_data[time_offset..time_offset + n_samples];
    let right_time: &[T] = &data.time_data[time_offset + n_samples..time_offset + 2 * n_samples];
    let left: Vec<T> = overlay::<T, A>(left_wave.as_slice(), left_time);
    let right: Vec<T> = overlay::<T, A>(right_wave.as_slice(), right_time);
    let stem = Stem { id, left, right };
    proof {
        assert(left_time@ == data.waveform(index as int, Side::Left));
        assert(right_time@ == data.waveform(index as int, Side::Right));
        assert(stem@.channel(Side::Left) == left@);
        assert(stem@.channel(Side::Right) == right@);
        assert(side_decoded::<T, A, D>(*decode, data, index as int, Side::Left, left@));
        assert(side_decoded::<T, A, D>(*decode, data, index as int, Side::Right, right@));
    }
    Ok(stem)
}

/// `stems` is a result of decoding the stems of `data` in the order `ids`.
pub open spec fn segment_decoded<
    T,
    A: Arithmetic<T>,
    D: Fn(&[T], usize, usize, usize) -> Result<Vec<T>>,
>(decode: D, data: &SegmentData<T>, ids: Seq<StemId>, stems: Seq<StemView<T>>) -> bool {
    &&& stems.len() == ids.len()
    &&& forall|i: int| 0 <= i < ids.len() ==>
        stem_decoded::<T, A, D>(decode, data, i, ids[i], #[trigger] stems[i])
}

/// Decoding the stems of `data` in the order `ids` can fail with `error`: decoding
/// went well up to some stem, and failed on that one.
pub open spec fn segment_failed<
    T,
    A: Arithmetic<T>,
    D: Fn(&[T], usize, usize, usize) -> Result<Vec<T>>,
>(decode: D, data: &SegmentData<T>, ids: Seq<StemId>, error: DemucsError) -> bool {
    exists|stems: Seq<StemView<T>>|
        stems.len() < ids.len()
        && #[trigger] segment_decoded::<T, A, D>(
            decode,
            data,
            ids.take(stems.len() as int),
            stems,
        )
        && stem_failed(decode, data, stems.len() as int, error)
}

/// CPU post-processing for a segment: split the bulk buffers per stem, and
/// combine the frequency and time branches of each.
///
/// Fails with the first error of `decode`.
pub fn stems_from_segment<
    T: Copy,
    A: Arithmetic<T>,
    D: Fn(&[T], usize, usize, usize) -> Result<Vec<T>>,
>(data: &SegmentData<T>, info: &ModelInfo, decode: &D) -> (result: Result<Vec<Stem<T>>>)
    requires
        data.holds(info.stems@.len() as int),
        can_decode(*decode, data.n_frames, data.n_samples),
    ensures
        match result {
            Ok(stems) => segment_decoded::<T, A, D>(
                *decode,
                data,
                info.stems@,
                stem_views(stems@),
            ),
            Err(error) => segment_failed::<T, A, D>(*decode, data, info.stems@, error),
        },
{
    let mut stems: Vec<Stem<T>> = Vec::new();
    let mut i: usize = 0;
    while i < info.stems.len()
        invariant
            i <= info.stems@.len(),
            data.holds(info.stems@.len() as int),
            can_decode(*decode, data.n_frames, data.n_samples),
            segment_decoded::<T, A, D>(
                *decode,
                data,
                info.stems@.take(i as int),
                stem_views(stems@),
            ),
        decreases info.stems@.len() - i,
    {
        let ghost n = info.stems@.len() as int;
        let ghost size = 2 * spectrum_len(data.n_frames as int);
        let ghost length = 2 * data.n_samples as int;
        assert((i + 1) * size <= n * size && (i + 1) * length <= n * length) by (nonlinear_arith)
            requires
                i + 1 <= n,
                0 <= size,
                0 <= length,
        ;
        let ghost before = stem_views(stems@);
        match decode_stem::<T, A, D>(data, i, info.stems[i], decode) {
            Ok(stem) => {
                stems.push(stem);
                assert(stem_views(stems@) =~= before.push(stem@));
            },
            Err(error) => {
                assert(before.len() == i);
                return Err(error);
            },
        }
        i += 1;
    }
    assert(info.stems@.take(i as int) =~= info.stems@);
    Ok(stems)
}

/// The decoded stems of a segment are the stems of the model, in order, each as
/// long as the segment.
pub proof fn law_decoded_stems<
    T,
    A: Arithmetic<T>,
    D: Fn(&[T], usize, usize, usize) -> Result<Vec<T>>,
>(decode: D, data: &SegmentData<T>, ids: Seq<StemId>, stems: Seq<StemView<T>>)
    requires
        data.holds(ids.len() as int),
        segment_decoded::<T, A, D>(decode, data, ids, stems),
    ensures
        are_stems(stems, ids, data.n_samples as int),
        forall|i: int, side: Side| 0 <= i < stems.len() ==>
            (#[trigger] stems[i].channel(side)).len() == data.n_samples,
{
    assert forall|i: int, side: Side| 0 <= i < stems.len() implies
        (#[trigger] stems[i].channel(side)).len() == data.n_samples by {
        let length = 2 * data.n_samples as int;
        assert(0 <= i * length && i * length + length <= ids.len() * length) by (nonlinear_arith)
            requires
                0 <= length,
                0 <= i,
                i + 1 <= ids.len(),
        ;
        assert(stem_decoded::<T, A, D>(decode, data, i, ids[i], stems[i]));
        assert(side_decoded::<T, A, D>(decode, data, i, side, stems[i].channel(side)));
    }
    assert forall|i: int| 0 <= i < ids.len() implies (#[trigger] stems[i]).id == ids[i]
        && stems[i].left.len() == data.n_samples && stems[i].right.len() == data.n_samples by {
        assert(stem_decoded::<T, A, D>(decode, data, i, ids[i], stems[i]));
        assert(stems[i].channel(Side::Left).len() == data.n_samples);
        assert(stems[i].channel(Side::Right).len() == data.n_samples);
    }
}

} // verus!
