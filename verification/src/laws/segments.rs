//! What calls on segments return: network inputs, and stems from network outputs.

use vstd::prelude::*;

use crate::arithmetic::{exact, sums, Arithmetic};
use crate::chunk::TRAINING_LENGTH;
use crate::error::{DemucsError, Result};
use crate::model::{stem_views, ModelInfo, Side, Stem, StemId, StemView};
use crate::segment::{
    branch_lengths, decode_stem, decodes, frame_count, is_padded, is_spectrum, overlaid, overlay,
    pad_channel, pad_segment, segment_decoded, segment_input, segment_spectra, side_decoded,
    spectrum_len, spectrum_offset, stem_channels, stem_decoded, stem_failed, stems_from_segment,
    time_input, transforms, waveform_offset, SegmentData, SegmentInput, StemChannels, FREQ_BINS,
    HOP_LENGTH, N_FFT,
};

verus! {

/// A spectrum has half as many bins as a transform has points, and transforms
/// advance by a quarter of their points.
pub proof fn law_transform_sizes()
    ensures
        N_FFT == 4096,
        N_FFT == 2 * FREQ_BINS,
        N_FFT == 4 * HOP_LENGTH,
{
}

/// A padded channel begins with the channel, has the length of a segment, and
/// holds nothing but zeros after the channel.
pub proof fn law_pad_channel<T: Copy>(channel: &[T], zero: T, padded: Vec<T>)
    requires
        channel@.len() <= 343980,
        call_ensures(pad_channel::<T>, (channel, zero), padded),
    ensures
        call_requires(pad_channel::<T>, (channel, zero)),
        padded@.len() == 343980,
        padded@.take(channel@.len() as int) == channel@,
        forall|i: int| channel@.len() <= i < 343980 ==> #[trigger] padded@[i] == zero,
{
    assert(padded@.take(channel@.len() as int) =~= channel@);
}

/// Both channels of a segment are padded alike: each begins with its own samples,
/// and zeros follow.
pub proof fn law_pad_segment<T: Copy>(
    left: &[T],
    right: &[T],
    n_samples: usize,
    zero: T,
    padded: (Vec<T>, Vec<T>),
)
    requires
        n_samples <= 343980,
        left@.len() == n_samples,
        right@.len() == n_samples,
        call_ensures(pad_segment::<T>, (left, right, n_samples, zero), padded),
    ensures
        call_requires(pad_segment::<T>, (left, right, n_samples, zero)),
        padded.0@.len() == 343980,
        padded.1@.len() == 343980,
        padded.0@.take(n_samples as int) == left@,
        padded.1@.take(n_samples as int) == right@,
        forall|i: int| n_samples <= i < 343980 ==> #[trigger] padded.0@[i] == zero,
        forall|i: int| n_samples <= i < 343980 ==> #[trigger] padded.1@[i] == zero,
{
    assert(padded.0@.take(n_samples as int) =~= left@);
    assert(padded.1@.take(n_samples as int) =~= right@);
}

/// The data of the time-domain input has the left channel at the start of its
/// first half, the right channel at the start of its second half, and zeros
/// elsewhere.
pub proof fn law_time_input<T: Copy>(
    left: &[T],
    right: &[T],
    padded_len: usize,
    zero: T,
    data: Vec<T>,
)
    requires
        2 * padded_len <= usize::MAX,
        left@.len() <= padded_len,
        right@.len() <= padded_len,
        call_ensures(time_input::<T>, (left, right, padded_len, zero), data),
    ensures
        call_requires(time_input::<T>, (left, right, padded_len, zero)),
        data@.len() == 2 * padded_len,
        data@.take(left@.len() as int) == left@,
        data@.subrange(padded_len as int, padded_len + right@.len()) == right@,
        forall|i: int| left@.len() <= i < padded_len ==> #[trigger] data@[i] == zero,
        forall|i: int| padded_len + right@.len() <= i < 2 * padded_len ==> #[trigger] data@[i]
            == zero,
{
    assert(data@.take(left@.len() as int) =~= left@);
    assert(data@.subrange(padded_len as int, padded_len + right@.len()) =~= right@);
}

/// A left channel that reaches into the second half of the data of the time-domain
/// input is there as far as the right channel leaves it.
pub proof fn law_time_input_of_long_left<T: Copy>(
    left: &[T],
    right: &[T],
    padded_len: usize,
    zero: T,
    data: Vec<T>,
)
    requires
        2 * padded_len <= usize::MAX,
        padded_len <= left@.len() <= 2 * padded_len,
        right@.len() <= padded_len,
        call_ensures(time_input::<T>, (left, right, padded_len, zero), data),
    ensures
        call_requires(time_input::<T>, (left, right, padded_len, zero)),
        data@.len() == 2 * padded_len,
        data@.take(padded_len as int) == left@.take(padded_len as int),
        data@.subrange(padded_len as int, padded_len + right@.len()) == right@,
        forall|i: int| padded_len + right@.len() <= i < left@.len() ==> #[trigger] data@[i]
            == left@[i],
        forall|i: int|
            padded_len + right@.len() <= i < 2 * padded_len && left@.len() <= i ==> #[trigger]
                data@[i] == zero,
{
    assert(data@.take(padded_len as int) =~= left@.take(padded_len as int));
    assert(data@.subrange(padded_len as int, padded_len + right@.len()) =~= right@);
}

/// As many whole frames are counted as a spectrum holds, of 2048 values each.
pub proof fn law_frame_count(spectrum_len: usize, n_frames: usize)
    requires
        call_ensures(frame_count, (spectrum_len,), n_frames),
    ensures
        call_requires(frame_count, (spectrum_len,)),
        2048 * n_frames <= spectrum_len < 2048 * (n_frames + 1),
{
}

/// A transform is handed a whole channel, followed by zeros up to the length of a
/// segment.
pub proof fn law_transformed_channel<T, C, F: Fn(&[T]) -> Result<Vec<C>>>(
    transform: F,
    channel: Seq<T>,
    zero: T,
    result: Result<Vec<C>>,
)
    requires
        channel.len() <= 343980,
        transforms(transform, channel, zero, result),
    ensures
        exists|values: &[T]| #[trigger]
            call_ensures(transform, (values,), result) && values@.len() == 343980 && values@.take(
                channel.len() as int,
            ) == channel && (forall|i: int| channel.len() <= i < 343980 ==> #[trigger] values@[i]
                == zero),
{
    let values = choose|values: &[T]|
        is_padded(channel, zero, values@) && #[trigger] call_ensures(transform, (values,), result);
    assert(values@.take(channel.len() as int) =~= channel);
}

/// The spectra of a segment are what the transform makes of its left and of its
/// right channel, each followed by zeros, and the frames are those of the left
/// one. Nothing fails unless the transform fails on the left channel, or after
/// that went well on the right one, and its error is passed on.
pub proof fn law_segment_spectra<T: Copy, C, F: Fn(&[T]) -> Result<Vec<C>>>(
    left: &[T],
    right: &[T],
    n_samples: usize,
    zero: T,
    transform: &F,
    result: Result<(Vec<C>, Vec<C>, usize)>,
)
    requires
        n_samples <= 343980,
        left@.len() == n_samples,
        right@.len() == n_samples,
        forall|values: &[T]| values@.len() == 343980 ==> #[trigger]
            call_requires(*transform, (values,)),
        call_ensures(
            segment_spectra::<T, C, F>,
            (left, right, n_samples, zero, transform),
            result,
        ),
    ensures
        call_requires(segment_spectra::<T, C, F>, (left, right, n_samples, zero, transform)),
        result matches Ok(spectra) ==> {
            &&& exists|values: &[T]| #[trigger]
                call_ensures(*transform, (values,), Ok::<Vec<C>, DemucsError>(spectra.0))
                && values@.len() == 343980 && values@.take(n_samples as int) == left@ && (forall|
                    i: int,
                | n_samples <= i < 343980 ==> #[trigger] values@[i] == zero)
            &&& exists|values: &[T]| #[trigger]
                call_ensures(*transform, (values,), Ok::<Vec<C>, DemucsError>(spectra.1))
                && values@.len() == 343980 && values@.take(n_samples as int) == right@ && (forall|
                    i: int,
                | n_samples <= i < 343980 ==> #[trigger] values@[i] == zero)
            &&& 2048 * spectra.2 <= spectra.0@.len() < 2048 * (spectra.2 + 1)
        },
        result matches Err(error) ==> {
            ||| exists|values: &[T]| #[trigger]
                call_ensures(*transform, (values,), Err::<Vec<C>, DemucsError>(error))
                && values@.len() == 343980 && values@.take(n_samples as int) == left@ && (forall|
                    i: int,
                | n_samples <= i < 343980 ==> #[trigger] values@[i] == zero)
            ||| {
                &&& exists|values: &[T], spectrum: Vec<C>| #[trigger]
                    call_ensures(*transform, (values,), Ok::<Vec<C>, DemucsError>(spectrum))
                    && values@.len() == 343980 && values@.take(n_samples as int) == left@ && (
                    forall|i: int| n_samples <= i < 343980 ==> #[trigger] values@[i] == zero)
                &&& exists|values: &[T]| #[trigger]
                    call_ensures(*transform, (values,), Err::<Vec<C>, DemucsError>(error))
                    && values@.len() == 343980 && values@.take(n_samples as int) == right@ && (
                    forall|i: int| n_samples <= i < 343980 ==> #[trigger] values@[i] == zero)
            }
        },
{
    match result {
        Ok(spectra) => {
            law_transformed_channel::<T, C, F>(*transform, left@, zero, Ok(spectra.0));
            law_transformed_channel::<T, C, F>(*transform, right@, zero, Ok(spectra.1));
        },
        Err(error) => {
            if transforms::<T, C, F>(*transform, left@, zero, Err(error)) {
                law_transformed_channel::<T, C, F>(*transform, left@, zero, Err(error));
            } else {
                let spectrum = choose|spectrum: Vec<C>| #[trigger]
                    transforms(*transform, left@, zero, Ok(spectrum));
                law_transformed_channel::<T, C, F>(*transform, left@, zero, Ok(spectrum));
                law_transformed_channel::<T, C, F>(*transform, right@, zero, Err(error));
            }
        },
    }
}

/// The network input of a segment holds the spectra of its channels, the frames of
/// the left spectrum, and the channels themselves, each at the start of its half
/// of the time data and followed by zeros.
pub proof fn law_segment_input<T: Copy, C, F: Fn(&[T]) -> Result<Vec<C>>>(
    left: &[T],
    right: &[T],
    n_samples: usize,
    zero: T,
    transform: &F,
    result: Result<SegmentInput<T, C>>,
)
    requires
        n_samples <= 343980,
        left@.len() == n_samples,
        right@.len() == n_samples,
        forall|values: &[T]| values@.len() == 343980 ==> #[trigger]
            call_requires(*transform, (values,)),
        call_ensures(
            segment_input::<T, C, F>,
            (left, right, n_samples, zero, transform),
            result,
        ),
    ensures
        call_requires(segment_input::<T, C, F>, (left, right, n_samples, zero, transform)),
        result matches Ok(input) ==> {
            &&& exists|values: &[T], spectrum: Vec<C>| #[trigger]
                call_ensures(*transform, (values,), Ok::<Vec<C>, DemucsError>(spectrum))
                && spectrum@ == input.left@ && values@.len() == 343980 && values@.take(
                    n_samples as int,
                ) == left@ && (forall|i: int| n_samples <= i < 343980 ==> #[trigger] values@[i]
                    == zero)
            &&& exists|values: &[T], spectrum: Vec<C>| #[trigger]
                call_ensures(*transform, (values,), Ok::<Vec<C>, DemucsError>(spectrum))
                && spectrum@ == input.right@ && values@.len() == 343980 && values@.take(
                    n_samples as int,
                ) == right@ && (forall|i: int| n_samples <= i < 343980 ==> #[trigger] values@[i]
                    == zero)
            &&& 2048 * input.n_frames <= input.left@.len() < 2048 * (input.n_frames + 1)
            &&& input.time_data@.len() == 2 * 343980
            &&& input.time_data@.take(n_samples as int) == left@
            &&& input.time_data@.subrange(343980, 343980 + n_samples) == right@
            &&& forall|i: int| n_samples <= i < 343980 ==> #[trigger] input.time_data@[i] == zero
            &&& forall|i: int| 343980 + n_samples <= i < 2 * 343980 ==> #[trigger]
                input.time_data@[i] == zero
        },
        result matches Err(error) ==> {
            ||| exists|values: &[T]| #[trigger]
                call_ensures(*transform, (values,), Err::<Vec<C>, DemucsError>(error))
                && values@.len() == 343980 && values@.take(n_samples as int) == left@ && (forall|
                    i: int,
                | n_samples <= i < 343980 ==> #[trigger] values@[i] == zero)
            ||| {
                &&& exists|values: &[T], spectrum: Vec<C>| #[trigger]
                    call_ensures(*transform, (values,), Ok::<Vec<C>, DemucsError>(spectrum))
                    && values@.len() == 343980 && values@.take(n_samples as int) == left@ && (
                    forall|i: int| n_samples <= i < 343980 ==> #[trigger] values@[i] == zero)
                &&& exists|values: &[T]| #[trigger]
                    call_ensures(*transform, (values,), Err::<Vec<C>, DemucsError>(error))
                    && values@.len() == 343980 && values@.take(n_samples as int) == right@ && (
                    forall|i: int| n_samples <= i < 343980 ==> #[trigger] values@[i] == zero)
            }
        },
{
    match result {
        Ok(input) => {
            lemma_spectrum_of_channel(*transform, left@, zero, input.left@);
            lemma_spectrum_of_channel(*transform, right@, zero, input.right@);
            let data = input.time_data@;
            let half = TRAINING_LENGTH as int;
            assert forall|i: int| 0 <= i < half implies data[i] == data.subrange(0, half)[i]
                && data[half + i] == data.subrange(half, 2 * half)[i] by {}
            assert(data.take(n_samples as int) =~= left@) by {
                assert forall|i: int| 0 <= i < n_samples implies data[i] == left@[i] by {
                    assert(data.subrange(0, half)[i] == left@[i]);
                }
            }
            assert(data.subrange(half, half + n_samples) =~= right@) by {
                assert forall|i: int| 0 <= i < n_samples implies data[half + i] == right@[i] by {
                    assert(data.subrange(half, 2 * half)[i] == right@[i]);
                }
            }
            assert forall|i: int| n_samples <= i < half implies #[trigger] data[i] == zero by {
                assert(data.subrange(0, half)[i] == zero);
            }
            assert forall|i: int| half + n_samples <= i < 2 * half implies #[trigger] data[i]
                == zero by {
                assert(data.subrange(half, 2 * half)[i - half] == zero);
            }
        },
        Err(error) => {
            if transforms::<T, C, F>(*transform, left@, zero, Err(error)) {
                law_transformed_channel::<T, C, F>(*transform, left@, zero, Err(error));
            } else {
                let spectrum = choose|spectrum: Vec<C>| #[trigger]
                    transforms(*transform, left@, zero, Ok(spectrum));
                law_transformed_channel::<T, C, F>(*transform, left@, zero, Ok(spectrum));
                law_transformed_channel::<T, C, F>(*transform, right@, zero, Err(error));
            }
        },
    }
}

proof fn lemma_spectrum_of_channel<T, C, F: Fn(&[T]) -> Result<Vec<C>>>(
    transform: F,
    channel: Seq<T>,
    zero: T,
    spectrum: Seq<C>,
)
    requires
        channel.len() <= 343980,
        is_spectrum(transform, channel, zero, spectrum),
    ensures
        exists|values: &[T], whole: Vec<C>| #[trigger]
            call_ensures(transform, (values,), Ok::<Vec<C>, DemucsError>(whole)) && whole@
                == spectrum && values@.len() == 343980 && values@.take(channel.len() as int)
                == channel && (forall|i: int| channel.len() <= i < 343980 ==> #[trigger] values@[i]
                == zero),
{
    let whole = choose|whole: Vec<C>|
        whole@ == spectrum && #[trigger] transforms(transform, channel, zero, Ok(whole));
    law_transformed_channel::<T, C, F>(transform, channel, zero, Ok(whole));
}

/// The frequency branch has four channels for each stem, of 2048 bins for each
/// frame, and the time branch two, of one value for each sample.
pub proof fn law_branch_lengths(
    n_sources: usize,
    n_frames: usize,
    n_samples: usize,
    lengths: (usize, usize),
)
    requires
        n_sources * 4 * 2048 <= usize::MAX,
        n_sources * 4 * 2048 * n_frames <= usize::MAX,
        n_sources * 2 * n_samples <= usize::MAX,
        call_ensures(branch_lengths, (n_sources, n_frames, n_samples), lengths),
    ensures
        call_requires(branch_lengths, (n_sources, n_frames, n_samples)),
        lengths.0 == n_sources * 4 * 2048 * n_frames,
        lengths.1 == n_sources * 2 * n_samples,
{
    let size = spectrum_len(n_frames as int);
    assert(n_sources * (2 * size) == n_sources * 4 * 2048 * n_frames) by (nonlinear_arith)
        requires
            size == 4096 * n_frames,
    ;
    assert(n_sources * (2 * n_samples) == n_sources * 2 * n_samples) by (nonlinear_arith);
    assert(4 * FREQ_BINS * n_sources == n_sources * 4 * 2048) by (nonlinear_arith)
        requires
            FREQ_BINS == 2048,
    ;
}

/// The channels of a stem come after those of the stems before it.
pub proof fn law_stem_channels(index: usize, channels: StemChannels)
    requires
        4 * index <= usize::MAX,
        call_ensures(stem_channels, (index,), channels),
    ensures
        call_requires(stem_channels, (index,)),
        channels.freq.0 == 4 * index,
        channels.freq.1 == 4,
        channels.time.0 == 2 * index,
        channels.time.1 == 2,
{
}

/// Overlaying adds a track to the start of a waveform at every sample of the
/// track.
pub proof fn law_overlay<T: Copy, A: Arithmetic<T>>(wave: &[T], track: &[T], out: Vec<T>)
    requires
        track@.len() <= wave@.len(),
        call_ensures(overlay::<T, A>, (wave, track), out),
    ensures
        call_requires(overlay::<T, A>, (wave, track)),
        out@.len() == track@.len(),
        forall|i: int| 0 <= i < track@.len() ==> call_ensures(
            A::plus,
            (wave@[i], track@[i]),
            #[trigger] out@[i],
        ),
{
    assert forall|i: int| 0 <= i < track@.len() implies call_ensures(
        A::plus,
        (wave@[i], track@[i]),
        #[trigger] out@[i],
    ) by {}
}

/// In exact arithmetic, every sample of an overlay is the sum of the two samples
/// at its place.
pub proof fn law_overlay_is_sum<T: Copy, A: Arithmetic<T>>(
    value: spec_fn(T) -> real,
    wave: &[T],
    track: &[T],
    out: Vec<T>,
    i: int,
)
    requires
        exact::<T, A>(value),
        track@.len() <= wave@.len(),
        call_ensures(overlay::<T, A>, (wave, track), out),
        0 <= i < track@.len(),
    ensures
        value(out@[i]) == value(wave@[i]) + value(track@[i]),
{
    law_overlay::<T, A>(wave, track, out);
    assert(call_ensures(A::plus, (wave@[i], track@[i]), out@[i]));
    assert(sums::<T, A>(wave@[i], track@[i], out@[i]));
}

proof fn lemma_places<T>(data: &SegmentData<T>, index: int)
    requires
        0 <= index,
        (index + 1) * (8192 * data.n_frames) <= data.freq_data@.len(),
        (index + 1) * (2 * data.n_samples) <= data.time_data@.len(),
    ensures
        data.holds(index + 1),
        0 <= index * (8192 * data.n_frames),
        index * (8192 * data.n_frames) + 8192 * data.n_frames <= data.freq_data@.len(),
        0 <= index * (2 * data.n_samples),
        index * (2 * data.n_samples) + 2 * data.n_samples <= data.time_data@.len(),
        spectrum_offset(index, Side::Left, data.n_frames as int) == index * (8192
            * data.n_frames),
        spectrum_offset(index, Side::Right, data.n_frames as int) == index * (8192
            * data.n_frames) + 4096 * data.n_frames,
        spectrum_len(data.n_frames as int) == 4096 * data.n_frames,
        waveform_offset(index, Side::Left, data.n_samples as int) == index * (2 * data.n_samples),
        waveform_offset(index, Side::Right, data.n_samples as int) == index * (2
            * data.n_samples) + data.n_samples,
{
    let size = 8192 * data.n_frames as int;
    let length = 2 * data.n_samples as int;
    assert(2 * spectrum_len(data.n_frames as int) == size);
    assert((index + 1) * size == index * size + size) by (nonlinear_arith);
    assert((index + 1) * length == index * length + length) by (nonlinear_arith);
    assert(0 <= index * size) by (nonlinear_arith) requires 0 <= index, 0 <= size;
    assert(0 <= index * length) by (nonlinear_arith) requires 0 <= index, 0 <= length;
}

proof fn lemma_decoded_side<
    T,
    A: Arithmetic<T>,
    D: Fn(&[T], usize, usize, usize) -> Result<Vec<T>>,
>(
    decode: D,
    data: &SegmentData<T>,
    index: int,
    side: Side,
    samples: Seq<T>,
    freq_from: int,
    time_from: int,
)
    requires
        side_decoded::<T, A, D>(decode, data, index, side, samples),
        freq_from == spectrum_offset(index, side, data.n_frames as int),
        time_from == waveform_offset(index, side, data.n_samples as int),
        spectrum_len(data.n_frames as int) == 4096 * data.n_frames,
        0 <= time_from,
        time_from + data.n_samples <= data.time_data@.len(),
    ensures
        samples.len() == data.n_samples,
        exists|spectrum: &[T], wave: Vec<T>| #[trigger]
            call_ensures(
                decode,
                (spectrum, 2048usize, data.n_frames, 343980usize),
                Ok::<Vec<T>, DemucsError>(wave),
            ) && spectrum@ == data.freq_data@.subrange(
                freq_from,
                freq_from + 4096 * data.n_frames,
            ) && (forall|i: int|
                0 <= i < data.n_samples ==> call_ensures(
                    A::plus,
                    (wave@[i], data.time_data@[time_from + i]),
                    #[trigger] samples[i],
                )),
{
    let track = data.waveform(index, side);
    let wave = choose|wave: Vec<T>|
        decodes(decode, data.spectrum(index, side), data.n_frames, Ok(wave))
        && #[trigger] overlaid::<T, A>(wave@, track, samples);
    lemma_decoded_spectrum(decode, data, index, side, Ok(wave), freq_from);
    let spectrum = choose|spectrum: &[T]| #[trigger]
        call_ensures(
            decode,
            (spectrum, 2048usize, data.n_frames, 343980usize),
            Ok::<Vec<T>, DemucsError>(wave),
        ) && spectrum@ == data.freq_data@.subrange(freq_from, freq_from + 4096 * data.n_frames);
    assert forall|i: int| 0 <= i < data.n_samples implies call_ensures(
        A::plus,
        (wave@[i], data.time_data@[time_from + i]),
        #[trigger] samples[i],
    ) by {
        assert(track[i] == data.time_data@[time_from + i]);
        assert(sums::<T, A>(wave@[i], track[i], samples[i]));
    }
}

proof fn lemma_decoded_spectrum<T, D: Fn(&[T], usize, usize, usize) -> Result<Vec<T>>>(
    decode: D,
    data: &SegmentData<T>,
    index: int,
    side: Side,
    result: Result<Vec<T>>,
    freq_from: int,
)
    requires
        decodes(decode, data.spectrum(index, side), data.n_frames, result),
        freq_from == spectrum_offset(index, side, data.n_frames as int),
        spectrum_len(data.n_frames as int) == 4096 * data.n_frames,
    ensures
        exists|spectrum: &[T]| #[trigger]
            call_ensures(
                decode,
                (spectrum, 2048usize, data.n_frames, 343980usize),
                result,
            ) && spectrum@ == data.freq_data@.subrange(
                freq_from,
                freq_from + 4096 * data.n_frames,
            ),
{
    let values = choose|values: &[T]|
        values@ == data.spectrum(index, side) && #[trigger] call_ensures(
            decode,
            (values, FREQ_BINS, data.n_frames, TRAINING_LENGTH),
            result,
        );
    assert(call_ensures(decode, (values, 2048usize, data.n_frames, 343980usize), result));
}

/// A decoded stem has, on either side and at every sample of the segment, the sum
/// of two samples at that place: one of the waveform that is decoded from the
/// spectrum of that side, and one of the time branch of that side. The blocks of
/// a stem come after those of the stems before it, left before right. Decoding
/// fails only if the left spectrum fails, or after that went well the right one,
/// and with that error.
pub proof fn law_decode_stem<
    T: Copy,
    A: Arithmetic<T>,
    D: Fn(&[T], usize, usize, usize) -> Result<Vec<T>>,
>(
    data: &SegmentData<T>,
    index: usize,
    id: StemId,
    decode: &D,
    result: Result<Stem<T>>,
)
    requires
        (index + 1) * (8192 * data.n_frames) <= data.freq_data@.len(),
        (index + 1) * (2 * data.n_samples) <= data.time_data@.len(),
        forall|values: &[T]| values@.len() == 4096 * data.n_frames ==> #[trigger]
            call_requires(*decode, (values, 2048usize, data.n_frames, 343980usize)),
        forall|values: &[T], wave: Vec<T>|
            values@.len() == 4096 * data.n_frames && #[trigger] call_ensures(
                *decode,
                (values, 2048usize, data.n_frames, 343980usize),
                Ok::<Vec<T>, DemucsError>(wave),
            ) ==> data.n_samples <= wave@.len(),
        call_ensures(decode_stem::<T, A, D>, (data, index, id, decode), result),
    ensures
        call_requires(decode_stem::<T, A, D>, (data, index, id, decode)),
        result matches Ok(stem) ==> {
            &&& stem.id == id
            &&& stem.left@.len() == data.n_samples
            &&& exists|spectrum: &[T], wave: Vec<T>| #[trigger]
                call_ensures(
                    *decode,
                    (spectrum, 2048usize, data.n_frames, 343980usize),
                    Ok::<Vec<T>, DemucsError>(wave),
                ) && spectrum@ == data.freq_data@.subrange(
                    index * (8192 * data.n_frames),
                    index * (8192 * data.n_frames) + 4096 * data.n_frames,
                ) && (forall|i: int|
                    0 <= i < data.n_samples ==> call_ensures(
                        A::plus,
                        (wave@[i], data.time_data@[index * (2 * data.n_samples) + i]),
                        #[trigger] stem.left@[i],
                    ))
            &&& stem.right@.len() == data.n_samples
            &&& exists|spectrum: &[T], wave: Vec<T>| #[trigger]
                call_ensures(
                    *decode,
                    (spectrum, 2048usize, data.n_frames, 343980usize),
                    Ok::<Vec<T>, DemucsError>(wave),
                ) && spectrum@ == data.freq_data@.subrange(
                    index * (8192 * data.n_frames) + 4096 * data.n_frames,
                    index * (8192 * data.n_frames) + 8192 * data.n_frames,
                ) && (forall|i: int|
                    0 <= i < data.n_samples ==> call_ensures(
                        A::plus,
                        (
                            wave@[i],
                            data.time_data@[index * (2 * data.n_samples) + data.n_samples + i],
                        ),
                        #[trigger] stem.right@[i],
                    ))
        },
        result matches Err(error) ==> {
            ||| exists|spectrum: &[T]| #[trigger]
                call_ensures(
                    *decode,
                    (spectrum, 2048usize, data.n_frames, 343980usize),
                    Err::<Vec<T>, DemucsError>(error),
                ) && spectrum@ == data.freq_data@.subrange(
                    index * (8192 * data.n_frames),
                    index * (8192 * data.n_frames) + 4096 * data.n_frames,
                )
            ||| {
                &&& exists|spectrum: &[T], wave: Vec<T>| #[trigger]
                    call_ensures(
                        *decode,
                        (spectrum, 2048usize, data.n_frames, 343980usize),
                        Ok::<Vec<T>, DemucsError>(wave),
                    ) && spectrum@ == data.freq_data@.subrange(
                        index * (8192 * data.n_frames),
                        index * (8192 * data.n_frames) + 4096 * data.n_frames,
                    )
                &&& exists|spectrum: &[T]| #[trigger]
                    call_ensures(
                        *decode,
                        (spectrum, 2048usize, data.n_frames, 343980usize),
                        Err::<Vec<T>, DemucsError>(error),
                    ) && spectrum@ == data.freq_data@.subrange(
                        index * (8192 * data.n_frames) + 4096 * data.n_frames,
                        index * (8192 * data.n_frames) + 8192 * data.n_frames,
                    )
            }
        },
{
    lemma_places(data, index as int);
    let n_frames = data.n_frames as int;
    match result {
        Ok(stem) => {
            law_decoded_stem::<T, A, D>(*decode, data, index as int, id, stem@);
            assert(stem@.left == stem.left@ && stem@.right == stem.right@);
        },
        Err(error) => {
            law_failed_stem::<T, D>(*decode, data, index as int, error);
        },
    }
}

/// What is decoded as a stem of a segment is, on either side and at every sample,
/// the sum of the decoded waveform and the time branch of that side.
pub proof fn law_decoded_stem<
    T,
    A: Arithmetic<T>,
    D: Fn(&[T], usize, usize, usize) -> Result<Vec<T>>,
>(decode: D, data: &SegmentData<T>, index: int, id: StemId, stem: StemView<T>)
    requires
        0 <= index,
        (index + 1) * (8192 * data.n_frames) <= data.freq_data@.len(),
        (index + 1) * (2 * data.n_samples) <= data.time_data@.len(),
        stem_decoded::<T, A, D>(decode, data, index, id, stem),
    ensures
        ({
            &&& stem.id == id
            &&& stem.left.len() == data.n_samples
            &&& exists|spectrum: &[T], wave: Vec<T>| #[trigger]
                call_ensures(
                    decode,
                    (spectrum, 2048usize, data.n_frames, 343980usize),
                    Ok::<Vec<T>, DemucsError>(wave),
                ) && spectrum@ == data.freq_data@.subrange(
                    index * (8192 * data.n_frames),
                    index * (8192 * data.n_frames) + 4096 * data.n_frames,
                ) && (forall|i: int|
                    0 <= i < data.n_samples ==> call_ensures(
                        A::plus,
                        (wave@[i], data.time_data@[index * (2 * data.n_samples) + i]),
                        #[trigger] stem.left[i],
                    ))
            &&& stem.right.len() == data.n_samples
            &&& exists|spectrum: &[T], wave: Vec<T>| #[trigger]
                call_ensures(
                    decode,
                    (spectrum, 2048usize, data.n_frames, 343980usize),
                    Ok::<Vec<T>, DemucsError>(wave),
                ) && spectrum@ == data.freq_data@.subrange(
                    index * (8192 * data.n_frames) + 4096 * data.n_frames,
                    index * (8192 * data.n_frames) + 8192 * data.n_frames,
                ) && (forall|i: int|
                    0 <= i < data.n_samples ==> call_ensures(
                        A::plus,
                        (
                            wave@[i],
                            data.time_data@[index * (2 * data.n_samples) + data.n_samples + i],
                        ),
                        #[trigger] stem.right[i],
                    ))
        }),
{
    lemma_places(data, index);
    assert(side_decoded::<T, A, D>(decode, data, index, Side::Left, stem.channel(Side::Left)));
    assert(side_decoded::<T, A, D>(decode, data, index, Side::Right, stem.channel(Side::Right)));
    let n_frames = data.n_frames as int;
    let n_samples = data.n_samples as int;
    let freq = index * (8192 * n_frames);
    let time = index * (2 * n_samples);
    lemma_decoded_side::<T, A, D>(decode, data, index, Side::Left, stem.left, freq, time);
    lemma_decoded_side::<T, A, D>(
        decode, data, index, Side::Right, stem.right, freq + 4096 * n_frames, time + n_samples);
}

/// A stem fails to be decoded with the error of its left spectrum, or after that
/// went well with that of its right one.
pub proof fn law_failed_stem<T, D: Fn(&[T], usize, usize, usize) -> Result<Vec<T>>>(
    decode: D,
    data: &SegmentData<T>,
    index: int,
    error: DemucsError,
)
    requires
        0 <= index,
        (index + 1) * (8192 * data.n_frames) <= data.freq_data@.len(),
        (index + 1) * (2 * data.n_samples) <= data.time_data@.len(),
        stem_failed(decode, data, index, error),
    ensures
        ({
            ||| exists|spectrum: &[T]| #[trigger]
                call_ensures(
                    decode,
                    (spectrum, 2048usize, data.n_frames, 343980usize),
                    Err::<Vec<T>, DemucsError>(error),
                ) && spectrum@ == data.freq_data@.subrange(
                    index * (8192 * data.n_frames),
                    index * (8192 * data.n_frames) + 4096 * data.n_frames,
                )
            ||| {
                &&& exists|spectrum: &[T], wave: Vec<T>| #[trigger]
                    call_ensures(
                        decode,
                        (spectrum, 2048usize, data.n_frames, 343980usize),
                        Ok::<Vec<T>, DemucsError>(wave),
                    ) && spectrum@ == data.freq_data@.subrange(
                        index * (8192 * data.n_frames),
                        index * (8192 * data.n_frames) + 4096 * data.n_frames,
                    )
                &&& exists|spectrum: &[T]| #[trigger]
                    call_ensures(
                        decode,
                        (spectrum, 2048usize, data.n_frames, 343980usize),
                        Err::<Vec<T>, DemucsError>(error),
                    ) && spectrum@ == data.freq_data@.subrange(
                        index * (8192 * data.n_frames) + 4096 * data.n_frames,
                        index * (8192 * data.n_frames) + 8192 * data.n_frames,
                    )
            }
        }),
{
    lemma_places(data, index);
    let n_frames = data.n_frames as int;
    let freq = index * (8192 * n_frames);
    if decodes(decode, data.spectrum(index, Side::Left), data.n_frames, Err(error)) {
        lemma_decoded_spectrum(decode, data, index, Side::Left, Err(error), freq);
    } else {
        let wave = choose|wave: Vec<T>| #[trigger]
            decodes(decode, data.spectrum(index, Side::Left), data.n_frames, Ok(wave));
        lemma_decoded_spectrum(decode, data, index, Side::Left, Ok(wave), freq);
        lemma_decoded_spectrum(
            decode, data, index, Side::Right, Err(error), freq + 4096 * n_frames);
    }
}

/// In exact arithmetic, every sample of a decoded stem is the value of the decoded
/// waveform at its place plus that of the time branch.
pub proof fn law_decoded_stem_is_sum<
    T: Copy,
    A: Arithmetic<T>,
    D: Fn(&[T], usize, usize, usize) -> Result<Vec<T>>,
>(
    value: spec_fn(T) -> real,
    data: &SegmentData<T>,
    index: usize,
    id: StemId,
    decode: &D,
    stem: Stem<T>,
    i: int,
)
    requires
        exact::<T, A>(value),
        (index + 1) * (8192 * data.n_frames) <= data.freq_data@.len(),
        (index + 1) * (2 * data.n_samples) <= data.time_data@.len(),
        call_ensures(
            decode_stem::<T, A, D>,
            (data, index, id, decode),
            Ok::<Stem<T>, DemucsError>(stem),
        ),
        0 <= i < data.n_samples,
    ensures
        exists|spectrum: &[T], wave: Vec<T>| #[trigger]
            call_ensures(
                *decode,
                (spectrum, 2048usize, data.n_frames, 343980usize),
                Ok::<Vec<T>, DemucsError>(wave),
            ) && spectrum@ == data.freq_data@.subrange(
                index * (8192 * data.n_frames),
                index * (8192 * data.n_frames) + 4096 * data.n_frames,
            ) && value(stem.left@[i]) == value(wave@[i]) + value(
                data.time_data@[index * (2 * data.n_samples) + i],
            ),
        exists|spectrum: &[T], wave: Vec<T>| #[trigger]
            call_ensures(
                *decode,
                (spectrum, 2048usize, data.n_frames, 343980usize),
                Ok::<Vec<T>, DemucsError>(wave),
            ) && spectrum@ == data.freq_data@.subrange(
                index * (8192 * data.n_frames) + 4096 * data.n_frames,
                index * (8192 * data.n_frames) + 8192 * data.n_frames,
            ) && value(stem.right@[i]) == value(wave@[i]) + value(
                data.time_data@[index * (2 * data.n_samples) + data.n_samples + i],
            ),
{
    law_decoded_stem::<T, A, D>(*decode, data, index as int, id, stem@);
    assert(stem@.left == stem.left@ && stem@.right == stem.right@);
    assert(forall|a: T, b: T, r: T| #[trigger]
        call_ensures(A::plus, (a, b), r) ==> sums::<T, A>(a, b, r));
    assert(stem@.left[i] == stem.left@[i] && stem@.right[i] == stem.right@[i]);
}

/// The stems of a segment are those of the model, in order, each decoded from its
/// own blocks.
pub proof fn law_stems_from_segment<
    T: Copy,
    A: Arithmetic<T>,
    D: Fn(&[T], usize, usize, usize) -> Result<Vec<T>>,
>(
    data: &SegmentData<T>,
    info: &ModelInfo,
    decode: &D,
    result: Result<Vec<Stem<T>>>,
    k: int,
)
    requires
        info.stems@.len() * (8192 * data.n_frames) <= data.freq_data@.len(),
        info.stems@.len() * (2 * data.n_samples) <= data.time_data@.len(),
        forall|values: &[T]| values@.len() == 4096 * data.n_frames ==> #[trigger]
            call_requires(*decode, (values, 2048usize, data.n_frames, 343980usize)),
        forall|values: &[T], wave: Vec<T>|
            values@.len() == 4096 * data.n_frames && #[trigger] call_ensures(
                *decode,
                (values, 2048usize, data.n_frames, 343980usize),
                Ok::<Vec<T>, DemucsError>(wave),
            ) ==> data.n_samples <= wave@.len(),
        call_ensures(stems_from_segment::<T, A, D>, (data, info, decode), result),
        0 <= k < info.stems@.len(),
    ensures
        call_requires(stems_from_segment::<T, A, D>, (data, info, decode)),
        result matches Ok(stems) ==> {
            &&& stems@.len() == info.stems@.len()
            &&& stems@[k].id == info.stems@[k]
            &&& stems@[k].left@.len() == data.n_samples
            &&& exists|spectrum: &[T], wave: Vec<T>| #[trigger]
                call_ensures(
                    *decode,
                    (spectrum, 2048usize, data.n_frames, 343980usize),
                    Ok::<Vec<T>, DemucsError>(wave),
                ) && spectrum@ == data.freq_data@.subrange(
                    k * (8192 * data.n_frames),
                    k * (8192 * data.n_frames) + 4096 * data.n_frames,
                ) && (forall|i: int|
                    0 <= i < data.n_samples ==> call_ensures(
                        A::plus,
                        (wave@[i], data.time_data@[k * (2 * data.n_samples) + i]),
                        #[trigger] stems@[k].left@[i],
                    ))
            &&& stems@[k].right@.len() == data.n_samples
            &&& exists|spectrum: &[T], wave: Vec<T>| #[trigger]
                call_ensures(
                    *decode,
                    (spectrum, 2048usize, data.n_frames, 343980usize),
                    Ok::<Vec<T>, DemucsError>(wave),
                ) && spectrum@ == data.freq_data@.subrange(
                    k * (8192 * data.n_frames) + 4096 * data.n_frames,
                    k * (8192 * data.n_frames) + 8192 * data.n_frames,
                ) && (forall|i: int|
                    0 <= i < data.n_samples ==> call_ensures(
                        A::plus,
                        (wave@[i], data.time_data@[k * (2 * data.n_samples) + data.n_samples + i]),
                        #[trigger] stems@[k].right@[i],
                    ))
        },
{
    lemma_places_of_all(data, info.stems@.len() as int, k);
    if let Ok(stems) = result {
        let views = stem_views(stems@);
        assert(stem_decoded::<T, A, D>(*decode, data, k, info.stems@[k], views[k]));
        law_decoded_stem::<T, A, D>(*decode, data, k, info.stems@[k], views[k]);
        assert(views[k].left == stems@[k].left@ && views[k].right == stems@[k].right@);
    }
}

proof fn lemma_places_of_all<T>(data: &SegmentData<T>, n_sources: int, k: int)
    requires
        0 <= k < n_sources,
        n_sources * (8192 * data.n_frames) <= data.freq_data@.len(),
        n_sources * (2 * data.n_samples) <= data.time_data@.len(),
    ensures
        data.holds(n_sources),
        (k + 1) * (8192 * data.n_frames) <= data.freq_data@.len(),
        (k + 1) * (2 * data.n_samples) <= data.time_data@.len(),
{
    let size = 8192 * data.n_frames as int;
    let length = 2 * data.n_samples as int;
    assert(2 * spectrum_len(data.n_frames as int) == size);
    assert((k + 1) * size <= n_sources * size && (k + 1) * length <= n_sources * length)
        by (nonlinear_arith)
        requires
            k + 1 <= n_sources,
            0 <= size,
            0 <= length,
    ;
}

/// Decoding a segment fails with the error of the first spectrum that fails: those
/// of the stems before, and that of the left side if it is a right one, went
/// well.
pub proof fn law_failed_segment<
    T: Copy,
    A: Arithmetic<T>,
    D: Fn(&[T], usize, usize, usize) -> Result<Vec<T>>,
>(
    data: &SegmentData<T>,
    info: &ModelInfo,
    decode: &D,
    error: DemucsError,
) -> (failed: int)
    requires
        info.stems@.len() * (8192 * data.n_frames) <= data.freq_data@.len(),
        info.stems@.len() * (2 * data.n_samples) <= data.time_data@.len(),
        call_ensures(
            stems_from_segment::<T, A, D>,
            (data, info, decode),
            Err::<Vec<Stem<T>>, DemucsError>(error),
        ),
    ensures
        0 <= failed < info.stems@.len(),
        ({
            ||| exists|spectrum: &[T]| #[trigger]
                call_ensures(
                    *decode,
                    (spectrum, 2048usize, data.n_frames, 343980usize),
                    Err::<Vec<T>, DemucsError>(error),
                ) && spectrum@ == data.freq_data@.subrange(
                    failed * (8192 * data.n_frames),
                    failed * (8192 * data.n_frames) + 4096 * data.n_frames,
                )
            ||| {
                &&& exists|spectrum: &[T], wave: Vec<T>| #[trigger]
                    call_ensures(
                        *decode,
                        (spectrum, 2048usize, data.n_frames, 343980usize),
                        Ok::<Vec<T>, DemucsError>(wave),
                    ) && spectrum@ == data.freq_data@.subrange(
                        failed * (8192 * data.n_frames),
                        failed * (8192 * data.n_frames) + 4096 * data.n_frames,
                    )
                &&& exists|spectrum: &[T]| #[trigger]
                    call_ensures(
                        *decode,
                        (spectrum, 2048usize, data.n_frames, 343980usize),
                        Err::<Vec<T>, DemucsError>(error),
                    ) && spectrum@ == data.freq_data@.subrange(
                        failed * (8192 * data.n_frames) + 4096 * data.n_frames,
                        failed * (8192 * data.n_frames) + 8192 * data.n_frames,
                    )
            }
        }),
        forall|k: int| 0 <= k < failed && info.stems@.contains(#[trigger] info.stems@[k]) ==>
            exists|spectrum: &[T], wave: Vec<T>| #[trigger]
                call_ensures(
                    *decode,
                    (spectrum, 2048usize, data.n_frames, 343980usize),
                    Ok::<Vec<T>, DemucsError>(wave),
                ) && spectrum@ == data.freq_data@.subrange(
                    k * (8192 * data.n_frames),
                    k * (8192 * data.n_frames) + 4096 * data.n_frames,
                ),
        forall|k: int| 0 <= k < failed && info.stems@.contains(#[trigger] info.stems@[k]) ==>
            exists|spectrum: &[T], wave: Vec<T>| #[trigger]
                call_ensures(
                    *decode,
                    (spectrum, 2048usize, data.n_frames, 343980usize),
                    Ok::<Vec<T>, DemucsError>(wave),
                ) && spectrum@ == data.freq_data@.subrange(
                    k * (8192 * data.n_frames) + 4096 * data.n_frames,
                    k * (8192 * data.n_frames) + 8192 * data.n_frames,
                ),
{
    let stems = choose|stems: Seq<StemView<T>>|
        stems.len() < info.stems@.len()
        && #[trigger] segment_decoded::<T, A, D>(
            *decode,
            data,
            info.stems@.take(stems.len() as int),
            stems,
        )
        && stem_failed(*decode, data, stems.len() as int, error);
    let failed = stems.len() as int;
    lemma_places_of_all(data, info.stems@.len() as int, failed);
    law_failed_stem::<T, D>(*decode, data, failed, error);
    assert forall|k: int| 0 <= k < failed implies stem_decoded::<T, A, D>(
        *decode,
        data,
        k,
        info.stems@[k],
        #[trigger] stems[k],
    ) by {
        assert(info.stems@.take(failed)[k] == info.stems@[k]);
    }
    assert forall|k: int| 0 <= k < failed && info.stems@.contains(#[trigger] info.stems@[k]) implies
            exists|spectrum: &[T], wave: Vec<T>| #[trigger]
                call_ensures(
                    *decode,
                    (spectrum, 2048usize, data.n_frames, 343980usize),
                    Ok::<Vec<T>, DemucsError>(wave),
                ) && spectrum@ == data.freq_data@.subrange(
                    k * (8192 * data.n_frames),
                    k * (8192 * data.n_frames) + 4096 * data.n_frames,
                ) by {
        lemma_places_of_all(data, info.stems@.len() as int, k);
        assert(stem_decoded::<T, A, D>(*decode, data, k, info.stems@[k], stems[k]));
        law_decoded_stem::<T, A, D>(*decode, data, k, info.stems@[k], stems[k]);
    }
    assert forall|k: int| 0 <= k < failed && info.stems@.contains(#[trigger] info.stems@[k]) implies
            exists|spectrum: &[T], wave: Vec<T>| #[trigger]
                call_ensures(
                    *decode,
                    (spectrum, 2048usize, data.n_frames, 343980usize),
                    Ok::<Vec<T>, DemucsError>(wave),
                ) && spectrum@ == data.freq_data@.subrange(
                    k * (8192 * data.n_frames) + 4096 * data.n_frames,
                    k * (8192 * data.n_frames) + 8192 * data.n_frames,
                ) by {
        lemma_places_of_all(data, info.stems@.len() as int, k);
        assert(stem_decoded::<T, A, D>(*decode, data, k, info.stems@[k], stems[k]));
        law_decoded_stem::<T, A, D>(*decode, data, k, info.stems@[k], stems[k]);
    }
    failed
}

} // verus!
