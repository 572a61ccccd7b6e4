//! What calls on sample rates return.

use vstd::prelude::*;

use crate::error::{DemucsError, Result};
use crate::model::{stem_views, Stem, StemView};
use crate::rate::{
    channel_failed, resampled_to, resamples, resampling_failed, stems_resampled, to_network_rate,
    to_source_rate, SAMPLE_RATE,
};

verus! {

/// A resampled channel is the whole of what the resampler made of the whole
/// channel, however long either is.
pub proof fn law_resampled_channel_is_whole<
    T,
    R: Fn(&[T], u32, u32) -> core::result::Result<Vec<T>, String>,
>(resample: R, channel: Seq<T>, from: u32, to: u32, resampled: Seq<T>)
    requires
        resampled_to(resample, channel, from, to, resampled),
    ensures
        exists|samples: &[T], values: Vec<T>| #[trigger]
            call_ensures(
                resample,
                (samples, from, to),
                Ok::<Vec<T>, String>(values),
            ) && samples@ == channel && values@ == resampled,
{
    let values = choose|values: Vec<T>|
        values@ == resampled && #[trigger] resamples(resample, channel, from, to, Ok(values));
    let samples = choose|samples: &[T]|
        samples@ == channel && #[trigger] call_ensures(resample, (samples, from, to), Ok(values));
    assert(call_ensures(resample, (samples, from, to), Ok::<Vec<T>, String>(values)));
}

/// A failed channel fails with what the resampler said of the whole channel.
pub proof fn law_failed_channel<
    T,
    R: Fn(&[T], u32, u32) -> core::result::Result<Vec<T>, String>,
>(resample: R, channel: Seq<T>, from: u32, to: u32, error: DemucsError)
    requires
        channel_failed(resample, channel, from, to, error),
    ensures
        error is Dsp,
        exists|samples: &[T]| #[trigger]
            call_ensures(
                resample,
                (samples, from, to),
                Err::<Vec<T>, String>(error->Dsp_0),
            ) && samples@ == channel,
{
    let reason = choose|reason: String|
        error == DemucsError::Dsp(reason) && #[trigger] resamples(
            resample,
            channel,
            from,
            to,
            Err(reason),
        );
    let samples = choose|samples: &[T]|
        samples@ == channel && #[trigger] call_ensures(resample, (samples, from, to), Err(reason));
    assert(error->Dsp_0 == reason);
    assert(call_ensures(resample, (samples, from, to), Err::<Vec<T>, String>(error->Dsp_0)));
}

/// A recording at 44100 Hz goes to the network as it is. At any other rate, each
/// of its sides goes there as the whole result of resampling that side from its
/// rate to 44100 Hz. It fails only if the resampler fails on the left side, or
/// after that went well on the right one, and with what it said.
pub proof fn law_to_network_rate<
    T,
    R: Fn(&[T], u32, u32) -> core::result::Result<Vec<T>, String>,
>(
    left: &[T],
    right: &[T],
    sample_rate: u32,
    resample: &R,
    result: Result<Option<(Vec<T>, Vec<T>)>>,
)
    requires
        forall|samples: &[T]| #[trigger] call_requires(*resample, (samples, sample_rate, 44100u32)),
        call_ensures(to_network_rate::<T, R>, (left, right, sample_rate, resample), result),
    ensures
        call_requires(to_network_rate::<T, R>, (left, right, sample_rate, resample)),
        sample_rate == 44100 <==> result == Ok::<Option<(Vec<T>, Vec<T>)>, DemucsError>(None),
        result matches Ok(Some(pair)) ==> {
            &&& exists|samples: &[T], values: Vec<T>| #[trigger]
                call_ensures(
                    *resample,
                    (samples, sample_rate, 44100u32),
                    Ok::<Vec<T>, String>(values),
                ) && samples@ == left@ && values@ == pair.0@
            &&& exists|samples: &[T], values: Vec<T>| #[trigger]
                call_ensures(
                    *resample,
                    (samples, sample_rate, 44100u32),
                    Ok::<Vec<T>, String>(values),
                ) && samples@ == right@ && values@ == pair.1@
        },
        result matches Err(error) ==> error is Dsp && {
            ||| exists|samples: &[T]| #[trigger]
                call_ensures(
                    *resample,
                    (samples, sample_rate, 44100u32),
                    Err::<Vec<T>, String>(error->Dsp_0),
                ) && samples@ == left@
            ||| {
                &&& exists|samples: &[T], values: Vec<T>| #[trigger]
                    call_ensures(
                        *resample,
                        (samples, sample_rate, 44100u32),
                        Ok::<Vec<T>, String>(values),
                    ) && samples@ == left@
                &&& exists|samples: &[T]| #[trigger]
                    call_ensures(
                        *resample,
                        (samples, sample_rate, 44100u32),
                        Err::<Vec<T>, String>(error->Dsp_0),
                    ) && samples@ == right@
            }
        },
{
    match result {
        Ok(None) => {},
        Ok(Some(pair)) => {
            law_resampled_channel_is_whole(*resample, left@, sample_rate, SAMPLE_RATE, pair.0@);
            law_resampled_channel_is_whole(*resample, right@, sample_rate, SAMPLE_RATE, pair.1@);
        },
        Err(error) => {
            law_failed_pair(*resample, left@, right@, sample_rate, SAMPLE_RATE, error);
        },
    }
}

/// Two sides fail with what the resampler said of the left one, or after that went
/// well of the right one.
pub proof fn law_failed_pair<
    T,
    R: Fn(&[T], u32, u32) -> core::result::Result<Vec<T>, String>,
>(resample: R, left: Seq<T>, right: Seq<T>, from: u32, to: u32, error: DemucsError)
    requires
        resampling_failed(resample, left, right, from, to, error),
    ensures
        error is Dsp,
        ({
            ||| exists|samples: &[T]| #[trigger]
                call_ensures(
                    resample,
                    (samples, from, to),
                    Err::<Vec<T>, String>(error->Dsp_0),
                ) && samples@ == left
            ||| {
                &&& exists|samples: &[T], values: Vec<T>| #[trigger]
                    call_ensures(
                        resample,
                        (samples, from, to),
                        Ok::<Vec<T>, String>(values),
                    ) && samples@ == left
                &&& exists|samples: &[T]| #[trigger]
                    call_ensures(
                        resample,
                        (samples, from, to),
                        Err::<Vec<T>, String>(error->Dsp_0),
                    ) && samples@ == right
            }
        }),
{
    if channel_failed(resample, left, from, to, error) {
        law_failed_channel(resample, left, from, to, error);
    } else {
        let resampled = choose|resampled: Seq<T>| #[trigger]
            resampled_to(resample, left, from, to, resampled);
        law_resampled_channel_is_whole(resample, left, from, to, resampled);
        law_failed_channel(resample, right, from, to, error);
    }
}

/// Stems at 44100 Hz are left as they are. At any other rate, every stem keeps its
/// id and its place, and either side of it becomes the whole result of resampling
/// that side from 44100 Hz to the rate, for the first stem as for the last.
pub proof fn law_to_source_rate<
    T,
    R: Fn(&[T], u32, u32) -> core::result::Result<Vec<T>, String>,
>(
    stems: Vec<Stem<T>>,
    sample_rate: u32,
    resample: &R,
    result: Result<Vec<Stem<T>>>,
    k: int,
)
    requires
        forall|samples: &[T]| #[trigger] call_requires(*resample, (samples, 44100u32, sample_rate)),
        call_ensures(to_source_rate::<T, R>, (stems, sample_rate, resample), result),
    ensures
        call_requires(to_source_rate::<T, R>, (stems, sample_rate, resample)),
        sample_rate == 44100 ==> result == Ok::<Vec<Stem<T>>, DemucsError>(stems),
        result matches Ok(restored) ==> restored@.len() == stems@.len(),
        result matches Ok(restored) ==> sample_rate != 44100 && 0 <= k < stems@.len() ==> {
            &&& restored@[k].id == stems@[k].id
            &&& exists|samples: &[T], values: Vec<T>| #[trigger]
                call_ensures(
                    *resample,
                    (samples, 44100u32, sample_rate),
                    Ok::<Vec<T>, String>(values),
                ) && samples@ == stems@[k].left@ && values@ == restored@[k].left@
            &&& exists|samples: &[T], values: Vec<T>| #[trigger]
                call_ensures(
                    *resample,
                    (samples, 44100u32, sample_rate),
                    Ok::<Vec<T>, String>(values),
                ) && samples@ == stems@[k].right@ && values@ == restored@[k].right@
        },
{
    if let Ok(restored) = result {
        let before = stem_views(stems@);
        let after = stem_views(restored@);
        assert(after.len() == restored@.len());
        if sample_rate != SAMPLE_RATE && 0 <= k < stems@.len() {
            assert(after[k].id == before[k].id);
            law_resampled_channel_is_whole(
                *resample, before[k].left, SAMPLE_RATE, sample_rate, after[k].left);
            law_resampled_channel_is_whole(
                *resample, before[k].right, SAMPLE_RATE, sample_rate, after[k].right);
            assert(before[k].left == stems@[k].left@ && before[k].right == stems@[k].right@);
            assert(after[k].left == restored@[k].left@ && after[k].right == restored@[k].right@);
        }
    }
}

/// Bringing stems back fails with what the resampler said of the first side that
/// it failed on.
pub proof fn law_failed_restoring<
    T,
    R: Fn(&[T], u32, u32) -> core::result::Result<Vec<T>, String>,
>(stems: Vec<Stem<T>>, sample_rate: u32, resample: &R, error: DemucsError) -> (failed: int)
    requires
        call_ensures(
            to_source_rate::<T, R>,
            (stems, sample_rate, resample),
            Err::<Vec<Stem<T>>, DemucsError>(error),
        ),
    ensures
        sample_rate != 44100,
        error is Dsp,
        0 <= failed < stems@.len(),
        ({
            ||| exists|samples: &[T]| #[trigger]
                call_ensures(
                    *resample,
                    (samples, 44100u32, sample_rate),
                    Err::<Vec<T>, String>(error->Dsp_0),
                ) && samples@ == stems@[failed].left@
            ||| {
                &&& exists|samples: &[T], values: Vec<T>| #[trigger]
                    call_ensures(
                        *resample,
                        (samples, 44100u32, sample_rate),
                        Ok::<Vec<T>, String>(values),
                    ) && samples@ == stems@[failed].left@
                &&& exists|samples: &[T]| #[trigger]
                    call_ensures(
                        *resample,
                        (samples, 44100u32, sample_rate),
                        Err::<Vec<T>, String>(error->Dsp_0),
                    ) && samples@ == stems@[failed].right@
            }
        }),
        forall|k: int| 0 <= k < failed && stems@.contains(#[trigger] stems@[k]) ==> exists|
            samples: &[T],
            values: Vec<T>,
        | #[trigger]
            call_ensures(
                *resample,
                (samples, 44100u32, sample_rate),
                Ok::<Vec<T>, String>(values),
            ) && samples@ == stems@[k].left@,
        forall|k: int| 0 <= k < failed && stems@.contains(#[trigger] stems@[k]) ==> exists|
            samples: &[T],
            values: Vec<T>,
        | #[trigger]
            call_ensures(
                *resample,
                (samples, 44100u32, sample_rate),
                Ok::<Vec<T>, String>(values),
            ) && samples@ == stems@[k].right@,
{
    let before = stem_views(stems@);
    let done = choose|done: Seq<StemView<T>>|
        done.len() < before.len()
        && #[trigger] stems_resampled(
            *resample,
            before.take(done.len() as int),
            SAMPLE_RATE,
            sample_rate,
            done,
        )
        && resampling_failed(
            *resample,
            before[done.len() as int].left,
            before[done.len() as int].right,
            SAMPLE_RATE,
            sample_rate,
            error,
        );
    let failed = done.len() as int;
    law_failed_pair(
        *resample, before[failed].left, before[failed].right, SAMPLE_RATE, sample_rate, error);
    assert forall|k: int| 0 <= k < failed && stems@.contains(#[trigger] stems@[k]) implies exists|
        samples: &[T],
        values: Vec<T>,
    | #[trigger]
        call_ensures(
            *resample,
            (samples, 44100u32, sample_rate),
            Ok::<Vec<T>, String>(values),
        ) && samples@ == stems@[k].left@ by {
        assert(before.take(failed)[k].left == stems@[k].left@);
        assert(done[k].id == before.take(failed)[k].id);
        law_resampled_channel_is_whole(
            *resample, stems@[k].left@, SAMPLE_RATE, sample_rate, done[k].left);
    }
    assert forall|k: int| 0 <= k < failed && stems@.contains(#[trigger] stems@[k]) implies exists|
        samples: &[T],
        values: Vec<T>,
    | #[trigger]
        call_ensures(
            *resample,
            (samples, 44100u32, sample_rate),
            Ok::<Vec<T>, String>(values),
        ) && samples@ == stems@[k].right@ by {
        assert(before.take(failed)[k].right == stems@[k].right@);
        assert(done[k].id == before.take(failed)[k].id);
        law_resampled_channel_is_whole(
            *resample, stems@[k].right@, SAMPLE_RATE, sample_rate, done[k].right);
    }
    failed
}

/// With a resampler that returns what it is given, stems come back unchanged, and
/// a recording goes to the network unchanged.
pub proof fn law_idle_resampler<
    T,
    R: Fn(&[T], u32, u32) -> core::result::Result<Vec<T>, String>,
>(
    resample: &R,
    stems: Vec<Stem<T>>,
    sample_rate: u32,
    restored: Vec<Stem<T>>,
    left: &[T],
    right: &[T],
    pair: (Vec<T>, Vec<T>),
    k: int,
)
    requires
        forall|samples: &[T], from: u32, to: u32| #[trigger]
            call_requires(*resample, (samples, from, to)),
        forall|samples: &[T], from: u32, to: u32, values: Vec<T>| #[trigger]
            call_ensures(*resample, (samples, from, to), Ok::<Vec<T>, String>(values)) ==> values@
                == samples@,
        call_ensures(
            to_source_rate::<T, R>,
            (stems, sample_rate, resample),
            Ok::<Vec<Stem<T>>, DemucsError>(restored),
        ),
        call_ensures(
            to_network_rate::<T, R>,
            (left, right, sample_rate, resample),
            Ok::<Option<(Vec<T>, Vec<T>)>, DemucsError>(Some(pair)),
        ),
        0 <= k < stems@.len(),
    ensures
        restored@[k].id == stems@[k].id,
        restored@[k].left@ == stems@[k].left@,
        restored@[k].right@ == stems@[k].right@,
        pair.0@ == left@,
        pair.1@ == right@,
{
    law_to_source_rate(stems, sample_rate, resample, Ok(restored), k);
    law_to_network_rate(left, right, sample_rate, resample, Ok(Some(pair)));
}

/// A side is brought back to the same samples whatever stem it belongs to,
/// wherever that stands in the list, and whichever side it is.
pub proof fn law_place_does_not_matter<
    T,
    R: Fn(&[T], u32, u32) -> core::result::Result<Vec<T>, String>,
>(
    resample: &R,
    sample_rate: u32,
    stems: Vec<Stem<T>>,
    restored: Vec<Stem<T>>,
    others: Vec<Stem<T>>,
    restored_others: Vec<Stem<T>>,
    j: int,
    k: int,
)
    requires
        forall|samples: &[T]| #[trigger] call_requires(*resample, (samples, 44100u32, sample_rate)),
        forall|samples: &[T], again: &[T], values: Vec<T>, same: Vec<T>|
            samples@ == again@ && #[trigger] call_ensures(
                *resample,
                (samples, 44100u32, sample_rate),
                Ok::<Vec<T>, String>(values),
            ) && #[trigger] call_ensures(
                *resample,
                (again, 44100u32, sample_rate),
                Ok::<Vec<T>, String>(same),
            ) ==> values@ == same@,
        call_ensures(
            to_source_rate::<T, R>,
            (stems, sample_rate, resample),
            Ok::<Vec<Stem<T>>, DemucsError>(restored),
        ),
        call_ensures(
            to_source_rate::<T, R>,
            (others, sample_rate, resample),
            Ok::<Vec<Stem<T>>, DemucsError>(restored_others),
        ),
        0 <= j < stems@.len(),
        0 <= k < others@.len(),
    ensures
        stems@[j].left@ == others@[k].left@ ==> restored@[j].left@ == restored_others@[k].left@,
        stems@[j].left@ == others@[k].right@ ==> restored@[j].left@ == restored_others@[k].right@,
        stems@[j].right@ == others@[k].right@ ==> restored@[j].right@
            == restored_others@[k].right@,
{
    law_to_source_rate(stems, sample_rate, resample, Ok(restored), j);
    law_to_source_rate(others, sample_rate, resample, Ok(restored_others), k);
}

/// At 44100 Hz nothing is asked of the resampler, and nothing fails.
pub proof fn law_network_rate_needs_no_resampler<
    T,
    R: Fn(&[T], u32, u32) -> core::result::Result<Vec<T>, String>,
>(
    left: &[T],
    right: &[T],
    stems: Vec<Stem<T>>,
    resample: &R,
    result: Result<Option<(Vec<T>, Vec<T>)>>,
    restored: Result<Vec<Stem<T>>>,
)
    requires
        call_ensures(to_network_rate::<T, R>, (left, right, 44100u32, resample), result),
        call_ensures(to_source_rate::<T, R>, (stems, 44100u32, resample), restored),
    ensures
        call_requires(to_network_rate::<T, R>, (left, right, 44100u32, resample)),
        call_requires(to_source_rate::<T, R>, (stems, 44100u32, resample)),
        result == Ok::<Option<(Vec<T>, Vec<T>)>, DemucsError>(None),
        restored == Ok::<Vec<Stem<T>>, DemucsError>(stems),
{
}

} // verus!
