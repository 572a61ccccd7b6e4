//! Sample rates: the network works at one rate, and recordings come at any.

use vstd::prelude::*;

use crate::error::{DemucsError, Result};
use crate::model::{stem_views, Stem, StemView};

verus! {

/// The rate that the network works at.
pub const SAMPLE_RATE: u32 = 44100;

/// `result` is a result of resampling `channel`.
pub open spec fn resamples<T, R: Fn(&[T], u32, u32) -> core::result::Result<Vec<T>, String>>(
    resample: R,
    channel: Seq<T>,
    from: u32,
    to: u32,
    result: core::result::Result<Vec<T>, String>,
) -> bool {
    exists|values: &[T]|
        values@ == channel && #[trigger] call_ensures(resample, (values, from, to), result)
}

/// `resampled` is a result of resampling `channel`.
pub open spec fn resampled_to<T, R: Fn(&[T], u32, u32) -> core::result::Result<Vec<T>, String>>(
    resample: R,
    channel: Seq<T>,
    from: u32,
    to: u32,
    resampled: Seq<T>,
) -> bool {
    exists|values: Vec<T>|
        values@ == resampled && #[trigger] resamples(resample, channel, from, to, Ok(values))
}

/// `error` is a result of resampling `channel`.
pub open spec fn channel_failed<T, R: Fn(&[T], u32, u32) -> core::result::Result<Vec<T>, String>>(
    resample: R,
    channel: Seq<T>,
    from: u32,
    to: u32,
    error: DemucsError,
) -> bool {
    exists|reason: String|
        error == DemucsError::Dsp(reason) && #[trigger] resamples(
            resample,
            channel,
            from,
            to,
            Err(reason),
        )
}

/// `error` is a result of resampling a left channel, or, after that went well,
/// a right one.
pub open spec fn resampling_failed<
    T,
    R: Fn(&[T], u32, u32) -> core::result::Result<Vec<T>, String>,
>(resample: R, left: Seq<T>, right: Seq<T>, from: u32, to: u32, error: DemucsError) -> bool {
    ||| channel_failed(resample, left, from, to, error)
    ||| {
        &&& exists|resampled: Seq<T>| #[trigger] resampled_to(resample, left, from, to, resampled)
        &&& channel_failed(resample, right, from, to, error)
    }
}

/// Resamples the two sides of a signal.
fn resample_pair<T, R: Fn(&[T], u32, u32) -> core::result::Result<Vec<T>, String>>(
    left: &[T],
    right: &[T],
    from: u32,
    to: u32,
    resample: &R,
) -> (result: Result<(Vec<T>, Vec<T>)>)
    requires
        forall|values: &[T]| #[trigger] call_requires(*resample, (values, from, to)),
    ensures
        match result {
            Ok(pair) => {
                &&& resampled_to(*resample, left@, from, to, pair.0@)
                &&& resampled_to(*resample, right@, from, to, pair.1@)
            },
            Err(error) => resampling_failed(*resample, left@, right@, from, to, error),
        },
{
    let left_result: core::result::Result<Vec<T>, String> = resample(left, from, to);
    assert(resamples(*resample, left@, from, to, left_result));
    let new_left: Vec<T> = match left_result {
        Ok(values) => values,
        Err(reason) => {
            return Err(DemucsError::Dsp(reason));
        },
    };
    assert(resampled_to(*resample, left@, from, to, new_left@));
    let right_result: core::result::Result<Vec<T>, String> = resample(right, from, to);
    assert(resamples(*resample, right@, from, to, right_result));
    match right_result {
        Ok(new_right) => Ok((new_left, new_right)),
        Err(reason) => Err(DemucsError::Dsp(reason)),
    }
}

/// Brings the two sides of a recording to the rate of the network. `None` says
/// that they are there already.
pub fn to_network_rate<T, R: Fn(&[T], u32, u32) -> core::result::Result<Vec<T>, String>>(
    left: &[T],
    right: &[T],
    sample_rate: u32,
    resample: &R,
) -> (result: Result<Option<(Vec<T>, Vec<T>)>>)
    requires
        sample_rate != SAMPLE_RATE ==> forall|values: &[T]| #[trigger]
            call_requires(*resample, (values, sample_rate, SAMPLE_RATE)),
    ensures
        match result {
            Ok(None) => sample_rate == SAMPLE_RATE,
            Ok(Some(pair)) => {
                &&& sample_rate != SAMPLE_RATE
                &&& resampled_to(*resample, left@, sample_rate, SAMPLE_RATE, pair.0@)
                &&& resampled_to(*resample, right@, sample_rate, SAMPLE_RATE, pair.1@)
            },
            Err(error) => {
                &&& sample_rate != SAMPLE_RATE
                &&& resampling_failed(
                    *resample,
                    left@,
                    right@,
                    sample_rate,
                    SAMPLE_RATE,
                    error,
                )
            },
        },
{
    if sample_rate == SAMPLE_RATE {
        return Ok(None);
    }
    match resample_pair(left, right, sample_rate, SAMPLE_RATE, resample) {
        Ok(pair) => Ok(Some(pair)),
        Err(error) => Err(error),
    }
}

/// `after` is a result of resampling the stems `before`.
pub open spec fn stems_resampled<
    T,
    R: Fn(&[T], u32, u32) -> core::result::Result<Vec<T>, String>,
>(resample: R, before: Seq<StemView<T>>, from: u32, to: u32, after: Seq<StemView<T>>) -> bool {
    &&& after.len() == before.len()
    &&& forall|k: int|
        #![trigger after[k]]
        0 <= k < before.len() ==> {
            &&& after[k].id == before[k].id
            &&& resampled_to(resample, before[k].left, from, to, after[k].left)
            &&& resampled_to(resample, before[k].right, from, to, after[k].right)
        }
}

/// `after` is a result of bringing the stems `before` back to the rate of the
/// recording: the same stems if that is the rate of the network, and else the
/// same stems with both sides resampled.
pub open spec fn brought_back<
    T,
    R: Fn(&[T], u32, u32) -> core::result::Result<Vec<T>, String>,
>(resample: R, before: Seq<StemView<T>>, sample_rate: u32, after: Seq<StemView<T>>) -> bool {
    if sample_rate == SAMPLE_RATE {
        after == before
    } else {
        stems_resampled(resample, before, SAMPLE_RATE, sample_rate, after)
    }
}

/// Bringing the stems `before` back to the rate of the recording can fail with
/// `error`: resampling went well up to some stem, and failed on that one.
pub open spec fn bringing_back_failed<
    T,
    R: Fn(&[T], u32, u32) -> core::result::Result<Vec<T>, String>,
>(resample: R, before: Seq<StemView<T>>, sample_rate: u32, error: DemucsError) -> bool {
    &&& sample_rate != SAMPLE_RATE
    &&& exists|done: Seq<StemView<T>>|
        done.len() < before.len()
        && #[trigger] stems_resampled(
            resample,
            before.take(done.len() as int),
            SAMPLE_RATE,
            sample_rate,
            done,
        )
        && resampling_failed(
            resample,
            before[done.len() as int].left,
            before[done.len() as int].right,
            SAMPLE_RATE,
            sample_rate,
            error,
        )
}

/// Brings separated stems back to the rate of the recording.
///
/// Fails with the first error of `resample`.
pub fn to_source_rate<T, R: Fn(&[T], u32, u32) -> core::result::Result<Vec<T>, String>>(
    stems: Vec<Stem<T>>,
    sample_rate: u32,
    resample: &R,
) -> (result: Result<Vec<Stem<T>>>)
    requires
        sample_rate != SAMPLE_RATE ==> forall|values: &[T]| #[trigger]
            call_requires(*resample, (values, SAMPLE_RATE, sample_rate)),
    ensures
        sample_rate == SAMPLE_RATE ==> result == Ok::<Vec<Stem<T>>, DemucsError>(stems),
        match result {
            Ok(restored) => brought_back(
                *resample,
                stem_views(stems@),
                sample_rate,
                stem_views(restored@),
            ),
            Err(error) => bringing_back_failed(
                *resample,
                stem_views(stems@),
                sample_rate,
                error,
            ),
        },
{
    if sample_rate == SAMPLE_RATE {
        return Ok(stems);
    }
    let ghost views = stem_views(stems@);
    let mut restored: Vec<Stem<T>> = Vec::new();
    let mut k: usize = 0;
    while k < stems.len()
        invariant
            k <= stems@.len(),
            views == stem_views(stems@),
            sample_rate != SAMPLE_RATE,
            forall|values: &[T]| #[trigger]
                call_requires(*resample, (values, SAMPLE_RATE, sample_rate)),
            stems_resampled(
                *resample,
                views.take(k as int),
                SAMPLE_RATE,
                sample_rate,
                stem_views(restored@),
            ),
        decreases stems@.len() - k,
    {
        let ghost before = stem_views(restored@);
        match resample_pair(
            stems[k].left.as_slice(),
            stems[k].right.as_slice(),
            SAMPLE_RATE,
            sample_rate,
            resample,
        ) {
            Ok((left, right)) => {
                let stem = Stem { id: stems[k].id, left, right };
                let ghost view = stem@;
                restored.push(stem);
                assert(stem_views(restored@) =~= before.push(view));
            },
            Err(error) => {
                assert(before.len() == k);
                return Err(error);
            },
        }
        k += 1;
    }
    assert(views.take(k as int) =~= views);
    Ok(restored)
}

} // verus!
