//! What can go wrong in a run.

use vstd::prelude::*;
use vstd::string::StringExecFns;

verus! {

#[derive(Debug)]
pub enum DemucsError {
    /// Resampling or a spectral transform failed.
    Dsp(String),
    /// A tensor could not be read back.
    Tensor(String),
    /// The listener asked to stop.
    Cancelled,
}

pub type Result<T> = core::result::Result<T, DemucsError>;

/// The transfers from the device, each of which can fail.
#[derive(Clone, Copy, Debug, PartialEq, Eq, Structural)]
pub enum Transfer {
    /// Reading the frequency branch of all stems.
    FreqBulkRead,
    /// Reading the time branch of all stems.
    TimeBulkRead,
    /// Reading the frequency branch of one stem.
    FreqRead,
    /// Reading the time branch of one stem.
    TimeRead,
    /// Taking samples out of the frequency branch.
    FreqExtraction,
    /// Taking samples out of the time branch.
    TimeExtraction,
}

impl Transfer {
    /// What the message of a failed transfer starts with.
    pub open spec fn prefix(self) -> Seq<char> {
        match self {
            Transfer::FreqBulkRead => "freq bulk read failed: "@,
            Transfer::TimeBulkRead => "time bulk read failed: "@,
            Transfer::FreqRead => "freq read failed: "@,
            Transfer::TimeRead => "time read failed: "@,
            Transfer::FreqExtraction => "freq extraction failed: "@,
            Transfer::TimeExtraction => "time extraction failed: "@,
        }
    }

    /// The error for a transfer that failed with the message `reason`.
    pub fn failed(self, reason: &str) -> (error: DemucsError)
        ensures
            error matches DemucsError::Tensor(message) && message@ == self.prefix() + reason@,
    {
        let prefix: &str = match self {
            Transfer::FreqBulkRead => "freq bulk read failed: ",
            Transfer::TimeBulkRead => "time bulk read failed: ",
            Transfer::FreqRead => "freq read failed: ",
            Transfer::TimeRead => "time read failed: ",
            Transfer::FreqExtraction => "freq extraction failed: ",
            Transfer::TimeExtraction => "time extraction failed: ",
        };
        DemucsError::Tensor(prefix.to_owned().concat(reason))
    }
}

} // verus!
