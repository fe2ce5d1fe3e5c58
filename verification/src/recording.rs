//! How a recording begins and ends: what the caller is told of it.

use vstd::prelude::*;
use crate::error::Error;

verus! {

/// How long to wait for capture to come up before giving up, in seconds.
pub const START_TIMEOUT_SECS: u64 = 15;

/// Worker poll interval, in milliseconds. Segment latency is seconds, so 20 ms is plenty.
pub const TICK_MILLIS: u64 = 20;

/// What the caller is told after the worker reported, within the time it has for that, that
/// capture is live or why it is not; `None` where it reported nothing.
pub fn start_result(report: Option<Result<(), Error>>) -> (r: Result<(), Error>)
    ensures
        r == match report {
            Some(result) => result,
            None => Err(Error::StartTimeout),
        },
{
    match report {
        Some(result) => result,
        None => Err(Error::StartTimeout),
    }
}

/// What the caller of a live control is told: whether the message reached the worker.
pub fn control_result(reached: bool) -> (r: Result<(), Error>)
    ensures
        r == if reached {
            Ok::<(), Error>(())
        } else {
            Err(Error::NotRunning)
        },
{
    if reached {
        Ok(())
    } else {
        Err(Error::NotRunning)
    }
}

/// What is to be reported once the worker is done and `fault` is the first fault of a capture
/// device, if there was one.
pub open spec fn with_fault(error: Option<Error>, fault: Option<String>) -> Option<Error> {
    match fault {
        Some(message) => Some(Error::DeviceLost(message)),
        None => error,
    }
}

/// What is to be reported once the worker has panicked.
pub open spec fn with_panic(error: Option<Error>) -> Option<Error> {
    match error {
        Some(error) => Some(error),
        None => Some(Error::WorkerPanicked),
    }
}

/// Why a recording ended, for the caller who stops it. Nothing, for a clean stop.
#[derive(Debug)]
pub struct Outcome {
    error: Option<Error>,
}

impl Outcome {
    /// The error that is to be reported.
    pub closed spec fn error(&self) -> Option<Error> {
        self.error
    }

    /// The outcome with `error` to report.
    pub fn new(error: Option<Error>) -> (outcome: Self)
        ensures
            outcome.error() == error,
    {
        Outcome { error }
    }

    /// The worker is done; `fault` is the first fault of a capture device, if there was one.
    /// It is reported as the terminal outcome, so the caller can tell a device loss apart from
    /// a clean stop.
    pub fn finish(&mut self, fault: Option<String>)
        ensures
            final(self).error() == with_fault(old(self).error(), fault),
    {
        if let Some(message) = fault {
            self.error = Some(Error::DeviceLost(message));
        }
    }

    /// The worker thread unwound (most likely the handler panicked). Another error that is
    /// to be reported stays.
    pub fn panicked(&mut self)
        ensures
            final(self).error() == with_panic(old(self).error()),
    {
        if self.error.is_none() {
            self.error = Some(Error::WorkerPanicked);
        }
    }

    /// What stopping returns: the error that is to be reported, otherwise `Ok`. It is
    /// reported once.
    pub fn stop(&mut self) -> (r: Result<(), Error>)
        ensures
            r == match old(self).error() {
                Some(error) => Err::<(), Error>(error),
                None => Ok(()),
            },
            final(self).error() == None::<Error>,
    {
        match self.error.take() {
            Some(error) => Err(error),
            None => Ok(()),
        }
    }
}

/// A device that faulted is what stopping reports, even where the worker then panicked; a
/// panic alone is reported as such; and a worker that ended well is no error.
pub proof fn law_first_cause_is_reported(message: String, earlier: Option<Error>, cause: Error)
    ensures
        with_fault(earlier, Some(message)) == Some(Error::DeviceLost(message)),
        with_fault(earlier, None) == earlier,
        with_panic(Some(cause)) == Some(cause),
        with_panic(None) == Some(Error::WorkerPanicked),
        with_fault(None, Some(message)) == Some(Error::DeviceLost(message)),
        with_panic(with_fault(None, Some(message))) == Some(Error::DeviceLost(message)),
        with_panic(with_fault(None, None)) == Some(Error::WorkerPanicked),
        with_fault(None, None) is None,
{
}

} // verus!
