use vstd::prelude::*;

use crate::kernel::timespec;
use super::token::{IORingTaskToken, IORingTaskTokenExtract};

verus! {

/// A timer of whole seconds on the ring, and the token of its operation once submitted.
pub struct Timeout {
    pub timespec: timespec,
    pub token: Option<IORingTaskToken>,
}

/// How a timer ended.
pub enum TimeoutResult {
    Succeeded(),
    OperationFailed(i32),
    InternallyFailed(),
}

/// What a poll of a timer answers.
pub enum TimeoutPoll {
    Pending,
    Ready(TimeoutResult),
}

/// The result that the ring reports for a timer that expired.
pub const EXPIRED: i32 = -62;

/// A timer of `seconds` seconds, not yet submitted.
pub fn timeout(seconds: u32) -> (r: Timeout)
    ensures
        r.timespec.tv_sec == seconds,
        r.timespec.tv_nsec == 0,
        r.token is None,
{
    Timeout { timespec: timespec { tv_sec: seconds as i64, tv_nsec: 0 }, token: None }
}

impl Timeout {
    /// The token of the submitted operation, taken out of the timer.
    pub fn take_token(&mut self) -> (r: Option<IORingTaskToken>)
        ensures
            r == old(self).token,
            final(self).token is None,
            final(self).timespec == old(self).timespec,
    {
        let t = self.token.take();
        t
    }

    /// The poll answer once the token was asked for its completion: an expired timer succeeded,
    /// any other result failed, and a completion not there yet keeps the timer waiting.
    pub fn completed(&mut self, extracted: IORingTaskTokenExtract) -> (r: TimeoutPoll)
        requires
            old(self).token is None,
        ensures
            final(self).timespec == old(self).timespec,
            match extracted {
                IORingTaskTokenExtract::Succeeded(value) => {
                    &&& final(self).token is None
                    &&& r == if value != EXPIRED {
                        TimeoutPoll::Ready(TimeoutResult::OperationFailed(value))
                    } else {
                        TimeoutPoll::Ready(TimeoutResult::Succeeded())
                    }
                },
                IORingTaskTokenExtract::Failed(token) => final(self).token == Some(token) && r
                    == TimeoutPoll::Pending,
            },
    {
        match extracted {
            IORingTaskTokenExtract::Succeeded(value) => {
                if value != EXPIRED {
                    TimeoutPoll::Ready(TimeoutResult::OperationFailed(value))
                } else {
                    TimeoutPoll::Ready(TimeoutResult::Succeeded())
                }
            },
            IORingTaskTokenExtract::Failed(token) => {
                self.token = Some(token);
                TimeoutPoll::Pending
            },
        }
    }

    /// The poll answer once the timer operation was submitted: waiting with its token, or
    /// failed when it could not be submitted.
    pub fn submitted(&mut self, token: Option<IORingTaskToken>) -> (r: TimeoutPoll)
        requires
            old(self).token is None,
        ensures
            final(self).timespec == old(self).timespec,
            match token {
                Some(t) => final(self).token == Some(t) && r == TimeoutPoll::Pending,
                None => final(self).token is None && r == TimeoutPoll::Ready(TimeoutResult::InternallyFailed()),
            },
    {
        match token {
            Some(t) => {
                self.token = Some(t);
                TimeoutPoll::Pending
            },
            None => TimeoutPoll::Ready(TimeoutResult::InternallyFailed()),
        }
    }
}

} // verus!
