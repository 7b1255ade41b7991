use vstd::prelude::*;

use super::token::{IORingTaskToken, IORingTaskTokenExtract};

verus! {

/// How spawning a task ended.
pub enum SpawnResult {
    Succeeded(),
    OperationFailed(),
    InternallyFailed(),
}

/// How running a callable on the worker pool ended, with its result when it ran.
pub enum SpawnCPUResult<R, E> {
    Succeeded(Option<Result<R, E>>),
    OperationFailed(),
    InternallyFailed(),
}

/// How spawning ends, given whether the task was still there and whether the ring took it.
pub fn spawn_outcome(had_task: bool, spawned: bool) -> (r: SpawnResult)
    ensures
        r == if !had_task {
            SpawnResult::InternallyFailed()
        } else if spawned {
            SpawnResult::Succeeded()
        } else {
            SpawnResult::OperationFailed()
        },
{
    if !had_task {
        SpawnResult::InternallyFailed()
    } else if spawned {
        SpawnResult::Succeeded()
    } else {
        SpawnResult::OperationFailed()
    }
}

/// What a poll of a callable on the worker pool answers; `Finished` hands over the task's result.
pub enum SpawnCPUPoll {
    Pending,
    OperationFailed,
    InternallyFailed,
    Finished,
}

/// What a poll of a callable has to do next.
pub enum SpawnCPUAction {
    Execute,
    Wait,
    Fail,
}

/// A callable on the worker pool: whether its task is still held, and the tokens of the
/// operations that tell when it was queued and when it was executed.
pub struct SpawnCPU {
    pub has_task: bool,
    pub queued: Option<IORingTaskToken>,
    pub executed: Option<IORingTaskToken>,
}

impl SpawnCPU {
    /// A callable whose task is held and not yet scheduled.
    pub fn new() -> (r: Self)
        ensures
            r.has_task,
            r.queued is None,
            r.executed is None,
    {
        SpawnCPU { has_task: true, queued: None, executed: None }
    }

    /// What to do once the tokens were asked: wait while one is still held, schedule the task
    /// when none is, or fail when the task is gone.
    pub fn after_tokens(&self) -> (r: SpawnCPUAction)
        ensures
            r == if self.queued is Some || self.executed is Some {
                SpawnCPUAction::Wait
            } else if self.has_task {
                SpawnCPUAction::Execute
            } else {
                SpawnCPUAction::Fail
            },
    {
        if self.queued.is_some() || self.executed.is_some() {
            SpawnCPUAction::Wait
        } else if self.has_task {
            SpawnCPUAction::Execute
        } else {
            SpawnCPUAction::Fail
        }
    }

    /// The queuing token answered: a failed queuing fails the poll, a done one leaves it
    /// pending; a token not done yet is kept, and the poll goes on (`None`).
    pub fn queued_answer(&mut self, answer: IORingTaskTokenExtract) -> (r: Option<SpawnCPUPoll>)
        requires
            old(self).queued is None,
        ensures
            final(self).has_task == old(self).has_task,
            final(self).executed == old(self).executed,
            match answer {
                IORingTaskTokenExtract::Succeeded(value) => final(self).queued is None && r == Some(
                    if value < 0 {
                        SpawnCPUPoll::OperationFailed
                    } else {
                        SpawnCPUPoll::Pending
                    },
                ),
                IORingTaskTokenExtract::Failed(token) => final(self).queued == Some(token) && r is None,
            },
    {
        match answer {
            IORingTaskTokenExtract::Succeeded(value) => {
                if value < 0 {
                    Some(SpawnCPUPoll::OperationFailed)
                } else {
                    Some(SpawnCPUPoll::Pending)
                }
            },
            IORingTaskTokenExtract::Failed(token) => {
                self.queued = Some(token);
                None
            },
        }
    }

    /// The execution token answered: a token not done yet is kept and the poll is pending; a
    /// failed execution fails the poll; a done one hands over the task's result, or fails when
    /// the task is gone.
    pub fn executed_answer(&mut self, answer: IORingTaskTokenExtract) -> (r: SpawnCPUPoll)
        requires
            old(self).executed is None,
        ensures
            final(self).queued == old(self).queued,
            match answer {
                IORingTaskTokenExtract::Succeeded(value) => {
                    &&& final(self).executed is None
                    &&& final(self).has_task == (old(self).has_task && value < 0)
                    &&& r == if value < 0 {
                        SpawnCPUPoll::OperationFailed
                    } else if old(self).has_task {
                        SpawnCPUPoll::Finished
                    } else {
                        SpawnCPUPoll::InternallyFailed
                    }
                },
                IORingTaskTokenExtract::Failed(token) => {
                    &&& final(self).executed == Some(token)
                    &&& final(self).has_task == old(self).has_task
                    &&& r == SpawnCPUPoll::Pending
                },
            },
    {
        match answer {
            IORingTaskTokenExtract::Succeeded(value) => {
                if value < 0 {
                    SpawnCPUPoll::OperationFailed
                } else if self.has_task {
                    self.has_task = false;
                    SpawnCPUPoll::Finished
                } else {
                    SpawnCPUPoll::InternallyFailed
                }
            },
            IORingTaskTokenExtract::Failed(token) => {
                self.executed = Some(token);
                SpawnCPUPoll::Pending
            },
        }
    }

    /// The pool answered the scheduling of the task: with the two tokens the poll waits,
    /// without them it fails.
    pub fn scheduled(&mut self, tokens: Option<(IORingTaskToken, IORingTaskToken)>) -> (r: SpawnCPUPoll)
        requires
            old(self).queued is None,
            old(self).executed is None,
        ensures
            final(self).has_task == old(self).has_task,
            match tokens {
                Some((q, e)) => final(self).queued == Some(q) && final(self).executed == Some(e) && r
                    == SpawnCPUPoll::Pending,
                None => final(self).queued is None && final(self).executed is None && r
                    == SpawnCPUPoll::OperationFailed,
            },
    {
        match tokens {
            Some((q, e)) => {
                self.queued = Some(q);
                self.executed = Some(e);
                SpawnCPUPoll::Pending
            },
            None => SpawnCPUPoll::OperationFailed,
        }
    }
}

} // verus!
