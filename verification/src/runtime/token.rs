use vstd::prelude::*;

use super::ring::{IORingRuntimeExtract, IORingRuntimeSpawn, IORingRuntimeSubmit};
use super::refs::IORingCompleterRef;

verus! {

/// A task's claim on the completion of an operation it submitted.
pub struct IORingTaskToken {
    pub completer: IORingCompleterRef,
}

/// What a token gave when asked for its completion.
pub enum IORingTaskTokenExtract {
    Succeeded(i32),
    Failed(IORingTaskToken),
}

impl IORingTaskToken {
    fn new(completer: IORingCompleterRef) -> (r: Self)
        ensures
            r.completer == completer,
    {
        IORingTaskToken { completer }
    }

    /// The answer to a task asking for its completion, given what the ring found: the result, or
    /// the token back when the completion is not there yet or is unknown.
    pub fn extract(self, found: IORingRuntimeExtract) -> (r: IORingTaskTokenExtract)
        ensures
            match found {
                IORingRuntimeExtract::Succeeded(value) => r == IORingTaskTokenExtract::Succeeded(value),
                _ => r == IORingTaskTokenExtract::Failed(self),
            },
    {
        match found {
            IORingRuntimeExtract::Succeeded(value) => IORingTaskTokenExtract::Succeeded(value),
            IORingRuntimeExtract::NotCompleted() => IORingTaskTokenExtract::Failed(self),
            IORingRuntimeExtract::NotFound() => IORingTaskTokenExtract::Failed(self),
        }
    }

    /// The token for a submitted operation, given what the ring answered: a token for its
    /// completer, or nothing when the submission failed.
    pub fn submit(answer: IORingRuntimeSubmit) -> (r: Option<IORingTaskToken>)
        ensures
            match answer {
                IORingRuntimeSubmit::Succeeded(completer) => r == Some(IORingTaskToken { completer }),
                _ => r is None,
            },
    {
        match answer {
            IORingRuntimeSubmit::Succeeded(completer) => Some(IORingTaskToken::new(completer)),
            IORingRuntimeSubmit::SubmissionFailed(_) => None,
            IORingRuntimeSubmit::InternallyFailed() => None,
            IORingRuntimeSubmit::NotEnoughSlots() => None,
        }
    }

    /// Whether a spawned task is pending on the ring, given what the ring answered.
    pub fn spawn(answer: IORingRuntimeSpawn) -> (r: bool)
        ensures
            r == (answer is Pending),
    {
        match answer {
            IORingRuntimeSpawn::Pending(_) => true,
            _ => false,
        }
    }
}

} // verus!
