use vstd::prelude::*;

use super::refs::{IORingCompleterRef, IORingTaskRef};

verus! {

/// What spawning a task on the ring gave.
pub enum IORingRuntimeSpawn {
    Pending(IORingTaskRef),
    Draining(IORingTaskRef),
    Completed(Option<Vec<u8>>),
    InternallyFailed(),
    NotEnoughSlots(),
}

/// What handing a callable to the worker pool gave.
pub enum IORingRuntimeExecute {
    Queued(IORingCompleterRef, IORingCompleterRef),
    Executed(IORingCompleterRef, IORingCompleterRef),
    NotEnoughSlots(),
    InternallyFailed(),
}

/// How running the ring ended.
pub enum IORingRuntimeRun {
    Completed(Option<Vec<u8>>),
    CompletionFailed(isize),
    AllocationFailed(isize),
    InternallyFailed(),
}

/// What looking up a completion gave.
pub enum IORingRuntimeExtract {
    Succeeded(i32),
    NotCompleted(),
    NotFound(),
}

/// What submitting an operation gave.
pub enum IORingRuntimeSubmit {
    Succeeded(IORingCompleterRef),
    SubmissionFailed(Option<isize>),
    InternallyFailed(),
    NotEnoughSlots(),
}

/// How shutting the ring down ended.
pub enum IORingRuntimeShutdown {
    Succeeded(),
    ConsolidationFailed(),
    ShutdownFailed(),
}

} // verus!
