use vstd::prelude::*;

use crate::jupyter::errors::JupyterError;

verus! {

/// What can go wrong in the kernel.
pub enum KernelError {
    ConnectingFailed { error: JupyterError },
    ReceivingFailed { error: JupyterError },
    SendingFailed { error: JupyterError },
    PayloadIncomplete { content: String },
}

pub fn raise_connecting_failed<T>(error: JupyterError) -> (r: Result<T, KernelError>)
    ensures
        r matches Err(KernelError::ConnectingFailed { error: e }) && e == error,
{
    Err(KernelError::ConnectingFailed { error })
}

pub fn raise_receiving_failed<T>(error: JupyterError) -> (r: Result<T, KernelError>)
    ensures
        r matches Err(KernelError::ReceivingFailed { error: e }) && e == error,
{
    Err(KernelError::ReceivingFailed { error })
}

pub fn raise_sending_failed<T>(error: JupyterError) -> (r: Result<T, KernelError>)
    ensures
        r matches Err(KernelError::SendingFailed { error: e }) && e == error,
{
    Err(KernelError::SendingFailed { error })
}

pub fn raise_payload_incomplete<T>(content: &str) -> (r: Result<T, KernelError>)
    ensures
        r matches Err(KernelError::PayloadIncomplete { content: c }) && c@ == content@,
{
    Err(KernelError::PayloadIncomplete { content: content.to_owned() })
}

} // verus!
