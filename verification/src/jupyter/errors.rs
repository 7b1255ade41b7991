use vstd::prelude::*;

use super::client::JupyterChannel;
use super::protocol::hex_encode;
use super::protocol::hex_text;

verus! {

#[verifier::external_type_specification]
#[verifier::external_body]
pub struct ExJsonError(serde_json::Error);

#[verifier::external_type_specification]
#[verifier::external_body]
pub struct ExZmqError(zeromq::ZmqError);

#[verifier::external_type_specification]
#[verifier::external_body]
pub struct ExZmqMessage(zeromq::ZmqMessage);

#[verifier::external_type_specification]
#[verifier::external_body]
#[verifier::reject_recursive_types(T)]
pub struct ExSendError<T>(tokio::sync::mpsc::error::SendError<T>);

/// What can go wrong when talking to a Jupyter frontend.
pub enum JupyterError {
    DeserializationFailed { name: String, error: serde_json::Error },
    SerializationFailed { name: String, error: serde_json::Error },
    VerificationFailed { reason: String },
    ConnectionFileFailed { path: String, reason: String },
    ConnectionSocketFailed { channel: JupyterChannel, error: zeromq::ZmqError },
    QueueingFailed {
        channel: JupyterChannel,
        error: tokio::sync::mpsc::error::SendError<(JupyterChannel, zeromq::ZmqMessage)>,
    },
    NotEnoughFrames { found: usize, expected: usize },
    MessageIncomplete { name: String },
    InvalidSignature { identifier: String },
    InvalidImplementation { reason: String },
}

pub fn raise_deserialization_failed<T>(name: &str, error: serde_json::Error) -> (r: Result<T, JupyterError>)
    ensures
        r matches Err(JupyterError::DeserializationFailed { name: n, error: e }) && n@ == name@ && e == error,
{
    Err(JupyterError::DeserializationFailed { name: name.to_owned(), error })
}

pub fn raise_serialization_failed<T>(name: &str, error: serde_json::Error) -> (r: Result<T, JupyterError>)
    ensures
        r matches Err(JupyterError::SerializationFailed { name: n, error: e }) && n@ == name@ && e == error,
{
    Err(JupyterError::SerializationFailed { name: name.to_owned(), error })
}

pub fn raise_verification_failed<T>(reason: String) -> (r: Result<T, JupyterError>)
    ensures
        r matches Err(JupyterError::VerificationFailed { reason: x }) && x == reason,
{
    Err(JupyterError::VerificationFailed { reason })
}

pub fn raise_connection_file_failed<T>(path: &str, reason: String) -> (r: Result<T, JupyterError>)
    ensures
        r matches Err(JupyterError::ConnectionFileFailed { path: p, reason: x }) && p@ == path@ && x == reason,
{
    Err(JupyterError::ConnectionFileFailed { path: path.to_owned(), reason })
}

pub fn raise_connection_socket_failed<T>(channel: JupyterChannel, error: zeromq::ZmqError) -> (r: Result<T, JupyterError>)
    ensures
        r matches Err(JupyterError::ConnectionSocketFailed { channel: c, error: e }) && c == channel && e == error,
{
    Err(JupyterError::ConnectionSocketFailed { channel, error })
}

pub fn raise_queueing_failed<T>(
    channel: JupyterChannel,
    error: tokio::sync::mpsc::error::SendError<(JupyterChannel, zeromq::ZmqMessage)>,
) -> (r: Result<T, JupyterError>)
    ensures
        r matches Err(JupyterError::QueueingFailed { channel: c, error: e }) && c == channel && e == error,
{
    Err(JupyterError::QueueingFailed { channel, error })
}

pub fn raise_not_enough_frames<T>(found: usize, expected: usize) -> (r: Result<T, JupyterError>)
    ensures
        r matches Err(JupyterError::NotEnoughFrames { found: f, expected: e }) && f == found && e == expected,
{
    Err(JupyterError::NotEnoughFrames { found, expected })
}

pub fn raise_message_incomplete<T>(name: &str) -> (r: Result<T, JupyterError>)
    ensures
        r matches Err(JupyterError::MessageIncomplete { name: n }) && n@ == name@,
{
    Err(JupyterError::MessageIncomplete { name: name.to_owned() })
}

pub fn raise_invalid_signature<T>(identifier: &Vec<u8>) -> (r: Result<T, JupyterError>)
    ensures
        r matches Err(JupyterError::InvalidSignature { identifier: x }) && x@ == hex_text(identifier@).map_values(
            |b: u8| b as char,
        ),
{
    Err(JupyterError::InvalidSignature { identifier: hex_encode(identifier) })
}

pub fn raise_invalid_implementation<T>(reason: String) -> (r: Result<T, JupyterError>)
    ensures
        r matches Err(JupyterError::InvalidImplementation { reason: x }) && x == reason,
{
    Err(JupyterError::InvalidImplementation { reason })
}

} // verus!
