use vstd::prelude::*;

verus! {

/// The sockets of a kernel.
#[derive(Debug, Copy, Clone, PartialEq, Eq, Structural)]
pub enum JupyterChannel {
    Shell,
    IOPub,
    Control,
    StdIn,
    Heartbeat,
}

/// The contents that the kernel reads; a message of any other type is kept as unknown.
#[derive(Debug, Copy, Clone, PartialEq, Eq, Structural)]
pub enum ContentKind {
    KernelInfoRequest,
    ExecuteRequest,
    InputReply,
    Unknown,
}

/// The content that a message type names.
pub open spec fn content_kind_of(msg_type: Seq<char>) -> ContentKind {
    if msg_type == "kernel_info_request"@ {
        ContentKind::KernelInfoRequest
    } else if msg_type == "execute_request"@ {
        ContentKind::ExecuteRequest
    } else if msg_type == "input_reply"@ {
        ContentKind::InputReply
    } else {
        ContentKind::Unknown
    }
}

/// The content that the message type in a header names.
pub fn content_kind(msg_type: &String) -> (r: ContentKind)
    ensures
        r == content_kind_of(msg_type@),
{
    let kernel_info = "kernel_info_request".to_owned();
    let execute = "execute_request".to_owned();
    let input = "input_reply".to_owned();
    if *msg_type == kernel_info {
        ContentKind::KernelInfoRequest
    } else if *msg_type == execute {
        ContentKind::ExecuteRequest
    } else if *msg_type == input {
        ContentKind::InputReply
    } else {
        ContentKind::Unknown
    }
}

} // verus!
