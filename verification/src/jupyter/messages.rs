use vstd::prelude::*;

use std::collections::HashMap;

verus! {

/// A request for the kernel's description.
pub struct JupyterKernelInfoRequest {}

/// Any JSON value.
#[verifier::external_type_specification]
#[verifier::external_body]
pub struct ExJsonValue(serde_json::Value);

/// The language a kernel runs.
pub struct JupyterKernelLanguageInfo {
    pub name: String,
    pub version: String,
    pub mimetype: String,
    pub file_extension: String,
    pub pygments_lexer: Option<String>,
    pub codemirror_mode: Option<serde_json::Value>,
    pub nbconvert_exporter: Option<String>,
}

/// The kernel's description.
pub struct JupyterKernelInfoReply {
    pub status: String,
    pub protocol_version: String,
    pub implementation: String,
    pub implementation_version: String,
    pub language_info: JupyterKernelLanguageInfo,
    pub banner: String,
    pub debugger: bool,
    pub help_links: Vec<JupyterKernelHelpLink>,
}

/// A link that the frontend shows in its help menu.
pub struct JupyterKernelHelpLink {
    pub text: String,
    pub url: String,
}

/// The kernel's execution state: busy, idle or starting.
pub struct JupyterKernelStatus {
    pub execution_state: String,
}

/// Code the kernel is about to run, echoed to all frontends.
pub struct JupyterExecuteInput {
    pub code: String,
    pub execution_count: u32,
}

/// A request to run code.
pub struct JupyterExecuteRequest {
    pub code: String,
    pub silent: bool,
    pub store_history: bool,
    pub user_expressions: HashMap<String, String>,
    pub allow_stdin: bool,
    pub stop_on_error: bool,
}

/// The answer to a request to run code.
pub struct JupyterExecuteReply {
    pub status: String,
    pub execution_count: u32,
}

/// A request for input from the user.
pub struct JupyterInputRequest {
    pub prompt: String,
    pub password: bool,
}

/// The user's input.
pub struct JupyterInputReply {
    pub value: String,
}

} // verus!
