use vstd::prelude::*;

use crate::jupyter::client::JupyterChannel;
use crate::jupyter::messages::{
    JupyterExecuteInput, JupyterExecuteReply, JupyterInputRequest, JupyterKernelInfoReply, JupyterKernelLanguageInfo,
    JupyterKernelStatus,
};
use crate::jupyter::protocol::JupyterHeader;
use super::errors::{raise_payload_incomplete, KernelError};

verus! {

/// The text held by an optional string.
pub open spec fn text(o: Option<String>) -> Option<Seq<char>> {
    match o {
        Some(s) => Some(s@),
        None => None,
    }
}

/// Whether `r` is the header of a reply of type `t` to `parent`.
pub open spec fn replies(r: JupyterHeader, parent: JupyterHeader, t: Seq<char>) -> bool {
    &&& r.msg_type@ == t
    &&& r.session@ == parent.session@
    &&& r.username@ == parent.username@
    &&& r.version@ == parent.version@
}

/// The reply to a request for the kernel's description.
pub struct JupyterKernelInfoReplySender {
    pub channel: JupyterChannel,
    pub identity: Vec<u8>,
    pub header: JupyterHeader,
    pub parent: JupyterHeader,
    pub status: String,
    pub banner: Option<String>,
    pub protocol: Option<String>,
    pub implementation: Option<(String, String)>,
    pub language: Option<(String, String, String, String)>,
}

impl JupyterKernelInfoReplySender {
    pub fn new(channel: JupyterChannel, identity: Vec<u8>, parent: JupyterHeader) -> (r: Self)
        ensures
            r.channel == channel,
            r.identity@ == identity@,
            replies(r.header, parent, "kernel_info_reply"@),
            r.parent == parent,
            r.status@ == "ok"@,
            r.banner is None,
            r.protocol is None,
            r.implementation is None,
            r.language is None,
    {
        let header = parent.reply("kernel_info_reply");
        JupyterKernelInfoReplySender {
            channel,
            identity,
            header,
            parent,
            status: "ok".to_owned(),
            banner: None,
            protocol: None,
            implementation: None,
            language: None,
        }
    }

    pub fn with_status(self, status: &str) -> (r: Self)
        ensures
            r.status@ == status@,
            r.channel == self.channel && r.identity == self.identity && r.header == self.header && r.parent
                == self.parent && r.banner == self.banner && r.protocol == self.protocol && r.implementation
                == self.implementation && r.language == self.language,
    {
        JupyterKernelInfoReplySender { status: status.to_owned(), ..self }
    }

    pub fn with_banner(self, banner: &str) -> (r: Self)
        ensures
            text(r.banner) == Some(banner@),
            r.channel == self.channel && r.identity == self.identity && r.header == self.header && r.parent
                == self.parent && r.status == self.status && r.protocol == self.protocol && r.implementation
                == self.implementation && r.language == self.language,
    {
        JupyterKernelInfoReplySender { banner: Some(banner.to_owned()), ..self }
    }

    pub fn with_protocol(self, protocol_version: &str) -> (r: Self)
        ensures
            text(r.protocol) == Some(protocol_version@),
            r.channel == self.channel && r.identity == self.identity && r.header == self.header && r.parent
                == self.parent && r.status == self.status && r.banner == self.banner && r.implementation
                == self.implementation && r.language == self.language,
    {
        JupyterKernelInfoReplySender { protocol: Some(protocol_version.to_owned()), ..self }
    }

    pub fn with_implementation(self, name: &str, version: &str) -> (r: Self)
        ensures
            r.implementation matches Some((n, v)) && n@ == name@ && v@ == version@,
            r.channel == self.channel && r.identity == self.identity && r.header == self.header && r.parent
                == self.parent && r.status == self.status && r.banner == self.banner && r.protocol
                == self.protocol && r.language == self.language,
    {
        JupyterKernelInfoReplySender { implementation: Some((name.to_owned(), version.to_owned())), ..self }
    }

    pub fn with_language(self, name: &str, version: &str, mimetype: &str, extension: &str) -> (r: Self)
        ensures
            r.language matches Some((n, v, m, e)) && n@ == name@ && v@ == version@ && m@ == mimetype@ && e@
                == extension@,
            r.channel == self.channel && r.identity == self.identity && r.header == self.header && r.parent
                == self.parent && r.status == self.status && r.banner == self.banner && r.protocol
                == self.protocol && r.implementation == self.implementation,
    {
        JupyterKernelInfoReplySender {
            language: Some((name.to_owned(), version.to_owned(), mimetype.to_owned(), extension.to_owned())),
            ..self
        }
    }

    /// The description to send, without a debugger or help links, or an error naming the reply
    /// when the banner, protocol, implementation or language is missing.
    pub fn payload(&self) -> (r: Result<JupyterKernelInfoReply, KernelError>)
        ensures
            match (self.banner, self.protocol, self.implementation, self.language) {
                (Some(banner), Some(protocol), Some((name, version)), Some((language, release, mimetype, extension))) => {
                    &&& r matches Ok(c)
                    &&& c.status == self.status
                    &&& c.protocol_version == protocol
                    &&& c.implementation == name
                    &&& c.implementation_version == version
                    &&& c.banner == banner
                    &&& c.language_info.name == language
                    &&& c.language_info.version == release
                    &&& c.language_info.mimetype == mimetype
                    &&& c.language_info.file_extension == extension
                    &&& c.language_info.pygments_lexer is None
                    &&& c.language_info.codemirror_mode is None
                    &&& c.language_info.nbconvert_exporter is None
                    &&& !c.debugger
                    &&& c.help_links@.len() == 0
                },
                _ => r matches Err(KernelError::PayloadIncomplete { content: c }) && c@ == "JupyterKernelInfoReply"@,
            },
    {
        match (&self.banner, &self.protocol, &self.implementation, &self.language) {
            (Some(banner), Some(protocol), Some((name, version)), Some((language, release, mimetype, extension))) => {
                Ok(JupyterKernelInfoReply {
                    status: self.status.clone(),
                    protocol_version: protocol.clone(),
                    implementation: name.clone(),
                    implementation_version: version.clone(),
                    language_info: JupyterKernelLanguageInfo {
                        name: language.clone(),
                        version: release.clone(),
                        mimetype: mimetype.clone(),
                        file_extension: extension.clone(),
                        pygments_lexer: None,
                        codemirror_mode: None,
                        nbconvert_exporter: None,
                    },
                    banner: banner.clone(),
                    debugger: false,
                    help_links: Vec::new(),
                })
            },
            _ => raise_payload_incomplete("JupyterKernelInfoReply"),
        }
    }
}

/// The reply to a request to run code.
pub struct JupyterExecuteReplySender {
    pub channel: JupyterChannel,
    pub identity: Vec<u8>,
    pub header: JupyterHeader,
    pub parent: JupyterHeader,
    pub status: String,
    pub execution_count: Option<u32>,
}

impl JupyterExecuteReplySender {
    pub fn new(channel: JupyterChannel, identity: Vec<u8>, parent: JupyterHeader) -> (r: Self)
        ensures
            r.channel == channel,
            r.identity@ == identity@,
            replies(r.header, parent, "execute_reply"@),
            r.parent == parent,
            r.status@ == "ok"@,
            r.execution_count is None,
    {
        let header = parent.reply("execute_reply");
        JupyterExecuteReplySender {
            channel,
            identity,
            header,
            parent,
            status: "ok".to_owned(),
            execution_count: None,
        }
    }

    pub fn with_status(self, status: &str) -> (r: Self)
        ensures
            r.status@ == status@,
            r.channel == self.channel && r.identity == self.identity && r.header == self.header && r.parent
                == self.parent && r.execution_count == self.execution_count,
    {
        JupyterExecuteReplySender { status: status.to_owned(), ..self }
    }

    pub fn with_execution_count(self, execution_count: u32) -> (r: Self)
        ensures
            r.execution_count == Some(execution_count),
            r.channel == self.channel && r.identity == self.identity && r.header == self.header && r.parent
                == self.parent && r.status == self.status,
    {
        JupyterExecuteReplySender { execution_count: Some(execution_count), ..self }
    }

    /// The content to send, or an error naming the reply when the execution count is missing.
    pub fn payload(&self) -> (r: Result<JupyterExecuteReply, KernelError>)
        ensures
            match self.execution_count {
                Some(n) => r matches Ok(c) && c.status == self.status && c.execution_count == n,
                None => r matches Err(KernelError::PayloadIncomplete { content: c }) && c@ == "JupyterExecuteReply"@,
            },
    {
        match self.execution_count {
            Some(execution_count) => Ok(JupyterExecuteReply { status: self.status.clone(), execution_count }),
            None => raise_payload_incomplete("JupyterExecuteReply"),
        }
    }
}

/// Code about to run, echoed to all frontends.
pub struct JupyterExecuteInputSender {
    pub header: JupyterHeader,
    pub parent: JupyterHeader,
    pub code: Option<String>,
    pub execution_count: Option<u32>,
}

impl JupyterExecuteInputSender {
    pub fn new(parent: JupyterHeader) -> (r: Self)
        ensures
            replies(r.header, parent, "execute_input"@),
            r.parent == parent,
            r.code is None,
            r.execution_count is None,
    {
        let header = parent.reply("execute_input");
        JupyterExecuteInputSender { header, parent, code: None, execution_count: None }
    }

    pub fn with_code(self, code: &str) -> (r: Self)
        ensures
            text(r.code) == Some(code@),
            r.header == self.header && r.parent == self.parent && r.execution_count == self.execution_count,
    {
        JupyterExecuteInputSender { code: Some(code.to_owned()), ..self }
    }

    pub fn with_execution_count(self, execution_count: u32) -> (r: Self)
        ensures
            r.execution_count == Some(execution_count),
            r.header == self.header && r.parent == self.parent && r.code == self.code,
    {
        JupyterExecuteInputSender { execution_count: Some(execution_count), ..self }
    }

    /// The content to send, or an error naming the message when the code or the execution count
    /// is missing.
    pub fn payload(&self) -> (r: Result<JupyterExecuteInput, KernelError>)
        ensures
            match (self.code, self.execution_count) {
                (Some(code), Some(n)) => r matches Ok(c) && c.code == code && c.execution_count == n,
                _ => r matches Err(KernelError::PayloadIncomplete { content: c }) && c@ == "JupyterExecuteInput"@,
            },
    {
        match (&self.code, self.execution_count) {
            (Some(code), Some(execution_count)) => Ok(JupyterExecuteInput { code: code.clone(), execution_count }),
            _ => raise_payload_incomplete("JupyterExecuteInput"),
        }
    }
}

/// The kernel's execution state, sent to all frontends.
pub struct JupyterKernelStatusSender {
    pub header: JupyterHeader,
    pub parent: JupyterHeader,
    pub execution_state: Option<String>,
}

impl JupyterKernelStatusSender {
    pub fn new(parent: JupyterHeader) -> (r: Self)
        ensures
            replies(r.header, parent, "status"@),
            r.parent == parent,
            r.execution_state is None,
    {
        let header = parent.reply("status");
        JupyterKernelStatusSender { header, parent, execution_state: None }
    }

    pub fn with_status(self, status: &str) -> (r: Self)
        ensures
            text(r.execution_state) == Some(status@),
            r.header == self.header && r.parent == self.parent,
    {
        JupyterKernelStatusSender { execution_state: Some(status.to_owned()), ..self }
    }

    /// The content to send, or an error naming the sender when the state is missing.
    pub fn payload(&self) -> (r: Result<JupyterKernelStatus, KernelError>)
        ensures
            match self.execution_state {
                Some(s) => r matches Ok(c) && c.execution_state == s,
                None => r matches Err(KernelError::PayloadIncomplete { content: c }) && c@ == "JupyterKernelStatusSender"@,
            },
    {
        match &self.execution_state {
            Some(s) => Ok(JupyterKernelStatus { execution_state: s.clone() }),
            None => raise_payload_incomplete("JupyterKernelStatusSender"),
        }
    }
}

/// The text of each entry of a table of strings.
pub open spec fn entries_view(entries: Seq<(String, String)>) -> Seq<(Seq<char>, Seq<char>)> {
    entries.map_values(|e: (String, String)| (e.0@, e.1@))
}

/// Whether no key occurs twice in a table.
pub open spec fn distinct_keys(entries: Seq<(Seq<char>, Seq<char>)>) -> bool {
    forall|i: int, j: int| 0 <= i < j < entries.len() ==> entries[i].0 != entries[j].0
}

/// The table with `key` set to `value`: the entry of that key replaced where there is one, else
/// one more entry at the end.
pub open spec fn put(entries: Seq<(Seq<char>, Seq<char>)>, key: Seq<char>, value: Seq<char>) -> Seq<
    (Seq<char>, Seq<char>),
> {
    if exists|i: int| 0 <= i < entries.len() && entries[i].0 == key {
        let i = choose|i: int| 0 <= i < entries.len() && entries[i].0 == key;
        entries.update(i, (key, value))
    } else {
        entries.push((key, value))
    }
}

/// A copy of a table of strings.
fn copy_entries(entries: &Vec<(String, String)>) -> (r: Vec<(String, String)>)
    ensures
        entries_view(r@) == entries_view(entries@),
{
    let mut out: Vec<(String, String)> = Vec::new();
    let mut i: usize = 0;
    while i < entries.len()
        invariant
            i <= entries.len(),
            entries_view(out@) == entries_view(entries@.subrange(0, i as int)),
        decreases entries.len() - i,
    {
        let key = entries[i].0.clone();
        let value = entries[i].1.clone();
        out.push((key, value));
        proof {
            assert(entries_view(entries@.subrange(0, i + 1)) =~= entries_view(entries@.subrange(0, i as int)).push(
                (entries@[i as int].0@, entries@[i as int].1@),
            ));
            assert(entries_view(out@) =~= entries_view(entries@.subrange(0, i + 1)));
        }
        i = i + 1;
    }
    proof {
        assert(entries@.subrange(0, i as int) =~= entries@);
    }
    out
}

/// The result of running code, as text by MIME type.
pub struct JupyterExecuteResultSender {
    pub header: JupyterHeader,
    pub parent: JupyterHeader,
    pub execution_count: Option<u32>,
    pub data: Vec<(String, String)>,
    pub metadata: Vec<(String, String)>,
}

impl JupyterExecuteResultSender {
    pub fn new(parent: JupyterHeader) -> (r: Self)
        ensures
            replies(r.header, parent, "execute_result"@),
            r.parent == parent,
            r.execution_count is None,
            r.data@.len() == 0,
            r.metadata@.len() == 0,
    {
        let header = parent.reply("execute_result");
        JupyterExecuteResultSender { header, parent, execution_count: None, data: Vec::new(), metadata: Vec::new() }
    }

    pub fn with_execution_count(self, execution_count: u32) -> (r: Self)
        ensures
            r.execution_count == Some(execution_count),
            r.header == self.header && r.parent == self.parent && r.data == self.data && r.metadata
                == self.metadata,
    {
        JupyterExecuteResultSender { execution_count: Some(execution_count), ..self }
    }

    /// Sets the text for a MIME type, replacing any text it had.
    pub fn with_data_string(self, mimetype: &str, data: &str) -> (r: Self)
        requires
            distinct_keys(entries_view(self.data@)),
        ensures
            entries_view(r.data@) == put(entries_view(self.data@), mimetype@, data@),
            distinct_keys(entries_view(r.data@)),
            r.header == self.header && r.parent == self.parent && r.execution_count == self.execution_count
                && r.metadata == self.metadata,
    {
        let ghost before = entries_view(self.data@);
        let mut entries = self.data;
        let key = mimetype.to_owned();
        let mut i: usize = 0;
        while i < entries.len()
            invariant
                i <= entries.len(),
                entries_view(entries@) == before,
                before == entries_view(self.data@),
                distinct_keys(before),
                key@ == mimetype@,
                forall|k: int| 0 <= k < i ==> before[k].0 != mimetype@,
            decreases entries.len() - i,
        {
            if entries[i].0 == key {
                proof {
                    assert(before[i as int].0 == entries@[i as int].0@);
                    assert(before[i as int].0 == mimetype@);
                }
                entries.set(i, (key, data.to_owned()));
                proof {
                    let e = before;
                    assert(exists|j: int| 0 <= j < e.len() && e[j].0 == mimetype@);
                    let c = choose|j: int| 0 <= j < e.len() && e[j].0 == mimetype@;
                    assert(c == i) by {
                        if c != i {
                            assert(e[c].0 == e[i as int].0);
                        }
                    }
                    assert(entries_view(entries@) =~= e.update(i as int, (mimetype@, data@)));
                    assert(put(e, mimetype@, data@) == e.update(i as int, (mimetype@, data@)));
                }
                return JupyterExecuteResultSender { data: entries, ..self };
            }
            i = i + 1;
        }
        entries.push((key, data.to_owned()));
        proof {
            assert(entries_view(entries@) =~= before.push((mimetype@, data@)));
        }
        JupyterExecuteResultSender { data: entries, ..self }
    }

    /// The execution count and the text by MIME type to send, or an error naming the result when
    /// the execution count is missing.
    pub fn payload(&self) -> (r: Result<(u32, Vec<(String, String)>), KernelError>)
        ensures
            match self.execution_count {
                Some(n) => r matches Ok((count, data)) && count == n && entries_view(data@) == entries_view(
                    self.data@,
                ),
                None => r matches Err(KernelError::PayloadIncomplete { content: c }) && c@ == "JupyterExecuteResult"@,
            },
    {
        match self.execution_count {
            Some(execution_count) => Ok((execution_count, copy_entries(&self.data))),
            None => raise_payload_incomplete("JupyterExecuteResult"),
        }
    }
}

/// A request for input from the user.
pub struct JupyterInputRequestSender {
    pub header: JupyterHeader,
    pub prompt: Option<String>,
    pub password: bool,
}

impl JupyterInputRequestSender {
    pub fn new(parent: JupyterHeader) -> (r: Self)
        ensures
            replies(r.header, parent, "input_request"@),
            r.prompt is None,
            !r.password,
    {
        let header = parent.reply("input_request");
        JupyterInputRequestSender { header, prompt: None, password: false }
    }

    pub fn with_prompt(self, prompt: &str) -> (r: Self)
        ensures
            text(r.prompt) == Some(prompt@),
            r.header == self.header && r.password == self.password,
    {
        JupyterInputRequestSender { prompt: Some(prompt.to_owned()), ..self }
    }

    /// The content to send, or an error naming the sender when the prompt is missing.
    pub fn payload(&self) -> (r: Result<JupyterInputRequest, KernelError>)
        ensures
            match self.prompt {
                Some(p) => r matches Ok(c) && c.prompt == p && c.password == self.password,
                None => r matches Err(KernelError::PayloadIncomplete { content: c }) && c@ == "JupyterInputRequestSender"@,
            },
    {
        match &self.prompt {
            Some(p) => Ok(JupyterInputRequest { prompt: p.clone(), password: self.password }),
            None => raise_payload_incomplete("JupyterInputRequestSender"),
        }
    }
}

/// A request to create an execution context on a cluster.
pub struct DatabricksContextCreateSender {
    pub cluster_id: Option<String>,
    pub language: Option<String>,
}

impl DatabricksContextCreateSender {
    pub fn new() -> (r: Self)
        ensures
            r.cluster_id is None,
            r.language is None,
    {
        DatabricksContextCreateSender { cluster_id: None, language: None }
    }

    pub fn with_cluster_id(self, cluster_id: &str) -> (r: Self)
        ensures
            text(r.cluster_id) == Some(cluster_id@),
            r.language == self.language,
    {
        DatabricksContextCreateSender { cluster_id: Some(cluster_id.to_owned()), ..self }
    }

    pub fn with_language(self, language: &str) -> (r: Self)
        ensures
            text(r.language) == Some(language@),
            r.cluster_id == self.cluster_id,
    {
        DatabricksContextCreateSender { language: Some(language.to_owned()), ..self }
    }

    /// The cluster and the language, or an error naming the sender when one is missing.
    pub fn payload(&self) -> (r: Result<(String, String), KernelError>)
        ensures
            match (self.cluster_id, self.language) {
                (Some(a), Some(b)) => r matches Ok(p) && p.0 == a && p.1 == b,
                _ => r matches Err(KernelError::PayloadIncomplete { content: c }) && c@ == "DatabricksContextCreateSender"@,
            },
    {
        match (&self.cluster_id, &self.language) {
            (Some(a), Some(b)) => Ok((a.clone(), b.clone())),
            _ => raise_payload_incomplete("DatabricksContextCreateSender"),
        }
    }
}

/// A request to run a command in an execution context.
pub struct DatabricksCommandExecuteSender {
    pub cluster_id: Option<String>,
    pub context_id: Option<String>,
    pub language: Option<String>,
    pub command: Option<String>,
}

impl DatabricksCommandExecuteSender {
    pub fn new() -> (r: Self)
        ensures
            r.cluster_id is None,
            r.context_id is None,
            r.language is None,
            r.command is None,
    {
        DatabricksCommandExecuteSender { cluster_id: None, context_id: None, language: None, command: None }
    }

    pub fn with_cluster_id(self, cluster_id: &str) -> (r: Self)
        ensures
            text(r.cluster_id) == Some(cluster_id@),
            r.context_id == self.context_id && r.language == self.language && r.command == self.command,
    {
        DatabricksCommandExecuteSender { cluster_id: Some(cluster_id.to_owned()), ..self }
    }

    pub fn with_context_id(self, context_id: &str) -> (r: Self)
        ensures
            text(r.context_id) == Some(context_id@),
            r.cluster_id == self.cluster_id && r.language == self.language && r.command == self.command,
    {
        DatabricksCommandExecuteSender { context_id: Some(context_id.to_owned()), ..self }
    }

    pub fn with_language(self, language: &str) -> (r: Self)
        ensures
            text(r.language) == Some(language@),
            r.cluster_id == self.cluster_id && r.context_id == self.context_id && r.command == self.command,
    {
        DatabricksCommandExecuteSender { language: Some(language.to_owned()), ..self }
    }

    pub fn with_command(self, command: &str) -> (r: Self)
        ensures
            text(r.command) == Some(command@),
            r.cluster_id == self.cluster_id && r.context_id == self.context_id && r.language == self.language,
    {
        DatabricksCommandExecuteSender { command: Some(command.to_owned()), ..self }
    }

    /// The cluster, context, language and command, or an error naming the sender when one is
    /// missing.
    pub fn payload(&self) -> (r: Result<(String, String, String, String), KernelError>)
        ensures
            match (self.cluster_id, self.context_id, self.language, self.command) {
                (Some(a), Some(b), Some(c), Some(d)) => r matches Ok(p) && p.0 == a && p.1 == b && p.2 == c && p.3 == d,
                _ => r matches Err(KernelError::PayloadIncomplete { content: c }) && c@ == "DatabricksCommandExecuteSender"@,
            },
    {
        match (&self.cluster_id, &self.context_id, &self.language, &self.command) {
            (Some(a), Some(b), Some(c), Some(d)) => Ok((a.clone(), b.clone(), c.clone(), d.clone())),
            _ => raise_payload_incomplete("DatabricksCommandExecuteSender"),
        }
    }
}

/// A request for the status of a command.
pub struct DatabricksCommandStatusSender {
    pub cluster_id: Option<String>,
    pub context_id: Option<String>,
    pub command_id: Option<String>,
}

impl DatabricksCommandStatusSender {
    pub fn new() -> (r: Self)
        ensures
            r.cluster_id is None,
            r.context_id is None,
            r.command_id is None,
    {
        DatabricksCommandStatusSender { cluster_id: None, context_id: None, command_id: None }
    }

    pub fn with_cluster_id(self, cluster_id: &str) -> (r: Self)
        ensures
            text(r.cluster_id) == Some(cluster_id@),
            r.context_id == self.context_id && r.command_id == self.command_id,
    {
        DatabricksCommandStatusSender { cluster_id: Some(cluster_id.to_owned()), ..self }
    }

    pub fn with_context_id(self, context_id: &str) -> (r: Self)
        ensures
            text(r.context_id) == Some(context_id@),
            r.cluster_id == self.cluster_id && r.command_id == self.command_id,
    {
        DatabricksCommandStatusSender { context_id: Some(context_id.to_owned()), ..self }
    }

    pub fn with_command_id(self, command_id: &str) -> (r: Self)
        ensures
            text(r.command_id) == Some(command_id@),
            r.cluster_id == self.cluster_id && r.context_id == self.context_id,
    {
        DatabricksCommandStatusSender { command_id: Some(command_id.to_owned()), ..self }
    }

    /// The cluster, context and command, or an error naming the sender when one is missing.
    pub fn payload(&self) -> (r: Result<(String, String, String), KernelError>)
        ensures
            match (self.cluster_id, self.context_id, self.command_id) {
                (Some(a), Some(b), Some(c)) => r matches Ok(p) && p.0 == a && p.1 == b && p.2 == c,
                _ => r matches Err(KernelError::PayloadIncomplete { content: c }) && c@ == "DatabricksCommandStatusSender"@,
            },
    {
        match (&self.cluster_id, &self.context_id, &self.command_id) {
            (Some(a), Some(b), Some(c)) => Ok((a.clone(), b.clone(), c.clone())),
            _ => raise_payload_incomplete("DatabricksCommandStatusSender"),
        }
    }
}

} // verus!
