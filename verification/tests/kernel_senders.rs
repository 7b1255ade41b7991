use kernelkit::jupyter::client::JupyterChannel;
use kernelkit::jupyter::protocol::JupyterHeader;
use kernelkit::kernel::errors::KernelError;
use kernelkit::kernel::senders::{JupyterExecuteResultSender, JupyterKernelInfoReplySender};

fn request() -> JupyterHeader {
    JupyterHeader {
        msg_id: String::from("1"),
        msg_type: String::from("kernel_info_request"),
        session: String::from("session"),
        username: String::from("user"),
        date: String::from("2024-01-01T00:00:00+00:00"),
        version: String::from("5.3"),
    }
}

#[test]
fn kernel_info_reply_needs_every_part() {
    let sender = JupyterKernelInfoReplySender::new(JupyterChannel::Shell, b"id".to_vec(), request())
        .with_banner("banner")
        .with_protocol("5.3");

    match sender.payload() {
        Err(KernelError::PayloadIncomplete { content }) => assert_eq!(content, "JupyterKernelInfoReply"),
        _ => assert!(false),
    }
}

#[test]
fn kernel_info_reply_describes_the_kernel() {
    let sender = JupyterKernelInfoReplySender::new(JupyterChannel::Shell, b"id".to_vec(), request())
        .with_banner("banner")
        .with_protocol("5.3")
        .with_implementation("kernelkit", "0.1")
        .with_language("python", "3.12", "text/x-python", ".py");

    assert_eq!(sender.header.msg_type, "kernel_info_reply");
    assert_eq!(sender.header.session, "session");
    assert_eq!(sender.header.msg_id.len(), 36);

    let reply = match sender.payload() {
        Ok(reply) => reply,
        Err(_) => return assert!(false),
    };

    assert_eq!(reply.status, "ok");
    assert_eq!(reply.protocol_version, "5.3");
    assert_eq!(reply.implementation, "kernelkit");
    assert_eq!(reply.implementation_version, "0.1");
    assert_eq!(reply.banner, "banner");
    assert_eq!(reply.language_info.name, "python");
    assert_eq!(reply.language_info.file_extension, ".py");
    assert!(reply.language_info.codemirror_mode.is_none());
    assert!(!reply.debugger);
    assert!(reply.help_links.is_empty());
}

#[test]
fn execute_result_replaces_text_of_same_type() {
    let sender = JupyterExecuteResultSender::new(request())
        .with_data_string("text/plain", "1")
        .with_data_string("text/html", "<b>1</b>")
        .with_data_string("text/plain", "2");

    assert_eq!(
        sender.data,
        vec![
            (String::from("text/plain"), String::from("2")),
            (String::from("text/html"), String::from("<b>1</b>")),
        ]
    );

    match sender.payload() {
        Err(KernelError::PayloadIncomplete { content }) => assert_eq!(content, "JupyterExecuteResult"),
        _ => assert!(false),
    }
}

#[test]
fn execute_result_carries_count_and_data() {
    let sender = JupyterExecuteResultSender::new(request())
        .with_execution_count(3)
        .with_data_string("text/plain", "42");

    match sender.payload() {
        Ok((count, data)) => {
            assert_eq!(count, 3);
            assert_eq!(data, vec![(String::from("text/plain"), String::from("42"))]);
        },
        Err(_) => assert!(false),
    }
}
