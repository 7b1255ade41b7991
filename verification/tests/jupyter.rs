use kernelkit::jupyter::client::{content_kind, ContentKind, JupyterChannel};
use kernelkit::jupyter::errors::{raise_invalid_signature, JupyterError};
use kernelkit::jupyter::protocol::{JupyterWireBuilder, JupyterWireProtocol};

const HEADER: &[u8] = b"{\"msg_type\":\"status\"}";
const CONTENT: &[u8] = b"{\"execution_state\":\"idle\"}";

fn signed(key: &[u8]) -> JupyterWireProtocol {
    let builder = JupyterWireBuilder::new()
        .with_header(HEADER.to_vec())
        .with_content(CONTENT.to_vec());
    match builder.sign(&b"kernel".to_vec(), &key.to_vec()) {
        Ok(protocol) => protocol,
        Err(_) => panic!("signing failed"),
    }
}

fn frames_of(protocol: JupyterWireProtocol) -> Vec<Vec<u8>> {
    let message = match protocol.to_zmq() {
        Ok(message) => message,
        Err(_) => panic!("no message"),
    };
    message.into_vec().into_iter().map(|frame| frame.to_vec()).collect()
}

fn message_of(frames: Vec<&[u8]>) -> zeromq::ZmqMessage {
    let frames: Vec<bytes::Bytes> = frames.into_iter().map(|frame| bytes::Bytes::copy_from_slice(frame)).collect();
    zeromq::ZmqMessage::try_from(frames).unwrap()
}

#[test]
fn jupyter_signed_message_has_seven_frames() {
    let frames = frames_of(signed(b"secret"));

    assert_eq!(frames.len(), 7);
    assert_eq!(frames[0], b"kernel".to_vec());
    assert_eq!(frames[1], b"<IDS|MSG>".to_vec());
    assert_eq!(frames[2], b"e6547d2f7128b13e0879388bbad827457fa5dd562b9c2b86c625bee31c32ea9c".to_vec());
    assert_eq!(frames[3], HEADER.to_vec());
    assert_eq!(frames[4], b"{}".to_vec());
    assert_eq!(frames[5], b"{}".to_vec());
    assert_eq!(frames[6], CONTENT.to_vec());
}

#[test]
fn jupyter_signed_message_without_content_signs_empty_objects() {
    let builder = JupyterWireBuilder::new().with_header(HEADER.to_vec());
    let protocol = match builder.sign(&b"kernel".to_vec(), &b"secret".to_vec()) {
        Ok(protocol) => protocol,
        Err(_) => return assert!(false),
    };
    let frames = frames_of(protocol);

    assert_eq!(frames[2], b"09f20cd0034fd8549c3daa26cf7da901072cba91565d2ba46610428476574388".to_vec());
    assert_eq!(frames[6], b"{}".to_vec());
}

#[test]
fn jupyter_signed_message_verifies_under_its_key() {
    let protocol = signed(b"secret");

    assert!(matches!(protocol.verify(&b"secret".to_vec()), Ok(true)));
    assert!(matches!(protocol.verify(&b"other".to_vec()), Ok(false)));
}

#[test]
fn jupyter_signing_without_header_is_incomplete() {
    let builder = JupyterWireBuilder::new().with_content(CONTENT.to_vec());

    match builder.sign(&b"kernel".to_vec(), &b"secret".to_vec()) {
        Err(JupyterError::MessageIncomplete { name }) => assert_eq!(name, "Header"),
        _ => assert!(false),
    }
}

#[test]
fn jupyter_message_round_trips_through_frames() {
    let frames = frames_of(signed(b"secret"));
    let message = message_of(frames.iter().map(|frame| frame.as_slice()).collect());
    let protocol = match JupyterWireProtocol::from_zmq(message) {
        Ok(protocol) => protocol,
        Err(_) => return assert!(false),
    };

    assert!(matches!(protocol.verify(&b"secret".to_vec()), Ok(true)));
    assert_eq!(protocol.get_identifier(), b"kernel".to_vec());
    assert_eq!(protocol.get_header(), HEADER.to_vec());
    assert_eq!(protocol.get_content(), CONTENT.to_vec());
    assert_eq!(protocol.get_parent(), None);
}

#[test]
fn jupyter_message_with_parent_gives_its_header() {
    let builder = JupyterWireBuilder::new()
        .with_header(HEADER.to_vec())
        .with_parent(b"{\"msg_type\":\"execute_request\"}".to_vec());
    let protocol = match builder.sign(&b"kernel".to_vec(), &b"secret".to_vec()) {
        Ok(protocol) => protocol,
        Err(_) => return assert!(false),
    };

    assert_eq!(protocol.get_parent(), Some(b"{\"msg_type\":\"execute_request\"}".to_vec()));
    assert!(matches!(protocol.verify(&b"secret".to_vec()), Ok(true)));
}

#[test]
fn jupyter_uppercase_signature_verifies() {
    let message = message_of(vec![
        b"kernel",
        b"<IDS|MSG>",
        b"E6547D2F7128B13E0879388BBAD827457FA5DD562B9C2B86C625BEE31C32EA9C",
        HEADER,
        b"{}",
        b"{}",
        CONTENT,
    ]);
    let protocol = match JupyterWireProtocol::from_zmq(message) {
        Ok(protocol) => protocol,
        Err(_) => return assert!(false),
    };

    assert!(matches!(protocol.verify(&b"secret".to_vec()), Ok(true)));
}

#[test]
fn jupyter_message_of_three_frames_is_refused() {
    let message = message_of(vec![b"kernel", b"<IDS|MSG>", b"00"]);

    match JupyterWireProtocol::from_zmq(message) {
        Err(JupyterError::NotEnoughFrames { found, expected }) => {
            assert_eq!(found, 3);
            assert_eq!(expected, 7);
        },
        _ => assert!(false),
    }
}

#[test]
fn jupyter_signature_that_is_not_hex_fails() {
    for signature in [b"zz".as_slice(), b"abc".as_slice(), b"\xff\xfe".as_slice()] {
        let message = message_of(vec![b"kernel", b"<IDS|MSG>", signature, HEADER, b"{}", b"{}", CONTENT]);
        let protocol = match JupyterWireProtocol::from_zmq(message) {
            Ok(protocol) => protocol,
            Err(_) => return assert!(false),
        };

        assert!(matches!(protocol.verify(&b"secret".to_vec()), Err(JupyterError::VerificationFailed { .. })));
    }
}

#[test]
fn jupyter_invalid_signature_names_sender_in_hex() {
    match raise_invalid_signature::<()>(&vec![0xde, 0xad, 0x01]) {
        Err(JupyterError::InvalidSignature { identifier }) => assert_eq!(identifier, "dead01"),
        _ => assert!(false),
    }
}

fn connection() -> kernelkit::jupyter::connection::JupyterConnectionInfo {
    kernelkit::jupyter::connection::JupyterConnectionInfo {
        shell_port: 50160,
        iopub_port: 7,
        stdin_port: 50162,
        control_port: 10,
        hb_port: 0,
        ip: String::from("127.0.0.1"),
        key: String::from("a0b1-c2"),
        transport: String::from("tcp"),
        signature_scheme: String::from("hmac-sha256"),
        kernel_name: String::from("databricks"),
    }
}

#[test]
fn jupyter_endpoint_joins_transport_ip_and_port() {
    let info = connection();

    assert_eq!(info.format_endpoint(JupyterChannel::Shell), "tcp://127.0.0.1:50160");
    assert_eq!(info.format_endpoint(JupyterChannel::IOPub), "tcp://127.0.0.1:7");
    assert_eq!(info.format_endpoint(JupyterChannel::StdIn), "tcp://127.0.0.1:50162");
    assert_eq!(info.format_endpoint(JupyterChannel::Control), "tcp://127.0.0.1:10");
    assert_eq!(info.format_endpoint(JupyterChannel::Heartbeat), "tcp://127.0.0.1:0");
}

#[test]
fn jupyter_signing_key_is_the_key_text() {
    assert_eq!(connection().get_signing_key(), b"a0b1-c2".to_vec());
}

#[test]
fn jupyter_verified_message_keeps_its_frames() {
    let frames = frames_of(signed(b"secret"));
    let message = message_of(frames.iter().map(|frame| frame.as_slice()).collect());
    let protocol = match JupyterWireProtocol::from_verified_zmq(message, &b"secret".to_vec()) {
        Ok(protocol) => protocol,
        Err(_) => return assert!(false),
    };

    assert_eq!(protocol.get_identifier(), b"kernel".to_vec());
    assert_eq!(protocol.get_header(), HEADER.to_vec());
}

#[test]
fn jupyter_message_under_another_key_names_sender_in_hex() {
    let frames = frames_of(signed(b"secret"));
    let message = message_of(frames.iter().map(|frame| frame.as_slice()).collect());

    match JupyterWireProtocol::from_verified_zmq(message, &b"other".to_vec()) {
        Err(JupyterError::InvalidSignature { identifier }) => assert_eq!(identifier, "6b65726e656c"),
        _ => assert!(false),
    }
}

#[test]
fn jupyter_verified_message_needs_seven_frames_and_hex_signature() {
    let short = message_of(vec![b"kernel", b"<IDS|MSG>", b"00"]);
    assert!(matches!(
        JupyterWireProtocol::from_verified_zmq(short, &b"secret".to_vec()),
        Err(JupyterError::NotEnoughFrames { found: 3, expected: 7 })
    ));

    let odd = message_of(vec![b"kernel", b"<IDS|MSG>", b"abc", HEADER, b"{}", b"{}", CONTENT]);
    assert!(matches!(
        JupyterWireProtocol::from_verified_zmq(odd, &b"secret".to_vec()),
        Err(JupyterError::VerificationFailed { .. })
    ));
}

#[test]
fn jupyter_message_types_name_their_content() {
    assert_eq!(content_kind(&"kernel_info_request".to_string()), ContentKind::KernelInfoRequest);
    assert_eq!(content_kind(&"execute_request".to_string()), ContentKind::ExecuteRequest);
    assert_eq!(content_kind(&"input_reply".to_string()), ContentKind::InputReply);
    assert_eq!(content_kind(&"comm_open".to_string()), ContentKind::Unknown);
    assert_eq!(content_kind(&"".to_string()), ContentKind::Unknown);
}
