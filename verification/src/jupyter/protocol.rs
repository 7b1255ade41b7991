use vstd::prelude::*;

use super::errors::JupyterError;
use super::errors::raise_invalid_implementation;
use super::errors::raise_invalid_signature;
use super::errors::raise_message_incomplete;
use super::errors::raise_not_enough_frames;
use super::errors::raise_verification_failed;

verus! {

/// The header of a message: who sent it, when, and of which type it is.
pub struct JupyterHeader {
    pub msg_id: String,
    pub msg_type: String,
    pub session: String,
    pub username: String,
    pub date: String,
    pub version: String,
}

/// A fresh random identifier: `uuid::Uuid::new_v4`, hyphenated. Its text is 36 characters long;
/// nothing else is claimed of it.
#[verifier::external_body]
fn generate_new_uuid() -> (r: String)
    ensures
        r@.len() == 36,
{
    uuid::Uuid::new_v4().hyphenated().to_string()
}

/// The current time as RFC 3339 text: `chrono::Utc::now().to_rfc3339()`. Nothing is claimed of it.
#[verifier::external_body]
fn format_current_timestamp() -> (r: String) {
    chrono::Utc::now().to_rfc3339()
}

impl JupyterHeader {
    fn new(msg_type: String, session: String, username: String, version: String) -> (r: Self)
        ensures
            r.msg_type == msg_type,
            r.session == session,
            r.username == username,
            r.version == version,
            r.msg_id@.len() == 36,
    {
        JupyterHeader {
            msg_id: generate_new_uuid(),
            date: format_current_timestamp(),
            msg_type,
            session,
            username,
            version,
        }
    }

    pub fn get_type(&self) -> (r: &str)
        ensures
            r@ == self.msg_type@,
    {
        self.msg_type.as_str()
    }

    pub fn get_session(&self) -> (r: &str)
        ensures
            r@ == self.session@,
    {
        self.session.as_str()
    }

    /// The header of a reply of type `msg_type`: same session, user and protocol version, with a
    /// fresh identifier and the current time.
    pub fn reply(&self, msg_type: &str) -> (r: Self)
        ensures
            r.msg_type@ == msg_type@,
            r.session@ == self.session@,
            r.username@ == self.username@,
            r.version@ == self.version@,
            r.msg_id@.len() == 36,
    {
        JupyterHeader::new(msg_type.to_owned(), self.session.clone(), self.username.clone(), self.version.clone())
    }
}


/// The lowercase hex digit for `n` (below 16), as an ASCII byte.
pub open spec fn hex_digit(n: u8) -> u8 {
    if n < 10 {
        (48 + n) as u8
    } else {
        (87 + n) as u8
    }
}

/// `data` written as lowercase hex: two digits per byte, the high one first.
pub open spec fn hex_text(data: Seq<u8>) -> Seq<u8> {
    Seq::new(
        2 * data.len(),
        |i: int|
            if i % 2 == 0 {
                hex_digit(data[i / 2] / 16)
            } else {
                hex_digit(data[i / 2] % 16)
            },
    )
}

/// The value of an ASCII hex digit of either case.
pub open spec fn hex_value(c: u8) -> Option<int> {
    if 48 <= c <= 57 {
        Some(c - 48)
    } else if 97 <= c <= 102 {
        Some(c - 87)
    } else if 65 <= c <= 70 {
        Some(c - 55)
    } else {
        None
    }
}

/// Whether `text` is hex: an even number of hex digits.
pub open spec fn is_hex_text(text: Seq<u8>) -> bool {
    &&& text.len() % 2 == 0
    &&& forall|i: int| 0 <= i < text.len() ==> #[trigger] hex_value(text[i]) is Some
}

/// The bytes that hex text stands for, two digits each.
pub open spec fn hex_bytes(text: Seq<u8>) -> Seq<u8> {
    Seq::new(
        text.len() / 2,
        |i: int| (hex_value(text[2 * i]).unwrap() * 16 + hex_value(text[2 * i + 1]).unwrap()) as u8,
    )
}

/// Hex text reads back as the bytes it was written from.
pub proof fn lemma_hex_round_trip(data: Seq<u8>)
    ensures
        is_hex_text(hex_text(data)),
        hex_bytes(hex_text(data)) == data,
{
    let text = hex_text(data);
    assert forall|i: int| 0 <= i < text.len() implies #[trigger] hex_value(text[i]) is Some
        && hex_value(text[i]).unwrap() == if i % 2 == 0 {
        data[i / 2] / 16
    } else {
        data[i / 2] % 16
    } by {}
    assert forall|i: int| 0 <= i < data.len() implies #[trigger] hex_bytes(text)[i] == data[i] by {
        assert(text[2 * i] == hex_digit(data[i] / 16));
        assert(text[2 * i + 1] == hex_digit(data[i] % 16));
        assert(hex_value(text[2 * i]).unwrap() == data[i] / 16);
        assert(hex_value(text[2 * i + 1]).unwrap() == data[i] % 16);
    }
    assert(hex_bytes(text) =~= data);
}

/// `hex::encode`: `data` as lowercase hex text, two digits per byte.
#[verifier::external_body]
pub(crate) fn hex_encode(data: &Vec<u8>) -> (r: String)
    ensures
        r@ == hex_text(data@).map_values(|b: u8| b as char),
{
    hex::encode(data)
}

/// `hex::decode`: the bytes that hex text of either case stands for; text of odd length, or with
/// a byte that is no hex digit, fails with the error's text.
#[verifier::external_body]
fn hex_decode(text: &Vec<u8>) -> (r: Result<Vec<u8>, String>)
    ensures
        match r {
            Ok(bytes) => is_hex_text(text@) && bytes@ == hex_bytes(text@),
            Err(_) => !is_hex_text(text@),
        },
{
    match hex::decode(text) {
        Ok(bytes) => Ok(bytes),
        Err(error) => Err(error.to_string()),
    }
}

/// `String::from_utf8`: the error's text where `bytes` are not UTF-8. Of the result only this is
/// claimed: ASCII bytes are UTF-8, so they give `None`.
#[verifier::external_body]
fn utf8_error(bytes: &Vec<u8>) -> (r: Option<String>)
    ensures
        (forall|i: int| 0 <= i < bytes.len() ==> #[trigger] bytes@[i] < 128) ==> r is None,
{
    match String::from_utf8(bytes.clone()) {
        Ok(_) => None,
        Err(error) => Some(error.to_string()),
    }
}

/// The HMAC-SHA256 of `message` under `key`.
pub uninterp spec fn hmac_sha256(key: Seq<u8>, message: Seq<u8>) -> Seq<u8>;

/// `hmac_sha256::HMAC::mac`: the 32 bytes of the HMAC-SHA256 of `input` under the key `k`.
#[verifier::external_body]
fn hmac_mac(input: &Vec<u8>, k: &Vec<u8>) -> (r: Vec<u8>)
    ensures
        r@ == hmac_sha256(k@, input@),
        r@.len() == 32,
{
    hmac_sha256::HMAC::mac(input, k).to_vec()
}

/// What a message holds: its frames, first to last.
pub uninterp spec fn zmq_frames(message: zeromq::ZmqMessage) -> Seq<Seq<u8>>;

/// `ZmqMessage::len`: the number of frames.
#[verifier::external_body]
fn zmq_frame_count(message: &zeromq::ZmqMessage) -> (r: usize)
    ensures
        r == zmq_frames(*message).len(),
{
    message.len()
}

/// `ZmqMessage::into_vec`: the frames, each copied out.
#[verifier::external_body]
fn zmq_into_frames(message: zeromq::ZmqMessage) -> (r: Vec<Vec<u8>>)
    ensures
        frame_views(r@) == zmq_frames(message),
{
    message.into_vec().into_iter().map(|frame| frame.to_vec()).collect()
}

/// `ZmqMessage::try_from` on a vector of frames: a message of those frames, or, for no frames,
/// the error's text.
#[verifier::external_body]
fn zmq_from_frames(frames: Vec<Vec<u8>>) -> (r: Result<zeromq::ZmqMessage, String>)
    ensures
        match r {
            Ok(message) => frames.len() > 0 && zmq_frames(message) == frame_views(frames@),
            Err(_) => frames.len() == 0,
        },
{
    let frames: Vec<bytes::Bytes> = frames.into_iter().map(bytes::Bytes::from).collect();
    match zeromq::ZmqMessage::try_from(frames) {
        Ok(message) => Ok(message),
        Err(error) => Err(error.to_string()),
    }
}

/// The bytes of each frame.
pub open spec fn frame_views(frames: Seq<Vec<u8>>) -> Seq<Seq<u8>> {
    frames.map_values(|frame: Vec<u8>| frame@)
}

/// The bytes of `items`, one after the other.
pub open spec fn joined(items: Seq<Seq<u8>>) -> Seq<u8>
    decreases items.len(),
{
    if items.len() == 0 {
        Seq::empty()
    } else {
        joined(items.drop_last()) + items.last()
    }
}

/// The frame between the routing identities and the signed part: `<IDS|MSG>`.
pub open spec fn delimiter() -> Seq<u8> {
    seq![60u8, 73u8, 68u8, 83u8, 124u8, 77u8, 83u8, 71u8, 62u8]
}

/// The empty JSON object `{}`, which stands for a part that was not given.
pub open spec fn empty_object() -> Seq<u8> {
    seq![123u8, 125u8]
}

/// A part that was given, or the empty object.
pub open spec fn given_or_empty(part: Option<Seq<u8>>) -> Seq<u8> {
    match part {
        Some(bytes) => bytes,
        None => empty_object(),
    }
}

/// The seven frames of a signed message: identity, delimiter, the hex signature of the four
/// parts under `key`, then header, parent, metadata and content.
pub open spec fn signed_frames(
    identity: Seq<u8>,
    key: Seq<u8>,
    header: Seq<u8>,
    parent: Seq<u8>,
    metadata: Seq<u8>,
    content: Seq<u8>,
) -> Seq<Seq<u8>> {
    seq![
        identity,
        delimiter(),
        hex_text(hmac_sha256(key, header + parent + metadata + content)),
        header,
        parent,
        metadata,
        content,
    ]
}

/// What checking the signature of `frames` under `key` gives: `None` where the signature frame is
/// not hex text, else whether it stands for the HMAC-SHA256 of frames three to six.
pub open spec fn checked(key: Seq<u8>, frames: Seq<Seq<u8>>) -> Option<bool> {
    if is_hex_text(frames[2]) {
        Some(hex_bytes(frames[2]) == hmac_sha256(key, joined(frames.subrange(3, 7))))
    } else {
        None
    }
}

/// Four items joined are the four one after the other.
proof fn lemma_joined_four(a: Seq<u8>, b: Seq<u8>, c: Seq<u8>, d: Seq<u8>)
    ensures
        joined(seq![a, b, c, d]) == a + b + c + d,
{
    let items = seq![a, b, c, d];
    let p1 = items.drop_last().drop_last().drop_last();
    let p2 = items.drop_last().drop_last();
    let p3 = items.drop_last();
    assert(p1.drop_last() =~= Seq::<Seq<u8>>::empty());
    assert(p1.len() == 1 && p1.last() == a);
    assert(joined(p1.drop_last()) =~= Seq::<u8>::empty());
    assert(joined(p1) =~= a);
    assert(p2.drop_last() =~= p1 && p2.last() == b);
    assert(joined(p2) =~= a + b);
    assert(p3.drop_last() =~= p2 && p3.last() == c);
    assert(joined(p3) =~= a + b + c);
    assert(items.drop_last() =~= p3 && items.last() == d);
    assert(joined(items) =~= a + b + c + d);
}

/// A message signed under a key verifies under that key.
pub proof fn lemma_signed_verifies(
    identity: Seq<u8>,
    key: Seq<u8>,
    header: Seq<u8>,
    parent: Seq<u8>,
    metadata: Seq<u8>,
    content: Seq<u8>,
)
    ensures
        checked(key, signed_frames(identity, key, header, parent, metadata, content)) == Some(true),
{
    let frames = signed_frames(identity, key, header, parent, metadata, content);
    assert(frames.subrange(3, 7) =~= seq![header, parent, metadata, content]);
    lemma_joined_four(header, parent, metadata, content);
    lemma_hex_round_trip(hmac_sha256(key, header + parent + metadata + content));
}

/// The HMAC-SHA256 under `key` of the items one after the other.
fn compute_hmac_sha256(key: &Vec<u8>, data: &[Vec<u8>]) -> (r: Vec<u8>)
    ensures
        r@ == hmac_sha256(key@, joined(frame_views(data@))),
        r@.len() == 32,
{
    let mut input: Vec<u8> = Vec::new();
    let mut i: usize = 0;
    while i < data.len()
        invariant
            i <= data.len(),
            input@ == joined(frame_views(data@.subrange(0, i as int))),
        decreases data.len() - i,
    {
        let item = &data[i];
        let ghost before = input@;
        let mut j: usize = 0;
        while j < item.len()
            invariant
                j <= item.len(),
                input@ == before + item@.subrange(0, j as int),
            decreases item.len() - j,
        {
            input.push(item[j]);
            j = j + 1;
            proof {
                assert(item@.subrange(0, j as int) =~= item@.subrange(0, j - 1).push(item@[j - 1]));
            }
        }
        proof {
            assert(item@.subrange(0, j as int) =~= item@);
            assert(frame_views(data@.subrange(0, i + 1)).drop_last() =~= frame_views(data@.subrange(0, i as int)));
        }
        i = i + 1;
    }
    proof {
        assert(data@.subrange(0, i as int) =~= data@);
    }
    hmac_mac(&input, key)
}


/// The frames of a message on the wire: routing identity, delimiter, signature, then header,
/// parent, metadata and content, each JSON.
pub struct JupyterWireProtocol {
    frames: Vec<Vec<u8>>,
}

/// The parts of a message to be signed, each JSON.
pub struct JupyterWireBuilder {
    header: Option<Vec<u8>>,
    parent: Option<Vec<u8>>,
    metadata: Option<Vec<u8>>,
    content: Option<Vec<u8>>,
}

/// The bytes of a part, where it was given.
pub open spec fn part_view(part: Option<Vec<u8>>) -> Option<Seq<u8>> {
    match part {
        Some(bytes) => Some(bytes@),
        None => None,
    }
}

/// Whether `a` and `b` hold the same bytes.
fn same_bytes(a: &Vec<u8>, b: &Vec<u8>) -> (r: bool)
    ensures
        r == (a@ == b@),
{
    if a.len() != b.len() {
        return false;
    }
    let mut i: usize = 0;
    while i < a.len()
        invariant
            i <= a.len(),
            a.len() == b.len(),
            a@.subrange(0, i as int) == b@.subrange(0, i as int),
        decreases a.len() - i,
    {
        if a[i] != b[i] {
            assert(a@[i as int] != b@[i as int]);
            return false;
        }
        i = i + 1;
        proof {
            assert(a@.subrange(0, i as int) =~= a@.subrange(0, i - 1).push(a@[i - 1]));
            assert(b@.subrange(0, i as int) =~= b@.subrange(0, i - 1).push(b@[i - 1]));
        }
    }
    proof {
        assert(a@.subrange(0, i as int) =~= a@);
        assert(b@.subrange(0, i as int) =~= b@);
    }
    true
}

/// A copy of `bytes`.
fn copy_bytes(bytes: &Vec<u8>) -> (r: Vec<u8>)
    ensures
        r@ == bytes@,
{
    let mut copy: Vec<u8> = Vec::new();
    let mut i: usize = 0;
    while i < bytes.len()
        invariant
            i <= bytes.len(),
            copy@ == bytes@.subrange(0, i as int),
        decreases bytes.len() - i,
    {
        copy.push(bytes[i]);
        i = i + 1;
        proof {
            assert(bytes@.subrange(0, i as int) =~= bytes@.subrange(0, i - 1).push(bytes@[i - 1]));
        }
    }
    proof {
        assert(bytes@.subrange(0, i as int) =~= bytes@);
    }
    copy
}

impl JupyterWireProtocol {
    /// The bytes of each frame.
    pub closed spec fn frames(&self) -> Seq<Seq<u8>> {
        frame_views(self.frames@)
    }

    /// A message has all seven frames.
    pub closed spec fn wf(&self) -> bool {
        self.frames.len() >= 7
    }

    fn new(frames: Vec<Vec<u8>>) -> (r: Result<Self, JupyterError>)
        ensures
            frames.len() < 7 ==> (r matches Err(JupyterError::NotEnoughFrames { found, expected })
                && found == frames.len() && expected == 7),
            frames.len() >= 7 ==> (r matches Ok(p) && p.wf() && p.frames() == frame_views(frames@)),
    {
        let count = frames.len();
        if count < 7 {
            return raise_not_enough_frames(count, 7);
        }
        Ok(JupyterWireProtocol { frames })
    }

    /// Checks the signature under `key`: whether the signature frame stands for the HMAC-SHA256 of
    /// the header, parent, metadata and content frames; a signature frame that is not hex text
    /// fails.
    pub fn verify(&self, key: &Vec<u8>) -> (r: Result<bool, JupyterError>)
        requires
            self.wf(),
        ensures
            match checked(key@, self.frames()) {
                Some(b) => r == Ok::<bool, JupyterError>(b),
                None => r matches Err(JupyterError::VerificationFailed { .. }),
            },
    {
        let signature = match self.get_signature() {
            Ok(signature) => signature,
            Err(error) => return Err(error),
        };
        let slice = vstd::slice::slice_subrange(self.frames.as_slice(), 3, 7);
        let digest = compute_hmac_sha256(key, slice);
        proof {
            assert(frame_views(slice@) =~= self.frames().subrange(3, 7));
        }
        Ok(same_bytes(&digest, &signature))
    }

    /// The message of a socket, where it has all seven frames.
    pub fn from_zmq(message: zeromq::ZmqMessage) -> (r: Result<Self, JupyterError>)
        ensures
            zmq_frames(message).len() < 7 ==> (r matches Err(JupyterError::NotEnoughFrames { found, expected })
                && found == zmq_frames(message).len() && expected == 7),
            zmq_frames(message).len() >= 7 ==> (r matches Ok(p) && p.wf() && p.frames() == zmq_frames(message)),
    {
        let count = zmq_frame_count(&message);
        if count < 7 {
            return raise_not_enough_frames(count, 7);
        }
        let frames = zmq_into_frames(message);
        proof {
            assert(frame_views(frames@).len() == frames@.len());
        }
        Ok(JupyterWireProtocol { frames })
    }

    /// The message of a socket, where it has all seven frames and its signature holds under
    /// `key`; a false signature fails with the sender's identity in hex.
    pub fn from_verified_zmq(message: zeromq::ZmqMessage, key: &Vec<u8>) -> (r: Result<Self, JupyterError>)
        ensures
            zmq_frames(message).len() < 7 ==> (r matches Err(JupyterError::NotEnoughFrames { found, expected })
                && found == zmq_frames(message).len() && expected == 7),
            zmq_frames(message).len() >= 7 ==> match checked(key@, zmq_frames(message)) {
                Some(true) => r matches Ok(p) && p.wf() && p.frames() == zmq_frames(message),
                Some(false) => r matches Err(JupyterError::InvalidSignature { identifier: x }) && x@ == hex_text(
                    zmq_frames(message)[0],
                ).map_values(|b: u8| b as char),
                None => r matches Err(JupyterError::VerificationFailed { .. }),
            },
    {
        let protocol = match JupyterWireProtocol::from_zmq(message) {
            Ok(protocol) => protocol,
            Err(error) => return Err(error),
        };
        match protocol.verify(key) {
            Ok(true) => Ok(protocol),
            Ok(false) => raise_invalid_signature(&protocol.get_identifier()),
            Err(error) => Err(error),
        }
    }

    /// The message for a socket, with the same frames.
    pub fn to_zmq(self) -> (r: Result<zeromq::ZmqMessage, JupyterError>)
        requires
            self.wf(),
        ensures
            r matches Ok(message) && zmq_frames(message) == self.frames(),
    {
        match zmq_from_frames(self.frames) {
            Ok(message) => Ok(message),
            Err(reason) => raise_invalid_implementation(reason),
        }
    }

    /// The routing identity of the sender.
    pub fn get_identifier(&self) -> (r: Vec<u8>)
        requires
            self.wf(),
        ensures
            r@ == self.frames()[0],
    {
        copy_bytes(&self.frames[0])
    }

    /// The bytes that the signature frame stands for.
    fn get_signature(&self) -> (r: Result<Vec<u8>, JupyterError>)
        requires
            self.wf(),
        ensures
            match r {
                Ok(signature) => is_hex_text(self.frames()[2]) && signature@ == hex_bytes(self.frames()[2]),
                Err(error) => !is_hex_text(self.frames()[2]) && error is VerificationFailed,
            },
    {
        let text = &self.frames[2];
        match utf8_error(text) {
            Some(reason) => {
                proof {
                    if is_hex_text(text@) {
                        assert forall|i: int| 0 <= i < text.len() implies #[trigger] text@[i] < 128 by {
                            assert(hex_value(text@[i]) is Some);
                        }
                    }
                }
                return raise_verification_failed(reason);
            },
            None => {},
        }
        match hex_decode(text) {
            Ok(bytes) => Ok(bytes),
            Err(reason) => raise_verification_failed(reason),
        }
    }

    /// The JSON of the parent's header, or `None` where the parent frame is the empty object.
    pub fn get_parent(&self) -> (r: Option<Vec<u8>>)
        requires
            self.wf(),
        ensures
            if self.frames()[4] == empty_object() {
                r is None
            } else {
                r matches Some(parent) && parent@ == self.frames()[4]
            },
    {
        let parent = &self.frames[4];
        if parent.len() == 2 && parent[0] == 123 && parent[1] == 125 {
            proof {
                assert(parent@ =~= empty_object());
            }
            return None;
        }
        Some(copy_bytes(parent))
    }

    /// The JSON of the header.
    pub fn get_header(&self) -> (r: Vec<u8>)
        requires
            self.wf(),
        ensures
            r@ == self.frames()[3],
    {
        copy_bytes(&self.frames[3])
    }

    /// The JSON of the content.
    pub fn get_content(&self) -> (r: Vec<u8>)
        requires
            self.wf(),
        ensures
            r@ == self.frames()[6],
    {
        copy_bytes(&self.frames[6])
    }
}

impl JupyterWireBuilder {
    /// The header given, as JSON.
    pub closed spec fn header(&self) -> Option<Seq<u8>> {
        part_view(self.header)
    }

    /// The parent's header given, as JSON.
    pub closed spec fn parent(&self) -> Option<Seq<u8>> {
        part_view(self.parent)
    }

    /// The metadata given, as JSON.
    pub closed spec fn metadata(&self) -> Option<Seq<u8>> {
        part_view(self.metadata)
    }

    /// The content given, as JSON.
    pub closed spec fn content(&self) -> Option<Seq<u8>> {
        part_view(self.content)
    }

    /// A builder with no part given.
    pub fn new() -> (r: Self)
        ensures
            r.header() is None,
            r.parent() is None,
            r.metadata() is None,
            r.content() is None,
    {
        JupyterWireBuilder { header: None, parent: None, metadata: None, content: None }
    }

    /// Gives the header, as JSON.
    pub fn with_header(self, header: Vec<u8>) -> (r: Self)
        ensures
            r.header() == Some(header@),
            r.parent() == self.parent(),
            r.metadata() == self.metadata(),
            r.content() == self.content(),
    {
        JupyterWireBuilder { header: Some(header), parent: self.parent, metadata: self.metadata, content: self.content }
    }

    /// Gives the parent's header, as JSON.
    pub fn with_parent(self, parent: Vec<u8>) -> (r: Self)
        ensures
            r.header() == self.header(),
            r.parent() == Some(parent@),
            r.metadata() == self.metadata(),
            r.content() == self.content(),
    {
        JupyterWireBuilder { header: self.header, parent: Some(parent), metadata: self.metadata, content: self.content }
    }

    /// Gives the content, as JSON.
    pub fn with_content(self, content: Vec<u8>) -> (r: Self)
        ensures
            r.header() == self.header(),
            r.parent() == self.parent(),
            r.metadata() == self.metadata(),
            r.content() == Some(content@),
    {
        JupyterWireBuilder { header: self.header, parent: self.parent, metadata: self.metadata, content: Some(content) }
    }

    /// The message from `identity`, signed under `key`; parts not given are empty objects, and a
    /// message without a header is incomplete.
    pub fn sign(self, identity: &Vec<u8>, key: &Vec<u8>) -> (r: Result<JupyterWireProtocol, JupyterError>)
        ensures
            match self.header() {
                None => r matches Err(JupyterError::MessageIncomplete { name }) && name@ == "Header"@,
                Some(header) => r matches Ok(protocol) && protocol.wf() && protocol.frames() == signed_frames(
                    identity@,
                    key@,
                    header,
                    given_or_empty(self.parent()),
                    given_or_empty(self.metadata()),
                    given_or_empty(self.content()),
                ),
            },
    {
        let header = match self.header {
            Some(header) => header,
            None => return raise_message_incomplete("Header"),
        };
        let parent = match self.parent {
            Some(parent) => parent,
            None => vec![123u8, 125u8],
        };
        let metadata = match self.metadata {
            Some(metadata) => metadata,
            None => vec![123u8, 125u8],
        };
        let content = match self.content {
            Some(content) => content,
            None => vec![123u8, 125u8],
        };

        let delimiter: Vec<u8> = vec![60u8, 73u8, 68u8, 83u8, 124u8, 77u8, 83u8, 71u8, 62u8];
        let mut parts: Vec<Vec<u8>> = vec![header, parent, metadata, content];
        proof {
            assert(frame_views(parts@) =~= seq![header@, parent@, metadata@, content@]);
            lemma_joined_four(header@, parent@, metadata@, content@);
        }
        let digest = compute_hmac_sha256(key, parts.as_slice());
        let text = hex_encode(&digest);
        let text = text.as_str();
        proof {
            assert(vstd::string::is_ascii(text));
        }
        let signature = text.as_bytes_vec();
        proof {
            assert(signature@ =~= hex_text(digest@));
        }

        let mut frames: Vec<Vec<u8>> = vec![copy_bytes(identity), delimiter, signature];
        frames.append(&mut parts);
        proof {
            assert(frame_views(frames@) =~= signed_frames(
                identity@,
                key@,
                header@,
                given_or_empty(self.parent()),
                given_or_empty(self.metadata()),
                given_or_empty(self.content()),
            ));
        }
        JupyterWireProtocol::new(frames)
    }
}

} // verus!
