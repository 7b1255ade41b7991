use vstd::prelude::*;

use super::client::JupyterChannel;

verus! {

/// What a connection file tells a kernel: where to listen and how to sign messages.
pub struct JupyterConnectionInfo {
    pub shell_port: u16,
    pub iopub_port: u16,
    pub stdin_port: u16,
    pub control_port: u16,
    pub hb_port: u16,
    pub ip: String,
    pub key: String,
    pub transport: String,
    pub signature_scheme: String,
    pub kernel_name: String,
}

/// The digit character for `d` (below 10).
pub open spec fn decimal_digit(d: int) -> char {
    (48 + d) as char
}

/// `n` written in decimal, without leading zeros.
pub open spec fn decimal(n: nat) -> Seq<char>
    decreases n,
{
    if n < 10 {
        seq![decimal_digit(n as int)]
    } else {
        decimal(n / 10).push(decimal_digit((n % 10) as int))
    }
}

/// The text of one decimal digit.
fn digit_text(d: u16) -> (r: &'static str)
    requires
        d < 10,
    ensures
        r@ == seq![decimal_digit(d as int)],
{
    proof {
        reveal_strlit("0");
        reveal_strlit("1");
        reveal_strlit("2");
        reveal_strlit("3");
        reveal_strlit("4");
        reveal_strlit("5");
        reveal_strlit("6");
        reveal_strlit("7");
        reveal_strlit("8");
        reveal_strlit("9");
    }
    match d {
        0 => "0",
        1 => "1",
        2 => "2",
        3 => "3",
        4 => "4",
        5 => "5",
        6 => "6",
        7 => "7",
        8 => "8",
        _ => "9",
    }
}

/// Appends `n` in decimal.
fn append_decimal(out: &mut String, n: u16)
    ensures
        final(out)@ == old(out)@ + decimal(n as nat),
    decreases n,
{
    if n >= 10 {
        append_decimal(out, n / 10);
    }
    out.append(digit_text(n % 10));
    proof {
        if n >= 10 {
            assert(decimal(n as nat) == decimal((n / 10) as nat).push(decimal_digit((n % 10) as int)));
        }
    }
}

impl JupyterConnectionInfo {
    /// The signing key, as the bytes of its text.
    pub fn get_signing_key(&self) -> (r: Vec<u8>)
        ensures
            r@ == vstd::utf8::encode_utf8(self.key@),
    {
        self.key.as_str().as_bytes_vec()
    }

    /// The endpoint of a channel: `transport://ip:port`.
    pub fn format_endpoint(&self, channel: JupyterChannel) -> (r: String)
        ensures
            r@ == self.transport@ + seq![':', '/', '/'] + self.ip@ + seq![':'] + decimal(
                self.channel_port(channel) as nat,
            ),
    {
        let port = self.port(channel);
        let mut out = self.transport.clone();
        proof {
            reveal_strlit("://");
            reveal_strlit(":");
        }
        out.append("://");
        out.append(self.ip.as_str());
        out.append(":");
        append_decimal(&mut out, port);
        out
    }
    pub fn get_signature_scheme(&self) -> (r: &str)
        ensures
            r@ == self.signature_scheme@,
    {
        self.signature_scheme.as_str()
    }

    pub fn get_kernel_name(&self) -> (r: &str)
        ensures
            r@ == self.kernel_name@,
    {
        self.kernel_name.as_str()
    }

    /// The port that a channel listens on.
    pub open spec fn channel_port(&self, channel: JupyterChannel) -> u16 {
        match channel {
            JupyterChannel::Shell => self.shell_port,
            JupyterChannel::IOPub => self.iopub_port,
            JupyterChannel::Control => self.control_port,
            JupyterChannel::StdIn => self.stdin_port,
            JupyterChannel::Heartbeat => self.hb_port,
        }
    }

    /// The port of a channel.
    pub fn port(&self, channel: JupyterChannel) -> (r: u16)
        ensures
            r == self.channel_port(channel),
    {
        match channel {
            JupyterChannel::Shell => self.shell_port,
            JupyterChannel::IOPub => self.iopub_port,
            JupyterChannel::Control => self.control_port,
            JupyterChannel::StdIn => self.stdin_port,
            JupyterChannel::Heartbeat => self.hb_port,
        }
    }
}


} // verus!
