//! Preparing the secure session: the remote address, the pre-shared-key
//! credentials, and what the handshake's key callback writes. The datagram
//! socket and the handshake itself run outside this module.
use vstd::prelude::*;
use vstd::string::*;

verus! {

/// Largest record size, in bytes, so that records are not fragmented.
pub const MAX_RECORD_SIZE: u32 = 1400;

/// Read and write timeout of the transport, in seconds.
pub const IO_TIMEOUT_SECS: u64 = 2;

/// The one cipher suite offered in the handshake.
pub const PSK_CIPHER: &'static str = "PSK-AES128-GCM-SHA256";

/// Why a session could not be set up or used.
#[derive(Debug, Clone, PartialEq, Eq)]
pub enum StreamError {
    /// Socket bind, connect or send failed.
    TransportError(String),
    /// The handshake was refused: cipher, identity or key rejected.
    HandshakeError(String),
    /// The credentials are malformed.
    ConfigError(String),
}

impl StreamError {
    pub open spec fn is_config(&self) -> bool {
        self is ConfigError
    }

    pub open spec fn is_handshake(&self) -> bool {
        self is HandshakeError
    }

    /// The error's message.
    pub fn message(&self) -> (r: String)
        ensures
            r@ == match self {
                StreamError::TransportError(m) => m@,
                StreamError::HandshakeError(m) => m@,
                StreamError::ConfigError(m) => m@,
            },
    {
        match self {
            StreamError::TransportError(m) => m.clone(),
            StreamError::HandshakeError(m) => m.clone(),
            StreamError::ConfigError(m) => m.clone(),
        }
    }
}

pub open spec fn is_hex_digit(c: char) -> bool {
    ('0' <= c <= '9') || ('a' <= c <= 'f') || ('A' <= c <= 'F')
}

pub open spec fn hex_digit_value(c: char) -> nat {
    if '0' <= c <= '9' {
        (c as int - '0' as int) as nat
    } else if 'a' <= c <= 'f' {
        (c as int - 'a' as int + 10) as nat
    } else if 'A' <= c <= 'F' {
        (c as int - 'A' as int + 10) as nat
    } else {
        0
    }
}

/// An even number of hexadecimal digits.
pub open spec fn is_hex(s: Seq<char>) -> bool {
    s.len() % 2 == 0 && forall|i: int| 0 <= i < s.len() ==> is_hex_digit(#[trigger] s[i])
}

/// The bytes that pairs of hexadecimal digits spell, high digit first.
pub open spec fn hex_bytes(s: Seq<char>) -> Seq<u8> {
    Seq::new(
        s.len() / 2,
        |i: int| (hex_digit_value(s[2 * i]) * 16 + hex_digit_value(s[2 * i + 1])) as u8,
    )
}

#[verifier::external_type_specification]
#[verifier::external_body]
pub struct ExFromHexError(hex::FromHexError);

/// Relies on hex::decode: an odd length or a byte that is not a hexadecimal
/// digit is an error; otherwise each pair of digits gives one byte, high
/// digit first. Hexadecimal digits are ASCII, so on a string of them bytes
/// and characters coincide, and any other character makes a non-digit byte.
#[verifier::external_body]
fn decode_hex(s: &str) -> (r: Result<Vec<u8>, hex::FromHexError>)
    ensures
        match r {
            Ok(v) => is_hex(s@) && v@ == hex_bytes(s@),
            Err(_) => !is_hex(s@),
        },
{
    hex::decode(s)
}

/// The streaming endpoint: `host` at the fixed port 2100.
pub fn stream_address(host: &str) -> (r: String)
    ensures
        r@ == host@ + ":2100"@,
{
    let mut address = host.to_owned();
    address.append(":2100");
    address
}

/// What the handshake needs, checked before any socket is opened.
pub struct SessionParams {
    pub address: String,
    pub identity: Vec<u8>,
    pub key: Vec<u8>,
}

/// Checks the credentials and derives the session parameters. A malformed
/// identity (empty) or key (empty, or not an even number of hexadecimal
/// digits) is a `ConfigError`.
pub fn prepare_session(host: &str, identity: &str, psk_hex: &str) -> (r: Result<SessionParams, StreamError>)
    ensures
        r is Ok <==> (identity@.len() > 0 && is_hex(psk_hex@) && psk_hex@.len() > 0),
        match r {
            Ok(p) => {
                &&& p.address@ == host@ + ":2100"@
                &&& p.identity@ == identity.spec_bytes()
                &&& p.key@ == hex_bytes(psk_hex@)
            },
            Err(e) => e.is_config(),
        },
{
    if identity.unicode_len() == 0 {
        return Err(StreamError::ConfigError("empty PSK identity".to_owned()));
    }
    let key = match decode_hex(psk_hex) {
        Ok(k) => k,
        Err(_) => {
            return Err(StreamError::ConfigError("PSK is not hexadecimal".to_owned()));
        },
    };
    if key.len() == 0 {
        return Err(StreamError::ConfigError("empty PSK".to_owned()));
    }
    let address = stream_address(host);
    let id_bytes = identity.as_bytes_vec();
    Ok(SessionParams { address, identity: id_bytes, key })
}

/// What the key callback writes into an identity buffer of `capacity`
/// bytes: the identity, then a terminating zero where it fits. An identity
/// longer than the buffer fails the handshake.
pub fn psk_identity_fill(identity: &[u8], capacity: usize) -> (r: Result<Vec<u8>, StreamError>)
    ensures
        r is Ok <==> identity@.len() <= capacity,
        match r {
            Ok(b) => b@ == if identity@.len() < capacity {
                identity@.push(0u8)
            } else {
                identity@
            },
            Err(e) => e.is_handshake(),
        },
{
    if identity.len() > capacity {
        return Err(StreamError::HandshakeError("PSK identity too long".to_owned()));
    }
    let mut out: Vec<u8> = Vec::new();
    let mut i: usize = 0;
    while i < identity.len()
        invariant
            i <= identity@.len(),
            out@ == identity@.subrange(0, i as int),
        decreases identity@.len() - i,
    {
        out.push(identity[i]);
        assert(out@ =~= identity@.subrange(0, i + 1));
        i = i + 1;
    }
    assert(out@ =~= identity@);
    if identity.len() < capacity {
        out.push(0u8);
    }
    Ok(out)
}

/// How many key bytes the key callback writes into a buffer of `capacity`
/// bytes. A key longer than the buffer fails the handshake.
pub fn psk_key_fill(key: &[u8], capacity: usize) -> (r: Result<usize, StreamError>)
    ensures
        match r {
            Ok(n) => key@.len() <= capacity && n == key@.len(),
            Err(e) => key@.len() > capacity && e.is_handshake(),
        },
{
    if key.len() > capacity {
        Err(StreamError::HandshakeError("PSK too long".to_owned()))
    } else {
        Ok(key.len())
    }
}

} // verus!
