use vstd::prelude::*;

verus! {

use vstd::utf8::encode_utf8;
use vstd::slice::slice_to_vec;
use crate::http::HttpHeader;
use crate::text::ascii_bytes;
use crate::text::ascii_of;
use crate::text::bytes_eq;

/// Why the websocket upgrade was refused.
#[derive(Debug, PartialEq, Eq, Structural)]
pub enum HandshakeError {
    /// The Upgrade header is absent or not `websocket`.
    BadUpgrade,
    /// The Sec-WebSocket-Version header is absent or not `13`.
    UnsupportedVersion,
    /// The Sec-WebSocket-Key header is absent.
    MissingKey,
}

/// The 20-byte SHA-1 digest of the input bytes.
pub uninterp spec fn sha1_of(data: Seq<u8>) -> Seq<u8>;

/// The padded standard base64 encoding of the input bytes, as text.
pub uninterp spec fn base64_of(data: Seq<u8>) -> Seq<char>;

/// Relies on sha1::Sha1 through the Digest trait: the 20-byte digest is
/// a function of the input bytes alone.
#[verifier::external_body]
fn sha1_digest(data: &[u8]) -> (r: Vec<u8>)
    ensures
        r@ == sha1_of(data@),
        r@.len() == 20,
{
    let mut h = <sha1::Sha1 as sha1::Digest>::new();
    sha1::Digest::update(&mut h, data);
    <sha1::Sha1 as sha1::Digest>::finalize(h).to_vec()
}

/// Relies on base64's STANDARD engine: the padded standard encoding is a
/// function of the input bytes alone, four characters for three bytes.
#[verifier::external_body]
fn b64_encode(data: &[u8]) -> (r: String)
    ensures
        r@ == base64_of(data@),
        r@.len() == 4 * ((data@.len() + 2) / 3),
{
    base64::Engine::encode(&base64::engine::general_purpose::STANDARD, data)
}

/// The accept token owed for a handshake key: base64 of the SHA-1 digest
/// of the key followed by the fixed protocol GUID.
pub open spec fn accept_token_of(key: Seq<u8>) -> Seq<char> {
    base64_of(sha1_of(key + ascii_bytes("258EAFA5-E914-47DA-95CA-C5AB0DC85B11"@)))
}

/// Compute the accept token for a Sec-WebSocket-Key value.
pub fn accept_token(key: &[u8]) -> (r: String)
    ensures
        r@ == accept_token_of(key@),
{
    proof {
        reveal_strlit("258EAFA5-E914-47DA-95CA-C5AB0DC85B11");
        assert(vstd::string::is_ascii("258EAFA5-E914-47DA-95CA-C5AB0DC85B11"));
    }
    let guid = ascii_of("258EAFA5-E914-47DA-95CA-C5AB0DC85B11");
    let mut combined = slice_to_vec(key);
    combined.extend_from_slice(guid);
    proof {
        assert(combined@ =~= key@ + ascii_bytes("258EAFA5-E914-47DA-95CA-C5AB0DC85B11"@));
    }
    let digest = sha1_digest(combined.as_slice());
    b64_encode(digest.as_slice())
}

/// A successful upgrade: the identity the connection will carry (its
/// accept token) and the 101 response to write back.
pub struct Negotiation {
    pub identity: String,
    pub response: Vec<u8>,
}

/// The 101 Switching Protocols response carrying the accept token.
pub open spec fn response_for(token: Seq<char>) -> Seq<u8> {
    ascii_bytes(
        "HTTP/1.1 101 Switching Protocols\r\nUpgrade: websocket\r\nConnection: Upgrade\r\nSec-WebSocket-Accept: "@,
    ) + encode_utf8(token) + ascii_bytes("\r\n\r\n"@)
}

/// Validate the upgrade headers of a parsed request and compute the
/// accept token and the 101 response. The Upgrade header must be
/// `websocket`, the version must be 13, and a key must be present; the
/// connection's identity is the accept token itself.
pub fn negotiate(header: &HttpHeader) -> (r: Result<Negotiation, HandshakeError>)
    ensures
        (match r {
            Ok(n) => {
                let t = header.table_view();
                &&& t.contains_key(ascii_bytes("Upgrade"@)) && t[ascii_bytes("Upgrade"@)]
                    == ascii_bytes("websocket"@)
                &&& t.contains_key(ascii_bytes("Sec-WebSocket-Version"@)) && t[ascii_bytes(
                    "Sec-WebSocket-Version"@,
                )] == ascii_bytes("13"@)
                &&& t.contains_key(ascii_bytes("Sec-WebSocket-Key"@))
                &&& n.identity@ == accept_token_of(t[ascii_bytes("Sec-WebSocket-Key"@)])
                &&& n.response@ == response_for(n.identity@)
            },
            Err(HandshakeError::BadUpgrade) => {
                let t = header.table_view();
                !(t.contains_key(ascii_bytes("Upgrade"@)) && t[ascii_bytes("Upgrade"@)]
                    == ascii_bytes("websocket"@))
            },
            Err(HandshakeError::UnsupportedVersion) => {
                let t = header.table_view();
                &&& t.contains_key(ascii_bytes("Upgrade"@)) && t[ascii_bytes("Upgrade"@)]
                    == ascii_bytes("websocket"@)
                &&& !(t.contains_key(ascii_bytes("Sec-WebSocket-Version"@)) && t[ascii_bytes(
                    "Sec-WebSocket-Version"@,
                )] == ascii_bytes("13"@))
            },
            Err(HandshakeError::MissingKey) => {
                let t = header.table_view();
                &&& t.contains_key(ascii_bytes("Upgrade"@)) && t[ascii_bytes("Upgrade"@)]
                    == ascii_bytes("websocket"@)
                &&& t.contains_key(ascii_bytes("Sec-WebSocket-Version"@)) && t[ascii_bytes(
                    "Sec-WebSocket-Version"@,
                )] == ascii_bytes("13"@)
                &&& !t.contains_key(ascii_bytes("Sec-WebSocket-Key"@))
            },
        }),
{
    proof {
        reveal_strlit("Upgrade");
        reveal_strlit("websocket");
        reveal_strlit("Sec-WebSocket-Version");
        reveal_strlit("13");
        reveal_strlit("Sec-WebSocket-Key");
        assert(vstd::string::is_ascii("Upgrade"));
        assert(vstd::string::is_ascii("websocket"));
        assert(vstd::string::is_ascii("Sec-WebSocket-Version"));
        assert(vstd::string::is_ascii("13"));
        assert(vstd::string::is_ascii("Sec-WebSocket-Key"));
    }
    let upgrade_ok = match header.get(ascii_of("Upgrade")) {
        Some(v) => bytes_eq(v.as_slice(), ascii_of("websocket")),
        None => false,
    };
    if !upgrade_ok {
        return Err(HandshakeError::BadUpgrade);
    }
    let version_ok = match header.get(ascii_of("Sec-WebSocket-Version")) {
        Some(v) => bytes_eq(v.as_slice(), ascii_of("13")),
        None => false,
    };
    if !version_ok {
        return Err(HandshakeError::UnsupportedVersion);
    }
    let key = match header.get(ascii_of("Sec-WebSocket-Key")) {
        Some(v) => v,
        None => {
            return Err(HandshakeError::MissingKey);
        },
    };
    let token = accept_token(key.as_slice());
    proof {
        reveal_strlit(
            "HTTP/1.1 101 Switching Protocols\r\nUpgrade: websocket\r\nConnection: Upgrade\r\nSec-WebSocket-Accept: ",
        );
        reveal_strlit("\r\n\r\n");
        assert(vstd::string::is_ascii(
            "HTTP/1.1 101 Switching Protocols\r\nUpgrade: websocket\r\nConnection: Upgrade\r\nSec-WebSocket-Accept: ",
        ));
        assert(vstd::string::is_ascii("\r\n\r\n"));
    }
    let mut response: Vec<u8> = Vec::new();
    response.extend_from_slice(
        ascii_of(
            "HTTP/1.1 101 Switching Protocols\r\nUpgrade: websocket\r\nConnection: Upgrade\r\nSec-WebSocket-Accept: ",
        ),
    );
    response.extend_from_slice(token.as_str().as_bytes());
    response.extend_from_slice(ascii_of("\r\n\r\n"));
    proof {
        assert(response@ =~= response_for(token@));
    }
    Ok(Negotiation { identity: token, response })
}

} // verus!
