use vstd::prelude::*;
use vstd::string::{StringExecFns, StringSliceAdditionalSpecFns};

verus! {

/// The GUID that RFC 6455 appends to the key before hashing.
pub const ACCEPT_GUID: &'static str = "258EAFA5-E914-47DA-95CA-C5AB0DC85B11";

/// Where the opening request goes: the parts of the URI that it names.
#[derive(Clone, Debug)]
pub struct Target {
    pub host: String,
    pub port: Option<u16>,
    /// Path and query, as written after the authority; empty if none.
    pub path_and_query: String,
}

/// Why an opening handshake failed.
#[derive(Clone, Debug)]
pub enum ConnectError {
    /// The response did not start with `HTTP/1.1 101`; it is kept whole.
    InvalidHandshakeResponse(String),
    /// The response did not carry the expected `Sec-WebSocket-Accept`.
    InvalidWebSocketAcceptHeader,
}

pub open spec fn digit_char(d: nat) -> char {
    seq!['0', '1', '2', '3', '4', '5', '6', '7', '8', '9'][d as int]
}

/// The decimal digits of `n`, without leading zeros.
pub open spec fn decimal(n: nat) -> Seq<char>
    decreases n,
{
    if n < 10 {
        seq![digit_char(n)]
    } else {
        decimal(n / 10).push(digit_char(n % 10))
    }
}

/// `host`, then `:port` if a port is given.
pub open spec fn host_field(host: Seq<char>, port: Option<u16>) -> Seq<char> {
    match port {
        Some(p) => host + seq![':'] + decimal(p as nat),
        None => host,
    }
}

/// The opening request: request line and the five header lines in this
/// order, each ended by CRLF, then an empty line and no body.
pub open spec fn request_text(target: Target, key: Seq<char>) -> Seq<char> {
    "GET "@ + target.path_and_query@ + " HTTP/1.1\r\nHost: "@ + host_field(target.host@, target.port)
        + "\r\nUpgrade: websocket\r\nConnection: Upgrade\r\nSec-WebSocket-Key: "@ + key
        + "\r\nSec-WebSocket-Version: 13\r\n\r\n"@
}

/// SHA-1 digest of a byte string.
pub uninterp spec fn sha1_of(b: Seq<u8>) -> Seq<u8>;

/// The Base64 digit for a 6-bit value, in the standard alphabet.
pub open spec fn base64_digit(v: nat) -> char {
    "ABCDEFGHIJKLMNOPQRSTUVWXYZabcdefghijklmnopqrstuvwxyz0123456789+/"@[v as int]
}

/// Standard-alphabet Base64 text of a byte string: each group of three
/// bytes gives four digits; a final group of one or two bytes is padded
/// with `=` to four characters.
pub open spec fn base64_of(b: Seq<u8>) -> Seq<char>
    decreases b.len(),
{
    if b.len() == 0 {
        seq![]
    } else if b.len() == 1 {
        seq![base64_digit(b[0] as nat / 4), base64_digit((b[0] as nat % 4) * 16), '=', '=']
    } else if b.len() == 2 {
        seq![
            base64_digit(b[0] as nat / 4),
            base64_digit((b[0] as nat % 4) * 16 + b[1] as nat / 16),
            base64_digit((b[1] as nat % 16) * 4),
            '=',
        ]
    } else {
        seq![
            base64_digit(b[0] as nat / 4),
            base64_digit((b[0] as nat % 4) * 16 + b[1] as nat / 16),
            base64_digit((b[1] as nat % 16) * 4 + b[2] as nat / 64),
            base64_digit(b[2] as nat % 64),
        ] + base64_of(b.skip(3))
    }
}

/// Relies on sha1::Sha1 through digest::Digest::digest: the 20-byte SHA-1
/// digest of the input.
#[verifier::external_body]
fn sha1_digest(b: &[u8]) -> (r: Vec<u8>)
    ensures
        r@ == sha1_of(b@),
        r@.len() == 20,
{
    <sha1::Sha1 as sha1::Digest>::digest(b).to_vec()
}

/// Relies on base64::Engine::encode with the STANDARD engine: padded
/// standard-alphabet Base64 (RFC 4648, section 4). It panics only when the
/// encoded length overflows `usize`.
#[verifier::external_body]
fn base64_encode(b: &[u8]) -> (r: String)
    requires
        b@.len() < 0x1000_0000,
    ensures
        r@ == base64_of(b@),
{
    base64::Engine::encode(&base64::prelude::BASE64_STANDARD, b)
}

/// Relies on rand::random: a value from the thread-local generator, which
/// is seeded from the operating system and is cryptographically secure.
/// Nothing is known of the value.
pub assume_specification<T>[ rand::random::<T> ]() -> (r: T)
    where
        rand::distr::StandardUniform: rand::distr::Distribution<T>,
;

fn digit_str(d: u16) -> (r: &'static str)
    requires
        d < 10,
    ensures
        r@ == seq![digit_char(d as nat)],
{
    match d {
        0 => {
            proof {
                reveal_strlit("0");
            }
            "0"
        },
        1 => {
            proof {
                reveal_strlit("1");
            }
            "1"
        },
        2 => {
            proof {
                reveal_strlit("2");
            }
            "2"
        },
        3 => {
            proof {
                reveal_strlit("3");
            }
            "3"
        },
        4 => {
            proof {
                reveal_strlit("4");
            }
            "4"
        },
        5 => {
            proof {
                reveal_strlit("5");
            }
            "5"
        },
        6 => {
            proof {
                reveal_strlit("6");
            }
            "6"
        },
        7 => {
            proof {
                reveal_strlit("7");
            }
            "7"
        },
        8 => {
            proof {
                reveal_strlit("8");
            }
            "8"
        },
        _ => {
            proof {
                reveal_strlit("9");
            }
            "9"
        },
    }
}

fn append_decimal(s: &mut String, n: u16)
    ensures
        final(s)@ == old(s)@ + decimal(n as nat),
    decreases n,
{
    if n >= 10 {
        append_decimal(s, n / 10);
    }
    s.append(digit_str(n % 10));
    proof {
        if n >= 10 {
            assert(decimal(n as nat) == decimal((n / 10) as nat).push(digit_char((n % 10) as nat)));
        }
    }
    assert(s@ =~= old(s)@ + decimal(n as nat));
}

/// The text of the opening request for `target` with key `key`.
pub fn http_request(target: &Target, key: &str) -> (r: String)
    ensures
        r@ == request_text(*target, key@),
{
    let mut s = String::new();
    s.append("GET ");
    s.append(target.path_and_query.as_str());
    s.append(" HTTP/1.1\r\nHost: ");
    s.append(target.host.as_str());
    match target.port {
        Some(p) => {
            s.append(":");
            append_decimal(&mut s, p);
            proof {
                reveal_strlit(":");
            }
        },
        None => {},
    }
    s.append("\r\nUpgrade: websocket\r\nConnection: Upgrade\r\nSec-WebSocket-Key: ");
    s.append(key);
    s.append("\r\nSec-WebSocket-Version: 13\r\n\r\n");
    assert(s@ =~= request_text(*target, key@));
    s
}

/// The `Sec-WebSocket-Accept` value owed for `key`: the Base64 text of the
/// SHA-1 digest of the key followed by the GUID.
pub open spec fn accept_of(key: Seq<char>) -> Seq<char> {
    base64_of(sha1_of(vstd::utf8::encode_utf8(key + ACCEPT_GUID@)))
}

/// Computes the `Sec-WebSocket-Accept` value the server must answer `key`
/// with.
pub fn accept_key(key: &str) -> (r: String)
    ensures
        r@ == accept_of(key@),
{
    let mut s = String::new();
    s.append(key);
    s.append(ACCEPT_GUID);
    let digest = sha1_digest(s.as_str().as_bytes());
    base64_encode(digest.as_slice())
}

/// The `Sec-WebSocket-Key` header value for 16 key bytes.
pub fn encode_key(bytes: [u8; 16]) -> (r: String)
    ensures
        r@ == base64_of(bytes@),
{
    base64_encode(bytes.as_slice())
}

/// A fresh `Sec-WebSocket-Key`: 16 random bytes, Base64-encoded.
pub fn generate_key() -> (r: String)
    ensures
        exists|b: Seq<u8>| b.len() == 16 && r@ == base64_of(b),
{
    let bytes: [u8; 16] = rand::random::<[u8; 16]>();
    encode_key(bytes)
}

/// A fresh masking key for an outgoing frame.
pub fn generate_mask() -> [u8; 4] {
    rand::random::<[u8; 4]>()
}

pub open spec fn ascii_lower(b: u8) -> u8 {
    if 0x41 <= b <= 0x5A {
        (b + 0x20) as u8
    } else {
        b
    }
}

/// `needle` occurs in `hay`, ASCII letters compared without regard to case.
pub open spec fn contains_ignore_case(hay: Seq<u8>, needle: Seq<u8>) -> bool {
    exists|i: int| 0 <= i && i + needle.len() <= hay.len() && matches_at(hay, needle, i)
}

pub open spec fn matches_at(hay: Seq<u8>, needle: Seq<u8>, i: int) -> bool {
    forall|j: int| 0 <= j < needle.len() ==> ascii_lower(#[trigger] hay[i + j]) == ascii_lower(needle[j])
}

/// The response's status line says `HTTP/1.1 101`.
pub open spec fn status_ok(response: Seq<u8>) -> bool {
    let prefix = vstd::utf8::encode_utf8("HTTP/1.1 101"@);
    prefix.len() <= response.len() && response.take(prefix.len() as int) == prefix
}

/// The response carries `Sec-WebSocket-Accept: <expected>`, in any case.
pub open spec fn accept_present(response: Seq<u8>, expected: Seq<char>) -> bool {
    contains_ignore_case(response, vstd::utf8::encode_utf8("Sec-WebSocket-Accept: "@ + expected))
}

fn lower(b: u8) -> (r: u8)
    ensures
        r == ascii_lower(b),
{
    if 0x41 <= b && b <= 0x5A {
        b + 0x20
    } else {
        b
    }
}

fn matches_at_exec(hay: &[u8], needle: &[u8], i: usize) -> (r: bool)
    requires
        i + needle@.len() <= hay@.len(),
    ensures
        r == matches_at(hay@, needle@, i as int),
{
    let n: usize = hay.len();
    let mut j: usize = 0;
    while j < needle.len()
        invariant
            hay@.len() == n,
            j <= needle@.len(),
            i + needle@.len() <= hay@.len(),
            forall|q: int| 0 <= q < j ==> ascii_lower(#[trigger] hay@[i + q]) == ascii_lower(needle@[q]),
        decreases needle@.len() - j,
    {
        if lower(hay[i + j]) != lower(needle[j]) {
            assert(!(ascii_lower(hay@[i + j as int]) == ascii_lower(needle@[j as int])));
            return false;
        }
        j = j + 1;
    }
    true
}

/// Whether `needle` occurs in `hay`, ASCII letters compared without regard
/// to case.
pub fn contains_ignoring_case(hay: &[u8], needle: &[u8]) -> (r: bool)
    ensures
        r == contains_ignore_case(hay@, needle@),
{
    if needle.len() == 0 {
        assert(matches_at(hay@, needle@, 0));
        return true;
    }
    if needle.len() > hay.len() {
        return false;
    }
    let n: usize = hay.len();
    let last: usize = n - needle.len();
    let mut i: usize = 0;
    while i <= last
        invariant
            needle@.len() > 0,
            hay@.len() == n,
            last + needle@.len() == hay@.len(),
            forall|q: int| 0 <= q < i ==> !matches_at(hay@, needle@, q),
        decreases last + 1 - i,
    {
        if matches_at_exec(hay, needle, i) {
            return true;
        }
        i = i + 1;
    }
    false
}

/// Checks a complete handshake response against the accept value owed.
pub fn verify_response(response: &str, expected_accept: &str) -> (r: Result<(), ConnectError>)
    ensures
        r is Ok <==> status_ok(response.spec_bytes()) && accept_present(
            response.spec_bytes(),
            expected_accept@,
        ),
        !status_ok(response.spec_bytes()) ==> (r matches Err(
            ConnectError::InvalidHandshakeResponse(s),
        ) && s@ == response@),
        status_ok(response.spec_bytes()) && !accept_present(
            response.spec_bytes(),
            expected_accept@,
        ) ==> (r matches Err(ConnectError::InvalidWebSocketAcceptHeader)),
{
    let bytes = response.as_bytes();
    let prefix = "HTTP/1.1 101".as_bytes();
    assert(prefix@ == vstd::utf8::encode_utf8("HTTP/1.1 101"@));
    if prefix.len() > bytes.len() {
        return Err(ConnectError::InvalidHandshakeResponse(response.to_owned()));
    }
    let mut i: usize = 0;
    while i < prefix.len()
        invariant
            i <= prefix@.len() <= bytes@.len(),
            prefix@ == vstd::utf8::encode_utf8("HTTP/1.1 101"@),
            bytes@ == response.spec_bytes(),
            forall|q: int| 0 <= q < i ==> bytes@[q] == prefix@[q],
        decreases prefix@.len() - i,
    {
        if bytes[i] != prefix[i] {
            assert(bytes@.take(prefix@.len() as int)[i as int] != prefix@[i as int]);
            assert(!status_ok(bytes@));
            return Err(ConnectError::InvalidHandshakeResponse(response.to_owned()));
        }
        i = i + 1;
    }
    assert(bytes@.take(prefix@.len() as int) =~= prefix@);
    let mut line = String::new();
    line.append("Sec-WebSocket-Accept: ");
    line.append(expected_accept);
    if contains_ignoring_case(bytes, line.as_str().as_bytes()) {
        Ok(())
    } else {
        Err(ConnectError::InvalidWebSocketAcceptHeader)
    }
}

/// Checks a complete handshake response for the request sent with `key`.
pub fn check_response(response: &str, key: &str) -> (r: Result<(), ConnectError>)
    ensures
        r is Ok <==> status_ok(response.spec_bytes()) && accept_present(
            response.spec_bytes(),
            accept_of(key@),
        ),
        !status_ok(response.spec_bytes()) ==> (r matches Err(
            ConnectError::InvalidHandshakeResponse(s),
        ) && s@ == response@),
        status_ok(response.spec_bytes()) && !accept_present(response.spec_bytes(), accept_of(key@))
            ==> (r matches Err(ConnectError::InvalidWebSocketAcceptHeader)),
{
    let expected = accept_key(key);
    verify_response(response, expected.as_str())
}

/// Whether a response line of `bytes_read` bytes ends the header block: an
/// empty line, CRLF alone, is at most two bytes.
pub fn ends_header_block(bytes_read: usize) -> (r: bool)
    ensures
        r == (bytes_read <= 2),
{
    bytes_read <= 2
}

} // verus!
