//! The server side of the WebSocket opening handshake: the client's key is
//! read from the upgrade request and answered with
//! `base64(SHA-1(key ++ GUID))`.

use vstd::prelude::*;
use vstd::utf8::encode_utf8;
use crate::frame::push_all;
use crate::text::{push_char, split, split_chars, starts_with_lower, trim, trim_str, ascii_lower};

verus! {

/// The GUID that RFC 6455 appends to every client key.
pub const WS_GUID: &'static str = "258EAFA5-E914-47DA-95CA-C5AB0DC85B11";

/// The SHA-1 digest of a byte string.
pub uninterp spec fn sha1_of(data: Seq<u8>) -> Seq<u8>;

/// The character for a six-bit value in the standard base64 alphabet:
/// `A`..`Z`, `a`..`z`, `0`..`9`, `+`, `/`.
pub open spec fn b64_char(i: int) -> char {
    if i < 26 {
        (('A' as u32) + i) as char
    } else if i < 52 {
        (('a' as u32) + (i - 26)) as char
    } else if i < 62 {
        (('0' as u32) + (i - 52)) as char
    } else if i == 62 {
        '+'
    } else {
        '/'
    }
}

/// Base64 with the standard alphabet and `=` padding: each group of three
/// bytes becomes four characters of six bits each; a last group of one or
/// two bytes is filled with zero bits and padded to four characters.
pub open spec fn base64_std(d: Seq<u8>) -> Seq<char>
    decreases d.len(),
{
    if d.len() == 0 {
        Seq::empty()
    } else if d.len() == 1 {
        seq![b64_char(d[0] as int / 4), b64_char((d[0] as int % 4) * 16), '=', '=']
    } else if d.len() == 2 {
        seq![
            b64_char(d[0] as int / 4),
            b64_char((d[0] as int % 4) * 16 + d[1] as int / 16),
            b64_char((d[1] as int % 16) * 4),
            '=',
        ]
    } else {
        seq![
            b64_char(d[0] as int / 4),
            b64_char((d[0] as int % 4) * 16 + d[1] as int / 16),
            b64_char((d[1] as int % 16) * 4 + d[2] as int / 64),
            b64_char(d[2] as int % 64),
        ] + base64_std(d.subrange(3, d.len() as int))
    }
}

/// Relies on `sha1::Sha1` through `Digest::digest`: the SHA-1 digest of the
/// bytes; the output size of `Sha1` is 20 bytes.
#[verifier::external_body]
fn sha1_digest(data: &[u8]) -> (r: Vec<u8>)
    ensures
        r@ == sha1_of(data@),
        r@.len() == 20,
{
    <sha1::Sha1 as sha1::Digest>::digest(data).to_vec()
}

/// Relies on base64's `STANDARD` engine through `Engine::encode`: the standard
/// alphabet with `=` padding. Its size computation panics only for inputs
/// near `usize::MAX`, which the bound leaves out.
#[verifier::external_body]
fn base64_encode(data: &[u8]) -> (r: String)
    requires
        data@.len() <= 0x3fff_ffff,
    ensures
        r@ == base64_std(data@),
{
    base64::Engine::encode(&base64::engine::general_purpose::STANDARD, data)
}

/// The `Sec-WebSocket-Accept` value for a client key.
pub open spec fn accept_of(key: Seq<char>) -> Seq<char> {
    base64_std(sha1_of(encode_utf8(key) + encode_utf8(WS_GUID@)))
}

pub fn accept_key(key: &str) -> (r: String)
    ensures
        r@ == accept_of(key@),
{
    let mut buf: Vec<u8> = Vec::new();
    push_all(&mut buf, key.as_bytes());
    push_all(&mut buf, WS_GUID.as_bytes());
    let digest = sha1_digest(buf.as_slice());
    base64_encode(digest.as_slice())
}

pub open spec fn response_of(accept: Seq<char>) -> Seq<char> {
    "HTTP/1.1 101 Switching Protocols\r\nUpgrade: websocket\r\nConnection: Upgrade\r\nSec-WebSocket-Accept: "@
        + accept + "\r\n\r\n"@
}

/// The `101 Switching Protocols` reply that carries an accept value.
pub fn handshake_response(accept: &str) -> (r: String)
    ensures
        r@ == response_of(accept@),
{
    let mut r = String::from_str(
        "HTTP/1.1 101 Switching Protocols\r\nUpgrade: websocket\r\nConnection: Upgrade\r\nSec-WebSocket-Accept: ",
    );
    r.append(accept);
    r.append("\r\n\r\n");
    r
}

pub open spec fn strip_cr(l: Seq<char>) -> Seq<char> {
    if l.len() > 0 && l.last() == '\r' {
        l.drop_last()
    } else {
        l
    }
}

/// Whether a line starts with `name` (given in lower case), in any case.
pub open spec fn is_header_line(l: Seq<char>, name: Seq<char>) -> bool {
    name.len() <= l.len() && ascii_lower(l.subrange(0, name.len() as int)) == name
}

/// The first line, from the `i`-th on, that starts with header `name`.
pub open spec fn first_header_line(ls: Seq<Seq<char>>, i: int, name: Seq<char>) -> Option<
    Seq<char>,
>
    decreases ls.len() - i,
{
    if i < 0 || i >= ls.len() {
        None
    } else if is_header_line(strip_cr(ls[i]), name) {
        Some(strip_cr(ls[i]))
    } else {
        first_header_line(ls, i + 1, name)
    }
}

/// The value of a header line: the text after the first colon up to the
/// next one, without surrounding white space.
pub open spec fn header_value(l: Seq<char>) -> Option<Seq<char>> {
    if split(l, ':').len() >= 2 {
        Some(trim(split(l, ':')[1]))
    } else {
        None
    }
}

/// The value of the first line of `request` that starts with header `name`.
pub open spec fn header_of(request: Seq<char>, name: Seq<char>) -> Option<Seq<char>> {
    match first_header_line(split(request, '\n'), 0, name) {
        Some(l) => header_value(l),
        None => None,
    }
}

/// The client key: on the first header line whose name is
/// `Sec-WebSocket-Key` (in any case), the text after the first colon up to
/// the next one, without surrounding white space.
pub open spec fn websocket_key_of(request: Seq<char>) -> Option<Seq<char>> {
    header_of(request, "sec-websocket-key:"@)
}

/// A line without its trailing carriage return.
pub fn strip_line(s: &str) -> (r: String)
    ensures
        r@ == strip_cr(s@),
{
    let n = s.unicode_len();
    let end = if n > 0 && s.get_char(n - 1) == '\r' {
        n - 1
    } else {
        n
    };
    let mut out = String::new();
    let mut i: usize = 0;
    while i < end
        invariant
            n == s@.len(),
            end <= n,
            i <= end,
            out@ == s@.subrange(0, i as int),
        decreases end - i,
    {
        push_char(&mut out, s.get_char(i));
        i = i + 1;
        assert(out@ =~= s@.subrange(0, i as int));
    }
    assert(strip_cr(s@) =~= s@.subrange(0, end as int));
    out
}

/// Finds the first line of `request` that starts with header `name` (given
/// in lower case, with its colon) and reads its value.
pub fn header(request: &str, name: &str) -> (r: Option<String>)
    ensures
        match r {
            Some(v) => header_of(request@, name@) == Some(v@),
            None => header_of(request@, name@) is None,
        },
{
    let lines = split_chars(request, '\n');
    let ghost ls = split(request@, '\n');
    let n = lines.len();
    let mut i: usize = 0;
    while i < n
        invariant
            n == lines@.len(),
            ls == split(request@, '\n'),
            lines@.map_values(|p: String| p@) == ls,
            i <= n,
            first_header_line(ls, i as int, name@) == first_header_line(ls, 0, name@),
        decreases n - i,
    {
        let line = strip_line(lines[i].as_str());
        assert(ls[i as int] == lines@[i as int]@);
        if starts_with_lower(line.as_str(), name) {
            let parts = split_chars(line.as_str(), ':');
            if parts.len() >= 2 {
                let value = trim_str(parts[1].as_str());
                assert(split(line@, ':')[1] == parts@[1]@);
                return Some(value);
            }
            return None;
        }
        i = i + 1;
    }
    None
}

/// Reads the client key out of an upgrade request.
pub fn websocket_key(request: &str) -> (r: Option<String>)
    ensures
        match r {
            Some(k) => websocket_key_of(request@) == Some(k@),
            None => websocket_key_of(request@) is None,
        },
{
    header(request, "sec-websocket-key:")
}

/// The reply to an upgrade request, or an error when it carries no key.
pub fn handshake(request: &str) -> (r: Result<String, String>)
    ensures
        match websocket_key_of(request@) {
            Some(k) => r matches Ok(t) && t@ == response_of(accept_of(k)),
            None => r matches Err(e) && e@ == "Missing Sec-WebSocket-Key"@,
        },
{
    match websocket_key(request) {
        Some(key) => {
            let accept = accept_key(key.as_str());
            Ok(handshake_response(accept.as_str()))
        },
        None => Err(String::from_str("Missing Sec-WebSocket-Key")),
    }
}

} // verus!
