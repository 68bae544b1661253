//! The HTTP side of the shared port: which surface a request goes to, the
//! pairing API's decisions, and the small parsers they need. Reading the
//! socket and writing replies is left to the caller.

use vstd::prelude::*;
use crate::codes::{code_for, generate_token, token_for};
use crate::handshake::{header, header_of, strip_cr, strip_line};
use crate::store::{
    confirm_matches, spec_confirm, spec_request, token_free, StateDb, PAIRING_TTL,
};
use crate::text::{ascii_lower, push_char, split, split_chars, starts_with_lower, str_eq};

verus! {

/// The extension of a path: what follows its last dot (the whole path when
/// it has none).
pub open spec fn extension(path: Seq<char>) -> Seq<char> {
    split(path, '.').last()
}

pub open spec fn mime_of(ext: Seq<char>) -> Seq<char> {
    if ext == "html"@ {
        "text/html"@
    } else if ext == "css"@ {
        "text/css"@
    } else if ext == "js"@ {
        "application/javascript"@
    } else if ext == "json"@ {
        "application/json"@
    } else if ext == "png"@ {
        "image/png"@
    } else if ext == "jpg"@ || ext == "jpeg"@ {
        "image/jpeg"@
    } else if ext == "gif"@ {
        "image/gif"@
    } else if ext == "svg"@ {
        "image/svg+xml"@
    } else if ext == "ico"@ {
        "image/x-icon"@
    } else if ext == "woff"@ {
        "font/woff"@
    } else if ext == "woff2"@ {
        "font/woff2"@
    } else {
        "application/octet-stream"@
    }
}

/// The content type served for a file path.
pub fn mime_type(path: &str) -> (r: &'static str)
    ensures
        r@ == mime_of(extension(path@)),
{
    let pieces = split_chars(path, '.');
    proof {
        crate::text::lemma_split_nonempty(path@, '.');
    }
    let last = pieces.len() - 1;
    let ext = pieces[last].as_str();
    assert(ext@ == extension(path@));
    if str_eq(ext, "html") {
        "text/html"
    } else if str_eq(ext, "css") {
        "text/css"
    } else if str_eq(ext, "js") {
        "application/javascript"
    } else if str_eq(ext, "json") {
        "application/json"
    } else if str_eq(ext, "png") {
        "image/png"
    } else if str_eq(ext, "jpg") || str_eq(ext, "jpeg") {
        "image/jpeg"
    } else if str_eq(ext, "gif") {
        "image/gif"
    } else if str_eq(ext, "svg") {
        "image/svg+xml"
    } else if str_eq(ext, "ico") {
        "image/x-icon"
    } else if str_eq(ext, "woff") {
        "font/woff"
    } else if str_eq(ext, "woff2") {
        "font/woff2"
    } else {
        "application/octet-stream"
    }
}

/// The value of a hexadecimal digit, either case; -1 for other characters.
pub open spec fn hex_val(c: char) -> int {
    if '0' <= c && c <= '9' {
        c as int - '0' as int
    } else if 'a' <= c && c <= 'f' {
        c as int - 'a' as int + 10
    } else if 'A' <= c && c <= 'F' {
        c as int - 'A' as int + 10
    } else {
        -1
    }
}

/// A byte written as one or two hexadecimal digits, optionally after a plus
/// sign, as `u8::from_str_radix(_, 16)` reads it.
pub open spec fn hex_byte(h: Seq<char>) -> Option<u8> {
    if h.len() == 1 && hex_val(h[0]) >= 0 {
        Some(hex_val(h[0]) as u8)
    } else if h.len() == 2 && hex_val(h[0]) >= 0 && hex_val(h[1]) >= 0 {
        Some((hex_val(h[0]) * 16 + hex_val(h[1])) as u8)
    } else if h.len() == 2 && h[0] == '+' && hex_val(h[1]) >= 0 {
        Some(hex_val(h[1]) as u8)
    } else {
        None
    }
}

/// Form decoding: `+` is a space; `%` and the (up to) two characters after
/// it are the byte they spell, taken as a character, or nothing when they
/// spell none; everything else stands for itself.
pub open spec fn url_decode(s: Seq<char>) -> Seq<char>
    decreases s.len(),
{
    if s.len() == 0 {
        Seq::empty()
    } else if s[0] == '%' {
        let k = if s.len() < 3 {
            s.len() as int
        } else {
            3
        };
        let b = match hex_byte(s.subrange(1, k)) {
            Some(b) => seq![b as char],
            None => Seq::empty(),
        };
        b + url_decode(s.subrange(k, s.len() as int))
    } else if s[0] == '+' {
        seq![' '] + url_decode(s.drop_first())
    } else {
        seq![s[0]] + url_decode(s.drop_first())
    }
}

fn hex_digit_value(c: char) -> (r: i32)
    ensures
        r == hex_val(c),
{
    if '0' <= c && c <= '9' {
        (c as u8 - 48) as i32
    } else if 'a' <= c && c <= 'f' {
        (c as u8 - 97 + 10) as i32
    } else if 'A' <= c && c <= 'F' {
        (c as u8 - 65 + 10) as i32
    } else {
        -1
    }
}

fn parse_hex_byte(s: &str, from: usize, to: usize) -> (r: Option<u8>)
    requires
        from <= to <= s@.len(),
        to - from <= 2,
    ensures
        r == hex_byte(s@.subrange(from as int, to as int)),
{
    let ghost h = s@.subrange(from as int, to as int);
    if to - from == 1 {
        let a = hex_digit_value(s.get_char(from));
        assert(h[0] == s@[from as int]);
        if a >= 0 {
            return Some(a as u8);
        }
        return None;
    }
    if to - from == 2 {
        let c0 = s.get_char(from);
        let a = hex_digit_value(c0);
        let b = hex_digit_value(s.get_char(from + 1));
        assert(h[0] == s@[from as int]);
        assert(h[1] == s@[from + 1]);
        if a >= 0 && b >= 0 {
            return Some((a * 16 + b) as u8);
        }
        if c0 == '+' && b >= 0 {
            return Some(b as u8);
        }
        return None;
    }
    None
}

/// Decodes form-encoded text.
pub fn urlencoded_decode(s: &str) -> (r: String)
    ensures
        r@ == url_decode(s@),
{
    let n = s.unicode_len();
    let mut out = String::new();
    let mut i: usize = 0;
    assert(s@.subrange(0, n as int) =~= s@);
    while i < n
        invariant
            n == s@.len(),
            i <= n,
            out@ + url_decode(s@.subrange(i as int, n as int)) == url_decode(s@),
        decreases n - i,
    {
        let ghost rest = s@.subrange(i as int, n as int);
        let ghost before = out@;
        let c = s.get_char(i);
        assert(rest[0] == c);
        if c == '%' {
            let k: usize = if n - i < 3 {
                n - i
            } else {
                3
            };
            assert(rest.subrange(1, k as int) =~= s@.subrange(i + 1, i + k));
            assert(rest.subrange(k as int, rest.len() as int) =~= s@.subrange(i + k, n as int));
            match parse_hex_byte(s, i + 1, i + k) {
                Some(b) => {
                    push_char(&mut out, b as char);
                },
                None => {},
            }
            assert(out@ + url_decode(s@.subrange(i + k, n as int)) =~= before + url_decode(rest));
            i = i + k;
        } else {
            assert(rest.drop_first() =~= s@.subrange(i + 1, n as int));
            if c == '+' {
                push_char(&mut out, ' ');
            } else {
                push_char(&mut out, c);
            }
            assert(out@ + url_decode(s@.subrange(i + 1, n as int)) =~= before + url_decode(rest));
            i = i + 1;
        }
    }
    assert(out@ =~= url_decode(s@));
    out
}

/// Position of the first `c` in `s`, or -1.
pub open spec fn find_char(s: Seq<char>, c: char) -> int
    decreases s.len(),
{
    if s.len() == 0 {
        -1
    } else if s[0] == c {
        0
    } else if find_char(s.drop_first(), c) < 0 {
        -1
    } else {
        find_char(s.drop_first(), c) + 1
    }
}

/// Finds the first `c` in `s`.
pub fn find_first(s: &str, c: char) -> (r: Option<usize>)
    ensures
        match r {
            Some(k) => find_char(s@, c) == k as int && k < s@.len(),
            None => find_char(s@, c) == -1,
        },
{
    let n = s.unicode_len();
    let mut i: usize = 0;
    while i < n
        invariant
            n == s@.len(),
            i <= n,
            forall|j: int| 0 <= j < i ==> s@[j] != c,
        decreases n - i,
    {
        if s.get_char(i) == c {
            proof {
                lemma_find_char(s@, c, i as int);
            }
            return Some(i);
        }
        i = i + 1;
    }
    proof {
        lemma_find_char_none(s@, c);
    }
    None
}

proof fn lemma_find_char(s: Seq<char>, c: char, i: int)
    requires
        0 <= i < s.len(),
        s[i] == c,
        forall|j: int| 0 <= j < i ==> s[j] != c,
    ensures
        find_char(s, c) == i,
    decreases i,
{
    if i > 0 {
        lemma_find_char(s.drop_first(), c, i - 1);
    }
}

proof fn lemma_find_char_none(s: Seq<char>, c: char)
    requires
        forall|j: int| 0 <= j < s.len() ==> s[j] != c,
    ensures
        find_char(s, c) == -1,
    decreases s.len(),
{
    if s.len() > 0 {
        lemma_find_char_none(s.drop_first(), c);
    }
}

/// The characters of `s` from `from` to `to`.
pub fn substring(s: &str, from: usize, to: usize) -> (r: String)
    requires
        from <= to <= s@.len(),
    ensures
        r@ == s@.subrange(from as int, to as int),
{
    let mut out = String::new();
    let mut i: usize = from;
    while i < to
        invariant
            from <= i <= to <= s@.len(),
            out@ == s@.subrange(from as int, i as int),
        decreases to - i,
    {
        push_char(&mut out, s.get_char(i));
        i = i + 1;
        assert(out@ =~= s@.subrange(from as int, i as int));
    }
    out
}

/// The key and decoded value of each `key=value` piece of a query string,
/// in order; pieces without `=` are skipped. A later pair overrides an
/// earlier one with the same key.
pub open spec fn query_pairs(ps: Seq<Seq<char>>) -> Seq<(Seq<char>, Seq<char>)>
    decreases ps.len(),
{
    if ps.len() == 0 {
        Seq::empty()
    } else {
        let rest = query_pairs(ps.drop_last());
        let p = ps.last();
        let k = find_char(p, '=');
        if k >= 0 {
            rest.push((p.subrange(0, k), url_decode(p.subrange(k + 1, p.len() as int))))
        } else {
            rest
        }
    }
}

pub fn parse_query_string(query: &str) -> (r: Vec<(String, String)>)
    ensures
        r@.map_values(|kv: (String, String)| (kv.0@, kv.1@)) == query_pairs(split(query@, '&')),
{
    let pieces = split_chars(query, '&');
    let ghost ps = split(query@, '&');
    let n = pieces.len();
    let mut out: Vec<(String, String)> = Vec::new();
    let mut i: usize = 0;
    while i < n
        invariant
            n == pieces@.len(),
            ps == split(query@, '&'),
            pieces@.map_values(|p: String| p@) == ps,
            i <= n,
            out@.map_values(|kv: (String, String)| (kv.0@, kv.1@)) == query_pairs(
                ps.subrange(0, i as int),
            ),
        decreases n - i,
    {
        let ghost prev = out@.map_values(|kv: (String, String)| (kv.0@, kv.1@));
        let piece = pieces[i].as_str();
        assert(piece@ == ps[i as int]);
        assert(ps.subrange(0, i + 1).drop_last() =~= ps.subrange(0, i as int));
        let plen = piece.unicode_len();
        match find_first(piece, '=') {
            Some(k) => {
                let key = substring(piece, 0, k);
                let raw = substring(piece, k + 1, plen);
                let value = urlencoded_decode(raw.as_str());
                out.push((key, value));
                assert(out@.map_values(|kv: (String, String)| (kv.0@, kv.1@)) =~= prev.push(
                    (piece@.subrange(0, k as int), url_decode(piece@.subrange(k + 1, piece@.len() as int))),
                ));
            },
            None => {},
        }
        i = i + 1;
    }
    assert(ps.subrange(0, n as int) =~= ps);
    out
}

/// Where a request goes.
pub enum Route {
    /// A WebSocket upgrade: the connection becomes a peer.
    WebSocket,
    /// The request line has no target.
    BadRequest,
    /// The pairing and device API.
    Api { method: String, path: String },
    /// A static file requested with another method than `GET`.
    MethodNotAllowed,
    /// A static file, by its path below the public root.
    Static(String),
}

/// Some line of the request, without its carriage return, is
/// `Upgrade: websocket` in any case.
pub open spec fn is_upgrade(request: Seq<char>) -> bool {
    exists|i: int|
        0 <= i < split(request, '\n').len() && ascii_lower(strip_cr(#[trigger] split(request, '\n')[i]))
            == "upgrade: websocket"@
}

fn has_upgrade_line(request: &str) -> (r: bool)
    ensures
        r == is_upgrade(request@),
{
    let lines = split_chars(request, '\n');
    let ghost ls = split(request@, '\n');
    let n = lines.len();
    let m = "upgrade: websocket".unicode_len();
    let mut i: usize = 0;
    while i < n
        invariant
            n == lines@.len(),
            ls == split(request@, '\n'),
            lines@.map_values(|p: String| p@) == ls,
            m == "upgrade: websocket"@.len(),
            i <= n,
            forall|j: int|
                0 <= j < i ==> ascii_lower(strip_cr(#[trigger] ls[j])) != "upgrade: websocket"@,
        decreases n - i,
    {
        let line = strip_line(lines[i].as_str());
        assert(ls[i as int] == lines@[i as int]@);
        if line.as_str().unicode_len() == m && starts_with_lower(line.as_str(), "upgrade: websocket") {
            assert(line@.subrange(0, m as int) =~= line@);
            return true;
        }
        proof {
            if ascii_lower(line@) == "upgrade: websocket"@ {
                assert(line@.len() == m);
                assert(line@.subrange(0, m as int) =~= line@);
            }
        }
        i = i + 1;
    }
    false
}

pub open spec fn nonempty() -> spec_fn(Seq<char>) -> bool {
    |p: Seq<char>| p.len() > 0
}

/// The blank-separated words of a line.
pub open spec fn words(line: Seq<char>) -> Seq<Seq<char>> {
    split(line, ' ').filter(nonempty())
}

pub open spec fn request_line(request: Seq<char>) -> Seq<char> {
    strip_cr(split(request, '\n')[0])
}

/// A request target without its query string.
pub open spec fn path_of(target: Seq<char>) -> Seq<char> {
    if find_char(target, '?') >= 0 {
        target.subrange(0, find_char(target, '?'))
    } else {
        target
    }
}

pub open spec fn starts_with(s: Seq<char>, prefix: Seq<char>) -> bool {
    prefix.len() <= s.len() && s.subrange(0, prefix.len() as int) == prefix
}

/// `s` with every `..` taken out, left to right.
pub open spec fn remove_dotdot(s: Seq<char>) -> Seq<char>
    decreases s.len(),
{
    if s.len() >= 2 && s[0] == '.' && s[1] == '.' {
        remove_dotdot(s.subrange(2, s.len() as int))
    } else if s.len() == 0 {
        s
    } else {
        seq![s[0]] + remove_dotdot(s.drop_first())
    }
}

/// The file path served for a `GET`: the root names the console page, and
/// no path may climb out of the public root.
pub open spec fn static_path(path: Seq<char>) -> Seq<char> {
    remove_dotdot(
        if path == "/"@ {
            "/globalui.html"@
        } else {
            path
        },
    )
}

pub fn starts_with_str(s: &str, prefix: &str) -> (r: bool)
    ensures
        r == starts_with(s@, prefix@),
{
    let n = s.unicode_len();
    let m = prefix.unicode_len();
    if m > n {
        return false;
    }
    let mut i: usize = 0;
    while i < m
        invariant
            n == s@.len(),
            m == prefix@.len(),
            m <= n,
            i <= m,
            forall|j: int| 0 <= j < i ==> s@[j] == prefix@[j],
        decreases m - i,
    {
        if s.get_char(i) != prefix.get_char(i) {
            assert(s@.subrange(0, m as int)[i as int] != prefix@[i as int]);
            return false;
        }
        i = i + 1;
    }
    assert(s@.subrange(0, m as int) =~= prefix@);
    true
}

fn without_dotdot(s: &str) -> (r: String)
    ensures
        r@ == remove_dotdot(s@),
{
    let n = s.unicode_len();
    let mut out = String::new();
    let mut i: usize = 0;
    assert(s@.subrange(0, n as int) =~= s@);
    while i < n
        invariant
            n == s@.len(),
            i <= n,
            out@ + remove_dotdot(s@.subrange(i as int, n as int)) == remove_dotdot(s@),
        decreases n - i,
    {
        let ghost rest = s@.subrange(i as int, n as int);
        let ghost before = out@;
        let c = s.get_char(i);
        assert(rest[0] == c);
        if c == '.' && i + 1 < n && s.get_char(i + 1) == '.' {
            assert(rest[1] == '.');
            assert(rest.subrange(2, rest.len() as int) =~= s@.subrange(i + 2, n as int));
            i = i + 2;
        } else {
            assert(rest.drop_first() =~= s@.subrange(i + 1, n as int));
            push_char(&mut out, c);
            assert(out@ + remove_dotdot(s@.subrange(i + 1, n as int)) =~= before + remove_dotdot(
                rest,
            ));
            i = i + 1;
        }
    }
    out
}

fn words_of(line: &str) -> (r: Vec<String>)
    ensures
        r@.map_values(|p: String| p@) == words(line@),
{
    let pieces = split_chars(line, ' ');
    let ghost ps = split(line@, ' ');
    let n = pieces.len();
    let mut out: Vec<String> = Vec::new();
    let mut i: usize = 0;
    while i < n
        invariant
            n == pieces@.len(),
            ps == split(line@, ' '),
            pieces@.map_values(|p: String| p@) == ps,
            i <= n,
            out@.map_values(|p: String| p@) == ps.subrange(0, i as int).filter(nonempty()),
        decreases n - i,
    {
        let ghost prev = out@.map_values(|p: String| p@);
        proof {
            ps.subrange(0, i as int).lemma_filter_push(ps[i as int], nonempty());
            assert(ps.subrange(0, i + 1) =~= ps.subrange(0, i as int).push(ps[i as int]));
        }
        assert(pieces@[i as int]@ == ps[i as int]);
        if pieces[i].as_str().unicode_len() > 0 {
            out.push(pieces[i].clone());
            assert(out@.map_values(|p: String| p@) =~= prev.push(ps[i as int]));
        }
        i = i + 1;
    }
    assert(ps.subrange(0, n as int) =~= ps);
    out
}

/// Sends a request to the surface that serves it: any `Upgrade: websocket`
/// header (in any case) means a WebSocket; otherwise the request line
/// decides between the API, a static file and the refusals.
pub fn classify_request(request: &str) -> (r: Route)
    ensures
        is_upgrade(request@) ==> r is WebSocket,
        !is_upgrade(request@) ==> {
            let w = words(request_line(request@));
            if w.len() < 2 {
                r is BadRequest
            } else if starts_with(path_of(w[1]), "/api/"@) {
                r matches Route::Api { method, path } && method@ == w[0] && path@ == path_of(w[1])
            } else if w[0] != "GET"@ {
                r is MethodNotAllowed
            } else {
                r matches Route::Static(p) && p@ == static_path(path_of(w[1]))
            }
        },
{
    if has_upgrade_line(request) {
        return Route::WebSocket;
    }
    let lines = split_chars(request, '\n');
    proof {
        crate::text::lemma_split_nonempty(request@, '\n');
    }
    let first = strip_line(lines[0].as_str());
    assert(lines@[0]@ == split(request@, '\n')[0]);
    let parts = words_of(first.as_str());
    if parts.len() < 2 {
        return Route::BadRequest;
    }
    let method = parts[0].clone();
    let target = parts[1].as_str();
    assert(parts@[1]@ == words(request_line(request@))[1]);
    assert(parts@[0]@ == words(request_line(request@))[0]);
    let path = match find_first(target, '?') {
        Some(k) => substring(target, 0, k),
        None => substring(target, 0, target.unicode_len()),
    };
    assert(target@.subrange(0, target@.len() as int) =~= target@);
    if starts_with_str(path.as_str(), "/api/") {
        return Route::Api { method, path };
    }
    if !str_eq(method.as_str(), "GET") {
        return Route::MethodNotAllowed;
    }
    let file = if str_eq(path.as_str(), "/") {
        without_dotdot("/globalui.html")
    } else {
        without_dotdot(path.as_str())
    };
    Route::Static(file)
}

/// What an API request asks for.
pub enum ApiCall {
    Preflight,
    ListRequests,
    RequestPairing,
    ConfirmPairing,
    ListDevices,
    DeletePairing(String),
    DeleteDevice(String),
    NotFound,
}

/// `s` with every leading copy of `prefix` taken off.
pub open spec fn strip_prefixes(s: Seq<char>, prefix: Seq<char>) -> Seq<char>
    decreases s.len(),
{
    if prefix.len() > 0 && starts_with(s, prefix) {
        strip_prefixes(s.subrange(prefix.len() as int, s.len() as int), prefix)
    } else {
        s
    }
}

fn strip_prefixes_str(s: &str, prefix: &str) -> (r: String)
    ensures
        r@ == strip_prefixes(s@, prefix@),
{
    let n = s.unicode_len();
    let m = prefix.unicode_len();
    let mut rest = substring(s, 0, n);
    assert(s@.subrange(0, n as int) =~= s@);
    if m == 0 {
        return rest;
    }
    while starts_with_str(rest.as_str(), prefix)
        invariant
            m == prefix@.len(),
            m > 0,
            strip_prefixes(rest@, prefix@) == strip_prefixes(s@, prefix@),
        decreases rest@.len(),
    {
        let len = rest.as_str().unicode_len();
        rest = substring(rest.as_str(), m, len);
    }
    rest
}

/// Which endpoint an API request names.
pub fn route_api(method: &str, path: &str) -> (r: ApiCall)
    ensures
        method@ == "OPTIONS"@ ==> r is Preflight,
        method@ != "OPTIONS"@ ==> {
            if method@ == "GET"@ && path@ == "/api/pair/requests"@ {
                r is ListRequests
            } else if method@ == "POST"@ && path@ == "/api/pair/request"@ {
                r is RequestPairing
            } else if method@ == "POST"@ && path@ == "/api/pair/confirm"@ {
                r is ConfirmPairing
            } else if method@ == "GET"@ && path@ == "/api/devices"@ {
                r is ListDevices
            } else if method@ == "DELETE"@ && starts_with(path@, "/api/pair/"@) {
                r matches ApiCall::DeletePairing(id) && id@ == strip_prefixes(path@, "/api/pair/"@)
            } else if method@ == "DELETE"@ && starts_with(path@, "/api/devices/"@) {
                r matches ApiCall::DeleteDevice(id) && id@ == strip_prefixes(
                    path@,
                    "/api/devices/"@,
                )
            } else {
                r is NotFound
            }
        },
{
    if str_eq(method, "OPTIONS") {
        ApiCall::Preflight
    } else if str_eq(method, "GET") && str_eq(path, "/api/pair/requests") {
        ApiCall::ListRequests
    } else if str_eq(method, "POST") && str_eq(path, "/api/pair/request") {
        ApiCall::RequestPairing
    } else if str_eq(method, "POST") && str_eq(path, "/api/pair/confirm") {
        ApiCall::ConfirmPairing
    } else if str_eq(method, "GET") && str_eq(path, "/api/devices") {
        ApiCall::ListDevices
    } else if str_eq(method, "DELETE") && starts_with_str(path, "/api/pair/") {
        ApiCall::DeletePairing(strip_prefixes_str(path, "/api/pair/"))
    } else if str_eq(method, "DELETE") && starts_with_str(path, "/api/devices/") {
        ApiCall::DeleteDevice(strip_prefixes_str(path, "/api/devices/"))
    } else {
        ApiCall::NotFound
    }
}

/// The answer to a pairing API call, before it is written as JSON.
pub enum ApiReply {
    Pending { device_id: String },
    Paired { token: String, device_id: String },
    Error { status: u16, message: String },
}

pub open spec fn or_default(o: Option<Seq<char>>, d: Seq<char>) -> Seq<char> {
    match o {
        Some(s) => s,
        None => d,
    }
}

pub open spec fn opt_seq(o: Option<String>) -> Option<Seq<char>> {
    match o {
        Some(s) => Some(s@),
        None => None,
    }
}

/// `POST /api/pair/request`: a device asks to pair. The code goes to the
/// consoles, never into the reply.
pub fn pair_request(
    db: &mut StateDb,
    device_id: Option<String>,
    name: Option<String>,
    device_type: Option<String>,
    now: i64,
    entropy: u128,
) -> (r: ApiReply)
    requires
        old(db)@.wf(),
        now <= i64::MAX - PAIRING_TTL,
    ensures
        final(db)@.wf(),
        ({
            let id = or_default(opt_seq(device_id), Seq::empty());
            if id.len() == 0 {
                &&& final(db)@ == old(db)@
                &&& r matches ApiReply::Error { status, message } && status == 400 && message@
                    == "device_id required"@
            } else {
                &&& final(db)@ == spec_request(
                    old(db)@,
                    id,
                    or_default(opt_seq(name), "Unknown Device"@),
                    or_default(opt_seq(device_type), "unknown"@),
                    code_for(entropy),
                    now as int,
                )
                &&& r matches ApiReply::Pending { device_id: d } && d@ == id
            }
        }),
{
    let id = match device_id {
        Some(d) => d,
        None => String::new(),
    };
    if id.as_str().unicode_len() == 0 {
        return ApiReply::Error { status: 400, message: String::from_str("device_id required") };
    }
    let name = match name {
        Some(n) => n,
        None => String::from_str("Unknown Device"),
    };
    let device_type = match device_type {
        Some(t) => t,
        None => String::from_str("unknown"),
    };
    let _code = db.create_pairing_request(id.as_str(), name.as_str(), device_type.as_str(), now, entropy);
    ApiReply::Pending { device_id: id }
}

/// `POST /api/pair/confirm`: a device quotes its code (in any case) and,
/// while the code is valid, gets a fresh token drawn from `entropy`.
pub fn pair_confirm(
    db: &mut StateDb,
    device_id: Option<String>,
    code: Option<String>,
    now: i64,
    entropy: u128,
) -> (r: ApiReply)
    requires
        old(db)@.wf(),
    ensures
        final(db)@.wf(),
        ({
            let id = or_default(opt_seq(device_id), Seq::empty());
            let c = or_default(opt_seq(code), Seq::empty());
            if id.len() == 0 || c.len() == 0 {
                &&& final(db)@ == old(db)@
                &&& r matches ApiReply::Error { status, message } && status == 400 && message@
                    == "device_id and code required"@
            } else if confirm_matches(old(db)@, id, c, now as int) && token_free(
                old(db)@,
                id,
                token_for(entropy),
            ) {
                &&& final(db)@ == spec_confirm(old(db)@, id, now as int, token_for(entropy))
                &&& r matches ApiReply::Paired { token, device_id: d } && token@ == token_for(entropy)
                    && d@ == id
            } else {
                &&& final(db)@ == old(db)@
                &&& r matches ApiReply::Error { status, .. } && status == 400
                &&& !confirm_matches(old(db)@, id, c, now as int) ==> (r matches ApiReply::Error {
                    message,
                    ..
                } && message@ == "Invalid or expired code"@)
                &&& confirm_matches(old(db)@, id, c, now as int) ==> (r matches ApiReply::Error {
                    message,
                    ..
                } && message@ == "Token already in use"@)
            }
        }),
{
    let id = match device_id {
        Some(d) => d,
        None => String::new(),
    };
    let c = match code {
        Some(c) => c,
        None => String::new(),
    };
    if id.as_str().unicode_len() == 0 || c.as_str().unicode_len() == 0 {
        return ApiReply::Error {
            status: 400,
            message: String::from_str("device_id and code required"),
        };
    }
    let token = generate_token(entropy);
    match db.confirm_pairing(id.as_str(), c.as_str(), now, token) {
        Ok(t) => ApiReply::Paired { token: t, device_id: id },
        Err(e) => ApiReply::Error { status: 400, message: e },
    }
}

/// The reason phrase sent with a status code.
pub fn status_text(status: u16) -> (r: &'static str)
    ensures
        r@ == (if status == 200 {
            "OK"@
        } else if status == 204 {
            "No Content"@
        } else if status == 400 {
            "Bad Request"@
        } else if status == 403 {
            "Forbidden"@
        } else if status == 404 {
            "Not Found"@
        } else if status == 405 {
            "Method Not Allowed"@
        } else if status == 500 {
            "Internal Server Error"@
        } else {
            "Unknown"@
        }),
{
    if status == 200 {
        "OK"
    } else if status == 204 {
        "No Content"
    } else if status == 400 {
        "Bad Request"
    } else if status == 403 {
        "Forbidden"
    } else if status == 404 {
        "Not Found"
    } else if status == 405 {
        "Method Not Allowed"
    } else if status == 500 {
        "Internal Server Error"
    } else {
        "Unknown"
    }
}

pub open spec fn is_digit(c: char) -> bool {
    '0' <= c && c <= '9'
}

pub open spec fn all_digits(s: Seq<char>) -> bool {
    forall|i: int| 0 <= i < s.len() ==> is_digit(#[trigger] s[i])
}

/// The number that a string of decimal digits denotes.
pub open spec fn decimal_value(s: Seq<char>) -> int
    decreases s.len(),
{
    if s.len() == 0 {
        0
    } else {
        decimal_value(s.drop_last()) * 10 + (s.last() as int - '0' as int)
    }
}

pub open spec fn unsigned_digits(s: Seq<char>) -> Seq<char> {
    if s.len() > 0 && s[0] == '+' {
        s.drop_first()
    } else {
        s
    }
}

/// An unsigned size as `str::parse::<usize>` reads it: an optional plus
/// sign, then one or more decimal digits, and no overflow.
pub open spec fn parse_usize_of(s: Seq<char>) -> Option<int> {
    let d = unsigned_digits(s);
    if d.len() > 0 && all_digits(d) && decimal_value(d) <= usize::MAX {
        Some(decimal_value(d))
    } else {
        None
    }
}

proof fn lemma_decimal_prefix(d: Seq<char>, k: int)
    requires
        all_digits(d),
        0 <= k <= d.len(),
    ensures
        0 <= decimal_value(d.subrange(0, k)) <= decimal_value(d),
    decreases d.len() - k,
{
    if k < d.len() {
        lemma_decimal_prefix(d, k + 1);
        assert(d.subrange(0, k + 1).drop_last() =~= d.subrange(0, k));
        assert(is_digit(d[k]));
    } else {
        assert(d.subrange(0, k) =~= d);
        lemma_decimal_nonneg(d);
    }
}

proof fn lemma_decimal_nonneg(d: Seq<char>)
    requires
        all_digits(d),
    ensures
        decimal_value(d) >= 0,
    decreases d.len(),
{
    if d.len() > 0 {
        assert(all_digits(d.drop_last())) by {
            assert forall|i: int| 0 <= i < d.drop_last().len() implies is_digit(
                #[trigger] d.drop_last()[i],
            ) by {
                assert(d.drop_last()[i] == d[i]);
            }
        }
        lemma_decimal_nonneg(d.drop_last());
        assert(is_digit(d[d.len() - 1]));
    }
}

pub fn parse_usize(s: &str) -> (r: Option<usize>)
    ensures
        match r {
            Some(v) => parse_usize_of(s@) == Some(v as int),
            None => parse_usize_of(s@) is None,
        },
{
    let n = s.unicode_len();
    let start: usize = if n > 0 && s.get_char(0) == '+' {
        1
    } else {
        0
    };
    let ghost d = unsigned_digits(s@);
    assert(d =~= s@.subrange(start as int, n as int));
    if start == n {
        return None;
    }
    let mut v: usize = 0;
    let mut i: usize = start;
    while i < n
        invariant
            n == s@.len(),
            start <= i <= n,
            d == s@.subrange(start as int, n as int),
            d == unsigned_digits(s@),
            v as int == decimal_value(d.subrange(0, i - start)),
            all_digits(d.subrange(0, i - start)),
        decreases n - i,
    {
        let c = s.get_char(i);
        assert(d[i - start] == c);
        if !('0' <= c && c <= '9') {
            assert(!all_digits(d));
            return None;
        }
        let dg = (c as u8 - 48) as usize;
        let ghost k = (i - start) as int;
        assert(d.subrange(0, k + 1).drop_last() =~= d.subrange(0, k));
        assert(d.subrange(0, k + 1).last() == c);
        assert(dg as int == c as int - '0' as int);
        assert(decimal_value(d.subrange(0, k + 1)) == v as int * 10 + dg as int);
        assert(all_digits(d.subrange(0, k + 1))) by {
            assert forall|j: int| 0 <= j < k + 1 implies is_digit(#[trigger] d.subrange(0, k + 1)[j]) by {
                if j < k {
                    assert(d.subrange(0, k + 1)[j] == d.subrange(0, k)[j]);
                }
            }
        }
        if v > (usize::MAX - dg) / 10 {
            proof {
                let vv = v as int;
                let dd = dg as int;
                assert(vv * 10 + dd > usize::MAX) by (nonlinear_arith)
                    requires
                        vv > (usize::MAX - dd) / 10,
                        0 <= dd <= 9,
                ;
                if all_digits(d) {
                    lemma_decimal_prefix(d, k + 1);
                    assert(decimal_value(d) > usize::MAX);
                }
            }
            return None;
        }
        proof {
            let vv = v as int;
            let dd = dg as int;
            assert(vv * 10 + dd <= usize::MAX) by (nonlinear_arith)
                requires
                    vv <= (usize::MAX - dd) / 10,
                    0 <= dd <= 9,
            ;
        }
        v = v * 10 + dg;
        i = i + 1;
    }
    assert(d.subrange(0, n - start) =~= d);
    Some(v)
}

/// The body length that a request announces: its first `Content-Length`
/// header (in any case) read as a size, or 0 when there is none or it does
/// not read as one.
pub open spec fn content_length_of(request: Seq<char>) -> int {
    match header_of(request, "content-length:"@) {
        Some(v) => match parse_usize_of(v) {
            Some(n) => n,
            None => 0,
        },
        None => 0,
    }
}

pub fn content_length(request: &str) -> (r: usize)
    ensures
        r as int == content_length_of(request@),
{
    match header(request, "content-length:") {
        Some(v) => match parse_usize(v.as_str()) {
            Some(n) => n,
            None => 0,
        },
        None => 0,
    }
}

} // verus!
