//! RFC 6455 framing, server side: encoding of unmasked frames, decoding of
//! (possibly masked) frames from a byte buffer, and the connection state
//! that answers pings and close requests.

use vstd::prelude::*;
use vstd::utf8::*;

verus! {

pub const OPCODE_TEXT: u8 = 0x1;

pub const OPCODE_CLOSE: u8 = 0x8;

pub const OPCODE_PING: u8 = 0x9;

pub const OPCODE_PONG: u8 = 0xA;

/// The `k` low-order bytes of `n`, most significant first.
pub open spec fn be_bytes(n: nat, k: nat) -> Seq<u8>
    decreases k,
{
    if k == 0 {
        Seq::empty()
    } else {
        be_bytes(n / 256, (k - 1) as nat).push((n % 256) as u8)
    }
}

/// The number that a big-endian byte string denotes.
pub open spec fn be_value(s: Seq<u8>) -> nat
    decreases s.len(),
{
    if s.len() == 0 {
        0
    } else {
        be_value(s.drop_last()) * 256 + s.last() as nat
    }
}

pub open spec fn pow256(k: nat) -> nat
    decreases k,
{
    if k == 0 {
        1
    } else {
        256 * pow256((k - 1) as nat)
    }
}

/// The length part of a server frame header: 7 bits, or the marker 126 and
/// 16 bits, or the marker 127 and 64 bits; the mask bit is clear.
pub open spec fn length_field(len: nat) -> Seq<u8> {
    if len < 126 {
        seq![len as u8]
    } else if len < 65536 {
        seq![126u8] + be_bytes(len, 2)
    } else {
        seq![127u8] + be_bytes(len, 8)
    }
}

/// A complete, unmasked, final frame as the server sends it.
pub open spec fn frame_bytes(opcode: u8, payload: Seq<u8>) -> Seq<u8> {
    seq![0x80u8 | opcode] + length_field(payload.len()) + payload
}

/// `payload[i] ^ key[i mod 4]` for each position.
pub open spec fn xor_mask(payload: Seq<u8>, key: Seq<u8>) -> Seq<u8> {
    Seq::new(payload.len(), |i: int| payload[i] ^ key[i % 4])
}

/// A complete frame as a client sends it: mask bit set, payload masked.
pub open spec fn masked_frame_bytes(opcode: u8, key: Seq<u8>, payload: Seq<u8>) -> Seq<u8> {
    let lf = length_field(payload.len());
    seq![0x80u8 | opcode] + seq![0x80u8 | lf[0]] + lf.drop_first() + key + xor_mask(payload, key)
}

pub open spec fn fin_bit(b: Seq<u8>) -> bool {
    b[0] & 0x80 != 0
}

pub open spec fn opcode_of(b: Seq<u8>) -> u8 {
    b[0] & 0x0F
}

pub open spec fn mask_bit(b: Seq<u8>) -> bool {
    b[1] & 0x80 != 0
}

pub open spec fn len7(b: Seq<u8>) -> u8 {
    b[1] & 0x7F
}

/// How many extended length bytes follow the first two header bytes.
pub open spec fn ext_size(b: Seq<u8>) -> int {
    if len7(b) == 126 {
        2
    } else if len7(b) == 127 {
        8
    } else {
        0
    }
}

pub open spec fn header_len(b: Seq<u8>) -> int {
    2 + ext_size(b) + if mask_bit(b) {
        4int
    } else {
        0int
    }
}

/// The payload length that the header announces (needs `2 + ext_size` bytes).
pub open spec fn declared_len(b: Seq<u8>) -> nat {
    if len7(b) < 126 {
        len7(b) as nat
    } else {
        be_value(b.subrange(2, 2 + ext_size(b)))
    }
}

/// The buffer starts with a whole frame.
pub open spec fn frame_ready(b: Seq<u8>) -> bool {
    &&& b.len() >= 2
    &&& b.len() >= 2 + ext_size(b)
    &&& b.len() >= header_len(b) + declared_len(b)
}

pub open spec fn mask_key(b: Seq<u8>) -> Seq<u8> {
    b.subrange(2 + ext_size(b), 2 + ext_size(b) + 4)
}

/// The payload of the frame at the start of the buffer, unmasked.
pub open spec fn frame_payload(b: Seq<u8>) -> Seq<u8> {
    let raw = b.subrange(header_len(b), header_len(b) + declared_len(b));
    if mask_bit(b) {
        xor_mask(raw, mask_key(b))
    } else {
        raw
    }
}

/// One decoded frame and the number of buffer bytes it took.
pub struct Frame {
    pub fin: bool,
    pub opcode: u8,
    pub payload: Vec<u8>,
    pub consumed: usize,
}

fn push_be(out: &mut Vec<u8>, n: u64, k: usize)
    requires
        k <= 8,
    ensures
        final(out)@ == old(out)@ + be_bytes(n as nat, k as nat),
    decreases k,
{
    if k > 0 {
        push_be(out, n / 256, k - 1);
        out.push((n % 256) as u8);
        assert(final(out)@ =~= old(out)@ + be_bytes(n as nat, k as nat));
    } else {
        assert(final(out)@ =~= old(out)@ + be_bytes(n as nat, k as nat));
    }
}

pub(crate) fn push_all(out: &mut Vec<u8>, bytes: &[u8])
    ensures
        final(out)@ == old(out)@ + bytes@,
{
    let n = bytes.len();
    let mut i: usize = 0;
    while i < n
        invariant
            n == bytes@.len(),
            i <= n,
            out@ == old(out)@ + bytes@.subrange(0, i as int),
        decreases n - i,
    {
        out.push(bytes[i]);
        i = i + 1;
        assert(out@ =~= old(out)@ + bytes@.subrange(0, i as int));
    }
    assert(bytes@.subrange(0, n as int) =~= bytes@);
}

/// Encodes one final, unmasked frame.
pub fn encode_frame(payload: &[u8], opcode: u8) -> (r: Vec<u8>)
    ensures
        r@ == frame_bytes(opcode, payload@),
{
    let len = payload.len();
    let mut frame: Vec<u8> = Vec::new();
    frame.push(0x80u8 | opcode);
    if len < 126 {
        frame.push(len as u8);
    } else if len < 65536 {
        frame.push(126u8);
        push_be(&mut frame, len as u64, 2);
    } else {
        frame.push(127u8);
        push_be(&mut frame, len as u64, 8);
    }
    assert(frame@ =~= seq![0x80u8 | opcode] + length_field(len as nat));
    push_all(&mut frame, payload);
    frame
}


proof fn lemma_pow256_mono(i: nat, j: nat)
    requires
        i <= j,
    ensures
        pow256(i) <= pow256(j),
    decreases j,
{
    if i < j {
        lemma_pow256_mono(i, (j - 1) as nat);
    }
}

proof fn lemma_pow256_eight()
    ensures
        pow256(2) == 65536,
        pow256(8) == 0x1_0000_0000_0000_0000,
{
    reveal_with_fuel(pow256, 9);
}

fn read_be(buf: &[u8], start: usize, k: usize) -> (r: u64)
    requires
        k <= 8,
        start + k <= buf@.len(),
    ensures
        r as nat == be_value(buf@.subrange(start as int, start + k)),
{
    let n = buf.len();
    let mut v: u64 = 0;
    let mut i: usize = 0;
    while i < k
        invariant
            n == buf@.len(),
            k <= 8,
            start + k <= buf@.len(),
            i <= k,
            v as nat == be_value(buf@.subrange(start as int, start + i)),
            (v as nat) < pow256(i as nat),
        decreases k - i,
    {
        let byte = buf[start + i];
        proof {
            lemma_pow256_mono((i + 1) as nat, 8);
            lemma_pow256_eight();
            let p = pow256(i as nat);
            let vv = v as nat;
            let bb = byte as nat;
            assert(vv * 256 + bb < 256 * p) by (nonlinear_arith)
                requires
                    vv < p,
                    bb < 256,
            ;
            let s1 = buf@.subrange(start as int, start + i + 1);
            assert(s1.drop_last() =~= buf@.subrange(start as int, start + i));
        }
        v = v * 256 + byte as u64;
        i = i + 1;
    }
    v
}

/// Decodes the frame at the start of `buf`; `None` while the buffer does not
/// yet hold a whole frame.
pub fn decode_frame(buf: &[u8]) -> (r: Option<Frame>)
    ensures
        r is None <==> !frame_ready(buf@),
        r matches Some(f) ==> {
            &&& f.fin == fin_bit(buf@)
            &&& f.opcode == opcode_of(buf@)
            &&& f.payload@ == frame_payload(buf@)
            &&& f.consumed == header_len(buf@) + declared_len(buf@)
        },
{
    let n = buf.len();
    if n < 2 {
        return None;
    }
    let b0 = buf[0];
    let b1 = buf[1];
    let fin = (b0 & 0x80) != 0;
    let opcode = b0 & 0x0F;
    let masked = (b1 & 0x80) != 0;
    let l7 = b1 & 0x7F;
    let ext: usize = if l7 == 126 {
        2
    } else if l7 == 127 {
        8
    } else {
        0
    };
    if n < 2 + ext {
        return None;
    }
    let len: u64 = if l7 < 126 {
        l7 as u64
    } else {
        read_be(buf, 2, ext)
    };
    let hlen: usize = 2 + ext + if masked {
        4
    } else {
        0
    };
    if n < hlen {
        return None;
    }
    if ((n - hlen) as u64) < len {
        return None;
    }
    let plen = len as usize;
    let ghost raw = buf@.subrange(hlen as int, hlen + plen);
    let mut payload: Vec<u8> = Vec::new();
    let mut i: usize = 0;
    while i < plen
        invariant
            n == buf@.len(),
            hlen + plen <= n,
            hlen == header_len(buf@),
            ext == ext_size(buf@),
            masked == mask_bit(buf@),
            raw == buf@.subrange(hlen as int, hlen + plen),
            i <= plen,
            payload@.len() == i,
            forall|j: int|
                0 <= j < i ==> #[trigger] payload@[j] == (if masked {
                    raw[j] ^ mask_key(buf@)[j % 4]
                } else {
                    raw[j]
                }),
        decreases plen - i,
    {
        let byte = buf[hlen + i];
        let out = if masked {
            byte ^ buf[2 + ext + i % 4]
        } else {
            byte
        };
        payload.push(out);
        i = i + 1;
    }
    assert(payload@ =~= frame_payload(buf@));
    Some(Frame { fin, opcode, payload, consumed: hlen + plen })
}


proof fn lemma_be_round_trip(n: nat, k: nat)
    requires
        n < pow256(k),
    ensures
        be_bytes(n, k).len() == k,
        be_value(be_bytes(n, k)) == n,
    decreases k,
{
    if k > 0 {
        let q = n / 256;
        let p = pow256((k - 1) as nat);
        assert(q < p) by (nonlinear_arith)
            requires
                n < 256 * p,
                q == n / 256,
        ;
        lemma_be_round_trip(q, (k - 1) as nat);
        assert(be_bytes(n, k).drop_last() =~= be_bytes(q, (k - 1) as nat));
    }
}

proof fn lemma_first_byte(opcode: u8)
    requires
        opcode < 16,
    ensures
        (0x80u8 | opcode) & 0x80 != 0,
        (0x80u8 | opcode) & 0x0F == opcode,
{
    assert((0x80u8 | opcode) & 0x80 != 0) by (bit_vector);
    assert((0x80u8 | opcode) & 0x0F == opcode) by (bit_vector)
        requires
            opcode < 16,
    ;
}

proof fn lemma_length_byte(x: u8)
    ensures
        x < 126 ==> x & 0x7F == x && x & 0x80 == 0,
        (0x80u8 | x) & 0x7F == x & 0x7F,
        (0x80u8 | x) & 0x80 != 0,
        126u8 & 0x7F == 126u8,
        126u8 & 0x80 == 0,
        127u8 & 0x7F == 127u8,
        127u8 & 0x80 == 0,
{
    assert(x < 126 ==> x & 0x7F == x && x & 0x80 == 0) by (bit_vector);
    assert((0x80u8 | x) & 0x7F == x & 0x7F) by (bit_vector);
    assert((0x80u8 | x) & 0x80 != 0) by (bit_vector);
    assert(126u8 & 0x7F == 126u8) by (bit_vector);
    assert(126u8 & 0x80 == 0) by (bit_vector);
    assert(127u8 & 0x7F == 127u8) by (bit_vector);
    assert(127u8 & 0x80 == 0) by (bit_vector);
}

/// What the length field of a frame header announces is the length it was
/// built from, with the extended bytes where the encoding puts them.
proof fn lemma_length_field(len: nat)
    requires
        len < 0x1_0000_0000_0000_0000,
    ensures
        length_field(len).len() >= 1,
        len < 126 ==> length_field(len) == seq![len as u8] && (len as u8) < 126,
        126 <= len < 65536 ==> length_field(len)[0] == 126u8 && length_field(len).len() == 3
            && be_value(length_field(len).drop_first()) == len,
        65536 <= len ==> length_field(len)[0] == 127u8 && length_field(len).len() == 9
            && be_value(length_field(len).drop_first()) == len,
{
    lemma_pow256_eight();
    if 126 <= len < 65536 {
        lemma_be_round_trip(len, 2);
        assert(length_field(len).drop_first() =~= be_bytes(len, 2));
    } else if 65536 <= len {
        lemma_be_round_trip(len, 8);
        assert(length_field(len).drop_first() =~= be_bytes(len, 8));
    }
}

/// A frame that the server encodes is read back whole by a decoder: FIN set,
/// no mask, the opcode it was given, and exactly its payload.
pub proof fn lemma_server_frame_round_trip(opcode: u8, payload: Seq<u8>)
    requires
        opcode < 16,
        payload.len() < 0x1_0000_0000_0000_0000,
    ensures
        frame_ready(frame_bytes(opcode, payload)),
        fin_bit(frame_bytes(opcode, payload)),
        opcode_of(frame_bytes(opcode, payload)) == opcode,
        !mask_bit(frame_bytes(opcode, payload)),
        frame_payload(frame_bytes(opcode, payload)) == payload,
        header_len(frame_bytes(opcode, payload)) + declared_len(frame_bytes(opcode, payload))
            == frame_bytes(opcode, payload).len(),
{
    let b = frame_bytes(opcode, payload);
    let len: int = payload.len() as int;
    let lf = length_field(len as nat);
    lemma_first_byte(opcode);
    lemma_length_field(len as nat);
    lemma_length_byte(lf[0]);
    assert(b[0] == 0x80u8 | opcode);
    assert(b[1] == lf[0]);
    let h: int = 1 + lf.len() as int;
    assert(b.subrange(2, h) =~= lf.drop_first());
    assert(header_len(b) == h);
    assert(declared_len(b) == len);
    assert(b.subrange(h, h + len) =~= payload);
}

/// A masked frame, as a client sends it, is decoded to the payload the client
/// masked: the mask is undone byte by byte.
pub proof fn lemma_client_frame_round_trip(opcode: u8, key: Seq<u8>, payload: Seq<u8>)
    requires
        opcode < 16,
        key.len() == 4,
        payload.len() < 0x1_0000_0000_0000_0000,
    ensures
        frame_ready(masked_frame_bytes(opcode, key, payload)),
        fin_bit(masked_frame_bytes(opcode, key, payload)),
        opcode_of(masked_frame_bytes(opcode, key, payload)) == opcode,
        mask_bit(masked_frame_bytes(opcode, key, payload)),
        frame_payload(masked_frame_bytes(opcode, key, payload)) == payload,
        header_len(masked_frame_bytes(opcode, key, payload)) + declared_len(
            masked_frame_bytes(opcode, key, payload),
        ) == masked_frame_bytes(opcode, key, payload).len(),
{
    let b = masked_frame_bytes(opcode, key, payload);
    let len: int = payload.len() as int;
    let lf = length_field(len as nat);
    lemma_first_byte(opcode);
    lemma_length_field(len as nat);
    lemma_length_byte(lf[0]);
    assert(b[0] == 0x80u8 | opcode);
    assert(b[1] == 0x80u8 | lf[0]);
    let e: int = lf.len() as int - 1;
    assert(b.subrange(2, 2 + e) =~= lf.drop_first());
    assert(ext_size(b) == e);
    assert(mask_key(b) =~= key);
    let h: int = 2 + e + 4;
    assert(header_len(b) == h);
    assert(declared_len(b) == len);
    let raw = b.subrange(h, h + len);
    assert(raw =~= xor_mask(payload, key));
    assert forall|i: int| 0 <= i < len implies #[trigger] xor_mask(raw, key)[i] == payload[i] by {
        let p = payload[i];
        let k = key[i % 4];
        assert((p ^ k) ^ k == p) by (bit_vector);
    }
    assert(xor_mask(raw, key) =~= payload);
}

/// A text message survives the trip through a frame in either direction:
/// the payload that is read back is valid UTF-8 and decodes to the message.
pub proof fn lemma_text_round_trip(text: Seq<char>, key: Seq<u8>)
    requires
        key.len() == 4,
        encode_utf8(text).len() < 0x1_0000_0000_0000_0000,
    ensures
        valid_utf8(frame_payload(frame_bytes(OPCODE_TEXT, encode_utf8(text)))),
        decode_utf8(frame_payload(frame_bytes(OPCODE_TEXT, encode_utf8(text)))) == text,
        valid_utf8(frame_payload(masked_frame_bytes(OPCODE_TEXT, key, encode_utf8(text)))),
        decode_utf8(frame_payload(masked_frame_bytes(OPCODE_TEXT, key, encode_utf8(text))))
            == text,
{
    lemma_server_frame_round_trip(OPCODE_TEXT, encode_utf8(text));
    lemma_client_frame_round_trip(OPCODE_TEXT, key, encode_utf8(text));
    encode_utf8_valid_utf8(text);
    encode_utf8_decode_utf8(text);
}

/// Relies on `String::from_utf8`: it accepts exactly the well-formed UTF-8
/// byte strings and keeps the characters they encode.
#[verifier::external_body]
fn utf8_to_string(bytes: Vec<u8>) -> (r: Option<String>)
    ensures
        r is Some <==> valid_utf8(bytes@),
        r matches Some(s) ==> s@ == decode_utf8(bytes@),
{
    String::from_utf8(bytes).ok()
}

/// Lifecycle of a connection: only an open connection reads or writes.
#[derive(Debug, Clone, Copy, PartialEq, Eq, Structural)]
pub enum State {
    Open,
    Closing,
    Closed,
}

/// The protocol side of one WebSocket connection. Frames that the server
/// must write (replies, messages, the close frame) are appended to
/// `outbox`, in order; the owner of the socket drains it.
pub struct WebSocket {
    pub state: State,
    pub outbox: Vec<u8>,
}

impl WebSocket {
    /// A connection whose handshake has just completed.
    pub fn new() -> (r: WebSocket)
        ensures
            r.state == State::Open,
            r.outbox@ == Seq::<u8>::empty(),
    {
        WebSocket { state: State::Open, outbox: Vec::new() }
    }

    /// Handles one decoded frame: a text frame yields its message, a close
    /// frame is echoed and closes the connection, a ping is answered with a
    /// pong carrying the same payload; anything else yields nothing.
    pub fn read(&mut self, frame: Frame) -> (r: Result<Option<String>, String>)
        ensures
            old(self).state != State::Open ==> {
                &&& r matches Ok(None)
                &&& final(self).state == old(self).state
                &&& final(self).outbox@ == old(self).outbox@
            },
            old(self).state == State::Open ==> {
                if frame.opcode == OPCODE_TEXT {
                    &&& final(self).state == State::Open
                    &&& final(self).outbox@ == old(self).outbox@
                    &&& (valid_utf8(frame.payload@) ==> (r matches Ok(Some(m)) && m@ == decode_utf8(
                        frame.payload@,
                    )))
                    &&& (!valid_utf8(frame.payload@) ==> r is Err)
                } else if frame.opcode == OPCODE_CLOSE {
                    &&& r matches Ok(None)
                    &&& final(self).state == State::Closed
                    &&& final(self).outbox@ == old(self).outbox@ + frame_bytes(
                        OPCODE_CLOSE,
                        frame.payload@,
                    )
                } else if frame.opcode == OPCODE_PING {
                    &&& r matches Ok(None)
                    &&& final(self).state == State::Open
                    &&& final(self).outbox@ == old(self).outbox@ + frame_bytes(
                        OPCODE_PONG,
                        frame.payload@,
                    )
                } else {
                    &&& r matches Ok(None)
                    &&& final(self).state == State::Open
                    &&& final(self).outbox@ == old(self).outbox@
                }
            },
    {
        if self.state != State::Open {
            return Ok(None);
        }
        if frame.opcode == OPCODE_TEXT {
            match utf8_to_string(frame.payload) {
                Some(text) => Ok(Some(text)),
                None => Err(String::from_str("invalid UTF-8 in text frame")),
            }
        } else if frame.opcode == OPCODE_CLOSE {
            self.state = State::Closing;
            let echo = encode_frame(frame.payload.as_slice(), OPCODE_CLOSE);
            push_all(&mut self.outbox, echo.as_slice());
            self.state = State::Closed;
            Ok(None)
        } else if frame.opcode == OPCODE_PING {
            let pong = encode_frame(frame.payload.as_slice(), OPCODE_PONG);
            push_all(&mut self.outbox, pong.as_slice());
            Ok(None)
        } else {
            Ok(None)
        }
    }

    /// Queues a text message; fails when the connection is not open.
    pub fn send(&mut self, message: &str) -> (r: Result<(), String>)
        ensures
            old(self).state == State::Open ==> {
                &&& r is Ok
                &&& final(self).state == State::Open
                &&& final(self).outbox@ == old(self).outbox@ + frame_bytes(
                    OPCODE_TEXT,
                    encode_utf8(message@),
                )
            },
            old(self).state != State::Open ==> {
                &&& r matches Err(e) && e@ == "Connection not open"@
                &&& final(self).state == old(self).state
                &&& final(self).outbox@ == old(self).outbox@
            },
    {
        if self.state != State::Open {
            return Err(String::from_str("Connection not open"));
        }
        let frame = encode_frame(message.as_bytes(), OPCODE_TEXT);
        push_all(&mut self.outbox, frame.as_slice());
        Ok(())
    }

    /// Sends an empty close frame once and closes the connection.
    pub fn close(&mut self)
        ensures
            old(self).state == State::Open ==> {
                &&& final(self).state == State::Closed
                &&& final(self).outbox@ == old(self).outbox@ + frame_bytes(
                    OPCODE_CLOSE,
                    Seq::empty(),
                )
            },
            old(self).state != State::Open ==> {
                &&& final(self).state == old(self).state
                &&& final(self).outbox@ == old(self).outbox@
            },
    {
        if self.state == State::Open {
            self.state = State::Closing;
            let empty: Vec<u8> = Vec::new();
            let frame = encode_frame(empty.as_slice(), OPCODE_CLOSE);
            push_all(&mut self.outbox, frame.as_slice());
            self.state = State::Closed;
        }
    }

    /// Hands over the queued bytes and leaves the queue empty.
    pub fn take_outbox(&mut self) -> (r: Vec<u8>)
        ensures
            r@ == old(self).outbox@,
            final(self).outbox@ == Seq::<u8>::empty(),
            final(self).state == old(self).state,
    {
        let mut out: Vec<u8> = Vec::new();
        out.append(&mut self.outbox);
        out
    }
}

} // verus!
