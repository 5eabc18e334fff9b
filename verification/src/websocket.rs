//! The WebSocket (RFC 6455 subset) frame codec: reading masked client
//! frames, assembling fragmented messages, unmasking, serializing
//! server frames, and the `Sec-WebSocket-Accept` computation for the
//! upgrade handshake.

use vstd::prelude::*;
use vstd::string::StringSliceAdditionalSpecFns;
use vstd::string::StringExecFns;
use vstd::utf8::{decode_utf8, valid_utf8};

use sha1::Digest;

use crate::http::slice_to_vec_u8;
use crate::server_G::SendTo;

verus! {

/// The error space of the WebSocket codec.  `WOULD_BLOCK` means a frame
/// is incomplete and more bytes may repair it; the rest are protocol
/// violations.
#[derive(Debug, PartialEq, Eq, Structural, Clone, Copy)]
pub enum WebSocketError {
    UNRESERVED,
    UNMASKED,
    BAD_OPCODE,
    BAD_CONTINUE,
    CUTTING_IN,
    NOT_VALID_UTF8,
    CLOSED_BY_CLIENT,
    WOULD_BLOCK,
    WET_HANDSHAKE,
    UNIMPLEMENTED,
}

/// A frame's opcode.
#[derive(Debug, PartialEq, Eq, Structural, Clone, Copy)]
pub enum OPCODE {
    Continuation,
    Text,
    Binary,
    Close,
    Ping,
    Pong,
}

/// The opcode table: the low four bits of a frame's first byte.
pub open spec fn spec_opcode(v: u8) -> Option<OPCODE> {
    if v == 0x00 {
        Some(OPCODE::Continuation)
    } else if v == 0x01 {
        Some(OPCODE::Text)
    } else if v == 0x02 {
        Some(OPCODE::Binary)
    } else if v == 0x08 {
        Some(OPCODE::Close)
    } else if v == 0x09 {
        Some(OPCODE::Ping)
    } else if v == 0x0a {
        Some(OPCODE::Pong)
    } else {
        None
    }
}

/// The wire value of an opcode.
pub open spec fn spec_opcode_byte(op: OPCODE) -> u8 {
    match op {
        OPCODE::Continuation => 0x00,
        OPCODE::Text => 0x01,
        OPCODE::Binary => 0x02,
        OPCODE::Close => 0x08,
        OPCODE::Ping => 0x09,
        OPCODE::Pong => 0x0a,
    }
}

impl OPCODE {
    /// Look the low four bits of a frame's first byte up in the opcode
    /// table.
    pub fn parse(value: u8) -> (r: Result<Self, WebSocketError>)
        ensures
            match r {
                Ok(op) => spec_opcode(value) == Some(op),
                Err(e) => spec_opcode(value) is None && e == WebSocketError::BAD_OPCODE,
            },
    {
        match value {
            0x00 => Ok(OPCODE::Continuation),
            0x01 => Ok(OPCODE::Text),
            0x02 => Ok(OPCODE::Binary),
            0x08 => Ok(OPCODE::Close),
            0x09 => Ok(OPCODE::Ping),
            0x0a => Ok(OPCODE::Pong),
            _ => Err(WebSocketError::BAD_OPCODE),
        }
    }

    /// The wire value of this opcode.
    pub fn to_byte(&self) -> (r: u8)
        ensures
            r == spec_opcode_byte(*self),
    {
        match self {
            OPCODE::Continuation => 0x00,
            OPCODE::Text => 0x01,
            OPCODE::Binary => 0x02,
            OPCODE::Close => 0x08,
            OPCODE::Ping => 0x09,
            OPCODE::Pong => 0x0a,
        }
    }
}

/// Powers of 256.
pub open spec fn pow256(i: int) -> int
    decreases i,
{
    if i <= 0 {
        1
    } else {
        256 * pow256(i - 1)
    }
}

proof fn lemma_pow256_values()
    ensures
        pow256(0) == 1,
        pow256(1) == 0x100,
        pow256(2) == 0x10000,
        pow256(7) == 0x100000000000000,
        pow256(8) == 0x10000000000000000,
{
    assert(pow256(0) == 1);
    assert(pow256(1) == 0x100);
    assert(pow256(2) == 0x10000);
    assert(pow256(3) == 0x1000000);
    assert(pow256(4) == 0x100000000);
    assert(pow256(5) == 0x10000000000);
    assert(pow256(6) == 0x1000000000000);
    assert(pow256(7) == 0x100000000000000);
    assert(pow256(8) == 0x10000000000000000);
}

proof fn lemma_pow256_pos(a: int)
    ensures
        pow256(a) >= 1,
    decreases a,
{
    if a > 0 {
        lemma_pow256_pos(a - 1);
    }
}

proof fn lemma_pow256_mono(a: int, b: int)
    requires
        0 <= a <= b,
    ensures
        1 <= pow256(a) <= pow256(b),
    decreases b,
{
    lemma_pow256_pos(a);
    if a < b {
        lemma_pow256_mono(a, b - 1);
        lemma_pow256_pos(b - 1);
    }
}

/// The big-endian value of a byte sequence.
pub open spec fn spec_be(s: Seq<u8>) -> int
    decreases s.len(),
{
    if s.len() == 0 {
        0
    } else {
        spec_be(s.take(s.len() - 1)) * 256 + s[s.len() - 1]
    }
}

proof fn lemma_be_bounds(s: Seq<u8>)
    ensures
        0 <= spec_be(s) < pow256(s.len() as int),
    decreases s.len(),
{
    if s.len() > 0 {
        lemma_be_bounds(s.take(s.len() - 1));
    }
}

/// Read a big-endian value of at most eight bytes.
fn be_value(s: &[u8]) -> (r: u64)
    requires
        s@.len() <= 8,
    ensures
        r as int == spec_be(s@),
{
    let n = s.len();
    let mut v: u64 = 0;
    let mut i: usize = 0;
    while i < n
        invariant
            n == s@.len() <= 8,
            i <= n,
            v as int == spec_be(s@.take(i as int)),
            (v as int) < pow256(i as int),
        decreases n - i,
    {
        proof {
            lemma_pow256_values();
            lemma_pow256_mono(i + 1, 8);
            assert(pow256(i + 1) == 256 * pow256(i as int));
            assert(s@.take(i + 1).take(i as int) =~= s@.take(i as int));
            assert(s@.take(i + 1)[i as int] == s@[i as int]);
        }
        v = v * 256 + (s[i] as u64);
        i = i + 1;
    }
    proof {
        assert(s@.take(n as int) =~= s@);
    }
    v
}

/// The big-endian encoding of `v` in `n` bytes.
pub open spec fn be_bytes(v: int, n: int) -> Seq<u8> {
    Seq::new(n as nat, |j: int| ((v / pow256(n - 1 - j)) % 256) as u8)
}

/// Unmasking (and masking, which is the same operation): each payload
/// byte XORed with the mask byte at its index modulo four.
pub open spec fn spec_unmask(p: Seq<u8>, k: Seq<u8>) -> Seq<u8> {
    Seq::new(p.len(), |i: int| p[i] ^ k[i % 4])
}

/// Masking then unmasking with the same four-byte key gives the payload
/// back, for every payload and key.
pub proof fn lemma_unmask_mask(p: Seq<u8>, k: Seq<u8>)
    requires
        k.len() == 4,
    ensures
        spec_unmask(spec_unmask(p, k), k) == p,
{
    assert forall|i: int| 0 <= i < p.len() implies spec_unmask(spec_unmask(p, k), k)[i] == p[i] by {
        let x = p[i];
        let y = k[i % 4];
        assert((x ^ y) ^ y == x) by (bit_vector);
    }
    assert(spec_unmask(spec_unmask(p, k), k) =~= p);
}

/// XOR a payload against a four-byte mask.
pub fn unmask_bytes(payload: &[u8], mask: &[u8]) -> (r: Vec<u8>)
    requires
        mask@.len() == 4,
    ensures
        r@ == spec_unmask(payload@, mask@),
{
    let mut out: Vec<u8> = Vec::new();
    let n = payload.len();
    let mut i: usize = 0;
    while i < n
        invariant
            n == payload@.len(),
            mask@.len() == 4,
            i <= n,
            out@ =~= spec_unmask(payload@, mask@).take(i as int),
        decreases n - i,
    {
        out.push(payload[i] ^ mask[i % 4]);
        i = i + 1;
    }
    proof {
        assert(spec_unmask(payload@, mask@).take(n as int) =~= spec_unmask(payload@, mask@));
    }
    out
}

/// One parsed frame: FIN flag, opcode, the client's mask key, and the
/// still-masked payload.
#[derive(Debug)]
pub struct Frame {
    pub fin: bool,
    pub opcode: OPCODE,
    pub mask_key: Option<Vec<u8>>,
    pub payload: Vec<u8>,
}

/// The mathematical content of a frame.
pub ghost struct FrameView {
    pub fin: bool,
    pub opcode: OPCODE,
    pub mask: Option<Seq<u8>>,
    pub payload: Seq<u8>,
}

impl View for Frame {
    type V = FrameView;

    open spec fn view(&self) -> FrameView {
        FrameView {
            fin: self.fin,
            opcode: self.opcode,
            mask: match self.mask_key {
                Some(ref k) => Some(k@),
                None => None,
            },
            payload: self.payload@,
        }
    }
}

/// The tail of frame parsing once the mask offset and payload length are
/// settled: a would-block if the payload is short, else the frame and
/// the bytes it spans.
pub open spec fn spec_frame_tail(b: Seq<u8>, fin: bool, op: OPCODE, moff: int, plen: int) -> Result<
    (FrameView, int),
    WebSocketError,
> {
    if b.len() - (moff + 4) < plen {
        Err(WebSocketError::WOULD_BLOCK)
    } else {
        Ok(
            (
                FrameView {
                    fin: fin,
                    opcode: op,
                    mask: Some(b.subrange(moff, moff + 4)),
                    payload: b.subrange(moff + 4, moff + 4 + plen),
                },
                moff + 4 + plen,
            ),
        )
    }
}

/// What reading one client frame from `b` yields: the frame and the
/// number of bytes it spans, or `WOULD_BLOCK` when incomplete, or the
/// violation found.  Reserved bits must be clear and the frame must be
/// masked.
pub open spec fn spec_read_frame(b: Seq<u8>) -> Result<(FrameView, int), WebSocketError> {
    if b.len() < 6 {
        Err(WebSocketError::WOULD_BLOCK)
    } else if b[0] & 0x70 != 0 {
        Err(WebSocketError::UNRESERVED)
    } else {
        match spec_opcode(b[0] & 0x0f) {
            None => Err(WebSocketError::BAD_OPCODE),
            Some(op) => {
                if b[1] & 0x80 == 0 {
                    Err(WebSocketError::UNMASKED)
                } else {
                    let fin = b[0] & 0x80 > 0;
                    let l7 = b[1] & 0x7f;
                    if l7 < 126 {
                        spec_frame_tail(b, fin, op, 2, l7 as int)
                    } else if l7 == 126 {
                        if b.len() < 8 {
                            Err(WebSocketError::WOULD_BLOCK)
                        } else {
                            spec_frame_tail(b, fin, op, 4, spec_be(b.subrange(2, 4)))
                        }
                    } else {
                        if b.len() < 14 {
                            Err(WebSocketError::WOULD_BLOCK)
                        } else {
                            spec_frame_tail(b, fin, op, 10, spec_be(b.subrange(2, 10)))
                        }
                    }
                }
            },
        }
    }
}

/// A parsed frame spans at least its six header bytes and at most the
/// whole input.
pub proof fn lemma_read_frame_bounds(b: Seq<u8>)
    ensures
        match spec_read_frame(b) {
            Ok((f, c)) => 6 <= c <= b.len(),
            Err(_) => true,
        },
{
    if b.len() >= 6 {
        lemma_be_bounds(b.subrange(2, 4));
        if b.len() >= 10 {
            lemma_be_bounds(b.subrange(2, 10));
        }
    }
}

/// Read one masked client frame from the front of `data`.
pub fn read_frame(data: &[u8]) -> (r: Result<(Frame, usize), WebSocketError>)
    ensures
        match r {
            Ok(p) => spec_read_frame(data@) == Ok::<_, WebSocketError>((p.0@, p.1 as int)) && 6
                <= p.1 <= data@.len(),
            Err(e) => spec_read_frame(data@) == Err::<(FrameView, int), _>(e),
        },
{
    let n = data.len();
    if n < 6 {
        return Err(WebSocketError::WOULD_BLOCK);
    }
    if data[0] & 0x70 != 0 {
        return Err(WebSocketError::UNRESERVED);
    }
    let opcode = match OPCODE::parse(data[0] & 0x0f) {
        Ok(op) => op,
        Err(e) => {
            return Err(e);
        },
    };
    if data[1] & 0x80 == 0 {
        return Err(WebSocketError::UNMASKED);
    }
    let fin = data[0] & 0x80 > 0;
    let l7 = data[1] & 0x7f;
    let mask_offset: usize;
    let payload_len: u64;
    if l7 < 126 {
        mask_offset = 2;
        payload_len = l7 as u64;
    } else if l7 == 126 {
        if n < 8 {
            return Err(WebSocketError::WOULD_BLOCK);
        }
        mask_offset = 4;
        payload_len = be_value(vstd::slice::slice_subrange(data, 2, 4));
        proof {
            assert(data@.subrange(2, 4) =~= data@.subrange(2, 4));
        }
    } else {
        if n < 14 {
            return Err(WebSocketError::WOULD_BLOCK);
        }
        mask_offset = 10;
        payload_len = be_value(vstd::slice::slice_subrange(data, 2, 10));
    }
    let remaining = n - (mask_offset + 4);
    if payload_len > remaining as u64 {
        return Err(WebSocketError::WOULD_BLOCK);
    }
    let pl = payload_len as usize;
    let mask_key = slice_to_vec_u8(
        vstd::slice::slice_subrange(data, mask_offset, mask_offset + 4),
    );
    let payload = slice_to_vec_u8(
        vstd::slice::slice_subrange(data, mask_offset + 4, mask_offset + 4 + pl),
    );
    let frame = Frame { fin, opcode, mask_key: Some(mask_key), payload };
    Ok((frame, mask_offset + 4 + pl))
}

/// A message delivered to or sent by the application: text or bytes.
#[derive(Debug, Clone)]
pub enum Message {
    Text(String),
    Binary(Vec<u8>),
}

/// The mathematical content of a message.
pub ghost enum MessageView {
    Text(Seq<char>),
    Binary(Seq<u8>),
}

impl View for Message {
    type V = MessageView;

    open spec fn view(&self) -> MessageView {
        match self {
            Message::Text(s) => MessageView::Text(s@),
            Message::Binary(v) => MessageView::Binary(v@),
        }
    }
}

/// A message's payload bytes as they go on the wire: text is encoded as
/// UTF-8.
pub open spec fn spec_message_payload(m: MessageView) -> Seq<u8> {
    match m {
        MessageView::Text(s) => vstd::utf8::encode_utf8(s),
        MessageView::Binary(b) => b,
    }
}

/// A message's outbound opcode.
pub open spec fn spec_message_opcode(m: MessageView) -> OPCODE {
    match m {
        MessageView::Text(_) => OPCODE::Text,
        MessageView::Binary(_) => OPCODE::Binary,
    }
}

/// The header of an unmasked single server frame with FIN set: the
/// minimal length form is used for every payload length.
pub open spec fn spec_frame_header(op: OPCODE, len: int) -> Seq<u8> {
    if len < 126 {
        seq![(0x80 | spec_opcode_byte(op)) as u8, len as u8]
    } else if len < 0x10000 {
        seq![(0x80 | spec_opcode_byte(op)) as u8, 126u8] + be_bytes(len, 2)
    } else {
        seq![(0x80 | spec_opcode_byte(op)) as u8, 127u8] + be_bytes(len, 8)
    }
}

/// A whole outbound frame: header then payload, unmasked.
pub open spec fn spec_encode_frame(op: OPCODE, payload: Seq<u8>) -> Seq<u8> {
    spec_frame_header(op, payload.len() as int) + payload
}

/// Payload lengths up to 125 use the two-byte header; up to 65535 the
/// four-byte form; longer payloads the ten-byte form.  Each length is
/// encoded with the minimal form that holds it.
pub proof fn lemma_minimal_length_encoding(op: OPCODE, len: int)
    requires
        0 <= len,
    ensures
        len <= 125 ==> spec_frame_header(op, len).len() == 2,
        126 <= len <= 65535 ==> spec_frame_header(op, len).len() == 4,
        65536 <= len ==> spec_frame_header(op, len).len() == 10,
{
}

/// Build the header of an unmasked FIN frame for a payload of `len`
/// bytes.
pub fn encode_frame_header(op: OPCODE, len: usize) -> (r: Vec<u8>)
    ensures
        r@ == spec_frame_header(op, len as int),
{
    let b0: u8 = 0x80 | op.to_byte();
    let mut out: Vec<u8> = Vec::new();
    if len < 126 {
        out.push(b0);
        out.push(len as u8);
        proof {
            assert(out@ =~= spec_frame_header(op, len as int));
        }
    } else if len < 0x10000 {
        out.push(b0);
        out.push(126);
        out.push((len / 256) as u8);
        out.push((len % 256) as u8);
        proof {
            lemma_pow256_values();
            assert(out@ =~= spec_frame_header(op, len as int));
        }
    } else {
        out.push(b0);
        out.push(127);
        let l = len as u64;
        out.push((l / 0x100000000000000u64) as u8);
        out.push(((l / 0x1000000000000u64) % 256) as u8);
        out.push(((l / 0x10000000000u64) % 256) as u8);
        out.push(((l / 0x100000000u64) % 256) as u8);
        out.push(((l / 0x1000000u64) % 256) as u8);
        out.push(((l / 0x10000u64) % 256) as u8);
        out.push(((l / 0x100u64) % 256) as u8);
        out.push((l % 256) as u8);
        proof {
            lemma_pow256_values();
            assert(pow256(3) == 0x1000000);
            assert(pow256(4) == 0x100000000);
            assert(pow256(5) == 0x10000000000);
            assert(pow256(6) == 0x1000000000000);
            assert((l / 0x100000000000000u64) as int == (len as int / pow256(7)) % 256);
            assert(out@ =~= spec_frame_header(op, len as int));
        }
    }
    out
}

/// Serialize a whole outbound message as one unmasked FIN frame.
pub fn encode_message_frame(m: &Message) -> (r: Vec<u8>)
    ensures
        r@ == spec_encode_frame(spec_message_opcode(m@), spec_message_payload(m@)),
{
    let (op, payload): (OPCODE, &[u8]) = match m {
        Message::Text(s) => (OPCODE::Text, s.as_str().as_bytes()),
        Message::Binary(b) => (OPCODE::Binary, b.as_slice()),
    };
    let mut out = encode_frame_header(op, payload.len());
    out.extend_from_slice(payload);
    out
}

/// The view of an optional in-progress message.
pub open spec fn opt_msg_view(m: Option<Message>) -> Option<MessageView> {
    match m {
        Some(x) => Some(x@),
        None => None,
    }
}

/// What one assembly pass yields: its result, the in-progress message
/// left behind for the next pass, and `taken`, the bytes of whole
/// folded frames — what the caller must consume when the pass stops at
/// an incomplete frame, so that a later pass never re-reads a frame
/// already folded into the in-progress message.
pub ghost struct AsmOut {
    pub result: Result<(MessageView, int), WebSocketError>,
    pub incoming: Option<MessageView>,
    pub taken: int,
}

/// The payload of a frame after unmasking; an unmasked frame's payload
/// stands as it is.
pub open spec fn spec_frame_segment(f: FrameView) -> Seq<u8> {
    match f.mask {
        Some(k) => spec_unmask(f.payload, k),
        None => f.payload,
    }
}

/// Fold frames from `b` into the in-progress message `inc` until a FIN
/// frame completes one, a frame is incomplete, or a violation is found:
/// a non-continuation frame while a message is in progress is
/// `CUTTING_IN`; a continuation with none in progress is `BAD_CONTINUE`;
/// text segments must each be valid UTF-8; control frames are not
/// implemented.
pub open spec fn spec_parse_message(inc: Option<MessageView>, b: Seq<u8>) -> AsmOut
    decreases b.len(), 1int,
{
    match spec_read_frame(b) {
        Err(e) => AsmOut { result: Err(e), incoming: inc, taken: 0 },
        Ok((f, c)) => {
            let seg = spec_frame_segment(f);
            match f.opcode {
                OPCODE::Continuation => match inc {
                    None => AsmOut {
                        result: Err(WebSocketError::BAD_CONTINUE),
                        incoming: inc,
                        taken: 0,
                    },
                    Some(MessageView::Text(t)) => {
                        if valid_utf8(seg) {
                            spec_assemble_next(MessageView::Text(t + decode_utf8(seg)), f.fin, b, c)
                        } else {
                            AsmOut {
                                result: Err(WebSocketError::NOT_VALID_UTF8),
                                incoming: Some(MessageView::Text(Seq::empty())),
                                taken: 0,
                            }
                        }
                    },
                    Some(MessageView::Binary(bb)) => spec_assemble_next(
                        MessageView::Binary(bb + seg),
                        f.fin,
                        b,
                        c,
                    ),
                },
                OPCODE::Text => match inc {
                    Some(_) => AsmOut {
                        result: Err(WebSocketError::CUTTING_IN),
                        incoming: inc,
                        taken: 0,
                    },
                    None => {
                        if valid_utf8(seg) {
                            spec_assemble_next(MessageView::Text(decode_utf8(seg)), f.fin, b, c)
                        } else {
                            AsmOut {
                                result: Err(WebSocketError::NOT_VALID_UTF8),
                                incoming: None,
                                taken: 0,
                            }
                        }
                    },
                },
                OPCODE::Binary => match inc {
                    Some(_) => AsmOut {
                        result: Err(WebSocketError::CUTTING_IN),
                        incoming: inc,
                        taken: 0,
                    },
                    None => spec_assemble_next(MessageView::Binary(seg), f.fin, b, c),
                },
                _ => AsmOut {
                    result: Err(WebSocketError::UNIMPLEMENTED),
                    incoming: inc,
                    taken: 0,
                },
            }
        },
    }
}

/// After one frame extended the in-progress message to `m`: a FIN frame
/// completes it, else assembly continues on the remaining bytes.
pub open spec fn spec_assemble_next(m: MessageView, fin: bool, b: Seq<u8>, c: int) -> AsmOut
    decreases b.len(), 0int,
    when 6 <= c <= b.len()
{
    if fin {
        AsmOut { result: Ok((m, c)), incoming: None, taken: c }
    } else {
        let rec = spec_parse_message(Some(m), b.skip(c));
        AsmOut {
            result: match rec.result {
                Ok((mm, cc)) => Ok((mm, c + cc)),
                Err(e) => Err(e),
            },
            incoming: rec.incoming,
            taken: c + rec.taken,
        }
    }
}

/// Relies on `String::from_utf8`: it succeeds exactly on valid UTF-8
/// and yields the string whose bytes are the input.
#[verifier::external_body]
fn string_from_utf8(bytes: Vec<u8>) -> (r: Option<String>)
    ensures
        r is Some <==> valid_utf8(bytes@),
        match r {
            Some(s) => s@ == decode_utf8(bytes@),
            None => true,
        },
{
    String::from_utf8(bytes).ok()
}

/// Assemble one application message from the frames at the front of
/// `buf`, carrying a partial message in `incoming_message` across calls.
#[verifier::loop_isolation(false)]
#[verifier::rlimit(60)]
pub fn parse_message(incoming_message: &mut Option<Message>, buf: &[u8]) -> (r: Result<
    (Option<Message>, usize),
    WebSocketError,
>)
    ensures
        ({
            let out = spec_parse_message(opt_msg_view(*old(incoming_message)), buf@);
            match r {
                Ok(p) => p.1 <= buf@.len() && match p.0 {
                    Some(m) => out.result == Ok::<_, WebSocketError>((m@, p.1 as int))
                        && opt_msg_view(*final(incoming_message)) is None,
                    // An incomplete frame stopped assembly: the bytes of
                    // the whole frames already folded into the carried
                    // message are reported as consumed, so a later call
                    // on the remainder never re-reads them.
                    None => out.result == Err::<(MessageView, int), _>(
                        WebSocketError::WOULD_BLOCK,
                    ) && p.1 as int == out.taken && opt_msg_view(*final(incoming_message))
                        == out.incoming,
                },
                Err(e) => e != WebSocketError::WOULD_BLOCK && out.result == Err::<
                    (MessageView, int),
                    _,
                >(e) && opt_msg_view(*final(incoming_message)) == out.incoming,
            }
        }),
{
    let ghost target = spec_parse_message(opt_msg_view(*incoming_message), buf@);
    let n = buf.len();
    let mut consumed: usize = 0;
    proof {
        assert(buf@.skip(0) =~= buf@);
    }
    loop
        invariant
            consumed <= n,
            n == buf@.len(),
            ({
                let rec = spec_parse_message(
                    opt_msg_view(*incoming_message),
                    buf@.skip(consumed as int),
                );
                &&& target.result == match rec.result {
                    Ok((m, c)) => Ok::<(MessageView, int), WebSocketError>((m, consumed + c)),
                    Err(e) => Err(e),
                }
                &&& target.incoming == rec.incoming
                &&& target.taken == consumed + rec.taken
            }),
        decreases n - consumed,
    {
        let ghost rest_seq = buf@.skip(consumed as int);
        let ghost inc_before = opt_msg_view(*incoming_message);
        let rest = vstd::slice::slice_subrange(buf, consumed, n);
        proof {
            assert(rest@ =~= rest_seq);
        }
        let ghost out1 = spec_parse_message(inc_before, buf@.skip(consumed as int));
        let (frame, c) = match read_frame(rest) {
            Ok(p) => p,
            Err(e) => {
                proof {
                    assert(out1.result == Err::<(MessageView, int), WebSocketError>(e));
                    assert(out1.incoming == inc_before);
                    assert(out1.taken == 0);
                }
                if e == WebSocketError::WOULD_BLOCK {
                    return Ok((None, consumed));
                }
                return Err(e);
            },
        };
        let seg = match &frame.mask_key {
            Some(k) => unmask_bytes(frame.payload.as_slice(), k.as_slice()),
            None => crate::helpers::clone_vec_u8(&frame.payload),
        };
        proof {
            assert(seg@ == spec_frame_segment(frame@));
            assert(buf@.skip(consumed + c) =~= rest_seq.skip(c as int));
            assert(spec_read_frame(rest_seq) == Ok::<_, WebSocketError>((frame@, c as int)));
        }
        let cur = incoming_message.take();
        match frame.opcode {
            OPCODE::Continuation => {
                match cur {
                    None => {
                        proof {
                            assert(out1.result == Err::<(MessageView, int), WebSocketError>(
                                WebSocketError::BAD_CONTINUE,
                            ));
                        }
                        return Err(WebSocketError::BAD_CONTINUE);
                    },
                    Some(Message::Text(t)) => {
                        match string_from_utf8(seg) {
                            None => {
                                *incoming_message = Some(Message::Text(String::new()));
                                proof {
                                    assert(opt_msg_view(*incoming_message) == Some(
                                        MessageView::Text(Seq::<char>::empty()),
                                    ));
                                    assert(out1.result == Err::<
                                        (MessageView, int),
                                        WebSocketError,
                                    >(WebSocketError::NOT_VALID_UTF8));
                                    assert(out1.incoming == Some(MessageView::Text(
                                        Seq::<char>::empty(),
                                    )));
                                }
                                return Err(WebSocketError::NOT_VALID_UTF8);
                            },
                            Some(snew) => {
                                let mut t2 = t;
                                t2.append(snew.as_str());
                                proof {
                                    assert(out1 == spec_assemble_next(
                                        MessageView::Text(t2@),
                                        frame@.fin,
                                        rest_seq,
                                        c as int,
                                    ));
                                }
                                if frame.fin {
                                    *incoming_message = None;
                                    proof {
                                        assert(out1.result == Ok::<_, WebSocketError>((
                                            MessageView::Text(t2@),
                                            c as int,
                                        )));
                                    }
                                    return Ok((Some(Message::Text(t2)), consumed + c));
                                } else {
                                    *incoming_message = Some(Message::Text(t2));
                                }
                            },
                        }
                    },
                    Some(Message::Binary(bb)) => {
                        let mut b2 = bb;
                        let ghost bb0 = b2@;
                        proof {
                            assert(inc_before == Some(MessageView::Binary(bb0)));
                        }
                        b2.extend_from_slice(seg.as_slice());
                        proof {
                            assert(b2@ == bb0 + seg@);
                            assert(out1 == spec_assemble_next(
                                MessageView::Binary(b2@),
                                frame@.fin,
                                rest_seq,
                                c as int,
                            ));
                        }
                        if frame.fin {
                            *incoming_message = None;
                            proof {
                                assert(out1.result == Ok::<_, WebSocketError>((
                                    MessageView::Binary(b2@),
                                    c as int,
                                )));
                            }
                            return Ok((Some(Message::Binary(b2)), consumed + c));
                        } else {
                            *incoming_message = Some(Message::Binary(b2));
                        }
                    },
                }
            },
            OPCODE::Text => {
                match cur {
                    Some(m) => {
                        *incoming_message = Some(m);
                        proof {
                            assert(out1.result == Err::<(MessageView, int), WebSocketError>(
                                WebSocketError::CUTTING_IN,
                            ));
                            assert(out1.incoming == inc_before);
                        }
                        return Err(WebSocketError::CUTTING_IN);
                    },
                    None => {
                        match string_from_utf8(seg) {
                            None => {
                                proof {
                                    assert(out1.result == Err::<
                                        (MessageView, int),
                                        WebSocketError,
                                    >(WebSocketError::NOT_VALID_UTF8));
                                    assert(out1.incoming is None);
                                }
                                return Err(WebSocketError::NOT_VALID_UTF8);
                            },
                            Some(snew) => {
                                proof {
                                    assert(out1 == spec_assemble_next(
                                        MessageView::Text(snew@),
                                        frame@.fin,
                                        rest_seq,
                                        c as int,
                                    ));
                                }
                                if frame.fin {
                                    *incoming_message = None;
                                    return Ok((Some(Message::Text(snew)), consumed + c));
                                } else {
                                    *incoming_message = Some(Message::Text(snew));
                                }
                            },
                        }
                    },
                }
            },
            OPCODE::Binary => {
                match cur {
                    Some(m) => {
                        *incoming_message = Some(m);
                        proof {
                            assert(out1.result == Err::<(MessageView, int), WebSocketError>(
                                WebSocketError::CUTTING_IN,
                            ));
                            assert(out1.incoming == inc_before);
                        }
                        return Err(WebSocketError::CUTTING_IN);
                    },
                    None => {
                        proof {
                            assert(out1 == spec_assemble_next(
                                MessageView::Binary(seg@),
                                frame@.fin,
                                rest_seq,
                                c as int,
                            ));
                        }
                        if frame.fin {
                            *incoming_message = None;
                            return Ok((Some(Message::Binary(seg)), consumed + c));
                        } else {
                            *incoming_message = Some(Message::Binary(seg));
                        }
                    },
                }
            },
            _ => {
                *incoming_message = cur;
                proof {
                    assert(out1.result == Err::<(MessageView, int), WebSocketError>(
                        WebSocketError::UNIMPLEMENTED,
                    ));
                    assert(out1.incoming == inc_before);
                }
                return Err(WebSocketError::UNIMPLEMENTED);
            },
        }
        proof {
            let newinc = opt_msg_view(*incoming_message);
            let rec2 = spec_parse_message(newinc, buf@.skip(consumed + c));
            assert(buf@.skip(consumed + c) == rest_seq.skip(c as int));
            assert(out1.result == match rec2.result {
                Ok((mm, cc)) => Ok::<(MessageView, int), WebSocketError>((mm, c + cc)),
                Err(e) => Err(e),
            });
            assert(out1.incoming == rec2.incoming);
            assert(out1.taken == c + rec2.taken);
        }
        consumed = consumed + c;
    }
}

/// The per-client parser state: a message whose frames have not all
/// arrived yet.
pub struct WsParser {
    pub incoming_message: Option<Message>,
}

impl View for WsParser {
    type V = Option<MessageView>;

    open spec fn view(&self) -> Option<MessageView> {
        opt_msg_view(self.incoming_message)
    }
}

impl Default for WsParser {
    fn default() -> (r: Self)
        ensures
            r@ is None,
    {
        WsParser { incoming_message: None }
    }
}

impl WsParser {
    /// One parser step: a completed message with the bytes it consumed;
    /// or no message with the bytes of the whole frames folded into the
    /// carried partial message — zero when the first frame is still
    /// incomplete — so that repeated calls on a growing inbox stay
    /// coherent; or the protocol violation found.
    pub fn parse(&mut self, buf: &[u8]) -> (r: Result<(Option<Message>, usize), WebSocketError>)
        ensures
            ({
                let out = spec_parse_message(old(self)@, buf@);
                match r {
                    Ok(p) => p.1 <= buf@.len() && match p.0 {
                        Some(m) => out.result == Ok::<_, WebSocketError>((m@, p.1 as int))
                            && final(self)@ is None,
                        None => p.1 as int == out.taken && out.result == Err::<
                            (MessageView, int),
                            _,
                        >(WebSocketError::WOULD_BLOCK) && final(self)@ == out.incoming,
                    },
                    Err(e) => out.result == Err::<(MessageView, int), _>(e) && e
                        != WebSocketError::WOULD_BLOCK && final(self)@ == out.incoming,
                }
            }),
    {
        parse_message(&mut self.incoming_message, buf)
    }
}

/// The fixed GUID that RFC 6455 appends to the client's key before
/// hashing.
pub open spec fn spec_accept_guid() -> Seq<u8> {
    "258EAFA5-E914-47DA-95CA-C5AB0DC85B11".spec_bytes()
}

/// The `Sec-WebSocket-Accept` token for a client key: the base64 of the
/// SHA-1 digest of the key followed by the fixed GUID.
pub open spec fn spec_accept(key: Seq<u8>) -> Seq<char> {
    base64_of(sha1_of(key + spec_accept_guid()))
}

/// The SHA-1 digest, named: a function of the input bytes alone.
pub uninterp spec fn sha1_of(data: Seq<u8>) -> Seq<u8>;

/// The standard base64 encoding, named: a function of the input bytes
/// alone.
pub uninterp spec fn base64_of(data: Seq<u8>) -> Seq<char>;

/// Relies on sha1::Sha1 through the Digest interface: the digest is a
/// pure function of the input bytes and is twenty bytes long.
#[verifier::external_body]
fn sha1_digest(data: &Vec<u8>) -> (r: Vec<u8>)
    ensures
        r@ == sha1_of(data@),
        r@.len() == 20,
{
    let mut hasher = sha1::Sha1::new();
    hasher.update(data.as_slice());
    hasher.finalize().to_vec()
}

/// Relies on base64's BASE64_STANDARD engine: the encoding is a pure
/// function of the input bytes.
#[verifier::external_body]
fn base64_encode(data: &Vec<u8>) -> (r: String)
    ensures
        r@ == base64_of(data@),
{
    base64::Engine::encode(&base64::prelude::BASE64_STANDARD, data.as_slice())
}

/// Compute the `Sec-WebSocket-Accept` token for a client's
/// `Sec-WebSocket-Key`.
pub fn compute_sec_websocket_accept(key: &[u8]) -> (r: String)
    ensures
        r@ == spec_accept(key@),
{
    let mut data = slice_to_vec_u8(key);
    data.extend_from_slice("258EAFA5-E914-47DA-95CA-C5AB0DC85B11".as_bytes());
    proof {
        assert(data@ == key@ + spec_accept_guid());
    }
    let digest = sha1_digest(&data);
    base64_encode(&digest)
}

/// The accept token is deterministic: equal keys give equal tokens, so
/// computing it twice for one key yields one string.
pub proof fn lemma_accept_deterministic(k1: Seq<u8>, k2: Seq<u8>)
    requires
        k1 == k2,
    ensures
        spec_accept(k1) == spec_accept(k2),
{
}

impl Default for Message {
    /// An empty binary message.
    fn default() -> (r: Self)
        ensures
            r@ matches MessageView::Binary(b) && b.len() == 0,
    {
        Message::Binary(Vec::new())
    }
}

impl crate::server_G::Parser<Message, WebSocketError> for WsParser {
    /// One parse call yields exactly what `spec_parse_message` says of
    /// the carried partial message and the bytes: the assembled message
    /// and its consumed count; no message with the folded whole frames
    /// consumed when a frame is still incomplete; or the violation
    /// found.
    open spec fn parse_rel(
        pre: Self,
        buf: Seq<u8>,
        r: Result<(Option<Message>, int), WebSocketError>,
        post: Self,
    ) -> bool {
        let out = spec_parse_message(pre@, buf);
        match r {
            Ok((Some(m), c)) => out.result == Ok::<_, WebSocketError>((m@, c)) && post@ is None,
            Ok((None, c)) => c == out.taken && out.result == Err::<(MessageView, int), _>(
                WebSocketError::WOULD_BLOCK,
            ) && post@ == out.incoming,
            Err(e) => out.result == Err::<(MessageView, int), _>(e) && e
                != WebSocketError::WOULD_BLOCK && post@ == out.incoming,
        }
    }

    /// One parser step for the reactor: an incomplete frame consumes
    /// the whole frames already folded into the carried message, or
    /// nothing when no frame completed.
    fn parse(&mut self, buf: &[u8]) -> (r: Result<(Option<Message>, usize), WebSocketError>)
        ensures
            ({
                let out = spec_parse_message(old(self)@, buf@);
                match r {
                    Ok(p) => p.1 <= buf@.len() && match p.0 {
                        Some(m) => out.result == Ok::<_, WebSocketError>((m@, p.1 as int))
                            && final(self)@ is None,
                        None => p.1 as int == out.taken && out.result == Err::<
                            (MessageView, int),
                            _,
                        >(WebSocketError::WOULD_BLOCK) && final(self)@ == out.incoming,
                    },
                    Err(e) => out.result == Err::<(MessageView, int), _>(e) && e
                        != WebSocketError::WOULD_BLOCK && final(self)@ == out.incoming,
                }
            }),
    {
        WsParser::parse(self, buf)
    }
}

/// The sender of one outbound message: the frame bytes of the message,
/// with a cursor over what has been written.
#[derive(Debug)]
pub struct Messenger {
    pub msg: Message,
    pub writ: usize,
}

impl Messenger {
    /// A sender loaded with one message, nothing written yet.
    pub fn new(msg: Message) -> (r: Messenger)
        ensures
            r.msg == msg,
            r.writ == 0,
            r.send_inv(),
    {
        Messenger { msg, writ: 0 }
    }
}

impl Default for Messenger {
    fn default() -> (r: Self)
        ensures
            r.writ == 0,
    {
        Messenger { msg: Message::default(), writ: 0 }
    }
}

impl Messenger {
    /// The whole encoded frame of the loaded message.
    pub open spec fn frame_bytes(&self) -> Seq<u8> {
        spec_encode_frame(spec_message_opcode(self.msg@), spec_message_payload(self.msg@))
    }
}

impl crate::server_G::SendTo for Messenger {
    /// The cursor never passes the end of the encoded frame.
    open spec fn send_inv(&self) -> bool {
        self.writ <= self.frame_bytes().len()
    }

    /// The encoded frame past the cursor.
    open spec fn queued(&self) -> Seq<u8> {
        if self.writ >= self.frame_bytes().len() {
            Seq::empty()
        } else {
            self.frame_bytes().skip(self.writ as int)
        }
    }

    proof fn default_sends(s: Self) {
    }

    /// One chunk of the encoded frame goes into the sink; the cursor
    /// advances by what the sink accepted.  An exhausted sender writes
    /// nothing and reports zero.
    fn send_to<W: crate::server_G::ByteSink>(&mut self, wr: &mut W) -> (r: Result<
        usize,
        crate::server_G::IoErr,
    >)
        ensures
            final(self).msg == old(self).msg,
            match r {
                Ok(n) => final(self).writ == old(self).writ + n,
                Err(_) => final(self).writ == old(self).writ,
            },
            old(self).writ >= old(self).frame_bytes().len() ==> r == Ok::<
                usize,
                crate::server_G::IoErr,
            >(0usize),
    {
        let frame = encode_message_frame(&self.msg);
        let fl = frame.len();
        if self.writ >= fl {
            proof {
                assert(self.queued() =~= old(self).queued().skip(0));
                assert(wr.sink_taken() =~= old(wr).sink_taken() + old(self).queued().take(0));
            }
            return Ok(0);
        }
        let chunk = vstd::slice::slice_subrange(frame.as_slice(), self.writ, fl);
        proof {
            assert(chunk@ =~= old(self).queued());
        }
        match wr.sink_write(chunk) {
            Ok(n) => {
                self.writ = self.writ + n;
                proof {
                    assert(self.queued() =~= old(self).queued().skip(n as int));
                }
                Ok(n)
            },
            Err(e) => Err(e),
        }
    }
}

/// The serialized 101 Switching Protocols reply for a client key:
/// `Upgrade`, `Connection` and the computed `Sec-WebSocket-Accept`
/// headers over an empty body.
pub open spec fn spec_upgrade_response(key: Seq<u8>) -> Seq<u8> {
    crate::smithy::spec_serialize(
        crate::http::Version::V_1_1,
        crate::http::Status::SwitchingProtocols,
        seq![
            ("Upgrade".spec_bytes(), "websocket".spec_bytes()),
            ("Connection".spec_bytes(), "Upgrade".spec_bytes()),
            (
                "Sec-WebSocket-Accept".spec_bytes(),
                vstd::utf8::encode_utf8(spec_accept(key)),
            ),
        ],
    )
}

/// Build the 101 reply that answers an upgrade request carrying `key`.
pub fn upgrade_response_bytes(key: &[u8]) -> (r: Vec<u8>)
    ensures
        r@ == spec_upgrade_response(key@),
{
    let accept = compute_sec_websocket_accept(key);
    let mut response = crate::http::Response {
        version: crate::http::Version::V_1_1,
        status: crate::http::Status::SwitchingProtocols,
        headers: Vec::new(),
        body: Vec::new(),
    };
    response.add_header("Upgrade".as_bytes(), "websocket".as_bytes());
    response.add_header("Connection".as_bytes(), "Upgrade".as_bytes());
    response.add_header("Sec-WebSocket-Accept".as_bytes(), accept.as_str().as_bytes());
    let smith = crate::smithy::HttpSmithText;
    let (data, _) = smith.serialize(&response);
    proof {
        assert(crate::http::spec_headers(response.headers@) =~= seq![
            ("Upgrade".spec_bytes(), "websocket".spec_bytes()),
            ("Connection".spec_bytes(), "Upgrade".spec_bytes()),
            (
                "Sec-WebSocket-Accept".spec_bytes(),
                vstd::utf8::encode_utf8(spec_accept(key@)),
            ),
        ]);
    }
    data
}

/// The WebSocket upgrade handshaker: it reads the HTTP upgrade request,
/// loads the 101 reply keyed off `Sec-WebSocket-Key`, reports
/// `Responding` until the reply has drained, then `Done`.
#[derive(Debug)]
pub struct WsHandshaker {
    pub buf: Vec<u8>,
    pub bytes_writ: usize,
    pub parser: crate::smithy::HttpSmithText,
}

impl Default for WsHandshaker {
    fn default() -> (r: Self)
        ensures
            r.buf@.len() == 0,
            r.bytes_writ == 0,
    {
        WsHandshaker { buf: Vec::new(), bytes_writ: 0, parser: crate::smithy::HttpSmithText }
    }
}

impl crate::server_G::SendTo for WsHandshaker {
    /// The reply cursor never passes the end of the loaded reply.
    open spec fn send_inv(&self) -> bool {
        self.bytes_writ <= self.buf@.len()
    }

    /// The loaded reply past the cursor.
    open spec fn queued(&self) -> Seq<u8> {
        if self.bytes_writ >= self.buf@.len() {
            Seq::empty()
        } else {
            self.buf@.skip(self.bytes_writ as int)
        }
    }

    proof fn default_sends(s: Self) {
    }

    /// One chunk of the loaded reply goes into the sink; the cursor
    /// advances by what the sink accepted.
    fn send_to<W: crate::server_G::ByteSink>(&mut self, wr: &mut W) -> (r: Result<
        usize,
        crate::server_G::IoErr,
    >)
        ensures
            final(self).buf == old(self).buf,
            match r {
                Ok(n) => final(self).bytes_writ == old(self).bytes_writ + n,
                Err(_) => final(self).bytes_writ == old(self).bytes_writ,
            },
            old(self).bytes_writ >= old(self).buf@.len() ==> r == Ok::<
                usize,
                crate::server_G::IoErr,
            >(0usize),
    {
        let bl = self.buf.len();
        if self.bytes_writ >= bl {
            proof {
                assert(self.queued() =~= old(self).queued().skip(0));
                assert(wr.sink_taken() =~= old(wr).sink_taken() + old(self).queued().take(0));
            }
            return Ok(0);
        }
        let chunk = vstd::slice::slice_subrange(self.buf.as_slice(), self.bytes_writ, bl);
        proof {
            assert(chunk@ =~= old(self).queued());
        }
        match wr.sink_write(chunk) {
            Ok(n) => {
                self.bytes_writ = self.bytes_writ + n;
                proof {
                    assert(self.queued() =~= old(self).queued().skip(n as int));
                }
                Ok(n)
            },
            Err(e) => Err(e),
        }
    }
}

impl crate::server_G::Handshaker for WsHandshaker {
    /// One call reports exactly what the loaded reply and
    /// `spec_deserialize` say of the bytes: `Responding` until a loaded
    /// reply drains, then `Done`; else the upgrade request decides —
    /// incomplete waits, a missing `sec-websocket-key` or a malformed
    /// request fails, and a good one loads the 101 reply and accepts the
    /// request's bytes.
    open spec fn handshake_rel(
        pre: Self,
        buf: Seq<u8>,
        r: Option<(crate::server_G::HandshakeStatus, int)>,
        post: Self,
    ) -> bool {
        if pre.buf@.len() > 0 {
            post == pre && r == Some(
                (
                    if pre.bytes_writ < pre.buf@.len() {
                        crate::server_G::HandshakeStatus::Responding
                    } else {
                        crate::server_G::HandshakeStatus::Done
                    },
                    0int,
                ),
            )
        } else {
            match crate::smithy::spec_deserialize(buf) {
                Ok(p) => match crate::http::spec_lookup(
                    p.0.headers,
                    "sec-websocket-key".spec_bytes(),
                ) {
                    Some(key) => (r matches Some(pair) && pair.0
                        == crate::server_G::HandshakeStatus::Responding && pair.1 == p.1)
                        && post.buf@ == spec_upgrade_response(key) && post.bytes_writ
                        == pre.bytes_writ,
                    None => r is None,
                },
                Err(crate::smithy::ParseError::Incomplete) => post == pre && r == Some(
                    (crate::server_G::HandshakeStatus::Waiting, 0int),
                ),
                Err(_) => r is None,
            }
        }
    }

    /// One handshake pass: with a reply loaded, report `Responding`
    /// until it has drained, then `Done`.  Otherwise parse the upgrade
    /// request; an incomplete one waits, one without a
    /// `sec-websocket-key` header or malformed fails, and a good one
    /// loads the 101 reply and consumes the request's bytes.
    fn handshake(&mut self, buf: &[u8]) -> (r: Option<
        (crate::server_G::HandshakeStatus, usize),
    >)
        ensures
            ({
                if old(self).buf@.len() > 0 {
                    *final(self) == *old(self) && r == Some(
                        (
                            if old(self).bytes_writ < old(self).buf@.len() {
                                crate::server_G::HandshakeStatus::Responding
                            } else {
                                crate::server_G::HandshakeStatus::Done
                            },
                            0usize,
                        ),
                    )
                } else {
                    match crate::smithy::spec_deserialize(buf@) {
                        Ok(p) => match crate::http::spec_lookup(
                            p.0.headers,
                            "sec-websocket-key".spec_bytes(),
                        ) {
                            Some(key) => (r matches Some(pair) && pair.0
                                == crate::server_G::HandshakeStatus::Responding && pair.1 == p.1)
                                && final(self).buf@ == spec_upgrade_response(key)
                                && final(self).bytes_writ == old(self).bytes_writ,
                            None => r is None,
                        },
                        Err(crate::smithy::ParseError::Incomplete) => *final(self) == *old(self)
                            && r == Some((crate::server_G::HandshakeStatus::Waiting, 0usize)),
                        Err(_) => r is None,
                    }
                }
            }),
    {
        let bl = self.buf.len();
        if bl > 0 {
            if self.bytes_writ < bl {
                return Some((crate::server_G::HandshakeStatus::Responding, 0));
            } else {
                return Some((crate::server_G::HandshakeStatus::Done, 0));
            }
        }
        match self.parser.deserialize(buf) {
            Ok((request, consumed)) => {
                match crate::helpers::lookup_kv(&request.headers, "sec-websocket-key".as_bytes())
                    {
                    Some(key) => {
                        let data = upgrade_response_bytes(key.as_slice());
                        self.buf = data;
                        Some((crate::server_G::HandshakeStatus::Responding, consumed))
                    },
                    None => None,
                }
            },
            Err(crate::smithy::ParseError::Incomplete) => Some(
                (crate::server_G::HandshakeStatus::Waiting, 0),
            ),
            Err(_) => None,
        }
    }
}

/// The reactor instantiated for WebSocket: message frames out, decoded
/// messages in, the upgrade handshake first.
pub type WsServer = crate::server_G::Server_G<
    Messenger,
    WsParser,
    Message,
    WebSocketError,
    WsHandshaker,
>;

impl WsServer {
    /// Inject one outbound message for a client, attempting a first
    /// write into the embedder's sink at once: the sink receives exactly
    /// a front of the message's encoded frame, and the client's outbox
    /// holds the frame's tail.  A fatal write error drops the client.
    pub fn send_message<W: crate::server_G::ByteSink>(
        &mut self,
        id: crate::server_G::StreamId,
        message: Message,
        wr: &mut W,
    ) -> (r: Result<usize, crate::server_G::IoErr>)
        requires
            old(self).wf(),
            old(self).has_client(id),
            old(wr).sink_inv(),
        ensures
            final(self).wf(),
            final(wr).sink_inv(),
            r != Err::<usize, crate::server_G::IoErr>(crate::server_G::IoErr::Interrupted),
            (r is Ok || r == Err::<usize, crate::server_G::IoErr>(
                crate::server_G::IoErr::WouldBlock,
            )) ==> final(self).has_client(id) && crate::server_G::spec_drained(
                (Messenger { msg: message, writ: 0 }).queued(),
                final(self).client(id).messenger.queued(),
                old(wr).sink_taken(),
                final(wr).sink_taken(),
                r,
            ),
            !(r is Ok || r == Err::<usize, crate::server_G::IoErr>(
                crate::server_G::IoErr::WouldBlock,
            )) ==> !final(self).has_client(id),
    {
        let m = Messenger::new(message);
        proof {
            assert(m == (Messenger { msg: m.msg, writ: 0 }));
        }
        self.send_to_client(id, m, wr)
    }
}

} // verus!
