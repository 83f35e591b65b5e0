//! WebSocket: frames, the upgrade request and its answer, and the state of a connection.

use base64::Engine;
use vstd::prelude::*;
use vstd::slice::{slice_subrange, slice_to_vec};

use crate::proxy::bytes::{array_at, push_be, read_be};
use crate::proxy::crypto::xor_mask;
use crate::proxy::random::random_bytes;
use crate::proxy::text::{
    chars_between, chars_of, decimal_text, parse_number, same_text, span_end, text_of, trim_text,
};
use crate::proxy::{bytes, crypto, text};

verus! {

/// The answer of a server that did not upgrade the connection.
#[derive(Debug)]
pub struct WsHandshakeError {
    pub status_code: u16,
    pub status_line: String,
    pub location: Option<String>,
}

impl WsHandshakeError {
    /// Whether a status code sends the client elsewhere.
    pub open spec fn redirects(status_code: u16) -> bool {
        ||| status_code == 301
        ||| status_code == 302
        ||| status_code == 303
        ||| status_code == 307
        ||| status_code == 308
    }

    /// Whether the server sends the client elsewhere.
    pub fn is_redirect(&self) -> (redirect: bool)
        ensures
            redirect == Self::redirects(self.status_code),
    {
        self.status_code == 301 || self.status_code == 302 || self.status_code == 303
            || self.status_code == 307 || self.status_code == 308
    }

    /// The error as it is shown.
    pub fn message(&self) -> (out: String)
        ensures
            out@ == "HTTP "@ + text::decimal(self.status_code as nat) + ": "@ + self.status_line@,
    {
        let mut out = "HTTP ".to_owned();
        out.append(decimal_text(self.status_code as u64).as_str());
        out.append(": ");
        out.append(self.status_line.as_str());
        out
    }
}

/// The length field of a frame, with the mask flag in its first bit.
pub open spec fn length_field(len: nat, masked: bool) -> Seq<u8> {
    let flag: int = if masked {
        128
    } else {
        0
    };
    if len < 126 {
        seq![(flag + len) as u8]
    } else if len < 65536 {
        seq![(flag + 126) as u8] + bytes::be_bytes(len, 2)
    } else {
        seq![(flag + 127) as u8] + bytes::be_bytes(len, 8)
    }
}

/// A final frame that carries `data`, with or without a mask.
pub open spec fn frame(opcode: u8, data: Seq<u8>, mask: Option<Seq<u8>>) -> Seq<u8> {
    seq![0x80u8 | opcode] + length_field(data.len(), mask is Some) + match mask {
        Some(key) => key + crypto::masked(data, key),
        None => data,
    }
}

/// A frame that carries `data` under some mask.
pub open spec fn is_masked_frame(frame_bytes: Seq<u8>, opcode: u8, data: Seq<u8>) -> bool {
    exists|key: Seq<u8>|
        key.len() == 4 && frame_bytes == #[trigger] frame(opcode, data, Some(key))
}

/// Builds a final frame under a given mask, or without a mask.
pub fn build_frame_with(opcode: u8, data: &[u8], mask: Option<[u8; 4]>) -> (out: Vec<u8>)
    ensures
        out@ == frame(
            opcode,
            data@,
            match mask {
                Some(key) => Some(key@),
                None => None,
            },
        ),
        out@.len() >= 2 + data@.len(),
        out@[0] == 0x80u8 | opcode,
        mask matches Some(key) ==> forall|i: int|
            0 <= i < data@.len() ==> #[trigger] out@[out@.len() - data@.len() + i] == data@[i]
                ^ key@[i % 4],
        mask is None ==> out@.skip(out@.len() - data@.len()) == data@,
{
    let len: usize = data.len();
    let mut out: Vec<u8> = Vec::new();
    out.push(0x80 | opcode);
    let flag: u8 = if mask.is_some() {
        128
    } else {
        0
    };
    if len < 126 {
        out.push(flag + len as u8);
    } else if len < 65536 {
        out.push(flag + 126);
        push_be(&mut out, len as u64, 2);
    } else {
        out.push(flag + 127);
        push_be(&mut out, len as u64, 8);
    }
    assert(out@ =~= seq![0x80u8 | opcode] + length_field(data@.len(), mask is Some));
    let ghost head = out@;
    match mask {
        Some(key) => {
            out.extend_from_slice(key.as_slice());
            let masked = xor_mask(data, &key);
            out.extend_from_slice(masked.as_slice());
            assert(out@ =~= head + (key@ + crypto::masked(data@, key@)));
            proof {
                assert forall|i: int| 0 <= i < data@.len() implies #[trigger] out@[out@.len()
                    - data@.len() + i] == data@[i] ^ key@[i % 4] by {
                    crypto::law_every_byte_masked(data@, key@, i);
                }
            }
        },
        None => {
            out.extend_from_slice(data);
            assert(out@ =~= head + data@);
            assert(out@.skip(out@.len() - data@.len()) =~= data@);
        },
    }
    out
}

/// Builds a final frame, under a random mask if `mask` asks for one.
pub fn build_frame(opcode: u8, data: &[u8], mask: bool) -> (out: Vec<u8>)
    ensures
        mask ==> is_masked_frame(out@, opcode, data@),
        !mask ==> out@ == frame(opcode, data@, None),
{
    if mask {
        let key: [u8; 4] = array_at::<4>(random_bytes(4).as_slice(), 0);
        let out = build_frame_with(opcode, data, Some(key));
        assert(out@ == frame(opcode, data@, Some(key@)));
        out
    } else {
        build_frame_with(opcode, data, None)
    }
}

/// How many bytes the extended length of a frame takes.
pub open spec fn extended_len(second: u8) -> nat {
    if second % 128 == 126 {
        2
    } else if second % 128 == 127 {
        8
    } else {
        0
    }
}

/// How many bytes of mask a frame has.
pub open spec fn mask_len(second: u8) -> nat {
    if second >= 128 {
        4
    } else {
        0
    }
}

/// How many bytes stand before the payload of the frame that `s` starts with.
pub open spec fn head_len(s: Seq<u8>) -> nat {
    2 + extended_len(s[1]) + mask_len(s[1])
}

/// The length of the payload of the frame that `s` starts with.
pub open spec fn payload_len(s: Seq<u8>) -> nat {
    if extended_len(s[1]) == 0 {
        (s[1] % 128) as nat
    } else {
        bytes::be_value(s.subrange(2, (2 + extended_len(s[1])) as int))
    }
}

/// How many bytes have to be read next, when `s` has been read of a frame: its first two bytes,
/// then the rest of its head, then its payload. Zero when the frame is complete.
pub open spec fn missing(s: Seq<u8>) -> nat {
    if s.len() < 2 {
        (2 - s.len()) as nat
    } else if s.len() < head_len(s) {
        (head_len(s) - s.len()) as nat
    } else if s.len() < head_len(s) + payload_len(s) {
        (head_len(s) + payload_len(s) - s.len()) as nat
    } else {
        0
    }
}

/// The payload of the complete frame that `s` starts with.
pub open spec fn payload(s: Seq<u8>) -> Seq<u8> {
    let from = head_len(s) as int;
    let body = s.subrange(from, from + payload_len(s));
    if s[1] >= 128 {
        crypto::masked(body, s.subrange(from - 4, from))
    } else {
        body
    }
}

/// The next step of reading a frame.
#[derive(Debug)]
pub enum FrameRead {
    /// This many bytes have to be read before the next step.
    Need(u64),
    /// The frame is complete.
    Frame { opcode: u8, payload: Vec<u8>, used: usize },
}

/// Decides what to do when `seen` has been read of a frame.
pub fn read_frame(seen: &[u8]) -> (out: FrameRead)
    ensures
        match out {
            FrameRead::Need(n) => n > 0 && n == missing(seen@),
            FrameRead::Frame { opcode, payload: body, used } => {
                &&& missing(seen@) == 0
                &&& opcode == seen@[0] % 16
                &&& body@ == payload(seen@)
                &&& used == head_len(seen@) + payload_len(seen@)
            },
        },
{
    let len: usize = seen.len();
    if len < 2 {
        return FrameRead::Need((2 - len) as u64);
    }
    let second: u8 = seen[1];
    let extended: usize = if second % 128 == 126 {
        2
    } else if second % 128 == 127 {
        8
    } else {
        0
    };
    let mask: usize = if second >= 128 {
        4
    } else {
        0
    };
    let head: usize = 2 + extended + mask;
    if len < head {
        return FrameRead::Need((head - len) as u64);
    }
    let body_len: u64 = if extended == 0 {
        (second % 128) as u64
    } else {
        read_be(seen, 2, extended)
    };
    let have: u64 = (len - head) as u64;
    if have < body_len {
        return FrameRead::Need(body_len - have);
    }
    let used: usize = head + body_len as usize;
    let raw = slice_subrange(seen, head, used);
    let body: Vec<u8> = if second >= 128 {
        let key: [u8; 4] = array_at::<4>(seen, head - 4);
        xor_mask(raw, &key)
    } else {
        slice_to_vec(raw)
    };
    FrameRead::Frame { opcode: seen[0] % 16, payload: body, used }
}

/// A frame that has been built is read back: its opcode, its payload, and where it ends.
pub proof fn law_frame_round_trip(opcode: u8, data: Seq<u8>, mask: Option<Seq<u8>>, rest: Seq<u8>)
    requires
        data.len() < 0x1_0000_0000_0000_0000,
        mask matches Some(key) ==> key.len() == 4,
    ensures
        ({
            let s = frame(opcode, data, mask) + rest;
            &&& missing(s) == 0
            &&& s[0] % 16 == opcode % 16
            &&& payload(s) == data
            &&& head_len(s) + payload_len(s) == frame(opcode, data, mask).len()
        }),
{
    let s = frame(opcode, data, mask) + rest;
    let field = length_field(data.len(), mask is Some);
    bytes::lemma_pow256_values();
    assert((0x80u8 | opcode) % 16 == opcode % 16) by (bit_vector);
    assert(s[0] == 0x80u8 | opcode);
    if data.len() >= 65536 {
        bytes::lemma_be_round_trip(data.len(), 8);
        assert(s.subrange(2, 10) =~= bytes::be_bytes(data.len(), 8));
    } else if data.len() >= 126 {
        bytes::lemma_be_round_trip(data.len(), 2);
        assert(s.subrange(2, 4) =~= bytes::be_bytes(data.len(), 2));
    }
    assert(s[1] == field[0]);
    assert(payload_len(s) == data.len());
    let from = head_len(s) as int;
    assert(from == 1 + field.len() + mask_len(s[1]));
    match mask {
        Some(key) => {
            assert(s.subrange(from - 4, from) =~= key);
            assert(s.subrange(from, from + data.len()) =~= crypto::masked(data, key));
            crypto::law_mask_twice(data, key);
        },
        None => {
            assert(s.subrange(from, from + data.len()) =~= data);
        },
    }
}

/// While a frame that was built is being read, the next read never goes beyond its end, and it
/// is never empty.
pub proof fn law_reading_stays_within_frame(
    opcode: u8,
    data: Seq<u8>,
    mask: Option<Seq<u8>>,
    n: int,
)
    requires
        data.len() < 0x1_0000_0000_0000_0000,
        mask matches Some(key) ==> key.len() == 4,
        0 <= n < frame(opcode, data, mask).len(),
    ensures
        0 < missing(frame(opcode, data, mask).take(n)) <= frame(opcode, data, mask).len() - n,
{
    let whole = frame(opcode, data, mask);
    let seen = whole.take(n);
    law_frame_round_trip(opcode, data, mask, Seq::empty());
    assert(whole + Seq::<u8>::empty() =~= whole);
    if n >= 2 {
        assert(seen[1] == whole[1]);
        if n >= head_len(whole) {
            let end = (2 + extended_len(whole[1])) as int;
            assert(seen.subrange(2, end) =~= whole.subrange(2, end));
        }
    }
}

/// The digit of six bits in base64's standard alphabet.
pub open spec fn base64_digit(v: int) -> char {
    if v < 26 {
        (65 + v) as char
    } else if v < 52 {
        (71 + v) as char
    } else if v < 62 {
        (v - 4) as char
    } else if v == 62 {
        '+'
    } else {
        '/'
    }
}

/// The base64 text of some bytes: four digits for each three of them, and padding at the end.
pub open spec fn base64_text(data: Seq<u8>) -> Seq<char>
    decreases data.len(),
{
    if data.len() == 0 {
        Seq::empty()
    } else {
        let a = data[0] as int;
        let b = if data.len() > 1 {
            data[1] as int
        } else {
            0
        };
        let c = if data.len() > 2 {
            data[2] as int
        } else {
            0
        };
        seq![
            base64_digit(a / 4),
            base64_digit(a % 4 * 16 + b / 16),
            if data.len() > 1 {
                base64_digit(b % 16 * 4 + c / 64)
            } else {
                '='
            },
            if data.len() > 2 {
                base64_digit(c % 64)
            } else {
                '='
            },
        ] + (if data.len() > 3 {
            base64_text(data.skip(3))
        } else {
            Seq::empty()
        })
    }
}

/// Calls `base64::Engine::encode` on `base64::engine::general_purpose::STANDARD`. Claims that it
/// writes four digits of the standard alphabet for each three bytes, and padding at the end.
#[verifier::external_body]
fn base64_encode(data: &[u8]) -> (out: String)
    ensures
        out@ == base64_text(data@),
{
    base64::engine::general_purpose::STANDARD.encode(data)
}

/// The request that asks a server to upgrade the connection.
pub open spec fn upgrade_text(path: Seq<char>, domain: Seq<char>, ws_key: Seq<char>) -> Seq<char> {
    "GET "@ + path + " HTTP/1.1\r\nHost: "@ + domain
        + "\r\nUpgrade: websocket\r\nConnection: Upgrade\r\nSec-WebSocket-Key: "@ + ws_key
        + "\r\nSec-WebSocket-Version: 13\r\nSec-WebSocket-Protocol: binary\r\n\r\n"@
}

/// Writes the upgrade request for a given key.
pub fn upgrade_request_with(path: &str, domain: &str, ws_key: &[u8]) -> (out: String)
    ensures
        out@ == upgrade_text(path@, domain@, base64_text(ws_key@)),
{
    let key = base64_encode(ws_key);
    let mut out = "GET ".to_owned();
    out.append(path);
    out.append(" HTTP/1.1\r\nHost: ");
    out.append(domain);
    out.append("\r\nUpgrade: websocket\r\nConnection: Upgrade\r\nSec-WebSocket-Key: ");
    out.append(key.as_str());
    out.append("\r\nSec-WebSocket-Version: 13\r\nSec-WebSocket-Protocol: binary\r\n\r\n");
    out
}

/// Writes the upgrade request with a random key of 16 bytes.
pub fn upgrade_request(path: &str, domain: &str) -> (out: String)
    ensures
        exists|ws_key: Seq<u8>|
            ws_key.len() == 16 && out@ == upgrade_text(
                path@,
                domain@,
                #[trigger] base64_text(ws_key),
            ),
{
    let ws_key = random_bytes(16);
    upgrade_request_with(path, domain, ws_key.as_slice())
}

/// Takes the next line of the server's answer. Gives whether the answer ends here: at the end of
/// the stream, or at a blank line.
pub fn read_response_line(lines: &mut Vec<String>, read: usize, line: &str) -> (done: bool)
    ensures
        done == (read == 0 || text::trim(line@).len() == 0),
        done ==> final(lines)@ == old(lines)@,
        !done ==> text::text_views(final(lines)@) == text::text_views(old(lines)@).push(
            text::trim(line@),
        ),
{
    let trimmed = trim_text(line);
    if read == 0 || trimmed.as_str().is_empty() {
        return true;
    }
    lines.push(trimmed);
    assert(text::text_views(lines@) =~= text::text_views(old(lines)@).push(text::trim(line@)));
    false
}

/// The text between the first and the second blank of a line, or behind the first one.
pub open spec fn second_word(line: Seq<char>) -> Option<Seq<char>> {
    let first = text::span(line, seq![' ']);
    if first >= line.len() {
        None
    } else {
        let rest = line.skip(first as int + 1);
        Some(rest.take(text::span(rest, seq![' ']) as int))
    }
}

/// The status code in the first line of an answer, zero if there is none.
pub open spec fn status_code(line: Seq<char>) -> nat {
    match second_word(line) {
        Some(word) => match text::parsed_number(word, 65535) {
            Some(n) => n,
            None => 0,
        },
        None => 0,
    }
}

/// The value of a `Location` header line.
pub open spec fn location_value(line: Seq<char>) -> Option<Seq<char>> {
    let n = text::span(line, seq![':']);
    if n < line.len() && text::lower_case(text::trim(line.take(n as int))) == "location"@ {
        Some(text::trim(line.skip(n as int + 1)))
    } else {
        None
    }
}

/// The value of the first `Location` header from line `from` on.
pub open spec fn first_location(lines: Seq<Seq<char>>, from: int) -> Option<Seq<char>>
    decreases lines.len() - from,
{
    if from >= lines.len() {
        None
    } else if location_value(lines[from]) is Some {
        location_value(lines[from])
    } else {
        first_location(lines, from + 1)
    }
}

fn read_status_code(line: &str) -> (code: u16)
    ensures
        code == status_code(line@),
{
    let chars = chars_of(line);
    assert(chars@.skip(0) =~= chars@);
    assert([' ']@ =~= seq![' ']);
    let first = span_end(&chars, 0, [' '].as_slice());
    if first >= chars.len() {
        return 0;
    }
    let end = span_end(&chars, first + 1, [' '].as_slice());
    proof {
        let rest = line@.skip(first as int + 1);
        assert(chars@.subrange(first + 1, end as int) =~= rest.take(end - first - 1));
    }
    let word = text_of(chars_between(&chars, first + 1, end));
    match parse_number(word.as_str(), 65535) {
        Some(n) => n as u16,
        None => 0,
    }
}

fn read_location(line: &str) -> (out: Option<String>)
    ensures
        text::text_option(out) == location_value(line@),
{
    let chars = chars_of(line);
    assert(chars@.skip(0) =~= chars@);
    assert([':']@ =~= seq![':']);
    let end = span_end(&chars, 0, [':'].as_slice());
    if end >= chars.len() {
        return None;
    }
    assert(chars@.subrange(0, end as int) =~= line@.take(end as int));
    assert(chars@.subrange(end + 1, chars@.len() as int) =~= line@.skip(end + 1));
    let name = trim_text(text_of(chars_between(&chars, 0, end)).as_str());
    let lower = name.as_str().to_lowercase();
    if same_text(lower.as_str(), "location") {
        let value = text_of(chars_between(&chars, end + 1, chars.len()));
        Some(trim_text(value.as_str()))
    } else {
        None
    }
}

/// Why a connection was not upgraded.
#[derive(Debug)]
pub enum UpgradeError {
    /// The server closed the connection without an answer.
    EmptyResponse,
    /// The server answered, but did not switch protocols.
    Handshake(WsHandshakeError),
}

/// The connection has been closed: nothing can be sent.
#[derive(Debug, Clone, Copy, PartialEq, Eq, Structural)]
pub struct WsClosed;

/// What a received frame asks for.
#[derive(Debug)]
pub enum Received {
    /// Hand this payload on.
    Data(Vec<u8>),
    /// Send this frame, and read on.
    Reply(Vec<u8>),
    /// Send this frame: the connection is closed.
    Closing(Vec<u8>),
    /// Read on.
    Nothing,
}

/// The client's side of a WebSocket connection.
#[derive(Debug)]
pub struct RawWebSocket {
    pub closed: bool,
}

impl RawWebSocket {
    /// Judges the server's answer to the upgrade request, line by line: the connection is open
    /// exactly when the status is 101.
    pub fn connect(response_lines: &Vec<String>) -> (out: Result<Self, UpgradeError>)
        ensures
            ({
                let lines = text::text_views(response_lines@);
                match out {
                    Ok(ws) => lines.len() > 0 && status_code(lines[0]) == 101 && !ws.closed,
                    Err(UpgradeError::EmptyResponse) => lines.len() == 0,
                    Err(UpgradeError::Handshake(e)) => {
                        &&& lines.len() > 0
                        &&& status_code(lines[0]) != 101
                        &&& e.status_code == status_code(lines[0])
                        &&& e.status_line@ == lines[0]
                        &&& text::text_option(e.location) == first_location(lines, 1)
                    },
                }
            }),
    {
        if response_lines.len() == 0 {
            return Err(UpgradeError::EmptyResponse);
        }
        let ghost lines = text::text_views(response_lines@);
        let code = read_status_code(response_lines[0].as_str());
        if code == 101 {
            return Ok(RawWebSocket { closed: false });
        }
        let mut location: Option<String> = None;
        let mut i: usize = 1;
        while i < response_lines.len() && location.is_none()
            invariant
                lines == text::text_views(response_lines@),
                1 <= i <= lines.len(),
                location is None ==> first_location(lines, 1) == first_location(lines, i as int),
                location is Some ==> first_location(lines, 1) == text::text_option(location),
            decreases lines.len() - i,
        {
            assert(lines[i as int] == response_lines@[i as int]@);
            location = read_location(response_lines[i].as_str());
            i = i + 1;
        }
        Err(
            UpgradeError::Handshake(
                WsHandshakeError {
                    status_code: code,
                    status_line: response_lines[0].clone(),
                    location,
                },
            ),
        )
    }

    /// The frame that carries `data`, unless the connection is closed.
    pub fn send(&self, data: &[u8]) -> (out: Result<Vec<u8>, WsClosed>)
        ensures
            out is Err <==> self.closed,
            out matches Ok(bytes) ==> is_masked_frame(bytes@, 0x2, data@),
    {
        if self.closed {
            return Err(WsClosed);
        }
        Ok(build_frame(0x2, data, true))
    }

    /// The frames that carry `parts`, one each, in order, unless the connection is closed.
    pub fn send_batch(&self, parts: &Vec<Vec<u8>>) -> (out: Result<Vec<Vec<u8>>, WsClosed>)
        ensures
            out is Err <==> self.closed,
            out matches Ok(frames) ==> {
                &&& frames@.len() == parts@.len()
                &&& forall|i: int|
                    0 <= i < parts@.len() ==> is_masked_frame(
                        (#[trigger] frames@[i])@,
                        0x2,
                        parts@[i]@,
                    )
            },
    {
        if self.closed {
            return Err(WsClosed);
        }
        let mut frames: Vec<Vec<u8>> = Vec::new();
        let mut i: usize = 0;
        while i < parts.len()
            invariant
                i <= parts@.len(),
                frames@.len() == i,
                forall|j: int|
                    0 <= j < i ==> is_masked_frame((#[trigger] frames@[j])@, 0x2, parts@[j]@),
            decreases parts@.len() - i,
        {
            frames.push(build_frame(0x2, parts[i].as_slice(), true));
            i = i + 1;
        }
        Ok(frames)
    }

    /// Decides what to do with a frame that came in. A close frame is answered with its first
    /// two bytes, a ping with its payload; text and binary frames are handed on.
    pub fn recv(&mut self, opcode: u8, payload: Vec<u8>) -> (out: Received)
        ensures
            final(self).closed == (old(self).closed || opcode == 0x8),
            match out {
                Received::Closing(bytes) => opcode == 0x8 && is_masked_frame(
                    bytes@,
                    0x8,
                    payload@.take(
                        if payload@.len() < 2 {
                            payload@.len() as int
                        } else {
                            2
                        },
                    ),
                ),
                Received::Reply(bytes) => opcode == 0x9 && is_masked_frame(
                    bytes@,
                    0xA,
                    payload@,
                ),
                Received::Data(data) => (opcode == 0x1 || opcode == 0x2) && data@ == payload@,
                Received::Nothing => opcode != 0x1 && opcode != 0x2 && opcode != 0x8 && opcode
                    != 0x9,
            },
    {
        if opcode == 0x8 {
            self.closed = true;
            let n: usize = if payload.len() < 2 {
                payload.len()
            } else {
                2
            };
            let code = slice_subrange(payload.as_slice(), 0, n);
            assert(code@ =~= payload@.take(n as int));
            Received::Closing(build_frame(0x8, code, true))
        } else if opcode == 0x9 {
            Received::Reply(build_frame(0xA, payload.as_slice(), true))
        } else if opcode == 0x1 || opcode == 0x2 {
            Received::Data(payload)
        } else {
            Received::Nothing
        }
    }

    /// Closes the connection. Gives the close frame, the first time.
    pub fn close(&mut self) -> (out: Option<Vec<u8>>)
        ensures
            final(self).closed,
            out is None <==> old(self).closed,
            out matches Some(bytes) ==> is_masked_frame(bytes@, 0x8, Seq::empty()),
    {
        if self.closed {
            return None;
        }
        self.closed = true;
        let nothing: Vec<u8> = Vec::new();
        Some(build_frame(0x8, nothing.as_slice(), true))
    }

    /// Whether the connection has been closed.
    pub fn is_closed(&self) -> (closed: bool)
        ensures
            closed == self.closed,
    {
        self.closed
    }
}

/// The bytes of a frame. The first byte holds the end flag and the opcode; the second one the mask
/// flag and a length below 126, or 126 before a length of two bytes, or 127 before one of eight,
/// the high byte first. Then the mask, if there is one, and the payload, under a mask with each
/// byte combined with one byte of the mask in turn.
pub proof fn law_frame_bytes(opcode: u8, data: Seq<u8>, mask: Option<Seq<u8>>)
    requires
        data.len() < 0x1_0000_0000_0000_0000,
        mask matches Some(key) ==> key.len() == 4,
    ensures
        ({
            let f = frame(opcode, data, mask);
            let flag: int = if mask is Some {
                128
            } else {
                0
            };
            let head: int = if data.len() < 126 {
                2
            } else if data.len() < 65536 {
                4
            } else {
                10
            };
            &&& f[0] == 0x80u8 | opcode
            &&& opcode < 16 ==> f[0] == 128 + opcode
            &&& data.len() < 126 ==> f[1] == flag + data.len()
            &&& 126 <= data.len() < 65536 ==> f[1] == flag + 126 && 256 * f[2] + f[3] == data.len()
            &&& 65536 <= data.len() ==> f[1] == flag + 127 && 0x100_0000_0000_0000 * f[2]
                + 0x1_0000_0000_0000 * f[3] + 0x100_0000_0000 * f[4] + 0x1_0000_0000 * f[5]
                + 0x100_0000 * f[6] + 0x1_0000 * f[7] + 0x100 * f[8] + f[9] == data.len()
            &&& match mask {
                Some(key) => {
                    &&& f.len() == head + 4 + data.len()
                    &&& f.subrange(head, head + 4) == key
                    &&& forall|i: int|
                        0 <= i < data.len() ==> #[trigger] f[head + 4 + i] == data[i] ^ key[i % 4]
                },
                None => {
                    &&& f.len() == head + data.len()
                    &&& f.skip(head) == data
                },
            }
        }),
{
    let f = frame(opcode, data, mask);
    let len = data.len();
    let field = length_field(len, mask is Some);
    bytes::lemma_pow256_values();
    if opcode < 16 {
        assert(opcode < 16 ==> 0x80u8 | opcode == 128 + opcode) by (bit_vector);
    }
    if len >= 65536 {
        bytes::lemma_be_round_trip(len, 8);
        let eight = bytes::be_bytes(len, 8);
        bytes::law_eight_bytes_value(eight);
        assert forall|k: int| 0 <= k < 8 implies f[2 + k] == #[trigger] eight[k] by {}
        assert(f[2] == eight[0] && f[3] == eight[1] && f[4] == eight[2] && f[5] == eight[3]
            && f[6] == eight[4] && f[7] == eight[5] && f[8] == eight[6] && f[9] == eight[7]);
    } else if len >= 126 {
        bytes::lemma_be_round_trip(len, 2);
        let two = bytes::be_bytes(len, 2);
        bytes::law_two_bytes_value(two);
        assert(f[2] == two[0] && f[3] == two[1]);
    }
    let head: int = 1 + field.len() as int;
    match mask {
        Some(key) => {
            assert(f.subrange(head, head + 4) =~= key);
            assert forall|i: int| 0 <= i < len implies #[trigger] f[head + 4 + i] == data[i]
                ^ key[i % 4] by {
                crypto::law_every_byte_masked(data, key, i);
                assert(f[head + 4 + i] == crypto::masked(data, key)[i]);
            }
        },
        None => {
            assert(f.skip(head) =~= data);
        },
    }
}

/// Whatever mask was drawn, a masked frame has the bytes that RFC 6455 asks for: its mask stands
/// in it, and its payload is combined with that mask byte by byte.
pub proof fn law_masked_frame_bytes(f: Seq<u8>, opcode: u8, data: Seq<u8>)
    requires
        data.len() < 0x1_0000_0000_0000_0000,
        opcode < 16,
        is_masked_frame(f, opcode, data),
    ensures
        ({
            let head: int = if data.len() < 126 {
                2
            } else if data.len() < 65536 {
                4
            } else {
                10
            };
            &&& f.len() == head + 4 + data.len()
            &&& f[0] == 128 + opcode
            &&& data.len() < 126 ==> f[1] == 128 + data.len()
            &&& 126 <= data.len() < 65536 ==> f[1] == 254 && 256 * f[2] + f[3] == data.len()
            &&& 65536 <= data.len() ==> f[1] == 255
            &&& forall|i: int|
                0 <= i < data.len() ==> #[trigger] f[head + 4 + i] == data[i] ^ f[head + i % 4]
        }),
{
    let key = choose|key: Seq<u8>|
        key.len() == 4 && f == #[trigger] frame(opcode, data, Some(key));
    law_frame_bytes(opcode, data, Some(key));
    let head: int = if data.len() < 126 {
        2
    } else if data.len() < 65536 {
        4
    } else {
        10
    };
    assert forall|i: int| 0 <= i < data.len() implies #[trigger] f[head + 4 + i] == data[i]
        ^ f[head + i % 4] by {
        assert(f.subrange(head, head + 4)[i % 4] == f[head + i % 4]);
    }
}

/// How a frame is read: the opcode from the low four bits of its first byte, the length from the
/// low seven bits of its second byte or the two or eight bytes behind it, the mask from the four
/// bytes before the payload if the second byte's high bit is set. Nothing is read before it is
/// needed.
pub proof fn law_frame_read(s: Seq<u8>)
    ensures
        s.len() < 2 ==> missing(s) == 2 - s.len(),
        s.len() >= 2 ==> {
            let low: int = s[1] as int % 128;
            let head: int = 2 + (if low == 126 {
                2int
            } else if low == 127 {
                8
            } else {
                0
            }) + (if s[1] >= 128 {
                4int
            } else {
                0
            });
            &&& head_len(s) == head
            &&& s.len() < head ==> missing(s) == head - s.len()
            &&& s.len() >= head ==> {
                let len: int = if low == 126 {
                    256 * s[2] + s[3]
                } else if low == 127 {
                    0x100_0000_0000_0000 * s[2] + 0x1_0000_0000_0000 * s[3] + 0x100_0000_0000
                        * s[4] + 0x1_0000_0000 * s[5] + 0x100_0000 * s[6] + 0x1_0000 * s[7] + 0x100
                        * s[8] + s[9]
                } else {
                    low
                };
                &&& payload_len(s) == len
                &&& s.len() < head + len ==> missing(s) == head + len - s.len()
                &&& s.len() >= head + len ==> {
                    &&& missing(s) == 0
                    &&& payload(s).len() == len
                    &&& s[1] < 128 ==> payload(s) == s.subrange(head, head + len)
                    &&& s[1] >= 128 ==> forall|i: int|
                        0 <= i < len ==> #[trigger] payload(s)[i] == s[head + i] ^ s[head - 4 + i
                            % 4]
                }
            }
        },
{
    if s.len() >= 2 && s.len() >= head_len(s) {
        if s[1] % 128 == 126 {
            bytes::law_two_bytes_value(s.subrange(2, 4));
        } else if s[1] % 128 == 127 {
            bytes::law_eight_bytes_value(s.subrange(2, 10));
        }
        let head = head_len(s) as int;
        let len = payload_len(s) as int;
        if s.len() >= head + len && s[1] >= 128 {
            let body = s.subrange(head, head + len);
            let key = s.subrange(head - 4, head);
            assert forall|i: int| 0 <= i < len implies #[trigger] payload(s)[i] == s[head + i]
                ^ s[head - 4 + i % 4] by {
                crypto::law_every_byte_masked(body, key, i);
            }
        }
    }
}

/// Five status codes send the client elsewhere.
pub proof fn law_redirects(code: u16)
    ensures
        WsHandshakeError::redirects(code) <==> (301 <= code <= 303 || code == 307 || code == 308),
{
}

/// The upgrade request: the path in its first line, the domain as the host, the key, and what
/// RFC 6455 asks for besides, each in a line of its own, and an empty line at the end.
pub proof fn law_upgrade_request(path: Seq<char>, domain: Seq<char>, ws_key: Seq<char>)
    ensures
        upgrade_text(path, domain, ws_key) == "GET "@ + path + " HTTP/1.1\r\nHost: "@ + domain
            + "\r\nUpgrade: websocket\r\nConnection: Upgrade\r\nSec-WebSocket-Key: "@ + ws_key
            + "\r\nSec-WebSocket-Version: 13\r\nSec-WebSocket-Protocol: binary\r\n\r\n"@,
{
}

/// The status code of an answer is the number between the first and the second blank of its first
/// line, or behind the first one. A line without a blank, and a word that is no number up to
/// 65535, have the status zero.
pub proof fn law_status_code(version: Seq<char>, code: Seq<char>, reason: Seq<char>)
    requires
        !version.contains(' '),
        !code.contains(' '),
    ensures
        status_code(version) == 0,
        ({
            let n = match text::parsed_number(code, 65535) {
                Some(n) => n,
                None => 0,
            };
            &&& status_code(version + seq![' '] + code) == n
            &&& status_code(version + seq![' '] + code + seq![' '] + reason) == n
        }),
{
    let blank = seq![' '];
    assert(blank[0] == ' ');
    lemma_span_to(version, blank, Seq::empty());
    let short = version + blank + code;
    let long = version + blank + code + blank + reason;
    lemma_span_to(version, blank, code);
    lemma_span_to(version, blank, code + blank + reason);
    assert(long =~= version + blank + (code + blank + reason));
    assert(short.skip(version.len() as int + 1) =~= code);
    assert(long.skip(version.len() as int + 1) =~= code + blank + reason);
    lemma_span_to(code, blank, reason);
    assert(code.take(code.len() as int) =~= code);
    assert((code + blank + reason).take(code.len() as int) =~= code);
}

/// A text without a stop spans up to its end, and up to a stop behind it.
proof fn lemma_span_to(s: Seq<char>, stop: Seq<char>, rest: Seq<char>)
    requires
        stop.len() == 1,
        !s.contains(stop[0]),
    ensures
        text::span(s, stop) == s.len(),
        text::span(s + stop + rest, stop) == s.len(),
{
    let whole = s + stop + rest;
    text::lemma_span_bound(s, stop);
    text::lemma_span_bound(whole, stop);
    let n = text::span(s, stop) as int;
    if n < s.len() {
        assert(stop.contains(s[n]));
        assert(s.contains(stop[0]));
    }
    let m = text::span(whole, stop) as int;
    assert(whole[s.len() as int] == stop[0]);
    assert(stop.contains(stop[0]));
    if m < s.len() {
        assert(stop.contains(whole[m]));
        assert(s.contains(stop[0]));
    }
    if m > s.len() {
        assert(!stop.contains(whole[s.len() as int]));
    }
}

/// A header line is the `Location` header if the text before its first colon is that word, in
/// whatever case and with whatever white space around it; its value is what follows, trimmed.
pub proof fn law_location(name: Seq<char>, value: Seq<char>)
    requires
        !name.contains(':'),
    ensures
        location_value(name) is None,
        location_value(name + seq![':'] + value) == if text::lower_case(text::trim(name))
            == "location"@ {
            Some(text::trim(value))
        } else {
            None
        },
{
    let colon = seq![':'];
    assert(colon[0] == ':');
    lemma_span_to(name, colon, value);
    let line = name + colon + value;
    assert(line.take(name.len() as int) =~= name);
    assert(line.skip(name.len() as int + 1) =~= value);
}

/// Of several `Location` headers the first one counts, from the line on where the search begins;
/// lines that are none are passed over.
pub proof fn law_first_location(lines: Seq<Seq<char>>, from: int)
    requires
        0 <= from <= lines.len(),
    ensures
        from == lines.len() ==> first_location(lines, from) is None,
        from < lines.len() && location_value(lines[from]) is Some ==> first_location(lines, from)
            == location_value(lines[from]),
        from < lines.len() && location_value(lines[from]) is None ==> first_location(lines, from)
            == first_location(lines, from + 1),
{
}

} // verus!
