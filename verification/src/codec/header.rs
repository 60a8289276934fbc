//! The fixed header: one byte of kind and flags, then the body's length in
//! one to four bytes of seven bits each, least significant first.

use super::Error;
use crate::buffer::{bytes_advance, bytes_contents, bytes_mut_contents, bytes_split_to, put_u8};
use bytes::{Bytes, BytesMut};
use vstd::prelude::*;

verus! {

/// The largest body length that four length bytes can spell.
pub const MAX_REMAINING_LEN: usize = 268_435_455;

/// The length of the longest frame: a header of five bytes and the longest
/// body.
pub const MAX_FRAME_LEN: usize = 268_435_460;

/// What the first bytes of a frame say of it.
#[derive(Clone, Copy, Debug, PartialEq, Eq, Structural)]
pub struct FixedHeader {
    /// Packet kind in the high nibble, flags in the low one.
    pub byte1: u8,
    /// Length of the header itself: the first byte and the length bytes.
    pub header_len: usize,
    /// Length of the body that follows the header.
    pub remaining_len: usize,
}

impl FixedHeader {
    /// Length of the whole frame.
    pub open spec fn spec_frame_length(self) -> int {
        self.header_len + self.remaining_len
    }

    /// The body of the frame that stands at the front of `buffer`: what
    /// follows the header, as far as the header says that the body goes.
    /// What stands behind the frame is no part of it.
    pub open spec fn body(self, buffer: Seq<u8>) -> Seq<u8> {
        buffer.subrange(self.header_len as int, self.spec_frame_length())
    }

    /// A header as `check` returns it: two to five bytes long, with a body
    /// that four length bytes can spell.
    pub open spec fn wf(self) -> bool {
        2 <= self.header_len <= 5 && self.remaining_len <= MAX_REMAINING_LEN
    }

    /// Length of the whole frame.
    pub fn frame_length(&self) -> (n: usize)
        requires
            self.wf(),
        ensures
            n == self.spec_frame_length(),
    {
        self.header_len + self.remaining_len
    }

    /// The packet kind's number: the high nibble of the first byte.
    pub fn kind(&self) -> (k: u8)
        ensures
            k == self.byte1 / 16,
    {
        self.byte1 / 16
    }
}

/// Takes the body of the frame at the front of `bytes` out of it.
pub(crate) fn take_body(fixed_header: &FixedHeader, bytes: Bytes) -> (body: Bytes)
    requires
        fixed_header.wf(),
        fixed_header.spec_frame_length() <= bytes_contents(bytes).len(),
    ensures
        bytes_contents(body) == fixed_header.body(bytes_contents(bytes)),
{
    let mut rest = bytes;
    bytes_advance(&mut rest, fixed_header.header_len);
    let body = bytes_split_to(&mut rest, fixed_header.remaining_len);
    assert(bytes_contents(body) =~= fixed_header.body(bytes_contents(bytes)));
    body
}

/// The length that the front of `s` spells in at most `budget` bytes, and
/// how many bytes spell it. A byte under 128 ends the number; one from 128
/// up contributes its low seven bits and announces another byte.
pub open spec fn take_varint(s: Seq<u8>, budget: nat) -> Result<(int, int), Error>
    decreases budget,
{
    if budget == 0 {
        Err(Error::MalformedRemainingLength)
    } else if s.len() == 0 {
        Err(Error::InsufficientBytes(1))
    } else if s[0] < 128 {
        Ok((s[0] as int, 1))
    } else {
        match take_varint(s.skip(1), (budget - 1) as nat) {
            Ok((v, n)) => Ok(((s[0] - 128) + 128 * v, n + 1)),
            Err(e) => Err(e),
        }
    }
}

/// The bytes that spell `n` as a length.
pub open spec fn wire_varint(n: int) -> Seq<u8>
    decreases n,
{
    if n < 128 {
        seq![n as u8]
    } else {
        seq![(n % 128 + 128) as u8] + wire_varint(n / 128)
    }
}

/// 128 to the power `k`.
pub open spec fn pow128(k: nat) -> int
    decreases k,
{
    if k == 0 {
        1
    } else {
        128 * pow128((k - 1) as nat)
    }
}

/// What the front of a stream says of the frame it starts, for a reader
/// that accepts bodies of up to `max` bytes.
pub open spec fn fixed_header(stream: Seq<u8>, max: usize) -> Result<FixedHeader, Error> {
    if stream.len() < 2 {
        Err(Error::InsufficientBytes((2 - stream.len()) as usize))
    } else {
        match take_varint(stream.skip(1), 4) {
            Err(e) => Err(e),
            Ok((len, n)) => if len > max {
                Err(Error::PayloadSizeLimitExceeded(len as usize))
            } else if stream.len() < 1 + n + len {
                Err(Error::InsufficientBytes((1 + n + len - stream.len()) as usize))
            } else {
                Ok(
                    FixedHeader {
                        byte1: stream[0],
                        header_len: (1 + n) as usize,
                        remaining_len: len as usize,
                    },
                )
            },
        }
    }
}

/// A length read in at most `budget` bytes uses between one and `budget`
/// of them and stays under 128 to the power `budget`.
pub proof fn lemma_take_varint_bounds(s: Seq<u8>, budget: nat)
    ensures
        take_varint(s, budget) matches Ok((v, n)) ==> 1 <= n <= budget && n <= s.len() && 0 <= v
            < pow128(budget),
    decreases budget,
{
    if budget > 0 && s.len() > 0 && s[0] >= 128 {
        lemma_take_varint_bounds(s.skip(1), (budget - 1) as nat);
    }
    if budget > 0 {
        assert(pow128(budget) == 128 * pow128((budget - 1) as nat));
        assert(pow128((budget - 1) as nat) >= 1) by {
            lemma_pow128_positive((budget - 1) as nat);
        }
    }
}

/// Every power of 128 is at least 1.
pub proof fn lemma_pow128_positive(k: nat)
    ensures
        pow128(k) >= 1,
    decreases k,
{
    if k > 0 {
        lemma_pow128_positive((k - 1) as nat);
    }
}

/// The fourth power of 128 is one more than the largest body length.
pub proof fn lemma_pow128_4()
    ensures
        pow128(4) == MAX_REMAINING_LEN + 1,
{
    reveal_with_fuel(pow128, 5);
}

/// Reading back a written length gives the length, whatever follows it.
pub proof fn lemma_varint_round_trip(n: int, tail: Seq<u8>, budget: nat)
    requires
        budget >= 1,
        0 <= n < pow128(budget),
    ensures
        take_varint(wire_varint(n) + tail, budget) == Ok::<(int, int), Error>(
            (n, wire_varint(n).len() as int),
        ),
        1 <= wire_varint(n).len() <= budget,
    decreases budget,
{
    if n < 128 {
        assert((wire_varint(n) + tail)[0] == n as u8);
    } else {
        let rest = wire_varint(n / 128);
        let s = wire_varint(n) + tail;
        assert(pow128(budget) == 128 * pow128((budget - 1) as nat));
        assert(budget >= 2) by {
            reveal_with_fuel(pow128, 2);
        }
        lemma_varint_round_trip(n / 128, tail, (budget - 1) as nat);
        assert(s[0] == (n % 128 + 128) as u8);
        assert(s.skip(1) =~= rest + tail);
    }
}

/// Reads the body length from the bytes after a frame's first byte.
fn length(stream: &[u8]) -> (r: Result<(usize, usize), Error>)
    requires
        stream@.len() >= 1,
    ensures
        r == match take_varint(stream@.skip(1), 4) {
            Ok((v, n)) => Ok::<(usize, usize), Error>((n as usize, v as usize)),
            Err(e) => Err(e),
        },
        r matches Ok((n, v)) ==> 1 <= n <= 4 && v <= MAX_REMAINING_LEN && 1 + n <= stream@.len(),
{
    let ghost body = stream@.skip(1);
    let mut len: usize = 0;
    let mut mult: usize = 1;
    let mut i: usize = 0;
    proof {
        lemma_take_varint_bounds(body, 4);
        lemma_pow128_4();
        reveal_with_fuel(pow128, 5);
        assert(body.skip(0) =~= body);
    }
    while i < 4
        invariant
            i <= 4,
            stream@.len() >= 1,
            body == stream@.skip(1),
            body.len() == stream@.len() - 1,
            mult == pow128(i as nat),
            i <= body.len(),
            0 <= len < mult,
            take_varint(body, 4) == match take_varint(body.skip(i as int), (4 - i) as nat) {
                Ok((v, n)) => Ok::<(int, int), Error>((len + mult * v, n + i)),
                Err(e) => Err(e),
            },
        decreases 4 - i,
    {
        proof {
            reveal_with_fuel(pow128, 5);
        }
        let ghost rest = body.skip(i as int);
        if 1 + i >= stream.len() {
            assert(rest.len() == 0);
            return Err(Error::InsufficientBytes(1));
        }
        let byte = stream[1 + i];
        assert(rest[0] == byte);
        assert(rest.skip(1) =~= body.skip(i + 1));
        if byte < 128 {
            assert(mult * byte <= mult * 127) by (nonlinear_arith)
                requires
                    byte <= 127,
                    mult >= 0,
            ;
            len = len + mult * (byte as usize);
            proof {
                lemma_take_varint_bounds(body, 4);
                lemma_pow128_4();
            }
            return Ok((i + 1, len));
        }
        let ghost inner = take_varint(body.skip(i + 1), (4 - i - 1) as nat);
        assert(mult * (byte - 128) <= mult * 127) by (nonlinear_arith)
            requires
                byte - 128 <= 127,
                mult >= 0,
        ;
        proof {
            if let Ok((v, n)) = inner {
                assert(len + mult * ((byte - 128) + 128 * v) == (len + mult * (byte - 128)) + (mult
                    * 128) * v) by (nonlinear_arith);
            }
        }
        len = len + mult * ((byte - 128) as usize);
        mult = mult * 128;
        i = i + 1;
    }
    Err(Error::MalformedRemainingLength)
}

/// Reads the fixed header at the front of `stream` and checks that the
/// whole frame is there and that its body is no longer than
/// `max_packet_size`.
pub fn check(stream: &[u8], max_packet_size: usize) -> (r: Result<FixedHeader, Error>)
    ensures
        r == fixed_header(stream@, max_packet_size),
        r matches Ok(h) ==> h.wf() && h.spec_frame_length() <= stream@.len(),
{
    let stream_len = stream.len();
    if stream_len < 2 {
        return Err(Error::InsufficientBytes(2 - stream_len));
    }
    proof {
        lemma_take_varint_bounds(stream@.skip(1), 4);
        lemma_pow128_4();
    }
    let (len_len, len) = match length(stream) {
        Ok(found) => found,
        Err(e) => {
            return Err(e);
        },
    };
    if len > max_packet_size {
        return Err(Error::PayloadSizeLimitExceeded(len));
    }
    let frame_length = 1 + len_len + len;
    if stream_len < frame_length {
        return Err(Error::InsufficientBytes(frame_length - stream_len));
    }
    Ok(FixedHeader { byte1: stream[0], header_len: 1 + len_len, remaining_len: len })
}

/// A whole frame: the first byte, the body's length, the body.
pub open spec fn frame(byte1: u8, body: Seq<u8>) -> Seq<u8> {
    seq![byte1] + wire_varint(body.len() as int) + body
}

/// The header that `frame` puts before a body.
pub open spec fn header_of(byte1: u8, body: Seq<u8>) -> FixedHeader {
    FixedHeader {
        byte1,
        header_len: (1 + wire_varint(body.len() as int).len()) as usize,
        remaining_len: body.len() as usize,
    }
}

/// A frame at the front of a stream is recognised as such: its header is
/// read back as written, and the body stands right behind the header.
pub proof fn lemma_frame_header(byte1: u8, body: Seq<u8>, tail: Seq<u8>, max: usize)
    requires
        body.len() <= MAX_REMAINING_LEN,
        body.len() <= max,
    ensures
        fixed_header(frame(byte1, body) + tail, max) == Ok::<FixedHeader, Error>(
            header_of(byte1, body),
        ),
        header_of(byte1, body).wf(),
        header_of(byte1, body).spec_frame_length() == frame(byte1, body).len(),
        (frame(byte1, body) + tail).take(frame(byte1, body).len() as int) == frame(byte1, body),
        frame(byte1, body).skip(header_of(byte1, body).header_len as int) == body,
{
    let len = body.len() as int;
    let stream = frame(byte1, body) + tail;
    lemma_pow128_4();
    lemma_varint_round_trip(len, body + tail, 4);
    assert(stream.skip(1) =~= wire_varint(len) + (body + tail));
    assert(stream[0] == byte1);
    assert(stream.take(frame(byte1, body).len() as int) =~= frame(byte1, body));
    assert(frame(byte1, body).skip(1 + wire_varint(len).len() as int) =~= body);
}

/// Appends a body length in its one to four bytes and returns how many
/// they are.
pub(crate) fn write_remaining_length(stream: &mut BytesMut, len: usize) -> (count: usize)
    requires
        len <= MAX_REMAINING_LEN,
        bytes_mut_contents(*old(stream)).len() + wire_varint(len as int).len() <= isize::MAX,
    ensures
        bytes_mut_contents(*final(stream)) == bytes_mut_contents(*old(stream)) + wire_varint(
            len as int,
        ),
        count == wire_varint(len as int).len(),
        1 <= count <= 4,
{
    let ghost start = bytes_mut_contents(*stream);
    let ghost total = wire_varint(len as int);
    let mut x = len;
    let mut count: usize = 0;
    proof {
        lemma_pow128_4();
        lemma_varint_round_trip(len as int, Seq::empty(), 4);
    }
    while x >= 128
        invariant
            start + total == bytes_mut_contents(*stream) + wire_varint(x as int),
            count + wire_varint(x as int).len() == total.len(),
            bytes_mut_contents(*stream).len() == start.len() + count,
            total.len() <= 4,
            start.len() + total.len() <= isize::MAX,
        decreases x,
    {
        let byte = (x % 128) as u8 + 128;
        let ghost before = bytes_mut_contents(*stream);
        put_u8(stream, byte);
        proof {
            let rest = wire_varint((x / 128) as int);
            assert(wire_varint(x as int) == seq![byte] + rest);
            assert(before.push(byte) + rest =~= before + (seq![byte] + rest));
        }
        x = x / 128;
        count = count + 1;
    }
    let ghost before = bytes_mut_contents(*stream);
    put_u8(stream, x as u8);
    assert(before.push(x as u8) =~= before + wire_varint(x as int));
    count + 1
}

} // verus!
