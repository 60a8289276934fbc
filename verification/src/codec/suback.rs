//! The acknowledgement of a subscribe, with one return code for each filter.

use super::header::{frame, write_remaining_length, FixedHeader, MAX_REMAINING_LEN};
use super::primitives::wire_u16;
use super::{qos, qos_num, qos_of, qos_to_u8, Error, QoS};
use crate::buffer::{
    be16, bytes_advance, bytes_contents, bytes_get_u16, bytes_get_u8, bytes_mut_contents,
    put_u16, put_u8,
};
use bytes::{Bytes, BytesMut};
use vstd::prelude::*;

verus! {

/// Acknowledgement to subscribe
#[derive(Debug, PartialEq)]
pub struct SubAck {
    pub pkid: u16,
    pub return_codes: Vec<SubscribeReturnCodes>,
}

/// Subscription return code
#[derive(Debug, Clone, Copy, PartialEq, Eq, Structural)]
pub enum SubscribeReturnCodes {
    Success(QoS),
    Failure,
}

/// A subscribe acknowledgement as a value: the packet id and the return
/// codes in their order.
pub struct SubAckView {
    pub pkid: u16,
    pub return_codes: Seq<SubscribeReturnCodes>,
}

impl View for SubAck {
    type V = SubAckView;

    open spec fn view(&self) -> SubAckView {
        SubAckView { pkid: self.pkid, return_codes: self.return_codes@ }
    }
}

impl Clone for SubAck {
    fn clone(&self) -> (r: Self)
        ensures
            r@ == self@,
    {
        let mut return_codes: Vec<SubscribeReturnCodes> = Vec::new();
        let mut i: usize = 0;
        while i < self.return_codes.len()
            invariant
                i <= self.return_codes@.len(),
                return_codes@ == self.return_codes@.take(i as int),
            decreases self.return_codes@.len() - i,
        {
            return_codes.push(self.return_codes[i]);
            assert(return_codes@ =~= self.return_codes@.take(i + 1));
            i += 1;
        }
        assert(self.return_codes@.take(i as int) =~= self.return_codes@);
        SubAck { pkid: self.pkid, return_codes }
    }
}

/// What one return code byte says: the top bit means failure, otherwise the
/// two lowest bits hold the granted quality of service.
pub open spec fn return_code_of(byte: u8) -> Result<SubscribeReturnCodes, Error> {
    if byte >= 128 {
        Ok(SubscribeReturnCodes::Failure)
    } else {
        match qos_of(byte % 4) {
            Some(q) => Ok(SubscribeReturnCodes::Success(q)),
            None => Err(Error::InvalidQoS(byte % 4)),
        }
    }
}

/// The byte that spells a return code.
pub open spec fn return_code_byte(code: SubscribeReturnCodes) -> u8 {
    match code {
        SubscribeReturnCodes::Success(q) => qos_num(q),
        SubscribeReturnCodes::Failure => 0x80,
    }
}

/// What a run of return code bytes says, or the complaint about the first
/// byte that says nothing.
pub open spec fn parse_codes(s: Seq<u8>) -> Result<Seq<SubscribeReturnCodes>, Error>
    decreases s.len(),
{
    if s.len() == 0 {
        Ok(Seq::empty())
    } else {
        match return_code_of(s[0]) {
            Err(e) => Err(e),
            Ok(code) => match parse_codes(s.skip(1)) {
                Err(e) => Err(e),
                Ok(rest) => Ok(seq![code] + rest),
            },
        }
    }
}

/// The bytes that spell a run of return codes.
pub open spec fn wire_codes(codes: Seq<SubscribeReturnCodes>) -> Seq<u8> {
    Seq::new(codes.len(), |i: int| return_code_byte(codes[i]))
}

impl SubAckView {
    /// Whether the acknowledgement fits a frame.
    pub open spec fn encodable(self) -> bool {
        2 + self.return_codes.len() <= MAX_REMAINING_LEN
    }

    /// The body of the acknowledgement: the packet id, then one byte for
    /// each return code.
    pub open spec fn wire_body(self) -> Seq<u8> {
        wire_u16(self.pkid) + wire_codes(self.return_codes)
    }

    /// The frame of the acknowledgement.
    pub open spec fn wire(self) -> Seq<u8> {
        frame(0x90, self.wire_body())
    }
}

impl SubAck {
    /// What the body of a subscribe acknowledgement says.
    pub open spec fn parse_body(body: Seq<u8>) -> Result<SubAckView, Error> {
        if body.len() < 2 {
            Err(Error::MalformedPacket)
        } else {
            match parse_codes(body.skip(2)) {
                Err(e) => Err(e),
                Ok(return_codes) => Ok(
                    SubAckView { pkid: be16(body[0], body[1]) as u16, return_codes },
                ),
            }
        }
    }

    pub fn new(pkid: u16, return_codes: Vec<SubscribeReturnCodes>) -> (r: SubAck)
        ensures
            r.pkid == pkid,
            r.return_codes == return_codes,
    {
        SubAck { pkid, return_codes }
    }

    /// Reads a subscribe acknowledgement out of its frame.
    pub fn assemble(fixed_header: FixedHeader, bytes: Bytes) -> (r: Result<Self, Error>)
        requires
            fixed_header.wf(),
            fixed_header.spec_frame_length() <= bytes_contents(bytes).len(),
        ensures
            match Self::parse_body(fixed_header.body(bytes_contents(bytes))) {
                Ok(v) => r is Ok && r->Ok_0@ == v,
                Err(e) => r == Err::<Self, Error>(e),
            },
    {
        let mut stream = bytes;
        let variable_header_index = fixed_header.header_len;
        bytes_advance(&mut stream, variable_header_index);
        if fixed_header.remaining_len < 2 {
            return Err(Error::MalformedPacket);
        }
        let ghost body = fixed_header.body(bytes_contents(bytes));
        assert(body =~= bytes_contents(stream).take(fixed_header.remaining_len as int));

        let pkid = bytes_get_u16(&mut stream);
        let mut payload_bytes = fixed_header.remaining_len - 2;
        let mut return_codes = Vec::with_capacity(payload_bytes);
        let ghost codes = body.skip(2);
        assert(codes =~= bytes_contents(stream).take(payload_bytes as int));

        while payload_bytes > 0
            invariant
                payload_bytes <= bytes_contents(stream).len(),
                body == fixed_header.body(bytes_contents(bytes)),
                body.len() >= 2,
                codes == body.skip(2),
                parse_codes(codes) == match parse_codes(
                    bytes_contents(stream).take(payload_bytes as int),
                ) {
                    Ok(rest) => Ok::<Seq<SubscribeReturnCodes>, Error>(return_codes@ + rest),
                    Err(e) => Err(e),
                },
            decreases payload_bytes,
        {
            let ghost before = return_codes@;
            let ghost unread = bytes_contents(stream).take(payload_bytes as int);
            let return_code = bytes_get_u8(&mut stream);
            assert(return_code >> 7 == 1 <==> return_code >= 128) by (bit_vector);
            assert(return_code & 0x3 == return_code % 4) by (bit_vector);
            assert(unread[0] == return_code);
            if return_code >> 7 == 1 {
                return_codes.push(SubscribeReturnCodes::Failure)
            } else {
                match qos(return_code & 0x3) {
                    Ok(granted) => return_codes.push(SubscribeReturnCodes::Success(granted)),
                    Err(e) => {
                        assert(return_code_of(unread[0]) == Err::<SubscribeReturnCodes, Error>(e));
                        assert(parse_codes(unread) == Err::<Seq<SubscribeReturnCodes>, Error>(e));
                        return Err(e);
                    },
                }
            }
            payload_bytes -= 1;
            proof {
                let left = bytes_contents(stream).take(payload_bytes as int);
                assert(left =~= unread.skip(1));
                if let Ok(rest) = parse_codes(left) {
                    assert(before + (seq![return_codes@.last()] + rest) =~= return_codes@ + rest);
                }
            }
        }
        let suback = SubAck { pkid, return_codes };
        proof {
            assert(bytes_contents(stream).take(0) =~= Seq::<u8>::empty());
            assert(return_codes@ + Seq::<SubscribeReturnCodes>::empty() =~= return_codes@);
        }

        Ok(suback)
    }

    /// Appends the acknowledgement's frame and returns its length. An
    /// acknowledgement too long for a frame is refused and nothing is
    /// written.
    pub fn write(&self, stream: &mut BytesMut) -> (r: Result<usize, Error>)
        requires
            self@.encodable() ==> bytes_mut_contents(*old(stream)).len() + self@.wire().len()
                <= isize::MAX,
        ensures
            match r {
                Ok(n) => self@.encodable() && n == self@.wire().len() && bytes_mut_contents(
                    *final(stream),
                ) == bytes_mut_contents(*old(stream)) + self@.wire(),
                Err(e) => !self@.encodable() && e == Error::PayloadTooLong && bytes_mut_contents(
                    *final(stream),
                ) == bytes_mut_contents(*old(stream)),
            },
    {
        if self.return_codes.len() > MAX_REMAINING_LEN - 2 {
            return Err(Error::PayloadTooLong);
        }
        let remaining_len = 2 + self.return_codes.len();
        let ghost start = bytes_mut_contents(*stream);
        let ghost codes = wire_codes(self.return_codes@);
        proof {
            super::header::lemma_pow128_4();
            super::header::lemma_varint_round_trip(remaining_len as int, Seq::empty(), 4);
        }
        put_u8(stream, 0x90);
        let count = write_remaining_length(stream, remaining_len);
        put_u16(stream, self.pkid);
        let ghost head = bytes_mut_contents(*stream);
        let mut i: usize = 0;
        while i < self.return_codes.len()
            invariant
                i <= self.return_codes.len(),
                codes == wire_codes(self.return_codes@),
                bytes_mut_contents(*stream) == head + codes.take(i as int),
                head.len() + self.return_codes.len() <= isize::MAX,
            decreases self.return_codes.len() - i,
        {
            let byte = match self.return_codes[i] {
                SubscribeReturnCodes::Success(granted) => qos_to_u8(granted),
                SubscribeReturnCodes::Failure => 0x80,
            };
            put_u8(stream, byte);
            assert(codes.take(i as int).push(byte) =~= codes.take(i + 1));
            i += 1;
        }
        proof {
            assert(codes.take(i as int) =~= codes);
            assert(bytes_mut_contents(*stream) =~= start + self@.wire());
        }
        Ok(1 + count + remaining_len)
    }
}

/// A run of return codes read back from its bytes is the same run.
pub proof fn lemma_codes_round_trip(codes: Seq<SubscribeReturnCodes>)
    ensures
        parse_codes(wire_codes(codes)) == Ok::<Seq<SubscribeReturnCodes>, Error>(codes),
    decreases codes.len(),
{
    let s = wire_codes(codes);
    if codes.len() == 0 {
        assert(codes =~= Seq::empty());
    } else {
        lemma_codes_round_trip(codes.skip(1));
        assert(s.skip(1) =~= wire_codes(codes.skip(1)));
        assert(return_code_of(s[0]) == Ok::<SubscribeReturnCodes, Error>(codes[0]));
        assert(seq![codes[0]] + codes.skip(1) =~= codes);
    }
}

/// A subscribe acknowledgement read back from its body is the same.
pub proof fn lemma_suback_round_trip(p: SubAckView)
    ensures
        SubAck::parse_body(p.wire_body()) == Ok::<SubAckView, Error>(p),
{
    let body = p.wire_body();
    lemma_codes_round_trip(p.return_codes);
    super::primitives::lemma_u16_round_trip(p.pkid, wire_codes(p.return_codes));
    assert(body.skip(2) =~= wire_codes(p.return_codes));
}

} // verus!
