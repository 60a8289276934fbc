//! The acknowledgement of an unsubscribe.

use super::header::{frame, FixedHeader};
use super::primitives::wire_u16;
use super::Error;
use crate::buffer::{
    be16, bytes_advance, bytes_contents, bytes_get_u16, bytes_mut_contents, put_u16, put_u8,
};
use bytes::{Bytes, BytesMut};
use vstd::prelude::*;

verus! {

/// Acknowledgement to unsubscribe
#[derive(Debug, Clone, Copy, PartialEq, Eq, Structural)]
pub struct UnsubAck {
    pub pkid: u16,
}

impl UnsubAck {
    /// What the body of an unsubscribe acknowledgement says: exactly a packet id.
    pub open spec fn parse_body(body: Seq<u8>) -> Result<UnsubAck, Error> {
        if body.len() != 2 {
            Err(Error::PayloadSizeIncorrect)
        } else {
            Ok(UnsubAck { pkid: be16(body[0], body[1]) as u16 })
        }
    }

    /// The frame of an unsubscribe acknowledgement.
    pub open spec fn wire(self) -> Seq<u8> {
        frame(0xB0, wire_u16(self.pkid))
    }

    pub fn new(pkid: u16) -> (r: UnsubAck)
        ensures
            r.pkid == pkid,
    {
        UnsubAck { pkid }
    }

    /// Reads an unsubscribe acknowledgement out of its frame.
    pub fn assemble(fixed_header: FixedHeader, bytes: Bytes) -> (r: Result<Self, Error>)
        requires
            fixed_header.wf(),
            fixed_header.spec_frame_length() <= bytes_contents(bytes).len(),
        ensures
            r == Self::parse_body(fixed_header.body(bytes_contents(bytes))),
    {
        let mut bytes = bytes;
        if fixed_header.remaining_len != 2 {
            return Err(Error::PayloadSizeIncorrect);
        }
        let variable_header_index = fixed_header.header_len;
        bytes_advance(&mut bytes, variable_header_index);
        let pkid = bytes_get_u16(&mut bytes);
        let unsuback = UnsubAck { pkid };

        Ok(unsuback)
    }

    /// Appends the frame of the unsubscribe acknowledgement and returns its length.
    pub fn write(&self, stream: &mut BytesMut) -> (r: Result<usize, Error>)
        requires
            bytes_mut_contents(*old(stream)).len() + 4 <= isize::MAX,
        ensures
            r == Ok::<usize, Error>(4),
            bytes_mut_contents(*final(stream)) == bytes_mut_contents(*old(stream)) + self.wire(),
    {
        put_u8(stream, 0xB0);
        put_u8(stream, 0x02);
        put_u16(stream, self.pkid);
        proof {
            reveal_with_fuel(super::header::wire_varint, 2);
            assert(bytes_mut_contents(*stream) =~= bytes_mut_contents(*old(stream)) + self.wire());
        }
        Ok(4)
    }
}

/// An unsubscribe acknowledgement read back from its frame's body is the same.
pub proof fn lemma_unsuback_round_trip(p: UnsubAck)
    ensures
        UnsubAck::parse_body(wire_u16(p.pkid)) == Ok::<UnsubAck, Error>(p),
{
}

} // verus!
