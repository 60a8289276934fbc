//! The acknowledgement of a connect.

use super::header::{frame, FixedHeader};
use super::Error;
use crate::buffer::{
    bytes_advance, bytes_contents, bytes_get_u8, bytes_mut_contents, put_u8,
};
use bytes::{Bytes, BytesMut};
use vstd::prelude::*;

verus! {

/// Return code in connack
#[derive(Debug, Clone, Copy, PartialEq, Eq, Structural)]
pub enum ConnectReturnCode {
    Accepted,
    BadProtocolVersion,
    BadClientId,
    ServiceUnavailable,
    BadUsernamePassword,
    NotAuthorized,
}

/// Acknowledgement to connect packet
#[derive(Debug, Clone, Copy, PartialEq, Eq, Structural)]
pub struct ConnAck {
    pub session_present: bool,
    pub code: ConnectReturnCode,
}

/// The return code that a wire number stands for, if it stands for one.
pub open spec fn return_code_of(num: u8) -> Option<ConnectReturnCode> {
    if num == 0 {
        Some(ConnectReturnCode::Accepted)
    } else if num == 1 {
        Some(ConnectReturnCode::BadProtocolVersion)
    } else if num == 2 {
        Some(ConnectReturnCode::BadClientId)
    } else if num == 3 {
        Some(ConnectReturnCode::ServiceUnavailable)
    } else if num == 4 {
        Some(ConnectReturnCode::BadUsernamePassword)
    } else if num == 5 {
        Some(ConnectReturnCode::NotAuthorized)
    } else {
        None
    }
}

/// The wire number of a return code.
pub open spec fn return_code_num(code: ConnectReturnCode) -> u8 {
    match code {
        ConnectReturnCode::Accepted => 0,
        ConnectReturnCode::BadProtocolVersion => 1,
        ConnectReturnCode::BadClientId => 2,
        ConnectReturnCode::ServiceUnavailable => 3,
        ConnectReturnCode::BadUsernamePassword => 4,
        ConnectReturnCode::NotAuthorized => 5,
    }
}

/// Maps a wire number to its return code; 6 and above are refused.
pub fn connect_return(num: u8) -> (r: Result<ConnectReturnCode, Error>)
    ensures
        r == match return_code_of(num) {
            Some(code) => Ok::<ConnectReturnCode, Error>(code),
            None => Err(Error::InvalidConnectReturnCode(num)),
        },
{
    match num {
        0 => Ok(ConnectReturnCode::Accepted),
        1 => Ok(ConnectReturnCode::BadProtocolVersion),
        2 => Ok(ConnectReturnCode::BadClientId),
        3 => Ok(ConnectReturnCode::ServiceUnavailable),
        4 => Ok(ConnectReturnCode::BadUsernamePassword),
        5 => Ok(ConnectReturnCode::NotAuthorized),
        num => Err(Error::InvalidConnectReturnCode(num)),
    }
}

/// Maps a return code to its wire number.
pub fn connect_code(code: ConnectReturnCode) -> (n: u8)
    ensures
        n == return_code_num(code),
        return_code_of(n) == Some(code),
{
    match code {
        ConnectReturnCode::Accepted => 0,
        ConnectReturnCode::BadProtocolVersion => 1,
        ConnectReturnCode::BadClientId => 2,
        ConnectReturnCode::ServiceUnavailable => 3,
        ConnectReturnCode::BadUsernamePassword => 4,
        ConnectReturnCode::NotAuthorized => 5,
    }
}

impl ConnAck {
    /// What the body of a connection acknowledgement says: a flags byte,
    /// whose lowest bit tells of a stored session, and a return code.
    pub open spec fn parse_body(body: Seq<u8>) -> Result<ConnAck, Error> {
        if body.len() != 2 {
            Err(Error::PayloadSizeIncorrect)
        } else {
            match return_code_of(body[1]) {
                None => Err(Error::InvalidConnectReturnCode(body[1])),
                Some(code) => Ok(ConnAck { session_present: body[0] % 2 == 1, code }),
            }
        }
    }

    /// The body of a connection acknowledgement.
    pub open spec fn wire_body(self) -> Seq<u8> {
        seq![if self.session_present { 1u8 } else { 0u8 }, return_code_num(self.code)]
    }

    /// The frame of a connection acknowledgement.
    pub open spec fn wire(self) -> Seq<u8> {
        frame(0x20, self.wire_body())
    }

    pub fn new(code: ConnectReturnCode, session_present: bool) -> (r: ConnAck)
        ensures
            r == (ConnAck { session_present, code }),
    {
        ConnAck { code, session_present }
    }

    /// Reads a connection acknowledgement out of its frame.
    pub fn assemble(fixed_header: FixedHeader, bytes: Bytes) -> (r: Result<Self, Error>)
        requires
            fixed_header.wf(),
            fixed_header.spec_frame_length() <= bytes_contents(bytes).len(),
        ensures
            r == Self::parse_body(fixed_header.body(bytes_contents(bytes))),
    {
        let mut bytes = bytes;
        if fixed_header.remaining_len != 2 {
            return Err(Error::PayloadSizeIncorrect);
        }
        let variable_header_index = fixed_header.header_len;
        bytes_advance(&mut bytes, variable_header_index);
        let flags = bytes_get_u8(&mut bytes);
        let return_code = bytes_get_u8(&mut bytes);
        let session_present = flags % 2 == 1;
        let code = match connect_return(return_code) {
            Ok(code) => code,
            Err(e) => {
                return Err(e);
            },
        };
        Ok(ConnAck { session_present, code })
    }

    /// Appends the acknowledgement's frame and returns its length.
    pub fn write(&self, stream: &mut BytesMut) -> (r: Result<usize, Error>)
        requires
            bytes_mut_contents(*old(stream)).len() + 4 <= isize::MAX,
        ensures
            r == Ok::<usize, Error>(4),
            bytes_mut_contents(*final(stream)) == bytes_mut_contents(*old(stream)) + self.wire(),
    {
        put_u8(stream, 0x20);
        put_u8(stream, 0x02);
        put_u8(stream, if self.session_present { 1 } else { 0 });
        put_u8(stream, connect_code(self.code));
        proof {
            reveal_with_fuel(super::header::wire_varint, 2);
            assert(bytes_mut_contents(*stream) =~= bytes_mut_contents(*old(stream)) + self.wire());
        }
        Ok(4)
    }
}

/// A connection acknowledgement read back from its body is the same.
pub proof fn lemma_connack_round_trip(p: ConnAck)
    ensures
        ConnAck::parse_body(p.wire_body()) == Ok::<ConnAck, Error>(p),
{
}

} // verus!
