//! The packet that carries a message.

use super::header::{
    frame, take_body, write_remaining_length, FixedHeader, MAX_REMAINING_LEN,
};
use super::primitives::{
    lemma_string_round_trip, lemma_u16_round_trip, read_mqtt_string, read_u16, take_string,
    take_u16, wire_string, wire_u16, write_mqtt_string, MAX_FIELD_LEN,
};
use super::{qos, qos_num, qos_of, qos_to_u8, Error, QoS};
use crate::buffer::{
    bytes_as_slice, bytes_clone, bytes_contents, bytes_len, bytes_mut_contents, put_slice, put_u16,
    put_u8,
};
use bytes::{Bytes, BytesMut};
use vstd::prelude::*;
use vstd::utf8::encode_utf8;

verus! {

/// Publish packet
#[derive(Debug, PartialEq)]
pub struct Publish {
    pub dup: bool,
    pub qos: QoS,
    pub retain: bool,
    pub topic: String,
    /// The packet id; 0 at quality of service 0, where the packet carries
    /// none.
    pub pkid: u16,
    pub payload: Bytes,
}

/// A publish as a value.
pub struct PublishView {
    pub dup: bool,
    pub qos: QoS,
    pub retain: bool,
    pub topic: Seq<char>,
    pub pkid: u16,
    pub payload: Seq<u8>,
}

impl View for Publish {
    type V = PublishView;

    open spec fn view(&self) -> PublishView {
        PublishView {
            dup: self.dup,
            qos: self.qos,
            retain: self.retain,
            topic: self.topic@,
            pkid: self.pkid,
            payload: bytes_contents(self.payload),
        }
    }
}

impl Clone for Publish {
    fn clone(&self) -> (r: Self)
        ensures
            r@ == self@,
    {
        Publish {
            dup: self.dup,
            qos: self.qos,
            retain: self.retain,
            topic: self.topic.clone(),
            pkid: self.pkid,
            payload: bytes_clone(&self.payload),
        }
    }
}

impl PublishView {
    /// The first byte of the frame: kind 3, then the duplicate flag, the
    /// quality of service and the retain flag.
    pub open spec fn byte1(self) -> u8 {
        (0x30 + (if self.dup { 8int } else { 0 }) + 2 * qos_num(self.qos) + (if self.retain {
            1int
        } else {
            0
        })) as u8
    }

    /// The body: the topic, the packet id above quality of service 0, the
    /// payload.
    pub open spec fn wire_body(self) -> Seq<u8> {
        wire_string(self.topic) + (if self.qos == QoS::AtMostOnce {
            Seq::<u8>::empty()
        } else {
            wire_u16(self.pkid)
        }) + self.payload
    }

    /// The frame of the publish.
    pub open spec fn wire(self) -> Seq<u8> {
        frame(self.byte1(), self.wire_body())
    }

    /// Whether the publish can be written: its topic fits a length prefix,
    /// its body fits a frame, and above quality of service 0 it has a
    /// packet id.
    pub open spec fn encodable(self) -> bool {
        &&& encode_utf8(self.topic).len() <= MAX_FIELD_LEN
        &&& self.wire_body().len() <= MAX_REMAINING_LEN
        &&& (self.qos != QoS::AtMostOnce ==> self.pkid != 0)
    }

    /// Whether the publish is one that a frame can say: it can be written,
    /// and at quality of service 0 it has no packet id.
    pub open spec fn valid(self) -> bool {
        self.encodable() && (self.qos == QoS::AtMostOnce ==> self.pkid == 0)
    }
}

impl Publish {
    /// What a publish frame says, given its first byte and its body.
    pub open spec fn parse(byte1: u8, body: Seq<u8>) -> Result<PublishView, Error> {
        match qos_of((byte1 / 2) % 4) {
            None => Err(Error::InvalidQoS((byte1 / 2) % 4)),
            Some(qos) => match take_string(body) {
                Err(e) => Err(e),
                Ok((topic, rest)) => {
                    let dup = (byte1 / 8) % 2 == 1;
                    let retain = byte1 % 2 == 1;
                    if qos == QoS::AtMostOnce {
                        Ok(PublishView { dup, qos, retain, topic, pkid: 0, payload: rest })
                    } else {
                        match take_u16(rest) {
                            Err(e) => Err(e),
                            Ok((pkid, payload)) => if pkid == 0 {
                                Err(Error::PacketIdZero)
                            } else {
                                Ok(PublishView { dup, qos, retain, topic, pkid, payload })
                            },
                        }
                    }
                },
            },
        }
    }

    /// A first publish of `payload` on `topic`: no packet id yet, neither
    /// duplicate nor retained.
    pub fn new(topic: String, qos: QoS, payload: Bytes) -> (r: Publish)
        ensures
            r@ == (PublishView {
                dup: false,
                qos,
                retain: false,
                topic: topic@,
                pkid: 0,
                payload: bytes_contents(payload),
            }),
    {
        Publish { dup: false, qos, retain: false, pkid: 0, topic, payload }
    }

    /// Reads a publish out of its frame.
    pub fn assemble(fixed_header: FixedHeader, bytes: Bytes) -> (r: Result<Self, Error>)
        requires
            fixed_header.wf(),
            fixed_header.spec_frame_length() <= bytes_contents(bytes).len(),
        ensures
            match Self::parse(
                fixed_header.byte1,
                fixed_header.body(bytes_contents(bytes)),
            ) {
                Ok(v) => r is Ok && r->Ok_0@ == v,
                Err(e) => r is Err && r->Err_0 == e,
            },
    {
        let byte1 = fixed_header.byte1;
        assert((byte1 & 0b0110) >> 1 == (byte1 / 2) % 4) by (bit_vector);
        assert(((byte1 & 0b1000) != 0) == ((byte1 / 8) % 2 == 1)) by (bit_vector);
        assert(((byte1 & 0b0001) != 0) == (byte1 % 2 == 1)) by (bit_vector);
        let qos = match qos((byte1 & 0b0110) >> 1) {
            Ok(qos) => qos,
            Err(e) => {
                return Err(e);
            },
        };
        let dup = (byte1 & 0b1000) != 0;
        let retain = (byte1 & 0b0001) != 0;

        let mut stream = take_body(&fixed_header, bytes);
        let topic = match read_mqtt_string(&mut stream) {
            Ok(topic) => topic,
            Err(e) => {
                return Err(e);
            },
        };

        // Packet identifier exists where QoS > 0
        let pkid = match qos {
            QoS::AtMostOnce => 0,
            QoS::AtLeastOnce | QoS::ExactlyOnce => match read_u16(&mut stream) {
                Ok(pkid) => {
                    if pkid == 0 {
                        return Err(Error::PacketIdZero);
                    }
                    pkid
                },
                Err(e) => {
                    return Err(e);
                },
            },
        };

        Ok(Publish { dup, qos, retain, topic, pkid, payload: stream })
    }

    /// Appends the publish's frame and returns its length. A publish that
    /// cannot be written is refused and nothing is written: one above
    /// quality of service 0 without a packet id, or one that is too long.
    pub fn write(&self, stream: &mut BytesMut) -> (r: Result<usize, Error>)
        requires
            self@.encodable() ==> bytes_mut_contents(*old(stream)).len() + self@.wire().len()
                <= isize::MAX,
        ensures
            match r {
                Ok(n) => self@.encodable() && n == self@.wire().len() && bytes_mut_contents(
                    *final(stream),
                ) == bytes_mut_contents(*old(stream)) + self@.wire(),
                Err(e) => !self@.encodable() && bytes_mut_contents(*final(stream))
                    == bytes_mut_contents(*old(stream)) && e == (if self.qos != QoS::AtMostOnce
                    && self.pkid == 0 {
                    Error::PacketIdZero
                } else {
                    Error::PayloadTooLong
                }),
            },
    {
        let with_pkid = match self.qos {
            QoS::AtMostOnce => false,
            QoS::AtLeastOnce | QoS::ExactlyOnce => true,
        };
        if with_pkid && self.pkid == 0 {
            return Err(Error::PacketIdZero);
        }
        let topic_len = self.topic.as_str().as_bytes().len();
        let payload_len = bytes_len(&self.payload);
        if topic_len > MAX_FIELD_LEN || payload_len > MAX_REMAINING_LEN {
            return Err(Error::PayloadTooLong);
        }
        let remaining_len = 2 + topic_len + (if with_pkid { 2 } else { 0 }) + payload_len;
        if remaining_len > MAX_REMAINING_LEN {
            return Err(Error::PayloadTooLong);
        }
        let ghost start = bytes_mut_contents(*stream);
        proof {
            super::header::lemma_pow128_4();
            super::header::lemma_varint_round_trip(remaining_len as int, Seq::empty(), 4);
            assert(topic_len == encode_utf8(self.topic@).len());
            assert(self@.wire_body().len() == remaining_len);
            assert(self@.encodable());
        }
        let byte1: u8 = 0x30 + (if self.dup { 8 } else { 0 }) + 2 * qos_to_u8(self.qos) + (
        if self.retain { 1 } else { 0 });
        put_u8(stream, byte1);
        let count = write_remaining_length(stream, remaining_len);
        write_mqtt_string(stream, self.topic.as_str());
        if with_pkid {
            put_u16(stream, self.pkid);
        }
        put_slice(stream, bytes_as_slice(&self.payload));
        proof {
            assert(bytes_mut_contents(*stream) =~= start + self@.wire());
        }
        Ok(1 + count + remaining_len)
    }
}

/// A valid publish read back from its first byte and body is the same.
pub proof fn lemma_publish_round_trip(p: PublishView)
    requires
        p.valid(),
    ensures
        Publish::parse(p.byte1(), p.wire_body()) == Ok::<PublishView, Error>(p),
{
    let body = p.wire_body();
    if p.qos == QoS::AtMostOnce {
        assert(body =~= wire_string(p.topic) + p.payload);
        lemma_string_round_trip(p.topic, p.payload);
    } else {
        assert(body =~= wire_string(p.topic) + (wire_u16(p.pkid) + p.payload));
        lemma_string_round_trip(p.topic, wire_u16(p.pkid) + p.payload);
        lemma_u16_round_trip(p.pkid, p.payload);
    }
}

} // verus!
