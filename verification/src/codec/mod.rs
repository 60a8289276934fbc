//! Reading and writing MQTT 3.1.1 control packets.

pub mod connack;
pub mod connect;
pub mod header;
pub mod primitives;
pub mod puback;
pub mod pubcomp;
pub mod pubrec;
pub mod publish;
pub mod pubrel;
pub mod suback;
pub mod subscribe;
pub mod unsuback;
pub mod unsubscribe;

pub use connack::{ConnAck, ConnectReturnCode};
pub use connect::{Connect, ConnectView, LastWill, LastWillView};
pub use header::{check, fixed_header, frame, FixedHeader, MAX_FRAME_LEN, MAX_REMAINING_LEN};
pub use puback::PubAck;
pub use pubcomp::PubComp;
pub use publish::{Publish, PublishView};
pub use pubrec::PubRec;
pub use pubrel::PubRel;
pub use suback::{SubAck, SubAckView, SubscribeReturnCodes};
pub use subscribe::{Subscribe, SubscribeTopic, SubscribeTopicView, SubscribeView};
pub use unsuback::UnsubAck;
pub use unsubscribe::{Unsubscribe, UnsubscribeView};

use crate::buffer::{
    bytes_contents, bytes_mut_as_slice, bytes_mut_contents, bytes_mut_freeze, bytes_mut_len,
    bytes_mut_split_to, put_u8,
};
use bytes::BytesMut;
use header::header_of;
use primitives::wire_u16;
use vstd::prelude::*;

verus! {

/// Quality of service of a publish or of a granted subscription.
#[derive(Clone, Copy, Debug, PartialEq, Eq, Structural)]
pub enum QoS {
    AtMostOnce,
    AtLeastOnce,
    ExactlyOnce,
}

/// Why a packet could not be read or written.
#[derive(Clone, Copy, Debug, PartialEq, Eq, Structural)]
pub enum Error {
    /// The stream ends before the frame does; at least this many more bytes
    /// are needed.
    InsufficientBytes(usize),
    /// The frame announces a body of this many bytes, more than the reader
    /// accepts.
    PayloadSizeLimitExceeded(usize),
    /// The remaining length runs over four bytes.
    MalformedRemainingLength,
    /// The body ends in the middle of a field.
    MalformedPacket,
    /// The high nibble of the first byte names no packet kind.
    InvalidPacketType(u8),
    /// Two bits that should hold a quality of service hold 3.
    InvalidQoS(u8),
    /// A connect packet names another protocol than `MQTT`.
    InvalidProtocol,
    /// A connect packet asks for another protocol level than 4.
    InvalidProtocolLevel(u8),
    /// A connection acknowledgement carries a return code above 5.
    InvalidConnectReturnCode(u8),
    /// A publish above quality of service 0 carries packet id 0.
    PacketIdZero,
    /// An acknowledgement whose body is not exactly a packet id.
    PayloadSizeIncorrect,
    /// A packet kind that needs a body came without one.
    PayloadRequired,
    /// The packet does not fit the wire format's length fields.
    PayloadTooLong,
    /// A length prefix of this value points past the end of the body.
    BoundaryCrossed(usize),
    /// A string field is not well-formed UTF-8.
    TopicNotUtf8,
}

/// The level that a wire number stands for, if it stands for one.
pub open spec fn qos_of(num: u8) -> Option<QoS> {
    if num == 0 {
        Some(QoS::AtMostOnce)
    } else if num == 1 {
        Some(QoS::AtLeastOnce)
    } else if num == 2 {
        Some(QoS::ExactlyOnce)
    } else {
        None
    }
}

/// The wire number of a level.
pub open spec fn qos_num(qos: QoS) -> u8 {
    match qos {
        QoS::AtMostOnce => 0,
        QoS::AtLeastOnce => 1,
        QoS::ExactlyOnce => 2,
    }
}

/// Maps a wire number to its level; 3 and above are refused.
pub fn qos(num: u8) -> (r: Result<QoS, Error>)
    ensures
        r == match qos_of(num) {
            Some(q) => Ok::<QoS, Error>(q),
            None => Err(Error::InvalidQoS(num)),
        },
{
    match num {
        0 => Ok(QoS::AtMostOnce),
        1 => Ok(QoS::AtLeastOnce),
        2 => Ok(QoS::ExactlyOnce),
        qos => Err(Error::InvalidQoS(qos)),
    }
}

/// Maps a level to its wire number.
pub fn qos_to_u8(qos: QoS) -> (n: u8)
    ensures
        n == qos_num(qos),
        qos_of(n) == Some(qos),
{
    match qos {
        QoS::AtMostOnce => 0,
        QoS::AtLeastOnce => 1,
        QoS::ExactlyOnce => 2,
    }
}

/// Packet type from a byte
#[derive(Clone, Copy, Debug, PartialEq, Eq, Structural)]
pub enum PacketType {
    Connect,
    ConnAck,
    Publish,
    PubAck,
    PubRec,
    PubRel,
    PubComp,
    Subscribe,
    SubAck,
    Unsubscribe,
    UnsubAck,
    PingReq,
    PingResp,
    Disconnect,
}

/// The packet kind that a number stands for, if it stands for one.
pub open spec fn packet_type_of(num: u8) -> Option<PacketType> {
    if num == 1 {
        Some(PacketType::Connect)
    } else if num == 2 {
        Some(PacketType::ConnAck)
    } else if num == 3 {
        Some(PacketType::Publish)
    } else if num == 4 {
        Some(PacketType::PubAck)
    } else if num == 5 {
        Some(PacketType::PubRec)
    } else if num == 6 {
        Some(PacketType::PubRel)
    } else if num == 7 {
        Some(PacketType::PubComp)
    } else if num == 8 {
        Some(PacketType::Subscribe)
    } else if num == 9 {
        Some(PacketType::SubAck)
    } else if num == 10 {
        Some(PacketType::Unsubscribe)
    } else if num == 11 {
        Some(PacketType::UnsubAck)
    } else if num == 12 {
        Some(PacketType::PingReq)
    } else if num == 13 {
        Some(PacketType::PingResp)
    } else if num == 14 {
        Some(PacketType::Disconnect)
    } else {
        None
    }
}

/// Maps a number to its packet kind; 0 and 15 are refused.
pub fn packet_type(num: u8) -> (r: Result<PacketType, Error>)
    ensures
        r == match packet_type_of(num) {
            Some(kind) => Ok::<PacketType, Error>(kind),
            None => Err(Error::InvalidPacketType(num)),
        },
{
    match num {
        1 => Ok(PacketType::Connect),
        2 => Ok(PacketType::ConnAck),
        3 => Ok(PacketType::Publish),
        4 => Ok(PacketType::PubAck),
        5 => Ok(PacketType::PubRec),
        6 => Ok(PacketType::PubRel),
        7 => Ok(PacketType::PubComp),
        8 => Ok(PacketType::Subscribe),
        9 => Ok(PacketType::SubAck),
        10 => Ok(PacketType::Unsubscribe),
        11 => Ok(PacketType::UnsubAck),
        12 => Ok(PacketType::PingReq),
        13 => Ok(PacketType::PingResp),
        14 => Ok(PacketType::Disconnect),
        _ => Err(Error::InvalidPacketType(num)),
    }
}

/// Encapsulates all MQTT packet types
#[derive(Debug, PartialEq)]
pub enum Packet {
    Connect(Connect),
    ConnAck(ConnAck),
    Publish(Publish),
    PubAck(PubAck),
    PubRec(PubRec),
    PubRel(PubRel),
    PubComp(PubComp),
    Subscribe(Subscribe),
    SubAck(SubAck),
    Unsubscribe(Unsubscribe),
    UnsubAck(UnsubAck),
    PingReq,
    PingResp,
    Disconnect,
}

/// A packet as a value.
pub enum PacketView {
    Connect(ConnectView),
    ConnAck(ConnAck),
    Publish(PublishView),
    PubAck(PubAck),
    PubRec(PubRec),
    PubRel(PubRel),
    PubComp(PubComp),
    Subscribe(SubscribeView),
    SubAck(SubAckView),
    Unsubscribe(UnsubscribeView),
    UnsubAck(UnsubAck),
    PingReq,
    PingResp,
    Disconnect,
}

impl View for Packet {
    type V = PacketView;

    open spec fn view(&self) -> PacketView {
        match self {
            Packet::Connect(p) => PacketView::Connect(p@),
            Packet::ConnAck(p) => PacketView::ConnAck(*p),
            Packet::Publish(p) => PacketView::Publish(p@),
            Packet::PubAck(p) => PacketView::PubAck(*p),
            Packet::PubRec(p) => PacketView::PubRec(*p),
            Packet::PubRel(p) => PacketView::PubRel(*p),
            Packet::PubComp(p) => PacketView::PubComp(*p),
            Packet::Subscribe(p) => PacketView::Subscribe(p@),
            Packet::SubAck(p) => PacketView::SubAck(p@),
            Packet::Unsubscribe(p) => PacketView::Unsubscribe(p@),
            Packet::UnsubAck(p) => PacketView::UnsubAck(*p),
            Packet::PingReq => PacketView::PingReq,
            Packet::PingResp => PacketView::PingResp,
            Packet::Disconnect => PacketView::Disconnect,
        }
    }
}

impl Clone for Packet {
    fn clone(&self) -> (r: Self)
        ensures
            r@ == self@,
    {
        match self {
            Packet::Connect(p) => Packet::Connect(p.clone()),
            Packet::ConnAck(p) => Packet::ConnAck(*p),
            Packet::Publish(p) => Packet::Publish(p.clone()),
            Packet::PubAck(p) => Packet::PubAck(*p),
            Packet::PubRec(p) => Packet::PubRec(*p),
            Packet::PubRel(p) => Packet::PubRel(*p),
            Packet::PubComp(p) => Packet::PubComp(*p),
            Packet::Subscribe(p) => Packet::Subscribe(p.clone()),
            Packet::SubAck(p) => Packet::SubAck(p.clone()),
            Packet::Unsubscribe(p) => Packet::Unsubscribe(p.clone()),
            Packet::UnsubAck(p) => Packet::UnsubAck(*p),
            Packet::PingReq => Packet::PingReq,
            Packet::PingResp => Packet::PingResp,
            Packet::Disconnect => Packet::Disconnect,
        }
    }
}

impl PacketView {
    /// The first byte of the packet's frame.
    pub open spec fn byte1(self) -> u8 {
        match self {
            PacketView::Connect(_) => 0x10,
            PacketView::ConnAck(_) => 0x20,
            PacketView::Publish(p) => p.byte1(),
            PacketView::PubAck(_) => 0x40,
            PacketView::PubRec(_) => 0x50,
            PacketView::PubRel(_) => 0x62,
            PacketView::PubComp(_) => 0x70,
            PacketView::Subscribe(_) => 0x82,
            PacketView::SubAck(_) => 0x90,
            PacketView::Unsubscribe(_) => 0xA2,
            PacketView::UnsubAck(_) => 0xB0,
            PacketView::PingReq => 0xC0,
            PacketView::PingResp => 0xD0,
            PacketView::Disconnect => 0xE0,
        }
    }

    /// The body of the packet's frame.
    pub open spec fn wire_body(self) -> Seq<u8> {
        match self {
            PacketView::Connect(p) => p.wire_body(),
            PacketView::ConnAck(p) => p.wire_body(),
            PacketView::Publish(p) => p.wire_body(),
            PacketView::PubAck(p) => wire_u16(p.pkid),
            PacketView::PubRec(p) => wire_u16(p.pkid),
            PacketView::PubRel(p) => wire_u16(p.pkid),
            PacketView::PubComp(p) => wire_u16(p.pkid),
            PacketView::Subscribe(p) => p.wire_body(),
            PacketView::SubAck(p) => p.wire_body(),
            PacketView::Unsubscribe(p) => p.wire_body(),
            PacketView::UnsubAck(p) => wire_u16(p.pkid),
            PacketView::PingReq => Seq::empty(),
            PacketView::PingResp => Seq::empty(),
            PacketView::Disconnect => Seq::empty(),
        }
    }

    /// The packet's frame: what `mqtt_write` appends for it.
    pub open spec fn wire(self) -> Seq<u8> {
        frame(self.byte1(), self.wire_body())
    }

    /// Whether the packet can be written.
    pub open spec fn encodable(self) -> bool {
        match self {
            PacketView::Connect(p) => p.encodable(),
            PacketView::Publish(p) => p.encodable(),
            PacketView::Subscribe(p) => p.encodable(),
            PacketView::SubAck(p) => p.encodable(),
            PacketView::Unsubscribe(p) => p.encodable(),
            _ => true,
        }
    }

    /// Whether the packet is one that a frame can say: it can be written,
    /// and a publish at quality of service 0 has no packet id.
    pub open spec fn valid(self) -> bool {
        match self {
            PacketView::Publish(p) => p.valid(),
            _ => self.encodable(),
        }
    }

    /// The complaint that `mqtt_write` makes about a packet that cannot be
    /// written.
    pub open spec fn refusal(self) -> Error {
        match self {
            PacketView::Publish(p) => if p.qos != QoS::AtMostOnce && p.pkid == 0 {
                Error::PacketIdZero
            } else {
                Error::PayloadTooLong
            },
            _ => Error::PayloadTooLong,
        }
    }
}

/// What a frame says, given its first byte and its body.
pub open spec fn parse_frame(byte1: u8, body: Seq<u8>) -> Result<PacketView, Error> {
    match packet_type_of(byte1 / 16) {
        None => Err(Error::InvalidPacketType(byte1 / 16)),
        Some(kind) => if body.len() == 0 {
            match kind {
                PacketType::PingReq => Ok(PacketView::PingReq),
                PacketType::PingResp => Ok(PacketView::PingResp),
                PacketType::Disconnect => Ok(PacketView::Disconnect),
                _ => Err(Error::PayloadRequired),
            }
        } else {
            match kind {
                PacketType::Connect => match Connect::parse_body(body) {
                    Ok(p) => Ok(PacketView::Connect(p)),
                    Err(e) => Err(e),
                },
                PacketType::ConnAck => match ConnAck::parse_body(body) {
                    Ok(p) => Ok(PacketView::ConnAck(p)),
                    Err(e) => Err(e),
                },
                PacketType::Publish => match Publish::parse(byte1, body) {
                    Ok(p) => Ok(PacketView::Publish(p)),
                    Err(e) => Err(e),
                },
                PacketType::PubAck => match PubAck::parse_body(body) {
                    Ok(p) => Ok(PacketView::PubAck(p)),
                    Err(e) => Err(e),
                },
                PacketType::PubRec => match PubRec::parse_body(body) {
                    Ok(p) => Ok(PacketView::PubRec(p)),
                    Err(e) => Err(e),
                },
                PacketType::PubRel => match PubRel::parse_body(body) {
                    Ok(p) => Ok(PacketView::PubRel(p)),
                    Err(e) => Err(e),
                },
                PacketType::PubComp => match PubComp::parse_body(body) {
                    Ok(p) => Ok(PacketView::PubComp(p)),
                    Err(e) => Err(e),
                },
                PacketType::Subscribe => match Subscribe::parse_body(body) {
                    Ok(p) => Ok(PacketView::Subscribe(p)),
                    Err(e) => Err(e),
                },
                PacketType::SubAck => match SubAck::parse_body(body) {
                    Ok(p) => Ok(PacketView::SubAck(p)),
                    Err(e) => Err(e),
                },
                PacketType::Unsubscribe => match Unsubscribe::parse_body(body) {
                    Ok(p) => Ok(PacketView::Unsubscribe(p)),
                    Err(e) => Err(e),
                },
                PacketType::UnsubAck => match UnsubAck::parse_body(body) {
                    Ok(p) => Ok(PacketView::UnsubAck(p)),
                    Err(e) => Err(e),
                },
                PacketType::PingReq => Ok(PacketView::PingReq),
                PacketType::PingResp => Ok(PacketView::PingResp),
                PacketType::Disconnect => Ok(PacketView::Disconnect),
            }
        },
    }
}

/// What the front of a stream says, for a reader that accepts bodies of up
/// to `max` bytes: the packet in the first frame, or what is wrong with
/// that frame.
pub open spec fn parse(stream: Seq<u8>, max: usize) -> Result<PacketView, Error> {
    match fixed_header(stream, max) {
        Err(e) => Err(e),
        Ok(h) => parse_frame(
            h.byte1,
            stream.subrange(h.header_len as int, h.header_len + h.remaining_len),
        ),
    }
}

/// How many bytes a read takes off the front of a stream: the first frame,
/// once all of it is there and its header is in order, and nothing before.
pub open spec fn consumed(stream: Seq<u8>, max: usize) -> int {
    match fixed_header(stream, max) {
        Err(_) => 0,
        Ok(h) => h.header_len + h.remaining_len,
    }
}

/// Reads a stream of bytes and extracts MQTT packets
///
/// Takes the first frame off `stream` and returns the packet in it. While
/// the frame is incomplete, oversized or has a malformed length, nothing is
/// taken off and the error says so; a complete frame is taken off even
/// where its contents are refused.
pub fn mqtt_read(stream: &mut BytesMut, max_packet_size: usize) -> (r: Result<Packet, Error>)
    ensures
        match parse(bytes_mut_contents(*old(stream)), max_packet_size) {
            Ok(v) => r is Ok && r->Ok_0@ == v,
            Err(e) => r is Err && r->Err_0 == e,
        },
        bytes_mut_contents(*final(stream)) == bytes_mut_contents(*old(stream)).skip(
            consumed(bytes_mut_contents(*old(stream)), max_packet_size),
        ),
{
    let ghost whole = bytes_mut_contents(*stream);
    let fixed_header = match check(bytes_mut_as_slice(stream), max_packet_size) {
        Ok(fixed_header) => fixed_header,
        Err(e) => {
            assert(whole.skip(0) =~= whole);
            return Err(e);
        },
    };

    let packet = bytes_mut_split_to(stream, fixed_header.frame_length());
    let control_type = match packet_type(fixed_header.kind()) {
        Ok(control_type) => control_type,
        Err(e) => {
            return Err(e);
        },
    };
    if fixed_header.remaining_len == 0 {
        // no payload packets
        return match control_type {
            PacketType::PingReq => Ok(Packet::PingReq),
            PacketType::PingResp => Ok(Packet::PingResp),
            PacketType::Disconnect => Ok(Packet::Disconnect),
            _ => Err(Error::PayloadRequired),
        };
    }
    let packet = bytes_mut_freeze(packet);
    assert(fixed_header.body(bytes_contents(packet)) =~= whole.subrange(
        fixed_header.header_len as int,
        fixed_header.header_len + fixed_header.remaining_len,
    ));
    match control_type {
        PacketType::Connect => match Connect::assemble(fixed_header, packet) {
            Ok(p) => Ok(Packet::Connect(p)),
            Err(e) => Err(e),
        },
        PacketType::ConnAck => match ConnAck::assemble(fixed_header, packet) {
            Ok(p) => Ok(Packet::ConnAck(p)),
            Err(e) => Err(e),
        },
        PacketType::Publish => match Publish::assemble(fixed_header, packet) {
            Ok(p) => Ok(Packet::Publish(p)),
            Err(e) => Err(e),
        },
        PacketType::PubAck => match PubAck::assemble(fixed_header, packet) {
            Ok(p) => Ok(Packet::PubAck(p)),
            Err(e) => Err(e),
        },
        PacketType::PubRec => match PubRec::assemble(fixed_header, packet) {
            Ok(p) => Ok(Packet::PubRec(p)),
            Err(e) => Err(e),
        },
        PacketType::PubRel => match PubRel::assemble(fixed_header, packet) {
            Ok(p) => Ok(Packet::PubRel(p)),
            Err(e) => Err(e),
        },
        PacketType::PubComp => match PubComp::assemble(fixed_header, packet) {
            Ok(p) => Ok(Packet::PubComp(p)),
            Err(e) => Err(e),
        },
        PacketType::Subscribe => match Subscribe::assemble(fixed_header, packet) {
            Ok(p) => Ok(Packet::Subscribe(p)),
            Err(e) => Err(e),
        },
        PacketType::SubAck => match SubAck::assemble(fixed_header, packet) {
            Ok(p) => Ok(Packet::SubAck(p)),
            Err(e) => Err(e),
        },
        PacketType::Unsubscribe => match Unsubscribe::assemble(fixed_header, packet) {
            Ok(p) => Ok(Packet::Unsubscribe(p)),
            Err(e) => Err(e),
        },
        PacketType::UnsubAck => match UnsubAck::assemble(fixed_header, packet) {
            Ok(p) => Ok(Packet::UnsubAck(p)),
            Err(e) => Err(e),
        },
        PacketType::PingReq => Ok(Packet::PingReq),
        PacketType::PingResp => Ok(Packet::PingResp),
        PacketType::Disconnect => Ok(Packet::Disconnect),
    }
}

/// Appends a packet without a body: its first byte and a zero length.
fn write_empty(stream: &mut BytesMut, byte1: u8) -> (r: Result<usize, Error>)
    requires
        bytes_mut_contents(*old(stream)).len() + 2 <= isize::MAX,
    ensures
        r == Ok::<usize, Error>(2),
        bytes_mut_contents(*final(stream)) == bytes_mut_contents(*old(stream)) + frame(
            byte1,
            Seq::empty(),
        ),
{
    put_u8(stream, byte1);
    put_u8(stream, 0);
    proof {
        reveal_with_fuel(header::wire_varint, 2);
        assert(bytes_mut_contents(*stream) =~= bytes_mut_contents(*old(stream)) + frame(
            byte1,
            Seq::empty(),
        ));
    }
    Ok(2)
}

/// Whether a buffer that holds `buffer` has room for a frame of any
/// length.
pub open spec fn has_room(buffer: Seq<u8>) -> bool {
    buffer.len() + MAX_FRAME_LEN <= isize::MAX
}

/// The frame of a packet that can be written is no longer than the longest
/// frame.
pub proof fn lemma_wire_fits(p: PacketView)
    requires
        p.encodable(),
    ensures
        p.wire_body().len() <= MAX_REMAINING_LEN,
        p.wire().len() <= MAX_FRAME_LEN,
{
    if let PacketView::Connect(c) = p {
        assert(c.wire_payload().len() <= 5 * (2 + primitives::MAX_FIELD_LEN));
    }
    header::lemma_pow128_4();
    header::lemma_varint_round_trip(p.wire_body().len() as int, Seq::empty(), 4);
}

/// Serializes MQTT packet and writes it to the stream
///
/// Appends the packet's frame and returns its length. A packet that cannot
/// be written is refused, and so is every packet where the buffer lacks
/// the room for the longest frame; nothing is appended then.
pub fn mqtt_write(packet: &Packet, stream: &mut BytesMut) -> (r: Result<usize, Error>)
    ensures
        match r {
            Ok(n) => has_room(bytes_mut_contents(*old(stream))) && packet@.encodable() && n
                == packet@.wire().len() && bytes_mut_contents(*final(stream))
                == bytes_mut_contents(*old(stream)) + packet@.wire(),
            Err(e) => bytes_mut_contents(*final(stream)) == bytes_mut_contents(*old(stream))
                && if has_room(bytes_mut_contents(*old(stream))) {
                !packet@.encodable() && e == packet@.refusal()
            } else {
                e == Error::PayloadTooLong
            },
        },
{
    if bytes_mut_len(stream) > isize::MAX as usize - MAX_FRAME_LEN {
        return Err(Error::PayloadTooLong);
    }
    proof {
        reveal_with_fuel(header::wire_varint, 2);
        if packet@.encodable() {
            lemma_wire_fits(packet@);
        }
    }
    match packet {
        Packet::Connect(p) => p.write(stream),
        Packet::ConnAck(p) => p.write(stream),
        Packet::Publish(p) => p.write(stream),
        Packet::PubAck(p) => p.write(stream),
        Packet::PubRec(p) => p.write(stream),
        Packet::PubRel(p) => p.write(stream),
        Packet::PubComp(p) => p.write(stream),
        Packet::Subscribe(p) => p.write(stream),
        Packet::SubAck(p) => p.write(stream),
        Packet::Unsubscribe(p) => p.write(stream),
        Packet::UnsubAck(p) => p.write(stream),
        Packet::PingReq => write_empty(stream, 0xC0),
        Packet::PingResp => write_empty(stream, 0xD0),
        Packet::Disconnect => write_empty(stream, 0xE0),
    }
}

/// A frame's body, read as the kind of packet that the first byte names,
/// gives back the packet that the frame was written for.
pub proof fn lemma_frame_round_trip(p: PacketView)
    requires
        p.valid(),
    ensures
        parse_frame(p.byte1(), p.wire_body()) == Ok::<PacketView, Error>(p),
{
    match p {
        PacketView::Connect(c) => {
            connect::lemma_connect_round_trip(c);
            assert(c.wire_body().len() > 0);
        },
        PacketView::ConnAck(c) => {
            connack::lemma_connack_round_trip(c);
        },
        PacketView::Publish(c) => {
            publish::lemma_publish_round_trip(c);
            assert(c.wire_body().len() > 0);
            assert(packet_type_of(c.byte1() / 16) == Some(PacketType::Publish));
        },
        PacketView::PubAck(c) => {
            puback::lemma_puback_round_trip(c);
        },
        PacketView::PubRec(c) => {
            pubrec::lemma_pubrec_round_trip(c);
        },
        PacketView::PubRel(c) => {
            pubrel::lemma_pubrel_round_trip(c);
        },
        PacketView::PubComp(c) => {
            pubcomp::lemma_pubcomp_round_trip(c);
        },
        PacketView::Subscribe(c) => {
            subscribe::lemma_subscribe_round_trip(c);
            assert(c.wire_body().len() > 0);
        },
        PacketView::SubAck(c) => {
            suback::lemma_suback_round_trip(c);
            assert(c.wire_body().len() > 0);
        },
        PacketView::Unsubscribe(c) => {
            unsubscribe::lemma_unsubscribe_round_trip(c);
            assert(c.wire_body().len() > 0);
        },
        PacketView::UnsubAck(c) => {
            unsuback::lemma_unsuback_round_trip(c);
        },
        PacketView::PingReq => {},
        PacketView::PingResp => {},
        PacketView::Disconnect => {},
    }
}

/// Reading what was written gives the packet that was written: for every
/// valid packet whose body the reader accepts, a stream that starts with
/// the packet's frame is read as that packet, and the read takes exactly
/// the frame off the stream, whatever follows it.
pub proof fn lemma_round_trip(p: PacketView, tail: Seq<u8>, max: usize)
    requires
        p.valid(),
        p.wire_body().len() <= max,
    ensures
        parse(p.wire() + tail, max) == Ok::<PacketView, Error>(p),
        consumed(p.wire() + tail, max) == p.wire().len(),
{
    let body = p.wire_body();
    let stream = p.wire() + tail;
    let h = header_of(p.byte1(), body);
    assert(p.encodable());
    assert(body.len() <= MAX_REMAINING_LEN);
    header::lemma_frame_header(p.byte1(), body, tail, max);
    assert(stream.subrange(h.header_len as int, h.header_len + h.remaining_len) =~= body) by {
        assert(stream.take(p.wire().len() as int) == p.wire());
        assert(p.wire().skip(h.header_len as int) == body);
    }
    lemma_frame_round_trip(p);
}

} // verus!
