use bytes::{Bytes, BytesMut};
use rumqtt::codec::header::{check, FixedHeader};
use rumqtt::codec::{
    mqtt_read, mqtt_write, qos, ConnAck, Connect, ConnectReturnCode, Error, LastWill, Packet,
    PubAck, PubComp, PubRec, PubRel, Publish, QoS, SubAck, Subscribe, SubscribeReturnCodes,
    SubscribeTopic, UnsubAck, Unsubscribe,
};

fn read(bytes: &[u8], max: usize) -> (Result<Packet, Error>, BytesMut) {
    let mut stream = BytesMut::from(bytes);
    let packet = mqtt_read(&mut stream, max);
    (packet, stream)
}

fn written(packet: &Packet) -> Vec<u8> {
    let mut out = BytesMut::new();
    let n = mqtt_write(packet, &mut out).unwrap();
    assert_eq!(n, out.len());
    out.to_vec()
}

fn round_trip(packet: Packet) {
    assert_eq!(packet.clone(), packet);
    let wire = written(&packet);
    let mut stream = BytesMut::from(&wire[..]);
    stream.extend_from_slice(&[0xDE, 0xAD]);
    let back = mqtt_read(&mut stream, 1024 * 1024).unwrap();
    assert_eq!(back, packet);
    assert_eq!(&stream[..], &[0xDE, 0xAD]);
}

#[test]
fn suback_stitching_works_correctly() {
    let stream = vec![
        0x90, 4, // packet type, flags and remaining len
        0x00, 0x0F, // variable header. pkid = 15
        0x01, 0x80, // payload. return codes [success qos1, failure]
        0xDE, 0xAD, 0xBE, 0xEF, // extra packets in the stream
    ];
    let mut stream = BytesMut::from(&stream[..]);

    let packet = mqtt_read(&mut stream, 100).unwrap();
    let packet = match packet {
        Packet::SubAck(packet) => packet,
        packet => panic!("Invalid packet = {:?}", packet),
    };

    assert_eq!(
        packet,
        SubAck {
            pkid: 15,
            return_codes: vec![
                SubscribeReturnCodes::Success(QoS::AtLeastOnce),
                SubscribeReturnCodes::Failure
            ]
        }
    );
}

#[test]
fn suback_read_takes_exactly_its_frame_off_the_stream() {
    let (packet, rest) = read(&[0x90, 4, 0x00, 0x0F, 0x01, 0x80, 0xDE, 0xAD, 0xBE, 0xEF], 100);
    assert!(packet.is_ok());
    assert_eq!(&rest[..], &[0xDE, 0xAD, 0xBE, 0xEF]);
}

#[test]
fn pubrel_decodes_and_encodes_to_the_same_bytes() {
    let wire: Vec<u8> = vec![0x62, 2, 0x00, 0x0A];
    let (packet, rest) = read(&wire, 100);
    let packet = packet.unwrap();
    assert_eq!(packet, Packet::PubRel(PubRel::new(10)));
    assert_eq!(rest.len(), 0);
    assert_eq!(written(&packet), wire);
}

#[test]
fn pubrel_assemble_reads_the_packet_id_behind_the_header() {
    let header = FixedHeader { byte1: 0x62, header_len: 2, remaining_len: 2 };
    let frame = Bytes::from(vec![0x62, 2, 0x12, 0x34]);
    assert_eq!(PubRel::assemble(header, frame), Ok(PubRel { pkid: 0x1234 }));
    let header = FixedHeader { byte1: 0x62, header_len: 2, remaining_len: 3 };
    let frame = Bytes::from(vec![0x62, 3, 0x12, 0x34, 0x56]);
    assert_eq!(PubRel::assemble(header, frame), Err(Error::PayloadSizeIncorrect));
}

#[test]
fn assemble_reads_the_frame_and_nothing_behind_it() {
    let header = FixedHeader { byte1: 0x90, header_len: 2, remaining_len: 4 };
    let buffer = Bytes::from_static(&[0x90, 4, 0x00, 0x0F, 0x01, 0x80, 0xDE, 0xAD, 0xBE, 0xEF]);
    assert_eq!(
        SubAck::assemble(header, buffer),
        Ok(SubAck {
            pkid: 15,
            return_codes: vec![
                SubscribeReturnCodes::Success(QoS::AtLeastOnce),
                SubscribeReturnCodes::Failure
            ]
        })
    );
    // a code of three behind the frame is none of the frame's
    let buffer = Bytes::from_static(&[0x90, 3, 0x00, 0x01, 0x02, 0x03]);
    let header = FixedHeader { byte1: 0x90, header_len: 2, remaining_len: 3 };
    assert_eq!(
        SubAck::assemble(header, buffer),
        Ok(SubAck::new(1, vec![SubscribeReturnCodes::Success(QoS::ExactlyOnce)]))
    );
    let header = FixedHeader { byte1: 0x62, header_len: 2, remaining_len: 2 };
    let buffer = Bytes::from_static(&[0x62, 2, 0x00, 0x0A, 0xFF, 0xFF]);
    assert_eq!(PubRel::assemble(header, buffer), Ok(PubRel { pkid: 10 }));
    let header = FixedHeader { byte1: 0x62, header_len: 2, remaining_len: 3 };
    let buffer = Bytes::from_static(&[0x62, 3, 0x00, 0x0A, 0xFF, 0xFF]);
    assert_eq!(PubRel::assemble(header, buffer), Err(Error::PayloadSizeIncorrect));
    let header = FixedHeader { byte1: 0x30, header_len: 2, remaining_len: 4 };
    let buffer = Bytes::from_static(&[0x30, 4, 0x00, 0x01, b't', 0x07, 0xDE, 0xAD]);
    assert_eq!(
        Publish::assemble(header, buffer),
        Ok(Publish::new("t".to_owned(), QoS::AtMostOnce, Bytes::from_static(&[0x07])))
    );
    let header = FixedHeader { byte1: 0xA2, header_len: 2, remaining_len: 5 };
    let buffer = Bytes::from_static(&[0xA2, 5, 0x00, 0x01, 0x00, 0x01, b'a', 0x00, 0x01, b'b']);
    assert_eq!(
        Unsubscribe::assemble(header, buffer),
        Ok(Unsubscribe { pkid: 1, topics: vec!["a".to_owned()] })
    );
}

#[test]
fn suback_assemble_reads_every_return_code() {
    let header = FixedHeader { byte1: 0x90, header_len: 2, remaining_len: 5 };
    let frame = Bytes::from(vec![0x90, 5, 0x00, 0x01, 0x00, 0x02, 0x81]);
    assert_eq!(
        SubAck::assemble(header, frame),
        Ok(SubAck::new(
            1,
            vec![
                SubscribeReturnCodes::Success(QoS::AtMostOnce),
                SubscribeReturnCodes::Success(QoS::ExactlyOnce),
                SubscribeReturnCodes::Failure,
            ]
        ))
    );
}

#[test]
fn suback_with_a_return_code_of_three_is_refused() {
    let (packet, rest) = read(&[0x90, 3, 0x00, 0x0F, 0x03, 0xAA], 100);
    assert_eq!(packet, Err(Error::InvalidQoS(3)));
    assert_eq!(&rest[..], &[0xAA]);
}

#[test]
fn suback_without_a_packet_id_is_refused() {
    let (packet, _) = read(&[0x90, 1, 0x00], 100);
    assert_eq!(packet, Err(Error::MalformedPacket));
}

#[test]
fn read_leaves_an_incomplete_frame_alone() {
    let (packet, rest) = read(&[0x62, 2, 0x00], 100);
    assert_eq!(packet, Err(Error::InsufficientBytes(1)));
    assert_eq!(&rest[..], &[0x62, 2, 0x00]);
    let (packet, rest) = read(&[], 100);
    assert_eq!(packet, Err(Error::InsufficientBytes(2)));
    assert_eq!(rest.len(), 0);
    let (packet, _) = read(&[0x30], 100);
    assert_eq!(packet, Err(Error::InsufficientBytes(1)));
    let (packet, _) = read(&[0x30, 0x80], 100);
    assert_eq!(packet, Err(Error::InsufficientBytes(1)));
    let (packet, _) = read(&[0x30, 10, 1, 2, 3], 100);
    assert_eq!(packet, Err(Error::InsufficientBytes(7)));
}

#[test]
fn read_refuses_a_body_over_the_limit_and_takes_nothing() {
    let (packet, rest) = read(&[0x30, 101, 0, 0], 100);
    assert_eq!(packet, Err(Error::PayloadSizeLimitExceeded(101)));
    assert_eq!(&rest[..], &[0x30, 101, 0, 0]);
}

#[test]
fn read_refuses_a_length_of_five_bytes() {
    let (packet, rest) = read(&[0x30, 0x80, 0x80, 0x80, 0x80, 0x01], usize::MAX);
    assert_eq!(packet, Err(Error::MalformedRemainingLength));
    assert_eq!(rest.len(), 6);
}

#[test]
fn remaining_length_is_read_in_one_to_four_bytes() {
    let cases: Vec<(Vec<u8>, usize)> = vec![
        (vec![0x00], 0),
        (vec![0x7F], 127),
        (vec![0x80, 0x01], 128),
        (vec![0xFF, 0x7F], 16_383),
        (vec![0x80, 0x80, 0x01], 16_384),
        (vec![0xFF, 0xFF, 0x7F], 2_097_151),
        (vec![0x80, 0x80, 0x80, 0x01], 2_097_152),
        (vec![0xFF, 0xFF, 0xFF, 0x7F], 268_435_455),
    ];
    for (length, value) in cases {
        let mut stream = vec![0x30];
        stream.extend_from_slice(&length);
        stream.resize(1 + length.len() + value, 0);
        let header = check(&stream, usize::MAX).unwrap();
        assert_eq!(header.byte1, 0x30);
        assert_eq!(header.header_len, 1 + length.len());
        assert_eq!(header.remaining_len, value);
        assert_eq!(header.frame_length(), stream.len());
    }
}

#[test]
fn remaining_length_is_written_in_one_to_four_bytes() {
    for (size, header) in [
        (0usize, vec![0x30u8, 0x03]),
        (124, vec![0x30, 0x7F]),
        (125, vec![0x30, 0x80, 0x01]),
        (16_380, vec![0x30, 0xFF, 0x7F]),
        (16_381, vec![0x30, 0x80, 0x80, 0x01]),
        (2_097_149, vec![0x30, 0x80, 0x80, 0x80, 0x01]),
    ] {
        let publish = Publish::new("a".to_owned(), QoS::AtMostOnce, Bytes::from(vec![7u8; size]));
        let wire = written(&Packet::Publish(publish));
        assert_eq!(&wire[..header.len()], &header[..]);
        assert_eq!(wire.len(), header.len() + 3 + size);
    }
}

#[test]
fn read_refuses_unknown_packet_kinds() {
    let (packet, rest) = read(&[0x00, 0x00, 0x01], 100);
    assert_eq!(packet, Err(Error::InvalidPacketType(0)));
    assert_eq!(&rest[..], &[0x01]);
    let (packet, _) = read(&[0xF0, 0x00], 100);
    assert_eq!(packet, Err(Error::InvalidPacketType(15)));
}

#[test]
fn read_asks_for_a_body_where_the_kind_has_one() {
    let (packet, rest) = read(&[0x40, 0x00], 100);
    assert_eq!(packet, Err(Error::PayloadRequired));
    assert_eq!(rest.len(), 0);
}

#[test]
fn packets_without_body_round_trip() {
    assert_eq!(written(&Packet::PingReq), vec![0xC0, 0x00]);
    assert_eq!(written(&Packet::PingResp), vec![0xD0, 0x00]);
    assert_eq!(written(&Packet::Disconnect), vec![0xE0, 0x00]);
    round_trip(Packet::PingReq);
    round_trip(Packet::PingResp);
    round_trip(Packet::Disconnect);
}

#[test]
fn acknowledgements_hold_exactly_a_packet_id() {
    assert_eq!(written(&Packet::PubAck(PubAck::new(10))), vec![0x40, 2, 0, 10]);
    assert_eq!(written(&Packet::PubRec(PubRec::new(258))), vec![0x50, 2, 1, 2]);
    assert_eq!(written(&Packet::PubRel(PubRel::new(65_535))), vec![0x62, 2, 0xFF, 0xFF]);
    assert_eq!(written(&Packet::PubComp(PubComp::new(1))), vec![0x70, 2, 0, 1]);
    assert_eq!(written(&Packet::UnsubAck(UnsubAck::new(15))), vec![0xB0, 2, 0, 15]);
    round_trip(Packet::PubAck(PubAck::new(10)));
    round_trip(Packet::PubRec(PubRec::new(258)));
    round_trip(Packet::PubRel(PubRel::new(65_535)));
    round_trip(Packet::PubComp(PubComp::new(1)));
    round_trip(Packet::UnsubAck(UnsubAck::new(15)));
    for byte1 in [0x40u8, 0x50, 0x62, 0x70, 0xB0] {
        let (packet, _) = read(&[byte1, 3, 0, 1, 2], 100);
        assert_eq!(packet, Err(Error::PayloadSizeIncorrect));
        let (packet, _) = read(&[byte1, 1, 0], 100);
        assert_eq!(packet, Err(Error::PayloadSizeIncorrect));
    }
}

#[test]
fn connack_round_trips_and_refuses_unknown_codes() {
    let (packet, _) = read(&[0x20, 0x02, 0x01, 0x00], 100);
    assert_eq!(packet, Ok(Packet::ConnAck(ConnAck::new(ConnectReturnCode::Accepted, true))));
    let refused = Packet::ConnAck(ConnAck::new(ConnectReturnCode::NotAuthorized, false));
    assert_eq!(written(&refused), vec![0x20, 0x02, 0x00, 0x05]);
    round_trip(refused);
    round_trip(Packet::ConnAck(ConnAck::new(ConnectReturnCode::BadProtocolVersion, true)));
    round_trip(Packet::ConnAck(ConnAck::new(ConnectReturnCode::BadClientId, false)));
    round_trip(Packet::ConnAck(ConnAck::new(ConnectReturnCode::ServiceUnavailable, false)));
    round_trip(Packet::ConnAck(ConnAck::new(ConnectReturnCode::BadUsernamePassword, false)));
    let (packet, _) = read(&[0x20, 0x02, 0x00, 0x06], 100);
    assert_eq!(packet, Err(Error::InvalidConnectReturnCode(6)));
    let (packet, _) = read(&[0x20, 0x03, 0x00, 0x00, 0x00], 100);
    assert_eq!(packet, Err(Error::PayloadSizeIncorrect));
}

#[test]
fn publish_is_read_with_its_flags_topic_and_payload() {
    let wire = [
        0b0011_0010, 11, // packet type, flags and remaining len
        0x00, 0x03, b'a', b'/', b'b', // variable header. topic name = 'a/b'
        0x00, 0x0a, // variable header. pkid = 10
        0xF1, 0xF2, 0xF3, 0xF4, // publish payload
        0xDE, 0xAD, 0xBE, 0xEF, // extra packets in the stream
    ];
    let (packet, rest) = read(&wire, 100);
    assert_eq!(
        packet,
        Ok(Packet::Publish(Publish {
            dup: false,
            qos: QoS::AtLeastOnce,
            retain: false,
            topic: "a/b".to_owned(),
            pkid: 10,
            payload: Bytes::from(vec![0xF1, 0xF2, 0xF3, 0xF4]),
        }))
    );
    assert_eq!(&rest[..], &[0xDE, 0xAD, 0xBE, 0xEF]);

    let (packet, _) = read(&[0b0011_1101, 6, 0x00, 0x01, b't', 0x00, 0x07, 0x55], 100);
    assert_eq!(
        packet,
        Ok(Packet::Publish(Publish {
            dup: true,
            qos: QoS::ExactlyOnce,
            retain: true,
            topic: "t".to_owned(),
            pkid: 7,
            payload: Bytes::from(vec![0x55]),
        }))
    );

    let (packet, _) = read(&[0b0011_0000, 5, 0x00, 0x01, b't', 0x00, 0x07], 100);
    assert_eq!(
        packet,
        Ok(Packet::Publish(Publish {
            dup: false,
            qos: QoS::AtMostOnce,
            retain: false,
            topic: "t".to_owned(),
            pkid: 0,
            payload: Bytes::from(vec![0x00, 0x07]),
        }))
    );
}

#[test]
fn publish_is_written_with_its_flags_topic_and_payload() {
    let publish = Publish {
        dup: false,
        qos: QoS::AtLeastOnce,
        retain: false,
        topic: "a/b".to_owned(),
        pkid: 10,
        payload: Bytes::from(vec![0xF1, 0xF2, 0xF3, 0xF4]),
    };
    assert_eq!(
        written(&Packet::Publish(publish)),
        vec![0b0011_0010, 11, 0x00, 0x03, b'a', b'/', b'b', 0x00, 0x0a, 0xF1, 0xF2, 0xF3, 0xF4]
    );
    let publish = Publish {
        dup: true,
        qos: QoS::ExactlyOnce,
        retain: true,
        topic: "a".to_owned(),
        pkid: 0x0102,
        payload: Bytes::new(),
    };
    assert_eq!(written(&Packet::Publish(publish)), vec![0b0011_1101, 5, 0, 1, b'a', 1, 2]);
    let publish = Publish::new("\u{e9}".to_owned(), QoS::AtMostOnce, Bytes::from(vec![1u8]));
    assert_eq!(written(&Packet::Publish(publish)), vec![0x30, 5, 0, 2, 0xC3, 0xA9, 1]);
}

#[test]
fn publishes_round_trip() {
    for qos in [QoS::AtMostOnce, QoS::AtLeastOnce, QoS::ExactlyOnce] {
        for (dup, retain) in [(false, false), (true, false), (false, true), (true, true)] {
            let pkid = if qos == QoS::AtMostOnce { 0 } else { 4660 };
            round_trip(Packet::Publish(Publish {
                dup,
                qos,
                retain,
                topic: "hello/w\u{f6}rld".to_owned(),
                pkid,
                payload: Bytes::from(vec![1, 2, 3]),
            }));
        }
    }
    round_trip(Packet::Publish(Publish::new(String::new(), QoS::AtMostOnce, Bytes::new())));
    round_trip(Packet::Publish(Publish::new(
        "big".to_owned(),
        QoS::AtMostOnce,
        Bytes::from(vec![9u8; 70_000]),
    )));
}

#[test]
fn publish_faults_are_told_apart() {
    let (packet, _) = read(&[0b0011_0110, 3, 0x00, 0x01, b't'], 100);
    assert_eq!(packet, Err(Error::InvalidQoS(3)));
    let (packet, _) = read(&[0b0011_0010, 5, 0x00, 0x01, b't', 0x00, 0x00], 100);
    assert_eq!(packet, Err(Error::PacketIdZero));
    let (packet, _) = read(&[0b0011_0010, 4, 0x00, 0x01, b't', 0x00], 100);
    assert_eq!(packet, Err(Error::MalformedPacket));
    let (packet, _) = read(&[0b0011_0000, 1, 0x00], 100);
    assert_eq!(packet, Err(Error::MalformedPacket));
    let (packet, _) = read(&[0b0011_0000, 3, 0x00, 0x05, b't'], 100);
    assert_eq!(packet, Err(Error::BoundaryCrossed(5)));
    let (packet, _) = read(&[0b0011_0000, 4, 0x00, 0x02, 0xC3, 0x28], 100);
    assert_eq!(packet, Err(Error::TopicNotUtf8));
}

#[test]
fn write_refuses_what_cannot_be_written_and_appends_nothing() {
    let mut out = BytesMut::from(&[1u8, 2, 3][..]);
    let mut publish = Publish::new("t".to_owned(), QoS::AtLeastOnce, Bytes::new());
    assert_eq!(mqtt_write(&Packet::Publish(publish.clone()), &mut out), Err(Error::PacketIdZero));
    assert_eq!(&out[..], &[1, 2, 3]);
    publish.pkid = 1;
    publish.topic = "x".repeat(65_536);
    assert_eq!(mqtt_write(&Packet::Publish(publish), &mut out), Err(Error::PayloadTooLong));
    assert_eq!(&out[..], &[1, 2, 3]);
    let connect = Connect::new("y".repeat(65_536));
    assert_eq!(mqtt_write(&Packet::Connect(connect), &mut out), Err(Error::PayloadTooLong));
    let subscribe = Subscribe::new("z".repeat(65_536), QoS::AtMostOnce);
    assert_eq!(mqtt_write(&Packet::Subscribe(subscribe), &mut out), Err(Error::PayloadTooLong));
    let unsubscribe = Unsubscribe::new("z".repeat(65_536));
    assert_eq!(mqtt_write(&Packet::Unsubscribe(unsubscribe), &mut out), Err(Error::PayloadTooLong));
    assert_eq!(&out[..], &[1, 2, 3]);
    let longest = Publish::new("x".repeat(65_535), QoS::AtMostOnce, Bytes::new());
    assert_eq!(mqtt_write(&Packet::Publish(longest), &mut out), Ok(4 + 2 + 65_535));
}

#[test]
fn write_appends_behind_what_the_buffer_holds() {
    let mut out = BytesMut::from(&[0xAAu8][..]);
    assert_eq!(mqtt_write(&Packet::PingReq, &mut out), Ok(2));
    assert_eq!(mqtt_write(&Packet::PubAck(PubAck::new(1)), &mut out), Ok(4));
    assert_eq!(&out[..], &[0xAA, 0xC0, 0x00, 0x40, 0x02, 0x00, 0x01]);
}

#[test]
fn subscribe_is_read_and_written_with_all_its_filters() {
    let wire = vec![
        0b1000_0010, 20, // packet type, flags and remaining len
        0x01, 0x04, // variable header. pkid = 260
        0x00, 0x03, b'a', b'/', b'+', // payload. topic filter = 'a/+'
        0x00, // payload. qos = 0
        0x00, 0x01, b'#', // payload. topic filter = '#'
        0x01, // payload. qos = 1
        0x00, 0x05, b'a', b'/', b'b', b'/', b'c', // payload. topic filter = 'a/b/c'
        0x02, // payload. qos = 2
    ];
    let expected = Packet::Subscribe(Subscribe {
        pkid: 260,
        topics: vec![
            SubscribeTopic { topic_path: "a/+".to_owned(), qos: QoS::AtMostOnce },
            SubscribeTopic { topic_path: "#".to_owned(), qos: QoS::AtLeastOnce },
            SubscribeTopic { topic_path: "a/b/c".to_owned(), qos: QoS::ExactlyOnce },
        ],
    });
    let (packet, rest) = read(&wire, 100);
    assert_eq!(packet.as_ref(), Ok(&expected));
    assert_eq!(rest.len(), 0);
    assert_eq!(written(&expected), wire);
    round_trip(expected);
    round_trip(Packet::Subscribe(Subscribe { pkid: 1, topics: vec![] }));
}

#[test]
fn subscribe_faults_are_told_apart() {
    let (packet, _) = read(&[0x82, 1, 0x00], 100);
    assert_eq!(packet, Err(Error::MalformedPacket));
    let (packet, _) = read(&[0x82, 5, 0x00, 0x01, 0x00, 0x01, b'a'], 100);
    assert_eq!(packet, Err(Error::MalformedPacket));
    let (packet, _) = read(&[0x82, 6, 0x00, 0x01, 0x00, 0x01, b'a', 0x03], 100);
    assert_eq!(packet, Err(Error::InvalidQoS(3)));
    let (packet, _) = read(&[0x82, 5, 0x00, 0x01, 0x00, 0x09, b'a'], 100);
    assert_eq!(packet, Err(Error::BoundaryCrossed(9)));
}

#[test]
fn unsubscribe_is_read_and_written_with_all_its_filters() {
    let wire = vec![
        0b1010_0010, 17, // packet type, flags and remaining len
        0x00, 0x0F, // variable header. pkid = 15
        0x00, 0x03, b'a', b'/', b'+', // payload. topic filter = 'a/+'
        0x00, 0x01, b'#', // payload. topic filter = '#'
        0x00, 0x05, b'a', b'/', b'b', b'/', b'c', // payload. topic filter = 'a/b/c'
    ];
    let expected = Packet::Unsubscribe(Unsubscribe {
        pkid: 15,
        topics: vec!["a/+".to_owned(), "#".to_owned(), "a/b/c".to_owned()],
    });
    let (packet, _) = read(&wire, 100);
    assert_eq!(packet.as_ref(), Ok(&expected));
    assert_eq!(written(&expected), wire);
    round_trip(expected);
    let (packet, _) = read(&[0xA2, 4, 0x00, 0x01, 0x00, 0x05], 100);
    assert_eq!(packet, Err(Error::BoundaryCrossed(5)));
}

#[test]
fn suback_round_trips() {
    let ack = SubAck::new(
        15,
        vec![
            SubscribeReturnCodes::Success(QoS::AtMostOnce),
            SubscribeReturnCodes::Success(QoS::AtLeastOnce),
            SubscribeReturnCodes::Success(QoS::ExactlyOnce),
            SubscribeReturnCodes::Failure,
        ],
    );
    assert_eq!(written(&Packet::SubAck(ack.clone())), vec![0x90, 6, 0, 15, 0, 1, 2, 0x80]);
    round_trip(Packet::SubAck(ack));
    round_trip(Packet::SubAck(SubAck::new(1, vec![])));
}

#[test]
fn connect_is_read_and_written_with_will_and_credentials() {
    let wire = vec![
        0x10, 39, // packet type, flags and remaining len
        0x00, 0x04, b'M', b'Q', b'T', b'T', 0x04, // variable header
        0b1100_1110, // variable header. +username, +password, -will retain, will qos=1, +last_will, +clean_session
        0x00, 0x0a, // variable header. keep alive = 10 sec
        0x00, 0x04, b't', b'e', b's', b't', // payload. client_id
        0x00, 0x02, b'/', b'a', // payload. will topic = '/a'
        0x00, 0x07, b'o', b'f', b'f', b'l', b'i', b'n', b'e', // payload. will msg = 'offline'
        0x00, 0x04, b'r', b'u', b'm', b'q', // payload. username = 'rumq'
        0x00, 0x02, b'm', b'q', // payload. password = 'mq'
    ];
    let expected = Packet::Connect(Connect {
        keep_alive: 10,
        client_id: "test".to_owned(),
        clean_session: true,
        last_will: Some(LastWill {
            topic: "/a".to_owned(),
            message: "offline".to_owned(),
            qos: QoS::AtLeastOnce,
            retain: false,
        }),
        username: Some("rumq".to_owned()),
        password: Some("mq".to_owned()),
    });
    let (packet, rest) = read(&wire, 100);
    assert_eq!(packet.as_ref(), Ok(&expected));
    assert_eq!(rest.len(), 0);
    assert_eq!(written(&expected), wire);
    round_trip(expected);
}

#[test]
fn connects_round_trip() {
    round_trip(Packet::Connect(Connect::new("c1".to_owned())));
    assert_eq!(
        written(&Packet::Connect(Connect::new("c1".to_owned()))),
        vec![0x10, 14, 0, 4, b'M', b'Q', b'T', b'T', 4, 0b10, 0, 10, 0, 2, b'c', b'1']
    );
    for clean_session in [false, true] {
        for will in [None, Some((QoS::AtMostOnce, true)), Some((QoS::ExactlyOnce, false))] {
            for username in [None, Some("user")] {
                for password in [None, Some("secret")] {
                    round_trip(Packet::Connect(Connect {
                        keep_alive: 300,
                        client_id: "id".to_owned(),
                        clean_session,
                        last_will: will.map(|(qos, retain)| LastWill {
                            topic: "will/topic".to_owned(),
                            message: "gone".to_owned(),
                            qos,
                            retain,
                        }),
                        username: username.map(|u| u.to_owned()),
                        password: password.map(|p| p.to_owned()),
                    }));
                }
            }
        }
    }
}

#[test]
fn connect_checks_protocol_name_and_level() {
    let (packet, _) = read(&[0x10, 8, 0, 4, b'M', b'Q', b'T', b'X', 4, 2], 100);
    assert_eq!(packet, Err(Error::InvalidProtocol));
    let (packet, _) = read(&[0x10, 9, 0, 5, b'M', b'Q', b'T', b'T', b'T', 4, 2], 100);
    assert_eq!(packet, Err(Error::InvalidProtocol));
    let (packet, _) = read(&[0x10, 12, 0, 4, b'M', b'Q', b'T', b'T', 5, 2, 0, 10, 0, 0], 100);
    assert_eq!(packet, Err(Error::InvalidProtocolLevel(5)));
    let (packet, _) = read(&[0x10, 6, 0, 4, b'M', b'Q', b'T', b'T'], 100);
    assert_eq!(packet, Err(Error::MalformedPacket));
    let wire = [
        0x10, 19, 0, 4, b'M', b'Q', b'T', b'T', 4, 0b0001_1100, 0, 10, 0, 1, b'c', 0, 1, b't', 0,
        1, b'm',
    ];
    let (packet, _) = read(&wire, 100);
    assert_eq!(packet, Err(Error::InvalidQoS(3)));
}

#[test]
fn qos_numbers_stand_for_the_three_levels() {
    assert_eq!(qos(0), Ok(QoS::AtMostOnce));
    assert_eq!(qos(1), Ok(QoS::AtLeastOnce));
    assert_eq!(qos(2), Ok(QoS::ExactlyOnce));
    assert_eq!(qos(3), Err(Error::InvalidQoS(3)));
    assert_eq!(qos(200), Err(Error::InvalidQoS(200)));
}
