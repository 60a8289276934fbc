use bytes::Bytes;
use rumqtt::client::eventloop::{
    eventloop, network_stream, request_stream, Polled, Pulled, Read, Selected, Transport,
    HANDSHAKE_TIMEOUT,
};
use rumqtt::client::options::MqttOptions;
use rumqtt::client::state::{MqttConnectionStatus, MqttState, StateError};
use rumqtt::client::{EventLoopError, Notification, Request};
use rumqtt::codec::{
    ConnAck, ConnectReturnCode, Packet, PubAck, PubComp, PubRec, PubRel, Publish, QoS, SubAck,
    Subscribe, SubscribeReturnCodes, UnsubAck, Unsubscribe,
};

fn publish(qos: QoS, payload: u8) -> Publish {
    Publish::new("hello/world".to_owned(), qos, Bytes::from(vec![payload]))
}

fn incoming(qos: QoS, pkid: u16) -> Publish {
    let mut publish = publish(qos, 1);
    publish.pkid = pkid;
    publish
}

fn options(keep_alive: u16) -> MqttOptions {
    let mut options = MqttOptions::new("dummy".to_owned(), "127.0.0.1".to_owned(), 1885);
    options.set_keep_alive(keep_alive);
    options
}

fn sent(state: &mut MqttState, packet: Packet) -> Packet {
    match state.handle_request(packet, 0) {
        Ok((None, Some(packet))) => packet,
        other => panic!("unexpected answer {:?}", other),
    }
}

#[test]
fn next_pkid_increments_as_expected() {
    let mut state = MqttState::new();
    for i in 1..=100u16 {
        match sent(&mut state, Packet::Publish(publish(QoS::AtLeastOnce, 0))) {
            Packet::Publish(p) => assert_eq!(p.pkid, i),
            other => panic!("unexpected packet {:?}", other),
        }
    }
    assert_eq!(state.last_pkid, 100);
}

#[test]
fn next_pkid_wraps_from_the_largest_id_to_one() {
    let mut state = MqttState::new();
    state.last_pkid = 65_534;
    let first = sent(&mut state, Packet::Subscribe(Subscribe::new("a".to_owned(), QoS::AtMostOnce)));
    let second = sent(&mut state, Packet::Unsubscribe(Unsubscribe::new("a".to_owned())));
    let third = sent(&mut state, Packet::Publish(publish(QoS::ExactlyOnce, 0)));
    match (first, second, third) {
        (Packet::Subscribe(s), Packet::Unsubscribe(u), Packet::Publish(p)) => {
            assert_eq!(s.pkid, 65_535);
            assert_eq!(u.pkid, 1);
            assert_eq!(p.pkid, 2);
        }
        other => panic!("unexpected packets {:?}", other),
    }
}

#[test]
fn outgoing_publish_at_qos0_passes_without_trace() {
    let mut state = MqttState::new();
    let packet = sent(&mut state, Packet::Publish(publish(QoS::AtMostOnce, 7)));
    assert_eq!(packet, Packet::Publish(publish(QoS::AtMostOnce, 7)));
    assert_eq!(state.inflight(), 0);
    assert_eq!(state.last_pkid, 0);
}

#[test]
fn outgoing_publish_above_qos0_is_kept_until_acknowledged() {
    let mut state = MqttState::new();
    sent(&mut state, Packet::Publish(publish(QoS::AtLeastOnce, 1)));
    sent(&mut state, Packet::Publish(publish(QoS::ExactlyOnce, 2)));
    sent(&mut state, Packet::Publish(publish(QoS::AtLeastOnce, 3)));
    assert_eq!(state.inflight(), 3);

    // nothing but its acknowledgement takes a publish out of flight
    state.handle_packet(Packet::PingResp, 1).unwrap();
    state.handle_packet(Packet::Publish(incoming(QoS::AtLeastOnce, 2)), 1).unwrap();
    state.handle_packet(Packet::SubAck(SubAck::new(2, vec![])), 1).unwrap();
    state.handle_packet(Packet::UnsubAck(UnsubAck::new(2)), 1).unwrap();
    assert_eq!(state.inflight(), 3);

    let answer = state.handle_packet(Packet::PubAck(PubAck::new(1)), 2).unwrap();
    assert!(matches!(answer, (Some(Notification::Puback(1)), None)));
    assert_eq!(state.inflight(), 2);
    let left: Vec<u16> = state.outgoing_pub.iter().map(|p| p.pkid).collect();
    assert_eq!(left, vec![2, 3]);

    assert_eq!(
        state.handle_packet(Packet::PubAck(PubAck::new(1)), 3).unwrap_err(),
        StateError::Unsolicited
    );
    assert_eq!(state.last_incoming, 3);
}

#[test]
fn outgoing_qos2_publish_goes_through_its_four_steps_once() {
    let mut state = MqttState::new();
    sent(&mut state, Packet::Publish(publish(QoS::ExactlyOnce, 1)));

    // the completion cannot come before the receipt
    assert_eq!(
        state.handle_packet(Packet::PubComp(PubComp::new(1)), 1).unwrap_err(),
        StateError::Unsolicited
    );
    let answer = state.handle_packet(Packet::PubRec(PubRec::new(1)), 2).unwrap();
    assert!(matches!(answer.0, Some(Notification::Pubrec(1))));
    assert_eq!(answer.1, Some(Packet::PubRel(PubRel::new(1))));
    assert_eq!(state.inflight(), 0);
    assert_eq!(state.outgoing_rel.iter().copied().collect::<Vec<u16>>(), vec![1]);

    // a second receipt is refused
    assert_eq!(
        state.handle_packet(Packet::PubRec(PubRec::new(1)), 3).unwrap_err(),
        StateError::Unsolicited
    );
    let answer = state.handle_packet(Packet::PubComp(PubComp::new(1)), 4).unwrap();
    assert!(matches!(answer, (Some(Notification::Pubcomp(1)), None)));
    assert!(state.outgoing_rel.is_empty());

    // and so is a second completion
    assert_eq!(
        state.handle_packet(Packet::PubComp(PubComp::new(1)), 5).unwrap_err(),
        StateError::Unsolicited
    );
}

#[test]
fn incoming_publish_is_answered_according_to_its_qos() {
    let mut state = MqttState::new();
    let answer = state.handle_packet(Packet::Publish(incoming(QoS::AtMostOnce, 0)), 1).unwrap();
    assert!(matches!(answer, (Some(Notification::Publish(_)), None)));

    let answer = state.handle_packet(Packet::Publish(incoming(QoS::AtLeastOnce, 5)), 2).unwrap();
    assert!(matches!(&answer.0, Some(Notification::Publish(p)) if p.pkid == 5));
    assert_eq!(answer.1, Some(Packet::PubAck(PubAck::new(5))));

    let answer = state.handle_packet(Packet::Publish(incoming(QoS::ExactlyOnce, 6)), 3).unwrap();
    assert!(matches!(&answer.0, Some(Notification::Publish(p)) if p.pkid == 6));
    assert_eq!(answer.1, Some(Packet::PubRec(PubRec::new(6))));
    assert_eq!(state.incoming_pub.iter().copied().collect::<Vec<u16>>(), vec![6]);
    assert_eq!(state.last_incoming, 3);
}

#[test]
fn incoming_qos2_publish_goes_through_its_four_steps_once() {
    let mut state = MqttState::new();
    assert_eq!(
        state.handle_packet(Packet::PubRel(PubRel::new(9)), 1).unwrap_err(),
        StateError::Unsolicited
    );
    state.handle_packet(Packet::Publish(incoming(QoS::ExactlyOnce, 9)), 2).unwrap();
    // the same publish again is answered again and remembered once
    let again = state.handle_packet(Packet::Publish(incoming(QoS::ExactlyOnce, 9)), 3).unwrap();
    assert_eq!(again.1, Some(Packet::PubRec(PubRec::new(9))));
    assert_eq!(state.incoming_pub.len(), 1);

    let answer = state.handle_packet(Packet::PubRel(PubRel::new(9)), 4).unwrap();
    assert!(answer.0.is_none());
    assert_eq!(answer.1, Some(Packet::PubComp(PubComp::new(9))));
    assert!(state.incoming_pub.is_empty());
    assert_eq!(
        state.handle_packet(Packet::PubRel(PubRel::new(9)), 5).unwrap_err(),
        StateError::Unsolicited
    );
}

#[test]
fn acknowledgements_of_subscriptions_are_handed_to_the_user() {
    let mut state = MqttState::new();
    let codes = vec![SubscribeReturnCodes::Success(QoS::AtLeastOnce)];
    let answer = state.handle_packet(Packet::SubAck(SubAck::new(3, codes.clone())), 1).unwrap();
    assert!(matches!(&answer.0, Some(Notification::Suback(ack)) if ack.pkid == 3 && ack.return_codes == codes));
    assert!(answer.1.is_none());
    let answer = state.handle_packet(Packet::UnsubAck(UnsubAck::new(4)), 2).unwrap();
    assert!(matches!(answer, (Some(Notification::Unsuback(4)), None)));
}

#[test]
fn packets_that_a_broker_does_not_send_are_ignored() {
    let mut state = MqttState::new();
    let answer = state.handle_packet(Packet::Disconnect, 7).unwrap();
    assert!(matches!(answer, (None, None)));
    let subscribe = Packet::Subscribe(Subscribe::new("a".to_owned(), QoS::AtMostOnce));
    let answer = state.handle_packet(subscribe, 8).unwrap();
    assert!(matches!(answer, (None, None)));
    assert_eq!(state.last_incoming, 8);
    assert_eq!(state.last_pkid, 0);
}

#[test]
fn requests_of_other_kinds_are_refused() {
    let mut state = MqttState::new();
    let refused = state.handle_request(Packet::PubAck(PubAck::new(1)), 5).unwrap_err();
    assert_eq!(refused, StateError::WrongPacket);
    assert_eq!(state.last_outgoing, 0);
    let answer = state.handle_request(Packet::Disconnect, 6).unwrap();
    assert_eq!(answer.1, Some(Packet::Disconnect));
    assert_eq!(state.last_outgoing, 6);
}

#[test]
fn a_second_ping_without_answer_to_the_first_is_an_error() {
    let mut state = MqttState::new();
    assert_eq!(sent(&mut state, Packet::PingReq), Packet::PingReq);
    assert!(state.await_pingresp);
    assert_eq!(state.handle_request(Packet::PingReq, 1).unwrap_err(), StateError::AwaitPingResp);
    assert_eq!(state.handle_packet(Packet::PingReq, 1).unwrap_err(), StateError::AwaitPingResp);

    state.handle_packet(Packet::PingResp, 2).unwrap();
    assert!(!state.await_pingresp);
    let answer = state.handle_packet(Packet::PingReq, 3).unwrap();
    assert_eq!(answer.1, Some(Packet::PingReq));
    assert!(state.await_pingresp);
    assert_eq!(state.last_outgoing, 3);
    assert_eq!(state.last_incoming, 2);
}

#[test]
fn handshake_connects_only_on_an_acceptance_in_time() {
    let accepted = || Packet::ConnAck(ConnAck::new(ConnectReturnCode::Accepted, false));
    let mut state = MqttState::new();
    assert_eq!(state.connection_status, MqttConnectionStatus::Disconnected);
    assert_eq!(state.handle_incoming_connack(accepted()), Err(StateError::InvalidState));

    assert_eq!(state.handle_outgoing_connect(), Ok(()));
    assert_eq!(state.connection_status, MqttConnectionStatus::Handshake);
    assert_eq!(state.handle_incoming_connack(accepted()), Ok(()));
    assert_eq!(state.connection_status, MqttConnectionStatus::Connected);

    state.handle_outgoing_connect().unwrap();
    let refused = Packet::ConnAck(ConnAck::new(ConnectReturnCode::BadUsernamePassword, false));
    assert_eq!(
        state.handle_incoming_connack(refused),
        Err(StateError::Connect(ConnectReturnCode::BadUsernamePassword))
    );
    assert_eq!(state.connection_status, MqttConnectionStatus::Disconnected);

    state.handle_outgoing_connect().unwrap();
    assert_eq!(state.handle_incoming_connack(Packet::PingResp), Err(StateError::WrongPacket));
    assert_eq!(state.connection_status, MqttConnectionStatus::Disconnected);
}

#[test]
fn reconnection_resumes_from_the_previous_state() {
    let mut options = options(5);
    options.set_clean_session(false);
    let mut eventloop = eventloop(options);
    for i in 0..3 {
        let packet = Packet::Publish(publish(QoS::AtLeastOnce, i));
        let turn = eventloop.stream(Selected::Requests(packet), 10);
        assert!(!turn.done);
    }
    eventloop.stream(Selected::Network(Packet::PubAck(PubAck::new(2))), 20);
    // the stream ends, the state stays
    let turn = eventloop.stream(Selected::Ended, 30);
    assert!(turn.done && turn.outgoing.is_none() && turn.notification.is_none());

    let resent = eventloop.resume();
    let expected: Vec<Packet> = [(1u16, 0u8), (3, 2)]
        .iter()
        .map(|(pkid, payload)| {
            let mut p = publish(QoS::AtLeastOnce, *payload);
            p.pkid = *pkid;
            p.dup = true;
            Packet::Publish(p)
        })
        .collect();
    assert_eq!(resent, expected);
    assert_eq!(eventloop.state.inflight(), 2);
    // new requests go on behind the old ones
    let turn = eventloop.stream(Selected::Requests(Packet::Publish(publish(QoS::AtLeastOnce, 9))), 40);
    assert!(matches!(&turn.outgoing, Some(Packet::Publish(p)) if p.pkid == 4 && !p.dup));
}

#[test]
fn reconnection_with_a_clean_session_starts_afresh() {
    let mut eventloop = eventloop(options(5));
    eventloop.stream(Selected::Requests(Packet::Publish(publish(QoS::AtLeastOnce, 1))), 10);
    eventloop.stream(Selected::Network(Packet::Publish(incoming(QoS::ExactlyOnce, 8))), 11);
    assert_eq!((eventloop.state.inflight(), eventloop.state.incoming_pub.len()), (1, 1));
    assert_eq!(eventloop.state.resend().len(), 1);
    assert!(eventloop.resume().is_empty());
    assert_eq!(eventloop.state.inflight(), 0);
    assert!(eventloop.state.incoming_pub.is_empty());
    assert_eq!((eventloop.state.last_pkid, eventloop.state.last_incoming), (0, 0));
    assert_eq!(eventloop.state.connection_status, MqttConnectionStatus::Disconnected);
}

#[test]
fn a_loop_that_is_called_off_ends_with_a_last_notification() {
    let mut eventloop = eventloop(options(5));
    eventloop.stream(Selected::Requests(Packet::Publish(publish(QoS::AtLeastOnce, 1))), 10);
    let turn = eventloop.stream(Selected::Cancelled, 20);
    assert!(turn.done && turn.outgoing.is_none());
    assert!(matches!(turn.notification, Some(Notification::StreamEnd(EventLoopError::Cancelled))));
    assert_eq!(eventloop.state.inflight(), 1);
}

#[test]
fn requests_are_blocked_after_max_inflight_queue_size() {
    let mut options = options(5);
    options.set_inflight(3);
    let mut eventloop = eventloop(options);
    for i in 0..3 {
        assert!(eventloop.admits_requests());
        eventloop.stream(Selected::Requests(Packet::Publish(publish(QoS::AtLeastOnce, i))), 0);
    }
    assert!(!eventloop.admits_requests());
    // publishes that are not kept do not count
    let mut idle = rumqtt::client::eventloop::eventloop(self::options(5));
    for i in 0..200 {
        idle.stream(Selected::Requests(Packet::Publish(publish(QoS::AtMostOnce, i as u8))), 0);
    }
    assert!(idle.admits_requests());
}

#[test]
fn requests_are_recovered_after_inflight_queue_size_falls_below_max() {
    let mut options = options(5);
    options.set_inflight(2);
    let mut eventloop = eventloop(options);
    eventloop.stream(Selected::Requests(Packet::Publish(publish(QoS::AtLeastOnce, 0))), 0);
    eventloop.stream(Selected::Requests(Packet::Publish(publish(QoS::ExactlyOnce, 1))), 0);
    assert!(!eventloop.admits_requests());
    eventloop.stream(Selected::Network(Packet::PubRec(PubRec::new(2))), 1);
    assert!(eventloop.admits_requests());
    eventloop.stream(Selected::Requests(Packet::Publish(publish(QoS::AtLeastOnce, 2))), 2);
    assert!(!eventloop.admits_requests());
    eventloop.stream(Selected::Network(Packet::PubAck(PubAck::new(1))), 3);
    assert!(eventloop.admits_requests());
}

#[test]
fn no_outgoing_requests_to_broker_should_raise_ping_on_time() {
    let options = options(5);
    let keep_alive = options.keep_alive();
    let mut eventloop = eventloop(options);
    let mut requests = request_stream(keep_alive, 0, 1_000);
    let mut network = network_stream(keep_alive, 1_000);
    let mut written = Vec::new();
    // nothing is asked for and nothing comes in, tick by tick
    for now in (1_000..=6_000).step_by(100) {
        for polled in [network.poll(Read::Pending, now), requests.poll(Pulled::Pending, now)] {
            if let Polled::Yield(packet) = polled {
                let turn = eventloop.stream(Selected::Requests(packet), now);
                written.push((now, turn.outgoing));
            }
        }
    }
    assert_eq!(written, vec![(6_000, Some(Packet::PingReq))]);
    assert_eq!((6_000 - 1_000) / 1_000, keep_alive as u64);
    assert!(eventloop.state.await_pingresp);

    // the broker's answer clears the flag
    match network.poll(Read::Packet(Packet::PingResp), 6_050) {
        Polled::Yield(packet) => {
            let turn = eventloop.stream(Selected::Network(packet), 6_050);
            assert!(!turn.done && turn.outgoing.is_none() && turn.notification.is_none());
        }
        other => panic!("unexpected item {:?}", other),
    }
    assert!(!eventloop.state.await_pingresp);
    // and the answer has moved the network side's wait, so that it does not fire at 7 s
    assert!(matches!(network.poll(Read::Pending, 7_000), Polled::Pending));
    assert!(matches!(network.poll(Read::Pending, 12_049), Polled::Pending));
    assert!(matches!(network.poll(Read::Pending, 12_050), Polled::Yield(Packet::PingReq)));
}

#[test]
fn network_future_triggers_pings_on_timenetwork_future_triggers_pings_on_time() {
    let options = options(5);
    let keep_alive = options.keep_alive();
    let mut eventloop = eventloop(options);
    let mut requests = request_stream(keep_alive, 0, 0);
    let mut network = network_stream(keep_alive, 0);
    let mut ping_received = None;
    let mut publishes = 0;
    // a publish at quality of service 0 every second, and a broker that never answers
    for now in (0..10_000u64).step_by(100) {
        let read = network.poll(Read::Pending, now);
        let pulled = if now % 1_000 == 0 {
            let request = Request::Publish(publish(QoS::AtMostOnce, (now / 1_000) as u8));
            requests.poll(Pulled::Request(request), now)
        } else {
            requests.poll(Pulled::Pending, now)
        };
        if let Polled::Yield(packet) = read {
            let turn = eventloop.stream(Selected::Network(packet), now);
            if turn.outgoing == Some(Packet::PingReq) && ping_received.is_none() {
                ping_received = Some(now);
            }
        }
        if let Polled::Yield(packet) = pulled {
            let turn = eventloop.stream(Selected::Requests(packet), now);
            assert!(matches!(turn.outgoing, Some(Packet::Publish(_))));
            publishes += 1;
        }
        if ping_received.is_some() {
            break;
        }
    }
    assert_eq!(ping_received, Some((keep_alive as u64 + 1) * 1_000)); // add 1 due to keep alive network implementation
    assert_eq!(publishes, 7);
    assert!(eventloop.state.await_pingresp);
}

#[test]
fn a_silent_broker_is_given_up_at_the_second_ping() {
    let mut eventloop = eventloop(options(5));
    let mut network = network_stream(5, 0);
    assert!(matches!(network.poll(Read::Pending, 5_999), Polled::Pending));
    let first = match network.poll(Read::Pending, 6_000) {
        Polled::Yield(packet) => eventloop.stream(Selected::Network(packet), 6_000),
        other => panic!("unexpected item {:?}", other),
    };
    assert_eq!(first.outgoing, Some(Packet::PingReq));
    assert!(matches!(network.poll(Read::Pending, 11_999), Polled::Pending));
    let second = match network.poll(Read::Pending, 12_000) {
        Polled::Yield(packet) => eventloop.stream(Selected::Network(packet), 12_000),
        other => panic!("unexpected item {:?}", other),
    };
    assert!(second.done);
    assert!(second.outgoing.is_none());
    assert!(matches!(
        second.notification,
        Some(Notification::StreamEnd(EventLoopError::MqttState(StateError::AwaitPingResp)))
    ));
}

#[test]
fn throttled_requests_works_with_correct_delays_between_requests() {
    let mut options = MqttOptions::new("dummy".to_owned(), "127.0.0.1".to_owned(), 1881);
    options.set_throttle(1_000);
    let mut requests = request_stream(options.keep_alive(), options.throttle(), 0);
    let mut taken = Vec::new();
    let mut next = 0u8;
    // ten requests wait to be taken; the stream takes one whenever it is open
    for now in (0..=9_000u64).step_by(250) {
        if next < 10 && requests.is_open(now) {
            let request = Request::Publish(publish(QoS::AtMostOnce, next));
            assert!(matches!(requests.poll(Pulled::Request(request), now), Polled::Yield(_)));
            taken.push(now);
            next += 1;
        }
    }
    assert_eq!(taken, (0..10).map(|i| i * 1_000).collect::<Vec<u64>>());
}

#[test]
fn the_loop_sleeps_until_the_first_wait_is_over() {
    let mut options = options(5);
    options.set_throttle(1_000);
    options.set_inflight(1);
    let mut eventloop = eventloop(options);
    let network = network_stream(5, 0);
    let mut requests = request_stream(5, 1_000, 0);
    assert!(eventloop.takes_requests(&requests, 0));
    assert_eq!(eventloop.wake_at(&network, &requests, 0), 5_000);
    // a request was taken: the throttle holds the next one back for a second
    let request = Request::Publish(publish(QoS::AtMostOnce, 1));
    assert!(matches!(requests.poll(Pulled::Request(request), 200), Polled::Yield(_)));
    assert!(!eventloop.takes_requests(&requests, 700));
    assert_eq!(eventloop.wake_at(&network, &requests, 700), 1_200);
    assert!(eventloop.takes_requests(&requests, 1_200));
    assert_eq!(eventloop.wake_at(&network, &requests, 1_200), 5_200);
    assert_eq!(eventloop.wake_at(&network, &requests, 5_500), 5_200);
    // with the flight full, the throttle is not what holds requests back
    let request = Request::Publish(publish(QoS::AtLeastOnce, 2));
    if let Polled::Yield(packet) = requests.poll(Pulled::Request(request), 1_500) {
        eventloop.stream(Selected::Requests(packet), 1_500);
    }
    assert!(!eventloop.takes_requests(&requests, 3_000));
    assert_eq!(eventloop.wake_at(&network, &requests, 1_600), 6_000);
    // a stream that is over takes nothing
    assert!(matches!(requests.poll(Pulled::Closed, 2_000), Polled::End));
    eventloop.stream(Selected::Network(Packet::PubAck(PubAck::new(1))), 2_000);
    assert!(!eventloop.takes_requests(&requests, 9_000));
    assert_eq!(eventloop.wake_at(&network, &requests, 2_100), 6_000);
}

#[test]
fn streams_end_with_their_sources() {
    let mut network = network_stream(5, 0);
    assert!(matches!(network.poll(Read::Failed, 100), Polled::End));
    assert!(network.ended);
    assert!(matches!(network.poll(Read::Packet(Packet::PingResp), 200), Polled::End));
    let mut requests = request_stream(5, 0, 0);
    assert!(matches!(requests.poll(Pulled::Closed, 100), Polled::End));
    assert!(matches!(requests.poll(Pulled::Pending, 9_000), Polled::End));
    assert!(!requests.is_open(9_000));
}

#[test]
fn streams_count_their_waits_from_the_last_item() {
    let mut network = network_stream(10, 500);
    assert_eq!(network.timeout, 11_000);
    assert_eq!(network.deadline, 11_500);
    assert!(matches!(network.poll(Read::Packet(Packet::PingResp), 4_000), Polled::Yield(_)));
    assert_eq!(network.deadline, 15_000);
    let mut requests = request_stream(10, 250, 500);
    assert_eq!((requests.timeout, requests.deadline, requests.open_at), (10_000, 10_500, 500));
    let request = Request::Subscribe(Subscribe::new("a/b".to_owned(), QoS::AtLeastOnce));
    match requests.poll(Pulled::Request(request), 2_000) {
        Polled::Yield(Packet::Subscribe(s)) => assert_eq!(s.topics[0].topic_path, "a/b"),
        other => panic!("unexpected item {:?}", other),
    }
    assert_eq!((requests.deadline, requests.open_at), (12_000, 2_250));
    // at the end of time the waits stay there
    let mut late = network_stream(5, u64::MAX - 10);
    assert_eq!(late.deadline, u64::MAX);
    assert!(matches!(late.poll(Read::Pending, u64::MAX), Polled::Yield(Packet::PingReq)));
}

#[test]
fn requests_turn_into_their_packets() {
    let publish = publish(QoS::AtLeastOnce, 3);
    assert_eq!(Packet::from(Request::Publish(publish.clone())), Packet::Publish(publish));
    assert_eq!(Packet::from(Request::Disconnect), Packet::Disconnect);
    let subscribe = Subscribe::new("a".to_owned(), QoS::ExactlyOnce);
    assert_eq!(Packet::from(Request::Subscribe(subscribe.clone())), Packet::Subscribe(subscribe));
    let unsubscribe = Unsubscribe::new("a".to_owned());
    let packet: Packet = Request::Unsubscribe(unsubscribe.clone()).into();
    assert_eq!(packet, Packet::Unsubscribe(unsubscribe));
}

#[test]
fn a_turn_passes_on_what_the_state_machine_answers() {
    let mut eventloop = eventloop(options(5));
    let turn = eventloop.stream(Selected::Network(Packet::Publish(incoming(QoS::AtLeastOnce, 4))), 1);
    assert!(!turn.done);
    assert_eq!(turn.outgoing, Some(Packet::PubAck(PubAck::new(4))));
    assert!(matches!(&turn.notification, Some(Notification::Publish(p)) if p.pkid == 4));
    // once written, the notification is all that is left of the turn
    let left = turn.after_write(true);
    assert!(left.outgoing.is_none() && !left.done);
    assert!(matches!(left.notification, Some(Notification::Publish(_))));

    let turn = eventloop.stream(Selected::Network(Packet::Publish(incoming(QoS::AtLeastOnce, 5))), 2);
    let failed = turn.after_write(false);
    assert!(failed.done && failed.outgoing.is_none());
    assert!(matches!(failed.notification, Some(Notification::StreamEnd(EventLoopError::Network))));

    let turn = eventloop.stream(Selected::Network(Packet::PubAck(PubAck::new(1))), 3);
    assert!(turn.done && turn.outgoing.is_none());
    assert!(matches!(
        turn.notification,
        Some(Notification::StreamEnd(EventLoopError::MqttState(StateError::Unsolicited)))
    ));
}

#[test]
fn the_connect_packet_carries_the_options() {
    let mut options = MqttOptions::new("test-1".to_owned(), "localhost".to_owned(), 1883);
    let mut plain = eventloop(MqttOptions::new("test-1".to_owned(), "localhost".to_owned(), 1883));
    assert_eq!(plain.network_connect(), Transport::Tcp);
    let connect = plain.mqtt_connect();
    assert_eq!((connect.client_id.as_str(), connect.keep_alive, connect.clean_session), ("test-1", 60, true));
    assert!(connect.username.is_none() && connect.password.is_none() && connect.last_will.is_none());
    assert_eq!(plain.state.connection_status, MqttConnectionStatus::Handshake);

    options.set_keep_alive(10);
    options.set_clean_session(false);
    options.set_credentials("user".to_owned(), "secret".to_owned());
    options.set_ca(vec![1, 2, 3]);
    let mut secure = eventloop(options);
    assert_eq!(secure.network_connect(), Transport::Tls);
    let connect = secure.mqtt_connect();
    assert_eq!((connect.keep_alive, connect.clean_session), (10, false));
    assert_eq!(connect.username.as_deref(), Some("user"));
    assert_eq!(connect.password.as_deref(), Some("secret"));
    assert_eq!(HANDSHAKE_TIMEOUT, 5_000);
}

#[test]
fn options_start_from_their_defaults() {
    let mut options = MqttOptions::new("id".to_owned(), "host".to_owned(), 8883);
    assert_eq!(options.broker_address(), ("host".to_owned(), 8883));
    assert_eq!(options.client_id(), "id");
    assert_eq!(options.keep_alive(), 60);
    assert!(options.clean_session());
    assert!(options.credentials().is_none());
    assert!(!options.has_ca());
    assert_eq!(options.inflight(), 100);
    assert_eq!(options.throttle(), 0);
    assert_eq!(options.max_packet_size(), 256 * 1024);
    options.set_max_packet_size(1024);
    options.set_inflight(5);
    options.set_keep_alive(5);
    assert_eq!((options.max_packet_size(), options.inflight(), options.keep_alive()), (1024, 5, 5));
}
