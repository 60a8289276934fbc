use bytes::Bytes;
use jackiechan::{Receiver, TryRecvError};
use rumqtt::codec::{Packet, PubAck, Publish, QoS, Subscribe, SubscribeTopic};
use rumqtt::router::commitlog::{CommitLog, DEFAULT_SEGMENT_SIZE};
use rumqtt::router::readyqueue::ReadyQueue;
use rumqtt::router::model::{Prepared, Served};
use rumqtt::router::router::Router;
use rumqtt::router::subscriptions::Subscriptions;
use rumqtt::router::tracker::Tracker;
use rumqtt::router::watermarks::{PendingAck, Watermarks};
use rumqtt::router::{
    Acks, AcksRequest, Connection, ConnectionAck, ConnectionType, Data, DataRequest,
    Disconnection, Event, Notification, ReplicationAck, ReplicationData, Topics, TopicsRequest,
};

fn payload(i: u8) -> Bytes {
    Bytes::from(vec![i, i, i])
}

fn publish(topic: &str, qos: QoS, pkid: u16, i: u8) -> Packet {
    let mut publish = Publish::new(topic.to_owned(), qos, payload(i));
    publish.pkid = pkid;
    Packet::Publish(publish)
}

fn subscribe(filters: &[&str]) -> Packet {
    Packet::Subscribe(Subscribe {
        pkid: 1,
        topics: filters
            .iter()
            .map(|f| SubscribeTopic { topic_path: (*f).to_owned(), qos: QoS::AtLeastOnce })
            .collect(),
    })
}

fn connect(router: &mut Router, id: &str, capacity: usize) -> (usize, Receiver<Notification>) {
    let (connection, rx) = Connection::new_remote(id, capacity);
    let slot = router.handle_connect(connection);
    (slot, rx)
}

fn received(rx: &Receiver<Notification>) -> Notification {
    rx.try_recv().unwrap()
}

fn nothing_for(rx: &Receiver<Notification>) -> bool {
    matches!(rx.try_recv(), Err(TryRecvError::Empty) | Err(TryRecvError::Closed))
}

fn data(notification: Notification) -> Data {
    match notification {
        Notification::Data(data) => data,
        other => panic!("unexpected notification {:?}", other),
    }
}

fn acks(notification: Notification) -> Vec<(u16, Packet)> {
    match notification {
        Notification::Acks(acks) => acks.acks,
        other => panic!("unexpected notification {:?}", other),
    }
}

#[test]
fn commitlog_appends_at_strictly_increasing_offsets() {
    let mut log = CommitLog::new(3);
    assert_eq!(log.len(), 0);
    for i in 0..10u64 {
        assert_eq!(log.append(payload(i as u8)), Some(i));
        assert_eq!(log.len(), i + 1);
    }
    let (all, next, done) = log.readv((0, 0), 100);
    assert_eq!(all, (0..10).map(payload).collect::<Vec<Bytes>>());
    assert_eq!(next, (3, 10));
    assert!(done);
}

#[test]
fn commitlog_reads_across_segments_in_batches() {
    let mut log = CommitLog::new(4);
    for i in 0..10 {
        log.append(payload(i));
    }
    let (batch, next, done) = log.readv((0, 0), 3);
    assert_eq!(batch, vec![payload(0), payload(1), payload(2)]);
    assert_eq!((next, done), ((0, 3), false));
    let (batch, next, done) = log.readv(next, 3);
    assert_eq!(batch, vec![payload(3), payload(4), payload(5)]);
    assert_eq!((next, done), ((1, 6), false));
    // a batch that ends with a segment is followed by a cursor into the next one
    let (batch, next, done) = log.readv(next, 2);
    assert_eq!(batch, vec![payload(6), payload(7)]);
    assert_eq!((next, done), ((2, 8), false));
    let (batch, next, done) = log.readv(next, 5);
    assert_eq!(batch, vec![payload(8), payload(9)]);
    assert_eq!((next, done), ((2, 10), true));
    // at the end there is nothing more, until something is appended
    let (batch, same, done) = log.readv(next, 5);
    assert!(batch.is_empty());
    assert_eq!((same, done), (next, true));
    assert_eq!(log.append(payload(10)), Some(10));
    let (batch, next, done) = log.readv(next, 5);
    assert_eq!(batch, vec![payload(10)]);
    assert_eq!((next, done), ((2, 11), true));
    // a cursor that was handed out stays good, also from the end of an old segment
    let (batch, next, _) = log.readv((0, 4), 1);
    assert_eq!((batch, next), (vec![payload(4)], (1, 5)));
    let (batch, next, done) = log.readv((1, 5), 0);
    assert!(batch.is_empty());
    assert_eq!((next, done), ((1, 5), false));
}

#[test]
fn commitlog_tells_cursors_outside_the_log_that_they_are_done() {
    let mut log = CommitLog::new(DEFAULT_SEGMENT_SIZE);
    let (batch, next, done) = log.readv((0, 0), 10);
    assert!(batch.is_empty());
    assert_eq!((next, done), ((0, 0), true));
    log.append(payload(1));
    for cursor in [(1, 0), (0, 2), (7, 7), (u64::MAX, u64::MAX)] {
        let (batch, next, done) = log.readv(cursor, 10);
        assert!(batch.is_empty());
        assert_eq!((next, done), (cursor, true));
    }
    let mut log = CommitLog::new(2);
    for i in 0..3 {
        log.append(payload(i));
    }
    // the offset has to lie in the segment that the cursor names
    let (batch, next, done) = log.readv((1, 0), 10);
    assert!(batch.is_empty());
    assert_eq!((next, done), ((1, 0), true));
    let (batch, _, _) = log.readv((0, 3), 10);
    assert!(batch.is_empty());
    let (batch, next, done) = log.readv((0, 2), 10);
    assert_eq!((batch, next, done), (vec![payload(2)], (1, 3), true));
}

#[test]
fn watermarks_hold_acknowledgements_back_until_both_replicas_have_the_data() {
    let mut marks = Watermarks::new(2);
    marks.written(0);
    for (offset, pkid) in [(1u64, 10u16), (2, 11), (3, 12)] {
        marks.append(offset, 4, pkid);
        assert!(marks.release().is_empty());
    }
    marks.ack(1, 3);
    assert_eq!(marks.threshold(), 0);
    // only what both replicas have is released
    marks.ack(2, 2);
    assert_eq!(marks.threshold(), 2);
    assert_eq!(
        marks.release(),
        vec![
            PendingAck { offset: 1, connection: 4, pkid: 10 },
            PendingAck { offset: 2, connection: 4, pkid: 11 },
        ]
    );
    assert!(marks.release().is_empty());
    // a replica's watermark never goes back
    marks.ack(2, 1);
    assert_eq!(marks.threshold(), 2);
    marks.ack(2, 5);
    assert_eq!(marks.threshold(), 3);
    assert_eq!(marks.release(), vec![PendingAck { offset: 3, connection: 4, pkid: 12 }]);
    // replicas other than the two are nobody
    marks.ack(0, 9);
    marks.ack(3, 9);
    assert_eq!(marks.threshold(), 3);
}

#[test]
fn watermarks_start_at_offset_zero() {
    // every watermark starts at 0, so the first payload of a topic waits for no replica
    let mut marks = Watermarks::new(2);
    assert_eq!(marks.threshold(), 0);
    marks.append(0, 1, 7);
    assert_eq!(marks.release(), vec![PendingAck { offset: 0, connection: 1, pkid: 7 }]);
    marks.append(1, 1, 8);
    assert!(marks.release().is_empty());
}

#[test]
fn watermarks_wait_for_as_many_replicas_as_they_are_told() {
    let mut alone = Watermarks::new(0);
    alone.append(0, 1, 7);
    assert_eq!(alone.release(), vec![PendingAck { offset: 0, connection: 1, pkid: 7 }]);
    alone.append(5, 1, 8);
    assert_eq!(alone.threshold(), 5);
    assert_eq!(alone.release().len(), 1);
    alone.written(9);
    assert_eq!(alone.threshold(), 9);

    let mut one = Watermarks::new(1);
    one.append(1, 1, 7);
    one.append(2, 1, 8);
    one.ack(2, 2);
    assert!(one.release().is_empty());
    one.ack(1, 1);
    assert_eq!(one.release(), vec![PendingAck { offset: 1, connection: 1, pkid: 7 }]);

    let mut many = Watermarks::new(7);
    many.append(1, 1, 7);
    many.ack(1, 3);
    assert!(many.release().is_empty());
    many.ack(2, 3);
    assert_eq!(many.release().len(), 1);
}

#[test]
fn readyqueue_serves_in_turn_and_holds_nobody_twice() {
    let mut queue = ReadyQueue::new();
    assert_eq!(queue.pop(), None);
    for id in [3, 1, 3, 2, 1] {
        queue.push(id);
    }
    assert_eq!(queue.len(), 3);
    assert!(queue.contains(1) && !queue.contains(4));
    assert_eq!(queue.pop(), Some(3));
    queue.push(3);
    queue.remove(2);
    queue.remove(9);
    assert_eq!(queue.pop(), Some(1));
    assert_eq!(queue.pop(), Some(3));
    assert_eq!(queue.pop(), None);
}

#[test]
fn filters_match_topics_level_by_level() {
    let cases = [
        ("hello/world", "hello/world", true),
        ("hello/world", "hello/#", true),
        ("hello", "hello/#", true),
        ("hello/world/again", "hello/#", true),
        ("hello/world", "#", true),
        ("hello/world", "+/world", true),
        ("hello/world", "hello/+", true),
        ("hello/world", "+/+", true),
        ("hello/world", "+", false),
        ("hello", "+", true),
        ("hello/world", "hello", false),
        ("hello", "hello/world", false),
        ("hello/world", "hello/+/again", false),
        ("hello/world/again", "hello/+", false),
        ("hello/world", "hello/#/again", false),
        ("hello/", "hello/+", true),
        ("hello/", "hello", false),
        ("/hello", "+/hello", true),
        ("hello/world", "Hello/world", false),
        ("a/b/c/d", "a/+/c/#", true),
        ("a/b/x/d", "a/+/c/#", false),
        ("", "", true),
        ("", "#", true),
        ("", "+", true),
        ("$SYS/uptime", "#", false),
        ("$SYS/uptime", "+/uptime", false),
        ("$SYS/uptime", "$SYS/#", true),
        ("$SYS/uptime", "$SYS/+", true),
        ("a/$SYS", "a/+", true),
        ("h\u{e9}/w", "h\u{e9}/+", true),
        ("h\u{e9}llo", "h\u{e8}llo", false),
        ("ab", "a+", false),
        ("a#", "a#", true),
    ];
    for (topic, filter, expected) in cases {
        assert_eq!(
            rumqtt::router::subscriptions::matches(topic, filter),
            expected,
            "topic {:?}, filter {:?}",
            topic,
            filter
        );
    }
}

#[test]
fn subscriptions_find_the_connections_whose_filters_match() {
    let mut subscriptions = Subscriptions::new();
    subscriptions.add("hello/#".to_owned(), 1);
    subscriptions.add("hello/world".to_owned(), 2);
    subscriptions.add("bye/+".to_owned(), 1);
    subscriptions.add("+/world".to_owned(), 3);
    subscriptions.add("hello/+".to_owned(), 1);
    // what is noted already is not noted again
    subscriptions.add("hello/#".to_owned(), 1);
    subscriptions.add("+/world".to_owned(), 3);
    assert_eq!(subscriptions.len(), 5);
    subscriptions.add("hello/#".to_owned(), 4);
    subscriptions.remove(4);
    assert_eq!(subscriptions.len(), 5);
    assert_eq!(subscriptions.matches("hello/world"), vec![1, 2, 3, 1]);
    assert_eq!(subscriptions.matches("bye/world"), vec![1, 3]);
    assert_eq!(subscriptions.matches("none"), Vec::<usize>::new());
    subscriptions.remove(1);
    assert_eq!(subscriptions.len(), 2);
    assert_eq!(subscriptions.matches("hello/world"), vec![2, 3]);
    subscriptions.remove(5);
    assert_eq!(subscriptions.matches("hello/world"), vec![2, 3]);
}

#[test]
fn tracker_goes_round_the_topics_that_have_something_new() {
    let mut tracker = Tracker::new();
    assert!(tracker.next().is_none());
    assert!(!tracker.has_pending());
    for topic in ["a", "b", "c", "b"] {
        tracker.track(topic.to_owned());
    }
    assert_eq!(tracker.len(), 3);
    assert_eq!((tracker.position("a"), tracker.position("c"), tracker.position("x")), (0, 2, 3));
    // nothing is known to be there yet
    assert!(tracker.next().is_none());
    tracker.notice("a", 5);
    tracker.notice("c", 2);
    tracker.notice("x", 9);
    assert!(tracker.has_pending());
    let picked: Vec<String> = (0..5).map(|_| tracker.next().unwrap().topic()).collect();
    assert_eq!(picked, ["a", "c", "a", "c", "a"]);
    tracker.notice("b", 1);
    let picked: Vec<String> = (0..4).map(|_| tracker.next().unwrap().topic()).collect();
    assert_eq!(picked, ["b", "c", "a", "b"]);
    // a topic that was read to its end is passed over
    tracker.advance("c", [(0, 2), (0, 0), (0, 0)]);
    tracker.advance("b", [(0, 1), (0, 0), (0, 0)]);
    let request = tracker.next().unwrap();
    assert_eq!((request.topic().as_str(), request.cursors()[0], request.max_count()), ("a", (0, 0), 100));
    tracker.advance("a", [(0, 3), (0, 0), (0, 0)]);
    assert_eq!(tracker.next().unwrap().cursors(), [(0, 3), (0, 0), (0, 0)]);
    tracker.advance("a", [(0, 5), (0, 0), (0, 0)]);
    assert!(tracker.next().is_none());
    assert!(!tracker.has_pending());
}

#[test]
fn requests_and_replies_are_made_with_their_defaults() {
    let request = DataRequest::new("a/b".to_owned());
    assert_eq!((request.topic().as_str(), request.cursors(), request.max_count()), ("a/b", [(0, 0); 3], 100));
    let request = DataRequest::with("a/b".to_owned(), 7);
    assert_eq!((request.cursors(), request.max_count()), ([(0, 0); 3], 7));
    let cursors = [(1, 2), (3, 4), (5, 6)];
    let request = DataRequest::offsets("a/b".to_owned(), cursors);
    assert_eq!((request.cursors(), request.max_count()), (cursors, 100));
    let request = DataRequest::offsets_with("t".to_owned(), cursors, 9);
    assert_eq!((request.topic().as_str(), request.cursors(), request.max_count()), ("t", cursors, 9));
    let copy = request.clone();
    assert_eq!((copy.topic(), copy.cursors(), copy.max_count()), (request.topic(), cursors, 9));

    let data = Data::new("t".to_owned(), cursors, 6, vec![payload(1), payload(2)]);
    assert_eq!((data.topic.as_str(), data.cursors, data.size, data.payload.len()), ("t", cursors, 6, 2));

    let acks = Acks::new(vec![(1, Packet::PubAck(PubAck::new(1))), (2, Packet::PubAck(PubAck::new(2)))]);
    assert_eq!(acks.len(), 2);
    assert_eq!(Acks::new(vec![]).len(), 0);
    assert_eq!(AcksRequest::new(), AcksRequest);

    let mut topics = TopicsRequest::new();
    assert_eq!(format!("{:?}", topics), "TopicsRequest { offset: 0, count: 10 }");
    topics.set_count(3);
    assert_eq!(format!("{:?}", topics), "TopicsRequest { offset: 0, count: 3 }");
    assert_eq!(format!("{:?}", TopicsRequest::offset(4)), "TopicsRequest { offset: 4, count: 10 }");
    let names = vec!["a".to_owned(), "b".to_owned()];
    assert_eq!(format!("{:?}", Topics::new(2, &names)), "Topics { offset: 2, topics: [\"a\", \"b\"] }");

    let mut replicated = ReplicationData::with_capacity(5, "t".to_owned(), 2);
    replicated.push(payload(1));
    replicated.push(payload(2));
    assert!(format!("{:?}", replicated).starts_with("ReplicationData { pkid: 5, topic: \"t\", payload: ["));
    assert_eq!(format!("{:?}", ReplicationAck::new("t".to_owned(), 8)), "ReplicationAck { topic: \"t\", offset: 8 }");
    assert_eq!(format!("{:?}", Disconnection::new("c1".to_owned())), "Disconnection { id: \"c1\" }");
}

#[test]
fn connection_parks_what_its_channel_does_not_take() {
    let (mut connection, rx) = Connection::new_remote("c1", 1);
    assert!(matches!(&connection.conn, ConnectionType::Device(id) if id == "c1"));
    assert!(!connection.has_parked());
    assert!(connection.notify_last_failed());
    assert!(connection.notify(Notification::ConnectionAck(ConnectionAck::Success(1))));
    assert!(!connection.has_parked());

    // the channel is full: the notification is parked, not lost
    assert!(!connection.notify(Notification::ConnectionAck(ConnectionAck::Success(2))));
    assert!(connection.has_parked() && !connection.parked_data());
    assert!(!connection.notify_last_failed());
    assert!(connection.has_parked());

    assert!(matches!(received(&rx), Notification::ConnectionAck(ConnectionAck::Success(1))));
    assert!(connection.notify_last_failed());
    assert!(!connection.has_parked());
    assert!(matches!(received(&rx), Notification::ConnectionAck(ConnectionAck::Success(2))));
    assert!(nothing_for(&rx));

    // a closed channel hands the notification back as well
    drop(rx);
    let lost = Data::new("t".to_owned(), [(0, 0); 3], 0, vec![]);
    assert!(!connection.notify(Notification::Data(lost)));
    assert!(connection.parked_data());
    // a send that went through leaves nothing parked, one that came back is parked
    let (mut fresh, _frx) = Connection::new_remote("c2", 1);
    assert!(fresh.settle(Ok(())));
    assert!(!fresh.has_parked());
    assert!(!fresh.settle(Err(Notification::Acks(Acks::new(vec![])))));
    assert!(fresh.has_parked() && !fresh.parked_data());
    assert!(fresh.settle(Ok(())));
    assert!(fresh.has_parked());
}

#[test]
fn messages_are_put_into_words() {
    let request = DataRequest::offsets_with("a/b".to_owned(), [(1, 2), (0, 0), (3, 4)], 7);
    assert_eq!(request.describe(), "Topic = a/b, cursors = [(1, 2), (0, 0), (3, 4)], max_count = 7");
    let data = Data::new("a/b".to_owned(), [(0, 2), (0, 0), (0, 0)], 6, vec![payload(1), payload(2)]);
    assert_eq!(
        data.describe(),
        "Topic = \"a/b\", Cursors = [(0, 2), (0, 0), (0, 0)], Payload size = 6, Payload count = 2"
    );
    let (device, _rx) = Connection::new_remote("c1", 1);
    assert_eq!(device.describe(), "Device(\"c1\")");
    let (replica, _rx) = Connection::new_replica(2, 1);
    assert_eq!(replica.describe(), "Replicator(2)");
}

#[test]
fn router_makes_logs_of_the_segment_size_it_was_made_with() {
    let mut router = Router::new(3, 0);
    let (publisher, _ptx) = connect(&mut router, "pub", 10);
    let (subscriber, rx) = connect(&mut router, "sub", 10);
    received(&rx);
    router.handle_data(subscriber, &vec![subscribe(&["t"])]);
    let packets: Vec<Packet> = (0..7).map(|i| publish("t", QoS::AtMostOnce, 0, i)).collect();
    router.handle_data(publisher, &packets);
    assert_eq!(router.tick(), Served::Data { id: subscriber, delivered: true });
    // seven payloads in segments of three: the end lies in the third segment
    assert_eq!(data(received(&rx)).cursors[0], (2, 7));
}

#[test]
fn connections_of_replicas_and_devices_are_told_apart() {
    let (replica, _rx) = Connection::new_replica(2, 4);
    assert!(matches!(replica.conn, ConnectionType::Replicator(2)));
    let (device, _rx2) = Connection::new_remote("c1", 4);
    let (again, _rx3) = Connection::new_remote("c1", 4);
    let (other, _rx4) = Connection::new_remote("c2", 4);
    assert!(device.same_client(&again));
    assert!(!device.same_client(&other));
    assert!(!device.same_client(&replica));
    assert!(!replica.same_client(&replica));
}

#[test]
fn router_sends_a_client_its_own_publish_and_one_ack() {
    let mut router = Router::new(DEFAULT_SEGMENT_SIZE, 0);
    let (id, rx) = connect(&mut router, "c1", 10);
    assert_eq!(id, 0);
    assert!(matches!(received(&rx), Notification::ConnectionAck(ConnectionAck::Success(0))));

    assert_eq!(router.handle_event(id, Event::Data(vec![publish("hello/world", QoS::AtLeastOnce, 7, 1)])),
        Served::Acks { id: 0, delivered: true });
    assert_eq!(acks(received(&rx)), vec![(7, Packet::PubAck(PubAck::new(7)))]);
    assert!(nothing_for(&rx));

    assert_eq!(router.handle_event(id, Event::Data(vec![subscribe(&["hello/#"])])),
        Served::Data { id: 0, delivered: true });
    let batch = data(received(&rx));
    assert_eq!(batch.topic, "hello/world");
    assert_eq!(batch.payload, vec![payload(1)]);
    assert_eq!(batch.size, 3);
    assert_eq!(batch.cursors, [(0, 1), (0, 0), (0, 0)]);
    assert!(nothing_for(&rx));
    assert_eq!(router.tick(), Served::Idle);
}

#[test]
fn router_makes_ready_what_it_sends() {
    let mut router = Router::new(DEFAULT_SEGMENT_SIZE, 0);
    assert!(matches!(router.prepare(), Prepared::Idle));
    let (id, rx) = connect(&mut router, "c1", 10);
    received(&rx);
    router.handle_data(id, &vec![publish("hello/world", QoS::AtLeastOnce, 7, 1)]);
    router.handle_data(id, &vec![subscribe(&["hello/#"])]);

    // the acknowledgement first, once
    let notification = match router.prepare() {
        Prepared::Send { id: to, notification } => {
            assert_eq!(to, id);
            notification
        }
        other => panic!("unexpected {:?}", other),
    };
    assert!(matches!(&notification, Notification::Acks(a) if a.acks == vec![(7, Packet::PubAck(PubAck::new(7)))]));
    assert!(matches!(router.prepare(), Prepared::Idle));
    assert!(router.send(id, notification));
    assert_eq!(acks(received(&rx)), vec![(7, Packet::PubAck(PubAck::new(7)))]);

    // then the connection's own publish
    let notification = match router.prepare() {
        Prepared::Send { id: to, notification } => {
            assert_eq!(to, id);
            notification
        }
        other => panic!("unexpected {:?}", other),
    };
    assert!(matches!(&notification, Notification::Data(d)
        if d.topic == "hello/world" && d.payload == vec![payload(1)] && d.cursors[0] == (0, 1)));
    assert!(router.send(id, notification));
    assert_eq!(data(received(&rx)).payload, vec![payload(1)]);
    assert!(matches!(router.prepare(), Prepared::Idle));
    // the connection has to consume the batch before it gets more
    router.handle_data(id, &vec![publish("hello/again", QoS::AtMostOnce, 0, 2)]);
    assert!(matches!(router.prepare(), Prepared::Idle));
    router.handle_ready(id);
    assert!(matches!(router.prepare(), Prepared::Send { notification: Notification::Data(_), .. }));
    assert!(nothing_for(&rx));
}

#[test]
fn router_sends_nothing_more_before_the_connection_is_ready() {
    let mut router = Router::new(2, 0);
    let (publisher, _ptx) = connect(&mut router, "pub", 10);
    let (subscriber, rx) = connect(&mut router, "sub", 10);
    received(&rx);
    router.handle_data(subscriber, &vec![subscribe(&["a/+"])]);
    assert_eq!(router.tick(), Served::Idle);

    let packets: Vec<Packet> = (0..5).map(|i| publish("a/b", QoS::AtMostOnce, 0, i)).collect();
    router.handle_data(publisher, &packets);
    assert_eq!(router.tick(), Served::Data { id: subscriber, delivered: true });
    let first = data(received(&rx));
    assert_eq!(first.payload, (0..5).map(payload).collect::<Vec<Bytes>>());
    assert_eq!(first.cursors[0], (2, 5));

    // more arrives, but the connection has yet to say that it is ready
    router.handle_data(publisher, &vec![publish("a/b", QoS::AtMostOnce, 0, 5)]);
    router.handle_data(publisher, &vec![publish("a/c", QoS::AtMostOnce, 0, 6)]);
    assert_eq!(router.tick(), Served::Idle);
    assert!(nothing_for(&rx));

    assert_eq!(router.handle_event(subscriber, Event::Ready), Served::Data { id: subscriber, delivered: true });
    let second = data(received(&rx));
    assert_eq!((second.topic.as_str(), second.payload.clone(), second.cursors[0]), ("a/b", vec![payload(5)], (2, 6)));
    assert_eq!(router.handle_event(subscriber, Event::Ready), Served::Data { id: subscriber, delivered: true });
    let third = data(received(&rx));
    assert_eq!((third.topic.as_str(), third.payload.clone()), ("a/c", vec![payload(6)]));
    assert_eq!(router.handle_event(subscriber, Event::Ready), Served::Idle);
}

#[test]
fn router_parks_what_a_full_channel_does_not_take_and_drops_nothing() {
    let mut router = Router::new(100, 0);
    let (publisher, _ptx) = connect(&mut router, "pub", 10);
    let (subscriber, rx) = connect(&mut router, "sub", 1);
    // the connection's answer to the connect fills its channel
    router.handle_data(subscriber, &vec![subscribe(&["#"])]);
    router.handle_data(publisher, &vec![publish("t", QoS::AtMostOnce, 0, 1)]);
    assert_eq!(router.tick(), Served::Data { id: subscriber, delivered: false });
    router.handle_data(publisher, &vec![publish("t", QoS::AtMostOnce, 0, 2)]);
    assert_eq!(router.tick(), Served::Idle);

    // ready, but the channel is still full: what is parked stays parked
    assert_eq!(router.handle_event(subscriber, Event::Ready), Served::Idle);
    assert!(matches!(received(&rx), Notification::ConnectionAck(ConnectionAck::Success(1))));
    assert!(nothing_for(&rx));

    // ready again: what was parked goes out first, and is a batch to consume
    assert_eq!(router.handle_event(subscriber, Event::Ready), Served::Idle);
    assert_eq!(data(received(&rx)).payload, vec![payload(1)]);
    assert_eq!(router.handle_event(subscriber, Event::Ready), Served::Data { id: subscriber, delivered: true });
    assert_eq!(data(received(&rx)).payload, vec![payload(2)]);
    assert!(nothing_for(&rx));
}

#[test]
fn router_holds_acks_back_until_the_replicas_have_the_data() {
    let mut router = Router::new(100, 2);
    let (id, rx) = connect(&mut router, "c1", 10);
    received(&rx);
    let (replica1, r1) = {
        let (connection, rx) = Connection::new_replica(1, 10);
        (router.handle_connect(connection), rx)
    };
    let (replica2, r2) = {
        let (connection, rx) = Connection::new_replica(2, 10);
        (router.handle_connect(connection), rx)
    };
    assert!(matches!(received(&r1), Notification::ConnectionAck(ConnectionAck::Success(1))));
    assert!(matches!(received(&r2), Notification::ConnectionAck(ConnectionAck::Success(2))));
    assert_eq!((router.replica_of(replica1), router.replica_of(replica2), router.replica_of(id)), (1, 2, 0));
    assert_eq!(router.replica_of(9), 0);

    let packets = vec![
        publish("t", QoS::AtMostOnce, 0, 0),
        publish("t", QoS::AtLeastOnce, 11, 1),
        publish("t", QoS::AtLeastOnce, 12, 2),
        publish("t", QoS::AtMostOnce, 0, 3),
        publish("t", QoS::ExactlyOnce, 13, 4),
    ];
    assert_eq!(router.handle_event(id, Event::Data(packets)), Served::Idle);
    let ack = |offset| Event::ReplicationAcks(vec![ReplicationAck::new("t".to_owned(), offset)]);
    assert_eq!(router.handle_event(replica1, ack(4)), Served::Idle);
    assert!(nothing_for(&rx));
    assert_eq!(router.handle_event(replica2, ack(2)), Served::Acks { id, delivered: true });
    assert_eq!(
        acks(received(&rx)),
        vec![(11, Packet::PubAck(PubAck::new(11))), (12, Packet::PubAck(PubAck::new(12)))]
    );
    // an acknowledgement for a topic that is not there, or from a device, moves nothing
    let stray = Event::ReplicationAcks(vec![ReplicationAck::new("x".to_owned(), 9)]);
    assert_eq!(router.handle_event(replica2, stray), Served::Idle);
    assert_eq!(router.handle_event(id, ack(9)), Served::Idle);
    assert_eq!(router.handle_event(replica2, ack(3)), Served::Idle);
    assert_eq!(router.handle_event(replica2, ack(4)), Served::Acks { id, delivered: true });
    assert_eq!(acks(received(&rx)), vec![(13, Packet::PubAck(PubAck::new(13)))]);
    assert!(nothing_for(&rx));
}

#[test]
fn router_takes_data_from_replicas_into_its_logs() {
    let mut router = Router::new(100, 1);
    let (subscriber, rx) = connect(&mut router, "sub", 10);
    received(&rx);
    router.handle_data(subscriber, &vec![subscribe(&["t/#"])]);
    let mut piece = ReplicationData::with_capacity(1, "t/1".to_owned(), 2);
    piece.push(payload(1));
    piece.push(payload(2));
    let mut other = ReplicationData::with_capacity(2, "u".to_owned(), 1);
    other.push(payload(3));
    router.handle_replication_data(1, &vec![piece, other]);
    assert_eq!(router.tick(), Served::Data { id: subscriber, delivered: true });
    let batch = data(received(&rx));
    assert_eq!((batch.topic.as_str(), batch.payload.clone()), ("t/1", vec![payload(1), payload(2)]));
    assert_eq!(batch.size, 6);
    // the replica's watermark stands at what it sent: a publish at offset 2 waits for more
    router.handle_data(subscriber, &vec![publish("t/1", QoS::AtLeastOnce, 5, 9)]);
    assert_eq!(router.handle_event(subscriber, Event::Ready), Served::Data { id: subscriber, delivered: true });
    assert_eq!(data(received(&rx)).payload, vec![payload(9)]);
    let mut more = ReplicationData::with_capacity(3, "t/1".to_owned(), 1);
    more.push(payload(4));
    router.handle_replication_data(1, &vec![more]);
    assert_eq!(router.handle_event(subscriber, Event::Ready), Served::Acks { id: subscriber, delivered: true });
    assert_eq!(acks(received(&rx)), vec![(5, Packet::PubAck(PubAck::new(5)))]);
}

#[test]
fn router_gives_a_returning_client_its_old_slot_and_a_new_client_a_free_one() {
    let mut router = Router::new(100, 0);
    let (first, rx1) = connect(&mut router, "c1", 10);
    let (second, _rx2) = connect(&mut router, "c2", 10);
    let (third, _rx3) = connect(&mut router, "c3", 10);
    assert_eq!((first, second, third), (0, 1, 2));
    assert!(router.is_connected(1) && !router.is_connected(3));
    router.handle_data(first, &vec![subscribe(&["news"])]);
    received(&rx1);

    // the same client again: the old slot, with what it followed
    let (again, rx) = connect(&mut router, "c1", 10);
    assert_eq!(again, first);
    assert!(matches!(received(&rx), Notification::ConnectionAck(ConnectionAck::Success(0))));
    router.handle_data(second, &vec![publish("news", QoS::AtMostOnce, 0, 1)]);
    assert_eq!(router.tick(), Served::Data { id: first, delivered: true });
    assert_eq!(data(received(&rx)).payload, vec![payload(1)]);
    assert!(nothing_for(&rx1));

    // a slot that was given up is the next to be given out
    assert_eq!(router.handle_event(second, Event::Disconnect(Disconnection::new("c2".to_owned()))), Served::Idle);
    assert!(!router.is_connected(second));
    let (fourth, _rx4) = connect(&mut router, "c4", 10);
    assert_eq!(fourth, 1);
    let (fifth, _rx5) = connect(&mut router, "c5", 10);
    assert_eq!(fifth, 3);
}

#[test]
fn router_forgets_a_connection_that_has_gone_and_keeps_what_it_published() {
    let mut router = Router::new(100, 0);
    let (publisher, _ptx) = connect(&mut router, "pub", 10);
    let (gone, grx) = connect(&mut router, "gone", 10);
    received(&grx);
    router.handle_data(gone, &vec![subscribe(&["t"])]);
    router.handle_data(gone, &vec![publish("mine", QoS::AtMostOnce, 0, 7)]);
    router.handle_data(publisher, &vec![publish("t", QoS::AtMostOnce, 0, 1)]);
    // the connection is in the queue of the ready when it goes
    router.handle_disconnect(gone);
    assert_eq!(router.tick(), Served::Idle);
    router.handle_disconnect(gone);
    router.handle_disconnect(77);
    router.handle_ready(gone);
    router.handle_data(gone, &vec![subscribe(&["t"])]);
    assert_eq!(router.tick(), Served::Idle);
    assert!(nothing_for(&grx));

    let (late, rx) = connect(&mut router, "late", 10);
    assert_eq!(late, gone);
    received(&rx);
    // the subscriptions of the connection that had the slot are forgotten
    router.handle_data(publisher, &vec![publish("t", QoS::AtMostOnce, 0, 2)]);
    assert_eq!(router.tick(), Served::Idle);
    router.handle_data(late, &vec![subscribe(&["mine", "t"])]);
    assert_eq!(router.tick(), Served::Data { id: late, delivered: true });
    assert_eq!(data(received(&rx)).payload, vec![payload(7)]);
    assert_eq!(router.handle_event(late, Event::Ready), Served::Data { id: late, delivered: true });
    assert_eq!(data(received(&rx)).payload, vec![payload(1), payload(2)]);
}

#[test]
fn router_serves_the_ready_in_turn() {
    let mut router = Router::new(100, 0);
    let (publisher, _ptx) = connect(&mut router, "pub", 10);
    let subscribers: Vec<(usize, Receiver<Notification>)> =
        ["a", "b", "c"].iter().map(|id| connect(&mut router, id, 10)).collect();
    for (id, rx) in &subscribers {
        received(rx);
        router.handle_data(*id, &vec![subscribe(&["t"])]);
    }
    router.handle_data(publisher, &vec![publish("t", QoS::AtMostOnce, 0, 1)]);
    for (id, rx) in &subscribers {
        assert_eq!(router.tick(), Served::Data { id: *id, delivered: true });
        assert_eq!(data(received(rx)).payload, vec![payload(1)]);
    }
    assert_eq!(router.tick(), Served::Idle);
    // whoever is ready first is served first
    router.handle_data(publisher, &vec![publish("t", QoS::AtMostOnce, 0, 2)]);
    router.handle_ready(subscribers[2].0);
    router.handle_ready(subscribers[0].0);
    assert_eq!(router.tick(), Served::Data { id: subscribers[2].0, delivered: true });
    assert_eq!(router.tick(), Served::Data { id: subscribers[0].0, delivered: true });
    assert_eq!(router.tick(), Served::Idle);
}

#[test]
fn router_reads_in_batches_of_the_request_size() {
    let mut router = Router::new(64, 0);
    let (publisher, _ptx) = connect(&mut router, "pub", 10);
    let (subscriber, rx) = connect(&mut router, "sub", 10);
    received(&rx);
    router.handle_data(subscriber, &vec![subscribe(&["t"])]);
    let packets: Vec<Packet> = (0..250).map(|i| publish("t", QoS::AtMostOnce, 0, i as u8)).collect();
    router.handle_data(publisher, &packets);
    let mut sizes = Vec::new();
    assert_eq!(router.tick(), Served::Data { id: subscriber, delivered: true });
    loop {
        let batch = data(received(&rx));
        sizes.push((batch.payload.len(), batch.size, batch.cursors[0]));
        if router.handle_event(subscriber, Event::Ready) == Served::Idle {
            break;
        }
    }
    assert_eq!(sizes, vec![(100, 300, (1, 100)), (100, 300, (3, 200)), (50, 150, (3, 250))]);
}
