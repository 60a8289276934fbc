//! The router and what connections exchange with it.

pub mod channel;
pub mod commitlog;
pub mod laws;
pub mod model;
pub mod proofs;
pub mod readyqueue;
pub mod router;
pub mod subscriptions;
pub mod text;
pub mod tracker;
pub mod watermarks;

use crate::buffer::bytes_contents;
use crate::codec::Packet;
use bytes::Bytes;
use channel::{bounded, try_send};
use text::{
    data_request_text, data_text, device_of, format_data, format_data_request, format_kind,
    kind_text, replica_number,
};
use jackiechan::{Receiver, Sender};
use vstd::prelude::*;

verus! {

/// Messages from connection to router
#[derive(Debug)]
pub enum Event {
    /// Client id and connection handle
    Connect(Connection),
    /// Connection ready to receive more data
    Ready,
    /// Data for native commitlog
    Data(Vec<Packet>),
    /// Data for commitlog of a replica
    ReplicationData(Vec<ReplicationData>),
    /// Replication acks
    ReplicationAcks(Vec<ReplicationAck>),
    /// Disconnection request
    Disconnect(Disconnection),
}

/// Requests for pull operations
#[derive(Debug)]
pub enum Request {
    /// Data request
    Data(DataRequest),
    /// Topics request
    Topics(TopicsRequest),
    /// Acks request
    Acks(AcksRequest),
}

/// Notification from router to connection
#[derive(Debug)]
pub enum Notification {
    /// Connection reply
    ConnectionAck(ConnectionAck),
    /// Data reply
    Data(Data),
    /// Watermarks reply
    Acks(Acks),
}

/// The payloads of a list as values, in their order.
pub open spec fn payload_views(payload: Seq<Bytes>) -> Seq<Seq<u8>> {
    Seq::new(payload.len(), |i: int| bytes_contents(payload[i]))
}

/// Data sent router to be written to commitlog
#[derive(Debug)]
pub struct ReplicationData {
    /// Id of the packet that connection received
    pub(crate) pkid: u16,
    /// Topic of publish
    pub(crate) topic: String,
    /// Publish payload
    pub(crate) payload: Vec<Bytes>,
}

/// Replicated data as a value.
#[verifier::ext_equal]
pub struct ReplicationDataView {
    pub pkid: u16,
    pub topic: Seq<char>,
    pub payload: Seq<Seq<u8>>,
}

impl View for ReplicationData {
    type V = ReplicationDataView;

    closed spec fn view(&self) -> ReplicationDataView {
        ReplicationDataView {
            pkid: self.pkid,
            topic: self.topic@,
            payload: payload_views(self.payload@),
        }
    }
}

impl ReplicationData {
    pub fn with_capacity(pkid: u16, topic: String, cap: usize) -> (data: ReplicationData)
        ensures
            data@ == (ReplicationDataView { pkid, topic: topic@, payload: Seq::empty() }),
    {
        let data = ReplicationData { pkid, topic, payload: Vec::with_capacity(cap) };
        assert(data@.payload =~= Seq::empty());
        data
    }

    pub fn push(&mut self, payload: Bytes)
        ensures
            final(self)@ == (ReplicationDataView {
                payload: old(self)@.payload.push(bytes_contents(payload)),
                ..old(self)@
            }),
    {
        self.payload.push(payload);
        assert(self@.payload =~= old(self)@.payload.push(bytes_contents(payload)));
    }
}

/// Replication connection frames this after receiving an ack from other replica
/// This is used by router to update watermarks, which is used to send acks
/// for replicated data
#[derive(Debug)]
pub struct ReplicationAck {
    pub(crate) topic: String,
    /// Packet id that router assigned
    pub(crate) offset: u64,
}

impl ReplicationAck {
    /// The topic that the acknowledgement is about.
    pub closed spec fn spec_topic(&self) -> Seq<char> {
        self.topic@
    }

    /// The offset up to which the replica has the topic's data.
    pub closed spec fn spec_offset(&self) -> u64 {
        self.offset
    }

    pub fn new(topic: String, offset: u64) -> (ack: ReplicationAck)
        ensures
            ack.spec_topic() == topic@,
            ack.spec_offset() == offset,
    {
        ReplicationAck { topic, offset }
    }
}

/// Request that connection/linker makes to extract data from commitlog
/// NOTE Connection can make one sweep request to get data from multiple topics
/// but we'll keep it simple for now as multiple requests in one message can
/// makes constant extraction size harder
#[derive(Debug)]
pub struct DataRequest {
    /// Log to sweep
    pub(crate) topic: String,
    /// (segment, offset) tuples per replica (1 native and 2 replicas)
    pub(crate) cursors: [(u64, u64); 3],
    /// Maximum count of payload buffer per replica
    pub(crate) max_count: usize,
}

/// A data request as a value.
#[verifier::ext_equal]
pub struct DataRequestView {
    pub topic: Seq<char>,
    pub cursors: Seq<(u64, u64)>,
    pub max_count: usize,
}

impl View for DataRequest {
    type V = DataRequestView;

    closed spec fn view(&self) -> DataRequestView {
        DataRequestView { topic: self.topic@, cursors: self.cursors@, max_count: self.max_count }
    }
}

impl Clone for DataRequest {
    fn clone(&self) -> (r: Self)
        ensures
            r@ == self@,
    {
        DataRequest {
            topic: self.topic.clone(),
            cursors: self.cursors,
            max_count: self.max_count,
        }
    }
}

/// Three cursors at the start of a log.
pub open spec fn origin() -> Seq<(u64, u64)> {
    seq![(0u64, 0u64), (0u64, 0u64), (0u64, 0u64)]
}

impl DataRequest {
    /// The topic whose log the request reads.
    pub fn topic(&self) -> (topic: String)
        ensures
            topic@ == self@.topic,
    {
        self.topic.clone()
    }

    /// The cursors at which the request starts: this router's own and
    /// those of the two replicas.
    pub fn cursors(&self) -> (cursors: [(u64, u64); 3])
        ensures
            cursors@ == self@.cursors,
    {
        self.cursors
    }

    /// The most payloads that the request takes.
    pub fn max_count(&self) -> (max_count: usize)
        ensures
            max_count == self@.max_count,
    {
        self.max_count
    }

    /// The request in words: its topic, its cursors and its count.
    pub fn describe(&self) -> (text: String)
        ensures
            text@ == data_request_text(self@.topic, self@.cursors, self@.max_count),
    {
        format_data_request(self.topic.as_str(), &self.cursors, self.max_count)
    }

    /// New data request with offsets starting from 0
    pub fn new(topic: String) -> (request: DataRequest)
        ensures
            request@ == (DataRequestView { topic: topic@, cursors: origin(), max_count: 100 }),
    {
        let request = DataRequest { topic, cursors: [(0, 0); 3], max_count: 100 };
        assert(request@.cursors =~= origin());
        request
    }

    pub fn with(topic: String, max_count: usize) -> (request: DataRequest)
        ensures
            request@ == (DataRequestView { topic: topic@, cursors: origin(), max_count }),
    {
        let request = DataRequest { topic, cursors: [(0, 0); 3], max_count };
        assert(request@.cursors =~= origin());
        request
    }

    /// New data request with provided offsets
    pub fn offsets(topic: String, cursors: [(u64, u64); 3]) -> (request: DataRequest)
        ensures
            request@ == (DataRequestView { topic: topic@, cursors: cursors@, max_count: 100 }),
    {
        DataRequest { topic, cursors, max_count: 100 }
    }

    /// New data request with provided offsets
    pub fn offsets_with(topic: String, cursors: [(u64, u64); 3], max_count: usize) -> (request:
        DataRequest)
        ensures
            request@ == (DataRequestView { topic: topic@, cursors: cursors@, max_count }),
    {
        DataRequest { topic, cursors, max_count }
    }
}

#[derive(Debug)]
pub struct Data {
    /// Log to sweep
    pub topic: String,
    /// (segment, offset) tuples per replica (1 native and 2 replicas)
    pub cursors: [(u64, u64); 3],
    /// Payload size
    pub size: usize,
    /// Reply data chain
    pub payload: Vec<Bytes>,
}

impl Data {
    pub fn new(topic: String, cursors: [(u64, u64); 3], size: usize, payload: Vec<Bytes>) -> (data:
        Data)
        ensures
            data.topic == topic,
            data.cursors == cursors,
            data.size == size,
            data.payload == payload,
    {
        Data { topic, cursors, size, payload }
    }

    /// The batch in words: its topic, its cursors, its size and the
    /// number of its payloads.
    pub fn describe(&self) -> (text: String)
        ensures
            text@ == data_text(self.topic@, self.cursors@, self.size, self.payload@.len() as usize),
    {
        format_data(self.topic.as_str(), &self.cursors, self.size, self.payload.len())
    }
}

#[derive(Debug, Clone, Copy, PartialEq, Eq, Structural)]
pub struct TopicsRequest {
    /// Start from this offset
    pub(crate) offset: usize,
    /// Maximum number of topics to read
    pub(crate) count: usize,
}

impl TopicsRequest {
    /// The offset from which topics are asked for.
    pub closed spec fn spec_offset(&self) -> usize {
        self.offset
    }

    /// The most topics that are asked for.
    pub closed spec fn spec_count(&self) -> usize {
        self.count
    }

    pub fn new() -> (request: TopicsRequest)
        ensures
            request.spec_offset() == 0,
            request.spec_count() == 10,
    {
        TopicsRequest { offset: 0, count: 10 }
    }

    pub fn set_count(&mut self, count: usize)
        ensures
            final(self).spec_count() == count,
            final(self).spec_offset() == old(self).spec_offset(),
    {
        self.count = count;
    }

    pub fn offset(offset: usize) -> (request: TopicsRequest)
        ensures
            request.spec_offset() == offset,
            request.spec_count() == 10,
    {
        TopicsRequest { offset, count: 10 }
    }
}

#[derive(Debug)]
pub struct Topics<'a> {
    pub(crate) offset: usize,
    pub(crate) topics: &'a [String],
}

impl<'a> Topics<'a> {
    /// The offset of the first of the topics.
    pub closed spec fn spec_offset(&self) -> usize {
        self.offset
    }

    /// The topics.
    pub closed spec fn spec_topics(&self) -> Seq<String> {
        self.topics@
    }

    pub fn new(offset: usize, topics: &'a [String]) -> (reply: Topics<'a>)
        ensures
            reply.spec_offset() == offset,
            reply.spec_topics() == topics@,
    {
        Topics { offset, topics }
    }
}

#[derive(Clone, Copy, Debug, PartialEq, Eq, Structural)]
pub struct AcksRequest;

impl AcksRequest {
    pub fn new() -> (request: AcksRequest)
        ensures
            request == AcksRequest,
    {
        AcksRequest
    }
}

#[derive(Debug)]
pub struct Acks {
    /// packet ids that can be acked
    pub acks: Vec<(u16, Packet)>,
}

impl Acks {
    pub fn new(acks: Vec<(u16, Packet)>) -> (reply: Acks)
        ensures
            reply.acks == acks,
    {
        Acks { acks }
    }

    pub fn len(&self) -> (n: usize)
        ensures
            n == self.acks@.len(),
    {
        self.acks.len()
    }
}

#[derive(Debug)]
pub enum ConnectionType {
    Device(String),
    Replicator(usize),
}

/// Whether two connections are those of devices with the same client id.
pub open spec fn same_device(a: ConnectionType, b: ConnectionType) -> bool {
    match (a, b) {
        (ConnectionType::Device(x), ConnectionType::Device(y)) => x@ == y@,
        _ => false,
    }
}

/// Used to register a new connection with the router
/// Connection messages encompasses a handle for router to
/// communicate with this connection
#[derive(Debug)]
pub struct Connection {
    /// Kind of connection. A replicator connection or a device connection
    /// Replicator connection are only created from inside this library.
    /// All the external connections are of 'device' type
    pub conn: ConnectionType,
    /// Last failed message to connection
    pub(crate) last_failed: Option<Notification>,
    /// Handle which is given to router to allow router to comminicate with
    /// this connection
    pub(crate) handle: Sender<Notification>,
}

impl Connection {
    /// The notification that could not be delivered and waits for the
    /// next attempt, if there is one.
    pub closed spec fn parked(&self) -> Option<Notification> {
        self.last_failed
    }

    /// The kind of the connection.
    pub closed spec fn kind(&self) -> ConnectionType {
        self.conn
    }

    /// The connection with another notification parked, or none.
    pub closed spec fn with_parked(self, parked: Option<Notification>) -> Connection {
        Connection { last_failed: parked, ..self }
    }

    /// Parking says nothing of the connection but what is parked.
    pub proof fn lemma_with_parked(self, parked: Option<Notification>)
        ensures
            self.with_parked(parked).parked() == parked,
            self.with_parked(parked).kind() == self.kind(),
            self.with_parked(self.parked()) == self,
    {
    }

    /// The connection in words: its kind.
    pub fn describe(&self) -> (text: String)
        ensures
            text@ == kind_text(device_of(self.kind()), replica_number(self.kind())),
    {
        format_kind(&self.conn)
    }

    /// Whether what is parked is a batch of data.
    pub fn parked_data(&self) -> (is_data: bool)
        ensures
            is_data == (self.parked() matches Some(Notification::Data(_))),
    {
        match &self.last_failed {
            Some(Notification::Data(_)) => true,
            _ => false,
        }
    }

    /// Whether a notification is parked.
    pub fn has_parked(&self) -> (parked: bool)
        ensures
            parked == self.parked() is Some,
    {
        self.last_failed.is_some()
    }

    /// Whether the connection is a device's and that of the same client
    /// as `other`.
    pub fn same_client(&self, other: &Connection) -> (same: bool)
        ensures
            same == same_device(self.kind(), other.kind()),
    {
        match (&self.conn, &other.conn) {
            (ConnectionType::Device(a), ConnectionType::Device(b)) => *a == *b,
            _ => false,
        }
    }

    pub fn new_remote(id: &str, capacity: usize) -> (r: (Connection, Receiver<Notification>))
        requires
            capacity > 0,
        ensures
            r.0.kind() matches ConnectionType::Device(name) && name@ == id@,
            r.0.parked() is None,
    {
        let (this_tx, this_rx) = bounded(capacity);

        let connection = Connection {
            conn: ConnectionType::Device(id.to_owned()),
            last_failed: None,
            handle: this_tx,
        };

        (connection, this_rx)
    }

    pub fn new_replica(id: usize, capacity: usize) -> (r: (Connection, Receiver<Notification>))
        requires
            capacity > 0,
        ensures
            r.0.kind() == ConnectionType::Replicator(id),
            r.0.parked() is None,
    {
        let (this_tx, this_rx) = bounded(capacity);

        let connection = Connection {
            conn: ConnectionType::Replicator(id),
            last_failed: None,
            handle: this_tx,
        };

        (connection, this_rx)
    }

    /// Tries once more to deliver the parked notification, if one is
    /// parked, and says whether nothing is parked any more. A
    /// notification that again cannot be delivered stays parked.
    pub fn notify_last_failed(&mut self) -> (delivered: bool)
        ensures
            old(self).parked() is None ==> delivered,
            final(self).parked() == (if delivered {
                None
            } else {
                old(self).parked()
            }),
            final(self).kind() == old(self).kind(),
            *final(self) == old(self).with_parked(final(self).parked()),
    {
        proof {
            self.lemma_with_parked(None);
        }
        if let Some(last_failed) = self.last_failed.take() {
            return self.notify(last_failed);
        }

        true
    }

    /// Sends notification and returns success status
    ///
    /// Nothing is parked when a notification is sent: what is parked goes
    /// out first, through `notify_last_failed`. A notification that the
    /// channel does not take is parked, so that a full channel costs no
    /// notification.
    pub fn notify(&mut self, notification: Notification) -> (delivered: bool)
        requires
            old(self).parked() is None,
        ensures
            final(self).parked() == (if delivered {
                None
            } else {
                Some(notification)
            }),
            final(self).kind() == old(self).kind(),
            *final(self) == old(self).with_parked(final(self).parked()),
    {
        proof {
            self.lemma_with_parked(None);
        }
        let sent = try_send(&self.handle, notification);
        self.settle(sent)
    }

    /// Takes note of how a send went: a notification that came back is
    /// parked, in a place that has to be free for it, and one that went
    /// through leaves what is parked where it is.
    pub fn settle(&mut self, sent: Result<(), Notification>) -> (delivered: bool)
        requires
            sent is Err ==> old(self).parked() is None,
        ensures
            delivered == sent is Ok,
            final(self).parked() == (match sent {
                Ok(_) => old(self).parked(),
                Err(back) => Some(back),
            }),
            final(self).kind() == old(self).kind(),
            *final(self) == old(self).with_parked(final(self).parked()),
    {
        if let Err(e) = sent {
            self.last_failed = Some(e);
            return false;
        }

        true
    }
}

#[derive(Debug)]
pub enum ConnectionAck {
    /// Id assigned by the router for this connectiobackn
    Success(usize),
    /// Failure and reason for failure string
    Failure(String),
}

#[derive(Debug)]
pub struct Disconnection {
    pub(crate) id: String,
}

impl Disconnection {
    /// The id of the client that disconnects.
    pub closed spec fn spec_id(&self) -> Seq<char> {
        self.id@
    }

    pub fn new(id: String) -> (disconnection: Disconnection)
        ensures
            disconnection.spec_id() == id@,
    {
        Disconnection { id }
    }
}

} // verus!
