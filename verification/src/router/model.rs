//! The router as a value, and what each event makes of it.

use super::commitlog::{at_most, Batch};
use super::readyqueue::place_of;
use super::subscriptions::{filter_matches, noted, subscribers, without, SubscriptionView};
use super::tracker::TrackerView;
use super::watermarks::{PendingAck, WatermarksView};
use super::{
    payload_views, same_device, Connection, ConnectionAck, ConnectionType, DataRequestView, Event,
    Notification, ReplicationAck, ReplicationData, ReplicationDataView,
};
use crate::client::state::packet_views;
use crate::codec::{Packet, PacketView, PubAck, PublishView, QoS, SubscribeTopicView};
use vstd::prelude::*;
use vstd::utf8::encode_utf8;

verus! {

/// A topic as a value.
#[verifier::ext_equal]
pub struct TopicView {
    pub name: Seq<char>,
    /// How many payloads a segment of the topic's log holds.
    pub segment_size: int,
    pub log: Seq<Seq<u8>>,
    pub watermarks: WatermarksView,
}

/// A connection's slot as a value.
#[verifier::ext_equal]
pub struct SlotView {
    pub connection: Connection,
    pub tracker: TrackerView,
    pub acks: Seq<(u16, PacketView)>,
    pub waiting: bool,
}

/// The router as a value.
#[verifier::ext_equal]
pub struct RouterView {
    /// How many payloads a segment of a log holds.
    pub segment_size: usize,
    pub replicas: usize,
    pub topics: Seq<TopicView>,
    pub slots: Seq<Option<SlotView>>,
    pub subscriptions: Seq<SubscriptionView>,
    pub ready: Seq<usize>,
}

/// What the router has made ready for the connection at the front of the
/// queue of the ready.
#[derive(Debug)]
pub enum Prepared {
    /// Nobody was ready.
    Idle,
    /// The connection at the front of the queue has nothing to get.
    Nothing { id: usize },
    /// The notification is to be sent to the connection.
    Send { id: usize, notification: Notification },
}

/// What the router did in one turn.
#[derive(Debug, Clone, Copy, PartialEq, Eq, Structural)]
pub enum Served {
    /// Nobody was ready.
    Idle,
    /// The connection at the front of the queue had nothing to get.
    Nothing { id: usize },
    /// The connection at the front of the queue was sent the
    /// acknowledgements that had been released for it.
    Acks { id: usize, delivered: bool },
    /// The connection at the front of the queue was sent a batch of the
    /// next topic that it follows and has not read to the end.
    Data { id: usize, delivered: bool },
}

/// Released acknowledgements as values.
pub open spec fn ack_views(acks: Seq<(u16, Packet)>) -> Seq<(u16, PacketView)> {
    Seq::new(acks.len(), |i: int| (acks[i].0, acks[i].1@))
}

/// The acknowledgements among `released` that are for connection `id`,
/// each as the packet id and the packet that acknowledges it.
pub open spec fn acks_for(released: Seq<PendingAck>, id: usize) -> Seq<(u16, PacketView)>
    decreases released.len(),
{
    if released.len() == 0 {
        Seq::empty()
    } else if released.last().connection == id {
        acks_for(released.drop_last(), id).push(
            (released.last().pkid, PacketView::PubAck(PubAck { pkid: released.last().pkid })),
        )
    } else {
        acks_for(released.drop_last(), id)
    }
}

/// The place of the topic called `name` among the topics, or their number
/// where no topic is called so.
pub open spec fn index_of_name(topics: Seq<TopicView>, name: Seq<char>) -> int
    decreases topics.len(),
{
    if topics.len() == 0 {
        0
    } else if index_of_name(topics.drop_last(), name) < topics.len() - 1 {
        index_of_name(topics.drop_last(), name)
    } else if topics.last().name == name {
        topics.len() - 1
    } else {
        topics.len() as int
    }
}

/// The first of the first `upto` slots that holds a device with the same
/// client id as `kind`, or `upto` where none does.
pub open spec fn first_same(slots: Seq<Option<SlotView>>, kind: ConnectionType, upto: int) -> int
    decreases upto,
{
    if upto <= 0 {
        0
    } else if first_same(slots, kind, upto - 1) < upto - 1 {
        first_same(slots, kind, upto - 1)
    } else if slots[upto - 1] matches Some(slot) && same_device(
        slot.connection.kind(),
        kind,
    ) {
        upto - 1
    } else {
        upto
    }
}

/// The first of the first `upto` slots that is free, or `upto` where
/// none is.
pub open spec fn first_free(slots: Seq<Option<SlotView>>, upto: int) -> int
    decreases upto,
{
    if upto <= 0 {
        0
    } else if first_free(slots, upto - 1) < upto - 1 {
        first_free(slots, upto - 1)
    } else if slots[upto - 1] is None {
        upto - 1
    } else {
        upto
    }
}

impl TopicView {
    /// Whether the topic is in order: so are its watermarks, and every
    /// acknowledgement that waits is for an offset that the log has.
    pub open spec fn wf(self) -> bool {
        &&& self.watermarks.wf()
        &&& forall|i: int|
            0 <= i < self.watermarks.pending.len() ==> (
            #[trigger] self.watermarks.pending[i]).offset < self.log.len()
    }
}

impl SlotView {
    /// Whether the slot is in order: so is its tracker, and a connection
    /// with a parked notification waits.
    pub open spec fn wf(self) -> bool {
        &&& self.tracker.wf()
        &&& (self.connection.parked() is Some ==> self.waiting)
    }
}

impl RouterView {
    /// Whether a connection has the id.
    pub open spec fn connected(self, id: usize) -> bool {
        id < self.slots.len() && self.slots[id as int] is Some
    }

    /// How many replicas the watermarks of the router's topics wait for:
    /// as many as the router was made for, and two where that is more.
    pub open spec fn waited_for(self) -> usize {
        if self.replicas > 2 {
            2
        } else {
            self.replicas
        }
    }

    /// Whether the router is in order: so are its topics and slots, every
    /// log has segments of the router's size, all watermarks wait for the
    /// router's number of replicas, no two topics share a name, and the
    /// queue of the ready holds each connection at most once and only
    /// connections that are there and do not wait.
    pub open spec fn wf(self) -> bool {
        &&& self.slots.len() <= usize::MAX
        &&& forall|t: int|
            0 <= t < self.topics.len() ==> (#[trigger] self.topics[t]).wf()
                && self.topics[t].segment_size == self.segment_size
                && self.topics[t].watermarks.replicas == self.waited_for()
        &&& forall|t: int|
            0 <= t < self.topics.len() ==> index_of_name(self.topics, (#[trigger] self.topics[t]).name)
                == t
        &&& forall|i: int|
            0 <= i < self.slots.len() ==> ((#[trigger] self.slots[i]) matches Some(slot)
                ==> slot.wf())
        &&& self.ready.no_duplicates()
        &&& forall|k: int|
            0 <= k < self.ready.len() ==> self.connected(#[trigger] self.ready[k])
                && !self.slots[self.ready[k] as int]->Some_0.waiting
    }

    /// Whether a topic is called `name`.
    pub open spec fn has_topic(self, name: Seq<char>) -> bool {
        index_of_name(self.topics, name) < self.topics.len()
    }

    /// The payloads of the topic called `name`, oldest first; none where
    /// nothing was published on it yet.
    pub open spec fn log(self, name: Seq<char>) -> Seq<Seq<u8>> {
        if index_of_name(self.topics, name) < self.topics.len() {
            self.topics[index_of_name(self.topics, name)].log
        } else {
            Seq::empty()
        }
    }

    /// A topic on which nothing was published yet.
    pub open spec fn fresh_topic(self, name: Seq<char>) -> TopicView {
        TopicView {
            name,
            segment_size: self.segment_size as int,
            log: Seq::empty(),
            watermarks: WatermarksView {
                replicas: self.waited_for(),
                offsets: seq![0u64, 0u64, 0u64],
                pending: Seq::empty(),
            },
        }
    }

    /// The replica that connection `id` is, or 0 where it is none.
    pub open spec fn replica_of(self, id: usize) -> usize {
        if self.connected(id) {
            match self.slots[id as int]->Some_0.connection.kind() {
                ConnectionType::Replicator(replica) => replica,
                ConnectionType::Device(_) => 0,
            }
        } else {
            0
        }
    }

    /// The slot into which a connection of kind `kind` goes: the first
    /// slot of a device with the same client id, which the connection
    /// takes over; failing that, the first free slot; failing that, a new
    /// slot at the end.
    pub open spec fn slot_for(self, kind: ConnectionType) -> int {
        if first_same(self.slots, kind, self.slots.len() as int) < self.slots.len() {
            first_same(self.slots, kind, self.slots.len() as int)
        } else {
            first_free(self.slots, self.slots.len() as int)
        }
    }

    /// The slots after the connections in `ids` began to follow the topic
    /// called `name`.
    pub open spec fn joined(self, ids: Seq<usize>, name: Seq<char>) -> Seq<Option<SlotView>> {
        Seq::new(
            self.slots.len(),
            |i: int|
                match self.slots[i] {
                    Some(slot) => if ids.contains(i as usize) {
                        Some(SlotView { tracker: slot.tracker.with_topic(name), ..slot })
                    } else {
                        Some(slot)
                    },
                    None => None,
                },
        )
    }

    /// The router that has a topic called `name`: as it is where it has
    /// one, and otherwise with a new, empty topic that every connection
    /// follows whose filters match the name.
    pub open spec fn with_topic(self, name: Seq<char>) -> RouterView {
        if self.has_topic(name) {
            self
        } else {
            RouterView {
                topics: self.topics.push(self.fresh_topic(name)),
                slots: self.joined(subscribers(self.subscriptions, encode_utf8(name)), name),
                ..self
            }
        }
    }

    /// The slots after each released acknowledgement was put with the
    /// connection that it is for.
    pub open spec fn delivered(self, released: Seq<PendingAck>) -> Seq<Option<SlotView>> {
        Seq::new(
            self.slots.len(),
            |i: int|
                match self.slots[i] {
                    Some(slot) => Some(
                        SlotView { acks: slot.acks + acks_for(released, i as usize), ..slot },
                    ),
                    None => None,
                },
        )
    }

    /// The slots after every tracker was told that the log of the topic
    /// called `name` holds `tail` payloads.
    pub open spec fn noticed(self, name: Seq<char>, tail: u64) -> Seq<Option<SlotView>> {
        Seq::new(
            self.slots.len(),
            |i: int|
                match self.slots[i] {
                    Some(slot) => Some(
                        SlotView { tracker: slot.tracker.noticed(name, tail), ..slot },
                    ),
                    None => None,
                },
        )
    }

    /// Whether the connection in slot `i` is due for a notification: it
    /// is there, it does not wait, and there are acknowledgements for it
    /// or something that it follows has data that it has not read.
    pub open spec fn due(self, i: int) -> bool {
        0 <= i < self.slots.len() && (self.slots[i] matches Some(slot) && !slot.waiting && (
        slot.acks.len() > 0 || slot.tracker.pick() is Some))
    }

    /// The queue of the ready after each of the first `upto` connections
    /// that is due for a batch has joined it, unless it was in it.
    pub open spec fn enqueued(self, upto: int) -> Seq<usize>
        decreases upto,
    {
        if upto <= 0 {
            self.ready
        } else {
            let before = self.enqueued(upto - 1);
            if self.due(upto - 1) && !before.contains((upto - 1) as usize) {
                before.push((upto - 1) as usize)
            } else {
                before
            }
        }
    }

    /// The watermarks of a topic after a publish was written at `offset`:
    /// with an acknowledgement that waits where the publish asks for one.
    pub open spec fn marked(
        marks: WatermarksView,
        offset: u64,
        id: usize,
        publish: PublishView,
    ) -> WatermarksView {
        if publish.qos == QoS::AtMostOnce {
            marks.after_write(offset)
        } else {
            marks.after_append(offset, id, publish.pkid)
        }
    }

    /// The router after its topic at place `t` took a publish from
    /// connection `id`: the payload stands at the end of the log, the
    /// watermarks have moved, and the acknowledgements that need not wait
    /// have left them. A log that can take no more changes nothing.
    pub open spec fn written(self, t: int, id: usize, publish: PublishView) -> RouterView {
        let topic = self.topics[t];
        if topic.log.len() >= u64::MAX {
            self
        } else {
            let marks = Self::marked(topic.watermarks, topic.log.len() as u64, id, publish);
            RouterView {
                topics: self.topics.update(
                    t,
                    TopicView {
                        log: topic.log.push(publish.payload),
                        watermarks: marks.after_release(),
                        ..topic
                    },
                ),
                ..self
            }
        }
    }

    /// The acknowledgements that a publish from connection `id` to the
    /// topic at place `t` releases.
    pub open spec fn released_by(self, t: int, id: usize, publish: PublishView) -> Seq<PendingAck> {
        let topic = self.topics[t];
        if topic.log.len() >= u64::MAX {
            Seq::empty()
        } else {
            Self::marked(topic.watermarks, topic.log.len() as u64, id, publish).released()
        }
    }

    /// The router after connection `id` published: the topic is there,
    /// its log has the payload, released acknowledgements are with their
    /// connections, every tracker knows the log's new length, and the
    /// connections that are due for a batch are in the queue of the
    /// ready.
    pub open spec fn published(self, id: usize, publish: PublishView) -> RouterView {
        let v = self.with_topic(publish.topic);
        let t = index_of_name(v.topics, publish.topic);
        let v1 = v.written(t, id, publish);
        let v2 = RouterView { slots: v1.delivered(v.released_by(t, id, publish)), ..v1 };
        let v3 = RouterView {
            slots: v2.noticed(publish.topic, v1.topics[t].log.len() as u64),
            ..v2
        };
        RouterView { ready: v3.enqueued(v3.slots.len() as int), ..v3 }
    }

    /// The tracker after it was made to follow each of the first `upto`
    /// topics whose name `filter` matches, with the topic's log as long
    /// as it is now.
    pub open spec fn caught_up(self, tracker: TrackerView, filter: Seq<u8>, upto: int) -> TrackerView
        decreases upto,
    {
        if upto <= 0 {
            tracker
        } else {
            let before = self.caught_up(tracker, filter, upto - 1);
            let topic = self.topics[upto - 1];
            if filter_matches(filter, encode_utf8(topic.name)) {
                before.with_topic(topic.name).noticed(topic.name, topic.log.len() as u64)
            } else {
                before
            }
        }
    }

    /// The router after connection `id` subscribed with `filter`: the
    /// subscription is noted, the connection follows every topic whose
    /// name the filter matches, and it is in the queue of the ready if it
    /// is due for a batch. A connection that is not there changes
    /// nothing.
    pub open spec fn subscribed(self, id: usize, filter: Seq<char>) -> RouterView {
        if self.connected(id) {
            let slot = self.slots[id as int]->Some_0;
            let v = RouterView {
                subscriptions: noted(
                    self.subscriptions,
                    SubscriptionView { filter: encode_utf8(filter), connection: id },
                ),
                slots: self.slots.update(
                    id as int,
                    Some(
                        SlotView {
                            tracker: self.caught_up(
                                slot.tracker,
                                encode_utf8(filter),
                                self.topics.len() as int,
                            ),
                            ..slot
                        },
                    ),
                ),
                ..self
            };
            RouterView { ready: v.enqueued(v.slots.len() as int), ..v }
        } else {
            self
        }
    }

    /// The router after connection `id` subscribed with the first `upto`
    /// of `filters`, one after the other.
    pub open spec fn subscribed_all(
        self,
        id: usize,
        filters: Seq<SubscribeTopicView>,
        upto: int,
    ) -> RouterView
        decreases upto,
    {
        if upto <= 0 {
            self
        } else {
            self.subscribed_all(id, filters, upto - 1).subscribed(id, filters[upto - 1].topic_path)
        }
    }

    /// The router after it took the first `upto` of the packets that
    /// connection `id` sent: each publish and each subscribe in its turn.
    /// Packets of other kinds are none of the router's business.
    pub open spec fn handled(self, id: usize, packets: Seq<PacketView>, upto: int) -> RouterView
        decreases upto,
    {
        if upto <= 0 {
            self
        } else {
            let before = self.handled(id, packets, upto - 1);
            match packets[upto - 1] {
                PacketView::Publish(publish) => before.published(id, publish),
                PacketView::Subscribe(subscribe) => before.subscribed_all(
                    id,
                    subscribe.topics,
                    subscribe.topics.len() as int,
                ),
                _ => before,
            }
        }
    }

    /// The router after `replica` said that it has the data of the topic
    /// called `name` up to `offset`: the replica's watermark has moved,
    /// the acknowledgements that need not wait any longer are with their
    /// connections, and the connections that are due for a notification
    /// are in the queue of the ready. A topic that is not there changes
    /// nothing.
    pub open spec fn acked(self, replica: usize, name: Seq<char>, offset: u64) -> RouterView {
        if self.has_topic(name) {
            let t = index_of_name(self.topics, name);
            let topic = self.topics[t];
            let marks = topic.watermarks.after_ack(replica, offset);
            let v1 = RouterView {
                topics: self.topics.update(
                    t,
                    TopicView { watermarks: marks.after_release(), ..topic },
                ),
                ..self
            };
            let v2 = RouterView { slots: v1.delivered(marks.released()), ..v1 };
            RouterView { ready: v2.enqueued(v2.slots.len() as int), ..v2 }
        } else {
            self
        }
    }

    /// The router after the first `upto` of a replica's acknowledgements,
    /// one after the other.
    pub open spec fn acked_all(self, replica: usize, acks: Seq<ReplicationAck>, upto: int) -> RouterView
        decreases upto,
    {
        if upto <= 0 {
            self
        } else {
            self.acked_all(replica, acks, upto - 1).acked(
                replica,
                acks[upto - 1].spec_topic(),
                acks[upto - 1].spec_offset(),
            )
        }
    }

    /// The router after a payload arrived from `replica` for the topic
    /// called `name`: the topic is there, its log has the payload, the
    /// replica's watermark stands at the payload's offset, and what
    /// follows from that has happened as after a publish. A log that can
    /// take no more changes nothing but that the topic is there.
    pub open spec fn replicated(self, replica: usize, name: Seq<char>, payload: Seq<u8>) -> RouterView {
        let v = self.with_topic(name);
        let t = index_of_name(v.topics, name);
        let topic = v.topics[t];
        if topic.log.len() >= u64::MAX {
            v
        } else {
            let marks = topic.watermarks.after_ack(replica, topic.log.len() as u64);
            let v1 = RouterView {
                topics: v.topics.update(
                    t,
                    TopicView {
                        log: topic.log.push(payload),
                        watermarks: marks.after_release(),
                        ..topic
                    },
                ),
                ..v
            };
            let v2 = RouterView { slots: v1.delivered(marks.released()), ..v1 };
            let v3 = RouterView { slots: v2.noticed(name, (topic.log.len() + 1) as u64), ..v2 };
            RouterView { ready: v3.enqueued(v3.slots.len() as int), ..v3 }
        }
    }

    /// The router after the first `upto` payloads of one piece of
    /// replicated data arrived from `replica`, one after the other.
    pub open spec fn replicated_upto(
        self,
        replica: usize,
        data: ReplicationDataView,
        upto: int,
    ) -> RouterView
        decreases upto,
    {
        if upto <= 0 {
            self
        } else {
            self.replicated_upto(replica, data, upto - 1).replicated(
                replica,
                data.topic,
                data.payload[upto - 1],
            )
        }
    }

    /// The router after the first `upto` pieces of replicated data
    /// arrived from `replica`, one after the other.
    pub open spec fn replicated_all(
        self,
        replica: usize,
        data: Seq<ReplicationData>,
        upto: int,
    ) -> RouterView
        decreases upto,
    {
        if upto <= 0 {
            self
        } else {
            self.replicated_all(replica, data, upto - 1).replicated_upto(
                replica,
                data[upto - 1]@,
                data[upto - 1]@.payload.len() as int,
            )
        }
    }

    /// The router after connection `id` has gone: its slot is free, it
    /// is not in the queue of the ready, and its subscriptions are
    /// forgotten. The logs stay as they are.
    pub open spec fn disconnected(self, id: usize) -> RouterView {
        if self.connected(id) {
            RouterView {
                slots: self.slots.update(id as int, None),
                ready: if self.ready.contains(id) {
                    self.ready.remove(place_of(self.ready, id))
                } else {
                    self.ready
                },
                subscriptions: without(self.subscriptions, id),
                ..self
            }
        } else {
            self
        }
    }

    /// The router after the connection in slot `id` was set to `slot` and
    /// has left the queue of the ready.
    pub open spec fn seated(self, id: usize, slot: SlotView) -> RouterView {
        RouterView {
            slots: if id < self.slots.len() {
                self.slots.update(id as int, Some(slot))
            } else {
                self.slots.push(Some(slot))
            },
            ready: if self.ready.contains(id) {
                self.ready.remove(place_of(self.ready, id))
            } else {
                self.ready
            },
            ..self
        }
    }

    /// The router after the connection in slot `id` was set to `slot`:
    /// the slot holds it, at the end of the slots where `id` is beyond
    /// them; the connection has left the queue of the ready; and then
    /// every connection that is due for a notification has joined the
    /// queue.
    pub open spec fn admitted(self, id: usize, slot: SlotView) -> RouterView {
        let v = self.seated(id, slot);
        RouterView { ready: v.enqueued(v.slots.len() as int), ..v }
    }

    /// How many bytes the payloads of a batch have together.
    pub open spec fn total_len(payloads: Seq<Seq<u8>>) -> int
        decreases payloads.len(),
    {
        if payloads.len() == 0 {
            0
        } else {
            Self::total_len(payloads.drop_last()) + payloads.last().len()
        }
    }

    /// Whether `after` is the router after `connection` was taken into
    /// slot `id`. The slot is the one that the connection's kind asks
    /// for; it holds the connection with its tracker and released
    /// acknowledgements, which are those of the connection that it takes
    /// over, if it takes one over. The connection has been told its id,
    /// or that is parked for it and it waits.
    pub open spec fn connects(self, after: RouterView, connection: Connection, id: usize) -> bool {
        &&& id == self.slot_for(connection.kind())
        &&& after.connected(id)
        &&& after == self.admitted(id, after.slots[id as int]->Some_0)
        &&& ({
            let slot = after.slots[id as int]->Some_0;
            &&& slot.connection == connection.with_parked(slot.connection.parked())
            &&& (slot.connection.parked() is None || slot.connection.parked() == Some(
                Notification::ConnectionAck(ConnectionAck::Success(id)),
            ))
            &&& slot.waiting == slot.connection.parked() is Some
            &&& slot.tracker == (if self.connected(id) {
                self.slots[id as int]->Some_0.tracker
            } else {
                TrackerView { topics: Seq::empty(), next: 0 }
            })
            &&& slot.acks == (if self.connected(id) {
                self.slots[id as int]->Some_0.acks
            } else {
                Seq::empty()
            })
        })
    }

    /// Whether `after` is the router after connection `id` said that it
    /// is ready. What was parked for it is parked still or has gone out;
    /// the connection waits on if something is parked still, or if what
    /// went out now is a batch of data; and otherwise it is in the queue
    /// of the ready if it is due for a notification. A connection that is
    /// not there changes nothing.
    pub open spec fn readies(self, after: RouterView, id: usize) -> bool {
        if self.connected(id) {
            let before = self.slots[id as int]->Some_0;
            let slot = after.slots[id as int]->Some_0;
            &&& after.connected(id)
            &&& after == self.admitted(id, slot)
            &&& slot.tracker == before.tracker
            &&& slot.acks == before.acks
            &&& slot.connection == before.connection.with_parked(slot.connection.parked())
            &&& (slot.connection.parked() is None || slot.connection.parked()
                == before.connection.parked())
            &&& slot.waiting == (slot.connection.parked() is Some
                || before.connection.parked() matches Some(Notification::Data(_)))
        } else {
            after == self
        }
    }

    /// The request that the connection at the front of the queue of the
    /// ready makes next, if it makes one.
    pub open spec fn next_request(self) -> Option<DataRequestView> {
        if self.ready.len() > 0 && self.connected(self.ready[0]) {
            let tracker = self.slots[self.ready[0] as int]->Some_0.tracker;
            match tracker.pick() {
                Some(picked) => Some(tracker.topics[picked].request),
                None => None,
            }
        } else {
            None
        }
    }

    /// Whether `after` is the router after it made `prepared` ready, where
    /// `batch` is what a read for the next request returns. With nobody
    /// ready nothing changes. Otherwise the connection at the front of the
    /// queue, for which nothing is parked and which does not wait, leaves
    /// the queue. Where acknowledgements were released for it, they are
    /// taken from its slot and make up the notification. Otherwise its
    /// tracker picks the next topic that it follows and has not read to
    /// the end; the batch read from that topic's log makes up the
    /// notification, and the connection's cursor on the topic moves behind
    /// the batch. Where the tracker picks nothing, nothing is made ready.
    pub open spec fn prepares(self, after: RouterView, prepared: Prepared, batch: Batch) -> bool {
        if self.ready.len() == 0 {
            prepared is Idle && after == self
        } else {
            let id = self.ready[0];
            let before = self.slots[id as int]->Some_0;
            let slot = after.slots[id as int]->Some_0;
            &&& self.connected(id)
            &&& after.connected(id)
            &&& before.connection.parked() is None
            &&& !before.waiting
            &&& after == (RouterView {
                slots: self.slots.update(id as int, Some(slot)),
                ready: self.ready.skip(1),
                ..self
            })
            &&& slot.connection == before.connection
            &&& slot.waiting == before.waiting
            &&& slot.acks.len() == 0
            &&& match prepared {
                Prepared::Idle => false,
                Prepared::Send { id: to, notification: Notification::Acks(acks) } => {
                    &&& to == id
                    &&& before.acks.len() > 0
                    &&& ack_views(acks.acks@) == before.acks
                    &&& slot.tracker == before.tracker
                },
                Prepared::Send { id: to, notification: Notification::Data(data) } => {
                    &&& to == id
                    &&& before.acks.len() == 0
                    &&& before.tracker.pick() matches Some(picked)
                    &&& ({
                        let request = before.tracker.topics[picked].request;
                        let cursors = seq![batch.next, request.cursors[1], request.cursors[2]];
                        &&& self.has_topic(request.topic)
                        &&& slot.tracker == before.tracker.after_pick(picked).advanced(
                            request.topic,
                            cursors,
                        )
                        &&& data.topic@ == request.topic
                        &&& data.cursors@ == cursors
                        &&& payload_views(data.payload@) == batch.payloads
                        &&& data.size == at_most(
                            Self::total_len(batch.payloads),
                            usize::MAX as int,
                        )
                    })
                },
                Prepared::Send { id: _, notification: Notification::ConnectionAck(_) } => false,
                Prepared::Nothing { id: to } => {
                    &&& to == id
                    &&& before.acks.len() == 0
                    &&& match before.tracker.pick() {
                        None => slot.tracker == before.tracker,
                        Some(picked) => !self.has_topic(
                            before.tracker.topics[picked].request.topic,
                        ) && slot.tracker == before.tracker.after_pick(picked),
                    }
                },
            }
        }
    }

    /// Whether `after` is the router after it tried to send `notification`
    /// to connection `id`, for which nothing was parked. Where the channel
    /// did not take the notification, it is parked. The connection waits
    /// from then on if it was sent a batch of data or if the notification
    /// is parked, and does not wait otherwise; it has left the queue of the
    /// ready, and then every connection that is due for a notification has
    /// joined the queue.
    pub open spec fn sends(
        self,
        after: RouterView,
        id: usize,
        notification: Notification,
        delivered: bool,
    ) -> bool {
        let before = self.slots[id as int]->Some_0;
        let slot = after.slots[id as int]->Some_0;
        &&& after.connected(id)
        &&& after == self.admitted(id, slot)
        &&& slot.tracker == before.tracker
        &&& slot.acks == before.acks
        &&& slot.connection == before.connection.with_parked(
            if delivered {
                None
            } else {
                Some(notification)
            },
        )
        &&& slot.waiting == (!delivered || notification is Data)
    }

    /// Whether `after` is the router after one turn in which it did
    /// `served`, where `batch` is what a read for the next request
    /// returns. With nobody ready nothing changes. Otherwise the
    /// connection at the front of the queue, for which nothing is parked,
    /// is served: with the acknowledgements released for it, if there are
    /// any, or else with the batch, behind which its cursor moves; and it
    /// waits from then on if it was sent a batch or if what it was sent
    /// is parked. The topics stay as they are, and in the end the
    /// connections that are due for a notification are in the queue.
    pub open spec fn ticks(
        self,
        after: RouterView,
        served: Served,
        batch: Batch,
    ) -> bool {
        if self.ready.len() == 0 {
            served == Served::Idle && after == self
        } else {
            let id = self.ready[0];
            let before = self.slots[id as int]->Some_0;
            let slot = after.slots[id as int]->Some_0;
            &&& self.connected(id)
            &&& after.connected(id)
            &&& before.connection.parked() is None
            &&& !before.waiting
            &&& after == self.admitted(id, slot)
            &&& slot.connection == before.connection.with_parked(slot.connection.parked())
            &&& match served {
                Served::Idle => false,
                Served::Acks { id: served_id, delivered } => {
                    &&& served_id == id
                    &&& before.acks.len() > 0
                    &&& slot.acks.len() == 0
                    &&& slot.tracker == before.tracker
                    &&& slot.waiting == !delivered
                    &&& delivered == slot.connection.parked() is None
                    &&& !delivered ==> (slot.connection.parked() matches Some(
                        Notification::Acks(acks),
                    ) && ack_views(acks.acks@) == before.acks)
                },
                Served::Data { id: served_id, delivered } => {
                    &&& served_id == id
                    &&& before.acks.len() == 0
                    &&& slot.acks.len() == 0
                    &&& before.tracker.pick() matches Some(picked)
                    &&& ({
                        let request = before.tracker.topics[picked].request;
                        let cursors = seq![batch.next, request.cursors[1], request.cursors[2]];
                        &&& self.has_topic(request.topic)
                        &&& slot.tracker == before.tracker.after_pick(picked).advanced(
                            request.topic,
                            cursors,
                        )
                        &&& !delivered ==> (slot.connection.parked() matches Some(
                            Notification::Data(data),
                        ) && data.topic@ == request.topic && data.cursors@ == cursors
                            && payload_views(data.payload@) == batch.payloads && data.size
                            == at_most(
                            Self::total_len(batch.payloads),
                            usize::MAX as int,
                        ))
                    })
                    &&& slot.waiting
                    &&& delivered == slot.connection.parked() is None
                },
                Served::Nothing { id: served_id } => {
                    &&& served_id == id
                    &&& before.acks.len() == 0
                    &&& slot.acks.len() == 0
                    &&& slot.connection == before.connection
                    &&& !slot.waiting
                    &&& match before.tracker.pick() {
                        None => slot.tracker == before.tracker,
                        Some(picked) => !self.has_topic(
                            before.tracker.topics[picked].request.topic,
                        ) && slot.tracker == before.tracker.after_pick(picked),
                    }
                },
            }
        }
    }

    /// Whether `after` is the router after it took `event` from
    /// connection `id`.
    pub open spec fn takes(self, after: RouterView, id: usize, event: Event) -> bool {
        match event {
            Event::Connect(connection) => exists|slot: usize|
                self.connects(after, connection, slot),
            Event::Ready => self.readies(after, id),
            Event::Data(packets) => after == self.handled(
                id,
                packet_views(packets@),
                packets@.len() as int,
            ),
            Event::ReplicationData(data) => after == self.replicated_all(
                self.replica_of(id),
                data@,
                data@.len() as int,
            ),
            Event::ReplicationAcks(acks) => after == self.acked_all(
                self.replica_of(id),
                acks@,
                acks@.len() as int,
            ),
            Event::Disconnect(_) => after == self.disconnected(id),
        }
    }
}

} // verus!
