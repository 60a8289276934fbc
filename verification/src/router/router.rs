//! The router: one place through which everything that is published
//! passes, on its way into the topics' logs and out to the connections
//! that follow them.

use super::commitlog::{at_most, Batch, CommitLog};
use super::model::{
    ack_views, acks_for, first_free, first_same, index_of_name, Prepared, RouterView, Served,
    SlotView, TopicView,
};
use super::proofs::{
    lemma_ack_then_release, lemma_admitted_wf, lemma_caught_up_wf, lemma_enqueued,
    lemma_first_same_found, lemma_first_slots, lemma_index_of_name, lemma_index_of_name_is,
    lemma_marks_moved_wf, lemma_new_topic_wf, lemma_noticed_wf, lemma_popped_wf, lemma_slots_kept,
    lemma_topic_grown_wf, lemma_with_topic_twice, lemma_with_topic_wf, lemma_written_wf,
};
use super::readyqueue::{lemma_place_of, place_of, ReadyQueue};
use super::subscriptions::{noted, SubscriptionView, Subscriptions};
use super::tracker::Tracker;
use super::watermarks::{PendingAck, Watermarks};
use super::{
    payload_views, same_device, Acks, Connection, ConnectionAck, ConnectionType, Data,
    DataRequestView, Event, Notification, ReplicationAck, ReplicationData,
};
use crate::buffer::{bytes_clone, bytes_contents, bytes_len};
use crate::client::state::packet_views;
use crate::codec::{Packet, PacketView, PubAck, Publish, QoS, Subscribe};
use bytes::Bytes;
use vstd::prelude::*;
use vstd::utf8::encode_utf8;

verus! {

/// A topic: its name, its log and its watermarks.
#[derive(Debug)]
pub struct Topic {
    pub(crate) name: String,
    pub(crate) log: CommitLog,
    pub(crate) watermarks: Watermarks,
}

/// What the router keeps of one connection.
#[derive(Debug)]
pub struct Slot {
    /// The connection's handle and what could not be delivered to it.
    pub(crate) connection: Connection,
    /// What the connection follows.
    pub(crate) tracker: Tracker,
    /// Acknowledgements that are released and not yet sent.
    pub(crate) acks: Vec<(u16, Packet)>,
    /// Whether the connection has a notification to consume, so that
    /// nothing more is sent to it before it says that it is ready.
    pub(crate) waiting: bool,
}

/// The router.
#[derive(Debug)]
pub struct Router {
    /// How many payloads a log's segment holds.
    pub(crate) segment_size: usize,
    /// How many replicas have to have a publish before it is
    /// acknowledged.
    pub(crate) replicas: usize,
    /// The topics, in the order in which they were first published on.
    pub(crate) topics: Vec<Topic>,
    /// The connections by their ids. The slot of a connection that has
    /// gone is free for the next one.
    pub(crate) slots: Vec<Option<Slot>>,
    /// The filters that connections have subscribed with.
    pub(crate) subscriptions: Subscriptions,
    /// The connections that wait for their next batch.
    pub(crate) readyqueue: ReadyQueue,
}

impl View for Topic {
    type V = TopicView;

    closed spec fn view(&self) -> TopicView {
        TopicView {
            name: self.name@,
            segment_size: self.log.spec_segment_size(),
            log: self.log@,
            watermarks: self.watermarks@,
        }
    }
}

impl View for Slot {
    type V = SlotView;

    closed spec fn view(&self) -> SlotView {
        SlotView {
            connection: self.connection,
            tracker: self.tracker@,
            acks: ack_views(self.acks@),
            waiting: self.waiting,
        }
    }
}

/// The topics of a list as values, in their order.
pub open spec fn topic_views(topics: Seq<Topic>) -> Seq<TopicView> {
    Seq::new(topics.len(), |i: int| topics[i]@)
}

/// An optional slot as a value.
pub open spec fn slot_of(slot: Option<Slot>) -> Option<SlotView> {
    match slot {
        Some(slot) => Some(slot@),
        None => None,
    }
}

/// The slots of a list as values, in their order.
pub open spec fn slot_views(slots: Seq<Option<Slot>>) -> Seq<Option<SlotView>> {
    Seq::new(slots.len(), |i: int| slot_of(slots[i]))
}

impl View for Router {
    type V = RouterView;

    closed spec fn view(&self) -> RouterView {
        RouterView {
            segment_size: self.segment_size,
            replicas: self.replicas,
            topics: topic_views(self.topics@),
            slots: slot_views(self.slots@),
            subscriptions: self.subscriptions@,
            ready: self.readyqueue@,
        }
    }
}

/// How many bytes the payloads have together; the largest number that
/// fits where their sum does not.
fn total_size(payload: &Vec<Bytes>) -> (size: usize)
    ensures
        size == at_most(
            RouterView::total_len(payload_views(payload@)),
            usize::MAX as int,
        ),
{
    let mut size: usize = 0;
    let mut i: usize = 0;
    let ghost views = payload_views(payload@);
    proof {
        assert(views.take(0) =~= Seq::empty());
    }
    while i < payload.len()
        invariant
            i <= payload@.len(),
            views == payload_views(payload@),
            size == at_most(
                RouterView::total_len(views.take(i as int)),
                usize::MAX as int,
            ),
            RouterView::total_len(views.take(i as int)) >= 0,
        decreases payload@.len() - i,
    {
        proof {
            assert(views.take(i + 1).drop_last() =~= views.take(i as int));
            assert(views.take(i + 1).last() == bytes_contents(payload@[i as int]));
        }
        size = size.saturating_add(bytes_len(&payload[i]));
        i += 1;
    }
    proof {
        assert(views.take(i as int) =~= views);
    }
    size
}

impl Router {
    /// Whether the router is in order: so is each log, and so is the
    /// router as a value.
    pub closed spec fn wf(&self) -> bool {
        &&& self.segment_size > 0
        &&& forall|t: int| 0 <= t < self.topics@.len() ==> (#[trigger] self.topics@[t]).log.wf()
        &&& self.readyqueue.wf()
        &&& self@.wf()
    }

    /// Being in order as an executable value implies being in order as a
    /// value.
    pub proof fn lemma_wf(&self)
        requires
            self.wf(),
        ensures
            self@.wf(),
    {
    }

    /// The logs of the topics, in the order of the topics.
    pub closed spec fn logs(&self) -> Seq<CommitLog> {
        Seq::new(self.topics@.len(), |t: int| self.topics@[t].log)
    }

    /// The log of the topic at place `t`.
    pub open spec fn commitlog(&self, t: int) -> CommitLog {
        self.logs()[t]
    }

    /// The log of a topic holds the payloads that the router as a value
    /// has for the topic, in segments of the size that the router as a
    /// value has for it.
    pub proof fn lemma_commitlog(&self, t: int)
        requires
            0 <= t < self@.topics.len(),
        ensures
            self.logs().len() == self@.topics.len(),
            self.commitlog(t)@ == self@.topics[t].log,
            self.commitlog(t).spec_segment_size() == self@.topics[t].segment_size,
    {
        assert(self@.topics[t] == self.topics@[t]@);
    }

    /// What a read for `request` returns from the log of the request's
    /// topic.
    pub open spec fn batch_for(&self, request: DataRequestView) -> Batch {
        self.commitlog(index_of_name(self@.topics, request.topic)).batch(
            request.cursors[0],
            request.max_count,
        )
    }

    /// A router without topics and without connections, whose logs have
    /// segments of `segment_size` payloads and whose acknowledgements
    /// wait for `replicas` replicas.
    pub fn new(segment_size: usize, replicas: usize) -> (router: Router)
        requires
            segment_size > 0,
        ensures
            router.wf(),
            router@ == (RouterView {
                segment_size,
                replicas,
                topics: Seq::empty(),
                slots: Seq::empty(),
                subscriptions: Seq::empty(),
                ready: Seq::empty(),
            }),
    {
        let router = Router {
            segment_size,
            replicas,
            topics: Vec::new(),
            slots: Vec::new(),
            subscriptions: Subscriptions::new(),
            readyqueue: ReadyQueue::new(),
        };
        proof {
            assert(router@.topics =~= Seq::empty());
            assert(router@.slots =~= Seq::empty());
        }
        router
    }

    /// How many slots there are, free ones included.
    pub fn slots(&self) -> (n: usize)
        ensures
            n == self@.slots.len(),
    {
        self.slots.len()
    }

    /// Whether a connection has the id.
    pub fn is_connected(&self, id: usize) -> (connected: bool)
        ensures
            connected == self@.connected(id),
    {
        if id < self.slots.len() {
            assert(self@.slots[id as int] == slot_of(self.slots@[id as int]));
            self.slots[id].is_some()
        } else {
            false
        }
    }

    /// The replica that connection `id` is, or 0 where it is none.
    pub fn replica_of(&self, id: usize) -> (replica: usize)
        ensures
            replica == self@.replica_of(id),
    {
        if id < self.slots.len() {
            assert(self@.slots[id as int] == slot_of(self.slots@[id as int]));
            match &self.slots[id] {
                Some(slot) => match &slot.connection.conn {
                    ConnectionType::Replicator(replica) => *replica,
                    ConnectionType::Device(_) => 0,
                },
                None => 0,
            }
        } else {
            0
        }
    }

    /// The place of the topic called `name`, or the number of topics
    /// where no topic is called so.
    fn find_topic(&self, name: &String) -> (at: usize)
        ensures
            at == index_of_name(self@.topics, name@),
            at <= self.topics@.len(),
    {
        let mut i: usize = 0;
        while i < self.topics.len()
            invariant
                i <= self.topics@.len(),
                forall|j: int| 0 <= j < i ==> (#[trigger] self@.topics[j]).name != name@,
            decreases self.topics@.len() - i,
        {
            assert(self@.topics[i as int] == self.topics@[i as int]@);
            if self.topics[i].name == *name {
                proof {
                    lemma_index_of_name_is(self@.topics, name@, i as int);
                }
                return i;
            }
            i += 1;
        }
        proof {
            lemma_index_of_name_is(self@.topics, name@, i as int);
        }
        i
    }

    /// Makes the connections in `ids` follow the topic called `name`.
    fn join(&mut self, ids: &Vec<usize>, name: &String)
        requires
            old(self).wf(),
        ensures
            final(self).segment_size == old(self).segment_size,
            final(self).topics == old(self).topics,
            final(self)@ == (RouterView { slots: old(self)@.joined(ids@, name@), ..old(self)@ }),
    {
        let mut k: usize = 0;
        proof {
            assert(ids@.take(0) =~= Seq::empty());
            assert(self@.slots =~= old(self)@.joined(ids@.take(0), name@));
        }
        while k < ids.len()
            invariant
                k <= ids@.len(),
                old(self).wf(),
                self.segment_size == old(self).segment_size,
                self.replicas == old(self).replicas,
                self.topics == old(self).topics,
                self.subscriptions == old(self).subscriptions,
                self.readyqueue == old(self).readyqueue,
                self.slots@.len() == old(self).slots@.len(),
                self@.slots == old(self)@.joined(ids@.take(k as int), name@),
            decreases ids@.len() - k,
        {
            let id = ids[k];
            let ghost before = self@.slots;
            let ghost sofar = ids@.take(k as int);
            proof {
                assert(ids@.take(k + 1) =~= sofar.push(id));
                assert(sofar.push(id).contains(id)) by {
                    assert(sofar.push(id)[sofar.len() as int] == id);
                }
                assert forall|i: usize| sofar.push(id).contains(i) <==> (sofar.contains(i) || i
                    == id) by {
                    if sofar.contains(i) {
                        let j = choose|j: int| 0 <= j < sofar.len() && sofar[j] == i;
                        assert(sofar.push(id)[j] == i);
                    }
                }
            }
            if id < self.slots.len() {
                proof {
                    old(self).lemma_wf();
                    assert(before[id as int] == slot_of(self.slots@[id as int]));
                    if let Some(slot) = old(self)@.slots[id as int] {
                        assert(slot.wf());
                        lemma_with_topic_twice(slot.tracker, name@);
                    }
                }
                match &mut self.slots[id] {
                    Some(slot) => {
                        let _ = slot.tracker.track(name.clone());
                    },
                    None => {},
                }
            }
            proof {
                let target = old(self)@.joined(ids@.take(k + 1), name@);
                assert forall|i: int| 0 <= i < self@.slots.len() implies self@.slots[i]
                    == target[i] by {
                    assert(self@.slots[i] == slot_of(self.slots@[i]));
                    assert(before[i] == old(self)@.joined(sofar, name@)[i]);
                    if i == id {
                        if let Some(slot) = old(self)@.slots[i] {
                            lemma_with_topic_twice(slot.tracker, name@);
                        }
                    } else {
                        assert(ids@.take(k + 1).contains(i as usize) == sofar.contains(i as usize));
                    }
                }
                assert(self@.slots =~= target);
            }
            k += 1;
        }
        proof {
            assert(ids@.take(k as int) =~= ids@);
        }
    }

    /// Finds the topic called `name`, or begins it where there is none:
    /// with an empty log, and followed by every connection whose filters
    /// match the name. Returns the topic's place.
    fn ensure_topic(&mut self, name: &String) -> (at: usize)
        requires
            old(self).wf(),
        ensures
            final(self).wf(),
            final(self)@ == old(self)@.with_topic(name@),
            at == index_of_name(final(self)@.topics, name@),
            at < final(self).topics@.len(),
    {
        proof {
            self.lemma_wf();
            lemma_with_topic_wf(self@, name@);
        }
        let at = self.find_topic(name);
        if at < self.topics.len() {
            return at;
        }
        let ids = self.subscriptions.matches(name.as_str());
        let ghost before = *self;
        self.topics.push(
            Topic {
                name: name.clone(),
                log: CommitLog::new(self.segment_size),
                watermarks: Watermarks::new(self.replicas),
            },
        );
        let ghost grown = *self;
        proof {
            assert(grown@.topics =~= before@.topics.push(before@.fresh_topic(name@)));
            assert(grown@.slots == before@.slots);
            assert(grown@ == (RouterView {
                topics: before@.topics.push(before@.fresh_topic(name@)),
                ..before@
            }));
            assert forall|t: int| 0 <= t < grown.topics@.len() implies (
            #[trigger] grown.topics@[t]).log.wf() by {
                if t < before.topics@.len() {
                    assert(before.topics@[t].log.wf());
                }
            }
            lemma_new_topic_wf(before@, name@);
            assert(grown.wf());
        }
        self.join(&ids, name);
        proof {
            assert(self@.slots =~= before@.joined(ids@, name@));
            assert(self@ == before@.with_topic(name@));
            lemma_index_of_name(before@.topics, name@);
            assert forall|j: int| 0 <= j < at implies (#[trigger] self@.topics[j]).name
                != name@ by {
                assert(self@.topics[j] == before@.topics[j]);
            }
            lemma_index_of_name_is(self@.topics, name@, at as int);
        }
        at
    }

    /// Appends a publish from connection `id` to the log of the topic at
    /// place `t`, moves the topic's watermarks, and returns the
    /// acknowledgements that need not wait.
    fn write(&mut self, t: usize, id: usize, publish: Publish) -> (released: Vec<PendingAck>)
        requires
            old(self).wf(),
            t < old(self).topics@.len(),
        ensures
            final(self).wf(),
            final(self)@ == old(self)@.written(t as int, id, publish@),
            final(self).topics@.len() == old(self).topics@.len(),
            released@ == old(self)@.released_by(t as int, id, publish@),
    {
        let ghost before = *self;
        proof {
            before.lemma_wf();
            assert(before@.topics[t as int] == before.topics@[t as int]@);
            assert(before@.topics[t as int].wf());
            assert(before.topics@[t as int].log.wf());
        }
        let qos = publish.qos;
        let pkid = publish.pkid;
        let offset = match self.topics[t].log.append(publish.payload) {
            Some(offset) => offset,
            None => {
                assert(self@.topics =~= before@.topics);
                assert(self@ == before@);
                assert forall|k: int| 0 <= k < self.topics@.len() implies (
                #[trigger] self.topics@[k]).log.wf() by {
                    if k != t {
                        assert(before.topics@[k].log.wf());
                    }
                }
                return Vec::new();
            },
        };
        match qos {
            QoS::AtMostOnce => {
                self.topics[t].watermarks.written(offset);
            },
            _ => {
                self.topics[t].watermarks.append(offset, id, pkid);
            },
        }
        let ghost marks = self.topics@[t as int].watermarks@;
        let released = self.topics[t].watermarks.release();
        proof {
            let topic = before@.topics[t as int];
            assert(marks == RouterView::marked(topic.watermarks, offset, id, publish@));
            let after = TopicView {
                log: topic.log.push(publish@.payload),
                watermarks: marks.after_release(),
                ..topic
            };
            assert(self.topics@[t as int]@ == after);
            assert(self@.topics =~= before@.topics.update(t as int, after));
            assert(self@ == before@.written(t as int, id, publish@));
            assert forall|k: int| 0 <= k < self.topics@.len() implies (
            #[trigger] self.topics@[k]).log.wf() by {
                if k != t {
                    assert(before.topics@[k].log.wf());
                }
            }
            lemma_written_wf(before@, t as int, id, publish@);
        }
        released
    }

    /// Puts each released acknowledgement with the connection that it is
    /// for, to be sent with the connection's next notification.
    fn deliver(&mut self, released: &Vec<PendingAck>)
        requires
            old(self).wf(),
        ensures
            final(self).wf(),
            final(self).topics == old(self).topics,
            final(self)@ == (RouterView { slots: old(self)@.delivered(released@), ..old(self)@ }),
    {
        let mut k: usize = 0;
        proof {
            assert(released@.take(0) =~= Seq::empty());
            assert forall|i: int| 0 <= i < self@.slots.len() implies self@.slots[i] == old(
                self,
            )@.delivered(released@.take(0))[i] by {
                if let Some(slot) = self@.slots[i] {
                    assert(slot.acks + acks_for(released@.take(0), i as usize) =~= slot.acks);
                }
            }
            assert(self@.slots =~= old(self)@.delivered(released@.take(0)));
        }
        while k < released.len()
            invariant
                k <= released@.len(),
                old(self).wf(),
                self.segment_size == old(self).segment_size,
                self.replicas == old(self).replicas,
                self.topics == old(self).topics,
                self.subscriptions == old(self).subscriptions,
                self.readyqueue == old(self).readyqueue,
                self.slots@.len() == old(self).slots@.len(),
                self@.slots == old(self)@.delivered(released@.take(k as int)),
            decreases released@.len() - k,
        {
            let ack = released[k];
            let ghost before = self@.slots;
            let ghost sofar = released@.take(k as int);
            proof {
                assert(released@.take(k + 1).drop_last() =~= sofar);
                assert(released@.take(k + 1).last() == ack);
            }
            if ack.connection < self.slots.len() {
                match &mut self.slots[ack.connection] {
                    Some(slot) => {
                        let ghost held = ack_views(slot.acks@);
                        slot.acks.push((ack.pkid, Packet::PubAck(PubAck { pkid: ack.pkid })));
                        assert(ack_views(slot.acks@) =~= held.push(
                            (ack.pkid, PacketView::PubAck(PubAck { pkid: ack.pkid })),
                        ));
                    },
                    None => {},
                }
            }
            proof {
                let target = old(self)@.delivered(released@.take(k + 1));
                assert forall|i: int| 0 <= i < self@.slots.len() implies self@.slots[i]
                    == target[i] by {
                    assert(self@.slots[i] == slot_of(self.slots@[i]));
                    assert(before[i] == old(self)@.delivered(sofar)[i]);
                    if let Some(slot) = old(self)@.slots[i] {
                        if i == ack.connection {
                            let held = slot.acks + acks_for(sofar, i as usize);
                            let one = (ack.pkid, PacketView::PubAck(PubAck { pkid: ack.pkid }));
                            assert(held.push(one) =~= slot.acks + acks_for(sofar, i as usize).push(
                                one,
                            ));
                        }
                    }
                }
                assert(self@.slots =~= target);
            }
            k += 1;
        }
        proof {
            assert(released@.take(k as int) =~= released@);
            old(self).lemma_wf();
            assert forall|i: int| 0 <= i < self@.slots.len() implies match (
                #[trigger] self@.slots[i],
                old(self)@.slots[i],
            ) {
                (Some(after), Some(before)) => after.wf() && after.connection == before.connection
                    && after.waiting == before.waiting,
                (None, None) => true,
                _ => false,
            } by {
                if let Some(slot) = old(self)@.slots[i] {
                    assert(slot.wf());
                }
            }
            lemma_slots_kept(old(self)@, self@.slots);
            assert(self@ == (RouterView { slots: self@.slots, ..old(self)@ }));
        }
    }

    /// Tells every tracker that the log of the topic called `name` holds
    /// `tail` payloads.
    fn notice(&mut self, name: &String, tail: u64)
        requires
            old(self).wf(),
        ensures
            final(self).wf(),
            final(self).topics == old(self).topics,
            final(self)@ == (RouterView { slots: old(self)@.noticed(name@, tail), ..old(self)@ }),
    {
        let mut i: usize = 0;
        let ghost target = old(self)@.noticed(name@, tail);
        proof {
            old(self).lemma_wf();
        }
        while i < self.slots.len()
            invariant
                i <= self.slots@.len(),
                old(self).wf(),
                old(self)@.wf(),
                target == old(self)@.noticed(name@, tail),
                self.segment_size == old(self).segment_size,
                self.replicas == old(self).replicas,
                self.topics == old(self).topics,
                self.subscriptions == old(self).subscriptions,
                self.readyqueue == old(self).readyqueue,
                self.slots@.len() == old(self).slots@.len(),
                forall|j: int| 0 <= j < i ==> #[trigger] self@.slots[j] == target[j],
                forall|j: int|
                    i <= j < self.slots@.len() ==> #[trigger] self@.slots[j] == old(
                        self,
                    )@.slots[j],
            decreases self.slots@.len() - i,
        {
            let ghost before = self@.slots;
            proof {
                assert(before[i as int] == slot_of(self.slots@[i as int]));
                if let Some(slot) = old(self)@.slots[i as int] {
                    assert(slot.wf());
                }
            }
            match &mut self.slots[i] {
                Some(slot) => {
                    slot.tracker.notice(name.as_str(), tail);
                },
                None => {},
            }
            proof {
                assert forall|j: int| 0 <= j < i + 1 implies #[trigger] self@.slots[j]
                    == target[j] by {
                    assert(self@.slots[j] == slot_of(self.slots@[j]));
                    if j < i {
                        assert(before[j] == target[j]);
                    }
                }
                assert forall|j: int| i + 1 <= j < self.slots@.len() implies #[trigger] self@.slots[j]
                    == old(self)@.slots[j] by {
                    assert(self@.slots[j] == slot_of(self.slots@[j]));
                    assert(before[j] == old(self)@.slots[j]);
                }
            }
            i += 1;
        }
        proof {
            assert(self@.slots =~= target);
            assert forall|i: int| 0 <= i < self@.slots.len() implies match (
                #[trigger] self@.slots[i],
                old(self)@.slots[i],
            ) {
                (Some(after), Some(before)) => after.wf() && after.connection == before.connection
                    && after.waiting == before.waiting,
                (None, None) => true,
                _ => false,
            } by {
                if let Some(slot) = old(self)@.slots[i] {
                    assert(slot.wf());
                    lemma_noticed_wf(slot.tracker, name@, tail);
                }
            }
            lemma_slots_kept(old(self)@, self@.slots);
            assert(self@ == (RouterView { slots: self@.slots, ..old(self)@ }));
        }
    }

    /// Puts every connection that is due for a batch into the queue of
    /// the ready, in the order of the connections' ids.
    fn offer(&mut self)
        requires
            old(self).wf(),
        ensures
            final(self).wf(),
            final(self).topics == old(self).topics,
            final(self)@ == (RouterView {
                ready: old(self)@.enqueued(old(self)@.slots.len() as int),
                ..old(self)@
            }),
    {
        let mut i: usize = 0;
        proof {
            old(self).lemma_wf();
        }
        while i < self.slots.len()
            invariant
                i <= self.slots@.len(),
                old(self).wf(),
                old(self)@.wf(),
                self.segment_size == old(self).segment_size,
                self.replicas == old(self).replicas,
                self.topics == old(self).topics,
                self.subscriptions == old(self).subscriptions,
                self.slots == old(self).slots,
                self.readyqueue.wf(),
                self.readyqueue@ == old(self)@.enqueued(i as int),
            decreases self.slots@.len() - i,
        {
            proof {
                assert(old(self)@.slots[i as int] == slot_of(self.slots@[i as int]));
                if let Some(slot) = old(self)@.slots[i as int] {
                    assert(slot.wf());
                }
            }
            let due = match &self.slots[i] {
                Some(slot) => !slot.waiting && (slot.acks.len() > 0 || slot.tracker.has_pending()),
                None => false,
            };
            if due {
                self.readyqueue.push(i);
            }
            i += 1;
        }
        proof {
            let v = old(self)@;
            let n = v.slots.len() as int;
            lemma_enqueued(v, n);
            let after = RouterView { ready: v.enqueued(n), ..v };
            assert(self@ == after);
            assert forall|k: int| 0 <= k < after.ready.len() implies after.connected(
                #[trigger] after.ready[k],
            ) && !after.slots[after.ready[k] as int]->Some_0.waiting by {
                if k < v.ready.len() {
                    assert(after.ready[k] == v.ready[k]);
                    assert(v.connected(v.ready[k]));
                } else {
                    assert(v.due(after.ready[k] as int));
                }
            }
            assert forall|t: int| 0 <= t < after.topics.len() implies (
            #[trigger] after.topics[t]).wf() by {
                assert(v.topics[t].wf());
            }
            assert forall|t: int| 0 <= t < after.topics.len() implies index_of_name(
                after.topics,
                (#[trigger] after.topics[t]).name,
            ) == t by {
                assert(index_of_name(v.topics, v.topics[t].name) == t);
            }
            assert forall|i: int| 0 <= i < after.slots.len() implies ((
            #[trigger] after.slots[i]) matches Some(slot) ==> slot.wf()) by {
                if let Some(slot) = v.slots[i] {
                    assert(slot.wf());
                }
            }
        }
    }

    /// Takes a publish from connection `id`: appends its payload to the
    /// log of its topic, which begins with it where nothing was published
    /// on the topic before; moves the topic's watermarks and puts the
    /// acknowledgements that need not wait with their connections; tells
    /// the trackers; and puts the connections that are due for a batch
    /// into the queue of the ready.
    pub fn publish(&mut self, id: usize, publish: Publish)
        requires
            old(self).wf(),
        ensures
            final(self).wf(),
            final(self)@ == old(self)@.published(id, publish@),
    {
        let name = publish.topic.clone();
        let t = self.ensure_topic(&name);
        let released = self.write(t, id, publish);
        proof {
            assert(self.topics@[t as int].log.wf());
            assert(self@.topics[t as int] == self.topics@[t as int]@);
        }
        let tail = self.topics[t].log.len();
        self.deliver(&released);
        self.notice(&name, tail);
        self.offer();
    }

    /// Takes a subscription of connection `id` with one filter.
    fn subscribe_filter(&mut self, id: usize, filter: &String)
        requires
            old(self).wf(),
        ensures
            final(self).wf(),
            final(self)@ == old(self)@.subscribed(id, filter@),
    {
        if !self.is_connected(id) {
            return;
        }
        let ghost v = self@;
        let ghost first = v.slots[id as int]->Some_0;
        proof {
            self.lemma_wf();
            assert(first.wf());
        }
        self.subscriptions.add(filter.clone(), id);
        let mut t: usize = 0;
        while t < self.topics.len()
            invariant
                t <= self.topics@.len(),
                old(self).wf(),
                v == old(self)@,
                v.wf(),
                v.connected(id),
                first == v.slots[id as int]->Some_0,
                id < self.slots@.len(),
                self.segment_size == old(self).segment_size,
                self.replicas == old(self).replicas,
                self.topics == old(self).topics,
                self.readyqueue == old(self).readyqueue,
                self.subscriptions@ == noted(
                    v.subscriptions,
                    SubscriptionView { filter: encode_utf8(filter@), connection: id },
                ),
                self.slots@.len() == old(self).slots@.len(),
                self@.slots == v.slots.update(
                    id as int,
                    Some(
                        SlotView {
                            tracker: v.caught_up(first.tracker, encode_utf8(filter@), t as int),
                            ..first
                        },
                    ),
                ),
            decreases self.topics@.len() - t,
        {
            let ghost before = self@.slots;
            let ghost sofar = v.caught_up(first.tracker, encode_utf8(filter@), t as int);
            proof {
                lemma_caught_up_wf(v, first.tracker, encode_utf8(filter@), t as int);
                assert(v.topics[t as int] == self.topics@[t as int]@);
                assert(self.topics@[t as int].log.wf());
                assert(before[id as int] == slot_of(self.slots@[id as int]));
                lemma_with_topic_twice(sofar, v.topics[t as int].name);
            }
            if super::subscriptions::matches(self.topics[t].name.as_str(), filter.as_str()) {
                let name = self.topics[t].name.clone();
                let tail = self.topics[t].log.len();
                match &mut self.slots[id] {
                    Some(slot) => {
                        let _ = slot.tracker.track(name.clone());
                        slot.tracker.notice(name.as_str(), tail);
                    },
                    None => {},
                }
            }
            proof {
                let target = v.slots.update(
                    id as int,
                    Some(
                        SlotView {
                            tracker: v.caught_up(first.tracker, encode_utf8(filter@), t + 1),
                            ..first
                        },
                    ),
                );
                assert forall|i: int| 0 <= i < self@.slots.len() implies self@.slots[i]
                    == target[i] by {
                    assert(self@.slots[i] == slot_of(self.slots@[i]));
                    assert(before[i] == slot_of(old(self).slots@[i]) || i == id);
                }
                assert(self@.slots =~= target);
            }
            t += 1;
        }
        proof {
            let tracker = v.caught_up(first.tracker, encode_utf8(filter@), v.topics.len() as int);
            lemma_caught_up_wf(v, first.tracker, encode_utf8(filter@), v.topics.len() as int);
            let mid = RouterView {
                subscriptions: noted(
                    v.subscriptions,
                    SubscriptionView { filter: encode_utf8(filter@), connection: id },
                ),
                slots: v.slots.update(id as int, Some(SlotView { tracker, ..first })),
                ..v
            };
            assert(self@ == mid);
            assert forall|i: int| 0 <= i < mid.slots.len() implies match (
                #[trigger] mid.slots[i],
                v.slots[i],
            ) {
                (Some(after), Some(before)) => after.wf() && after.connection == before.connection
                    && after.waiting == before.waiting,
                (None, None) => true,
                _ => false,
            } by {
                if let Some(slot) = v.slots[i] {
                    assert(slot.wf());
                }
            }
            lemma_slots_kept(v, mid.slots);
            let kept = RouterView { slots: mid.slots, ..v };
            assert(mid.wf()) by {
                assert forall|t: int| 0 <= t < mid.topics.len() implies (
                #[trigger] mid.topics[t]).wf() by {
                    assert(kept.topics[t].wf());
                }
                assert forall|t: int| 0 <= t < mid.topics.len() implies index_of_name(
                    mid.topics,
                    (#[trigger] mid.topics[t]).name,
                ) == t by {
                    assert(index_of_name(kept.topics, kept.topics[t].name) == t);
                }
                assert forall|i: int| 0 <= i < mid.slots.len() implies ((
                #[trigger] mid.slots[i]) matches Some(slot) ==> slot.wf()) by {
                    assert(kept.slots[i] matches Some(slot) ==> slot.wf());
                }
                assert forall|k: int| 0 <= k < mid.ready.len() implies mid.connected(
                    #[trigger] mid.ready[k],
                ) && !mid.slots[mid.ready[k] as int]->Some_0.waiting by {
                    assert(kept.connected(kept.ready[k]));
                }
            }
            assert(self.wf());
        }
        self.offer();
    }

    /// Takes a subscribe of connection `id`: each of its filters in its
    /// turn.
    pub fn subscribe(&mut self, id: usize, subscribe: &Subscribe)
        requires
            old(self).wf(),
        ensures
            final(self).wf(),
            final(self)@ == old(self)@.subscribed_all(
                id,
                subscribe@.topics,
                subscribe@.topics.len() as int,
            ),
    {
        let mut k: usize = 0;
        while k < subscribe.topics.len()
            invariant
                k <= subscribe.topics@.len(),
                self.wf(),
                self@ == old(self)@.subscribed_all(id, subscribe@.topics, k as int),
            decreases subscribe.topics@.len() - k,
        {
            assert(subscribe@.topics[k as int] == subscribe.topics@[k as int]@);
            self.subscribe_filter(id, &subscribe.topics[k].topic_path);
            k += 1;
        }
    }

    /// Takes what connection `id` sent: each publish and each subscribe
    /// in its turn. Packets of other kinds are none of the router's
    /// business.
    pub fn handle_data(&mut self, id: usize, packets: &Vec<Packet>)
        requires
            old(self).wf(),
        ensures
            final(self).wf(),
            final(self)@ == old(self)@.handled(
                id,
                packet_views(packets@),
                packets@.len() as int,
            ),
    {
        let ghost views = packet_views(packets@);
        let mut k: usize = 0;
        while k < packets.len()
            invariant
                k <= packets@.len(),
                views == packet_views(packets@),
                self.wf(),
                self@ == old(self)@.handled(id, views, k as int),
            decreases packets@.len() - k,
        {
            assert(views[k as int] == packets@[k as int]@);
            match &packets[k] {
                Packet::Publish(publish) => {
                    self.publish(id, publish.clone());
                },
                Packet::Subscribe(subscribe) => {
                    self.subscribe(id, subscribe);
                },
                _ => {},
            }
            k += 1;
        }
    }

    /// Takes one acknowledgement of a replica.
    fn handle_replication_ack(&mut self, replica: usize, ack: &ReplicationAck)
        requires
            old(self).wf(),
        ensures
            final(self).wf(),
            final(self)@ == old(self)@.acked(replica, ack.spec_topic(), ack.spec_offset()),
    {
        let t = self.find_topic(&ack.topic);
        if t >= self.topics.len() {
            return;
        }
        let ghost before = *self;
        let ghost topic = before@.topics[t as int];
        proof {
            before.lemma_wf();
            assert(topic == before.topics@[t as int]@);
            assert(topic.wf());
            lemma_ack_then_release(
                topic.watermarks,
                replica,
                ack.spec_offset(),
                topic.log.len() as int,
            );
        }
        self.topics[t].watermarks.ack(replica, ack.offset);
        let released = self.topics[t].watermarks.release();
        proof {
            let marks = topic.watermarks.after_ack(replica, ack.spec_offset());
            let after = TopicView { watermarks: marks.after_release(), ..topic };
            assert(self.topics@[t as int]@ == after);
            assert(self@.topics =~= before@.topics.update(t as int, after));
            assert forall|k: int| 0 <= k < self.topics@.len() implies (
            #[trigger] self.topics@[k]).log.wf() by {
                assert(before.topics@[k].log.wf());
            }
            lemma_marks_moved_wf(before@, t as int, marks.after_release());
            assert(self@ == (RouterView {
                topics: before@.topics.update(t as int, after),
                ..before@
            }));
        }
        self.deliver(&released);
        self.offer();
    }

    /// Takes the acknowledgements of a replica: each moves the replica's
    /// watermark on its topic, and what need not wait any longer is put
    /// with its connection.
    pub fn handle_replication_acks(&mut self, replica: usize, acks: &Vec<ReplicationAck>)
        requires
            old(self).wf(),
        ensures
            final(self).wf(),
            final(self)@ == old(self)@.acked_all(replica, acks@, acks@.len() as int),
    {
        let mut k: usize = 0;
        while k < acks.len()
            invariant
                k <= acks@.len(),
                self.wf(),
                self@ == old(self)@.acked_all(replica, acks@, k as int),
            decreases acks@.len() - k,
        {
            self.handle_replication_ack(replica, &acks[k]);
            k += 1;
        }
    }

    /// Takes one payload that arrived from `replica` for the topic called
    /// `name`.
    fn replicate(&mut self, replica: usize, name: &String, payload: Bytes)
        requires
            old(self).wf(),
        ensures
            final(self).wf(),
            final(self)@ == old(self)@.replicated(replica, name@, bytes_contents(payload)),
    {
        let t = self.ensure_topic(name);
        let ghost before = *self;
        let ghost topic = before@.topics[t as int];
        proof {
            before.lemma_wf();
            assert(topic == before.topics@[t as int]@);
            assert(topic.wf());
            assert(before.topics@[t as int].log.wf());
        }
        let offset = match self.topics[t].log.append(payload) {
            Some(offset) => offset,
            None => {
                assert(self@.topics =~= before@.topics);
                assert(self@ == before@);
                assert forall|k: int| 0 <= k < self.topics@.len() implies (
                #[trigger] self.topics@[k]).log.wf() by {
                    if k != t {
                        assert(before.topics@[k].log.wf());
                    }
                }
                return;
            },
        };
        self.topics[t].watermarks.ack(replica, offset);
        let released = self.topics[t].watermarks.release();
        proof {
            lemma_ack_then_release(topic.watermarks, replica, offset, (topic.log.len() + 1) as int);
            let marks = topic.watermarks.after_ack(replica, offset);
            let after = TopicView {
                log: topic.log.push(bytes_contents(payload)),
                watermarks: marks.after_release(),
                ..topic
            };
            assert(self.topics@[t as int]@ == after);
            assert(self@.topics =~= before@.topics.update(t as int, after));
            assert forall|k: int| 0 <= k < self.topics@.len() implies (
            #[trigger] self.topics@[k]).log.wf() by {
                if k != t {
                    assert(before.topics@[k].log.wf());
                }
            }
            lemma_topic_grown_wf(
                before@,
                t as int,
                bytes_contents(payload),
                marks.after_release(),
            );
            assert(self@ == (RouterView {
                topics: before@.topics.update(t as int, after),
                ..before@
            }));
        }
        self.deliver(&released);
        self.notice(name, offset + 1);
        self.offer();
    }

    /// Takes the data that arrived from `replica`: each payload goes to
    /// the log of its topic and moves the replica's watermark there.
    pub fn handle_replication_data(&mut self, replica: usize, data: &Vec<ReplicationData>)
        requires
            old(self).wf(),
        ensures
            final(self).wf(),
            final(self)@ == old(self)@.replicated_all(replica, data@, data@.len() as int),
    {
        let mut k: usize = 0;
        while k < data.len()
            invariant
                k <= data@.len(),
                self.wf(),
                self@ == old(self)@.replicated_all(replica, data@, k as int),
            decreases data@.len() - k,
        {
            let piece = &data[k];
            let ghost start = self@;
            let mut j: usize = 0;
            while j < piece.payload.len()
                invariant
                    j <= piece.payload@.len(),
                    piece.payload@.len() == piece@.payload.len(),
                    self.wf(),
                    self@ == start.replicated_upto(replica, piece@, j as int),
                decreases piece.payload@.len() - j,
            {
                assert(piece@.payload[j as int] == bytes_contents(piece.payload@[j as int]));
                self.replicate(replica, &piece.topic, bytes_clone(&piece.payload[j]));
                j += 1;
            }
            k += 1;
        }
    }

    /// Forgets connection `id`: its slot is free for the next connection,
    /// it leaves the queue of the ready, and its subscriptions go. What
    /// it published stays in the logs.
    pub fn handle_disconnect(&mut self, id: usize)
        requires
            old(self).wf(),
        ensures
            final(self).wf(),
            final(self)@ == old(self)@.disconnected(id),
            final(self)@.topics == old(self)@.topics,
    {
        if !self.is_connected(id) {
            return;
        }
        let ghost v = self@;
        proof {
            self.lemma_wf();
        }
        self.slots[id] = None;
        self.readyqueue.remove(id);
        self.subscriptions.remove(id);
        proof {
            let after = v.disconnected(id);
            assert(self@.slots =~= v.slots.update(id as int, None));
            assert(self@ == after);
            assert forall|k: int| 0 <= k < after.ready.len() implies after.connected(
                #[trigger] after.ready[k],
            ) && !after.slots[after.ready[k] as int]->Some_0.waiting by {
                assert(after.ready.contains(after.ready[k]));
                if v.ready.contains(id) {
                    let at = place_of(v.ready, id);
                    lemma_place_of(v.ready, id);
                    let from = if k < at { k } else { k + 1 };
                    assert(after.ready[k] == v.ready[from]);
                    assert(v.connected(v.ready[from]));
                } else {
                    assert(v.connected(v.ready[k]));
                }
            }
            assert forall|t: int| 0 <= t < after.topics.len() implies (
            #[trigger] after.topics[t]).wf() by {
                assert(v.topics[t].wf());
            }
            assert forall|t: int| 0 <= t < after.topics.len() implies index_of_name(
                after.topics,
                (#[trigger] after.topics[t]).name,
            ) == t by {
                assert(index_of_name(v.topics, v.topics[t].name) == t);
            }
            assert forall|i: int| 0 <= i < after.slots.len() implies ((
            #[trigger] after.slots[i]) matches Some(slot) ==> slot.wf()) by {
                if i != id {
                    assert(v.slots[i] matches Some(slot) ==> slot.wf());
                }
            }
            assert forall|t: int| 0 <= t < self.topics@.len() implies (
            #[trigger] self.topics@[t]).log.wf() by {
                assert(old(self).topics@[t].log.wf());
            }
        }
    }

    /// After slot `id` was set in place, takes its connection out of the
    /// queue of the ready and puts every connection into the queue that
    /// is due for a notification.
    fn resettle(&mut self, id: usize, Ghost(v): Ghost<RouterView>)
        requires
            v.wf(),
            id <= v.slots.len(),
            v.slots.len() < usize::MAX || id < v.slots.len(),
            old(self).segment_size > 0,
            forall|t: int|
                0 <= t < old(self).topics@.len() ==> (#[trigger] old(self).topics@[t]).log.wf(),
            old(self).readyqueue.wf(),
            old(self)@.connected(id),
            old(self)@.slots[id as int]->Some_0.wf(),
            old(self)@ == (RouterView {
                slots: if id < v.slots.len() {
                    v.slots.update(id as int, old(self)@.slots[id as int])
                } else {
                    v.slots.push(old(self)@.slots[id as int])
                },
                ..v
            }),
        ensures
            final(self).wf(),
            final(self)@ == v.admitted(id, old(self)@.slots[id as int]->Some_0),
            final(self).topics == old(self).topics,
    {
        let ghost slot = self@.slots[id as int]->Some_0;
        proof {
            lemma_admitted_wf(v, id, slot);
        }
        self.readyqueue.remove(id);
        proof {
            assert(self@ == v.seated(id, slot));
        }
        self.offer();
    }

    /// The slot into which `connection` goes.
    fn find_slot(&self, connection: &Connection) -> (id: usize)
        ensures
            id == self@.slot_for(connection.kind()),
            id <= self.slots@.len(),
            id < self.slots@.len() ==> (self@.slots[id as int] matches Some(slot)
                ==> same_device(slot.connection.kind(), connection.kind())),
    {
        let n = self.slots.len();
        let mut free: usize = n;
        let mut i: usize = 0;
        let ghost kind = connection.kind();
        while i < n
            invariant
                i <= n,
                n == self.slots@.len(),
                kind == connection.kind(),
                first_same(self@.slots, kind, i as int) == i,
                free < i || free == n,
                free < i ==> free == first_free(self@.slots, i as int),
                free >= i ==> first_free(self@.slots, i as int) == i,
            decreases n - i,
        {
            assert(self@.slots[i as int] == slot_of(self.slots@[i as int]));
            assert(first_free(self@.slots, i + 1) == (if first_free(self@.slots, i as int) < i {
                first_free(self@.slots, i as int)
            } else if self@.slots[i as int] is None {
                i as int
            } else {
                i + 1
            }));
            match &self.slots[i] {
                Some(slot) => {
                    if slot.connection.same_client(connection) {
                        proof {
                            lemma_first_same_found(self@.slots, kind, i as int, n as int);
                        }
                        return i;
                    }
                },
                None => {
                    if free >= i {
                        free = i;
                    }
                },
            }
            i += 1;
        }
        proof {
            lemma_first_slots(self@.slots, kind, n as int);
        }
        free
    }

    /// Takes a new connection: into the slot of the device with the same
    /// client id, whose tracker and released acknowledgements it takes
    /// over, or into a free slot. The connection is told its id. Where the
    /// channel does not take that, it is parked and the connection waits.
    pub fn handle_connect(&mut self, connection: Connection) -> (id: usize)
        requires
            old(self).wf(),
            old(self)@.slots.len() < usize::MAX,
            connection.parked() is None,
        ensures
            final(self).wf(),
            final(self).logs() == old(self).logs(),
            old(self)@.connects(final(self)@, connection, id),
    {
        let ghost v = self@;
        proof {
            self.lemma_wf();
            connection.lemma_with_parked(None);
        }
        let id = self.find_slot(&connection);
        let mut connection = connection;
        let delivered = connection.notify(
            Notification::ConnectionAck(ConnectionAck::Success(id)),
        );
        let taken_over = id < self.slots.len() && self.slots[id].is_some();
        if taken_over {
            assert(v.slots[id as int] == slot_of(self.slots@[id as int]));
            match &mut self.slots[id] {
                Some(slot) => {
                    slot.connection = connection;
                    slot.waiting = !delivered;
                },
                None => {},
            }
        } else {
            let slot = Slot {
                connection,
                tracker: Tracker::new(),
                acks: Vec::new(),
                waiting: !delivered,
            };
            assert(slot@.acks =~= Seq::empty());
            if id < self.slots.len() {
                self.slots[id] = Some(slot);
            } else {
                self.slots.push(Some(slot));
            }
        }
        proof {
            let slot = self@.slots[id as int];
            assert(slot == slot_of(self.slots@[id as int]));
            let target = if id < v.slots.len() {
                v.slots.update(id as int, slot)
            } else {
                v.slots.push(slot)
            };
            assert forall|i: int| 0 <= i < self@.slots.len() implies self@.slots[i]
                == target[i] by {
                assert(self@.slots[i] == slot_of(self.slots@[i]));
                if i != id {
                    assert(v.slots[i] == slot_of(old(self).slots@[i]));
                }
            }
            assert(self@.slots =~= target);
            if taken_over {
                assert(v.slots[id as int]->Some_0.wf());
            }
            assert forall|t: int| 0 <= t < self.topics@.len() implies (
            #[trigger] self.topics@[t]).log.wf() by {
                assert(old(self).topics@[t].log.wf());
            }
        }
        self.resettle(id, Ghost(v));
        proof {
            lemma_admitted_wf(v, id, self@.slots[id as int]->Some_0);
        }
        id
    }

    /// Takes the word of connection `id` that it is ready for more. What
    /// is parked for it is tried once more, and stays parked where the
    /// channel again does not take it. The connection waits on if
    /// something is parked still, or if what was parked and went through
    /// now is a batch of data, which it has yet to consume; otherwise it
    /// waits no longer, and joins the queue of the ready if it is due for
    /// a notification. A connection that is not there changes nothing.
    pub fn handle_ready(&mut self, id: usize)
        requires
            old(self).wf(),
        ensures
            final(self).wf(),
            final(self).logs() == old(self).logs(),
            old(self)@.readies(final(self)@, id),
    {
        if !self.is_connected(id) {
            return;
        }
        let ghost v = self@;
        proof {
            self.lemma_wf();
            assert(v.slots[id as int] == slot_of(self.slots@[id as int]));
            assert(v.slots[id as int]->Some_0.wf());
            v.slots[id as int]->Some_0.connection.lemma_with_parked(None);
        }
        match &mut self.slots[id] {
            Some(slot) => {
                let was_data = slot.connection.parked_data();
                let delivered = slot.connection.notify_last_failed();
                slot.waiting = !delivered || was_data;
            },
            None => {},
        }
        proof {
            let slot = self@.slots[id as int];
            assert(slot == slot_of(self.slots@[id as int]));
            let target = v.slots.update(id as int, slot);
            assert forall|i: int| 0 <= i < self@.slots.len() implies self@.slots[i]
                == target[i] by {
                assert(self@.slots[i] == slot_of(self.slots@[i]));
                if i != id {
                    assert(v.slots[i] == slot_of(old(self).slots@[i]));
                }
            }
            assert(self@.slots =~= target);
            assert forall|t: int| 0 <= t < self.topics@.len() implies (
            #[trigger] self.topics@[t]).log.wf() by {
                assert(old(self).topics@[t].log.wf());
            }
        }
        self.resettle(id, Ghost(v));
        proof {
            lemma_admitted_wf(v, id, self@.slots[id as int]->Some_0);
        }
    }

    /// Makes ready what the connection at the front of the queue of the
    /// ready is to be sent, and takes the connection out of the queue:
    /// the acknowledgements that were released for it, if there are any,
    /// and otherwise a batch of the next topic that it follows and has not
    /// read to the end, as its tracker picks it, upon which its cursor on
    /// the topic moves behind the batch. What is made ready is the
    /// caller's to hand to `send`.
    pub fn prepare(&mut self) -> (prepared: Prepared)
        requires
            old(self).wf(),
        ensures
            final(self).wf(),
            final(self).logs() == old(self).logs(),
            old(self)@.prepares(
                final(self)@,
                prepared,
                match old(self)@.next_request() {
                    Some(request) => old(self).batch_for(request),
                    None => Batch { payloads: Seq::empty(), next: (0, 0), done: true },
                },
            ),
    {
        let ghost v = self@;
        proof {
            self.lemma_wf();
        }
        let id = match self.readyqueue.pop() {
            Some(id) => id,
            None => {
                return Prepared::Idle;
            },
        };
        let ghost popped = RouterView { ready: v.ready.skip(1), ..v };
        let ghost before = v.slots[id as int]->Some_0;
        proof {
            assert(v.connected(v.ready[0]));
            assert(v.slots[id as int] == slot_of(self.slots@[id as int]));
            assert(before.wf());
            lemma_popped_wf(v);
            assert forall|t: int| 0 <= t < self.topics@.len() implies (
            #[trigger] self.topics@[t]).log.wf() by {
                assert(old(self).topics@[t].log.wf());
            }
        }
        let mut acks: Vec<(u16, Packet)> = Vec::new();
        assert(ack_views(acks@) =~= Seq::empty());
        match &mut self.slots[id] {
            Some(slot) => {
                std::mem::swap(&mut acks, &mut slot.acks);
            },
            None => {},
        }
        let prepared = if acks.len() > 0 {
            Prepared::Send { id, notification: Notification::Acks(Acks::new(acks)) }
        } else {
            assert(before.acks =~= Seq::empty());
            let request = match &mut self.slots[id] {
                Some(slot) => slot.tracker.next(),
                None => None,
            };
            match request {
                None => Prepared::Nothing { id },
                Some(request) => {
                    let t = self.find_topic(&request.topic);
                    if t >= self.topics.len() {
                        Prepared::Nothing { id }
                    } else {
                        let (payload, next, _) = self.topics[t].log.readv(
                            request.cursors[0],
                            request.max_count,
                        );
                        let cursors = [next, request.cursors[1], request.cursors[2]];
                        let size = total_size(&payload);
                        let data = Data::new(request.topic.clone(), cursors, size, payload);
                        proof {
                            assert(cursors@ =~= seq![next, request@.cursors[1], request@.cursors[2]]);
                        }
                        match &mut self.slots[id] {
                            Some(slot) => {
                                slot.tracker.advance(request.topic.as_str(), cursors);
                            },
                            None => {},
                        }
                        Prepared::Send { id, notification: Notification::Data(data) }
                    }
                },
            }
        };
        proof {
            let slot = self@.slots[id as int];
            assert(slot == slot_of(self.slots@[id as int]));
            let target = popped.slots.update(id as int, slot);
            assert forall|i: int| 0 <= i < self@.slots.len() implies self@.slots[i]
                == target[i] by {
                assert(self@.slots[i] == slot_of(self.slots@[i]));
                if i != id {
                    assert(v.slots[i] == slot_of(old(self).slots@[i]));
                }
            }
            assert(self@.slots =~= target);
            assert(self@ == (RouterView { slots: target, ..popped }));
            assert forall|i: int| 0 <= i < target.len() implies match (
                #[trigger] target[i],
                popped.slots[i],
            ) {
                (Some(after), Some(before)) => after.wf() && after.connection == before.connection
                    && after.waiting == before.waiting,
                (None, None) => true,
                _ => false,
            } by {
                if let Some(kept) = popped.slots[i] {
                    assert(kept.wf());
                }
            }
            lemma_slots_kept(popped, target);
        }
        prepared
    }

    /// Tries to send `notification` to connection `id`, for which nothing
    /// is parked. What the connection's channel does not take is parked
    /// for it. The connection waits from then on if it was sent a batch of
    /// data, which it has to consume, or if the notification is parked.
    /// Then every connection that is due for a notification joins the
    /// queue of the ready.
    pub fn send(&mut self, id: usize, notification: Notification) -> (delivered: bool)
        requires
            old(self).wf(),
            old(self)@.connected(id),
            old(self)@.slots[id as int]->Some_0.connection.parked() is None,
        ensures
            final(self).wf(),
            final(self).logs() == old(self).logs(),
            final(self)@.topics == old(self)@.topics,
            final(self)@.subscriptions == old(self)@.subscriptions,
            old(self)@.sends(final(self)@, id, notification, delivered),
    {
        let ghost v = self@;
        proof {
            self.lemma_wf();
            assert(v.slots[id as int] == slot_of(self.slots@[id as int]));
            assert(v.slots[id as int]->Some_0.wf());
        }
        let is_data = match &notification {
            Notification::Data(_) => true,
            _ => false,
        };
        let delivered = match &mut self.slots[id] {
            Some(slot) => {
                let delivered = slot.connection.notify(notification);
                slot.waiting = !delivered || is_data;
                delivered
            },
            None => true,
        };
        proof {
            let slot = self@.slots[id as int];
            assert(slot == slot_of(self.slots@[id as int]));
            let target = v.slots.update(id as int, slot);
            assert forall|i: int| 0 <= i < self@.slots.len() implies self@.slots[i]
                == target[i] by {
                assert(self@.slots[i] == slot_of(self.slots@[i]));
                if i != id {
                    assert(v.slots[i] == slot_of(old(self).slots@[i]));
                }
            }
            assert(self@.slots =~= target);
            slot->Some_0.connection.lemma_with_parked(None);
            v.slots[id as int]->Some_0.connection.lemma_with_parked(None);
            assert forall|t: int| 0 <= t < self.topics@.len() implies (
            #[trigger] self.topics@[t]).log.wf() by {
                assert(old(self).topics@[t].log.wf());
            }
        }
        self.resettle(id, Ghost(v));
        proof {
            lemma_admitted_wf(v, id, self@.slots[id as int]->Some_0);
        }
        delivered
    }

    /// One turn of the router: makes ready what the connection at the
    /// front of the queue of the ready is to be sent, and tries to send
    /// it. What the connection's channel does not take is parked for it,
    /// with nothing parked before, and the connection waits. Then every
    /// connection that is due for a notification joins the queue.
    pub fn tick(&mut self) -> (served: Served)
        requires
            old(self).wf(),
        ensures
            final(self).wf(),
            final(self).logs() == old(self).logs(),
            final(self)@.topics == old(self)@.topics,
            final(self)@.subscriptions == old(self)@.subscriptions,
            old(self)@.ticks(
                final(self)@,
                served,
                match old(self)@.next_request() {
                    Some(request) => old(self).batch_for(request),
                    None => Batch {
                        payloads: Seq::empty(),
                        next: (0, 0),
                        done: true,
                    },
                },
            ),
            served is Acks || served is Data ==> exists|mid: RouterView, notification: Notification|
                #![auto]
                mid.wf() && old(self)@.prepares(
                    mid,
                    Prepared::Send { id: old(self)@.ready[0], notification },
                    match old(self)@.next_request() {
                        Some(request) => old(self).batch_for(request),
                        None => Batch { payloads: Seq::empty(), next: (0, 0), done: true },
                    },
                ) && mid.sends(
                    final(self)@,
                    old(self)@.ready[0],
                    notification,
                    match served {
                        Served::Acks { delivered, .. } => delivered,
                        Served::Data { delivered, .. } => delivered,
                        _ => false,
                    },
                ),
    {
        let ghost v = self@;
        proof {
            self.lemma_wf();
        }
        let prepared = self.prepare();
        let ghost mid = self@;
        proof {
            self.lemma_wf();
            if v.ready.len() > 0 {
                let id = v.ready[0];
                lemma_popped_wf(v);
                lemma_place_of(v.ready, id);
                assert(v.ready.remove(0) =~= v.ready.skip(1));
                assert forall|slot: SlotView| v.admitted(id, slot) == mid.admitted(id, slot) by {
                    assert(mid.slots.update(id as int, Some(slot)) =~= v.slots.update(
                        id as int,
                        Some(slot),
                    ));
                    assert(v.seated(id, slot) == mid.seated(id, slot));
                }
                assert(mid.slots.update(id as int, mid.slots[id as int]) =~= mid.slots);
                mid.slots[id as int]->Some_0.connection.lemma_with_parked(None);
            }
        }
        match prepared {
            Prepared::Idle => Served::Idle,
            Prepared::Nothing { id } => {
                proof {
                    assert forall|t: int| 0 <= t < self.topics@.len() implies (
                    #[trigger] self.topics@[t]).log.wf() by {}
                }
                self.resettle(id, Ghost(mid));
                proof {
                    lemma_admitted_wf(mid, id, mid.slots[id as int]->Some_0);
                }
                Served::Nothing { id }
            },
            Prepared::Send { id, notification } => {
                let is_data = match &notification {
                    Notification::Data(_) => true,
                    _ => false,
                };
                let ghost handed = notification;
                let delivered = self.send(id, notification);
                proof {
                    assert(v.prepares(mid, Prepared::Send { id, notification: handed }, match v.next_request() {
                        Some(request) => old(self).batch_for(request),
                        None => Batch { payloads: Seq::empty(), next: (0, 0), done: true },
                    }));
                    assert(mid.sends(self@, id, handed, delivered));
                }
                if is_data {
                    Served::Data { id, delivered }
                } else {
                    Served::Acks { id, delivered }
                }
            },
        }
    }

    /// Takes one event from connection `id` and serves one connection
    /// after it. A connect makes a connection of its own and does not need
    /// the sender's id; replicated data and acknowledgements count for the
    /// replica that the sender is, and for none where it is a device.
    pub fn handle_event(&mut self, id: usize, event: Event) -> (served: Served)
        requires
            old(self).wf(),
            old(self)@.slots.len() < usize::MAX,
            event matches Event::Connect(connection) ==> connection.parked() is None,
        ensures
            final(self).wf(),
            exists|mid: RouterView|
                #![auto]
                mid.wf() && old(self)@.takes(mid, id, event) && mid.ticks(
                    final(self)@,
                    served,
                    match mid.next_request() {
                        Some(request) => final(self).batch_for(request),
                        None => Batch {
                            payloads: Seq::empty(),
                            next: (0, 0),
                            done: true,
                        },
                    },
                ),
    {
        match event {
            Event::Connect(connection) => {
                let _ = self.handle_connect(connection);
            },
            Event::Ready => {
                self.handle_ready(id);
            },
            Event::Data(packets) => {
                self.handle_data(id, &packets);
            },
            Event::ReplicationData(data) => {
                let replica = self.replica_of(id);
                self.handle_replication_data(replica, &data);
            },
            Event::ReplicationAcks(acks) => {
                let replica = self.replica_of(id);
                self.handle_replication_acks(replica, &acks);
            },
            Event::Disconnect(_) => {
                self.handle_disconnect(id);
            },
        }
        let ghost mid = *self;
        proof {
            mid.lemma_wf();
        }
        let served = self.tick();
        proof {
            assert forall|request: DataRequestView| mid.batch_for(request)
                == self.batch_for(request) by {}
            assert(old(self)@.takes(mid@, id, event));
        }
        served
    }
}

} // verus!
