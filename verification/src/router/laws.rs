//! What the router owes its connections: what is published is logged,
//! acknowledged and handed on.

use super::model::{acks_for, index_of_name, RouterView, SlotView};
use super::proofs::{
    lemma_caught_up_wf, lemma_enqueued, lemma_index_of_name, lemma_index_of_name_by_names,
    lemma_noticed_wf, lemma_offered_wf, lemma_slots_kept, lemma_with_topic_wf, lemma_written_wf,
};
use super::tracker::{
    index_of_topic, lemma_data_is_picked, lemma_follow_and_notice,
    lemma_follow_and_notice_frame, lemma_index_of_topic,
    lemma_index_of_topic_by_topics, TrackerView,
};
use super::subscriptions::{filter_matches, noted, SubscriptionView};
use super::watermarks::{lemma_standalone_releases_at_once, PendingAck};
use super::{origin, DataRequestView};
use crate::codec::{PacketView, PubAck, PublishView, QoS};
use vstd::prelude::*;
use vstd::utf8::encode_utf8;

verus! {

/// A publish leaves the router in order and its connections where they
/// are: the same slots hold the same connections, and none of them starts
/// or stops waiting.
pub proof fn lemma_published_wf(v: RouterView, id: usize, publish: PublishView)
    requires
        v.wf(),
    ensures
        v.published(id, publish).wf(),
        v.published(id, publish).slots.len() == v.slots.len(),
        forall|i: int|
            0 <= i < v.slots.len() ==> match (
                #[trigger] v.published(id, publish).slots[i],
                v.slots[i],
            ) {
                (Some(after), Some(before)) => after.connection == before.connection
                    && after.waiting == before.waiting,
                (None, None) => true,
                _ => false,
            },
{
    let name = publish.topic;
    let v0 = v.with_topic(name);
    lemma_with_topic_wf(v, name);
    let t = index_of_name(v0.topics, name);
    lemma_index_of_name(v0.topics, name);
    let v1 = v0.written(t, id, publish);
    lemma_written_wf(v0, t, id, publish);
    let released = v0.released_by(t, id, publish);
    let v2 = RouterView { slots: v1.delivered(released), ..v1 };
    assert forall|i: int| 0 <= i < v2.slots.len() implies match (#[trigger] v2.slots[i], v1.slots[i]) {
        (Some(after), Some(before)) => after.wf() && after.connection == before.connection
            && after.waiting == before.waiting,
        (None, None) => true,
        _ => false,
    } by {
        if let Some(slot) = v1.slots[i] {
            assert(slot.wf());
        }
    }
    lemma_slots_kept(v1, v2.slots);
    let tail = v1.topics[t].log.len() as u64;
    let v3 = RouterView { slots: v2.noticed(name, tail), ..v2 };
    assert forall|i: int| 0 <= i < v3.slots.len() implies match (#[trigger] v3.slots[i], v2.slots[i]) {
        (Some(after), Some(before)) => after.wf() && after.connection == before.connection
            && after.waiting == before.waiting,
        (None, None) => true,
        _ => false,
    } by {
        if let Some(slot) = v2.slots[i] {
            assert(slot.wf());
            lemma_noticed_wf(slot.tracker, name, tail);
        }
    }
    lemma_slots_kept(v2, v3.slots);
    lemma_offered_wf(v3);
    assert forall|i: int| 0 <= i < v.slots.len() implies match (
        #[trigger] v.published(id, publish).slots[i],
        v.slots[i],
    ) {
        (Some(after), Some(before)) => after.connection == before.connection && after.waiting
            == before.waiting,
        (None, None) => true,
        _ => false,
    } by {
        assert(v3.slots[i] is Some == v2.slots[i] is Some);
        assert(v2.slots[i] is Some == v1.slots[i] is Some);
        assert(v0.slots[i] is Some == v.slots[i] is Some);
    }
}

/// What is published is logged: the payload stands at the end of the log
/// of its topic, behind all that the log held, and the logs of the other
/// topics are as they were. Only a log that holds as many payloads as 64
/// bits can count takes no more.
pub proof fn lemma_publish_is_logged(
    v: RouterView,
    id: usize,
    publish: PublishView,
    other: Seq<char>,
)
    requires
        v.wf(),
        v.log(publish.topic).len() < u64::MAX,
        other != publish.topic,
    ensures
        v.published(id, publish).log(publish.topic) == v.log(publish.topic).push(publish.payload),
        v.published(id, publish).log(other) == v.log(other),
{
    let name = publish.topic;
    let v0 = v.with_topic(name);
    lemma_with_topic_wf(v, name);
    lemma_index_of_name(v.topics, name);
    lemma_index_of_name(v.topics, other);
    if !v.has_topic(name) {
        assert(v0.topics.drop_last() =~= v.topics);
        assert(v0.log(name) == v.log(name));
        assert(v0.log(other) == v.log(other));
    }
    let t = index_of_name(v0.topics, name);
    lemma_index_of_name(v0.topics, name);
    lemma_index_of_name(v0.topics, other);
    let v1 = v0.written(t, id, publish);
    lemma_written_wf(v0, t, id, publish);
    assert forall|k: int| 0 <= k < v1.topics.len() implies (#[trigger] v1.topics[k]).name
        == v0.topics[k].name by {}
    lemma_index_of_name_by_names(v1.topics, v0.topics, name);
    lemma_index_of_name_by_names(v1.topics, v0.topics, other);
    assert(v.published(id, publish).topics == v1.topics);
}

/// A router without replicas acknowledges at once: the acknowledgement of
/// a publish above quality of service 0 is with the connection that
/// published as soon as the publish is taken, last among what is held for
/// the connection; nothing waits on the topic any more; and the
/// connection, unless it waits, is in the queue of the ready.
pub proof fn lemma_standalone_acknowledges_at_once(v: RouterView, id: usize, publish: PublishView)
    requires
        v.wf(),
        v.replicas == 0,
        v.connected(id),
        publish.qos != QoS::AtMostOnce,
        v.log(publish.topic).len() < u64::MAX,
    ensures
        ({
            let after = v.published(id, publish);
            let slot = after.slots[id as int]->Some_0;
            let t = index_of_name(after.topics, publish.topic);
            &&& after.connected(id)
            &&& after.has_topic(publish.topic)
            &&& after.topics[t].watermarks.pending.len() == 0
            &&& slot.acks.len() > 0
            &&& slot.acks.last() == (
                publish.pkid,
                PacketView::PubAck(PubAck { pkid: publish.pkid }),
            )
            &&& !slot.waiting ==> after.ready.contains(id)
        }),
{
    let name = publish.topic;
    let v0 = v.with_topic(name);
    lemma_with_topic_wf(v, name);
    lemma_index_of_name(v.topics, name);
    if !v.has_topic(name) {
        assert(v0.topics.drop_last() =~= v.topics);
    }
    let t = index_of_name(v0.topics, name);
    lemma_index_of_name(v0.topics, name);
    assert(v0.log(name) == v.log(name));
    let topic = v0.topics[t];
    assert(topic.wf());
    let offset = topic.log.len() as u64;
    let fresh = PendingAck { offset, connection: id, pkid: publish.pkid };
    assert forall|i: int| 0 <= i < topic.watermarks.pending.len() implies topic.watermarks.pending[i].offset
        <= offset by {
        assert(topic.watermarks.pending[i].offset < topic.log.len());
    }
    lemma_standalone_releases_at_once(topic.watermarks, offset, id, publish.pkid);
    let released = v0.released_by(t, id, publish);
    assert(released == topic.watermarks.pending.push(fresh));
    assert(released.drop_last() =~= topic.watermarks.pending);
    let mine = acks_for(released, id);
    assert(mine.len() > 0 && mine.last() == (
        publish.pkid,
        PacketView::PubAck(PubAck { pkid: publish.pkid }),
    ));
    let v1 = v0.written(t, id, publish);
    lemma_written_wf(v0, t, id, publish);
    assert forall|k: int| 0 <= k < v1.topics.len() implies (#[trigger] v1.topics[k]).name
        == v0.topics[k].name by {}
    lemma_index_of_name_by_names(v1.topics, v0.topics, name);
    lemma_published_wf(v, id, publish);
    let after = v.published(id, publish);
    assert(after.topics == v1.topics);
    let v2 = RouterView { slots: v1.delivered(released), ..v1 };
    let tail = v1.topics[t].log.len() as u64;
    let v3 = RouterView { slots: v2.noticed(name, tail), ..v2 };
    assert(v0.slots[id as int] is Some);
    let held = v1.slots[id as int]->Some_0.acks;
    assert(v2.slots[id as int]->Some_0.acks == held + mine);
    assert((held + mine).last() == mine.last());
    assert(v3.slots[id as int]->Some_0.acks == held + mine);
    assert(after.slots == v3.slots);
    if !after.slots[id as int]->Some_0.waiting {
        assert(v3.due(id as int));
        assert(v3.ready.no_duplicates()) by {
            lemma_slots_kept_ready(v, id, publish);
        }
        lemma_enqueued(v3, v3.slots.len() as int);
    }
}

/// The queue of the ready has no connection twice right before a publish
/// fills it up with the due.
proof fn lemma_slots_kept_ready(v: RouterView, id: usize, publish: PublishView)
    requires
        v.wf(),
    ensures
        ({
            let v0 = v.with_topic(publish.topic);
            let t = index_of_name(v0.topics, publish.topic);
            v0.written(t, id, publish).ready.no_duplicates() && v0.slots.len() <= usize::MAX
        }),
{
    let v0 = v.with_topic(publish.topic);
    lemma_with_topic_wf(v, publish.topic);
    let t = index_of_name(v0.topics, publish.topic);
    lemma_index_of_name(v0.topics, publish.topic);
    lemma_written_wf(v0, t, id, publish);
}

/// What is published wakes those who follow: a connection that follows the
/// topic of a publish, has read no further than the topic's log went, and
/// does not wait, is in the queue of the ready once the publish is taken,
/// and its tracker knows the log's new length.
pub proof fn lemma_publish_wakes_follower(v: RouterView, id: usize, publish: PublishView, i: usize)
    requires
        v.wf(),
        v.connected(i),
        v.log(publish.topic).len() < u64::MAX,
        v.slots[i as int]->Some_0.tracker.follows(publish.topic),
        ({
            let tracker = v.slots[i as int]->Some_0.tracker;
            tracker.topics[index_of_topic(tracker.topics, publish.topic)].request.cursors[0].1
                <= v.log(publish.topic).len()
        }),
        !v.slots[i as int]->Some_0.waiting,
    ensures
        ({
            let after = v.published(id, publish);
            let tracker = after.slots[i as int]->Some_0.tracker;
            let at = index_of_topic(tracker.topics, publish.topic);
            &&& after.connected(i)
            &&& after.ready.contains(i)
            &&& tracker.follows(publish.topic)
            &&& tracker.topics[at].tail == v.log(publish.topic).len() + 1
            &&& tracker.topics[at].has_data()
        }),
{
    let name = publish.topic;
    let before = v.slots[i as int]->Some_0;
    assert(before.wf());
    let v0 = v.with_topic(name);
    lemma_with_topic_wf(v, name);
    lemma_index_of_name(v.topics, name);
    if !v.has_topic(name) {
        assert(v0.topics.drop_last() =~= v.topics);
    }
    let t = index_of_name(v0.topics, name);
    lemma_index_of_name(v0.topics, name);
    assert(v0.log(name) == v.log(name));
    assert(v0.slots[i as int]->Some_0.tracker == before.tracker);
    let v1 = v0.written(t, id, publish);
    lemma_written_wf(v0, t, id, publish);
    let released = v0.released_by(t, id, publish);
    let v2 = RouterView { slots: v1.delivered(released), ..v1 };
    let tail = v1.topics[t].log.len() as u64;
    assert(tail == v.log(name).len() + 1);
    let v3 = RouterView { slots: v2.noticed(name, tail), ..v2 };
    let tracker = before.tracker.noticed(name, tail);
    assert(v3.slots[i as int]->Some_0.tracker == tracker);
    lemma_index_of_topic(before.tracker.topics, name);
    let at = index_of_topic(before.tracker.topics, name);
    assert(index_of_topic(tracker.topics, name) == at) by {
        lemma_index_of_topic_by_topics(tracker.topics, before.tracker.topics, name);
    }
    lemma_noticed_wf(before.tracker, name, tail);
    assert(tracker.topics[at].has_data());
    lemma_data_is_picked(tracker, at);
    assert(v3.due(i as int));
    lemma_slots_kept_ready(v, id, publish);
    lemma_enqueued(v3, v3.slots.len() as int);
    lemma_published_wf(v, id, publish);
}

/// A tracker that has caught up follows every topic that the filter
/// matches and knows how long the topic's log is. Its request for such a
/// topic is the one that it had, or one from the start of the log where it
/// did not follow the topic before.
pub proof fn lemma_caught_up_follows(
    v: RouterView,
    tracker: TrackerView,
    filter: Seq<u8>,
    upto: int,
    t: int,
)
    requires
        v.wf(),
        tracker.wf(),
        0 <= t < upto <= v.topics.len(),
        filter_matches(filter, encode_utf8(v.topics[t].name)),
    ensures
        ({
            let r = v.caught_up(tracker, filter, upto);
            let name = v.topics[t].name;
            &&& r.wf()
            &&& r.next == tracker.next
            &&& r.follows(name)
            &&& r.interest(name).tail == v.topics[t].log.len() as u64
            &&& r.interest(name).request == (if tracker.follows(name) {
                tracker.interest(name).request
            } else {
                DataRequestView { topic: name, cursors: origin(), max_count: 100 }
            })
        }),
    decreases upto,
{
    let name = v.topics[t].name;
    let before = v.caught_up(tracker, filter, upto - 1);
    let last = v.topics[upto - 1];
    lemma_caught_up_wf(v, tracker, filter, upto - 1);
    lemma_caught_up_next(v, tracker, filter, upto - 1);
    if t == upto - 1 {
        lemma_index_of_name(v.topics, name);
        assert(index_of_name(v.topics, name) == t);
        lemma_caught_up_frame(v, tracker, filter, upto - 1, name);
        lemma_follow_and_notice(before, name, last.log.len() as u64);
    } else {
        lemma_caught_up_follows(v, tracker, filter, upto - 1, t);
        if filter_matches(filter, encode_utf8(last.name)) {
            assert(last.name != name) by {
                assert(index_of_name(v.topics, v.topics[t].name) == t);
                assert(index_of_name(v.topics, v.topics[upto - 1].name) == upto - 1);
            }
            lemma_follow_and_notice(before, last.name, last.log.len() as u64);
            lemma_follow_and_notice_frame(before, last.name, last.log.len() as u64, name);
        }
    }
}

/// Catching up leaves the turn where it is.
pub proof fn lemma_caught_up_next(v: RouterView, tracker: TrackerView, filter: Seq<u8>, upto: int)
    requires
        tracker.wf(),
        0 <= upto <= v.topics.len(),
    ensures
        v.caught_up(tracker, filter, upto).next == tracker.next,
    decreases upto,
{
    if upto > 0 {
        lemma_caught_up_next(v, tracker, filter, upto - 1);
    }
}

/// Catching up with topics of other names leaves what a tracker holds of
/// a topic as it was.
pub proof fn lemma_caught_up_frame(
    v: RouterView,
    tracker: TrackerView,
    filter: Seq<u8>,
    upto: int,
    name: Seq<char>,
)
    requires
        tracker.wf(),
        0 <= upto <= v.topics.len(),
        forall|k: int| 0 <= k < upto ==> (#[trigger] v.topics[k]).name != name,
    ensures
        ({
            let r = v.caught_up(tracker, filter, upto);
            &&& r.follows(name) == tracker.follows(name)
            &&& tracker.follows(name) ==> r.interest(name) == tracker.interest(name)
        }),
    decreases upto,
{
    if upto > 0 {
        lemma_caught_up_frame(v, tracker, filter, upto - 1, name);
        lemma_caught_up_wf(v, tracker, filter, upto - 1);
        let before = v.caught_up(tracker, filter, upto - 1);
        let last = v.topics[upto - 1];
        if filter_matches(filter, encode_utf8(last.name)) {
            lemma_follow_and_notice_frame(before, last.name, last.log.len() as u64, name);
        }
    }
}

/// A subscription catches up with what was published: once a connection
/// has subscribed, it follows every topic that its filter matches and
/// knows how long the topic's log is. Where it did not follow the topic
/// before, its request starts at the start of the log; and where the log
/// holds anything and the connection does not wait, the connection is in
/// the queue of the ready.
pub proof fn lemma_subscription_catches_up(v: RouterView, id: usize, filter: Seq<char>, t: int)
    requires
        v.wf(),
        v.connected(id),
        0 <= t < v.topics.len(),
        v.topics[t].log.len() <= u64::MAX,
        filter_matches(encode_utf8(filter), encode_utf8(v.topics[t].name)),
    ensures
        ({
            let before = v.slots[id as int]->Some_0;
            let after = v.subscribed(id, filter);
            let slot = after.slots[id as int]->Some_0;
            let name = v.topics[t].name;
            &&& after.connected(id)
            &&& after.topics == v.topics
            &&& slot.connection == before.connection
            &&& slot.waiting == before.waiting
            &&& slot.acks == before.acks
            &&& slot.tracker.follows(name)
            &&& slot.tracker.interest(name).tail == v.topics[t].log.len()
            &&& !before.tracker.follows(name) ==> slot.tracker.interest(name).request == (
            DataRequestView { topic: name, cursors: origin(), max_count: 100 })
            &&& !before.tracker.follows(name) && v.topics[t].log.len() > 0 && !before.waiting
                ==> after.ready.contains(id)
        }),
{
    let before = v.slots[id as int]->Some_0;
    assert(before.wf());
    let name = v.topics[t].name;
    let tracker = v.caught_up(before.tracker, encode_utf8(filter), v.topics.len() as int);
    lemma_caught_up_follows(v, before.tracker, encode_utf8(filter), v.topics.len() as int, t);
    assert(v.topics[t].wf());
    let mid = RouterView {
        subscriptions: noted(
            v.subscriptions,
            SubscriptionView { filter: encode_utf8(filter), connection: id },
        ),
        slots: v.slots.update(id as int, Some(SlotView { tracker, ..before })),
        ..v
    };
    if !before.tracker.follows(name) && v.topics[t].log.len() > 0 && !before.waiting {
        lemma_index_of_topic(tracker.topics, name);
        let at = index_of_topic(tracker.topics, name);
        assert(tracker.topics[at].has_data());
        lemma_data_is_picked(tracker, at);
        assert(mid.due(id as int));
        lemma_enqueued(mid, mid.slots.len() as int);
        assert(mid.enqueued(mid.slots.len() as int).contains(id as int as usize));
    }
    let after = v.subscribed(id, filter);
    assert(after.slots == mid.slots);
    assert(after.ready == mid.enqueued(mid.slots.len() as int));
    assert(after.connected(id));
    assert(after.slots[id as int]->Some_0.tracker == tracker);
}

} // verus!
