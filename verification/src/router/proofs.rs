//! Why the router stays in order.

use super::model::{first_free, first_same, index_of_name, RouterView, SlotView, TopicView};
use super::readyqueue::{lemma_place_of, place_of};
use super::tracker::{lemma_index_of_topic, TrackerView};
use super::watermarks::{lemma_release_is_gated, WatermarksView};
use super::{same_device, ConnectionType};
use crate::codec::PublishView;
use vstd::prelude::*;

verus! {

/// `index_of_name` is the first place of the name: within the list
/// exactly where a topic is called so, with no earlier topic of that
/// name.
pub proof fn lemma_index_of_name(topics: Seq<TopicView>, name: Seq<char>)
    ensures
        0 <= index_of_name(topics, name) <= topics.len(),
        index_of_name(topics, name) < topics.len() ==> topics[index_of_name(topics, name)].name
            == name,
        forall|j: int| 0 <= j < index_of_name(topics, name) ==> (#[trigger] topics[j]).name != name,
    decreases topics.len(),
{
    if topics.len() > 0 {
        let before = topics.drop_last();
        lemma_index_of_name(before, name);
        assert forall|j: int| 0 <= j < index_of_name(topics, name) implies (
        #[trigger] topics[j]).name != name by {
            if j < before.len() {
                assert(before[j] == topics[j]);
            }
        }
    }
}

/// A place that holds the name, with no earlier place that does, or the
/// number of topics where none does, is `index_of_name`.
pub proof fn lemma_index_of_name_is(topics: Seq<TopicView>, name: Seq<char>, i: int)
    requires
        0 <= i <= topics.len(),
        forall|j: int| 0 <= j < i ==> (#[trigger] topics[j]).name != name,
        i < topics.len() ==> topics[i].name == name,
    ensures
        index_of_name(topics, name) == i,
{
    lemma_index_of_name(topics, name);
    let k = index_of_name(topics, name);
    if k < i {
        assert(topics[k].name == name);
    } else if k > i {
        assert(topics[i].name != name);
    }
}

/// Following a topic twice is following it once.
pub proof fn lemma_with_topic_twice(t: TrackerView, name: Seq<char>)
    requires
        t.wf(),
    ensures
        t.with_topic(name).wf(),
        t.with_topic(name).follows(name),
        t.with_topic(name).with_topic(name) == t.with_topic(name),
{
    let after = t.with_topic(name);
    lemma_index_of_topic(t.topics, name);
    if !t.follows(name) {
        assert(after.topics.drop_last() =~= t.topics);
        assert(after.topics.last().request.topic == name);
        assert forall|i: int| 0 <= i < after.topics.len() implies (
        #[trigger] after.topics[i]).request.cursors.len() == 3 by {
            if i < t.topics.len() {
                assert(t.topics[i].request.cursors.len() == 3);
            }
        }
    }
}

/// A new topic leaves the router in order.
pub proof fn lemma_with_topic_wf(v: RouterView, name: Seq<char>)
    requires
        v.wf(),
    ensures
        v.with_topic(name).wf(),
        v.with_topic(name).has_topic(name),
        v.with_topic(name).slots.len() == v.slots.len(),
        forall|i: int|
            0 <= i < v.slots.len() ==> (v.with_topic(name).slots[i] is Some) == (
            #[trigger] v.slots[i] is Some),
{
    let after = v.with_topic(name);
    lemma_index_of_name(v.topics, name);
    if !v.has_topic(name) {
        assert(after.topics.drop_last() =~= v.topics);
        assert forall|t: int| 0 <= t < after.topics.len() implies index_of_name(
            after.topics,
            (#[trigger] after.topics[t]).name,
        ) == t by {
            if t < v.topics.len() {
                assert(index_of_name(v.topics, v.topics[t].name) == t);
            }
        }
        assert forall|t: int| 0 <= t < after.topics.len() implies (
        #[trigger] after.topics[t]).wf() by {
            if t < v.topics.len() {
                assert(v.topics[t].wf());
            }
        }
        assert forall|i: int| 0 <= i < after.slots.len() implies ((
        #[trigger] after.slots[i]) matches Some(slot) ==> slot.wf()) by {
            if let Some(slot) = v.slots[i] {
                assert(slot.wf());
                lemma_with_topic_twice(slot.tracker, name);
            }
        }
        assert forall|k: int| 0 <= k < after.ready.len() implies after.connected(
            #[trigger] after.ready[k],
        ) && !after.slots[after.ready[k] as int]->Some_0.waiting by {
            assert(v.connected(v.ready[k]));
        }
    }
}

/// A router with a new, empty topic that nobody follows yet is in order.
pub proof fn lemma_new_topic_wf(v: RouterView, name: Seq<char>)
    requires
        v.wf(),
        !v.has_topic(name),
    ensures
        (RouterView { topics: v.topics.push(v.fresh_topic(name)), ..v }).wf(),
{
    let after = RouterView { topics: v.topics.push(v.fresh_topic(name)), ..v };
    lemma_index_of_name(v.topics, name);
    assert(after.topics.drop_last() =~= v.topics);
    assert forall|t: int| 0 <= t < after.topics.len() implies index_of_name(
        after.topics,
        (#[trigger] after.topics[t]).name,
    ) == t by {
        if t < v.topics.len() {
            assert(index_of_name(v.topics, v.topics[t].name) == t);
        }
    }
    assert forall|t: int| 0 <= t < after.topics.len() implies (#[trigger] after.topics[t]).wf() by {
        if t < v.topics.len() {
            assert(v.topics[t].wf());
        }
    }
    assert forall|k: int| 0 <= k < after.ready.len() implies after.connected(
        #[trigger] after.ready[k],
    ) && !after.slots[after.ready[k] as int]->Some_0.waiting by {
        assert(v.connected(v.ready[k]));
    }
}

/// The place of a name depends on the names alone.
pub proof fn lemma_index_of_name_by_names(a: Seq<TopicView>, b: Seq<TopicView>, name: Seq<char>)
    requires
        a.len() == b.len(),
        forall|t: int| 0 <= t < a.len() ==> (#[trigger] a[t]).name == b[t].name,
    ensures
        index_of_name(a, name) == index_of_name(b, name),
    decreases a.len(),
{
    if a.len() > 0 {
        assert forall|t: int| 0 <= t < a.drop_last().len() implies (
        #[trigger] a.drop_last()[t]).name == b.drop_last()[t].name by {
            assert(a[t].name == b[t].name);
        }
        lemma_index_of_name_by_names(a.drop_last(), b.drop_last(), name);
        assert(a.last().name == b.last().name);
    }
}

/// The queue of the ready grows by the due only: it keeps what it had, it
/// stays free of duplicates, and whoever joins is due.
pub proof fn lemma_enqueued(v: RouterView, upto: int)
    requires
        v.ready.no_duplicates(),
        0 <= upto <= v.slots.len() <= usize::MAX,
    ensures
        v.enqueued(upto).no_duplicates(),
        v.ready.len() <= v.enqueued(upto).len(),
        forall|k: int| 0 <= k < v.ready.len() ==> v.enqueued(upto)[k] == v.ready[k],
        forall|k: int|
            v.ready.len() <= k < v.enqueued(upto).len() ==> v.due(
                (#[trigger] v.enqueued(upto)[k]) as int,
            ),
        forall|i: int|
            0 <= i < upto && v.due(i) ==> #[trigger] v.enqueued(upto).contains(i as usize),
    decreases upto,
{
    if upto > 0 {
        lemma_enqueued(v, upto - 1);
        let before = v.enqueued(upto - 1);
        let after = v.enqueued(upto);
        let id = (upto - 1) as usize;
        if v.due(upto - 1) && !before.contains(id) {
            assert forall|i: int, j: int|
                0 <= i < after.len() && 0 <= j < after.len() && i != j implies after[i]
                != after[j] by {
                if i < before.len() && j < before.len() {
                } else if i < before.len() {
                    assert(before.contains(before[i]));
                } else {
                    assert(before.contains(before[j]));
                }
            }
            assert forall|i: int| 0 <= i < upto && v.due(i) implies #[trigger] after.contains(
                i as usize,
            ) by {
                if i < upto - 1 {
                    assert(before.contains(i as usize));
                    let k = choose|k: int| 0 <= k < before.len() && before[k] == i as usize;
                    assert(after[k] == i as usize);
                } else {
                    assert(after[before.len() as int] == id);
                }
            }
        } else {
            assert forall|i: int| 0 <= i < upto && v.due(i) implies #[trigger] after.contains(
                i as usize,
            ) by {
                if i < upto - 1 {
                    assert(before.contains(i as usize));
                }
            }
        }
    }
}

/// A publish written to a topic leaves the router in order.
pub proof fn lemma_written_wf(v: RouterView, t: int, id: usize, publish: PublishView)
    requires
        v.wf(),
        0 <= t < v.topics.len(),
    ensures
        v.written(t, id, publish).wf(),
        v.written(t, id, publish).slots == v.slots,
        v.written(t, id, publish).ready == v.ready,
        v.written(t, id, publish).topics.len() == v.topics.len(),
        v.written(t, id, publish).topics[t].name == v.topics[t].name,
{
    let after = v.written(t, id, publish);
    let topic = v.topics[t];
    assert(topic.wf());
    if topic.log.len() < u64::MAX {
        let offset = topic.log.len() as u64;
        let marks = RouterView::marked(topic.watermarks, offset, id, publish);
        lemma_release_is_gated(marks);
        let left = marks.after_release();
        let n = marks.pending.len() - left.pending.len();
        assert forall|i: int| 0 <= i < left.pending.len() implies (#[trigger] left.pending[i]).offset
            < topic.log.len() + 1 by {
            assert(left.pending[i] == marks.pending[n + i]);
            if n + i < topic.watermarks.pending.len() {
                assert(topic.watermarks.pending[n + i].offset < topic.log.len());
            }
        }
        assert forall|k: int| 0 <= k < after.topics.len() implies (#[trigger] after.topics[k]).wf() by {
            if k != t {
                assert(v.topics[k].wf());
            }
        }
        assert forall|k: int| 0 <= k < after.topics.len() implies index_of_name(
            after.topics,
            (#[trigger] after.topics[k]).name,
        ) == k by {
            assert(after.topics[k].name == v.topics[k].name);
            assert(index_of_name(v.topics, v.topics[k].name) == k);
            lemma_index_of_name_by_names(after.topics, v.topics, v.topics[k].name);
        }
        assert forall|k: int| 0 <= k < after.ready.len() implies after.connected(
            #[trigger] after.ready[k],
        ) && !after.slots[after.ready[k] as int]->Some_0.waiting by {
            assert(v.connected(v.ready[k]));
        }
    }
}

/// Putting released acknowledgements with their connections, or telling
/// the trackers of a log's new length, leaves the router in order and its
/// connections where they are.
pub proof fn lemma_slots_kept(v: RouterView, slots: Seq<Option<SlotView>>)
    requires
        v.wf(),
        slots.len() == v.slots.len(),
        forall|i: int|
            0 <= i < slots.len() ==> match (#[trigger] slots[i], v.slots[i]) {
                (Some(after), Some(before)) => after.wf() && after.connection == before.connection
                    && after.waiting == before.waiting,
                (None, None) => true,
                _ => false,
            },
    ensures
        (RouterView { slots, ..v }).wf(),
{
    let after = RouterView { slots, ..v };
    assert forall|k: int| 0 <= k < after.ready.len() implies after.connected(
        #[trigger] after.ready[k],
    ) && !after.slots[after.ready[k] as int]->Some_0.waiting by {
        assert(v.connected(v.ready[k]));
        assert(!v.slots[v.ready[k] as int]->Some_0.waiting);
    }
    assert forall|t: int| 0 <= t < after.topics.len() implies (#[trigger] after.topics[t]).wf() by {
        assert(v.topics[t].wf());
    }
    assert forall|t: int| 0 <= t < after.topics.len() implies index_of_name(
        after.topics,
        (#[trigger] after.topics[t]).name,
    ) == t by {
        assert(index_of_name(v.topics, v.topics[t].name) == t);
    }
}

/// Telling a tracker of a log's length leaves it in order.
pub proof fn lemma_noticed_wf(t: TrackerView, name: Seq<char>, tail: u64)
    requires
        t.wf(),
    ensures
        t.noticed(name, tail).wf(),
{
    let after = t.noticed(name, tail);
    lemma_index_of_topic(t.topics, name);
    assert forall|i: int| 0 <= i < after.topics.len() implies (
    #[trigger] after.topics[i]).request.cursors.len() == 3 by {
        assert(t.topics[i].request.cursors.len() == 3);
    }
}

/// Catching up with the topics leaves a tracker in order.
pub proof fn lemma_caught_up_wf(v: RouterView, tracker: TrackerView, filter: Seq<u8>, upto: int)
    requires
        tracker.wf(),
        0 <= upto <= v.topics.len(),
    ensures
        v.caught_up(tracker, filter, upto).wf(),
    decreases upto,
{
    if upto > 0 {
        lemma_caught_up_wf(v, tracker, filter, upto - 1);
        let before = v.caught_up(tracker, filter, upto - 1);
        let topic = v.topics[upto - 1];
        lemma_with_topic_twice(before, topic.name);
        lemma_noticed_wf(before.with_topic(topic.name), topic.name, topic.log.len() as u64);
    }
}

/// A router whose queue of the ready was filled up with the due is in
/// order.
pub proof fn lemma_offered_wf(v: RouterView)
    requires
        v.wf(),
    ensures
        (RouterView { ready: v.enqueued(v.slots.len() as int), ..v }).wf(),
{
    let n = v.slots.len() as int;
    lemma_enqueued(v, n);
    let after = RouterView { ready: v.enqueued(n), ..v };
    assert forall|k: int| 0 <= k < after.ready.len() implies after.connected(
        #[trigger] after.ready[k],
    ) && !after.slots[after.ready[k] as int]->Some_0.waiting by {
        if k < v.ready.len() {
            assert(after.ready[k] == v.ready[k]);
            assert(v.connected(v.ready[k]));
        } else {
            assert(v.due(after.ready[k] as int));
        }
    }
    assert forall|t: int| 0 <= t < after.topics.len() implies (#[trigger] after.topics[t]).wf() by {
        assert(v.topics[t].wf());
    }
    assert forall|t: int| 0 <= t < after.topics.len() implies index_of_name(
        after.topics,
        (#[trigger] after.topics[t]).name,
    ) == t by {
        assert(index_of_name(v.topics, v.topics[t].name) == t);
    }
    assert forall|i: int| 0 <= i < after.slots.len() implies ((
    #[trigger] after.slots[i]) matches Some(slot) ==> slot.wf()) by {
        if let Some(slot) = v.slots[i] {
            assert(slot.wf());
        }
    }
}

/// Moving a topic's watermarks without touching its log or the
/// acknowledgements that wait beyond the log leaves the router in order.
pub proof fn lemma_marks_moved_wf(v: RouterView, t: int, marks: WatermarksView)
    requires
        v.wf(),
        0 <= t < v.topics.len(),
        marks.wf(),
        marks.replicas == v.waited_for(),
        forall|i: int|
            0 <= i < marks.pending.len() ==> (#[trigger] marks.pending[i]).offset
                < v.topics[t].log.len(),
    ensures
        (RouterView {
            topics: v.topics.update(t, TopicView { watermarks: marks, ..v.topics[t] }),
            ..v
        }).wf(),
{
    let after = RouterView {
        topics: v.topics.update(t, TopicView { watermarks: marks, ..v.topics[t] }),
        ..v
    };
    assert forall|k: int| 0 <= k < after.topics.len() implies (#[trigger] after.topics[k]).wf() by {
        if k != t {
            assert(v.topics[k].wf());
        }
    }
    assert forall|k: int| 0 <= k < after.topics.len() implies index_of_name(
        after.topics,
        (#[trigger] after.topics[k]).name,
    ) == k by {
        assert(after.topics[k].name == v.topics[k].name);
        assert(index_of_name(v.topics, v.topics[k].name) == k);
        lemma_index_of_name_by_names(after.topics, v.topics, v.topics[k].name);
    }
    assert forall|k: int| 0 <= k < after.ready.len() implies after.connected(
        #[trigger] after.ready[k],
    ) && !after.slots[after.ready[k] as int]->Some_0.waiting by {
        assert(v.connected(v.ready[k]));
    }
}

/// A replica's acknowledgement leaves the watermarks in order, and what
/// still waits after the release waited before.
pub proof fn lemma_ack_then_release(marks: WatermarksView, replica: usize, offset: u64, bound: int)
    requires
        marks.wf(),
        forall|i: int| 0 <= i < marks.pending.len() ==> (#[trigger] marks.pending[i]).offset < bound,
    ensures
        marks.after_ack(replica, offset).wf(),
        marks.after_ack(replica, offset).after_release().wf(),
        forall|i: int|
            0 <= i < marks.after_ack(replica, offset).after_release().pending.len() ==> (
            #[trigger] marks.after_ack(replica, offset).after_release().pending[i]).offset < bound,
{
    let moved = marks.after_ack(replica, offset);
    assert(moved.pending == marks.pending);
    assert(moved.wf());
    lemma_release_is_gated(moved);
    let left = moved.after_release();
    let n = moved.pending.len() - left.pending.len();
    assert forall|i: int| 0 <= i < left.pending.len() implies (#[trigger] left.pending[i]).offset
        < bound by {
        assert(left.pending[i] == marks.pending[n + i]);
    }
}

/// A payload written to a topic together with new watermarks leaves the
/// router in order, where the acknowledgements that still wait are for
/// offsets that the log has.
pub proof fn lemma_topic_grown_wf(v: RouterView, t: int, payload: Seq<u8>, marks: WatermarksView)
    requires
        v.wf(),
        0 <= t < v.topics.len(),
        marks.wf(),
        marks.replicas == v.waited_for(),
        forall|i: int|
            0 <= i < marks.pending.len() ==> (#[trigger] marks.pending[i]).offset
                < v.topics[t].log.len() + 1,
    ensures
        (RouterView {
            topics: v.topics.update(
                t,
                TopicView { log: v.topics[t].log.push(payload), watermarks: marks, ..v.topics[t] },
            ),
            ..v
        }).wf(),
{
    let after = RouterView {
        topics: v.topics.update(
            t,
            TopicView { log: v.topics[t].log.push(payload), watermarks: marks, ..v.topics[t] },
        ),
        ..v
    };
    assert forall|k: int| 0 <= k < after.topics.len() implies (#[trigger] after.topics[k]).wf() by {
        if k != t {
            assert(v.topics[k].wf());
        }
    }
    assert forall|k: int| 0 <= k < after.topics.len() implies index_of_name(
        after.topics,
        (#[trigger] after.topics[k]).name,
    ) == k by {
        assert(after.topics[k].name == v.topics[k].name);
        assert(index_of_name(v.topics, v.topics[k].name) == k);
        lemma_index_of_name_by_names(after.topics, v.topics, v.topics[k].name);
    }
    assert forall|k: int| 0 <= k < after.ready.len() implies after.connected(
        #[trigger] after.ready[k],
    ) && !after.slots[after.ready[k] as int]->Some_0.waiting by {
        assert(v.connected(v.ready[k]));
    }
}

/// `first_same` and `first_free` stay within the slots that they look at,
/// and what they find is what they look for.
pub proof fn lemma_first_slots(slots: Seq<Option<SlotView>>, kind: ConnectionType, upto: int)
    requires
        0 <= upto <= slots.len(),
    ensures
        0 <= first_same(slots, kind, upto) <= upto,
        0 <= first_free(slots, upto) <= upto,
        first_same(slots, kind, upto) < upto ==> slots[first_same(slots, kind, upto)] is Some,
        first_free(slots, upto) < upto ==> slots[first_free(slots, upto)] is None,
    decreases upto,
{
    if upto > 0 {
        lemma_first_slots(slots, kind, upto - 1);
    }
}

/// Setting a slot and taking its connection out of the queue of the ready
/// leaves the router in order, where the slot itself is in order; and so
/// does filling up the queue with the due afterwards.
pub proof fn lemma_admitted_wf(v: RouterView, id: usize, slot: SlotView)
    requires
        v.wf(),
        id <= v.slots.len(),
        v.slots.len() < usize::MAX || id < v.slots.len(),
        slot.wf(),
    ensures
        v.seated(id, slot).wf(),
        v.admitted(id, slot).wf(),
        v.admitted(id, slot).topics == v.topics,
        v.admitted(id, slot).subscriptions == v.subscriptions,
        v.admitted(id, slot).connected(id),
        v.admitted(id, slot).slots[id as int] == Some(slot),
        v.admitted(id, slot).slots.len() == (if id < v.slots.len() {
            v.slots.len()
        } else {
            v.slots.len() + 1
        }),
        forall|j: int|
            0 <= j < v.slots.len() && j != id ==> v.admitted(id, slot).slots[j] == v.slots[j],
{
    let mid = v.seated(id, slot);
    lemma_place_of(v.ready, id);
    let at = place_of(v.ready, id);
    assert forall|k: int| 0 <= k < mid.ready.len() implies mid.connected(#[trigger] mid.ready[k])
        && !mid.slots[mid.ready[k] as int]->Some_0.waiting && mid.ready[k] != id by {
        let from = if v.ready.contains(id) && k >= at { k + 1 } else { k };
        assert(mid.ready[k] == v.ready[from]);
        assert(v.connected(v.ready[from]));
        if v.ready[from] == id {
            if v.ready.contains(id) {
                assert(v.ready[at] == id);
                assert(from != at);
            } else {
                assert(v.ready.contains(id));
            }
        }
    }
    assert forall|i: int, j: int|
        0 <= i < mid.ready.len() && 0 <= j < mid.ready.len() && i != j implies mid.ready[i]
        != mid.ready[j] by {
        let fi = if v.ready.contains(id) && i >= at { i + 1 } else { i };
        let fj = if v.ready.contains(id) && j >= at { j + 1 } else { j };
        assert(v.ready[fi] != v.ready[fj]);
    }
    assert forall|t: int| 0 <= t < mid.topics.len() implies (#[trigger] mid.topics[t]).wf() by {
        assert(v.topics[t].wf());
    }
    assert forall|t: int| 0 <= t < mid.topics.len() implies index_of_name(
        mid.topics,
        (#[trigger] mid.topics[t]).name,
    ) == t by {
        assert(index_of_name(v.topics, v.topics[t].name) == t);
    }
    assert forall|i: int| 0 <= i < mid.slots.len() implies ((
    #[trigger] mid.slots[i]) matches Some(s) ==> s.wf()) by {
        if i != id {
            assert(v.slots[i] matches Some(s) ==> s.wf());
        }
    }
    assert(mid.wf());
    lemma_offered_wf(mid);
}

/// A slot that holds a device with the same client id, with no earlier
/// such slot, is what `first_same` finds, however many slots follow.
pub proof fn lemma_first_same_found(
    slots: Seq<Option<SlotView>>,
    kind: ConnectionType,
    i: int,
    upto: int,
)
    requires
        0 <= i < upto <= slots.len(),
        first_same(slots, kind, i) == i,
        slots[i] matches Some(slot) && same_device(slot.connection.kind(), kind),
    ensures
        first_same(slots, kind, upto) == i,
    decreases upto - i,
{
    if upto > i + 1 {
        lemma_first_same_found(slots, kind, i, upto - 1);
    }
}

/// Nothing is sent over what is parked: a connection in the queue of the
/// ready, which is where the router takes the connections from that it
/// sends to, has nothing parked. So a notification that the channel does
/// not take finds the place free, and what is parked is never written
/// over.
pub proof fn lemma_ready_have_nothing_parked(v: RouterView, k: int)
    requires
        v.wf(),
        0 <= k < v.ready.len(),
    ensures
        v.connected(v.ready[k]),
        v.slots[v.ready[k] as int]->Some_0.connection.parked() is None,
        !v.slots[v.ready[k] as int]->Some_0.waiting,
{
    assert(v.connected(v.ready[k]));
    assert(v.slots[v.ready[k] as int]->Some_0.wf());
}

/// A router whose first ready connection has left the queue is in order,
/// and the connection is nowhere else in the queue.
pub proof fn lemma_popped_wf(v: RouterView)
    requires
        v.wf(),
        v.ready.len() > 0,
    ensures
        (RouterView { ready: v.ready.skip(1), ..v }).wf(),
        !v.ready.skip(1).contains(v.ready[0]),
        v.connected(v.ready[0]),
        v.slots[v.ready[0] as int]->Some_0.connection.parked() is None,
        !v.slots[v.ready[0] as int]->Some_0.waiting,
{
    let popped = RouterView { ready: v.ready.skip(1), ..v };
    let id = v.ready[0];
    assert(v.connected(v.ready[0]));
    assert(v.slots[id as int]->Some_0.wf());
    assert forall|k: int| 0 <= k < popped.ready.len() implies popped.connected(
        #[trigger] popped.ready[k],
    ) && !popped.slots[popped.ready[k] as int]->Some_0.waiting by {
        assert(popped.ready[k] == v.ready[k + 1]);
        assert(v.connected(v.ready[k + 1]));
    }
    assert forall|i: int, j: int|
        0 <= i < popped.ready.len() && 0 <= j < popped.ready.len() && i != j implies popped.ready[i]
        != popped.ready[j] by {
        assert(v.ready[i + 1] != v.ready[j + 1]);
    }
    assert forall|t: int| 0 <= t < popped.topics.len() implies (#[trigger] popped.topics[t]).wf()
        && popped.topics[t].segment_size == popped.segment_size
        && popped.topics[t].watermarks.replicas == popped.waited_for() by {
        assert(v.topics[t].wf());
    }
    assert forall|t: int| 0 <= t < popped.topics.len() implies index_of_name(
        popped.topics,
        (#[trigger] popped.topics[t]).name,
    ) == t by {
        assert(index_of_name(v.topics, v.topics[t].name) == t);
    }
    assert forall|i: int| 0 <= i < popped.slots.len() implies ((
    #[trigger] popped.slots[i]) matches Some(s) ==> s.wf()) by {
        assert(v.slots[i] matches Some(s) ==> s.wf());
    }
    if popped.ready.contains(id) {
        let k = choose|k: int| 0 <= k < popped.ready.len() && popped.ready[k] == id;
        assert(v.ready[k + 1] == v.ready[0]);
    }
}

} // verus!
