//! What a connection is interested in and how far it has read.

use super::{DataRequest, DataRequestView};
use vstd::prelude::*;

verus! {

/// One topic that a connection follows.
#[derive(Debug)]
pub struct Interest {
    /// The next read of the topic: where it starts and how much it takes.
    pub(crate) request: DataRequest,
    /// How many payloads the topic's log is known to hold.
    pub(crate) tail: u64,
}

/// Used to track what a connection is interested in: the topics that it
/// follows, in the order in which it began to follow them, and the topic
/// whose turn it is.
#[derive(Debug)]
pub struct Tracker {
    pub(crate) topics: Vec<Interest>,
    pub(crate) next: usize,
}

/// A followed topic as a value.
pub struct InterestView {
    pub request: DataRequestView,
    pub tail: u64,
}

impl View for Interest {
    type V = InterestView;

    closed spec fn view(&self) -> InterestView {
        InterestView { request: self.request@, tail: self.tail }
    }
}

/// The followed topics of a list as values, in their order.
pub open spec fn interest_views(topics: Seq<Interest>) -> Seq<InterestView> {
    Seq::new(topics.len(), |i: int| topics[i]@)
}

/// A tracker as a value.
#[verifier::ext_equal]
pub struct TrackerView {
    pub topics: Seq<InterestView>,
    pub next: int,
}

impl View for Tracker {
    type V = TrackerView;

    closed spec fn view(&self) -> TrackerView {
        TrackerView { topics: interest_views(self.topics@), next: self.next as int }
    }
}

impl InterestView {
    /// Whether the topic has data that the connection has not read: its
    /// log's tail lies beyond the offset of the connection's cursor.
    pub open spec fn has_data(self) -> bool {
        self.request.cursors.len() == 3 && self.tail > self.request.cursors[0].1
    }
}

/// The place of `topic` among the followed topics, or their number where
/// it is not among them.
pub open spec fn index_of_topic(topics: Seq<InterestView>, topic: Seq<char>) -> int
    decreases topics.len(),
{
    if topics.len() == 0 {
        0
    } else if index_of_topic(topics.drop_last(), topic) < topics.len() - 1 {
        index_of_topic(topics.drop_last(), topic)
    } else if topics.last().request.topic == topic {
        topics.len() - 1
    } else {
        topics.len() as int
    }
}

/// `index_of_topic` is the first place of the topic: within the list
/// exactly where the topic is followed, with no earlier place for it.
pub proof fn lemma_index_of_topic(topics: Seq<InterestView>, topic: Seq<char>)
    ensures
        0 <= index_of_topic(topics, topic) <= topics.len(),
        index_of_topic(topics, topic) < topics.len() ==> topics[index_of_topic(
            topics,
            topic,
        )].request.topic == topic,
        forall|j: int|
            0 <= j < index_of_topic(topics, topic) ==> (#[trigger] topics[j]).request.topic
                != topic,
    decreases topics.len(),
{
    if topics.len() > 0 {
        let before = topics.drop_last();
        lemma_index_of_topic(before, topic);
        assert forall|j: int| 0 <= j < index_of_topic(topics, topic) implies (
        #[trigger] topics[j]).request.topic != topic by {
            if j < before.len() {
                assert(before[j] == topics[j]);
            }
        }
    }
}

impl TrackerView {
    /// Whether the tracker is in order: the turn is at one of the topics,
    /// or at 0 where there is none, and every request has its three
    /// cursors.
    pub open spec fn wf(self) -> bool {
        &&& 0 <= self.next
        &&& self.next < self.topics.len() || (self.next == 0 && self.topics.len() == 0)
        &&& forall|i: int|
            0 <= i < self.topics.len() ==> (#[trigger] self.topics[i]).request.cursors.len() == 3
    }

    /// The topic that stands `step` places after the one whose turn it
    /// is, going round.
    pub open spec fn round(self, step: int) -> int {
        if self.next + step < self.topics.len() {
            self.next + step
        } else {
            self.next + step - self.topics.len()
        }
    }

    /// How many topics, going round from the one whose turn it is and
    /// from `step` places on, have nothing new before one has; the number
    /// of topics where none has.
    pub open spec fn steps_to_data(self, step: int) -> int
        decreases self.topics.len() - step,
    {
        if step >= self.topics.len() {
            self.topics.len() as int
        } else if self.topics[self.round(step)].has_data() {
            step
        } else {
            self.steps_to_data(step + 1)
        }
    }

    /// The topic that is read next: the first one with something new,
    /// going round from the one whose turn it is. None where no topic has
    /// anything new.
    pub open spec fn pick(self) -> Option<int> {
        if self.steps_to_data(0) < self.topics.len() {
            Some(self.round(self.steps_to_data(0)))
        } else {
            None
        }
    }

    /// Whether `topic` is among the followed topics.
    pub open spec fn follows(self, topic: Seq<char>) -> bool {
        index_of_topic(self.topics, topic) < self.topics.len()
    }

    /// What the tracker holds of `topic`, where it follows the topic.
    pub open spec fn interest(self, topic: Seq<char>) -> InterestView {
        self.topics[index_of_topic(self.topics, topic)]
    }

    /// The tracker that follows `topic` too: from the start of the
    /// topic's log, unless the topic was followed already.
    pub open spec fn with_topic(self, topic: Seq<char>) -> TrackerView {
        if self.follows(topic) {
            self
        } else {
            TrackerView {
                topics: self.topics.push(
                    InterestView {
                        request: DataRequestView {
                            topic,
                            cursors: super::origin(),
                            max_count: 100,
                        },
                        tail: 0,
                    },
                ),
                ..self
            }
        }
    }

    /// The tracker that knows the log of `topic` to hold `tail` payloads.
    pub open spec fn noticed(self, topic: Seq<char>, tail: u64) -> TrackerView {
        if self.follows(topic) {
            let at = index_of_topic(self.topics, topic);
            TrackerView {
                topics: self.topics.update(at, InterestView { tail, ..self.topics[at] }),
                ..self
            }
        } else {
            self
        }
    }

    /// The tracker whose cursors on `topic` stand at `cursors`.
    pub open spec fn advanced(self, topic: Seq<char>, cursors: Seq<(u64, u64)>) -> TrackerView {
        if self.follows(topic) {
            let at = index_of_topic(self.topics, topic);
            TrackerView {
                topics: self.topics.update(
                    at,
                    InterestView {
                        request: DataRequestView { cursors, ..self.topics[at].request },
                        ..self.topics[at]
                    },
                ),
                ..self
            }
        } else {
            self
        }
    }

    /// The tracker after `picked` was read: the turn passes to the topic
    /// behind it.
    pub open spec fn after_pick(self, picked: int) -> TrackerView {
        TrackerView {
            next: if picked + 1 < self.topics.len() {
                picked + 1
            } else {
                0
            },
            ..self
        }
    }
}

impl Tracker {
    /// A tracker that follows nothing.
    pub fn new() -> (tracker: Tracker)
        ensures
            tracker@.wf(),
            tracker@ == (TrackerView { topics: Seq::empty(), next: 0 }),
    {
        let tracker = Tracker { topics: Vec::new(), next: 0 };
        assert(tracker@.topics =~= Seq::empty());
        tracker
    }

    /// How many topics the connection follows.
    pub fn len(&self) -> (n: usize)
        ensures
            n == self@.topics.len(),
    {
        self.topics.len()
    }

    /// The place of `topic` among the followed topics, or their number
    /// where it is not followed.
    pub fn position(&self, topic: &str) -> (at: usize)
        ensures
            at == index_of_topic(self@.topics, topic@),
            at <= self@.topics.len(),
    {
        let wanted = topic.to_owned();
        let mut i: usize = 0;
        proof {
            assert(self@.topics.take(0) =~= Seq::empty());
        }
        while i < self.topics.len()
            invariant
                i <= self.topics@.len(),
                wanted@ == topic@,
                index_of_topic(self@.topics.take(i as int), topic@) == i,
            decreases self.topics@.len() - i,
        {
            proof {
                assert(self@.topics.take(i + 1).drop_last() =~= self@.topics.take(i as int));
                assert(self@.topics.take(i + 1).last() == self.topics@[i as int]@);
                assert(self@.topics[i as int] == self.topics@[i as int]@);
            }
            if self.topics[i].request.topic == wanted {
                proof {
                    lemma_found_stays(self@.topics, topic@, i as int);
                }
                return i;
            }
            i += 1;
        }
        proof {
            assert(self@.topics.take(i as int) =~= self@.topics);
        }
        i
    }

    /// Begins to follow `topic` from the start of its log, unless the
    /// topic is followed already, and says whether it began.
    pub fn track(&mut self, topic: String) -> (added: bool)
        requires
            old(self)@.wf(),
        ensures
            final(self)@.wf(),
            added == !old(self)@.follows(topic@),
            final(self)@ == old(self)@.with_topic(topic@),
    {
        if self.position(topic.as_str()) < self.topics.len() {
            return false;
        }
        let ghost before = self@.topics;
        let request = DataRequest::new(topic);
        self.topics.push(Interest { request, tail: 0 });
        proof {
            let entry = InterestView {
                request: DataRequestView {
                    topic: topic@,
                    cursors: super::origin(),
                    max_count: 100,
                },
                tail: 0,
            };
            assert(self@.topics =~= before.push(entry));
            assert forall|i: int| 0 <= i < self@.topics.len() implies (
            #[trigger] self@.topics[i]).request.cursors.len() == 3 by {
                if i < before.len() {
                    assert(before[i].request.cursors.len() == 3);
                }
            }
        }
        true
    }

    /// Notes that the log of `topic` holds `tail` payloads by now. A topic
    /// that is not followed is none of the tracker's business.
    pub fn notice(&mut self, topic: &str, tail: u64)
        requires
            old(self)@.wf(),
        ensures
            final(self)@.wf(),
            final(self)@ == old(self)@.noticed(topic@, tail),
    {
        let at = self.position(topic);
        if at < self.topics.len() {
            let ghost before = self@.topics;
            self.topics[at].tail = tail;
            let ghost updated = self.topics@[at as int]@;
            proof {
                assert(before[at as int] == old(self).topics@[at as int]@);
                assert(self@.topics =~= before.update(at as int, updated));
                assert forall|i: int| 0 <= i < self@.topics.len() implies (
                #[trigger] self@.topics[i]).request.cursors.len() == 3 by {
                    assert(before[i].request.cursors.len() == 3);
                }
            }
        }
    }

    /// Moves the connection's cursors on `topic` to where its last read
    /// ended. A topic that is not followed is none of the tracker's
    /// business.
    pub fn advance(&mut self, topic: &str, cursors: [(u64, u64); 3])
        requires
            old(self)@.wf(),
        ensures
            final(self)@.wf(),
            final(self)@ == old(self)@.advanced(topic@, cursors@),
    {
        let at = self.position(topic);
        if at < self.topics.len() {
            let ghost before = self@.topics;
            self.topics[at].request.cursors = cursors;
            let ghost updated = self.topics@[at as int]@;
            proof {
                assert(before[at as int] == old(self).topics@[at as int]@);
                assert(self@.topics =~= before.update(at as int, updated));
                assert forall|i: int| 0 <= i < self@.topics.len() implies (
                #[trigger] self@.topics[i]).request.cursors.len() == 3 by {
                    assert(before[i].request.cursors.len() == 3);
                }
            }
        }
    }

    /// Whether the followed topic at `at` has data that the connection
    /// has not read.
    fn has_data(&self, at: usize) -> (has: bool)
        requires
            at < self.topics@.len(),
        ensures
            has == self@.topics[at as int].has_data(),
    {
        let entry = &self.topics[at];
        entry.tail > entry.request.cursors[0].1
    }

    /// Whether any followed topic has data that the connection has not
    /// read.
    pub fn has_pending(&self) -> (pending: bool)
        requires
            self@.wf(),
        ensures
            pending == self@.pick() is Some,
    {
        self.steps_to_data() < self.topics.len()
    }

    /// How many topics, going round from the one whose turn it is, have
    /// nothing new before one has.
    fn steps_to_data(&self) -> (steps: usize)
        requires
            self@.wf(),
        ensures
            steps == self@.steps_to_data(0),
            steps <= self@.topics.len(),
    {
        let n = self.topics.len();
        let mut step: usize = 0;
        while step < n
            invariant
                self@.wf(),
                n == self.topics@.len(),
                step <= n,
                self@.steps_to_data(0) == self@.steps_to_data(step as int),
            decreases n - step,
        {
            let at = if step < n - self.next { self.next + step } else { step - (n - self.next) };
            assert(at == self@.round(step as int));
            if self.has_data(at) {
                return step;
            }
            step += 1;
        }
        step
    }

    /// Returns the request of the next topic with something new, going
    /// round from the topic whose turn it is, and passes the turn to the
    /// topic behind it. Where no topic has anything new there is no
    /// request and the turn stays.
    pub fn next(&mut self) -> (request: Option<DataRequest>)
        requires
            old(self)@.wf(),
        ensures
            final(self)@.wf(),
            match old(self)@.pick() {
                Some(picked) => request is Some && request->Some_0@ == old(
                    self,
                )@.topics[picked].request && final(self)@ == old(self)@.after_pick(picked),
                None => request is None && final(self)@ == old(self)@,
            },
    {
        let n = self.topics.len();
        let steps = self.steps_to_data();
        if steps >= n {
            return None;
        }
        let at = if steps < n - self.next { self.next + steps } else { steps - (n - self.next) };
        let request = self.topics[at].request.clone();
        self.next = if at + 1 < n { at + 1 } else { 0 };
        Some(request)
    }
}

/// A topic found at place `i`, with no earlier place for it, is found
/// there however many topics follow.
pub proof fn lemma_found_stays(topics: Seq<InterestView>, topic: Seq<char>, i: int)
    requires
        0 <= i < topics.len(),
        index_of_topic(topics.take(i), topic) == i,
        topics[i].request.topic == topic,
    ensures
        index_of_topic(topics, topic) == i,
    decreases topics.len() - i,
{
    let upto = topics.take(i + 1);
    assert(upto.drop_last() =~= topics.take(i));
    assert(upto.last() == topics[i]);
    assert(index_of_topic(upto, topic) == i);
    lemma_found_grows(topics, topic, i, i + 1);
}

/// What is found within the first `k` topics is found at the same place
/// within all of them.
pub proof fn lemma_found_grows(topics: Seq<InterestView>, topic: Seq<char>, i: int, k: int)
    requires
        0 <= i < k <= topics.len(),
        index_of_topic(topics.take(k), topic) == i,
    ensures
        index_of_topic(topics, topic) == i,
    decreases topics.len() - k,
{
    if k == topics.len() {
        assert(topics.take(k) =~= topics);
    } else {
        let more = topics.take(k + 1);
        assert(more.drop_last() =~= topics.take(k));
        lemma_found_grows(topics, topic, i, k + 1);
    }
}

/// The tracker goes round: after a topic was picked, the search for the
/// next one starts right behind it, so every other topic with something
/// new is picked before the same topic is picked again.
pub proof fn lemma_round_robin(t: TrackerView, picked: int, other: int)
    requires
        t.wf(),
        t.pick() == Some(picked),
        0 <= other < t.topics.len(),
        other != picked,
        t.topics[other].has_data(),
    ensures
        t.after_pick(picked).wf(),
        t.after_pick(picked).pick() is Some,
        t.after_pick(picked).pick() != Some(picked),
{
    let after = t.after_pick(picked);
    let n = t.topics.len() as int;
    lemma_first_with_data(t, 0);
    assert(0 <= picked < n);
    lemma_first_with_data(after, 0);
    let steps = after.steps_to_data(0);
    let target = if other >= after.next { other - after.next } else { other + n - after.next };
    assert(after.round(target) == other);
    if steps >= n {
        assert(!after.topics[after.round(target)].has_data());
    }
    if after.round(steps) == picked {
        assert(steps == n - 1);
        assert(!after.topics[after.round(target)].has_data());
    }
}

/// `steps_to_data` finds the first topic with something new: every topic
/// passed over before it has nothing new.
pub proof fn lemma_first_with_data(t: TrackerView, step: int)
    requires
        t.wf(),
        0 <= step <= t.topics.len(),
    ensures
        step <= t.steps_to_data(step) <= t.topics.len(),
        t.steps_to_data(step) < t.topics.len() ==> t.topics[t.round(
            t.steps_to_data(step),
        )].has_data(),
        forall|k: int| step <= k < t.steps_to_data(step) ==> !t.topics[#[trigger] t.round(k)].has_data(),
    decreases t.topics.len() - step,
{
    if step < t.topics.len() && !t.topics[t.round(step)].has_data() {
        lemma_first_with_data(t, step + 1);
    }
}

/// A tracker with something new to read picks something: where any topic
/// has data that the connection has not read, the search finds a topic.
pub proof fn lemma_data_is_picked(t: TrackerView, at: int)
    requires
        t.wf(),
        0 <= at < t.topics.len(),
        t.topics[at].has_data(),
    ensures
        t.pick() is Some,
{
    lemma_first_with_data(t, 0);
    let n = t.topics.len() as int;
    let k = if at >= t.next {
        at - t.next
    } else {
        at + n - t.next
    };
    assert(t.round(k) == at);
    if t.steps_to_data(0) >= n {
        assert(!t.topics[t.round(k)].has_data());
    }
}

/// The place of a topic among the followed topics depends on the topics'
/// names alone.
pub proof fn lemma_index_of_topic_by_topics(
    a: Seq<InterestView>,
    b: Seq<InterestView>,
    topic: Seq<char>,
)
    requires
        a.len() == b.len(),
        forall|k: int| 0 <= k < a.len() ==> (#[trigger] a[k]).request.topic == b[k].request.topic,
    ensures
        index_of_topic(a, topic) == index_of_topic(b, topic),
    decreases a.len(),
{
    if a.len() > 0 {
        assert forall|k: int| 0 <= k < a.drop_last().len() implies (
        #[trigger] a.drop_last()[k]).request.topic == b.drop_last()[k].request.topic by {
            assert(a[k].request.topic == b[k].request.topic);
        }
        lemma_index_of_topic_by_topics(a.drop_last(), b.drop_last(), topic);
        assert(a.last().request.topic == b.last().request.topic);
    }
}

/// A tracker that is made to follow a topic and told of the length of the
/// topic's log follows the topic and knows that length. Its request for
/// the topic is the one that it had, or one from the start of the log
/// where it did not follow the topic before.
pub proof fn lemma_follow_and_notice(t: TrackerView, topic: Seq<char>, tail: u64)
    requires
        t.wf(),
    ensures
        ({
            let r = t.with_topic(topic).noticed(topic, tail);
            &&& r.wf()
            &&& r.next == t.next
            &&& r.follows(topic)
            &&& r.interest(topic).tail == tail
            &&& r.interest(topic).request == (if t.follows(topic) {
                t.interest(topic).request
            } else {
                DataRequestView { topic, cursors: super::origin(), max_count: 100 }
            })
        }),
{
    let joined = t.with_topic(topic);
    let r = joined.noticed(topic, tail);
    lemma_index_of_topic(t.topics, topic);
    if !t.follows(topic) {
        assert(joined.topics.drop_last() =~= t.topics);
        assert(joined.topics.last().request.topic == topic);
        assert(index_of_topic(joined.topics, topic) == t.topics.len());
        assert forall|i: int| 0 <= i < joined.topics.len() implies (
        #[trigger] joined.topics[i]).request.cursors.len() == 3 by {
            if i < t.topics.len() {
                assert(t.topics[i].request.cursors.len() == 3);
            }
        }
    }
    assert(joined.wf());
    lemma_index_of_topic(joined.topics, topic);
    assert forall|k: int| 0 <= k < r.topics.len() implies (#[trigger] r.topics[k]).request.topic
        == joined.topics[k].request.topic by {}
    lemma_index_of_topic_by_topics(r.topics, joined.topics, topic);
    assert forall|i: int| 0 <= i < r.topics.len() implies (
    #[trigger] r.topics[i]).request.cursors.len() == 3 by {
        assert(joined.topics[i].request.cursors.len() == 3);
    }
}

/// Following a topic and being told of the length of its log leaves what a
/// tracker holds of any other topic as it was.
pub proof fn lemma_follow_and_notice_frame(
    t: TrackerView,
    topic: Seq<char>,
    tail: u64,
    other: Seq<char>,
)
    requires
        t.wf(),
        other != topic,
    ensures
        ({
            let r = t.with_topic(topic).noticed(topic, tail);
            &&& r.follows(other) == t.follows(other)
            &&& t.follows(other) ==> r.interest(other) == t.interest(other)
        }),
{
    let joined = t.with_topic(topic);
    let r = joined.noticed(topic, tail);
    lemma_follow_and_notice(t, topic, tail);
    lemma_index_of_topic(t.topics, topic);
    lemma_index_of_topic(t.topics, other);
    if !t.follows(topic) {
        assert(joined.topics.drop_last() =~= t.topics);
        assert(index_of_topic(joined.topics, other) == (if t.follows(other) {
            index_of_topic(t.topics, other)
        } else {
            joined.topics.len() as int
        }));
    }
    lemma_index_of_topic(joined.topics, topic);
    lemma_index_of_topic(joined.topics, other);
    assert forall|k: int| 0 <= k < r.topics.len() implies (#[trigger] r.topics[k]).request.topic
        == joined.topics[k].request.topic by {}
    lemma_index_of_topic_by_topics(r.topics, joined.topics, other);
    if joined.follows(other) {
        assert(index_of_topic(joined.topics, other) != index_of_topic(joined.topics, topic));
    }
}

} // verus!
