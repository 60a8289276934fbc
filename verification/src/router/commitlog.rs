//! The log of one topic: every payload ever published on it, in the order
//! of arrival, kept in segments of a fixed number of payloads.

use super::payload_views;
use crate::buffer::{bytes_clone, bytes_contents};
use bytes::Bytes;
use vstd::prelude::*;

verus! {

/// The number of payloads in a segment where nothing else is asked for.
pub const DEFAULT_SEGMENT_SIZE: usize = 10_000;

/// A run of consecutive payloads of a log.
#[derive(Debug)]
pub struct Segment {
    /// The offset of the segment's first payload.
    pub(crate) base_offset: u64,
    /// The payloads, oldest first.
    pub(crate) payloads: Vec<Bytes>,
}

/// A place in a log: the index of a segment and the offset of the next
/// payload to read, counted from the start of the log.
pub type Cursor = (u64, u64);

/// The log of one topic.
#[derive(Debug)]
pub struct CommitLog {
    /// How many payloads a segment holds before the next one is begun.
    pub(crate) segment_size: usize,
    /// The segments, oldest first. There is always at least one.
    pub(crate) segments: Vec<Segment>,
}

/// The payloads of a run of segments, oldest first.
pub closed spec fn payloads_of(segments: Seq<Segment>) -> Seq<Seq<u8>>
    decreases segments.len(),
{
    if segments.len() == 0 {
        Seq::empty()
    } else {
        payloads_of(segments.drop_last()) + payload_views(segments.last().payloads@)
    }
}

impl View for CommitLog {
    type V = Seq<Seq<u8>>;

    closed spec fn view(&self) -> Seq<Seq<u8>> {
        payloads_of(self.segments@)
    }
}

/// What a read returns, as a value: the payloads, the place behind the
/// last of them, and whether that place is the end of the log.
#[verifier::ext_equal]
pub struct Batch {
    pub payloads: Seq<Seq<u8>>,
    pub next: Cursor,
    pub done: bool,
}

/// The smaller of two numbers.
pub open spec fn at_most(a: int, b: int) -> int {
    if a <= b {
        a
    } else {
        b
    }
}

impl CommitLog {
    /// The offset behind segment `k`'s last payload.
    pub closed spec fn end_of(&self, k: int) -> int {
        self.segments@[k].base_offset + self.segments@[k].payloads@.len()
    }

    /// How many segments the log has.
    pub closed spec fn segment_count(&self) -> int {
        self.segments@.len() as int
    }

    /// How many payloads a segment holds.
    pub closed spec fn spec_segment_size(&self) -> int {
        self.segment_size as int
    }

    /// Whether the log is in order: its segments follow one another
    /// without gap from offset 0, every segment but the last is full, and
    /// no offset is beyond what 64 bits can count.
    pub closed spec fn wf(&self) -> bool {
        &&& self.segment_size > 0
        &&& self.segments@.len() > 0
        &&& self.segments@[0].base_offset == 0
        &&& forall|k: int|
            0 <= k < self.segments@.len() - 1 ==> #[trigger] self.end_of(k) == self.segments@[k
                + 1].base_offset
        &&& forall|k: int|
            0 <= k < self.segments@.len() - 1 ==> (
            #[trigger] self.segments@[k]).payloads@.len() == self.segment_size
        &&& self.segments@.last().payloads@.len() <= self.segment_size
        &&& self.end_of(self.segments@.len() - 1) <= u64::MAX
    }

    /// Whether a cursor names a place in the log: a segment that the log
    /// has, and an offset from the segment's first payload up to right
    /// behind its last.
    pub closed spec fn names(&self, cursor: Cursor) -> bool {
        &&& cursor.0 < self.segments@.len()
        &&& self.segments@[cursor.0 as int].base_offset <= cursor.1 <= self.end_of(cursor.0 as int)
    }

    /// The first segment from `from` on that ends behind `offset`, or the
    /// last segment where none does: the segment in which the payload at
    /// `offset` stands or will stand.
    pub closed spec fn seek(&self, from: int, offset: int) -> int
        decreases self.segment_count() - from,
    {
        if from + 1 >= self.segment_count() || offset < self.end_of(from) {
            from
        } else {
            self.seek(from + 1, offset)
        }
    }

    /// `seek` finds segment `k` where every segment from `from` up to `k`
    /// ends at or before `offset`, and `k` ends behind it or is the last.
    proof fn lemma_seek(&self, from: int, k: int, offset: int)
        requires
            0 <= from <= k < self.segment_count(),
            forall|j: int| from <= j < k ==> #[trigger] self.end_of(j) <= offset,
            k + 1 >= self.segment_count() || offset < self.end_of(k),
        ensures
            self.seek(from, offset) == k,
        decreases k - from,
    {
        if from < k {
            assert(self.end_of(from) <= offset);
            self.lemma_seek(from + 1, k, offset);
        }
    }

    /// What reading up to `max` payloads from `cursor` returns. A cursor
    /// that names no place in the log gets nothing and is told that it is
    /// done.
    pub open spec fn batch(&self, cursor: Cursor, max: usize) -> Batch {
        if self.names(cursor) {
            let until = at_most(cursor.1 + max, self@.len() as int);
            Batch {
                payloads: self@.subrange(cursor.1 as int, until),
                next: (self.seek(cursor.0 as int, until) as u64, until as u64),
                done: until == self@.len(),
            }
        } else {
            Batch { payloads: Seq::empty(), next: cursor, done: true }
        }
    }

    /// In a log that is in order, the payloads up to and with segment `k`
    /// are as many as the segment's end says, and each payload of the
    /// segment stands in the log at its offset.
    proof fn lemma_layout(&self, k: int)
        requires
            self.wf(),
            0 <= k < self.segments@.len(),
        ensures
            payloads_of(self.segments@.take(k + 1)).len() == self.end_of(k),
            forall|p: int|
                0 <= p < self.segments@[k].payloads@.len() ==> payloads_of(
                    self.segments@.take(k + 1),
                )[self.segments@[k].base_offset + p] == bytes_contents(
                    #[trigger] self.segments@[k].payloads@[p],
                ),
        decreases k,
    {
        let upto = self.segments@.take(k + 1);
        let before = payloads_of(self.segments@.take(k));
        let here = payload_views(self.segments@[k].payloads@);
        assert(upto.drop_last() =~= self.segments@.take(k));
        assert(upto.last() == self.segments@[k]);
        assert(payloads_of(upto) == before + here);
        if k > 0 {
            self.lemma_layout(k - 1);
            assert(self.end_of(k - 1) == self.segments@[k].base_offset);
        } else {
            assert(self.segments@.take(0) =~= Seq::empty());
        }
        assert(before.len() == self.segments@[k].base_offset);
        assert forall|p: int| 0 <= p < self.segments@[k].payloads@.len() implies payloads_of(
            upto,
        )[self.segments@[k].base_offset + p] == bytes_contents(
            #[trigger] self.segments@[k].payloads@[p],
        ) by {
            assert((before + here)[before.len() + p] == here[p]);
        }
    }

    /// The payloads of the first segments of a log stand at the front of
    /// the log.
    proof fn lemma_prefix(&self, k: int)
        requires
            0 <= k < self.segments@.len(),
        ensures
            payloads_of(self.segments@.take(k + 1)).len() <= self@.len(),
            payloads_of(self.segments@.take(k + 1)) == self@.take(
                payloads_of(self.segments@.take(k + 1)).len() as int,
            ),
        decreases self.segments@.len() - k,
    {
        if k + 1 == self.segments@.len() {
            assert(self.segments@.take(k + 1) =~= self.segments@);
            assert(self@.take(self@.len() as int) =~= self@);
        } else {
            self.lemma_prefix(k + 1);
            let more = self.segments@.take(k + 2);
            assert(more.drop_last() =~= self.segments@.take(k + 1));
            let short = payloads_of(self.segments@.take(k + 1));
            let long = payloads_of(more);
            assert(short =~= long.take(short.len() as int));
            assert(long.take(short.len() as int) =~= self@.take(long.len() as int).take(
                short.len() as int,
            ));
            assert(self@.take(long.len() as int).take(short.len() as int) =~= self@.take(
                short.len() as int,
            ));
        }
    }

    /// In a log that is in order, the log is as long as its last
    /// segment's end says, and each payload of each segment stands in the
    /// log at its offset.
    proof fn lemma_places(&self, k: int, p: int)
        requires
            self.wf(),
            0 <= k < self.segment_count(),
        ensures
            self.end_of(self.segment_count() - 1) == self@.len(),
            self.end_of(k) <= self@.len(),
            0 <= p < self.segments@[k].payloads@.len() ==> self@[self.segments@[k].base_offset
                + p] == bytes_contents(self.segments@[k].payloads@[p]),
    {
        self.lemma_layout(k);
        self.lemma_prefix(k);
        self.lemma_layout(self.segments@.len() - 1);
        assert(self.segments@.take(self.segments@.len() as int) =~= self.segments@);
        if 0 <= p < self.segments@[k].payloads@.len() {
            let upto = payloads_of(self.segments@.take(k + 1));
            assert(upto[self.segments@[k].base_offset + p] == self@.take(upto.len() as int)[
                self.segments@[k].base_offset + p]);
        }
    }

    /// The start of a log is a place in it, whatever the log holds; and
    /// a cursor that names a place names an offset within the log.
    pub proof fn lemma_named(&self, cursor: Cursor)
        requires
            self.wf(),
        ensures
            self.names((0, 0)),
            self.names(cursor) ==> cursor.1 <= self@.len(),
    {
        self.lemma_places(0, 0);
        if self.names(cursor) {
            self.lemma_places(cursor.0 as int, 0);
        }
    }

    /// An empty log with segments of `segment_size` payloads.
    pub fn new(segment_size: usize) -> (log: CommitLog)
        requires
            segment_size > 0,
        ensures
            log.wf(),
            log@ == Seq::<Seq<u8>>::empty(),
            log.spec_segment_size() == segment_size,
    {
        let mut segments = Vec::new();
        segments.push(Segment { base_offset: 0, payloads: Vec::new() });
        let log = CommitLog { segment_size, segments };
        proof {
            assert(log.segments@.drop_last() =~= Seq::empty());
            assert(payloads_of(log.segments@.drop_last()) =~= Seq::empty());
            assert(log@ =~= Seq::<Seq<u8>>::empty());
        }
        log
    }

    /// How many payloads the log holds.
    pub fn len(&self) -> (n: u64)
        requires
            self.wf(),
        ensures
            n == self@.len(),
    {
        proof {
            self.lemma_places(self.segments@.len() - 1, 0);
        }
        let last = &self.segments[self.segments.len() - 1];
        last.base_offset + last.payloads.len() as u64
    }

    /// Reads up to `max` payloads from `cursor` on and returns them with
    /// the place behind the last of them and with whether that place is
    /// the end of the log. A cursor that names no place in the log gets
    /// nothing back but itself and is told that it is done.
    pub fn readv(&self, cursor: Cursor, max: usize) -> (r: (Vec<Bytes>, Cursor, bool))
        requires
            self.wf(),
        ensures
            payload_views(r.0@) == self.batch(cursor, max).payloads,
            r.1 == self.batch(cursor, max).next,
            r.2 == self.batch(cursor, max).done,
            self.names(cursor) ==> self.names(r.1),
    {
        let n = self.segments.len();
        let mut out: Vec<Bytes> = Vec::new();
        if cursor.0 >= n as u64 {
            assert(payload_views(out@) =~= Seq::empty());
            return (out, cursor, true);
        }
        let mut s = cursor.0 as usize;
        let first = &self.segments[s];
        if cursor.1 < first.base_offset || cursor.1 - first.base_offset
            > first.payloads.len() as u64 {
            assert(payload_views(out@) =~= Seq::empty());
            return (out, cursor, true);
        }
        let mut p = (cursor.1 - first.base_offset) as usize;
        let ghost until = at_most(cursor.1 + max, self@.len() as int);
        proof {
            self.lemma_places(s as int, 0);
            assert(payload_views(out@) =~= self@.subrange(cursor.1 as int, cursor.1 as int));
        }
        loop
            invariant
                self.wf(),
                n == self.segments@.len(),
                self.names(cursor),
                cursor.0 <= s < n,
                p <= self.segments@[s as int].payloads@.len(),
                out@.len() <= max,
                self.segments@[s as int].base_offset + p == cursor.1 + out@.len(),
                cursor.1 + out@.len() <= self@.len(),
                until == at_most(cursor.1 + max, self@.len() as int),
                payload_views(out@) == self@.subrange(cursor.1 as int, cursor.1 + out@.len()),
                forall|j: int| cursor.0 <= j < s ==> #[trigger] self.end_of(j) <= cursor.1 + out@.len(),
            ensures
                cursor.1 + out@.len() == until,
                s + 1 >= n || p < self.segments@[s as int].payloads@.len(),
            decreases max - out@.len(), n - s,
        {
            if p == self.segments[s].payloads.len() {
                if s + 1 < n {
                    proof {
                        assert(self.end_of(s as int) == self.segments@[s + 1].base_offset);
                        self.lemma_places(s + 1, 0);
                    }
                    s += 1;
                    p = 0;
                    continue;
                } else {
                    proof {
                        self.lemma_places(s as int, 0);
                    }
                    break;
                }
            }
            if out.len() >= max {
                break;
            }
            let ghost before = payload_views(out@);
            proof {
                self.lemma_places(s as int, p as int);
            }
            out.push(bytes_clone(&self.segments[s].payloads[p]));
            p += 1;
            proof {
                let at = cursor.1 + out@.len() - 1;
                assert(payload_views(out@) =~= before.push(self@[at]));
                assert(self@.subrange(cursor.1 as int, at + 1) =~= self@.subrange(
                    cursor.1 as int,
                    at,
                ).push(self@[at]));
            }
        }
        proof {
            self.lemma_places(s as int, 0);
            self.lemma_seek(cursor.0 as int, s as int, until);
        }
        let offset = self.segments[s].base_offset + p as u64;
        (out, (s as u64, offset), offset == self.len())
    }

    /// Appends a payload and returns its offset: the number of payloads
    /// that the log held before. Earlier payloads stay where they are. A
    /// log that holds as many payloads as 64 bits can count takes no more
    /// and says so.
    pub fn append(&mut self, payload: Bytes) -> (offset: Option<u64>)
        requires
            old(self).wf(),
        ensures
            final(self).wf(),
            final(self).spec_segment_size() == old(self).spec_segment_size(),
            old(self)@.len() < u64::MAX ==> offset == Some(next_offset(old(self)@) as u64)
                && final(self)@ == old(self)@.push(bytes_contents(payload)),
            old(self)@.len() >= u64::MAX ==> offset is None && final(self)@ == old(self)@,
            forall|cursor: Cursor| old(self).names(cursor) ==> final(self).names(cursor),
    {
        let offset = self.len();
        if offset == u64::MAX {
            return None;
        }
        let ghost before = self.segments@;
        let n = self.segments.len();
        if self.segments[n - 1].payloads.len() >= self.segment_size {
            self.segments.push(Segment { base_offset: offset, payloads: Vec::new() });
            proof {
                old(self).lemma_places(n - 1, 0);
                assert(self.segments@.drop_last() =~= before);
                assert(payload_views(self.segments@.last().payloads@) =~= Seq::empty());
                assert(self@ =~= old(self)@);
                assert forall|k: int| 0 <= k < self.segments@.len() - 1 implies #[trigger] self.end_of(
                    k,
                ) == self.segments@[k + 1].base_offset by {
                    if k < n - 1 {
                        assert(old(self).end_of(k) == before[k + 1].base_offset);
                    }
                }
                assert forall|k: int| 0 <= k < self.segments@.len() - 1 implies (
                #[trigger] self.segments@[k]).payloads@.len() == self.segment_size by {
                    if k < n - 1 {
                        assert(before[k].payloads@.len() == self.segment_size);
                    }
                }
                assert(self.wf());
                assert forall|cursor: Cursor| old(self).names(cursor) implies self.names(
                    cursor,
                ) by {
                    assert(old(self).end_of(cursor.0 as int) == self.end_of(cursor.0 as int));
                }
            }
        }
        let ghost grown = self.segments@;
        let ghost mid = *self;
        let last = self.segments.len() - 1;
        let mut segment = self.segments.remove(last);
        segment.payloads.push(payload);
        self.segments.push(segment);
        proof {
            assert(self.segments@.drop_last() =~= grown.drop_last());
            assert(payload_views(self.segments@.last().payloads@) =~= payload_views(
                grown.last().payloads@,
            ).push(bytes_contents(payload)));
            assert(self@ =~= mid@.push(bytes_contents(payload)));
            mid.lemma_places(last as int, 0);
            assert forall|k: int| 0 <= k < self.segments@.len() - 1 implies #[trigger] self.end_of(
                k,
            ) == self.segments@[k + 1].base_offset by {
                assert(mid.end_of(k) == grown[k + 1].base_offset);
            }
            assert forall|k: int| 0 <= k < self.segments@.len() - 1 implies (
            #[trigger] self.segments@[k]).payloads@.len() == self.segment_size by {
                assert(grown[k].payloads@.len() == self.segment_size);
            }
            assert(self.wf());
            assert forall|cursor: Cursor| old(self).names(cursor) implies self.names(cursor) by {
                assert(mid.names(cursor));
                assert(mid.end_of(cursor.0 as int) <= self.end_of(cursor.0 as int));
            }
        }
        Some(offset)
    }
}

/// The offset that the next payload appended to a log gets: the number of
/// payloads before it.
pub open spec fn next_offset(log: Seq<Seq<u8>>) -> int {
    log.len() as int
}

/// Offsets only grow: of two payloads appended one after the other, the
/// second gets the offset one above the first's. So no two payloads share
/// an offset, none is used again, and what stood in the log stays where it
/// stood.
pub proof fn lemma_offsets_strictly_increase(log: Seq<Seq<u8>>, first: Seq<u8>, second: Seq<u8>)
    ensures
        next_offset(log.push(first)) == next_offset(log) + 1,
        next_offset(log) < next_offset(log.push(first)),
        log.push(first).push(second)[next_offset(log)] == first,
        log.push(first).push(second)[next_offset(log.push(first))] == second,
        forall|i: int| 0 <= i < log.len() ==> log.push(first).push(second)[i] == log[i],
{
}

} // verus!
