//! How far each replica has a topic's data, and the acknowledgements that
//! wait for the replicas to catch up.

use std::collections::VecDeque;
use vstd::prelude::*;

verus! {

/// An acknowledgement that waits: the offset that a publish was written
/// at, and the connection and packet id that it came with.
#[derive(Debug, Clone, Copy, PartialEq, Eq, Structural)]
pub struct PendingAck {
    pub offset: u64,
    pub connection: usize,
    pub pkid: u16,
}

/// Watermarks of one topic: the offsets up to which this router and its
/// two replicas have the topic's data, and the acknowledgements that wait
/// for them.
#[derive(Debug)]
pub struct Watermarks {
    /// How many replicas have to have the data before it is
    /// acknowledged: none, one or two.
    pub(crate) replicas: usize,
    /// The highest offset written here, and the highest offsets
    /// acknowledged by replica 1 and replica 2.
    pub(crate) offsets: [u64; 3],
    /// The acknowledgements that wait, oldest first.
    pub(crate) pending: VecDeque<PendingAck>,
}

/// Watermarks as a value.
#[verifier::ext_equal]
pub struct WatermarksView {
    pub replicas: usize,
    pub offsets: Seq<u64>,
    pub pending: Seq<PendingAck>,
}

impl View for Watermarks {
    type V = WatermarksView;

    closed spec fn view(&self) -> WatermarksView {
        WatermarksView {
            replicas: self.replicas,
            offsets: self.offsets@,
            pending: self.pending@,
        }
    }
}

/// How many of the first waiting acknowledgements lie at or under
/// `threshold`.
pub open spec fn ripe(pending: Seq<PendingAck>, threshold: u64) -> int
    decreases pending.len(),
{
    if pending.len() == 0 || pending[0].offset > threshold {
        0
    } else {
        1 + ripe(pending.skip(1), threshold)
    }
}

/// `ripe` counts a run at the front of the queue: it stays within the
/// queue, everything in the run lies at or under the threshold, and the
/// run ends at the first acknowledgement above it.
pub proof fn lemma_ripe(pending: Seq<PendingAck>, threshold: u64)
    ensures
        0 <= ripe(pending, threshold) <= pending.len(),
        forall|i: int| 0 <= i < ripe(pending, threshold) ==> pending[i].offset <= threshold,
        ripe(pending, threshold) < pending.len() ==> pending[ripe(pending, threshold)].offset
            > threshold,
    decreases pending.len(),
{
    if pending.len() > 0 && pending[0].offset <= threshold {
        let rest = pending.skip(1);
        lemma_ripe(rest, threshold);
        assert forall|i: int| 0 <= i < ripe(pending, threshold) implies pending[i].offset
            <= threshold by {
            if i > 0 {
                assert(rest[i - 1] == pending[i]);
            }
        }
        if ripe(pending, threshold) < pending.len() {
            assert(rest[ripe(rest, threshold)] == pending[ripe(pending, threshold)]);
        }
    }
}

impl WatermarksView {
    /// Whether the watermarks are in order: three offsets, and at most
    /// two replicas to wait for.
    pub open spec fn wf(self) -> bool {
        &&& self.offsets.len() == 3
        &&& self.replicas <= 2
    }

    /// Whether the acknowledgements wait in the order of their offsets, as
    /// they do where each was noted for a higher offset than the one
    /// before.
    pub open spec fn in_order(self) -> bool {
        forall|i: int, j: int|
            0 <= i < j < self.pending.len() ==> self.pending[i].offset < self.pending[j].offset
    }

    /// The offset up to which acknowledgements are released: the lower of
    /// the two replicas' offsets, the first replica's where only one is
    /// waited for, and this router's own where none is.
    pub open spec fn threshold(self) -> u64 {
        if self.replicas == 0 {
            self.offsets[0]
        } else if self.replicas == 1 {
            self.offsets[1]
        } else if self.offsets[1] <= self.offsets[2] {
            self.offsets[1]
        } else {
            self.offsets[2]
        }
    }

    /// The acknowledgements that are released now: the run at the front
    /// of the queue that lies at or under the threshold.
    pub open spec fn released(self) -> Seq<PendingAck> {
        self.pending.take(ripe(self.pending, self.threshold()))
    }

    /// The watermarks after the release.
    pub open spec fn after_release(self) -> WatermarksView {
        WatermarksView {
            pending: self.pending.skip(ripe(self.pending, self.threshold())),
            ..self
        }
    }

    /// The watermarks after a publish from `connection` with packet id
    /// `pkid` was written here at `offset`.
    pub open spec fn after_append(self, offset: u64, connection: usize, pkid: u16) -> WatermarksView {
        WatermarksView {
            offsets: self.offsets.update(0, offset),
            pending: self.pending.push(PendingAck { offset, connection, pkid }),
            ..self
        }
    }

    /// The watermarks after a publish that asks for no acknowledgement
    /// was written here at `offset`.
    pub open spec fn after_write(self, offset: u64) -> WatermarksView {
        WatermarksView { offsets: self.offsets.update(0, offset), ..self }
    }

    /// The watermarks after `replica` said that it has the data up to
    /// `offset`: its offset never goes back.
    pub open spec fn after_ack(self, replica: usize, offset: u64) -> WatermarksView {
        if 1 <= replica <= 2 && offset > self.offsets[replica as int] {
            WatermarksView { offsets: self.offsets.update(replica as int, offset), ..self }
        } else {
            self
        }
    }
}

impl Watermarks {
    /// Fresh watermarks of a topic whose data `replicas` replicas have to
    /// have before it is acknowledged. More than two count as two.
    pub fn new(replicas: usize) -> (w: Watermarks)
        ensures
            w@.wf(),
            w@ == (WatermarksView {
                replicas: if replicas > 2 {
                    2
                } else {
                    replicas
                },
                offsets: seq![0u64, 0u64, 0u64],
                pending: Seq::empty(),
            }),
    {
        let w = Watermarks {
            replicas: if replicas > 2 { 2 } else { replicas },
            offsets: [0; 3],
            pending: VecDeque::new(),
        };
        assert(w@.offsets =~= seq![0u64, 0u64, 0u64]);
        w
    }

    /// The offset up to which acknowledgements are released.
    pub fn threshold(&self) -> (t: u64)
        requires
            self@.wf(),
        ensures
            t == self@.threshold(),
    {
        if self.replicas == 0 {
            self.offsets[0]
        } else if self.replicas == 1 {
            self.offsets[1]
        } else if self.offsets[1] <= self.offsets[2] {
            self.offsets[1]
        } else {
            self.offsets[2]
        }
    }

    /// Notes a publish written here at `offset`: this router's offset
    /// moves there and the acknowledgement starts to wait.
    pub fn append(&mut self, offset: u64, connection: usize, pkid: u16)
        requires
            old(self)@.wf(),
        ensures
            final(self)@.wf(),
            final(self)@ == old(self)@.after_append(offset, connection, pkid),
    {
        self.offsets[0] = offset;
        self.pending.push_back(PendingAck { offset, connection, pkid });
        assert(self@.offsets =~= old(self)@.offsets.update(0, offset));
    }

    /// Notes a publish written here at `offset` that asks for no
    /// acknowledgement: this router's offset moves there.
    pub fn written(&mut self, offset: u64)
        requires
            old(self)@.wf(),
        ensures
            final(self)@.wf(),
            final(self)@ == old(self)@.after_write(offset),
    {
        self.offsets[0] = offset;
        assert(self@.offsets =~= old(self)@.offsets.update(0, offset));
        assert(self@.pending == old(self)@.pending);
    }

    /// Notes that `replica` has the data up to `offset`. The replica's
    /// offset never goes back, and a replica other than 1 and 2 changes
    /// nothing.
    pub fn ack(&mut self, replica: usize, offset: u64)
        requires
            old(self)@.wf(),
        ensures
            final(self)@.wf(),
            final(self)@ == old(self)@.after_ack(replica, offset),
    {
        if 1 <= replica && replica <= 2 && offset > self.offsets[replica] {
            self.offsets[replica] = offset;
            assert(self@.offsets =~= old(self)@.offsets.update(replica as int, offset));
        }
    }

    /// Takes every acknowledgement off the queue that need not wait any
    /// longer, oldest first: those at or under the threshold. What is
    /// above it stays.
    pub fn release(&mut self) -> (released: Vec<PendingAck>)
        requires
            old(self)@.wf(),
        ensures
            final(self)@.wf(),
            released@ == old(self)@.released(),
            final(self)@ == old(self)@.after_release(),
    {
        let threshold = self.threshold();
        let mut released: Vec<PendingAck> = Vec::new();
        let ghost all = self.pending@;
        proof {
            assert(all.skip(0) =~= all);
            assert(all.take(0) =~= released@);
        }
        while self.pending.len() > 0 && self.pending[0].offset <= threshold
            invariant
                self.replicas == old(self).replicas,
                self.offsets == old(self).offsets,
                all == old(self)@.pending,
                threshold == old(self)@.threshold(),
                released@.len() <= all.len(),
                released@ == all.take(released@.len() as int),
                self.pending@ == all.skip(released@.len() as int),
                ripe(all, threshold) == released@.len() + ripe(self.pending@, threshold),
            decreases self.pending@.len(),
        {
            let ghost before = self.pending@;
            let ghost n = released@.len() as int;
            let front = self.pending.pop_front();
            match front {
                Some(ack) => {
                    released.push(ack);
                    proof {
                        assert(ack == all[n]);
                        assert(self.pending@ =~= all.skip(n + 1));
                        assert(before.skip(1) =~= self.pending@);
                        assert(released@ =~= all.take(n + 1));
                    }
                },
                None => {},
            }
        }
        proof {
            assert(ripe(self.pending@, threshold) == 0);
        }
        released
    }
}

/// Acknowledgements are gated behind replication: whatever `release`
/// hands out was written at or under the offset that every replica waited
/// for has reached, in the order in which it was noted, and what stays
/// behind it stays as it was.
pub proof fn lemma_release_is_gated(w: WatermarksView)
    requires
        w.wf(),
    ensures
        forall|i: int| 0 <= i < w.released().len() ==> w.released()[i].offset <= w.threshold(),
        w.released() + w.after_release().pending == w.pending,
        w.after_release().pending.len() > 0 ==> w.after_release().pending[0].offset
            > w.threshold(),
{
    lemma_ripe(w.pending, w.threshold());
    assert(w.released() + w.after_release().pending =~= w.pending);
}

/// Where the acknowledgements wait in the order of their offsets, a
/// release holds nothing back that could go: everything that stays was
/// written above the offset that the replicas have reached.
pub proof fn lemma_release_is_complete(w: WatermarksView)
    requires
        w.wf(),
        w.in_order(),
    ensures
        w.after_release().in_order(),
        forall|i: int|
            0 <= i < w.after_release().pending.len() ==> w.after_release().pending[i].offset
                > w.threshold(),
{
    lemma_ripe(w.pending, w.threshold());
    let n = ripe(w.pending, w.threshold());
    assert forall|i: int| 0 <= i < w.after_release().pending.len() implies w.after_release().pending[i].offset
        > w.threshold() by {
        assert(w.after_release().pending[i] == w.pending[n + i]);
        if i > 0 {
            assert(w.pending[n].offset < w.pending[n + i].offset);
        }
    }
    assert forall|i: int, j: int| 0 <= i < j < w.after_release().pending.len() implies w.after_release().pending[i].offset
        < w.after_release().pending[j].offset by {
        assert(w.pending[n + i].offset < w.pending[n + j].offset);
    }
}

/// Without replicas nothing waits: the acknowledgement of a publish that
/// was just written is released at once, with all that waited for lower
/// offsets.
pub proof fn lemma_standalone_releases_at_once(
    w: WatermarksView,
    offset: u64,
    connection: usize,
    pkid: u16,
)
    requires
        w.wf(),
        w.replicas == 0,
        forall|i: int| 0 <= i < w.pending.len() ==> w.pending[i].offset <= offset,
    ensures
        w.after_append(offset, connection, pkid).released() == w.pending.push(
            PendingAck { offset, connection, pkid },
        ),
        w.after_append(offset, connection, pkid).after_release().pending.len() == 0,
{
    let next = w.after_append(offset, connection, pkid);
    lemma_ripe(next.pending, next.threshold());
    let n = ripe(next.pending, next.threshold());
    if n < next.pending.len() {
        assert(next.pending[n].offset <= offset);
    }
    assert(next.released() =~= next.pending);
}

} // verus!
