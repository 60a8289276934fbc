//! The queue of connections that wait for their next batch of data.

use std::collections::VecDeque;
use vstd::prelude::*;

verus! {

/// Connections that have data pending and are ready to take it, first
/// come first served. A connection stands in the queue at most once.
#[derive(Debug)]
pub struct ReadyQueue {
    pub(crate) queue: VecDeque<usize>,
}

impl View for ReadyQueue {
    type V = Seq<usize>;

    closed spec fn view(&self) -> Seq<usize> {
        self.queue@
    }
}

/// The first place at which `id` stands in `ids`, or the length of `ids`
/// where it stands nowhere.
pub open spec fn place_of(ids: Seq<usize>, id: usize) -> int
    decreases ids.len(),
{
    if ids.len() == 0 {
        0
    } else if ids[0] == id {
        0
    } else {
        1 + place_of(ids.skip(1), id)
    }
}

/// `place_of` is within the queue exactly where the queue holds the id,
/// and then it is the first place that holds it.
pub proof fn lemma_place_of(ids: Seq<usize>, id: usize)
    ensures
        0 <= place_of(ids, id) <= ids.len(),
        ids.contains(id) <==> place_of(ids, id) < ids.len(),
        place_of(ids, id) < ids.len() ==> ids[place_of(ids, id)] == id,
        forall|j: int| 0 <= j < place_of(ids, id) ==> ids[j] != id,
    decreases ids.len(),
{
    if ids.len() > 0 && ids[0] != id {
        let rest = ids.skip(1);
        lemma_place_of(rest, id);
        assert forall|j: int| 0 <= j < place_of(ids, id) implies ids[j] != id by {
            if j > 0 {
                assert(rest[j - 1] == ids[j]);
            }
        }
        if ids.contains(id) {
            let i = choose|i: int| 0 <= i < ids.len() && ids[i] == id;
            assert(rest[i - 1] == id);
        }
        if place_of(rest, id) < rest.len() {
            assert(ids[place_of(rest, id) + 1] == id);
        }
    } else if ids.len() > 0 {
        assert(ids[0] == id);
    }
}

impl ReadyQueue {
    /// Whether no connection stands in the queue twice.
    pub open spec fn wf(&self) -> bool {
        self@.no_duplicates()
    }

    /// An empty queue.
    pub fn new() -> (queue: ReadyQueue)
        ensures
            queue.wf(),
            queue@ == Seq::<usize>::empty(),
    {
        ReadyQueue { queue: VecDeque::new() }
    }

    /// How many connections wait.
    pub fn len(&self) -> (n: usize)
        ensures
            n == self@.len(),
    {
        self.queue.len()
    }

    /// The place of `id` in the queue, or the queue's length where it is
    /// not in it.
    fn place(&self, id: usize) -> (at: usize)
        ensures
            at == place_of(self@, id),
            at <= self@.len(),
    {
        let mut i: usize = 0;
        proof {
            lemma_place_of(self@, id);
        }
        while i < self.queue.len()
            invariant
                i <= self.queue@.len(),
                forall|j: int| 0 <= j < i ==> self.queue@[j] != id,
            decreases self.queue@.len() - i,
        {
            if self.queue[i] == id {
                proof {
                    lemma_place_of(self@, id);
                    let at = place_of(self@, id);
                    if at < i {
                        assert(self@[at] == id);
                    }
                }
                return i;
            }
            i += 1;
        }
        proof {
            lemma_place_of(self@, id);
            let at = place_of(self@, id);
            if at < self@.len() {
                assert(self@[at] == id);
            }
        }
        i
    }

    /// Whether the connection waits in the queue.
    pub fn contains(&self, id: usize) -> (found: bool)
        ensures
            found == self@.contains(id),
    {
        proof {
            lemma_place_of(self@, id);
        }
        self.place(id) < self.queue.len()
    }

    /// Puts the connection at the back of the queue, unless it waits in
    /// the queue already.
    pub fn push(&mut self, id: usize)
        requires
            old(self).wf(),
        ensures
            final(self).wf(),
            final(self)@ == (if old(self)@.contains(id) {
                old(self)@
            } else {
                old(self)@.push(id)
            }),
    {
        if !self.contains(id) {
            self.queue.push_back(id);
            assert forall|i: int, j: int|
                0 <= i < self@.len() && 0 <= j < self@.len() && i != j implies self@[i]
                != self@[j] by {
                if i < old(self)@.len() && j < old(self)@.len() {
                    assert(old(self)@[i] != old(self)@[j]);
                } else if i < old(self)@.len() {
                    assert(old(self)@.contains(old(self)@[i]));
                } else {
                    assert(old(self)@.contains(old(self)@[j]));
                }
            }
        }
    }

    /// Takes the connection at the front off the queue.
    pub fn pop(&mut self) -> (front: Option<usize>)
        requires
            old(self).wf(),
        ensures
            final(self).wf(),
            match front {
                Some(id) => old(self)@.len() > 0 && id == old(self)@[0] && final(self)@ == old(
                    self,
                )@.skip(1),
                None => old(self)@.len() == 0 && final(self)@ == old(self)@,
            },
    {
        let front = self.queue.pop_front();
        proof {
            if front is Some {
                assert(self@ =~= old(self)@.skip(1));
                assert forall|i: int, j: int|
                    0 <= i < self@.len() && 0 <= j < self@.len() && i != j implies self@[i]
                    != self@[j] by {
                    assert(old(self)@[i + 1] != old(self)@[j + 1]);
                }
            }
        }
        front
    }

    /// Takes the connection out of the queue, wherever it waits in it.
    pub fn remove(&mut self, id: usize)
        requires
            old(self).wf(),
        ensures
            final(self).wf(),
            !final(self)@.contains(id),
            final(self)@ == (if old(self)@.contains(id) {
                old(self)@.remove(place_of(old(self)@, id))
            } else {
                old(self)@
            }),
    {
        proof {
            lemma_place_of(self@, id);
        }
        let at = self.place(id);
        if at < self.queue.len() {
            let _ = self.queue.remove(at);
            proof {
                let before = old(self)@;
                assert forall|i: int, j: int|
                    0 <= i < self@.len() && 0 <= j < self@.len() && i != j implies self@[i]
                    != self@[j] by {
                    let oi = if i < at { i } else { i + 1 };
                    let oj = if j < at { j } else { j + 1 };
                    assert(before[oi] != before[oj]);
                }
                if self@.contains(id) {
                    let k = choose|k: int| 0 <= k < self@.len() && self@[k] == id;
                    let ok = if k < at { k } else { k + 1 };
                    assert(before[ok] == before[at as int]);
                }
            }
        }
    }
}

/// The queue is fair: a connection that joins a queue of `n` others is
/// served right after those `n`, in the order in which they joined.
pub proof fn lemma_served_in_turn(queue: Seq<usize>, id: usize)
    requires
        !queue.contains(id),
    ensures
        queue.push(id).take(queue.len() as int) == queue,
        queue.push(id)[queue.len() as int] == id,
        place_of(queue.push(id), id) == queue.len(),
{
    assert(queue.push(id).take(queue.len() as int) =~= queue);
    lemma_place_of(queue.push(id), id);
    let at = place_of(queue.push(id), id);
    if at < queue.len() {
        assert(queue[at] == id);
    }
}

} // verus!
