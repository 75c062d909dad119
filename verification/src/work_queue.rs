//! The work queue: the candidates still to be tested, handed out in order.

use crate::candidates::ascending;
use vstd::prelude::*;

verus! {

/// The index of the first candidate at or after `from` that is not below
/// `start`, or the length of the sequence if there is none.
pub open spec fn first_at_or_above(candidates: Seq<u32>, start: u32, from: int) -> int
    decreases candidates.len() - from,
{
    if 0 <= from < candidates.len() && candidates[from] < start {
        first_at_or_above(candidates, start, from + 1)
    } else {
        from
    }
}

/// The candidates that a search from `start` works through: what is left
/// once the leading candidates below `start` are skipped.
pub open spec fn work_queue(candidates: Seq<u32>, start: u32) -> Seq<u32> {
    candidates.skip(first_at_or_above(candidates, start, 0))
}

/// Where the skipping stops: everything before that index is below `start`,
/// and the candidate at it, if there is one, is not.
pub proof fn lemma_first_at_or_above(candidates: Seq<u32>, start: u32, from: int)
    requires
        0 <= from <= candidates.len(),
    ensures
        from <= first_at_or_above(candidates, start, from) <= candidates.len(),
        forall|i: int|
            from <= i < first_at_or_above(candidates, start, from) ==> candidates[i] < start,
        ({
            let first = first_at_or_above(candidates, start, from);
            first < candidates.len() ==> candidates[first] >= start
        }),
    decreases candidates.len() - from,
{
    if from < candidates.len() && candidates[from] < start {
        lemma_first_at_or_above(candidates, start, from + 1);
    }
}

/// The work queue is a suffix of the candidates.
pub proof fn lemma_work_queue_is_suffix(candidates: Seq<u32>, start: u32)
    ensures
        work_queue(candidates, start).len() <= candidates.len(),
        forall|i: int|
            0 <= i < work_queue(candidates, start).len() ==> work_queue(candidates, start)[i]
                == candidates[candidates.len() - work_queue(candidates, start).len() + i],
{
    lemma_first_at_or_above(candidates, start, 0);
}

/// On ascending candidates the work queue holds exactly the candidates that
/// are not below `start`: no exponent under the threshold is ever handed
/// out, and none at or above it is left behind.
pub proof fn lemma_work_queue_of_ascending(candidates: Seq<u32>, start: u32)
    requires
        ascending(candidates),
    ensures
        forall|x: u32| #[trigger]
            work_queue(candidates, start).contains(x) <==> candidates.contains(x) && x >= start,
{
    let k = first_at_or_above(candidates, start, 0);
    let queue = work_queue(candidates, start);
    lemma_first_at_or_above(candidates, start, 0);
    assert forall|x: u32| #[trigger] queue.contains(x) <==> candidates.contains(x) && x
        >= start by {
        if queue.contains(x) {
            let i = choose|i: int| 0 <= i < queue.len() && queue[i] == x;
            assert(candidates[k + i] == x);
            assert(candidates[k] <= candidates[k + i] || i == 0);
        }
        if candidates.contains(x) && x >= start {
            let j = choose|j: int| 0 <= j < candidates.len() && candidates[j] == x;
            assert(j >= k);
            assert(queue[j - k] == x);
        }
    }
}

/// A queue of exponents, filled once and then only emptied from the front.
/// It remembers what it has handed out.
pub struct WorkQueue {
    items: Vec<u32>,
    next: usize,
}

impl WorkQueue {
    /// Whether the queue is in order inside.
    pub closed spec fn wf(&self) -> bool {
        self.next <= self.items.len()
    }

    /// Everything that was ever put into the queue, in order.
    pub closed spec fn enqueued(&self) -> Seq<u32> {
        self.items@
    }

    /// How many exponents the queue has handed out.
    pub closed spec fn delivered(&self) -> nat {
        self.next as nat
    }

    /// What is still waiting, in the order in which it will be handed out.
    pub open spec fn pending(&self) -> Seq<u32> {
        self.enqueued().skip(self.delivered() as int)
    }

    /// A well-formed queue has handed out no more than it was given.
    pub proof fn lemma_delivered_bound(&self)
        requires
            self.wf(),
        ensures
            self.delivered() <= self.enqueued().len(),
    {
    }

    /// Fills a queue with the candidates from the first one that is not
    /// below `start` on.
    pub fn new(candidates: &Vec<u32>, start: u32) -> (queue: WorkQueue)
        ensures
            queue.wf(),
            queue.enqueued() == work_queue(candidates@, start),
            queue.delivered() == 0,
    {
        let mut first: usize = 0;
        while first < candidates.len() && candidates[first] < start
            invariant
                first <= candidates.len(),
                first_at_or_above(candidates@, start, 0) == first_at_or_above(
                    candidates@,
                    start,
                    first as int,
                ),
            decreases candidates.len() - first,
        {
            first += 1;
        }
        let mut items: Vec<u32> = Vec::new();
        let mut i: usize = first;
        while i < candidates.len()
            invariant
                first <= i <= candidates.len(),
                items@ == candidates@.subrange(first as int, i as int),
            decreases candidates.len() - i,
        {
            items.push(candidates[i]);
            proof {
                assert(items@ =~= candidates@.subrange(first as int, i + 1));
            }
            i += 1;
        }
        proof {
            assert(items@ =~= candidates@.skip(first as int));
        }
        WorkQueue { items, next: 0 }
    }

    /// Hands out the exponent at the front, if any is left. Each exponent
    /// leaves the queue once, in the order in which it was put in.
    pub fn dequeue(&mut self) -> (item: Option<u32>)
        requires
            old(self).wf(),
        ensures
            final(self).wf(),
            final(self).enqueued() == old(self).enqueued(),
            old(self).pending().len() == 0 ==> item is None && final(self).delivered() == old(
                self,
            ).delivered(),
            old(self).pending().len() > 0 ==> item == Some(old(self).pending()[0])
                && final(self).delivered() == old(self).delivered() + 1,
    {
        if self.next < self.items.len() {
            let item = self.items[self.next];
            self.next += 1;
            Some(item)
        } else {
            None
        }
    }

    /// How many exponents are still waiting.
    pub fn remaining(&self) -> (n: usize)
        requires
            self.wf(),
        ensures
            n == self.pending().len(),
    {
        self.items.len() - self.next
    }
}

} // verus!
