//! The search: a pool of workers that shares one queue of exponents and
//! stops on the first prime.
//!
//! The pool is modelled as a whole. A step of the pool is one step of one
//! worker: it reads the signal, or takes an exponent, or finishes a test.
//! Which worker steps when is left to the scheduler, so whatever is proved
//! of every sequence of steps holds of every interleaving of the workers.

use crate::candidates::is_candidate_set;
use crate::certificate::lemma_verdict;
use crate::lucas_lehmer::{lucas_lehmer, mersenne_number, test_mersenne};
use crate::trial_division::is_prime;
use crate::signal::TerminationSignal;
use crate::work_queue::{lemma_work_queue_is_suffix, work_queue, WorkQueue};
use crate::worker::{Event, Exit, WorkerState};
use vstd::prelude::*;

verus! {

/// The sum of the ranks of all workers.
pub open spec fn total_rank(workers: Seq<WorkerState>) -> nat
    decreases workers.len(),
{
    if workers.len() == 0 {
        0
    } else {
        total_rank(workers.drop_last()) + workers.last().rank()
    }
}

/// Whether every exponent in `queue` is one that the test accepts: none is
/// below 2.
pub open spec fn is_admissible(queue: Seq<u32>) -> bool {
    forall|i: int| 0 <= i < queue.len() ==> #[trigger] queue[i] >= 2
}

/// Whether some worker is testing the exponent `p`.
pub open spec fn is_held(workers: Seq<WorkerState>, p: u32) -> bool {
    exists|w: int| 0 <= w < workers.len() && #[trigger] workers[w] == WorkerState::Testing(p)
}

/// A search at one moment.
pub struct SearchView {
    /// The exponents that were put into the queue, in order.
    pub queue: Seq<u32>,
    /// How many of them the queue has handed out.
    pub delivered: nat,
    /// Whether the termination signal is raised.
    pub raised: bool,
    /// The state of each worker.
    pub workers: Seq<WorkerState>,
    /// The exponents announced as found, in the order of the announcements.
    pub announced: Seq<u32>,
}

impl SearchView {
    /// The search before any worker has moved.
    pub open spec fn initial(queue: Seq<u32>, workers: nat) -> SearchView {
        SearchView {
            queue,
            delivered: 0,
            raised: false,
            workers: Seq::new(workers, |w: int| WorkerState::Idle),
            announced: Seq::empty(),
        }
    }

    /// The search after worker `w` has taken its next step. An idle worker
    /// reads the signal. A dequeuing worker takes the exponent at the front
    /// of the queue. A testing worker finishes its test; if the number is
    /// prime it raises the signal, and announces its exponent only if the
    /// signal was not raised before. A worker that has exited stays so.
    pub open spec fn advance(self, w: int) -> SearchView {
        match self.workers[w] {
            WorkerState::Idle => SearchView {
                workers: self.workers.update(w, self.workers[w].next(Event::Polled(self.raised))),
                ..self
            },
            WorkerState::Dequeuing => if self.delivered < self.queue.len() {
                SearchView {
                    delivered: self.delivered + 1,
                    workers: self.workers.update(
                        w,
                        self.workers[w].next(
                            Event::Dequeued(Some(self.queue[self.delivered as int])),
                        ),
                    ),
                    ..self
                }
            } else {
                SearchView {
                    workers: self.workers.update(w, self.workers[w].next(Event::Dequeued(None))),
                    ..self
                }
            },
            WorkerState::Testing(p) => if lucas_lehmer(p as nat) {
                SearchView {
                    raised: true,
                    workers: self.workers.update(w, self.workers[w].next(Event::Tested(true))),
                    announced: if self.raised {
                        self.announced
                    } else {
                        self.announced.push(p)
                    },
                    ..self
                }
            } else {
                SearchView {
                    workers: self.workers.update(w, self.workers[w].next(Event::Tested(false))),
                    ..self
                }
            },
            WorkerState::Exited(_) => self,
        }
    }

    /// The search after the workers named in `schedule` have each taken a
    /// step, one after the other.
    pub open spec fn run(self, schedule: Seq<int>) -> SearchView
        decreases schedule.len(),
    {
        if schedule.len() == 0 {
            self
        } else {
            self.run(schedule.drop_last()).advance(schedule.last())
        }
    }

    /// Whether every worker has exited.
    pub open spec fn all_exited(self) -> bool {
        forall|w: int| 0 <= w < self.workers.len() ==> (#[trigger] self.workers[w]).has_exited()
    }

    /// Whether the queue holds an exponent that passes the test.
    pub open spec fn has_prime(self) -> bool {
        exists|i: int| 0 <= i < self.queue.len() && lucas_lehmer(#[trigger] self.queue[i] as nat)
    }

    /// What the search has found: the announced exponent, if there is one.
    pub open spec fn outcome(self) -> Option<u32> {
        if self.announced.len() > 0 {
            Some(self.announced[0])
        } else {
            None
        }
    }

    /// An upper bound on the number of steps that the workers can still
    /// take: three for each exponent that waits in the queue, and what each
    /// worker can do without a new one.
    pub open spec fn measure(self) -> nat {
        (3 * (self.queue.len() - self.delivered) + total_rank(self.workers)) as nat
    }

    /// Whether the queue has handed out the exponent `p`.
    pub open spec fn is_delivered(self, p: u32) -> bool {
        exists|i: int| 0 <= i < self.delivered && #[trigger] self.queue[i] == p
    }

    /// Whether `schedule` names workers of this search only.
    pub open spec fn admits(self, schedule: Seq<int>) -> bool {
        forall|k: int| 0 <= k < schedule.len() ==> 0 <= #[trigger] schedule[k] < self.workers.len()
    }

    /// Whether `schedule` never asks a worker to step that has exited by
    /// then.
    pub open spec fn is_live(self, schedule: Seq<int>) -> bool
        decreases schedule.len(),
    {
        schedule.len() > 0 ==> {
            &&& self.is_live(schedule.drop_last())
            &&& !self.run(schedule.drop_last()).workers[schedule.last()].has_exited()
        }
    }

    /// What holds of a search at every moment.
    pub open spec fn inv(self) -> bool {
        &&& self.delivered <= self.queue.len()
        &&& self.announced.len() <= 1
        &&& self.raised <==> self.announced.len() == 1
        &&& self.announced.len() == 1 ==> lucas_lehmer(self.announced[0] as nat)
            && self.is_delivered(self.announced[0])
        &&& forall|w: int|
            0 <= w < self.workers.len() ==> match #[trigger] self.workers[w] {
                WorkerState::Testing(p) => self.is_delivered(p),
                WorkerState::Exited(Exit::Exhausted) => self.delivered == self.queue.len(),
                WorkerState::Exited(_) => self.raised,
                _ => true,
            }
        &&& !self.raised ==> forall|i: int|
            0 <= i < self.delivered ==> !lucas_lehmer(#[trigger] self.queue[i] as nat) || is_held(
                self.workers,
                self.queue[i],
            )
    }
}

/// Replacing one worker's state changes the total rank by the difference
/// between the ranks of the new state and the old.
pub proof fn lemma_total_rank_update(workers: Seq<WorkerState>, w: int, state: WorkerState)
    requires
        0 <= w < workers.len(),
    ensures
        total_rank(workers.update(w, state)) == total_rank(workers) - workers[w].rank()
            + state.rank(),
    decreases workers.len(),
{
    let updated = workers.update(w, state);
    if w == workers.len() - 1 {
        assert(updated.drop_last() =~= workers.drop_last());
    } else {
        assert(updated.drop_last() =~= workers.drop_last().update(w, state));
        lemma_total_rank_update(workers.drop_last(), w, state);
    }
}

/// The search starts in a state in which the invariant holds.
pub proof fn lemma_initial_inv(queue: Seq<u32>, workers: nat)
    ensures
        SearchView::initial(queue, workers).inv(),
{
}

/// No step of any worker breaks the invariant.
pub proof fn lemma_advance_preserves_inv(s: SearchView, w: int)
    requires
        s.inv(),
        0 <= w < s.workers.len(),
    ensures
        s.advance(w).inv(),
        s.advance(w).queue == s.queue,
        s.advance(w).workers.len() == s.workers.len(),
{
    let t = s.advance(w);
    assert forall|p: u32| s.is_delivered(p) implies t.is_delivered(p) by {
        let i = choose|i: int| 0 <= i < s.delivered && #[trigger] s.queue[i] == p;
        assert(t.queue[i] == p);
    }
    assert forall|p: u32|
        is_held(s.workers, p) && s.workers[w] != WorkerState::Testing(p) implies is_held(
        t.workers,
        p,
    ) by {
        let v = choose|v: int|
            0 <= v < s.workers.len() && #[trigger] s.workers[v] == WorkerState::Testing(p);
        assert(t.workers[v] == WorkerState::Testing(p));
    }
    assert forall|v: int| 0 <= v < t.workers.len() && v != w implies #[trigger] t.workers[v]
        == s.workers[v] by {}
    match s.workers[w] {
        WorkerState::Idle => {},
        WorkerState::Dequeuing => {
            if s.delivered < s.queue.len() {
                let q = s.queue[s.delivered as int];
                assert(t.workers[w] == WorkerState::Testing(q));
                assert(is_held(t.workers, q));
                assert(t.queue[s.delivered as int] == q);
                assert(t.is_delivered(q));
            }
        },
        WorkerState::Testing(p) => {
            if !t.raised {
                assert forall|i: int| 0 <= i < t.delivered implies !lucas_lehmer(
                    #[trigger] t.queue[i] as nat,
                ) || is_held(t.workers, t.queue[i]) by {
                    if lucas_lehmer(s.queue[i] as nat) {
                        assert(is_held(s.workers, s.queue[i]));
                        assert(s.queue[i] != p);
                    }
                }
            }
        },
        WorkerState::Exited(_) => {},
    }
}

/// Whatever the interleaving, the invariant holds at its end, the queue is
/// what it was and no worker has joined or left.
pub proof fn lemma_run_preserves_inv(s: SearchView, schedule: Seq<int>)
    requires
        s.inv(),
        s.admits(schedule),
    ensures
        s.run(schedule).inv(),
        s.run(schedule).queue == s.queue,
        s.run(schedule).workers.len() == s.workers.len(),
    decreases schedule.len(),
{
    if schedule.len() > 0 {
        assert(s.admits(schedule.drop_last())) by {
            assert forall|k: int| 0 <= k < schedule.drop_last().len() implies 0
                <= #[trigger] schedule.drop_last()[k] < s.workers.len() by {
                assert(schedule.drop_last()[k] == schedule[k]);
            }
        }
        lemma_run_preserves_inv(s, schedule.drop_last());
        assert(0 <= schedule[schedule.len() - 1] < s.workers.len());
        lemma_advance_preserves_inv(s.run(schedule.drop_last()), schedule.last());
    }
}

/// A step never lowers the termination signal and never takes back an
/// announcement.
pub proof fn lemma_advance_keeps_signal(s: SearchView, w: int)
    requires
        0 <= w < s.workers.len(),
    ensures
        s.raised ==> s.advance(w).raised,
        s.raised ==> s.advance(w).announced == s.announced,
        s.announced.len() <= s.advance(w).announced.len(),
        s.advance(w).announced.take(s.announced.len() as int) == s.announced,
{
    assert(s.advance(w).announced.take(s.announced.len() as int) =~= s.announced);
}

/// Once the termination signal is raised it stays raised, whatever the
/// workers do afterwards, and nothing more is announced.
pub proof fn lemma_signal_stays_raised(s: SearchView, schedule: Seq<int>)
    requires
        s.raised,
        s.admits(schedule),
    ensures
        s.run(schedule).raised,
        s.run(schedule).announced == s.announced,
        s.run(schedule).workers.len() == s.workers.len(),
    decreases schedule.len(),
{
    if schedule.len() > 0 {
        assert(s.admits(schedule.drop_last())) by {
            assert forall|k: int| 0 <= k < schedule.drop_last().len() implies 0
                <= #[trigger] schedule.drop_last()[k] < s.workers.len() by {
                assert(schedule.drop_last()[k] == schedule[k]);
            }
        }
        lemma_signal_stays_raised(s, schedule.drop_last());
        assert(0 <= schedule[schedule.len() - 1] < s.workers.len());
        lemma_advance_keeps_signal(s.run(schedule.drop_last()), schedule.last());
    }
}

/// However the workers race, a search announces at most one exponent, and
/// what it announces came out of its queue and passes the test.
pub proof fn lemma_at_most_one_announcement(queue: Seq<u32>, workers: nat, schedule: Seq<int>)
    requires
        SearchView::initial(queue, workers).admits(schedule),
    ensures
        SearchView::initial(queue, workers).run(schedule).announced.len() <= 1,
        match SearchView::initial(queue, workers).run(schedule).outcome() {
            Some(p) => queue.contains(p) && lucas_lehmer(p as nat),
            None => true,
        },
{
    let s = SearchView::initial(queue, workers);
    lemma_run_preserves_inv(s, schedule);
    lemma_outcome_is_sound(s.run(schedule));
}

/// What a search has announced came out of its queue and passes the test.
pub proof fn lemma_outcome_is_sound(s: SearchView)
    requires
        s.inv(),
    ensures
        match s.outcome() {
            Some(p) => s.queue.contains(p) && lucas_lehmer(p as nat),
            None => true,
        },
{
    if s.announced.len() > 0 {
        let i = choose|i: int| 0 <= i < s.delivered && #[trigger] s.queue[i] == s.announced[0];
        assert(s.queue[i] == s.announced[0]);
    }
}

/// What a search over exponents that can be tested has announced is an
/// exponent above 2 whose Mersenne number is prime.
pub proof fn lemma_outcome_is_mersenne_prime(s: SearchView)
    requires
        s.inv(),
        is_admissible(s.queue),
    ensures
        match s.outcome() {
            Some(p) => p > 2 && is_prime(mersenne_number(p as nat)),
            None => true,
        },
{
    if s.announced.len() > 0 {
        let i = choose|i: int| 0 <= i < s.delivered && #[trigger] s.queue[i] == s.announced[0];
        assert(s.queue[i] >= 2);
        lemma_verdict(s.announced[0] as nat);
    }
}

/// When every worker of a pool that has at least one has exited without an
/// announcement, no exponent in the queue passes the test: nothing was
/// left untested.
pub proof fn lemma_outcome_is_complete(s: SearchView)
    requires
        s.inv(),
        s.all_exited(),
        s.workers.len() > 0,
    ensures
        s.outcome() is None ==> !s.has_prime(),
{
    if s.announced.len() == 0 {
        assert(s.workers[0].has_exited());
        assert(s.delivered == s.queue.len());
        assert forall|i: int| 0 <= i < s.queue.len() implies !lucas_lehmer(
            #[trigger] s.queue[i] as nat,
        ) by {
            if is_held(s.workers, s.queue[i]) {
                let v = choose|v: int|
                    0 <= v < s.workers.len() && #[trigger] s.workers[v] == WorkerState::Testing(
                        s.queue[i],
                    );
                assert(s.workers[v].has_exited());
            }
        }
    }
}

/// Over a queue without a prime the signal is never raised, and a worker
/// that exits does so because the queue has nothing left.
pub proof fn lemma_no_prime_means_exhaustion(s: SearchView)
    requires
        s.inv(),
        !s.has_prime(),
    ensures
        !s.raised,
        s.announced.len() == 0,
        forall|w: int|
            0 <= w < s.workers.len() && (#[trigger] s.workers[w]).has_exited() ==> s.workers[w]
                == WorkerState::Exited(Exit::Exhausted),
{
    if s.raised {
        let i = choose|i: int| 0 <= i < s.delivered && #[trigger] s.queue[i] == s.announced[0];
        assert(lucas_lehmer(s.queue[i] as nat));
    }
}

/// A step of a worker that has not exited brings the search closer to its
/// end; a step of one that has exited changes nothing.
pub proof fn lemma_advance_makes_progress(s: SearchView, w: int)
    requires
        s.inv(),
        0 <= w < s.workers.len(),
    ensures
        s.workers[w].has_exited() ==> s.advance(w) == s,
        !s.workers[w].has_exited() ==> s.advance(w).measure() < s.measure(),
{
    let t = s.advance(w);
    if !s.workers[w].has_exited() {
        lemma_total_rank_update(s.workers, w, t.workers[w]);
        assert(t.workers =~= s.workers.update(w, t.workers[w]));
    }
}

/// The search cannot go on for ever: the workers can take no more steps
/// between them than the measure says, so after that many every worker has
/// exited, whether or not there was a prime to be found.
pub proof fn lemma_live_steps_are_bounded(s: SearchView, schedule: Seq<int>)
    requires
        s.inv(),
        s.admits(schedule),
        s.is_live(schedule),
    ensures
        schedule.len() + s.run(schedule).measure() <= s.measure(),
    decreases schedule.len(),
{
    if schedule.len() > 0 {
        assert(s.admits(schedule.drop_last())) by {
            assert forall|k: int| 0 <= k < schedule.drop_last().len() implies 0
                <= #[trigger] schedule.drop_last()[k] < s.workers.len() by {
                assert(schedule.drop_last()[k] == schedule[k]);
            }
        }
        lemma_live_steps_are_bounded(s, schedule.drop_last());
        lemma_run_preserves_inv(s, schedule.drop_last());
        assert(0 <= schedule[schedule.len() - 1] < s.workers.len());
        lemma_advance_makes_progress(s.run(schedule.drop_last()), schedule.last());
    }
}

/// A running search: the queue, the termination signal, the workers and
/// what has been announced.
pub struct Search {
    queue: WorkQueue,
    signal: TerminationSignal,
    workers: Vec<WorkerState>,
    announced: Vec<u32>,
}

impl View for Search {
    type V = SearchView;

    closed spec fn view(&self) -> SearchView {
        SearchView {
            queue: self.queue.enqueued(),
            delivered: self.queue.delivered(),
            raised: self.signal.raised(),
            workers: self.workers@,
            announced: self.announced@,
        }
    }
}

impl Search {
    /// Whether the search is in a state that it can have reached, with a
    /// queue that holds nothing but exponents that can be tested.
    pub closed spec fn wf(&self) -> bool {
        self.queue.wf() && self@.inv() && is_admissible(self@.queue)
    }

    /// What well-formedness says of the search as seen from outside.
    pub proof fn lemma_wf(&self)
        requires
            self.wf(),
        ensures
            self@.inv(),
            is_admissible(self@.queue),
    {
    }

    /// Sets up a search over the candidates from `start` on, with `workers`
    /// workers that have not moved yet.
    pub fn new(candidates: &Vec<u32>, start: u32, workers: u32) -> (search: Search)
        requires
            is_admissible(work_queue(candidates@, start)),
        ensures
            search.wf(),
            search@ == SearchView::initial(work_queue(candidates@, start), workers as nat),
    {
        let queue = WorkQueue::new(candidates, start);
        let signal = TerminationSignal::new();
        let mut pool: Vec<WorkerState> = Vec::new();
        let mut w: u32 = 0;
        while w < workers
            invariant
                w <= workers,
                pool@ == Seq::new(w as nat, |v: int| WorkerState::Idle),
            decreases workers - w,
        {
            pool.push(WorkerState::new());
            w += 1;
            assert(pool@ =~= Seq::new(w as nat, |v: int| WorkerState::Idle));
        }
        let search = Search { queue, signal, workers: pool, announced: Vec::new() };
        proof {
            let initial = SearchView::initial(work_queue(candidates@, start), workers as nat);
            assert(search@.announced =~= initial.announced);
            assert(search@ == initial);
            lemma_initial_inv(work_queue(candidates@, start), workers as nat);
        }
        search
    }

    /// Lets worker `w` take its next step, running the test if that is what
    /// the worker is about to do.
    pub fn advance(&mut self, w: usize)
        requires
            old(self).wf(),
            w < old(self)@.workers.len(),
        ensures
            final(self).wf(),
            final(self)@ == old(self)@.advance(w as int),
    {
        proof {
            lemma_advance_preserves_inv(self@, w as int);
            self.queue.lemma_delivered_bound();
        }
        let state = self.workers[w];
        match state {
            WorkerState::Idle => {
                let raised = self.signal.is_raised();
                self.workers[w] = state.step(Event::Polled(raised));
            },
            WorkerState::Dequeuing => {
                let item = self.queue.dequeue();
                self.workers[w] = state.step(Event::Dequeued(item));
            },
            WorkerState::Testing(p) => {
                proof {
                    let i = choose|i: int|
                        0 <= i < old(self)@.delivered && #[trigger] old(self)@.queue[i] == p;
                    assert(old(self)@.queue[i] >= 2);
                }
                let prime = test_mersenne(p);
                if self.signal.report(prime) {
                    self.announced.push(p);
                }
                self.workers[w] = state.step(Event::Tested(prime));
            },
            WorkerState::Exited(_) => {},
        }
        proof {
            assert(self@.workers =~= old(self)@.advance(w as int).workers);
            assert(self@.announced =~= old(self)@.advance(w as int).announced);
        }
    }

    /// Whether every worker has exited.
    pub fn all_exited(&self) -> (r: bool)
        ensures
            r == self@.all_exited(),
    {
        let mut w: usize = 0;
        while w < self.workers.len()
            invariant
                w <= self.workers.len(),
                forall|v: int| 0 <= v < w ==> (#[trigger] self.workers@[v]).has_exited(),
            decreases self.workers.len() - w,
        {
            if !self.workers[w].is_exited() {
                assert(!self@.workers[w as int].has_exited());
                return false;
            }
            w += 1;
        }
        true
    }

    /// The state of worker `w`.
    pub fn worker(&self, w: usize) -> (state: WorkerState)
        requires
            w < self@.workers.len(),
        ensures
            state == self@.workers[w as int],
    {
        self.workers[w]
    }

    /// What the search has found so far: the announced exponent, if any.
    pub fn found(&self) -> (r: Option<u32>)
        ensures
            r == self@.outcome(),
    {
        if self.announced.len() > 0 {
            Some(self.announced[0])
        } else {
            None
        }
    }
}

/// Whether a search over the candidates from `start` on can be run: whether
/// its queue would hold nothing but exponents that the test accepts.
pub fn is_searchable(candidates: &Vec<u32>, start: u32) -> (r: bool)
    ensures
        r == is_admissible(work_queue(candidates@, start)),
{
    let mut queue = WorkQueue::new(candidates, start);
    let ghost all = work_queue(candidates@, start);
    loop
        invariant
            all == work_queue(candidates@, start),
            queue.wf(),
            queue.enqueued() == all,
            queue.delivered() <= all.len(),
            forall|i: int| 0 <= i < queue.delivered() ==> #[trigger] all[i] >= 2,
        decreases all.len() - queue.delivered(),
    {
        let ghost at = queue.delivered() as int;
        match queue.dequeue() {
            Some(p) => {
                assert(all[at] == p);
                if p < 2 {
                    return false;
                }
            },
            None => {
                return true;
            },
        }
        proof {
            queue.lemma_delivered_bound();
        }
    }
}

/// Every search over a candidate set is one that can be run, wherever it
/// starts: the set holds no exponent below 2.
pub proof fn lemma_candidate_set_is_admissible(candidates: Seq<u32>, bound: int, start: u32)
    requires
        is_candidate_set(candidates, bound),
    ensures
        is_admissible(work_queue(candidates, start)),
{
    let queue = work_queue(candidates, start);
    lemma_work_queue_is_suffix(candidates, start);
    assert forall|i: int| 0 <= i < queue.len() implies #[trigger] queue[i] >= 2 by {
        let j = candidates.len() - queue.len() + i;
        assert(candidates.contains(candidates[j]));
    }
}

/// Whether `j` is the place of the first exponent in `queue` that passes
/// the test.
pub open spec fn is_first_prime(queue: Seq<u32>, j: int) -> bool {
    &&& 0 <= j < queue.len()
    &&& lucas_lehmer(queue[j] as nat)
    &&& forall|i: int| 0 <= i < j ==> !lucas_lehmer(#[trigger] queue[i] as nat)
}

/// Whether the search has dealt in order with the first `upto` exponents of
/// its queue: either none of them passes the test and nothing is announced,
/// or the first of them that passes is the one announced.
spec fn is_settled(s: SearchView, upto: int) -> bool {
    if s.raised {
        s.announced.len() == 1 && exists|j: int|
            0 <= j < upto && is_first_prime(s.queue, j) && #[trigger] s.queue[j] == s.announced[0]
    } else {
        forall|i: int| 0 <= i < upto ==> !lucas_lehmer(#[trigger] s.queue[i] as nat)
    }
}

/// Whether every worker is either idle or has exited.
spec fn is_at_rest(s: SearchView) -> bool {
    forall|v: int|
        0 <= v < s.workers.len() ==> #[trigger] s.workers[v] == WorkerState::Idle
            || s.workers[v].has_exited()
}

/// Whether `held` lists, in ascending order and for the exponents handed
/// out since `base` from the place `from` on, the worker that is testing
/// each.
spec fn is_holding(s: SearchView, base: int, held: Seq<int>, from: int) -> bool {
    &&& s.delivered == base + held.len()
    &&& forall|a: int, b: int| 0 <= a < b < held.len() ==> held[a] < held[b]
    &&& forall|k: int| 0 <= k < held.len() ==> 0 <= #[trigger] held[k] < s.workers.len()
    &&& forall|k: int|
        from <= k < held.len() ==> s.workers[#[trigger] held[k]] == WorkerState::Testing(
            s.queue[base + k],
        )
}

/// Searches the candidates from `start` on for an exponent whose Mersenne
/// number is prime, with a pool of `workers` workers that take turns: in
/// each round every worker in turn takes one step. A worker whose test
/// succeeds after another's has raised the signal finishes its test all the
/// same, but announces nothing. With this schedule the exponent announced
/// is the first in the queue that passes the test, and so the first above 2
/// whose Mersenne number is prime; a pool without workers finds nothing.
pub fn start_mersenne_prime_search(primes: &Vec<u32>, start: u32, workers: u32) -> (found: Option<
    u32,
>)
    requires
        is_admissible(work_queue(primes@, start)),
    ensures
        match found {
            Some(p) => p > 2 && is_prime(mersenne_number(p as nat)),
            None => true,
        },
        workers == 0 ==> found is None,
        workers > 0 ==> match found {
            Some(p) => exists|j: int|
                is_first_prime(work_queue(primes@, start), j) && #[trigger] work_queue(
                    primes@,
                    start,
                )[j] == p,
            None => forall|i: int|
                0 <= i < work_queue(primes@, start).len() ==> !lucas_lehmer(
                    #[trigger] work_queue(primes@, start)[i] as nat,
                ),
        },
{
    let mut search = Search::new(primes, start, workers);
    let n: usize = workers as usize;
    let ghost queue = work_queue(primes@, start);
    while !search.all_exited()
        invariant
            search.wf(),
            search@.queue == queue,
            search@.workers.len() == n,
            is_at_rest(search@),
            is_settled(search@, search@.delivered as int),
            n == 0 ==> search@.announced.len() == 0,
        decreases search@.measure(),
    {
        let ghost before = search@;
        let ghost live = choose|v: int| 0 <= v < n && !(#[trigger] before.workers[v]).has_exited();
        // Every worker that is still running reads the signal.
        let mut w: usize = 0;
        while w < n
            invariant
                w <= n,
                0 <= live < n,
                !before.workers[live].has_exited(),
                is_at_rest(before),
                search.wf(),
                search@.workers.len() == n,
                before.workers.len() == n,
                search@.queue == before.queue,
                search@.delivered == before.delivered,
                search@.raised == before.raised,
                search@.announced == before.announced,
                forall|v: int|
                    0 <= v < w ==> #[trigger] search@.workers[v] == before.workers[v].next(
                        Event::Polled(before.raised),
                    ),
                forall|v: int| w <= v < n ==> #[trigger] search@.workers[v] == before.workers[v],
                search@.measure() <= before.measure(),
                w > live ==> search@.measure() < before.measure(),
            decreases n - w,
        {
            proof {
                search.lemma_wf();
                lemma_advance_makes_progress(search@, w as int);
                lemma_advance_preserves_inv(search@, w as int);
            }
            search.advance(w);
            w += 1;
        }
        // Every worker that goes on takes the exponent at the front.
        let ghost polled = search@;
        let ghost mut held: Seq<int> = Seq::empty();
        w = 0;
        while w < n
            invariant
                w <= n,
                search.wf(),
                search@.workers.len() == n,
                polled.workers.len() == n,
                search@.queue == polled.queue,
                search@.raised == polled.raised,
                search@.announced == polled.announced,
                is_holding(search@, polled.delivered as int, held, 0),
                forall|k: int| 0 <= k < held.len() ==> #[trigger] held[k] < w,
                forall|v: int|
                    0 <= v < n ==> #[trigger] polled.workers[v] == WorkerState::Dequeuing
                        || polled.workers[v].has_exited(),
                forall|v: int| w <= v < n ==> #[trigger] search@.workers[v] == polled.workers[v],
                forall|v: int|
                    0 <= v < w ==> (#[trigger] search@.workers[v]).has_exited() || (
                    search@.workers[v] is Testing && held.contains(v)),
                search@.measure() <= polled.measure(),
            decreases n - w,
        {
            let ghost prev = search@;
            proof {
                search.lemma_wf();
                lemma_advance_makes_progress(search@, w as int);
                lemma_advance_preserves_inv(search@, w as int);
            }
            search.advance(w);
            proof {
                let old_held = held;
                if search@.workers[w as int] is Testing {
                    held = held.push(w as int);
                    assert(held[old_held.len() as int] == w);
                }
                assert forall|v: int| 0 <= v < w + 1 implies (#[trigger] search@.workers[v])
                    .has_exited() || (search@.workers[v] is Testing && held.contains(v)) by {
                    if v < w {
                        assert(search@.workers[v] == prev.workers[v]);
                        if !prev.workers[v].has_exited() {
                            let k = choose|k: int| 0 <= k < old_held.len() && old_held[k] == v;
                            assert(held[k] == v);
                        }
                    }
                }
                assert forall|k: int| 0 <= k < held.len() implies search@.workers[#[trigger] held[
                    k
                ]] == WorkerState::Testing(search@.queue[polled.delivered + k]) by {
                    if k < old_held.len() {
                        assert(old_held[k] < w);
                        assert(held[k] == old_held[k]);
                        assert(search@.workers[old_held[k]] == prev.workers[old_held[k]]);
                    }
                }
            }
            w += 1;
        }
        // Every worker that holds an exponent finishes its test.
        let ghost base = polled.delivered as int;
        let ghost mut tested: int = 0;
        w = 0;
        while w < n
            invariant
                w <= n,
                search.wf(),
                search@.workers.len() == n,
                search@.queue == polled.queue,
                0 <= base,
                0 <= tested <= held.len(),
                is_holding(search@, base, held, tested),
                forall|k: int| 0 <= k < tested ==> #[trigger] held[k] < w,
                forall|k: int| tested <= k < held.len() ==> #[trigger] held[k] >= w,
                forall|v: int|
                    0 <= v < w ==> #[trigger] search@.workers[v] == WorkerState::Idle
                        || search@.workers[v].has_exited(),
                forall|v: int|
                    w <= v < n ==> (#[trigger] search@.workers[v]).has_exited() || (
                    search@.workers[v] is Testing && held.contains(v)),
                is_settled(search@, base + tested),
                n == 0 ==> search@.announced.len() == 0,
                search@.measure() <= polled.measure(),
            decreases n - w,
        {
            let ghost prev = search@;
            proof {
                search.lemma_wf();
                lemma_advance_makes_progress(search@, w as int);
                lemma_advance_preserves_inv(search@, w as int);
                lemma_advance_keeps_signal(search@, w as int);
            }
            search.advance(w);
            proof {
                assert forall|v: int| 0 <= v < n && v != w implies #[trigger] search@.workers[v]
                    == prev.workers[v] by {}
                if prev.workers[w as int] is Testing {
                    let k = choose|k: int| 0 <= k < held.len() && held[k] == w;
                    assert(held[k] == w);
                    if k > tested {
                        assert(held[tested] >= w);
                    }
                    assert(k == tested);
                    let p = prev.queue[base + tested];
                    assert(prev.workers[held[tested]] == WorkerState::Testing(p));
                    if lucas_lehmer(p as nat) {
                        if !prev.raised {
                            assert(is_first_prime(search@.queue, base + tested));
                            assert(search@.queue[base + tested] == search@.announced[0]);
                        } else {
                            let j = choose|j: int|
                                0 <= j < base + tested && is_first_prime(prev.queue, j)
                                    && #[trigger] prev.queue[j] == prev.announced[0];
                            assert(search@.queue[j] == search@.announced[0]);
                        }
                    } else {
                        if prev.raised {
                            let j = choose|j: int|
                                0 <= j < base + tested && is_first_prime(prev.queue, j)
                                    && #[trigger] prev.queue[j] == prev.announced[0];
                            assert(search@.queue[j] == search@.announced[0]);
                        }
                    }
                    tested = tested + 1;
                    assert forall|k: int| tested <= k < held.len() implies #[trigger] held[k] >= w
                        + 1 by {
                        assert(held[tested - 1] < held[k]);
                    }
                } else {
                    assert(search@ == prev);
                    assert forall|k: int| tested <= k < held.len() implies #[trigger] held[k] >= w
                        + 1 by {
                        assert(prev.workers[held[k]] is Testing);
                    }
                }
                assert(is_settled(search@, base + tested));
            }
            w += 1;
        }
        proof {
            if tested < held.len() {
                assert(held[tested] >= n);
            }
        }
    }
    proof {
        search.lemma_wf();
        lemma_outcome_is_sound(search@);
        lemma_outcome_is_mersenne_prime(search@);
        if n > 0 {
            lemma_outcome_is_complete(search@);
        }
        if search@.raised {
            let j = choose|j: int|
                0 <= j < search@.delivered && is_first_prime(search@.queue, j)
                    && #[trigger] search@.queue[j] == search@.announced[0];
            assert(is_first_prime(queue, j) && queue[j] == search@.announced[0]);
        }
    }
    search.found()
}

} // verus!
