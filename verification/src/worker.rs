//! One worker of the pool, as a state machine.
//!
//! A worker polls the termination signal, takes an exponent from the queue,
//! tests it, and starts over. It stops when it sees the signal raised, when
//! the queue has nothing left, or when its own test succeeds. The signal is
//! looked at only before an exponent is taken: a test, once begun, runs to
//! its end.

use vstd::prelude::*;

verus! {

/// Why a worker has stopped.
#[derive(Clone, Copy, Debug, PartialEq, Eq, Structural)]
pub enum Exit {
    /// Its own test found a prime.
    Found,
    /// The queue had nothing left to hand out.
    Exhausted,
    /// It saw the termination signal raised.
    Cancelled,
}

/// Where a worker stands.
#[derive(Clone, Copy, Debug, PartialEq, Eq, Structural)]
pub enum WorkerState {
    /// About to look at the termination signal.
    Idle,
    /// About to take an exponent from the queue.
    Dequeuing,
    /// Testing the exponent it holds.
    Testing(u32),
    /// Done, for the reason it holds.
    Exited(Exit),
}

/// What a worker has just learnt.
#[derive(Clone, Copy, Debug, PartialEq, Eq, Structural)]
pub enum Event {
    /// The termination signal was read; the value is whether it was raised.
    Polled(bool),
    /// The queue was asked; the value is what it handed out, if anything.
    Dequeued(Option<u32>),
    /// The test has ended; the value is whether the number is prime.
    Tested(bool),
}

/// What a worker in a given state has to do next.
#[derive(Clone, Copy, Debug, PartialEq, Eq, Structural)]
pub enum Action {
    /// Read the termination signal.
    Poll,
    /// Ask the queue for an exponent.
    Dequeue,
    /// Test the exponent.
    Test(u32),
    /// Return: the worker is done.
    Stop,
}

impl WorkerState {
    /// The state that follows `self` on `event`. An event that does not
    /// answer what the worker was doing leaves the state as it is.
    pub open spec fn next(self, event: Event) -> WorkerState {
        match (self, event) {
            (WorkerState::Idle, Event::Polled(true)) => WorkerState::Exited(Exit::Cancelled),
            (WorkerState::Idle, Event::Polled(false)) => WorkerState::Dequeuing,
            (WorkerState::Dequeuing, Event::Dequeued(Some(p))) => WorkerState::Testing(p),
            (WorkerState::Dequeuing, Event::Dequeued(None)) => WorkerState::Exited(Exit::Exhausted),
            (WorkerState::Testing(_), Event::Tested(true)) => WorkerState::Exited(Exit::Found),
            (WorkerState::Testing(_), Event::Tested(false)) => WorkerState::Idle,
            _ => self,
        }
    }

    /// What a worker in this state has to do next.
    pub open spec fn pending_action(self) -> Action {
        match self {
            WorkerState::Idle => Action::Poll,
            WorkerState::Dequeuing => Action::Dequeue,
            WorkerState::Testing(p) => Action::Test(p),
            WorkerState::Exited(_) => Action::Stop,
        }
    }

    /// Whether the worker has stopped.
    pub open spec fn has_exited(self) -> bool {
        self is Exited
    }

    /// How many steps the worker can still take before it needs a new
    /// exponent or stops.
    pub open spec fn rank(self) -> nat {
        match self {
            WorkerState::Testing(_) => 3,
            WorkerState::Idle => 2,
            WorkerState::Dequeuing => 1,
            WorkerState::Exited(_) => 0,
        }
    }

    /// A worker that has not started yet.
    pub fn new() -> (state: WorkerState)
        ensures
            state == WorkerState::Idle,
    {
        WorkerState::Idle
    }

    /// Moves the worker on by one event.
    pub fn step(self, event: Event) -> (state: WorkerState)
        ensures
            state == self.next(event),
    {
        match self {
            WorkerState::Idle => match event {
                Event::Polled(true) => WorkerState::Exited(Exit::Cancelled),
                Event::Polled(false) => WorkerState::Dequeuing,
                _ => self,
            },
            WorkerState::Dequeuing => match event {
                Event::Dequeued(Some(p)) => WorkerState::Testing(p),
                Event::Dequeued(None) => WorkerState::Exited(Exit::Exhausted),
                _ => self,
            },
            WorkerState::Testing(_) => match event {
                Event::Tested(true) => WorkerState::Exited(Exit::Found),
                Event::Tested(false) => WorkerState::Idle,
                _ => self,
            },
            WorkerState::Exited(_) => self,
        }
    }

    /// Tells the worker what to do next.
    pub fn action(self) -> (action: Action)
        ensures
            action == self.pending_action(),
    {
        match self {
            WorkerState::Idle => Action::Poll,
            WorkerState::Dequeuing => Action::Dequeue,
            WorkerState::Testing(p) => Action::Test(p),
            WorkerState::Exited(_) => Action::Stop,
        }
    }

    /// Whether the worker has stopped.
    pub fn is_exited(self) -> (r: bool)
        ensures
            r == self.has_exited(),
    {
        match self {
            WorkerState::Exited(_) => true,
            _ => false,
        }
    }
}

/// A worker never comes back: once it has stopped, no event moves it.
pub proof fn lemma_exit_is_final(state: WorkerState, event: Event)
    requires
        state.has_exited(),
    ensures
        state.next(event) == state,
{
}

/// The signal is looked at only by an idle worker: a worker that is taking
/// or testing an exponent is not moved by what the signal says.
pub proof fn lemma_cancellation_only_when_idle(state: WorkerState, raised: bool)
    requires
        state != WorkerState::Idle,
    ensures
        state.next(Event::Polled(raised)) == state,
{
}

} // verus!
