use mersenne::candidates::generate_primes;
use mersenne::search::{is_searchable, start_mersenne_prime_search, Search};
use mersenne::signal::TerminationSignal;
use mersenne::work_queue::WorkQueue;
use mersenne::worker::{Action, Event, Exit, WorkerState};

#[test]
fn thirteen_is_found_and_eleven_is_not() {
    assert_eq!(start_mersenne_prime_search(&vec![11, 13], 11, 2), Some(13));
}

#[test]
fn a_queue_without_a_prime_is_exhausted() {
    assert_eq!(start_mersenne_prime_search(&vec![11, 23, 29], 11, 2), None);
    assert_eq!(start_mersenne_prime_search(&vec![11, 23, 29], 11, 1), None);
    assert_eq!(start_mersenne_prime_search(&vec![11, 23, 29], 11, 5), None);
}

#[test]
fn an_empty_queue_is_exhausted_at_once() {
    assert_eq!(start_mersenne_prime_search(&Vec::new(), 0, 3), None);
    assert_eq!(start_mersenne_prime_search(&vec![3, 5, 7], 8, 3), None);
}

#[test]
fn candidates_below_the_start_are_not_tested() {
    let primes = vec![2, 3, 5, 7, 11, 13, 17, 19, 23, 29, 31];
    assert_eq!(start_mersenne_prime_search(&primes, 3, 1), Some(3));
    assert_eq!(start_mersenne_prime_search(&primes, 4, 1), Some(5));
    assert_eq!(start_mersenne_prime_search(&primes, 8, 2), Some(13));
    assert_eq!(start_mersenne_prime_search(&primes, 20, 4), Some(31));
    assert_eq!(start_mersenne_prime_search(&primes, 32, 4), None);
}

#[test]
fn the_first_prime_in_the_queue_wins_when_workers_take_turns() {
    let primes = vec![3, 5, 7, 13];
    for workers in [1u32, 2, 3, 4, 9] {
        assert_eq!(start_mersenne_prime_search(&primes, 0, workers), Some(3));
    }
    let primes = vec![11, 23, 29, 31, 61];
    for workers in [1u32, 2, 3, 4, 5, 6] {
        assert_eq!(start_mersenne_prime_search(&primes, 0, workers), Some(31));
    }
}

#[test]
fn exponent_two_is_passed_over() {
    assert_eq!(start_mersenne_prime_search(&vec![2], 0, 1), None);
    assert_eq!(start_mersenne_prime_search(&vec![2, 3], 2, 1), Some(3));
}

#[test]
fn a_pool_without_workers_finds_nothing() {
    assert_eq!(start_mersenne_prime_search(&vec![3, 5, 7], 0, 0), None);
}

#[test]
fn the_queue_starts_at_the_first_candidate_not_below_the_start() {
    assert_eq!(start_mersenne_prime_search(&vec![5, 3, 7], 4, 1), Some(5));
    assert_eq!(start_mersenne_prime_search(&vec![11, 3, 7], 11, 1), Some(3));
    assert_eq!(start_mersenne_prime_search(&vec![3, 11, 7], 11, 1), Some(7));
}

#[test]
fn the_first_to_finish_wins_and_the_second_is_silent() {
    let mut search = Search::new(&vec![3, 5], 0, 2);
    search.advance(0);
    search.advance(1);
    assert_eq!(search.worker(0), WorkerState::Dequeuing);
    assert_eq!(search.worker(1), WorkerState::Dequeuing);
    search.advance(0);
    search.advance(1);
    assert_eq!(search.worker(0), WorkerState::Testing(3));
    assert_eq!(search.worker(1), WorkerState::Testing(5));
    assert_eq!(search.found(), None);
    search.advance(1);
    assert_eq!(search.worker(1), WorkerState::Exited(Exit::Found));
    assert_eq!(search.found(), Some(5));
    assert!(!search.all_exited());
    search.advance(0);
    assert_eq!(search.worker(0), WorkerState::Exited(Exit::Found));
    assert_eq!(search.found(), Some(5));
    assert!(search.all_exited());
}

#[test]
fn a_test_in_progress_is_not_interrupted() {
    let mut search = Search::new(&vec![11, 13, 17], 0, 3);
    for w in 0..3 {
        search.advance(w);
        search.advance(w);
    }
    assert_eq!(search.worker(0), WorkerState::Testing(11));
    assert_eq!(search.worker(1), WorkerState::Testing(13));
    assert_eq!(search.worker(2), WorkerState::Testing(17));
    search.advance(1);
    assert_eq!(search.found(), Some(13));
    search.advance(0);
    assert_eq!(search.worker(0), WorkerState::Idle);
    search.advance(0);
    assert_eq!(search.worker(0), WorkerState::Exited(Exit::Cancelled));
    search.advance(2);
    assert_eq!(search.worker(2), WorkerState::Exited(Exit::Found));
    assert_eq!(search.found(), Some(13));
    assert!(search.all_exited());
}

#[test]
fn workers_exit_by_exhaustion_without_an_announcement() {
    let mut search = Search::new(&vec![11], 0, 2);
    let mut turn = 0;
    let mut live_steps = 0;
    while !search.all_exited() {
        if !search.worker(turn % 2).is_exited() {
            live_steps += 1;
        }
        search.advance(turn % 2);
        turn += 1;
        assert!(live_steps <= 3 * 1 + 2 * 2, "the search must end");
    }
    assert_eq!(live_steps, 7);
    assert_eq!(search.worker(0), WorkerState::Exited(Exit::Exhausted));
    assert_eq!(search.worker(1), WorkerState::Exited(Exit::Exhausted));
    assert_eq!(search.found(), None);
}

#[test]
fn a_worker_that_has_exited_stays_so() {
    let mut search = Search::new(&Vec::new(), 0, 1);
    search.advance(0);
    search.advance(0);
    assert_eq!(search.worker(0), WorkerState::Exited(Exit::Exhausted));
    search.advance(0);
    search.advance(0);
    assert_eq!(search.worker(0), WorkerState::Exited(Exit::Exhausted));
    assert_eq!(search.found(), None);
}

#[test]
fn the_signal_is_raised_once_and_for_all() {
    let mut signal = TerminationSignal::new();
    assert!(!signal.is_raised());
    assert!(signal.raise());
    assert!(signal.is_raised());
    assert!(!signal.raise());
    assert!(signal.is_raised());
    assert!(!signal.raise());
    assert!(signal.is_raised());
}

#[test]
fn the_queue_hands_out_each_exponent_once_in_order() {
    let mut queue = WorkQueue::new(&vec![2, 3, 5, 7, 11], 4);
    assert_eq!(queue.remaining(), 3);
    assert_eq!(queue.dequeue(), Some(5));
    assert_eq!(queue.dequeue(), Some(7));
    assert_eq!(queue.remaining(), 1);
    assert_eq!(queue.dequeue(), Some(11));
    assert_eq!(queue.dequeue(), None);
    assert_eq!(queue.dequeue(), None);
    assert_eq!(queue.remaining(), 0);
}

#[test]
fn the_queue_skips_only_the_leading_candidates_below_the_start() {
    let mut queue = WorkQueue::new(&vec![1, 9, 2, 8], 5);
    assert_eq!(queue.dequeue(), Some(9));
    assert_eq!(queue.dequeue(), Some(2));
    assert_eq!(queue.dequeue(), Some(8));
    assert_eq!(queue.dequeue(), None);
    let mut queue = WorkQueue::new(&vec![1, 2, 3], 4);
    assert_eq!(queue.dequeue(), None);
    let mut queue = WorkQueue::new(&vec![4, 5], 4);
    assert_eq!(queue.dequeue(), Some(4));
}

#[test]
fn a_worker_goes_round_until_it_exits() {
    let idle = WorkerState::new();
    assert_eq!(idle, WorkerState::Idle);
    assert_eq!(idle.action(), Action::Poll);
    let dequeuing = idle.step(Event::Polled(false));
    assert_eq!(dequeuing, WorkerState::Dequeuing);
    assert_eq!(dequeuing.action(), Action::Dequeue);
    let testing = dequeuing.step(Event::Dequeued(Some(11)));
    assert_eq!(testing, WorkerState::Testing(11));
    assert_eq!(testing.action(), Action::Test(11));
    assert_eq!(testing.step(Event::Tested(false)), WorkerState::Idle);
    let found = testing.step(Event::Tested(true));
    assert_eq!(found, WorkerState::Exited(Exit::Found));
    assert_eq!(found.action(), Action::Stop);
    assert!(found.is_exited());
    assert!(!testing.is_exited());
}

#[test]
fn a_worker_exits_on_cancellation_and_on_exhaustion() {
    assert_eq!(WorkerState::Idle.step(Event::Polled(true)), WorkerState::Exited(Exit::Cancelled));
    assert_eq!(
        WorkerState::Dequeuing.step(Event::Dequeued(None)),
        WorkerState::Exited(Exit::Exhausted)
    );
}

#[test]
fn the_signal_moves_only_an_idle_worker() {
    assert_eq!(WorkerState::Dequeuing.step(Event::Polled(true)), WorkerState::Dequeuing);
    assert_eq!(WorkerState::Testing(7).step(Event::Polled(true)), WorkerState::Testing(7));
}

#[test]
fn an_event_out_of_turn_changes_nothing() {
    assert_eq!(WorkerState::Idle.step(Event::Tested(true)), WorkerState::Idle);
    assert_eq!(WorkerState::Idle.step(Event::Dequeued(Some(3))), WorkerState::Idle);
    assert_eq!(WorkerState::Testing(7).step(Event::Dequeued(None)), WorkerState::Testing(7));
    for exit in [Exit::Found, Exit::Exhausted, Exit::Cancelled] {
        let exited = WorkerState::Exited(exit);
        assert_eq!(exited.step(Event::Polled(false)), exited);
        assert_eq!(exited.step(Event::Dequeued(Some(3))), exited);
        assert_eq!(exited.step(Event::Tested(true)), exited);
    }
}

#[test]
fn only_the_first_success_is_announced() {
    let mut signal = TerminationSignal::new();
    assert!(!signal.report(false));
    assert!(!signal.is_raised());
    assert!(signal.report(true));
    assert!(signal.is_raised());
    assert!(!signal.report(true));
    assert!(!signal.report(false));
    assert!(signal.is_raised());
}

#[test]
fn exponents_below_two_cannot_be_searched() {
    assert!(is_searchable(&vec![2, 3, 5], 0));
    assert!(is_searchable(&Vec::new(), 0));
    assert!(!is_searchable(&vec![1, 2, 3], 0));
    assert!(!is_searchable(&vec![0], 0));
    assert!(!is_searchable(&vec![3, 1], 2));
    assert!(is_searchable(&vec![1, 2, 3], 2));
    assert!(is_searchable(&vec![0, 1], 2));
}

#[test]
fn what_is_found_is_a_mersenne_prime() {
    let primes = generate_primes(200, 4);
    let mut start = 0;
    let mut found = Vec::new();
    while let Some(p) = start_mersenne_prime_search(&primes, start, 3) {
        found.push(p);
        start = p + 1;
    }
    assert_eq!(found, vec![3, 5, 7, 13, 17, 19, 31, 61, 89, 107, 127]);
}
