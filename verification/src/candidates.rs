//! The candidate set: the exponents worth testing, in ascending order.
//!
//! The range below the bound is split among workers by residue class. Each
//! worker sieves its own class; the hits of all of them are gathered in
//! whatever order they arrive and sorted once at the end.

use crate::trial_division::{
    is_prime, lemma_trial_division_decides_primality, passes_trial_division, prime_sieve,
};
use vstd::arithmetic::div_mod::lemma_mod_pos_bound;
use vstd::prelude::*;
use vstd::seq_lib::to_multiset_len;

verus! {

/// The number of workers of a pool that was not told otherwise.
pub const DEFAULT_WORKERS: u32 = 8;

/// The bound of the candidate set that is kept in the cache.
pub const CACHE_BOUND: u32 = 25_000_000;

/// No element is greater than a later one.
pub open spec fn ascending(s: Seq<u32>) -> bool {
    forall|i: int, j: int| 0 <= i < j < s.len() ==> s[i] <= s[j]
}

/// Every element is smaller than every later one, so nothing occurs twice.
pub open spec fn strictly_ascending(s: Seq<u32>) -> bool {
    forall|i: int, j: int| 0 <= i < j < s.len() ==> s[i] < s[j]
}

/// Whether `x` belongs to the candidate set for `bound`: 2 always does, and
/// so does every number from 3 up to but excluding `bound` that passes
/// trial division.
pub open spec fn is_candidate(x: int, bound: int) -> bool {
    x == 2 || (3 <= x < bound && passes_trial_division(x))
}

/// Whether `s` is the candidate set for `bound`: strictly ascending, and
/// holding the candidates and nothing else.
pub open spec fn is_candidate_set(s: Seq<u32>, bound: int) -> bool {
    &&& strictly_ascending(s)
    &&& forall|x: u32| #[trigger] s.contains(x) <==> is_candidate(x as int, bound)
}

/// Whether `x` is a hit of the worker `index` out of `workers`: a number in
/// that worker's residue class, from 3 up to but excluding `bound`, that
/// passes trial division.
pub open spec fn is_hit(x: int, bound: int, workers: int, index: int) -> bool {
    3 <= x < bound && x % workers == index && passes_trial_division(x)
}

/// Whether `x` is a hit of one of the first `done` workers out of `workers`.
pub open spec fn is_early_hit(x: int, bound: int, workers: int, done: int) -> bool {
    3 <= x < bound && x % workers < done && passes_trial_division(x)
}

/// The hits of several workers laid end to end, in the order of the workers.
pub open spec fn gathered(parts: Seq<Vec<u32>>) -> Seq<u32>
    decreases parts.len(),
{
    if parts.len() == 0 {
        Seq::empty()
    } else {
        gathered(parts.drop_last()) + parts.last()@
    }
}

/// `slice::sort` on a vector of `u32`: afterwards the vector holds the same
/// elements, each as often as before, in ascending order.
#[verifier::external_body]
pub(crate) fn sort_ascending(v: &mut Vec<u32>)
    ensures
        ascending(final(v)@),
        final(v)@.to_multiset() == old(v)@.to_multiset(),
{
    v.sort();
}

/// The share of one worker: the numbers of its residue class that pass
/// trial division, found by walking the whole range in ascending order.
pub fn sieve_partition(bound: u32, workers: u32, index: u32) -> (hits: Vec<u32>)
    requires
        workers > 0,
    ensures
        strictly_ascending(hits@),
        forall|x: u32|
            #[trigger] hits@.contains(x) <==> is_hit(
                x as int,
                bound as int,
                workers as int,
                index as int,
            ),
{
    let mut hits: Vec<u32> = Vec::new();
    let mut x: u32 = 3;
    while x < bound
        invariant
            workers > 0,
            3 <= x,
            strictly_ascending(hits@),
            forall|i: int| 0 <= i < hits@.len() ==> hits@[i] < x,
            forall|y: u32|
                #[trigger] hits@.contains(y) <==> y < x && is_hit(
                    y as int,
                    bound as int,
                    workers as int,
                    index as int,
                ),
        decreases bound - x,
    {
        let ghost before = hits@;
        let mut hit = false;
        if x % workers == index {
            if prime_sieve(x) {
                hits.push(x);
                hit = true;
            }
        }
        proof {
            assert forall|y: u32|
                #[trigger] hits@.contains(y) <==> y < x + 1 && is_hit(
                    y as int,
                    bound as int,
                    workers as int,
                    index as int,
                ) by {
                if hit {
                    assert(hits@ == before.push(x));
                    assert(hits@[before.len() as int] == x);
                    if before.contains(y) {
                        let i = choose|i: int| 0 <= i < before.len() && before[i] == y;
                        assert(hits@[i] == y);
                    }
                }
            }
        }
        x += 1;
    }
    hits
}

/// Gathers the hits of all workers behind the number 2, which no worker
/// reports, and sorts the whole. The result is the ascending arrangement of
/// exactly those numbers, each as often as it was handed in: as many as all
/// the workers found, and one more.
pub fn collect_candidates(parts: &Vec<Vec<u32>>) -> (primes: Vec<u32>)
    ensures
        ascending(primes@),
        primes@.to_multiset() == (seq![2u32] + gathered(parts@)).to_multiset(),
        primes@.len() == 1 + gathered(parts@).len(),
{
    let mut primes: Vec<u32> = Vec::new();
    primes.push(2);
    let mut i: usize = 0;
    assert(parts@.take(0) =~= Seq::<Vec<u32>>::empty());
    while i < parts.len()
        invariant
            i <= parts.len(),
            primes@ == seq![2u32] + gathered(parts@.take(i as int)),
        decreases parts.len() - i,
    {
        let part = &parts[i];
        let mut j: usize = 0;
        while j < part.len()
            invariant
                i < parts.len(),
                part@ == parts@[i as int]@,
                j <= part.len(),
                primes@ == seq![2u32] + gathered(parts@.take(i as int)) + part@.take(j as int),
            decreases part.len() - j,
        {
            primes.push(part[j]);
            proof {
                assert(part@.take(j + 1) =~= part@.take(j as int).push(part@[j as int]));
            }
            j += 1;
        }
        proof {
            assert(part@.take(j as int) =~= part@);
            assert(parts@.take(i + 1).drop_last() =~= parts@.take(i as int));
        }
        i += 1;
    }
    assert(parts@.take(i as int) =~= parts@);
    let ghost unsorted = primes@;
    sort_ascending(&mut primes);
    proof {
        to_multiset_len(unsorted);
        to_multiset_len(primes@);
    }
    primes
}

/// The candidate set for `bound`: 2, and after it every number from 3 up to
/// but excluding `bound` that passes trial division, which are the primes in
/// that range, in ascending order. The range is sieved in `workers` shares,
/// one residue class each, and the shares are gathered and sorted; the
/// result does not depend on `workers`.
pub fn generate_primes(bound: u32, workers: u32) -> (primes: Vec<u32>)
    requires
        workers > 0,
    ensures
        is_candidate_set(primes@, bound as int),
        forall|x: u32| #[trigger]
            primes@.contains(x) <==> x == 2 || (x < bound && is_prime(x as int)),
{
    let mut parts: Vec<Vec<u32>> = Vec::new();
    let mut index: u32 = 0;
    while index < workers
        invariant
            index <= workers,
            workers > 0,
            is_sieved(parts@, bound as int, workers as int, index as int),
        decreases workers - index,
    {
        let hits = sieve_partition(bound, workers, index);
        parts.push(hits);
        index += 1;
    }
    let primes = collect_candidates(&parts);
    proof {
        lemma_sorted_shares_are_the_candidate_set(primes@, parts@, bound as int, workers as int);
        lemma_candidate_set_holds_the_primes(primes@, bound as int);
    }
    primes
}

/// Whether `parts` holds the shares of the first `done` workers out of
/// `workers`, each strictly ascending and holding that worker's hits and
/// nothing else.
pub open spec fn is_sieved(parts: Seq<Vec<u32>>, bound: int, workers: int, done: int) -> bool {
    &&& parts.len() == done
    &&& forall|k: int| 0 <= k < done ==> strictly_ascending(#[trigger] parts[k]@)
    &&& forall|k: int, x: u32|
        0 <= k < done ==> (#[trigger] parts[k]@.contains(x) <==> is_hit(
            x as int,
            bound,
            workers,
            k,
        ))
}

/// Splitting the range by residue class neither loses nor repeats a number:
/// when every worker has sieved its share, the shares laid end to end hold
/// each number of the range that passes trial division exactly once.
pub proof fn lemma_shares_cover_the_range(parts: Seq<Vec<u32>>, bound: int, workers: int, done: int)
    requires
        workers > 0,
        0 <= done <= workers,
        is_sieved(parts, bound, workers, done),
    ensures
        gathered(parts).no_duplicates(),
        forall|x: u32|
            #[trigger] gathered(parts).contains(x) <==> is_early_hit(
                x as int,
                bound,
                workers,
                done,
            ),
    decreases done,
{
    assert forall|x: u32| 0 <= #[trigger] ((x as int) % workers) < workers by {
        lemma_mod_pos_bound(x as int, workers);
    }
    if done == 0 {
        assert(gathered(parts) =~= Seq::<u32>::empty());
    } else {
        let front = parts.drop_last();
        let back = parts[done - 1]@;
        assert(is_sieved(front, bound, workers, done - 1)) by {
            assert forall|k: int| 0 <= k < done - 1 implies front[k] == parts[k] by {}
        }
        lemma_shares_cover_the_range(front, bound, workers, done - 1);
        let head = gathered(front);
        let all = head + back;
        assert(gathered(parts) == all);
        assert(strictly_ascending(back));
        assert forall|x: u32| #[trigger]
            back.contains(x) <==> is_hit(x as int, bound, workers, done - 1) by {
            assert(parts[done - 1]@.contains(x) <==> is_hit(x as int, bound, workers, done - 1));
        }
        assert forall|i: int, j: int| 0 <= i < j < all.len() implies all[i] != all[j] by {
            if j >= head.len() {
                let y = back[j - head.len()];
                assert(all[j] == y);
                assert(back.contains(y));
                assert((y as int) % workers == done - 1);
                if i < head.len() {
                    assert(all[i] == head[i]);
                    assert(head.contains(all[i]));
                } else {
                    assert(all[i] == back[i - head.len()]);
                }
            } else {
                assert(all[i] == head[i] && all[j] == head[j]);
            }
        }
        assert forall|x: u32|
            #[trigger] all.contains(x) <==> is_early_hit(x as int, bound, workers, done) by {
            if head.contains(x) {
                let i = choose|i: int| 0 <= i < head.len() && head[i] == x;
                assert(all[i] == x);
            }
            if back.contains(x) {
                let i = choose|i: int| 0 <= i < back.len() && back[i] == x;
                assert(all[head.len() + i] == x);
            }
            if all.contains(x) {
                let i = choose|i: int| 0 <= i < all.len() && all[i] == x;
                if i < head.len() {
                    assert(head[i] == x);
                    assert(head.contains(x));
                } else {
                    assert(back[i - head.len()] == x);
                    assert(back.contains(x));
                }
            }
        }
    }
}

/// The core of the parallel sieve: however many workers share the range,
/// the ascending arrangement of 2 and all their hits is the candidate set.
pub proof fn lemma_sorted_shares_are_the_candidate_set(
    primes: Seq<u32>,
    parts: Seq<Vec<u32>>,
    bound: int,
    workers: int,
)
    requires
        workers > 0,
        is_sieved(parts, bound, workers, workers),
        ascending(primes),
        primes.to_multiset() == (seq![2u32] + gathered(parts)).to_multiset(),
    ensures
        is_candidate_set(primes, bound),
{
    broadcast use vstd::seq_lib::group_to_multiset_ensures;

    let hits = gathered(parts);
    let all = seq![2u32] + hits;
    lemma_shares_cover_the_range(parts, bound, workers, workers);
    assert forall|i: int, j: int| 0 <= i < j < all.len() implies all[i] != all[j] by {
        assert(all[j] == hits[j - 1]);
        assert(hits.contains(all[j]));
        if i > 0 {
            assert(all[i] == hits[i - 1]);
        }
    }
    all.lemma_multiset_has_no_duplicates();
    primes.lemma_multiset_has_no_duplicates_conv();
    assert forall|i: int, j: int| 0 <= i < j < primes.len() implies primes[i] < primes[j] by {}
    assert forall|x: u32| #[trigger] primes.contains(x) <==> is_candidate(x as int, bound) by {
        assert(primes.contains(x) <==> primes.to_multiset().count(x) > 0);
        assert(all.contains(x) <==> all.to_multiset().count(x) > 0);
        lemma_mod_pos_bound(x as int, workers);
        if hits.contains(x) {
            let i = choose|i: int| 0 <= i < hits.len() && hits[i] == x;
            assert(all[i + 1] == x);
        }
        if x == 2 {
            assert(all[0] == x);
        }
        if all.contains(x) {
            let i = choose|i: int| 0 <= i < all.len() && all[i] == x;
            if i > 0 {
                assert(hits[i - 1] == x);
            }
        }
    }
}

/// The candidate set holds 2 and the primes below the bound: trial
/// division lets through no composite number and holds back no prime but 2,
/// which is put in by hand. For a bound above 2 that is the set of the
/// primes below the bound.
pub proof fn lemma_candidate_set_holds_the_primes(s: Seq<u32>, bound: int)
    requires
        is_candidate_set(s, bound),
    ensures
        forall|x: u32| #[trigger] s.contains(x) <==> x == 2 || (x < bound && is_prime(x as int)),
        bound > 2 ==> forall|x: u32| #[trigger] s.contains(x) <==> x < bound && is_prime(x as int),
{
    assert forall|x: u32| #[trigger]
        s.contains(x) <==> x == 2 || (x < bound && is_prime(x as int)) by {
        if x >= 3 {
            lemma_trial_division_decides_primality(x as int);
        }
    }
}

/// A strictly ascending sequence is determined by its elements: two such
/// sequences with the same elements are equal.
pub proof fn lemma_strictly_ascending_unique(a: Seq<u32>, b: Seq<u32>)
    requires
        strictly_ascending(a),
        strictly_ascending(b),
        forall|x: u32|
            #![trigger a.contains(x)]
            #![trigger b.contains(x)]
            a.contains(x) <==> b.contains(x),
    ensures
        a == b,
    decreases a.len(),
{
    if a.len() == 0 {
        if b.len() > 0 {
            assert(b.contains(b[0]));
        }
        assert(a =~= b);
    } else {
        let top = a.last();
        assert(a.contains(top));
        assert(b.contains(top));
        let k = choose|k: int| 0 <= k < b.len() && b[k] == top;
        if k < b.len() - 1 {
            assert(b.contains(b.last()));
            let i = choose|i: int| 0 <= i < a.len() && a[i] == b.last();
            assert(false);
        }
        let a0 = a.drop_last();
        let b0 = b.drop_last();
        assert forall|x: u32|
            #![trigger a0.contains(x)]
            #![trigger b0.contains(x)]
            a0.contains(x) <==> b0.contains(x) by {
            if a0.contains(x) {
                let i = choose|i: int| 0 <= i < a0.len() && a0[i] == x;
                assert(a[i] == x);
                assert(a.contains(x));
                let j = choose|j: int| 0 <= j < b.len() && b[j] == x;
                assert(b0[j] == x);
            }
            if b0.contains(x) {
                let j = choose|j: int| 0 <= j < b0.len() && b0[j] == x;
                assert(b[j] == x);
                assert(b.contains(x));
                let i = choose|i: int| 0 <= i < a.len() && a[i] == x;
                assert(a0[i] == x);
            }
        }
        lemma_strictly_ascending_unique(a0, b0);
        assert(a =~= a0.push(top));
        assert(b =~= b0.push(top));
    }
}

/// The candidate set depends on the bound alone. Two runs of the sieve with
/// the same bound give the same sequence, whatever number of workers each
/// run used.
pub proof fn lemma_candidate_set_unique(a: Seq<u32>, b: Seq<u32>, bound: int)
    requires
        is_candidate_set(a, bound),
        is_candidate_set(b, bound),
    ensures
        a == b,
{
    lemma_strictly_ascending_unique(a, b);
}

} // verus!
