//! The candidate cache: the candidate set as text, and back.
//!
//! The text is the exponents in decimal, one per line. Reading is more
//! lenient than writing: any run of blanks, tabs and line ends separates two
//! numbers, and it may also stand before the first and after the last.

use crate::candidates::{is_candidate_set, lemma_candidate_set_unique};
use vstd::prelude::*;

verus! {

/// Whether `b` separates numbers: a blank, a tab, or one of the bytes that
/// end a line or a page.
pub open spec fn is_space(b: u8) -> bool {
    b == 32 || (9 <= b <= 13)
}

/// Whether `b` is a decimal digit.
pub open spec fn is_digit(b: u8) -> bool {
    48 <= b <= 57
}

/// The digit `d` as a byte of text.
pub open spec fn digit(d: nat) -> u8 {
    (48 + d) as u8
}

/// The number `n` in decimal, without leading zeros.
pub open spec fn decimal(n: nat) -> Seq<u8>
    decreases n,
{
    if n < 10 {
        seq![digit(n)]
    } else {
        decimal(n / 10).push(digit(n % 10))
    }
}

/// The text of the cache for the exponents `primes`: each in decimal, with
/// a line feed between one and the next and none at the end.
pub open spec fn cache_text(primes: Seq<u32>) -> Seq<u8>
    decreases primes.len(),
{
    if primes.len() == 0 {
        Seq::empty()
    } else if primes.len() == 1 {
        decimal(primes[0] as nat)
    } else {
        cache_text(primes.drop_last()) + seq![10u8] + decimal(primes.last() as nat)
    }
}

/// How far a reader has come.
pub enum Scan {
    /// The text read so far is not a list of numbers.
    Failed,
    /// The reader stands between two numbers; it holds the numbers read.
    Between(Seq<u32>),
    /// The reader stands inside a number; it holds the numbers read before
    /// and the value of the digits read of this one.
    Within(Seq<u32>, nat),
}

impl Scan {
    /// The reader after the byte `b`. A digit adds to the number at hand, as
    /// long as the number still fits in 32 bits; a separator ends it; any
    /// other byte, and a number that does not fit, make the text invalid for
    /// good.
    pub open spec fn feed(self, b: u8) -> Scan {
        match self {
            Scan::Failed => Scan::Failed,
            Scan::Between(done) => if is_space(b) {
                self
            } else if is_digit(b) {
                Scan::Within(done, (b - 48) as nat)
            } else {
                Scan::Failed
            },
            Scan::Within(done, value) => if is_space(b) {
                Scan::Between(done.push(value as u32))
            } else if is_digit(b) && 10 * value + (b - 48) <= u32::MAX {
                Scan::Within(done, (10 * value + (b - 48)) as nat)
            } else {
                Scan::Failed
            },
        }
    }

    /// The reader after the bytes of `text`, one after the other.
    pub open spec fn feed_all(self, text: Seq<u8>) -> Scan
        decreases text.len(),
    {
        if text.len() == 0 {
            self
        } else {
            self.feed_all(text.drop_last()).feed(text.last())
        }
    }

    /// What the reader has if the text ends here.
    pub open spec fn finish(self) -> Option<Seq<u32>> {
        match self {
            Scan::Failed => None,
            Scan::Between(done) => Some(done),
            Scan::Within(done, value) => Some(done.push(value as u32)),
        }
    }
}

/// The numbers that `text` lists, if it is a list of numbers: decimal
/// numbers that fit in 32 bits, with separators between them and possibly
/// around them.
pub open spec fn cache_values(text: Seq<u8>) -> Option<Seq<u32>> {
    Scan::Between(Seq::empty()).feed_all(text).finish()
}

/// Appends `n` in decimal to `out`.
pub fn push_decimal(out: &mut Vec<u8>, n: u32)
    ensures
        final(out)@ == old(out)@ + decimal(n as nat),
    decreases n,
{
    if n >= 10 {
        push_decimal(out, n / 10);
    }
    out.push(48 + (n % 10) as u8);
    proof {
        if n >= 10 {
            assert(final(out)@ =~= old(out)@ + decimal(n as nat));
        } else {
            assert(final(out)@ =~= old(out)@ + decimal(n as nat));
        }
    }
}

/// Writes the exponents as the text of the cache.
pub fn serialize_candidates(primes: &Vec<u32>) -> (text: Vec<u8>)
    ensures
        text@ == cache_text(primes@),
{
    let mut text: Vec<u8> = Vec::new();
    let mut i: usize = 0;
    assert(primes@.take(0) =~= Seq::<u32>::empty());
    while i < primes.len()
        invariant
            i <= primes.len(),
            text@ == cache_text(primes@.take(i as int)),
        decreases primes.len() - i,
    {
        if i > 0 {
            text.push(10);
        }
        push_decimal(&mut text, primes[i]);
        proof {
            let now = primes@.take(i + 1);
            assert(now.drop_last() =~= primes@.take(i as int));
            assert(now.last() == primes@[i as int]);
            if i > 0 {
                assert(text@ =~= cache_text(now.drop_last()) + seq![10u8] + decimal(
                    now.last() as nat,
                ));
            } else {
                assert(text@ =~= decimal(now[0] as nat));
            }
        }
        i += 1;
    }
    assert(primes@.take(i as int) =~= primes@);
    text
}

/// Reads the text of a cache. The result is the list of the numbers in the
/// text, or `None` where the text is not a list of numbers: where it holds
/// a byte that is neither a digit nor a separator, or a number too large
/// for 32 bits.
pub fn parse_candidates(text: &[u8]) -> (primes: Option<Vec<u32>>)
    ensures
        match primes {
            Some(v) => cache_values(text@) == Some(v@),
            None => cache_values(text@) is None,
        },
{
    let mut done: Vec<u32> = Vec::new();
    let mut value: Option<u32> = None;
    let mut i: usize = 0;
    assert(text@.take(0) =~= Seq::<u8>::empty());
    while i < text.len()
        invariant
            i <= text.len(),
            Scan::Between(Seq::empty()).feed_all(text@.take(i as int)) == (match value {
                Some(v) => Scan::Within(done@, v as nat),
                None => Scan::Between(done@),
            }),
        decreases text.len() - i,
    {
        let b = text[i];
        proof {
            assert(text@.take(i + 1).drop_last() =~= text@.take(i as int));
            assert(text@.take(i + 1).last() == b);
        }
        if b == 32 || (9 <= b && b <= 13) {
            if let Some(v) = value {
                done.push(v);
                value = None;
            }
        } else if 48 <= b && b <= 57 {
            let d: u32 = (b - 48) as u32;
            match value {
                None => {
                    value = Some(d);
                },
                Some(v) => {
                    if v > (u32::MAX - d) / 10 {
                        proof {
                            lemma_failure_is_final(
                                Scan::Between(Seq::empty()).feed_all(text@.take(i + 1)),
                                text@.skip(i + 1),
                            );
                            lemma_feed_all_concat(
                                Scan::Between(Seq::empty()),
                                text@.take(i + 1),
                                text@.skip(i + 1),
                            );
                            assert(text@.take(i + 1) + text@.skip(i + 1) =~= text@);
                        }
                        return None;
                    }
                    value = Some(10 * v + d);
                },
            }
        } else {
            proof {
                lemma_failure_is_final(
                    Scan::Between(Seq::empty()).feed_all(text@.take(i + 1)),
                    text@.skip(i + 1),
                );
                lemma_feed_all_concat(
                    Scan::Between(Seq::empty()),
                    text@.take(i + 1),
                    text@.skip(i + 1),
                );
                assert(text@.take(i + 1) + text@.skip(i + 1) =~= text@);
            }
            return None;
        }
        i += 1;
    }
    assert(text@.take(i as int) =~= text@);
    if let Some(v) = value {
        done.push(v);
    }
    Some(done)
}

/// The number that `text` holds, if it holds exactly one, possibly with
/// separators around it.
pub open spec fn single_value(text: Seq<u8>) -> Option<u32> {
    match cache_values(text) {
        Some(values) => if values.len() == 1 {
            Some(values[0])
        } else {
            None
        },
        None => None,
    }
}

/// Reads one number, as a line of input gives it: in decimal, possibly with
/// separators around it. The result is `None` where the text holds no
/// number, more than one, or anything else.
pub fn parse_number(text: &[u8]) -> (number: Option<u32>)
    ensures
        number == single_value(text@),
{
    match parse_candidates(text) {
        Some(values) => if values.len() == 1 {
            Some(values[0])
        } else {
            None
        },
        None => None,
    }
}

/// Reading two texts one after the other is reading them joined.
pub proof fn lemma_feed_all_concat(state: Scan, a: Seq<u8>, b: Seq<u8>)
    ensures
        state.feed_all(a + b) == state.feed_all(a).feed_all(b),
    decreases b.len(),
{
    if b.len() == 0 {
        assert(a + b =~= a);
    } else {
        assert((a + b).drop_last() =~= a + b.drop_last());
        lemma_feed_all_concat(state, a, b.drop_last());
    }
}

/// A text that has gone wrong stays wrong, whatever follows.
pub proof fn lemma_failure_is_final(state: Scan, text: Seq<u8>)
    requires
        state is Failed,
    ensures
        state.feed_all(text) is Failed,
    decreases text.len(),
{
    if text.len() > 0 {
        lemma_failure_is_final(state, text.drop_last());
    }
}

/// A reader that stands between two numbers and is given a number in
/// decimal then stands inside a number, with that value.
pub proof fn lemma_decimal_reads_back(done: Seq<u32>, n: nat)
    requires
        n <= u32::MAX,
    ensures
        Scan::Between(done).feed_all(decimal(n)) == Scan::Within(done, n),
    decreases n,
{
    let start = Scan::Between(done);
    if n < 10 {
        assert(decimal(n).drop_last() =~= Seq::<u8>::empty());
        assert(start.feed_all(decimal(n).drop_last()) == start);
    } else {
        lemma_decimal_reads_back(done, n / 10);
        assert(decimal(n).drop_last() =~= decimal(n / 10));
        assert(decimal(n).last() == digit(n % 10));
    }
}

/// Reading gives back what writing was given: the text of the cache for a
/// list of exponents lists exactly those exponents.
pub proof fn lemma_parse_inverts_serialize(primes: Seq<u32>)
    ensures
        cache_values(cache_text(primes)) == Some(primes),
{
    if primes.len() > 0 {
        lemma_text_ends_within(primes);
        assert(primes.drop_last().push(primes.last()) =~= primes);
    }
}

/// After the text of a cache that is not empty the reader stands inside
/// the last number.
pub proof fn lemma_text_ends_within(primes: Seq<u32>)
    requires
        primes.len() > 0,
    ensures
        Scan::Between(Seq::empty()).feed_all(cache_text(primes)) == Scan::Within(
            primes.drop_last(),
            primes.last() as nat,
        ),
    decreases primes.len(),
{
    let start = Scan::Between(Seq::<u32>::empty());
    if primes.len() == 1 {
        lemma_decimal_reads_back(Seq::empty(), primes[0] as nat);
        assert(primes.drop_last() =~= Seq::<u32>::empty());
    } else {
        let front = primes.drop_last();
        let head = cache_text(front);
        lemma_text_ends_within(front);
        assert((head + seq![10u8]).drop_last() =~= head);
        assert(front.drop_last().push(front.last()) =~= front);
        assert(start.feed_all(head + seq![10u8]) == Scan::Between(front));
        lemma_decimal_reads_back(front, primes.last() as nat);
        lemma_feed_all_concat(start, head + seq![10u8], decimal(primes.last() as nat));
    }
}

/// Two runs of the sieve with the same bound write the same cache, byte
/// for byte.
pub proof fn lemma_cache_is_reproducible(a: Seq<u32>, b: Seq<u32>, bound: int)
    requires
        is_candidate_set(a, bound),
        is_candidate_set(b, bound),
    ensures
        cache_text(a) == cache_text(b),
{
    lemma_candidate_set_unique(a, b, bound);
}

} // verus!
