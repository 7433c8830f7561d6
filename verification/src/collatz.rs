//! Collatz (hailstone) sequences: length and maximum with a memo table, and trajectory scans.

use vstd::prelude::*;
use std::collections::HashMap;

verus! {

broadcast use vstd::std_specs::hash::group_hash_axioms;

/// The successor of `n` in the hailstone sequence.
pub open spec fn collatz_next(n: int) -> int {
    if n % 2 == 0 { n / 2 } else { 3 * n + 1 }
}

/// The sequence from `n` reaches 1 within `k` steps and every value on the way fits in a `u128`.
pub open spec fn reaches_one(n: int, k: nat) -> bool
    decreases k,
{
    if n == 1 {
        true
    } else if k == 0 {
        false
    } else {
        &&& 1 <= n <= u128::MAX
        &&& collatz_next(n) <= u128::MAX
        &&& reaches_one(collatz_next(n), (k - 1) as nat)
    }
}

/// The sequence from `n` reaches 1 with every value fitting in a `u128`.
pub open spec fn terminates(n: int) -> bool {
    exists|k: nat| reaches_one(n, k)
}

/// Length (number of values, both ends counted) of the sequence from `n`, following at most `k` steps.
pub open spec fn len_within(n: int, k: nat) -> nat
    decreases k,
{
    if n == 1 || k == 0 { 1 } else { len_within(collatz_next(n), (k - 1) as nat) + 1 }
}

/// Largest value of the sequence from `n`, following at most `k` steps.
pub open spec fn max_within(n: int, k: nat) -> int
    decreases k,
{
    if n == 1 || k == 0 {
        n
    } else {
        let m = max_within(collatz_next(n), (k - 1) as nat);
        if n >= m { n } else { m }
    }
}

/// The first value above `threshold` that the scan from `n` meets before reaching 1, or 0.
pub open spec fn first_above_within(n: int, threshold: int, k: nat) -> int
    decreases k,
{
    if n == 1 || k == 0 {
        0
    } else if n > threshold {
        n
    } else {
        first_above_within(collatz_next(n), threshold, (k - 1) as nat)
    }
}

/// `x` is met on the sequence from `n`, following at most `k` steps.
pub open spec fn visits_within(n: int, x: int, k: nat) -> bool
    decreases k,
{
    if n == x {
        true
    } else if n == 1 || k == 0 {
        false
    } else {
        visits_within(collatz_next(n), x, (k - 1) as nat)
    }
}

/// A number of steps within which the sequence from `n` reaches 1.
pub open spec fn steps(n: int) -> nat {
    choose|k: nat| reaches_one(n, k)
}

/// Number of values in the sequence from `n` down to 1.
pub open spec fn collatz_len(n: int) -> nat {
    len_within(n, steps(n))
}

/// Largest value in the sequence from `n` down to 1.
pub open spec fn collatz_max(n: int) -> int {
    max_within(n, steps(n))
}

/// First value of the sequence from `n` (not counting the final 1) above `threshold`, or 0.
pub open spec fn collatz_first_above(n: int, threshold: int) -> int {
    first_above_within(n, threshold, steps(n))
}

/// `x` is a value of the sequence from `n` down to 1.
pub open spec fn visits(n: int, x: int) -> bool {
    visits_within(n, x, steps(n))
}

/// Every entry of the memo table holds the length and maximum of its sequence.
pub open spec fn memo_valid(memo: Map<u128, (u128, u128)>) -> bool {
    forall|k: u128| #[trigger] memo.contains_key(k) ==> terminates(k as int) && memo[k].0 == collatz_len(k as int)
        && memo[k].1 == collatz_max(k as int)
}

/// Once the sequence has reached 1, more steps change nothing.
pub proof fn lemma_more_steps(n: int, k: nat, k2: nat)
    requires
        reaches_one(n, k),
        k <= k2,
    ensures
        reaches_one(n, k2),
        len_within(n, k) == len_within(n, k2),
        max_within(n, k) == max_within(n, k2),
        forall|t: int| first_above_within(n, t, k) == #[trigger] first_above_within(n, t, k2),
        forall|x: int| visits_within(n, x, k) == #[trigger] visits_within(n, x, k2),
    decreases k,
{
    if n != 1 {
        let m = collatz_next(n);
        lemma_more_steps(m, (k - 1) as nat, (k2 - 1) as nat);
        assert forall|x: int| visits_within(n, x, k) == #[trigger] visits_within(n, x, k2) by {
            assert(visits_within(m, x, (k - 1) as nat) == visits_within(m, x, (k2 - 1) as nat));
        }
        assert forall|t: int| first_above_within(n, t, k) == #[trigger] first_above_within(n, t, k2) by {
            assert(first_above_within(m, t, (k - 1) as nat) == first_above_within(m, t, (k2 - 1) as nat));
        }
    }
}

/// The measures of `n` in terms of those of its successor.
pub proof fn lemma_unfold(n: int)
    requires
        terminates(n),
        n != 1,
    ensures
        terminates(collatz_next(n)),
        1 <= n <= u128::MAX,
        collatz_next(n) <= u128::MAX,
        collatz_len(n) == collatz_len(collatz_next(n)) + 1,
        collatz_max(n) == if n >= collatz_max(collatz_next(n)) { n } else { collatz_max(collatz_next(n)) },
        forall|t: int| #[trigger] collatz_first_above(n, t) == if n > t { n } else { collatz_first_above(collatz_next(n), t) },
        forall|x: int| #[trigger] visits(n, x) == (n == x || visits(collatz_next(n), x)),
{
    let k = steps(n);
    let m = collatz_next(n);
    assert(reaches_one(m, (k - 1) as nat));
    let j = steps(m);
    if j <= (k - 1) as nat {
        lemma_more_steps(m, j, (k - 1) as nat);
    } else {
        lemma_more_steps(m, (k - 1) as nat, j);
    }
    assert forall|t: int| #[trigger] collatz_first_above(n, t) == if n > t { n } else { collatz_first_above(m, t) } by {
        assert(first_above_within(m, t, (k - 1) as nat) == first_above_within(m, t, j));
    }
    assert forall|x: int| #[trigger] visits(n, x) == (n == x || visits(m, x)) by {
        assert(visits_within(m, x, (k - 1) as nat) == visits_within(m, x, j));
    }
}

/// The sequence from 1 is just 1.
pub proof fn lemma_one()
    ensures
        terminates(1),
        collatz_len(1) == 1,
        collatz_max(1) == 1,
        forall|t: int| #[trigger] collatz_first_above(1, t) == 0,
{
    assert(reaches_one(1, 0));
}

/// Length and largest value of the hailstone sequence from `n` down to 1, using and
/// extending the memo table `memo`.
pub fn collatz_info(n: u128, memo: &mut HashMap<u128, (u128, u128)>) -> (r: (u128, u128))
    requires
        terminates(n as int),
        collatz_len(n as int) <= u128::MAX,
        memo_valid(old(memo)@),
    ensures
        r.0 == collatz_len(n as int),
        r.1 == collatz_max(n as int),
        memo_valid(final(memo)@),
        forall|k: u128| #[trigger] old(memo)@.contains_key(k) ==> final(memo)@.contains_key(k)
            && final(memo)@[k] == old(memo)@[k],
        forall|k: u128| #[trigger] final(memo)@.contains_key(k) && !old(memo)@.contains_key(k)
            ==> k != 1 && visits(n as int, k as int),
        n != 1 ==> final(memo)@.contains_key(n),
    decreases collatz_len(n as int),
{
    proof {
        lemma_one();
    }
    if n == 1 {
        return (1, 1);
    }
    match memo.get(&n) {
        Some(entry) => {
            return *entry;
        },
        None => {},
    }
    proof {
        lemma_unfold(n as int);
    }
    let next = if n % 2 == 0 { n / 2 } else { 3 * n + 1 };
    let ghost mid = memo@;
    let (sub_len, sub_max) = collatz_info(next, memo);
    proof {
        assert(!mid.contains_key(n));
    }
    let current_max = if n >= sub_max { n } else { sub_max };
    let current_len = sub_len + 1;
    memo.insert(n, (current_len, current_max));
    (current_len, current_max)
}

/// The scan over the sequence from `start` that the search for a first value above
/// `threshold` runs: `Some((first, max))` with the first value above `threshold` met before
/// reaching 1 (0 if none) and the largest value, or `None` if the sequence does not reach 1
/// within `fuel` steps without a value overflowing a `u128`.
pub fn trajectory_stats(start: u128, threshold: u128, fuel: u64) -> (r: Option<(u128, u128)>)
    ensures
        r is Some <==> reaches_one(start as int, fuel as nat),
        r matches Some((first, max)) ==> terminates(start as int)
            && first == collatz_first_above(start as int, threshold as int)
            && max == collatz_max(start as int),
{
    let mut n = start;
    let mut local_max = start;
    let mut first_above_threshold: u128 = 0;
    let mut left: u64 = fuel;
    proof {
        lemma_one();
    }
    while n != 1
        invariant
            reaches_one(start as int, fuel as nat) <==> reaches_one(n as int, left as nat),
            reaches_one(n as int, left as nat) ==> {
                &&& terminates(start as int)
                &&& terminates(n as int)
                &&& collatz_max(start as int) == if local_max >= collatz_max(n as int) { local_max as int } else { collatz_max(n as int) }
                &&& collatz_first_above(start as int, threshold as int) == if first_above_threshold != 0 {
                    first_above_threshold as int
                } else {
                    collatz_first_above(n as int, threshold as int)
                }
                &&& local_max >= 1
            },
        decreases left,
    {
        if left == 0 || n == 0 {
            return None;
        }
        if n % 2 == 1 && n > (u128::MAX - 1) / 3 {
            return None;
        }
        proof {
            if reaches_one(n as int, left as nat) {
                lemma_unfold(n as int);
            }
        }
        if n > local_max {
            local_max = n;
        }
        if first_above_threshold == 0 && n > threshold {
            first_above_threshold = n;
        }
        n = if n % 2 == 0 { n / 2 } else { 3 * n + 1 };
        left = left - 1;
    }
    proof {
        assert(reaches_one(n as int, left as nat));
    }
    Some((first_above_threshold, local_max))
}


/// The scan of `s` reaches 1 within `fuel` steps and meets no value above `threshold`.
pub open spec fn quiet(s: int, threshold: int, fuel: nat) -> bool {
    reaches_one(s, fuel) && collatz_first_above(s, threshold) == 0
}

/// Scans the start values `from`, `from + 1`, ... (`count` of them) for the first whose
/// sequence meets a value above `threshold` before reaching 1: `Ok(Some((start, first, max)))`
/// with that value and the sequence's largest value; `Ok(None)` when no start value of the
/// range does; `Err(start)` when the sequence of `start` does not reach 1 within `fuel` steps
/// without overflowing a `u128`.
pub fn first_start_above(from: u128, count: u64, threshold: u128, fuel: u64)
    -> (r: Result<Option<(u128, u128, u128)>, u128>)
    requires
        from + count <= u128::MAX,
    ensures
        match r {
            Ok(Some((s, f, m))) => from <= s < from + count && reaches_one(s as int, fuel as nat)
                && f == collatz_first_above(s as int, threshold as int) && f != 0
                && m == collatz_max(s as int)
                && forall|x: int| from <= x < s ==> #[trigger] quiet(x, threshold as int, fuel as nat),
            Ok(None) => forall|x: int| from <= x < from + count ==> #[trigger] quiet(x, threshold as int, fuel as nat),
            Err(s) => from <= s < from + count && !reaches_one(s as int, fuel as nat)
                && forall|x: int| from <= x < s ==> #[trigger] quiet(x, threshold as int, fuel as nat),
        },
{
    let mut i: u64 = 0;
    while i < count
        invariant
            from + count <= u128::MAX,
            i <= count,
            forall|x: int| from <= x < from + i ==> #[trigger] quiet(x, threshold as int, fuel as nat),
        decreases count - i,
    {
        let start = from + i as u128;
        match trajectory_stats(start, threshold, fuel) {
            None => {
                return Err(start);
            },
            Some((first, max)) => {
                if first != 0 {
                    return Ok(Some((start, first, max)));
                }
            },
        }
        i += 1;
    }
    Ok(None)
}

} // verus!
