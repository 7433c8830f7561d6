//! Several ways of computing Fibonacci numbers.

use vstd::prelude::*;

verus! {

/// The Fibonacci numbers: 0, 1, 1, 2, 3, 5, ...
pub open spec fn fib(n: nat) -> nat
    decreases n,
{
    if n == 0 {
        0
    } else if n == 1 {
        1
    } else {
        fib((n - 2) as nat) + fib((n - 1) as nat)
    }
}

/// What the recursive variants return: 1 for `n <= 2` (so also for 0), `fib(n)` above.
pub open spec fn fib_from_one(n: nat) -> nat {
    if n == 0 { 1 } else { fib(n) }
}

pub proof fn lemma_small_fibs()
    ensures
        fib(0) == 0,
        fib(1) == 1,
        fib(2) == 1,
        fib(3) == 2,
{
    reveal_with_fuel(fib, 4);
}

pub proof fn lemma_fib_monotonic(i: nat, j: nat)
    requires
        i <= j,
    ensures
        fib(i) <= fib(j),
    decreases j - i,
{
    if i < j {
        lemma_fib_monotonic(i, (j - 1) as nat);
        if j >= 2 {
            assert(fib(j) == fib((j - 2) as nat) + fib((j - 1) as nat));
        }
    }
}

/// Classic recursive computation.
pub fn fib_recursive1(n: u32) -> (r: u64)
    requires
        fib(n as nat) <= u64::MAX,
    ensures
        r == fib_from_one(n as nat),
    decreases n,
{
    proof {
        lemma_small_fibs();
    }
    if n <= 2 {
        return 1;
    }
    proof {
        lemma_fib_monotonic((n - 1) as nat, n as nat);
        lemma_fib_monotonic((n - 2) as nat, n as nat);
    }
    return fib_recursive1(n - 1) + fib_recursive1(n - 2);
}

/// The same recursion written as an expression.
pub fn fib_recursive2(n: u32) -> (r: u64)
    requires
        fib(n as nat) <= u64::MAX,
    ensures
        r == fib_from_one(n as nat),
    decreases n,
{
    proof {
        lemma_small_fibs();
    }
    if n <= 2 {
        1
    } else {
        proof {
            lemma_fib_monotonic((n - 1) as nat, n as nat);
            lemma_fib_monotonic((n - 2) as nat, n as nat);
        }
        fib_recursive2(n - 1) + fib_recursive2(n - 2)
    }
}

/// Iterative computation with a temporary.
pub fn fib_iterative1(n: u32) -> (r: u64)
    requires
        fib(n as nat + 1) <= u64::MAX,
    ensures
        r == fib(n as nat),
{
    let ghost n0 = n as nat;
    let mut n = n;
    let mut a: u64 = 0;
    let mut b: u64 = 1;
    while n > 0
        invariant
            n <= n0,
            fib(n0 + 1) <= u64::MAX,
            a == fib((n0 - n) as nat),
            b == fib((n0 - n + 1) as nat),
        decreases n,
    {
        proof {
            lemma_fib_monotonic((n0 - n + 2) as nat, n0 + 1);
        }
        let t = a + b;
        a = b;
        b = t;
        n -= 1;
    }
    return a;
}

/// Iterative computation without a temporary.
pub fn fib_iterative2(n: u32) -> (r: u64)
    requires
        fib(n as nat + 1) <= u64::MAX,
    ensures
        r == fib(n as nat),
{
    let mut a = 0u64;
    let mut b = 1u64;
    for k in 0..n
        invariant
            fib(n as nat + 1) <= u64::MAX,
            a == fib(k as nat),
            b == fib(k as nat + 1),
    {
        proof {
            lemma_fib_monotonic(k as nat + 2, n as nat + 1);
        }
        b += a;
        a = b - a;
    }
    a
}

/// Iterative computation that starts from the third number.
pub fn fib_iterative3(n: u32) -> (r: u64)
    requires
        fib(n as nat) <= u64::MAX,
    ensures
        r == fib_from_one(n as nat),
{
    proof {
        lemma_small_fibs();
    }
    if n <= 2 {
        return 1;
    }
    let mut prev: u64 = 1;
    let mut result: u64 = 2;
    for k in 3..n
        invariant
            3 <= n,
            fib(n as nat) <= u64::MAX,
            prev == fib((k - 1) as nat),
            result == fib(k as nat),
    {
        proof {
            lemma_fib_monotonic(k as nat + 1, n as nat);
        }
        let prev_prev = prev;
        prev = result;
        result = prev + prev_prev;
    }
    result
}

/// Iterative computation without the initial test.
pub fn fib_iterative4(n: u32) -> (r: u64)
    requires
        n >= 2 ==> fib(n as nat + 1) <= u64::MAX,
    ensures
        r == fib_from_one(n as nat),
{
    proof {
        lemma_small_fibs();
    }
    let mut a_1: u64 = 1;
    let mut a: u64 = 2;
    if n > 2 {
        for k in 2..n
            invariant
                2 <= n,
                fib(n as nat + 1) <= u64::MAX,
                2 <= k,
                a_1 == fib(k as nat),
                a == fib(k as nat + 1),
        {
            proof {
                lemma_fib_monotonic(k as nat + 2, n as nat + 1);
            }
            let a_2 = a_1;
            a_1 = a;
            a = a_2 + a_1;
        }
    }
    a_1
}

/// Iterative computation by exchange-and-add on 64-bit words, which wraps around
/// like the x86 `xadd` instruction: the result is `fib(n)` modulo 2^64.
pub fn fib_iterative_asm(n: u32) -> (r: u64)
    ensures
        r == fib(n as nat) % 0x1_0000_0000_0000_0000,
{
    proof {
        lemma_small_fibs();
    }
    let mut a: u64 = 0;
    let mut b: u64 = 1;
    for k in 0..n
        invariant
            a == fib(k as nat) % 0x1_0000_0000_0000_0000,
            k == 0 ==> b == 1,
            k > 0 ==> b == fib((k - 1) as nat) % 0x1_0000_0000_0000_0000,
    {
        let t = a.wrapping_add(b);
        proof {
            let m: int = 0x1_0000_0000_0000_0000;
            assert(t == (a + b) % m);
            if k == 0 {
                assert(fib(1) == 1);
            } else {
                assert(fib(k as nat + 1) == fib((k - 1) as nat) + fib(k as nat));
                vstd::arithmetic::div_mod::lemma_add_mod_noop(fib((k - 1) as nat) as int, fib(k as nat) as int, m);
            }
        }
        b = a;
        a = t;
    }
    a
}

} // verus!
