//! Small arithmetic exercises: sums, comparisons, leap years and receipts.

use vstd::prelude::*;

verus! {

/// Sum of `3 * x` over the even `x` in `lo..=hi`.
pub open spec fn even_triple_sum(lo: int, hi: int) -> int
    decreases hi - lo + 1,
{
    if hi < lo { 0 } else { even_triple_sum(lo, hi - 1) + if hi % 2 == 0 { 3 * hi } else { 0 } }
}

pub proof fn lemma_even_triple_sum_bound(lo: int, hi: int)
    requires
        0 <= lo,
    ensures
        0 <= even_triple_sum(lo, hi) <= 3 * (if hi < 0 { 0 } else { hi }) * (if hi < 0 { 0 } else { hi + 1 }),
    decreases hi - lo + 1,
{
    if hi >= lo {
        lemma_even_triple_sum_bound(lo, hi - 1);
        assert(3 * (if hi - 1 < 0 { 0 } else { hi - 1 }) * (if hi - 1 < 0 { 0 } else { hi }) + 3 * hi <= 3 * hi * (hi + 1))
            by (nonlinear_arith)
            requires
                hi >= 0,
        ;
    }
}

/// Adds up `3 * x` for every even `x` from `lo` to `hi` inclusive.
pub fn sum_even_times_three(lo: u64, hi: u64) -> (s: u64)
    requires
        hi < 0x8000_0000,
    ensures
        s == even_triple_sum(lo as int, hi as int),
{
    let mut sum: u64 = 0;
    if lo > hi {
        return 0;
    }
    let mut x: u64 = lo;
    while x <= hi
        invariant
            lo <= x <= hi + 1,
            hi < 0x8000_0000,
            sum == even_triple_sum(lo as int, x - 1),
        decreases hi + 1 - x,
    {
        proof {
            lemma_even_triple_sum_bound(lo as int, x as int);
            assert(3 * x * (x + 1) <= 3 * 0x8000_0000 * 0x8000_0001) by (nonlinear_arith)
                requires
                    x < 0x8000_0000,
            ;
        }
        if x % 2 == 0 {
            sum += x * 3;
        }
        x += 1;
    }
    sum
}

/// `a + b` (the sum must fit in an `i32`).
pub fn add_two(a: i32, b: i32) -> (s: i32)
    requires
        i32::MIN <= a + b <= i32::MAX,
    ensures
        s == a + b,
{
    a + b
}

/// `a + b + c` (the sum must fit in an `i64`).
pub fn add_three(a: i64, b: i64, c: i64) -> (s: i64)
    requires
        i64::MIN <= a + b <= i64::MAX,
        i64::MIN <= a + b + c <= i64::MAX,
    ensures
        s == a + b + c,
{
    a + b + c
}

/// How `a` compares with `b`: `"<"`, `">"` or `"=="`.
pub fn compare_text(a: i32, b: i32) -> (s: &'static str)
    ensures
        a < b ==> s@ == "<"@,
        a > b ==> s@ == ">"@,
        a == b ==> s@ == "=="@,
{
    if a < b {
        "<"
    } else if a > b {
        ">"
    } else {
        "=="
    }
}

/// `y` is a leap year of the Gregorian calendar: divisible by 4 but not by 100, or divisible by 400.
pub open spec fn is_leap(y: int) -> bool {
    (y % 100 != 0 && y % 4 == 0) || y % 400 == 0
}

/// 1 for a leap year, 0 otherwise.
pub fn leap_year(a: i32) -> (r: i32)
    ensures
        r == if is_leap(a as int) { 1int } else { 0int },
{
    if (a % 100 != 0 && a % 4 == 0) || a % 400 == 0 { 1 } else { 0 }
}

/// The total of a receipt of `(price, count)` lines: the sum of price times count.
pub open spec fn receipt_total(items: Seq<(i32, i32)>) -> int
    decreases items.len(),
{
    if items.len() == 0 { 0 } else { receipt_total(items.drop_last()) + items.last().0 * items.last().1 }
}

/// Every line's product and every running total of the receipt fits in an `i32`.
pub open spec fn receipt_fits(items: Seq<(i32, i32)>) -> bool {
    forall|n: int| 0 < n <= items.len() ==> {
        &&& i32::MIN <= #[trigger] receipt_total(items.take(n)) <= i32::MAX
        &&& i32::MIN <= items[n - 1].0 * items[n - 1].1 <= i32::MAX
    }
}

/// `"Yes"` when the items add up to `total`, `"No"` otherwise.
pub fn receipt_matches(total: i32, items: &Vec<(i32, i32)>) -> (s: &'static str)
    requires
        receipt_fits(items@),
    ensures
        receipt_total(items@) == total ==> s@ == "Yes"@,
        receipt_total(items@) != total ==> s@ == "No"@,
{
    let mut sum: i32 = 0;
    let mut i: usize = 0;
    while i < items.len()
        invariant
            i <= items@.len(),
            receipt_fits(items@),
            sum == receipt_total(items@.take(i as int)),
        decreases items@.len() - i,
    {
        let (a, b) = items[i];
        proof {
            assert(items@.take(i + 1).drop_last() =~= items@.take(i as int));
            assert(i32::MIN <= receipt_total(items@.take(i + 1)) <= i32::MAX);
            assert(i32::MIN <= items@[i as int].0 * items@[i as int].1 <= i32::MAX);
        }
        sum += a * b;
        i += 1;
    }
    assert(items@.take(items@.len() as int) =~= items@);
    if sum == total { "Yes" } else { "No" }
}

} // verus!
