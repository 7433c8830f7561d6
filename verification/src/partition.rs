//! Splitting the rows of an image among processes, as the message-passing renderer does.

use vstd::prelude::*;

verus! {

/// Rows assigned to process `rank`: `height / size`, plus one for the first `height % size` ranks.
pub open spec fn rows_of(height: int, size: int, rank: int) -> int {
    height / size + if rank < height % size { 1int } else { 0int }
}

/// First row assigned to process `rank`.
pub open spec fn first_row_of(height: int, size: int, rank: int) -> int {
    rank * (height / size) + if rank < height % size { rank } else { height % size }
}

/// `(first_row, rows)` of process `rank` among `size` processes sharing `height` rows.
pub fn rank_rows(height: i32, size: i32, rank: i32) -> (r: (i32, i32))
    requires
        height >= 0,
        size >= 1,
        0 <= rank < size,
    ensures
        r.0 == first_row_of(height as int, size as int, rank as int),
        r.1 == rows_of(height as int, size as int, rank as int),
        height / size <= r.1 <= height / size + 1,
        r.1 == height / size + 1 <==> rank < height % size,
        0 <= r.0,
        r.0 + r.1 <= height,
{
    let rows_per_process = height / size;
    let extra_rows = height % size;
    let mut start_row: i32 = 0;
    let mut i: i32 = 0;
    proof {
        lemma_first_row_bound(height as int, size as int, rank as int);
    }
    while i < rank
        invariant
            0 <= i <= rank < size,
            height >= 0,
            size >= 1,
            rows_per_process == height / size,
            extra_rows == height % size,
            start_row == first_row_of(height as int, size as int, i as int),
            first_row_of(height as int, size as int, rank as int) + rows_of(height as int, size as int, rank as int) <= height,
        decreases rank - i,
    {
        proof {
            law_rows_tile(height as int, size as int, i as int);
            lemma_first_row_mono(height as int, size as int, i + 1, rank as int);
        }
        start_row += rows_per_process + if i < extra_rows { 1 } else { 0 };
        i += 1;
    }
    let my_rows = rows_per_process + if rank < extra_rows { 1 } else { 0 };
    (start_row, my_rows)
}

/// The ranges of consecutive ranks follow each other: rank `k + 1` starts where rank `k` ends.
pub proof fn law_rows_tile(height: int, size: int, k: int)
    requires
        height >= 0,
        size >= 1,
        0 <= k < size,
    ensures
        first_row_of(height, size, k + 1) == first_row_of(height, size, k) + rows_of(height, size, k),
{
    assert((k + 1) * (height / size) == k * (height / size) + height / size) by (nonlinear_arith);
}

/// The ranges start at row 0 and the last one ends at `height`: together they cover every row once.
pub proof fn law_rows_cover(height: int, size: int)
    requires
        height >= 0,
        size >= 1,
    ensures
        first_row_of(height, size, 0) == 0,
        first_row_of(height, size, size) == height,
{
    assert(height == size * (height / size) + height % size) by (nonlinear_arith)
        requires
            size >= 1,
    ;
}

pub proof fn lemma_first_row_mono(height: int, size: int, a: int, b: int)
    requires
        height >= 0,
        size >= 1,
        0 <= a <= b <= size,
    ensures
        first_row_of(height, size, a) <= first_row_of(height, size, b),
    decreases b - a,
{
    if a < b {
        law_rows_tile(height, size, b - 1);
        lemma_first_row_mono(height, size, a, b - 1);
    }
}

pub proof fn lemma_first_row_bound(height: int, size: int, rank: int)
    requires
        height >= 0,
        size >= 1,
        0 <= rank < size,
    ensures
        0 <= first_row_of(height, size, rank),
        first_row_of(height, size, rank) + rows_of(height, size, rank) <= height,
{
    law_rows_tile(height, size, rank);
    lemma_first_row_mono(height, size, rank + 1, size);
    law_rows_cover(height, size);
    lemma_first_row_mono(height, size, 0, rank);
}


/// The rows are shared as evenly as possible, the lower ranks taking the extra ones: every
/// rank gets `height / size` or one row more, no rank gets more rows than a lower one, and
/// exactly the first `height % size` ranks get the extra row.
pub proof fn law_rows_balanced(height: int, size: int, r1: int, r2: int)
    requires
        height >= 0,
        size >= 1,
        0 <= r1 <= r2 < size,
    ensures
        height / size <= rows_of(height, size, r1) <= height / size + 1,
        rows_of(height, size, r2) <= rows_of(height, size, r1),
        rows_of(height, size, r1) == height / size + 1 <==> r1 < height % size,
{
}

} // verus!
