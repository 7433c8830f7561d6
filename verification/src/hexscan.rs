//! Logic of the scanned hexadecimal-digit pages: page orientation, labels of digits.

use vstd::prelude::*;

verus! {

/// Centre of a bounding box `(x1, y1, x2, y2)`.
pub open spec fn centre(b: (u32, u32, u32, u32)) -> (int, int) {
    (((b.0 + b.2) / 2) as int, ((b.1 + b.3) / 2) as int)
}

pub open spec fn abs(x: int) -> int {
    if x < 0 { -x } else { x }
}

/// Two boxes sit side by side on a text line.
pub open spec fn horizontal_pair(a: (u32, u32, u32, u32), b: (u32, u32, u32, u32)) -> bool {
    abs(centre(a).1 - centre(b).1) < 15 && abs(centre(a).0 - centre(b).0) < 150
}

/// Two boxes sit one above the other in a column.
pub open spec fn vertical_pair(a: (u32, u32, u32, u32), b: (u32, u32, u32, u32)) -> bool {
    abs(centre(a).0 - centre(b).0) < 15 && abs(centre(a).1 - centre(b).1) < 150
}

/// Number of `j < m`, `j != i`, for which `(s[i], s[j])` is a pair of the given kind.
pub open spec fn votes_for(s: Seq<(u32, u32, u32, u32)>, i: int, m: nat, vertical: bool) -> nat
    decreases m,
{
    if m == 0 {
        0
    } else {
        let j = m - 1;
        votes_for(s, i, (m - 1) as nat, vertical) + if j != i && (if vertical { vertical_pair(s[i], s[j]) } else {
            horizontal_pair(s[i], s[j])
        }) { 1nat } else { 0nat }
    }
}

/// Number of ordered pairs `(i, j)`, `i < n`, `i != j`, of the given kind.
pub open spec fn votes(s: Seq<(u32, u32, u32, u32)>, n: nat, vertical: bool) -> nat
    decreases n,
{
    if n == 0 { 0 } else { votes(s, (n - 1) as nat, vertical) + votes_for(s, n - 1, s.len(), vertical) }
}

/// The boxes whose pairs are counted: the first 400.
pub open spec fn sample_of(boxes: Seq<(u32, u32, u32, u32)>) -> Seq<(u32, u32, u32, u32)> {
    if boxes.len() > 400 { boxes.take(400) } else { boxes }
}

/// The boxes whose centres the scan computes have coordinate sums that fit in a `u32`: with
/// at least 50 boxes, the first 400.
pub open spec fn coordinates_fit(boxes: Seq<(u32, u32, u32, u32)>) -> bool {
    boxes.len() >= 50 ==> forall|k: int| 0 <= k < sample_of(boxes).len()
        ==> (#[trigger] boxes[k]).0 + boxes[k].2 <= u32::MAX && boxes[k].1 + boxes[k].3 <= u32::MAX
}

pub proof fn lemma_votes_for_bound(s: Seq<(u32, u32, u32, u32)>, i: int, m: nat, vertical: bool)
    ensures
        votes_for(s, i, m, vertical) <= m,
    decreases m,
{
    if m > 0 {
        lemma_votes_for_bound(s, i, (m - 1) as nat, vertical);
    }
}

pub proof fn lemma_votes_bound(s: Seq<(u32, u32, u32, u32)>, n: nat, vertical: bool)
    ensures
        votes(s, n, vertical) <= n * s.len(),
    decreases n,
{
    if n > 0 {
        lemma_votes_bound(s, (n - 1) as nat, vertical);
        lemma_votes_for_bound(s, n - 1, s.len(), vertical);
        assert((n - 1) * s.len() + s.len() == n * s.len()) by (nonlinear_arith);
    }
}

/// With at least 50 boxes, among the first 400 more pairs of boxes stand in columns than
/// side by side.
pub open spec fn rotation_needed(boxes: Seq<(u32, u32, u32, u32)>) -> bool {
    let s = sample_of(boxes);
    boxes.len() >= 50 && votes(s, s.len(), true) > votes(s, s.len(), false)
}

/// A box with its x and y axes exchanged.
pub open spec fn swap_axes(b: (u32, u32, u32, u32)) -> (u32, u32, u32, u32) {
    (b.1, b.0, b.3, b.2)
}

proof fn lemma_votes_for_swapped(s: Seq<(u32, u32, u32, u32)>, i: int, m: nat, vertical: bool)
    requires
        0 <= i < s.len(),
        m <= s.len(),
    ensures
        votes_for(s.map_values(|b: (u32, u32, u32, u32)| swap_axes(b)), i, m, vertical) == votes_for(s, i, m, !vertical),
    decreases m,
{
    if m > 0 {
        lemma_votes_for_swapped(s, i, (m - 1) as nat, vertical);
        let t = s.map_values(|b: (u32, u32, u32, u32)| swap_axes(b));
        assert(t[i] == swap_axes(s[i]));
        assert(t[m - 1] == swap_axes(s[m - 1]));
    }
}

proof fn lemma_votes_swapped(s: Seq<(u32, u32, u32, u32)>, n: nat, vertical: bool)
    requires
        n <= s.len(),
    ensures
        votes(s.map_values(|b: (u32, u32, u32, u32)| swap_axes(b)), n, vertical) == votes(s, n, !vertical),
    decreases n,
{
    if n > 0 {
        lemma_votes_swapped(s, (n - 1) as nat, vertical);
        lemma_votes_for_swapped(s, n - 1, s.len(), vertical);
    }
}

/// Exchanging the x and y axes of every box exchanges the votes for columns and for lines,
/// so a page that needs turning does not need it once its axes are exchanged.
pub proof fn law_swapped_axes_exchange_votes(boxes: Seq<(u32, u32, u32, u32)>)
    ensures
        ({
            let sw = boxes.map_values(|b: (u32, u32, u32, u32)| swap_axes(b));
            let s = sample_of(boxes);
            let t = sample_of(sw);
            &&& votes(t, t.len(), true) == votes(s, s.len(), false)
            &&& votes(t, t.len(), false) == votes(s, s.len(), true)
            &&& (rotation_needed(boxes) ==> !rotation_needed(sw))
        }),
{
    let sw = boxes.map_values(|b: (u32, u32, u32, u32)| swap_axes(b));
    let s = sample_of(boxes);
    assert(sample_of(sw) =~= s.map_values(|b: (u32, u32, u32, u32)| swap_axes(b)));
    lemma_votes_swapped(s, s.len(), true);
    lemma_votes_swapped(s, s.len(), false);
}

/// The span of the grid along one axis from the sorted centre coordinates of the boxes:
/// the values at the 5th and 95th percentile, which leave out stray marks near the edges.
pub fn grid_bounds(sorted: &Vec<u32>) -> (r: (u32, u32))
    requires
        sorted@.len() >= 1,
        forall|i: int, j: int| 0 <= i <= j < sorted@.len() ==> sorted@[i] <= sorted@[j],
    ensures
        r.0 == sorted@[(sorted@.len() / 20) as int],
        r.1 == sorted@[sorted@.len() - 1 - (sorted@.len() / 20) as int],
        r.0 <= r.1,
{
    let n = sorted.len();
    (sorted[n / 20], sorted[n - 1 - n / 20])
}

fn centre_of(b: (u32, u32, u32, u32)) -> (c: (i32, i32))
    requires
        b.0 + b.2 <= u32::MAX,
        b.1 + b.3 <= u32::MAX,
    ensures
        c.0 as int == centre(b).0,
        c.1 as int == centre(b).1,
{
    (((b.0 + b.2) / 2) as i32, ((b.1 + b.3) / 2) as i32)
}

/// Whether a page must be turned by 90 degrees: with at least 50 boxes, among the first 400
/// more pairs of boxes stand in columns than side by side.
pub fn need_rotate_90(boxes: &[(u32, u32, u32, u32)]) -> (r: bool)
    requires
        coordinates_fit(boxes@),
    ensures
        r == rotation_needed(boxes@),
{
    if boxes.len() < 50 {
        return false;
    }
    let mut h_votes: i32 = 0;
    let mut v_votes: i32 = 0;
    let n: usize = if boxes.len() > 400 { 400 } else { boxes.len() };
    let ghost s = sample_of(boxes@);
    assert(s.len() == n);
    let mut i: usize = 0;
    while i < n
        invariant
            n == s.len(),
            n <= 400,
            n <= boxes@.len(),
            forall|k: int| 0 <= k < n ==> s[k] == boxes@[k],
            forall|k: int| 0 <= k < n ==> (#[trigger] boxes@[k]).0 + boxes@[k].2 <= u32::MAX && boxes@[k].1 + boxes@[k].3 <= u32::MAX,
            i <= n,
            h_votes == votes(s, i as nat, false),
            v_votes == votes(s, i as nat, true),
        decreases n - i,
    {
        proof {
            lemma_votes_bound(s, i as nat, false);
            lemma_votes_bound(s, i as nat, true);
            assert(i * n <= 400 * 400) by (nonlinear_arith)
                requires
                    i <= 400,
                    n <= 400,
            ;
        }
        let c1 = centre_of(boxes[i]);
        let mut hv: i32 = 0;
        let mut vv: i32 = 0;
        let mut j: usize = 0;
        while j < n
            invariant
                n == s.len(),
                n <= 400,
                n <= boxes@.len(),
                forall|k: int| 0 <= k < n ==> s[k] == boxes@[k],
                forall|k: int| 0 <= k < n ==> (#[trigger] boxes@[k]).0 + boxes@[k].2 <= u32::MAX && boxes@[k].1 + boxes@[k].3 <= u32::MAX,
                i < n,
                j <= n,
                c1.0 == centre(s[i as int]).0,
                c1.1 == centre(s[i as int]).1,
                hv == votes_for(s, i as int, j as nat, false),
                vv == votes_for(s, i as int, j as nat, true),
            decreases n - j,
        {
            proof {
                lemma_votes_for_bound(s, i as int, j as nat, false);
                lemma_votes_for_bound(s, i as int, j as nat, true);
            }
            if i != j {
                let c2 = centre_of(boxes[j]);
                let dx = if c1.0 >= c2.0 { c1.0 - c2.0 } else { c2.0 - c1.0 };
                let dy = if c1.1 >= c2.1 { c1.1 - c2.1 } else { c2.1 - c1.1 };
                if dy < 15 && dx < 150 {
                    hv += 1;
                }
                if dx < 15 && dy < 150 {
                    vv += 1;
                }
            }
            j += 1;
        }
        proof {
            lemma_votes_for_bound(s, i as int, n as nat, false);
            lemma_votes_for_bound(s, i as int, n as nat, true);
        }
        h_votes += hv;
        v_votes += vv;
        i += 1;
    }
    v_votes > h_votes
}

/// The class of a training image from the first character of its file name: `'0'..='9'`
/// give 0..=9 and `'A'..='F'` give 10..=15.
pub fn label_of_char(c: char) -> (r: Option<usize>)
    ensures
        r == (if 48 <= c as u32 <= 57 {
            Some((c as u32 - 48) as usize)
        } else if 65 <= c as u32 <= 70 {
            Some((c as u32 - 55) as usize)
        } else {
            None
        }),
{
    let u = c as u32;
    if 48 <= u && u <= 57 {
        Some((u - 48) as usize)
    } else if 65 <= u && u <= 70 {
        Some((u - 55) as usize)
    } else {
        None
    }
}

/// The character of a predicted class: the hexadecimal digit of classes 0..=15, `'?'` otherwise.
pub fn label_char(idx: usize) -> (c: char)
    ensures
        idx < 10 ==> c as u32 == 48 + idx,
        10 <= idx < 16 ==> c as u32 == 55 + idx,
        idx >= 16 ==> c == '?',
{
    if idx < 10 {
        (48 + idx as u8) as char
    } else if idx < 16 {
        (55 + idx as u8) as char
    } else {
        '?'
    }
}

/// The digit written on row `r` of a scanned page: rows hold 1, 2, ..., 9, 0, A, ..., F.
pub fn row_label(r: usize) -> (c: char)
    requires
        r < 16,
    ensures
        r < 9 ==> c as u32 == 49 + r,
        r == 9 ==> c == '0',
        r >= 10 ==> c as u32 == 55 + r,
{
    if r < 9 {
        (49 + r as u8) as char
    } else if r == 9 {
        '0'
    } else {
        (55 + r as u8) as char
    }
}

} // verus!
