//! Dark regions of a grey image: the pixels at most 180, joined to their eight neighbours,
//! each region reported by its bounding box when its area is in range.

use vstd::prelude::*;
use std::collections::VecDeque;
use crate::marks::{count_true, lemma_count_true_le_len, lemma_count_true_set, lemma_count_true_split};

verus! {

/// A grey image, row by row.
#[derive(Debug)]
pub struct GrayImage {
    pub width: u32,
    pub height: u32,
    pub pixels: Vec<u8>,
}

/// A bounding box `(min x, min y, max x, max y)`.
pub type BoundingBox = (u32, u32, u32, u32);

/// Pixel `q` comes before pixel `p` in row-by-row order.
pub open spec fn raster_before(q: (int, int), p: (int, int)) -> bool {
    q.1 < p.1 || (q.1 == p.1 && q.0 < p.0)
}

impl GrayImage {
    /// One value per pixel, and the pixel count fits in a `u32`.
    pub open spec fn well_formed(&self) -> bool {
        &&& self.pixels@.len() == self.width * self.height
        &&& self.width * self.height <= u32::MAX
    }

    /// `p` lies in the image.
    pub open spec fn inside(&self, p: (int, int)) -> bool {
        0 <= p.0 < self.width && 0 <= p.1 < self.height
    }

    /// The position of pixel `p` in `pixels`.
    pub open spec fn index(&self, p: (int, int)) -> int {
        p.1 * self.width + p.0
    }

    /// `p` is a dark pixel of the image: its value is at most 180.
    pub open spec fn dark(&self, p: (int, int)) -> bool {
        self.inside(p) && self.pixels@[self.index(p)] <= 180
    }

    /// `a` and `b` are dark pixels that touch, sides or corners (or are the same pixel).
    pub open spec fn step(&self, a: (int, int), b: (int, int)) -> bool {
        &&& self.dark(a)
        &&& self.dark(b)
        &&& -1 <= a.0 - b.0 <= 1
        &&& -1 <= a.1 - b.1 <= 1
    }

    /// `p` is joined to the dark pixel `s` by at most `k` steps.
    pub open spec fn within(&self, s: (int, int), p: (int, int), k: nat) -> bool
        decreases k,
    {
        if k == 0 {
            p == s && self.dark(s)
        } else {
            ||| self.within(s, p, (k - 1) as nat)
            ||| exists|q: (int, int)| #[trigger] self.step(q, p) && self.within(s, q, (k - 1) as nat)
        }
    }

    /// `p` lies in the dark region of `s`.
    pub open spec fn connected(&self, s: (int, int), p: (int, int)) -> bool {
        exists|k: nat| #[trigger] self.within(s, p, k)
    }

    /// `p` is the first pixel of its region in row-by-row order.
    pub open spec fn first_of_region(&self, p: (int, int)) -> bool {
        &&& self.dark(p)
        &&& forall|q: (int, int)| raster_before(q, p) ==> !#[trigger] self.connected(q, p)
    }

    /// The pixel at position `i` of `pixels`.
    pub open spec fn pixel_at(&self, i: int) -> (int, int) {
        (i % self.width as int, i / self.width as int)
    }

    /// The number of pixels in the region of `s`.
    pub open spec fn area(&self, s: (int, int)) -> nat {
        count_true(Seq::new(self.pixels@.len(), |i: int| self.connected(s, self.pixel_at(i))))
    }

    /// `b` bounds the region of `s` tightly: every pixel of the region lies in it, and each
    /// of its sides touches a pixel of the region.
    pub open spec fn is_bounding_box(&self, s: (int, int), b: BoundingBox) -> bool {
        &&& forall|p: (int, int)| #[trigger] self.connected(s, p) ==> b.0 <= p.0 <= b.2 && b.1 <= p.1 <= b.3
        &&& exists|p: (int, int)| #[trigger] self.connected(s, p) && p.0 == b.0
        &&& exists|p: (int, int)| #[trigger] self.connected(s, p) && p.1 == b.1
        &&& exists|p: (int, int)| #[trigger] self.connected(s, p) && p.0 == b.2
        &&& exists|p: (int, int)| #[trigger] self.connected(s, p) && p.1 == b.3
    }

    /// The bounding box of the region of `s`.
    pub open spec fn bounding_box(&self, s: (int, int)) -> BoundingBox {
        choose|b: BoundingBox| self.is_bounding_box(s, b)
    }

    /// What pixel `p` contributes: the box of its region when `p` is the region's first
    /// pixel and the region's area lies strictly between 120 and 20000.
    pub open spec fn box_at(&self, p: (int, int)) -> Seq<BoundingBox> {
        if self.first_of_region(p) && 120 < self.area(p) < 20000 {
            seq![self.bounding_box(p)]
        } else {
            seq![]
        }
    }

    /// The boxes contributed by the pixels before `(x, y)` in row-by-row order.
    pub open spec fn boxes_before(&self, y: int, x: int) -> Seq<BoundingBox>
        decreases y, x,
    {
        if y <= 0 && x <= 0 {
            seq![]
        } else if x <= 0 {
            self.boxes_before(y - 1, self.width as int)
        } else {
            self.boxes_before(y, x - 1) + self.box_at((x - 1, y))
        }
    }

    pub proof fn lemma_within_mono(&self, s: (int, int), p: (int, int), j: nat, k: nat)
        requires
            j <= k,
            self.within(s, p, j),
        ensures
            self.within(s, p, k),
        decreases k - j,
    {
        if j < k {
            self.lemma_within_mono(s, p, j, (k - 1) as nat);
        }
    }

    pub proof fn lemma_within_step(&self, s: (int, int), q: (int, int), p: (int, int), k: nat)
        requires
            self.within(s, q, k),
            self.step(q, p),
        ensures
            self.within(s, p, k + 1),
    {
        assert(self.within(s, q, ((k + 1) - 1) as nat));
    }

    pub proof fn lemma_within_dark(&self, s: (int, int), p: (int, int), k: nat)
        requires
            self.within(s, p, k),
        ensures
            self.dark(s),
            self.dark(p),
        decreases k,
    {
        if k > 0 {
            if self.within(s, p, (k - 1) as nat) {
                self.lemma_within_dark(s, p, (k - 1) as nat);
            } else {
                let q = choose|q: (int, int)| #[trigger] self.step(q, p) && self.within(s, q, (k - 1) as nat);
                self.lemma_within_dark(s, q, (k - 1) as nat);
            }
        }
    }

    pub proof fn lemma_within_trans(&self, a: (int, int), b: (int, int), c: (int, int), i: nat, j: nat)
        requires
            self.within(a, b, i),
            self.within(b, c, j),
        ensures
            self.within(a, c, i + j),
        decreases j,
    {
        if j == 0 {
            self.lemma_within_mono(a, c, i, i + j);
        } else if self.within(b, c, (j - 1) as nat) {
            self.lemma_within_trans(a, b, c, i, (j - 1) as nat);
            self.lemma_within_mono(a, c, (i + j - 1) as nat, i + j);
        } else {
            let q = choose|q: (int, int)| #[trigger] self.step(q, c) && self.within(b, q, (j - 1) as nat);
            self.lemma_within_trans(a, b, q, i, (j - 1) as nat);
            self.lemma_within_step(a, q, c, (i + j - 1) as nat);
        }
    }

    pub proof fn lemma_within_sym(&self, s: (int, int), p: (int, int), k: nat)
        requires
            self.within(s, p, k),
        ensures
            self.within(p, s, k),
        decreases k,
    {
        if k > 0 {
            if self.within(s, p, (k - 1) as nat) {
                self.lemma_within_sym(s, p, (k - 1) as nat);
                self.lemma_within_mono(p, s, (k - 1) as nat, k);
            } else {
                let q = choose|q: (int, int)| #[trigger] self.step(q, p) && self.within(s, q, (k - 1) as nat);
                self.lemma_within_sym(s, q, (k - 1) as nat);
                assert(self.within(p, p, 0));
                self.lemma_within_step(p, p, q, 0);
                self.lemma_within_trans(p, q, s, 1, (k - 1) as nat);
            }
        }
    }

    pub proof fn lemma_connected_step(&self, s: (int, int), q: (int, int), p: (int, int))
        requires
            self.connected(s, q),
            self.step(q, p),
        ensures
            self.connected(s, p),
    {
        let k = choose|k: nat| #[trigger] self.within(s, q, k);
        self.lemma_within_step(s, q, p, k);
    }

    pub proof fn lemma_connected_trans(&self, a: (int, int), b: (int, int), c: (int, int))
        requires
            self.connected(a, b),
            self.connected(b, c),
        ensures
            self.connected(a, c),
    {
        let i = choose|k: nat| #[trigger] self.within(a, b, k);
        let j = choose|k: nat| #[trigger] self.within(b, c, k);
        self.lemma_within_trans(a, b, c, i, j);
    }

    /// Marks that hold `s` and are closed under steps hold the whole region of `s`.
    pub proof fn lemma_closed_holds_region(&self, marks: Seq<bool>, s: (int, int), p: (int, int), k: nat)
        requires
            self.well_formed(),
            marks.len() == self.pixels@.len(),
            self.inside(s),
            marks[self.index(s)],
            forall|a: (int, int), b: (int, int)|
                self.inside(a) && marks[self.index(a)] && #[trigger] self.step(a, b) ==> marks[self.index(b)],
            self.within(s, p, k),
        ensures
            marks[self.index(p)],
        decreases k,
    {
        if k > 0 {
            if self.within(s, p, (k - 1) as nat) {
                self.lemma_closed_holds_region(marks, s, p, (k - 1) as nat);
            } else {
                let q = choose|q: (int, int)| #[trigger] self.step(q, p) && self.within(s, q, (k - 1) as nat);
                self.lemma_closed_holds_region(marks, s, q, (k - 1) as nat);
            }
        }
    }

    /// A bounding box is unique.
    pub proof fn lemma_bounding_box_unique(&self, s: (int, int), b: BoundingBox, c: BoundingBox)
        requires
            self.is_bounding_box(s, b),
            self.is_bounding_box(s, c),
        ensures
            b == c,
    {
        let p0 = choose|p: (int, int)| #[trigger] self.connected(s, p) && p.0 == b.0;
        let q0 = choose|p: (int, int)| #[trigger] self.connected(s, p) && p.0 == c.0;
        let p1 = choose|p: (int, int)| #[trigger] self.connected(s, p) && p.1 == b.1;
        let q1 = choose|p: (int, int)| #[trigger] self.connected(s, p) && p.1 == c.1;
        let p2 = choose|p: (int, int)| #[trigger] self.connected(s, p) && p.0 == b.2;
        let q2 = choose|p: (int, int)| #[trigger] self.connected(s, p) && p.0 == c.2;
        let p3 = choose|p: (int, int)| #[trigger] self.connected(s, p) && p.1 == b.3;
        let q3 = choose|p: (int, int)| #[trigger] self.connected(s, p) && p.1 == c.3;
        assert(b.0 == c.0 && b.1 == c.1 && b.2 == c.2 && b.3 == c.3);
    }

    /// The position of an inside pixel is in `pixels`, and names that pixel.
    pub proof fn lemma_index(&self, p: (int, int))
        requires
            self.well_formed(),
            self.inside(p),
        ensures
            0 <= self.index(p) < self.pixels@.len(),
            self.pixel_at(self.index(p)) == p,
    {
        let w = self.width as int;
        let h = self.height as int;
        assert(0 <= p.1 * w + p.0 < w * h) by (nonlinear_arith)
            requires
                0 <= p.0 < w,
                0 <= p.1 < h,
        ;
        vstd::arithmetic::div_mod::lemma_fundamental_div_mod_converse(p.1 * w + p.0, w, p.1, p.0);
    }

    /// Every position of `pixels` is the position of an inside pixel.
    pub proof fn lemma_pixel_at(&self, i: int)
        requires
            self.well_formed(),
            0 <= i < self.pixels@.len(),
        ensures
            self.inside(self.pixel_at(i)),
            self.index(self.pixel_at(i)) == i,
    {
        let w = self.width as int;
        let h = self.height as int;
        assert(w > 0) by (nonlinear_arith)
            requires
                0 <= i < w * h,
                h >= 0,
        ;
        vstd::arithmetic::div_mod::lemma_fundamental_div_mod(i, w);
        vstd::arithmetic::div_mod::lemma_mod_bound(i, w);
        assert(i / w < h) by (nonlinear_arith)
            requires
                i == w * (i / w) + i % w,
                0 <= i % w,
                i < w * h,
                w > 0,
        ;
        assert(i / w >= 0) by (nonlinear_arith)
            requires
                i >= 0,
                w > 0,
        ;
        assert((i / w) * w == w * (i / w)) by (nonlinear_arith);
    }
}

/// `a` is an inside pixel marked in `visited` and not in `before`.
pub open spec fn marked_new(img: &GrayImage, visited: Seq<bool>, before: Seq<bool>, a: (int, int)) -> bool {
    img.inside(a) && visited[img.index(a)] && !before[img.index(a)]
}

/// The pixel `q` as a pair of integers.
pub open spec fn point(q: (u32, u32)) -> (int, int) {
    (q.0 as int, q.1 as int)
}

/// `q` waits in the queue.
pub open spec fn queued(queue: Seq<(u32, u32)>, a: (int, int)) -> bool {
    exists|k: int| 0 <= k < queue.len() && point(#[trigger] queue[k]) == a
}

/// Marks the dark region of `(sx, sy)` in `visited` by a breadth-first search, and returns
/// the region's area and bounding box.
fn flood(img: &GrayImage, visited: &mut Vec<bool>, sx: u32, sy: u32) -> (r: (u64, BoundingBox))
    requires
        img.well_formed(),
        old(visited)@.len() == img.pixels@.len(),
        img.dark((sx as int, sy as int)),
        !old(visited)@[img.index((sx as int, sy as int))],
        forall|a: (int, int), b: (int, int)|
            img.inside(a) && old(visited)@[img.index(a)] && #[trigger] img.step(a, b) ==> old(visited)@[img.index(b)],
    ensures
        final(visited)@.len() == old(visited)@.len(),
        forall|p: (int, int)|
            img.inside(p) ==> (#[trigger] final(visited)@[img.index(p)] <==> (old(visited)@[img.index(p)] || img.connected((sx as int, sy as int), p))),
        r.0 == img.area((sx as int, sy as int)),
        img.is_bounding_box((sx as int, sy as int), r.1),
{
    let ghost s = (sx as int, sy as int);
    let ghost before = visited@;
    let w = img.width;
    let h = img.height;
    proof {
        img.lemma_index(s);
        assert(sy * w + sx < w * h);
    }
    let si = (sy * w + sx) as usize;
    proof {
        lemma_count_true_set(visited@, si as int);
    }
    visited.set(si, true);
    let mut queue: VecDeque<(u32, u32)> = VecDeque::new();
    queue.push_back((sx, sy));
    let mut minx = sx;
    let mut maxx = sx;
    let mut miny = sy;
    let mut maxy = sy;
    let mut area: u64 = 0;
    proof {
        assert(img.within(s, s, 0));
        assert(marked_new(img, visited@, before, s));
        assert(point(queue@[0]) == s);
        assert forall|a: (int, int), b: (int, int)|
            marked_new(img, visited@, before, a) && !queued(queue@, a) && #[trigger] img.step(a, b) implies visited@[img.index(b)] by {
            assert(a == s) by {
                if a != s {
                    img.lemma_index(a);
                }
            }
            assert(point(queue@[0]) == a);
        }
        assert forall|p: (int, int)| img.inside(p) && #[trigger] visited@[img.index(p)] implies before[img.index(p)] || img.connected(s, p) by {
            img.lemma_index(p);
            if p != s {
                assert(img.index(p) != img.index(s)) by {
                    img.lemma_index(s);
                }
            }
        }
        assert forall|a: (int, int)| #[trigger] marked_new(img, visited@, before, a) implies a == s by {
            img.lemma_index(a);
            if img.index(a) != img.index(s) {
                assert(visited@[img.index(a)] == before[img.index(a)]);
            }
        }
    }
    loop
        invariant
            img.well_formed(),
            w == img.width,
            h == img.height,
            visited@.len() == before.len() == img.pixels@.len(),
            img.inside(s),
            img.dark(s),
            marked_new(img, visited@, before, s),
            forall|a: (int, int), b: (int, int)|
                img.inside(a) && before[img.index(a)] && #[trigger] img.step(a, b) ==> before[img.index(b)],
            forall|i: int| 0 <= i < visited@.len() && before[i] ==> visited@[i],
            forall|p: (int, int)| img.inside(p) && #[trigger] visited@[img.index(p)] ==> before[img.index(p)] || img.connected(s, p),
            forall|k: int| 0 <= k < queue@.len() ==> marked_new(img, visited@, before, point(#[trigger] queue@[k])),
            forall|a: (int, int), b: (int, int)|
                marked_new(img, visited@, before, a) && !queued(queue@, a) && #[trigger] img.step(a, b) ==> visited@[img.index(b)],
            count_true(visited@) == count_true(before) + area + queue@.len(),
            forall|a: (int, int)|
                #[trigger] marked_new(img, visited@, before, a) && !queued(queue@, a) ==> minx <= a.0 <= maxx && miny <= a.1 <= maxy,
            exists|a: (int, int)| #[trigger] marked_new(img, visited@, before, a) && a.0 == minx,
            exists|a: (int, int)| #[trigger] marked_new(img, visited@, before, a) && a.1 == miny,
            exists|a: (int, int)| #[trigger] marked_new(img, visited@, before, a) && a.0 == maxx,
            exists|a: (int, int)| #[trigger] marked_new(img, visited@, before, a) && a.1 == maxy,
        ensures
            queue@.len() == 0,
        decreases 2 * (visited@.len() - count_true(visited@)) + queue@.len(),
    {
        proof {
            lemma_count_true_le_len(visited@);
        }
        let ghost queue_before_pop = queue@;
        match queue.pop_front() {
            None => {
                break;
            },
            Some((cx, cy)) => {
                let ghost c = (cx as int, cy as int);
                proof {
                    assert(queue_before_pop[0] == (cx, cy));
                    assert(marked_new(img, visited@, before, c));
                    img.lemma_index(c);
                    assert(img.connected(s, c));
                    let kc = choose|k: nat| #[trigger] img.within(s, c, k);
                    img.lemma_within_dark(s, c, kc);
                    assert forall|a: (int, int)| queued(queue@, a) implies queued(queue_before_pop, a) by {
                        let k = choose|k: int| 0 <= k < queue@.len() && point(#[trigger] queue@[k]) == a;
                        assert(queue_before_pop[k + 1] == queue@[k]);
                    }
                    assert forall|a: (int, int)| queued(queue_before_pop, a) && a != c implies queued(queue@, a) by {
                        let k = choose|k: int| 0 <= k < queue_before_pop.len() && point(#[trigger] queue_before_pop[k]) == a;
                        assert(k != 0);
                        assert(queue@[k - 1] == queue_before_pop[k]);
                    }
                }
                area = area + 1;
                if cx < minx {
                    minx = cx;
                }
                if cx > maxx {
                    maxx = cx;
                }
                if cy < miny {
                    miny = cy;
                }
                if cy > maxy {
                    maxy = cy;
                }
                let mut dy: u32 = 0;
                while dy < 3
                    invariant
                        img.well_formed(),
                        w == img.width,
                        h == img.height,
                        visited@.len() == before.len() == img.pixels@.len(),
                        img.inside(s),
                        img.dark(s),
                        c == (cx as int, cy as int),
                        img.dark(c),
                        queue@.len() + 1 >= queue_before_pop.len(),
                        marked_new(img, visited@, before, s),
                        marked_new(img, visited@, before, c),
                        forall|a: (int, int), b: (int, int)|
                            img.inside(a) && before[img.index(a)] && #[trigger] img.step(a, b) ==> before[img.index(b)],
                        forall|i: int| 0 <= i < visited@.len() && before[i] ==> visited@[i],
                        forall|p: (int, int)| img.inside(p) && #[trigger] visited@[img.index(p)] ==> before[img.index(p)] || img.connected(s, p),
                        forall|k: int| 0 <= k < queue@.len() ==> marked_new(img, visited@, before, point(#[trigger] queue@[k])),
                        forall|a: (int, int), b: (int, int)|
                            marked_new(img, visited@, before, a) && !queued(queue@, a) && a != c && #[trigger] img.step(a, b)
                                ==> visited@[img.index(b)],
                        count_true(visited@) == count_true(before) + area + queue@.len(),
                        forall|a: (int, int)|
                            #[trigger] marked_new(img, visited@, before, a) && !queued(queue@, a) ==> minx <= a.0 <= maxx && miny <= a.1 <= maxy,
                        exists|a: (int, int)| #[trigger] marked_new(img, visited@, before, a) && a.0 == minx,
                        exists|a: (int, int)| #[trigger] marked_new(img, visited@, before, a) && a.1 == miny,
                        exists|a: (int, int)| #[trigger] marked_new(img, visited@, before, a) && a.0 == maxx,
                        exists|a: (int, int)| #[trigger] marked_new(img, visited@, before, a) && a.1 == maxy,
                        dy <= 3,
                        forall|b: (int, int)| #[trigger] img.step(c, b) && b.1 - cy + 1 < dy ==> visited@[img.index(b)],
                    decreases 3 - dy,
                {
                    let mut dx: u32 = 0;
                    while dx < 3
                        invariant
                            img.well_formed(),
                            w == img.width,
                            h == img.height,
                            visited@.len() == before.len() == img.pixels@.len(),
                            img.inside(s),
                            img.dark(s),
                            c == (cx as int, cy as int),
                            img.dark(c),
                            queue@.len() + 1 >= queue_before_pop.len(),
                            marked_new(img, visited@, before, s),
                            marked_new(img, visited@, before, c),
                            forall|a: (int, int), b: (int, int)|
                                img.inside(a) && before[img.index(a)] && #[trigger] img.step(a, b) ==> before[img.index(b)],
                            forall|i: int| 0 <= i < visited@.len() && before[i] ==> visited@[i],
                            forall|p: (int, int)| img.inside(p) && #[trigger] visited@[img.index(p)] ==> before[img.index(p)] || img.connected(s, p),
                            forall|k: int| 0 <= k < queue@.len() ==> marked_new(img, visited@, before, point(#[trigger] queue@[k])),
                            forall|a: (int, int), b: (int, int)|
                                marked_new(img, visited@, before, a) && !queued(queue@, a) && a != c && #[trigger] img.step(a, b)
                                    ==> visited@[img.index(b)],
                            count_true(visited@) == count_true(before) + area + queue@.len(),
                            forall|a: (int, int)|
                                #[trigger] marked_new(img, visited@, before, a) && !queued(queue@, a) ==> minx <= a.0 <= maxx && miny <= a.1 <= maxy,
                            exists|a: (int, int)| #[trigger] marked_new(img, visited@, before, a) && a.0 == minx,
                            exists|a: (int, int)| #[trigger] marked_new(img, visited@, before, a) && a.1 == miny,
                            exists|a: (int, int)| #[trigger] marked_new(img, visited@, before, a) && a.0 == maxx,
                            exists|a: (int, int)| #[trigger] marked_new(img, visited@, before, a) && a.1 == maxy,
                            dy < 3,
                            dx <= 3,
                            forall|b: (int, int)|
                                #[trigger] img.step(c, b) && (b.1 - cy + 1 < dy || (b.1 - cy + 1 == dy && b.0 - cx + 1 < dx))
                                    ==> visited@[img.index(b)],
                        decreases 3 - dx,
                    {
                        let nx: i64 = cx as i64 + dx as i64 - 1;
                        let ny: i64 = cy as i64 + dy as i64 - 1;
                        let ghost b = (nx as int, ny as int);
                        if nx >= 0 && nx < w as i64 && ny >= 0 && ny < h as i64 {
                            proof {
                                img.lemma_index(b);
                                assert(ny * w + nx < w * h);
                            }
                            let n_idx = (ny as u32 * w + nx as u32) as usize;
                            assert(n_idx as int == img.index(b));
                            if !visited[n_idx] && img.pixels[n_idx] <= 180 {
                                let ghost pre = visited@;
                                let ghost pre_queue = queue@;
                                proof {
                                    lemma_count_true_set(visited@, n_idx as int);
                                    assert(img.step(c, b));
                                    img.lemma_connected_step(s, c, b);
                                }
                                visited.set(n_idx, true);
                                queue.push_back((nx as u32, ny as u32));
                                proof {
                                    assert(point(queue@[queue@.len() - 1]) == b);
                                    assert forall|a: (int, int)| marked_new(img, pre, before, a) implies #[trigger] marked_new(img, visited@, before, a) by {
                                        img.lemma_index(a);
                                    }
                                    assert forall|a: (int, int)| #[trigger] marked_new(img, visited@, before, a) && a != b implies marked_new(img, pre, before, a) by {
                                        img.lemma_index(a);
                                        if img.index(a) == img.index(b) {
                                            assert(img.pixel_at(img.index(a)) == a);
                                        }
                                    }
                                    assert forall|a: (int, int)| queued(pre_queue, a) implies queued(queue@, a) by {
                                        let k = choose|k: int| 0 <= k < pre_queue.len() && point(#[trigger] pre_queue[k]) == a;
                                        assert(queue@[k] == pre_queue[k]);
                                    }
                                    assert forall|a: (int, int)| queued(queue@, a) && a != b implies queued(pre_queue, a) by {
                                        let k = choose|k: int| 0 <= k < queue@.len() && point(#[trigger] queue@[k]) == a;
                                        assert(k < pre_queue.len());
                                        assert(queue@[k] == pre_queue[k]);
                                    }
                                    assert(queued(queue@, b));
                                    let a0 = choose|a: (int, int)| #[trigger] marked_new(img, pre, before, a) && a.0 == minx;
                                    let a1 = choose|a: (int, int)| #[trigger] marked_new(img, pre, before, a) && a.1 == miny;
                                    let a2 = choose|a: (int, int)| #[trigger] marked_new(img, pre, before, a) && a.0 == maxx;
                                    let a3 = choose|a: (int, int)| #[trigger] marked_new(img, pre, before, a) && a.1 == maxy;
                                    assert(marked_new(img, visited@, before, a0));
                                    assert(marked_new(img, visited@, before, a1));
                                    assert(marked_new(img, visited@, before, a2));
                                    assert(marked_new(img, visited@, before, a3));
                                    assert forall|a: (int, int), bb: (int, int)|
                                        marked_new(img, visited@, before, a) && !queued(queue@, a) && a != c && #[trigger] img.step(a, bb)
                                            implies visited@[img.index(bb)] by {
                                        img.lemma_index(bb);
                                        assert(a != b);
                                        assert(marked_new(img, pre, before, a));
                                        assert(!queued(pre_queue, a));
                                        assert(pre[img.index(bb)]);
                                    }
                                    assert forall|p: (int, int)| img.inside(p) && #[trigger] visited@[img.index(p)] implies before[img.index(p)] || img.connected(s, p) by {
                                        img.lemma_index(p);
                                        if img.index(p) == img.index(b) {
                                            assert(img.pixel_at(img.index(p)) == p);
                                        } else {
                                            assert(pre[img.index(p)]);
                                        }
                                    }
                                    assert forall|k: int| 0 <= k < queue@.len() implies marked_new(img, visited@, before, point(#[trigger] queue@[k])) by {
                                        if k < pre_queue.len() {
                                            assert(queue@[k] == pre_queue[k]);
                                            assert(marked_new(img, pre, before, point(pre_queue[k])));
                                        }
                                    }
                                }
                            }
                        }
                        proof {
                            assert forall|bb: (int, int)|
                                #[trigger] img.step(c, bb) && (bb.1 - cy + 1 < dy || (bb.1 - cy + 1 == dy && bb.0 - cx + 1 < dx + 1))
                                    implies visited@[img.index(bb)] by {
                                img.lemma_index(bb);
                                if bb.1 - cy + 1 == dy && bb.0 - cx + 1 == dx {
                                    assert(bb.0 == nx);
                                    assert(bb.1 == ny);
                                    assert(bb == b);
                                    img.lemma_index(b);
                                }
                            }
                        }
                        dx += 1;
                    }
                    dy += 1;
                }
                proof {
                    assert forall|a: (int, int), b: (int, int)|
                        marked_new(img, visited@, before, a) && !queued(queue@, a) && #[trigger] img.step(a, b)
                            implies visited@[img.index(b)] by {
                        if a == c {
                            assert(img.step(c, b));
                        }
                    }
                    lemma_count_true_le_len(visited@);
                }
            },
        }
    }
    proof {
        // the marks are closed under steps, so they hold the whole region
        assert forall|a: (int, int), b: (int, int)|
            img.inside(a) && visited@[img.index(a)] && #[trigger] img.step(a, b) implies visited@[img.index(b)] by {
            img.lemma_index(a);
            img.lemma_index(b);
            if before[img.index(a)] {
                assert(before[img.index(b)]);
            } else {
                assert(marked_new(img, visited@, before, a));
                assert(!queued(queue@, a));
            }
        }
        assert forall|p: (int, int)| #[trigger] img.connected(s, p) implies img.inside(p) && visited@[img.index(p)] && !before[img.index(p)] by {
            let k = choose|k: nat| #[trigger] img.within(s, p, k);
            img.lemma_within_dark(s, p, k);
            img.lemma_closed_holds_region(visited@, s, p, k);
            if before[img.index(p)] {
                img.lemma_within_sym(s, p, k);
                img.lemma_closed_holds_region(before, p, s, k);
            }
        }
        assert forall|p: (int, int)|
            img.inside(p) implies (#[trigger] visited@[img.index(p)] <==> (before[img.index(p)] || img.connected(s, p))) by {
            img.lemma_index(p);
        }
        // the area counts the newly marked pixels, which are the region
        lemma_count_true_split(before, visited@);
        let d = Seq::new(visited@.len(), |i: int| visited@[i] && !before[i]);
        assert forall|i: int| 0 <= i < d.len() implies d[i] == img.connected(s, img.pixel_at(i)) by {
            img.lemma_pixel_at(i);
        }
        assert(d =~= Seq::new(img.pixels@.len(), |i: int| img.connected(s, img.pixel_at(i))));
        // the box is tight
        assert forall|p: (int, int)| #[trigger] img.connected(s, p) implies minx <= p.0 <= maxx && miny <= p.1 <= maxy by {
            assert(marked_new(img, visited@, before, p));
            assert(!queued(queue@, p));
        }
        let a0 = choose|a: (int, int)| #[trigger] marked_new(img, visited@, before, a) && a.0 == minx;
        let a1 = choose|a: (int, int)| #[trigger] marked_new(img, visited@, before, a) && a.1 == miny;
        let a2 = choose|a: (int, int)| #[trigger] marked_new(img, visited@, before, a) && a.0 == maxx;
        let a3 = choose|a: (int, int)| #[trigger] marked_new(img, visited@, before, a) && a.1 == maxy;
        assert(img.connected(s, a0));
        assert(img.connected(s, a1));
        assert(img.connected(s, a2));
        assert(img.connected(s, a3));
    }
    (area, (minx, miny, maxx, maxy))
}

/// The bounding boxes of the dark regions of `img` whose area lies strictly between 120 and
/// 20000, in the row-by-row order of the regions' first pixels. A pixel is dark when its
/// value is at most 180; dark pixels that touch by a side or a corner are in one region.
pub fn find_components(img: &GrayImage) -> (boxes: Vec<BoundingBox>)
    requires
        img.well_formed(),
        forall|p: (int, int)| img.dark(p) ==> #[trigger] img.area(p) <= i32::MAX,
    ensures
        boxes@ == img.boxes_before(img.height as int, 0),
{
    let w = img.width;
    let h = img.height;
    let total = img.pixels.len();
    let mut visited: Vec<bool> = vec![false; total];
    let mut boxes: Vec<BoundingBox> = Vec::new();
    let mut y: u32 = 0;
    proof {
        assert forall|p: (int, int)| img.inside(p) implies (#[trigger] visited@[img.index(p)] <==> exists|q: (int, int)|
            raster_before(q, (0int, y as int)) && #[trigger] img.connected(q, p)) by {
            img.lemma_index(p);
            if exists|q: (int, int)| raster_before(q, (0int, y as int)) && #[trigger] img.connected(q, p) {
                let q = choose|q: (int, int)| raster_before(q, (0int, y as int)) && #[trigger] img.connected(q, p);
                let k = choose|k: nat| #[trigger] img.within(q, p, k);
                img.lemma_within_dark(q, p, k);
            }
        }
    }
    while y < h
        invariant
            img.well_formed(),
            w == img.width,
            h == img.height,
            y <= h,
            total == visited@.len() == img.pixels@.len(),
            forall|p: (int, int)| img.inside(p) ==> (#[trigger] visited@[img.index(p)] <==> exists|q: (int, int)|
                raster_before(q, (0int, y as int)) && #[trigger] img.connected(q, p)),
            boxes@ == img.boxes_before(y as int, 0),
        decreases h - y,
    {
        let mut x: u32 = 0;
        while x < w
            invariant
                img.well_formed(),
                w == img.width,
                h == img.height,
                y < h,
                x <= w,
                total == visited@.len() == img.pixels@.len(),
                forall|p: (int, int)| img.inside(p) ==> (#[trigger] visited@[img.index(p)] <==> exists|q: (int, int)|
                    raster_before(q, (x as int, y as int)) && #[trigger] img.connected(q, p)),
                boxes@ == img.boxes_before(y as int, x as int),
            decreases w - x,
        {
            let ghost here = (x as int, y as int);
            let ghost pre = visited@;
            proof {
                img.lemma_index(here);
                assert(y * w + x < w * h);
            }
            let idx = (y * w + x) as usize;
            if !visited[idx] && img.pixels[idx] <= 180 {
                proof {
                    assert forall|a: (int, int), b: (int, int)|
                        img.inside(a) && visited@[img.index(a)] && #[trigger] img.step(a, b) implies visited@[img.index(b)] by {
                        let q = choose|q: (int, int)| raster_before(q, here) && #[trigger] img.connected(q, a);
                        img.lemma_connected_step(q, a, b);
                    }
                    assert forall|q: (int, int)| raster_before(q, here) implies !#[trigger] img.connected(q, here) by {
                        if img.connected(q, here) {
                            assert(visited@[img.index(here)]);
                        }
                    }
                    assert(img.first_of_region(here));
                }
                let (area, b) = flood(img, &mut visited, x, y);
                proof {
                    img.lemma_bounding_box_unique(here, b, img.bounding_box(here));
                    assert(img.box_at(here) == (if 120 < area < 20000 { seq![b] } else { Seq::<BoundingBox>::empty() }));
                }
                if area > 120 && area < 20000 {
                    boxes.push(b);
                }
                proof {
                    assert forall|p: (int, int)| img.inside(p) implies (#[trigger] visited@[img.index(p)] <==> exists|q: (int, int)|
                        raster_before(q, (x + 1, y as int)) && #[trigger] img.connected(q, p)) by {
                        if visited@[img.index(p)] && !pre[img.index(p)] {
                            assert(raster_before(here, (x + 1, y as int)) && img.connected(here, p));
                        }
                        if exists|q: (int, int)| raster_before(q, (x + 1, y as int)) && #[trigger] img.connected(q, p) {
                            let q = choose|q: (int, int)| raster_before(q, (x + 1, y as int)) && #[trigger] img.connected(q, p);
                            if q != here {
                                assert(raster_before(q, here));
                            }
                        }
                    }
                }
            } else {
                proof {
                    if pre[idx as int] {
                        let q0 = choose|q: (int, int)| raster_before(q, here) && #[trigger] img.connected(q, here);
                        assert(!img.first_of_region(here));
                        assert forall|p: (int, int)| img.inside(p) implies (#[trigger] visited@[img.index(p)] <==> exists|q: (int, int)|
                            raster_before(q, (x + 1, y as int)) && #[trigger] img.connected(q, p)) by {
                            if exists|q: (int, int)| raster_before(q, (x + 1, y as int)) && #[trigger] img.connected(q, p) {
                                let q = choose|q: (int, int)| raster_before(q, (x + 1, y as int)) && #[trigger] img.connected(q, p);
                                if q == here {
                                    img.lemma_connected_trans(q0, here, p);
                                    assert(raster_before(q0, here));
                                } else {
                                    assert(raster_before(q, here));
                                }
                            }
                        }
                    } else {
                        assert(!img.dark(here));
                        assert forall|p: (int, int)| !#[trigger] img.connected(here, p) by {
                            if img.connected(here, p) {
                                let k = choose|k: nat| #[trigger] img.within(here, p, k);
                                img.lemma_within_dark(here, p, k);
                            }
                        }
                        assert forall|p: (int, int)| img.inside(p) implies (#[trigger] visited@[img.index(p)] <==> exists|q: (int, int)|
                            raster_before(q, (x + 1, y as int)) && #[trigger] img.connected(q, p)) by {
                            if exists|q: (int, int)| raster_before(q, (x + 1, y as int)) && #[trigger] img.connected(q, p) {
                                let q = choose|q: (int, int)| raster_before(q, (x + 1, y as int)) && #[trigger] img.connected(q, p);
                                if q != here {
                                    assert(raster_before(q, here));
                                }
                            }
                        }
                    }
                    assert(img.box_at(here) == Seq::<BoundingBox>::empty());
                }
            }
            proof {
                assert(img.boxes_before(y as int, x + 1) == img.boxes_before(y as int, x as int) + img.box_at(here));
            }
            x += 1;
        }
        proof {
            assert(img.boxes_before(y + 1, 0) == img.boxes_before(y as int, w as int));
            assert forall|p: (int, int)| img.inside(p) implies (#[trigger] visited@[img.index(p)] <==> exists|q: (int, int)|
                raster_before(q, (0int, y + 1)) && #[trigger] img.connected(q, p)) by {
                if exists|q: (int, int)| raster_before(q, (0int, y + 1)) && #[trigger] img.connected(q, p) {
                    let q = choose|q: (int, int)| raster_before(q, (0int, y + 1)) && #[trigger] img.connected(q, p);
                    let k = choose|k: nat| #[trigger] img.within(q, p, k);
                    img.lemma_within_dark(q, p, k);
                    assert(raster_before(q, (w as int, y as int)));
                }
                if exists|q: (int, int)| raster_before(q, (w as int, y as int)) && #[trigger] img.connected(q, p) {
                    let q = choose|q: (int, int)| raster_before(q, (w as int, y as int)) && #[trigger] img.connected(q, p);
                    assert(raster_before(q, (0int, y + 1)));
                }
            }
        }
        y += 1;
    }
    proof {
        if h > 0 {
            assert(img.boxes_before(h as int, 0) == img.boxes_before(h - 1, w as int));
        }
    }
    boxes
}

} // verus!
