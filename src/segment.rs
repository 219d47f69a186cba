use vstd::prelude::*;
use crate::flood::{adjacent, fill, linked, relabelled, lemma_relabelled_trans};
use crate::grid::{Grid, count_of, idx, in_bounds, lemma_idx_bounds, lemma_count_le, lemma_count_pos};
use crate::layout::lemma_anchor;

verus! {

/// A 4-connected group of accepted cells, cropped to its bounding box, with
/// the box's origin in the full mask and the group's cell count.
pub struct Segment {
    pub map: Grid<bool>,
    pub map_size: usize,
    pub x: usize,
    pub y: usize,
}

impl Segment {
    /// Cell `(y, x)` of the full mask belongs to this segment.
    pub open spec fn holds(&self, y: int, x: int) -> bool {
        self.y <= y < self.y + self.map.h && self.x <= x < self.x + self.map.w && self.map.at(
            y - self.y,
            x - self.x,
        )
    }

    /// Every cell of the segment is reached from cell `r` by a walk inside it.
    pub open spec fn rooted_at(&self, r: (int, int)) -> bool {
        self.holds(r.0, r.1) && forall|y: int, x: int| #[trigger] self.holds(y, x) ==> seg_linked(*self, r, (y, x))
    }

    /// The segment is 4-connected: some cell reaches every cell inside it.
    pub open spec fn connected(&self) -> bool {
        exists|r: (int, int)| self.rooted_at(r)
    }

    /// Every edge of the bounding box touches a cell of the segment.
    pub open spec fn tight(&self) -> bool {
        &&& self.map.h > 0
        &&& self.map.w > 0
        &&& exists|x: int| 0 <= x < self.map.w && #[trigger] self.map.at(0, x)
        &&& exists|x: int| 0 <= x < self.map.w && #[trigger] self.map.at(self.map.h - 1, x)
        &&& exists|y: int| 0 <= y < self.map.h && #[trigger] self.map.at(y, 0)
        &&& exists|y: int| 0 <= y < self.map.h && #[trigger] self.map.at(y, self.map.w - 1)
    }

    /// The crop is well formed, lies inside an `h` by `w` grid, is tight, and
    /// `map_size` counts its cells.
    pub open spec fn fits(&self, h: int, w: int) -> bool {
        &&& self.map.wf()
        &&& self.y + self.map.h <= h
        &&& self.x + self.map.w <= w
        &&& self.tight()
        &&& self.map_size == count_of(self.map.cells@, true)
    }
}

/// Segment `s` is exactly the set of cells labelled `id` in `stage`.
pub open spec fn labelled_as(s: Segment, stage: Seq<usize>, h: int, w: int, id: usize) -> bool {
    &&& s.fits(h, w)
    &&& forall|y: int, x: int| in_bounds(h, w, y, x) ==> (#[trigger] s.holds(y, x) <==> stage[idx(w, y, x)] == id)
}

/// Every 4-neighbour of a cell labelled `id` is labelled 0 or `id`.
pub open spec fn label_closed(s: Seq<usize>, h: int, w: int, id: usize) -> bool {
    forall|y: int, x: int, y2: int, x2: int|
        in_bounds(h, w, y, x) && in_bounds(h, w, y2, x2) && adjacent((y, x), (y2, x2)) && #[trigger] s[idx(w, y, x)] == id
            ==> #[trigger] s[idx(w, y2, x2)] == 0 || s[idx(w, y2, x2)] == id
}

/// Some cell labelled `id` is joined to every cell labelled `id` by a walk
/// of cells labelled `id`.
pub open spec fn label_rooted(s: Seq<usize>, h: int, w: int, id: usize) -> bool {
    exists|r: (int, int)|
        in_bounds(h, w, r.0, r.1) && s[idx(w, r.0, r.1)] == id && forall|y: int, x: int|
            in_bounds(h, w, y, x) && #[trigger] s[idx(w, y, x)] == id ==> linked(s, h, w, id, r, (y, x))
}

/// `p` is a walk of 4-neighbouring cells of segment `s`, in mask coordinates.
pub open spec fn seg_path(s: Segment, p: Seq<(int, int)>) -> bool {
    &&& p.len() >= 1
    &&& forall|k: int| 0 <= k < p.len() ==> s.holds((#[trigger] p[k]).0, p[k].1)
    &&& forall|k: int| 0 <= k < p.len() - 1 ==> adjacent(#[trigger] p[k], p[k + 1])
}

/// A walk inside segment `s` leads from `a` to `b`.
pub open spec fn seg_linked(s: Segment, a: (int, int), b: (int, int)) -> bool {
    exists|p: Seq<(int, int)>| #[trigger] seg_path(s, p) && p[0] == a && p.last() == b
}

/// Later relabelling of 1-cells leaves an earlier group's closure and walks intact.
proof fn lemma_label_kept(s1: Seq<usize>, s2: Seq<usize>, h: int, w: int, id: usize, to: usize)
    requires
        s1.len() == h * w,
        relabelled(s1, s2, 1, to),
        id != 1,
        id != 0,
        id != to,
        label_closed(s1, h, w, id),
        label_rooted(s1, h, w, id),
    ensures
        label_closed(s2, h, w, id),
        label_rooted(s2, h, w, id),
{
    assert forall|i: int| 0 <= i < s1.len() && s1[i] == id implies #[trigger] s2[i] == id by {
        assert(s2[i] == s1[i] || (s1[i] == 1 && s2[i] == to));
    }
    assert forall|y: int, x: int, y2: int, x2: int|
        in_bounds(h, w, y, x) && in_bounds(h, w, y2, x2) && adjacent((y, x), (y2, x2)) && #[trigger] s2[idx(w, y, x)] == id
            implies #[trigger] s2[idx(w, y2, x2)] == 0 || s2[idx(w, y2, x2)] == id by {
        lemma_idx_bounds(h, w, y, x);
        lemma_idx_bounds(h, w, y2, x2);
        let c = idx(w, y, x);
        let q = idx(w, y2, x2);
        assert(s2[c] == s1[c] || (s1[c] == 1 && s2[c] == to));
        assert(s1[q] == 0 || s1[q] == id);
        assert(s2[q] == s1[q] || (s1[q] == 1 && s2[q] == to));
    }
    let r = choose|r: (int, int)|
        in_bounds(h, w, r.0, r.1) && s1[idx(w, r.0, r.1)] == id && forall|y: int, x: int|
            in_bounds(h, w, y, x) && #[trigger] s1[idx(w, y, x)] == id ==> linked(s1, h, w, id, r, (y, x));
    lemma_idx_bounds(h, w, r.0, r.1);
    assert forall|y: int, x: int| in_bounds(h, w, y, x) && #[trigger] s2[idx(w, y, x)] == id implies linked(s2, h, w, id, r, (y, x)) by {
        lemma_idx_bounds(h, w, y, x);
        let c = idx(w, y, x);
        assert(s2[c] == s1[c] || (s1[c] == 1 && s2[c] == to));
        crate::flood::lemma_linked_frame(s1, s2, h, w, id, r, (y, x));
    }
}

/// Crops the cells labelled `id` inside the box at `(y0, x0)` of size `sh` by `sw`.
fn crop(stage: &Vec<usize>, h: usize, w: usize, y0: usize, x0: usize, sh: usize, sw: usize, id: usize) -> (r: Grid<bool>)
    requires
        stage@.len() == h * w,
        h * w <= usize::MAX,
        y0 + sh <= h,
        x0 + sw <= w,
    ensures
        r.wf(),
        r.h == sh,
        r.w == sw,
        forall|yy: int, xx: int|
            0 <= yy < sh && 0 <= xx < sw ==> #[trigger] r.at(yy, xx) == (stage@[idx(w as int, y0 + yy, x0 + xx)] == id),
{
    let mut cells: Vec<bool> = Vec::new();
    let mut yy: usize = 0;
    while yy < sh
        invariant
            stage@.len() == h * w,
            h * w <= usize::MAX,
            y0 + sh <= h,
            x0 + sw <= w,
            yy <= sh,
            cells@.len() == yy * sw,
            forall|t: int|
                0 <= t < cells@.len() ==> #[trigger] cells@[t] == (stage@[idx(w as int, y0 + t / (sw as int), x0 + t % (sw as int))] == id),
        decreases sh - yy,
    {
        let mut xx: usize = 0;
        while xx < sw
            invariant
                stage@.len() == h * w,
                h * w <= usize::MAX,
                y0 + sh <= h,
                x0 + sw <= w,
                yy < sh,
                xx <= sw,
                cells@.len() == yy * sw + xx,
                forall|t: int|
                    0 <= t < cells@.len() ==> #[trigger] cells@[t] == (stage@[idx(w as int, y0 + t / (sw as int), x0 + t % (sw as int))] == id),
            decreases sw - xx,
        {
            proof {
                lemma_idx_bounds(h as int, w as int, (y0 + yy) as int, (x0 + xx) as int);
                lemma_anchor(sw as int, yy as int, xx as int);
            }
            let v = stage[(y0 + yy) * w + (x0 + xx)] == id;
            cells.push(v);
            xx = xx + 1;
        }
        proof {
            assert((yy + 1) * sw == yy * sw + sw) by (nonlinear_arith);
        }
        yy = yy + 1;
    }
    let r = Grid { h: sh, w: sw, cells };
    proof {
        assert forall|yy: int, xx: int| 0 <= yy < sh && 0 <= xx < sw implies #[trigger] r.at(yy, xx) == (stage@[idx(
            w as int,
            y0 + yy,
            x0 + xx,
        )] == id) by {
            lemma_anchor(sw as int, yy, xx);
            lemma_idx_bounds(sh as int, sw as int, yy, xx);
        }
    }
    r
}

/// Counts the `true` cells of a vector.
pub fn count_true(v: &Vec<bool>) -> (r: usize)
    ensures
        r == count_of(v@, true),
{
    let mut r: usize = 0;
    let mut i: usize = 0;
    while i < v.len()
        invariant
            i <= v@.len(),
            r == count_of(v@.take(i as int), true),
        decreases v@.len() - i,
    {
        proof {
            crate::grid::lemma_count_take(v@, i as int, true);
            lemma_count_le(v@.take(i as int), true);
        }
        if v[i] {
            r = r + 1;
        }
        i = i + 1;
    }
    proof {
        assert(v@.take(v@.len() as int) =~= v@);
    }
    r
}

} // verus!

verus! {

/// The bounding box `(y_min, y_max, x_min, x_max)` of the cells labelled `id`.
fn bounds_of(stage: &Vec<usize>, h: usize, w: usize, id: usize) -> (r: (usize, usize, usize, usize))
    requires
        stage@.len() == h * w,
        h * w <= usize::MAX,
        exists|y: int, x: int| in_bounds(h as int, w as int, y, x) && #[trigger] stage@[idx(w as int, y, x)] == id,
    ensures
        r.0 <= r.1 < h,
        r.2 <= r.3 < w,
        forall|y: int, x: int|
            in_bounds(h as int, w as int, y, x) && #[trigger] stage@[idx(w as int, y, x)] == id ==> r.0 <= y <= r.1 && r.2 <= x
                <= r.3,
        exists|x: int| 0 <= x < w && #[trigger] stage@[idx(w as int, r.0 as int, x)] == id,
        exists|x: int| 0 <= x < w && #[trigger] stage@[idx(w as int, r.1 as int, x)] == id,
        exists|y: int| 0 <= y < h && #[trigger] stage@[idx(w as int, y, r.2 as int)] == id,
        exists|y: int| 0 <= y < h && #[trigger] stage@[idx(w as int, y, r.3 as int)] == id,
{
    let mut found = false;
    let mut y_min: usize = 0;
    let mut y_max: usize = 0;
    let mut x_min: usize = 0;
    let mut x_max: usize = 0;
    let ghost mut wx0: int = 0;
    let ghost mut wx1: int = 0;
    let ghost mut wy0: int = 0;
    let ghost mut wy1: int = 0;
    let mut y: usize = 0;
    while y < h
        invariant
            stage@.len() == h * w,
            h * w <= usize::MAX,
            y <= h,
            found ==> y_min <= y_max < h && x_min <= x_max < w,
            found ==> 0 <= wx0 < w && stage@[idx(w as int, y_min as int, wx0)] == id,
            found ==> 0 <= wx1 < w && stage@[idx(w as int, y_max as int, wx1)] == id,
            found ==> 0 <= wy0 < h && stage@[idx(w as int, wy0, x_min as int)] == id,
            found ==> 0 <= wy1 < h && stage@[idx(w as int, wy1, x_max as int)] == id,
            forall|yy: int, xx: int|
                in_bounds(h as int, w as int, yy, xx) && yy < y && #[trigger] stage@[idx(w as int, yy, xx)] == id ==> found
                    && y_min <= yy <= y_max && x_min <= xx <= x_max,
        decreases h - y,
    {
        let mut x: usize = 0;
        while x < w
            invariant
                stage@.len() == h * w,
                h * w <= usize::MAX,
                y < h,
                x <= w,
                found ==> y_min <= y_max < h && x_min <= x_max < w,
                found ==> 0 <= wx0 < w && stage@[idx(w as int, y_min as int, wx0)] == id,
                found ==> 0 <= wx1 < w && stage@[idx(w as int, y_max as int, wx1)] == id,
                found ==> 0 <= wy0 < h && stage@[idx(w as int, wy0, x_min as int)] == id,
                found ==> 0 <= wy1 < h && stage@[idx(w as int, wy1, x_max as int)] == id,
                forall|yy: int, xx: int|
                    in_bounds(h as int, w as int, yy, xx) && (yy < y || (yy == y && xx < x)) && #[trigger] stage@[idx(
                        w as int,
                        yy,
                        xx,
                    )] == id ==> found && y_min <= yy <= y_max && x_min <= xx <= x_max,
            decreases w - x,
        {
            proof {
                lemma_idx_bounds(h as int, w as int, y as int, x as int);
            }
            if stage[y * w + x] == id {
                if !found {
                    found = true;
                    y_min = y;
                    y_max = y;
                    x_min = x;
                    x_max = x;
                    proof {
                        wx0 = x as int;
                        wx1 = x as int;
                        wy0 = y as int;
                        wy1 = y as int;
                    }
                } else {
                    if y < y_min {
                        y_min = y;
                        proof { wx0 = x as int; }
                    }
                    if y > y_max {
                        y_max = y;
                        proof { wx1 = x as int; }
                    }
                    if x < x_min {
                        x_min = x;
                        proof { wy0 = y as int; }
                    }
                    if x > x_max {
                        x_max = x;
                        proof { wy1 = y as int; }
                    }
                }
            }
            x = x + 1;
        }
        y = y + 1;
    }
    proof {
        let (sy, sx) = choose|sy: int, sx: int| in_bounds(h as int, w as int, sy, sx) && #[trigger] stage@[idx(w as int, sy, sx)] == id;
        assert(found);
        assert(stage@[idx(w as int, y_min as int, wx0)] == id);
        assert(stage@[idx(w as int, y_max as int, wx1)] == id);
        assert(stage@[idx(w as int, wy0, x_min as int)] == id);
        assert(stage@[idx(w as int, wy1, x_max as int)] == id);
    }
    (y_min, y_max, x_min, x_max)
}

} // verus!

verus! {

/// Splits a mask into its 4-connected groups of accepted cells, in the
/// raster order of each group's first cell.
pub fn segment(map: &Grid<bool>) -> (segs: Vec<Segment>)
    requires
        map.wf(),
        map.size() + 2 <= usize::MAX,
    ensures
        forall|j: int| 0 <= j < segs@.len() ==> (#[trigger] segs@[j]).fits(map.h as int, map.w as int),
        forall|j: int, y: int, x: int|
            0 <= j < segs@.len() && in_bounds(map.h as int, map.w as int, y, x) && #[trigger] segs@[j].holds(y, x)
                ==> map.at(y, x),
        forall|y: int, x: int|
            in_bounds(map.h as int, map.w as int, y, x) && #[trigger] map.at(y, x) ==> exists|j: int|
                0 <= j < segs@.len() && #[trigger] segs@[j].holds(y, x),
        forall|j1: int, j2: int, y2: int, x2: int|
            0 <= j1 < j2 < segs@.len() && in_bounds(map.h as int, map.w as int, y2, x2) && #[trigger] segs@[j2].holds(y2, x2)
                && #[trigger] segs@[j1].fits(map.h as int, map.w as int) ==> exists|y1: int, x1: int|
                in_bounds(map.h as int, map.w as int, y1, x1) && #[trigger] segs@[j1].holds(y1, x1) && idx(map.w as int, y1, x1)
                    < idx(map.w as int, y2, x2),
        forall|j1: int, j2: int, y: int, x: int|
            0 <= j1 < segs@.len() && 0 <= j2 < segs@.len() && in_bounds(map.h as int, map.w as int, y, x)
                && #[trigger] segs@[j1].holds(y, x) && #[trigger] segs@[j2].holds(y, x) ==> j1 == j2,
        forall|j: int| 0 <= j < segs@.len() ==> (#[trigger] segs@[j]).connected(),
        forall|j: int, y: int, x: int, y2: int, x2: int|
            0 <= j < segs@.len() && in_bounds(map.h as int, map.w as int, y2, x2) && adjacent((y, x), (y2, x2))
                && #[trigger] segs@[j].holds(y, x) && #[trigger] map.at(y2, x2) ==> segs@[j].holds(y2, x2),
{
    let h = map.h;
    let w = map.w;
    let n = map.cells.len();
    let mut stage: Vec<usize> = Vec::new();
    let mut i: usize = 0;
    while i < n
        invariant
            n == map.cells@.len(),
            i <= n,
            stage@.len() == i,
            forall|j: int| 0 <= j < i ==> #[trigger] stage@[j] == (if map.cells@[j] { 1usize } else { 0usize }),
        decreases n - i,
    {
        stage.push(if map.cells[i] { 1 } else { 0 });
        i = i + 1;
    }
    let ghost s0 = stage@;
    let mut segs: Vec<Segment> = Vec::new();
    let ghost mut seeds: Seq<int> = Seq::empty();
    let mut y: usize = 0;
    while y < h
        invariant
            n == map.cells@.len() == stage@.len() == s0.len() == h * w,
            h == map.h,
            w == map.w,
            n + 2 <= usize::MAX,
            y <= h,
            forall|j: int| 0 <= j < n ==> #[trigger] s0[j] == (if map.cells@[j] { 1usize } else { 0usize }),
            forall|j: int| 0 <= j < n ==> (#[trigger] stage@[j] == 0 <==> !map.cells@[j]),
            forall|j: int| 0 <= j < n ==> #[trigger] stage@[j] < segs@.len() + 2,
            forall|j: int| 0 <= j < y * w ==> #[trigger] stage@[j] != 1,
            relabelled_any(s0, stage@),
            seeds.len() == segs@.len(),
            forall|j: int| 0 <= j < seeds.len() ==> 0 <= #[trigger] seeds[j] < n && stage@[seeds[j]] == (j + 2) as usize,
            forall|j1: int, j2: int| 0 <= j1 < j2 < seeds.len() ==> #[trigger] seeds[j1] < #[trigger] seeds[j2],
            forall|j: int, i: int| #![trigger seeds[j], stage@[i]] 0 <= j < seeds.len() && 0 <= i < n && stage@[i] == (j + 2) as usize ==> seeds[j] <= i,
            forall|j: int| 0 <= j < seeds.len() ==> #[trigger] seeds[j] < y * w,
            segs@.len() <= count_of(s0, 1) - count_of(stage@, 1),
            forall|j: int| 0 <= j < segs@.len() ==> labelled_as(#[trigger] segs@[j], stage@, h as int, w as int, (j + 2) as usize),
            forall|j: int| 0 <= j < segs@.len() ==> #[trigger] label_closed(stage@, h as int, w as int, (j + 2) as usize) && label_rooted(stage@, h as int, w as int, (j + 2) as usize),
        decreases h - y,
    {
        let mut x: usize = 0;
        while x < w
            invariant
                n == map.cells@.len() == stage@.len() == s0.len() == h * w,
                h == map.h,
                w == map.w,
                n + 2 <= usize::MAX,
                y < h,
                x <= w,
                forall|j: int| 0 <= j < n ==> #[trigger] s0[j] == (if map.cells@[j] { 1usize } else { 0usize }),
                forall|j: int| 0 <= j < n ==> (#[trigger] stage@[j] == 0 <==> !map.cells@[j]),
                forall|j: int| 0 <= j < n ==> #[trigger] stage@[j] < segs@.len() + 2,
                forall|j: int| 0 <= j < y * w + x ==> #[trigger] stage@[j] != 1,
                relabelled_any(s0, stage@),
                seeds.len() == segs@.len(),
                forall|j: int| 0 <= j < seeds.len() ==> 0 <= #[trigger] seeds[j] < n && stage@[seeds[j]] == (j + 2) as usize,
                forall|j1: int, j2: int| 0 <= j1 < j2 < seeds.len() ==> #[trigger] seeds[j1] < #[trigger] seeds[j2],
                forall|j: int, i: int| #![trigger seeds[j], stage@[i]] 0 <= j < seeds.len() && 0 <= i < n && stage@[i] == (j + 2) as usize ==> seeds[j] <= i,
                forall|j: int| 0 <= j < seeds.len() ==> #[trigger] seeds[j] < y * w + x,
                segs@.len() <= count_of(s0, 1) - count_of(stage@, 1),
                forall|j: int| 0 <= j < segs@.len() ==> labelled_as(#[trigger] segs@[j], stage@, h as int, w as int, (j + 2) as usize),
                forall|j: int| 0 <= j < segs@.len() ==> #[trigger] label_closed(stage@, h as int, w as int, (j + 2) as usize) && label_rooted(stage@, h as int, w as int, (j + 2) as usize),
            decreases w - x,
        {
            proof {
                lemma_idx_bounds(h as int, w as int, y as int, x as int);
                lemma_count_le(s0, 1);
                lemma_count_le(stage@, 1);
            }
            if stage[y * w + x] == 1 {
                let id = segs.len() + 2;
                let ghost s1 = stage@;
                fill(&mut stage, h, w, (y, x), id);
                proof {
                    assert forall|j: int| 0 <= j < n implies #[trigger] stage@[j] == s1[j] || (s1[j] == 1 && stage@[j] == id) by {}
                    assert(stage@[idx(w as int, y as int, x as int)] == id);
                }
                let (y_min, y_max, x_min, x_max) = bounds_of(&stage, h, w, id);
                let sh = y_max - y_min + 1;
                let sw = x_max - x_min + 1;
                let cells = crop(&stage, h, w, y_min, x_min, sh, sw, id);
                let size = count_true(&cells.cells);
                let seg = Segment { map: cells, map_size: size, x: x_min, y: y_min };
                proof {
                    let ghost s2 = stage@;
                    assert forall|j: int| 0 <= j < segs@.len() implies labelled_as(
                        #[trigger] segs@[j],
                        s2,
                        h as int,
                        w as int,
                        (j + 2) as usize,
                    ) by {
                        let sj = segs@[j];
                        assert forall|yy: int, xx: int| in_bounds(h as int, w as int, yy, xx) implies (#[trigger] sj.holds(yy, xx)
                            <==> s2[idx(w as int, yy, xx)] == (j + 2) as usize) by {
                            lemma_idx_bounds(h as int, w as int, yy, xx);
                            assert(sj.holds(yy, xx) <==> s1[idx(w as int, yy, xx)] == (j + 2) as usize);
                        }
                    }
                    assert forall|yy: int, xx: int| in_bounds(h as int, w as int, yy, xx) implies (#[trigger] seg.holds(yy, xx)
                        <==> s2[idx(w as int, yy, xx)] == id) by {
                        if s2[idx(w as int, yy, xx)] == id {
                            assert(seg.map.at(yy - y_min, xx - x_min) == (s2[idx(w as int, y_min + (yy - y_min), x_min + (xx - x_min))] == id));
                        }
                        if seg.holds(yy, xx) {
                            assert(seg.map.at(yy - y_min, xx - x_min) == (s2[idx(w as int, y_min + (yy - y_min), x_min + (xx - x_min))] == id));
                        }
                    }
                    let wx0 = choose|x: int| 0 <= x < w && #[trigger] s2[idx(w as int, y_min as int, x)] == id;
                    assert(seg.map.at(0, wx0 - x_min) == (s2[idx(w as int, y_min + 0, x_min + (wx0 - x_min))] == id));
                    let wx1 = choose|x: int| 0 <= x < w && #[trigger] s2[idx(w as int, y_max as int, x)] == id;
                    assert(seg.map.at(sh - 1, wx1 - x_min) == (s2[idx(w as int, y_min + (sh - 1), x_min + (wx1 - x_min))] == id));
                    let wy0 = choose|y: int| 0 <= y < h && #[trigger] s2[idx(w as int, y, x_min as int)] == id;
                    assert(seg.map.at(wy0 - y_min, 0) == (s2[idx(w as int, y_min + (wy0 - y_min), x_min + 0)] == id));
                    let wy1 = choose|y: int| 0 <= y < h && #[trigger] s2[idx(w as int, y, x_max as int)] == id;
                    assert(seg.map.at(wy1 - y_min, sw - 1) == (s2[idx(w as int, y_min + (wy1 - y_min), x_min + (sw - 1))] == id));
                    assert(seg.tight());
                    assert(labelled_as(seg, s2, h as int, w as int, id));
                    lemma_relabelled_any_step(s0, s1, s2, id);
                    lemma_count_le(s0, 1);
                    assert forall|j: int| 0 <= j < segs@.len() implies #[trigger] label_closed(s2, h as int, w as int, (j + 2) as usize)
                        && label_rooted(s2, h as int, w as int, (j + 2) as usize) by {
                        assert(label_closed(s1, h as int, w as int, (j + 2) as usize));
                        lemma_label_kept(s1, s2, h as int, w as int, (j + 2) as usize, id);
                    }
                    assert forall|yy: int, xx: int, y2: int, x2: int|
                        in_bounds(h as int, w as int, yy, xx) && in_bounds(h as int, w as int, y2, x2) && adjacent((yy, xx), (y2, x2))
                            && #[trigger] s2[idx(w as int, yy, xx)] == id implies #[trigger] s2[idx(w as int, y2, x2)] == 0
                        || s2[idx(w as int, y2, x2)] == id by {
                        lemma_idx_bounds(h as int, w as int, yy, xx);
                        lemma_idx_bounds(h as int, w as int, y2, x2);
                        let c = idx(w as int, yy, xx);
                        let q = idx(w as int, y2, x2);
                        assert(s2[c] == s1[c] || (s1[c] == 1 && s2[c] == id));
                        assert(s1[c] == 1);
                        assert(s2[q] != 1);
                        assert(s2[q] == s1[q] || (s1[q] == 1 && s2[q] == id));
                        if s2[q] != 0 && s2[q] != id {
                            let j = s1[q] - 2;
                            assert(label_closed(s1, h as int, w as int, (j + 2) as usize));
                            assert(s1[c] == 0 || s1[c] == (j + 2) as usize);
                        }
                    }
                    assert(label_closed(s2, h as int, w as int, id));
                    assert forall|yy: int, xx: int| in_bounds(h as int, w as int, yy, xx) && #[trigger] s2[idx(w as int, yy, xx)] == id
                        implies linked(s2, h as int, w as int, id, (y as int, x as int), (yy, xx)) by {
                        lemma_idx_bounds(h as int, w as int, yy, xx);
                        let c = idx(w as int, yy, xx);
                        assert(s2[c] == s1[c] || (s1[c] == 1 && s2[c] == id));
                    }
                    assert(label_rooted(s2, h as int, w as int, id));
                    assert forall|j: int| 0 <= j < y * w + x + 1 implies #[trigger] s2[j] != 1 by {
                        assert(s2[j] == s1[j] || (s1[j] == 1 && s2[j] == id));
                    }
                }
                proof {
                    let s2 = stage@;
                    let a = idx(w as int, y as int, x as int);
                    lemma_count_le(s0, 1);
                    assert forall|j: int| 0 <= j < seeds.len() implies 0 <= #[trigger] seeds[j] < n && s2[seeds[j]] == (j + 2) as usize by {
                        assert(s2[seeds[j]] == s1[seeds[j]] || (s1[seeds[j]] == 1 && s2[seeds[j]] == id));
                    }
                    assert forall|j: int, i: int| #![trigger seeds[j], s2[i]] 0 <= j < seeds.len() && 0 <= i < n && s2[i] == (j + 2) as usize implies seeds[j] <= i by {
                        assert(s2[i] == s1[i] || (s1[i] == 1 && s2[i] == id));
                    }
                    assert forall|i: int| 0 <= i < n && #[trigger] s2[i] == id implies a <= i by {
                        assert(s2[i] == s1[i] || (s1[i] == 1 && s2[i] == id));
                        if i < a {
                            assert(s1[i] != 1);
                        }
                    }
                    seeds = seeds.push(a);
                }
                segs.push(seg);
                proof {
                    assert forall|j: int| 0 <= j < segs@.len() implies labelled_as(
                        #[trigger] segs@[j],
                        stage@,
                        h as int,
                        w as int,
                        (j + 2) as usize,
                    ) by {
                        if j < segs@.len() - 1 {
                        }
                    }
                    assert forall|j: int| 0 <= j < segs@.len() implies #[trigger] label_closed(stage@, h as int, w as int, (j + 2) as usize)
                        && label_rooted(stage@, h as int, w as int, (j + 2) as usize) by {
                        if j < segs@.len() - 1 {
                        }
                    }
                }
            }
            x = x + 1;
        }
        proof {
            assert((y + 1) * w == y * w + w) by (nonlinear_arith);
        }
        y = y + 1;
    }
    proof {
        lemma_count_le(s0, 1);
        lemma_count_le(stage@, 1);
        assert forall|yy: int, xx: int|
            in_bounds(h as int, w as int, yy, xx) && #[trigger] map.at(yy, xx) implies exists|j: int|
                0 <= j < segs@.len() && #[trigger] segs@[j].holds(yy, xx) by {
            lemma_idx_bounds(h as int, w as int, yy, xx);
            let c = idx(w as int, yy, xx);
            let j = stage@[c] - 2;
            assert(labelled_as(segs@[j], stage@, h as int, w as int, (j + 2) as usize));
            assert(segs@[j].holds(yy, xx));
        }
        assert forall|j: int, yy: int, xx: int|
            0 <= j < segs@.len() && in_bounds(h as int, w as int, yy, xx) && #[trigger] segs@[j].holds(yy, xx)
                implies map.at(yy, xx) by {
            lemma_idx_bounds(h as int, w as int, yy, xx);
            assert(labelled_as(segs@[j], stage@, h as int, w as int, (j + 2) as usize));
        }
        assert forall|j1: int, j2: int, yy: int, xx: int|
            0 <= j1 < segs@.len() && 0 <= j2 < segs@.len() && in_bounds(h as int, w as int, yy, xx)
                && #[trigger] segs@[j1].holds(yy, xx) && #[trigger] segs@[j2].holds(yy, xx) implies j1 == j2 by {
            lemma_idx_bounds(h as int, w as int, yy, xx);
            assert(labelled_as(segs@[j1], stage@, h as int, w as int, (j1 + 2) as usize));
            assert(labelled_as(segs@[j2], stage@, h as int, w as int, (j2 + 2) as usize));
        }
        assert forall|j: int| 0 <= j < segs@.len() implies (#[trigger] segs@[j]).connected() by {
            let id = (j + 2) as usize;
            let sj = segs@[j];
            assert(labelled_as(sj, stage@, h as int, w as int, id));
            assert(label_closed(stage@, h as int, w as int, id));
            assert(label_rooted(stage@, h as int, w as int, id));
            let r = choose|r: (int, int)|
                in_bounds(h as int, w as int, r.0, r.1) && stage@[idx(w as int, r.0, r.1)] == id && forall|y: int, x: int|
                    in_bounds(h as int, w as int, y, x) && #[trigger] stage@[idx(w as int, y, x)] == id ==> linked(stage@, h as int, w as int, id, r, (y, x));
            assert(sj.holds(r.0, r.1));
            assert forall|yy: int, xx: int| #[trigger] sj.holds(yy, xx) implies seg_linked(sj, r, (yy, xx)) by {
                assert(sj.fits(h as int, w as int));
                assert(in_bounds(h as int, w as int, yy, xx));
                lemma_idx_bounds(h as int, w as int, yy, xx);
                assert(stage@[idx(w as int, yy, xx)] == id);
                let p = choose|p: Seq<(int, int)>| #[trigger] crate::flood::is_path(stage@, h as int, w as int, id, p) && p[0] == r && p.last() == (yy, xx);
                assert forall|k: int| 0 <= k < p.len() implies sj.holds((#[trigger] p[k]).0, p[k].1) by {
                    assert(in_bounds(h as int, w as int, p[k].0, p[k].1) && stage@[idx(w as int, p[k].0, p[k].1)] == id);
                }
                assert(seg_path(sj, p));
            }
            assert(sj.rooted_at(r));
        }
        assert forall|j1: int, j2: int, y2: int, x2: int|
            0 <= j1 < j2 < segs@.len() && in_bounds(h as int, w as int, y2, x2) && #[trigger] segs@[j2].holds(y2, x2)
                && #[trigger] segs@[j1].fits(h as int, w as int) implies exists|y1: int, x1: int|
                in_bounds(h as int, w as int, y1, x1) && #[trigger] segs@[j1].holds(y1, x1) && idx(w as int, y1, x1) < idx(w as int, y2, x2) by {
            lemma_idx_bounds(h as int, w as int, y2, x2);
            assert(labelled_as(segs@[j2], stage@, h as int, w as int, (j2 + 2) as usize));
            assert(labelled_as(segs@[j1], stage@, h as int, w as int, (j1 + 2) as usize));
            let c2 = idx(w as int, y2, x2);
            assert(stage@[c2] == (j2 + 2) as usize);
            assert(seeds[j2] <= c2);
            assert(seeds[j1] < seeds[j2]);
            let sd = seeds[j1];
            crate::grid::lemma_idx_split(h as int, w as int, sd);
            assert(segs@[j1].holds(sd / (w as int), sd % (w as int)));
        }
        assert forall|j: int, yy: int, xx: int, y2: int, x2: int|
            0 <= j < segs@.len() && in_bounds(h as int, w as int, y2, x2) && adjacent((yy, xx), (y2, x2))
                && #[trigger] segs@[j].holds(yy, xx) && #[trigger] map.at(y2, x2) implies segs@[j].holds(y2, x2) by {
            let id = (j + 2) as usize;
            let sj = segs@[j];
            assert(labelled_as(sj, stage@, h as int, w as int, id));
            assert(label_closed(stage@, h as int, w as int, id));
            assert(sj.fits(h as int, w as int));
            assert(in_bounds(h as int, w as int, yy, xx));
            lemma_idx_bounds(h as int, w as int, yy, xx);
            lemma_idx_bounds(h as int, w as int, y2, x2);
            assert(stage@[idx(w as int, yy, xx)] == id);
            assert(stage@[idx(w as int, y2, x2)] != 0);
        }
    }
    segs
}

/// Each label of `s` is its label in `s0` or a label given to a cell that
/// held 1 there.
pub open spec fn relabelled_any(s0: Seq<usize>, s: Seq<usize>) -> bool {
    s.len() == s0.len() && forall|i: int| 0 <= i < s.len() ==> #[trigger] s[i] == s0[i] || (s0[i] == 1 && s[i] >= 2)
}

proof fn lemma_relabelled_any_step(s0: Seq<usize>, s1: Seq<usize>, s2: Seq<usize>, id: usize)
    requires
        relabelled_any(s0, s1),
        relabelled(s1, s2, 1, id),
        id >= 2,
    ensures
        relabelled_any(s0, s2),
{
    assert forall|i: int| 0 <= i < s2.len() implies #[trigger] s2[i] == s0[i] || (s0[i] == 1 && s2[i] >= 2) by {
        assert(s1[i] == s0[i] || (s0[i] == 1 && s1[i] >= 2));
        assert(s2[i] == s1[i] || (s1[i] == 1 && s2[i] == id));
    }
}

} // verus!
