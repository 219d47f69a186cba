use vstd::prelude::*;

verus! {

/// A rectangular grid of `h` rows and `w` columns, stored row by row.
pub struct Grid<T> {
    pub h: usize,
    pub w: usize,
    pub cells: Vec<T>,
}

impl<T> Grid<T> {
    /// The cell vector holds exactly one entry per cell.
    pub open spec fn wf(&self) -> bool {
        self.cells@.len() == self.h * self.w
    }

    /// The value at row `y`, column `x`.
    pub open spec fn at(&self, y: int, x: int) -> T {
        self.cells@[idx(self.w as int, y, x)]
    }

    /// The number of cells.
    pub open spec fn size(&self) -> int {
        self.h * self.w
    }
}

impl Grid<u8> {
    /// A copy of the grid.
    pub fn copy(&self) -> (r: Self)
        ensures
            r.h == self.h,
            r.w == self.w,
            r.cells@ == self.cells@,
    {
        let cells = self.cells.clone();
        proof {
            assert(cells@ =~= self.cells@);
        }
        Grid { h: self.h, w: self.w, cells }
    }
}

impl Grid<bool> {
    /// A copy of the grid.
    pub fn copy(&self) -> (r: Self)
        ensures
            r.h == self.h,
            r.w == self.w,
            r.cells@ == self.cells@,
    {
        let cells = self.cells.clone();
        proof {
            assert(cells@ =~= self.cells@);
        }
        Grid { h: self.h, w: self.w, cells }
    }
}

/// Row-major position of `(y, x)` in a grid `w` columns wide.
pub open spec fn idx(w: int, y: int, x: int) -> int {
    y * w + x
}

/// Whether `(y, x)` lies inside an `h` by `w` grid.
pub open spec fn in_bounds(h: int, w: int, y: int, x: int) -> bool {
    0 <= y < h && 0 <= x < w
}

/// A row-major position of an in-bounds cell lies in the cell vector.
pub proof fn lemma_idx_bounds(h: int, w: int, y: int, x: int)
    requires
        in_bounds(h, w, y, x),
    ensures
        0 <= idx(w, y, x) < h * w,
        idx(w, y, x) + w == idx(w, y + 1, x),
{
    assert(0 <= y * w + x < h * w) by (nonlinear_arith)
        requires
            0 <= y < h,
            0 <= x < w,
    ;
    assert((y + 1) * w == y * w + w) by (nonlinear_arith);
}

/// Two in-bounds cells share a position only if they are the same cell.
pub proof fn lemma_idx_injective(h: int, w: int, y1: int, x1: int, y2: int, x2: int)
    requires
        in_bounds(h, w, y1, x1),
        in_bounds(h, w, y2, x2),
        idx(w, y1, x1) == idx(w, y2, x2),
    ensures
        y1 == y2 && x1 == x2,
{
    if y1 < y2 {
        assert(y1 * w + w <= y2 * w) by (nonlinear_arith)
            requires
                y1 < y2,
                0 <= w,
        ;
    } else if y2 < y1 {
        assert(y2 * w + w <= y1 * w) by (nonlinear_arith)
            requires
                y2 < y1,
                0 <= w,
        ;
    }
}

/// Splits a row-major position back into its row and column.
pub proof fn lemma_idx_split(h: int, w: int, i: int)
    requires
        0 <= h,
        0 <= w,
        0 <= i < h * w,
    ensures
        in_bounds(h, w, i / w, i % w),
        idx(w, i / w, i % w) == i,
{
    assert(w > 0) by (nonlinear_arith)
        requires
            0 <= i < h * w,
            0 <= h,
            0 <= w,
    ;
    vstd::arithmetic::div_mod::lemma_fundamental_div_mod(i, w);
    assert(i / w < h) by (nonlinear_arith)
        requires
            0 <= i < h * w,
            w > 0,
            i == w * (i / w) + i % w,
            0 <= i % w < w,
    ;
    assert(0 <= i / w) by (nonlinear_arith)
        requires
            0 <= i,
            w > 0,
            i == w * (i / w) + i % w,
            i % w < w,
    ;
    assert(idx(w, i / w, i % w) == i) by (nonlinear_arith)
        requires
            i == w * (i / w) + i % w,
    ;
}

/// How many entries of `s` equal `v`.
pub open spec fn count_of<T>(s: Seq<T>, v: T) -> nat
    decreases s.len(),
{
    if s.len() == 0 {
        0
    } else {
        count_of(s.drop_last(), v) + if s.last() == v {
            1nat
        } else {
            0nat
        }
    }
}

/// A count never exceeds the length.
pub proof fn lemma_count_le<T>(s: Seq<T>, v: T)
    ensures
        count_of(s, v) <= s.len(),
    decreases s.len(),
{
    if s.len() > 0 {
        lemma_count_le(s.drop_last(), v);
    }
}

/// Rewriting one entry moves one unit of count from its old value to its new one.
pub proof fn lemma_count_update<T>(s: Seq<T>, i: int, a: T, v: T)
    requires
        0 <= i < s.len(),
    ensures
        count_of(s.update(i, a), v) == count_of(s, v) - (if s[i] == v {
            1int
        } else {
            0int
        }) + (if a == v {
            1int
        } else {
            0int
        }),
    decreases s.len(),
{
    let t = s.update(i, a);
    if i == s.len() - 1 {
        assert(t.drop_last() =~= s.drop_last());
    } else {
        assert(t.drop_last() =~= s.drop_last().update(i, a));
        lemma_count_update(s.drop_last(), i, a, v);
    }
}

/// Counting over a prefix extended by one entry.
pub proof fn lemma_count_take<T>(s: Seq<T>, n: int, v: T)
    requires
        0 <= n < s.len(),
    ensures
        count_of(s.take(n + 1), v) == count_of(s.take(n), v) + (if s[n] == v {
            1int
        } else {
            0int
        }),
{
    assert(s.take(n + 1).drop_last() =~= s.take(n));
}

/// No entry equal to `v` means a zero count.
pub proof fn lemma_count_none<T>(s: Seq<T>, v: T)
    requires
        forall|i: int| 0 <= i < s.len() ==> s[i] != v,
    ensures
        count_of(s, v) == 0,
    decreases s.len(),
{
    if s.len() > 0 {
        lemma_count_none(s.drop_last(), v);
    }
}

/// Where every entry of `s` equal to `a` lines up with an entry of `t` equal
/// to `b`, `s` counts no more `a` than `t` counts `b`.
pub proof fn lemma_count_mono<A, B>(s: Seq<A>, a: A, t: Seq<B>, b: B)
    requires
        s.len() == t.len(),
        forall|i: int| 0 <= i < s.len() && s[i] == a ==> t[i] == b,
    ensures
        count_of(s, a) <= count_of(t, b),
    decreases s.len(),
{
    if s.len() > 0 {
        lemma_count_mono(s.drop_last(), a, t.drop_last(), b);
    }
}

/// An entry equal to `v` makes the count positive.
pub proof fn lemma_count_pos<T>(s: Seq<T>, v: T, i: int)
    requires
        0 <= i < s.len(),
        s[i] == v,
    ensures
        count_of(s, v) >= 1,
    decreases s.len(),
{
    if i < s.len() - 1 {
        lemma_count_pos(s.drop_last(), v, i);
    }
}

/// The `true` and `false` entries of a boolean sequence add up to its length.
pub proof fn lemma_count_complement(s: Seq<bool>)
    ensures
        count_of(s, true) + count_of(s, false) == s.len(),
    decreases s.len(),
{
    if s.len() > 0 {
        lemma_count_complement(s.drop_last());
    }
}

} // verus!
