use vstd::prelude::*;
use crate::flood::{closed_at, fill, linked};
use crate::grid::{Grid, count_of, idx, in_bounds, lemma_count_take, lemma_count_update, lemma_idx_bounds, lemma_count_le, lemma_count_none, lemma_count_mono};
use crate::layout::{
    covered_before, hits, lemma_anchor, lemma_covered_empty, lemma_covered_next, lemma_covered_step,
    lemma_piece_index_bound, occupancy, occupied, piece_count, piece_index, pieces_disjoint,
    pieces_in_bounds, placement_valid, shapes_known, square_at,
};
use crate::piece::is_shape;

verus! {

/// Squares of pieces anchored before `(n, kk)` in raster order, with `kk`
/// counting the squares already placed of the piece anchored at `n`.
pub open spec fn square_before(n: int, kk: int, a: int, k: int) -> bool {
    0 <= a && 0 <= k < 4 && (a < n || (a == n && k < kk))
}

/// No two squares placed before `(n, kk)` share a cell.
pub open spec fn squares_disjoint(p: Grid<u8>, n: int, kk: int) -> bool {
    forall|a1: int, k1: int, a2: int, k2: int, i: int|
        square_before(n, kk, a1, k1) && square_before(n, kk, a2, k2) && #[trigger] hits(p, a1, k1, i)
            && #[trigger] hits(p, a2, k2, i) ==> a1 == a2 && k1 == k2
}

/// Every square placed before `(n, kk)` lies inside the grid.
pub open spec fn squares_in_bounds(p: Grid<u8>, n: int, kk: int) -> bool {
    forall|a: int, k: int|
        square_before(n, kk, a, k) && p.cells@[a] != 0 ==> #[trigger] piece_index(
            p.h as int,
            p.w as int,
            a,
            p.cells@[a],
            k,
        ) >= 0
}

/// Expands every piece onto an occupancy vector, failing on a square outside
/// the grid or on a cell that an earlier square already holds.
fn lay_checked(data: &Grid<u8>) -> (r: Option<(Vec<bool>, usize)>)
    requires
        data.wf(),
        shapes_known(*data),
    ensures
        r is Some <==> pieces_in_bounds(*data) && pieces_disjoint(*data),
        r matches Some((occ, filled)) ==> occ@ == occupancy(*data) && filled == count_of(occ@, true)
            && filled == 4 * piece_count(*data),
{
    let h = data.h;
    let w = data.w;
    let n = data.cells.len();
    let mut stage: Vec<bool> = vec![false; n];
    let mut filled: usize = 0;
    let mut y: usize = 0;
    proof {
        assert(count_of(stage@, true) == 0) by {
            lemma_count_none(stage@, true);
        }
        assert(data.cells@.take(0) =~= Seq::<u8>::empty());
    }
    while y < h
        invariant
            n == data.cells@.len() == h * w,
            h == data.h,
            w == data.w,
            data.wf(),
            shapes_known(*data),
            y <= h,
            stage@.len() == n,
            forall|i: int|
                0 <= i < n ==> #[trigger] stage@[i] == covered_before(*data, y * w, 0, i),
            squares_disjoint(*data, y * w, 0),
            squares_in_bounds(*data, y * w, 0),
            filled == count_of(stage@, true),
            filled == 4 * (y * w - count_of(data.cells@.take(y * w), 0u8)),
        decreases h - y,
    {
        let mut x: usize = 0;
        while x < w
            invariant
                n == data.cells@.len() == h * w,
                h == data.h,
                w == data.w,
                data.wf(),
                shapes_known(*data),
                y < h,
                x <= w,
                stage@.len() == n,
                forall|i: int|
                    0 <= i < n ==> #[trigger] stage@[i] == covered_before(*data, y * w + x, 0, i),
                squares_disjoint(*data, y * w + x, 0),
                squares_in_bounds(*data, y * w + x, 0),
                filled == count_of(stage@, true),
                filled == 4 * (y * w + x - count_of(data.cells@.take(y * w + x), 0u8)),
            decreases w - x,
        {
            proof {
                lemma_idx_bounds(h as int, w as int, y as int, x as int);
                lemma_count_take(data.cells@, (y * w + x) as int, 0u8);
                lemma_count_le(stage@, true);
            }
            let a = y * w + x;
            let v = data.cells[a];
            if v != 0 {
                let mut k: usize = 0;
                while k < 4
                    invariant
                        n == data.cells@.len() == h * w,
                        h == data.h,
                        w == data.w,
                        y < h,
                        x < w,
                        a == y * w + x,
                        a < n,
                        v == data.cells@[a as int],
                        is_shape(v),
                        k <= 4,
                        stage@.len() == n,
                        forall|i: int|
                            0 <= i < n ==> #[trigger] stage@[i] == covered_before(*data, a as int, k as int, i),
                        squares_disjoint(*data, a as int, k as int),
                        squares_in_bounds(*data, a as int, k as int),
                        filled == count_of(stage@, true),
                        filled == 4 * (a - count_of(data.cells@.take(a as int), 0u8)) + k,
                    decreases 4 - k,
                {
                    let sq = square_at(h, w, y, x, v, k);
                    proof {
                        assert(a as int == idx(w as int, y as int, x as int));
                        lemma_count_le(stage@, true);
                    }
                    match sq {
                        None => {
                            proof {
                                assert(piece_index(h as int, w as int, a as int, v, k as int) < 0);
                            }
                            return None;
                        },
                        Some(c) => {
                            if stage[c] {
                                proof {
                                    assert(covered_before(*data, a as int, k as int, c as int));
                                    assert(hits(*data, a as int, k as int, c as int));
                                    if exists|j: int| 0 <= j < k && #[trigger] hits(*data, a as int, j, c as int) {
                                        let j = choose|j: int| 0 <= j < k && #[trigger] hits(*data, a as int, j, c as int);
                                        assert(hits(*data, a as int, j, c as int));
                                    } else {
                                        let (b, j) = choose|b: int, j: int|
                                            0 <= b < a && 0 <= j < 4 && #[trigger] hits(*data, b, j, c as int);
                                        assert(hits(*data, b, j, c as int));
                                    }
                                }
                                return None;
                            }
                            let ghost before = stage@;
                            proof {
                                lemma_count_update(stage@, c as int, true, true);
                                lemma_count_le(stage@.update(c as int, true), true);
                            }
                            stage.set(c, true);
                            filled = filled + 1;
                            proof {
                                assert forall|i: int| 0 <= i < n implies #[trigger] stage@[i] == covered_before(
                                    *data,
                                    a as int,
                                    k + 1,
                                    i,
                                ) by {
                                    lemma_covered_step(*data, a as int, k as int, i);
                                    assert(before[i] == covered_before(*data, a as int, k as int, i));
                                }
                                assert forall|a1: int, k1: int, a2: int, k2: int, i: int|
                                    square_before(a as int, k + 1, a1, k1) && square_before(a as int, k + 1, a2, k2)
                                        && #[trigger] hits(*data, a1, k1, i) && #[trigger] hits(*data, a2, k2, i)
                                    implies a1 == a2 && k1 == k2 by {
                                    if square_before(a as int, k as int, a1, k1) && square_before(a as int, k as int, a2, k2) {
                                    } else if square_before(a as int, k as int, a1, k1) {
                                        lemma_piece_index_bound(h as int, w as int, a1, data.cells@[a1], k1);
                                        assert(covered_before(*data, a as int, k as int, i)) by {
                                            if a1 < a {
                                                assert(0 <= a1 < a && 0 <= k1 < 4 && hits(*data, a1, k1, i));
                                            } else {
                                                assert(0 <= k1 < k && hits(*data, a as int, k1, i));
                                            }
                                        }
                                        assert(before[i]);
                                    } else if square_before(a as int, k as int, a2, k2) {
                                        lemma_piece_index_bound(h as int, w as int, a2, data.cells@[a2], k2);
                                        assert(covered_before(*data, a as int, k as int, i)) by {
                                            if a2 < a {
                                                assert(0 <= a2 < a && 0 <= k2 < 4 && hits(*data, a2, k2, i));
                                            } else {
                                                assert(0 <= k2 < k && hits(*data, a as int, k2, i));
                                            }
                                        }
                                        assert(before[i]);
                                    }
                                }
                            }
                        },
                    }
                    k = k + 1;
                }
            } else {
                proof {
                    assert forall|i: int| 0 <= i < n implies covered_before(*data, a as int, 4, i)
                        == covered_before(*data, a as int, 0, i) by {
                        lemma_covered_empty(*data, a as int, i);
                    }
                }
            }
            proof {
                assert forall|i: int| 0 <= i < n implies covered_before(*data, a as int, 4, i)
                    == covered_before(*data, a + 1, 0, i) by {
                    lemma_covered_next(*data, a as int, i);
                }
                assert forall|a1: int, k1: int|
                    square_before(a + 1, 0, a1, k1) implies square_before(a as int, 4, a1, k1) by {}
            }
            x = x + 1;
        }
        proof {
            assert((y + 1) * w == y * w + w) by (nonlinear_arith);
        }
        y = y + 1;
    }
    proof {
        assert(data.cells@.take(n as int) =~= data.cells@);
        assert forall|i: int| 0 <= i < n implies covered_before(*data, n as int, 0, i) == occupied(*data, i) by {}
        assert(stage@ =~= occupancy(*data));
    }
    Some((stage, filled))
}

} // verus!

verus! {

/// Some 4-neighbour of `(y, x)` is filled.
pub open spec fn touches_filled(occ: Seq<bool>, h: int, w: int, y: int, x: int) -> bool {
    (y > 0 && occ[idx(w, y - 1, x)]) || (y + 1 < h && occ[idx(w, y + 1, x)]) || (x > 0 && occ[idx(
        w,
        y,
        x - 1,
    )]) || (x + 1 < w && occ[idx(w, y, x + 1)])
}

/// `(y, x)` lies on the border of the grid or next to a rejected cell.
pub open spec fn on_edge(m: Grid<bool>, y: int, x: int) -> bool {
    y == 0 || x == 0 || y == m.h - 1 || x == m.w - 1 || !m.at(y - 1, x) || !m.at(y + 1, x) || !m.at(
        y,
        x - 1,
    ) || !m.at(y, x + 1)
}

/// Accepted, unfilled cells next to a filled cell.
pub open spec fn surface_cells(m: Grid<bool>, occ: Seq<bool>) -> Seq<bool> {
    Seq::new(
        occ.len(),
        |i: int| m.cells@[i] && !occ[i] && touches_filled(occ, m.h as int, m.w as int, i / (m.w as int), i % (m.w as int)),
    )
}

/// Accepted, filled cells on the border or next to a rejected cell.
pub open spec fn edge_cells(m: Grid<bool>, occ: Seq<bool>) -> Seq<bool> {
    Seq::new(occ.len(), |i: int| m.cells@[i] && occ[i] && on_edge(m, i / (m.w as int), i % (m.w as int)))
}

/// Accepted cells left unfilled.
pub open spec fn empty_cells(m: Grid<bool>, occ: Seq<bool>) -> Seq<bool> {
    Seq::new(occ.len(), |i: int| m.cells@[i] && !occ[i])
}

fn touches_filled_at(occ: &Vec<bool>, h: usize, w: usize, y: usize, x: usize) -> (r: bool)
    requires
        occ@.len() == h * w,
        h * w <= usize::MAX,
        in_bounds(h as int, w as int, y as int, x as int),
    ensures
        r == touches_filled(occ@, h as int, w as int, y as int, x as int),
{
    let mut r = false;
    if y > 0 {
        proof { lemma_idx_bounds(h as int, w as int, y - 1, x as int); }
        r = r || occ[(y - 1) * w + x];
    }
    if y + 1 < h {
        proof { lemma_idx_bounds(h as int, w as int, y + 1, x as int); }
        r = r || occ[(y + 1) * w + x];
    }
    if x > 0 {
        proof { lemma_idx_bounds(h as int, w as int, y as int, x - 1); }
        r = r || occ[y * w + x - 1];
    }
    if x + 1 < w {
        proof { lemma_idx_bounds(h as int, w as int, y as int, x + 1); }
        r = r || occ[y * w + x + 1];
    }
    r
}

fn on_edge_at(map: &Grid<bool>, y: usize, x: usize) -> (r: bool)
    requires
        map.wf(),
        map.size() <= usize::MAX,
        in_bounds(map.h as int, map.w as int, y as int, x as int),
    ensures
        r == on_edge(*map, y as int, x as int),
{
    let h = map.h;
    let w = map.w;
    if y == 0 || x == 0 || y == h - 1 || x == w - 1 {
        return true;
    }
    proof {
        lemma_idx_bounds(h as int, w as int, y - 1, x as int);
        lemma_idx_bounds(h as int, w as int, y + 1, x as int);
        lemma_idx_bounds(h as int, w as int, y as int, x - 1);
        lemma_idx_bounds(h as int, w as int, y as int, x + 1);
    }
    !map.cells[(y - 1) * w + x] || !map.cells[(y + 1) * w + x] || !map.cells[y * w + x - 1]
        || !map.cells[y * w + x + 1]
}

/// Counts surface and edge cells, failing when a filled cell is rejected.
fn scan(map: &Grid<bool>, occ: &Vec<bool>) -> (r: Option<(i32, i32)>)
    requires
        map.wf(),
        occ@.len() == map.cells@.len(),
        map.size() <= i32::MAX,
    ensures
        r is Some <==> forall|i: int| 0 <= i < occ@.len() && #[trigger] occ@[i] ==> map.cells@[i],
        r matches Some((surface, edge)) ==> surface == count_of(surface_cells(*map, occ@), true) && edge
            == count_of(edge_cells(*map, occ@), true),
{
    let h = map.h;
    let w = map.w;
    let n = map.cells.len();
    let ghost sf = surface_cells(*map, occ@);
    let ghost ef = edge_cells(*map, occ@);
    let mut surface: i32 = 0;
    let mut edge: i32 = 0;
    let mut y: usize = 0;
    proof {
        assert(sf.take(0) =~= Seq::<bool>::empty());
        assert(ef.take(0) =~= Seq::<bool>::empty());
    }
    while y < h
        invariant
            n == map.cells@.len() == occ@.len() == h * w,
            n <= i32::MAX,
            h == map.h,
            w == map.w,
            sf == surface_cells(*map, occ@),
            ef == edge_cells(*map, occ@),
            y <= h,
            surface == count_of(sf.take(y * w), true),
            edge == count_of(ef.take(y * w), true),
            forall|i: int| 0 <= i < y * w && #[trigger] occ@[i] ==> map.cells@[i],
        decreases h - y,
    {
        let mut x: usize = 0;
        while x < w
            invariant
                n == map.cells@.len() == occ@.len() == h * w,
                n <= i32::MAX,
                h == map.h,
                w == map.w,
                sf == surface_cells(*map, occ@),
                ef == edge_cells(*map, occ@),
                y < h,
                x <= w,
                surface == count_of(sf.take(y * w + x), true),
                edge == count_of(ef.take(y * w + x), true),
                forall|i: int| 0 <= i < y * w + x && #[trigger] occ@[i] ==> map.cells@[i],
            decreases w - x,
        {
            proof {
                lemma_idx_bounds(h as int, w as int, y as int, x as int);
                lemma_anchor(w as int, y as int, x as int);
                lemma_count_take(sf, (y * w + x) as int, true);
                lemma_count_take(ef, (y * w + x) as int, true);
                lemma_count_le(sf.take(y * w + x), true);
                lemma_count_le(ef.take(y * w + x), true);
            }
            let a = y * w + x;
            if map.cells[a] {
                if !occ[a] {
                    if touches_filled_at(occ, h, w, y, x) {
                        surface = surface + 1;
                    }
                } else {
                    if on_edge_at(map, y, x) {
                        edge = edge + 1;
                    }
                }
            } else if occ[a] {
                return None;
            }
            x = x + 1;
        }
        proof {
            assert((y + 1) * w == y * w + w) by (nonlinear_arith);
        }
        y = y + 1;
    }
    proof {
        assert(sf.take(n as int) =~= sf);
        assert(ef.take(n as int) =~= ef);
    }
    Some((surface, edge))
}

/// Builds a label vector: `hit` where `occ` is true, `miss` elsewhere, and
/// `other` on rejected cells when `map` is given.
fn labels(map: &Grid<bool>, occ: &Vec<bool>, hit: usize, miss: usize, other: usize) -> (r: Vec<usize>)
    requires
        map.wf(),
        occ@.len() == map.cells@.len(),
    ensures
        r@.len() == occ@.len(),
        forall|i: int|
            0 <= i < r@.len() ==> #[trigger] r@[i] == (if occ@[i] {
                hit
            } else if map.cells@[i] {
                miss
            } else {
                other
            }),
{
    let mut r: Vec<usize> = Vec::new();
    let mut i: usize = 0;
    while i < occ.len()
        invariant
            occ@.len() == map.cells@.len(),
            i <= occ@.len(),
            r@.len() == i,
            forall|j: int|
                0 <= j < i ==> #[trigger] r@[j] == (if occ@[j] {
                    hit
                } else if map.cells@[j] {
                    miss
                } else {
                    other
                }),
        decreases occ@.len() - i,
    {
        if occ[i] {
            r.push(hit);
        } else if map.cells[i] {
            r.push(miss);
        } else {
            r.push(other);
        }
        i = i + 1;
    }
    r
}

/// Cell `c` holds `label`, and no cell earlier in raster order is joined to
/// it by a walk of cells holding `label`: the first cell of its group.
pub open spec fn group_head(s: Seq<usize>, h: int, w: int, label: usize, c: (int, int)) -> bool {
    &&& in_bounds(h, w, c.0, c.1)
    &&& s[idx(w, c.0, c.1)] == label
    &&& forall|c2: (int, int)|
        in_bounds(h, w, c2.0, c2.1) && idx(w, c2.0, c2.1) < idx(w, c.0, c.1) ==> !#[trigger] linked(s, h, w, label, c2, c)
}

/// For each position, whether it is the first cell of a group of `label`
/// cells; their count is the number of 4-connected groups.
pub open spec fn group_heads(s: Seq<usize>, h: int, w: int, label: usize) -> Seq<bool> {
    Seq::new(s.len(), |i: int| group_head(s, h, w, label, (i / w, i % w)))
}

/// Labels 1 where `b` is true, 0 elsewhere.
pub open spec fn mark(b: Seq<bool>) -> Seq<usize> {
    Seq::new(b.len(), |i: int| if b[i] { 1usize } else { 0usize })
}

/// A walk of 1-cells that starts on a relabelled cell stays on relabelled
/// cells while every relabelled cell has no neighbour left at 1.
proof fn lemma_walk_relabelled(s0: Seq<usize>, s: Seq<usize>, h: int, w: int, p: Seq<(int, int)>, k: int)
    requires
        crate::flood::is_path(s0, h, w, 1, p),
        s.len() == s0.len() == h * w,
        crate::flood::relabelled(s0, s, 1, 2),
        s[idx(w, p[0].0, p[0].1)] == 2,
        forall|y: int, x: int| in_bounds(h, w, y, x) && #[trigger] s[idx(w, y, x)] == 2 ==> closed_at(s, h, w, 1, y, x),
        0 <= k < p.len(),
    ensures
        s[idx(w, p[k].0, p[k].1)] == 2,
    decreases k,
{
    if k > 0 {
        lemma_walk_relabelled(s0, s, h, w, p, k - 1);
        let a = p[k - 1];
        let b = p[k];
        assert(in_bounds(h, w, a.0, a.1));
        assert(in_bounds(h, w, b.0, b.1) && s0[idx(w, b.0, b.1)] == 1);
        lemma_idx_bounds(h, w, b.0, b.1);
        let ib = idx(w, b.0, b.1);
        assert(crate::flood::adjacent(p[k - 1], p[k]));
        assert(closed_at(s, h, w, 1, a.0, a.1));
        assert(s[ib] == s0[ib] || (s0[ib] == 1 && s[ib] == 2));
    }
}

/// The number of cells joined to cell `c` by walks of `label` cells: the size
/// of `c`'s group.
pub open spec fn group_size(s: Seq<usize>, h: int, w: int, label: usize, c: (int, int)) -> nat {
    count_of(Seq::new(s.len(), |j: int| linked(s, h, w, label, c, (j / w, j % w))), true)
}

/// For each position, whether it heads a group whose size is not a multiple of 4.
pub open spec fn odd_heads(s: Seq<usize>, h: int, w: int, label: usize) -> Seq<bool> {
    Seq::new(
        s.len(),
        |i: int| group_head(s, h, w, label, (i / w, i % w)) && group_size(s, h, w, label, (i / w, i % w)) % 4 != 0,
    )
}

/// The cells that went from 1 to 2 between `s1` and `s2`.
pub open spec fn changed(s1: Seq<usize>, s2: Seq<usize>) -> Seq<bool> {
    Seq::new(s1.len(), |i: int| s1[i] == 1 && s2[i] == 2)
}

/// Relabelling from 1 to 2 removes one 1 per changed cell.
proof fn lemma_changed_count(s1: Seq<usize>, s2: Seq<usize>)
    requires
        crate::flood::relabelled(s1, s2, 1, 2),
    ensures
        count_of(s1, 1) == count_of(s2, 1) + count_of(changed(s1, s2), true),
    decreases s1.len(),
{
    if s1.len() > 0 {
        let t1 = s1.drop_last();
        let t2 = s2.drop_last();
        assert(changed(s1, s2).drop_last() =~= changed(t1, t2));
        assert(crate::flood::relabelled(t1, t2, 1, 2)) by {
            assert forall|i: int| 0 <= i < t2.len() implies #[trigger] t2[i] == t1[i] || (t1[i] == 1 && t2[i] == 2) by {
                assert(s2[i] == s1[i] || (s1[i] == 1 && s2[i] == 2));
            }
        }
        lemma_changed_count(t1, t2);
        let k = s1.len() - 1;
        assert(s2[k] == s1[k] || (s1[k] == 1 && s2[k] == 2));
    }
}

/// A walk read backwards is a walk.
proof fn lemma_path_reverse(s: Seq<usize>, h: int, w: int, label: usize, p: Seq<(int, int)>)
    requires
        crate::flood::is_path(s, h, w, label, p),
    ensures
        crate::flood::is_path(s, h, w, label, p.reverse()),
        p.reverse()[0] == p.last(),
        p.reverse().last() == p[0],
{
    let q = p.reverse();
    assert forall|k: int| 0 <= k < q.len() implies in_bounds(h, w, (#[trigger] q[k]).0, q[k].1) && s[idx(w, q[k].0, q[k].1)] == label by {
        assert(q[k] == p[p.len() - 1 - k]);
    }
    assert forall|k: int| 0 <= k < q.len() - 1 implies crate::flood::adjacent(#[trigger] q[k], q[k + 1]) by {
        let i = p.len() - 2 - k;
        assert(q[k] == p[i + 1] && q[k + 1] == p[i]);
        assert(crate::flood::adjacent(p[i], p[i + 1]));
    }
}

/// The cells that one fill from a group's first cell relabels are exactly
/// the cells of that group.
proof fn lemma_group_members(s0: Seq<usize>, s1: Seq<usize>, s2: Seq<usize>, h: int, w: int, head: (int, int))
    requires
        0 <= h,
        0 <= w,
        s0.len() == s1.len() == s2.len() == h * w,
        forall|i: int| 0 <= i < s0.len() ==> #[trigger] s0[i] == 0 || s0[i] == 1,
        crate::flood::relabelled(s0, s1, 1, 2),
        crate::flood::relabelled(s1, s2, 1, 2),
        in_bounds(h, w, head.0, head.1),
        s1[idx(w, head.0, head.1)] == 1,
        s2[idx(w, head.0, head.1)] == 2,
        forall|y: int, x: int| in_bounds(h, w, y, x) && #[trigger] s1[idx(w, y, x)] == 2 ==> closed_at(s1, h, w, 1, y, x),
        forall|y: int, x: int| in_bounds(h, w, y, x) && #[trigger] s2[idx(w, y, x)] == 2 ==> closed_at(s2, h, w, 1, y, x),
        forall|y: int, x: int|
            in_bounds(h, w, y, x) && s1[idx(w, y, x)] == 1 && #[trigger] s2[idx(w, y, x)] == 2 ==> linked(s2, h, w, 2, head, (y, x)),
    ensures
        changed(s1, s2) == Seq::new(s0.len(), |j: int| linked(s0, h, w, 1, head, (j / w, j % w))),
{
    let members = Seq::new(s0.len(), |j: int| linked(s0, h, w, 1, head, (j / w, j % w)));
    crate::flood::lemma_relabelled_trans(s0, s1, s2, 1, 2);
    assert forall|j: int| 0 <= j < s0.len() implies #[trigger] changed(s1, s2)[j] == members[j] by {
        crate::grid::lemma_idx_split(h, w, j);
        let c = (j / w, j % w);
        assert(s2[j] == s1[j] || (s1[j] == 1 && s2[j] == 2));
        assert(s1[j] == s0[j] || (s0[j] == 1 && s1[j] == 2));
        if changed(s1, s2)[j] {
            assert(s1[idx(w, c.0, c.1)] == 1 && s2[idx(w, c.0, c.1)] == 2);
            let p = choose|p: Seq<(int, int)>| #[trigger] crate::flood::is_path(s2, h, w, 2, p) && p[0] == head && p.last() == c;
            assert forall|k: int| 0 <= k < p.len() implies in_bounds(h, w, (#[trigger] p[k]).0, p[k].1) && s0[idx(w, p[k].0, p[k].1)] == 1 by {
                lemma_idx_bounds(h, w, p[k].0, p[k].1);
                let d = idx(w, p[k].0, p[k].1);
                assert(s2[d] == s0[d] || (s0[d] == 1 && s2[d] == 2));
            }
            assert(crate::flood::is_path(s0, h, w, 1, p));
        }
        if members[j] {
            let p = choose|p: Seq<(int, int)>| #[trigger] crate::flood::is_path(s0, h, w, 1, p) && p[0] == head && p.last() == c;
            lemma_walk_relabelled(s0, s2, h, w, p, p.len() - 1);
            if s1[j] == 2 {
                lemma_path_reverse(s0, h, w, 1, p);
                lemma_walk_relabelled(s0, s1, h, w, p.reverse(), p.len() - 1);
            }
        }
    }
    assert(changed(s1, s2) =~= members);
}

/// Counts the 4-connected groups of cells labelled 1, relabelling them to 2,
/// and how many of those groups have a size that is not a multiple of 4.
fn count_groups(stage: &mut Vec<usize>, h: usize, w: usize) -> (r: (i32, i32))
    requires
        old(stage)@.len() == h * w,
        h * w <= i32::MAX,
        forall|i: int| 0 <= i < old(stage)@.len() ==> #[trigger] old(stage)@[i] == 0 || old(stage)@[i] == 1,
    ensures
        final(stage)@.len() == h * w,
        crate::flood::relabelled(old(stage)@, final(stage)@, 1, 2),
        count_of(final(stage)@, 1) == 0,
        r.0 == count_of(group_heads(old(stage)@, h as int, w as int, 1), true),
        count_of(old(stage)@, 1) > 0 ==> 1 <= r.0,
        r.0 <= count_of(old(stage)@, 1),
        0 <= r.1 <= r.0,
        r.1 == count_of(odd_heads(old(stage)@, h as int, w as int, 1), true),
{
    let ghost s0 = stage@;
    let ghost heads = group_heads(s0, h as int, w as int, 1);
    let ghost odds = odd_heads(s0, h as int, w as int, 1);
    let mut groups: i32 = 0;
    let mut odd: i32 = 0;
    let mut y: usize = 0;
    proof {
        assert(heads.take(0) =~= Seq::<bool>::empty());
        assert(odds.take(0) =~= Seq::<bool>::empty());
        assert forall|yy: int, xx: int| in_bounds(h as int, w as int, yy, xx) implies #[trigger] stage@[idx(w as int, yy, xx)] != 2 by {
            lemma_idx_bounds(h as int, w as int, yy, xx);
        }
    }
    while y < h
        invariant
            stage@.len() == h * w,
            s0.len() == h * w,
            heads == group_heads(s0, h as int, w as int, 1),
            odds == odd_heads(s0, h as int, w as int, 1),
            odd == count_of(odds.take(y * w), true),
            h * w <= i32::MAX,
            y <= h,
            forall|i: int| 0 <= i < s0.len() ==> #[trigger] s0[i] == 0 || s0[i] == 1,
            crate::flood::relabelled(s0, stage@, 1, 2),
            forall|i: int| 0 <= i < y * w ==> #[trigger] stage@[i] != 1,
            0 <= groups <= count_of(s0, 1) - count_of(stage@, 1),
            groups == 0 ==> count_of(stage@, 1) == count_of(s0, 1),
            0 <= odd <= groups,
            groups == count_of(heads.take(y * w), true),
            forall|yy: int, xx: int|
                in_bounds(h as int, w as int, yy, xx) && #[trigger] stage@[idx(w as int, yy, xx)] == 2 ==> closed_at(stage@, h as int, w as int, 1, yy, xx)
                    && exists|c2: (int, int)|
                    in_bounds(h as int, w as int, c2.0, c2.1) && idx(w as int, c2.0, c2.1) < y * w && s0[idx(w as int, c2.0, c2.1)] == 1
                        && #[trigger] linked(s0, h as int, w as int, 1, c2, (yy, xx)),
        decreases h - y,
    {
        let mut x: usize = 0;
        while x < w
            invariant
                stage@.len() == h * w,
                s0.len() == h * w,
                heads == group_heads(s0, h as int, w as int, 1),
                odds == odd_heads(s0, h as int, w as int, 1),
                odd == count_of(odds.take(y * w + x), true),
                h * w <= i32::MAX,
                y < h,
                x <= w,
                forall|i: int| 0 <= i < s0.len() ==> #[trigger] s0[i] == 0 || s0[i] == 1,
                crate::flood::relabelled(s0, stage@, 1, 2),
                forall|i: int| 0 <= i < y * w + x ==> #[trigger] stage@[i] != 1,
                0 <= groups <= count_of(s0, 1) - count_of(stage@, 1),
                groups == 0 ==> count_of(stage@, 1) == count_of(s0, 1),
                0 <= odd <= groups,
                groups == count_of(heads.take(y * w + x), true),
                forall|yy: int, xx: int|
                    in_bounds(h as int, w as int, yy, xx) && #[trigger] stage@[idx(w as int, yy, xx)] == 2 ==> closed_at(stage@, h as int, w as int, 1, yy, xx)
                        && exists|c2: (int, int)|
                        in_bounds(h as int, w as int, c2.0, c2.1) && idx(w as int, c2.0, c2.1) < y * w + x && s0[idx(w as int, c2.0, c2.1)] == 1
                            && #[trigger] linked(s0, h as int, w as int, 1, c2, (yy, xx)),
            decreases w - x,
        {
            proof {
                lemma_idx_bounds(h as int, w as int, y as int, x as int);
                lemma_anchor(w as int, y as int, x as int);
                lemma_count_le(s0, 1);
                lemma_count_le(stage@, 1);
                lemma_count_take(heads, (y * w + x) as int, true);
                lemma_count_le(heads.take(y * w + x), true);
                lemma_count_take(odds, (y * w + x) as int, true);
            }
            let a = y * w + x;
            let ghost s1 = stage@;
            if stage[a] == 1 {
                proof {
                    // the cell starts a new group
                    assert forall|c2: (int, int)|
                        in_bounds(h as int, w as int, c2.0, c2.1) && idx(w as int, c2.0, c2.1) < a implies !#[trigger] linked(
                        s0,
                        h as int,
                        w as int,
                        1,
                        c2,
                        (y as int, x as int),
                    ) by {
                        if linked(s0, h as int, w as int, 1, c2, (y as int, x as int)) {
                            let p = choose|p: Seq<(int, int)>| #[trigger] crate::flood::is_path(s0, h as int, w as int, 1, p) && p[0] == c2 && p.last() == (y as int, x as int);
                            lemma_idx_bounds(h as int, w as int, c2.0, c2.1);
                            let i2 = idx(w as int, c2.0, c2.1);
                            assert(s1[i2] != 1);
                            assert(s1[i2] == s0[i2] || (s0[i2] == 1 && s1[i2] == 2));
                            lemma_walk_relabelled(s0, s1, h as int, w as int, p, p.len() - 1);
                        }
                    }
                    assert(s1[a as int] == s0[a as int] || (s0[a as int] == 1 && s1[a as int] == 2));
                    assert(group_head(s0, h as int, w as int, 1, (y as int, x as int)));
                    assert(heads[a as int]);
                }
                let size = fill(stage, h, w, (y, x), 2);
                proof {
                    let s2 = stage@;
                    crate::flood::lemma_relabelled_trans(s0, s1, s2, 1, 2);
                    assert forall|i: int| 0 <= i < a + 1 implies #[trigger] s2[i] != 1 by {
                        assert(s2[i] == s1[i] || (s1[i] == 1 && s2[i] == 2));
                    }
                    assert forall|yy: int, xx: int|
                        in_bounds(h as int, w as int, yy, xx) && #[trigger] s2[idx(w as int, yy, xx)] == 2 implies closed_at(s2, h as int, w as int, 1, yy, xx)
                            && exists|c2: (int, int)|
                            in_bounds(h as int, w as int, c2.0, c2.1) && idx(w as int, c2.0, c2.1) < a + 1 && s0[idx(w as int, c2.0, c2.1)] == 1
                                && #[trigger] linked(s0, h as int, w as int, 1, c2, (yy, xx)) by {
                        lemma_idx_bounds(h as int, w as int, yy, xx);
                        let c = idx(w as int, yy, xx);
                        assert(s2[c] == s1[c] || (s1[c] == 1 && s2[c] == 2));
                        if s1[c] == 2 {
                            let c2 = choose|c2: (int, int)|
                                in_bounds(h as int, w as int, c2.0, c2.1) && idx(w as int, c2.0, c2.1) < a && s0[idx(w as int, c2.0, c2.1)] == 1
                                    && #[trigger] linked(s0, h as int, w as int, 1, c2, (yy, xx));
                            assert(closed_at(s1, h as int, w as int, 1, yy, xx));
                            assert forall|y2: int, x2: int| in_bounds(h as int, w as int, y2, x2) && crate::flood::adjacent((yy, xx), (y2, x2))
                                implies #[trigger] s2[idx(w as int, y2, x2)] != 1 by {
                                lemma_idx_bounds(h as int, w as int, y2, x2);
                                let d = idx(w as int, y2, x2);
                                assert(s1[d] != 1);
                                assert(s2[d] == s1[d] || (s1[d] == 1 && s2[d] == 2));
                            }
                        } else {
                            assert(s1[c] == 1);
                            let p = choose|p: Seq<(int, int)>| #[trigger] crate::flood::is_path(s2, h as int, w as int, 2, p) && p[0] == (y as int, x as int) && p.last() == (yy, xx);
                            assert forall|k: int| 0 <= k < p.len() implies in_bounds(h as int, w as int, (#[trigger] p[k]).0, p[k].1) && s0[idx(w as int, p[k].0, p[k].1)] == 1 by {
                                lemma_idx_bounds(h as int, w as int, p[k].0, p[k].1);
                                let d = idx(w as int, p[k].0, p[k].1);
                                assert(s2[d] == s0[d] || (s0[d] == 1 && s2[d] == 2));
                            }
                            assert(crate::flood::is_path(s0, h as int, w as int, 1, p));
                            assert(linked(s0, h as int, w as int, 1, (y as int, x as int), (yy, xx)));
                            assert(idx(w as int, y as int, x as int) == a);
                        }
                    }
                }
                proof {
                    lemma_group_members(s0, s1, stage@, h as int, w as int, (y as int, x as int));
                    lemma_changed_count(s1, stage@);
                    assert(odds[a as int] == (size % 4 != 0));
                }
                if size % 4 != 0 {
                    odd = odd + 1;
                }
                groups = groups + 1;
            } else {
                proof {
                    assert(s1[a as int] == s0[a as int] || (s0[a as int] == 1 && s1[a as int] == 2));
                    if s0[a as int] == 1 {
                        assert(s1[a as int] == 2);
                        let c2 = choose|c2: (int, int)|
                            in_bounds(h as int, w as int, c2.0, c2.1) && idx(w as int, c2.0, c2.1) < a && s0[idx(w as int, c2.0, c2.1)] == 1
                                && #[trigger] linked(s0, h as int, w as int, 1, c2, (y as int, x as int));
                    }
                    assert(!heads[a as int]);
                    assert(!odds[a as int]);
                }
            }
            x = x + 1;
        }
        proof {
            assert((y + 1) * w == y * w + w) by (nonlinear_arith);
        }
        y = y + 1;
    }
    proof {
        lemma_count_none(stage@, 1);
        assert(heads.take(h * w) =~= heads);
        assert(odds.take(h * w) =~= odds);
    }
    (groups, odd)
}

} // verus!

verus! {

/// `(y, x)` lies on the border of an `h` by `w` grid.
pub open spec fn on_border(h: int, w: int, y: int, x: int) -> bool {
    y == 0 || x == 0 || y == h - 1 || x == w - 1
}

/// Labels of the empty space: 0 on unfilled cells, 2 on filled ones.
pub open spec fn free_labels(occ: Seq<bool>) -> Seq<usize> {
    Seq::new(occ.len(), |i: int| if occ[i] { 2usize } else { 0usize })
}

/// `q` is an unfilled cell from which outside space is entered: a rejected
/// cell or a border cell.
pub open spec fn outside_seed(m: Grid<bool>, s: Seq<usize>, q: (int, int)) -> bool {
    in_bounds(m.h as int, m.w as int, q.0, q.1) && s[idx(m.w as int, q.0, q.1)] == 0 && (!m.at(q.0, q.1) || on_border(
        m.h as int,
        m.w as int,
        q.0,
        q.1,
    ))
}

/// A walk of cells labelled 0 in `s` leads from outside space to `c`.
pub open spec fn reaches_outside(m: Grid<bool>, s: Seq<usize>, c: (int, int)) -> bool {
    exists|q: (int, int)| outside_seed(m, s, q) && #[trigger] linked(s, m.h as int, m.w as int, 0, q, c)
}

/// Unfilled cells that no walk of unfilled cells joins to a rejected cell or
/// to the border.
pub open spec fn hole_cells(m: Grid<bool>, occ: Seq<bool>) -> Seq<bool> {
    Seq::new(
        occ.len(),
        |i: int| !occ[i] && !reaches_outside(m, free_labels(occ), (i / (m.w as int), i % (m.w as int))),
    )
}

/// Cells relabelled from 0 to 1 since `s0` are reached from outside space
/// and have no neighbour left at 0.
pub open spec fn reach_inv(m: Grid<bool>, s0: Seq<usize>, s: Seq<usize>) -> bool {
    &&& s.len() == s0.len() == m.h * m.w
    &&& crate::flood::relabelled(s0, s, 0, 1)
    &&& forall|y: int, x: int|
        in_bounds(m.h as int, m.w as int, y, x) && s0[idx(m.w as int, y, x)] == 0 && #[trigger] s[idx(m.w as int, y, x)]
            == 1 ==> (exists|q: (int, int)| outside_seed(m, s0, q) && #[trigger] linked(s, m.h as int, m.w as int, 1, q, (y, x)))
            && closed_at(s, m.h as int, m.w as int, 0, y, x)
}

/// Fills outside space from seed `(y, x)` when it still holds 0.
fn reach_from(map: &Grid<bool>, stage: &mut Vec<usize>, y: usize, x: usize, Ghost(s0): Ghost<Seq<usize>>) -> (got: usize)
    requires
        map.wf(),
        map.size() <= i32::MAX,
        in_bounds(map.h as int, map.w as int, y as int, x as int),
        !map.at(y as int, x as int) || on_border(map.h as int, map.w as int, y as int, x as int),
        reach_inv(*map, s0, old(stage)@),
        forall|i: int| 0 <= i < s0.len() ==> #[trigger] s0[i] == 0 || s0[i] == 2,
    ensures
        reach_inv(*map, s0, final(stage)@),
        crate::flood::relabelled(old(stage)@, final(stage)@, 0, 1),
        got == count_of(old(stage)@, 0) - count_of(final(stage)@, 0),
        final(stage)@[idx(map.w as int, y as int, x as int)] != 0,
{
    let h = map.h;
    let w = map.w;
    proof {
        lemma_idx_bounds(h as int, w as int, y as int, x as int);
    }
    if stage[y * w + x] != 0 {
        return 0;
    }
    let ghost s1 = stage@;
    let got = fill(stage, h, w, (y, x), 1);
    proof {
        let s2 = stage@;
        let c0 = idx(w as int, y as int, x as int);
        crate::flood::lemma_relabelled_trans(s0, s1, s2, 0, 1);
        assert(s1[c0] == s0[c0] || (s0[c0] == 0 && s1[c0] == 1));
        assert(outside_seed(*map, s0, (y as int, x as int)));
        assert forall|i: int| 0 <= i < s1.len() && s1[i] == 1 implies #[trigger] s2[i] == 1 by {
            assert(s2[i] == s1[i] || (s1[i] == 0 && s2[i] == 1));
        }
        assert forall|yy: int, xx: int|
            in_bounds(h as int, w as int, yy, xx) && s0[idx(w as int, yy, xx)] == 0 && #[trigger] s2[idx(w as int, yy, xx)] == 1
                implies (exists|q: (int, int)| outside_seed(*map, s0, q) && #[trigger] linked(s2, h as int, w as int, 1, q, (yy, xx)))
                && closed_at(s2, h as int, w as int, 0, yy, xx) by {
            lemma_idx_bounds(h as int, w as int, yy, xx);
            let c = idx(w as int, yy, xx);
            assert(s2[c] == s1[c] || (s1[c] == 0 && s2[c] == 1));
            if s1[c] == 1 {
                let q = choose|q: (int, int)| outside_seed(*map, s0, q) && #[trigger] linked(s1, h as int, w as int, 1, q, (yy, xx));
                crate::flood::lemma_linked_frame(s1, s2, h as int, w as int, 1, q, (yy, xx));
                assert(closed_at(s1, h as int, w as int, 0, yy, xx));
                assert forall|y2: int, x2: int| in_bounds(h as int, w as int, y2, x2) && crate::flood::adjacent((yy, xx), (y2, x2))
                    implies #[trigger] s2[idx(w as int, y2, x2)] != 0 by {
                    lemma_idx_bounds(h as int, w as int, y2, x2);
                    let d = idx(w as int, y2, x2);
                    assert(s1[d] != 0);
                    assert(s2[d] == s1[d] || (s1[d] == 0 && s2[d] == 1));
                }
            } else {
                assert(linked(s2, h as int, w as int, 1, (y as int, x as int), (yy, xx)));
            }
        }
    }
    got
}

/// Walking from a cell that left 0 through cells that held 0, closure keeps
/// every later cell off 0 as well.
proof fn lemma_closed_walk(s0: Seq<usize>, s: Seq<usize>, h: int, w: int, p: Seq<(int, int)>, k: int)
    requires
        crate::flood::is_path(s0, h, w, 0, p),
        s.len() == s0.len() == h * w,
        crate::flood::relabelled(s0, s, 0, 1),
        s[idx(w, p[0].0, p[0].1)] != 0,
        forall|y: int, x: int|
            in_bounds(h, w, y, x) && s0[idx(w, y, x)] == 0 && #[trigger] s[idx(w, y, x)] == 1 ==> closed_at(s, h, w, 0, y, x),
        0 <= k < p.len(),
    ensures
        s[idx(w, p[k].0, p[k].1)] != 0,
    decreases k,
{
    if k > 0 {
        lemma_closed_walk(s0, s, h, w, p, k - 1);
        let a = p[k - 1];
        let b = p[k];
        assert(in_bounds(h, w, a.0, a.1) && s0[idx(w, a.0, a.1)] == 0);
        assert(in_bounds(h, w, b.0, b.1));
        lemma_idx_bounds(h, w, a.0, a.1);
        let ia = idx(w, a.0, a.1);
        assert(s[ia] == s0[ia] || (s0[ia] == 0 && s[ia] == 1));
        assert(crate::flood::adjacent(p[k - 1], p[k]));
    }
}

/// Relabels, from 0 to 1, the empty space reachable from rejected cells and
/// from the border; returns how many cells it relabelled. Afterwards a cell
/// holds 0 exactly when it held 0 and no walk of 0-cells joins it to a
/// rejected or border cell.
fn reach_from_outside(map: &Grid<bool>, stage: &mut Vec<usize>) -> (reachable: usize)
    requires
        map.wf(),
        map.h > 0,
        map.w > 0,
        map.size() <= i32::MAX,
        old(stage)@.len() == map.cells@.len(),
        forall|i: int| 0 <= i < old(stage)@.len() ==> #[trigger] old(stage)@[i] == 0 || old(stage)@[i] == 2,
    ensures
        final(stage)@.len() == old(stage)@.len(),
        crate::flood::relabelled(old(stage)@, final(stage)@, 0, 1),
        reachable == count_of(old(stage)@, 0) - count_of(final(stage)@, 0),
        forall|i: int| 0 <= i < final(stage)@.len() && !map.cells@[i] ==> #[trigger] final(stage)@[i] != 0,
        forall|y: int, x: int|
            in_bounds(map.h as int, map.w as int, y, x) ==> (#[trigger] final(stage)@[idx(map.w as int, y, x)] == 0 <==> (
            old(stage)@[idx(map.w as int, y, x)] == 0 && !reaches_outside(*map, old(stage)@, (y, x)))),
{
    let h = map.h;
    let w = map.w;
    let n = map.cells.len();
    let ghost s0 = stage@;
    let mut reachable: usize = 0;
    proof {
        assert(reach_inv(*map, s0, stage@));
    }
    let mut i: usize = 0;
    while i < n
        invariant
            n == map.cells@.len() == stage@.len() == s0.len() == h * w,
            h == map.h,
            w == map.w,
            map.wf(),
            h > 0,
            w > 0,
            n <= i32::MAX,
            i <= n,
            forall|j: int| 0 <= j < s0.len() ==> #[trigger] s0[j] == 0 || s0[j] == 2,
            reach_inv(*map, s0, stage@),
            reachable == count_of(s0, 0) - count_of(stage@, 0),
            forall|j: int| 0 <= j < i && !map.cells@[j] ==> #[trigger] stage@[j] != 0,
        decreases n - i,
    {
        if !map.cells[i] {
            proof {
                crate::grid::lemma_idx_split(h as int, w as int, i as int);
                lemma_count_le(s0, 0);
                lemma_count_le(stage@, 0);
            }
            let ghost s1 = stage@;
            let got = reach_from(map, stage, i / w, i % w, Ghost(s0));
            proof {
                assert forall|j: int| 0 <= j < i + 1 && !map.cells@[j] implies #[trigger] stage@[j] != 0 by {
                    assert(stage@[j] == s1[j] || (s1[j] == 0 && stage@[j] == 1));
                }
            }
            reachable = reachable + got;
        }
        i = i + 1;
    }
    let mut y: usize = 0;
    while y < h
        invariant
            n == map.cells@.len() == stage@.len() == s0.len() == h * w,
            h == map.h,
            w == map.w,
            map.wf(),
            h > 0,
            w > 0,
            n <= i32::MAX,
            y <= h,
            forall|j: int| 0 <= j < s0.len() ==> #[trigger] s0[j] == 0 || s0[j] == 2,
            reach_inv(*map, s0, stage@),
            reachable == count_of(s0, 0) - count_of(stage@, 0),
            forall|j: int| 0 <= j < n && !map.cells@[j] ==> #[trigger] stage@[j] != 0,
            forall|yy: int| 0 <= yy < y ==> #[trigger] stage@[idx(w as int, yy, 0)] != 0,
            forall|yy: int| 0 <= yy < y ==> #[trigger] stage@[idx(w as int, yy, w - 1)] != 0,
        decreases h - y,
    {
        proof {
            lemma_count_le(s0, 0);
            lemma_count_le(stage@, 0);
        }
        let ghost s1 = stage@;
        let got = reach_from(map, stage, y, 0, Ghost(s0));
        let ghost s2 = stage@;
        proof {
            lemma_count_le(stage@, 0);
        }
        let got2 = reach_from(map, stage, y, w - 1, Ghost(s0));
        proof {
            crate::flood::lemma_relabelled_trans(s1, s2, stage@, 0, 1);
            assert forall|j: int| 0 <= j < n && !map.cells@[j] implies #[trigger] stage@[j] != 0 by {
                assert(stage@[j] == s1[j] || (s1[j] == 0 && stage@[j] == 1));
            }
            assert forall|yy: int| 0 <= yy < y + 1 implies #[trigger] stage@[idx(w as int, yy, 0)] != 0 by {
                lemma_idx_bounds(h as int, w as int, yy, 0);
                let a = idx(w as int, yy, 0);
                assert(stage@[a] == s2[a] || (s2[a] == 0 && stage@[a] == 1));
                assert(stage@[a] == s1[a] || (s1[a] == 0 && stage@[a] == 1));
            }
            assert forall|yy: int| 0 <= yy < y + 1 implies #[trigger] stage@[idx(w as int, yy, w - 1)] != 0 by {
                lemma_idx_bounds(h as int, w as int, yy, w - 1);
                let b = idx(w as int, yy, w - 1);
                assert(stage@[b] == s1[b] || (s1[b] == 0 && stage@[b] == 1));
            }
        }
        reachable = reachable + got + got2;
        y = y + 1;
    }
    let mut x: usize = 1;
    while x < w && x + 1 < w
        invariant
            n == map.cells@.len() == stage@.len() == s0.len() == h * w,
            h == map.h,
            w == map.w,
            map.wf(),
            h > 0,
            w > 0,
            n <= i32::MAX,
            1 <= x,
            x <= w || x == 1,
            forall|j: int| 0 <= j < s0.len() ==> #[trigger] s0[j] == 0 || s0[j] == 2,
            reach_inv(*map, s0, stage@),
            reachable == count_of(s0, 0) - count_of(stage@, 0),
            forall|j: int| 0 <= j < n && !map.cells@[j] ==> #[trigger] stage@[j] != 0,
            forall|yy: int| 0 <= yy < h ==> #[trigger] stage@[idx(w as int, yy, 0)] != 0,
            forall|yy: int| 0 <= yy < h ==> #[trigger] stage@[idx(w as int, yy, w - 1)] != 0,
            forall|xx: int| 1 <= xx < x ==> #[trigger] stage@[idx(w as int, 0, xx)] != 0,
            forall|xx: int| 1 <= xx < x ==> #[trigger] stage@[idx(w as int, h - 1, xx)] != 0,
        decreases w - x,
    {
        {
            proof {
                lemma_count_le(s0, 0);
                lemma_count_le(stage@, 0);
            }
            let ghost s1 = stage@;
            let got = reach_from(map, stage, 0, x, Ghost(s0));
            let ghost s2 = stage@;
            proof {
                lemma_count_le(stage@, 0);
            }
            let got2 = reach_from(map, stage, h - 1, x, Ghost(s0));
            proof {
                crate::flood::lemma_relabelled_trans(s1, s2, stage@, 0, 1);
                assert forall|j: int| 0 <= j < n implies (#[trigger] stage@[j] == s1[j] || (s1[j] == 0 && stage@[j] == 1)) by {}
                assert forall|j: int| 0 <= j < n && !map.cells@[j] implies #[trigger] stage@[j] != 0 by {
                    assert(stage@[j] == s1[j] || (s1[j] == 0 && stage@[j] == 1));
                }
                assert forall|yy: int| 0 <= yy < h implies #[trigger] stage@[idx(w as int, yy, 0)] != 0 by {
                    lemma_idx_bounds(h as int, w as int, yy, 0);
                    let a = idx(w as int, yy, 0);
                    assert(stage@[a] == s1[a] || (s1[a] == 0 && stage@[a] == 1));
                }
                assert forall|yy: int| 0 <= yy < h implies #[trigger] stage@[idx(w as int, yy, w - 1)] != 0 by {
                    lemma_idx_bounds(h as int, w as int, yy, w - 1);
                    let a = idx(w as int, yy, w - 1);
                    assert(stage@[a] == s1[a] || (s1[a] == 0 && stage@[a] == 1));
                }
                assert forall|xx: int| 1 <= xx < x + 1 implies #[trigger] stage@[idx(w as int, 0, xx)] != 0 by {
                    lemma_idx_bounds(h as int, w as int, 0, xx);
                    let a = idx(w as int, 0, xx);
                    assert(stage@[a] == s2[a] || (s2[a] == 0 && stage@[a] == 1));
                    assert(stage@[a] == s1[a] || (s1[a] == 0 && stage@[a] == 1));
                }
                assert forall|xx: int| 1 <= xx < x + 1 implies #[trigger] stage@[idx(w as int, h - 1, xx)] != 0 by {
                    lemma_idx_bounds(h as int, w as int, h - 1, xx);
                    let a = idx(w as int, h - 1, xx);
                    assert(stage@[a] == s1[a] || (s1[a] == 0 && stage@[a] == 1));
                }
            }
            reachable = reachable + got + got2;
        }
        x = x + 1;
    }
    proof {
        let s = stage@;
        assert forall|y: int, x: int|
            in_bounds(h as int, w as int, y, x) implies (#[trigger] s[idx(w as int, y, x)] == 0 <==> (
            s0[idx(w as int, y, x)] == 0 && !reaches_outside(*map, s0, (y, x)))) by {
            lemma_idx_bounds(h as int, w as int, y, x);
            let c = idx(w as int, y, x);
            assert(s[c] == s0[c] || (s0[c] == 0 && s[c] == 1));
            if s[c] == 0 && reaches_outside(*map, s0, (y, x)) {
                let q = choose|q: (int, int)| outside_seed(*map, s0, q) && #[trigger] linked(s0, h as int, w as int, 0, q, (y, x));
                let p = choose|p: Seq<(int, int)>| #[trigger] crate::flood::is_path(s0, h as int, w as int, 0, p) && p[0] == q && p.last() == (y, x);
                lemma_idx_bounds(h as int, w as int, q.0, q.1);
                if !map.at(q.0, q.1) {
                    assert(s[idx(w as int, q.0, q.1)] != 0);
                } else if q.1 == 0 {
                    assert(s[idx(w as int, q.0, 0)] != 0);
                } else if q.1 == w - 1 {
                    assert(s[idx(w as int, q.0, w - 1)] != 0);
                } else if q.0 == 0 {
                    assert(s[idx(w as int, 0, q.1)] != 0);
                } else {
                    assert(s[idx(w as int, h - 1, q.1)] != 0);
                }
                lemma_closed_walk(s0, s, h as int, w as int, p, p.len() - 1);
            }
            if s[c] != 0 && s0[c] == 0 {
                assert(s[c] == 1);
                let q = choose|q: (int, int)| outside_seed(*map, s0, q) && #[trigger] linked(s, h as int, w as int, 1, q, (y, x));
                let p = choose|p: Seq<(int, int)>| #[trigger] crate::flood::is_path(s, h as int, w as int, 1, p) && p[0] == q && p.last() == (y, x);
                assert forall|k: int| 0 <= k < p.len() implies in_bounds(h as int, w as int, (#[trigger] p[k]).0, p[k].1) && s0[idx(w as int, p[k].0, p[k].1)] == 0 by {
                    lemma_idx_bounds(h as int, w as int, p[k].0, p[k].1);
                    let d = idx(w as int, p[k].0, p[k].1);
                    assert(s[d] == s0[d] || (s0[d] == 0 && s[d] == 1));
                    assert(s0[d] == 0 || s0[d] == 2);
                }
                assert(crate::flood::is_path(s0, h as int, w as int, 0, p));
                assert(linked(s0, h as int, w as int, 0, q, (y, x)));
            }
        }
    }
    reachable
}

} // verus!

verus! {

/// The verdict on a placement against a mask, with its structural metrics.
#[derive(Debug, PartialEq, Eq, Clone, Copy, Structural)]
pub enum EvalResult {
    Valid {
        /// Number of 4-connected groups of filled cells
        chunk: i32,
        /// Number of filled cells
        filled: i32,
        /// Number of accepted, unfilled cells next to a filled cell
        surface: i32,
        /// Number of 4-connected groups of accepted, unfilled cells
        fragment: i32,
        /// Number of those groups whose size is not a multiple of 4
        fragment_non4: i32,
        /// Number of accepted, unfilled cells that no unfilled path joins to the
        /// border or to a rejected cell
        hole: i32,
        /// Number of filled cells on the border or next to a rejected cell
        edge: i32,
    },
    Invalid,
}

/// The verdict on an empty placement: one fragment, nothing else.
pub open spec fn empty_verdict() -> EvalResult {
    EvalResult::Valid { chunk: 0, filled: 0, surface: 0, fragment: 1, fragment_non4: 0, hole: 0, edge: 0 }
}

/// What `eval` returns on a mask and a placement: `Invalid` exactly on an
/// invalid placement; otherwise the filled-cell count of the occupancy, the
/// surface and edge counts, the number of groups of filled cells and of
/// empty accepted cells (and of those whose size is not a multiple of 4),
/// and the number of holes.
pub open spec fn eval_holds(map: Grid<bool>, data: Grid<u8>, r: EvalResult) -> bool {
    &&& (r is Invalid <==> !placement_valid(map, data))
    &&& r matches EvalResult::Valid { chunk, filled, surface, fragment, fragment_non4, hole, edge } ==> {
        let occ = occupancy(data);
        let empty = count_of(empty_cells(map, occ), true);
        &&& filled == count_of(occ, true)
        &&& filled == 4 * piece_count(data)
        &&& filled <= data.size()
        &&& filled == 0 ==> r == empty_verdict()
        &&& filled > 0 ==> {
            &&& surface == count_of(surface_cells(map, occ), true)
            &&& edge == count_of(edge_cells(map, occ), true)
            &&& 1 <= chunk <= filled
            &&& chunk == count_of(group_heads(mark(occ), data.h as int, data.w as int, 1), true)
            &&& fragment == count_of(group_heads(mark(empty_cells(map, occ)), data.h as int, data.w as int, 1), true)
            &&& fragment_non4 == count_of(odd_heads(mark(empty_cells(map, occ)), data.h as int, data.w as int, 1), true)
            &&& 0 <= fragment_non4 <= fragment <= empty
            &&& fragment == 0 <==> empty == 0
            &&& 0 <= hole <= empty
            &&& hole == count_of(hole_cells(map, occ), true)
            &&& surface <= data.size()
            &&& edge <= data.size()
        }
    }
}

/// Validates a placement against a mask and measures it.
pub fn eval(map: &Grid<bool>, data: &Grid<u8>) -> (r: EvalResult)
    requires
        map.wf(),
        data.wf(),
        data.h == map.h,
        data.w == map.w,
        shapes_known(*data),
        map.size() <= i32::MAX,
    ensures
        eval_holds(*map, *data, r),
{
    let h = map.h;
    let w = map.w;
    let n = map.cells.len();
    let (occ, filled) = match lay_checked(data) {
        None => {
            return EvalResult::Invalid;
        },
        Some(v) => v,
    };
    proof {
        lemma_count_le(occ@, true);
    }
    if filled == 0 {
        proof {
            assert forall|i: int| 0 <= i < data.size() && #[trigger] occupied(*data, i) implies map.cells@[i] by {
                assert(occ@[i]);
                crate::grid::lemma_count_pos(occ@, true, i);
            }
        }
        return EvalResult::Valid { chunk: 0, filled: 0, surface: 0, fragment: 1, fragment_non4: 0, hole: 0, edge: 0 };
    }
    let (surface, edge) = match scan(map, &occ) {
        None => {
            proof {
                let i = choose|i: int| 0 <= i < occ@.len() && #[trigger] occ@[i] && !map.cells@[i];
                assert(occupied(*data, i));
            }
            return EvalResult::Invalid;
        },
        Some(v) => v,
    };
    proof {
        assert forall|i: int| 0 <= i < data.size() && #[trigger] occupied(*data, i) implies map.cells@[i] by {
            assert(occ@[i]);
        }
    }
    let mut stage = labels(map, &occ, 1, 0, 0);
    proof {
        lemma_count_mono(stage@, 1usize, occ@, true);
        lemma_count_mono(occ@, true, stage@, 1usize);
        assert(stage@ =~= mark(occ@));
    }
    let (chunk, _) = count_groups(&mut stage, h, w);
    let mut stage = labels(map, &occ, 0, 1, 0);
    let ghost empty = empty_cells(*map, occ@);
    proof {
        lemma_count_mono(stage@, 1usize, empty, true);
        lemma_count_mono(empty, true, stage@, 1usize);
        assert(stage@ =~= mark(empty));
    }
    let (fragment, fragment_non4) = count_groups(&mut stage, h, w);
    let mut stage = labels(map, &occ, 2, 0, 0);
    let ghost mid = stage@;
    proof {
        assert forall|i: int| 0 <= i < n implies (#[trigger] mid[i] == 0) == !occ@[i] by {}
        lemma_count_mono(mid, 0usize, occ@, false);
        lemma_count_mono(occ@, false, mid, 0usize);
        crate::grid::lemma_count_complement(occ@);
    }
    let reachable = reach_from_outside(map, &mut stage);
    proof {
        assert forall|i: int| 0 <= i < n && #[trigger] stage@[i] == 0 implies empty[i] by {
            assert(stage@[i] == mid[i] || (mid[i] == 0 && stage@[i] == 1));
        }
        lemma_count_mono(stage@, 0usize, empty, true);
        lemma_count_le(empty, true);
        let holes = hole_cells(*map, occ@);
        assert(mid =~= free_labels(occ@));
        assert forall|i: int| 0 <= i < n implies (#[trigger] stage@[i] == 0) == holes[i] by {
            crate::grid::lemma_idx_split(h as int, w as int, i);
            assert(stage@[idx(w as int, i / (w as int), i % (w as int))] == 0 <==> (mid[idx(w as int, i / (w as int), i % (w as int))] == 0
                && !reaches_outside(*map, mid, (i / (w as int), i % (w as int)))));
        }
        lemma_count_mono(stage@, 0usize, holes, true);
        lemma_count_mono(holes, true, stage@, 0usize);
        lemma_count_le(surface_cells(*map, occ@), true);
        lemma_count_le(edge_cells(*map, occ@), true);
    }
    let hole = (n - reachable - filled) as i32;
    EvalResult::Valid { chunk, filled: filled as i32, surface, fragment, fragment_non4, hole, edge }
}

} // verus!
