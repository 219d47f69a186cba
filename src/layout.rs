use vstd::prelude::*;
use crate::grid::{Grid, idx, in_bounds, lemma_idx_bounds};
use crate::piece::{is_shape, offset, shape_offset, lemma_shape_cells};

verus! {

/// Every cell of a placement is zero or a variant of the shape table.
pub open spec fn shapes_known(p: Grid<u8>) -> bool {
    forall|i: int| 0 <= i < p.cells@.len() ==> #[trigger] p.cells@[i] == 0 || is_shape(p.cells@[i])
}

/// The row-major position of the `k`-th square of a piece of variant `v`
/// anchored at position `a`, or -1 when that square falls outside the grid.
pub open spec fn piece_index(h: int, w: int, a: int, v: u8, k: int) -> int {
    let y = a / w + offset(v, k).0;
    let x = a % w + offset(v, k).1;
    if in_bounds(h, w, y, x) {
        idx(w, y, x)
    } else {
        -1
    }
}

/// The `k`-th square of the piece anchored at `a` covers position `i`.
pub open spec fn hits(p: Grid<u8>, a: int, k: int, i: int) -> bool {
    p.cells@[a] != 0 && piece_index(p.h as int, p.w as int, a, p.cells@[a], k) == i
}

/// Position `i` is covered by a square of a piece anchored before position `n`,
/// or by one of the first `kk` squares of the piece anchored at `n`.
pub open spec fn covered_before(p: Grid<u8>, n: int, kk: int, i: int) -> bool {
    (exists|a: int, k: int| 0 <= a < n && 0 <= k < 4 && #[trigger] hits(p, a, k, i))
        || (exists|k: int| 0 <= k < kk && #[trigger] hits(p, n, k, i))
}

/// Position `i` is covered by some square of some piece of the placement.
pub open spec fn occupied(p: Grid<u8>, i: int) -> bool {
    exists|a: int, k: int| 0 <= a < p.size() && 0 <= k < 4 && #[trigger] hits(p, a, k, i)
}

/// The occupancy mask of a placement, row by row.
pub open spec fn occupancy(p: Grid<u8>) -> Seq<bool> {
    Seq::new(p.cells@.len(), |i: int| occupied(p, i))
}

/// Every square of every piece lies inside the grid.
pub open spec fn pieces_in_bounds(p: Grid<u8>) -> bool {
    forall|a: int, k: int|
        0 <= a < p.size() && 0 <= k < 4 && p.cells@[a] != 0 ==> piece_index(
            p.h as int,
            p.w as int,
            a,
            p.cells@[a],
            k,
        ) >= 0
}

/// No two squares of the placement's pieces share a cell.
pub open spec fn pieces_disjoint(p: Grid<u8>) -> bool {
    forall|a1: int, k1: int, a2: int, k2: int, i: int|
        0 <= a1 < p.size() && 0 <= k1 < 4 && 0 <= a2 < p.size() && 0 <= k2 < 4 && #[trigger] hits(
            p,
            a1,
            k1,
            i,
        ) && #[trigger] hits(p, a2, k2, i) ==> a1 == a2 && k1 == k2
}

/// Every occupied cell is accepted by the mask.
pub open spec fn occupancy_accepted(m: Grid<bool>, p: Grid<u8>) -> bool {
    forall|i: int| 0 <= i < p.size() && #[trigger] occupied(p, i) ==> m.cells@[i]
}

/// A placement is valid against a mask: pieces inside the grid, pairwise
/// disjoint, and only on accepted cells.
pub open spec fn placement_valid(m: Grid<bool>, p: Grid<u8>) -> bool {
    pieces_in_bounds(p) && pieces_disjoint(p) && occupancy_accepted(m, p)
}

/// The number of anchored pieces.
pub open spec fn piece_count(p: Grid<u8>) -> int {
    p.cells@.len() - crate::grid::count_of(p.cells@, 0u8)
}

/// A square inside the grid has a position inside the cell vector.
pub proof fn lemma_piece_index_bound(h: int, w: int, a: int, v: u8, k: int)
    requires
        0 <= h,
        0 <= w,
    ensures
        piece_index(h, w, a, v, k) < h * w,
{
    let y = a / w + offset(v, k).0;
    let x = a % w + offset(v, k).1;
    if in_bounds(h, w, y, x) {
        lemma_idx_bounds(h, w, y, x);
    } else {
        assert(h * w >= 0) by (nonlinear_arith)
            requires
                0 <= h,
                0 <= w,
        ;
    }
}

/// The anchor `(y, x)` of a row-major position is recovered by division.
pub proof fn lemma_anchor(w: int, y: int, x: int)
    requires
        0 <= y,
        0 <= x < w,
    ensures
        idx(w, y, x) / w == y,
        idx(w, y, x) % w == x,
{
    vstd::arithmetic::div_mod::lemma_fundamental_div_mod_converse(idx(w, y, x), w, y, x);
}

/// Position of the `k`-th square of the piece of variant `v` anchored at
/// `(y, x)`, if it lies inside the grid.
pub fn square_at(h: usize, w: usize, y: usize, x: usize, v: u8, k: usize) -> (r: Option<usize>)
    requires
        y < h,
        x < w,
        h * w <= usize::MAX,
        is_shape(v),
        k < 4,
    ensures
        r is None <==> piece_index(h as int, w as int, idx(w as int, y as int, x as int), v, k as int) < 0,
        r matches Some(i) ==> i == piece_index(h as int, w as int, idx(w as int, y as int, x as int), v, k as int),
        r matches Some(i) ==> i < h * w,
{
    proof {
        lemma_anchor(w as int, y as int, x as int);
        lemma_shape_cells(v);
    }
    let (dy, dx) = shape_offset(v, k);
    if dy < h - y && dx < w - x {
        proof {
            lemma_idx_bounds(h as int, w as int, (y + dy) as int, (x + dx) as int);
        }
        Some((y + dy) * w + (x + dx))
    } else {
        None
    }
}

} // verus!

verus! {

/// Handing over from the last square of one anchor to the next anchor.
pub proof fn lemma_covered_next(p: Grid<u8>, a: int, i: int)
    requires
        0 <= a,
    ensures
        covered_before(p, a, 4, i) == covered_before(p, a + 1, 0, i),
{
    if covered_before(p, a + 1, 0, i) {
        let (a2, k2) = choose|a2: int, k2: int|
            0 <= a2 < a + 1 && 0 <= k2 < 4 && #[trigger] hits(p, a2, k2, i);
        if a2 < a {
            assert(hits(p, a2, k2, i));
        } else {
            assert(hits(p, a, k2, i));
        }
    }
    if covered_before(p, a, 4, i) {
        if exists|k: int| 0 <= k < 4 && #[trigger] hits(p, a, k, i) {
            let k2 = choose|k: int| 0 <= k < 4 && #[trigger] hits(p, a, k, i);
            assert(0 <= a < a + 1 && 0 <= k2 < 4 && hits(p, a, k2, i));
        } else {
            let (a2, k2) = choose|a2: int, k2: int|
                0 <= a2 < a && 0 <= k2 < 4 && #[trigger] hits(p, a2, k2, i);
            assert(0 <= a2 < a + 1 && 0 <= k2 < 4 && hits(p, a2, k2, i));
        }
    }
}

/// Adding the `kk`-th square of the current anchor.
pub proof fn lemma_covered_step(p: Grid<u8>, a: int, kk: int, i: int)
    requires
        0 <= kk,
    ensures
        covered_before(p, a, kk + 1, i) == (covered_before(p, a, kk, i) || hits(p, a, kk, i)),
{
    if exists|k: int| 0 <= k < kk + 1 && #[trigger] hits(p, a, k, i) {
        let k2 = choose|k: int| 0 <= k < kk + 1 && #[trigger] hits(p, a, k, i);
        if k2 < kk {
            assert(hits(p, a, k2, i));
        }
    }
    if hits(p, a, kk, i) {
        assert(0 <= kk < kk + 1 && hits(p, a, kk, i));
    }
    if exists|k: int| 0 <= k < kk && #[trigger] hits(p, a, k, i) {
        let k2 = choose|k: int| 0 <= k < kk && #[trigger] hits(p, a, k, i);
        assert(0 <= k2 < kk + 1 && hits(p, a, k2, i));
    }
}

/// An empty anchor covers nothing.
pub proof fn lemma_covered_empty(p: Grid<u8>, a: int, i: int)
    requires
        0 <= a < p.cells@.len(),
        p.cells@[a] == 0,
    ensures
        covered_before(p, a, 4, i) == covered_before(p, a, 0, i),
{
    assert forall|k: int| !hits(p, a, k, i) by {}
}

/// The occupancy mask of a placement: every square of every piece marks its
/// cell; squares outside the grid are dropped.
pub fn lay(data: &Grid<u8>) -> (r: Grid<bool>)
    requires
        data.wf(),
        shapes_known(*data),
    ensures
        r.wf(),
        r.h == data.h,
        r.w == data.w,
        r.cells@ == occupancy(*data),
{
    let h = data.h;
    let w = data.w;
    let n = data.cells.len();
    let mut stage: Vec<bool> = vec![false; n];
    let mut y: usize = 0;
    while y < h
        invariant
            n == data.cells@.len() == h * w,
            h == data.h,
            w == data.w,
            data.wf(),
            shapes_known(*data),
            y <= h,
            stage@.len() == n,
            forall|i: int|
                0 <= i < n ==> #[trigger] stage@[i] == covered_before(*data, y * w, 0, i),
        decreases h - y,
    {
        let mut x: usize = 0;
        while x < w
            invariant
                n == data.cells@.len() == h * w,
                h == data.h,
                w == data.w,
                data.wf(),
                shapes_known(*data),
                y < h,
                x <= w,
                stage@.len() == n,
                forall|i: int|
                    0 <= i < n ==> #[trigger] stage@[i] == covered_before(*data, y * w + x, 0, i),
            decreases w - x,
        {
            proof {
                lemma_idx_bounds(h as int, w as int, y as int, x as int);
            }
            let a = y * w + x;
            let v = data.cells[a];
            if v != 0 {
                let mut k: usize = 0;
                while k < 4
                    invariant
                        n == data.cells@.len() == h * w,
                        h == data.h,
                        w == data.w,
                        y < h,
                        x < w,
                        a == y * w + x,
                        a < n,
                        v == data.cells@[a as int],
                        is_shape(v),
                        k <= 4,
                        stage@.len() == n,
                        forall|i: int|
                            0 <= i < n ==> #[trigger] stage@[i] == covered_before(*data, a as int, k as int, i),
                    decreases 4 - k,
                {
                    let sq = square_at(h, w, y, x, v, k);
                    proof {
                        assert forall|i: int| 0 <= i < n implies covered_before(*data, a as int, k + 1, i)
                            == (covered_before(*data, a as int, k as int, i) || (sq matches Some(c) && i == c)) by {
                            lemma_covered_step(*data, a as int, k as int, i);
                            assert(a as int == idx(w as int, y as int, x as int));
                            assert(hits(*data, a as int, k as int, i) == (sq matches Some(c) && i == c));
                        }
                    }
                    let ghost before = stage@;
                    if let Some(c) = sq {
                        stage.set(c, true);
                    }
                    assert forall|i: int| 0 <= i < n implies #[trigger] stage@[i] == covered_before(
                        *data,
                        a as int,
                        k + 1,
                        i,
                    ) by {
                        assert(before[i] == covered_before(*data, a as int, k as int, i));
                    }
                    k = k + 1;
                }
            } else {
                proof {
                    assert forall|i: int| 0 <= i < n implies covered_before(*data, a as int, 4, i)
                        == covered_before(*data, a as int, 0, i) by {
                        lemma_covered_empty(*data, a as int, i);
                    }
                }
            }
            proof {
                assert forall|i: int| 0 <= i < n implies covered_before(*data, a as int, 4, i)
                    == covered_before(*data, a + 1, 0, i) by {
                    lemma_covered_next(*data, a as int, i);
                }
            }
            x = x + 1;
        }
        proof {
            assert((y + 1) * w == y * w + w) by (nonlinear_arith);
        }
        y = y + 1;
    }
    proof {
        assert forall|i: int| 0 <= i < n implies covered_before(*data, h * w, 0, i) == occupied(*data, i) by {}
    }
    let r = Grid { h, w, cells: stage };
    assert(r.cells@ =~= occupancy(*data));
    r
}

} // verus!

verus! {

/// A piece of variant `v` anchored at `a` has all four squares inside the
/// grid, on accepted cells, and clear of the pieces of `p` anchored before `a`.
pub open spec fn fits_at(m: Grid<bool>, p: Grid<u8>, a: int, v: u8) -> bool {
    forall|k: int|
        0 <= k < 4 ==> {
            let c = #[trigger] piece_index(m.h as int, m.w as int, a, v, k);
            c >= 0 && m.cells@[c] && !covered_before(p, a, 0, c)
        }
}

/// The pieces anchored before `n` lie inside the grid on accepted cells.
pub open spec fn prefix_in_mask(m: Grid<bool>, p: Grid<u8>, n: int) -> bool {
    forall|b: int, k: int|
        0 <= b < n && 0 <= k < 4 && p.cells@[b] != 0 ==> {
            let c = #[trigger] piece_index(p.h as int, p.w as int, b, p.cells@[b], k);
            c >= 0 && m.cells@[c]
        }
}

/// No two squares of the pieces anchored before `n` share a cell.
pub open spec fn prefix_disjoint(p: Grid<u8>, n: int) -> bool {
    forall|a1: int, k1: int, a2: int, k2: int, i: int|
        0 <= a1 < n && 0 <= k1 < 4 && 0 <= a2 < n && 0 <= k2 < 4 && #[trigger] hits(p, a1, k1, i)
            && #[trigger] hits(p, a2, k2, i) ==> a1 == a2 && k1 == k2
}

/// Coverage by the pieces anchored before `n` depends on those anchors alone.
pub proof fn lemma_prefix_frame(g1: Grid<u8>, g2: Grid<u8>, n: int)
    requires
        g1.h == g2.h,
        g1.w == g2.w,
        forall|b: int| 0 <= b < n ==> g1.cells@[b] == g2.cells@[b],
    ensures
        forall|b: int, k: int, i: int| 0 <= b < n ==> hits(g1, b, k, i) == hits(g2, b, k, i),
        forall|i: int| covered_before(g1, n, 0, i) == covered_before(g2, n, 0, i),
{
    assert forall|b: int, k: int, i: int| 0 <= b < n implies hits(g1, b, k, i) == hits(g2, b, k, i) by {
        assert(g1.cells@[b] == g2.cells@[b]);
    }
    assert forall|i: int| covered_before(g1, n, 0, i) == covered_before(g2, n, 0, i) by {
        if covered_before(g1, n, 0, i) {
            let (b, k) = choose|b: int, k: int| 0 <= b < n && 0 <= k < 4 && #[trigger] hits(g1, b, k, i);
            assert(hits(g2, b, k, i));
        }
        if covered_before(g2, n, 0, i) {
            let (b, k) = choose|b: int, k: int| 0 <= b < n && 0 <= k < 4 && #[trigger] hits(g2, b, k, i);
            assert(hits(g1, b, k, i));
        }
    }
}

/// The squares of one piece lie on distinct cells.
pub proof fn lemma_squares_distinct(h: int, w: int, a: int, v: u8, k1: int, k2: int)
    requires
        0 <= a < h * w,
        0 <= k1 < 4,
        0 <= k2 < 4,
        k1 != k2,
        piece_index(h, w, a, v, k1) >= 0,
    ensures
        piece_index(h, w, a, v, k1) != piece_index(h, w, a, v, k2),
{
    lemma_shape_cells(v);
    if piece_index(h, w, a, v, k2) >= 0 {
        let y1 = a / w + offset(v, k1).0;
        let x1 = a % w + offset(v, k1).1;
        let y2 = a / w + offset(v, k2).0;
        let x2 = a % w + offset(v, k2).1;
        if idx(w, y1, x1) == idx(w, y2, x2) {
            crate::grid::lemma_idx_injective(h, w, y1, x1, y2, x2);
            assert(offset(v, k1) == offset(v, k2));
        }
    }
}

/// A placement whose every prefix property holds over the whole grid is valid.
pub proof fn lemma_prefix_valid(m: Grid<bool>, p: Grid<u8>)
    requires
        m.h == p.h,
        m.w == p.w,
        prefix_in_mask(m, p, p.size()),
        prefix_disjoint(p, p.size()),
    ensures
        placement_valid(m, p),
{
    assert forall|a: int, k: int|
        0 <= a < p.size() && 0 <= k < 4 && p.cells@[a] != 0 implies piece_index(
            p.h as int,
            p.w as int,
            a,
            p.cells@[a],
            k,
        ) >= 0 by {
        assert(piece_index(p.h as int, p.w as int, a, p.cells@[a], k) >= 0);
    }
    assert forall|i: int| 0 <= i < p.size() && #[trigger] occupied(p, i) implies m.cells@[i] by {
        let (a, k) = choose|a: int, k: int| 0 <= a < p.size() && 0 <= k < 4 && #[trigger] hits(p, a, k, i);
        assert(piece_index(p.h as int, p.w as int, a, p.cells@[a], k) >= 0);
    }
}

} // verus!

verus! {

/// Re-applies a reference placement onto a mask in raster order: a piece is
/// kept only when all its squares lie inside the grid, on accepted cells, and
/// clear of the pieces kept before it; otherwise it is dropped whole.
pub fn transfer(map: &Grid<bool>, ref_map: &Grid<u8>) -> (r: Grid<u8>)
    requires
        map.wf(),
        ref_map.wf(),
        ref_map.h == map.h,
        ref_map.w == map.w,
        shapes_known(*ref_map),
    ensures
        r.wf(),
        r.h == map.h,
        r.w == map.w,
        placement_valid(*map, r),
        forall|a: int| 0 <= a < r.size() ==> #[trigger] r.cells@[a] == 0 || r.cells@[a] == ref_map.cells@[a],
        forall|a: int|
            0 <= a < r.size() && ref_map.cells@[a] != 0 ==> (#[trigger] r.cells@[a] != 0 <==> fits_at(
                *map,
                r,
                a,
                ref_map.cells@[a],
            )),
{
    let h = map.h;
    let w = map.w;
    let n = ref_map.cells.len();
    let mut out: Vec<u8> = vec![0u8; n];
    let mut stage: Vec<bool> = vec![false; n];
    let mut y: usize = 0;
    while y < h
        invariant
            n == ref_map.cells@.len() == map.cells@.len() == h * w,
            h == map.h == ref_map.h,
            w == map.w == ref_map.w,
            shapes_known(*ref_map),
            y <= h,
            out@.len() == n,
            stage@.len() == n,
            forall|b: int| y * w <= b < n ==> #[trigger] out@[b] == 0,
            forall|b: int| 0 <= b < y * w ==> #[trigger] out@[b] == 0 || out@[b] == ref_map.cells@[b],
            forall|b: int|
                0 <= b < y * w && ref_map.cells@[b] != 0 ==> (#[trigger] out@[b] != 0 <==> fits_at(
                    *map,
                    Grid { h, w, cells: out },
                    b,
                    ref_map.cells@[b],
                )),
            prefix_in_mask(*map, Grid { h, w, cells: out }, y * w),
            prefix_disjoint(Grid { h, w, cells: out }, y * w),
            forall|i: int|
                0 <= i < n ==> #[trigger] stage@[i] == covered_before(Grid { h, w, cells: out }, y * w, 0, i),
        decreases h - y,
    {
        let mut x: usize = 0;
        while x < w
            invariant
                n == ref_map.cells@.len() == map.cells@.len() == h * w,
                h == map.h == ref_map.h,
                w == map.w == ref_map.w,
                shapes_known(*ref_map),
                y < h,
                x <= w,
                out@.len() == n,
                stage@.len() == n,
                forall|b: int| y * w + x <= b < n ==> #[trigger] out@[b] == 0,
                forall|b: int| 0 <= b < y * w + x ==> #[trigger] out@[b] == 0 || out@[b] == ref_map.cells@[b],
                forall|b: int|
                    0 <= b < y * w + x && ref_map.cells@[b] != 0 ==> (#[trigger] out@[b] != 0 <==> fits_at(
                        *map,
                        Grid { h, w, cells: out },
                        b,
                        ref_map.cells@[b],
                    )),
                prefix_in_mask(*map, Grid { h, w, cells: out }, y * w + x),
                prefix_disjoint(Grid { h, w, cells: out }, y * w + x),
                forall|i: int|
                    0 <= i < n ==> #[trigger] stage@[i] == covered_before(
                        Grid { h, w, cells: out },
                        y * w + x,
                        0,
                        i,
                    ),
            decreases w - x,
        {
            proof {
                lemma_idx_bounds(h as int, w as int, y as int, x as int);
                lemma_anchor(w as int, y as int, x as int);
            }
            let a = y * w + x;
            let v = ref_map.cells[a];
            let ghost g0 = Grid { h, w, cells: out };
            let mut ok = v != 0;
            if ok {
                let mut k: usize = 0;
                while k < 4
                    invariant
                        n == map.cells@.len() == h * w,
                        h == map.h,
                        w == map.w,
                        y < h,
                        x < w,
                        a == y * w + x,
                        is_shape(v),
                        k <= 4,
                        stage@.len() == n,
                        forall|i: int| 0 <= i < n ==> #[trigger] stage@[i] == covered_before(g0, a as int, 0, i),
                        ok ==> forall|j: int|
                            0 <= j < k ==> {
                                let c = #[trigger] piece_index(h as int, w as int, a as int, v, j);
                                c >= 0 && map.cells@[c] && !stage@[c]
                            },
                        !ok ==> exists|j: int|
                            0 <= j < k && {
                                let c = #[trigger] piece_index(h as int, w as int, a as int, v, j);
                                !(c >= 0 && map.cells@[c] && !stage@[c])
                            },
                    decreases 4 - k,
                {
                    let sq = square_at(h, w, y, x, v, k);
                    match sq {
                        Some(c) => {
                            if !map.cells[c] || stage[c] {
                                ok = false;
                            }
                        },
                        None => {
                            ok = false;
                        },
                    }
                    k = k + 1;
                }
            }
            if ok {
                out.set(a, v);
                let ghost g1 = Grid { h, w, cells: out };
                proof {
                    lemma_prefix_frame(g0, g1, a as int);
                    assert forall|b: int| 0 <= b <= a && ref_map.cells@[b] != 0 implies fits_at(
                        *map,
                        g0,
                        b,
                        ref_map.cells@[b],
                    ) == fits_at(*map, g1, b, ref_map.cells@[b]) by {
                        lemma_prefix_frame(g0, g1, b);
                    }
                    assert forall|a1: int, k1: int, a2: int, k2: int, i: int|
                        0 <= a1 < a + 1 && 0 <= k1 < 4 && 0 <= a2 < a + 1 && 0 <= k2 < 4 && #[trigger] hits(
                            g1,
                            a1,
                            k1,
                            i,
                        ) && #[trigger] hits(g1, a2, k2, i) implies a1 == a2 && k1 == k2 by {
                        if a1 < a && a2 < a {
                            assert(hits(g0, a1, k1, i) && hits(g0, a2, k2, i));
                        } else if a1 == a && a2 == a {
                            if k1 != k2 {
                                lemma_squares_distinct(h as int, w as int, a as int, v, k1, k2);
                            }
                        } else if a1 == a {
                            assert(hits(g0, a2, k2, i));
                            lemma_piece_index_bound(h as int, w as int, a as int, v, k1);
                            assert(stage@[i] == covered_before(g0, a as int, 0, i));
                            assert(covered_before(g0, a as int, 0, i));
                            assert(piece_index(h as int, w as int, a as int, v, k1) == i);
                        } else {
                            assert(hits(g0, a1, k1, i));
                            lemma_piece_index_bound(h as int, w as int, a as int, v, k2);
                            assert(stage@[i] == covered_before(g0, a as int, 0, i));
                            assert(covered_before(g0, a as int, 0, i));
                            assert(piece_index(h as int, w as int, a as int, v, k2) == i);
                        }
                    }
                    assert(prefix_disjoint(g1, a + 1));
                    assert forall|b: int, k: int|
                        0 <= b < a + 1 && 0 <= k < 4 && g1.cells@[b] != 0 implies {
                            let c = #[trigger] piece_index(h as int, w as int, b, g1.cells@[b], k);
                            c >= 0 && map.cells@[c]
                        } by {
                        if b < a {
                            assert(g0.cells@[b] != 0);
                            assert(piece_index(h as int, w as int, b, g0.cells@[b], k) >= 0);
                        }
                    }
                    assert forall|k: int| 0 <= k < 4 implies {
                        let c = #[trigger] piece_index(map.h as int, map.w as int, a as int, v, k);
                        c >= 0 && map.cells@[c] && !covered_before(g1, a as int, 0, c)
                    } by {
                        let c = piece_index(h as int, w as int, a as int, v, k);
                        assert(c >= 0 && map.cells@[c] && !stage@[c]);
                        lemma_piece_index_bound(h as int, w as int, a as int, v, k);
                        assert(stage@[c] == covered_before(g0, a as int, 0, c));
                    }
                    assert(fits_at(*map, g1, a as int, v));
                }
                let mut k: usize = 0;
                while k < 4
                    invariant
                        n == map.cells@.len() == h * w,
                        h == map.h,
                        w == map.w,
                        y < h,
                        x < w,
                        a == y * w + x,
                        a < n,
                        out@.len() == n,
                        v == out@[a as int],
                        is_shape(v),
                        k <= 4,
                        stage@.len() == n,
                        forall|i: int|
                            0 <= i < n ==> #[trigger] stage@[i] == covered_before(
                                Grid { h, w, cells: out },
                                a as int,
                                k as int,
                                i,
                            ),
                    decreases 4 - k,
                {
                    let sq = square_at(h, w, y, x, v, k);
                    let ghost before = stage@;
                    proof {
                        assert forall|i: int| 0 <= i < n implies covered_before(
                            Grid { h, w, cells: out },
                            a as int,
                            k + 1,
                            i,
                        ) == (covered_before(Grid { h, w, cells: out }, a as int, k as int, i) || (sq matches Some(
                            c,
                        ) && i == c)) by {
                            lemma_covered_step(Grid { h, w, cells: out }, a as int, k as int, i);
                            assert(a as int == idx(w as int, y as int, x as int));
                        }
                    }
                    if let Some(c) = sq {
                        stage.set(c, true);
                    }
                    assert forall|i: int| 0 <= i < n implies #[trigger] stage@[i] == covered_before(
                        Grid { h, w, cells: out },
                        a as int,
                        k + 1,
                        i,
                    ) by {
                        assert(before[i] == covered_before(Grid { h, w, cells: out }, a as int, k as int, i));
                    }
                    k = k + 1;
                }
            } else {
                proof {
                    assert forall|i: int| 0 <= i < n implies covered_before(g0, a as int, 4, i)
                        == covered_before(g0, a as int, 0, i) by {
                        lemma_covered_empty(g0, a as int, i);
                    }
                    if v != 0 {
                        let j = choose|j: int|
                            0 <= j < 4 && {
                                let c = #[trigger] piece_index(h as int, w as int, a as int, v, j);
                                !(c >= 0 && map.cells@[c] && !stage@[c])
                            };
                        let c = piece_index(h as int, w as int, a as int, v, j);
                        lemma_piece_index_bound(h as int, w as int, a as int, v, j);
                        if c >= 0 {
                            assert(stage@[c] == covered_before(g0, a as int, 0, c));
                        }
                        assert(!fits_at(*map, g0, a as int, v));
                    }
                }
            }
            proof {
                assert forall|i: int| 0 <= i < n implies covered_before(Grid { h, w, cells: out }, a as int, 4, i)
                    == covered_before(Grid { h, w, cells: out }, a + 1, 0, i) by {
                    lemma_covered_next(Grid { h, w, cells: out }, a as int, i);
                }
            }
            x = x + 1;
        }
        proof {
            assert((y + 1) * w == y * w + w) by (nonlinear_arith);
        }
        y = y + 1;
    }
    let r = Grid { h, w, cells: out };
    proof {
        lemma_prefix_valid(*map, r);
    }
    r
}

} // verus!

verus! {

/// Validity against a mask depends only on the mask's shape and cells.
pub proof fn lemma_placement_valid_same_mask(m1: Grid<bool>, m2: Grid<bool>, p: Grid<u8>)
    requires
        m1.cells@ == m2.cells@,
        placement_valid(m1, p),
    ensures
        placement_valid(m2, p),
{
    assert forall|i: int| 0 <= i < p.size() && #[trigger] occupied(p, i) implies m2.cells@[i] by {
        assert(m1.cells@[i]);
    }
}

} // verus!
