use vstd::prelude::*;
use crate::grid::{Grid, count_of, idx, in_bounds, lemma_count_take, lemma_idx_bounds};
use crate::img::square_before;
use crate::layout::{hits, shapes_known, square_at};
use crate::piece::is_shape;

verus! {

/// The `j`-th symbol of `0123456789@#=+*%$ikfgreqzan`.
pub open spec fn symbol_at(j: int) -> u8 {
    if j == 0 {
        48u8
    } else     if j == 1 {
        49u8
    } else     if j == 2 {
        50u8
    } else     if j == 3 {
        51u8
    } else     if j == 4 {
        52u8
    } else     if j == 5 {
        53u8
    } else     if j == 6 {
        54u8
    } else     if j == 7 {
        55u8
    } else     if j == 8 {
        56u8
    } else     if j == 9 {
        57u8
    } else     if j == 10 {
        64u8
    } else     if j == 11 {
        35u8
    } else     if j == 12 {
        61u8
    } else     if j == 13 {
        43u8
    } else     if j == 14 {
        42u8
    } else     if j == 15 {
        37u8
    } else     if j == 16 {
        36u8
    } else     if j == 17 {
        105u8
    } else     if j == 18 {
        107u8
    } else     if j == 19 {
        102u8
    } else     if j == 20 {
        103u8
    } else     if j == 21 {
        114u8
    } else     if j == 22 {
        101u8
    } else     if j == 23 {
        113u8
    } else     if j == 24 {
        122u8
    } else     if j == 25 {
        97u8
    } else {
        110u8
    }
}

/// The symbol of the `k`-th piece, cycling through `0123456789@#=+*%$ikfgreqzan`.
fn symbol(k: usize) -> (r: u8)
    ensures
        r == symbol_at(k as int % 27),
{
    let j = k % 27;
    if j == 0 {
        48
    } else     if j == 1 {
        49
    } else     if j == 2 {
        50
    } else     if j == 3 {
        51
    } else     if j == 4 {
        52
    } else     if j == 5 {
        53
    } else     if j == 6 {
        54
    } else     if j == 7 {
        55
    } else     if j == 8 {
        56
    } else     if j == 9 {
        57
    } else     if j == 10 {
        64
    } else     if j == 11 {
        35
    } else     if j == 12 {
        61
    } else     if j == 13 {
        43
    } else     if j == 14 {
        42
    } else     if j == 15 {
        37
    } else     if j == 16 {
        36
    } else     if j == 17 {
        105
    } else     if j == 18 {
        107
    } else     if j == 19 {
        102
    } else     if j == 20 {
        103
    } else     if j == 21 {
        114
    } else     if j == 22 {
        101
    } else     if j == 23 {
        113
    } else     if j == 24 {
        122
    } else     if j == 25 {
        97
    } else {
        110
    }
}

/// The byte shown for an uncovered cell: `.` when accepted, a space when not.
pub open spec fn background(accepted: bool) -> u8 {
    if accepted {
        46u8
    } else {
        32u8
    }
}

/// How many pieces are anchored before position `a`.
pub open spec fn rank(p: Grid<u8>, a: int) -> int {
    a - count_of(p.cells@.take(a), 0u8)
}

/// Some square placed before `(n, kk)` covers position `i`.
pub open spec fn hit_before(p: Grid<u8>, n: int, kk: int, i: int) -> bool {
    exists|a: int, k: int| square_before(n, kk, a, k) && #[trigger] hits(p, a, k, i)
}

/// At most one square placed before `(n, kk)` covers position `i`.
pub open spec fn single_before(p: Grid<u8>, n: int, kk: int, i: int) -> bool {
    forall|a1: int, k1: int, a2: int, k2: int|
        square_before(n, kk, a1, k1) && square_before(n, kk, a2, k2) && #[trigger] hits(p, a1, k1, i) && #[trigger] hits(
            p,
            a2,
            k2,
            i,
        ) ==> a1 == a2 && k1 == k2
}

/// Byte `b` is what position `i` shows once the squares before `(n, kk)` are
/// drawn: its background when none covers it; the symbol of the covering
/// piece (by the piece's rank in raster order) when exactly one covers an
/// accepted cell; `X` when pieces collide or a piece lies on a rejected cell.
pub open spec fn drawn(m: Grid<bool>, p: Grid<u8>, n: int, kk: int, i: int, b: u8) -> bool {
    if !hit_before(p, n, kk, i) {
        b == background(m.cells@[i])
    } else if m.cells@[i] && single_before(p, n, kk, i) {
        exists|a: int, k: int|
            square_before(n, kk, a, k) && #[trigger] hits(p, a, k, i) && b == symbol_at(rank(p, a) % 27)
    } else {
        b == 88
    }
}

/// Drawing depends only on which squares cover the position.
proof fn lemma_drawn_same(m: Grid<bool>, p: Grid<u8>, n1: int, kk1: int, n2: int, kk2: int, i: int, b: u8)
    requires
        forall|a: int, k: int|
            (square_before(n1, kk1, a, k) && #[trigger] hits(p, a, k, i)) == (square_before(n2, kk2, a, k) && hits(p, a, k, i)),
        drawn(m, p, n1, kk1, i, b),
    ensures
        drawn(m, p, n2, kk2, i, b),
{
    if hit_before(p, n1, kk1, i) {
        let (a, k) = choose|a: int, k: int| square_before(n1, kk1, a, k) && #[trigger] hits(p, a, k, i);
        assert(square_before(n2, kk2, a, k) && hits(p, a, k, i));
    }
    if hit_before(p, n2, kk2, i) {
        let (a, k) = choose|a: int, k: int| square_before(n2, kk2, a, k) && #[trigger] hits(p, a, k, i);
        assert(square_before(n1, kk1, a, k) && hits(p, a, k, i));
    }
    if single_before(p, n1, kk1, i) {
        assert forall|a1: int, k1: int, a2: int, k2: int|
            square_before(n2, kk2, a1, k1) && square_before(n2, kk2, a2, k2) && #[trigger] hits(p, a1, k1, i) && #[trigger] hits(
                p,
                a2,
                k2,
                i,
            ) implies a1 == a2 && k1 == k2 by {
            assert(square_before(n1, kk1, a1, k1) && hits(p, a1, k1, i));
            assert(square_before(n1, kk1, a2, k2) && hits(p, a2, k2, i));
        }
    }
    if single_before(p, n2, kk2, i) {
        assert forall|a1: int, k1: int, a2: int, k2: int|
            square_before(n1, kk1, a1, k1) && square_before(n1, kk1, a2, k2) && #[trigger] hits(p, a1, k1, i) && #[trigger] hits(
                p,
                a2,
                k2,
                i,
            ) implies a1 == a2 && k1 == k2 by {
            assert(square_before(n2, kk2, a1, k1) && hits(p, a1, k1, i));
            assert(square_before(n2, kk2, a2, k2) && hits(p, a2, k2, i));
        }
    }
    if hit_before(p, n1, kk1, i) && m.cells@[i] && single_before(p, n1, kk1, i) {
        let (a, k) = choose|a: int, k: int|
            square_before(n1, kk1, a, k) && #[trigger] hits(p, a, k, i) && b == symbol_at(rank(p, a) % 27);
        assert(square_before(n2, kk2, a, k) && hits(p, a, k, i));
    }
}

/// Drawing square `kk` of the piece anchored at `a`, the `cnt`-th piece.
proof fn lemma_drawn_step(m: Grid<bool>, p: Grid<u8>, a: int, kk: int, i: int, b_old: u8, b_new: u8, cnt: int)
    requires
        0 <= a,
        0 <= kk < 4,
        cnt == rank(p, a),
        drawn(m, p, a, kk, i, b_old),
        hits(p, a, kk, i) ==> b_new == (if b_old != 46 { 88u8 } else { symbol_at(cnt % 27) }),
        !hits(p, a, kk, i) ==> b_new == b_old,
    ensures
        drawn(m, p, a, kk + 1, i, b_new),
{
    if !hits(p, a, kk, i) {
        lemma_drawn_same(m, p, a, kk, a, kk + 1, i, b_old);
    } else {
        assert(square_before(a, kk + 1, a, kk) && hits(p, a, kk, i));
        if !hit_before(p, a, kk, i) {
            assert forall|a1: int, k1: int, a2: int, k2: int|
                square_before(a, kk + 1, a1, k1) && square_before(a, kk + 1, a2, k2) && #[trigger] hits(p, a1, k1, i)
                    && #[trigger] hits(p, a2, k2, i) implies a1 == a2 && k1 == k2 by {
                if !(a1 == a && k1 == kk) {
                    assert(square_before(a, kk, a1, k1));
                }
                if !(a2 == a && k2 == kk) {
                    assert(square_before(a, kk, a2, k2));
                }
            }
        } else {
            let (a1, k1) = choose|a1: int, k1: int| square_before(a, kk, a1, k1) && #[trigger] hits(p, a1, k1, i);
            assert(square_before(a, kk + 1, a1, k1));
            assert(!single_before(p, a, kk + 1, i));
            if m.cells@[i] && single_before(p, a, kk, i) {
                let (a2, k2) = choose|a2: int, k2: int|
                    square_before(a, kk, a2, k2) && #[trigger] hits(p, a2, k2, i) && b_old == symbol_at(rank(p, a2) % 27);
            }
        }
    }
}

/// Relies on std's `String::from_utf8`: ASCII bytes are valid UTF-8 and map
/// one to one onto characters.
#[verifier::external_body]
fn ascii_string(bytes: Vec<u8>) -> (r: String)
    requires
        forall|i: int| 0 <= i < bytes@.len() ==> #[trigger] bytes@[i] < 128,
    ensures
        r@ == bytes@.map_values(|b: u8| b as char),
{
    String::from_utf8(bytes).unwrap()
}

/// Every byte a drawing can show is ASCII.
proof fn lemma_drawn_ascii(m: Grid<bool>, p: Grid<u8>, n: int, kk: int, i: int, b: u8)
    requires
        drawn(m, p, n, kk, i, b),
    ensures
        b < 128,
{
    if hit_before(p, n, kk, i) && m.cells@[i] && single_before(p, n, kk, i) {
        let (a, k) = choose|a: int, k: int| square_before(n, kk, a, k) && #[trigger] hits(p, a, k, i) && b == symbol_at(rank(p, a) % 27);
    }
}

/// Renders a placement over its mask, one string per row: `.` on an
/// accepted cell no piece covers, a space on an uncovered rejected cell, the
/// symbol of the `k`-th anchored piece in raster order (cycling through 27
/// symbols) on an accepted cell that piece alone covers, and `X` on a cell
/// covered twice or covered while rejected. Squares outside the grid are
/// skipped.
pub fn dump(map: &Grid<bool>, data: &Grid<u8>) -> (rows: Vec<String>)
    requires
        map.wf(),
        data.wf(),
        data.h == map.h,
        data.w == map.w,
        shapes_known(*data),
    ensures
        rows@.len() == map.h,
        forall|y: int| 0 <= y < map.h ==> (#[trigger] rows@[y])@.len() == map.w,
        forall|y: int, x: int|
            in_bounds(map.h as int, map.w as int, y, x) ==> (#[trigger] rows@[y]@[x]) as int == rows@[y]@[x] as u8 as int
                && drawn(*map, *data, map.size(), 0, idx(map.w as int, y, x), rows@[y]@[x] as u8),
{
    let h = map.h;
    let w = map.w;
    let n = map.cells.len();
    let mut stage: Vec<u8> = Vec::new();
    let mut i: usize = 0;
    while i < n
        invariant
            n == map.cells@.len(),
            i <= n,
            stage@.len() == i,
            forall|j: int| 0 <= j < i ==> #[trigger] stage@[j] == background(map.cells@[j]),
        decreases n - i,
    {
        stage.push(if map.cells[i] { 46 } else { 32 });
        i = i + 1;
    }
    proof {
        assert(data.cells@.take(0) =~= Seq::<u8>::empty());
    }
    let mut counter: usize = 0;
    let mut y: usize = 0;
    while y < h
        invariant
            n == data.cells@.len() == map.cells@.len() == h * w,
            h == data.h == map.h,
            w == data.w == map.w,
            shapes_known(*data),
            y <= h,
            stage@.len() == n,
            counter == rank(*data, y * w),
            forall|j: int| 0 <= j < n ==> #[trigger] drawn(*map, *data, y * w, 0, j, stage@[j]),
        decreases h - y,
    {
        let mut x: usize = 0;
        while x < w
            invariant
                n == data.cells@.len() == map.cells@.len() == h * w,
                h == data.h == map.h,
                w == data.w == map.w,
                shapes_known(*data),
                y < h,
                x <= w,
                stage@.len() == n,
                counter == rank(*data, y * w + x),
                forall|j: int| 0 <= j < n ==> #[trigger] drawn(*map, *data, y * w + x, 0, j, stage@[j]),
            decreases w - x,
        {
            proof {
                lemma_idx_bounds(h as int, w as int, y as int, x as int);
                lemma_count_take(data.cells@, (y * w + x) as int, 0u8);
                crate::grid::lemma_count_le(data.cells@.take((y * w + x) as int), 0u8);
            }
            let a = y * w + x;
            let v = data.cells[a];
            let ghost st0 = stage@;
            if v != 0 {
                let color = symbol(counter);
                let mut k: usize = 0;
                while k < 4
                    invariant
                        n == data.cells@.len() == map.cells@.len() == h * w,
                        h == data.h,
                        w == data.w,
                        y < h,
                        x < w,
                        a == y * w + x,
                        a < n,
                        v == data.cells@[a as int],
                        is_shape(v),
                        counter == rank(*data, a as int),
                        color == symbol_at(counter as int % 27),
                        k <= 4,
                        stage@.len() == n,
                        forall|j: int| 0 <= j < n ==> #[trigger] drawn(*map, *data, a as int, k as int, j, stage@[j]),
                    decreases 4 - k,
                {
                    let sq = square_at(h, w, y, x, v, k);
                    let ghost before = stage@;
                    if let Some(c) = sq {
                        if stage[c] != 46 {
                            stage.set(c, 88);
                        } else {
                            stage.set(c, color);
                        }
                    }
                    proof {
                        assert forall|j: int| 0 <= j < n implies #[trigger] drawn(*map, *data, a as int, k + 1, j, stage@[j]) by {
                            assert(a as int == idx(w as int, y as int, x as int));
                            assert(drawn(*map, *data, a as int, k as int, j, before[j]));
                            lemma_drawn_step(*map, *data, a as int, k as int, j, before[j], stage@[j], counter as int);
                        }
                    }
                    k = k + 1;
                }
                counter = counter + 1;
            }
            x = x + 1;
            proof {
                assert forall|j: int| 0 <= j < n implies #[trigger] drawn(*map, *data, y * w + x, 0, j, stage@[j]) by {
                    assert(a + 1 == y * w + x);
                    if v == 0 {
                        assert(drawn(*map, *data, a as int, 0, j, stage@[j]));
                        assert forall|a2: int, k2: int| (square_before(a as int, 0, a2, k2) && #[trigger] hits(*data, a2, k2, j))
                            == (square_before(a + 1, 0, a2, k2) && hits(*data, a2, k2, j)) by {}
                        lemma_drawn_same(*map, *data, a as int, 0, a + 1, 0, j, stage@[j]);
                    } else {
                        assert(drawn(*map, *data, a as int, 4, j, stage@[j]));
                        lemma_drawn_same(*map, *data, a as int, 4, a + 1, 0, j, stage@[j]);
                    }
                }
            }
        }
        proof {
            assert((y + 1) * w == y * w + w) by (nonlinear_arith);
        }
        y = y + 1;
    }
    let mut rows: Vec<String> = Vec::new();
    let mut y: usize = 0;
    while y < h
        invariant
            n == data.cells@.len() == map.cells@.len() == stage@.len() == h * w,
            h == data.h == map.h,
            w == data.w == map.w,
            y <= h,
            rows@.len() == y,
            forall|j: int| 0 <= j < n ==> #[trigger] drawn(*map, *data, (h * w) as int, 0, j, stage@[j]),
            forall|yy: int, xx: int|
                0 <= yy < y && 0 <= xx < w ==> (#[trigger] rows@[yy]@[xx]) == stage@[idx(w as int, yy, xx)] as char,
            forall|yy: int| 0 <= yy < y ==> (#[trigger] rows@[yy])@.len() == w,
        decreases h - y,
    {
        let mut bytes: Vec<u8> = Vec::new();
        let mut x: usize = 0;
        while x < w
            invariant
                n == stage@.len() == h * w,
                y < h,
                x <= w,
                bytes@.len() == x,
                forall|xx: int| 0 <= xx < x ==> #[trigger] bytes@[xx] == stage@[idx(w as int, y as int, xx)],
            decreases w - x,
        {
            proof {
                lemma_idx_bounds(h as int, w as int, y as int, x as int);
            }
            bytes.push(stage[y * w + x]);
            x = x + 1;
        }
        proof {
            assert forall|xx: int| 0 <= xx < bytes@.len() implies #[trigger] bytes@[xx] < 128 by {
                lemma_idx_bounds(h as int, w as int, y as int, xx);
                let j = idx(w as int, y as int, xx);
                assert(drawn(*map, *data, (h * w) as int, 0, j, stage@[j]));
                lemma_drawn_ascii(*map, *data, (h * w) as int, 0, j, stage@[j]);
            }
        }
        let row = ascii_string(bytes);
        rows.push(row);
        y = y + 1;
    }
    proof {
        assert forall|yy: int, xx: int|
            in_bounds(h as int, w as int, yy, xx) implies (#[trigger] rows@[yy]@[xx]) as int == rows@[yy]@[xx] as u8 as int
                && drawn(*map, *data, map.size(), 0, idx(w as int, yy, xx), rows@[yy]@[xx] as u8) by {
            lemma_idx_bounds(h as int, w as int, yy, xx);
            let j = idx(w as int, yy, xx);
            assert(drawn(*map, *data, (h * w) as int, 0, j, stage@[j]));
            lemma_drawn_ascii(*map, *data, (h * w) as int, 0, j, stage@[j]);
        }
    }
    rows
}

} // verus!
