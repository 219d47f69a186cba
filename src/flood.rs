use vstd::prelude::*;
use crate::grid::{count_of, idx, in_bounds, lemma_count_update, lemma_idx_bounds, lemma_count_le};

verus! {

/// Every cell of `s` kept its label from `s0` or went from `from` to `to`.
pub open spec fn relabelled(s0: Seq<usize>, s: Seq<usize>, from: usize, to: usize) -> bool {
    s.len() == s0.len() && forall|i: int|
        0 <= i < s.len() ==> #[trigger] s[i] == s0[i] || (s0[i] == from && s[i] == to)
}

/// Relabelling twice between the same labels is one relabelling.
pub proof fn lemma_relabelled_trans(s0: Seq<usize>, s1: Seq<usize>, s2: Seq<usize>, from: usize, to: usize)
    requires
        relabelled(s0, s1, from, to),
        relabelled(s1, s2, from, to),
        from != to,
    ensures
        relabelled(s0, s2, from, to),
{
    assert forall|i: int| 0 <= i < s2.len() implies #[trigger] s2[i] == s0[i] || (s0[i] == from && s2[i] == to) by {
        assert(s1[i] == s0[i] || (s0[i] == from && s1[i] == to));
        assert(s2[i] == s1[i] || (s1[i] == from && s2[i] == to));
    }
}

/// Relabels cell `(y, x)` from `from` to `to` and queues it, if it holds `from`.
fn visit(
    stage: &mut Vec<usize>,
    stack: &mut Vec<(usize, usize)>,
    h: usize,
    w: usize,
    y: usize,
    x: usize,
    from: usize,
    to: usize,
)
    requires
        old(stage)@.len() == h * w,
        h * w <= usize::MAX,
        in_bounds(h as int, w as int, y as int, x as int),
        from != to,
    ensures
        final(stage)@.len() == h * w,
        relabelled(old(stage)@, final(stage)@, from, to),
        count_of(final(stage)@, from) == count_of(old(stage)@, from) - (if old(stage)@[idx(
            w as int,
            y as int,
            x as int,
        )] == from {
            1int
        } else {
            0int
        }),
        ({
            let i = idx(w as int, y as int, x as int);
            if old(stage)@[i] == from {
                &&& final(stage)@ == old(stage)@.update(i, to)
                &&& final(stack)@ == old(stack)@.push((y, x))
            } else {
                &&& final(stage)@ == old(stage)@
                &&& final(stack)@ == old(stack)@
            }
        }),
{
    proof {
        lemma_idx_bounds(h as int, w as int, y as int, x as int);
        lemma_count_update(stage@, idx(w as int, y as int, x as int), to, from);
    }
    let i = y * w + x;
    if stage[i] == from {
        stage.set(i, to);
        stack.push((y, x));
    }
}

/// Cells `a` and `b` are 4-neighbours.
pub open spec fn adjacent(a: (int, int), b: (int, int)) -> bool {
    (a.0 == b.0 && (a.1 == b.1 + 1 || b.1 == a.1 + 1)) || (a.1 == b.1 && (a.0 == b.0 + 1 || b.0 == a.0 + 1))
}

/// `p` is a walk of 4-neighbouring cells, all inside the grid and labelled
/// `label` in `s`.
pub open spec fn is_path(s: Seq<usize>, h: int, w: int, label: usize, p: Seq<(int, int)>) -> bool {
    &&& p.len() >= 1
    &&& forall|k: int|
        0 <= k < p.len() ==> in_bounds(h, w, (#[trigger] p[k]).0, p[k].1) && s[idx(w, p[k].0, p[k].1)] == label
    &&& forall|k: int| 0 <= k < p.len() - 1 ==> adjacent(#[trigger] p[k], p[k + 1])
}

/// A walk of cells labelled `label` leads from `a` to `b`.
pub open spec fn linked(s: Seq<usize>, h: int, w: int, label: usize, a: (int, int), b: (int, int)) -> bool {
    exists|p: Seq<(int, int)>| #[trigger] is_path(s, h, w, label, p) && p[0] == a && p.last() == b
}

/// No 4-neighbour of `(y, x)` is labelled `from`.
pub open spec fn closed_at(s: Seq<usize>, h: int, w: int, from: usize, y: int, x: int) -> bool {
    forall|y2: int, x2: int|
        in_bounds(h, w, y2, x2) && adjacent((y, x), (y2, x2)) ==> #[trigger] s[idx(w, y2, x2)] != from
}

/// The stack holds cell `(y, x)`.
pub open spec fn stacked(st: Seq<(usize, usize)>, y: int, x: int) -> bool {
    exists|j: int| 0 <= j < st.len() && (#[trigger] st[j]).0 == y && st[j].1 == x
}

/// A walk stays a walk while the cells labelled `label` keep their label.
pub proof fn lemma_path_frame(s1: Seq<usize>, s2: Seq<usize>, h: int, w: int, label: usize, p: Seq<(int, int)>)
    requires
        is_path(s1, h, w, label, p),
        s1.len() == s2.len() == h * w,
        forall|i: int| 0 <= i < s1.len() && s1[i] == label ==> #[trigger] s2[i] == label,
    ensures
        is_path(s2, h, w, label, p),
{
    assert forall|k: int| 0 <= k < p.len() implies in_bounds(h, w, (#[trigger] p[k]).0, p[k].1) && s2[idx(w, p[k].0, p[k].1)] == label by {
        lemma_idx_bounds(h, w, p[k].0, p[k].1);
    }
}

/// Linkage survives while the cells labelled `label` keep their label.
pub proof fn lemma_linked_frame(s1: Seq<usize>, s2: Seq<usize>, h: int, w: int, label: usize, a: (int, int), b: (int, int))
    requires
        linked(s1, h, w, label, a, b),
        s1.len() == s2.len() == h * w,
        forall|i: int| 0 <= i < s1.len() && s1[i] == label ==> #[trigger] s2[i] == label,
    ensures
        linked(s2, h, w, label, a, b),
{
    let p = choose|p: Seq<(int, int)>| #[trigger] is_path(s1, h, w, label, p) && p[0] == a && p.last() == b;
    lemma_path_frame(s1, s2, h, w, label, p);
}

/// A walk to `b` extends to a labelled neighbour `c` of `b`.
pub proof fn lemma_linked_extend(s: Seq<usize>, h: int, w: int, label: usize, a: (int, int), b: (int, int), c: (int, int))
    requires
        linked(s, h, w, label, a, b),
        in_bounds(h, w, c.0, c.1),
        s[idx(w, c.0, c.1)] == label,
        adjacent(b, c),
    ensures
        linked(s, h, w, label, a, c),
{
    let p = choose|p: Seq<(int, int)>| #[trigger] is_path(s, h, w, label, p) && p[0] == a && p.last() == b;
    let q = p.push(c);
    assert forall|k: int| 0 <= k < q.len() implies in_bounds(h, w, (#[trigger] q[k]).0, q[k].1) && s[idx(w, q[k].0, q[k].1)] == label by {
        if k < p.len() {
            assert(q[k] == p[k]);
        }
    }
    assert forall|k: int| 0 <= k < q.len() - 1 implies adjacent(#[trigger] q[k], q[k + 1]) by {
        if k < p.len() - 1 {
            assert(q[k] == p[k] && q[k + 1] == p[k + 1]);
        }
    }
    assert(is_path(s, h, w, label, q));
}

/// From `(s0, st0)` to `(s, st)`, the only changes are neighbours of
/// `(y, x)` relabelled from `from` to `to`, each pushed once on the stack.
pub open spec fn grown(
    s0: Seq<usize>,
    st0: Seq<(usize, usize)>,
    s: Seq<usize>,
    st: Seq<(usize, usize)>,
    h: int,
    w: int,
    y: int,
    x: int,
    from: usize,
    to: usize,
) -> bool {
    &&& s.len() == h * w
    &&& relabelled(s0, s, from, to)
    &&& count_of(s, from) + st.len() == count_of(s0, from) + st0.len()
    &&& st.len() >= st0.len()
    &&& forall|j: int| 0 <= j < st0.len() ==> #[trigger] st[j] == st0[j]
    &&& forall|j: int|
        st0.len() <= j < st.len() ==> {
            let q = #[trigger] st[j];
            &&& in_bounds(h, w, q.0 as int, q.1 as int)
            &&& adjacent((y, x), (q.0 as int, q.1 as int))
            &&& s0[idx(w, q.0 as int, q.1 as int)] == from
            &&& s[idx(w, q.0 as int, q.1 as int)] == to
        }
    &&& forall|j1: int, j2: int| st0.len() <= j1 < j2 < st.len() ==> #[trigger] st[j1] != #[trigger] st[j2]
    &&& forall|y2: int, x2: int|
        in_bounds(h, w, y2, x2) && s0[idx(w, y2, x2)] == from && #[trigger] s[idx(w, y2, x2)] == to ==> exists|j: int|
            st0.len() <= j < st.len() && (#[trigger] st[j]).0 == y2 && st[j].1 == x2
}

/// One more visit of a neighbour keeps the change `grown`.
proof fn lemma_grown_step(
    s0: Seq<usize>,
    st0: Seq<(usize, usize)>,
    s1: Seq<usize>,
    st1: Seq<(usize, usize)>,
    s2: Seq<usize>,
    st2: Seq<(usize, usize)>,
    h: int,
    w: int,
    y: int,
    x: int,
    ny: usize,
    nx: usize,
    from: usize,
    to: usize,
)
    requires
        from != to,
        0 <= h,
        0 <= w,
        grown(s0, st0, s1, st1, h, w, y, x, from, to),
        in_bounds(h, w, ny as int, nx as int),
        adjacent((y, x), (ny as int, nx as int)),
        s2.len() == h * w,
        relabelled(s1, s2, from, to),
        count_of(s2, from) == count_of(s1, from) - (if s1[idx(w, ny as int, nx as int)] == from { 1int } else { 0int }),
        s1[idx(w, ny as int, nx as int)] == from ==> s2 == s1.update(idx(w, ny as int, nx as int), to) && st2 == st1.push((ny, nx)),
        s1[idx(w, ny as int, nx as int)] != from ==> s2 == s1 && st2 == st1,
    ensures
        grown(s0, st0, s2, st2, h, w, y, x, from, to),
        s2[idx(w, ny as int, nx as int)] != from,
{
    lemma_idx_bounds(h, w, ny as int, nx as int);
    lemma_relabelled_trans(s0, s1, s2, from, to);
    let n = idx(w, ny as int, nx as int);
    if s1[n] == from {
        assert(s0[n] == from);
        assert forall|j: int| st0.len() <= j < st2.len() implies {
            let q = #[trigger] st2[j];
            &&& in_bounds(h, w, q.0 as int, q.1 as int)
            &&& adjacent((y, x), (q.0 as int, q.1 as int))
            &&& s0[idx(w, q.0 as int, q.1 as int)] == from
            &&& s2[idx(w, q.0 as int, q.1 as int)] == to
        } by {
            if j < st1.len() {
                let q = st1[j];
                assert(st2[j] == q);
                lemma_idx_bounds(h, w, q.0 as int, q.1 as int);
                assert(s1[idx(w, q.0 as int, q.1 as int)] == to);
            }
        }
        assert forall|j1: int, j2: int| st0.len() <= j1 < j2 < st2.len() implies #[trigger] st2[j1] != #[trigger] st2[j2] by {
            if j2 == st1.len() {
                let q = st1[j1];
                assert(st2[j1] == q);
                assert(s1[idx(w, q.0 as int, q.1 as int)] == to);
            } else {
                assert(st2[j1] == st1[j1] && st2[j2] == st1[j2]);
            }
        }
        assert forall|y2: int, x2: int|
            in_bounds(h, w, y2, x2) && s0[idx(w, y2, x2)] == from && #[trigger] s2[idx(w, y2, x2)] == to implies exists|j: int|
                st0.len() <= j < st2.len() && (#[trigger] st2[j]).0 == y2 && st2[j].1 == x2 by {
            if idx(w, y2, x2) == n {
                crate::grid::lemma_idx_injective(h, w, y2, x2, ny as int, nx as int);
                assert(st2[st1.len() as int] == (ny, nx));
            } else {
                lemma_idx_bounds(h, w, y2, x2);
                assert(s1[idx(w, y2, x2)] == to);
                let j = choose|j: int| st0.len() <= j < st1.len() && (#[trigger] st1[j]).0 == y2 && st1[j].1 == x2;
                assert(st2[j] == st1[j]);
            }
        }
        assert forall|j: int| 0 <= j < st0.len() implies #[trigger] st2[j] == st0[j] by {
            assert(st2[j] == st1[j]);
        }
    }
}

/// Relabelling is reflexive.
proof fn lemma_relabelled_refl(s: Seq<usize>, from: usize, to: usize)
    ensures
        relabelled(s, s, from, to),
{
}

/// Visits the four neighbours of `(y, x)`.
fn visit_neighbours(
    stage: &mut Vec<usize>,
    stack: &mut Vec<(usize, usize)>,
    h: usize,
    w: usize,
    y: usize,
    x: usize,
    from: usize,
    to: usize,
)
    requires
        old(stage)@.len() == h * w,
        h * w <= usize::MAX,
        in_bounds(h as int, w as int, y as int, x as int),
        from != to,
    ensures
        grown(old(stage)@, old(stack)@, final(stage)@, final(stack)@, h as int, w as int, y as int, x as int, from, to),
        closed_at(final(stage)@, h as int, w as int, from, y as int, x as int),
{
    let ghost s0 = stage@;
    let ghost st0 = stack@;
    proof {
        lemma_relabelled_refl(s0, from, to);
        assert forall|j: int| 0 <= j < st0.len() implies #[trigger] stack@[j] == st0[j] by {}
        assert forall|y2: int, x2: int|
            in_bounds(h as int, w as int, y2, x2) && s0[idx(w as int, y2, x2)] == from && #[trigger] s0[idx(w as int, y2, x2)] == to implies exists|j: int|
                st0.len() <= j < st0.len() && (#[trigger] st0[j]).0 == y2 && st0[j].1 == x2 by {}
        assert(grown(s0, st0, s0, st0, h as int, w as int, y as int, x as int, from, to));
    }
    if y > 0 {
        let ghost s1 = stage@;
        let ghost st1 = stack@;
        visit(stage, stack, h, w, y - 1, x, from, to);
        proof {
            lemma_grown_step(s0, st0, s1, st1, stage@, stack@, h as int, w as int, y as int, x as int, (y - 1) as usize, x, from, to);
        }
    }
    let ghost up = stage@;
    if y + 1 < h {
        let ghost s1 = stage@;
        let ghost st1 = stack@;
        visit(stage, stack, h, w, y + 1, x, from, to);
        proof {
            lemma_grown_step(s0, st0, s1, st1, stage@, stack@, h as int, w as int, y as int, x as int, (y + 1) as usize, x, from, to);
        }
    }
    let ghost down = stage@;
    proof {
        lemma_relabelled_refl(up, from, to);
    }
    if x > 0 {
        let ghost s1 = stage@;
        let ghost st1 = stack@;
        visit(stage, stack, h, w, y, x - 1, from, to);
        proof {
            lemma_grown_step(s0, st0, s1, st1, stage@, stack@, h as int, w as int, y as int, x as int, y, (x - 1) as usize, from, to);
        }
    }
    let ghost left = stage@;
    proof {
        lemma_relabelled_refl(down, from, to);
        lemma_relabelled_trans(up, down, left, from, to);
    }
    if x + 1 < w {
        let ghost s1 = stage@;
        let ghost st1 = stack@;
        visit(stage, stack, h, w, y, x + 1, from, to);
        proof {
            lemma_grown_step(s0, st0, s1, st1, stage@, stack@, h as int, w as int, y as int, x as int, y, (x + 1) as usize, from, to);
        }
    }
    proof {
        lemma_relabelled_refl(left, from, to);
        lemma_relabelled_trans(up, left, stage@, from, to);
        lemma_relabelled_trans(down, left, stage@, from, to);
        assert forall|y2: int, x2: int| in_bounds(h as int, w as int, y2, x2) && adjacent((y as int, x as int), (y2, x2)) implies #[trigger] stage@[idx(
            w as int,
            y2,
            x2,
        )] != from by {
            lemma_idx_bounds(h as int, w as int, y2, x2);
            let i = idx(w as int, y2, x2);
            if y2 == y - 1 {
                assert(up[i] != from);
            } else if y2 == y + 1 {
                assert(down[i] != from);
            } else if x2 == x - 1 {
                assert(left[i] != from);
            }
        }
    }
}

/// Flood fill: relabels to `to` every cell 4-connected to `start` through cells
/// holding the start cell's label, and returns how many cells it relabelled.
/// Each relabelled cell is joined to `start` by a walk of cells that held the
/// start cell's label before (and hold `to` after), and no relabelled cell
/// has a neighbour left with the start cell's label.
pub fn fill(stage: &mut Vec<usize>, h: usize, w: usize, start: (usize, usize), to: usize) -> (count: usize)
    requires
        old(stage)@.len() == h * w,
        h * w <= usize::MAX,
        in_bounds(h as int, w as int, start.0 as int, start.1 as int),
        old(stage)@[idx(w as int, start.0 as int, start.1 as int)] != to,
    ensures
        ({
            let from = old(stage)@[idx(w as int, start.0 as int, start.1 as int)];
            &&& relabelled(old(stage)@, final(stage)@, from, to)
            &&& final(stage)@[idx(w as int, start.0 as int, start.1 as int)] == to
            &&& count >= 1
            &&& count == count_of(old(stage)@, from) - count_of(final(stage)@, from)
            &&& forall|y: int, x: int|
                in_bounds(h as int, w as int, y, x) && old(stage)@[idx(w as int, y, x)] == from
                    && #[trigger] final(stage)@[idx(w as int, y, x)] == to ==> linked(
                    final(stage)@,
                    h as int,
                    w as int,
                    to,
                    (start.0 as int, start.1 as int),
                    (y, x),
                ) && linked(old(stage)@, h as int, w as int, from, (start.0 as int, start.1 as int), (y, x))
                    && closed_at(final(stage)@, h as int, w as int, from, y, x)
        }),
{
    proof {
        lemma_idx_bounds(h as int, w as int, start.0 as int, start.1 as int);
    }
    let ghost s0 = stage@;
    let (sy, sx) = start;
    let ghost si = idx(w as int, sy as int, sx as int);
    let from = stage[sy * w + sx];
    let mut stack: Vec<(usize, usize)> = Vec::new();
    proof {
        lemma_count_update(stage@, si, to, from);
    }
    stage.set(sy * w + sx, to);
    stack.push((sy, sx));
    proof {
        assert forall|y: int, x: int|
            in_bounds(h as int, w as int, y, x) && s0[idx(w as int, y, x)] == from && #[trigger] stage@[idx(w as int, y, x)] == to
                implies linked(stage@, h as int, w as int, to, (sy as int, sx as int), (y, x)) && linked(s0, h as int, w as int, from, (sy as int, sx as int), (y, x)) && (stacked(stack@, y, x)
                || closed_at(stage@, h as int, w as int, from, y, x)) by {
            lemma_idx_bounds(h as int, w as int, y, x);
            if idx(w as int, y, x) != si {
                assert(stage@[idx(w as int, y, x)] == s0[idx(w as int, y, x)]);
            }
            crate::grid::lemma_idx_injective(h as int, w as int, y, x, sy as int, sx as int);
            let p = seq![(sy as int, sx as int)];
            assert(is_path(stage@, h as int, w as int, to, p));
            assert(is_path(s0, h as int, w as int, from, p));
            assert(stack@[0].0 == y && stack@[0].1 == x);
        }
    }
    let mut count: usize = 0;
    while stack.len() > 0
        invariant
            stage@.len() == h * w,
            h * w <= usize::MAX,
            s0.len() == h * w,
            from != to,
            si == idx(w as int, sy as int, sx as int),
            0 <= si < h * w,
            from == s0[si],
            relabelled(s0, stage@, from, to),
            stage@[si] == to,
            in_bounds(h as int, w as int, sy as int, sx as int),
            count + stack@.len() == count_of(s0, from) - count_of(stage@, from),
            count + stack@.len() >= 1,
            forall|j: int|
                0 <= j < stack@.len() ==> {
                    let q = #[trigger] stack@[j];
                    &&& in_bounds(h as int, w as int, q.0 as int, q.1 as int)
                    &&& s0[idx(w as int, q.0 as int, q.1 as int)] == from
                    &&& stage@[idx(w as int, q.0 as int, q.1 as int)] == to
                },
            forall|j1: int, j2: int| 0 <= j1 < j2 < stack@.len() ==> #[trigger] stack@[j1] != #[trigger] stack@[j2],
            forall|y: int, x: int|
                in_bounds(h as int, w as int, y, x) && s0[idx(w as int, y, x)] == from && #[trigger] stage@[idx(w as int, y, x)] == to
                    ==> linked(stage@, h as int, w as int, to, (sy as int, sx as int), (y, x)) && linked(s0, h as int, w as int, from, (sy as int, sx as int), (y, x)) && (stacked(stack@, y, x)
                    || closed_at(stage@, h as int, w as int, from, y, x)),
        decreases 5 * count_of(stage@, from) + stack@.len(),
    {
        let ghost stk = stack@;
        let (y, x) = stack.pop().unwrap();
        proof {
            lemma_count_le(s0, from);
            lemma_count_le(stage@, from);
            assert(stk[stk.len() - 1] == (y, x));
        }
        count = count + 1;
        let ghost s1 = stage@;
        let ghost st1 = stack@;
        visit_neighbours(stage, &mut stack, h, w, y, x, from, to);
        proof {
            let s2 = stage@;
            let st2 = stack@;
            lemma_relabelled_trans(s0, s1, s2, from, to);
            lemma_idx_bounds(h as int, w as int, y as int, x as int);
            assert(s2[si] == s1[si] || (s1[si] == from && s2[si] == to));
            assert forall|i: int| 0 <= i < s1.len() && s1[i] == to implies #[trigger] s2[i] == to by {
                assert(s2[i] == s1[i] || (s1[i] == from && s2[i] == to));
            }
            assert forall|j: int| 0 <= j < st2.len() implies {
                let q = #[trigger] st2[j];
                &&& in_bounds(h as int, w as int, q.0 as int, q.1 as int)
                &&& s0[idx(w as int, q.0 as int, q.1 as int)] == from
                &&& s2[idx(w as int, q.0 as int, q.1 as int)] == to
            } by {
                let q = st2[j];
                if j < st1.len() {
                    assert(q == stk[j]);
                    lemma_idx_bounds(h as int, w as int, q.0 as int, q.1 as int);
                } else {
                    lemma_idx_bounds(h as int, w as int, q.0 as int, q.1 as int);
                    let qi = idx(w as int, q.0 as int, q.1 as int);
                    assert(s1[qi] == s0[qi] || (s0[qi] == from && s1[qi] == to));
                }
            }
            assert forall|j1: int, j2: int| 0 <= j1 < j2 < st2.len() implies #[trigger] st2[j1] != #[trigger] st2[j2] by {
                if j2 < st1.len() {
                    assert(st2[j1] == stk[j1] && st2[j2] == stk[j2]);
                } else if j1 < st1.len() {
                    let q = stk[j1];
                    assert(st2[j1] == q);
                    lemma_idx_bounds(h as int, w as int, q.0 as int, q.1 as int);
                    assert(s1[idx(w as int, q.0 as int, q.1 as int)] == to);
                }
            }
            assert(linked(s1, h as int, w as int, to, (sy as int, sx as int), (y as int, x as int)));
            lemma_linked_frame(s1, s2, h as int, w as int, to, (sy as int, sx as int), (y as int, x as int));
            assert forall|yy: int, xx: int|
                in_bounds(h as int, w as int, yy, xx) && s0[idx(w as int, yy, xx)] == from && #[trigger] s2[idx(w as int, yy, xx)] == to
                    implies linked(s2, h as int, w as int, to, (sy as int, sx as int), (yy, xx)) && linked(s0, h as int, w as int, from, (sy as int, sx as int), (yy, xx)) && (stacked(st2, yy, xx)
                    || closed_at(s2, h as int, w as int, from, yy, xx)) by {
                lemma_idx_bounds(h as int, w as int, yy, xx);
                let c = idx(w as int, yy, xx);
                assert(s2[c] == s1[c] || (s1[c] == from && s2[c] == to));
                if s1[c] == from {
                    let j = choose|j: int| st1.len() <= j < st2.len() && (#[trigger] st2[j]).0 == yy && st2[j].1 == xx;
                    assert(adjacent((y as int, x as int), (yy, xx)));
                    lemma_linked_extend(s2, h as int, w as int, to, (sy as int, sx as int), (y as int, x as int), (yy, xx));
                    assert(linked(s0, h as int, w as int, from, (sy as int, sx as int), (y as int, x as int)));
                    lemma_linked_extend(s0, h as int, w as int, from, (sy as int, sx as int), (y as int, x as int), (yy, xx));
                } else {
                    assert(s1[c] == to);
                    lemma_linked_frame(s1, s2, h as int, w as int, to, (sy as int, sx as int), (yy, xx));
                    if !(yy == y && xx == x) && !stacked(st2, yy, xx) {
                        if stacked(stk, yy, xx) {
                            let j = choose|j: int| 0 <= j < stk.len() && (#[trigger] stk[j]).0 == yy && stk[j].1 == xx;
                            if j < st1.len() {
                                assert(st2[j] == stk[j]);
                            }
                        }
                        assert(closed_at(s1, h as int, w as int, from, yy, xx));
                        assert forall|y2: int, x2: int|
                            in_bounds(h as int, w as int, y2, x2) && adjacent((yy, xx), (y2, x2)) implies #[trigger] s2[idx(
                                w as int,
                                y2,
                                x2,
                            )] != from by {
                            lemma_idx_bounds(h as int, w as int, y2, x2);
                            let q = idx(w as int, y2, x2);
                            assert(s1[q] != from);
                            assert(s2[q] == s1[q] || (s1[q] == from && s2[q] == to));
                        }
                    }
                }
            }
        }
    }
    proof {
        assert forall|y: int, x: int|
            in_bounds(h as int, w as int, y, x) && s0[idx(w as int, y, x)] == from && #[trigger] stage@[idx(w as int, y, x)] == to
                implies closed_at(stage@, h as int, w as int, from, y, x) by {
            if stacked(stack@, y, x) {
                let j = choose|j: int| 0 <= j < stack@.len() && (#[trigger] stack@[j]).0 == y && stack@[j].1 == x;
            }
        }
    }
    count
}

} // verus!
