use vstd::prelude::*;
use crate::ga::{Candidate, dedup_holds};
use crate::grid::{Grid, count_of};
use crate::img::{EvalResult, empty_verdict, eval_holds};
use crate::layout::{occupancy, placement_valid};
use crate::flood::adjacent;
use crate::segment::{Segment, seg_linked, seg_path};

verus! {

/// On a valid placement the filled-cell count is a non-negative multiple of
/// 4, and an empty placement is one fragment with every other metric 0.
pub proof fn lemma_filled_multiple_of_four(map: Grid<bool>, data: Grid<u8>, r: EvalResult)
    requires
        data.wf(),
        eval_holds(map, data, r),
        placement_valid(map, data),
    ensures
        r matches EvalResult::Valid { filled, .. } && filled >= 0 && filled % 4 == 0,
        r matches EvalResult::Valid { filled, .. } && (filled == 0 ==> r == empty_verdict()),
{
    crate::grid::lemma_count_le(data.cells@, 0u8);
}

/// On a placement that `eval` finds valid, the occupancy mask that `lay`
/// builds holds exactly `filled` cells, all of them accepted.
pub proof fn lemma_lay_matches_eval(map: Grid<bool>, data: Grid<u8>, r: EvalResult)
    requires
        data.wf(),
        data.h == map.h,
        data.w == map.w,
        eval_holds(map, data, r),
        r is Valid,
    ensures
        r matches EvalResult::Valid { filled, .. } && count_of(occupancy(data), true) == filled,
        forall|i: int| 0 <= i < data.size() && #[trigger] occupancy(data)[i] ==> map.cells@[i],
{
}

/// A placement that `transfer` can return (one valid against the mask) is
/// never judged `Invalid` by `eval`.
pub proof fn lemma_transfer_never_invalid(map: Grid<bool>, data: Grid<u8>, r: EvalResult)
    requires
        placement_valid(map, data),
        eval_holds(map, data, r),
    ensures
        r is Valid,
{
}

/// Deduplication keeps two non-negative candidates whose hashes differ, even
/// when their scores tie.
pub proof fn lemma_dedup_keeps_distinct_hashes(v: Seq<Candidate>, r: Seq<Candidate>, i1: int, i2: int)
    requires
        dedup_holds(v, r),
        0 <= i1 < v.len(),
        0 <= i2 < v.len(),
        v[i1].score >= 0,
        v[i2].score >= 0,
        v[i1].hash != v[i2].hash,
    ensures
        exists|j1: int, j2: int|
            0 <= j1 < r.len() && 0 <= j2 < r.len() && j1 != j2 && (#[trigger] r[j1]).hash == v[i1].hash && (#[trigger] r[j2]).hash
                == v[i2].hash,
{
    let j1 = choose|j: int| 0 <= j < r.len() && (#[trigger] r[j]).key() == v[i1].key();
    let j2 = choose|j: int| 0 <= j < r.len() && (#[trigger] r[j]).key() == v[i2].key();
    assert(r[j1].hash == v[i1].hash && r[j2].hash == v[i2].hash);
}

} // verus!

verus! {

/// Any two cells of a segment that `segment` returns are joined by a walk of
/// 4-neighbouring cells inside that segment.
pub proof fn lemma_segment_cells_linked(s: Segment, a: (int, int), b: (int, int))
    requires
        s.connected(),
        s.holds(a.0, a.1),
        s.holds(b.0, b.1),
    ensures
        seg_linked(s, a, b),
{
    let r = choose|r: (int, int)| s.rooted_at(r);
    let p1 = choose|p: Seq<(int, int)>| #[trigger] seg_path(s, p) && p[0] == r && p.last() == a;
    let p2 = choose|p: Seq<(int, int)>| #[trigger] seg_path(s, p) && p[0] == r && p.last() == b;
    let back = p1.reverse();
    let q = back + p2.subrange(1, p2.len() as int);
    assert forall|k: int| 0 <= k < q.len() implies s.holds((#[trigger] q[k]).0, q[k].1) by {
        if k < back.len() {
            assert(q[k] == p1[p1.len() - 1 - k]);
        } else {
            assert(q[k] == p2[k - back.len() + 1]);
        }
    }
    assert forall|k: int| 0 <= k < q.len() - 1 implies adjacent(#[trigger] q[k], q[k + 1]) by {
        if k < back.len() - 1 {
            let i = p1.len() - 2 - k;
            assert(q[k] == p1[i + 1] && q[k + 1] == p1[i]);
            assert(adjacent(p1[i], p1[i + 1]));
        } else if k == back.len() - 1 {
            assert(q[k] == p1[0]);
            assert(q[k + 1] == p2[1]);
            assert(adjacent(p2[0], p2[1]));
        } else {
            let i = k - back.len() + 1;
            assert(q[k] == p2[i] && q[k + 1] == p2[i + 1]);
            assert(adjacent(p2[i], p2[i + 1]));
        }
    }
    assert(seg_path(s, q));
    assert(q[0] == a);
    if p2.len() == 1 {
        assert(b == r);
        assert(q.last() == p1[0]);
    } else {
        assert(q.last() == p2.last());
    }
}

} // verus!
