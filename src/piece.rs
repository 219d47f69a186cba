use vstd::prelude::*;

verus! {

/// Number of entries in the shape table; entry 0 stands for "no piece".
pub const NUM_SHAPES: u8 = 20;

/// The cell offsets `(dy, dx)` of each fixed tetromino variant, measured from
/// the top-left corner of the piece's bounding box.
pub open spec fn shape_table(v: u8) -> Seq<(usize, usize)> {
    if v == 1 {
        seq![(0, 0), (0, 1), (1, 0), (1, 1)]
    } else if v == 2 {
        seq![(0, 0), (0, 1), (0, 2), (0, 3)]
    } else if v == 3 {
        seq![(0, 0), (1, 0), (2, 0), (3, 0)]
    } else if v == 4 {
        seq![(0, 1), (1, 1), (2, 0), (2, 1)]
    } else if v == 5 {
        seq![(0, 0), (1, 0), (1, 1), (1, 2)]
    } else if v == 6 {
        seq![(0, 0), (0, 1), (1, 0), (2, 0)]
    } else if v == 7 {
        seq![(0, 0), (0, 1), (0, 2), (1, 2)]
    } else if v == 8 {
        seq![(0, 0), (1, 0), (2, 0), (2, 1)]
    } else if v == 9 {
        seq![(0, 0), (0, 1), (0, 2), (1, 0)]
    } else if v == 10 {
        seq![(0, 0), (0, 1), (1, 1), (2, 1)]
    } else if v == 11 {
        seq![(0, 2), (1, 0), (1, 1), (1, 2)]
    } else if v == 12 {
        seq![(0, 1), (0, 2), (1, 0), (1, 1)]
    } else if v == 13 {
        seq![(0, 0), (1, 0), (1, 1), (2, 1)]
    } else if v == 14 {
        seq![(0, 0), (0, 1), (1, 1), (1, 2)]
    } else if v == 15 {
        seq![(0, 1), (1, 0), (1, 1), (2, 0)]
    } else if v == 16 {
        seq![(0, 0), (0, 1), (0, 2), (1, 1)]
    } else if v == 17 {
        seq![(0, 1), (1, 0), (1, 1), (2, 1)]
    } else if v == 18 {
        seq![(0, 1), (1, 0), (1, 1), (1, 2)]
    } else {
        seq![(0, 0), (1, 0), (1, 1), (2, 0)]
    }
}

/// A placement value names a piece when it is a non-zero entry of the table.
pub open spec fn is_shape(v: u8) -> bool {
    1 <= v < NUM_SHAPES
}

/// The `k`-th offset of variant `v`.
pub open spec fn offset(v: u8, k: int) -> (usize, usize) {
    shape_table(v)[k]
}

/// Every variant has four distinct cells, each offset below 4.
pub proof fn lemma_shape_cells(v: u8)
    ensures
        shape_table(v).len() == 4,
        forall|k: int| 0 <= k < 4 ==> offset(v, k).0 < 4 && offset(v, k).1 < 4,
        forall|i: int, j: int| 0 <= i < j < 4 ==> offset(v, i) != offset(v, j),
{
}

/// Returns the `k`-th cell offset of shape variant `v`.
pub fn shape_offset(v: u8, k: usize) -> (r: (usize, usize))
    requires
        is_shape(v),
        k < 4,
    ensures
        r == offset(v, k as int),
{
    let t: [(usize, usize); 4] = if v == 1 {
        [(0, 0), (0, 1), (1, 0), (1, 1)]
    } else if v == 2 {
        [(0, 0), (0, 1), (0, 2), (0, 3)]
    } else if v == 3 {
        [(0, 0), (1, 0), (2, 0), (3, 0)]
    } else if v == 4 {
        [(0, 1), (1, 1), (2, 0), (2, 1)]
    } else if v == 5 {
        [(0, 0), (1, 0), (1, 1), (1, 2)]
    } else if v == 6 {
        [(0, 0), (0, 1), (1, 0), (2, 0)]
    } else if v == 7 {
        [(0, 0), (0, 1), (0, 2), (1, 2)]
    } else if v == 8 {
        [(0, 0), (1, 0), (2, 0), (2, 1)]
    } else if v == 9 {
        [(0, 0), (0, 1), (0, 2), (1, 0)]
    } else if v == 10 {
        [(0, 0), (0, 1), (1, 1), (2, 1)]
    } else if v == 11 {
        [(0, 2), (1, 0), (1, 1), (1, 2)]
    } else if v == 12 {
        [(0, 1), (0, 2), (1, 0), (1, 1)]
    } else if v == 13 {
        [(0, 0), (1, 0), (1, 1), (2, 1)]
    } else if v == 14 {
        [(0, 0), (0, 1), (1, 1), (1, 2)]
    } else if v == 15 {
        [(0, 1), (1, 0), (1, 1), (2, 0)]
    } else if v == 16 {
        [(0, 0), (0, 1), (0, 2), (1, 1)]
    } else if v == 17 {
        [(0, 1), (1, 0), (1, 1), (2, 1)]
    } else if v == 18 {
        [(0, 1), (1, 0), (1, 1), (1, 2)]
    } else {
        [(0, 0), (1, 0), (1, 1), (2, 0)]
    };
    proof {
        assert(t@ =~= shape_table(v));
    }
    t[k]
}

} // verus!
