use vstd::prelude::*;
use rand::{Rng, SeedableRng};
use rand_pcg::Pcg64Mcg;
use crate::grid::{Grid, count_of, idx, in_bounds, lemma_count_le, lemma_count_take, lemma_count_update, lemma_idx_bounds};
use crate::img::{EvalResult, eval, eval_holds, empty_cells};
use crate::layout::{
    covered_before, hits, lay, occupancy, occupancy_accepted, occupied, piece_count, piece_index, pieces_disjoint,
    pieces_in_bounds, placement_valid, shapes_known, square_at,
};
use crate::piece::is_shape;

verus! {

/// The largest grid the engine takes: every metric and score then fits an `i32`.
pub const MAX_CELLS: usize = 0x1000_0000;

/// The fitness policy that turns an evaluation into a score.
#[derive(Debug, PartialEq, Eq, Clone, Copy, Structural)]
pub enum Policy {
    /// Rewards filling cells; penalises surface, fragments and holes.
    Grow,
    /// Rewards little excess fill and low edge and fragmentation.
    Trim,
}

/// The parameters of one run of the genetic algorithm.
pub struct Config {
    pub map: Grid<bool>,
    pub map_size: usize,
    pub ref_map: Option<Grid<u8>>,
    pub size: usize,
    pub mutate: usize,
    pub crossover: usize,
    pub good_pool: usize,
    pub score: Policy,
    pub score_phase: i32,
    pub score_chunk: i32,
}

impl Config {
    /// The mask is well formed and small enough, and `map_size` counts its
    /// accepted cells.
    pub open spec fn wf(&self) -> bool {
        &&& self.map.wf()
        &&& self.map.size() <= MAX_CELLS
        &&& self.map_size == count_of(self.map.cells@, true)
    }
}

impl Default for Config {
    fn default() -> (r: Self)
        ensures
            r.map.h == 0 && r.map.w == 0 && r.map.cells@.len() == 0,
            r.map_size == 0,
            r.ref_map is None,
            r.size == 64,
            r.mutate == 21,
            r.crossover == 16,
            r.good_pool == 32,
            r.score == Policy::Grow,
            r.score_phase == 0,
            r.score_chunk == 1,
    {
        Config {
            map: Grid { h: 0, w: 0, cells: Vec::new() },
            map_size: 0,
            ref_map: None,
            size: 64,
            mutate: 21,
            crossover: 16,
            good_pool: 32,
            score: Policy::Grow,
            score_phase: 0,
            score_chunk: 1,
        }
    }
}

/// Every metric of a valid evaluation lies in `0 ..= MAX_CELLS`.
pub open spec fn metrics_in_range(raw: EvalResult) -> bool {
    raw matches EvalResult::Valid { chunk, filled, surface, fragment, fragment_non4, hole, edge } ==> {
        &&& 0 <= chunk <= MAX_CELLS
        &&& 0 <= filled <= MAX_CELLS
        &&& 0 <= surface <= MAX_CELLS
        &&& 0 <= fragment <= MAX_CELLS
        &&& 0 <= fragment_non4 <= MAX_CELLS
        &&& 0 <= hole <= MAX_CELLS
        &&& 0 <= edge <= MAX_CELLS
    }
}

/// The larger of two integers.
pub open spec fn max_int(a: int, b: int) -> int {
    if a >= b {
        a
    } else {
        b
    }
}

/// The grow policy's score.
pub open spec fn grow_score(map_size: int, score_phase: int, score_chunk: int, raw: EvalResult) -> int {
    match raw {
        EvalResult::Invalid => -100,
        EvalResult::Valid { chunk, filled, surface, fragment, fragment_non4, hole, .. } => {
            if filled == 0 {
                0
            } else if chunk > score_chunk {
                -101
            } else if (map_size % 4 == 0 && fragment_non4 > 0) || (map_size % 4 != 0 && fragment_non4 > 1) {
                -102
            } else if score_phase == 0 {
                max_int(0, filled * 4 - surface * 2 + 10 - 10 * fragment - 10 * hole)
            } else {
                max_int(0, filled * 4 - surface * 2 - 10 * hole)
            }
        },
    }
}

/// The trim policy's score.
pub open spec fn trim_score(score_phase: int, raw: EvalResult) -> int {
    match raw {
        EvalResult::Invalid => -104,
        EvalResult::Valid { filled, surface, fragment, hole, edge, .. } => {
            if filled == 0 {
                1000000
            } else {
                max_int(
                    0,
                    1000000 - 2 * edge - 5 * max_int(0, filled - score_phase) - surface - 50 * fragment - 10 * hole,
                )
            }
        },
    }
}

/// The score of an evaluation under the configured policy.
pub open spec fn policy_score(cfg: Config, raw: EvalResult) -> int {
    match cfg.score {
        Policy::Grow => grow_score(cfg.map_size as int, cfg.score_phase as int, cfg.score_chunk as int, raw),
        Policy::Trim => trim_score(cfg.score_phase as int, raw),
    }
}

/// Scores an evaluation for growing a placement.
pub fn score_grow(cfg: &Config, raw: &EvalResult) -> (r: i32)
    requires
        metrics_in_range(*raw),
    ensures
        r == grow_score(cfg.map_size as int, cfg.score_phase as int, cfg.score_chunk as int, *raw),
{
    match *raw {
        EvalResult::Invalid => -100,
        EvalResult::Valid { chunk, filled, surface, fragment, fragment_non4, hole, .. } => {
            if filled == 0 {
                return 0;
            }
            if chunk > cfg.score_chunk {
                return -101;
            }
            if cfg.map_size % 4 == 0 {
                if fragment_non4 > 0 {
                    return -102;
                }
            } else {
                if fragment_non4 > 1 {
                    return -102;
                }
            }
            let base = filled as i64 * 4 - surface as i64 * 2 - 10 * hole as i64;
            let v = if cfg.score_phase == 0 {
                base + 10 - 10 * fragment as i64
            } else {
                base
            };
            if v < 0 {
                0
            } else {
                v as i32
            }
        },
    }
}

/// Scores an evaluation for trimming a placement toward a budget of
/// `score_phase` filled cells.
pub fn score_trim(cfg: &Config, raw: &EvalResult) -> (r: i32)
    requires
        metrics_in_range(*raw),
    ensures
        r == trim_score(cfg.score_phase as int, *raw),
{
    match *raw {
        EvalResult::Invalid => -104,
        EvalResult::Valid { filled, surface, fragment, hole, edge, .. } => {
            if filled == 0 {
                return 1000000;
            }
            let excess = filled as i64 - cfg.score_phase as i64;
            let too_much_fill: i64 = if excess > 0 {
                excess
            } else {
                0
            };
            let v = 1000000 - 2 * edge as i64 - 5 * too_much_fill - surface as i64 - 50 * fragment as i64 - 10
                * hole as i64;
            if v < 0 {
                0
            } else {
                v as i32
            }
        },
    }
}

impl Policy {
    /// Scores an evaluation under this policy.
    pub fn score(&self, cfg: &Config, raw: &EvalResult) -> (r: i32)
        requires
            metrics_in_range(*raw),
        ensures
            r == (match *self {
                Policy::Grow => grow_score(cfg.map_size as int, cfg.score_phase as int, cfg.score_chunk as int, *raw),
                Policy::Trim => trim_score(cfg.score_phase as int, *raw),
            }),
    {
        match self {
            Policy::Grow => score_grow(cfg, raw),
            Policy::Trim => score_trim(cfg, raw),
        }
    }
}

} // verus!

verus! {

#[verifier::external_type_specification]
#[verifier::external_body]
pub struct ExPcg64Mcg(rand_pcg::Mcg128Xsl64);

/// Relies on rand_core's `SeedableRng::seed_from_u64` for `Pcg64Mcg`.
#[verifier::external_body]
fn seeded(seed: u64) -> Pcg64Mcg {
    Pcg64Mcg::seed_from_u64(seed)
}

/// Relies on rand_core's `SeedableRng::from_rng` for `Pcg64Mcg`: it seeds a
/// new generator from the given one, and cannot fail here since `Pcg64Mcg`'s
/// `try_fill_bytes` always returns `Ok`.
#[verifier::external_body]
fn fork(rng: &mut Pcg64Mcg) -> Pcg64Mcg {
    Pcg64Mcg::from_rng(rng).unwrap()
}

/// Relies on rand's `Rng::gen_range`: a value in `lo..hi` (it panics only on
/// an empty range).
#[verifier::external_body]
fn gen_range(rng: &mut Pcg64Mcg, lo: usize, hi: usize) -> (r: usize)
    requires
        lo < hi,
    ensures
        lo <= r < hi,
{
    rng.gen_range(lo..hi)
}

/// Relies on rand's `Rng::gen::<bool>`: a fair coin.
#[verifier::external_body]
fn gen_bool(rng: &mut Pcg64Mcg) -> bool {
    rng.gen::<bool>()
}

/// The content hash of an occupancy mask.
pub uninterp spec fn hash_of(cells: Seq<bool>) -> u64;

/// Relies on std's `DefaultHasher`, fed the cells through `Hash::hash_slice`:
/// a fresh `DefaultHasher` has fixed keys, so the hash depends on the cells alone.
#[verifier::external_body]
fn occupancy_hash(cells: &Vec<bool>) -> (r: u64)
    ensures
        r == hash_of(cells@),
{
    let mut hasher = std::collections::hash_map::DefaultHasher::new();
    std::hash::Hash::hash_slice(cells.as_slice(), &mut hasher);
    std::hash::Hasher::finish(&hasher)
}

/// One individual of the population.
pub struct Candidate {
    pub score: i32,
    pub raw_score: EvalResult,
    pub data: Grid<u8>,
    pub hash: u64,
}

impl Candidate {
    /// The placement fits the configured mask, `raw_score` is its evaluation
    /// and `hash` the hash of its occupancy.
    pub open spec fn fits(&self, cfg: Config) -> bool {
        &&& self.data.wf()
        &&& self.data.h == cfg.map.h
        &&& self.data.w == cfg.map.w
        &&& shapes_known(self.data)
        &&& eval_holds(cfg.map, self.data, self.raw_score)
        &&& metrics_in_range(self.raw_score)
        &&& self.hash == hash_of(occupancy(self.data))
    }

    /// The pair by which duplicates are recognised.
    pub open spec fn key(&self) -> (i32, u64) {
        (self.score, self.hash)
    }

    /// A copy of the candidate.
    pub fn duplicate(&self) -> (r: Candidate)
        ensures
            r.score == self.score,
            r.raw_score == self.raw_score,
            r.hash == self.hash,
            r.data.h == self.data.h,
            r.data.w == self.data.w,
            r.data.cells@ == self.data.cells@,
    {
        Candidate { score: self.score, raw_score: self.raw_score, data: self.data.copy(), hash: self.hash }
    }
}

/// The metrics of an evaluation on a small enough grid fit the score range.
pub proof fn lemma_eval_in_range(map: Grid<bool>, data: Grid<u8>, r: EvalResult)
    requires
        eval_holds(map, data, r),
        data.wf(),
        data.size() <= MAX_CELLS,
    ensures
        metrics_in_range(r),
{
    crate::grid::lemma_count_le(empty_cells(map, occupancy(data)), true);
}

/// Evaluates, scores and hashes a placement.
pub fn mk_candidate(cfg: &Config, data: Grid<u8>) -> (c: Candidate)
    requires
        cfg.wf(),
        data.wf(),
        data.h == cfg.map.h,
        data.w == cfg.map.w,
        shapes_known(data),
    ensures
        c.fits(*cfg),
        c.score == policy_score(*cfg, c.raw_score),
        c.data == data,
{
    let raw_score = eval(&cfg.map, &data);
    proof {
        lemma_eval_in_range(cfg.map, data, raw_score);
    }
    let occ = lay(&data);
    let hash = occupancy_hash(&occ.cells);
    let score = cfg.score.score(cfg, &raw_score);
    Candidate { score, raw_score, data, hash }
}

} // verus!

verus! {

/// A piece of variant `v` anchored at `a` lies inside the grid on accepted
/// cells that `occ` leaves free.
pub open spec fn piece_fits_free(m: Grid<bool>, occ: Seq<bool>, a: int, v: u8) -> bool {
    forall|k: int|
        0 <= k < 4 ==> {
            let c = #[trigger] piece_index(m.h as int, m.w as int, a, v, k);
            c >= 0 && m.cells@[c] && !occ[c]
        }
}

/// `new` is `old` with a piece of some variant anchored at a cell, on
/// accepted cells that `old` leaves free.
pub open spec fn added_piece(m: Grid<bool>, old: Grid<u8>, new: Grid<u8>) -> bool {
    exists|a: int, v: u8|
        0 <= a < old.size() && is_shape(v) && #[trigger] old.cells@.update(a, v) == new.cells@ && piece_fits_free(
            m,
            occupancy(old),
            a,
            v,
        )
}

/// `new` is `old` with one anchored piece cleared.
pub open spec fn removed_piece(old: Grid<u8>, new: Grid<u8>) -> bool {
    exists|a: int| 0 <= a < old.size() && old.cells@[a] != 0 && #[trigger] old.cells@.update(a, 0) == new.cells@
}

/// Clearing one anchored piece lowers the piece count by exactly one.
pub proof fn lemma_remove_lowers_count(old: Grid<u8>, new: Grid<u8>)
    requires
        old.wf(),
        new.h == old.h,
        new.w == old.w,
        removed_piece(old, new),
    ensures
        piece_count(new) == piece_count(old) - 1,
{
    let a = choose|a: int| 0 <= a < old.size() && old.cells@[a] != 0 && #[trigger] old.cells@.update(a, 0) == new.cells@;
    lemma_count_update(old.cells@, a, 0u8, 0u8);
}

/// Adding a piece on a cell that anchored none raises the piece count by one.
pub proof fn lemma_add_raises_count(old: Grid<u8>, new: Grid<u8>, a: int, v: u8)
    requires
        old.wf(),
        0 <= a < old.size(),
        old.cells@[a] == 0,
        is_shape(v),
        new.cells@ == old.cells@.update(a, v),
    ensures
        piece_count(new) == piece_count(old) + 1,
{
    lemma_count_update(old.cells@, a, v, 0u8);
}

/// The number of anchored pieces.
pub fn count_pieces(c: &Grid<u8>) -> (r: usize)
    requires
        c.wf(),
    ensures
        r == piece_count(*c),
{
    let mut r: usize = 0;
    let mut i: usize = 0;
    while i < c.cells.len()
        invariant
            i <= c.cells@.len(),
            r == i - count_of(c.cells@.take(i as int), 0u8),
        decreases c.cells@.len() - i,
    {
        proof {
            lemma_count_take(c.cells@, i as int, 0u8);
            lemma_count_le(c.cells@.take(i as int), 0u8);
        }
        if c.cells[i] != 0 {
            r = r + 1;
        }
        i = i + 1;
    }
    proof {
        assert(c.cells@.take(c.cells@.len() as int) =~= c.cells@);
    }
    r
}

/// Adds or removes one piece at random. Adding tries random anchors and
/// variants up to 3000 times and takes the first piece that lies on accepted
/// cells clear of the current occupancy; removing clears a random piece.
/// Returns whether the placement changed.
pub fn mutate(cfg: &Config, c: &mut Grid<u8>, rng: &mut Pcg64Mcg) -> (r: bool)
    requires
        cfg.wf(),
        old(c).wf(),
        old(c).h == cfg.map.h,
        old(c).w == cfg.map.w,
        shapes_known(*old(c)),
    ensures
        final(c).wf(),
        final(c).h == old(c).h,
        final(c).w == old(c).w,
        shapes_known(*final(c)),
        r ==> (added_piece(cfg.map, *old(c), *final(c)) && cfg.map_size >= 4 * piece_count(*old(c)) + 4)
            || removed_piece(*old(c), *final(c)),
        !r ==> final(c).cells@ == old(c).cells@,
        !r ==> cfg.map_size >= 4 * piece_count(*old(c)) + 4 || piece_count(*old(c)) == 0,
        piece_count(*old(c)) > 0 && cfg.map_size < 4 * piece_count(*old(c)) + 4 ==> r && removed_piece(*old(c), *final(c)),
{
    let h = c.h;
    let w = c.w;
    let n = c.cells.len();
    let pieces = count_pieces(c);
    proof {
        lemma_count_le(c.cells@, 0u8);
    }
    let can_add = cfg.map_size >= 4 * pieces + 4;
    let can_remove = pieces > 0;
    if !can_add && !can_remove {
        return false;
    }
    let do_add = if can_add && can_remove {
        gen_bool(rng)
    } else {
        can_add
    };
    if do_add {
        proof {
            lemma_count_le(cfg.map.cells@, true);
        }
        let stage = lay(c);
        let mut attempt: usize = 0;
        while attempt < 3000
            invariant
                n == c.cells@.len() == h * w,
                n > 0,
                h == c.h == cfg.map.h,
                w == c.w == cfg.map.w,
                cfg.map.wf(),
                stage.cells@ == occupancy(*c),
                *c == *old(c),
                shapes_known(*c),
                pieces == piece_count(*old(c)),
                cfg.map_size >= 4 * pieces + 4,
            decreases 3000 - attempt,
        {
            let pos = gen_range(rng, 0, n);
            let v = gen_range(rng, 1, crate::piece::NUM_SHAPES as usize) as u8;
            proof {
                crate::grid::lemma_idx_split(h as int, w as int, pos as int);
            }
            let y = pos / w;
            let x = pos % w;
            let mut ok = true;
            let mut k: usize = 0;
            while k < 4
                invariant
                    n == c.cells@.len() == h * w,
                    h == cfg.map.h,
                    w == cfg.map.w,
                    cfg.map.wf(),
                    stage.cells@.len() == n,
                    in_bounds(h as int, w as int, y as int, x as int),
                    pos == idx(w as int, y as int, x as int),
                    is_shape(v),
                    k <= 4,
                    *c == *old(c),
                    ok ==> forall|j: int|
                        0 <= j < k ==> {
                            let q = #[trigger] piece_index(h as int, w as int, pos as int, v, j);
                            q >= 0 && cfg.map.cells@[q] && !stage.cells@[q]
                        },
                decreases 4 - k,
            {
                match square_at(h, w, y, x, v, k) {
                    Some(q) => {
                        if stage.cells[q] || !cfg.map.cells[q] {
                            ok = false;
                        }
                    },
                    None => {
                        ok = false;
                    },
                }
                k = k + 1;
            }
            if ok {
                let ghost before = *c;
                c.cells.set(pos, v);
                proof {
                    assert(piece_fits_free(cfg.map, occupancy(before), pos as int, v));
                    assert(before.cells@.update(pos as int, v) == c.cells@);
                    assert forall|i: int| 0 <= i < c.cells@.len() implies #[trigger] c.cells@[i] == 0 || is_shape(c.cells@[i]) by {
                        if i != pos {
                            assert(before.cells@[i] == c.cells@[i]);
                        }
                    }
                }
                return true;
            }
            attempt = attempt + 1;
        }
        false
    } else {
        let target = gen_range(rng, 0, pieces);
        let mut seen: usize = 0;
        let mut i: usize = 0;
        while i < n
            invariant
                n == c.cells@.len() == h * w,
                h == c.h,
                w == c.w,
                i <= n,
                seen <= i,
                seen <= target,
                target < pieces,
                seen == i - count_of(c.cells@.take(i as int), 0u8),
                *c == *old(c),
                shapes_known(*c),
                pieces == piece_count(*old(c)),
                pieces > 0,
            decreases n - i,
        {
            proof {
                lemma_count_take(c.cells@, i as int, 0u8);
            }
            if c.cells[i] != 0 {
                if seen == target {
                    let ghost before = *c;
                    c.cells.set(i, 0);
                    proof {
                        assert(before.cells@.update(i as int, 0) == c.cells@);
                        assert forall|j: int| 0 <= j < c.cells@.len() implies #[trigger] c.cells@[j] == 0 || is_shape(c.cells@[j]) by {
                            if j != i {
                                assert(before.cells@[j] == c.cells@[j]);
                            }
                        }
                    }
                    return true;
                }
                seen = seen + 1;
            }
            i = i + 1;
        }
        proof {
            assert(c.cells@.take(n as int) =~= c.cells@);
        }
        false
    }
}

} // verus!

verus! {

/// Scores never increase along the sequence.
pub open spec fn sorted_desc(s: Seq<Candidate>) -> bool {
    forall|i: int, j: int| 0 <= i < j < s.len() ==> (#[trigger] s[i]).score >= (#[trigger] s[j]).score
}

/// No two entries share a `(score, hash)` key.
pub open spec fn keys_distinct(s: Seq<Candidate>) -> bool {
    forall|i: int, j: int| 0 <= i < j < s.len() ==> (#[trigger] s[i]).key() != (#[trigger] s[j]).key()
}

/// Every entry fits the configuration and carries its policy score.
pub open spec fn all_scored(s: Seq<Candidate>, cfg: Config) -> bool {
    forall|i: int| 0 <= i < s.len() ==> (#[trigger] s[i]).fits(cfg) && s[i].score == policy_score(cfg, s[i].raw_score)
}

/// The first `n` entries of `pool` carry the keys of `cand`, padded with the
/// key of `filler`.
pub open spec fn padded_from(pool: Seq<Candidate>, cand: Seq<Candidate>, filler: Candidate, n: int) -> bool {
    forall|j: int| 0 <= j < n ==> (#[trigger] pool[j]).key() == (if j < cand.len() { cand[j].key() } else { filler.key() })
}

/// Every entry of `r` is an entry of `v`.
pub open spec fn drawn_from(r: Seq<Candidate>, v: Seq<Candidate>) -> bool {
    forall|j: int| 0 <= j < r.len() ==> v.contains(#[trigger] r[j])
}

/// Entries scored by the configuration stay so in any selection of them.
pub proof fn lemma_drawn_scored(r: Seq<Candidate>, v: Seq<Candidate>, cfg: Config)
    requires
        drawn_from(r, v),
        all_scored(v, cfg),
    ensures
        all_scored(r, cfg),
{
    assert forall|j: int| 0 <= j < r.len() implies (#[trigger] r[j]).fits(cfg) && r[j].score == policy_score(cfg, r[j].raw_score) by {
        assert(v.contains(r[j]));
        let i = choose|i: int| 0 <= i < v.len() && v[i] == r[j];
        assert(v[i].fits(cfg));
    }
}

/// What deduplication keeps of `v`: non-negative scores only, one candidate
/// per `(score, hash)` key, every key of a non-negative candidate of `v`, and
/// only candidates of `v`.
pub open spec fn dedup_holds(v: Seq<Candidate>, r: Seq<Candidate>) -> bool {
    &&& forall|j: int| 0 <= j < r.len() ==> (#[trigger] r[j]).score >= 0
    &&& keys_distinct(r)
    &&& forall|i: int| 0 <= i < v.len() && (#[trigger] v[i]).score >= 0 ==> exists|j: int|
        0 <= j < r.len() && (#[trigger] r[j]).key() == v[i].key()
    &&& drawn_from(r, v)
}

/// Some candidate before position `i` has the `(score, hash)` key of `v[i]`.
pub open spec fn key_seen_before(v: Seq<Candidate>, i: int) -> bool {
    exists|j: int| 0 <= j < i && (#[trigger] v[j]).key() == v[i].key()
}

/// Deduplication: the non-negative candidates whose key no earlier candidate
/// has, in their order.
pub open spec fn dedup_spec(v: Seq<Candidate>) -> Seq<Candidate>
    decreases v.len(),
{
    if v.len() == 0 {
        Seq::empty()
    } else {
        let kept = dedup_spec(v.drop_last());
        let i = v.len() - 1;
        if v[i].score >= 0 && !key_seen_before(v, i) {
            kept.push(v[i])
        } else {
            kept
        }
    }
}

/// Drops the candidates with a negative score, and every candidate whose
/// `(score, hash)` key an earlier one already has; keeps the order.
pub fn dedup(v: Vec<Candidate>) -> (r: Vec<Candidate>)
    ensures
        r@ == dedup_spec(v@),
        dedup_holds(v@, r@),
        sorted_desc(v@) ==> sorted_desc(r@),
{
    let ghost orig = v@;
    let n0 = v.len();
    let mut v = v;
    let mut r: Vec<Candidate> = Vec::new();
    let ghost mut pos: Seq<int> = Seq::empty();
    let mut i: usize = 0;
    while v.len() > 0
        invariant
            i + v@.len() == orig.len(),
            orig.len() == n0,
            v@ == orig.subrange(i as int, orig.len() as int),
            pos.len() == r@.len(),
            forall|j: int| 0 <= j < r@.len() ==> 0 <= #[trigger] pos[j] < i && r@[j] == orig[pos[j]],
            forall|j1: int, j2: int| 0 <= j1 < j2 < r@.len() ==> #[trigger] pos[j1] < #[trigger] pos[j2],
            forall|j: int| 0 <= j < r@.len() ==> (#[trigger] r@[j]).score >= 0,
            keys_distinct(r@),
            forall|k: int| 0 <= k < i && (#[trigger] orig[k]).score >= 0 ==> exists|j: int|
                0 <= j < r@.len() && (#[trigger] r@[j]).key() == orig[k].key(),
            r@ == dedup_spec(orig.take(i as int)),
        decreases v@.len(),
    {
        let c = v.remove(0);
        let ghost r_before = r@;
        let ghost cg = c;
        proof {
            assert(c == orig[i as int]);
            let t = orig.take(i + 1);
            assert(t.drop_last() =~= orig.take(i as int));
            assert(t[i as int] == c);
            if c.score >= 0 {
                if key_seen_before(t, i as int) {
                    let j = choose|j: int| 0 <= j < i && (#[trigger] t[j]).key() == t[i as int].key();
                    assert(orig[j] == t[j]);
                    assert(orig[j].score >= 0);
                }
            }
        }
        if c.score >= 0 {
            let mut seen = false;
            let mut j: usize = 0;
            while j < r.len()
                invariant
                    j <= r@.len(),
                    seen <==> exists|t: int| 0 <= t < j && (#[trigger] r@[t]).key() == c.key(),
                decreases r@.len() - j,
            {
                if r[j].score == c.score && r[j].hash == c.hash {
                    seen = true;
                }
                j = j + 1;
            }
            if !seen {
                let ghost r0 = r@;
                proof {
                    pos = pos.push(i as int);
                }
                r.push(c);
                proof {
                    assert forall|a: int, b: int| 0 <= a < b < r@.len() implies (#[trigger] r@[a]).key() != (#[trigger] r@[b]).key() by {
                        if b == r@.len() - 1 {
                            assert(r@[b] == c);
                            assert(!((r@[a]).key() == c.key()));
                        }
                    }
                    assert forall|k: int| 0 <= k < i + 1 && (#[trigger] orig[k]).score >= 0 implies exists|j: int|
                        0 <= j < r@.len() && (#[trigger] r@[j]).key() == orig[k].key() by {
                        if k == i {
                            assert(r@[r@.len() - 1].key() == orig[k].key());
                        } else {
                            let j = choose|j: int| 0 <= j < r0.len() && (#[trigger] r0[j]).key() == orig[k].key();
                            assert(r@[j] == r0[j]);
                        }
                    }
                }
            } else {
                proof {
                    assert forall|k: int| 0 <= k < i + 1 && (#[trigger] orig[k]).score >= 0 implies exists|j: int|
                        0 <= j < r@.len() && (#[trigger] r@[j]).key() == orig[k].key() by {
                        if k == i {
                            let t = choose|t: int| 0 <= t < r@.len() && (#[trigger] r@[t]).key() == c.key();
                            assert(r@[t].key() == orig[k].key());
                        }
                    }
                }
            }
        }
        proof {
            let t = orig.take(i + 1);
            assert(t.drop_last() =~= orig.take(i as int));
            if cg.score >= 0 && !key_seen_before(t, i as int) {
                assert(r@ == r_before.push(cg)) by {
                    if exists|q: int| 0 <= q < r_before.len() && (#[trigger] r_before[q]).key() == cg.key() {
                        let q = choose|q: int| 0 <= q < r_before.len() && (#[trigger] r_before[q]).key() == cg.key();
                        assert(t[pos[q]] == orig[pos[q]]);
                        assert(t[pos[q]].key() == t[i as int].key());
                    }
                }
            }
        }
        i = i + 1;
    }
    proof {
        assert(orig.take(orig.len() as int) =~= orig);
        assert forall|j: int| 0 <= j < r@.len() implies orig.contains(#[trigger] r@[j]) by {
            assert(orig[pos[j]] == r@[j]);
        }
        if sorted_desc(orig) {
            assert forall|a: int, b: int| 0 <= a < b < r@.len() implies (#[trigger] r@[a]).score >= (#[trigger] r@[b]).score by {
                assert(pos[a] < pos[b]);
                assert(orig[pos[a]].score >= orig[pos[b]].score);
            }
        }
    }
    r
}

} // verus!

verus! {

/// Orders candidates by descending score, keeping the order of equal scores.
fn sort_by_score(v: Vec<Candidate>) -> (r: Vec<Candidate>)
    ensures
        r@.len() == v@.len(),
        sorted_desc(r@),
        drawn_from(r@, v@),
        drawn_from(v@, r@),
{
    let ghost orig = v@;
    let n0 = v.len();
    let mut v = v;
    let mut r: Vec<Candidate> = Vec::new();
    let mut i: usize = 0;
    while v.len() > 0
        invariant
            i + v@.len() == orig.len(),
            orig.len() == n0,
            v@ == orig.subrange(i as int, orig.len() as int),
            r@.len() == i,
            sorted_desc(r@),
            drawn_from(r@, orig),
            forall|k: int| 0 <= k < i ==> r@.contains(#[trigger] orig[k]),
        decreases v@.len(),
    {
        let c = v.remove(0);
        proof {
            assert(c == orig[i as int]);
        }
        let mut p: usize = 0;
        while p < r.len() && r[p].score >= c.score
            invariant
                p <= r@.len(),
                forall|j: int| 0 <= j < p ==> (#[trigger] r@[j]).score >= c.score,
            decreases r@.len() - p,
        {
            p = p + 1;
        }
        let ghost r0 = r@;
        r.insert(p, c);
        proof {
            assert(r@ == r0.insert(p as int, c));
            assert forall|a: int, b: int| 0 <= a < b < r@.len() implies (#[trigger] r@[a]).score >= (#[trigger] r@[b]).score by {
                if p < r0.len() {
                    assert(r0[p as int].score < c.score);
                }
                if a < p && b == p {
                } else if a < p && b > p {
                    assert(r@[b] == r0[b - 1]);
                } else if a == p && b > p {
                    assert(r@[b] == r0[b - 1]);
                    assert(r0[p as int].score >= r0[b - 1].score);
                } else if a > p {
                    assert(r@[a] == r0[a - 1]);
                    assert(r@[b] == r0[b - 1]);
                }
            }
            assert forall|j: int| 0 <= j < r@.len() implies orig.contains(#[trigger] r@[j]) by {
                if j < p {
                    assert(r@[j] == r0[j]);
                    assert(orig.contains(r0[j]));
                } else if j == p {
                    assert(orig[i as int] == c);
                } else {
                    assert(r@[j] == r0[j - 1]);
                    assert(orig.contains(r0[j - 1]));
                }
            }
            assert forall|k: int| 0 <= k < i + 1 implies r@.contains(#[trigger] orig[k]) by {
                if k == i {
                    assert(r@[p as int] == orig[k]);
                } else {
                    let j = choose|j: int| 0 <= j < r0.len() && r0[j] == orig[k];
                    if j < p {
                        assert(r@[j] == r0[j]);
                    } else {
                        assert(r@[j + 1] == r0[j]);
                    }
                }
            }
        }
        i = i + 1;
    }
    proof {
        assert forall|j: int| 0 <= j < orig.len() implies r@.contains(#[trigger] orig[j]) by {}
    }
    r
}

/// What selection keeps of a ranked sequence: all of it when it holds at
/// most `size` candidates; otherwise the first `good_pool`, then the run of
/// `size - good_pool` that starts halfway into what the rest has to spare.
pub open spec fn selection(v: Seq<Candidate>, size: int, good_pool: int) -> Seq<Candidate> {
    if v.len() <= size {
        v
    } else {
        let run = size - good_pool;
        let start = (v.len() - good_pool - run) / 2;
        v.subrange(0, good_pool) + v.subrange(good_pool + start, good_pool + start + run)
    }
}

/// Keeps the `good_pool` best, then a run of `size - good_pool` candidates
/// from the middle of the rest, when there are more than `size`.
pub fn select(v: Vec<Candidate>, size: usize, good_pool: usize) -> (r: Vec<Candidate>)
    requires
        good_pool <= size,
    ensures
        r@ == selection(v@, size as int, good_pool as int),
        r@.len() == if v@.len() > size { size as int } else { v@.len() as int },
        sorted_desc(v@) ==> sorted_desc(r@),
        drawn_from(r@, v@),
        keys_distinct(v@) ==> keys_distinct(r@),
        v@.len() <= size ==> r@ == v@,
{
    if v.len() <= size {
        proof {
            assert forall|j: int| 0 <= j < v@.len() implies v@.contains(#[trigger] v@[j]) by {}
        }
        return v;
    }
    let ghost orig = v@;
    let mut good = v;
    let bad = good.split_off(good_pool);
    let bad_size = size - good_pool;
    let bad_start = (bad.len() - bad_size) / 2;
    let mut bad = bad;
    let mut mid = bad.split_off(bad_start);
    mid.truncate(bad_size);
    let ghost g = good@;
    let ghost m = mid@;
    good.append(&mut mid);
    proof {
        assert(g == orig.subrange(0, good_pool as int));
        assert(m == orig.subrange(good_pool + bad_start, good_pool + bad_start + bad_size));
        assert(good@ == g + m);
        assert(good@ == selection(orig, size as int, good_pool as int));
        if sorted_desc(orig) {
            assert forall|a: int, b: int| 0 <= a < b < good@.len() implies (#[trigger] good@[a]).score >= (#[trigger] good@[b]).score by {
                let ia = if a < good_pool { a } else { a + bad_start };
                let ib = if b < good_pool { b } else { b + bad_start };
                assert(good@[a] == orig[ia]);
                assert(good@[b] == orig[ib]);
            }
        }
        assert forall|j: int| 0 <= j < good@.len() implies orig.contains(#[trigger] good@[j]) by {
            let ij = if j < good_pool { j } else { j + bad_start };
            assert(good@[j] == orig[ij]);
        }
        if keys_distinct(orig) {
            assert forall|a: int, b: int| 0 <= a < b < good@.len() implies (#[trigger] good@[a]).key() != (#[trigger] good@[b]).key() by {
                let ia = if a < good_pool { a } else { a + bad_start };
                let ib = if b < good_pool { b } else { b + bad_start };
                assert(good@[a] == orig[ia]);
                assert(good@[b] == orig[ib]);
            }
        }
    }
    good
}

/// What selection keeps comes from its input, keeps distinct keys distinct,
/// starts with the input's first candidate when elites are kept, and is the
/// whole input when it is short.
pub proof fn lemma_selection_props(kp: Seq<Candidate>, c: Seq<Candidate>, size: int, good_pool: int)
    requires
        0 <= good_pool <= size,
        c == selection(kp, size, good_pool),
    ensures
        forall|j: int| 0 <= j < c.len() ==> kp.contains(#[trigger] c[j]),
        keys_distinct(kp) ==> keys_distinct(c),
        kp.len() >= 1 && good_pool >= 1 && size >= 1 ==> c.len() >= 1 && c[0] == kp[0],
        c.len() < size ==> c == kp,
        c.len() <= size,
{
    if kp.len() > size {
        let run = size - good_pool;
        let start = (kp.len() - good_pool - run) / 2;
        assert forall|j: int| 0 <= j < c.len() implies kp.contains(#[trigger] c[j]) by {
            if j < good_pool {
                assert(c[j] == kp[j]);
            } else {
                assert(c[j] == kp[j + start]);
            }
        }
        if keys_distinct(kp) {
            assert forall|a: int, b: int| 0 <= a < b < c.len() implies (#[trigger] c[a]).key() != (#[trigger] c[b]).key() by {
                let ia = if a < good_pool { a } else { a + start };
                let ib = if b < good_pool { b } else { b + start };
                assert(c[a] == kp[ia]);
                assert(c[b] == kp[ib]);
            }
        }
        if good_pool >= 1 {
            assert(c[0] == kp[0]);
        }
    } else {
        assert forall|j: int| 0 <= j < c.len() implies kp.contains(#[trigger] c[j]) by {}
    }
}

/// Merges the padded population with the new candidates, ranks them by
/// descending score (equal scores keep their order), drops negative scores
/// and repeated `(score, hash)` keys, and selects the next population.
pub fn rank_and_select(pool: Vec<Candidate>, newc: Vec<Candidate>, size: usize, good_pool: usize) -> (r: Vec<Candidate>)
    requires
        good_pool <= size,
    ensures
        exists|ranked: Seq<Candidate>|
            ranked.len() == pool@.len() + newc@.len() && sorted_desc(ranked) && drawn_from(ranked, pool@ + newc@)
                && drawn_from(pool@ + newc@, ranked) && r@ == #[trigger] selection(dedup_spec(ranked), size as int, good_pool as int),
        r@.len() <= size,
        sorted_desc(r@),
        keys_distinct(r@),
        forall|j: int| 0 <= j < r@.len() ==> (#[trigger] r@[j]).score >= 0,
        drawn_from(r@, pool@ + newc@),
        forall|e: Candidate|
            (pool@ + newc@).contains(e) && e.score >= 0 && good_pool >= 1 && size >= 1 ==> r@.len() >= 1
                && r@[0].score >= e.score,
        forall|e: Candidate|
            (pool@ + newc@).contains(e) && e.score >= 0 && r@.len() < size ==> exists|j: int|
                0 <= j < r@.len() && (#[trigger] r@[j]).key() == e.key(),
{
    let ghost merged = pool@ + newc@;
    let mut pool = pool;
    let mut newc = newc;
    pool.append(&mut newc);
    let ranked = sort_by_score(pool);
    let kept = dedup(ranked);
    let ghost rk = ranked@;
    let ghost kp = kept@;
    let chosen = select(kept, size, good_pool);
    proof {
        let c = chosen@;
        lemma_selection_props(kp, c, size as int, good_pool as int);
        assert(rk.len() == merged.len() && sorted_desc(rk) && drawn_from(rk, merged) && drawn_from(merged, rk)
            && c == selection(dedup_spec(rk), size as int, good_pool as int));
        assert forall|j: int| 0 <= j < c.len() implies (#[trigger] c[j]).score >= 0 by {
            assert(kp.contains(c[j]));
        }
        assert forall|j: int| 0 <= j < c.len() implies merged.contains(#[trigger] c[j]) by {
            assert(kp.contains(c[j]));
            let q = choose|q: int| 0 <= q < kp.len() && kp[q] == c[j];
            assert(rk.contains(kp[q]));
        }
        assert forall|e: Candidate| merged.contains(e) && e.score >= 0 implies exists|j: int|
            0 <= j < kp.len() && (#[trigger] kp[j]).key() == e.key() by {
            assert(rk.contains(e));
            let q = choose|q: int| 0 <= q < rk.len() && rk[q] == e;
            assert(rk[q].score >= 0);
        }
        assert forall|e: Candidate| merged.contains(e) && e.score >= 0 && good_pool >= 1 && size >= 1 implies c.len() >= 1
            && c[0].score >= e.score by {
            let j = choose|j: int| 0 <= j < kp.len() && (#[trigger] kp[j]).key() == e.key();
            if j > 0 {
                assert(kp[0].score >= kp[j].score);
            }
        }
        assert forall|e: Candidate| merged.contains(e) && e.score >= 0 && c.len() < size implies exists|j: int|
            0 <= j < c.len() && (#[trigger] c[j]).key() == e.key() by {
            let j = choose|j: int| 0 <= j < kp.len() && (#[trigger] kp[j]).key() == e.key();
            assert(c[j].key() == e.key());
        }
    }
    chosen
}

} // verus!

verus! {

/// Two placements with the same shape and cells have the same spec-level
/// properties.
pub proof fn lemma_same_grid(m: Grid<bool>, d1: Grid<u8>, d2: Grid<u8>)
    requires
        d1.h == d2.h,
        d1.w == d2.w,
        d1.cells@ == d2.cells@,
    ensures
        shapes_known(d1) == shapes_known(d2),
        occupancy(d1) == occupancy(d2),
        placement_valid(m, d1) == placement_valid(m, d2),
        piece_count(d1) == piece_count(d2),
{
    crate::layout::lemma_prefix_frame(d1, d2, d1.size());
    assert forall|i: int| #[trigger] occupied(d1, i) == occupied(d2, i) by {
        assert(covered_before(d1, d1.size(), 0, i) == occupied(d1, i));
        assert(covered_before(d2, d2.size(), 0, i) == occupied(d2, i));
    }
    assert(occupancy(d1) =~= occupancy(d2));
    assert(pieces_in_bounds(d1) == pieces_in_bounds(d2));
    if pieces_disjoint(d1) {
        assert forall|a1: int, k1: int, a2: int, k2: int, i: int|
            0 <= a1 < d2.size() && 0 <= k1 < 4 && 0 <= a2 < d2.size() && 0 <= k2 < 4 && #[trigger] hits(d2, a1, k1, i)
                && #[trigger] hits(d2, a2, k2, i) implies a1 == a2 && k1 == k2 by {
            assert(hits(d1, a1, k1, i) && hits(d1, a2, k2, i));
        }
    }
    if pieces_disjoint(d2) {
        assert forall|a1: int, k1: int, a2: int, k2: int, i: int|
            0 <= a1 < d1.size() && 0 <= k1 < 4 && 0 <= a2 < d1.size() && 0 <= k2 < 4 && #[trigger] hits(d1, a1, k1, i)
                && #[trigger] hits(d1, a2, k2, i) implies a1 == a2 && k1 == k2 by {
            assert(hits(d2, a1, k1, i) && hits(d2, a2, k2, i));
        }
    }
    assert(occupancy_accepted(m, d1) == occupancy_accepted(m, d2)) by {
        if occupancy_accepted(m, d1) {
            assert forall|i: int| 0 <= i < d2.size() && #[trigger] occupied(d2, i) implies m.cells@[i] by {
                assert(occupied(d1, i));
            }
        }
        if occupancy_accepted(m, d2) {
            assert forall|i: int| 0 <= i < d1.size() && #[trigger] occupied(d1, i) implies m.cells@[i] by {
                assert(occupied(d2, i));
            }
        }
    }
}

/// A copy of a candidate fits and scores as the candidate does.
pub proof fn lemma_duplicate_fits(c1: Candidate, c2: Candidate, cfg: Config)
    requires
        c1.score == c2.score,
        c1.raw_score == c2.raw_score,
        c1.hash == c2.hash,
        c1.data.h == c2.data.h,
        c1.data.w == c2.data.w,
        c1.data.cells@ == c2.data.cells@,
        c1.fits(cfg),
    ensures
        c2.fits(cfg),
        c1.key() == c2.key(),
{
    lemma_same_grid(cfg.map, c1.data, c2.data);
}

} // verus!

verus! {

/// Position `i` of a grid `w` wide lies in rows `y1..=y2` and columns `x1..=x2`.
pub open spec fn in_rect(w: int, i: int, y1: int, y2: int, x1: int, x2: int) -> bool {
    y1 <= i / w <= y2 && x1 <= i % w <= x2
}

/// A copy of `parent` with the rectangle rows `y1..=y2`, columns `x1..=x2`
/// taken from `donor`.
pub fn graft_rect(parent: &Grid<u8>, donor: &Grid<u8>, y1: usize, y2: usize, x1: usize, x2: usize) -> (r: Grid<u8>)
    requires
        parent.wf(),
        donor.wf(),
        donor.h == parent.h,
        donor.w == parent.w,
        y1 <= y2 < parent.h,
        x1 <= x2 < parent.w,
    ensures
        r.wf(),
        r.h == parent.h,
        r.w == parent.w,
        forall|i: int|
            0 <= i < r.size() ==> #[trigger] r.cells@[i] == if in_rect(parent.w as int, i, y1 as int, y2 as int, x1 as int, x2 as int) {
                donor.cells@[i]
            } else {
                parent.cells@[i]
            },
{
    let h = parent.h;
    let w = parent.w;
    let n = parent.cells.len();
    let mut c = parent.copy();
    let mut y = y1;
    while y <= y2
        invariant
            n == parent.cells@.len() == donor.cells@.len() == c.cells@.len() == h * w,
            c.h == h,
            c.w == w,
            y1 <= y <= y2 + 1,
            y2 < h,
            x1 <= x2 < w,
            forall|i: int|
                0 <= i < n ==> #[trigger] c.cells@[i] == if in_rect(w as int, i, y1 as int, y - 1, x1 as int, x2 as int) {
                    donor.cells@[i]
                } else {
                    parent.cells@[i]
                },
        decreases y2 + 1 - y,
    {
        let mut x = x1;
        while x <= x2
            invariant
                n == parent.cells@.len() == donor.cells@.len() == c.cells@.len() == h * w,
                c.h == h,
                c.w == w,
                y1 <= y <= y2,
                y2 < h,
                x1 <= x <= x2 + 1,
                x2 < w,
                forall|i: int|
                    0 <= i < n ==> #[trigger] c.cells@[i] == if in_rect(w as int, i, y1 as int, y - 1, x1 as int, x2 as int) || (i
                        / (w as int) == y && x1 <= i % (w as int) < x) {
                        donor.cells@[i]
                    } else {
                        parent.cells@[i]
                    },
            decreases x2 + 1 - x,
        {
            proof {
                lemma_idx_bounds(h as int, w as int, y as int, x as int);
                crate::layout::lemma_anchor(w as int, y as int, x as int);
            }
            let t = y * w + x;
            let ghost before = c.cells@;
            let v = donor.cells[t];
            c.cells.set(t, v);
            proof {
                assert forall|i: int| 0 <= i < n implies #[trigger] c.cells@[i] == if in_rect(w as int, i, y1 as int, y - 1, x1 as int, x2 as int) || (i
                    / (w as int) == y && x1 <= i % (w as int) < x + 1) {
                    donor.cells@[i]
                } else {
                    parent.cells@[i]
                } by {
                    crate::grid::lemma_idx_split(h as int, w as int, i);
                    if i != t {
                        assert(c.cells@[i] == before[i]);
                        if i / (w as int) == y && i % (w as int) == x {
                            assert(i == t);
                        }
                    }
                }
            }
            x = x + 1;
        }
        y = y + 1;
    }
    c
}

} // verus!

verus! {

/// The state of one run of the genetic algorithm: the configuration, the
/// population ordered best first, and the generation counter.
pub struct GA {
    pub cfg: Config,
    pub candidate: Vec<Candidate>,
    pub generation: usize,
    pub rng: Pcg64Mcg,
    pub empty: Candidate,
}

impl GA {
    /// The baseline candidate fits the configuration.
    pub open spec fn baseline_fits(&self) -> bool {
        self.empty.fits(self.cfg)
    }

    /// The baseline candidate carries its policy score.
    pub open spec fn baseline_scored(&self) -> bool {
        self.empty.score == policy_score(self.cfg, self.empty.raw_score)
    }

    /// The configuration is well formed and every candidate fits it.
    pub open spec fn wf(&self) -> bool {
        &&& self.cfg.wf()
        &&& self.baseline_fits()
        &&& forall|i: int| 0 <= i < self.candidate@.len() ==> (#[trigger] self.candidate@[i]).fits(self.cfg)
    }

    /// Every score, the baseline's included, follows the current policy.
    pub open spec fn scored(&self) -> bool {
        &&& self.baseline_scored()
        &&& forall|i: int|
            0 <= i < self.candidate@.len() ==> (#[trigger] self.candidate@[i]).score == policy_score(
                self.cfg,
                self.candidate@[i].raw_score,
            )
    }

    /// Starts a run on `cfg` seeded with `seed`; the baseline is `start`, or
    /// the empty placement.
    pub fn new(cfg: Config, seed: u64, start: Option<Grid<u8>>) -> (r: Self)
        requires
            cfg.map.wf(),
            cfg.map.size() <= MAX_CELLS,
            start matches Some(s) ==> s.wf() && s.h == cfg.map.h && s.w == cfg.map.w && shapes_known(s),
        ensures
            r.wf(),
            r.scored(),
            r.candidate@.len() == 0,
            r.generation == 0,
            r.cfg.map == cfg.map,
            r.cfg.map_size == count_of(cfg.map.cells@, true),
            r.cfg.ref_map == cfg.ref_map,
            r.cfg.size == cfg.size,
            r.cfg.mutate == cfg.mutate,
            r.cfg.crossover == cfg.crossover,
            r.cfg.good_pool == cfg.good_pool,
            r.cfg.score == cfg.score,
            r.cfg.score_phase == cfg.score_phase,
            r.cfg.score_chunk == cfg.score_chunk,
            start matches Some(s) ==> r.empty.data == s,
            start is None ==> r.empty.data.h == cfg.map.h && r.empty.data.w == cfg.map.w
                && r.empty.data.cells@ == Seq::new(cfg.map.cells@.len(), |i: int| 0u8),
    {
        let mut cfg = cfg;
        cfg.map_size = crate::segment::count_true(&cfg.map.cells);
        let start = match start {
            Some(s) => s,
            None => {
                let n = cfg.map.cells.len();
                let g = Grid { h: cfg.map.h, w: cfg.map.w, cells: vec![0u8; n] };
                proof {
                    assert forall|i: int| 0 <= i < g.cells@.len() implies #[trigger] g.cells@[i] == 0 || is_shape(g.cells@[i]) by {}
                    assert(g.cells@ =~= Seq::new(cfg.map.cells@.len(), |i: int| 0u8));
                }
                g
            },
        };
        let empty = mk_candidate(&cfg, start);
        let rng = seeded(seed);
        GA { cfg, candidate: Vec::new(), generation: 0, rng, empty }
    }

    /// Appends a candidate built from placement `c`.
    pub fn add_candidate(&mut self, c: Grid<u8>)
        requires
            old(self).wf(),
            c.wf(),
            c.h == old(self).cfg.map.h,
            c.w == old(self).cfg.map.w,
            shapes_known(c),
        ensures
            final(self).wf(),
            final(self).cfg == old(self).cfg,
            final(self).generation == old(self).generation,
            final(self).candidate@.len() == old(self).candidate@.len() + 1,
            forall|i: int| 0 <= i < old(self).candidate@.len() ==> final(self).candidate@[i] == old(self).candidate@[i],
            final(self).candidate@.last().data == c,
            final(self).candidate@.last().score == policy_score(final(self).cfg, final(self).candidate@.last().raw_score),
            old(self).scored() ==> final(self).scored(),
    {
        let cand = mk_candidate(&self.cfg, c);
        self.candidate.push(cand);
    }

    /// Recomputes every score under the current policy and tuning knobs.
    pub fn rescore(&mut self)
        requires
            old(self).wf(),
        ensures
            final(self).wf(),
            final(self).scored(),
            final(self).cfg == old(self).cfg,
            final(self).generation == old(self).generation,
            final(self).candidate@.len() == old(self).candidate@.len(),
            forall|i: int|
                0 <= i < old(self).candidate@.len() ==> {
                    let a = #[trigger] final(self).candidate@[i];
                    let b = old(self).candidate@[i];
                    a.raw_score == b.raw_score && a.hash == b.hash && a.data.h == b.data.h && a.data.w == b.data.w
                        && a.data.cells@ == b.data.cells@
                },
    {
        let ghost before = self.candidate@;
        let mut i: usize = 0;
        while i < self.candidate.len()
            invariant
                self.wf(),
                self.cfg == old(self).cfg,
                self.generation == old(self).generation,
                self.empty == old(self).empty,
                self.candidate@.len() == before.len(),
                before == old(self).candidate@,
                i <= before.len(),
                forall|j: int| 0 <= j < i ==> (#[trigger] self.candidate@[j]).score == policy_score(self.cfg, self.candidate@[j].raw_score),
                forall|j: int|
                    0 <= j < before.len() ==> {
                        let a = #[trigger] self.candidate@[j];
                        let b = before[j];
                        a.raw_score == b.raw_score && a.hash == b.hash && a.data.h == b.data.h && a.data.w == b.data.w
                            && a.data.cells@ == b.data.cells@
                    },
            decreases before.len() - i,
        {
            let mut c = self.candidate[i].duplicate();
            proof {
                lemma_duplicate_fits(self.candidate@[i as int], c, self.cfg);
            }
            c.score = self.cfg.score.score(&self.cfg, &c.raw_score);
            proof {
                lemma_same_grid(self.cfg.map, self.candidate@[i as int].data, c.data);
                assert(c.fits(self.cfg));
            }
            self.candidate.set(i, c);
            i = i + 1;
        }
        let s = self.cfg.score.score(&self.cfg, &self.empty.raw_score);
        self.empty.score = s;
    }
}

} // verus!

verus! {

impl GA {
    /// Advances one generation: pads the population with the baseline,
    /// runs `mutate` mutation and `crossover` crossover tasks, each on its own
    /// generator forked from the run's generator, drops negative scores and
    /// duplicate `(score, hash)` keys, ranks by score and keeps the best
    /// `good_pool` plus a run from the middle of the rest.
    pub fn step(&mut self)
        requires
            old(self).wf(),
            old(self).scored(),
            old(self).generation < usize::MAX,
            old(self).cfg.mutate + old(self).cfg.crossover > 0 ==> old(self).cfg.size >= 1,
            old(self).cfg.good_pool <= old(self).cfg.size,
            old(self).cfg.crossover > 0 ==> old(self).cfg.size >= 2 && old(self).cfg.map.h > 0 && old(self).cfg.map.w > 0,
        ensures
            final(self).wf(),
            final(self).scored(),
            final(self).cfg == old(self).cfg,
            final(self).generation == old(self).generation + 1,
            final(self).candidate@.len() <= final(self).cfg.size,
            sorted_desc(final(self).candidate@),
            keys_distinct(final(self).candidate@),
            forall|i: int| 0 <= i < final(self).candidate@.len() ==> (#[trigger] final(self).candidate@[i]).score >= 0,
            forall|i: int|
                0 <= i < old(self).candidate@.len() && i < old(self).cfg.size && old(self).cfg.good_pool >= 1
                    && (#[trigger] old(self).candidate@[i]).score >= 0 ==> final(self).candidate@.len() >= 1
                    && final(self).candidate@[0].score >= old(self).candidate@[i].score,
            old(self).candidate@.len() < old(self).cfg.size && old(self).cfg.good_pool >= 1 && old(self).empty.score >= 0
                ==> final(self).candidate@.len() >= 1 && final(self).candidate@[0].score >= old(self).empty.score,
            forall|i: int|
                0 <= i < old(self).candidate@.len() && i < old(self).cfg.size && (#[trigger] old(self).candidate@[i]).score >= 0
                    && final(self).candidate@.len() < final(self).cfg.size ==> exists|j: int|
                    0 <= j < final(self).candidate@.len() && (#[trigger] final(self).candidate@[j]).key() == old(self).candidate@[i].key(),
            old(self).candidate@.len() < old(self).cfg.size && old(self).empty.score >= 0 && final(self).candidate@.len()
                < final(self).cfg.size ==> exists|j: int|
                0 <= j < final(self).candidate@.len() && (#[trigger] final(self).candidate@[j]).key() == old(self).empty.key(),
    {
        let ghost oc = self.candidate@;
        let ghost oe = self.empty;
        self.generation = self.generation + 1;
        let size = self.cfg.size;
        let h = self.cfg.map.h;
        let w = self.cfg.map.w;
        let mut pool: Vec<Candidate> = Vec::new();
        let mut i: usize = 0;
        while i < size
            invariant
                self.wf(),
                self.scored(),
                self.cfg == old(self).cfg,
                self.generation == old(self).generation + 1,
                size == self.cfg.size,
                i <= size,
                pool@.len() == i,
                all_scored(pool@, self.cfg),
                self.candidate@ == oc,
                self.empty == oe,
                padded_from(pool@, oc, oe, pool@.len() as int),
            decreases size - i,
        {
            let c = if i < self.candidate.len() {
                let d = self.candidate[i].duplicate();
                proof {
                    lemma_duplicate_fits(self.candidate@[i as int], d, self.cfg);
                }
                d
            } else {
                let d = self.empty.duplicate();
                proof {
                    lemma_duplicate_fits(self.empty, d, self.cfg);
                }
                d
            };
            pool.push(c);
            proof {
                assert forall|j: int| 0 <= j < pool@.len() implies (#[trigger] pool@[j]).key() == (if j < oc.len() { oc[j].key() } else { oe.key() }) by {
                    if j < i {
                    }
                }
                assert forall|j: int| 0 <= j < pool@.len() implies (#[trigger] pool@[j]).fits(self.cfg) && pool@[j].score
                    == policy_score(self.cfg, pool@[j].raw_score) by {
                    if j < i {
                    }
                }
            }
            i = i + 1;
        }
        let mut tasks: Vec<Pcg64Mcg> = Vec::new();
        let mut t: usize = 0;
        while t < self.cfg.mutate
            invariant
                self.cfg == old(self).cfg,
                self.generation == old(self).generation + 1,
                self.wf(),
                self.scored(),
                t <= self.cfg.mutate,
                tasks@.len() == t,
                padded_from(pool@, oc, oe, pool@.len() as int),
                pool@.len() == size,
                all_scored(pool@, self.cfg),
            decreases self.cfg.mutate - t,
        {
            tasks.push(fork(&mut self.rng));
            t = t + 1;
        }
        let mut t: usize = 0;
        while t < self.cfg.crossover
            invariant
                self.cfg == old(self).cfg,
                self.generation == old(self).generation + 1,
                self.wf(),
                self.scored(),
                t <= self.cfg.crossover,
                tasks@.len() == self.cfg.mutate + t,
                padded_from(pool@, oc, oe, pool@.len() as int),
                pool@.len() == size,
                all_scored(pool@, self.cfg),
            decreases self.cfg.crossover - t,
        {
            tasks.push(fork(&mut self.rng));
            t = t + 1;
        }
        let mut queue: Vec<Pcg64Mcg> = Vec::new();
        while tasks.len() > 0
            invariant
                tasks@.len() + queue@.len() == self.cfg.mutate + self.cfg.crossover,
                padded_from(pool@, oc, oe, pool@.len() as int),
                pool@.len() == size,
                all_scored(pool@, self.cfg),
                self.cfg == old(self).cfg,
                self.generation == old(self).generation + 1,
                self.wf(),
                self.scored(),
            decreases tasks@.len(),
        {
            let r = tasks.pop().unwrap();
            queue.push(r);
        }
        let mut newc: Vec<Candidate> = Vec::new();
        let mut done: usize = 0;
        let total = queue.len();
        while queue.len() > 0
            invariant
                self.wf(),
                self.scored(),
                self.cfg == old(self).cfg,
                self.generation == old(self).generation + 1,
                size == self.cfg.size,
                h == self.cfg.map.h,
                w == self.cfg.map.w,
                self.cfg.mutate + self.cfg.crossover > 0 ==> size >= 1,
                self.cfg.crossover > 0 ==> size >= 2 && h > 0 && w > 0,
                pool@.len() == size,
                all_scored(pool@, self.cfg),
                all_scored(newc@, self.cfg),
                padded_from(pool@, oc, oe, pool@.len() as int),
                done + queue@.len() == total,
                total == self.cfg.mutate + self.cfg.crossover,
            decreases queue@.len(),
        {
            let mut r = queue.pop().unwrap();
            if done < self.cfg.mutate {
                let pick = gen_range(&mut r, 0, size);
                let mut c = pool[pick].data.copy();
                proof {
                    lemma_same_grid(self.cfg.map, pool@[pick as int].data, c);
                }
                if mutate(&self.cfg, &mut c, &mut r) {
                    let cand = mk_candidate(&self.cfg, c);
                    newc.push(cand);
                }
            } else {
                let parent = gen_range(&mut r, 0, size);
                let g = gen_range(&mut r, 0, size - 1);
                let graft = if g >= parent {
                    g + 1
                } else {
                    g
                };
                let ya = gen_range(&mut r, 0, h);
                let yb = gen_range(&mut r, 0, h);
                let xa = gen_range(&mut r, 0, w);
                let xb = gen_range(&mut r, 0, w);
                let (y1, y2) = if ya <= yb { (ya, yb) } else { (yb, ya) };
                let (x1, x2) = if xa <= xb { (xa, xb) } else { (xb, xa) };
                let c = graft_rect(&pool[parent].data, &pool[graft].data, y1, y2, x1, x2);
                proof {
                    let pd = pool@[parent as int].data;
                    let dd = pool@[graft as int].data;
                    assert forall|q: int| 0 <= q < c.cells@.len() implies #[trigger] c.cells@[q] == 0 || is_shape(c.cells@[q]) by {
                        assert(pd.cells@[q] == 0 || is_shape(pd.cells@[q]));
                        assert(dd.cells@[q] == 0 || is_shape(dd.cells@[q]));
                    }
                }
                let cand = mk_candidate(&self.cfg, c);
                newc.push(cand);
            }
            done = done + 1;
        }
        let ghost p0 = pool@;
        let ghost n0 = newc@;
        let chosen = rank_and_select(pool, newc, size, self.cfg.good_pool);
        proof {
            let merged = p0 + n0;
            assert forall|j: int| 0 <= j < merged.len() implies (#[trigger] merged[j]).fits(self.cfg) && merged[j].score
                == policy_score(self.cfg, merged[j].raw_score) by {
                if j < p0.len() {
                    assert(merged[j] == p0[j]);
                } else {
                    assert(merged[j] == n0[j - p0.len()]);
                }
            }
            lemma_drawn_scored(chosen@, merged, self.cfg);
            assert forall|i: int| 0 <= i < oc.len() && i < size implies merged.contains(#[trigger] p0[i]) && p0[i].key() == oc[i].key() by {
                assert(merged[i] == p0[i]);
            }
            let c = chosen@;
            assert forall|i: int| 0 <= i < oc.len() && i < size && self.cfg.good_pool >= 1 && (#[trigger] oc[i]).score >= 0
                implies c.len() >= 1 && c[0].score >= oc[i].score by {
                assert(merged.contains(p0[i]) && p0[i].key() == oc[i].key());
                assert(p0[i].score == oc[i].score);
            }
            assert forall|i: int| 0 <= i < oc.len() && i < size && (#[trigger] oc[i]).score >= 0 && c.len() < size
                implies exists|j: int| 0 <= j < c.len() && (#[trigger] c[j]).key() == oc[i].key() by {
                assert(merged.contains(p0[i]) && p0[i].key() == oc[i].key());
                assert(p0[i].score == oc[i].score);
            }
            if oc.len() < size {
                let k = oc.len() as int;
                assert(merged[k] == p0[k]);
                assert(merged.contains(p0[k]) && p0[k].key() == oe.key());
            }
        }
        self.candidate = chosen;
    }
}

} // verus!
