use vstd::prelude::*;
use crate::ga::{Config, GA, MAX_CELLS, Policy};
use crate::grid::{Grid, count_of, idx, in_bounds, lemma_count_le, lemma_count_update};
use crate::img::{EvalResult, empty_cells, eval_holds, group_heads, mark};
use crate::layout::{occupancy, placement_valid, shapes_known, transfer};
use crate::segment::{Segment, segment};

verus! {

/// The number of generations after which a run is abandoned.
pub const MAX_GENERATIONS: usize = 100000;

/// The accepted cells of an `h` by `w` mask form exactly one 4-connected group.
pub open spec fn one_group(h: int, w: int, cells: Seq<bool>) -> bool {
    exists|s: Segment|
        s.connected() && forall|y: int, x: int| in_bounds(h, w, y, x) ==> (#[trigger] s.holds(y, x) <==> cells[idx(w, y, x)])
}

/// Removes up to `map_size % 4` cells from a segment, in raster order,
/// skipping any cell whose removal would split what is left.
pub fn trim_remainder(seg: &Segment) -> (r: Grid<bool>)
    requires
        seg.map.wf(),
        seg.map.size() + 2 <= usize::MAX,
    ensures
        r.wf(),
        r.h == seg.map.h,
        r.w == seg.map.w,
        forall|i: int| 0 <= i < r.cells@.len() && #[trigger] r.cells@[i] ==> seg.map.cells@[i],
        count_of(seg.map.cells@, true) - count_of(r.cells@, true) <= seg.map_size % 4,
        seg.map_size % 4 == 0 ==> r.cells@ == seg.map.cells@,
        count_of(r.cells@, true) < count_of(seg.map.cells@, true) ==> one_group(r.h as int, r.w as int, r.cells@),
{
    let mut map = seg.map.copy();
    if seg.map_size % 4 == 0 {
        return map;
    }
    let h = map.h;
    let w = map.w;
    let n = map.cells.len();
    let mut need_remove = seg.map_size % 4;
    let mut i: usize = 0;
    while i < n && need_remove > 0
        invariant
            n == map.cells@.len() == seg.map.cells@.len() == h * w,
            h == map.h == seg.map.h,
            w == map.w == seg.map.w,
            n + 2 <= usize::MAX,
            i <= n,
            need_remove <= seg.map_size % 4,
            forall|j: int| 0 <= j < n && #[trigger] map.cells@[j] ==> seg.map.cells@[j],
            count_of(seg.map.cells@, true) - count_of(map.cells@, true) == seg.map_size % 4 - need_remove,
            count_of(map.cells@, true) < count_of(seg.map.cells@, true) ==> one_group(h as int, w as int, map.cells@),
        decreases n - i,
    {
        if map.cells[i] {
            let ghost before = map.cells@;
            map.cells.set(i, false);
            let parts = segment(&map);
            if parts.len() != 1 {
                map.cells.set(i, true);
                proof {
                    assert(map.cells@ =~= before);
                }
            } else {
                proof {
                    lemma_count_update(before, i as int, false, true);
                    let s0 = parts@[0];
                    assert(s0.connected());
                    assert forall|y: int, x: int| in_bounds(h as int, w as int, y, x) implies (#[trigger] s0.holds(y, x)
                        <==> map.cells@[idx(w as int, y, x)]) by {
                        if map.at(y, x) {
                            let j = choose|j: int| 0 <= j < parts@.len() && #[trigger] parts@[j].holds(y, x);
                        }
                    }
                    assert(one_group(h as int, w as int, map.cells@));
                }
                need_remove = need_remove - 1;
            }
        }
        i = i + 1;
    }
    map
}

/// The default configuration on `map`, with the given policy and reference.
fn config_for(map: &Grid<bool>, score: Policy, ref_map: Option<Grid<u8>>) -> (r: Config)
    ensures
        r.map.h == map.h,
        r.map.w == map.w,
        r.map.cells@ == map.cells@,
        r.score == score,
        r.ref_map == ref_map,
        r.size == 64,
        r.mutate == 21,
        r.crossover == 16,
        r.good_pool == 32,
        r.score_phase == 0,
        r.score_chunk == 1,
{
    Config {
        map: map.copy(),
        map_size: 0,
        ref_map,
        size: 64,
        mutate: 21,
        crossover: 16,
        good_pool: 32,
        score,
        score_phase: 0,
        score_chunk: 1,
    }
}

/// The best candidate's evaluation, if the population is not empty.
fn best_raw(ga: &GA) -> (r: Option<EvalResult>)
    ensures
        ga.candidate@.len() == 0 ==> r is None,
        ga.candidate@.len() > 0 ==> r == Some(ga.candidate@[0].raw_score),
{
    if ga.candidate.len() > 0 {
        Some(ga.candidate[0].raw_score)
    } else {
        None
    }
}

} // verus!

verus! {

/// Reconciles a reference placement with `map`: keeps what of it fits, then
/// evolves under the trim policy, lowering the fill budget by 4 every 100
/// generations, until the best placement leaves at most one fragment (an
/// empty placement counts as one). Returns that placement, or `None` once
/// the generation cap is reached.
pub fn trim(map: &Grid<bool>, ref_map: &Grid<u8>, seed: u64) -> (r: Option<Grid<u8>>)
    requires
        map.wf(),
        map.size() <= MAX_CELLS,
        map.h > 0,
        map.w > 0,
        ref_map.wf(),
        ref_map.h == map.h,
        ref_map.w == map.w,
        shapes_known(*ref_map),
    ensures
        r matches Some(p) ==> p.wf() && p.h == map.h && p.w == map.w && shapes_known(p) && placement_valid(*map, p)
            && (count_of(occupancy(p), true) > 0 ==> count_of(
            group_heads(mark(empty_cells(*map, occupancy(p))), map.h as int, map.w as int, 1),
            true,
        ) <= 1),
{
    let new_ref = transfer(map, ref_map);
    proof {
        assert forall|i: int| 0 <= i < new_ref.cells@.len() implies #[trigger] new_ref.cells@[i] == 0
            || crate::piece::is_shape(new_ref.cells@[i]) by {
            assert(new_ref.cells@[i] == 0 || new_ref.cells@[i] == ref_map.cells@[i]);
        }
    }
    let mut ga = GA::new(config_for(map, Policy::Trim, None), seed, Some(new_ref));
    proof {
        lemma_count_le(ga.cfg.map.cells@, true);
    }
    let start_phase = ga.cfg.map_size as i32;
    ga.cfg.score_phase = start_phase;
    proof {
        assert forall|i: int| 0 <= i < ga.candidate@.len() implies (#[trigger] ga.candidate@[i]).fits(ga.cfg) by {}
    }
    let ghost mut dec: int = 0;
    loop
        invariant
            ga.wf(),
            ga.generation % 100 != 0 ==> ga.scored(),
            ga.generation <= MAX_GENERATIONS,
            ga.cfg.map.h == map.h,
            ga.cfg.map.w == map.w,
            map.h > 0,
            map.w > 0,
            ga.cfg.map.cells@ == map.cells@,
            ga.cfg.size == 64,
            ga.cfg.good_pool == 32,
            0 <= start_phase <= MAX_CELLS,
            ga.cfg.score_phase == start_phase - 4 * dec,
            0 <= dec <= ga.generation,
        decreases MAX_GENERATIONS - ga.generation,
    {
        if ga.generation % 100 == 0 {
            ga.cfg.score_phase = ga.cfg.score_phase - 4;
            proof {
                dec = dec + 1;
                assert forall|i: int| 0 <= i < ga.candidate@.len() implies (#[trigger] ga.candidate@[i]).fits(ga.cfg) by {}
            }
            ga.rescore();
        }
        ga.step();
        if let Some(EvalResult::Valid { fragment, .. }) = best_raw(&ga) {
            if fragment <= 1 {
                let best = ga.candidate[0].data.copy();
                proof {
                    assert(ga.candidate@[0].fits(ga.cfg));
                    crate::ga::lemma_same_grid(ga.cfg.map, ga.candidate@[0].data, best);
                    crate::layout::lemma_placement_valid_same_mask(ga.cfg.map, *map, best);
                    assert(empty_cells(ga.cfg.map, occupancy(best)) =~= empty_cells(*map, occupancy(best)));
                    assert(eval_holds(ga.cfg.map, ga.candidate@[0].data, ga.candidate@[0].raw_score));
                }
                return Some(best);
            }
        }
        if ga.generation >= MAX_GENERATIONS {
            return None;
        }
    }
}

/// Grows a placement on `map` under the grow policy, starting from the
/// reference placement when there is one, until the best placement fills at
/// least `goal` cells (`Ok`). The run gives up (`Err`) at the generation cap,
/// or when the best score has not moved over three checkpoints 1000
/// generations apart; with `try_hard`, it first relaxes the fragment penalty
/// once and goes on.
pub fn grow(map: &Grid<bool>, ref_map: Option<&Grid<u8>>, seed: u64, goal: i32, try_hard: bool) -> (r: Result<GA, GA>)
    requires
        map.wf(),
        map.size() <= MAX_CELLS,
        map.h > 0,
        map.w > 0,
        ref_map matches Some(m) ==> m.wf() && m.h == map.h && m.w == map.w && shapes_known(*m),
    ensures
        r matches Ok(ga) ==> ga.wf() && ga.candidate@.len() > 0 && (ga.candidate@[0].raw_score matches EvalResult::Valid {
            filled,
            ..
        } && filled >= goal),
        r matches Err(ga) ==> ga.wf(),
        match r {
            Ok(ga) => ga.generation <= MAX_GENERATIONS && ga.cfg.map.h == map.h && ga.cfg.map.w == map.w
                && ga.cfg.map.cells@ == map.cells@,
            Err(ga) => ga.generation <= MAX_GENERATIONS && ga.cfg.map.h == map.h && ga.cfg.map.w == map.w
                && ga.cfg.map.cells@ == map.cells@,
        },
{
    let owned_ref = match ref_map {
        Some(m) => Some(m.copy()),
        None => None,
    };
    let mut ga = GA::new(config_for(map, Policy::Grow, owned_ref), seed, None);
    if let Some(m) = ref_map {
        let start = m.copy();
        proof {
            crate::ga::lemma_same_grid(ga.cfg.map, *m, start);
        }
        ga.add_candidate(start);
        if ga.candidate[0].score < 0 {
            let chunk = match ga.candidate[0].raw_score {
                EvalResult::Valid { chunk, .. } => if chunk > 1 {
                    chunk
                } else {
                    1
                },
                EvalResult::Invalid => 1,
            };
            ga.cfg.score_chunk = chunk;
            proof {
                assert forall|i: int| 0 <= i < ga.candidate@.len() implies (#[trigger] ga.candidate@[i]).fits(ga.cfg) by {}
            }
            ga.rescore();
        }
    }
    let mut last_score: Vec<i32> = vec![-1, -2, -3];
    loop
        invariant
            ga.wf(),
            ga.scored(),
            ga.generation < MAX_GENERATIONS,
            ga.cfg.map.h == map.h,
            ga.cfg.map.w == map.w,
            map.h > 0,
            map.w > 0,
            ga.cfg.size == 64,
            ga.cfg.good_pool == 32,
            ga.cfg.map.cells@ == map.cells@,
            last_score@.len() == 3,
        decreases MAX_GENERATIONS - ga.generation,
    {
        ga.step();
        if let Some(EvalResult::Valid { filled, .. }) = best_raw(&ga) {
            if filled >= goal {
                return Ok(ga);
            }
        }
        if ga.generation >= MAX_GENERATIONS {
            return Err(ga);
        }
        if ga.candidate.len() > 0 && ga.generation % 1000 == 0 {
            let score = ga.candidate[0].score;
            if last_score[0] == score && last_score[1] == score && last_score[2] == score {
                if try_hard {
                    if ga.cfg.score_phase == 1 {
                        return Err(ga);
                    }
                    ga.cfg.score_phase = 1;
                    proof {
                        assert forall|i: int| 0 <= i < ga.candidate@.len() implies (#[trigger] ga.candidate@[i]).fits(ga.cfg) by {}
                    }
                    ga.rescore();
                    continue;
                } else {
                    return Err(ga);
                }
            }
            last_score.remove(0);
            last_score.push(score);
        }
    }
}

} // verus!
