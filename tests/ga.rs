use rand::SeedableRng;
use rand_pcg::Pcg64Mcg;
use tetrofill::ga::{dedup, mk_candidate, mutate, score_grow, score_trim, Candidate, Config, Policy, GA};
use tetrofill::grid::Grid;
use tetrofill::img::{eval, EvalResult};
use tetrofill::layout::lay;
use tetrofill::segment::Segment;
use tetrofill::solve::{grow, trim, trim_remainder};

fn full_mask(h: usize, w: usize) -> Grid<bool> {
    Grid { h, w, cells: vec![true; h * w] }
}

fn config(map: Grid<bool>, score: Policy) -> Config {
    let map_size = map.cells.iter().filter(|c| **c).count();
    Config { map, map_size, score, ..Default::default() }
}

fn raw(chunk: i32, filled: i32, surface: i32, fragment: i32, fragment_non4: i32, hole: i32, edge: i32) -> EvalResult {
    EvalResult::Valid { chunk, filled, surface, fragment, fragment_non4, hole, edge }
}

fn pieces(g: &Grid<u8>) -> usize {
    g.cells.iter().filter(|v| **v != 0).count()
}

#[test]
fn default_config_values() {
    let cfg = Config::default();
    assert_eq!((cfg.size, cfg.mutate, cfg.crossover, cfg.good_pool), (64, 21, 16, 32));
    assert_eq!((cfg.score_phase, cfg.score_chunk, cfg.map_size), (0, 1, 0));
    assert_eq!(cfg.score, Policy::Grow);
    assert!(cfg.ref_map.is_none());
}

#[test]
fn grow_score_cases() {
    let mut cfg = Config::default();
    assert_eq!(score_grow(&cfg, &EvalResult::Invalid), -100);
    assert_eq!(score_grow(&cfg, &raw(0, 0, 0, 1, 0, 0, 0)), 0);
    assert_eq!(score_grow(&cfg, &raw(2, 8, 3, 1, 0, 0, 7)), -101);
    assert_eq!(score_grow(&cfg, &raw(1, 8, 3, 1, 1, 0, 7)), -102);
    assert_eq!(score_grow(&cfg, &raw(1, 8, 3, 2, 0, 0, 7)), 16);
    assert_eq!(score_grow(&cfg, &raw(1, 4, 10, 3, 0, 2, 7)), 0);
    cfg.map_size = 9;
    assert_eq!(score_grow(&cfg, &raw(1, 8, 3, 2, 1, 0, 7)), 16);
    assert_eq!(score_grow(&cfg, &raw(1, 8, 3, 2, 2, 0, 7)), -102);
    cfg.score_phase = 1;
    assert_eq!(score_grow(&cfg, &raw(1, 8, 3, 2, 1, 0, 7)), 26);
    assert_eq!(score_grow(&cfg, &raw(1, 8, 3, 2, 1, 1, 7)), 16);
}

#[test]
fn trim_score_cases() {
    let mut cfg = Config::default();
    cfg.score_phase = 6;
    assert_eq!(score_trim(&cfg, &EvalResult::Invalid), -104);
    assert_eq!(score_trim(&cfg, &raw(0, 0, 0, 1, 0, 0, 0)), 1000000);
    assert_eq!(score_trim(&cfg, &raw(1, 8, 3, 1, 1, 1, 7)), 999913);
    cfg.score_phase = 20;
    assert_eq!(score_trim(&cfg, &raw(1, 8, 3, 1, 1, 1, 7)), 999923);
}

#[test]
fn policy_dispatches_to_its_score() {
    let cfg = Config::default();
    let r = raw(1, 8, 3, 2, 0, 0, 7);
    assert_eq!(Policy::Grow.score(&cfg, &r), score_grow(&cfg, &r));
    assert_eq!(Policy::Trim.score(&cfg, &r), score_trim(&cfg, &r));
}

#[test]
fn candidate_hash_follows_occupancy() {
    let cfg = config(full_mask(2, 4), Policy::Grow);
    let a = mk_candidate(&cfg, Grid { h: 2, w: 4, cells: vec![1, 0, 0, 0, 0, 0, 0, 0] });
    let b = mk_candidate(&cfg, Grid { h: 2, w: 4, cells: vec![0, 0, 1, 0, 0, 0, 0, 0] });
    let c = mk_candidate(&cfg, Grid { h: 2, w: 4, cells: vec![1, 0, 0, 0, 0, 0, 0, 0] });
    assert_ne!(a.hash, b.hash);
    assert_eq!(a.hash, c.hash);
    assert_eq!(a.score, b.score);
    assert_eq!(a.raw_score, eval(&cfg.map, &a.data));
}

fn cand(score: i32, hash: u64) -> Candidate {
    Candidate { score, raw_score: EvalResult::Invalid, data: Grid { h: 0, w: 0, cells: vec![] }, hash }
}

#[test]
fn dedup_keeps_distinct_hashes_with_tied_scores() {
    let v = vec![cand(5, 1), cand(5, 2), cand(5, 1), cand(-1, 3), cand(3, 1), cand(3, 1)];
    let r = dedup(v);
    let keys: Vec<(i32, u64)> = r.iter().map(|c| (c.score, c.hash)).collect();
    assert_eq!(keys, vec![(5, 1), (5, 2), (3, 1)]);
}

#[test]
fn mutation_add_places_a_free_piece() {
    let map = Grid { h: 3, w: 4, cells: vec![false, true, true, true, true, true, true, true, true, true, true, true] };
    let cfg = config(map, Policy::Grow);
    for seed in 0..20u64 {
        let mut rng = Pcg64Mcg::seed_from_u64(seed);
        let start = Grid { h: 3, w: 4, cells: vec![0, 0, 0, 0, 1, 0, 0, 0, 0, 0, 0, 0] };
        let mut c = Grid { h: 3, w: 4, cells: start.cells.clone() };
        if mutate(&cfg, &mut c, &mut rng) {
            let before = pieces(&start);
            let after = pieces(&c);
            if after > before {
                assert_eq!(after, before + 1);
                assert!(!matches!(eval(&cfg.map, &c), EvalResult::Invalid));
                let old_occ = lay(&start);
                let new_occ = lay(&c);
                for i in 0..12 {
                    if new_occ.cells[i] && !old_occ.cells[i] {
                        assert!(cfg.map.cells[i]);
                    }
                }
            } else {
                assert_eq!(after + 1, before);
            }
        } else {
            assert_eq!(c.cells, start.cells);
        }
    }
}

#[test]
fn mutation_remove_when_nothing_fits() {
    let cfg = config(full_mask(2, 2), Policy::Grow);
    let mut rng = Pcg64Mcg::seed_from_u64(7);
    let mut c = Grid { h: 2, w: 2, cells: vec![1, 0, 0, 0] };
    assert!(mutate(&cfg, &mut c, &mut rng));
    assert_eq!(c.cells, vec![0, 0, 0, 0]);
}

#[test]
fn mutation_on_tiny_mask_does_nothing() {
    let cfg = config(Grid { h: 1, w: 3, cells: vec![true; 3] }, Policy::Grow);
    let mut rng = Pcg64Mcg::seed_from_u64(1);
    let mut c = Grid { h: 1, w: 3, cells: vec![0, 0, 0] };
    assert!(!mutate(&cfg, &mut c, &mut rng));
    assert_eq!(c.cells, vec![0, 0, 0]);
}

#[test]
fn step_keeps_population_ranked_and_unique() {
    let cfg = Config { map: full_mask(4, 4), ..Default::default() };
    let mut ga = GA::new(cfg, 3, None);
    assert_eq!(ga.cfg.map_size, 16);
    for _ in 0..30 {
        ga.step();
        assert!(ga.candidate.len() <= ga.cfg.size);
        for i in 1..ga.candidate.len() {
            assert!(ga.candidate[i - 1].score >= ga.candidate[i].score);
        }
        for i in 0..ga.candidate.len() {
            assert!(ga.candidate[i].score >= 0);
            for j in 0..i {
                let (a, b) = (&ga.candidate[i], &ga.candidate[j]);
                assert!((a.score, a.hash) != (b.score, b.hash));
            }
        }
    }
    assert_eq!(ga.generation, 30);
}

#[test]
fn step_is_reproducible_for_a_seed() {
    let run = |seed: u64| {
        let mut ga = GA::new(Config { map: full_mask(3, 4), ..Default::default() }, seed, None);
        for _ in 0..20 {
            ga.step();
        }
        ga.candidate.iter().map(|c| (c.score, c.hash)).collect::<Vec<_>>()
    };
    assert_eq!(run(11), run(11));
}

#[test]
fn rescore_follows_the_policy_knobs() {
    let mut ga = GA::new(Config { map: full_mask(2, 4), ..Default::default() }, 5, None);
    ga.add_candidate(Grid { h: 2, w: 4, cells: vec![1, 0, 1, 0, 0, 0, 0, 0] });
    assert_eq!(ga.candidate[0].score, 42);
    ga.cfg.score = Policy::Trim;
    ga.cfg.score_phase = 4;
    ga.rescore();
    assert_eq!(ga.candidate[0].score, 1000000 - 2 * 8 - 5 * 4);
}

#[test]
fn trim_remainder_skips_cut_cells() {
    let seg = Segment {
        map: Grid { h: 2, w: 3, cells: vec![true, true, true, true, false, true] },
        map_size: 5,
        x: 0,
        y: 0,
    };
    let r = trim_remainder(&seg);
    assert_eq!(r.cells, vec![true, true, true, false, false, true]);
}

#[test]
fn trim_remainder_keeps_multiple_of_four() {
    let seg = Segment { map: Grid { h: 2, w: 2, cells: vec![true; 4] }, map_size: 4, x: 1, y: 2 };
    assert_eq!(trim_remainder(&seg).cells, vec![true; 4]);
}

#[test]
fn grow_fills_a_square() {
    let map = full_mask(2, 2);
    match grow(&map, None, 0, 4, false) {
        Ok(ga) => {
            assert!(matches!(ga.candidate[0].raw_score, EvalResult::Valid { filled: 4, .. }));
            assert_eq!(ga.candidate[0].data.cells, vec![1, 0, 0, 0]);
        }
        Err(_) => panic!("grow did not fill a 2x2 square"),
    }
}

#[test]
fn trim_returns_a_valid_placement() {
    let map = full_mask(2, 2);
    let reference = Grid { h: 2, w: 2, cells: vec![1, 0, 0, 0] };
    let out = trim(&map, &reference, 0).expect("trim succeeds on a 2x2 square");
    assert_ne!(eval(&map, &out), EvalResult::Invalid);
}

#[test]
fn select_keeps_elites_and_a_middle_run() {
    let v: Vec<Candidate> = (0..10).map(|i| cand(100 - i, i as u64)).collect();
    let r = tetrofill::ga::select(v, 5, 2);
    let hashes: Vec<u64> = r.iter().map(|c| c.hash).collect();
    // rest has 8, run of 3 starts at (8 - 3) / 2 = 2 into the rest
    assert_eq!(hashes, vec![0, 1, 4, 5, 6]);
    let few: Vec<Candidate> = (0..3).map(|i| cand(10 - i, i as u64)).collect();
    let r = tetrofill::ga::select(few, 5, 2);
    assert_eq!(r.iter().map(|c| c.hash).collect::<Vec<_>>(), vec![0, 1, 2]);
}

#[test]
fn dedup_keeps_first_of_each_key_in_order() {
    let v = vec![cand(1, 9), cand(7, 3), cand(1, 9), cand(-5, 4), cand(7, 2), cand(7, 3)];
    let r = dedup(v);
    let keys: Vec<(i32, u64)> = r.iter().map(|c| (c.score, c.hash)).collect();
    assert_eq!(keys, vec![(1, 9), (7, 3), (7, 2)]);
}

#[test]
fn rank_and_select_ranks_stably_and_dedups() {
    let pool = vec![cand(3, 1), cand(5, 2), cand(3, 3)];
    let newc = vec![cand(5, 2), cand(-1, 7), cand(4, 8)];
    let r = tetrofill::ga::rank_and_select(pool, newc, 10, 2);
    let keys: Vec<(i32, u64)> = r.iter().map(|c| (c.score, c.hash)).collect();
    assert_eq!(keys, vec![(5, 2), (4, 8), (3, 1), (3, 3)]);
}

#[test]
fn step_keeps_the_best_score() {
    let mut ga = GA::new(Config { map: full_mask(2, 4), ..Default::default() }, 9, None);
    ga.add_candidate(Grid { h: 2, w: 4, cells: vec![1, 0, 1, 0, 0, 0, 0, 0] });
    let best = ga.candidate[0].score;
    for _ in 0..5 {
        ga.step();
        assert!(ga.candidate[0].score >= best);
    }
}

#[test]
fn mutation_forced_removal_on_overfull_placement() {
    let cfg = config(full_mask(2, 4), Policy::Grow);
    let mut rng = Pcg64Mcg::seed_from_u64(3);
    // three overlapping pieces: more than the mask leaves room to add to
    let mut c = Grid { h: 2, w: 4, cells: vec![1, 1, 1, 0, 0, 0, 0, 0] };
    assert!(mutate(&cfg, &mut c, &mut rng));
    assert_eq!(pieces(&c), 2);
}
