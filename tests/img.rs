use tetrofill::grid::Grid;
use tetrofill::img::{eval, EvalResult};
use tetrofill::layout::{lay, transfer};
use tetrofill::render::dump;
use tetrofill::segment::segment;

fn mask(h: usize, w: usize, cells: &[u8]) -> Grid<bool> {
    Grid { h, w, cells: cells.iter().map(|x| *x != 0).collect() }
}

fn placement(h: usize, w: usize, cells: &[u8]) -> Grid<u8> {
    Grid { h, w, cells: cells.to_vec() }
}

#[test]
fn test_simple() {
    let map = mask(3, 3, &[0, 1, 1, 1, 1, 1, 1, 1, 1]);
    let data = placement(3, 3, &[0, 0, 0, 0, 1, 0, 0, 0, 0]);
    let score = eval(&map, &data);
    assert_eq!(
        score,
        EvalResult::Valid {
            filled: 4,
            fragment: 2,
            hole: 0,
            surface: 4,
            fragment_non4: 2,
            chunk: 1,
            edge: 3,
        }
    );
}

#[test]
fn test_valid() {
    let map = mask(3, 4, &[0, 1, 1, 1, 1, 1, 1, 1, 1, 1, 1, 1]);
    let data = placement(3, 4, &[0, 0, 4, 0, 1, 0, 0, 0, 0, 0, 0, 0]);
    let score = eval(&map, &data);
    assert_eq!(
        score,
        EvalResult::Valid {
            filled: 8,
            fragment: 1,
            hole: 0,
            surface: 3,
            fragment_non4: 1,
            chunk: 1,
            edge: 7,
        }
    );
}

#[test]
fn test_outofbound() {
    let map = mask(3, 3, &[0, 1, 1, 1, 1, 1, 1, 1, 1]);
    let data = placement(3, 3, &[0, 0, 0, 0, 0, 0, 0, 0, 1]);
    let score = eval(&map, &data);
    assert_eq!(score, EvalResult::Invalid);
}

#[test]
fn test_hole() {
    let map = mask(3, 3, &[1, 1, 1, 1, 1, 1, 1, 1, 1]);
    let data = placement(3, 3, &[6, 4, 0, 0, 0, 0, 0, 0, 0]);
    let score = eval(&map, &data);
    assert_eq!(
        score,
        EvalResult::Valid {
            filled: 8,
            fragment: 1,
            hole: 1,
            surface: 1,
            fragment_non4: 1,
            chunk: 1,
            edge: 8,
        }
    );
}

#[test]
fn test_maphole() {
    let map = mask(3, 3, &[1, 1, 1, 1, 0, 1, 1, 1, 1]);
    let data = placement(3, 3, &[6, 4, 0, 0, 0, 0, 0, 0, 0]);
    let score = eval(&map, &data);
    assert_eq!(
        score,
        EvalResult::Valid {
            filled: 8,
            fragment: 0,
            hole: 0,
            surface: 0,
            fragment_non4: 0,
            chunk: 1,
            edge: 8,
        }
    );
}

#[test]
fn empty_placement_is_one_fragment() {
    let map = mask(2, 3, &[1, 1, 0, 1, 1, 1]);
    let data = placement(2, 3, &[0; 6]);
    assert_eq!(
        eval(&map, &data),
        EvalResult::Valid { chunk: 0, filled: 0, surface: 0, fragment: 1, fragment_non4: 0, hole: 0, edge: 0 }
    );
}

#[test]
fn overlapping_pieces_are_invalid() {
    let map = mask(2, 4, &[1; 8]);
    // an O anchored at (0,0) and a horizontal I anchored at (1,0)
    let data = placement(2, 4, &[1, 0, 0, 0, 2, 0, 0, 0]);
    assert_eq!(eval(&map, &data), EvalResult::Invalid);
}

#[test]
fn piece_on_rejected_cell_is_invalid() {
    let map = mask(2, 2, &[1, 1, 1, 0]);
    let data = placement(2, 2, &[1, 0, 0, 0]);
    assert_eq!(eval(&map, &data), EvalResult::Invalid);
}

#[test]
fn filled_region_with_two_chunks() {
    let map = mask(2, 5, &[1; 10]);
    // two O pieces with an empty column between them
    let data = placement(2, 5, &[1, 0, 0, 1, 0, 0, 0, 0, 0, 0]);
    assert_eq!(
        eval(&map, &data),
        EvalResult::Valid { chunk: 2, filled: 8, surface: 2, fragment: 1, fragment_non4: 1, hole: 0, edge: 8 }
    );
}

#[test]
fn lay_drops_out_of_bounds_squares() {
    let data = placement(2, 2, &[0, 0, 0, 1]);
    let occ = lay(&data);
    assert_eq!(occ.cells, vec![false, false, false, true]);
    let data = placement(3, 3, &[0, 0, 0, 0, 1, 0, 0, 0, 0]);
    let occ = lay(&data);
    assert_eq!(occ.cells, vec![false, false, false, false, true, true, false, true, true]);
}

#[test]
fn lay_matches_eval_filled_count() {
    let map = mask(3, 4, &[0, 1, 1, 1, 1, 1, 1, 1, 1, 1, 1, 1]);
    let data = placement(3, 4, &[0, 0, 4, 0, 1, 0, 0, 0, 0, 0, 0, 0]);
    let occ = lay(&data);
    let count = occ.cells.iter().filter(|c| **c).count() as i32;
    match eval(&map, &data) {
        EvalResult::Valid { filled, .. } => assert_eq!(filled, count),
        EvalResult::Invalid => panic!("expected a valid placement"),
    }
    for (i, c) in occ.cells.iter().enumerate() {
        if *c {
            assert!(map.cells[i]);
        }
    }
}

#[test]
fn transfer_keeps_fitting_pieces_only() {
    let map = mask(3, 3, &[0, 1, 1, 1, 1, 1, 1, 1, 1]);
    // an O at (0,0) touches the rejected corner; an O at (1,0) fits; an O at
    // (1,1) would overlap the kept one
    let reference = placement(3, 3, &[1, 0, 0, 1, 1, 0, 0, 0, 0]);
    let out = transfer(&map, &reference);
    assert_eq!(out.cells, vec![0, 0, 0, 1, 0, 0, 0, 0, 0]);
    assert!(matches!(eval(&map, &out), EvalResult::Valid { filled: 4, .. }));
}

#[test]
fn transfer_result_is_never_invalid() {
    let map = mask(4, 4, &[1, 1, 1, 0, 1, 1, 1, 1, 0, 1, 1, 1, 1, 1, 1, 1]);
    let reference = placement(4, 4, &[2, 3, 0, 0, 1, 0, 5, 0, 0, 6, 0, 0, 0, 0, 0, 0]);
    let out = transfer(&map, &reference);
    assert_ne!(eval(&map, &out), EvalResult::Invalid);
    for i in 0..16 {
        assert!(out.cells[i] == 0 || out.cells[i] == reference.cells[i]);
    }
}

#[test]
fn segment_splits_components() {
    let map = mask(3, 4, &[1, 1, 0, 1, 0, 1, 0, 1, 0, 0, 0, 1]);
    let segs = segment(&map);
    assert_eq!(segs.len(), 2);
    assert_eq!((segs[0].y, segs[0].x, segs[0].map_size), (0, 0, 3));
    assert_eq!((segs[0].map.h, segs[0].map.w), (2, 2));
    assert_eq!(segs[0].map.cells, vec![true, true, false, true]);
    assert_eq!((segs[1].y, segs[1].x, segs[1].map_size), (0, 3, 3));
    assert_eq!((segs[1].map.h, segs[1].map.w), (3, 1));
    assert_eq!(segs[1].map.cells, vec![true, true, true]);
}

#[test]
fn segment_covers_every_accepted_cell_once() {
    let map = mask(4, 5, &[1, 0, 1, 1, 0, 1, 0, 0, 1, 0, 0, 1, 1, 0, 1, 1, 0, 0, 1, 1]);
    let segs = segment(&map);
    let mut seen = vec![0u32; 20];
    for s in &segs {
        let mut count = 0;
        for yy in 0..s.map.h {
            for xx in 0..s.map.w {
                if s.map.cells[yy * s.map.w + xx] {
                    seen[(s.y + yy) * 5 + s.x + xx] += 1;
                    count += 1;
                }
            }
        }
        assert_eq!(count, s.map_size);
    }
    for i in 0..20 {
        assert_eq!(seen[i], if map.cells[i] { 1 } else { 0 });
    }
}

#[test]
fn segment_of_empty_mask_is_empty() {
    let map = mask(2, 2, &[0, 0, 0, 0]);
    assert!(segment(&map).is_empty());
}

#[test]
fn dump_renders_pieces_and_collisions() {
    let map = mask(3, 3, &[0, 1, 1, 1, 1, 1, 1, 1, 1]);
    let data = placement(3, 3, &[0, 0, 0, 0, 1, 0, 0, 0, 0]);
    assert_eq!(dump(&map, &data), vec![" ..", ".00", ".00"]);
    let data = placement(3, 3, &[1, 0, 0, 1, 0, 0, 0, 0, 0]);
    assert_eq!(dump(&map, &data), vec!["X0.", "XX.", "11."]);
}

#[test]
fn segments_are_connected_and_maximal() {
    let map = mask(4, 5, &[1, 1, 0, 1, 1, 0, 1, 0, 0, 1, 1, 1, 0, 1, 1, 0, 0, 1, 1, 0]);
    let segs = segment(&map);
    for s in &segs {
        let (h, w) = (s.map.h, s.map.w);
        let start = s.map.cells.iter().position(|c| *c).expect("segment is not empty");
        let mut seen = vec![false; h * w];
        let mut stack = vec![start];
        seen[start] = true;
        while let Some(i) = stack.pop() {
            let (y, x) = (i / w, i % w);
            let mut next = vec![];
            if y > 0 {
                next.push(i - w);
            }
            if y + 1 < h {
                next.push(i + w);
            }
            if x > 0 {
                next.push(i - 1);
            }
            if x + 1 < w {
                next.push(i + 1);
            }
            for j in next {
                if s.map.cells[j] && !seen[j] {
                    seen[j] = true;
                    stack.push(j);
                }
            }
        }
        for i in 0..h * w {
            assert_eq!(seen[i], s.map.cells[i]);
        }
        // no accepted cell outside the segment touches it
        for yy in 0..h {
            for xx in 0..w {
                if !s.map.cells[yy * w + xx] {
                    continue;
                }
                let (gy, gx) = (s.y + yy, s.x + xx);
                let around = [(gy.wrapping_sub(1), gx), (gy + 1, gx), (gy, gx.wrapping_sub(1)), (gy, gx + 1)];
                for (ny, nx) in around {
                    if ny < 4 && nx < 5 && map.cells[ny * 5 + nx] {
                        assert!(ny >= s.y && ny < s.y + h && nx >= s.x && nx < s.x + w);
                        assert!(s.map.cells[(ny - s.y) * w + (nx - s.x)]);
                    }
                }
            }
        }
    }
    assert_eq!(segs.len(), 2);
}

#[test]
fn dump_cycles_symbols_and_marks_rejected_cover() {
    // 28 pieces in a 2 x 56 grid: the 28th wraps to the first symbol
    let mut cells = vec![0u8; 112];
    for k in 0..28 {
        cells[2 * k] = 1;
    }
    let map = mask(2, 56, &[1; 112]);
    let rows = dump(&map, &placement(2, 56, &cells));
    assert_eq!(&rows[0][0..2], "00");
    assert_eq!(&rows[0][2..4], "11");
    assert_eq!(&rows[0][52..54], "nn");
    assert_eq!(&rows[0][54..56], "00");
    let map = mask(2, 2, &[1, 1, 1, 0]);
    assert_eq!(dump(&map, &placement(2, 2, &[1, 0, 0, 0])), vec!["00", "0X"]);
}
