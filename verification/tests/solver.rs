use wave_collapse::WfcError;
use wave_collapse::generator::{Generator, locally_consistent};

const BLACK: u32 = 0x0000_00FF;
const WHITE: u32 = 0xFFFF_FFFF;
const RED: u32 = 0xFF00_00FF;
const GREEN: u32 = 0x00FF_00FF;
const BLUE: u32 = 0x0000_FFFF;

#[test]
fn two_tile_chain_always_collapses() {
    let sample = vec![vec![BLACK, WHITE]];
    let g = Generator::new(&sample, 1, 1).unwrap();
    for _ in 0..20 {
        let grid = g.gen_smart(2, 1, 64).unwrap();
        // a successful one-row result is locally consistent, and the only
        // rule pointing Right is (1, 2): the sample's own ordering
        assert_eq!(grid, vec![1, 2]);
        assert!(locally_consistent(&g.rules, &grid, 2, 1));
    }
}

#[test]
fn four_tile_sample_reproduces_arrangement() {
    let sample = vec![vec![RED, GREEN], vec![BLUE, WHITE]];
    let g = Generator::new(&sample, 1, 1).unwrap();
    assert_eq!(g.catalog.tiles.len(), 4);
    assert_eq!(g.rules.len(), 8);
    let grid = g.gen_smart(2, 2, 10000).unwrap();
    assert_eq!(grid, vec![1, 2, 3, 4]);
    assert!(locally_consistent(&g.rules, &grid, 2, 2));
}

#[test]
fn contradiction_without_horizontal_rules() {
    // a vertical two-pixel sample mines no Left/Right rules, so a 2x1 output
    // forces an empty neighbour domain: one attempt ends in a contradiction
    let sample = vec![vec![BLACK], vec![WHITE]];
    let g = Generator::new(&sample, 1, 1).unwrap();
    assert_eq!(g.generate(2, 1).unwrap_err(), WfcError::Contradiction);
}

#[test]
fn generation_failed_when_attempts_run_out() {
    let sample = vec![vec![BLACK], vec![WHITE]];
    let g = Generator::new(&sample, 1, 1).unwrap();
    assert_eq!(
        g.gen_smart(2, 1, 3).unwrap_err(),
        WfcError::GenerationFailed
    );
    assert_eq!(
        g.gen_smart(2, 1, 0).unwrap_err(),
        WfcError::GenerationFailed
    );
}

#[test]
fn invalid_dimensions_rejected_before_attempts() {
    let sample = vec![vec![BLACK, WHITE]];
    let g = Generator::new(&sample, 1, 1).unwrap();
    assert_eq!(g.gen_smart(0, 4, 10).unwrap_err(), WfcError::InvalidDimensions);
    assert_eq!(g.gen_smart(4, 0, 10).unwrap_err(), WfcError::InvalidDimensions);
}

#[test]
fn all_pairs_model_succeeds_first_attempt() {
    // a uniform sample mines rules permitting its one tile beside itself in
    // all four directions, so no draw can empty a domain and a single
    // attempt is owed success
    let sample = vec![vec![GREEN, GREEN], vec![GREEN, GREEN]];
    let g = Generator::new(&sample, 1, 1).unwrap();
    assert_eq!(g.catalog.tiles.len(), 1);
    assert_eq!(g.rules.len(), 4);
    let grid = g.gen_smart(5, 5, 1).unwrap();
    assert_eq!(grid, vec![1; 25]);
    assert!(locally_consistent(&g.rules, &grid, 5, 5));
}

#[test]
fn single_tile_fills_any_grid() {
    let sample = vec![vec![BLUE]];
    let g = Generator::new(&sample, 1, 1).unwrap();
    let grid = g.gen_smart(3, 2, 4).unwrap();
    assert_eq!(grid, vec![1, 1, 1, 1, 1, 1]);
}

#[test]
fn output_tiles_belong_to_catalog() {
    let sample = vec![vec![BLACK, WHITE, BLACK], vec![WHITE, BLACK, WHITE]];
    let g = Generator::new(&sample, 1, 1).unwrap();
    let n = g.catalog.tiles.len();
    let grid = g.gen_smart(4, 4, 10000).unwrap();
    assert_eq!(grid.len(), 16);
    for &id in &grid {
        assert!(1 <= id && id <= n);
    }
}

#[test]
fn render_places_tile_pixels() {
    let sample = vec![vec![BLACK, WHITE]];
    let g = Generator::new(&sample, 1, 1).unwrap();
    let grid = g.gen_smart(2, 1, 64).unwrap();
    let img = g.render(&grid, 2, 1);
    assert_eq!(img.len(), 1);
    assert_eq!(img[0].len(), 2);
    if grid == vec![1, 2] {
        assert_eq!(img[0], vec![BLACK, WHITE]);
    } else {
        assert_eq!(img[0], vec![WHITE, BLACK]);
    }
}

#[test]
fn render_scales_by_block_size() {
    let sample = vec![vec![RED, GREEN], vec![BLUE, WHITE]];
    let g = Generator::new(&sample, 2, 2).unwrap();
    let grid = g.gen_smart(2, 1, 4).unwrap();
    assert_eq!(grid, vec![1, 1]);
    let img = g.render(&grid, 2, 1);
    assert_eq!(img.len(), 2);
    assert_eq!(img[0], vec![RED, GREEN, RED, GREEN]);
    assert_eq!(img[1], vec![BLUE, WHITE, BLUE, WHITE]);
}

#[test]
fn weighted_draw_picks_a_catalog_id() {
    // a single cell is decided purely by the weighted draw over {1, 2}
    let sample = vec![vec![BLACK, WHITE]];
    let g = Generator::new(&sample, 1, 1).unwrap();
    for _ in 0..20 {
        let grid = g.gen_smart(1, 1, 4).unwrap();
        assert_eq!(grid.len(), 1);
        assert!(grid[0] == 1 || grid[0] == 2);
    }
}

#[test]
fn locally_consistent_detects_bad_pair() {
    let sample = vec![vec![BLACK, WHITE]];
    let g = Generator::new(&sample, 1, 1).unwrap();
    // two equal tiles next to each other never occur in the sample
    let bad = vec![1, 1];
    assert!(!locally_consistent(&g.rules, &bad, 2, 1));
    let good = vec![1, 2];
    assert!(locally_consistent(&g.rules, &good, 2, 1));
}
