use wave_collapse::WfcError;
use wave_collapse::direction::Direction;
use wave_collapse::generator::Generator;
use wave_collapse::tile::{Tile, tiles_equal};

const BLACK: u32 = 0x0000_00FF;
const WHITE: u32 = 0xFFFF_FFFF;
const RED: u32 = 0xFF00_00FF;
const GREEN: u32 = 0x00FF_00FF;
const BLUE: u32 = 0x0000_FFFF;

#[test]
fn tiles_equal_same_content() {
    let a = Tile { pixels: vec![BLACK, WHITE], width: 2, height: 1 };
    let b = Tile { pixels: vec![BLACK, WHITE], width: 2, height: 1 };
    assert!(tiles_equal(&a, &b));
}

#[test]
fn tiles_equal_different_content() {
    let a = Tile { pixels: vec![BLACK, WHITE], width: 2, height: 1 };
    let b = Tile { pixels: vec![BLACK, BLACK], width: 2, height: 1 };
    let c = Tile { pixels: vec![BLACK, WHITE], width: 1, height: 2 };
    assert!(!tiles_equal(&a, &b));
    assert!(!tiles_equal(&a, &c));
}

#[test]
fn two_tile_sample_catalog_and_rules() {
    let sample = vec![vec![BLACK, WHITE]];
    let g = Generator::new(&sample, 1, 1).unwrap();
    assert_eq!(g.catalog.tiles.len(), 2);
    assert_eq!(g.catalog.weights, vec![1u64, 1u64]);
    assert_eq!(g.catalog.tiles[0].pixels, vec![BLACK]);
    assert_eq!(g.catalog.tiles[1].pixels, vec![WHITE]);
    assert_eq!(g.rules.len(), 2);
    assert!(g.rules.contains(1, 2, Direction::Right));
    assert!(g.rules.contains(2, 1, Direction::Left));
    assert!(!g.rules.contains(1, 2, Direction::Up));
    assert!(!g.rules.contains(1, 2, Direction::Down));
    assert!(!g.rules.contains(2, 1, Direction::Right));
}

#[test]
fn weights_count_occurrences() {
    let sample = vec![vec![BLACK, WHITE, BLACK, BLACK]];
    let g = Generator::new(&sample, 1, 1).unwrap();
    assert_eq!(g.catalog.tiles.len(), 2);
    assert_eq!(g.catalog.weights, vec![3u64, 1u64]);
}

#[test]
fn rules_symmetric_and_deduplicated() {
    let sample = vec![vec![RED, GREEN], vec![BLUE, RED]];
    let g = Generator::new(&sample, 1, 1).unwrap();
    let n = g.catalog.tiles.len();
    // symmetry: each rule's mirror is present
    for r in &g.rules.rules {
        let opp = match r.dir {
            Direction::Up => Direction::Down,
            Direction::Down => Direction::Up,
            Direction::Left => Direction::Right,
            Direction::Right => Direction::Left,
        };
        assert!(g.rules.contains(r.neighbor, r.origin, opp));
        assert!(1 <= r.origin && r.origin <= n);
        assert!(1 <= r.neighbor && r.neighbor <= n);
    }
    // deduplication: no triple appears twice
    for i in 0..g.rules.rules.len() {
        for j in (i + 1)..g.rules.rules.len() {
            assert!(g.rules.rules[i] != g.rules.rules[j]);
        }
    }
}

#[test]
fn build_model_twice_same_catalog() {
    let sample = vec![vec![BLACK, WHITE, BLACK], vec![WHITE, BLACK, WHITE]];
    let g1 = Generator::new(&sample, 1, 1).unwrap();
    let g2 = Generator::new(&sample, 1, 1).unwrap();
    assert_eq!(g1.catalog.tiles.len(), g2.catalog.tiles.len());
    assert_eq!(g1.catalog.weights, g2.catalog.weights);
    for i in 0..g1.catalog.tiles.len() {
        assert!(tiles_equal(&g1.catalog.tiles[i], &g2.catalog.tiles[i]));
    }
    assert_eq!(g1.rules.len(), g2.rules.len());
}

#[test]
fn block_mode_extracts_row_major() {
    let sample = vec![vec![RED, GREEN], vec![BLUE, WHITE]];
    let g = Generator::new(&sample, 2, 2).unwrap();
    assert_eq!(g.catalog.tiles.len(), 1);
    assert_eq!(g.catalog.tiles[0].pixels, vec![RED, GREEN, BLUE, WHITE]);
    assert_eq!(g.catalog.tiles[0].width, 2);
    assert_eq!(g.catalog.tiles[0].height, 2);
    assert_eq!(g.catalog.weights, vec![1u64]);
    assert_eq!(g.rules.len(), 0);
}

#[test]
fn vertical_sample_mines_only_vertical_rules() {
    let sample = vec![vec![BLACK], vec![WHITE]];
    let g = Generator::new(&sample, 1, 1).unwrap();
    assert_eq!(g.catalog.tiles.len(), 2);
    assert_eq!(g.rules.len(), 2);
    assert!(g.rules.contains(1, 2, Direction::Down));
    assert!(g.rules.contains(2, 1, Direction::Up));
    assert!(!g.rules.contains(1, 2, Direction::Right));
    assert!(!g.rules.contains(2, 1, Direction::Left));
}

#[test]
fn invalid_sample_dimensions_rejected() {
    // not divisible by the block size
    let sample3 = vec![
        vec![BLACK, WHITE, BLACK],
        vec![WHITE, BLACK, WHITE],
        vec![BLACK, WHITE, BLACK],
    ];
    assert_eq!(
        Generator::new(&sample3, 2, 2).unwrap_err(),
        WfcError::InvalidSampleDimensions
    );
    // empty sample
    let empty: Vec<Vec<u32>> = vec![];
    assert_eq!(
        Generator::new(&empty, 1, 1).unwrap_err(),
        WfcError::InvalidSampleDimensions
    );
    // empty row
    let empty_row: Vec<Vec<u32>> = vec![vec![]];
    assert_eq!(
        Generator::new(&empty_row, 1, 1).unwrap_err(),
        WfcError::InvalidSampleDimensions
    );
    // ragged rows
    let ragged = vec![vec![BLACK, WHITE], vec![BLACK]];
    assert_eq!(
        Generator::new(&ragged, 1, 1).unwrap_err(),
        WfcError::InvalidSampleDimensions
    );
    // zero block size
    let sample = vec![vec![BLACK, WHITE]];
    assert_eq!(
        Generator::new(&sample, 0, 1).unwrap_err(),
        WfcError::InvalidSampleDimensions
    );
}
