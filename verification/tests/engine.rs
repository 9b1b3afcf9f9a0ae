use gameoflife::life::GameOfLife;

#[test]
fn new_dimensions_follow_cell_size() {
    let g = GameOfLife::new(800, 600, 10);
    assert_eq!(g.cols(), 80);
    assert_eq!(g.rows(), 60);
    assert_eq!(g.cell_size(), 10);
    assert_eq!(g.live_cells(), vec![]);
    assert!(!g.is_alive(0, 0));
}

#[test]
fn new_clamps_small_dimensions_to_zero() {
    let mut g = GameOfLife::new(5, 7, 10);
    assert_eq!(g.cols(), 0);
    assert_eq!(g.rows(), 0);
    g.update();
    assert_eq!(g.live_cells(), vec![]);
    assert!(!g.is_alive(0, 0));
}

#[test]
fn set_alive_out_of_range_is_ignored() {
    let mut g = GameOfLife::new(3, 3, 1);
    g.set_alive_if_in_bounds(5, 1);
    g.set_alive_if_in_bounds(1, 3);
    assert_eq!(g.live_cells(), vec![]);
    g.set_alive_if_in_bounds(1, 2);
    assert_eq!(g.live_cells(), vec![(1, 2)]);
    assert!(g.is_alive(1, 2));
    assert!(!g.is_alive(2, 1));
}

#[test]
fn is_alive_out_of_range_reads_dead() {
    let mut g = GameOfLife::new(3, 3, 1);
    g.set_alive_if_in_bounds(2, 2);
    assert!(!g.is_alive(3, 3));
    assert!(!g.is_alive(2, 3));
    assert!(!g.is_alive(usize::MAX, usize::MAX));
}

#[test]
fn block_is_a_still_life() {
    let mut g = GameOfLife::new(6, 6, 1);
    g.set_pattern(&[(0, 0), (0, 1), (1, 0), (1, 1)], 2, 2);
    let block = vec![(2, 2), (2, 3), (3, 2), (3, 3)];
    assert_eq!(g.live_cells(), block);
    for _ in 0..5 {
        g.update();
        assert_eq!(g.live_cells(), block);
    }
}

#[test]
fn blinker_oscillates_with_period_two() {
    let mut g = GameOfLife::new(5, 5, 1);
    g.set_pattern(&[(0, 0), (0, 1), (0, 2)], 2, 1);
    let horizontal = vec![(2, 1), (2, 2), (2, 3)];
    let vertical = vec![(1, 2), (2, 2), (3, 2)];
    assert_eq!(g.live_cells(), horizontal);
    g.update();
    assert_eq!(g.live_cells(), vertical);
    g.update();
    assert_eq!(g.live_cells(), horizontal);
}

#[test]
fn corner_neighbors_never_wrap() {
    let mut g = GameOfLife::new(4, 4, 1);
    g.set_pattern(&[(0, 1), (1, 0), (1, 1), (3, 3)], 0, 0);
    // Edge-clipped: (0, 0) sees exactly its three in-bounds neighbors.
    // With wraparound it would also see (3, 3) and count four.
    assert_eq!(g.count_neighbors(0, 0), 3);
    g.update();
    assert!(g.is_alive(0, 0));
}

#[test]
fn count_neighbors_full_surround() {
    let mut g = GameOfLife::new(3, 3, 1);
    let ring = [
        (0, 0),
        (0, 1),
        (0, 2),
        (1, 0),
        (1, 2),
        (2, 0),
        (2, 1),
        (2, 2),
    ];
    g.set_pattern(&ring, 0, 0);
    assert_eq!(g.count_neighbors(1, 1), 8);
    assert_eq!(g.count_neighbors(0, 1), 4);
}

#[test]
fn update_reads_only_the_pre_step_state() {
    // A horizontal triple: an in-place scan that overwrote cells while
    // still reading them would not produce the clean vertical triple.
    let mut g = GameOfLife::new(5, 5, 1);
    g.set_pattern(&[(2, 1), (2, 2), (2, 3)], 0, 0);
    g.update();
    for r in 0..5 {
        for c in 0..5 {
            let expect = c == 2 && (1..=3).contains(&r);
            assert_eq!(g.is_alive(r, c), expect);
        }
    }
}

#[test]
fn lonely_cell_dies_and_triple_births() {
    let mut g = GameOfLife::new(4, 4, 1);
    g.set_pattern(&[(3, 3)], 0, 0);
    g.update();
    assert_eq!(g.live_cells(), vec![]);
}

#[test]
fn overcrowded_cell_dies() {
    let mut g = GameOfLife::new(3, 3, 1);
    g.set_pattern(&[(0, 0), (0, 1), (0, 2), (1, 0), (1, 1)], 0, 0);
    // (1, 1) has four live neighbors and dies of overpopulation.
    assert_eq!(g.count_neighbors(1, 1), 4);
    g.update();
    assert!(!g.is_alive(1, 1));
}

#[test]
fn live_cells_come_in_row_major_order() {
    let mut g = GameOfLife::new(4, 4, 1);
    g.set_pattern(&[(3, 0), (0, 3), (2, 2), (0, 1), (2, 1)], 0, 0);
    assert_eq!(g.live_cells(), vec![(0, 1), (0, 3), (2, 1), (2, 2), (3, 0)]);
}

#[test]
fn set_pattern_skips_out_of_range_coords() {
    let mut g = GameOfLife::new(3, 3, 1);
    g.set_pattern(&[(0, 0), (5, 5), (0, 4)], 1, 1);
    assert_eq!(g.live_cells(), vec![(1, 1)]);
}

#[test]
fn set_pattern_offset_overflow_is_skipped() {
    let mut g = GameOfLife::new(3, 3, 1);
    g.set_pattern(&[(1, 1)], usize::MAX, 0);
    g.set_pattern(&[(1, 1)], 0, usize::MAX);
    assert_eq!(g.live_cells(), vec![]);
}

#[test]
fn disjoint_literal_patterns_compose() {
    let mut g = GameOfLife::new(8, 8, 1);
    g.set_pattern(&[(0, 0), (0, 1)], 0, 0);
    g.set_pattern(&[(0, 0), (1, 0)], 5, 6);
    assert_eq!(g.live_cells(), vec![(0, 0), (0, 1), (5, 6), (6, 6)]);
}
