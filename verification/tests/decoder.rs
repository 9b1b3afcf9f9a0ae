use gameoflife::life::GameOfLife;

#[test]
fn rle_decodes_a_block_literal() {
    let mut g = GameOfLife::new(4, 4, 1);
    g.load_rle("2o$2o!", 0, 0);
    assert_eq!(g.live_cells(), vec![(0, 0), (0, 1), (1, 0), (1, 1)]);
}

#[test]
fn rle_decodes_at_an_offset() {
    let mut g = GameOfLife::new(6, 6, 1);
    g.load_rle("2o$2o!", 2, 3);
    assert_eq!(g.live_cells(), vec![(2, 3), (2, 4), (3, 3), (3, 4)]);
}

#[test]
fn rle_out_of_range_cells_are_dropped() {
    let mut g = GameOfLife::new(3, 3, 1);
    g.load_rle("3o$3o!", 2, 1);
    // Only the in-bounds subset of the pattern lands on the grid.
    assert_eq!(g.live_cells(), vec![(2, 1), (2, 2)]);
}

#[test]
fn rle_two_disjoint_loads_compose() {
    let mut g = GameOfLife::new(8, 8, 1);
    g.load_rle("2o$2o!", 0, 0);
    g.load_rle("3o!", 4, 3);
    assert_eq!(
        g.live_cells(),
        vec![(0, 0), (0, 1), (1, 0), (1, 1), (4, 3), (4, 4), (4, 5)]
    );
}

#[test]
fn rle_comment_and_header_lines_are_skipped() {
    let mut g = GameOfLife::new(4, 4, 1);
    g.load_rle("#C a comment\nx = 3, y = 1\n3o!", 0, 0);
    assert_eq!(g.live_cells(), vec![(0, 0), (0, 1), (0, 2)]);
}

#[test]
fn rle_tokens_inside_comment_lines_have_no_effect() {
    let mut g = GameOfLife::new(4, 4, 1);
    g.load_rle("#oo!2$\n2o!", 0, 0);
    assert_eq!(g.live_cells(), vec![(0, 0), (0, 1)]);
}

#[test]
fn rle_count_defaults_to_one() {
    let mut g = GameOfLife::new(3, 3, 1);
    g.load_rle("bo$o!", 0, 0);
    assert_eq!(g.live_cells(), vec![(0, 1), (1, 0)]);
}

#[test]
fn rle_multi_digit_counts_accumulate() {
    let mut g = GameOfLife::new(20, 1, 1);
    g.load_rle("12b3o!", 0, 0);
    assert_eq!(g.live_cells(), vec![(0, 12), (0, 13), (0, 14)]);
}

#[test]
fn rle_counted_row_ends_skip_rows() {
    let mut g = GameOfLife::new(5, 5, 1);
    g.load_rle("o3$o!", 0, 0);
    assert_eq!(g.live_cells(), vec![(0, 0), (3, 0)]);
}

#[test]
fn rle_stops_at_bang() {
    let mut g = GameOfLife::new(5, 5, 1);
    g.load_rle("o!o$2o", 0, 0);
    assert_eq!(g.live_cells(), vec![(0, 0)]);
}

#[test]
fn rle_unknown_characters_are_ignored() {
    let mut g = GameOfLife::new(4, 4, 1);
    g.load_rle("o z,o!", 0, 0);
    assert_eq!(g.live_cells(), vec![(0, 0), (0, 1)]);
}

#[test]
fn rle_count_carries_across_line_breaks() {
    let mut g = GameOfLife::new(20, 2, 1);
    // A line break is just another ignored character: digits split
    // across it keep accumulating into one count.
    g.load_rle("1\n2o!", 0, 0);
    let row: Vec<(usize, usize)> = (0..12).map(|c| (0, c)).collect();
    assert_eq!(g.live_cells(), row);
}

#[test]
fn rle_cursor_persists_across_lines() {
    let mut g = GameOfLife::new(8, 2, 1);
    // Only `$` returns the cursor to the start of a row; a plain line
    // break does not.
    g.load_rle("2o\n2o!", 0, 0);
    assert_eq!(g.live_cells(), vec![(0, 0), (0, 1), (0, 2), (0, 3)]);
}

#[test]
fn rle_huge_counts_degrade_gracefully() {
    let mut g = GameOfLife::new(3, 3, 1);
    g.load_rle("99999999999999999999o!", 0, 0);
    assert_eq!(g.live_cells(), vec![(0, 0), (0, 1), (0, 2)]);
}

#[test]
fn rle_offset_overflow_is_tolerated() {
    let mut g = GameOfLife::new(3, 3, 1);
    g.load_rle("o!", usize::MAX, 0);
    g.load_rle("o!", 0, usize::MAX);
    assert_eq!(g.live_cells(), vec![]);
}

#[test]
fn rle_decoded_block_behaves_as_still_life() {
    let mut g = GameOfLife::new(6, 6, 1);
    g.load_rle("2o$2o!", 2, 2);
    g.update();
    g.update();
    assert_eq!(g.live_cells(), vec![(2, 2), (2, 3), (3, 2), (3, 3)]);
}
