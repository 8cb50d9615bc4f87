use tile_game::game::{key_move, Game, Move};
use tile_game::lanes::digit_width;

fn row(g: &Game, y: usize) -> Vec<u32> {
    let mut r = Vec::new();
    let mut x = 0;
    while x < g.size {
        r.push(g.cell(x, y));
        x += 1;
    }
    r
}

fn col(g: &Game, x: usize) -> Vec<u32> {
    let mut r = Vec::new();
    let mut y = 0;
    while y < g.size {
        r.push(g.cell(x, y));
        y += 1;
    }
    r
}

fn nonzero_cells(g: &Game) -> usize {
    let mut n = 0;
    for y in 0..g.size {
        for x in 0..g.size {
            if g.cell(x, y) != 0 {
                n += 1;
            }
        }
    }
    n
}

#[test]
fn new_board_is_empty() {
    let g = Game::new(4);
    assert_eq!(g.empty_squares().len(), 16);
    assert_eq!(g.max_value(), 0);
    assert_eq!(g.printwidth(), 1);
    assert_eq!(g.cell(3, 3), 0);
}

#[test]
fn reset_clears_board() {
    let mut g = Game::new(4);
    g.place_at(0, false);
    g.place_at(5, true);
    assert_eq!(g.empty_squares().len(), 14);
    g.reset();
    assert_eq!(g.empty_squares().len(), 16);
    assert_eq!(g.max_value(), 0);
}

#[test]
fn left_merge_then_compact() {
    // Row [2,2,0,2] moved Left: the 2,2 merge to 4, the last 2 slides in.
    let mut g = Game::new(4);
    g.place_at(0, false);
    g.place_at(1, false);
    g.place_at(3, false);
    let fallen = g.process_move(Move::Left);
    assert_eq!(fallen, 2);
    assert_eq!(row(&g, 0), vec![4, 2, 0, 0]);
    assert_eq!(row(&g, 1), vec![0, 0, 0, 0]);
}

#[test]
fn right_compacts_without_merge() {
    // Row [2,4,2,0] moved Right: no equal neighbours in scan order, three
    // tiles slide one cell to the right.
    let mut g = Game::new(4);
    g.place_at(0, false);
    g.place_at(1, true);
    g.place_at(2, false);
    let fallen = g.process_move(Move::Right);
    assert_eq!(fallen, 3);
    assert_eq!(row(&g, 0), vec![0, 2, 4, 2]);
}

#[test]
fn up_merges_column() {
    // Column 0 holds [2,0,2,0]; Up merges them at the top.
    let mut g = Game::new(4);
    g.place_at(0, false);
    g.place_at(8, false);
    let fallen = g.process_move(Move::Up);
    assert_eq!(fallen, 1);
    assert_eq!(col(&g, 0), vec![4, 0, 0, 0]);
}

#[test]
fn down_merges_column() {
    // Column 0 holds [2,0,2,0]; Down merges at the bottom and slides.
    let mut g = Game::new(4);
    g.place_at(0, false);
    g.place_at(8, false);
    let fallen = g.process_move(Move::Down);
    assert_eq!(fallen, 2);
    assert_eq!(col(&g, 0), vec![0, 0, 0, 4]);
}

#[test]
fn zero_fallen_means_unchanged() {
    // A lone tile already at the wall: the move reports 0 and changes
    // nothing, however often it is repeated.
    let mut g = Game::new(4);
    g.place_at(0, false);
    assert_eq!(g.process_move(Move::Left), 0);
    assert_eq!(g.cell(0, 0), 2);
    assert_eq!(g.process_move(Move::Left), 0);
    assert_eq!(g.cell(0, 0), 2);
    assert_eq!(g.empty_squares().len(), 15);
}

#[test]
fn repeat_move_can_merge_again() {
    // Row [2,2,4,0]: the first Left yields [4,4,0,0], the second merges
    // again; only a repeat that reports 0 is a no-op.
    let mut g = Game::new(4);
    g.place_at(0, false);
    g.place_at(1, false);
    g.place_at(2, true);
    assert_eq!(g.process_move(Move::Left), 2);
    assert_eq!(row(&g, 0), vec![4, 4, 0, 0]);
    assert_eq!(g.process_move(Move::Left), 1);
    assert_eq!(row(&g, 0), vec![8, 0, 0, 0]);
    assert_eq!(g.process_move(Move::Left), 0);
    assert_eq!(row(&g, 0), vec![8, 0, 0, 0]);
}

#[test]
fn merge_only_once_per_move() {
    // Row [4,4,4,4] moved Left merges pairwise to [8,8,0,0]: a tile that
    // just merged does not merge again within the move.
    let mut g = Game::new(4);
    for i in 0..4 {
        g.place_at(i, true);
    }
    let fallen = g.process_move(Move::Left);
    assert_eq!(fallen, 3);
    assert_eq!(row(&g, 0), vec![8, 8, 0, 0]);
}

#[test]
fn spawn_on_full_board_is_none() {
    let mut g = Game::new(1);
    g.place_at(0, false);
    assert_eq!(g.set_rand_empty(), None);
    assert_eq!(g.cell(0, 0), 2);
}

#[test]
fn spawn_fills_the_single_empty_cell() {
    let mut g = Game::new(1);
    let r = g.set_rand_empty();
    assert_eq!(r, Some(0));
    let v = g.cell(0, 0);
    assert!(v == 2 || v == 4);
}

#[test]
fn spawn_reduces_empties_by_one() {
    let mut g = Game::new(4);
    let a = g.set_rand_empty().unwrap();
    let b = g.set_rand_empty().unwrap();
    assert_ne!(a, b);
    assert_eq!(g.empty_squares().len(), 14);
    let va = g.cell(a % 4, a / 4);
    let vb = g.cell(b % 4, b / 4);
    assert!(va == 2 || va == 4);
    assert!(vb == 2 || vb == 4);
}

#[test]
fn empties_and_tiles_account_for_every_cell() {
    let mut g = Game::new(4);
    assert_eq!(g.empty_squares().len() + nonzero_cells(&g), 16);
    g.place_at(3, false);
    g.place_at(7, true);
    g.process_move(Move::Down);
    assert_eq!(g.empty_squares().len() + nonzero_cells(&g), 16);
    g.set_rand_empty();
    assert_eq!(g.empty_squares().len() + nonzero_cells(&g), 16);
}

#[test]
fn empty_squares_lists_indices_in_order() {
    let mut g = Game::new(2);
    g.place_at(2, false);
    let e = g.empty_squares();
    assert_eq!(e, vec![0, 1, 3]);
}

#[test]
fn printwidth_grows_with_merged_values() {
    let mut g = Game::new(4);
    for i in 0..4 {
        g.place_at(i, true);
    }
    g.process_move(Move::Left);
    assert_eq!(g.printwidth(), 1);
    g.process_move(Move::Left);
    // 8 and 8 merged to 16: two digits now, and the width never shrinks.
    assert_eq!(g.cell(0, 0), 16);
    assert_eq!(g.printwidth(), 2);
    g.process_move(Move::Right);
    assert_eq!(g.printwidth(), 2);
}

#[test]
fn max_value_reports_largest_tile() {
    let mut g = Game::new(4);
    g.place_at(0, false);
    g.place_at(9, true);
    assert_eq!(g.max_value(), 4);
}

#[test]
fn key_map_matches_bindings() {
    assert_eq!(key_move('l'), Some(Move::Up));
    assert_eq!(key_move('w'), Some(Move::Up));
    assert_eq!(key_move('j'), Some(Move::Left));
    assert_eq!(key_move('a'), Some(Move::Left));
    assert_eq!(key_move('k'), Some(Move::Down));
    assert_eq!(key_move('s'), Some(Move::Down));
    assert_eq!(key_move(';'), Some(Move::Right));
    assert_eq!(key_move('d'), Some(Move::Right));
    assert_eq!(key_move('q'), None);
    assert_eq!(key_move('x'), None);
}

#[test]
fn digit_width_counts_decimal_digits() {
    assert_eq!(digit_width(0), 1);
    assert_eq!(digit_width(9), 1);
    assert_eq!(digit_width(10), 2);
    assert_eq!(digit_width(2048), 4);
    assert_eq!(digit_width(u32::MAX), 10);
}

#[test]
fn fallen_count_sums_over_lanes() {
    // Two rows each holding a mergeable pair: the move's count is the sum
    // of the per-lane counts.
    let mut g = Game::new(4);
    g.place_at(0, false);
    g.place_at(1, false);
    g.place_at(6, true);
    g.place_at(7, true);
    let fallen = g.process_move(Move::Left);
    // Row 0: one merge. Row 1: [0,0,4,4] merges to 8, which then slides.
    assert_eq!(fallen, 3);
    assert_eq!(row(&g, 0), vec![4, 0, 0, 0]);
    assert_eq!(row(&g, 1), vec![8, 0, 0, 0]);
}

#[test]
fn lanes_are_independent() {
    // Tiles in different rows do not interact on a horizontal move.
    let mut g = Game::new(4);
    g.place_at(0, false);
    g.place_at(4, false);
    let fallen = g.process_move(Move::Left);
    assert_eq!(fallen, 0);
    assert_eq!(g.cell(0, 0), 2);
    assert_eq!(g.cell(0, 1), 2);
}
