use kairm_engine::{cell_bit, cell_index, BoardMasks, Solver, SolverState, Color, GRID_SIZE};

#[test]
fn board_masks_of_the_corner_and_lines() {
    let bm = BoardMasks::new(GRID_SIZE);
    assert_eq!(bm.cell_count, 25);
    assert_eq!(bm.neighbors_8[0], (1 << 1) | (1 << 5) | (1 << 6));
    assert_eq!(bm.neighbors_4[0], (1 << 1) | (1 << 5));
    assert_eq!(bm.row_masks[1], 0b11111 << 5);
    assert_eq!(bm.col_masks[0], 1 | (1 << 5) | (1 << 10) | (1 << 15) | (1 << 20));
    assert_eq!(bm.line_masks.len(), 12);
    assert_eq!(bm.line_masks[10], 1 | (1 << 6) | (1 << 12) | (1 << 18) | (1 << 24));
    assert_eq!(bm.line_masks[11], (1 << 4) | (1 << 8) | (1 << 12) | (1 << 16) | (1 << 20));
    assert_eq!(bm.diag_down_masks.len(), 9);
    assert_eq!(bm.diag_up_masks[0], 1);
}

#[test]
fn cell_helpers() {
    assert_eq!(cell_index(2, 3, 5), 13);
    assert_eq!(cell_bit(3), 8);
}

#[test]
fn state_counts_and_ranges() {
    let mut st = SolverState::new(5);
    assert_eq!(st.size(), 5);
    assert!(!st.is_fully_decided());
    assert_eq!(st.set_checked(1, 2), Ok(true));
    assert_eq!(st.set_checked(1, 2), Ok(false));
    assert_eq!(st.set_unchecked(1, 2), Err(()));
    assert_eq!(st.set_unchecked_id(8), Ok(true));
    assert_eq!(st.row_min_max(1), (1, 4));
    assert_eq!(st.col_min_max(2), (1, 5));
    // (1,2) lies on falling diagonal 1 - 2 + 4 = 3 and rising diagonal 3.
    assert_eq!(st.diag_down_min_max(3), (1, 4));
    assert_eq!(st.diag_up_min_max(3), (1, 4));
    assert_eq!(st.unknown_cols_mask_in_row(1), 0b11111 & !(1 << 2) & !(1 << 3));
    assert_eq!(st.unknown_rows_mask_in_col(2), 0b11111 & !(1 << 1));
    assert_eq!(st.to_row_major_u32_mask(), 1 << 7);
    assert!(st.is_checked_id(7) && st.is_unchecked_id(8) && st.is_unknown_id(9));
}

#[test]
fn hash_tells_boards_apart() {
    let a = SolverState::new(5);
    let mut b = SolverState::new(5);
    assert_eq!(a.hash64(), SolverState::new(5).hash64());
    b.set_checked_id(0).unwrap();
    assert_ne!(a.hash64(), b.hash64());
    assert_ne!(SolverState::new(4).hash64(), a.hash64());
}

#[test]
fn solver_size_and_colors() {
    let colors = vec![Color::Black; 25];
    let solver = Solver::new(5, colors);
    assert_eq!(solver.size(), 5);
    assert_eq!(solver.solve_masks_limit(0), vec![(1u32 << 25) - 1]);
}

#[test]
fn symmetry_moves_cells() {
    let mut colors = vec![Color::White; 25];
    colors[1] = Color::Red; // row 0, column 1
    let turned = kairm_engine::generate::symmetry(&colors, 1, 5);
    // A quarter turn sends (0, 1) to (1, 4).
    assert_eq!(turned[1 * 5 + 4], Color::Red);
    assert_eq!(turned.iter().filter(|&&c| c == Color::Red).count(), 1);
    let mirrored = kairm_engine::generate::symmetry(&colors, 6, 5);
    assert_eq!(mirrored[1 * 5 + 0], Color::Red);
    assert_eq!(kairm_engine::generate::symmetry(&colors, 0, 5), colors);
}

#[test]
fn board_masks_for_side_eight() {
    let bm = BoardMasks::new(8);
    assert_eq!(bm.cell_count, 64);
    assert_eq!(bm.row_masks[7], 0xff << 56);
    assert_eq!(bm.neighbors_8[63], (1u64 << 62) | (1u64 << 55) | (1u64 << 54));
}

#[test]
fn generator_steps() {
    // Winning line 0 (the top row) plus cell 12.
    let mut extra = vec![false; 25];
    extra[12] = true;
    let target = kairm_engine::generate::target_mask(5, 0, &extra);
    assert_eq!(target, 0b11111 | (1 << 12));
    // Cell 6 touches four checked cells (0, 1, 2, 12): red, orange and cyan hold, black does not.
    let c = kairm_engine::generate::candidate_colors(5, target, 6);
    assert!(c.contains(&Color::Red) && c.contains(&Color::Orange));
    assert!(!c.contains(&Color::Blue) && !c.contains(&Color::Purple) && !c.contains(&Color::Black));
    let mut colors = vec![Color::Red; 25];
    kairm_engine::generate::whiten(&mut colors, &vec![3, 7, 3, 9], 3);
    assert_eq!(colors[3], Color::White);
    assert_eq!(colors[7], Color::White);
    assert_eq!(colors[9], Color::Red);
}
