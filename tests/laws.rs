use kairm_engine::difficulty::difficulty_score_human;
use kairm_engine::{
    date_to_seed_ymd, difficulty_report, generate_puzzle, solution_count,
    solution_count_with_checked, validate_state, Color, DateSeedError, DifficultyError, GridError,
    HintAction, HintReasonKind, HintStatus, HumanDifficultyStats, SolveStats, Solver, SolverState,
    ValidateError, CELL_COUNT, GRID_SIZE,
};
use std::collections::BTreeSet;

fn codes(colors: &[Color]) -> Vec<u8> {
    colors.iter().map(|c| c.to_u8()).collect()
}

fn all_solutions(colors: &[Color]) -> Vec<u32> {
    Solver::new(GRID_SIZE, colors.to_vec()).solve_masks_limit(0)
}

fn brute_force(colors: &[Color]) -> BTreeSet<u32> {
    let grid = codes(colors);
    let mut black = 0u32;
    let mut vars = Vec::new();
    for i in 0..CELL_COUNT {
        if colors[i] == Color::Black {
            black |= 1 << i;
        } else {
            vars.push(i);
        }
    }
    let mut set = BTreeSet::new();
    for combo in 0..(1u64 << vars.len()) {
        let mut mask = black;
        for (j, &i) in vars.iter().enumerate() {
            if combo & (1 << j) != 0 {
                mask |= 1 << i;
            }
        }
        let res = validate_state(mask as u64, &grid).unwrap();
        if res.is_valid && res.is_bingo {
            set.insert(mask);
        }
    }
    set
}

/// Black everywhere but the cells listed.
fn black_except(cells: &[(usize, Color)]) -> Vec<Color> {
    let mut colors = vec![Color::Black; CELL_COUNT];
    for &(i, c) in cells {
        colors[i] = c;
    }
    colors
}

fn mixed_case() -> Vec<Color> {
    black_except(&[
        (6, Color::Red),
        (7, Color::Green),
        (8, Color::Purple),
        (11, Color::Cyan),
        (12, Color::Blue),
        (13, Color::Orange),
        (16, Color::Yellow),
        (17, Color::White),
        (18, Color::Red),
        (22, Color::White),
    ])
}

fn blank_board(colors: &[Color]) -> SolverState {
    let mut state = SolverState::new(GRID_SIZE);
    for i in 0..CELL_COUNT {
        if colors[i] == Color::Black {
            state.set_checked_id(i).unwrap();
        }
    }
    state
}

fn marks(state: &SolverState) -> Vec<(bool, bool)> {
    (0..CELL_COUNT)
        .map(|i| (state.is_checked_id(i), state.is_unchecked_id(i)))
        .collect()
}

#[test]
fn generate_is_deterministic() {
    let a = generate_puzzle(2024, GRID_SIZE).unwrap();
    let b = generate_puzzle(2024, GRID_SIZE).unwrap();
    assert_eq!(a, b);
}

#[test]
fn generated_puzzle_is_solvable_with_white_cells() {
    let grid = generate_puzzle(99, GRID_SIZE).unwrap();
    let flat: Vec<u8> = grid.into_iter().flatten().collect();
    assert_eq!(flat.len(), CELL_COUNT);
    let whites = flat.iter().filter(|&&c| c == Color::White.to_u8()).count();
    assert!(whites >= 3);
    assert!(solution_count(&flat, 1).unwrap().count == 1);
}

#[test]
fn search_matches_brute_force_on_mixed_case() {
    let colors = mixed_case();
    let got: BTreeSet<u32> = all_solutions(&colors).into_iter().collect();
    assert_eq!(got, brute_force(&colors));
}

#[test]
fn forced_values_agree_with_every_solution() {
    for colors in [mixed_case(), black_except(&[(12, Color::Blue), (6, Color::White), (7, Color::White)])] {
        let solver = Solver::new(GRID_SIZE, colors.clone());
        let mut state = blank_board(&colors);
        let mut stats = SolveStats::new();
        if !solver.propagate_to_fixpoint(&mut state, &mut stats) {
            assert!(brute_force(&colors).is_empty());
            continue;
        }
        for sol in brute_force(&colors) {
            for i in 0..CELL_COUNT {
                if state.is_checked_id(i) {
                    assert!(sol & (1 << i) != 0);
                }
                if state.is_unchecked_id(i) {
                    assert!(sol & (1 << i) == 0);
                }
            }
        }
    }
}

#[test]
fn propagating_twice_changes_nothing() {
    let colors = mixed_case();
    let solver = Solver::new(GRID_SIZE, colors.clone());
    let mut state = blank_board(&colors);
    let mut stats = SolveStats::new();
    assert!(solver.propagate_to_fixpoint(&mut state, &mut stats));
    let once = marks(&state);
    assert!(solver.propagate_to_fixpoint(&mut state, &mut stats));
    assert_eq!(marks(&state), once);
}

#[test]
fn uncheck_hints_name_checked_cells() {
    let colors = mixed_case();
    let solver = Solver::new(GRID_SIZE, colors.clone());
    for mask in [0u32, 0x1ff_ffff, 1 << 12, (1 << 6) | (1 << 12) | (1 << 18)] {
        let hint = solver.hint_next(mask);
        if let Some(mv) = hint.mv {
            if mv.action == HintAction::Uncheck {
                assert!(mask & (1 << mv.cell) != 0);
            } else {
                assert!(mask & (1 << mv.cell) == 0);
            }
        }
    }
}

#[test]
fn repair_hint_when_checked_cells_cannot_complete() {
    // The blue centre may have two checked neighbours at most.
    let colors = black_except(&[
        (6, Color::White),
        (7, Color::White),
        (8, Color::White),
        (11, Color::White),
        (12, Color::Blue),
        (13, Color::White),
        (16, Color::White),
        (17, Color::White),
        (18, Color::White),
    ]);
    let solver = Solver::new(GRID_SIZE, colors);
    let hint = solver.hint_next((1 << 6) | (1 << 7) | (1 << 8));
    let mv = hint.mv.expect("a repair move");
    assert_eq!(hint.status, HintStatus::Suggested);
    assert_eq!(mv.action, HintAction::Uncheck);
    assert!(!mv.forced);
    assert_eq!(hint.reason.unwrap().kind, HintReasonKind::Repair);
}

#[test]
fn all_black_scores_near_minimum() {
    let grid = vec![Color::Black.to_u8(); CELL_COUNT];
    let report = difficulty_report(&grid).unwrap();
    assert!(report.difficulty_score <= 20);
    assert_eq!(report.stats.decision_points, 0);
    assert_eq!(report.stats.dead_ends, 0);
}

#[test]
fn overloaded_blue_has_no_solution() {
    let colors = black_except(&[(12, Color::Blue)]);
    let grid = codes(&colors);
    assert!(matches!(difficulty_report(&grid), Err(DifficultyError::NoSolution)));
    assert_eq!(solution_count(&grid, 1).unwrap().count, 0);
}

#[test]
fn blue_centre_with_two_black_neighbours() {
    // Black everywhere but the blue centre and six of its neighbours (white):
    // the white neighbours must stay unchecked; the centre itself is free.
    let colors = black_except(&[
        (6, Color::White),
        (7, Color::White),
        (8, Color::White),
        (11, Color::White),
        (12, Color::Blue),
        (13, Color::White),
        (16, Color::White),
    ]);
    let res = solution_count(&codes(&colors), 2).unwrap();
    assert_eq!(res.count, 2);
    assert!(res.truncated);
    let pinned = solution_count_with_checked(1 << 12, &codes(&colors), 2).unwrap();
    assert_eq!(pinned.count, 1);
    assert!(!pinned.truncated);
}

#[test]
fn first_row_black_rest_white_has_several_solutions() {
    let mut colors = vec![Color::White; CELL_COUNT];
    for i in 0..GRID_SIZE {
        colors[i] = Color::Black;
    }
    let res = solution_count(&codes(&colors), 2).unwrap();
    assert_eq!(res.count, 2);
    assert!(res.truncated);
}

#[test]
fn grid_errors() {
    assert_eq!(
        solution_count(&[0u8; 24], 1),
        Err(GridError::BadGridLength { expected: 25, actual: 24 })
    );
    let mut grid = vec![2u8; CELL_COUNT];
    grid[3] = 9;
    grid[7] = 11;
    assert_eq!(solution_count(&grid, 1), Err(GridError::BadColor { index: 3, value: 9 }));
    assert!(matches!(
        difficulty_report(&grid),
        Err(DifficultyError::BadColor { index: 3, value: 9 })
    ));
    assert!(matches!(
        difficulty_report(&[2u8; 16]),
        Err(DifficultyError::BadGridLength { expected: 25, actual: 16 })
    ));
    assert!(matches!(validate_state(0, &[2u8; 7]), Err(ValidateError::BadGridLength(7))));
    assert!(matches!(
        validate_state(0, &grid),
        Err(ValidateError::BadColor { index: 3, value: 9 })
    ));
}

#[test]
fn validate_reports_each_rule() {
    let colors = mixed_case();
    let grid = codes(&colors);
    // Only the black cells checked: the top row is a winning line.
    let mut black = 0u32;
    for i in 0..CELL_COUNT {
        if colors[i] == Color::Black {
            black |= 1 << i;
        }
    }
    let res = validate_state(black as u64, &grid).unwrap();
    assert!(res.is_bingo);
    assert_eq!(res.cell_ok.len(), CELL_COUNT);
    // Blue centre: none of its neighbours is black, so none is checked.
    assert!(res.cell_ok[12]);
    // Red at 6 touches checked cells 0, 1, 2, 5, 10.
    assert!(res.cell_ok[6]);
    // A black cell left unchecked is reported.
    let res = validate_state((black & !1) as u64, &grid).unwrap();
    assert!(!res.cell_ok[0]);
    assert!(res.cell_messages[0].is_some());
    assert!(!res.is_valid);
    // Nothing checked: no winning line.
    let res = validate_state(0, &grid).unwrap();
    assert!(!res.is_bingo);
}

#[test]
fn date_seeds_and_errors() {
    assert_eq!(date_to_seed_ymd("2025-12-18").unwrap(), 20440);
    assert_eq!(date_to_seed_ymd(" 2000-02-29\n").unwrap(), 11016);
    assert_eq!(date_to_seed_ymd("+1970-01-02").unwrap(), 1);
    assert!(matches!(date_to_seed_ymd("1970/01/01"), Err(DateSeedError::BadFormat(_))));
    assert!(matches!(date_to_seed_ymd("1970-01-01-01"), Err(DateSeedError::BadFormat(_))));
    assert!(matches!(date_to_seed_ymd("1970-13-01"), Err(DateSeedError::BadValue(_))));
    assert!(matches!(date_to_seed_ymd("1970-01-32"), Err(DateSeedError::BadValue(_))));
    assert!(matches!(date_to_seed_ymd("19x0-01-01"), Err(DateSeedError::BadValue(_))));
    assert!(matches!(date_to_seed_ymd("1969-12-31"), Err(DateSeedError::BadValue(_))));
}

#[test]
fn score_formula_on_known_stats() {
    let mut h = HumanDifficultyStats {
        solved: true,
        exhausted_budget: false,
        variable_cells: 10,
        initial_unknown_after_logic: 0,
        bingo_segments_total: 12,
        bingo_segments_possible: 6,
        bingo_segments_guaranteed: 1,
        logic_propagate_rounds: 3,
        logic_assignments_propagated: 4,
        logic_bursts: 2,
        max_logic_burst_size: 3,
        logic_rule_trigger_counts: vec![0, 0, 2, 1, 0, 0, 0, 0],
        logic_first_trigger_counts: vec![0, 0, 1, 0, 0, 0, 0, 0],
        contradiction_propagate_rounds: 1,
        contradiction_assignments_propagated: 3,
        forced_by_contradiction: 1,
        contradiction_entry_total_assumptions: 8,
        contradiction_entry_candidate_assumptions: 2,
        contradiction_entry_scarcity_sum: 3,
        contradiction_entry_scarcity_max: 3,
        guesses: 0,
        max_guess_depth: 0,
    };
    assert_eq!(difficulty_score_human(&h), 39);
    h.exhausted_budget = true;
    assert_eq!(difficulty_score_human(&h), 100);
}

#[test]
fn checked_mask_is_kept_by_solutions() {
    let mut colors = vec![Color::White; CELL_COUNT];
    for i in 0..GRID_SIZE {
        colors[i] = Color::Black;
    }
    let solver = Solver::new(GRID_SIZE, colors);
    let mask = (1 << 7) | (1 << 19);
    for sol in solver.solve_masks_limit_with_checked_mask(mask, 5) {
        assert_eq!(sol & mask, mask);
    }
}

#[test]
fn validate_accepts_sides_zero_to_eight() {
    let empty = validate_state(0, &[]).unwrap();
    assert!(empty.is_valid && !empty.is_bingo && empty.cell_ok.is_empty());
    // 6x6, all black, first row checked: a run of five, but the black cells below are unchecked.
    let grid = vec![2u8; 36];
    let res = validate_state(0b111111, &grid).unwrap();
    assert!(res.is_bingo);
    assert!(!res.is_valid);
    let all = validate_state((1u64 << 36) - 1, &grid).unwrap();
    assert!(all.is_valid && all.is_bingo);
    // 4x4: no run of five fits.
    let small = validate_state(0xffff, &vec![2u8; 16]).unwrap();
    assert!(small.is_valid && !small.is_bingo);
    assert!(matches!(validate_state(0, &vec![2u8; 81]), Err(ValidateError::BadGridLength(81))));
}
