use kairm_engine::{
    date_to_seed_ymd, difficulty_report, generate_puzzle, hint_next, solution_count,
    solution_count_with_checked, validate_state, Color, DifficultyError, HintAction, HintStatus,
    SolveStats, Solver, SolverState, CELL_COUNT, GRID_SIZE,
};
use std::collections::BTreeSet;

fn colors_from_rows(rows: [[Color; GRID_SIZE]; GRID_SIZE]) -> Vec<Color> {
    let mut out = vec![Color::White; CELL_COUNT];
    for x in 0..GRID_SIZE {
        for y in 0..GRID_SIZE {
            out[x * GRID_SIZE + y] = rows[x][y];
        }
    }
    out
}

fn codes(colors: &[Color]) -> Vec<u8> {
    colors.iter().map(|c| c.to_u8()).collect()
}

fn fixed_case() -> Vec<Color> {
    let k = Color::Black;
    colors_from_rows([
        [k, k, k, k, k],
        [k, Color::Red, Color::Blue, Color::Green, Color::Yellow],
        [k, Color::Purple, Color::Orange, Color::Cyan, Color::White],
        [k, k, k, k, k],
        [k, k, k, k, k],
    ])
}

/// Every assignment of the free cells, kept when `validate_state` accepts it
/// and it holds a winning line.
fn brute_force_solution_set(colors: &[Color]) -> BTreeSet<u32> {
    let mut black_mask = 0u32;
    let mut vars = Vec::new();
    for i in 0..CELL_COUNT {
        if colors[i] == Color::Black {
            black_mask |= 1u32 << i;
        } else {
            vars.push(i);
        }
    }
    let grid = codes(colors);
    let mut set = BTreeSet::new();
    let combos = 1u64 << vars.len();
    for combo in 0..combos {
        let mut mask = black_mask;
        for (j, &i) in vars.iter().enumerate() {
            if (combo & (1u64 << j)) != 0 {
                mask |= 1u32 << i;
            }
        }
        let res = validate_state(mask as u64, &grid).expect("validate ok");
        if res.is_valid && res.is_bingo {
            set.insert(mask);
        }
    }
    set
}

#[test]
fn date_seed_is_days_since_epoch() {
    assert_eq!(date_to_seed_ymd("1970-01-01").unwrap(), 0);
    assert_eq!(date_to_seed_ymd("1970-01-02").unwrap(), 1);
    assert_eq!(date_to_seed_ymd("1970-01-31").unwrap(), 30);
}

#[test]
fn solver_solutions_match_bruteforce_for_fixed_cases() {
    let colors = fixed_case();
    let expected = brute_force_solution_set(&colors);
    let got: BTreeSet<u32> = Solver::new(GRID_SIZE, colors)
        .solve_masks_limit(0)
        .into_iter()
        .collect();
    assert_eq!(got, expected);
}

#[test]
fn mod_solutions_match_bruteforce_for_fixed_cases() {
    let colors = fixed_case();
    let expected = brute_force_solution_set(&colors);
    let got: BTreeSet<u32> = Solver::new(GRID_SIZE, colors)
        .solve_masks_limit(0)
        .into_iter()
        .collect();
    assert_eq!(got, expected);
}

#[test]
fn all_black_is_trivially_easy() {
    let grid = vec![Color::Black.to_u8(); CELL_COUNT];
    let report = difficulty_report(&grid).expect("should have solution");

    assert_eq!(report.stats.decision_points, 0);
    assert_eq!(report.stats.dead_ends, 0);
    assert!(report.difficulty_score > 0);
    assert!(report.difficulty_score < 20);
}

#[test]
fn detects_no_solution() {
    let mut grid = vec![Color::White.to_u8(); CELL_COUNT];
    grid[12] = Color::Blue.to_u8();
    for &i in &[6usize, 7, 8, 11, 13, 16, 17, 18] {
        grid[i] = Color::Black.to_u8();
    }

    let err = difficulty_report(&grid).expect_err("should be unsat");
    assert!(matches!(err, DifficultyError::NoSolution));
}

#[test]
fn logic_chain_start_difficulty_basic() {
    let mut grid = vec![Color::White.to_u8(); CELL_COUNT];
    grid[12] = Color::Blue.to_u8();
    grid[6] = Color::Black.to_u8();
    grid[7] = Color::Black.to_u8();

    let report = difficulty_report(&grid).expect("should have solution");

    assert!(report.stats.first_trigger_rule_counts.len() > 0);
    assert!(report.stats.logic_chain_start_difficulty > 0);
}

#[test]
fn backtrack_distance_basic() {
    let mut grid = vec![Color::White.to_u8(); CELL_COUNT];
    grid[0] = Color::Blue.to_u8();
    grid[1] = Color::Black.to_u8();
    grid[5] = Color::Black.to_u8();
    grid[6] = Color::Black.to_u8();

    if let Ok(report) = difficulty_report(&grid) {
        let avg = if report.stats.backtrack_count == 0 {
            0.0
        } else {
            report.stats.total_backtrack_distance as f64 / report.stats.backtrack_count as f64
        };
        assert!(report.stats.total_backtrack_distance > 0);
        assert!(avg > 0.0);
        assert!(report.stats.max_backtrack_distance > 0);
    }
}

#[test]
fn solution_count_detects_unique_for_all_black() {
    let grid = vec![Color::Black.to_u8(); CELL_COUNT];
    let colors = kairm_engine::parse_colors_5x5(&grid).expect("parse ok");
    let solver = Solver::new(GRID_SIZE, colors);

    let solutions = solver.solve_masks_limit(2);
    assert_eq!(solutions.len(), 1);
}

#[test]
fn solution_count_limit2_reports_multiple_when_possible() {
    let mut grid = vec![Color::White.to_u8(); CELL_COUNT];
    for i in 0..GRID_SIZE {
        grid[i] = Color::Black.to_u8();
    }

    let colors = kairm_engine::parse_colors_5x5(&grid).expect("parse ok");
    let solver = Solver::new(GRID_SIZE, colors);

    let solutions = solver.solve_masks_limit(2);
    assert_eq!(solutions.len(), 2);
}

fn generated_colors(seed: u64) -> Vec<Color> {
    let grid = generate_puzzle(seed, GRID_SIZE).expect("generate ok");
    let flat: Vec<u8> = grid.into_iter().flatten().collect();
    flat.into_iter()
        .map(|v| Color::from_u8(v).expect("valid color"))
        .collect()
}

#[test]
fn hint_does_not_claim_no_solution_for_generated_puzzle() {
    let colors = generated_colors(123);
    let solver = Solver::new(GRID_SIZE, colors);
    let hint = solver.hint_next(0u32);
    assert!(!matches!(hint.status, HintStatus::NoSolution));
}

#[test]
fn hint_uncheck_move_is_actionable() {
    let colors = generated_colors(123);
    let mut black_mask = 0u32;
    for i in 0..CELL_COUNT {
        if colors[i] == Color::Black {
            black_mask |= 1u32 << i;
        }
    }

    let solver = Solver::new(GRID_SIZE, colors);
    let hint = solver.hint_next(black_mask);
    if let Some(mv) = hint.mv.clone() {
        assert!(hint.reason.is_some(), "hint.move exists but hint.reason is None");
        if let Some(reason) = hint.reason.as_ref() {
            assert!(
                reason.affected_cells.contains(&mv.cell),
                "reason.affected_cells should include move cell"
            );
        }
        if matches!(mv.action, HintAction::Uncheck) {
            assert_ne!(
                black_mask & (1u32 << mv.cell),
                0,
                "hint asked to uncheck an unchecked cell: cell={}",
                mv.cell
            );
        }
    }
}
