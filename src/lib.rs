//! Rules engine for a grid logic puzzle: every cell has a color that
//! constrains whether it is checked, and a solution must also hold a straight
//! run of five checked cells.
//!
//! Cell ids are row-major (`row * size + col`); in a mask, bit `i` stands for
//! cell `i`.

pub mod api;
pub mod colors;
pub mod date_seed;
pub mod difficulty;
pub mod generate;
pub mod masks;
pub mod rules;
pub mod solver;
pub mod state;
mod text;
pub mod validate;

pub use api::{
    difficulty_report_native, generate_puzzle_grid, hint_next, parse_colors_5x5, solution_count,
    solution_count_with_checked, validate_state_native, GridError, SolutionCountResult,
};
pub use colors::{Color, COLOR_COUNT};
pub use date_seed::{date_to_seed_ymd, DateSeedError};
pub use difficulty::{
    difficulty_report, DifficultyError, DifficultyReport, DifficultyStats, HumanDifficultyStats,
};
pub use generate::{generate_puzzle, GenerateError};
pub use masks::{cell_bit, cell_index, BoardMasks, Mask, CELL_COUNT, GRID_SIZE};
pub use solver::{
    HintAction, HintMove, HintReason, HintReasonKind, HintResult, HintStatus, SolveStats, Solver,
};
pub use state::{Mark, SolverState};
pub use validate::{validate_state, ValidateError, ValidateResult};
