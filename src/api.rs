use crate::colors::{all_codes_valid, colors_of, first_bad_code, parse_colors, Color};
use crate::difficulty::{difficulty_report, DifficultyError, DifficultyReport};
use crate::generate::{generate_puzzle, GenerateError};
use crate::masks::{CELL_COUNT, GRID_SIZE};
use crate::solver::{
    black_marks, blue_overloaded, completable, counts_solutions, complete_as_is, forced_in, without, keeps, mask_solves, seeded_marks, HintAction, HintReasonKind, HintResult, HintStatus,
    Solver,
};
use crate::state::Mark;
use crate::validate::{grid_side, validate_state, ValidateError, ValidateResult};
use crate::masks::winning_kind;
use crate::rules::{cell_ok, five_possible};
use crate::solver::marks_of;
use crate::masks::marks_of64;
use crate::difficulty::{chain_start, difficulty_score_of, report_board, widened};
use crate::difficulty::distinct_rules_u64;
use crate::rules::decided;
use crate::rules::is_solution;
use crate::solver::non_black_count;
use vstd::prelude::*;

verus! {

/// Why a 5x5 color grid was refused.
#[derive(Debug, Clone, PartialEq, Eq, Structural)]
pub enum GridError {
    BadGridLength { expected: usize, actual: usize },
    BadColor { index: usize, value: u8 },
}

/// How many solutions were found, and whether the search stopped at its limit.
#[derive(Debug, Clone, Copy, PartialEq, Eq, Structural)]
pub struct SolutionCountResult {
    pub count: u32,
    pub truncated: bool,
}

/// The grid-shape errors of a 5x5 grid of codes, or its colors.
pub open spec fn grid_checked(codes: Seq<u8>, r: Result<Vec<Color>, GridError>) -> bool {
    &&& codes.len() != 25 ==> r == Err::<Vec<Color>, GridError>(
        GridError::BadGridLength { expected: 25, actual: codes.len() as usize },
    )
    &&& codes.len() == 25 && !all_codes_valid(codes) ==> exists|i: int|
        first_bad_code(codes, i) && r == Err::<Vec<Color>, GridError>(
            GridError::BadColor { index: i as usize, value: codes[i] },
        )
    &&& r is Ok <==> codes.len() == 25 && all_codes_valid(codes)
    &&& r is Ok ==> r.unwrap()@ == colors_of(codes)
}

/// Decodes a 5x5 grid of color codes, row by row.
pub fn parse_colors_5x5(color_grid: &[u8]) -> (r: Result<Vec<Color>, GridError>)
    ensures
        grid_checked(color_grid@, r),
{
    if color_grid.len() != CELL_COUNT {
        return Err(GridError::BadGridLength { expected: CELL_COUNT, actual: color_grid.len() });
    }
    match parse_colors(color_grid) {
        Ok(c) => Ok(c),
        Err((index, value)) => Err(GridError::BadColor { index, value }),
    }
}

/// The count result of a list of solutions found with `limit` (counts
/// beyond `u32::MAX` are capped).
fn count_result(found: usize, limit: u32) -> (r: SolutionCountResult)
    requires
        limit != 0 ==> found <= limit,
    ensures
        r.count == if found > u32::MAX {
            u32::MAX as usize
        } else {
            found
        },
        r.truncated == (limit != 0 && r.count >= limit),
{
    let count: u32 = if found > 0xffff_ffff {
        0xffff_ffff
    } else {
        found as u32
    };
    SolutionCountResult { count, truncated: limit != 0 && count >= limit }
}

/// Counts the solutions of a 5x5 puzzle, stopping at `limit` (0: no limit).
pub fn solution_count(color_grid: &[u8], limit: u32) -> (r: Result<SolutionCountResult, GridError>)
    ensures
        color_grid@.len() != 25 ==> r == Err::<SolutionCountResult, GridError>(
            GridError::BadGridLength { expected: 25, actual: color_grid@.len() as usize },
        ),
        color_grid@.len() == 25 && !all_codes_valid(color_grid@) ==> exists|i: int|
            first_bad_code(color_grid@, i) && r == Err::<SolutionCountResult, GridError>(
                GridError::BadColor { index: i as usize, value: color_grid@[i] },
            ),
        r is Ok <==> color_grid@.len() == 25 && all_codes_valid(color_grid@),
        r is Ok ==> exists|found: Seq<u32>|
            #[trigger] counts_solutions(5, colors_of(color_grid@), black_marks(colors_of(color_grid@)), limit as int, found)
                && r.unwrap().count == (if found.len() > u32::MAX {
                u32::MAX as int
            } else {
                found.len() as int
            }),
        r is Ok ==> {
            let res = r.unwrap();
            &&& limit != 0 ==> res.count <= limit
            &&& res.truncated == (limit != 0 && res.count >= limit)
            &&& res.count > 0 ==> exists|m: u32| mask_solves(5, colors_of(color_grid@), m)
            &&& blue_overloaded(5, colors_of(color_grid@)) ==> res.count == 0
        },
{
    let colors = match parse_colors_5x5(color_grid) {
        Ok(c) => c,
        Err(e) => {
            return Err(e);
        },
    };
    let solver = Solver::new(GRID_SIZE, colors);
    let found = solver.solve_masks_limit(limit as usize);
    if found.len() > 0 {
        proof {
            assert(mask_solves(5, colors_of(color_grid@), found@[0]));
        }
    }
    proof {
        assert(counts_solutions(5, colors_of(color_grid@), black_marks(colors_of(color_grid@)), limit as int, found@));
    }
    Ok(count_result(found.len(), limit))
}

/// Counts the solutions of a 5x5 puzzle that keep the cells of
/// `checked_mask` checked (the other cells stay open), stopping at `limit`.
pub fn solution_count_with_checked(checked_mask: u32, color_grid: &[u8], limit: u32) -> (r: Result<
    SolutionCountResult,
    GridError,
>)
    ensures
        color_grid@.len() != 25 ==> r == Err::<SolutionCountResult, GridError>(
            GridError::BadGridLength { expected: 25, actual: color_grid@.len() as usize },
        ),
        color_grid@.len() == 25 && !all_codes_valid(color_grid@) ==> exists|i: int|
            first_bad_code(color_grid@, i) && r == Err::<SolutionCountResult, GridError>(
                GridError::BadColor { index: i as usize, value: color_grid@[i] },
            ),
        r is Ok <==> color_grid@.len() == 25 && all_codes_valid(color_grid@),
        r is Ok ==> exists|found: Seq<u32>|
            #[trigger] counts_solutions(5, colors_of(color_grid@), seeded_marks(colors_of(color_grid@), checked_mask), limit as int, found)
                && r.unwrap().count == (if found.len() > u32::MAX {
                u32::MAX as int
            } else {
                found.len() as int
            }),
        r is Ok ==> {
            let res = r.unwrap();
            &&& limit != 0 ==> res.count <= limit
            &&& res.truncated == (limit != 0 && res.count >= limit)
            &&& res.count > 0 ==> exists|m: u32|
                mask_solves(5, colors_of(color_grid@), m) && keeps(25, checked_mask, m)
        },
{
    let colors = match parse_colors_5x5(color_grid) {
        Ok(c) => c,
        Err(e) => {
            return Err(e);
        },
    };
    let solver = Solver::new(GRID_SIZE, colors);
    let found = solver.solve_masks_limit_with_checked_mask(checked_mask, limit as usize);
    if found.len() > 0 {
        proof {
            assert(mask_solves(5, colors_of(color_grid@), found@[0]));
            assert(keeps(25, checked_mask, found@[0]));
        }
    }
    proof {
        assert(counts_solutions(5, colors_of(color_grid@), seeded_marks(colors_of(color_grid@), checked_mask), limit as int, found@));
    }
    Ok(count_result(found.len(), limit))
}

/// The next hint for a 5x5 puzzle (see `Solver::hint_next`).
pub fn hint_next(checked_mask: u32, color_grid: &[u8]) -> (r: Result<HintResult, GridError>)
    ensures
        color_grid@.len() != 25 ==> r == Err::<HintResult, GridError>(
            GridError::BadGridLength { expected: 25, actual: color_grid@.len() as usize },
        ),
        r is Ok <==> color_grid@.len() == 25 && all_codes_valid(color_grid@),
        r is Ok ==> {
            let h = r.unwrap();
            &&& h.mv.is_some() ==> {
                let mv = h.mv.unwrap();
                &&& mv.cell < 25
                &&& h.reason.is_some()
                &&& h.reason.unwrap().affected_cells@ == seq![mv.cell]
                &&& mv.action == HintAction::Uncheck ==> crate::state::bit_set(checked_mask, mv.cell as u32)
                &&& mv.action == HintAction::Check ==> !crate::state::bit_set(checked_mask, mv.cell as u32)
                &&& mv.forced <==> h.status == HintStatus::Forced
                &&& mv.forced ==> forced_in(
                    5,
                    colors_of(color_grid@),
                    seeded_marks(colors_of(color_grid@), checked_mask),
                    mv.cell as int,
                    if mv.action == HintAction::Check {
                        Mark::Checked
                    } else {
                        Mark::Unchecked
                    },
                )
                &&& h.reason.unwrap().kind == HintReasonKind::Suggest ==> exists|sol: u32|
                    mask_solves(5, colors_of(color_grid@), sol) && keeps(
                        25,
                        checked_mask,
                        sol,
                    ) && crate::state::bit_set(sol, mv.cell as u32)
                &&& h.reason.unwrap().kind == HintReasonKind::Repair ==> exists|sol: u32|
                    mask_solves(5, colors_of(color_grid@), sol) && forall|i: u32|
                        i < 25 && i != mv.cell && crate::state::bit_set(
                            checked_mask,
                            i,
                        ) ==> #[trigger] crate::state::bit_set(sol, i)
            }
            &&& h.status == HintStatus::Forced ==> h.mv.is_some() && completable(
                5,
                colors_of(color_grid@),
                checked_mask,
            )
            &&& h.reason.is_some() <==> h.mv.is_some()
            &&& h.status == HintStatus::NoSolution ==> h.mv.is_none() && h.reason.is_none()
            &&& h.status == HintStatus::NoSolution <==> !completable(5, colors_of(color_grid@), checked_mask)
                && forall|c: int|
                0 <= c < 25 && colors_of(color_grid@)[c] != Color::Black
                    && crate::state::bit_set(checked_mask, c as u32) ==> !#[trigger] completable(
                    5,
                    colors_of(color_grid@),
                    without(checked_mask, c),
                )
            &&& completable(5, colors_of(color_grid@), checked_mask) ==> h.status != HintStatus::NoSolution
                && (h.mv.is_none() || h.mv.unwrap().action == HintAction::Check)
            &&& h.mv.is_some() ==> {
                let mv = h.mv.unwrap();
                let kind = h.reason.unwrap().kind;
                &&& mv.action == HintAction::Uncheck <==> kind == HintReasonKind::Repair
                &&& kind == HintReasonKind::Repair ==> h.status == HintStatus::Suggested && !mv.forced
                    && !completable(5, colors_of(color_grid@), checked_mask) && colors_of(color_grid@)[mv.cell as int]
                    != Color::Black && completable(
                    5,
                    colors_of(color_grid@),
                    without(checked_mask, mv.cell as int),
                )
                &&& h.status == HintStatus::Forced ==> mv.action == HintAction::Check && (kind
                    == HintReasonKind::Propagate || kind == HintReasonKind::Contradiction)
                &&& kind == HintReasonKind::Suggest ==> h.status == HintStatus::Suggested && !mv.forced
                    && mv.action == HintAction::Check
            }
            &&& h.mv.is_none() && h.status != HintStatus::NoSolution ==> complete_as_is(
                5,
                colors_of(color_grid@),
                checked_mask,
            )
        },
{
    let colors = match parse_colors_5x5(color_grid) {
        Ok(c) => c,
        Err(e) => {
            return Err(e);
        },
    };
    let solver = Solver::new(GRID_SIZE, colors);
    Ok(solver.hint_next(checked_mask))
}

/// Generates a puzzle of side `size` (1 to 5) from `seed` (see `generate_puzzle`).
pub fn generate_puzzle_grid(seed: u64, size: usize) -> (r: Result<Vec<Vec<u8>>, GenerateError>)
    requires
        1 <= size <= 5,
    ensures
        size < 5 ==> r is Err,
        r is Ok ==> exists|colors: Seq<Color>|
            #[trigger] crate::generate::grid_of(r.unwrap()@, size as int, colors) && exists|m: u32|
                mask_solves(size as int, colors, m),
{
    generate_puzzle(seed, size)
}

/// Checks a decided board (see `validate_state`).
pub fn validate_state_native(checked_mask: u64, color_grid: &[u8]) -> (r: Result<
    ValidateResult,
    ValidateError,
>)
    ensures
        grid_side(color_grid@.len() as int) < 0 ==> r == Err::<ValidateResult, ValidateError>(
            ValidateError::BadGridLength(color_grid@.len() as usize),
        ),
        grid_side(color_grid@.len() as int) >= 0 && !all_codes_valid(color_grid@) ==> exists|i: int|
            first_bad_code(color_grid@, i) && r == Err::<ValidateResult, ValidateError>(
                ValidateError::BadColor { index: i as usize, value: color_grid@[i] },
            ),
        r is Ok ==> {
            let res = r.unwrap();
            let size = grid_side(color_grid@.len() as int);
            let n = color_grid@.len() as int;
            let colors = colors_of(color_grid@);
            let s = marks_of64(n, checked_mask);
            &&& size >= 0
            &&& all_codes_valid(color_grid@)
            &&& res.cell_ok@.len() == n
            &&& res.cell_messages@.len() == n
            &&& forall|i: int| 0 <= i < n ==> #[trigger] res.cell_ok@[i] == cell_ok(size, colors, s, i)
            &&& forall|i: int| 0 <= i < n ==> (res.cell_messages@[i] is None <==> #[trigger] res.cell_ok@[i])
            &&& res.is_valid == forall|i: int| 0 <= i < n ==> #[trigger] cell_ok(size, colors, s, i)
            &&& res.is_bingo == five_possible(size, s)
        },
        r is Ok <==> grid_side(color_grid@.len() as int) >= 0 && all_codes_valid(color_grid@),
{
    validate_state(checked_mask, color_grid)
}

/// Rates a 5x5 puzzle (see `difficulty_report`).
pub fn difficulty_report_native(color_grid: &[u8]) -> (r: Result<DifficultyReport, DifficultyError>)
    ensures
        color_grid@.len() != 25 ==> r == Err::<DifficultyReport, DifficultyError>(
            DifficultyError::BadGridLength { expected: 25, actual: color_grid@.len() as usize },
        ),
        color_grid@.len() == 25 && !all_codes_valid(color_grid@) ==> exists|i: int|
            first_bad_code(color_grid@, i) && r == Err::<DifficultyReport, DifficultyError>(
                DifficultyError::BadColor { index: i as usize, value: color_grid@[i] },
            ),
        color_grid@.len() == 25 && all_codes_valid(color_grid@) && blue_overloaded(
            5,
            colors_of(color_grid@),
        ) ==> r == Err::<DifficultyReport, DifficultyError>(DifficultyError::NoSolution),
        color_grid@.len() == 25 && all_codes_valid(color_grid@) ==> r is Ok || r
            == Err::<DifficultyReport, DifficultyError>(DifficultyError::NoSolution),
        color_grid@.len() == 25 && all_codes_valid(color_grid@) ==> (r is Ok <==> exists|sol: Seq<Mark>|
            #[trigger] is_solution(5, colors_of(color_grid@), sol)),
        r is Ok ==> {
            let rep = r.unwrap();
            &&& rep.stats.human.variable_cells == non_black_count(colors_of(color_grid@))
            &&& rep.stats.logic_chain_start_difficulty == chain_start(
                widened(rep.stats.human.logic_first_trigger_counts@),
            )
            &&& rep.stats.first_trigger_rule_counts@.len() == distinct_rules_u64(
                widened(rep.stats.human.logic_first_trigger_counts@),
                8,
            )
            &&& decided(black_marks(colors_of(color_grid@))) ==> rep.stats.decision_points == 0
                && rep.stats.dead_ends == 0
            &&& exists|b: Seq<Mark>| #[trigger] report_board(colors_of(color_grid@), rep.stats.human, b)
            &&& color_grid@.len() == 25
            &&& all_codes_valid(color_grid@)
            &&& exists|m: u32| mask_solves(5, colors_of(color_grid@), m)
            &&& rep.difficulty_score == difficulty_score_of(rep.stats.human)
            &&& 1 <= rep.difficulty_score <= 100
        },
{
    difficulty_report(color_grid)
}

} // verus!
