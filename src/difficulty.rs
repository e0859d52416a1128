use crate::colors::{all_codes_valid, colors_of, first_bad_code, parse_colors, Color};
use crate::masks::{CELL_COUNT, GRID_SIZE};
use crate::solver::{
    black_marks, cell_settled, final_board, five_checked, settled, search_counts_kept, lemma_solution_extends_blacks, marks_of, non_black_count,
    blue_overloaded, mask_solves, rule_index, HumanDifficultyAnalysis, RuleType, SolveStats, Solver,
};
use crate::rules::{decided, five_possible, is_solution, segment_avoids, segment_cell, segment_fits};
use crate::state::{extends, Mark};
use vstd::prelude::*;
use vstd::string::StringExecFns;

verus! {

/// Why no difficulty could be reported.
#[derive(Debug, Clone, PartialEq, Eq, Structural)]
pub enum DifficultyError {
    BadGridLength { expected: usize, actual: usize },
    BadColor { index: usize, value: u8 },
    NoSolution,
}

/// The reasoning simulation's observations, as reported (counts capped at
/// `u32::MAX`).
#[derive(Debug, Clone)]
pub struct HumanDifficultyStats {
    pub solved: bool,
    pub exhausted_budget: bool,
    pub variable_cells: u32,
    pub initial_unknown_after_logic: u32,
    pub bingo_segments_total: u32,
    pub bingo_segments_possible: u32,
    pub bingo_segments_guaranteed: u32,
    pub logic_propagate_rounds: u32,
    pub logic_assignments_propagated: u32,
    pub logic_bursts: u32,
    pub max_logic_burst_size: u32,
    /// Times each rule changed the board on the main line, by rule slot
    /// (Green, Yellow, Red, Blue, Purple, Orange, Cyan, FiveInRow).
    pub logic_rule_trigger_counts: Vec<u32>,
    /// Times each rule was the first of its round to change the board.
    pub logic_first_trigger_counts: Vec<u32>,
    pub contradiction_propagate_rounds: u32,
    pub contradiction_assignments_propagated: u32,
    pub forced_by_contradiction: u32,
    pub contradiction_entry_total_assumptions: u32,
    pub contradiction_entry_candidate_assumptions: u32,
    /// Scarcity of contradiction entry points, in half-bits.
    pub contradiction_entry_scarcity_sum: u32,
    pub contradiction_entry_scarcity_max: u32,
    pub guesses: u32,
    pub max_guess_depth: u32,
}

/// Search statistics and the reasoning simulation behind a score.
#[derive(Debug, Clone)]
pub struct DifficultyStats {
    pub node_visits: u32,
    pub decision_points: u32,
    pub branch_attempts: u32,
    pub dead_ends: u32,
    pub solutions: u32,
    pub propagate_rounds: u32,
    pub assignments_initial: u32,
    pub assignments_guess: u32,
    pub assignments_propagated: u32,
    pub max_depth: u32,
    /// The rules that opened a round of reasoning, by name, with how often.
    pub first_trigger_rule_counts: Vec<(String, u32)>,
    /// Average weight of the rules that opened a round of reasoning.
    pub logic_chain_start_difficulty: u32,
    /// Dead ends met after a decision point, and their distances from it.
    pub backtrack_count: u32,
    pub max_backtrack_distance: u32,
    pub total_backtrack_distance: u32,
    pub human: HumanDifficultyStats,
}

/// A difficulty score (1 to 100) and what it was computed from.
#[derive(Debug, Clone)]
pub struct DifficultyReport {
    pub difficulty_score: u32,
    pub stats: DifficultyStats,
}

/// How hard each rule feels to a human, from 2 (red) to 7 (purple, orange).
pub open spec fn rule_weight(rule: RuleType) -> int {
    match rule {
        RuleType::Red => 2,
        RuleType::Blue => 3,
        RuleType::Cyan => 4,
        RuleType::Green => 5,
        RuleType::Yellow => 6,
        RuleType::Purple => 7,
        RuleType::Orange => 7,
        RuleType::FiveInRow => 5,
    }
}

/// The weight of the rule in slot `k`.
pub open spec fn slot_weight(k: int) -> int {
    if k == 0 {
        5
    } else if k == 1 {
        6
    } else if k == 2 {
        2
    } else if k == 3 {
        3
    } else if k == 4 {
        7
    } else if k == 5 {
        7
    } else if k == 6 {
        4
    } else {
        5
    }
}

/// How hard a rule feels to a human.
pub fn human_rule_weight(rule: RuleType) -> (r: u32)
    ensures
        r == rule_weight(rule),
        r == slot_weight(rule_index(rule)),
{
    match rule {
        RuleType::Red => 2,
        RuleType::Blue => 3,
        RuleType::Cyan => 4,
        RuleType::Green => 5,
        RuleType::Yellow => 6,
        RuleType::Purple => 7,
        RuleType::Orange => 7,
        RuleType::FiveInRow => 5,
    }
}

/// The rule of each slot.
fn slot_rule(k: usize) -> (r: RuleType)
    requires
        k < 8,
    ensures
        rule_index(r) == k,
{
    if k == 0 {
        RuleType::Green
    } else if k == 1 {
        RuleType::Yellow
    } else if k == 2 {
        RuleType::Red
    } else if k == 3 {
        RuleType::Blue
    } else if k == 4 {
        RuleType::Purple
    } else if k == 5 {
        RuleType::Orange
    } else if k == 6 {
        RuleType::Cyan
    } else {
        RuleType::FiveInRow
    }
}

/// The name of a rule.
pub open spec fn rule_name(rule: RuleType) -> Seq<char> {
    match rule {
        RuleType::Green => "Green"@,
        RuleType::Yellow => "Yellow"@,
        RuleType::Red => "Red"@,
        RuleType::Blue => "Blue"@,
        RuleType::Purple => "Purple"@,
        RuleType::Orange => "Orange"@,
        RuleType::Cyan => "Cyan"@,
        RuleType::FiveInRow => "FiveInRow"@,
    }
}

/// The name of a rule.
pub fn rule_type_to_string(rule_type: RuleType) -> (r: String)
    ensures
        r@ == rule_name(rule_type),
{
    match rule_type {
        RuleType::Green => String::from_str("Green"),
        RuleType::Yellow => String::from_str("Yellow"),
        RuleType::Red => String::from_str("Red"),
        RuleType::Blue => String::from_str("Blue"),
        RuleType::Purple => String::from_str("Purple"),
        RuleType::Orange => String::from_str("Orange"),
        RuleType::Cyan => String::from_str("Cyan"),
        RuleType::FiveInRow => String::from_str("FiveInRow"),
    }
}

/// Sum over the first `k` slots of count times weight.
pub open spec fn weighted_upto(c: Seq<u64>, k: int) -> int
    decreases k,
{
    if k <= 0 {
        0
    } else {
        weighted_upto(c, k - 1) + c[k - 1] * slot_weight(k - 1)
    }
}

/// Sum of the first `k` counts.
pub open spec fn total_upto(c: Seq<u64>, k: int) -> int
    decreases k,
{
    if k <= 0 {
        0
    } else {
        total_upto(c, k - 1) + c[k - 1]
    }
}

/// Average weight of the rules that opened a round of reasoning, weighted by
/// how often each did; 0 when none did.
pub fn calculate_logic_chain_start_difficulty(first_trigger_counts: &Vec<u64>) -> (r: u32)
    requires
        first_trigger_counts@.len() == 8,
    ensures
        total_upto(first_trigger_counts@, 8) >= 0,
        total_upto(first_trigger_counts@, 8) == 0 ==> r == 0,
        total_upto(first_trigger_counts@, 8) > 0 ==> r == if weighted_upto(first_trigger_counts@, 8)
            / total_upto(first_trigger_counts@, 8) > u32::MAX {
            u32::MAX as int
        } else {
            weighted_upto(first_trigger_counts@, 8) / total_upto(first_trigger_counts@, 8)
        },
{
    let c = first_trigger_counts;
    let mut total: u128 = 0;
    let mut weighted: u128 = 0;
    let mut k: usize = 0;
    while k < 8
        invariant
            c@.len() == 8,
            k <= 8,
            total == total_upto(c@, k as int),
            weighted == weighted_upto(c@, k as int),
            total <= k * 0x1_0000_0000_0000_0000,
            weighted <= k * 8 * 0x1_0000_0000_0000_0000,
        decreases 8 - k,
    {
        let w = human_rule_weight(slot_rule(k));
        proof {
            assert(c@[k as int] as int * w as int <= 8 * 0x1_0000_0000_0000_0000) by (nonlinear_arith)
                requires
                    w <= 7,
                    c@[k as int] < 0x1_0000_0000_0000_0000,
            ;
        }
        total = total + c[k] as u128;
        weighted = weighted + c[k] as u128 * w as u128;
        k = k + 1;
    }
    if total == 0 {
        return 0;
    }
    let avg = weighted / total;
    if avg > 0xffff_ffff {
        0xffff_ffff
    } else {
        avg as u32
    }
}

/// Largest `r` with `r * r <= x`.
pub open spec fn isqrt(x: nat) -> nat
    decreases x,
{
    if x == 0 {
        0
    } else {
        let r = isqrt((x - 1) as nat);
        if (r + 1) * (r + 1) <= x {
            r + 1
        } else {
            r
        }
    }
}

/// `isqrt(x)` is the integer square root.
pub proof fn lemma_isqrt(x: nat)
    ensures
        isqrt(x) * isqrt(x) <= x < (isqrt(x) + 1) * (isqrt(x) + 1),
    decreases x,
{
    if x > 0 {
        lemma_isqrt((x - 1) as nat);
        let r = isqrt((x - 1) as nat);
        let s = isqrt(x);
        if (r + 1) * (r + 1) <= x {
            assert(s == r + 1);
            assert(s * s <= x < (s + 1) * (s + 1)) by (nonlinear_arith)
                requires
                    s == r + 1,
                    (r + 1) * (r + 1) <= x,
                    x - 1 < (r + 1) * (r + 1),
            ;
        } else {
            assert(s == r);
            assert(s * s <= x);
            assert(x < (s + 1) * (s + 1));
        }
        assert(s * s <= x);
        assert(x < (s + 1) * (s + 1));
    } else {
        assert(isqrt(x) == 0);
        assert(isqrt(x) * isqrt(x) == 0);
        assert((0nat + 1) * (0nat + 1) == 1nat) by (nonlinear_arith);
    }
}

/// The integer square root is the only one.
proof fn lemma_isqrt_unique(x: nat, r: nat)
    requires
        r * r <= x < (r + 1) * (r + 1),
    ensures
        r == isqrt(x),
{
    lemma_isqrt(x);
    let s = isqrt(x);
    if r < s {
        assert((r + 1) * (r + 1) <= s * s) by (nonlinear_arith)
            requires
                r + 1 <= s,
        ;
    } else if s < r {
        assert((s + 1) * (s + 1) <= r * r) by (nonlinear_arith)
            requires
                s + 1 <= r,
        ;
    }
}

/// Integer square root.
fn int_sqrt(x: u64) -> (r: u64)
    ensures
        r == isqrt(x as nat),
        r <= 0xffff_ffff,
{
    let mut r: u64 = 0;
    loop
        invariant
            r * r <= x,
            r <= 0xffff_ffff,
        ensures
            r * r <= x < (r + 1) * (r + 1),
            r <= 0xffff_ffff,
        decreases x - r * r,
    {
        let next: u128 = r as u128 + 1;
        proof {
            assert(next * next <= 0x1_0000_0000_0000_0000) by (nonlinear_arith)
                requires
                    next <= 0x1_0000_0000,
            ;
        }
        let sq: u128 = next * next;
        if sq > x as u128 {
            break;
        }
        proof {
            assert((r + 1) * (r + 1) > r * r) by (nonlinear_arith);
            assert(r + 1 <= 0xffff_ffff) by (nonlinear_arith)
                requires
                    (r + 1) * (r + 1) <= x,
                    x <= 0xffff_ffff_ffff_ffff,
            ;
        }
        r = r + 1;
    }
    proof {
        lemma_isqrt_unique(x as nat, r as nat);
    }
    r
}

/// Sum over the first `k` slots of count times weight (report counts).
pub open spec fn weighted_counts(c: Seq<u32>, k: int) -> int
    decreases k,
{
    if k <= 0 {
        0
    } else {
        weighted_counts(c, k - 1) + c[k - 1] * slot_weight(k - 1)
    }
}

/// Rules among the first `k` slots that triggered at all.
pub open spec fn distinct_rules(c: Seq<u32>, k: int) -> int
    decreases k,
{
    if k <= 0 {
        0
    } else {
        distinct_rules(c, k - 1) + if c[k - 1] > 0 {
            1int
        } else {
            0int
        }
    }
}

/// Largest weight among the first `k` slots that triggered (0 if none).
pub open spec fn max_rule_weight(c: Seq<u32>, k: int) -> int
    decreases k,
{
    if k <= 0 {
        0
    } else {
        let m = max_rule_weight(c, k - 1);
        if c[k - 1] > 0 && slot_weight(k - 1) > m {
            slot_weight(k - 1)
        } else {
            m
        }
    }
}

/// `x` capped at `cap`.
pub open spec fn cap(x: int, cap: int) -> int {
    if x > cap {
        cap
    } else {
        x
    }
}

/// Propagation volume, rounds and rule mix, in tenths of a point.
pub open spec fn logic_tenths(h: HumanDifficultyStats) -> int {
    let c = h.logic_rule_trigger_counts@;
    let rounds = if h.logic_propagate_rounds > 0 {
        h.logic_propagate_rounds - 1
    } else {
        0
    };
    12 * h.logic_assignments_propagated + 8 * rounds + 9 * isqrt(weighted_counts(c, 8) as nat) + 20
        * distinct_rules(c, 8) + 15 * max_rule_weight(c, 8)
}

/// Tightness of the five-in-a-row goal, in tenths of a point (at most 20 points).
pub open spec fn bingo_tenths(h: HumanDifficultyStats) -> int {
    if h.bingo_segments_total == 0 || h.bingo_segments_possible > h.bingo_segments_total {
        0
    } else {
        200 * (h.bingo_segments_total - h.bingo_segments_possible) / (h.bingo_segments_total as int)
    }
}

/// Effort of the proofs by contradiction, in tenths of a point (at most 20 points).
pub open spec fn contradiction_tenths(h: HumanDifficultyStats) -> int {
    let work = h.contradiction_assignments_propagated + h.contradiction_propagate_rounds;
    cap(40 * h.forced_by_contradiction + 16 * isqrt(work as nat), 200)
}

/// Scarcity of entry points, bursts and guesses, in tenths of a point.
pub open spec fn rhythm_tenths(h: HumanDifficultyStats) -> int {
    let gap = cap(10 * h.contradiction_entry_scarcity_sum, 200);
    let burst = if h.logic_bursts > 0 {
        cap(15 * (h.logic_bursts - 1), 100)
    } else {
        0
    };
    let guess = if h.guesses == 0 {
        0
    } else {
        cap(250 + 180 * (h.guesses - 1), 600)
    };
    gap + burst + guess
}

/// The score's components, in tenths of a point.
pub open spec fn score_tenths(h: HumanDifficultyStats) -> int {
    10 + logic_tenths(h) + bingo_tenths(h) + contradiction_tenths(h) + rhythm_tenths(h)
}

/// The difficulty score: 100 when the analysis ran out of budget, else the
/// components rounded to whole points and kept within 1 to 100.
pub open spec fn difficulty_score_of(h: HumanDifficultyStats) -> int {
    if h.exhausted_budget {
        100
    } else {
        let s = (score_tenths(h) + 5) / 10;
        if s < 1 {
            1
        } else if s > 100 {
            100
        } else {
            s
        }
    }
}

/// The weighted sum, the number of distinct rules and the largest weight of
/// a table of per-rule counts.
fn rule_terms(c: &Vec<u32>) -> (r: (u64, u64, u64))
    requires
        c@.len() == 8,
    ensures
        r.0 == weighted_counts(c@, 8),
        r.1 == distinct_rules(c@, 8),
        r.2 == max_rule_weight(c@, 8),
        r.0 <= 56 * 0xffff_ffff,
        r.1 <= 8,
        r.2 <= 7,
{
    let mut weighted: u64 = 0;
    let mut distinct: u64 = 0;
    let mut max_w: u64 = 0;
    let mut k: usize = 0;
    while k < 8
        invariant
            c@.len() == 8,
            k <= 8,
            weighted == weighted_counts(c@, k as int),
            distinct == distinct_rules(c@, k as int),
            max_w == max_rule_weight(c@, k as int),
            weighted <= k * 7 * 0xffff_ffff,
            distinct <= k,
            max_w <= 7,
        decreases 8 - k,
    {
        let w = human_rule_weight(slot_rule(k)) as u64;
        let n = c[k] as u64;
        proof {
            assert(n * w <= 7 * 0xffff_ffff) by (nonlinear_arith)
                requires
                    w <= 7,
                    n <= 0xffff_ffff,
            ;
        }
        weighted = weighted + n * w;
        if n > 0 {
            distinct = distinct + 1;
            if w > max_w {
                max_w = w;
            }
        }
        k = k + 1;
    }
    (weighted, distinct, max_w)
}

/// Propagation volume, rounds and rule mix, in tenths of a point.
fn logic_part(h: &HumanDifficultyStats) -> (r: u64)
    requires
        h.logic_rule_trigger_counts@.len() == 8,
    ensures
        r == logic_tenths(*h),
        r <= 0x10_0000_0000_0000,
{
    let (weighted, distinct, max_w) = rule_terms(&h.logic_rule_trigger_counts);
    let rounds: u64 = if h.logic_propagate_rounds > 0 {
        h.logic_propagate_rounds as u64 - 1
    } else {
        0
    };
    12 * h.logic_assignments_propagated as u64 + 8 * rounds + 9 * int_sqrt(weighted) + 20 * distinct
        + 15 * max_w
}

/// Tightness of the five-in-a-row goal, in tenths of a point.
fn bingo_part(h: &HumanDifficultyStats) -> (r: u64)
    ensures
        r == bingo_tenths(*h),
        r <= 200,
{
    if h.bingo_segments_total == 0 || h.bingo_segments_possible > h.bingo_segments_total {
        0
    } else {
        let t = h.bingo_segments_total as u64;
        let missing = (h.bingo_segments_total - h.bingo_segments_possible) as u64;
        proof {
            assert(200 * (missing as int) / (t as int) <= 200) by (nonlinear_arith)
                requires
                    missing <= t,
                    t > 0,
            ;
        }
        200 * missing / t
    }
}

/// Effort of the proofs by contradiction, in tenths of a point.
fn contradiction_part(h: &HumanDifficultyStats) -> (r: u64)
    ensures
        r == contradiction_tenths(*h),
        r <= 200,
{
    let work: u64 = h.contradiction_assignments_propagated as u64 + h.contradiction_propagate_rounds as u64;
    let raw: u64 = 40 * h.forced_by_contradiction as u64 + 16 * int_sqrt(work);
    if raw > 200 {
        200
    } else {
        raw
    }
}

/// Scarcity of entry points, bursts and guesses, in tenths of a point.
fn rhythm_part(h: &HumanDifficultyStats) -> (r: u64)
    ensures
        r == rhythm_tenths(*h),
        r <= 900,
{
    let gap_raw: u64 = 10 * h.contradiction_entry_scarcity_sum as u64;
    let gap: u64 = if gap_raw > 200 {
        200
    } else {
        gap_raw
    };
    let burst: u64 = if h.logic_bursts > 0 {
        let b = 15 * (h.logic_bursts as u64 - 1);
        if b > 100 {
            100
        } else {
            b
        }
    } else {
        0
    };
    let guess: u64 = if h.guesses == 0 {
        0
    } else {
        let g = 250 + 180 * (h.guesses as u64 - 1);
        if g > 600 {
            600
        } else {
            g
        }
    };
    gap + burst + guess
}

/// The difficulty score of a reasoning simulation (see `difficulty_score_of`).
pub fn difficulty_score_human(h: &HumanDifficultyStats) -> (r: u32)
    requires
        h.logic_rule_trigger_counts@.len() == 8,
    ensures
        r == difficulty_score_of(*h),
        1 <= r <= 100,
{
    if h.exhausted_budget {
        return 100;
    }
    let total: u64 = 10 + logic_part(h) + bingo_part(h) + contradiction_part(h) + rhythm_part(h);
    let s = (total + 5) / 10;
    if s < 1 {
        1
    } else if s > 100 {
        100
    } else {
        s as u32
    }
}

/// `x` as a `u32`, capped.
fn cap_u32(x: u64) -> (r: u32)
    ensures
        r == cap(x as int, u32::MAX as int),
{
    if x > 0xffff_ffff {
        0xffff_ffff
    } else {
        x as u32
    }
}

/// The per-slot counts, capped to `u32`.
fn capped_counts(c: &Vec<u64>) -> (r: Vec<u32>)
    ensures
        r@.len() == c@.len(),
{
    let mut out: Vec<u32> = Vec::new();
    let mut k: usize = 0;
    while k < c.len()
        invariant
            k <= c@.len(),
            out@.len() == k,
        decreases c@.len() - k,
    {
        out.push(cap_u32(c[k]));
        k = k + 1;
    }
    out
}

/// The reported form of a reasoning simulation.
fn human_stats(h: &HumanDifficultyAnalysis) -> (r: HumanDifficultyStats)
    requires
        h.wf(),
    ensures
        r.logic_rule_trigger_counts@.len() == 8,
        r.logic_first_trigger_counts@.len() == 8,
        r.exhausted_budget == h.exhausted_budget,
        r.solved == h.solved,
        r.variable_cells == h.variable_cells,
        r.bingo_segments_total == h.bingo_segments_total,
        r.bingo_segments_possible == h.bingo_segments_possible,
        r.bingo_segments_guaranteed == h.bingo_segments_guaranteed,
        r.forced_by_contradiction == h.forced_by_contradiction,
{
    HumanDifficultyStats {
        solved: h.solved,
        exhausted_budget: h.exhausted_budget,
        variable_cells: h.variable_cells,
        initial_unknown_after_logic: h.initial_unknown_after_logic,
        bingo_segments_total: h.bingo_segments_total,
        bingo_segments_possible: h.bingo_segments_possible,
        bingo_segments_guaranteed: h.bingo_segments_guaranteed,
        logic_propagate_rounds: cap_u32(h.logic_propagate_rounds),
        logic_assignments_propagated: cap_u32(h.logic_assignments_propagated),
        logic_bursts: h.logic_bursts,
        max_logic_burst_size: h.max_logic_burst_size,
        logic_rule_trigger_counts: capped_counts(&h.logic_rule_trigger_counts),
        logic_first_trigger_counts: capped_counts(&h.logic_first_trigger_counts),
        contradiction_propagate_rounds: cap_u32(h.contradiction_propagate_rounds),
        contradiction_assignments_propagated: cap_u32(h.contradiction_assignments_propagated),
        forced_by_contradiction: h.forced_by_contradiction,
        contradiction_entry_total_assumptions: h.contradiction_entry_total_assumptions,
        contradiction_entry_candidate_assumptions: h.contradiction_entry_candidate_assumptions,
        contradiction_entry_scarcity_sum: h.contradiction_entry_scarcity_sum,
        contradiction_entry_scarcity_max: h.contradiction_entry_scarcity_max,
        guesses: h.guesses,
        max_guess_depth: h.max_guess_depth,
    }
}

/// The reported counts read back as `u64`.
pub open spec fn widened(c: Seq<u32>) -> Seq<u64> {
    Seq::new(c.len(), |k: int| c[k] as u64)
}

/// The average rule weight of `logic_chain_start_difficulty`, over counts `c`.
pub open spec fn chain_start(c: Seq<u64>) -> int {
    if total_upto(c, 8) == 0 {
        0
    } else if weighted_upto(c, 8) / total_upto(c, 8) > u32::MAX {
        u32::MAX as int
    } else {
        weighted_upto(c, 8) / total_upto(c, 8)
    }
}

/// The counts as `u64`.
fn widen_counts(c: &Vec<u32>) -> (r: Vec<u64>)
    ensures
        r@ == widened(c@),
{
    let mut out: Vec<u64> = Vec::new();
    let mut k: usize = 0;
    while k < c.len()
        invariant
            k <= c@.len(),
            out@ == widened(c@).subrange(0, k as int),
        decreases c@.len() - k,
    {
        out.push(c[k] as u64);
        k = k + 1;
    }
    assert(out@ =~= widened(c@));
    out
}

/// A board whose every cell is black is settled.
pub proof fn lemma_all_black_settled(colors: Seq<Color>)
    requires
        colors.len() == 25,
        decided(black_marks(colors)),
    ensures
        settled(5, colors, black_marks(colors)),
{
    let b = black_marks(colors);
    assert forall|i: int| 0 <= i < 25 implies #[trigger] cell_settled(5, colors, b, i) by {
        assert(b[i] != Mark::Unknown);
        assert(colors[i] == Color::Black);
    }
    assert forall|k: int| 0 <= k < 5 implies b[#[trigger] segment_cell(5, 0, 0, 0, k)] != Mark::Unchecked by {
        assert(segment_cell(5, 0, 0, 0, k) == k);
        assert(b[k] != Mark::Unknown);
    }
    assert(segment_fits(5, 0, 0, 0));
    assert(segment_avoids(5, b, 0, 0, 0, Mark::Unchecked));
}

/// The rules with a nonzero count, by name, in slot order.
fn named_counts(c: &Vec<u64>) -> (r: Vec<(String, u32)>)
    requires
        c@.len() == 8,
    ensures
        r@.len() == distinct_rules_u64(c@, 8),
{
    let mut out: Vec<(String, u32)> = Vec::new();
    let mut k: usize = 0;
    while k < 8
        invariant
            c@.len() == 8,
            k <= 8,
            out@.len() == distinct_rules_u64(c@, k as int),
        decreases 8 - k,
    {
        if c[k] > 0 {
            out.push((rule_type_to_string(slot_rule(k)), cap_u32(c[k])));
        }
        k = k + 1;
    }
    out
}

/// Slots among the first `k` with a nonzero count.
pub open spec fn distinct_rules_u64(c: Seq<u64>, k: int) -> int
    decreases k,
{
    if k <= 0 {
        0
    } else {
        distinct_rules_u64(c, k - 1) + if c[k - 1] > 0 {
            1int
        } else {
            0int
        }
    }
}

/// `b` is the board the reported reasoning simulation ended on: it keeps the
/// black cells, every solution extends it, it is decided when the puzzle is
/// reported solved, and the bingo statistics describe it.
pub open spec fn report_board(colors: Seq<Color>, h: HumanDifficultyStats, b: Seq<Mark>) -> bool {
    &&& b.len() == 25
    &&& extends(black_marks(colors), b)
    &&& forall|sol: Seq<Mark>| #[trigger] is_solution(5, colors, sol) ==> extends(b, sol)
    &&& h.solved ==> decided(b)
    &&& (h.bingo_segments_possible > 0 <==> five_possible(5, b))
    &&& (h.bingo_segments_guaranteed > 0 <==> five_checked(5, b))
    &&& h.bingo_segments_guaranteed <= h.bingo_segments_possible <= h.bingo_segments_total
}

/// Rates a 5x5 puzzle given as 25 color codes, row by row: errors on a grid
/// of another length, on the first code that is no color, and on a puzzle
/// without solution; else a score from 1 to 100 with its statistics.
#[verifier::rlimit(60)]
pub fn difficulty_report(color_grid: &[u8]) -> (r: Result<DifficultyReport, DifficultyError>)
    ensures
        color_grid@.len() != 25 ==> r == Err::<DifficultyReport, DifficultyError>(
            DifficultyError::BadGridLength { expected: 25, actual: color_grid@.len() as usize },
        ),
        color_grid@.len() == 25 && !all_codes_valid(color_grid@) ==> exists|i: int|
            first_bad_code(color_grid@, i) && r == Err::<DifficultyReport, DifficultyError>(
                DifficultyError::BadColor { index: i as usize, value: color_grid@[i] },
            ),
        color_grid@.len() == 25 && all_codes_valid(color_grid@) && blue_overloaded(
            5,
            colors_of(color_grid@),
        ) ==> r == Err::<DifficultyReport, DifficultyError>(DifficultyError::NoSolution),
        color_grid@.len() == 25 && all_codes_valid(color_grid@) ==> r is Ok || r
            == Err::<DifficultyReport, DifficultyError>(DifficultyError::NoSolution),
        color_grid@.len() == 25 && all_codes_valid(color_grid@) ==> (r is Ok <==> exists|sol: Seq<Mark>|
            #[trigger] is_solution(5, colors_of(color_grid@), sol)),
        r is Ok ==> {
            let rep = r.unwrap();
            &&& rep.stats.human.variable_cells == non_black_count(colors_of(color_grid@))
            &&& rep.stats.logic_chain_start_difficulty == chain_start(
                widened(rep.stats.human.logic_first_trigger_counts@),
            )
            &&& rep.stats.first_trigger_rule_counts@.len() == distinct_rules_u64(
                widened(rep.stats.human.logic_first_trigger_counts@),
                8,
            )
            &&& decided(black_marks(colors_of(color_grid@))) ==> rep.stats.decision_points == 0
                && rep.stats.dead_ends == 0
            &&& exists|b: Seq<Mark>| #[trigger] report_board(colors_of(color_grid@), rep.stats.human, b)
            &&& color_grid@.len() == 25
            &&& all_codes_valid(color_grid@)
            &&& exists|m: u32| mask_solves(5, colors_of(color_grid@), m)
            &&& rep.difficulty_score == difficulty_score_of(rep.stats.human)
            &&& 1 <= rep.difficulty_score <= 100
        },
{
    if color_grid.len() != CELL_COUNT {
        return Err(DifficultyError::BadGridLength { expected: CELL_COUNT, actual: color_grid.len() });
    }
    let colors = match parse_colors(color_grid) {
        Ok(c) => c,
        Err((index, value)) => {
            return Err(DifficultyError::BadColor { index, value });
        },
    };
    let solver = Solver::new(GRID_SIZE, colors);
    let human = solver.analyze_human_difficulty();
    let mut stats = SolveStats::new();
    proof {
        if decided(black_marks(colors_of(color_grid@))) {
            lemma_all_black_settled(colors_of(color_grid@));
        }
    }
    let solutions = solver.solve_masks_limit_with_stats(1, &mut stats);
    if solutions.len() == 0 {
        proof {
            assert forall|sol: Seq<Mark>| #[trigger] is_solution(5, colors_of(color_grid@), sol) implies false by {
                lemma_solution_extends_blacks(5, colors_of(color_grid@), sol);
            }
        }
        return Err(DifficultyError::NoSolution);
    }
    proof {
        assert(mask_solves(5, colors_of(color_grid@), solutions@[0]));
        assert(is_solution(5, colors_of(color_grid@), marks_of(25, solutions@[0])));
    }
    let human_report = human_stats(&human);
    let ghost reported = human_report;
    proof {
        assert(solver.side() == 5 && solver.colors() == colors_of(color_grid@));
        assert(exists|b: Seq<Mark>| #[trigger] final_board(solver.side(), solver.colors(), human, b));
        let b = choose|b: Seq<Mark>| #[trigger] final_board(solver.side(), solver.colors(), human, b);
        assert(report_board(colors_of(color_grid@), human_report, b));
        assert(exists|b: Seq<Mark>| #[trigger] report_board(colors_of(color_grid@), human_report, b));
        assert(human_report.variable_cells == non_black_count(colors_of(color_grid@)));
        assert(report_board(colors_of(color_grid@), human_report, b));
    }
    let difficulty_score = difficulty_score_human(&human_report);
    let first_counts = widen_counts(&human_report.logic_first_trigger_counts);
    let logic_chain_start_difficulty = calculate_logic_chain_start_difficulty(&first_counts);
    let first_trigger_rule_counts = named_counts(&first_counts);
    let mut total_backtrack: u32 = 0;
    let mut max_backtrack: u32 = 0;
    let mut k: usize = 0;
    while k < stats.backtrack_distances.len()
        invariant
            k <= stats.backtrack_distances@.len(),
        decreases stats.backtrack_distances@.len() - k,
    {
        let d = stats.backtrack_distances[k];
        total_backtrack = total_backtrack.saturating_add(d);
        if d > max_backtrack {
            max_backtrack = d;
        }
        k = k + 1;
    }
    let backtrack_count = cap_u32(stats.backtrack_distances.len() as u64);
    let rep = DifficultyReport {
            difficulty_score,
            stats: DifficultyStats {
                node_visits: cap_u32(stats.node_visits),
                decision_points: cap_u32(stats.decision_points),
                branch_attempts: cap_u32(stats.branch_attempts),
                dead_ends: cap_u32(stats.dead_ends),
                solutions: cap_u32(stats.solutions),
                propagate_rounds: cap_u32(stats.propagate_rounds),
                assignments_initial: cap_u32(stats.assignments_initial),
                assignments_guess: cap_u32(stats.assignments_guess),
                assignments_propagated: cap_u32(stats.assignments_propagated),
                max_depth: stats.max_depth,
                first_trigger_rule_counts,
                logic_chain_start_difficulty,
                backtrack_count,
                max_backtrack_distance: max_backtrack,
                total_backtrack_distance: total_backtrack,
                human: human_report,
            },
        };
    proof {
        assert(rep.stats.human == reported);
        assert(rep.stats.logic_chain_start_difficulty == chain_start(widened(rep.stats.human.logic_first_trigger_counts@)));
        assert(rep.stats.first_trigger_rule_counts@.len() == distinct_rules_u64(
            widened(rep.stats.human.logic_first_trigger_counts@),
            8,
        ));
        assert(rep.stats.human.variable_cells == non_black_count(colors_of(color_grid@)));
        assert(exists|b: Seq<Mark>| #[trigger] report_board(colors_of(color_grid@), rep.stats.human, b));
        assert(exists|m: u32| mask_solves(5, colors_of(color_grid@), m));
        assert(rep.difficulty_score == difficulty_score_of(rep.stats.human));
        assert(1 <= rep.difficulty_score <= 100);
        if decided(black_marks(colors_of(color_grid@))) {
            assert(stats.decision_points == 0);
            assert(rep.stats.decision_points == 0 && rep.stats.dead_ends == 0);
        }
    }
    Ok(rep)
}

} // verus!
