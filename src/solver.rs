use crate::colors::Color;
use crate::rules::{
    adj4, adj8, cell_ok, count_in, decided, is_solution, five_possible, segment_avoids, segment_cell, segment_fits, lemma_count_in_exact, lists_color, lists_exactly, RuleSet,
};
use crate::state::{
    count_upto, all_cells, col_of, down_of, extends, id_of, lemma_extends_checked, lemma_extends_same,
    line_count, row_of, up_of, Mark, SolverState,
};
use vstd::prelude::*;
use vstd::string::StringExecFns;
use crate::text::cell_message;

verus! {

/// Why a cell was decided.
#[derive(Clone, Copy, Debug, PartialEq, Eq, Structural)]
pub enum AssignReason {
    Initial,
    Guess,
    Propagate,
}

/// The inference rules, in the order in which a propagation round applies them.
#[derive(Clone, Copy, Debug, PartialEq, Eq, Structural)]
pub enum RuleType {
    Green,
    Yellow,
    Red,
    Blue,
    Purple,
    Orange,
    Cyan,
    FiveInRow,
}

/// Position of a rule in per-rule tallies.
pub open spec fn rule_index(rule: RuleType) -> int {
    match rule {
        RuleType::Green => 0,
        RuleType::Yellow => 1,
        RuleType::Red => 2,
        RuleType::Blue => 3,
        RuleType::Purple => 4,
        RuleType::Orange => 5,
        RuleType::Cyan => 6,
        RuleType::FiveInRow => 7,
    }
}

/// Position of a rule in per-rule tallies.
pub fn rule_slot(rule: RuleType) -> (r: usize)
    ensures
        r == rule_index(rule),
        r < 8,
{
    match rule {
        RuleType::Green => 0,
        RuleType::Yellow => 1,
        RuleType::Red => 2,
        RuleType::Blue => 3,
        RuleType::Purple => 4,
        RuleType::Orange => 5,
        RuleType::Cyan => 6,
        RuleType::FiveInRow => 7,
    }
}

/// Counters of the work done by propagation and search.
#[derive(Clone, Debug)]
pub struct SolveStats {
    pub node_visits: u64,
    pub decision_points: u64,
    pub branch_attempts: u64,
    pub dead_ends: u64,
    pub solutions: u64,
    pub propagate_rounds: u64,
    pub assignments_initial: u64,
    pub assignments_guess: u64,
    pub assignments_propagated: u64,
    pub max_depth: u32,
    /// Times each rule changed the board, by `rule_slot`.
    pub rule_trigger_counts: Vec<u64>,
    /// Times each rule was the first of its round to change the board.
    pub first_trigger_counts: Vec<u64>,
    /// Depth of every decision point, in the order met.
    pub decision_point_depths: Vec<u32>,
    /// Distance from the last decision point of every dead end.
    pub backtrack_distances: Vec<u32>,
}

impl SolveStats {
    /// The per-rule tallies have one slot per rule.
    pub open spec fn wf(&self) -> bool {
        self.rule_trigger_counts@.len() == 8 && self.first_trigger_counts@.len() == 8
    }

    /// All counters at zero.
    pub fn new() -> (r: Self)
        ensures
            r.wf(),
            r.propagate_rounds == 0,
            r.assignments_propagated == 0,
            r.decision_points == 0,
            r.dead_ends == 0,
            forall|k: int| 0 <= k < 8 ==> r.rule_trigger_counts@[k] == 0,
            forall|k: int| 0 <= k < 8 ==> r.first_trigger_counts@[k] == 0,
    {
        SolveStats {
            node_visits: 0,
            decision_points: 0,
            branch_attempts: 0,
            dead_ends: 0,
            solutions: 0,
            propagate_rounds: 0,
            assignments_initial: 0,
            assignments_guess: 0,
            assignments_propagated: 0,
            max_depth: 0,
            rule_trigger_counts: vec![0u64, 0, 0, 0, 0, 0, 0, 0],
            first_trigger_counts: vec![0u64, 0, 0, 0, 0, 0, 0, 0],
            decision_point_depths: Vec::new(),
            backtrack_distances: Vec::new(),
        }
    }

    fn on_node(&mut self, depth: u32)
        requires
            old(self).wf(),
        ensures
            final(self).wf(),
            assign_same(*old(self), *final(self)),
            search_counts_kept(*old(self), *final(self)),
    {
        self.node_visits = self.node_visits.saturating_add(1);
        if depth > self.max_depth {
            self.max_depth = depth;
        }
    }

    fn on_decision_point(&mut self, depth: u32)
        requires
            old(self).wf(),
        ensures
            final(self).wf(),
            assign_same(*old(self), *final(self)),
    {
        self.decision_points = self.decision_points.saturating_add(1);
        self.decision_point_depths.push(depth);
    }

    fn on_branch_attempt(&mut self)
        requires
            old(self).wf(),
        ensures
            final(self).wf(),
            assign_same(*old(self), *final(self)),
            search_counts_kept(*old(self), *final(self)),
    {
        self.branch_attempts = self.branch_attempts.saturating_add(1);
    }

    fn on_dead_end(&mut self, depth: u32)
        requires
            old(self).wf(),
        ensures
            final(self).wf(),
            assign_same(*old(self), *final(self)),
    {
        self.dead_ends = self.dead_ends.saturating_add(1);
        let len = self.decision_point_depths.len();
        if len > 0 {
            let last = self.decision_point_depths[len - 1];
            let distance = if depth > last {
                depth - last
            } else {
                0
            };
            self.backtrack_distances.push(distance);
        }
    }

    fn on_solution(&mut self)
        requires
            old(self).wf(),
        ensures
            final(self).wf(),
            assign_same(*old(self), *final(self)),
            search_counts_kept(*old(self), *final(self)),
    {
        self.solutions = self.solutions.saturating_add(1);
    }

    fn on_propagate_round(&mut self)
        requires
            old(self).wf(),
        ensures
            final(self).wf(),
            assign_same(*old(self), *final(self)),
            search_counts_kept(*old(self), *final(self)),
    {
        self.propagate_rounds = self.propagate_rounds.saturating_add(1);
    }

    fn on_assignment(&mut self, reason: AssignReason)
        requires
            old(self).wf(),
        ensures
            final(self).wf(),
            final(self).assignments_initial >= old(self).assignments_initial,
            final(self).assignments_guess >= old(self).assignments_guess,
            final(self).assignments_propagated >= old(self).assignments_propagated,
            assign_total(*final(self)) <= assign_total(*old(self)) + 1,
            search_counts_kept(*old(self), *final(self)),
    {
        match reason {
            AssignReason::Initial => {
                self.assignments_initial = self.assignments_initial.saturating_add(1);
            },
            AssignReason::Guess => {
                self.assignments_guess = self.assignments_guess.saturating_add(1);
            },
            AssignReason::Propagate => {
                self.assignments_propagated = self.assignments_propagated.saturating_add(1);
            },
        }
    }

    fn on_rule_trigger(&mut self, rule: RuleType, is_first: bool)
        requires
            old(self).wf(),
        ensures
            final(self).wf(),
            assign_same(*old(self), *final(self)),
            search_counts_kept(*old(self), *final(self)),
    {
        let k = rule_slot(rule);
        let c = self.rule_trigger_counts[k];
        self.rule_trigger_counts.set(k, c.saturating_add(1));
        if is_first {
            let f = self.first_trigger_counts[k];
            self.first_trigger_counts.set(k, f.saturating_add(1));
        }
    }
}

/// All the assignments `st` has recorded.
pub open spec fn assign_total(st: SolveStats) -> int {
    st.assignments_initial + st.assignments_guess + st.assignments_propagated
}

/// No assignment counter moved from `a` to `b`.
pub open spec fn assign_same(a: SolveStats, b: SolveStats) -> bool {
    &&& b.assignments_initial == a.assignments_initial
    &&& b.assignments_guess == a.assignments_guess
    &&& b.assignments_propagated == a.assignments_propagated
}

/// From `a` to `b` no assignment counter went down, and they rose by at most
/// the number of cells decided between boards `sa` and `sb`.
pub open spec fn assignments_bounded(a: SolveStats, b: SolveStats, sa: Seq<Mark>, sb: Seq<Mark>) -> bool {
    &&& b.assignments_initial >= a.assignments_initial
    &&& b.assignments_guess >= a.assignments_guess
    &&& b.assignments_propagated >= a.assignments_propagated
    &&& assign_total(b) <= assign_total(a) + unknowns(sa) - unknowns(sb)
}

/// `b` counts the same decision points and dead ends as `a`.
pub open spec fn search_counts_kept(a: SolveStats, b: SolveStats) -> bool {
    b.decision_points == a.decision_points && b.dead_ends == a.dead_ends
}

/// Deciding an undecided cell leaves one unknown cell fewer.
pub proof fn lemma_decide_unknowns(s: Seq<Mark>, k: int, v: Mark)
    requires
        0 <= k < s.len(),
        s[k] == Mark::Unknown,
        v != Mark::Unknown,
    ensures
        unknowns(s.update(k, v)) == unknowns(s) - 1,
{
    crate::state::lemma_count_update(s, s.len() as int, all_cells(), Mark::Unknown, k, v);
}

/// Marks cell `id` checked; false on a contradiction (it was unchecked).
pub fn try_set_checked_id(
    state: &mut SolverState,
    id: usize,
    reason: AssignReason,
    stats: &mut SolveStats,
) -> (r: bool)
    requires
        old(state).wf(),
        id < old(state).cell_count(),
        old(stats).wf(),
    ensures
        final(state).wf(),
        final(state).side() == old(state).side(),
        final(stats).wf(),
        search_counts_kept(*old(stats), *final(stats)),
        assignments_bounded(*old(stats), *final(stats), old(state)@, final(state)@),
        r == (old(state)@[id as int] != Mark::Unchecked),
        final(state)@ == if old(state)@[id as int] == Mark::Unknown {
            old(state)@.update(id as int, Mark::Checked)
        } else {
            old(state)@
        },
{
    proof {
        state.lemma_bounds();
        if state@[id as int] == Mark::Unknown {
            lemma_decide_unknowns(state@, id as int, Mark::Checked);
        }
    }
    match state.set_checked_id(id) {
        Ok(true) => {
            stats.on_assignment(reason);
            true
        },
        Ok(false) => true,
        Err(()) => false,
    }
}

/// Marks cell `id` unchecked; false on a contradiction (it was checked).
pub fn try_set_unchecked_id(
    state: &mut SolverState,
    id: usize,
    reason: AssignReason,
    stats: &mut SolveStats,
) -> (r: bool)
    requires
        old(state).wf(),
        id < old(state).cell_count(),
        old(stats).wf(),
    ensures
        final(state).wf(),
        final(state).side() == old(state).side(),
        final(stats).wf(),
        search_counts_kept(*old(stats), *final(stats)),
        assignments_bounded(*old(stats), *final(stats), old(state)@, final(state)@),
        r == (old(state)@[id as int] != Mark::Checked),
        final(state)@ == if old(state)@[id as int] == Mark::Unknown {
            old(state)@.update(id as int, Mark::Unchecked)
        } else {
            old(state)@
        },
{
    proof {
        state.lemma_bounds();
        if state@[id as int] == Mark::Unknown {
            lemma_decide_unknowns(state@, id as int, Mark::Unchecked);
        }
    }
    match state.set_unchecked_id(id) {
        Ok(true) => {
            stats.on_assignment(reason);
            true
        },
        Ok(false) => true,
        Err(()) => false,
    }
}

/// Number of unknown cells of a board.
pub open spec fn unknowns(s: Seq<Mark>) -> nat {
    line_count(s, all_cells(), Mark::Unknown)
}

/// Two line counts that must end equal can still meet, and a range that
/// touches the other's bound has nothing left to force.
pub open spec fn pair_settled(ac: int, au: int, bc: int, bu: int) -> bool {
    &&& !(ac + au < bc || bc + bu < ac)
    &&& ac + au == bc ==> au == 0 && bu == 0
    &&& bc + bu == ac ==> au == 0 && bu == 0
}

/// No rule of cell `i`'s color can force a cell or find a contradiction on `s`.
pub open spec fn cell_settled(size: int, colors: Seq<Color>, s: Seq<Mark>, i: int) -> bool {
    let c8 = line_count(s, adj8(size, i), Mark::Checked) as int;
    let u8 = line_count(s, adj8(size, i), Mark::Unknown) as int;
    let c4 = line_count(s, adj4(size, i), Mark::Checked) as int;
    let u4 = line_count(s, adj4(size, i), Mark::Unknown) as int;
    match colors[i] {
        Color::Red => c8 > 0 || u8 >= 2,
        Color::Blue => c8 <= 1 || (c8 == 2 && u8 == 0),
        Color::Green => pair_settled(
            line_count(s, row_of(size, i / size), Mark::Checked) as int,
            line_count(s, row_of(size, i / size), Mark::Unknown) as int,
            line_count(s, col_of(size, i % size), Mark::Checked) as int,
            line_count(s, col_of(size, i % size), Mark::Unknown) as int,
        ),
        Color::Yellow => pair_settled(
            line_count(s, down_of(size, i / size - i % size + size - 1), Mark::Checked) as int,
            line_count(s, down_of(size, i / size - i % size + size - 1), Mark::Unknown) as int,
            line_count(s, up_of(size, i / size + i % size), Mark::Checked) as int,
            line_count(s, up_of(size, i / size + i % size), Mark::Unknown) as int,
        ),
        Color::Purple => if u8 == 0 {
            c8 % 2 == 1
        } else {
            u8 >= 2
        },
        Color::Orange => if u8 == 0 {
            c8 % 2 == 0
        } else {
            u8 >= 2
        },
        Color::Cyan => s[i] == Mark::Unchecked || (s[i] == Mark::Checked && (c4 > 0 || u4 >= 2)) || (
        s[i] == Mark::Unknown && c4 + u4 > 0),
        _ => true,
    }
}

/// Every cell of color `c` is settled.
pub open spec fn color_settled(size: int, colors: Seq<Color>, s: Seq<Mark>, c: Color) -> bool {
    forall|i: int|
        0 <= i < size * size && colors[i] == c ==> #[trigger] cell_settled(size, colors, s, i)
}

/// A fixpoint of propagation: no rule can force anything, and some run of
/// five cells is still free of unchecked cells.
pub open spec fn settled(size: int, colors: Seq<Color>, s: Seq<Mark>) -> bool {
    &&& forall|i: int| 0 <= i < size * size ==> #[trigger] cell_settled(size, colors, s, i)
    &&& five_possible(size, s)
}

/// The contract shared by the rule procedures: the board only gains
/// decisions; a settled board comes back unchanged and accepted; a board that
/// comes back unchanged and accepted was settled.
pub open spec fn rule_step(
    size: int,
    colors: Seq<Color>,
    c: Color,
    before: Seq<Mark>,
    after: Seq<Mark>,
    ok: bool,
) -> bool {
    &&& extends(before, after)
    &&& color_settled(size, colors, before, c) ==> ok && after == before
    &&& ok && after == before ==> color_settled(size, colors, before, c)
}

/// `s` with every unknown cell on `line` set to `v`.
pub open spec fn filled(s: Seq<Mark>, line: spec_fn(int) -> bool, v: Mark) -> Seq<Mark> {
    Seq::new(
        s.len(),
        |i: int|
            if line(i) && s[i] == Mark::Unknown {
                v
            } else {
                s[i]
            },
    )
}

/// Filling a line only adds decisions; it changes the board exactly when the
/// line had an unknown cell.
pub proof fn lemma_filled(s: Seq<Mark>, line: spec_fn(int) -> bool, v: Mark)
    requires
        v != Mark::Unknown,
    ensures
        extends(s, filled(s, line, v)),
        line_count(s, line, Mark::Unknown) == 0 ==> filled(s, line, v) == s,
        line_count(s, line, Mark::Unknown) > 0 ==> unknowns(filled(s, line, v)) < unknowns(s),
{
    let t = filled(s, line, v);
    crate::state::lemma_count_zero(s, s.len() as int, line, Mark::Unknown);
    lemma_extends_same(s, t);
    if line_count(s, line, Mark::Unknown) == 0 {
        assert(t =~= s);
    } else {
        let i = choose|i: int| 0 <= i < s.len() && line(i) && s[i] == Mark::Unknown;
        assert(t[i] != s[i]);
    }
}

/// Sets every unknown cell of `ids`, a list of exactly the cells of `line`,
/// to checked (or to unchecked when `is_checked` is false).
fn fill_cells_unknowns_as(
    state: &mut SolverState,
    ids: &Vec<usize>,
    is_checked: bool,
    stats: &mut SolveStats,
    Ghost(line): Ghost<spec_fn(int) -> bool>,
)
    requires
        old(state).wf(),
        old(stats).wf(),
        old(state)@.len() == old(state).cell_count(),
        lists_exactly(ids@, old(state).cell_count(), line),
    ensures
        final(state).wf(),
        final(stats).wf(),
        search_counts_kept(*old(stats), *final(stats)),
        assignments_bounded(*old(stats), *final(stats), old(state)@, final(state)@),
        final(state).side() == old(state).side(),
        final(state)@ == filled(
            old(state)@,
            line,
            if is_checked {
                Mark::Checked
            } else {
                Mark::Unchecked
            },
        ),
{
    let ghost start = state@;
    let ghost v = if is_checked {
        Mark::Checked
    } else {
        Mark::Unchecked
    };
    let mut k: usize = 0;
    while k < ids.len()
        invariant
            state.wf(),
            stats.wf(),
            search_counts_kept(*old(stats), *stats),
            assignments_bounded(*old(stats), *stats, old(state)@, state@),
            state.side() == old(state).side(),
            start == old(state)@,
            state@.len() == start.len(),
            start.len() == state.cell_count(),
            lists_exactly(ids@, state.cell_count(), line),
            v == if is_checked {
                Mark::Checked
            } else {
                Mark::Unchecked
            },
            k <= ids@.len(),
            forall|i: int|
                0 <= i < start.len() ==> #[trigger] state@[i] == if ids@.subrange(
                    0,
                    k as int,
                ).contains(i as usize) && start[i] == Mark::Unknown {
                    v
                } else {
                    start[i]
                },
        decreases ids@.len() - k,
    {
        let id = ids[k];
        let ghost prev = state@;
        proof {
            state.lemma_bounds();
            assert(!ids@.subrange(0, k as int).contains(id)) by {
                if ids@.subrange(0, k as int).contains(id) {
                    let q = choose|q: int| 0 <= q < k && #[trigger] ids@.subrange(0, k as int)[q] == id;
                    assert(ids@[q] == ids@[k as int]);
                }
            }
        }
        if state.is_unknown_id(id) {
            if is_checked {
                try_set_checked_id(state, id, AssignReason::Propagate, stats);
            } else {
                try_set_unchecked_id(state, id, AssignReason::Propagate, stats);
            }
        }
        proof {
            assert forall|i: int| 0 <= i < start.len() implies #[trigger] state@[i] == if ids@.subrange(
                0,
                k + 1,
            ).contains(i as usize) && start[i] == Mark::Unknown {
                v
            } else {
                start[i]
            } by {
                assert(prev[i] == if ids@.subrange(0, k as int).contains(i as usize) && start[i]
                    == Mark::Unknown {
                    v
                } else {
                    start[i]
                });
                if i == id as int {
                    assert(ids@.subrange(0, k + 1)[k as int] == id);
                } else {
                    assert(i as usize != id);
                    if ids@.subrange(0, k + 1).contains(i as usize) {
                        let q = choose|q: int| 0 <= q < k + 1 && #[trigger] ids@.subrange(0, k + 1)[q] == i as usize;
                        assert(ids@.subrange(0, k as int)[q] == i as usize);
                    }
                    if ids@.subrange(0, k as int).contains(i as usize) {
                        let q = choose|q: int| 0 <= q < k && #[trigger] ids@.subrange(0, k as int)[q] == i as usize;
                        assert(ids@.subrange(0, k + 1)[q] == i as usize);
                    }
                }
            }
        }
        k = k + 1;
    }
    proof {
        state.lemma_bounds();
        assert(ids@.subrange(0, k as int) =~= ids@);
        assert(state@ =~= filled(start, line, v)) by {
            assert forall|i: int| 0 <= i < start.len() implies state@[i] == filled(start, line, v)[i] by {
                if line(i) {
                    assert(ids@.contains(i as usize));
                } else if ids@.contains(i as usize) {
                    let q = choose|q: int| 0 <= q < ids@.len() && ids@[q] == i as usize;
                    assert(line(ids@[q] as int));
                }
            }
        }
    }
}

/// Marks `(row, col)` checked; false on a contradiction.
pub fn try_set_checked(
    state: &mut SolverState,
    row: usize,
    col: usize,
    reason: AssignReason,
    stats: &mut SolveStats,
) -> (r: bool)
    requires
        old(state).wf(),
        row < old(state).side(),
        col < old(state).side(),
        old(stats).wf(),
    ensures
        final(state).wf(),
        final(state).side() == old(state).side(),
        final(stats).wf(),
        search_counts_kept(*old(stats), *final(stats)),
        assignments_bounded(*old(stats), *final(stats), old(state)@, final(state)@),
        ({
            let id = id_of(old(state).side(), row as int, col as int);
            &&& r == (old(state)@[id] != Mark::Unchecked)
            &&& final(state)@ == if old(state)@[id] == Mark::Unknown {
                old(state)@.update(id, Mark::Checked)
            } else {
                old(state)@
            }
        }),
{
    proof {
        state.lemma_bounds();
        crate::state::lemma_rc_id(state.side(), row as int, col as int);
        if state@[id_of(state.side(), row as int, col as int)] == Mark::Unknown {
            lemma_decide_unknowns(state@, id_of(state.side(), row as int, col as int), Mark::Checked);
        }
    }
    match state.set_checked(row, col) {
        Ok(true) => {
            stats.on_assignment(reason);
            true
        },
        Ok(false) => true,
        Err(()) => false,
    }
}

/// Marks `(row, col)` unchecked; false on a contradiction.
pub fn try_set_unchecked(
    state: &mut SolverState,
    row: usize,
    col: usize,
    reason: AssignReason,
    stats: &mut SolveStats,
) -> (r: bool)
    requires
        old(state).wf(),
        row < old(state).side(),
        col < old(state).side(),
        old(stats).wf(),
    ensures
        final(state).wf(),
        final(state).side() == old(state).side(),
        final(stats).wf(),
        search_counts_kept(*old(stats), *final(stats)),
        assignments_bounded(*old(stats), *final(stats), old(state)@, final(state)@),
        ({
            let id = id_of(old(state).side(), row as int, col as int);
            &&& r == (old(state)@[id] != Mark::Checked)
            &&& final(state)@ == if old(state)@[id] == Mark::Unknown {
                old(state)@.update(id, Mark::Unchecked)
            } else {
                old(state)@
            }
        }),
{
    proof {
        state.lemma_bounds();
        crate::state::lemma_rc_id(state.side(), row as int, col as int);
        if state@[id_of(state.side(), row as int, col as int)] == Mark::Unknown {
            lemma_decide_unknowns(state@, id_of(state.side(), row as int, col as int), Mark::Unchecked);
        }
    }
    match state.set_unchecked(row, col) {
        Ok(true) => {
            stats.on_assignment(reason);
            true
        },
        Ok(false) => true,
        Err(()) => false,
    }
}

/// Sets every unknown cell of a row (or, when `by_col`, of a column) to
/// checked, or to unchecked when `is_checked` is false. Never fails.
fn fill_line_unknowns_as(
    state: &mut SolverState,
    line_index: usize,
    by_col: bool,
    is_checked: bool,
    stats: &mut SolveStats,
) -> (r: bool)
    requires
        old(state).wf(),
        old(stats).wf(),
        line_index < old(state).side(),
    ensures
        r,
        final(state).wf(),
        final(stats).wf(),
        search_counts_kept(*old(stats), *final(stats)),
        assignments_bounded(*old(stats), *final(stats), old(state)@, final(state)@),
        final(state).side() == old(state).side(),
        final(state)@ == filled(
            old(state)@,
            if by_col {
                col_of(old(state).side(), line_index as int)
            } else {
                row_of(old(state).side(), line_index as int)
            },
            if is_checked {
                Mark::Checked
            } else {
                Mark::Unchecked
            },
        ),
{
    proof {
        state.lemma_bounds();
    }
    let ghost start = state@;
    let ghost size = state.side();
    let ghost v = if is_checked {
        Mark::Checked
    } else {
        Mark::Unchecked
    };
    let ghost line = if by_col {
        col_of(size, line_index as int)
    } else {
        row_of(size, line_index as int)
    };
    let mask = if by_col {
        state.unknown_rows_mask_in_col(line_index)
    } else {
        state.unknown_cols_mask_in_row(line_index)
    };
    let n = state.size();
    let mut k: usize = 0;
    while k < n
        invariant
            state.wf(),
            stats.wf(),
            search_counts_kept(*old(stats), *stats),
            assignments_bounded(*old(stats), *stats, old(state)@, state@),
            n == size,
            state.side() == size,
            1 <= size <= 32,
            size * size <= 1024,
            start == old(state)@,
            state@.len() == start.len(),
            start.len() == size * size,
            line_index < size,
            k <= n,
            v == if is_checked {
                Mark::Checked
            } else {
                Mark::Unchecked
            },
            line == if by_col {
                col_of(size, line_index as int)
            } else {
                row_of(size, line_index as int)
            },
            forall|c: u32|
                c < 32 ==> (crate::state::bit_set(mask, c) <==> c < size && start[if by_col {
                    id_of(size, c as int, line_index as int)
                } else {
                    id_of(size, line_index as int, c as int)
                }] == Mark::Unknown),
            forall|i: int|
                0 <= i < start.len() ==> #[trigger] state@[i] == if line(i) && (if by_col {
                    i / size
                } else {
                    i % size
                }) < k && start[i] == Mark::Unknown {
                    v
                } else {
                    start[i]
                },
        decreases n - k,
    {
        let ghost prev = state@;
        let (row, col) = if by_col {
            (k, line_index)
        } else {
            (line_index, k)
        };
        proof {
            crate::state::lemma_rc_id(size, row as int, col as int);
        }
        if (mask >> k as u32) & 1u32 == 1u32 {
            if is_checked {
                try_set_checked(state, row, col, AssignReason::Propagate, stats);
            } else {
                try_set_unchecked(state, row, col, AssignReason::Propagate, stats);
            }
        }
        proof {
            let id = id_of(size, row as int, col as int);
            assert(crate::state::bit_set(mask, k as u32) <==> start[id] == Mark::Unknown);
            assert(prev[id] == start[id]);
            assert forall|i: int| 0 <= i < start.len() implies #[trigger] state@[i] == if line(i)
                && (if by_col {
                i / size
            } else {
                i % size
            }) < k + 1 && start[i] == Mark::Unknown {
                v
            } else {
                start[i]
            } by {
                crate::state::lemma_id_rc(size, i);
                if i != id {
                    assert(state@[i] == prev[i]);
                    if line(i) && (if by_col {
                        i / size
                    } else {
                        i % size
                    }) == k {
                        assert(i == id);
                    }
                }
            }
        }
        k = k + 1;
    }
    proof {
        assert(state@ =~= filled(start, line, v)) by {
            assert forall|i: int| 0 <= i < start.len() implies state@[i] == filled(start, line, v)[i] by {
                crate::state::lemma_id_rc(size, i);
            }
        }
    }
    true
}

/// Sets every unknown cell of row `row` to the given value. Never fails.
fn fill_row_unknowns_as(state: &mut SolverState, row: usize, is_checked: bool, stats: &mut SolveStats) -> (r: bool)
    requires
        old(state).wf(),
        old(stats).wf(),
        row < old(state).side(),
    ensures
        r,
        final(state).wf(),
        final(stats).wf(),
        search_counts_kept(*old(stats), *final(stats)),
        assignments_bounded(*old(stats), *final(stats), old(state)@, final(state)@),
        final(state).side() == old(state).side(),
        final(state)@ == filled(
            old(state)@,
            row_of(old(state).side(), row as int),
            if is_checked {
                Mark::Checked
            } else {
                Mark::Unchecked
            },
        ),
{
    fill_line_unknowns_as(state, row, false, is_checked, stats)
}

/// Sets every unknown cell of column `col` to the given value. Never fails.
fn fill_col_unknowns_as(state: &mut SolverState, col: usize, is_checked: bool, stats: &mut SolveStats) -> (r: bool)
    requires
        old(state).wf(),
        old(stats).wf(),
        col < old(state).side(),
    ensures
        r,
        final(state).wf(),
        final(stats).wf(),
        search_counts_kept(*old(stats), *final(stats)),
        assignments_bounded(*old(stats), *final(stats), old(state)@, final(state)@),
        final(state).side() == old(state).side(),
        final(state)@ == filled(
            old(state)@,
            col_of(old(state).side(), col as int),
            if is_checked {
                Mark::Checked
            } else {
                Mark::Unchecked
            },
        ),
{
    fill_line_unknowns_as(state, col, true, is_checked, stats)
}

/// No cell of the run of five from `(r, c)` in direction `dir` is unchecked.
fn segment_clear(state: &SolverState, r: usize, c: usize, dir: usize) -> (res: bool)
    requires
        state.wf(),
        segment_fits(state.side(), r as int, c as int, dir as int),
    ensures
        res == segment_avoids(state.side(), state@, r as int, c as int, dir as int, Mark::Unchecked),
{
    let ghost size = state.side();
    proof {
        state.lemma_bounds();
    }
    let mut k: usize = 0;
    while k < 5
        invariant
            state.wf(),
            size == state.side(),
            1 <= size <= 32,
            segment_fits(size, r as int, c as int, dir as int),
            k <= 5,
            forall|q: int|
                0 <= q < k ==> state@[#[trigger] segment_cell(size, r as int, c as int, dir as int, q)]
                    != Mark::Unchecked,
        decreases 5 - k,
    {
        let row = if dir == 0 {
            r
        } else {
            r + k
        };
        let col = if dir == 1 {
            c
        } else if dir == 3 {
            c - k
        } else {
            c + k
        };
        assert(row as int == r as int + k as int * crate::rules::dir_dr(dir as int)) by {
            if dir == 0 {
                assert(k as int * 0 == 0);
            } else {
                assert(k as int * 1 == k as int);
            }
        }
        assert(col as int == c as int + k as int * crate::rules::dir_dc(dir as int)) by {
            if dir == 1 {
                assert(k as int * 0 == 0);
            } else if dir == 3 {
                assert(k as int * -1 == -k as int);
            } else {
                assert(k as int * 1 == k as int);
            }
        }
        assert(segment_cell(size, r as int, c as int, dir as int, k as int) == id_of(
            size,
            row as int,
            col as int,
        ));
        if state.is_unchecked(row, col) {
            return false;
        }
        k = k + 1;
    }
    true
}

/// The run of five from `(r, c)` in direction `dir` fits on the board.
fn segment_in_board(size: usize, r: usize, c: usize, dir: usize) -> (res: bool)
    requires
        size <= 32,
        r < size,
        c < size,
        dir < 4,
    ensures
        res == segment_fits(size as int, r as int, c as int, dir as int),
{
    let rows_ok = dir == 0 || r + 4 < size;
    let cols_ok = if dir == 1 {
        true
    } else if dir == 3 {
        c >= 4
    } else {
        c + 4 < size
    };
    rows_ok && cols_ok
}

/// Some run of five cells (along a row, a column or a diagonal) holds no
/// unchecked cell, so a five-in-a-row can still be completed.
pub fn five_in_a_row_possible(state: &SolverState) -> (res: bool)
    requires
        state.wf(),
    ensures
        res == five_possible(state.side(), state@),
{
    let ghost sz = state.side();
    let size = state.size();
    let mut dir: usize = 0;
    while dir < 4
        invariant
            state.wf(),
            sz == state.side(),
            size == sz,
            1 <= size <= 32,
            dir <= 4,
            forall|d: int, r: int, c: int|
                0 <= d < dir && segment_fits(sz, r, c, d) ==> !#[trigger] segment_avoids(
                    sz,
                    state@,
                    r,
                    c,
                    d,
                    Mark::Unchecked,
                ),
        decreases 4 - dir,
    {
        let mut r: usize = 0;
        while r < size
            invariant
                state.wf(),
                sz == state.side(),
                size == sz,
                1 <= size <= 32,
                dir < 4,
                r <= size,
                forall|d: int, rr: int, c: int|
                    (0 <= d < dir || (d == dir && 0 <= rr < r)) && segment_fits(sz, rr, c, d)
                        ==> !#[trigger] segment_avoids(sz, state@, rr, c, d, Mark::Unchecked),
            decreases size - r,
        {
            let mut c: usize = 0;
            while c < size
                invariant
                    state.wf(),
                    sz == state.side(),
                    size == sz,
                    1 <= size <= 32,
                    dir < 4,
                    r < size,
                    c <= size,
                    forall|d: int, rr: int, cc: int|
                        (0 <= d < dir || (d == dir && 0 <= rr < r) || (d == dir && rr == r && 0
                            <= cc < c)) && segment_fits(sz, rr, cc, d) ==> !#[trigger] segment_avoids(
                            sz,
                            state@,
                            rr,
                            cc,
                            d,
                            Mark::Unchecked,
                        ),
                decreases size - c,
            {
                if segment_in_board(size, r, c, dir) {
                    if segment_clear(state, r, c, dir) {
                        return true;
                    }
                }
                c = c + 1;
            }
            r = r + 1;
        }
        dir = dir + 1;
    }
    false
}

/// The board that a mask describes: bit `i` set means cell `i` checked,
/// clear means unchecked.
pub open spec fn marks_of(n: int, m: u32) -> Seq<Mark> {
    Seq::new(
        n as nat,
        |i: int|
            if crate::state::bit_set(m, i as u32) {
                Mark::Checked
            } else {
                Mark::Unchecked
            },
    )
}

/// `m` is a solution of the puzzle with side `size` and these colors.
pub open spec fn mask_solves(size: int, colors: Seq<Color>, m: u32) -> bool {
    is_solution(size, colors, marks_of(size * size, m))
}

/// The starting board: black cells checked, every other cell unknown.
pub open spec fn black_marks(colors: Seq<Color>) -> Seq<Mark> {
    Seq::new(
        colors.len(),
        |i: int|
            if colors[i] == Color::Black {
                Mark::Checked
            } else {
                Mark::Unknown
            },
    )
}

/// The starting board when the cells of `m` are already checked.
pub open spec fn seeded_marks(colors: Seq<Color>, m: u32) -> Seq<Mark> {
    Seq::new(
        colors.len(),
        |i: int|
            if colors[i] == Color::Black || crate::state::bit_set(m, i as u32) {
                Mark::Checked
            } else {
                Mark::Unknown
            },
    )
}

/// Some blue cell has more than two black neighbours.
pub open spec fn blue_overloaded(size: int, colors: Seq<Color>) -> bool {
    exists|i: int|
        0 <= i < size * size && colors[i] == Color::Blue && #[trigger] line_count(
            black_marks(colors),
            adj8(size, i),
            Mark::Checked,
        ) > 2
}

/// Every black cell of `s` is checked.
pub open spec fn blacks_checked(colors: Seq<Color>, s: Seq<Mark>) -> bool {
    forall|i: int| 0 <= i < s.len() && colors[i] == Color::Black ==> #[trigger] s[i] == Mark::Checked
}

/// A decided board on which no rule can act, whose black cells are checked,
/// is a solution.
pub proof fn lemma_settled_solution(size: int, colors: Seq<Color>, s: Seq<Mark>)
    requires
        1 <= size,
        s.len() == size * size,
        colors.len() == size * size,
        settled(size, colors, s),
        decided(s),
        blacks_checked(colors, s),
    ensures
        is_solution(size, colors, s),
{
    assert forall|p: spec_fn(int) -> bool| #[trigger] line_count(s, p, Mark::Unknown) == 0 by {
        crate::state::lemma_count_zero(s, s.len() as int, p, Mark::Unknown);
    }
    assert forall|i: int| 0 <= i < size * size implies #[trigger] cell_ok(size, colors, s, i) by {
        assert(cell_settled(size, colors, s, i));
        assert(line_count(s, adj8(size, i), Mark::Unknown) == 0);
        assert(line_count(s, adj4(size, i), Mark::Unknown) == 0);
        assert(line_count(s, row_of(size, i / size), Mark::Unknown) == 0);
        assert(line_count(s, col_of(size, i % size), Mark::Unknown) == 0);
        assert(line_count(s, down_of(size, i / size - i % size + size - 1), Mark::Unknown) == 0);
        assert(line_count(s, up_of(size, i / size + i % size), Mark::Unknown) == 0);
    }
}

/// No solution keeps every black cell checked while a blue cell has more than
/// two black neighbours.
pub proof fn lemma_overloaded_blue_unsolvable(size: int, colors: Seq<Color>, t: Seq<Mark>)
    requires
        colors.len() == size * size,
        blue_overloaded(size, colors),
        extends(black_marks(colors), t),
    ensures
        !is_solution(size, colors, t),
{
    let i = choose|i: int|
        0 <= i < size * size && colors[i] == Color::Blue && #[trigger] line_count(
            black_marks(colors),
            adj8(size, i),
            Mark::Checked,
        ) > 2;
    crate::state::lemma_extends_checked(black_marks(colors), t, t.len() as int, adj8(size, i));
    if is_solution(size, colors, t) {
        assert(cell_ok(size, colors, t, i));
    }
}

/// What a hint asks the player to do with a cell.
#[derive(Debug, Clone, Copy, PartialEq, Eq, Structural)]
pub enum HintAction {
    Check,
    Uncheck,
}

/// One suggested move.
#[derive(Debug, Clone, Copy, PartialEq, Eq, Structural)]
pub struct HintMove {
    pub cell: usize,
    pub action: HintAction,
    /// The move follows by logic (propagation or contradiction).
    pub forced: bool,
}

/// The kind of answer a hint gives.
#[derive(Debug, Clone, Copy, PartialEq, Eq, Structural)]
pub enum HintStatus {
    /// The checked cells cannot be completed to any solution.
    NoSolution,
    /// A move that logic forces.
    Forced,
    /// A move taken from some solution; helpful, not forced.
    Suggested,
}

/// How a hint was found.
#[derive(Debug, Clone, Copy, PartialEq, Eq, Structural)]
pub enum HintReasonKind {
    Propagate,
    Contradiction,
    Suggest,
    Repair,
}

/// Why a move is offered, and which cells to highlight.
#[derive(Debug, Clone)]
pub struct HintReason {
    pub kind: HintReasonKind,
    /// The rule of the move's cell (`red`, `blue`, ..., `black`); none for white.
    pub rule_id: Option<&'static str>,
    pub affected_cells: Vec<usize>,
}

/// The answer of `hint_next`.
#[derive(Debug, Clone)]
pub struct HintResult {
    pub status: HintStatus,
    pub message: String,
    pub mv: Option<HintMove>,
    pub reason: Option<HintReason>,
}

/// Every cell below `n` of `m` is also set in `sol`.
pub open spec fn keeps(n: int, m: u32, sol: u32) -> bool {
    forall|i: u32| i < n && crate::state::bit_set(m, i) ==> #[trigger] crate::state::bit_set(sol, i)
}

/// `a + b`, saturating at `u64::MAX`.
pub open spec fn sat_add(a: u64, b: u64) -> u64 {
    if a + b > u64::MAX {
        u64::MAX
    } else {
        (a + b) as u64
    }
}

/// `b` is `a` with the main-line propagation work of `obs` added.
pub open spec fn merged_logic(a: HumanDifficultyAnalysis, b: HumanDifficultyAnalysis, obs: SolveStats) -> bool {
    &&& b.logic_propagate_rounds == sat_add(a.logic_propagate_rounds, obs.propagate_rounds)
    &&& b.logic_assignments_propagated == sat_add(a.logic_assignments_propagated, obs.assignments_propagated)
    &&& b.logic_rule_trigger_counts@.len() == 8
    &&& b.logic_first_trigger_counts@.len() == 8
    &&& forall|k: int| 0 <= k < 8 ==> #[trigger] b.logic_rule_trigger_counts@[k] == sat_add(
        a.logic_rule_trigger_counts@[k],
        obs.rule_trigger_counts@[k],
    )
    &&& forall|k: int| 0 <= k < 8 ==> #[trigger] b.logic_first_trigger_counts@[k] == sat_add(
        a.logic_first_trigger_counts@[k],
        obs.first_trigger_counts@[k],
    )
        &&& a.solved == b.solved
        &&& a.exhausted_budget == b.exhausted_budget
        &&& a.variable_cells == b.variable_cells
        &&& a.initial_unknown_after_logic == b.initial_unknown_after_logic
        &&& a.bingo_segments_total == b.bingo_segments_total
        &&& a.bingo_segments_possible == b.bingo_segments_possible
        &&& a.bingo_segments_guaranteed == b.bingo_segments_guaranteed
        &&& a.logic_bursts == b.logic_bursts
        &&& a.max_logic_burst_size == b.max_logic_burst_size
        &&& a.contradiction_propagate_rounds == b.contradiction_propagate_rounds
        &&& a.contradiction_assignments_propagated == b.contradiction_assignments_propagated
        &&& a.contradiction_entry_total_assumptions == b.contradiction_entry_total_assumptions
        &&& a.contradiction_entry_candidate_assumptions == b.contradiction_entry_candidate_assumptions
        &&& a.contradiction_entry_scarcity_sum == b.contradiction_entry_scarcity_sum
        &&& a.contradiction_entry_scarcity_max == b.contradiction_entry_scarcity_max
        &&& a.probe_total_assumptions == b.probe_total_assumptions
        &&& a.probe_candidate_assumptions == b.probe_candidate_assumptions
        &&& a.probe_scarcity == b.probe_scarcity
        &&& a.probe_max_burst_size == b.probe_max_burst_size
        &&& a.forced_by_contradiction == b.forced_by_contradiction
        &&& a.guesses == b.guesses
        &&& a.max_guess_depth == b.max_guess_depth
}

/// `b` is `a` with the propagation work of `obs` added to the cost of proofs
/// by contradiction.
pub open spec fn merged_contradiction(a: HumanDifficultyAnalysis, b: HumanDifficultyAnalysis, obs: SolveStats) -> bool {
    &&& b.contradiction_propagate_rounds == sat_add(a.contradiction_propagate_rounds, obs.propagate_rounds)
    &&& b.contradiction_assignments_propagated == sat_add(
        a.contradiction_assignments_propagated,
        obs.assignments_propagated,
    )
        &&& a.solved == b.solved
        &&& a.exhausted_budget == b.exhausted_budget
        &&& a.variable_cells == b.variable_cells
        &&& a.initial_unknown_after_logic == b.initial_unknown_after_logic
        &&& a.bingo_segments_total == b.bingo_segments_total
        &&& a.bingo_segments_possible == b.bingo_segments_possible
        &&& a.bingo_segments_guaranteed == b.bingo_segments_guaranteed
        &&& a.logic_propagate_rounds == b.logic_propagate_rounds
        &&& a.logic_assignments_propagated == b.logic_assignments_propagated
        &&& a.logic_bursts == b.logic_bursts
        &&& a.max_logic_burst_size == b.max_logic_burst_size
        &&& a.logic_rule_trigger_counts@ == b.logic_rule_trigger_counts@
        &&& a.logic_first_trigger_counts@ == b.logic_first_trigger_counts@
        &&& a.contradiction_entry_total_assumptions == b.contradiction_entry_total_assumptions
        &&& a.contradiction_entry_candidate_assumptions == b.contradiction_entry_candidate_assumptions
        &&& a.contradiction_entry_scarcity_sum == b.contradiction_entry_scarcity_sum
        &&& a.contradiction_entry_scarcity_max == b.contradiction_entry_scarcity_max
        &&& a.probe_total_assumptions == b.probe_total_assumptions
        &&& a.probe_candidate_assumptions == b.probe_candidate_assumptions
        &&& a.probe_scarcity == b.probe_scarcity
        &&& a.probe_max_burst_size == b.probe_max_burst_size
        &&& a.forced_by_contradiction == b.forced_by_contradiction
        &&& a.guesses == b.guesses
        &&& a.max_guess_depth == b.max_guess_depth
}

/// What the reasoning simulation of the difficulty analysis observed.
#[derive(Clone, Debug)]
pub struct HumanDifficultyAnalysis {
    pub solved: bool,
    pub exhausted_budget: bool,
    pub variable_cells: u32,
    pub initial_unknown_after_logic: u32,
    /// Runs of five cells on the board, those still free of unchecked cells,
    /// and those already fully checked.
    pub bingo_segments_total: u32,
    pub bingo_segments_possible: u32,
    pub bingo_segments_guaranteed: u32,
    /// Propagation work on the main line of reasoning.
    pub logic_propagate_rounds: u64,
    pub logic_assignments_propagated: u64,
    /// Propagation calls that forced at least one cell, and the largest such burst.
    pub logic_bursts: u32,
    pub max_logic_burst_size: u32,
    /// Per-rule trigger counts on the main line, by `rule_slot`.
    pub logic_rule_trigger_counts: Vec<u64>,
    pub logic_first_trigger_counts: Vec<u64>,
    /// Propagation work spent inside successful proofs by contradiction.
    pub contradiction_propagate_rounds: u64,
    pub contradiction_assignments_propagated: u64,
    /// Assumptions available and assumptions that contradicted, summed over
    /// the forced steps; scarcity in half-bits, log2 of (available/contradicting)
    /// squared, rounded down.
    pub contradiction_entry_total_assumptions: u32,
    pub contradiction_entry_candidate_assumptions: u32,
    pub contradiction_entry_scarcity_sum: u32,
    pub contradiction_entry_scarcity_max: u32,
    /// When stuck: assumptions tried, those that started new propagation,
    /// their scarcity in half-bits, and the largest burst they caused.
    pub probe_total_assumptions: u32,
    pub probe_candidate_assumptions: u32,
    pub probe_scarcity: u32,
    pub probe_max_burst_size: u32,
    /// Cells forced by single-step proof by contradiction.
    pub forced_by_contradiction: u32,
    /// Pure guesses (the simulation never guesses; kept for the score).
    pub guesses: u32,
    pub max_guess_depth: u32,
}

impl HumanDifficultyAnalysis {
    /// The per-rule tallies have one slot per rule.
    pub open spec fn wf(&self) -> bool {
        self.logic_rule_trigger_counts@.len() == 8 && self.logic_first_trigger_counts@.len() == 8
    }

    /// Nothing observed yet.
    pub fn new() -> (r: Self)
        ensures
            r.wf(),
            !r.exhausted_budget,
    {
        HumanDifficultyAnalysis {
            solved: false,
            exhausted_budget: false,
            variable_cells: 0,
            initial_unknown_after_logic: 0,
            bingo_segments_total: 0,
            bingo_segments_possible: 0,
            bingo_segments_guaranteed: 0,
            logic_propagate_rounds: 0,
            logic_assignments_propagated: 0,
            logic_bursts: 0,
            max_logic_burst_size: 0,
            logic_rule_trigger_counts: vec![0u64, 0, 0, 0, 0, 0, 0, 0],
            logic_first_trigger_counts: vec![0u64, 0, 0, 0, 0, 0, 0, 0],
            contradiction_propagate_rounds: 0,
            contradiction_assignments_propagated: 0,
            contradiction_entry_total_assumptions: 0,
            contradiction_entry_candidate_assumptions: 0,
            contradiction_entry_scarcity_sum: 0,
            contradiction_entry_scarcity_max: 0,
            probe_total_assumptions: 0,
            probe_candidate_assumptions: 0,
            probe_scarcity: 0,
            probe_max_burst_size: 0,
            forced_by_contradiction: 0,
            guesses: 0,
            max_guess_depth: 0,
        }
    }

    /// Adds the propagation work of `obs` to the main line of reasoning.
    pub fn merge_into_analysis(&mut self, obs: &SolveStats)
        requires
            old(self).wf(),
            obs.wf(),
        ensures
            final(self).wf(),
            final(self).exhausted_budget == old(self).exhausted_budget,
            merged_logic(*old(self), *final(self), *obs),
    {
        self.logic_propagate_rounds = self.logic_propagate_rounds.saturating_add(obs.propagate_rounds);
        self.logic_assignments_propagated = self.logic_assignments_propagated.saturating_add(
            obs.assignments_propagated,
        );
        let mut k: usize = 0;
        while k < 8
            invariant
                self.wf(),
                obs.wf(),
                k <= 8,
                self.exhausted_budget == old(self).exhausted_budget,
                self.logic_propagate_rounds == sat_add(old(self).logic_propagate_rounds, obs.propagate_rounds),
                self.logic_assignments_propagated == sat_add(
                    old(self).logic_assignments_propagated,
                    obs.assignments_propagated,
                ),
                forall|q: int| 0 <= q < k ==> #[trigger] self.logic_rule_trigger_counts@[q] == sat_add(
                    old(self).logic_rule_trigger_counts@[q],
                    obs.rule_trigger_counts@[q],
                ),
                forall|q: int| 0 <= q < k ==> #[trigger] self.logic_first_trigger_counts@[q] == sat_add(
                    old(self).logic_first_trigger_counts@[q],
                    obs.first_trigger_counts@[q],
                ),
                forall|q: int| k <= q < 8 ==> #[trigger] self.logic_rule_trigger_counts@[q]
                    == old(self).logic_rule_trigger_counts@[q],
                forall|q: int| k <= q < 8 ==> #[trigger] self.logic_first_trigger_counts@[q]
                    == old(self).logic_first_trigger_counts@[q],
                self.solved == old(self).solved,
                self.variable_cells == old(self).variable_cells,
                self.initial_unknown_after_logic == old(self).initial_unknown_after_logic,
                self.bingo_segments_total == old(self).bingo_segments_total,
                self.bingo_segments_possible == old(self).bingo_segments_possible,
                self.bingo_segments_guaranteed == old(self).bingo_segments_guaranteed,
                self.logic_bursts == old(self).logic_bursts,
                self.max_logic_burst_size == old(self).max_logic_burst_size,
                self.contradiction_propagate_rounds == old(self).contradiction_propagate_rounds,
                self.contradiction_assignments_propagated == old(self).contradiction_assignments_propagated,
                self.contradiction_entry_total_assumptions == old(self).contradiction_entry_total_assumptions,
                self.contradiction_entry_candidate_assumptions == old(self).contradiction_entry_candidate_assumptions,
                self.contradiction_entry_scarcity_sum == old(self).contradiction_entry_scarcity_sum,
                self.contradiction_entry_scarcity_max == old(self).contradiction_entry_scarcity_max,
                self.probe_total_assumptions == old(self).probe_total_assumptions,
                self.probe_candidate_assumptions == old(self).probe_candidate_assumptions,
                self.probe_scarcity == old(self).probe_scarcity,
                self.probe_max_burst_size == old(self).probe_max_burst_size,
                self.forced_by_contradiction == old(self).forced_by_contradiction,
                self.guesses == old(self).guesses,
                self.max_guess_depth == old(self).max_guess_depth,
            decreases 8 - k,
        {
            let a = self.logic_rule_trigger_counts[k];
            self.logic_rule_trigger_counts.set(k, a.saturating_add(obs.rule_trigger_counts[k]));
            let b = self.logic_first_trigger_counts[k];
            self.logic_first_trigger_counts.set(k, b.saturating_add(obs.first_trigger_counts[k]));
            k = k + 1;
        }
    }

    /// Adds the propagation work of `obs` to the cost of proofs by contradiction.
    pub fn merge_into_contradiction(&mut self, obs: &SolveStats)
        requires
            old(self).wf(),
        ensures
            final(self).wf(),
            final(self).exhausted_budget == old(self).exhausted_budget,
            merged_contradiction(*old(self), *final(self), *obs),
    {
        self.contradiction_propagate_rounds = self.contradiction_propagate_rounds.saturating_add(
            obs.propagate_rounds,
        );
        self.contradiction_assignments_propagated =
            self.contradiction_assignments_propagated.saturating_add(obs.assignments_propagated);
    }
}

/// Largest `k` with `b * 2^k <= a`, for `b > 0`.
pub open spec fn floor_log2_ratio(a: nat, b: nat) -> nat
    decreases a,
{
    if b == 0 || a < 2 * b {
        0
    } else {
        1 + floor_log2_ratio(a / 2, b)
    }
}

/// Scarcity of `candidates` among `total` assumptions in half-bits:
/// log2((total / candidates)^2), rounded down.
pub fn half_bit_scarcity(total: u32, candidates: u32) -> (r: u32)
    requires
        candidates > 0,
    ensures
        r == floor_log2_ratio(total as nat * total as nat, candidates as nat * candidates as nat),
{
    let ghost a0 = total as nat * total as nat;
    let ghost b0 = candidates as nat * candidates as nat;
    proof {
        assert(b0 > 0 && b0 <= 0xffff_ffff_ffff_ffff && a0 <= 0xffff_ffff_ffff_ffff) by (nonlinear_arith)
            requires
                candidates > 0,
                b0 == candidates as nat * candidates as nat,
                a0 == total as nat * total as nat,
                total <= 0xffff_ffff,
                candidates <= 0xffff_ffff,
        ;
    }
    let b: u128 = candidates as u128 * candidates as u128;
    let mut a: u128 = total as u128 * total as u128;
    let mut r: u32 = 0;
    proof {
        vstd::arithmetic::power2::lemma2_to64();
    }
    while a >= 2 * b
        invariant
            b == b0,
            b0 > 0,
            b0 <= 0xffff_ffff_ffff_ffff,
            a0 <= 0xffff_ffff_ffff_ffff,
            r as nat + floor_log2_ratio(a as nat, b0) == floor_log2_ratio(a0, b0),
            a as int * vstd::arithmetic::power2::pow2(r as nat) <= a0,
            r <= 64,
            vstd::arithmetic::power2::pow2(64) == 0x1_0000_0000_0000_0000,
        decreases a,
    {
        proof {
            vstd::arithmetic::power2::lemma_pow2_unfold((r + 1) as nat);
            vstd::arithmetic::power2::lemma_pow2_pos(r as nat);
            let p = vstd::arithmetic::power2::pow2(r as nat);
            assert((a / 2) as int * (2 * p) <= a as int * p) by (nonlinear_arith)
                requires
                    p > 0,
                    a >= 0,
            ;
            vstd::arithmetic::power2::lemma_pow2_pos(r as nat);
            if r + 1 > 64 {
                vstd::arithmetic::power2::lemma_pow2_strictly_increases(64, (r + 1) as nat);
            }
            assert(a / 2 >= 1);
            assert((a / 2) as int * vstd::arithmetic::power2::pow2((r + 1) as nat) >= vstd::arithmetic::power2::pow2((r + 1) as nat)) by (nonlinear_arith)
                requires
                    a / 2 >= 1,
                    vstd::arithmetic::power2::pow2((r + 1) as nat) > 0,
            ;
            if r + 1 == 65 {
                vstd::arithmetic::power2::lemma_pow2_strictly_increases(64, 65);
            }
        }
        a = a / 2;
        r = r + 1;
    }
    r
}

/// Tallies the runs of five cells: all of them, those with no unchecked
/// cell, and those with every cell checked.
pub fn bingo_segment_stats(state: &SolverState) -> (r: (u32, u32, u32))
    requires
        state.wf(),
    ensures
        r.2 <= r.1 <= r.0,
        r.0 <= 4 * state.cell_count(),
        r.1 > 0 <==> five_possible(state.side(), state@),
        r.2 > 0 <==> five_checked(state.side(), state@),
        r.0 == seg_count(state.side(), state@, 0, 4 * state.cell_count()),
        r.1 == seg_count(state.side(), state@, 1, 4 * state.cell_count()),
        r.2 == seg_count(state.side(), state@, 2, 4 * state.cell_count()),
{
    let ghost sz = state.side();
    proof {
        state.lemma_bounds();
    }
    let size = state.size();
    let mut total: u32 = 0;
    let mut possible: u32 = 0;
    let mut guaranteed: u32 = 0;
    let mut dir: usize = 0;
    while dir < 4
        invariant
            state.wf(),
            sz == state.side(),
            size == sz,
            1 <= size <= 32,
            dir <= 4,
            guaranteed <= possible <= total,
            total <= dir * size * size,
            total == seg_count(sz, state@, 0, dir * (sz * sz)),
            possible == seg_count(sz, state@, 1, dir * (sz * sz)),
            guaranteed == seg_count(sz, state@, 2, dir * (sz * sz)),
            possible == 0 ==> forall|d: int, r: int, c: int|
                0 <= d < dir && segment_fits(sz, r, c, d) ==> !#[trigger] segment_avoids(
                    sz,
                    state@,
                    r,
                    c,
                    d,
                    Mark::Unchecked,
                ),
            guaranteed == 0 ==> forall|d: int, r: int, c: int|
                0 <= d < dir && segment_fits(sz, r, c, d) ==> !#[trigger] segment_checked(
                    sz,
                    state@,
                    r,
                    c,
                    d,
                ),
            possible > 0 ==> five_possible(sz, state@),
            guaranteed > 0 ==> five_checked(sz, state@),
        decreases 4 - dir,
    {
        let mut r: usize = 0;
        while r < size
            invariant
                state.wf(),
                sz == state.side(),
                size == sz,
                1 <= size <= 32,
                dir < 4,
                r <= size,
                guaranteed <= possible <= total,
                total <= dir * size * size + r * size,
                total == seg_count(sz, state@, 0, dir * (sz * sz) + r * sz),
                possible == seg_count(sz, state@, 1, dir * (sz * sz) + r * sz),
                guaranteed == seg_count(sz, state@, 2, dir * (sz * sz) + r * sz),
                possible == 0 ==> forall|d: int, rr: int, c: int|
                    (0 <= d < dir || (d == dir && 0 <= rr < r)) && segment_fits(sz, rr, c, d)
                        ==> !#[trigger] segment_avoids(sz, state@, rr, c, d, Mark::Unchecked),
                guaranteed == 0 ==> forall|d: int, rr: int, c: int|
                    (0 <= d < dir || (d == dir && 0 <= rr < r)) && segment_fits(sz, rr, c, d)
                        ==> !#[trigger] segment_checked(sz, state@, rr, c, d),
                possible > 0 ==> five_possible(sz, state@),
                guaranteed > 0 ==> five_checked(sz, state@),
            decreases size - r,
        {
            let mut c: usize = 0;
            while c < size
                invariant
                    state.wf(),
                    sz == state.side(),
                    size == sz,
                    1 <= size <= 32,
                    dir < 4,
                    r < size,
                    c <= size,
                    guaranteed <= possible <= total,
                    total <= dir * size * size + r * size + c,
                    total == seg_count(sz, state@, 0, dir * (sz * sz) + r * sz + c),
                    possible == seg_count(sz, state@, 1, dir * (sz * sz) + r * sz + c),
                    guaranteed == seg_count(sz, state@, 2, dir * (sz * sz) + r * sz + c),
                    possible == 0 ==> forall|d: int, rr: int, cc: int|
                        (0 <= d < dir || (d == dir && 0 <= rr < r) || (d == dir && rr == r && 0
                            <= cc < c)) && segment_fits(sz, rr, cc, d) ==> !#[trigger] segment_avoids(
                            sz,
                            state@,
                            rr,
                            cc,
                            d,
                            Mark::Unchecked,
                        ),
                    guaranteed == 0 ==> forall|d: int, rr: int, cc: int|
                        (0 <= d < dir || (d == dir && 0 <= rr < r) || (d == dir && rr == r && 0
                            <= cc < c)) && segment_fits(sz, rr, cc, d) ==> !#[trigger] segment_checked(
                            sz,
                            state@,
                            rr,
                            cc,
                            d,
                        ),
                    possible > 0 ==> five_possible(sz, state@),
                    guaranteed > 0 ==> five_checked(sz, state@),
                decreases size - c,
            {
                proof {
                    assert(dir * size * size + r * size + c < 4 * size * size) by (nonlinear_arith)
                        requires
                            dir < 4,
                            r < size,
                            c < size,
                    ;
                    assert(4 * size * size <= 4096) by (nonlinear_arith)
                        requires
                            size <= 32,
                    ;
                }
                proof {
                    lemma_seg_decode(sz, dir as int, r as int, c as int);
                    let t = dir * (sz * sz) + r * sz + c;
                    assert(seg_count(sz, state@, 0, t + 1) == seg_count(sz, state@, 0, t) + if seg_counts_as(sz, state@, 0, t) { 1nat } else { 0nat });
                    assert(seg_count(sz, state@, 1, t + 1) == seg_count(sz, state@, 1, t) + if seg_counts_as(sz, state@, 1, t) { 1nat } else { 0nat });
                    assert(seg_count(sz, state@, 2, t + 1) == seg_count(sz, state@, 2, t) + if seg_counts_as(sz, state@, 2, t) { 1nat } else { 0nat });
                    if segment_checked(sz, state@, r as int, c as int, dir as int) {
                        assert forall|k: int| 0 <= k < 5 implies state@[#[trigger] segment_cell(
                            sz,
                            r as int,
                            c as int,
                            dir as int,
                            k,
                        )] != Mark::Unchecked by {}
                    }
                }
                if segment_in_board(size, r, c, dir) {
                    total = total + 1;
                    if segment_clear(state, r, c, dir) {
                        possible = possible + 1;
                        if segment_all_checked(state, r, c, dir) {
                            guaranteed = guaranteed + 1;
                        }
                    } else {
                        proof {
                            if segment_checked(sz, state@, r as int, c as int, dir as int) {
                                assert forall|k: int| 0 <= k < 5 implies state@[#[trigger] segment_cell(
                                    sz,
                                    r as int,
                                    c as int,
                                    dir as int,
                                    k,
                                )] != Mark::Unchecked by {}
                            }
                        }
                    }
                }
                c = c + 1;
            }
            proof {
                assert(dir * size * size + r * size + size == dir * size * size + (r + 1) * size) by (nonlinear_arith);
                assert(dir * (sz * sz) + r * sz + sz == dir * (sz * sz) + (r + 1) * sz) by (nonlinear_arith);
            }
            r = r + 1;
        }
        proof {
            assert(dir * size * size + size * size == (dir + 1) * size * size) by (nonlinear_arith);
            assert(dir * (sz * sz) + size * sz == (dir + 1) * (sz * sz)) by (nonlinear_arith)
                requires
                    size == sz,
            ;
        }
        dir = dir + 1;
    }
    proof {
        assert(4 * size * size == 4 * (sz * sz)) by (nonlinear_arith)
            requires
                size == sz,
        ;
    }
    (total, possible, guaranteed)
}

/// Every cell of the run of five from `(r, c)` in direction `dir` is checked.
pub open spec fn segment_checked(size: int, s: Seq<Mark>, r: int, c: int, dir: int) -> bool {
    forall|k: int| 0 <= k < 5 ==> s[#[trigger] segment_cell(size, r, c, dir, k)] == Mark::Checked
}

/// Some run of five cells is fully checked.
pub open spec fn five_checked(size: int, s: Seq<Mark>) -> bool {
    exists|r: int, c: int, dir: int|
        segment_fits(size, r, c, dir) && #[trigger] segment_checked(size, s, r, c, dir)
}

/// Every cell of the run of five from `(r, c)` in direction `dir` is checked.
fn segment_all_checked(state: &SolverState, r: usize, c: usize, dir: usize) -> (res: bool)
    requires
        state.wf(),
        segment_fits(state.side(), r as int, c as int, dir as int),
    ensures
        res == segment_checked(state.side(), state@, r as int, c as int, dir as int),
{
    proof {
        state.lemma_bounds();
    }
    let mut k: usize = 0;
    while k < 5
        invariant
            state.wf(),
            1 <= state.side() <= 32,
            segment_fits(state.side(), r as int, c as int, dir as int),
            k <= 5,
            forall|q: int|
                0 <= q < k ==> state@[#[trigger] segment_cell(state.side(), r as int, c as int, dir as int, q)]
                    == Mark::Checked,
        decreases 5 - k,
    {
        let row = if dir == 0 {
            r
        } else {
            r + k
        };
        let col = if dir == 1 {
            c
        } else if dir == 3 {
            c - k
        } else {
            c + k
        };
        assert(row as int == r as int + k as int * crate::rules::dir_dr(dir as int)) by {
            if dir == 0 {
                assert(k as int * 0 == 0);
            } else {
                assert(k as int * 1 == k as int);
            }
        }
        assert(col as int == c as int + k as int * crate::rules::dir_dc(dir as int)) by {
            if dir == 1 {
                assert(k as int * 0 == 0);
            } else if dir == 3 {
                assert(k as int * -1 == -k as int);
            } else {
                assert(k as int * 1 == k as int);
            }
        }
        assert(segment_cell(state.side(), r as int, c as int, dir as int, k as int) == id_of(
            state.side(),
            row as int,
            col as int,
        ));
        if !state.is_checked(row, col) {
            return false;
        }
        k = k + 1;
    }
    true
}

/// No solution that extends `before` is lost: the step accepts, and every
/// such solution also extends `after`.
pub open spec fn sound_step(
    size: int,
    colors: Seq<Color>,
    before: Seq<Mark>,
    after: Seq<Mark>,
    ok: bool,
) -> bool {
    forall|sol: Seq<Mark>|
        is_solution(size, colors, sol) && #[trigger] extends(before, sol) ==> ok && extends(
            after,
            sol,
        )
}

/// A decided extension checks at least the checked cells of a line and at
/// most those plus its unknown ones; at the lower bound every unknown cell of
/// the line ends unchecked, at the upper bound checked.
pub proof fn lemma_decided_range(s: Seq<Mark>, t: Seq<Mark>, n: int, p: spec_fn(int) -> bool)
    requires
        extends(s, t),
        decided(t),
        0 <= n <= s.len(),
    ensures
        count_upto(s, n, p, Mark::Checked) <= count_upto(t, n, p, Mark::Checked),
        count_upto(t, n, p, Mark::Checked) <= count_upto(s, n, p, Mark::Checked) + count_upto(
            s,
            n,
            p,
            Mark::Unknown,
        ),
        count_upto(t, n, p, Mark::Checked) == count_upto(s, n, p, Mark::Checked) ==> forall|i: int|
            0 <= i < n && p(i) && s[i] == Mark::Unknown ==> #[trigger] t[i] == Mark::Unchecked,
        count_upto(t, n, p, Mark::Checked) == count_upto(s, n, p, Mark::Checked) + count_upto(
            s,
            n,
            p,
            Mark::Unknown,
        ) ==> forall|i: int|
            0 <= i < n && p(i) && s[i] == Mark::Unknown ==> #[trigger] t[i] == Mark::Checked,
    decreases n,
{
    if n > 0 {
        lemma_decided_range(s, t, n - 1, p);
        let k = n - 1;
        assert(t[k] != Mark::Unknown);
        if s[k] != Mark::Unknown {
            assert(t[k] == s[k]);
        }
    }
}

/// Filling the unknown cells of `line` with `v` keeps a solution that gives
/// `v` to every cell of the line unknown on an earlier board `base`.
pub proof fn lemma_fill_sound(
    base: Seq<Mark>,
    s: Seq<Mark>,
    line: spec_fn(int) -> bool,
    v: Mark,
    sol: Seq<Mark>,
)
    requires
        extends(base, s),
        extends(s, sol),
        forall|i: int| 0 <= i < base.len() && line(i) && base[i] == Mark::Unknown ==> #[trigger] sol[i] == v,
    ensures
        extends(filled(s, line, v), sol),
{
    assert forall|i: int|
        0 <= i < s.len() && #[trigger] filled(s, line, v)[i] != Mark::Unknown implies sol[i] == filled(
        s,
        line,
        v,
    )[i] by {
        if line(i) && s[i] == Mark::Unknown {
            if base[i] != Mark::Unknown {
                assert(s[i] == base[i]);
            }
        }
    }
}

/// A run of five free of unchecked cells on an extension was free already.
pub proof fn lemma_five_monotone(size: int, s: Seq<Mark>, t: Seq<Mark>)
    requires
        extends(s, t),
        s.len() == size * size,
        five_possible(size, t),
    ensures
        five_possible(size, s),
{
    let (r, c, dir) = choose|r: int, c: int, dir: int|
        segment_fits(size, r, c, dir) && #[trigger] segment_avoids(size, t, r, c, dir, Mark::Unchecked);
    assert forall|k: int| 0 <= k < 5 implies s[#[trigger] segment_cell(size, r, c, dir, k)]
        != Mark::Unchecked by {
        let rr = r + k * crate::rules::dir_dr(dir);
        let cc = c + k * crate::rules::dir_dc(dir);
        if dir == 0 {
            assert(k * 0 == 0 && k * 1 == k);
        } else if dir == 1 {
            assert(k * 0 == 0 && k * 1 == k);
        } else if dir == 2 {
            assert(k * 1 == k);
        } else {
            assert(k * 1 == k && k * -1 == -k);
        }
        assert(0 <= rr < size && 0 <= cc < size);
        crate::state::lemma_rc_id(size, rr, cc);
        let cell = segment_cell(size, r, c, dir, k);
        assert(t[cell] != Mark::Unchecked);
    }
    assert(segment_avoids(size, s, r, c, dir, Mark::Unchecked));
}

/// Every solution keeps the black cells checked, so it extends the starting board.
pub proof fn lemma_solution_extends_blacks(size: int, colors: Seq<Color>, sol: Seq<Mark>)
    requires
        is_solution(size, colors, sol),
    ensures
        extends(black_marks(colors), sol),
{
    assert forall|i: int|
        0 <= i < black_marks(colors).len() && #[trigger] black_marks(colors)[i] != Mark::Unknown implies sol[i]
        == black_marks(colors)[i] by {
        assert(cell_ok(size, colors, sol, i));
    }
}

/// Every solution extending `s` gives cell `cell` the mark `m`.
pub open spec fn forced_in(size: int, colors: Seq<Color>, s: Seq<Mark>, cell: int, m: Mark) -> bool {
    forall|sol: Seq<Mark>|
        is_solution(size, colors, sol) && #[trigger] extends(s, sol) ==> sol[cell] == m
}

/// Some solution keeps every cell of `m` checked (the other cells are open).
pub open spec fn completable(size: int, colors: Seq<Color>, m: u32) -> bool {
    exists|sol: Seq<Mark>|
        is_solution(size, colors, sol) && #[trigger] extends(seeded_marks(colors, m), sol)
}

/// Some solution keeps `m` and checks no non-black cell outside it: the
/// checked cells are already a full solution.
pub open spec fn complete_as_is(size: int, colors: Seq<Color>, m: u32) -> bool {
    exists|sol: Seq<Mark>|
        is_solution(size, colors, sol) && #[trigger] extends(seeded_marks(colors, m), sol) && forall|i: int|
            0 <= i < size * size && colors[i] != Color::Black && sol[i] == Mark::Checked
                ==> #[trigger] crate::state::bit_set(m, i as u32)
}

/// `m` without cell `c`.
pub open spec fn without(m: u32, c: int) -> u32 {
    m & !(1u32 << (c as u32))
}

/// Testing a single bit with a mask.
pub proof fn lemma_bit_and(x: u32, c: u32)
    requires
        c < 32,
    ensures
        ((x & (1u32 << c)) != 0) == crate::state::bit_set(x, c),
{
    assert(((x & (1u32 << c)) != 0) == ((x >> c) & 1u32 == 1u32)) by (bit_vector)
        requires
            c < 32,
    ;
}

/// `found` is what a search for solutions extending `seeded` with `limit`
/// (0: none) owes: distinct boards, each a solution extending `seeded`, at
/// most `limit` of them, and every such solution when it stopped short of
/// the limit.
pub open spec fn counts_solutions(
    size: int,
    colors: Seq<Color>,
    seeded: Seq<Mark>,
    limit: int,
    found: Seq<u32>,
) -> bool {
    &&& forall|a: int, b: int|
        0 <= a < b < found.len() ==> marks_of(size * size, found[a]) != marks_of(size * size, found[b])
    &&& forall|k: int|
        0 <= k < found.len() ==> mask_solves(size, colors, #[trigger] found[k]) && extends(
            seeded,
            marks_of(size * size, found[k]),
        )
    &&& forall|k: int, i: u32|
        0 <= k < found.len() && size * size <= i < 32 ==> !#[trigger] crate::state::bit_set(found[k], i)
    &&& limit != 0 ==> found.len() <= limit
    &&& limit == 0 || found.len() < limit ==> forall|sol: Seq<Mark>|
        is_solution(size, colors, sol) && #[trigger] extends(seeded, sol) ==> exists|k: int|
            0 <= k < found.len() && marks_of(size * size, found[k]) == sol
}

/// Number of cells that are not black.
pub open spec fn non_black_count(colors: Seq<Color>) -> nat {
    line_count(Seq::new(colors.len(), |i: int| Mark::Checked), crate::rules::non_black(colors), Mark::Checked)
}

/// `b` is a board the reasoning simulation may end on: it keeps the black
/// cells, every solution extends it, it is decided when the analysis reports
/// the puzzle solved, and the bingo statistics describe it.
pub open spec fn final_board(size: int, colors: Seq<Color>, r: HumanDifficultyAnalysis, b: Seq<Mark>) -> bool {
    &&& b.len() == size * size
    &&& extends(black_marks(colors), b)
    &&& forall|sol: Seq<Mark>| #[trigger] is_solution(size, colors, sol) ==> extends(b, sol)
    &&& r.solved ==> decided(b)
    &&& (r.bingo_segments_possible > 0 <==> five_possible(size, b))
    &&& (r.bingo_segments_guaranteed > 0 <==> five_checked(size, b))
    &&& r.bingo_segments_guaranteed <= r.bingo_segments_possible <= r.bingo_segments_total
}

/// Counting a list of distinct in-range cells on an all-checked board gives its length.
proof fn lemma_count_in_all(s: Seq<Mark>, ids: Seq<usize>)
    requires
        forall|i: int| 0 <= i < s.len() ==> #[trigger] s[i] == Mark::Checked,
        forall|k: int| 0 <= k < ids.len() ==> #[trigger] ids[k] < s.len(),
    ensures
        count_in(s, ids, Mark::Checked) == ids.len(),
    decreases ids.len(),
{
    if ids.len() > 0 {
        assert forall|k: int| 0 <= k < ids.drop_last().len() implies #[trigger] ids.drop_last()[k] < s.len() by {
            assert(ids.drop_last()[k] == ids[k]);
        }
        lemma_count_in_all(s, ids.drop_last());
    }
}

/// Cyan cell `i` is undecided and every cell beside it is unchecked.
pub open spec fn cyan_blocked(size: int, s: Seq<Mark>, i: int) -> bool {
    &&& s[i] == Mark::Unknown
    &&& line_count(s, adj4(size, i), Mark::Checked) == 0
    &&& line_count(s, adj4(size, i), Mark::Unknown) == 0
}

/// Lines whose cells are all unchecked stay so on an extension.
proof fn lemma_still_unchecked(s: Seq<Mark>, t: Seq<Mark>, p: spec_fn(int) -> bool)
    requires
        extends(s, t),
        line_count(s, p, Mark::Checked) == 0,
        line_count(s, p, Mark::Unknown) == 0,
    ensures
        line_count(t, p, Mark::Checked) == 0,
        line_count(t, p, Mark::Unknown) == 0,
{
    crate::state::lemma_count_zero(s, s.len() as int, p, Mark::Checked);
    crate::state::lemma_count_zero(s, s.len() as int, p, Mark::Unknown);
    crate::state::lemma_count_zero(t, t.len() as int, p, Mark::Checked);
    crate::state::lemma_count_zero(t, t.len() as int, p, Mark::Unknown);
    assert forall|i: int| 0 <= i < t.len() && #[trigger] p(i) implies t[i] != Mark::Checked && t[i]
        != Mark::Unknown by {
        assert(s[i] != Mark::Unknown);
    }
}

/// Every neighbour of blue cell `i` that was undecided on `start` is unchecked on `s`.
pub open spec fn blue_done(size: int, start: Seq<Mark>, s: Seq<Mark>, i: int) -> bool {
    forall|j: int|
        0 <= j < start.len() && adj8(size, i)(j) && start[j] == Mark::Unknown ==> #[trigger] s[j]
            == Mark::Unchecked
}

/// Deciding an undecided cell of a line as checked raises the line's checked count.
proof fn lemma_extends_gain(s: Seq<Mark>, t: Seq<Mark>, n: int, p: spec_fn(int) -> bool, j: int)
    requires
        extends(s, t),
        0 <= j < n <= s.len(),
        p(j),
        s[j] == Mark::Unknown,
        t[j] == Mark::Checked,
    ensures
        count_upto(t, n, p, Mark::Checked) >= count_upto(s, n, p, Mark::Checked) + 1,
    decreases n,
{
    if j < n - 1 {
        lemma_extends_gain(s, t, n - 1, p, j);
        if s[n - 1] == Mark::Checked {
            assert(t[n - 1] == Mark::Checked);
        }
    } else {
        crate::state::lemma_extends_checked(s, t, n - 1, p);
    }
}

/// Direction, row and column of the `t`-th run of five, flattened as
/// `dir * size * size + row * size + col`.
pub open spec fn seg_decode(size: int, t: int) -> (int, int, int) {
    (t / (size * size), (t % (size * size)) / size, t % size)
}

/// Run `t` fits the board, and for `which` 1 holds no unchecked cell, for 2
/// is fully checked.
pub open spec fn seg_counts_as(size: int, s: Seq<Mark>, which: int, t: int) -> bool {
    let (d, r, c) = seg_decode(size, t);
    &&& segment_fits(size, r, c, d)
    &&& which == 1 ==> segment_avoids(size, s, r, c, d, Mark::Unchecked)
    &&& which == 2 ==> segment_checked(size, s, r, c, d)
}

/// How many of the first `t` runs count as `which` (0: all that fit).
pub open spec fn seg_count(size: int, s: Seq<Mark>, which: int, t: int) -> nat
    decreases t,
{
    if t <= 0 {
        0
    } else {
        seg_count(size, s, which, t - 1) + if seg_counts_as(size, s, which, t - 1) {
            1nat
        } else {
            0nat
        }
    }
}

/// Decoding the flattened index of a run.
proof fn lemma_seg_decode(size: int, d: int, r: int, c: int)
    requires
        0 < size,
        0 <= d,
        0 <= r < size,
        0 <= c < size,
    ensures
        seg_decode(size, d * (size * size) + r * size + c) == (d, r, c),
{
    let n = size * size;
    let t = d * n + r * size + c;
    assert(0 <= r * size + c < n) by (nonlinear_arith)
        requires
            0 <= r < size,
            0 <= c < size,
            n == size * size,
    ;
    vstd::arithmetic::div_mod::lemma_fundamental_div_mod_converse(t, n, d, r * size + c);
    vstd::arithmetic::div_mod::lemma_fundamental_div_mod_converse(r * size + c, size, r, c);
    assert(t == (d * size + r) * size + c) by (nonlinear_arith)
        requires
            t == d * n + r * size + c,
            n == size * size,
    ;
    vstd::arithmetic::div_mod::lemma_fundamental_div_mod_converse(t, size, d * size + r, c);
}

/// Solves puzzles by constraint propagation and backtracking search.
pub struct Solver {
    rules: RuleSet,
}

impl Solver {
    /// Side of the board.
    pub closed spec fn side(&self) -> int {
        self.rules.size as int
    }

    /// The colors of the cells, row by row.
    pub closed spec fn colors(&self) -> Seq<Color> {
        self.rules.colors@
    }

    /// The rule index agrees with the colors.
    pub closed spec fn wf(&self) -> bool {
        self.rules.wf() && self.rules.size <= 5
    }

    /// A well-formed solver has one color per cell and a side of 1 to 5.
    pub proof fn lemma_wf(&self)
        requires
            self.wf(),
        ensures
            self.colors().len() == self.side() * self.side(),
            1 <= self.side() <= 5,
    {
    }

    /// A board of this puzzle's size.
    pub open spec fn fits(&self, state: &SolverState) -> bool {
        &&& state.wf()
        &&& state.side() == self.side()
        &&& state@.len() == self.side() * self.side()
    }

    /// Counts checked and unknown cells of `ids`; also names an unknown one.
    fn tally(&self, state: &SolverState, ids: &Vec<usize>) -> (r: (usize, usize, usize))
        requires
            state.wf(),
            ids@.len() <= 8,
            forall|k: int| 0 <= k < ids@.len() ==> #[trigger] ids@[k] < state.cell_count(),
        ensures
            r.0 == count_in(state@, ids@, Mark::Checked),
            r.1 == count_in(state@, ids@, Mark::Unknown),
            r.1 > 0 ==> r.2 < state.cell_count() && state@[r.2 as int] == Mark::Unknown
                && ids@.contains(r.2),
            r.0 <= 8,
            r.1 <= 8,
    {
        let mut checked: usize = 0;
        let mut unknown: usize = 0;
        let mut last: usize = 0;
        let mut k: usize = 0;
        while k < ids.len()
            invariant
                state.wf(),
                ids@.len() <= 8,
                forall|q: int| 0 <= q < ids@.len() ==> #[trigger] ids@[q] < state.cell_count(),
                k <= ids@.len(),
                checked == count_in(state@, ids@.subrange(0, k as int), Mark::Checked),
                unknown == count_in(state@, ids@.subrange(0, k as int), Mark::Unknown),
                checked <= k,
                unknown <= k,
                unknown > 0 ==> last < state.cell_count() && state@[last as int] == Mark::Unknown
                    && ids@.contains(last),
            decreases ids@.len() - k,
        {
            let id = ids[k];
            proof {
                assert(ids@.subrange(0, k + 1).drop_last() =~= ids@.subrange(0, k as int));
            }
            if state.is_checked_id(id) {
                checked = checked + 1;
            } else if state.is_unknown_id(id) {
                unknown = unknown + 1;
                last = id;
                assert(ids@[k as int] == last);
            }
            k = k + 1;
        }
        proof {
            assert(ids@.subrange(0, k as int) =~= ids@);
        }
        (checked, unknown, last)
    }

    /// Red: some neighbour must be checked.
    fn propagate_red(&self, state: &mut SolverState, stats: &mut SolveStats) -> (r: bool)
        requires
            self.wf(),
            self.fits(old(state)),
            old(stats).wf(),
        ensures
            self.fits(final(state)),
            final(stats).wf(),
        search_counts_kept(*old(stats), *final(stats)),
        assignments_bounded(*old(stats), *final(stats), old(state)@, final(state)@),
            rule_step(self.side(), self.colors(), Color::Red, old(state)@, final(state)@, r),
            sound_step(self.side(), self.colors(), old(state)@, final(state)@, r),
    {
        let ghost start = state@;
        let ghost size = self.side();
        let ghost colors = self.colors();
        let list = &self.rules.red_cells;
        let mut k: usize = 0;
        while k < list.len()
            invariant
                self.wf(),
                self.fits(state),
                stats.wf(),
                search_counts_kept(*old(stats), *stats),
                assignments_bounded(*old(stats), *stats, old(state)@, state@),
                size == self.side(),
                colors == self.colors(),
                list == &self.rules.red_cells,
                start == old(state)@,
                k <= list@.len(),
                extends(start, state@),
                unknowns(state@) == unknowns(start) ==> forall|q: int|
                    0 <= q < k ==> cell_settled(size, colors, start, #[trigger] list@[q] as int),
                color_settled(size, colors, start, Color::Red) ==> state@ == start,
                sound_step(size, colors, start, state@, true),
            decreases list@.len() - k,
        {
            let id = list[k];
            let ghost cur = state@;
            let nb = &self.rules.neighbors8[id];
            let (checked, unknown, last) = self.tally(state, nb);
            proof {
                lemma_count_in_exact(cur, nb@, size * size, adj8(size, id as int), Mark::Checked);
                lemma_count_in_exact(cur, nb@, size * size, adj8(size, id as int), Mark::Unknown);
                lemma_extends_same(start, cur);
                if color_settled(size, colors, start, Color::Red) {
                    assert(cell_settled(size, colors, start, id as int));
                }
            }
            proof {
                assert forall|sol: Seq<Mark>|
                    is_solution(size, colors, sol) && #[trigger] extends(start, sol) implies checked
                    + unknown >= 1 && (checked == 0 && unknown == 1 ==> sol[last as int]
                    == Mark::Checked) by {
                    assert(extends(cur, sol));
                    assert(cell_ok(size, colors, sol, id as int));
                    lemma_decided_range(cur, sol, size * size, adj8(size, id as int));
                }
            }
            if checked == 0 {
                if unknown == 0 {
                    return false;
                }
                if unknown == 1 {
                    if !try_set_checked_id(state, last, AssignReason::Propagate, stats) {
                        return false;
                    }
                    proof {
                        assert forall|sol: Seq<Mark>|
                            is_solution(size, colors, sol) && #[trigger] extends(start, sol) implies extends(
                            state@,
                            sol,
                        ) by {
                            assert(extends(cur, sol));
                            assert(sol[last as int] == Mark::Checked);
                        }
                        assert(state@ != cur) by {
                            assert(state@[last as int] != cur[last as int]);
                        }
                        lemma_extends_same(cur, state@);
                    }
                }
            }
            proof {
                lemma_extends_same(start, state@);
            }
            k = k + 1;
        }
        proof {
            lemma_extends_same(start, state@);
            if unknowns(state@) == unknowns(start) {
                assert forall|i: int|
                    0 <= i < size * size && colors[i] == Color::Red implies #[trigger] cell_settled(
                    size,
                    colors,
                    start,
                    i,
                ) by {
                    assert(list@.contains(i as usize));
                }
            }
        }
        true
    }

        /// Blue: at most two neighbours checked; at two, the others are unchecked.
    fn propagate_blue(&self, state: &mut SolverState, stats: &mut SolveStats) -> (r: bool)
        requires
            self.wf(),
            self.fits(old(state)),
            old(stats).wf(),
        ensures
            self.fits(final(state)),
            final(stats).wf(),
        search_counts_kept(*old(stats), *final(stats)),
        assignments_bounded(*old(stats), *final(stats), old(state)@, final(state)@),
            rule_step(self.side(), self.colors(), Color::Blue, old(state)@, final(state)@, r),
            sound_step(self.side(), self.colors(), old(state)@, final(state)@, r),
            r ==> forall|i: int|
                0 <= i < self.side() * self.side() && self.colors()[i] == Color::Blue && line_count(
                    old(state)@,
                    adj8(self.side(), i),
                    Mark::Checked,
                ) == 2 ==> #[trigger] blue_done(self.side(), old(state)@, final(state)@, i),
    {
        let ghost start = state@;
        let ghost size = self.side();
        let ghost colors = self.colors();
        let list = &self.rules.blue_cells;
        let mut k: usize = 0;
        while k < list.len()
            invariant
                self.wf(),
                self.fits(state),
                stats.wf(),
                search_counts_kept(*old(stats), *stats),
                assignments_bounded(*old(stats), *stats, old(state)@, state@),
                size == self.side(),
                colors == self.colors(),
                list == &self.rules.blue_cells,
                start == old(state)@,
                k <= list@.len(),
                extends(start, state@),
                unknowns(state@) == unknowns(start) ==> forall|q: int|
                    0 <= q < k ==> cell_settled(size, colors, start, #[trigger] list@[q] as int),
                color_settled(size, colors, start, Color::Blue) ==> state@ == start,
                sound_step(size, colors, start, state@, true),
                forall|q: int|
                    0 <= q < k && line_count(start, adj8(size, list@[q] as int), Mark::Checked) == 2
                        ==> #[trigger] blue_done(size, start, state@, list@[q] as int),
            decreases list@.len() - k,
        {
            let id = list[k];
            let ghost cur = state@;
            let nb = &self.rules.neighbors8[id];
            let (checked, unknown, last) = self.tally(state, nb);
            proof {
                lemma_count_in_exact(cur, nb@, size * size, adj8(size, id as int), Mark::Checked);
                lemma_count_in_exact(cur, nb@, size * size, adj8(size, id as int), Mark::Unknown);
                lemma_extends_same(start, cur);
                if color_settled(size, colors, start, Color::Blue) {
                    assert(cell_settled(size, colors, start, id as int));
                }
            }
            proof {
                crate::state::lemma_extends_checked(start, cur, size * size, adj8(size, id as int));
            }
            proof {
                assert forall|sol: Seq<Mark>|
                    is_solution(size, colors, sol) && #[trigger] extends(start, sol) implies checked <= 2
                    && (checked == 2 ==> forall|i: int|
                    0 <= i < cur.len() && adj8(size, id as int)(i) && cur[i] == Mark::Unknown
                        ==> #[trigger] sol[i] == Mark::Unchecked) by {
                    assert(extends(cur, sol));
                    assert(cell_ok(size, colors, sol, id as int));
                    lemma_decided_range(cur, sol, size * size, adj8(size, id as int));
                }
            }
            if checked > 2 {
                return false;
            }
            if checked == 2 {
                fill_cells_unknowns_as(state, nb, false, stats, Ghost(adj8(size, id as int)));
                proof {
                    assert forall|sol: Seq<Mark>|
                        is_solution(size, colors, sol) && #[trigger] extends(start, sol) implies extends(
                        state@,
                        sol,
                    ) by {
                        assert(extends(cur, sol));
                        lemma_fill_sound(cur, cur, adj8(size, id as int), Mark::Unchecked, sol);
                    }
                    lemma_filled(cur, adj8(size, id as int), Mark::Unchecked);
                    lemma_extends_same(cur, state@);
                }
            }
            proof {
                lemma_extends_same(start, state@);
                assert forall|q: int|
                    0 <= q < k + 1 && line_count(start, adj8(size, list@[q] as int), Mark::Checked) == 2
                        implies #[trigger] blue_done(size, start, state@, list@[q] as int) by {
                    let i = list@[q] as int;
                    assert forall|j: int|
                        0 <= j < start.len() && adj8(size, i)(j) && start[j] == Mark::Unknown implies #[trigger] state@[j]
                        == Mark::Unchecked by {
                        if q < k {
                            assert(blue_done(size, start, cur, i));
                            assert(cur[j] == Mark::Unchecked);
                        } else {
                            crate::state::lemma_extends_checked(start, cur, size * size, adj8(size, i));
                            if cur[j] == Mark::Checked {
                                lemma_extends_gain(start, cur, size * size, adj8(size, i), j);
                            }
                            assert(cur[j] != Mark::Checked);
                        }
                    }
                }
            }
            k = k + 1;
        }
        proof {
            assert forall|i: int|
                0 <= i < size * size && colors[i] == Color::Blue && line_count(start, adj8(size, i), Mark::Checked)
                    == 2 implies #[trigger] blue_done(size, start, state@, i) by {
                assert(list@.contains(i as usize));
                let q = choose|q: int| 0 <= q < list@.len() && list@[q] == i as usize;
                assert(blue_done(size, start, state@, list@[q] as int));
            }
            lemma_extends_same(start, state@);
            if unknowns(state@) == unknowns(start) {
                assert forall|i: int|
                    0 <= i < size * size && colors[i] == Color::Blue implies #[trigger] cell_settled(
                    size,
                    colors,
                    start,
                    i,
                ) by {
                    assert(list@.contains(i as usize));
                }
            }
        }
        true
    }

        /// Purple: an odd number of neighbours checked.
    fn propagate_purple(&self, state: &mut SolverState, stats: &mut SolveStats) -> (r: bool)
        requires
            self.wf(),
            self.fits(old(state)),
            old(stats).wf(),
        ensures
            self.fits(final(state)),
            final(stats).wf(),
        search_counts_kept(*old(stats), *final(stats)),
        assignments_bounded(*old(stats), *final(stats), old(state)@, final(state)@),
            rule_step(self.side(), self.colors(), Color::Purple, old(state)@, final(state)@, r),
            sound_step(self.side(), self.colors(), old(state)@, final(state)@, r),
    {
        let ghost start = state@;
        let ghost size = self.side();
        let ghost colors = self.colors();
        let list = &self.rules.purple_cells;
        let mut k: usize = 0;
        while k < list.len()
            invariant
                self.wf(),
                self.fits(state),
                stats.wf(),
                search_counts_kept(*old(stats), *stats),
                assignments_bounded(*old(stats), *stats, old(state)@, state@),
                size == self.side(),
                colors == self.colors(),
                list == &self.rules.purple_cells,
                start == old(state)@,
                k <= list@.len(),
                extends(start, state@),
                unknowns(state@) == unknowns(start) ==> forall|q: int|
                    0 <= q < k ==> cell_settled(size, colors, start, #[trigger] list@[q] as int),
                color_settled(size, colors, start, Color::Purple) ==> state@ == start,
                sound_step(size, colors, start, state@, true),
            decreases list@.len() - k,
        {
            let id = list[k];
            let ghost cur = state@;
            let nb = &self.rules.neighbors8[id];
            let (checked, unknown, last) = self.tally(state, nb);
            proof {
                lemma_count_in_exact(cur, nb@, size * size, adj8(size, id as int), Mark::Checked);
                lemma_count_in_exact(cur, nb@, size * size, adj8(size, id as int), Mark::Unknown);
                lemma_extends_same(start, cur);
                if color_settled(size, colors, start, Color::Purple) {
                    assert(cell_settled(size, colors, start, id as int));
                }
            }
            proof {
                assert forall|sol: Seq<Mark>|
                    is_solution(size, colors, sol) && #[trigger] extends(start, sol) implies (unknown
                    == 0 ==> checked % 2 == 1) && (unknown == 1 ==> sol[last as int] == if checked % 2
                    == 0 {
                    Mark::Checked
                } else {
                    Mark::Unchecked
                }) by {
                    assert(extends(cur, sol));
                    assert(cell_ok(size, colors, sol, id as int));
                    lemma_decided_range(cur, sol, size * size, adj8(size, id as int));
                }
            }
            if unknown == 0 {
                if checked % 2 != 1 {
                    return false;
                }
            } else if unknown == 1 {
                let ok = if checked % 2 == 0 {
                    try_set_checked_id(state, last, AssignReason::Propagate, stats)
                } else {
                    try_set_unchecked_id(state, last, AssignReason::Propagate, stats)
                };
                if !ok {
                    return false;
                }
                proof {
                    assert(state@[last as int] != cur[last as int]);
                    lemma_extends_same(cur, state@);
                    assert forall|sol: Seq<Mark>|
                        is_solution(size, colors, sol) && #[trigger] extends(start, sol) implies extends(
                        state@,
                        sol,
                    ) by {
                        assert(extends(cur, sol));
                    }
                }
            }
            proof {
                lemma_extends_same(start, state@);
            }
            k = k + 1;
        }
        proof {
            lemma_extends_same(start, state@);
            if unknowns(state@) == unknowns(start) {
                assert forall|i: int|
                    0 <= i < size * size && colors[i] == Color::Purple implies #[trigger] cell_settled(
                    size,
                    colors,
                    start,
                    i,
                ) by {
                    assert(list@.contains(i as usize));
                }
            }
        }
        true
    }

        /// Orange: an even number of neighbours checked.
    fn propagate_orange(&self, state: &mut SolverState, stats: &mut SolveStats) -> (r: bool)
        requires
            self.wf(),
            self.fits(old(state)),
            old(stats).wf(),
        ensures
            self.fits(final(state)),
            final(stats).wf(),
        search_counts_kept(*old(stats), *final(stats)),
        assignments_bounded(*old(stats), *final(stats), old(state)@, final(state)@),
            rule_step(self.side(), self.colors(), Color::Orange, old(state)@, final(state)@, r),
            sound_step(self.side(), self.colors(), old(state)@, final(state)@, r),
    {
        let ghost start = state@;
        let ghost size = self.side();
        let ghost colors = self.colors();
        let list = &self.rules.orange_cells;
        let mut k: usize = 0;
        while k < list.len()
            invariant
                self.wf(),
                self.fits(state),
                stats.wf(),
                search_counts_kept(*old(stats), *stats),
                assignments_bounded(*old(stats), *stats, old(state)@, state@),
                size == self.side(),
                colors == self.colors(),
                list == &self.rules.orange_cells,
                start == old(state)@,
                k <= list@.len(),
                extends(start, state@),
                unknowns(state@) == unknowns(start) ==> forall|q: int|
                    0 <= q < k ==> cell_settled(size, colors, start, #[trigger] list@[q] as int),
                color_settled(size, colors, start, Color::Orange) ==> state@ == start,
                sound_step(size, colors, start, state@, true),
            decreases list@.len() - k,
        {
            let id = list[k];
            let ghost cur = state@;
            let nb = &self.rules.neighbors8[id];
            let (checked, unknown, last) = self.tally(state, nb);
            proof {
                lemma_count_in_exact(cur, nb@, size * size, adj8(size, id as int), Mark::Checked);
                lemma_count_in_exact(cur, nb@, size * size, adj8(size, id as int), Mark::Unknown);
                lemma_extends_same(start, cur);
                if color_settled(size, colors, start, Color::Orange) {
                    assert(cell_settled(size, colors, start, id as int));
                }
            }
            proof {
                assert forall|sol: Seq<Mark>|
                    is_solution(size, colors, sol) && #[trigger] extends(start, sol) implies (unknown
                    == 0 ==> checked % 2 == 0) && (unknown == 1 ==> sol[last as int] == if checked % 2
                    == 1 {
                    Mark::Checked
                } else {
                    Mark::Unchecked
                }) by {
                    assert(extends(cur, sol));
                    assert(cell_ok(size, colors, sol, id as int));
                    lemma_decided_range(cur, sol, size * size, adj8(size, id as int));
                }
            }
            if unknown == 0 {
                if checked % 2 != 0 {
                    return false;
                }
            } else if unknown == 1 {
                let ok = if checked % 2 == 1 {
                    try_set_checked_id(state, last, AssignReason::Propagate, stats)
                } else {
                    try_set_unchecked_id(state, last, AssignReason::Propagate, stats)
                };
                if !ok {
                    return false;
                }
                proof {
                    assert(state@[last as int] != cur[last as int]);
                    lemma_extends_same(cur, state@);
                    assert forall|sol: Seq<Mark>|
                        is_solution(size, colors, sol) && #[trigger] extends(start, sol) implies extends(
                        state@,
                        sol,
                    ) by {
                        assert(extends(cur, sol));
                    }
                }
            }
            proof {
                lemma_extends_same(start, state@);
            }
            k = k + 1;
        }
        proof {
            lemma_extends_same(start, state@);
            if unknowns(state@) == unknowns(start) {
                assert forall|i: int|
                    0 <= i < size * size && colors[i] == Color::Orange implies #[trigger] cell_settled(
                    size,
                    colors,
                    start,
                    i,
                ) by {
                    assert(list@.contains(i as usize));
                }
            }
        }
        true
    }

    /// Cyan: a checked cyan cell needs a checked cell beside it; an unknown one
    /// with every side neighbour unchecked cannot be checked.
    fn propagate_cyan(&self, state: &mut SolverState, stats: &mut SolveStats) -> (r: bool)
        requires
            self.wf(),
            self.fits(old(state)),
            old(stats).wf(),
        ensures
            self.fits(final(state)),
            final(stats).wf(),
        search_counts_kept(*old(stats), *final(stats)),
        assignments_bounded(*old(stats), *final(stats), old(state)@, final(state)@),
            rule_step(self.side(), self.colors(), Color::Cyan, old(state)@, final(state)@, r),
            sound_step(self.side(), self.colors(), old(state)@, final(state)@, r),
            r ==> forall|i: int|
                0 <= i < self.side() * self.side() && self.colors()[i] == Color::Cyan && #[trigger] cyan_blocked(
                    self.side(),
                    old(state)@,
                    i,
                ) ==> final(state)@[i] == Mark::Unchecked,
    {
        let ghost start = state@;
        let ghost size = self.side();
        let ghost colors = self.colors();
        let list = &self.rules.cyan_cells;
        let mut k: usize = 0;
        while k < list.len()
            invariant
                self.wf(),
                self.fits(state),
                stats.wf(),
                search_counts_kept(*old(stats), *stats),
                assignments_bounded(*old(stats), *stats, old(state)@, state@),
                size == self.side(),
                colors == self.colors(),
                list == &self.rules.cyan_cells,
                start == old(state)@,
                k <= list@.len(),
                extends(start, state@),
                unknowns(state@) == unknowns(start) ==> forall|q: int|
                    0 <= q < k ==> cell_settled(size, colors, start, #[trigger] list@[q] as int),
                color_settled(size, colors, start, Color::Cyan) ==> state@ == start,
                sound_step(size, colors, start, state@, true),
                forall|q: int|
                    0 <= q < k && #[trigger] cyan_blocked(size, start, list@[q] as int) ==> state@[list@[q] as int]
                        == Mark::Unchecked,
            decreases list@.len() - k,
        {
            let id = list[k];
            let ghost cur = state@;
            let nb = &self.rules.neighbors4[id];
            let (checked, unknown, last) = self.tally(state, nb);
            proof {
                lemma_count_in_exact(cur, nb@, size * size, adj4(size, id as int), Mark::Checked);
                lemma_count_in_exact(cur, nb@, size * size, adj4(size, id as int), Mark::Unknown);
                lemma_extends_same(start, cur);
                if color_settled(size, colors, start, Color::Cyan) {
                    assert(cell_settled(size, colors, start, id as int));
                }
            }
            proof {
                assert forall|sol: Seq<Mark>|
                    is_solution(size, colors, sol) && #[trigger] extends(start, sol) implies (cur[id as int]
                    == Mark::Checked ==> checked + unknown >= 1 && (checked == 0 && unknown == 1
                    ==> sol[last as int] == Mark::Checked)) && (cur[id as int] == Mark::Unknown
                    && checked == 0 && unknown == 0 ==> sol[id as int] == Mark::Unchecked) by {
                    assert(extends(cur, sol));
                    assert(cell_ok(size, colors, sol, id as int));
                    lemma_decided_range(cur, sol, size * size, adj4(size, id as int));
                }
            }
            if state.is_checked_id(id) {
                if checked == 0 {
                    if unknown == 0 {
                        return false;
                    }
                    if unknown == 1 {
                        if !try_set_checked_id(state, last, AssignReason::Propagate, stats) {
                            return false;
                        }
                        proof {
                            assert(state@[last as int] != cur[last as int]);
                            lemma_extends_same(cur, state@);
                    assert forall|sol: Seq<Mark>|
                        is_solution(size, colors, sol) && #[trigger] extends(start, sol) implies extends(
                        state@,
                        sol,
                    ) by {
                        assert(extends(cur, sol));
                    }
                        }
                    }
                }
            } else if state.is_unknown_id(id) {
                if checked == 0 && unknown == 0 {
                    try_set_unchecked_id(state, id, AssignReason::Propagate, stats);
                    proof {
                        assert(state@[id as int] != cur[id as int]);
                        lemma_extends_same(cur, state@);
                    assert forall|sol: Seq<Mark>|
                        is_solution(size, colors, sol) && #[trigger] extends(start, sol) implies extends(
                        state@,
                        sol,
                    ) by {
                        assert(extends(cur, sol));
                    }
                    }
                }
            }
            proof {
                lemma_extends_same(start, state@);
                if cyan_blocked(size, start, id as int) {
                    lemma_still_unchecked(start, cur, adj4(size, id as int));
                }
                assert forall|q: int|
                    0 <= q < k + 1 && #[trigger] cyan_blocked(size, start, list@[q] as int) implies state@[list@[q] as int]
                    == Mark::Unchecked by {
                    if q < k {
                        assert(cur[list@[q] as int] == Mark::Unchecked);
                    }
                }
            }
            k = k + 1;
        }
        proof {
            assert forall|i: int|
                0 <= i < size * size && colors[i] == Color::Cyan && #[trigger] cyan_blocked(size, start, i)
                    implies state@[i] == Mark::Unchecked by {
                assert(list@.contains(i as usize));
                let q = choose|q: int| 0 <= q < list@.len() && list@[q] == i as usize;
                assert(cyan_blocked(size, start, list@[q] as int));
            }
            lemma_extends_same(start, state@);
            if unknowns(state@) == unknowns(start) {
                assert forall|i: int|
                    0 <= i < size * size && colors[i] == Color::Cyan implies #[trigger] cell_settled(
                    size,
                    colors,
                    start,
                    i,
                ) by {
                    assert(list@.contains(i as usize));
                }
            }
        }
        true
    }

    
        /// Green: the cell's row and column hold equally many checked cells.
    fn propagate_green(&self, state: &mut SolverState, stats: &mut SolveStats) -> (r: bool)
        requires
            self.wf(),
            self.fits(old(state)),
            old(stats).wf(),
        ensures
            self.fits(final(state)),
            final(stats).wf(),
        search_counts_kept(*old(stats), *final(stats)),
        assignments_bounded(*old(stats), *final(stats), old(state)@, final(state)@),
            rule_step(self.side(), self.colors(), Color::Green, old(state)@, final(state)@, r),
            sound_step(self.side(), self.colors(), old(state)@, final(state)@, r),
    {
        let ghost start = state@;
        let ghost size = self.side();
        let ghost colors = self.colors();
        let list = &self.rules.green_cells;
        let mut k: usize = 0;
        while k < list.len()
            invariant
                self.wf(),
                self.fits(state),
                stats.wf(),
                search_counts_kept(*old(stats), *stats),
                assignments_bounded(*old(stats), *stats, old(state)@, state@),
                size == self.side(),
                colors == self.colors(),
                list == &self.rules.green_cells,
                start == old(state)@,
                k <= list@.len(),
                extends(start, state@),
                unknowns(state@) == unknowns(start) ==> forall|q: int|
                    0 <= q < k ==> cell_settled(size, colors, start, #[trigger] list@[q] as int),
                color_settled(size, colors, start, Color::Green) ==> state@ == start,
                sound_step(size, colors, start, state@, true),
            decreases list@.len() - k,
        {
            let id = list[k];
            let ghost cur = state@;
            proof {
                state.lemma_bounds();
                crate::state::lemma_id_rc(size, id as int);
                lemma_extends_same(start, cur);
                if color_settled(size, colors, start, Color::Green) {
                    assert(cell_settled(size, colors, start, id as int));
                }
            }
            let row = id / self.rules.size;
            let col = id % self.rules.size;
            let (r_min, r_max) = state.row_min_max(row);
            let (c_min, c_max) = state.col_min_max(col);
            let ghost la = row_of(size, row as int);
            let ghost lb = col_of(size, col as int);
            proof {
                assert forall|sol: Seq<Mark>|
                    is_solution(size, colors, sol) && #[trigger] extends(start, sol) implies !(r_max < c_min
                    || c_max < r_min) && (r_max == c_min ==> (forall|i: int|
                    0 <= i < cur.len() && la(i) && cur[i] == Mark::Unknown ==> #[trigger] sol[i]
                        == Mark::Checked) && (forall|i: int|
                    0 <= i < cur.len() && lb(i) && cur[i] == Mark::Unknown ==> #[trigger] sol[i]
                        == Mark::Unchecked)) && (c_max == r_min ==> (forall|i: int|
                    0 <= i < cur.len() && lb(i) && cur[i] == Mark::Unknown ==> #[trigger] sol[i]
                        == Mark::Checked) && (forall|i: int|
                    0 <= i < cur.len() && la(i) && cur[i] == Mark::Unknown ==> #[trigger] sol[i]
                        == Mark::Unchecked)) by {
                    assert(extends(cur, sol));
                    assert(cell_ok(size, colors, sol, id as int));
                    lemma_decided_range(cur, sol, size * size, la);
                    lemma_decided_range(cur, sol, size * size, lb);
                }
            }
            if r_max < c_min || c_max < r_min {
                return false;
            }
            let ghost s0 = state@;
            if r_max == c_min {
                fill_row_unknowns_as(state, row, true, stats);
                let ghost s1 = state@;
                fill_col_unknowns_as(state, col, false, stats);
                proof {
                    lemma_filled(s0, la, Mark::Checked);
                    lemma_filled(s1, lb, Mark::Unchecked);
                    lemma_extends_same(s0, s1);
                    lemma_extends_same(s1, state@);
                    assert forall|sol: Seq<Mark>|
                        is_solution(size, colors, sol) && #[trigger] extends(start, sol) implies extends(
                        state@,
                        sol,
                    ) by {
                        assert(extends(cur, sol));
                        lemma_fill_sound(cur, s0, la, Mark::Checked, sol);
                        lemma_fill_sound(cur, s1, lb, Mark::Unchecked, sol);
                    }
                }
            }
            let ghost s2 = state@;
            proof {
                assert(extends(cur, s2));
                assert forall|sol: Seq<Mark>|
                    is_solution(size, colors, sol) && #[trigger] extends(start, sol) implies extends(
                    s2,
                    sol,
                ) by {
                    assert(extends(cur, sol));
                    if r_max == c_min {
                    } else {
                        assert(s2 == cur);
                    }
                }
            }
            if c_max == r_min {
                fill_col_unknowns_as(state, col, true, stats);
                let ghost s3 = state@;
                fill_row_unknowns_as(state, row, false, stats);
                proof {
                    lemma_filled(s2, lb, Mark::Checked);
                    lemma_filled(s3, la, Mark::Unchecked);
                    lemma_extends_same(s2, s3);
                    lemma_extends_same(s3, state@);
                    crate::state::lemma_extends_trans(cur, s2, s3);
                    assert forall|sol: Seq<Mark>|
                        is_solution(size, colors, sol) && #[trigger] extends(start, sol) implies extends(
                        state@,
                        sol,
                    ) by {
                        assert(extends(cur, sol));
                        assert(extends(s2, sol));
                        lemma_fill_sound(cur, s2, lb, Mark::Checked, sol);
                        lemma_fill_sound(cur, s3, la, Mark::Unchecked, sol);
                    }
                }
            }
            proof {
                lemma_extends_same(s0, s2);
                lemma_extends_same(s2, state@);
                lemma_extends_same(cur, state@);
                assert(extends(cur, state@));
            }
            proof {
                lemma_extends_same(start, state@);
            }
            k = k + 1;
        }
        proof {
            lemma_extends_same(start, state@);
            if unknowns(state@) == unknowns(start) {
                assert forall|i: int|
                    0 <= i < size * size && colors[i] == Color::Green implies #[trigger] cell_settled(
                    size,
                    colors,
                    start,
                    i,
                ) by {
                    assert(list@.contains(i as usize));
                }
            }
        }
        true
    }

    
        /// Yellow: the cell's two diagonals hold equally many checked cells.
    fn propagate_yellow(&self, state: &mut SolverState, stats: &mut SolveStats) -> (r: bool)
        requires
            self.wf(),
            self.fits(old(state)),
            old(stats).wf(),
        ensures
            self.fits(final(state)),
            final(stats).wf(),
        search_counts_kept(*old(stats), *final(stats)),
        assignments_bounded(*old(stats), *final(stats), old(state)@, final(state)@),
            rule_step(self.side(), self.colors(), Color::Yellow, old(state)@, final(state)@, r),
            sound_step(self.side(), self.colors(), old(state)@, final(state)@, r),
    {
        let ghost start = state@;
        let ghost size = self.side();
        let ghost colors = self.colors();
        let list = &self.rules.yellow_cells;
        let mut k: usize = 0;
        while k < list.len()
            invariant
                self.wf(),
                self.fits(state),
                stats.wf(),
                search_counts_kept(*old(stats), *stats),
                assignments_bounded(*old(stats), *stats, old(state)@, state@),
                size == self.side(),
                colors == self.colors(),
                list == &self.rules.yellow_cells,
                start == old(state)@,
                k <= list@.len(),
                extends(start, state@),
                unknowns(state@) == unknowns(start) ==> forall|q: int|
                    0 <= q < k ==> cell_settled(size, colors, start, #[trigger] list@[q] as int),
                color_settled(size, colors, start, Color::Yellow) ==> state@ == start,
                sound_step(size, colors, start, state@, true),
            decreases list@.len() - k,
        {
            let id = list[k];
            let ghost cur = state@;
            proof {
                state.lemma_bounds();
                crate::state::lemma_id_rc(size, id as int);
                lemma_extends_same(start, cur);
                if color_settled(size, colors, start, Color::Yellow) {
                    assert(cell_settled(size, colors, start, id as int));
                }
            }
            let row = id / self.rules.size;
            let col = id % self.rules.size;
            let down_id = row + (self.rules.size - 1) - col;
            let up_id = row + col;
            let (r_min, r_max) = state.diag_down_min_max(down_id);
            let (c_min, c_max) = state.diag_up_min_max(up_id);
            let ghost la = down_of(size, down_id as int);
            let ghost lb = up_of(size, up_id as int);
            proof {
                assert forall|sol: Seq<Mark>|
                    is_solution(size, colors, sol) && #[trigger] extends(start, sol) implies !(r_max < c_min
                    || c_max < r_min) && (r_max == c_min ==> (forall|i: int|
                    0 <= i < cur.len() && la(i) && cur[i] == Mark::Unknown ==> #[trigger] sol[i]
                        == Mark::Checked) && (forall|i: int|
                    0 <= i < cur.len() && lb(i) && cur[i] == Mark::Unknown ==> #[trigger] sol[i]
                        == Mark::Unchecked)) && (c_max == r_min ==> (forall|i: int|
                    0 <= i < cur.len() && lb(i) && cur[i] == Mark::Unknown ==> #[trigger] sol[i]
                        == Mark::Checked) && (forall|i: int|
                    0 <= i < cur.len() && la(i) && cur[i] == Mark::Unknown ==> #[trigger] sol[i]
                        == Mark::Unchecked)) by {
                    assert(extends(cur, sol));
                    assert(cell_ok(size, colors, sol, id as int));
                    lemma_decided_range(cur, sol, size * size, la);
                    lemma_decided_range(cur, sol, size * size, lb);
                }
            }
            if r_max < c_min || c_max < r_min {
                return false;
            }
            let ghost s0 = state@;
            if r_max == c_min {
                fill_cells_unknowns_as(state, &self.rules.diag_down_cells[down_id], true, stats, Ghost(la));
                let ghost s1 = state@;
                fill_cells_unknowns_as(state, &self.rules.diag_up_cells[up_id], false, stats, Ghost(lb));
                proof {
                    lemma_filled(s0, la, Mark::Checked);
                    lemma_filled(s1, lb, Mark::Unchecked);
                    lemma_extends_same(s0, s1);
                    lemma_extends_same(s1, state@);
                    assert forall|sol: Seq<Mark>|
                        is_solution(size, colors, sol) && #[trigger] extends(start, sol) implies extends(
                        state@,
                        sol,
                    ) by {
                        assert(extends(cur, sol));
                        lemma_fill_sound(cur, s0, la, Mark::Checked, sol);
                        lemma_fill_sound(cur, s1, lb, Mark::Unchecked, sol);
                    }
                }
            }
            let ghost s2 = state@;
            proof {
                assert(extends(cur, s2));
                assert forall|sol: Seq<Mark>|
                    is_solution(size, colors, sol) && #[trigger] extends(start, sol) implies extends(
                    s2,
                    sol,
                ) by {
                    assert(extends(cur, sol));
                    if r_max == c_min {
                    } else {
                        assert(s2 == cur);
                    }
                }
            }
            if c_max == r_min {
                fill_cells_unknowns_as(state, &self.rules.diag_up_cells[up_id], true, stats, Ghost(lb));
                let ghost s3 = state@;
                fill_cells_unknowns_as(state, &self.rules.diag_down_cells[down_id], false, stats, Ghost(la));
                proof {
                    lemma_filled(s2, lb, Mark::Checked);
                    lemma_filled(s3, la, Mark::Unchecked);
                    lemma_extends_same(s2, s3);
                    lemma_extends_same(s3, state@);
                    crate::state::lemma_extends_trans(cur, s2, s3);
                    assert forall|sol: Seq<Mark>|
                        is_solution(size, colors, sol) && #[trigger] extends(start, sol) implies extends(
                        state@,
                        sol,
                    ) by {
                        assert(extends(cur, sol));
                        assert(extends(s2, sol));
                        lemma_fill_sound(cur, s2, lb, Mark::Checked, sol);
                        lemma_fill_sound(cur, s3, la, Mark::Unchecked, sol);
                    }
                }
            }
            proof {
                lemma_extends_same(s0, s2);
                lemma_extends_same(s2, state@);
                lemma_extends_same(cur, state@);
                assert(extends(cur, state@));
            }
            proof {
                lemma_extends_same(start, state@);
            }
            k = k + 1;
        }
        proof {
            lemma_extends_same(start, state@);
            if unknowns(state@) == unknowns(start) {
                assert forall|i: int|
                    0 <= i < size * size && colors[i] == Color::Yellow implies #[trigger] cell_settled(
                    size,
                    colors,
                    start,
                    i,
                ) by {
                    assert(list@.contains(i as usize));
                }
            }
        }
        true
    }

    
    /// FiveInRow: some run of five cells can still be completed.
    fn propagate_five_in_a_row_possible(&self, state: &SolverState) -> (r: bool)
        requires
            state.wf(),
        ensures
            r == five_possible(state.side(), state@),
    {
        five_in_a_row_possible(state)
    }

    /// Records that `rule` changed the board when the unknown count moved.
    fn note_trigger(
        &self,
        stats: &mut SolveStats,
        rule: RuleType,
        before: u32,
        after: u32,
        any: bool,
    ) -> (r: bool)
        requires
            old(stats).wf(),
        ensures
            final(stats).wf(),
        search_counts_kept(*old(stats), *final(stats)),
            assign_same(*old(stats), *final(stats)),
            r == (any || before != after),
    {
        if before != after {
            stats.on_rule_trigger(rule, !any);
            true
        } else {
            any
        }
    }

    /// One round: every color rule in turn, then the five-in-a-row check.
    fn propagate_round(&self, state: &mut SolverState, stats: &mut SolveStats) -> (r: bool)
        requires
            self.wf(),
            self.fits(old(state)),
            old(stats).wf(),
        ensures
            self.fits(final(state)),
            final(stats).wf(),
        search_counts_kept(*old(stats), *final(stats)),
        assignments_bounded(*old(stats), *final(stats), old(state)@, final(state)@),
            extends(old(state)@, final(state)@),
            settled(self.side(), self.colors(), old(state)@) ==> r && final(state)@ == old(state)@,
            r && final(state)@ == old(state)@ ==> settled(self.side(), self.colors(), old(state)@),
            sound_step(self.side(), self.colors(), old(state)@, final(state)@, r),
    {
        let ghost size = self.side();
        let ghost colors = self.colors();
        let ghost s0 = state@;
        let mut any = false;
        let u0 = state.unknown_count();
        if !self.propagate_green(state, stats) {
            proof {
                assert forall|sol: Seq<Mark>|
                    is_solution(size, colors, sol) && #[trigger] extends(s0, sol) implies false by {
                    assert(extends(s0, sol));
                    assert(extends(state@, sol) && false);
                }
            }
            return false;
        }
        let ghost s1 = state@;
        let u1 = state.unknown_count();
        any = self.note_trigger(stats, RuleType::Green, u0, u1, any);
        if !self.propagate_yellow(state, stats) {
            proof {
                lemma_extends_same(s0, s1);
            }
            proof {
                assert forall|sol: Seq<Mark>|
                    is_solution(size, colors, sol) && #[trigger] extends(s0, sol) implies false by {
                    assert(extends(s0, sol));
                    assert(extends(s1, sol));
                    assert(extends(state@, sol) && false);
                }
            }
            return false;
        }
        let ghost s2 = state@;
        let u2 = state.unknown_count();
        any = self.note_trigger(stats, RuleType::Yellow, u1, u2, any);
        if !self.propagate_blue(state, stats) {
            proof {
                lemma_extends_same(s0, s1);
                lemma_extends_same(s1, s2);
            }
            proof {
                assert forall|sol: Seq<Mark>|
                    is_solution(size, colors, sol) && #[trigger] extends(s0, sol) implies false by {
                    assert(extends(s0, sol));
                    assert(extends(s1, sol));
                    assert(extends(s2, sol));
                    assert(extends(state@, sol) && false);
                }
            }
            return false;
        }
        let ghost s3 = state@;
        let u3 = state.unknown_count();
        any = self.note_trigger(stats, RuleType::Blue, u2, u3, any);
        if !self.propagate_red(state, stats) {
            proof {
                lemma_extends_same(s0, s1);
                lemma_extends_same(s1, s2);
                lemma_extends_same(s2, s3);
            }
            proof {
                assert forall|sol: Seq<Mark>|
                    is_solution(size, colors, sol) && #[trigger] extends(s0, sol) implies false by {
                    assert(extends(s0, sol));
                    assert(extends(s1, sol));
                    assert(extends(s2, sol));
                    assert(extends(s3, sol));
                    assert(extends(state@, sol) && false);
                }
            }
            return false;
        }
        let ghost s4 = state@;
        let u4 = state.unknown_count();
        any = self.note_trigger(stats, RuleType::Red, u3, u4, any);
        if !self.propagate_purple(state, stats) {
            proof {
                lemma_extends_same(s0, s1);
                lemma_extends_same(s1, s2);
                lemma_extends_same(s2, s3);
                lemma_extends_same(s3, s4);
            }
            proof {
                assert forall|sol: Seq<Mark>|
                    is_solution(size, colors, sol) && #[trigger] extends(s0, sol) implies false by {
                    assert(extends(s0, sol));
                    assert(extends(s1, sol));
                    assert(extends(s2, sol));
                    assert(extends(s3, sol));
                    assert(extends(s4, sol));
                    assert(extends(state@, sol) && false);
                }
            }
            return false;
        }
        let ghost s5 = state@;
        let u5 = state.unknown_count();
        any = self.note_trigger(stats, RuleType::Purple, u4, u5, any);
        if !self.propagate_orange(state, stats) {
            proof {
                lemma_extends_same(s0, s1);
                lemma_extends_same(s1, s2);
                lemma_extends_same(s2, s3);
                lemma_extends_same(s3, s4);
                lemma_extends_same(s4, s5);
            }
            proof {
                assert forall|sol: Seq<Mark>|
                    is_solution(size, colors, sol) && #[trigger] extends(s0, sol) implies false by {
                    assert(extends(s0, sol));
                    assert(extends(s1, sol));
                    assert(extends(s2, sol));
                    assert(extends(s3, sol));
                    assert(extends(s4, sol));
                    assert(extends(s5, sol));
                    assert(extends(state@, sol) && false);
                }
            }
            return false;
        }
        let ghost s6 = state@;
        let u6 = state.unknown_count();
        any = self.note_trigger(stats, RuleType::Orange, u5, u6, any);
        if !self.propagate_cyan(state, stats) {
            proof {
                lemma_extends_same(s0, s1);
                lemma_extends_same(s1, s2);
                lemma_extends_same(s2, s3);
                lemma_extends_same(s3, s4);
                lemma_extends_same(s4, s5);
                lemma_extends_same(s5, s6);
            }
            proof {
                assert forall|sol: Seq<Mark>|
                    is_solution(size, colors, sol) && #[trigger] extends(s0, sol) implies false by {
                    assert(extends(s0, sol));
                    assert(extends(s1, sol));
                    assert(extends(s2, sol));
                    assert(extends(s3, sol));
                    assert(extends(s4, sol));
                    assert(extends(s5, sol));
                    assert(extends(s6, sol));
                    assert(extends(state@, sol) && false);
                }
            }
            return false;
        }
        let ghost s7 = state@;
        let u7 = state.unknown_count();
        any = self.note_trigger(stats, RuleType::Cyan, u6, u7, any);
        proof {
            lemma_extends_same(s0, s1);
            lemma_extends_same(s1, s2);
            lemma_extends_same(s2, s3);
            lemma_extends_same(s3, s4);
            lemma_extends_same(s4, s5);
            lemma_extends_same(s5, s6);
            lemma_extends_same(s6, s7);
            assert(extends(s0, s7));
            lemma_extends_same(s0, s7);
            if s7 == s0 {
                assert(s1 == s0);
                assert(s2 == s0);
                assert(s3 == s0);
                assert(s4 == s0);
                assert(s5 == s0);
                assert(s6 == s0);
            }
        }
        if !self.propagate_five_in_a_row_possible(state) {
            proof {
                assert forall|sol: Seq<Mark>|
                    is_solution(size, colors, sol) && #[trigger] extends(s0, sol) implies false by {
                    assert(extends(s0, sol));
                    assert(extends(s1, sol));
                    assert(extends(s2, sol));
                    assert(extends(s3, sol));
                    assert(extends(s4, sol));
                    assert(extends(s5, sol));
                    assert(extends(s6, sol));
                    assert(extends(s7, sol));
                    lemma_five_monotone(size, state@, sol);
                }
            }
            return false;
        }
        proof {
            if s7 == s0 {
                assert forall|i: int| 0 <= i < size * size implies #[trigger] cell_settled(
                    size,
                    colors,
                    s0,
                    i,
                ) by {
                    match colors[i] {
                        Color::Green => assert(color_settled(size, colors, s0, Color::Green)),
                        Color::Yellow => assert(color_settled(size, colors, s0, Color::Yellow)),
                        Color::Blue => assert(color_settled(size, colors, s0, Color::Blue)),
                        Color::Red => assert(color_settled(size, colors, s0, Color::Red)),
                        Color::Purple => assert(color_settled(size, colors, s0, Color::Purple)),
                        Color::Orange => assert(color_settled(size, colors, s0, Color::Orange)),
                        Color::Cyan => assert(color_settled(size, colors, s0, Color::Cyan)),
                        _ => {},
                    }
                }
            }
        }
        true
    }

    /// Applies rounds until one changes nothing; false on a contradiction.
    /// On success the board is settled; a settled board is left as it is.
    pub fn propagate_to_fixpoint(&self, state: &mut SolverState, stats: &mut SolveStats) -> (r: bool)
        requires
            self.wf(),
            self.fits(old(state)),
            old(stats).wf(),
        ensures
            self.fits(final(state)),
            final(stats).wf(),
        search_counts_kept(*old(stats), *final(stats)),
        assignments_bounded(*old(stats), *final(stats), old(state)@, final(state)@),
            extends(old(state)@, final(state)@),
            r ==> settled(self.side(), self.colors(), final(state)@),
            settled(self.side(), self.colors(), old(state)@) ==> r && final(state)@ == old(state)@,
            settled(self.side(), self.colors(), old(state)@) ==> assign_same(*old(stats), *final(stats)),
            sound_step(self.side(), self.colors(), old(state)@, final(state)@, r),
    {
        let ghost start = state@;
        loop
            invariant
                self.wf(),
                self.fits(state),
                stats.wf(),
                search_counts_kept(*old(stats), *stats),
                assignments_bounded(*old(stats), *stats, old(state)@, state@),
                start == old(state)@,
                extends(start, state@),
                settled(self.side(), self.colors(), start) ==> state@ == start,
                sound_step(self.side(), self.colors(), start, state@, true),
            ensures
                self.fits(state),
                stats.wf(),
                search_counts_kept(*old(stats), *stats),
                assignments_bounded(*old(stats), *stats, old(state)@, state@),
                extends(start, state@),
                settled(self.side(), self.colors(), state@),
                settled(self.side(), self.colors(), start) ==> state@ == start,
                sound_step(self.side(), self.colors(), start, state@, true),
            decreases unknowns(state@),
        {
            let ghost cur = state@;
            let before = state.unknown_count();
            stats.on_propagate_round();
            if !self.propagate_round(state, stats) {
                proof {
                    assert forall|sol: Seq<Mark>|
                        is_solution(self.side(), self.colors(), sol) && #[trigger] extends(start, sol)
                            implies false by {
                        assert(extends(cur, sol));
                    }
                }
                return false;
            }
            proof {
                assert forall|sol: Seq<Mark>|
                    is_solution(self.side(), self.colors(), sol) && #[trigger] extends(start, sol)
                        implies extends(state@, sol) by {
                    assert(extends(cur, sol));
                }
            }
            proof {
                lemma_extends_same(cur, state@);
                lemma_extends_same(start, state@);
            }
            if state.unknown_count() == before {
                break;
            }
        }
        true
    }

    /// Builds the solver of a board of side `size` (1 to 5) with these colors, row by row.
    pub fn new(size: usize, colors: Vec<Color>) -> (r: Self)
        requires
            1 <= size <= 5,
            colors@.len() == size * size,
        ensures
            r.wf(),
            r.side() == size,
            r.colors() == colors@,
    {
        Solver { rules: RuleSet::new(size, colors) }
    }

    /// Side of the board.
    pub fn size(&self) -> (r: usize)
        requires
            self.wf(),
        ensures
            r == self.side(),
            1 <= r <= 5,
    {
        self.rules.size
    }

    /// The first unknown cell in decision order, if any.
    fn find_next_unknown_cell(&self, state: &SolverState) -> (r: Option<usize>)
        requires
            self.wf(),
            self.fits(state),
        ensures
            r.is_some() ==> r.unwrap() < state.cell_count() && state@[r.unwrap() as int]
                == Mark::Unknown,
            r.is_none() ==> forall|i: int|
                0 <= i < state@.len() && self.colors()[i] != Color::Black ==> #[trigger] state@[i]
                    != Mark::Unknown,
    {
        let order = &self.rules.decision_order;
        let mut k: usize = 0;
        while k < order.len()
            invariant
                self.wf(),
                self.fits(state),
                order == &self.rules.decision_order,
                k <= order@.len(),
                forall|q: int| 0 <= q < k ==> state@[#[trigger] order@[q] as int] != Mark::Unknown,
            decreases order@.len() - k,
        {
            let id = order[k];
            if state.is_unknown_id(id) {
                return Some(id);
            }
            k = k + 1;
        }
        proof {
            assert forall|i: int|
                0 <= i < state@.len() && self.colors()[i] != Color::Black implies #[trigger] state@[i]
                    != Mark::Unknown by {
                assert(crate::rules::non_black(self.colors())(i));
                assert(order@.contains(i as usize));
                let q = choose|q: int| 0 <= q < order@.len() && order@[q] == i as usize;
            }
        }
        None
    }

    /// Number of cells of the decision order still unknown.
    fn count_unknown_decision_cells(&self, state: &SolverState) -> (r: u32)
        requires
            self.wf(),
            self.fits(state),
        ensures
            r <= self.rules.decision_order@.len(),
    {
        let order = &self.rules.decision_order;
        let mut count: u32 = 0;
        let mut k: usize = 0;
        while k < order.len()
            invariant
                self.wf(),
                self.fits(state),
                order == &self.rules.decision_order,
                k <= order@.len(),
                count <= k,
                order@.len() <= 111616,
            decreases order@.len() - k,
        {
            if state.is_unknown_id(order[k]) {
                count = count + 1;
            }
            k = k + 1;
        }
        count
    }

    /// Depth-first search below `state`: propagate, record the board when it
    /// is fully decided, else branch on the first unknown cell of the decision
    /// order, unchecked first. Stops once `out` holds `limit` masks (0: no limit).
    fn search(
        &self,
        state: SolverState,
        limit: usize,
        out: &mut Vec<u32>,
        depth: u32,
        stats: &mut SolveStats,
    )
        requires
            self.wf(),
            self.fits(&state),
            blacks_checked(self.colors(), state@),
            old(stats).wf(),
        ensures
            final(stats).wf(),
            old(out)@.len() <= final(out)@.len(),
            forall|k: int| 0 <= k < old(out)@.len() ==> final(out)@[k] == old(out)@[k],
            forall|k: int|
                old(out)@.len() <= k < final(out)@.len() ==> mask_solves(
                    self.side(),
                    self.colors(),
                    #[trigger] final(out)@[k],
                ) && extends(state@, marks_of(self.side() * self.side(), final(out)@[k])),
            limit != 0 && old(out)@.len() <= limit ==> final(out)@.len() <= limit,
            limit != 0 && old(out)@.len() >= limit ==> final(out)@ == old(out)@,
            forall|k: int, i: u32|
                old(out)@.len() <= k < final(out)@.len() && self.side() * self.side() <= i < 32
                    ==> !#[trigger] crate::state::bit_set(final(out)@[k], i),
            forall|a: int, b: int|
                old(out)@.len() <= a < b < final(out)@.len() ==> marks_of(
                    self.side() * self.side(),
                    final(out)@[a],
                ) != marks_of(self.side() * self.side(), final(out)@[b]),
            limit == 0 || final(out)@.len() < limit ==> forall|sol: Seq<Mark>|
                is_solution(self.side(), self.colors(), sol) && #[trigger] extends(state@, sol)
                    ==> exists|k: int|
                    old(out)@.len() <= k < final(out)@.len() && marks_of(
                        self.side() * self.side(),
                        final(out)@[k],
                    ) == sol,
            settled(self.side(), self.colors(), state@) && decided(state@) ==> search_counts_kept(
                *old(stats),
                *final(stats),
            ),
        decreases unknowns(state@),
    {
        if limit != 0 && out.len() >= limit {
            return;
        }
        let ghost size = self.side();
        let ghost colors = self.colors();
        let ghost start = state@;
        let mut state = state;
        stats.on_node(depth);
        if !self.propagate_to_fixpoint(&mut state, stats) {
            stats.on_dead_end(depth);
            return;
        }
        let ghost settled_board = state@;
        proof {
            lemma_extends_same(start, state@);
            state.lemma_bounds();
        }
        proof {
            assert(size * size <= 25) by (nonlinear_arith)
                requires
                    1 <= size <= 5,
            ;
            assert forall|i: int| 0 <= i < state@.len() && colors[i] == Color::Black implies #[trigger] state@[i]
                == Mark::Checked by {
                assert(start[i] == Mark::Checked);
            }
        }
        if state.is_fully_decided() {
            stats.on_solution();
            let mask = state.to_row_major_u32_mask();
            proof {
                let m = marks_of(size * size, mask);
                assert(m =~= state@) by {
                    assert forall|i: int| 0 <= i < size * size implies m[i] == state@[i] by {
                        assert(crate::state::bit_set(mask, i as u32) <==> state@[i] == Mark::Checked);
                    }
                }
                lemma_settled_solution(size, colors, state@);
            }
            out.push(mask);
            proof {
                assert forall|k: int, i: u32|
                    old(out)@.len() <= k < out@.len() && size * size <= i < 32 implies !#[trigger] crate::state::bit_set(
                    out@[k],
                    i,
                ) by {
                    assert(out@[k] == mask);
                }
                let k = out@.len() - 1;
                assert forall|sol: Seq<Mark>|
                    is_solution(size, colors, sol) && #[trigger] extends(start, sol) implies marks_of(
                    size * size,
                    out@[k],
                ) == sol by {
                    assert(extends(settled_board, sol));
                    assert(marks_of(size * size, mask) =~= state@);
                    assert(sol =~= state@) by {
                        assert forall|i: int| 0 <= i < sol.len() implies sol[i] == state@[i] by {
                            assert(state@[i] != Mark::Unknown);
                        }
                    }
                }
            }
            return;
        }
        let next = self.find_next_unknown_cell(&state);
        let cell = match next {
            Some(c) => c,
            None => {
                proof {
                    assert forall|i: int| 0 <= i < state@.len() implies #[trigger] state@[i]
                        != Mark::Unknown by {
                        if colors[i] == Color::Black {
                            assert(state@[i] == Mark::Checked);
                        }
                    }
                }
                return;
            },
        };
        stats.on_decision_point(depth);
        let ghost mid = state@;
        let ghost out0 = out@;
        let ghost f1 = mid.update(cell as int, Mark::Unchecked);
        let ghost f2 = mid.update(cell as int, Mark::Checked);
        proof {
            assert(extends(mid, f1));
            assert(extends(mid, f2));
            crate::state::lemma_extends_trans(start, mid, f1);
            crate::state::lemma_extends_trans(start, mid, f2);
        }
        {
            let mut fork = state.fork();
            stats.on_branch_attempt();
            if try_set_unchecked_id(&mut fork, cell, AssignReason::Guess, stats) {
                proof {
                    lemma_extends_same(mid, fork@);
                    assert(fork@[cell as int] != mid[cell as int]);
                    assert forall|i: int| 0 <= i < fork@.len() && colors[i] == Color::Black implies #[trigger] fork@[i]
                        == Mark::Checked by {
                        assert(mid[i] == Mark::Checked);
                    }
                }
                self.search(fork, limit, out, depth.saturating_add(1), stats);
            } else {
                stats.on_dead_end(depth.saturating_add(1));
            }
        }
        proof {
            assert forall|k: int| out0.len() <= k < out@.len() implies mask_solves(
                size,
                colors,
                #[trigger] out@[k],
            ) && extends(start, marks_of(size * size, out@[k])) by {
                crate::state::lemma_extends_trans(start, f1, marks_of(size * size, out@[k]));
            }
        }
        let ghost out_after_first = out@;
        if limit != 0 && out.len() >= limit {
            return;
        }
        let ghost out1 = out@;
        {
            let mut fork = state;
            stats.on_branch_attempt();
            if try_set_checked_id(&mut fork, cell, AssignReason::Guess, stats) {
                proof {
                    lemma_extends_same(mid, fork@);
                    assert(fork@[cell as int] != mid[cell as int]);
                    assert forall|i: int| 0 <= i < fork@.len() && colors[i] == Color::Black implies #[trigger] fork@[i]
                        == Mark::Checked by {
                        assert(mid[i] == Mark::Checked);
                    }
                }
                self.search(fork, limit, out, depth.saturating_add(1), stats);
            } else {
                stats.on_dead_end(depth.saturating_add(1));
            }
        }
        proof {
            assert forall|k: int| out0.len() <= k < out@.len() implies mask_solves(
                size,
                colors,
                #[trigger] out@[k],
            ) && extends(start, marks_of(size * size, out@[k])) by {
                if k < out1.len() {
                    assert(out1[k] == out@[k]);
                } else {
                    crate::state::lemma_extends_trans(start, f2, marks_of(size * size, out@[k]));
                }
            }
        }
        proof {
            assert forall|k: int, i: u32|
                out0.len() <= k < out@.len() && size * size <= i < 32 implies !#[trigger] crate::state::bit_set(
                out@[k],
                i,
            ) by {
                if k < out1.len() {
                    assert(out1[k] == out@[k]);
                }
            }
            assert forall|a: int, b: int| out0.len() <= a < b < out@.len() implies marks_of(
                size * size,
                out@[a],
            ) != marks_of(size * size, out@[b]) by {
                if a < out1.len() && b >= out1.len() {
                    assert(out1[a] == out@[a]);
                    crate::state::lemma_extends_trans(start, f1, marks_of(size * size, out@[a]));
                    assert(extends(f1, marks_of(size * size, out@[a])));
                    assert(extends(f2, marks_of(size * size, out@[b])));
                    assert(marks_of(size * size, out@[a])[cell as int] == Mark::Unchecked);
                    assert(marks_of(size * size, out@[b])[cell as int] == Mark::Checked);
                } else if b < out1.len() {
                    assert(out1[a] == out@[a]);
                    assert(out1[b] == out@[b]);
                }
            }
            if limit == 0 || out@.len() < limit {
                assert forall|sol: Seq<Mark>|
                    is_solution(size, colors, sol) && #[trigger] extends(start, sol) implies exists|k: int|
                    out0.len() <= k < out@.len() && marks_of(size * size, out@[k]) == sol by {
                    assert(extends(mid, sol));
                    assert(sol[cell as int] != Mark::Unknown);
                    if sol[cell as int] == Mark::Unchecked {
                        assert(extends(f1, sol));
                        let k = choose|k: int|
                            out0.len() <= k < out1.len() && marks_of(size * size, out1[k]) == sol;
                        assert(out@[k] == out1[k]);
                    } else {
                        assert(extends(f2, sol));
                    }
                }
            }
        }
    }

    /// A fresh board of this puzzle: black cells checked, the rest unknown.
    fn blank_board(&self) -> (r: SolverState)
        requires
            self.wf(),
        ensures
            self.fits(&r),
            r@ == black_marks(self.colors()),
    {
        let ghost colors = self.colors();
        let mut state = SolverState::new(self.rules.size);
        let list = &self.rules.black_cells;
        let mut k: usize = 0;
        while k < list.len()
            invariant
                self.wf(),
                self.fits(&state),
                colors == self.colors(),
                list == &self.rules.black_cells,
                k <= list@.len(),
                forall|i: int|
                    0 <= i < state@.len() ==> #[trigger] state@[i] == if list@.subrange(
                        0,
                        k as int,
                    ).contains(i as usize) {
                        Mark::Checked
                    } else {
                        Mark::Unknown
                    },
            decreases list@.len() - k,
        {
            let id = list[k];
            let ghost prev = state@;
            let _ = state.set_checked_id(id);
            proof {
                state.lemma_bounds();
                assert forall|i: int| 0 <= i < state@.len() implies #[trigger] state@[i] == if list@.subrange(
                    0,
                    k + 1,
                ).contains(i as usize) {
                    Mark::Checked
                } else {
                    Mark::Unknown
                } by {
                    assert(prev[i] == if list@.subrange(0, k as int).contains(i as usize) {
                        Mark::Checked
                    } else {
                        Mark::Unknown
                    });
                    if i == id as int {
                        assert(list@.subrange(0, k + 1)[k as int] == id);
                    } else {
                        assert(i as usize != id);
                        if list@.subrange(0, k + 1).contains(i as usize) {
                            let q = choose|q: int|
                                0 <= q < k + 1 && #[trigger] list@.subrange(0, k + 1)[q] == i as usize;
                            assert(list@.subrange(0, k as int)[q] == i as usize);
                        }
                        if list@.subrange(0, k as int).contains(i as usize) {
                            let q = choose|q: int|
                                0 <= q < k && #[trigger] list@.subrange(0, k as int)[q] == i as usize;
                            assert(list@.subrange(0, k + 1)[q] == i as usize);
                        }
                    }
                }
            }
            k = k + 1;
        }
        proof {
            state.lemma_bounds();
            assert(list@.subrange(0, k as int) =~= list@);
            assert(state@ =~= black_marks(colors)) by {
                assert forall|i: int| 0 <= i < state@.len() implies state@[i] == black_marks(colors)[i] by {
                    if colors[i] == Color::Black {
                        assert(list@.contains(i as usize));
                    } else if list@.contains(i as usize) {
                        let q = choose|q: int| 0 <= q < list@.len() && list@[q] == i as usize;
                        assert(colors[list@[q] as int] == Color::Black);
                    }
                }
            }
        }
        state
    }

    /// A fresh board with the cells of `checked_mask` checked as well as the
    /// black cells; the rest unknown.
    fn seeded_board(&self, checked_mask: u32) -> (r: SolverState)
        requires
            self.wf(),
        ensures
            self.fits(&r),
            r@ == seeded_marks(self.colors(), checked_mask),
    {
        let ghost colors = self.colors();
        let mut state = self.blank_board();
        let order = &self.rules.decision_order;
        let mut k: usize = 0;
        while k < order.len()
            invariant
                self.wf(),
                self.fits(&state),
                colors == self.colors(),
                order == &self.rules.decision_order,
                k <= order@.len(),
                forall|i: int|
                    0 <= i < state@.len() ==> #[trigger] state@[i] == if colors[i] == Color::Black
                        || (order@.subrange(0, k as int).contains(i as usize)
                        && crate::state::bit_set(checked_mask, i as u32)) {
                        Mark::Checked
                    } else {
                        Mark::Unknown
                    },
            decreases order@.len() - k,
        {
            let id = order[k];
            let ghost prev = state@;
            proof {
                state.lemma_bounds();
                assert(self.side() * self.side() <= 25) by (nonlinear_arith)
                    requires
                        1 <= self.side() <= 5,
                ;
            }
            let hit = (checked_mask >> id as u32) & 1u32 == 1u32;
            if hit {
                let _ = state.set_checked_id(id);
            }
            proof {
                assert forall|i: int| 0 <= i < state@.len() implies #[trigger] state@[i] == if colors[i]
                    == Color::Black || (order@.subrange(0, k + 1).contains(i as usize)
                    && crate::state::bit_set(checked_mask, i as u32)) {
                    Mark::Checked
                } else {
                    Mark::Unknown
                } by {
                    assert(prev[i] == if colors[i] == Color::Black || (order@.subrange(
                        0,
                        k as int,
                    ).contains(i as usize) && crate::state::bit_set(checked_mask, i as u32)) {
                        Mark::Checked
                    } else {
                        Mark::Unknown
                    });
                    if i == id as int {
                        assert(order@.subrange(0, k + 1)[k as int] == id);
                    } else {
                        assert(i as usize != id);
                        if order@.subrange(0, k + 1).contains(i as usize) {
                            let q = choose|q: int|
                                0 <= q < k + 1 && #[trigger] order@.subrange(0, k + 1)[q] == i as usize;
                            assert(order@.subrange(0, k as int)[q] == i as usize);
                        }
                        if order@.subrange(0, k as int).contains(i as usize) {
                            let q = choose|q: int|
                                0 <= q < k && #[trigger] order@.subrange(0, k as int)[q] == i as usize;
                            assert(order@.subrange(0, k + 1)[q] == i as usize);
                        }
                    }
                }
            }
            k = k + 1;
        }
        proof {
            state.lemma_bounds();
            assert(order@.subrange(0, k as int) =~= order@);
            assert(state@ =~= seeded_marks(colors, checked_mask)) by {
                assert forall|i: int| 0 <= i < state@.len() implies state@[i] == seeded_marks(
                    colors,
                    checked_mask,
                )[i] by {
                    if colors[i] != Color::Black {
                        assert(crate::rules::non_black(colors)(i));
                        assert(order@.contains(i as usize));
                    }
                }
            }
        }
        state
    }

    /// Up to `limit` solutions (all of them when `limit` is 0), as row-major masks.
    pub fn solve_masks_limit(&self, limit: usize) -> (r: Vec<u32>)
        requires
            self.wf(),
        ensures
            forall|k: int| 0 <= k < r@.len() ==> mask_solves(self.side(), self.colors(), #[trigger] r@[k]),
            limit != 0 ==> r@.len() <= limit,
            blue_overloaded(self.side(), self.colors()) ==> r@.len() == 0,
            r@.no_duplicates(),
            limit == 0 || r@.len() < limit ==> forall|sol: Seq<Mark>|
                #[trigger] is_solution(self.side(), self.colors(), sol) ==> exists|k: int|
                    0 <= k < r@.len() && marks_of(self.side() * self.side(), r@[k]) == sol,
            counts_solutions(self.side(), self.colors(), black_marks(self.colors()), limit as int, r@),
    {
        let mut stats = SolveStats::new();
        self.solve_masks_limit_with_stats(limit, &mut stats)
    }

    /// `solve_masks_limit`, counting the work done in `stats`.
    pub fn solve_masks_limit_with_stats(&self, limit: usize, stats: &mut SolveStats) -> (r: Vec<u32>)
        requires
            self.wf(),
            old(stats).wf(),
        ensures
            final(stats).wf(),
            forall|k: int| 0 <= k < r@.len() ==> mask_solves(self.side(), self.colors(), #[trigger] r@[k]),
            limit != 0 ==> r@.len() <= limit,
            blue_overloaded(self.side(), self.colors()) ==> r@.len() == 0,
            r@.no_duplicates(),
            limit == 0 || r@.len() < limit ==> forall|sol: Seq<Mark>|
                #[trigger] is_solution(self.side(), self.colors(), sol) ==> exists|k: int|
                    0 <= k < r@.len() && marks_of(self.side() * self.side(), r@[k]) == sol,
            counts_solutions(self.side(), self.colors(), black_marks(self.colors()), limit as int, r@),
            settled(self.side(), self.colors(), black_marks(self.colors())) && decided(
                black_marks(self.colors()),
            ) ==> search_counts_kept(*old(stats), *final(stats)),
    {
        let state = self.blank_board();
        let ghost start = state@;
        let mut out: Vec<u32> = Vec::new();
        proof {
            assert forall|i: int| 0 <= i < start.len() && self.colors()[i] == Color::Black implies #[trigger] start[i]
                == Mark::Checked by {}
        }
        self.search(state, limit, &mut out, 0, stats);
        proof {
            assert(out@.no_duplicates()) by {
                assert forall|a: int, b: int| 0 <= a < out@.len() && 0 <= b < out@.len() && a != b
                    implies out@[a] != out@[b] by {
                    if a > b {
                        assert(out@[b] != out@[a]);
                    }
                }
            }
            assert forall|k: int| 0 <= k < out@.len() implies mask_solves(self.side(), self.colors(), #[trigger] out@[k])
                && extends(black_marks(self.colors()), marks_of(self.side() * self.side(), out@[k])) by {
                lemma_solution_extends_blacks(self.side(), self.colors(), marks_of(self.side() * self.side(), out@[k]));
            }
            if limit == 0 || out@.len() < limit {
                assert forall|sol: Seq<Mark>|
                    #[trigger] is_solution(self.side(), self.colors(), sol) implies exists|k: int|
                    0 <= k < out@.len() && marks_of(self.side() * self.side(), out@[k]) == sol by {
                    lemma_solution_extends_blacks(self.side(), self.colors(), sol);
                }
            }
            if blue_overloaded(self.side(), self.colors()) && out@.len() > 0 {
                lemma_overloaded_blue_unsolvable(
                    self.side(),
                    self.colors(),
                    marks_of(self.side() * self.side(), out@[0]),
                );
                assert(mask_solves(self.side(), self.colors(), out@[0]));
            }
        }
        out
    }

    /// Up to `limit` solutions (0: all) that keep every cell of `checked_mask`
    /// checked; the other cells are open, not unchecked.
    pub fn solve_masks_limit_with_checked_mask(&self, checked_mask: u32, limit: usize) -> (r: Vec<u32>)
        requires
            self.wf(),
        ensures
            forall|k: int|
                0 <= k < r@.len() ==> mask_solves(self.side(), self.colors(), #[trigger] r@[k]),
            forall|k: int, i: u32|
                0 <= k < r@.len() && i < self.side() * self.side() && crate::state::bit_set(
                    checked_mask,
                    i,
                ) ==> #[trigger] crate::state::bit_set(r@[k], i),
            limit != 0 ==> r@.len() <= limit,
            r@.no_duplicates(),
            limit == 0 || r@.len() < limit ==> forall|sol: Seq<Mark>|
                is_solution(self.side(), self.colors(), sol) && #[trigger] extends(
                    seeded_marks(self.colors(), checked_mask),
                    sol,
                ) ==> exists|k: int|
                    0 <= k < r@.len() && marks_of(self.side() * self.side(), r@[k]) == sol,
            counts_solutions(self.side(), self.colors(), seeded_marks(self.colors(), checked_mask), limit as int, r@),
    {
        let mut state = self.seeded_board(checked_mask);
        let ghost start = state@;
        let mut stats = SolveStats::new();
        if !self.propagate_to_fixpoint(&mut state, &mut stats) {
            proof {
                assert forall|sol: Seq<Mark>|
                    is_solution(self.side(), self.colors(), sol) && #[trigger] extends(
                        seeded_marks(self.colors(), checked_mask),
                        sol,
                    ) implies false by {
                    assert(extends(start, sol));
                }
            }
            return Vec::new();
        }
        let ghost mid = state@;
        let mut out: Vec<u32> = Vec::new();
        proof {
            assert forall|i: int| 0 <= i < mid.len() && self.colors()[i] == Color::Black implies #[trigger] mid[i]
                == Mark::Checked by {
                assert(start[i] == Mark::Checked);
            }
        }
        self.search(state, limit, &mut out, 0, &mut stats);
        proof {
            assert(out@.no_duplicates()) by {
                assert forall|a: int, b: int| 0 <= a < out@.len() && 0 <= b < out@.len() && a != b
                    implies out@[a] != out@[b] by {
                    if a > b {
                        assert(out@[b] != out@[a]);
                    }
                }
            }
            if limit == 0 || out@.len() < limit {
                assert forall|sol: Seq<Mark>|
                    is_solution(self.side(), self.colors(), sol) && #[trigger] extends(
                        seeded_marks(self.colors(), checked_mask),
                        sol,
                    ) implies exists|k: int|
                    0 <= k < out@.len() && marks_of(self.side() * self.side(), out@[k]) == sol by {
                    assert(extends(start, sol));
                    assert(extends(mid, sol));
                }
            }
            assert forall|k: int| 0 <= k < out@.len() implies mask_solves(self.side(), self.colors(), #[trigger] out@[k])
                && extends(seeded_marks(self.colors(), checked_mask), marks_of(self.side() * self.side(), out@[k])) by {
                crate::state::lemma_extends_trans(start, mid, marks_of(self.side() * self.side(), out@[k]));
            }
            assert forall|k: int, i: u32|
                0 <= k < out@.len() && i < self.side() * self.side() && crate::state::bit_set(
                    checked_mask,
                    i,
                ) implies #[trigger] crate::state::bit_set(out@[k], i) by {
                let m = marks_of(self.side() * self.side(), out@[k]);
                crate::state::lemma_extends_trans(start, mid, m);
                assert(start[i as int] == Mark::Checked);
                assert(m[i as int] == Mark::Checked);
            }
        }
        out
    }

    /// The rule name of a cell's color, for display; none for white.
    fn rule_id_for_cell(&self, cell: usize) -> (r: Option<&'static str>)
        requires
            self.wf(),
        ensures
            r.is_none() <==> cell >= self.colors().len() || self.colors()[cell as int] == Color::White,
    {
        if cell >= self.rules.colors.len() {
            return None;
        }
        match self.rules.colors[cell] {
            Color::Red => Some("red"),
            Color::Blue => Some("blue"),
            Color::Green => Some("green"),
            Color::Yellow => Some("yellow"),
            Color::Purple => Some("purple"),
            Color::Orange => Some("orange"),
            Color::Cyan => Some("cyan"),
            Color::Black => Some("black"),
            Color::White => None,
        }
    }

    /// Propagates from the board with `checked_mask` checked and finds one
    /// solution: the settled board and that solution, or none.
    fn solve_one_with_checked_mask(&self, checked_mask: u32) -> (r: Option<(SolverState, u32)>)
        requires
            self.wf(),
        ensures
            r.is_none() <==> !completable(self.side(), self.colors(), checked_mask),
            r.is_some() ==> {
                let (st, sol) = r.unwrap();
                &&& self.fits(&st)
                &&& extends(seeded_marks(self.colors(), checked_mask), st@)
                &&& settled(self.side(), self.colors(), st@)
                &&& mask_solves(self.side(), self.colors(), sol)
                &&& extends(st@, marks_of(self.side() * self.side(), sol))
                &&& keeps(self.side() * self.side(), checked_mask, sol)
                &&& forall|x: Seq<Mark>|
                    is_solution(self.side(), self.colors(), x) && #[trigger] extends(
                        seeded_marks(self.colors(), checked_mask),
                        x,
                    ) ==> extends(st@, x)
            },
    {
        let mut state = self.seeded_board(checked_mask);
        let ghost start = state@;
        let mut stats = SolveStats::new();
        if !self.propagate_to_fixpoint(&mut state, &mut stats) {
            proof {
                assert forall|sol: Seq<Mark>|
                    is_solution(self.side(), self.colors(), sol) && #[trigger] extends(
                        seeded_marks(self.colors(), checked_mask),
                        sol,
                    ) implies false by {
                    assert(extends(start, sol));
                }
            }
            return None;
        }
        let ghost mid = state@;
        proof {
            assert forall|i: int| 0 <= i < mid.len() && self.colors()[i] == Color::Black implies #[trigger] mid[i]
                == Mark::Checked by {
                assert(start[i] == Mark::Checked);
            }
        }
        let mut out: Vec<u32> = Vec::new();
        self.search(state.fork(), 1, &mut out, 0, &mut stats);
        if out.len() == 0 {
            proof {
                assert forall|sol: Seq<Mark>|
                    is_solution(self.side(), self.colors(), sol) && #[trigger] extends(
                        seeded_marks(self.colors(), checked_mask),
                        sol,
                    ) implies false by {
                    assert(extends(start, sol));
                    assert(extends(mid, sol));
                }
            }
            return None;
        }
        let sol = out[0];
        proof {
            let m = marks_of(self.side() * self.side(), sol);
            assert(extends(mid, m));
            crate::state::lemma_extends_trans(start, mid, m);
            assert(is_solution(self.side(), self.colors(), m));
            assert(extends(seeded_marks(self.colors(), checked_mask), m));
            assert forall|i: u32| i < self.side() * self.side() && crate::state::bit_set(checked_mask, i) implies #[trigger] crate::state::bit_set(sol, i) by {
                assert(start[i as int] == Mark::Checked);
                assert(m[i as int] == Mark::Checked);
            }
        }
        Some((state, sol))
    }

    /// Assumes a value for `cell` on a copy of the board and propagates: the
    /// work done when that ends in a contradiction, else none. Each
    /// propagation spends one unit of `budget`; with none left, none.
    fn contradiction_proof(
        &self,
        state: &SolverState,
        cell: usize,
        assume_checked: bool,
        budget: &mut u32,
    ) -> (r: Option<SolveStats>)
        requires
            self.wf(),
            self.fits(state),
            cell < state.cell_count(),
        ensures
            *final(budget) <= *old(budget),
            r.is_some() ==> r.unwrap().wf(),
            r.is_some() ==> forced_in(
                self.side(),
                self.colors(),
                state@,
                cell as int,
                if assume_checked {
                    Mark::Unchecked
                } else {
                    Mark::Checked
                },
            ),
    {
        let mut fork = state.fork();
        let mut obs = SolveStats::new();
        let ok = if assume_checked {
            try_set_checked_id(&mut fork, cell, AssignReason::Guess, &mut obs)
        } else {
            try_set_unchecked_id(&mut fork, cell, AssignReason::Guess, &mut obs)
        };
        if !ok {
            proof {
                assert forall|sol: Seq<Mark>|
                    is_solution(self.side(), self.colors(), sol) && #[trigger] extends(state@, sol)
                        implies sol[cell as int] == if assume_checked {
                    Mark::Unchecked
                } else {
                    Mark::Checked
                } by {
                    assert(state@[cell as int] != Mark::Unknown);
                }
            }
            return Some(SolveStats::new());
        }
        if *budget == 0 {
            return None;
        }
        *budget = *budget - 1;
        let ghost assumed = fork@;
        let mut obs = SolveStats::new();
        if self.propagate_to_fixpoint(&mut fork, &mut obs) {
            None
        } else {
            proof {
                state.lemma_bounds();
                assert forall|sol: Seq<Mark>|
                    is_solution(self.side(), self.colors(), sol) && #[trigger] extends(state@, sol)
                        implies sol[cell as int] == if assume_checked {
                    Mark::Unchecked
                } else {
                    Mark::Checked
                } by {
                    assert(decided(sol));
                    assert(sol[cell as int] != Mark::Unknown);
                    if sol[cell as int] == (if assume_checked {
                        Mark::Checked
                    } else {
                        Mark::Unchecked
                    }) {
                        if state@[cell as int] == Mark::Unknown {
                            assert(extends(assumed, sol));
                        }
                    }
                }
            }
            Some(obs)
        }
    }

    /// Single-step proof by contradiction over the unknown cells, in decision
    /// order: the first cell one of whose values leads to a contradiction,
    /// with the value it is therefore forced to, the work of that proof, and
    /// the number of unknown cells and of contradicting assumptions seen.
    fn find_forced_by_contradiction(&self, state: &SolverState, budget: &mut u32) -> (r: Option<
        (usize, bool, SolveStats, (u32, u32)),
    >)
        requires
            self.wf(),
            self.fits(state),
        ensures
            *final(budget) <= *old(budget),
            r.is_some() ==> {
                let (cell, forced_checked, obs, (unknown_cells, candidates)) = r.unwrap();
                &&& cell < state.cell_count()
                &&& state@[cell as int] == Mark::Unknown
                &&& obs.wf()
                &&& 1 <= candidates <= 2 * unknown_cells
                &&& forced_in(
                    self.side(),
                    self.colors(),
                    state@,
                    cell as int,
                    if forced_checked {
                        Mark::Checked
                    } else {
                        Mark::Unchecked
                    },
                )
            },
    {
        let mut unknown_cells: u32 = 0;
        let mut candidates: u32 = 0;
        let mut first: Option<(usize, bool, SolveStats)> = None;
        let order = &self.rules.decision_order;
        let ghost b0 = *budget;
        let mut k: usize = 0;
        while k < order.len()
            invariant
                self.wf(),
                self.fits(state),
                order == &self.rules.decision_order,
                k <= order@.len(),
                order@.len() <= 111616,
                unknown_cells <= k,
                candidates <= 2 * unknown_cells,
                *budget <= b0,
                b0 == *old(budget),
                first.is_some() ==> {
                    let (c, fc, o) = first.unwrap();
                    &&& c < state.cell_count()
                    &&& state@[c as int] == Mark::Unknown
                    &&& o.wf()
                    &&& candidates >= 1
                    &&& forced_in(
                        self.side(),
                        self.colors(),
                        state@,
                        c as int,
                        if fc {
                            Mark::Checked
                        } else {
                            Mark::Unchecked
                        },
                    )
                },
            decreases order@.len() - k,
        {
            let cell = order[k];
            if state.is_unknown_id(cell) {
                unknown_cells = unknown_cells + 1;
                match self.contradiction_proof(state, cell, false, budget) {
                    Some(obs) => {
                        candidates = candidates + 1;
                        if first.is_none() {
                            first = Some((cell, true, obs));
                        }
                    },
                    None => {},
                }
                match self.contradiction_proof(state, cell, true, budget) {
                    Some(obs) => {
                        candidates = candidates + 1;
                        if first.is_none() {
                            first = Some((cell, false, obs));
                        }
                    },
                    None => {},
                }
            }
            k = k + 1;
        }
        match first {
            Some((cell, forced_checked, obs)) => Some(
                (cell, forced_checked, obs, (unknown_cells, candidates)),
            ),
            None => None,
        }
    }

    /// A hint result carrying one move on `cell`.
    fn hint_with_move(
        &self,
        status: HintStatus,
        message: String,
        cell: usize,
        action: HintAction,
        forced: bool,
        kind: HintReasonKind,
    ) -> (r: HintResult)
        requires
            self.wf(),
        ensures
            r.status == status,
            r.mv == Some(HintMove { cell, action, forced }),
            r.reason.is_some(),
            r.reason.unwrap().kind == kind,
            r.reason.unwrap().affected_cells@ == seq![cell],
    {
        let affected = vec![cell];
        HintResult {
            status,
            message,
            mv: Some(HintMove { cell, action, forced }),
            reason: Some(HintReason { kind, rule_id: self.rule_id_for_cell(cell), affected_cells: affected }),
        }
    }

    /// The next hint for a player who has checked the cells of `checked_mask`
    /// (every other cell counts as open, not as unchecked). In order of
    /// preference: a repair when the checked cells cannot be completed, a
    /// move forced by propagation, one forced by a single contradiction, and
    /// a move taken from some solution.
    pub fn hint_next(&self, checked_mask: u32) -> (r: HintResult)
        requires
            self.wf(),
        ensures
            r.mv.is_some() ==> {
                let mv = r.mv.unwrap();
                &&& mv.cell < self.side() * self.side()
                &&& r.reason.is_some()
                &&& r.reason.unwrap().affected_cells@ == seq![mv.cell]
                &&& mv.action == HintAction::Uncheck ==> crate::state::bit_set(checked_mask, mv.cell as u32)
                &&& mv.action == HintAction::Check ==> !crate::state::bit_set(checked_mask, mv.cell as u32)
                &&& mv.forced <==> r.status == HintStatus::Forced
                &&& mv.forced ==> forced_in(
                    self.side(),
                    self.colors(),
                    seeded_marks(self.colors(), checked_mask),
                    mv.cell as int,
                    if mv.action == HintAction::Check {
                        Mark::Checked
                    } else {
                        Mark::Unchecked
                    },
                )
                &&& r.reason.unwrap().kind == HintReasonKind::Suggest ==> exists|sol: u32|
                    mask_solves(self.side(), self.colors(), sol) && keeps(
                        self.side() * self.side(),
                        checked_mask,
                        sol,
                    ) && crate::state::bit_set(sol, mv.cell as u32)
                &&& r.reason.unwrap().kind == HintReasonKind::Repair ==> exists|sol: u32|
                    mask_solves(self.side(), self.colors(), sol) && forall|i: u32|
                        i < self.side() * self.side() && i != mv.cell && crate::state::bit_set(
                            checked_mask,
                            i,
                        ) ==> #[trigger] crate::state::bit_set(sol, i)
            },
            r.status == HintStatus::Forced ==> r.mv.is_some() && completable(
                self.side(),
                self.colors(),
                checked_mask,
            ),
            r.reason.is_some() <==> r.mv.is_some(),
            r.status == HintStatus::NoSolution ==> r.mv.is_none() && r.reason.is_none(),
            r.status == HintStatus::NoSolution <==> !completable(self.side(), self.colors(), checked_mask)
                && forall|c: int|
                0 <= c < self.side() * self.side() && self.colors()[c] != Color::Black
                    && crate::state::bit_set(checked_mask, c as u32) ==> !#[trigger] completable(
                    self.side(),
                    self.colors(),
                    without(checked_mask, c),
                ),
            completable(self.side(), self.colors(), checked_mask) ==> r.status != HintStatus::NoSolution
                && (r.mv.is_none() || r.mv.unwrap().action == HintAction::Check),
            r.mv.is_some() ==> {
                let mv = r.mv.unwrap();
                let kind = r.reason.unwrap().kind;
                &&& mv.action == HintAction::Uncheck <==> kind == HintReasonKind::Repair
                &&& kind == HintReasonKind::Repair ==> r.status == HintStatus::Suggested && !mv.forced
                    && !completable(self.side(), self.colors(), checked_mask) && self.colors()[mv.cell as int]
                    != Color::Black && completable(
                    self.side(),
                    self.colors(),
                    without(checked_mask, mv.cell as int),
                )
                &&& r.status == HintStatus::Forced ==> mv.action == HintAction::Check && (kind
                    == HintReasonKind::Propagate || kind == HintReasonKind::Contradiction)
                &&& kind == HintReasonKind::Suggest ==> r.status == HintStatus::Suggested && !mv.forced
                    && mv.action == HintAction::Check
            },
            r.mv.is_none() && r.status != HintStatus::NoSolution ==> complete_as_is(
                self.side(),
                self.colors(),
                checked_mask,
            ),
    {
        let size = self.rules.size;
        let ghost n = self.side() * self.side();
        proof {
            assert(n <= 25) by (nonlinear_arith)
                requires
                    n == self.side() * self.side(),
                    1 <= self.side() <= 5,
            ;
        }
        let order = &self.rules.decision_order;
        let found = self.solve_one_with_checked_mask(checked_mask);
        let ghost can_complete = found.is_some();
        proof {
            assert(can_complete == completable(self.side(), self.colors(), checked_mask));
        }
        let (state, solution) = match found {
            Some(pair) => pair,
            None => {
                // No completion: offer to uncheck one cell if that makes it solvable.
                let mut k: usize = 0;
                while k < order.len()
                    invariant
                        self.wf(),
                        order == &self.rules.decision_order,
                        size == self.rules.size,
                        k <= order@.len(),
                        n == self.side() * self.side(),
                        n <= 25,
                        !completable(self.side(), self.colors(), checked_mask),
                        forall|q: int|
                            0 <= q < k && crate::state::bit_set(checked_mask, order@[q] as u32)
                                ==> !#[trigger] completable(
                                self.side(),
                                self.colors(),
                                without(checked_mask, order@[q] as int),
                            ),
                    decreases order@.len() - k,
                {
                    let cell = order[k];
                    proof {
                        lemma_bit_and(checked_mask, cell as u32);
                        assert(self.colors()[cell as int] != Color::Black) by {
                            assert(crate::rules::non_black(self.colors())(order@[k as int] as int));
                        }
                    }
                    proof {
                        assert(order@[k as int] < n);
                    }
                    let bit = 1u32 << cell as u32;
                    if (checked_mask & bit) != 0 {
                        let relaxed = checked_mask & !bit;
                        let again = self.solve_one_with_checked_mask(relaxed);
                        if again.is_some() {
                            proof {
                                assert(relaxed == without(checked_mask, cell as int));
                                assert(completable(self.side(), self.colors(), without(checked_mask, cell as int)));
                                let sol = again.unwrap().1;
                                assert(crate::state::bit_set(checked_mask, cell as u32)) by {
                                    assert((checked_mask & (1u32 << cell as u32)) != 0 ==> ((checked_mask >> cell as u32) & 1u32 == 1u32)) by (bit_vector)
                                        requires cell < 32;
                                }
                                assert forall|i: u32|
                                    i < n && i != cell && crate::state::bit_set(checked_mask, i) implies #[trigger] crate::state::bit_set(sol, i) by {
                                    crate::state::lemma_bit_clear(checked_mask, cell as u32, i);
                                }
                            }
                            let msg = cell_message("The checked cells cannot be completed. Try unchecking ", cell, size, ".");
                            return self.hint_with_move(
                                HintStatus::Suggested,
                                msg,
                                cell,
                                HintAction::Uncheck,
                                false,
                                HintReasonKind::Repair,
                            );
                        }
                    }
                    k = k + 1;
                }
                proof {
                    assert forall|c: int|
                        0 <= c < self.side() * self.side() && self.colors()[c] != Color::Black
                            && crate::state::bit_set(checked_mask, c as u32) implies !#[trigger] completable(
                        self.side(),
                        self.colors(),
                        without(checked_mask, c),
                    ) by {
                        assert(crate::rules::non_black(self.colors())(c));
                        assert(order@.contains(c as usize));
                        let q = choose|q: int| 0 <= q < order@.len() && order@[q] == c as usize;
                        assert(order@[q] as int == c);
                    }
                }
                return HintResult {
                    status: HintStatus::NoSolution,
                    message: String::from_str(
                        "The checked cells cannot be completed to a solution; uncheck some of them first.",
                    ),
                    mv: None,
                    reason: None,
                };
            },
        };
        // 1) A cell that propagation checks and the player has not.
        let mut k: usize = 0;
        while k < order.len()
            invariant
                self.wf(),
                self.fits(&state),
                forall|x: Seq<Mark>|
                    is_solution(self.side(), self.colors(), x) && #[trigger] extends(
                        seeded_marks(self.colors(), checked_mask),
                        x,
                    ) ==> extends(state@, x),
                order == &self.rules.decision_order,
                size == self.rules.size,
                k <= order@.len(),
                completable(self.side(), self.colors(), checked_mask),
                extends(seeded_marks(self.colors(), checked_mask), state@),
                self.fits(&state),
                mask_solves(self.side(), self.colors(), solution),
                keeps(n, checked_mask, solution),
                extends(state@, marks_of(n, solution)),
                n == self.side() * self.side(),
                n <= 25,
            decreases order@.len() - k,
        {
            let cell = order[k];
            proof {
                assert(order@[k as int] < n);
            }
            let bit = 1u32 << cell as u32;
            proof {
                lemma_bit_and(checked_mask, cell as u32);
                lemma_bit_and(solution, cell as u32);
                assert(order@[k as int] == cell);
            }
            if (checked_mask & bit) == 0 && state.is_checked_id(cell) {
                proof {
                    assert((checked_mask & (1u32 << cell as u32)) == 0 ==> ((checked_mask >> cell as u32) & 1u32 != 1u32)) by (bit_vector)
                        requires cell < 32;
                }
                let msg = cell_message("From what is known, ", cell, size, " must be checked.");
                proof {
                    assert forall|x: Seq<Mark>|
                        is_solution(self.side(), self.colors(), x) && #[trigger] extends(
                            seeded_marks(self.colors(), checked_mask),
                            x,
                        ) implies x[cell as int] == Mark::Checked by {
                        assert(extends(state@, x));
                    }
                }
                return self.hint_with_move(
                    HintStatus::Forced,
                    msg,
                    cell,
                    HintAction::Check,
                    true,
                    HintReasonKind::Propagate,
                );
            }
            k = k + 1;
        }
        // 2) A checked cell that propagation shows must be unchecked.
        k = 0;
        while k < order.len()
            invariant
                self.wf(),
                self.fits(&state),
                forall|x: Seq<Mark>|
                    is_solution(self.side(), self.colors(), x) && #[trigger] extends(
                        seeded_marks(self.colors(), checked_mask),
                        x,
                    ) ==> extends(state@, x),
                order == &self.rules.decision_order,
                size == self.rules.size,
                k <= order@.len(),
                completable(self.side(), self.colors(), checked_mask),
                extends(seeded_marks(self.colors(), checked_mask), state@),
                self.fits(&state),
                mask_solves(self.side(), self.colors(), solution),
                keeps(n, checked_mask, solution),
                extends(state@, marks_of(n, solution)),
                n == self.side() * self.side(),
                n <= 25,
            decreases order@.len() - k,
        {
            let cell = order[k];
            proof {
                assert(order@[k as int] < n);
            }
            let bit = 1u32 << cell as u32;
            proof {
                lemma_bit_and(checked_mask, cell as u32);
                lemma_bit_and(solution, cell as u32);
                assert(order@[k as int] == cell);
            }
            if state.is_unchecked_id(cell) && (checked_mask & bit) != 0 {
                proof {
                    assert((checked_mask & (1u32 << cell as u32)) != 0 ==> ((checked_mask >> cell as u32) & 1u32 == 1u32)) by (bit_vector)
                        requires cell < 32;
                }
                let msg = cell_message("From what is known, ", cell, size, " must be unchecked.");
                proof {
                    assert forall|x: Seq<Mark>|
                        is_solution(self.side(), self.colors(), x) && #[trigger] extends(
                            seeded_marks(self.colors(), checked_mask),
                            x,
                        ) implies x[cell as int] == Mark::Unchecked by {
                        assert(extends(state@, x));
                    }
                }
                return self.hint_with_move(
                    HintStatus::Forced,
                    msg,
                    cell,
                    HintAction::Uncheck,
                    true,
                    HintReasonKind::Propagate,
                );
            }
            k = k + 1;
        }
        // 3) A move forced by a single contradiction, when it changes something.
        let mut budget: u32 = 10_000;
        match self.find_forced_by_contradiction(&state, &mut budget) {
            Some((cell, forced_checked, _obs, _scarcity)) => {
                proof {
                    state.lemma_bounds();
                }
                let bit = 1u32 << cell as u32;
                proof {
                    lemma_bit_and(checked_mask, cell as u32);
                    if crate::state::bit_set(checked_mask, cell as u32) {
                        assert(seeded_marks(self.colors(), checked_mask)[cell as int] == Mark::Checked);
                    }
                }
                if forced_checked {
                    if (checked_mask & bit) == 0 {
                        proof {
                            assert((checked_mask & (1u32 << cell as u32)) == 0 ==> ((checked_mask >> cell as u32) & 1u32 != 1u32)) by (bit_vector)
                                requires cell < 32;
                        }
                        let msg = cell_message("By contradiction, ", cell, size, " must be checked.");
                        proof {
                            assert forall|x: Seq<Mark>|
                                is_solution(self.side(), self.colors(), x) && #[trigger] extends(
                                    seeded_marks(self.colors(), checked_mask),
                                    x,
                                ) implies x[cell as int] == Mark::Checked by {
                                assert(extends(state@, x));
                            }
                        }
                        return self.hint_with_move(
                            HintStatus::Forced,
                            msg,
                            cell,
                            HintAction::Check,
                            true,
                            HintReasonKind::Contradiction,
                        );
                    }
                } else if (checked_mask & bit) != 0 {
                    proof {
                        assert((checked_mask & (1u32 << cell as u32)) != 0 ==> ((checked_mask >> cell as u32) & 1u32 == 1u32)) by (bit_vector)
                            requires cell < 32;
                    }
                    let msg = cell_message("By contradiction, ", cell, size, " must be unchecked.");
                    proof {
                        assert forall|x: Seq<Mark>|
                            is_solution(self.side(), self.colors(), x) && #[trigger] extends(
                                seeded_marks(self.colors(), checked_mask),
                                x,
                            ) implies x[cell as int] == Mark::Unchecked by {
                            assert(extends(state@, x));
                        }
                    }
                    return self.hint_with_move(
                        HintStatus::Forced,
                        msg,
                        cell,
                        HintAction::Uncheck,
                        true,
                        HintReasonKind::Contradiction,
                    );
                }
            },
            None => {},
        }
        // 4) Nothing forced: a cell of some solution that is not checked yet.
        k = 0;
        while k < order.len()
            invariant
                self.wf(),
                order == &self.rules.decision_order,
                size == self.rules.size,
                k <= order@.len(),
                completable(self.side(), self.colors(), checked_mask),
                extends(seeded_marks(self.colors(), checked_mask), state@),
                self.fits(&state),
                mask_solves(self.side(), self.colors(), solution),
                keeps(n, checked_mask, solution),
                forall|q: int|
                    0 <= q < k && crate::state::bit_set(solution, order@[q] as u32) ==> #[trigger] crate::state::bit_set(
                        checked_mask,
                        order@[q] as u32,
                    ),
                extends(state@, marks_of(n, solution)),
                n == self.side() * self.side(),
                n <= 25,
                mask_solves(self.side(), self.colors(), solution),
                keeps(n, checked_mask, solution),
            decreases order@.len() - k,
        {
            let cell = order[k];
            proof {
                assert(order@[k as int] < n);
            }
            let bit = 1u32 << cell as u32;
            proof {
                lemma_bit_and(checked_mask, cell as u32);
                lemma_bit_and(solution, cell as u32);
                assert(order@[k as int] == cell);
            }
            if (checked_mask & bit) == 0 && (solution & bit) != 0 {
                proof {
                    assert((checked_mask & (1u32 << cell as u32)) == 0 ==> ((checked_mask >> cell as u32) & 1u32 != 1u32)) by (bit_vector)
                        requires cell < 32;
                    assert((solution & (1u32 << cell as u32)) != 0 ==> ((solution >> cell as u32) & 1u32 == 1u32)) by (bit_vector)
                        requires cell < 32;
                }
                let msg = cell_message("A move that may help: try checking ", cell, size, ".");
                return self.hint_with_move(
                    HintStatus::Suggested,
                    msg,
                    cell,
                    HintAction::Check,
                    false,
                    HintReasonKind::Suggest,
                );
            }
            k = k + 1;
        }
        proof {
            let m = marks_of(n, solution);
            crate::state::lemma_extends_trans(seeded_marks(self.colors(), checked_mask), state@, m);
            assert forall|i: int|
                0 <= i < n && self.colors()[i] != Color::Black && m[i] == Mark::Checked implies #[trigger] crate::state::bit_set(
                checked_mask,
                i as u32,
            ) by {
                assert(crate::rules::non_black(self.colors())(i));
                assert(order@.contains(i as usize));
                let q = choose|q: int| 0 <= q < order@.len() && order@[q] == i as usize;
                assert(order@[q] as int == i);
            }
            assert(is_solution(self.side(), self.colors(), m));
            assert(extends(seeded_marks(self.colors(), checked_mask), m));
        }
        HintResult {
            status: HintStatus::Suggested,
            message: String::from_str(
                "The checked cells can be completed, but no single next move stands out.",
            ),
            mv: None,
            reason: None,
        }
    }

    /// One budgeted propagation on the main line of reasoning; false when the
    /// budget is spent or propagation meets a contradiction.
    fn propagate_logic_with_budget(
        &self,
        state: &mut SolverState,
        budget: &mut u32,
        analysis: &mut HumanDifficultyAnalysis,
    ) -> (r: bool)
        requires
            self.wf(),
            self.fits(old(state)),
            old(analysis).wf(),
        ensures
            self.fits(final(state)),
            final(analysis).wf(),
            extends(old(state)@, final(state)@),
            *final(budget) <= *old(budget),
            *old(budget) == 0 ==> !r,
            final(analysis).exhausted_budget == old(analysis).exhausted_budget,
            final(analysis).variable_cells == old(analysis).variable_cells,
            forall|sol: Seq<Mark>|
                is_solution(self.side(), self.colors(), sol) && #[trigger] extends(old(state)@, sol)
                    ==> extends(final(state)@, sol),
    {
        if *budget == 0 {
            return false;
        }
        *budget = *budget - 1;
        let mut obs = SolveStats::new();
        if !self.propagate_to_fixpoint(state, &mut obs) {
            return false;
        }
        let burst: u32 = if obs.assignments_propagated > 0xffff_ffff {
            0xffff_ffff
        } else {
            obs.assignments_propagated as u32
        };
        if burst > 0 {
            analysis.logic_bursts = analysis.logic_bursts.saturating_add(1);
            if burst > analysis.max_logic_burst_size {
                analysis.max_logic_burst_size = burst;
            }
        }
        analysis.merge_into_analysis(&obs);
        true
    }

    /// When stuck: for every unknown cell and both values, does the
    /// assumption start a new burst of propagation? Returns the number of
    /// assumptions available, of those that did, and the largest burst.
    fn probe_progress_candidates(&self, state: &SolverState, budget: &mut u32) -> (r: (u32, u32, u32))
        requires
            self.wf(),
            self.fits(state),
        ensures
            *final(budget) <= *old(budget),
            r.1 <= r.0,
            r.0 == 2 * line_count(state@, crate::rules::non_black(self.colors()), Mark::Unknown),
            *old(budget) - *final(budget) <= r.0,
    {
        let mut unknown_cells: u32 = 0;
        let mut candidates: u32 = 0;
        let mut max_burst: u32 = 0;
        let order = &self.rules.decision_order;
        let ghost b0 = *budget;
        let mut k: usize = 0;
        while k < order.len()
            invariant
                self.wf(),
                self.fits(state),
                order == &self.rules.decision_order,
                order@.len() <= 111616,
                k <= order@.len(),
                unknown_cells <= k,
                candidates <= 2 * unknown_cells,
                *budget <= b0,
                b0 == *old(budget),
                unknown_cells == count_in(state@, order@.subrange(0, k as int), Mark::Unknown),
                b0 - *budget <= 2 * unknown_cells,
            decreases order@.len() - k,
        {
            let cell = order[k];
            proof {
                assert(order@.subrange(0, k + 1).drop_last() =~= order@.subrange(0, k as int));
            }
            if state.is_unknown_id(cell) {
                unknown_cells = unknown_cells + 1;
                let mut t: usize = 0;
                while t < 2
                    invariant
                        self.wf(),
                        self.fits(state),
                        cell < state.cell_count(),
                        unknown_cells <= 111616,
                        t <= 2,
                        candidates + 2 - t <= 2 * unknown_cells,
                        *budget <= b0,
                        unknown_cells >= 1,
                        b0 - *budget <= 2 * unknown_cells - 2 + t,
                    decreases 2 - t,
                {
                    if *budget == 0 {
                        break;
                    }
                    *budget = *budget - 1;
                    let mut fork = state.fork();
                    let mut scratch = SolveStats::new();
                    let ok = if t == 1 {
                        try_set_checked_id(&mut fork, cell, AssignReason::Guess, &mut scratch)
                    } else {
                        try_set_unchecked_id(&mut fork, cell, AssignReason::Guess, &mut scratch)
                    };
                    if ok {
                        let mut obs = SolveStats::new();
                        if self.propagate_to_fixpoint(&mut fork, &mut obs) {
                            let burst: u32 = if obs.assignments_propagated > 0xffff_ffff {
                                0xffff_ffff
                            } else {
                                obs.assignments_propagated as u32
                            };
                            if burst > 0 {
                                candidates = candidates + 1;
                                if burst > max_burst {
                                    max_burst = burst;
                                }
                            }
                        }
                    }
                    t = t + 1;
                }
            }
            k = k + 1;
        }
        proof {
            assert(order@.subrange(0, k as int) =~= order@);
            lemma_count_in_exact(
                state@,
                order@,
                self.side() * self.side(),
                crate::rules::non_black(self.colors()),
                Mark::Unknown,
            );
        }
        (unknown_cells.saturating_add(unknown_cells), candidates, max_burst)
    }

    /// Simulates a human solver: propagation, then single-step proofs by
    /// contradiction, each followed by propagation, until nothing is forced,
    /// the board is decided, or the reasoning budget (50,000 units) is spent.
    pub fn analyze_human_difficulty(&self) -> (r: HumanDifficultyAnalysis)
        requires
            self.wf(),
        ensures
            r.wf(),
            r.variable_cells == non_black_count(self.colors()),
            exists|b: Seq<Mark>| #[trigger] final_board(self.side(), self.colors(), r, b),
            r.solved ==> forall|x: Seq<Mark>, y: Seq<Mark>|
                is_solution(self.side(), self.colors(), x) && is_solution(self.side(), self.colors(), y)
                    ==> x == y,
    {
        let mut budget: u32 = 50_000;
        self.analyze_with_budget(&mut budget)
    }

    /// The reasoning simulation (see `analyze_human_difficulty`) with a
    /// reasoning budget of `budget` units, each propagation spending one; the
    /// analysis reports the budget exhausted exactly when none is left.
    pub fn analyze_with_budget(&self, budget: &mut u32) -> (r: HumanDifficultyAnalysis)
        requires
            self.wf(),
        ensures
            r.wf(),
            *final(budget) <= *old(budget),
            r.exhausted_budget == (*final(budget) == 0),
            r.variable_cells == non_black_count(self.colors()),
            exists|b: Seq<Mark>| #[trigger] final_board(self.side(), self.colors(), r, b),
            r.solved ==> forall|x: Seq<Mark>, y: Seq<Mark>|
                is_solution(self.side(), self.colors(), x) && is_solution(self.side(), self.colors(), y)
                    ==> x == y,
    {
        let mut state = self.blank_board();
        let mut analysis = HumanDifficultyAnalysis::new();
        let order_len = self.rules.decision_order.len();
        analysis.variable_cells = order_len as u32;
        proof {
            let all = Seq::new(self.colors().len(), |i: int| Mark::Checked);
            lemma_count_in_all(all, self.rules.decision_order@);
            lemma_count_in_exact(
                all,
                self.rules.decision_order@,
                self.side() * self.side(),
                crate::rules::non_black(self.colors()),
                Mark::Checked,
            );
            assert(all.len() == self.side() * self.side());
            assert(analysis.variable_cells == non_black_count(self.colors()));
            assert forall|sol: Seq<Mark>| #[trigger] is_solution(self.side(), self.colors(), sol) implies extends(
                state@,
                sol,
            ) by {
                lemma_solution_extends_blacks(self.side(), self.colors(), sol);
            }
        }
        let ghost blacks = state@;
        if !self.propagate_logic_with_budget(&mut state, budget, &mut analysis) {
            analysis.solved = false;
            analysis.exhausted_budget = *budget == 0;
            let (total, possible, guaranteed) = bingo_segment_stats(&state);
            analysis.bingo_segments_total = total;
            analysis.bingo_segments_possible = possible;
            analysis.bingo_segments_guaranteed = guaranteed;
            proof {
                assert(final_board(self.side(), self.colors(), analysis, state@));
            }
            return analysis;
        }
        analysis.initial_unknown_after_logic = self.count_unknown_decision_cells(&state);
        loop
            invariant
                self.wf(),
                self.fits(&state),
                analysis.wf(),
                *budget <= *old(budget),
                analysis.variable_cells == non_black_count(self.colors()),
                blacks == black_marks(self.colors()),
                extends(blacks, state@),
                forall|sol: Seq<Mark>| #[trigger] is_solution(self.side(), self.colors(), sol) ==> extends(
                    state@,
                    sol,
                ),
            decreases unknowns(state@),
        {
            let found = self.find_forced_by_contradiction(&state, budget);
            let (cell, forced_checked, obs, (unknown_cells, candidate_assumptions)) = match found {
                Some(x) => x,
                None => {
                    break;
                },
            };
            analysis.forced_by_contradiction = analysis.forced_by_contradiction.saturating_add(1);
            analysis.merge_into_contradiction(&obs);
            let total_assumptions = unknown_cells.saturating_add(unknown_cells);
            analysis.contradiction_entry_total_assumptions =
                analysis.contradiction_entry_total_assumptions.saturating_add(total_assumptions);
            analysis.contradiction_entry_candidate_assumptions =
                analysis.contradiction_entry_candidate_assumptions.saturating_add(candidate_assumptions);
            if total_assumptions > 0 && candidate_assumptions > 0 {
                let scarcity = half_bit_scarcity(total_assumptions, candidate_assumptions);
                analysis.contradiction_entry_scarcity_sum =
                    analysis.contradiction_entry_scarcity_sum.saturating_add(scarcity);
                if scarcity > analysis.contradiction_entry_scarcity_max {
                    analysis.contradiction_entry_scarcity_max = scarcity;
                }
            }
            let ghost before = state@;
            let res = if forced_checked {
                state.set_checked_id(cell)
            } else {
                state.set_unchecked_id(cell)
            };
            proof {
                assert(state@[cell as int] != before[cell as int]);
                lemma_extends_same(before, state@);
            }
            proof {
                crate::state::lemma_extends_trans(blacks, before, state@);
                assert forall|sol: Seq<Mark>| #[trigger] is_solution(self.side(), self.colors(), sol) implies extends(
                    state@,
                    sol,
                ) by {
                    assert(extends(before, sol));
                }
            }
            if res.is_err() {
                break;
            }
            let ghost mid = state@;
            let ok = self.propagate_logic_with_budget(&mut state, budget, &mut analysis);
            proof {
                lemma_extends_same(mid, state@);
                crate::state::lemma_extends_trans(blacks, mid, state@);
                assert forall|sol: Seq<Mark>| #[trigger] is_solution(self.side(), self.colors(), sol) implies extends(
                    state@,
                    sol,
                ) by {
                    assert(extends(mid, sol));
                }
            }
            if !ok {
                break;
            }
        }
        if !state.is_fully_decided() {
            let (total, candidates, max_burst) = self.probe_progress_candidates(&state, budget);
            analysis.probe_total_assumptions = total;
            analysis.probe_candidate_assumptions = candidates;
            analysis.probe_max_burst_size = max_burst;
            if total > 0 && candidates > 0 {
                analysis.probe_scarcity = half_bit_scarcity(total, candidates);
            }
        }
        analysis.solved = state.is_fully_decided();
        analysis.exhausted_budget = *budget == 0;
        let (total, possible, guaranteed) = bingo_segment_stats(&state);
        analysis.bingo_segments_total = total;
        analysis.bingo_segments_possible = possible;
        analysis.bingo_segments_guaranteed = guaranteed;
        proof {
            assert(final_board(self.side(), self.colors(), analysis, state@));
            if analysis.solved {
                assert forall|x: Seq<Mark>, y: Seq<Mark>|
                    is_solution(self.side(), self.colors(), x) && is_solution(self.side(), self.colors(), y)
                        implies x == y by {
                    assert(extends(state@, x));
                    assert(extends(state@, y));
                    assert(x =~= y) by {
                        assert forall|i: int| 0 <= i < x.len() implies x[i] == y[i] by {
                            assert(state@[i] != Mark::Unknown);
                        }
                    }
                }
            }
        }
        analysis
    }
}

} // verus!
