use crate::colors::Color;
use crate::state::{
    col_of, count_upto, down_of, id_of, lemma_id_rc, lemma_rc_id, line_count, row_of, up_of, Mark,
};
use vstd::prelude::*;

verus! {

/// `j` touches `i` by a side or a corner.
pub open spec fn adj8(size: int, i: int) -> spec_fn(int) -> bool {
    |j: int|
        j != i && -1 <= j / size - i / size <= 1 && -1 <= j % size - i % size <= 1
}

/// `j` touches `i` by a side.
pub open spec fn adj4(size: int, i: int) -> spec_fn(int) -> bool {
    |j: int|
        (j / size == i / size && (j % size - i % size == 1 || i % size - j % size == 1)) || (j
            % size == i % size && (j / size - i / size == 1 || i / size - j / size == 1))
}

/// Number of checked cells around `i` (8-neighborhood).
pub open spec fn checked_around8(size: int, s: Seq<Mark>, i: int) -> nat {
    line_count(s, adj8(size, i), Mark::Checked)
}

/// Number of checked cells beside `i` (4-neighborhood).
pub open spec fn checked_around4(size: int, s: Seq<Mark>, i: int) -> nat {
    line_count(s, adj4(size, i), Mark::Checked)
}

/// Index of the falling diagonal through cell `i`.
pub open spec fn down_index(size: int, i: int) -> int {
    i / size - i % size + size - 1
}

/// Index of the rising diagonal through cell `i`.
pub open spec fn up_index(size: int, i: int) -> int {
    i / size + i % size
}

/// The rule of the color of cell `i` holds on the fully decided board `s`.
pub open spec fn cell_ok(size: int, colors: Seq<Color>, s: Seq<Mark>, i: int) -> bool {
    let n8 = checked_around8(size, s, i);
    match colors[i] {
        Color::Black => s[i] == Mark::Checked,
        Color::Red => n8 >= 1,
        Color::Blue => n8 <= 2,
        Color::Green => line_count(s, row_of(size, i / size), Mark::Checked) == line_count(
            s,
            col_of(size, i % size),
            Mark::Checked,
        ),
        Color::Yellow => line_count(s, down_of(size, down_index(size, i)), Mark::Checked)
            == line_count(s, up_of(size, up_index(size, i)), Mark::Checked),
        Color::Purple => n8 % 2 == 1,
        Color::Orange => n8 % 2 == 0,
        Color::Cyan => s[i] == Mark::Checked ==> checked_around4(size, s, i) >= 1,
        Color::White => true,
    }
}

/// Row step of direction `dir` (0: along a row, 1: down a column,
/// 2: down-right, 3: down-left).
pub open spec fn dir_dr(dir: int) -> int {
    if dir == 0 {
        0
    } else {
        1
    }
}

/// Column step of direction `dir`.
pub open spec fn dir_dc(dir: int) -> int {
    if dir == 0 {
        1
    } else if dir == 1 {
        0
    } else if dir == 2 {
        1
    } else {
        -1
    }
}

/// The run of five cells from `(r, c)` in direction `dir` lies on the board.
pub open spec fn segment_fits(size: int, r: int, c: int, dir: int) -> bool {
    &&& 0 <= dir < 4
    &&& 0 <= r < size
    &&& 0 <= c < size
    &&& 0 <= r + 4 * dir_dr(dir) < size
    &&& 0 <= c + 4 * dir_dc(dir) < size
}

/// The `k`-th cell of the run from `(r, c)` in direction `dir`.
pub open spec fn segment_cell(size: int, r: int, c: int, dir: int, k: int) -> int {
    id_of(size, r + k * dir_dr(dir), c + k * dir_dc(dir))
}

/// No cell of the run carries mark `m`.
pub open spec fn segment_avoids(size: int, s: Seq<Mark>, r: int, c: int, dir: int, m: Mark) -> bool {
    forall|k: int| 0 <= k < 5 ==> s[#[trigger] segment_cell(size, r, c, dir, k)] != m
}

/// Some run of five cells holds no unchecked cell.
pub open spec fn five_possible(size: int, s: Seq<Mark>) -> bool {
    exists|r: int, c: int, dir: int|
        segment_fits(size, r, c, dir) && #[trigger] segment_avoids(
            size,
            s,
            r,
            c,
            dir,
            Mark::Unchecked,
        )
}

/// Every cell is decided.
pub open spec fn decided(s: Seq<Mark>) -> bool {
    forall|i: int| 0 <= i < s.len() ==> #[trigger] s[i] != Mark::Unknown
}

/// `s` is a solution: fully decided, every color rule holds, and some run of
/// five cells is checked.
pub open spec fn is_solution(size: int, colors: Seq<Color>, s: Seq<Mark>) -> bool {
    &&& s.len() == size * size
    &&& colors.len() == size * size
    &&& decided(s)
    &&& forall|i: int| 0 <= i < size * size ==> #[trigger] cell_ok(size, colors, s, i)
    &&& five_possible(size, s)
}

/// Weight of a color in the decision order: harder-constrained colors first.
pub open spec fn color_weight(c: Color) -> int {
    match c {
        Color::Blue => 100,
        Color::Green => 90,
        Color::Yellow => 80,
        Color::Cyan => 70,
        Color::Red => 60,
        Color::Purple => 50,
        Color::Orange => 50,
        _ => 10,
    }
}

/// `list` holds exactly the cells of color `c`.
pub open spec fn lists_color(colors: Seq<Color>, list: Seq<usize>, c: Color) -> bool {
    &&& forall|k: int| 0 <= k < list.len() ==> #[trigger] list[k] < colors.len()
    &&& forall|k: int| 0 <= k < list.len() ==> colors[#[trigger] list[k] as int] == c
    &&& forall|i: int| 0 <= i < colors.len() && colors[i] == c ==> #[trigger] list.contains(
        i as usize,
    )
}

/// `list` holds exactly the cells of `0..n` that satisfy `p`, each once.
pub open spec fn lists_exactly(list: Seq<usize>, n: int, p: spec_fn(int) -> bool) -> bool {
    &&& list.no_duplicates()
    &&& forall|k: int| 0 <= k < list.len() ==> #[trigger] list[k] < n
    &&& forall|k: int| 0 <= k < list.len() ==> p(#[trigger] list[k] as int)
    &&& forall|j: int| 0 <= j < n && #[trigger] p(j) ==> list.contains(j as usize)
}

/// What the cells of `ids` carry mark `m`, counted along the list.
pub open spec fn count_in(s: Seq<Mark>, ids: Seq<usize>, m: Mark) -> nat
    decreases ids.len(),
{
    if ids.len() == 0 {
        0
    } else {
        count_in(s, ids.drop_last(), m) + if s[ids.last() as int] == m {
            1nat
        } else {
            0nat
        }
    }
}

/// Dropping one element of a list drops its cell from the count.
proof fn lemma_count_in_remove(s: Seq<Mark>, ids: Seq<usize>, m: Mark, k: int)
    requires
        0 <= k < ids.len(),
    ensures
        count_in(s, ids, m) == count_in(s, ids.remove(k), m) + if s[ids[k] as int] == m {
            1nat
        } else {
            0nat
        },
    decreases ids.len(),
{
    if k == ids.len() - 1 {
        assert(ids.remove(k) =~= ids.drop_last());
    } else {
        lemma_count_in_remove(s, ids.drop_last(), m, k);
        assert(ids.remove(k).drop_last() =~= ids.drop_last().remove(k));
        assert(ids.remove(k).last() == ids.last());
    }
}

/// Counting along a list of exactly the cells of a line is counting the line.
pub proof fn lemma_count_in_exact(s: Seq<Mark>, ids: Seq<usize>, n: int, p: spec_fn(int) -> bool, m: Mark)
    requires
        0 <= n <= s.len(),
        n <= usize::MAX,
        lists_exactly(ids, n, p),
    ensures
        count_in(s, ids, m) == count_upto(s, n, p, m),
    decreases n,
{
    if n == 0 {
        if ids.len() > 0 {
            assert(ids[0] < 0);
        }
    } else if p(n - 1) {
        assert(ids.contains((n - 1) as usize));
        let k = choose|k: int| 0 <= k < ids.len() && ids[k] == (n - 1) as usize;
        lemma_count_in_remove(s, ids, m, k);
        let rest = ids.remove(k);
        assert forall|q: int| 0 <= q < rest.len() implies #[trigger] rest[q] < n - 1 by {
            let orig = if q < k {
                q
            } else {
                q + 1
            };
            assert(rest[q] == ids[orig]);
            assert(ids[orig] != ids[k]);
        }
        assert forall|j: int| 0 <= j < n - 1 && #[trigger] p(j) implies rest.contains(j as usize) by {
            assert(ids.contains(j as usize));
            let q = choose|q: int| 0 <= q < ids.len() && ids[q] == j as usize;
            assert(ids[q] as int == j);
            assert(ids[k] as int == n - 1);
            assert(q != k);
            if q < k {
                assert(rest[q] == ids[q]);
            } else {
                assert(rest[q - 1] == ids[q]);
            }
        }
        assert forall|q: int| 0 <= q < rest.len() implies p(#[trigger] rest[q] as int) by {
            if q < k {
                assert(rest[q] == ids[q]);
            } else {
                assert(rest[q] == ids[q + 1]);
            }
        }
        assert(rest.no_duplicates()) by {
            assert forall|a: int, b: int| 0 <= a < rest.len() && 0 <= b < rest.len() && a != b
                implies rest[a] != rest[b] by {
                let oa = if a < k {
                    a
                } else {
                    a + 1
                };
                let ob = if b < k {
                    b
                } else {
                    b + 1
                };
                assert(rest[a] == ids[oa]);
                assert(rest[b] == ids[ob]);
            }
        }
        lemma_count_in_exact(s, rest, n - 1, p, m);
    } else {
        assert forall|q: int| 0 <= q < ids.len() implies #[trigger] ids[q] < n - 1 by {
            if ids[q] == n - 1 {
                assert(p(ids[q] as int));
            }
        }
        lemma_count_in_exact(s, ids, n - 1, p, m);
    }
}

/// The cells of a line: `list` holds exactly the cells of `0..n` on it, each once,
/// in increasing order.
pub open spec fn lists_line(list: Seq<usize>, n: int, p: spec_fn(int) -> bool) -> bool {
    &&& lists_exactly(list, n, p)
    &&& forall|a: int, b: int| 0 <= a < b < list.len() ==> list[a] < list[b]
}

/// The cells around `(row, col)` of a board of side `size`: all eight
/// neighbours, or only the four beside it when `four` holds.
fn around(size: usize, row: usize, col: usize, four: bool) -> (r: Vec<usize>)
    requires
        1 <= size <= 32,
        row < size,
        col < size,
    ensures
        lists_exactly(
            r@,
            size * size,
            if four {
                adj4(size as int, id_of(size as int, row as int, col as int))
            } else {
                adj8(size as int, id_of(size as int, row as int, col as int))
            },
        ),
        r@.len() <= 8,
{
    let ghost sz = size as int;
    let ghost me = id_of(sz, row as int, col as int);
    let ghost adj = if four {
        adj4(sz, me)
    } else {
        adj8(sz, me)
    };
    proof {
        lemma_rc_id(sz, row as int, col as int);
        assert(size * size <= 1024) by (nonlinear_arith)
            requires
                size <= 32,
        ;
    }
    let mut out: Vec<usize> = Vec::new();
    let mut t: usize = 0;
    while t < 9
        invariant
            1 <= size <= 32,
            sz == size,
            size * size <= 1024,
            row < size,
            col < size,
            me == id_of(sz, row as int, col as int),
            me / sz == row,
            me % sz == col,
            adj == if four {
                adj4(sz, me)
            } else {
                adj8(sz, me)
            },
            t <= 9,
            out@.len() <= t,
            t > 4 ==> out@.len() <= t - 1,
            out@.no_duplicates(),
            forall|k: int|
                0 <= k < out@.len() ==> #[trigger] out@[k] < size * size && adj(out@[k] as int)
                    && (out@[k] / size + 1 - row) * 3 + (out@[k] % size + 1 - col) < t,
            forall|j: int|
                0 <= j < size * size && #[trigger] adj(j) && (j / sz + 1 - row) * 3 + (j % sz + 1
                    - col) < t ==> out@.contains(j as usize),
        decreases 9 - t,
    {
        let a = t / 3;
        let b = t % 3;
        let inside = row + a >= 1 && row + a - 1 < size && col + b >= 1 && col + b - 1 < size;
        let wanted = if four {
            (a == 1) != (b == 1)
        } else {
            !(a == 1 && b == 1)
        };
        let ghost prev = out@;
        if inside && wanted {
            let nr = row + a - 1;
            let nc = col + b - 1;
            proof {
                lemma_rc_id(sz, nr as int, nc as int);
            }
            let j = nr * size + nc;
            proof {
                assert(j as int / sz == nr);
                assert(j as int % sz == nc);
                assert(adj(j as int));
                assert forall|k: int| 0 <= k < out@.len() implies out@[k] != j by {
                    assert((out@[k] / size + 1 - row) * 3 + (out@[k] % size + 1 - col) < t);
                }
            }
            out.push(j);
        }
        proof {
            assert forall|j: int|
                0 <= j < size * size && #[trigger] adj(j) && (j / sz + 1 - row) * 3 + (j % sz + 1
                    - col) < t + 1 implies out@.contains(j as usize) by {
                lemma_id_rc(sz, j);
                if (j / sz + 1 - row) * 3 + (j % sz + 1 - col) == t {
                    assert(j / sz + 1 - row == a);
                    assert(j % sz + 1 - col == b);
                    assert(out@[out@.len() - 1] == j as usize);
                } else {
                    assert(prev.contains(j as usize));
                    let q = choose|q: int| 0 <= q < prev.len() && prev[q] == j as usize;
                    assert(out@[q] == j as usize);
                }
            }
        }
        t = t + 1;
    }
    out
}

/// The cells of color `c`, in increasing order.
fn cells_of_color(colors: &Vec<Color>, c: Color) -> (r: Vec<usize>)
    ensures
        lists_color(colors@, r@, c),
        r@.no_duplicates(),
{
    let mut out: Vec<usize> = Vec::new();
    let mut id: usize = 0;
    while id < colors.len()
        invariant
            id <= colors.len(),
            out@.no_duplicates(),
            forall|k: int| 0 <= k < out@.len() ==> #[trigger] out@[k] < id,
            forall|k: int| 0 <= k < out@.len() ==> colors@[#[trigger] out@[k] as int] == c,
            forall|i: int| 0 <= i < id && colors@[i] == c ==> #[trigger] out@.contains(i as usize),
        decreases colors.len() - id,
    {
        let ghost prev = out@;
        if colors[id] == c {
            out.push(id);
        }
        proof {
            assert forall|i: int| 0 <= i < id + 1 && colors@[i] == c implies #[trigger] out@.contains(
                i as usize,
            ) by {
                if i < id {
                    assert(prev.contains(i as usize));
                    let q = choose|q: int| 0 <= q < prev.len() && prev[q] == i as usize;
                    assert(out@[q] == i as usize);
                } else {
                    assert(out@[out@.len() - 1] == i as usize);
                }
            }
        }
        id = id + 1;
    }
    out
}

/// The cells of one diagonal, in increasing order: the falling diagonal `d`
/// when `down` holds, else the rising one.
fn diag_cells(size: usize, d: usize, down: bool) -> (r: Vec<usize>)
    requires
        1 <= size <= 32,
    ensures
        lists_line(
            r@,
            size * size,
            if down {
                down_of(size as int, d as int)
            } else {
                up_of(size as int, d as int)
            },
        ),
{
    let ghost sz = size as int;
    let ghost line = if down {
        down_of(sz, d as int)
    } else {
        up_of(sz, d as int)
    };
    proof {
        assert(size * size <= 1024) by (nonlinear_arith)
            requires
                size <= 32,
        ;
    }
    let n = size * size;
    let mut out: Vec<usize> = Vec::new();
    let mut id: usize = 0;
    while id < n
        invariant
            1 <= size <= 32,
            sz == size,
            n == size * size,
            line == if down {
                down_of(sz, d as int)
            } else {
                up_of(sz, d as int)
            },
            id <= n,
            out@.no_duplicates(),
            forall|a: int, b: int| 0 <= a < b < out@.len() ==> out@[a] < out@[b],
            forall|k: int| 0 <= k < out@.len() ==> #[trigger] out@[k] < id,
            forall|k: int| 0 <= k < out@.len() ==> line(#[trigger] out@[k] as int),
            forall|i: int| 0 <= i < id && #[trigger] line(i) ==> out@.contains(i as usize),
        decreases n - id,
    {
        let ghost prev = out@;
        proof {
            lemma_id_rc(sz, id as int);
        }
        let row = id / size;
        let col = id % size;
        let on = if down {
            row + (size - 1) - col == d
        } else {
            row + col == d
        };
        if on {
            out.push(id);
        }
        proof {
            assert(line(id as int) == on);
            assert forall|i: int| 0 <= i < id + 1 && #[trigger] line(i) implies out@.contains(
                i as usize,
            ) by {
                if i < id {
                    assert(prev.contains(i as usize));
                    let q = choose|q: int| 0 <= q < prev.len() && prev[q] == i as usize;
                    assert(out@[q] == i as usize);
                } else {
                    assert(out@[out@.len() - 1] == i as usize);
                }
            }
        }
        id = id + 1;
    }
    out
}

/// What the propagator and the search read of a puzzle, computed once:
/// the cells of each color, the neighbours of each cell, the cells of each
/// diagonal, and the order in which undecided cells are tried.
#[derive(Clone, Debug)]
pub struct RuleSet {
    pub size: usize,
    pub colors: Vec<Color>,
    pub black_cells: Vec<usize>,
    pub blue_cells: Vec<usize>,
    pub red_cells: Vec<usize>,
    pub green_cells: Vec<usize>,
    pub yellow_cells: Vec<usize>,
    pub purple_cells: Vec<usize>,
    pub orange_cells: Vec<usize>,
    pub cyan_cells: Vec<usize>,
    pub decision_order: Vec<usize>,
    pub neighbors8: Vec<Vec<usize>>,
    pub neighbors4: Vec<Vec<usize>>,
    pub diag_down_cells: Vec<Vec<usize>>,
    pub diag_up_cells: Vec<Vec<usize>>,
}

/// The cells that are not black.
pub open spec fn non_black(colors: Seq<Color>) -> spec_fn(int) -> bool {
    |i: int| colors[i] != Color::Black
}

/// Position of cell `i` in the decision order: heavier colors first, then
/// cells with more neighbours.
pub open spec fn decision_key(colors: Seq<Color>, neighbors8: Seq<Vec<usize>>, i: int) -> int {
    color_weight(colors[i]) + neighbors8[i]@.len()
}

impl RuleSet {
    /// Number of cells.
    pub open spec fn n(&self) -> int {
        self.size * self.size
    }

    /// Every list agrees with the colors and the geometry of the board.
    pub open spec fn wf(&self) -> bool {
        let n = self.n();
        let sz = self.size as int;
        &&& 1 <= self.size <= 32
        &&& n <= 1024
        &&& self.colors@.len() == n
        &&& lists_color(self.colors@, self.black_cells@, Color::Black)
        &&& lists_color(self.colors@, self.blue_cells@, Color::Blue)
        &&& lists_color(self.colors@, self.red_cells@, Color::Red)
        &&& lists_color(self.colors@, self.green_cells@, Color::Green)
        &&& lists_color(self.colors@, self.yellow_cells@, Color::Yellow)
        &&& lists_color(self.colors@, self.purple_cells@, Color::Purple)
        &&& lists_color(self.colors@, self.orange_cells@, Color::Orange)
        &&& lists_color(self.colors@, self.cyan_cells@, Color::Cyan)
        &&& self.neighbors8@.len() == n
        &&& self.neighbors4@.len() == n
        &&& forall|i: int|
            0 <= i < n ==> lists_exactly(#[trigger] self.neighbors8@[i]@, n, adj8(sz, i))
        &&& forall|i: int|
            0 <= i < n ==> lists_exactly(#[trigger] self.neighbors4@[i]@, n, adj4(sz, i))
        &&& forall|i: int| 0 <= i < n ==> #[trigger] self.neighbors8@[i]@.len() <= 8
        &&& forall|i: int| 0 <= i < n ==> #[trigger] self.neighbors4@[i]@.len() <= 8
        &&& self.diag_down_cells@.len() == 2 * sz - 1
        &&& self.diag_up_cells@.len() == 2 * sz - 1
        &&& forall|d: int|
            0 <= d < 2 * sz - 1 ==> lists_line(#[trigger] self.diag_down_cells@[d]@, n, down_of(sz, d))
        &&& forall|d: int|
            0 <= d < 2 * sz - 1 ==> lists_line(#[trigger] self.diag_up_cells@[d]@, n, up_of(sz, d))
        &&& lists_exactly(self.decision_order@, n, non_black(self.colors@))
        &&& self.decision_order@.len() <= 111616
        &&& forall|a: int, b: int|
            0 <= a < b < self.decision_order@.len() && decision_key(
                self.colors@,
                self.neighbors8@,
                self.decision_order@[a] as int,
            ) == decision_key(self.colors@, self.neighbors8@, self.decision_order@[b] as int)
                ==> self.decision_order@[a] < self.decision_order@[b]
        &&& forall|a: int, b: int|
            0 <= a < b < self.decision_order@.len() ==> decision_key(
                self.colors@,
                self.neighbors8@,
                self.decision_order@[a] as int,
            ) >= decision_key(self.colors@, self.neighbors8@, self.decision_order@[b] as int)
    }

    /// Compiles the rule index of a board of side `size`.
    pub fn new(size: usize, colors: Vec<Color>) -> (r: Self)
        requires
            1 <= size <= 32,
            colors@.len() == size * size,
        ensures
            r.wf(),
            r.size == size,
            r.colors@ == colors@,
    {
        let ghost sz = size as int;
        proof {
            assert(size * size <= 1024) by (nonlinear_arith)
                requires
                    size <= 32,
            ;
        }
        let n = size * size;
        let black_cells = cells_of_color(&colors, Color::Black);
        let blue_cells = cells_of_color(&colors, Color::Blue);
        let red_cells = cells_of_color(&colors, Color::Red);
        let green_cells = cells_of_color(&colors, Color::Green);
        let yellow_cells = cells_of_color(&colors, Color::Yellow);
        let purple_cells = cells_of_color(&colors, Color::Purple);
        let orange_cells = cells_of_color(&colors, Color::Orange);
        let cyan_cells = cells_of_color(&colors, Color::Cyan);

        let mut neighbors8: Vec<Vec<usize>> = Vec::new();
        let mut neighbors4: Vec<Vec<usize>> = Vec::new();
        let mut id: usize = 0;
        while id < n
            invariant
                1 <= size <= 32,
                sz == size,
                n == size * size,
                n <= 1024,
                id <= n,
                neighbors8@.len() == id,
                neighbors4@.len() == id,
                forall|i: int|
                    0 <= i < id ==> lists_exactly(#[trigger] neighbors8@[i]@, n as int, adj8(sz, i)),
                forall|i: int|
                    0 <= i < id ==> lists_exactly(#[trigger] neighbors4@[i]@, n as int, adj4(sz, i)),
                forall|i: int| 0 <= i < id ==> #[trigger] neighbors8@[i]@.len() <= 8,
                forall|i: int| 0 <= i < id ==> #[trigger] neighbors4@[i]@.len() <= 8,
            decreases n - id,
        {
            proof {
                lemma_id_rc(sz, id as int);
            }
            let row = id / size;
            let col = id % size;
            neighbors8.push(around(size, row, col, false));
            neighbors4.push(around(size, row, col, true));
            id = id + 1;
        }

        let diag_count = 2 * size - 1;
        let mut diag_down_cells: Vec<Vec<usize>> = Vec::new();
        let mut diag_up_cells: Vec<Vec<usize>> = Vec::new();
        let mut d: usize = 0;
        while d < diag_count
            invariant
                1 <= size <= 32,
                sz == size,
                n == size * size,
                diag_count == 2 * size - 1,
                d <= diag_count,
                diag_down_cells@.len() == d,
                diag_up_cells@.len() == d,
                forall|e: int|
                    0 <= e < d ==> lists_line(#[trigger] diag_down_cells@[e]@, n as int, down_of(sz, e)),
                forall|e: int|
                    0 <= e < d ==> lists_line(#[trigger] diag_up_cells@[e]@, n as int, up_of(sz, e)),
            decreases diag_count - d,
        {
            diag_down_cells.push(diag_cells(size, d, true));
            diag_up_cells.push(diag_cells(size, d, false));
            d = d + 1;
        }

        let decision_order = order_cells(&colors, &neighbors8);
        RuleSet {
            size,
            colors,
            black_cells,
            blue_cells,
            red_cells,
            green_cells,
            yellow_cells,
            purple_cells,
            orange_cells,
            cyan_cells,
            decision_order,
            neighbors8,
            neighbors4,
            diag_down_cells,
            diag_up_cells,
        }
    }
}

/// Weight of a color in the decision order.
fn weight_of(c: Color) -> (r: usize)
    ensures
        r == color_weight(c),
{
    match c {
        Color::Blue => 100,
        Color::Green => 90,
        Color::Yellow => 80,
        Color::Cyan => 70,
        Color::Red => 60,
        Color::Purple => 50,
        Color::Orange => 50,
        _ => 10,
    }
}

/// The non-black cells, by decreasing key; cells of equal key by increasing id.
fn order_cells(colors: &Vec<Color>, neighbors8: &Vec<Vec<usize>>) -> (r: Vec<usize>)
    requires
        colors@.len() == neighbors8@.len(),
        colors@.len() <= 1024,
        forall|i: int| 0 <= i < colors@.len() ==> #[trigger] neighbors8@[i]@.len() <= 8,
    ensures
        lists_exactly(r@, colors@.len() as int, non_black(colors@)),
        r@.len() <= 111616,
        forall|a: int, b: int|
            0 <= a < b < r@.len() && decision_key(colors@, neighbors8@, r@[a] as int) == decision_key(
                colors@,
                neighbors8@,
                r@[b] as int,
            ) ==> r@[a] < r@[b],
        forall|a: int, b: int|
            0 <= a < b < r@.len() ==> decision_key(colors@, neighbors8@, r@[a] as int)
                >= decision_key(colors@, neighbors8@, r@[b] as int),
{
    let n = colors.len();
    let mut out: Vec<usize> = Vec::new();
    // Keys run from 10 to 108; walk them from the top.
    let mut k: usize = 109;
    while k > 0
        invariant
            n == colors@.len(),
            n <= 1024,
            n == neighbors8@.len(),
            forall|i: int| 0 <= i < n ==> #[trigger] neighbors8@[i]@.len() <= 8,
            k <= 109,
            out@.len() <= (109 - k) * 1024,
            forall|a: int, b: int|
                0 <= a < b < out@.len() && decision_key(colors@, neighbors8@, out@[a] as int)
                    == decision_key(colors@, neighbors8@, out@[b] as int) ==> out@[a] < out@[b],
            out@.no_duplicates(),
            forall|q: int| 0 <= q < out@.len() ==> #[trigger] out@[q] < n,
            forall|q: int| 0 <= q < out@.len() ==> (colors@[#[trigger] out@[q] as int] != Color::Black),
            forall|q: int| 0 <= q < out@.len() ==> decision_key(colors@, neighbors8@, #[trigger] out@[q] as int) >= k,
            forall|a: int, b: int|
                0 <= a < b < out@.len() ==> decision_key(colors@, neighbors8@, out@[a] as int) >= decision_key(colors@, neighbors8@, out@[b] as int),
            forall|i: int|
                0 <= i < n && (colors@[i] != Color::Black) && decision_key(colors@, neighbors8@, i) >= k ==> #[trigger] out@.contains(i as usize),
        decreases k,
    {
        k = k - 1;
        let ghost before = out@;
        let mut id: usize = 0;
        while id < n
            invariant
                n == colors@.len(),
                n <= 1024,
                n == neighbors8@.len(),
                forall|i: int| 0 <= i < n ==> #[trigger] neighbors8@[i]@.len() <= 8,
                k < 109,
                id <= n,
                before.len() <= (108 - k) * 1024,
                out@.len() <= before.len() + id,
                forall|a: int, b: int|
                    0 <= a < b < out@.len() && decision_key(colors@, neighbors8@, out@[a] as int)
                        == decision_key(colors@, neighbors8@, out@[b] as int) ==> out@[a] < out@[b],
                before.len() <= out@.len(),
                forall|q: int| 0 <= q < before.len() ==> out@[q] == #[trigger] before[q],
                forall|q: int| 0 <= q < before.len() ==> decision_key(colors@, neighbors8@, #[trigger] before[q] as int) >= k + 1,
                forall|q: int|
                    before.len() <= q < out@.len() ==> decision_key(colors@, neighbors8@, #[trigger] out@[q] as int) == k
                        && out@[q] < id,
                out@.no_duplicates(),
                forall|q: int| 0 <= q < out@.len() ==> #[trigger] out@[q] < n,
                forall|q: int| 0 <= q < out@.len() ==> (colors@[#[trigger] out@[q] as int] != Color::Black),
                forall|a: int, b: int|
                    0 <= a < b < out@.len() ==> decision_key(colors@, neighbors8@, out@[a] as int) >= decision_key(colors@, neighbors8@, out@[b] as int),
                forall|i: int|
                    0 <= i < n && (colors@[i] != Color::Black) && decision_key(colors@, neighbors8@, i) >= k + 1 ==> #[trigger] out@.contains(i as usize),
                forall|i: int|
                    0 <= i < id && (colors@[i] != Color::Black) && decision_key(colors@, neighbors8@, i) == k ==> #[trigger] out@.contains(i as usize),
            decreases n - id,
        {
            let ghost prev = out@;
            let w = weight_of(colors[id]) + neighbors8[id].len();
            if colors[id] != Color::Black && w == k {
                proof {
                    assert(decision_key(colors@, neighbors8@, id as int) == w as int);
                    assert forall|q: int| 0 <= q < out@.len() implies out@[q] != id by {
                        if q < before.len() {
                            assert(out@[q] == before[q]);
                            assert(decision_key(colors@, neighbors8@, before[q] as int) >= k + 1);
                        }
                    }
                }
                out.push(id);
                proof {
                    assert forall|a: int, b: int| 0 <= a < b < out@.len() implies decision_key(
                        colors@,
                        neighbors8@,
                        out@[a] as int,
                    ) >= decision_key(colors@, neighbors8@, out@[b] as int) by {
                        assert(out@[a] == prev[a]);
                        if b < prev.len() {
                            assert(out@[b] == prev[b]);
                        } else if a < before.len() {
                            assert(prev[a] == before[a]);
                        }
                    }
                    assert forall|a: int, b: int|
                        0 <= a < b < out@.len() && decision_key(colors@, neighbors8@, out@[a] as int)
                            == decision_key(colors@, neighbors8@, out@[b] as int) implies out@[a] < out@[b] by {
                        assert(out@[a] == prev[a]);
                        if b < prev.len() {
                            assert(out@[b] == prev[b]);
                        } else if a < before.len() {
                            assert(prev[a] == before[a]);
                        }
                    }
                }
            }
            proof {
                assert forall|i: int|
                    0 <= i < n && (colors@[i] != Color::Black) && decision_key(colors@, neighbors8@, i) >= k + 1 implies #[trigger] out@.contains(
                    i as usize,
                ) by {
                    assert(prev.contains(i as usize));
                    let q = choose|q: int| 0 <= q < prev.len() && prev[q] == i as usize;
                    assert(out@[q] == i as usize);
                }
                assert forall|i: int|
                    0 <= i < id + 1 && (colors@[i] != Color::Black) && decision_key(colors@, neighbors8@, i) == k implies #[trigger] out@.contains(
                    i as usize,
                ) by {
                    if i < id {
                        assert(prev.contains(i as usize));
                        let q = choose|q: int| 0 <= q < prev.len() && prev[q] == i as usize;
                        assert(out@[q] == i as usize);
                    } else {
                        assert(out@[out@.len() - 1] == i as usize);
                    }
                }
            }
            id = id + 1;
        }
        proof {
            assert forall|i: int| 0 <= i < n && (colors@[i] != Color::Black) && decision_key(colors@, neighbors8@, i) >= k implies #[trigger] out@.contains(
                i as usize,
            ) by {
                if decision_key(colors@, neighbors8@, i) == k {
                }
            }
            assert forall|q: int| 0 <= q < out@.len() implies decision_key(colors@, neighbors8@, #[trigger] out@[q] as int) >= k by {
                if q < before.len() {
                    assert(out@[q] == before[q]);
                }
            }
        }
    }
    proof {
        assert forall|i: int| 0 <= i < n && (colors@[i] != Color::Black) implies #[trigger] out@.contains(i as usize) by {
            assert(decision_key(colors@, neighbors8@, i) >= 0);
        }
    }
    out
}

} // verus!
