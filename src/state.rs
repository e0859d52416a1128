use vstd::arithmetic::div_mod::{lemma_fundamental_div_mod, lemma_fundamental_div_mod_converse};
use vstd::prelude::*;

verus! {

/// What is known of one cell while solving.
#[derive(Debug, Clone, Copy, PartialEq, Eq, Structural)]
pub enum Mark {
    Unknown,
    Checked,
    Unchecked,
}

/// How many of the cells `0..n` lie on `line` and carry mark `m`.
pub open spec fn count_upto(s: Seq<Mark>, n: int, line: spec_fn(int) -> bool, m: Mark) -> nat
    decreases n,
{
    if n <= 0 {
        0
    } else {
        count_upto(s, n - 1, line, m) + if line(n - 1) && s[n - 1] == m {
            1nat
        } else {
            0nat
        }
    }
}

/// How many cells of the whole board lie on `line` and carry mark `m`.
pub open spec fn line_count(s: Seq<Mark>, line: spec_fn(int) -> bool, m: Mark) -> nat {
    count_upto(s, s.len() as int, line, m)
}

/// The cells of row `r` on a board of side `size` (cell id = row * size + col).
pub open spec fn row_of(size: int, r: int) -> spec_fn(int) -> bool {
    |i: int| i / size == r
}

/// The cells of column `c`.
pub open spec fn col_of(size: int, c: int) -> spec_fn(int) -> bool {
    |i: int| i % size == c
}

/// The cells of the falling diagonal with index `d` (row - col + size - 1 == d).
pub open spec fn down_of(size: int, d: int) -> spec_fn(int) -> bool {
    |i: int| i / size - i % size + size - 1 == d
}

/// The cells of the rising diagonal with index `d` (row + col == d).
pub open spec fn up_of(size: int, d: int) -> spec_fn(int) -> bool {
    |i: int| i / size + i % size == d
}

/// Every cell.
pub open spec fn all_cells() -> spec_fn(int) -> bool {
    |i: int| true
}

/// The id of the cell at `(row, col)`.
pub open spec fn id_of(size: int, row: int, col: int) -> int {
    row * size + col
}

/// Row and column of a cell id, and the inverse.
pub proof fn lemma_id_rc(size: int, id: int)
    requires
        0 < size,
        0 <= id < size * size,
    ensures
        0 <= id / size < size,
        0 <= id % size < size,
        id == (id / size) * size + id % size,
{
    lemma_fundamental_div_mod(id, size);
    assert(0 <= id % size < size) by {
        vstd::arithmetic::div_mod::lemma_mod_bound(id, size);
    }
    assert(0 <= id / size) by {
        vstd::arithmetic::div_mod::lemma_div_pos_is_pos(id, size);
    }
    assert(id / size < size) by (nonlinear_arith)
        requires
            id == size * (id / size) + id % size,
            id % size >= 0,
            id < size * size,
            size > 0,
    ;
    assert(id == (id / size) * size + id % size) by (nonlinear_arith)
        requires
            id == size * (id / size) + id % size,
    ;
}

/// The id of `(row, col)` lies on the board and gives back its row and column.
pub proof fn lemma_rc_id(size: int, row: int, col: int)
    requires
        0 <= row < size,
        0 <= col < size,
    ensures
        0 <= id_of(size, row, col) < size * size,
        id_of(size, row, col) / size == row,
        id_of(size, row, col) % size == col,
{
    lemma_fundamental_div_mod_converse(row * size + col, size, row, col);
    assert(0 <= row * size + col < size * size) by (nonlinear_arith)
        requires
            0 <= row < size,
            0 <= col < size,
    ;
}

/// One more cell adds one to the count when it lies on the line and carries the mark.
pub proof fn lemma_count_step(s: Seq<Mark>, n: int, line: spec_fn(int) -> bool, m: Mark)
    requires
        0 <= n,
    ensures
        count_upto(s, n + 1, line, m) == count_upto(s, n, line, m) + if line(n) && s[n] == m {
            1nat
        } else {
            0nat
        },
{
}

/// At most `n` of the first `n` cells are counted.
pub proof fn lemma_count_bound(s: Seq<Mark>, n: int, line: spec_fn(int) -> bool, m: Mark)
    requires
        0 <= n,
    ensures
        count_upto(s, n, line, m) <= n,
    decreases n,
{
    if n > 0 {
        lemma_count_bound(s, n - 1, line, m);
    }
}

/// No cell counted means no cell of the line carries the mark.
pub proof fn lemma_count_zero(s: Seq<Mark>, n: int, line: spec_fn(int) -> bool, m: Mark)
    requires
        0 <= n <= s.len(),
    ensures
        count_upto(s, n, line, m) == 0 <==> (forall|i: int|
            0 <= i < n && #[trigger] line(i) ==> s[i] != m),
    decreases n,
{
    if n > 0 {
        lemma_count_zero(s, n - 1, line, m);
    }
}

/// Changing one cell moves each count by at most one.
pub proof fn lemma_count_update(
    s: Seq<Mark>,
    n: int,
    line: spec_fn(int) -> bool,
    m: Mark,
    k: int,
    v: Mark,
)
    requires
        0 <= k < s.len(),
        0 <= n <= s.len(),
    ensures
        count_upto(s.update(k, v), n, line, m) as int == count_upto(s, n, line, m) as int - (if k
            < n && line(k) && s[k] == m {
            1int
        } else {
            0int
        }) + (if k < n && line(k) && v == m {
            1int
        } else {
            0int
        }),
    decreases n,
{
    if n > 0 {
        lemma_count_update(s, n - 1, line, m, k, v);
    }
}

/// Bit `i` of `m` is set.
pub open spec fn bit_set(m: u32, i: u32) -> bool {
    (m >> i) & 1u32 == 1u32
}

/// Setting bit `i` leaves the other bits as they were.
pub proof fn lemma_bit_or(m: u32, i: u32, j: u32)
    requires
        i < 32,
        j < 32,
    ensures
        bit_set(m | (1u32 << i), j) <==> (j == i || bit_set(m, j)),
{
    assert(((m | (1u32 << i)) >> j) & 1u32 == 1u32 <==> (j == i || (m >> j) & 1u32 == 1u32))
        by (bit_vector)
        requires
            i < 32,
            j < 32,
    ;
}

/// Clearing bit `i` leaves the other bits as they were.
pub proof fn lemma_bit_clear(m: u32, i: u32, j: u32)
    requires
        i < 32,
        j < 32,
    ensures
        bit_set(m & !(1u32 << i), j) <==> (j != i && bit_set(m, j)),
{
    assert(((m & !(1u32 << i)) >> j) & 1u32 == 1u32 <==> (j != i && (m >> j) & 1u32 == 1u32))
        by (bit_vector)
        requires
            i < 32,
            j < 32,
    ;
}

/// No bit of zero is set.
pub proof fn lemma_bit_zero(j: u32)
    requires
        j < 32,
    ensures
        !bit_set(0u32, j),
{
    assert((0u32 >> j) & 1u32 != 1u32) by (bit_vector);
}

/// A copy of a vector of plain values.
fn copy_vec<T: Copy>(v: &Vec<T>) -> (r: Vec<T>)
    ensures
        r@ == v@,
{
    let mut out: Vec<T> = Vec::new();
    let mut i: usize = 0;
    while i < v.len()
        invariant
            i <= v.len(),
            out@ == v@.subrange(0, i as int),
        decreases v.len() - i,
    {
        out.push(v[i]);
        i = i + 1;
    }
    assert(out@ == v@);
    out
}

/// The counts on a line add up to at most the board's cell count.
proof fn lemma_line_sum(s: Seq<Mark>, n: int, line: spec_fn(int) -> bool)
    requires
        0 <= n <= s.len(),
    ensures
        count_upto(s, n, line, Mark::Checked) + count_upto(s, n, line, Mark::Unknown) <= n,
    decreases n,
{
    if n > 0 {
        lemma_line_sum(s, n - 1, line);
    }
}

/// The two counts of a line add up to at most the number of cells.
proof fn lemma_line_bound(s: Seq<Mark>, line: spec_fn(int) -> bool)
    ensures
        line_count(s, line, Mark::Checked) + line_count(s, line, Mark::Unknown) <= s.len(),
{
    lemma_line_sum(s, s.len() as int, line);
}

/// The code of a mark in the board hash.
pub open spec fn mark_code(m: Mark) -> u64 {
    match m {
        Mark::Unknown => 0,
        Mark::Checked => 1,
        Mark::Unchecked => 2,
    }
}

/// One FNV-1a step.
pub open spec fn fnv_step(h: u64, x: u64) -> u64 {
    (h ^ x).wrapping_mul(1099511628211u64)
}

/// FNV-1a over the marks of `s`, from state `h`.
pub open spec fn fnv_fold(h: u64, s: Seq<Mark>) -> u64
    decreases s.len(),
{
    if s.len() == 0 {
        h
    } else {
        fnv_step(fnv_fold(h, s.drop_last()), mark_code(s.last()))
    }
}

/// The board hash: FNV-1a over the side and then every mark.
pub open spec fn board_hash(size: u64, s: Seq<Mark>) -> u64 {
    fnv_fold(fnv_step(1469598103934665603u64, size), s)
}

/// The board while solving: a mark per cell, with running counts of the
/// checked and the unknown cells of every row, column and diagonal.
#[derive(Clone, Debug)]
pub struct SolverState {
    size: usize,
    cells: Vec<Mark>,
    row_checked: Vec<u32>,
    row_unknown: Vec<u32>,
    col_checked: Vec<u32>,
    col_unknown: Vec<u32>,
    diag_down_checked: Vec<u32>,
    diag_down_unknown: Vec<u32>,
    diag_up_checked: Vec<u32>,
    diag_up_unknown: Vec<u32>,
    unknown: u32,
}

impl View for SolverState {
    type V = Seq<Mark>;

    closed spec fn view(&self) -> Seq<Mark> {
        self.cells@
    }
}

/// The counters of a line agree with the marks on it.
pub open spec fn counted(s: Seq<Mark>, line: spec_fn(int) -> bool, checked: u32, unknown: u32) -> bool {
    checked == line_count(s, line, Mark::Checked) && unknown == line_count(s, line, Mark::Unknown)
}

/// `t` keeps every decision of `s`.
pub open spec fn extends(s: Seq<Mark>, t: Seq<Mark>) -> bool {
    t.len() == s.len() && forall|i: int|
        0 <= i < s.len() && #[trigger] s[i] != Mark::Unknown ==> t[i] == s[i]
}

impl SolverState {
    /// Side length of the board.
    pub closed spec fn side(&self) -> int {
        self.size as int
    }

    /// The state is well formed: sizes fit and every counter is exact.
    pub closed spec fn wf(&self) -> bool {
        let n = self.size * self.size;
        let s = self.cells@;
        &&& 1 <= self.size <= 32
        &&& n <= 1024
        &&& s.len() == n
        &&& self.row_checked@.len() == self.size
        &&& self.row_unknown@.len() == self.size
        &&& self.col_checked@.len() == self.size
        &&& self.col_unknown@.len() == self.size
        &&& self.diag_down_checked@.len() == 2 * self.size - 1
        &&& self.diag_down_unknown@.len() == 2 * self.size - 1
        &&& self.diag_up_checked@.len() == 2 * self.size - 1
        &&& self.diag_up_unknown@.len() == 2 * self.size - 1
        &&& forall|r: int|
            #![trigger self.row_checked@[r]]
            #![trigger self.row_unknown@[r]]
            0 <= r < self.size ==> counted(
                s,
                row_of(self.size as int, r),
                self.row_checked@[r],
                self.row_unknown@[r],
            )
        &&& forall|c: int|
            #![trigger self.col_checked@[c]]
            #![trigger self.col_unknown@[c]]
            0 <= c < self.size ==> counted(
                s,
                col_of(self.size as int, c),
                self.col_checked@[c],
                self.col_unknown@[c],
            )
        &&& forall|d: int|
            #![trigger self.diag_down_checked@[d]]
            #![trigger self.diag_down_unknown@[d]]
            0 <= d < 2 * self.size - 1 ==> counted(
                s,
                down_of(self.size as int, d),
                self.diag_down_checked@[d],
                self.diag_down_unknown@[d],
            )
        &&& forall|d: int|
            #![trigger self.diag_up_checked@[d]]
            #![trigger self.diag_up_unknown@[d]]
            0 <= d < 2 * self.size - 1 ==> counted(
                s,
                up_of(self.size as int, d),
                self.diag_up_checked@[d],
                self.diag_up_unknown@[d],
            )
        &&& self.unknown == line_count(s, all_cells(), Mark::Unknown)
    }

    /// A well-formed board has 1 to 32 rows and at most 1024 cells.
    pub proof fn lemma_bounds(&self)
        requires
            self.wf(),
        ensures
            1 <= self.side() <= 32,
            self.cell_count() <= 1024,
            self@.len() == self.cell_count(),
    {
    }

    /// Number of cells.
    pub open spec fn cell_count(&self) -> int {
        self.side() * self.side()
    }

    /// An empty board of side `size`: every cell unknown.
    pub fn new(size: usize) -> (r: Self)
        requires
            1 <= size <= 32,
        ensures
            r.wf(),
            r.side() == size,
            r@.len() == size * size,
            forall|i: int| 0 <= i < size * size ==> r@[i] == Mark::Unknown,
    {
        assert(size * size <= 1024) by (nonlinear_arith)
            requires
                size <= 32,
        ;
        let n = size * size;
        let ghost all_unknown = Seq::new(n as nat, |i: int| Mark::Unknown);
        let mut cells: Vec<Mark> = Vec::new();
        while cells.len() < n
            invariant
                cells.len() <= n,
                forall|i: int| 0 <= i < cells.len() ==> cells@[i] == Mark::Unknown,
            decreases n - cells.len(),
        {
            cells.push(Mark::Unknown);
        }
        assert(cells@ == all_unknown);
        let diag_count = 2 * size - 1;
        let mut row_checked: Vec<u32> = Vec::new();
        let mut row_unknown: Vec<u32> = Vec::new();
        let mut col_checked: Vec<u32> = Vec::new();
        let mut col_unknown: Vec<u32> = Vec::new();
        let mut diag_down_checked: Vec<u32> = Vec::new();
        let mut diag_down_unknown: Vec<u32> = Vec::new();
        let mut diag_up_checked: Vec<u32> = Vec::new();
        let mut diag_up_unknown: Vec<u32> = Vec::new();
        let mut k: usize = 0;
        while k < size
            invariant
                k <= size,
                row_checked@.len() == k,
                row_unknown@.len() == k,
                col_checked@.len() == k,
                col_unknown@.len() == k,
                forall|i: int| 0 <= i < k ==> row_checked@[i] == 0 && row_unknown@[i] == 0,
                forall|i: int| 0 <= i < k ==> col_checked@[i] == 0 && col_unknown@[i] == 0,
            decreases size - k,
        {
            row_checked.push(0);
            row_unknown.push(0);
            col_checked.push(0);
            col_unknown.push(0);
            k = k + 1;
        }
        k = 0;
        while k < diag_count
            invariant
                k <= diag_count,
                diag_down_checked@.len() == k,
                diag_down_unknown@.len() == k,
                diag_up_checked@.len() == k,
                diag_up_unknown@.len() == k,
                forall|i: int|
                    0 <= i < k ==> diag_down_checked@[i] == 0 && diag_down_unknown@[i] == 0,
                forall|i: int| 0 <= i < k ==> diag_up_checked@[i] == 0 && diag_up_unknown@[i] == 0,
            decreases diag_count - k,
        {
            diag_down_checked.push(0);
            diag_down_unknown.push(0);
            diag_up_checked.push(0);
            diag_up_unknown.push(0);
            k = k + 1;
        }
        // Count the unknown cells line by line.
        let ghost sz = size as int;
        let mut unknown: u32 = 0;
        let mut id: usize = 0;
        while id < n
            invariant
                n == size * size,
                n <= 1024,
                1 <= size <= 32,
                sz == size,
                all_unknown.len() == n,
                forall|j: int| 0 <= j < n ==> #[trigger] all_unknown[j] == Mark::Unknown,
                id <= n,
                diag_count == 2 * size - 1,
                row_unknown@.len() == size,
                col_unknown@.len() == size,
                diag_down_unknown@.len() == diag_count,
                diag_up_unknown@.len() == diag_count,
                forall|r: int|
                    0 <= r < size ==> #[trigger] row_unknown@[r] == count_upto(
                        all_unknown,
                        id as int,
                        row_of(sz, r),
                        Mark::Unknown,
                    ),
                forall|c: int|
                    0 <= c < size ==> #[trigger] col_unknown@[c] == count_upto(
                        all_unknown,
                        id as int,
                        col_of(sz, c),
                        Mark::Unknown,
                    ),
                forall|d: int|
                    0 <= d < diag_count ==> #[trigger] diag_down_unknown@[d] == count_upto(
                        all_unknown,
                        id as int,
                        down_of(sz, d),
                        Mark::Unknown,
                    ),
                forall|d: int|
                    0 <= d < diag_count ==> #[trigger] diag_up_unknown@[d] == count_upto(
                        all_unknown,
                        id as int,
                        up_of(sz, d),
                        Mark::Unknown,
                    ),
                unknown == count_upto(all_unknown, id as int, all_cells(), Mark::Unknown),
            decreases n - id,
        {
            proof {
                lemma_id_rc(sz, id as int);
            }
            let row = id / size;
            let col = id % size;
            let down = row + (size - 1) - col;
            let up = row + col;
            let ghost i = id as int;
            let ghost pr = row_unknown@;
            let ghost pc = col_unknown@;
            let ghost pd = diag_down_unknown@;
            let ghost pu = diag_up_unknown@;
            proof {
                lemma_count_bound(all_unknown, i, row_of(sz, row as int), Mark::Unknown);
                lemma_count_bound(all_unknown, i, col_of(sz, col as int), Mark::Unknown);
                lemma_count_bound(all_unknown, i, down_of(sz, down as int), Mark::Unknown);
                lemma_count_bound(all_unknown, i, up_of(sz, up as int), Mark::Unknown);
                lemma_count_bound(all_unknown, i, all_cells(), Mark::Unknown);
            }
            row_unknown.set(row, row_unknown[row] + 1);
            col_unknown.set(col, col_unknown[col] + 1);
            diag_down_unknown.set(down, diag_down_unknown[down] + 1);
            diag_up_unknown.set(up, diag_up_unknown[up] + 1);
            unknown = unknown + 1;
            proof {
                assert(all_unknown[i] == Mark::Unknown);
                lemma_count_step(all_unknown, i, all_cells(), Mark::Unknown);
                assert(i / sz == row as int);
                assert(i % sz == col as int);
                assert forall|r: int| 0 <= r < size implies #[trigger] row_unknown@[r]
                    == count_upto(all_unknown, i + 1, row_of(sz, r), Mark::Unknown) by {
                    assert(pr[r] == count_upto(all_unknown, i, row_of(sz, r), Mark::Unknown));
                    lemma_count_step(all_unknown, i, row_of(sz, r), Mark::Unknown);
                    assert(row_of(sz, r)(i) == (r == row));
                }
                assert forall|c: int| 0 <= c < size implies #[trigger] col_unknown@[c]
                    == count_upto(all_unknown, i + 1, col_of(sz, c), Mark::Unknown) by {
                    assert(pc[c] == count_upto(all_unknown, i, col_of(sz, c), Mark::Unknown));
                    lemma_count_step(all_unknown, i, col_of(sz, c), Mark::Unknown);
                    assert(col_of(sz, c)(i) == (c == col));
                }
                assert forall|d: int| 0 <= d < diag_count implies #[trigger] diag_down_unknown@[d]
                    == count_upto(all_unknown, i + 1, down_of(sz, d), Mark::Unknown) by {
                    assert(pd[d] == count_upto(all_unknown, i, down_of(sz, d), Mark::Unknown));
                    lemma_count_step(all_unknown, i, down_of(sz, d), Mark::Unknown);
                    assert(down_of(sz, d)(i) == (d == down));
                }
                assert forall|d: int| 0 <= d < diag_count implies #[trigger] diag_up_unknown@[d]
                    == count_upto(all_unknown, i + 1, up_of(sz, d), Mark::Unknown) by {
                    assert(pu[d] == count_upto(all_unknown, i, up_of(sz, d), Mark::Unknown));
                    lemma_count_step(all_unknown, i, up_of(sz, d), Mark::Unknown);
                    assert(up_of(sz, d)(i) == (d == up));
                }
            }
            id = id + 1;
        }
        proof {
            assert forall|r: int| 0 <= r < size implies #[trigger] row_checked@[r]
                == line_count(all_unknown, row_of(sz, r), Mark::Checked) by {
                lemma_count_zero(all_unknown, n as int, row_of(sz, r), Mark::Checked);
            }
            assert forall|c: int| 0 <= c < size implies #[trigger] col_checked@[c]
                == line_count(all_unknown, col_of(sz, c), Mark::Checked) by {
                lemma_count_zero(all_unknown, n as int, col_of(sz, c), Mark::Checked);
            }
            assert forall|d: int| 0 <= d < diag_count implies #[trigger] diag_down_checked@[d]
                == line_count(all_unknown, down_of(sz, d), Mark::Checked) by {
                lemma_count_zero(all_unknown, n as int, down_of(sz, d), Mark::Checked);
            }
            assert forall|d: int| 0 <= d < diag_count implies #[trigger] diag_up_checked@[d]
                == line_count(all_unknown, up_of(sz, d), Mark::Checked) by {
                lemma_count_zero(all_unknown, n as int, up_of(sz, d), Mark::Checked);
            }
        }
        SolverState {
            size,
            cells,
            row_checked,
            row_unknown,
            col_checked,
            col_unknown,
            diag_down_checked,
            diag_down_unknown,
            diag_up_checked,
            diag_up_unknown,
            unknown,
        }
    }

    /// Side length of the board.
    pub fn size(&self) -> (r: usize)
        requires
            self.wf(),
        ensures
            r == self.side(),
            1 <= r <= 32,
    {
        self.size
    }

    /// The id of `(row, col)`.
    fn cell_id(&self, row: usize, col: usize) -> (r: usize)
        requires
            self.wf(),
            row < self.side(),
            col < self.side(),
        ensures
            r == id_of(self.side(), row as int, col as int),
            r < self.cell_count(),
            r as int / self.side() == row,
            r as int % self.side() == col,
    {
        proof {
            lemma_rc_id(self.size as int, row as int, col as int);
            assert(row * self.size <= row * self.size + col);
        }
        row * self.size + col
    }

    /// The falling diagonal through `(row, col)`.
    fn diag_down_id(&self, row: usize, col: usize) -> (r: usize)
        requires
            self.wf(),
            row < self.side(),
            col < self.side(),
        ensures
            r == row + self.side() - 1 - col,
            r < 2 * self.side() - 1,
    {
        row + (self.size - 1) - col
    }

    /// The rising diagonal through `(row, col)`.
    fn diag_up_id(&self, row: usize, col: usize) -> (r: usize)
        requires
            self.wf(),
            row < self.side(),
            col < self.side(),
        ensures
            r == row + col,
            r < 2 * self.side() - 1,
    {
        row + col
    }

    /// Row and column of a cell id.
    fn id_to_rc(&self, id: usize) -> (r: (usize, usize))
        requires
            self.wf(),
            id < self.cell_count(),
        ensures
            r.0 < self.side(),
            r.1 < self.side(),
            r.0 as int == id as int / self.side(),
            r.1 as int == id as int % self.side(),
            id == id_of(self.side(), r.0 as int, r.1 as int),
    {
        proof {
            lemma_id_rc(self.size as int, id as int);
        }
        (id / self.size, id % self.size)
    }

    /// Is `(row, col)` known to be checked?
    pub fn is_checked(&self, row: usize, col: usize) -> (r: bool)
        requires
            self.wf(),
            row < self.side(),
            col < self.side(),
        ensures
            r == (self@[id_of(self.side(), row as int, col as int)] == Mark::Checked),
    {
        proof {
            lemma_rc_id(self.size as int, row as int, col as int);
        }
        self.cells[self.cell_id(row, col)] == Mark::Checked
    }

    /// Is `(row, col)` known to be unchecked?
    pub fn is_unchecked(&self, row: usize, col: usize) -> (r: bool)
        requires
            self.wf(),
            row < self.side(),
            col < self.side(),
        ensures
            r == (self@[id_of(self.side(), row as int, col as int)] == Mark::Unchecked),
    {
        proof {
            lemma_rc_id(self.size as int, row as int, col as int);
        }
        self.cells[self.cell_id(row, col)] == Mark::Unchecked
    }

    /// Is `(row, col)` still undecided?
    pub fn is_unknown(&self, row: usize, col: usize) -> (r: bool)
        requires
            self.wf(),
            row < self.side(),
            col < self.side(),
        ensures
            r == (self@[id_of(self.side(), row as int, col as int)] == Mark::Unknown),
    {
        !self.is_checked(row, col) && !self.is_unchecked(row, col)
    }

    /// Is cell `id` known to be checked?
    pub fn is_checked_id(&self, id: usize) -> (r: bool)
        requires
            self.wf(),
            id < self.cell_count(),
        ensures
            r == (self@[id as int] == Mark::Checked),
    {
        let (r, c) = self.id_to_rc(id);
        self.is_checked(r, c)
    }

    /// Is cell `id` known to be unchecked?
    pub fn is_unchecked_id(&self, id: usize) -> (r: bool)
        requires
            self.wf(),
            id < self.cell_count(),
        ensures
            r == (self@[id as int] == Mark::Unchecked),
    {
        let (r, c) = self.id_to_rc(id);
        self.is_unchecked(r, c)
    }

    /// Is cell `id` still undecided?
    pub fn is_unknown_id(&self, id: usize) -> (r: bool)
        requires
            self.wf(),
            id < self.cell_count(),
        ensures
            r == (self@[id as int] == Mark::Unknown),
    {
        let (r, c) = self.id_to_rc(id);
        self.is_unknown(r, c)
    }

    /// Decides an unknown cell, keeping every counter exact.
    fn decide(&mut self, row: usize, col: usize, value: Mark)
        requires
            old(self).wf(),
            row < old(self).side(),
            col < old(self).side(),
            value != Mark::Unknown,
            old(self)@[id_of(old(self).side(), row as int, col as int)] == Mark::Unknown,
        ensures
            final(self).wf(),
            final(self).side() == old(self).side(),
            final(self)@ == old(self)@.update(
                id_of(old(self).side(), row as int, col as int),
                value,
            ),
    {
        let ghost size = self.size as int;
        let ghost s = self.cells@;
        proof {
            lemma_rc_id(size, row as int, col as int);
        }
        let id = self.cell_id(row, col);
        let down = self.diag_down_id(row, col);
        let up = self.diag_up_id(row, col);
        let ghost t = s.update(id as int, value);
        proof {
            let n = s.len() as int;
            // Every count moves by one on the lines through the cell.
            assert forall|line: spec_fn(int) -> bool, m: Mark|
                #[trigger] line_count(t, line, m) as int == line_count(s, line, m) as int - (if line(
                    id as int,
                ) && m == Mark::Unknown {
                    1int
                } else {
                    0int
                }) + (if line(id as int) && m == value {
                    1int
                } else {
                    0int
                }) by {
                lemma_count_update(s, n, line, m, id as int, value);
            }
            assert(row_of(size, row as int)(id as int));
            assert(col_of(size, col as int)(id as int));
            assert(down_of(size, down as int)(id as int));
            assert(up_of(size, up as int)(id as int));
            assert(self.row_unknown@[row as int] >= 1) by {
                lemma_count_zero(s, n, row_of(size, row as int), Mark::Unknown);
            }
            assert(self.col_unknown@[col as int] >= 1) by {
                lemma_count_zero(s, n, col_of(size, col as int), Mark::Unknown);
            }
            assert(self.diag_down_unknown@[down as int] >= 1) by {
                lemma_count_zero(s, n, down_of(size, down as int), Mark::Unknown);
            }
            assert(self.diag_up_unknown@[up as int] >= 1) by {
                lemma_count_zero(s, n, up_of(size, up as int), Mark::Unknown);
            }
            assert(all_cells()(id as int));
            assert(self.unknown >= 1) by {
                lemma_count_zero(s, n, all_cells(), Mark::Unknown);
            }
            lemma_count_bound(s, n, row_of(size, row as int), Mark::Checked);
            lemma_count_bound(s, n, col_of(size, col as int), Mark::Checked);
            lemma_count_bound(s, n, down_of(size, down as int), Mark::Checked);
            lemma_count_bound(s, n, up_of(size, up as int), Mark::Checked);
        }
        self.cells.set(id, value);
        self.row_unknown[row] = self.row_unknown[row] - 1;
        self.col_unknown[col] = self.col_unknown[col] - 1;
        self.diag_down_unknown[down] = self.diag_down_unknown[down] - 1;
        self.diag_up_unknown[up] = self.diag_up_unknown[up] - 1;
        self.unknown = self.unknown - 1;
        if value == Mark::Checked {
            self.row_checked[row] = self.row_checked[row] + 1;
            self.col_checked[col] = self.col_checked[col] + 1;
            self.diag_down_checked[down] = self.diag_down_checked[down] + 1;
            self.diag_up_checked[up] = self.diag_up_checked[up] + 1;
        }
        proof {
            assert(self.cells@ == t);
            assert forall|r: int| 0 <= r < size implies counted(
                t,
                row_of(size, r),
                self.row_checked@[r],
                self.row_unknown@[r],
            ) by {
                if r != row {
                    assert(!row_of(size, r)(id as int));
                }
            }
            assert forall|c: int| 0 <= c < size implies counted(
                t,
                col_of(size, c),
                self.col_checked@[c],
                self.col_unknown@[c],
            ) by {
                if c != col {
                    assert(!col_of(size, c)(id as int));
                }
            }
            assert forall|d: int| 0 <= d < 2 * size - 1 implies counted(
                t,
                down_of(size, d),
                self.diag_down_checked@[d],
                self.diag_down_unknown@[d],
            ) by {
                if d != down {
                    assert(!down_of(size, d)(id as int));
                }
            }
            assert forall|d: int| 0 <= d < 2 * size - 1 implies counted(
                t,
                up_of(size, d),
                self.diag_up_checked@[d],
                self.diag_up_unknown@[d],
            ) by {
                if d != up {
                    assert(!up_of(size, d)(id as int));
                }
            }
        }
    }

    /// Marks `(row, col)` checked: `Ok(true)` when that changed the board,
    /// `Ok(false)` when it was checked already, `Err` when it is unchecked.
    pub fn set_checked(&mut self, row: usize, col: usize) -> (r: Result<bool, ()>)
        requires
            old(self).wf(),
            row < old(self).side(),
            col < old(self).side(),
        ensures
            final(self).wf(),
            final(self).side() == old(self).side(),
            ({
                let id = id_of(old(self).side(), row as int, col as int);
                &&& old(self)@[id] == Mark::Unchecked ==> r is Err && final(self)@ == old(self)@
                &&& old(self)@[id] == Mark::Checked ==> r == Ok::<bool, ()>(false) && final(self)@
                    == old(self)@
                &&& old(self)@[id] == Mark::Unknown ==> r == Ok::<bool, ()>(true) && final(self)@
                    == old(self)@.update(id, Mark::Checked)
            }),
    {
        if self.is_unchecked(row, col) {
            return Err(());
        }
        if self.is_checked(row, col) {
            return Ok(false);
        }
        self.decide(row, col, Mark::Checked);
        Ok(true)
    }

    /// Marks `(row, col)` unchecked: `Ok(true)` when that changed the board,
    /// `Ok(false)` when it was unchecked already, `Err` when it is checked.
    pub fn set_unchecked(&mut self, row: usize, col: usize) -> (r: Result<bool, ()>)
        requires
            old(self).wf(),
            row < old(self).side(),
            col < old(self).side(),
        ensures
            final(self).wf(),
            final(self).side() == old(self).side(),
            ({
                let id = id_of(old(self).side(), row as int, col as int);
                &&& old(self)@[id] == Mark::Checked ==> r is Err && final(self)@ == old(self)@
                &&& old(self)@[id] == Mark::Unchecked ==> r == Ok::<bool, ()>(false)
                    && final(self)@ == old(self)@
                &&& old(self)@[id] == Mark::Unknown ==> r == Ok::<bool, ()>(true) && final(self)@
                    == old(self)@.update(id, Mark::Unchecked)
            }),
    {
        if self.is_checked(row, col) {
            return Err(());
        }
        if self.is_unchecked(row, col) {
            return Ok(false);
        }
        self.decide(row, col, Mark::Unchecked);
        Ok(true)
    }

    /// Marks cell `id` checked; see `set_checked`.
    pub fn set_checked_id(&mut self, id: usize) -> (r: Result<bool, ()>)
        requires
            old(self).wf(),
            id < old(self).cell_count(),
        ensures
            final(self).wf(),
            final(self).side() == old(self).side(),
            old(self)@[id as int] == Mark::Unchecked ==> r is Err && final(self)@ == old(self)@,
            old(self)@[id as int] == Mark::Checked ==> r == Ok::<bool, ()>(false) && final(self)@
                == old(self)@,
            old(self)@[id as int] == Mark::Unknown ==> r == Ok::<bool, ()>(true) && final(self)@
                == old(self)@.update(id as int, Mark::Checked),
    {
        let (r, c) = self.id_to_rc(id);
        self.set_checked(r, c)
    }

    /// Marks cell `id` unchecked; see `set_unchecked`.
    pub fn set_unchecked_id(&mut self, id: usize) -> (r: Result<bool, ()>)
        requires
            old(self).wf(),
            id < old(self).cell_count(),
        ensures
            final(self).wf(),
            final(self).side() == old(self).side(),
            old(self)@[id as int] == Mark::Checked ==> r is Err && final(self)@ == old(self)@,
            old(self)@[id as int] == Mark::Unchecked ==> r == Ok::<bool, ()>(false) && final(self)@
                == old(self)@,
            old(self)@[id as int] == Mark::Unknown ==> r == Ok::<bool, ()>(true) && final(self)@
                == old(self)@.update(id as int, Mark::Unchecked),
    {
        let (r, c) = self.id_to_rc(id);
        self.set_unchecked(r, c)
    }

    /// The possible number of checked cells in a row: (checked, checked + unknown).
    pub fn row_min_max(&self, row: usize) -> (r: (u32, u32))
        requires
            self.wf(),
            row < self.side(),
        ensures
            r.0 == line_count(self@, row_of(self.side(), row as int), Mark::Checked),
            r.1 == r.0 + line_count(self@, row_of(self.side(), row as int), Mark::Unknown),
    {
        proof {
            lemma_line_bound(self@, row_of(self.side(), row as int));
        }
        let min = self.row_checked[row];
        (min, min + self.row_unknown[row])
    }

    /// The possible number of checked cells in a column.
    pub fn col_min_max(&self, col: usize) -> (r: (u32, u32))
        requires
            self.wf(),
            col < self.side(),
        ensures
            r.0 == line_count(self@, col_of(self.side(), col as int), Mark::Checked),
            r.1 == r.0 + line_count(self@, col_of(self.side(), col as int), Mark::Unknown),
    {
        proof {
            lemma_line_bound(self@, col_of(self.side(), col as int));
        }
        let min = self.col_checked[col];
        (min, min + self.col_unknown[col])
    }

    /// The possible number of checked cells on a falling diagonal.
    pub fn diag_down_min_max(&self, diag_id: usize) -> (r: (u32, u32))
        requires
            self.wf(),
            diag_id < 2 * self.side() - 1,
        ensures
            r.0 == line_count(self@, down_of(self.side(), diag_id as int), Mark::Checked),
            r.1 == r.0 + line_count(self@, down_of(self.side(), diag_id as int), Mark::Unknown),
    {
        proof {
            lemma_line_bound(self@, down_of(self.side(), diag_id as int));
        }
        let min = self.diag_down_checked[diag_id];
        (min, min + self.diag_down_unknown[diag_id])
    }

    /// The possible number of checked cells on a rising diagonal.
    pub fn diag_up_min_max(&self, diag_id: usize) -> (r: (u32, u32))
        requires
            self.wf(),
            diag_id < 2 * self.side() - 1,
        ensures
            r.0 == line_count(self@, up_of(self.side(), diag_id as int), Mark::Checked),
            r.1 == r.0 + line_count(self@, up_of(self.side(), diag_id as int), Mark::Unknown),
    {
        proof {
            lemma_line_bound(self@, up_of(self.side(), diag_id as int));
        }
        let min = self.diag_up_checked[diag_id];
        (min, min + self.diag_up_unknown[diag_id])
    }

    /// How many cells are still undecided.
    pub fn unknown_count(&self) -> (r: u32)
        requires
            self.wf(),
        ensures
            r == line_count(self@, all_cells(), Mark::Unknown),
            r <= self.cell_count(),
    {
        proof {
            lemma_count_bound(self@, self@.len() as int, all_cells(), Mark::Unknown);
        }
        self.unknown
    }

    /// Is every cell decided?
    pub fn is_fully_decided(&self) -> (r: bool)
        requires
            self.wf(),
        ensures
            r == (forall|i: int| 0 <= i < self@.len() ==> #[trigger] self@[i] != Mark::Unknown),
    {
        proof {
            lemma_count_zero(self@, self@.len() as int, all_cells(), Mark::Unknown);
            if self.unknown == 0 {
                assert forall|i: int| 0 <= i < self@.len() implies #[trigger] self@[i] != Mark::Unknown by {
                    assert(all_cells()(i));
                }
            }
        }
        self.unknown == 0
    }

    /// The column bits of the undecided cells of a row (bit `col` set when unknown).
    pub fn unknown_cols_mask_in_row(&self, row: usize) -> (r: u32)
        requires
            self.wf(),
            row < self.side(),
        ensures
            forall|col: u32|
                col < 32 ==> (bit_set(r, col) <==> col < self.side() && self@[id_of(
                    self.side(),
                    row as int,
                    col as int,
                )] == Mark::Unknown),
    {
        let mut out: u32 = 0;
        let mut col: usize = 0;
        proof {
            assert forall|c: u32| c < 32 implies !bit_set(out, c) by {
                lemma_bit_zero(c);
            }
        }
        while col < self.size
            invariant
                self.wf(),
                row < self.side(),
                col <= self.side(),
                forall|c: u32|
                    c < 32 ==> (bit_set(out, c) <==> c < col && self@[id_of(
                        self.side(),
                        row as int,
                        c as int,
                    )] == Mark::Unknown),
            decreases self.side() - col,
        {
            let ghost prev = out;
            if self.is_unknown(row, col) {
                proof {
                    assert forall|c: u32| c < 32 implies (bit_set(out | (1u32 << col as u32), c)
                        <==> (c == col as u32 || bit_set(out, c))) by {
                        lemma_bit_or(out, col as u32, c);
                    }
                }
                out = out | (1u32 << col as u32);
            }
            proof {
                assert forall|c: u32| c < 32 implies (bit_set(out, c) <==> c < col + 1 && self@[id_of(self.side(), row as int, c as int)] == Mark::Unknown) by {
                    assert(bit_set(prev, c) <==> c < col && self@[id_of(self.side(), row as int, c as int)] == Mark::Unknown);
                    if out != prev {
                        lemma_bit_or(prev, col as u32, c);
                    }
                }
            }
            col = col + 1;
        }
        out
    }

    /// The row bits of the undecided cells of a column (bit `row` set when unknown).
    pub fn unknown_rows_mask_in_col(&self, col: usize) -> (r: u32)
        requires
            self.wf(),
            col < self.side(),
        ensures
            forall|row: u32|
                row < 32 ==> (bit_set(r, row) <==> row < self.side() && self@[id_of(
                    self.side(),
                    row as int,
                    col as int,
                )] == Mark::Unknown),
    {
        let mut out: u32 = 0;
        let mut row: usize = 0;
        proof {
            assert forall|c: u32| c < 32 implies !bit_set(out, c) by {
                lemma_bit_zero(c);
            }
        }
        while row < self.size
            invariant
                self.wf(),
                col < self.side(),
                row <= self.side(),
                forall|c: u32|
                    c < 32 ==> (bit_set(out, c) <==> c < row && self@[id_of(
                        self.side(),
                        c as int,
                        col as int,
                    )] == Mark::Unknown),
            decreases self.side() - row,
        {
            let ghost prev = out;
            if self.is_unknown(row, col) {
                proof {
                    assert forall|c: u32| c < 32 implies (bit_set(out | (1u32 << row as u32), c)
                        <==> (c == row as u32 || bit_set(out, c))) by {
                        lemma_bit_or(out, row as u32, c);
                    }
                }
                out = out | (1u32 << row as u32);
            }
            proof {
                assert forall|c: u32| c < 32 implies (bit_set(out, c) <==> c < row + 1 && self@[id_of(self.side(), c as int, col as int)] == Mark::Unknown) by {
                    assert(bit_set(prev, c) <==> c < row && self@[id_of(self.side(), c as int, col as int)] == Mark::Unknown);
                    if out != prev {
                        lemma_bit_or(prev, row as u32, c);
                    }
                }
            }
            row = row + 1;
        }
        out
    }

    /// The checked cells as a row-major mask (bit `id` set when checked);
    /// only for boards of at most 32 cells.
    pub fn to_row_major_u32_mask(&self) -> (r: u32)
        requires
            self.wf(),
            self.cell_count() <= 32,
        ensures
            forall|i: u32|
                i < 32 ==> (bit_set(r, i) <==> i < self.cell_count() && self@[i as int]
                    == Mark::Checked),
    {
        let n = self.cells.len();
        let mut out: u32 = 0;
        let mut id: usize = 0;
        proof {
            assert forall|c: u32| c < 32 implies !bit_set(out, c) by {
                lemma_bit_zero(c);
            }
        }
        while id < n
            invariant
                self.wf(),
                n == self@.len(),
                n <= 32,
                id <= n,
                forall|c: u32|
                    c < 32 ==> (bit_set(out, c) <==> c < id && self@[c as int] == Mark::Checked),
            decreases n - id,
        {
            let ghost prev = out;
            if self.cells[id] == Mark::Checked {
                proof {
                    assert forall|c: u32| c < 32 implies (bit_set(out | (1u32 << id as u32), c)
                        <==> (c == id as u32 || bit_set(out, c))) by {
                        lemma_bit_or(out, id as u32, c);
                    }
                }
                out = out | (1u32 << id as u32);
            }
            proof {
                assert forall|c: u32| c < 32 implies (bit_set(out, c) <==> c < id + 1 && self@[c as int] == Mark::Checked) by {
                    assert(bit_set(prev, c) <==> c < id && self@[c as int] == Mark::Checked);
                    if out != prev {
                        lemma_bit_or(prev, id as u32, c);
                    }
                }
            }
            id = id + 1;
        }
        out
    }

    /// A cheap hash of the board (FNV-1a over the side and the marks), for
    /// telling boards apart; not for security.
    pub fn hash64(&self) -> (r: u64)
        requires
            self.wf(),
        ensures
            r == board_hash(self.side() as u64, self@),
    {
        let mut h: u64 = (1469598103934665603u64 ^ self.size as u64).wrapping_mul(1099511628211u64);
        let mut i: usize = 0;
        while i < self.cells.len()
            invariant
                i <= self.cells@.len(),
                h == fnv_fold(fnv_step(1469598103934665603u64, self.size as u64), self.cells@.subrange(0, i as int)),
            decreases self.cells@.len() - i,
        {
            let code: u64 = match self.cells[i] {
                Mark::Unknown => 0,
                Mark::Checked => 1,
                Mark::Unchecked => 2,
            };
            proof {
                assert(self.cells@.subrange(0, i + 1).drop_last() =~= self.cells@.subrange(0, i as int));
            }
            h = (h ^ code).wrapping_mul(1099511628211u64);
            i = i + 1;
        }
        proof {
            assert(self.cells@.subrange(0, i as int) =~= self.cells@);
        }
        h
    }

    /// An independent copy of the board.
    pub fn fork(&self) -> (r: Self)
        requires
            self.wf(),
        ensures
            r.wf(),
            r@ == self@,
            r.side() == self.side(),
    {
        SolverState {
            size: self.size,
            cells: copy_vec(&self.cells),
            row_checked: copy_vec(&self.row_checked),
            row_unknown: copy_vec(&self.row_unknown),
            col_checked: copy_vec(&self.col_checked),
            col_unknown: copy_vec(&self.col_unknown),
            diag_down_checked: copy_vec(&self.diag_down_checked),
            diag_down_unknown: copy_vec(&self.diag_down_unknown),
            diag_up_checked: copy_vec(&self.diag_up_checked),
            diag_up_unknown: copy_vec(&self.diag_up_unknown),
            unknown: self.unknown,
        }
    }
}

} // verus!

verus! {

/// Extending a board never adds unknown cells; it keeps their number only
/// when it changes nothing.
pub proof fn lemma_extends_count(s: Seq<Mark>, t: Seq<Mark>, n: int)
    requires
        extends(s, t),
        0 <= n <= s.len(),
    ensures
        count_upto(t, n, all_cells(), Mark::Unknown) <= count_upto(s, n, all_cells(), Mark::Unknown),
        count_upto(t, n, all_cells(), Mark::Unknown) == count_upto(s, n, all_cells(), Mark::Unknown)
            ==> forall|i: int| 0 <= i < n ==> #[trigger] t[i] == s[i],
    decreases n,
{
    if n > 0 {
        lemma_extends_count(s, t, n - 1);
        if s[n - 1] != Mark::Unknown {
            assert(t[n - 1] == s[n - 1]);
        }
    }
}

/// Extending a board keeps every checked cell of a line checked.
pub proof fn lemma_extends_checked(s: Seq<Mark>, t: Seq<Mark>, n: int, line: spec_fn(int) -> bool)
    requires
        extends(s, t),
        0 <= n <= s.len(),
    ensures
        count_upto(t, n, line, Mark::Checked) >= count_upto(s, n, line, Mark::Checked),
    decreases n,
{
    if n > 0 {
        lemma_extends_checked(s, t, n - 1, line);
        if s[n - 1] == Mark::Checked {
            assert(t[n - 1] == s[n - 1]);
        }
    }
}

/// Extension is transitive.
pub proof fn lemma_extends_trans(a: Seq<Mark>, b: Seq<Mark>, c: Seq<Mark>)
    requires
        extends(a, b),
        extends(b, c),
    ensures
        extends(a, c),
{
    assert forall|i: int| 0 <= i < a.len() && #[trigger] a[i] != Mark::Unknown implies c[i] == a[i] by {
        assert(b[i] == a[i]);
    }
}

/// The unknown count tells whether an extension changed anything.
pub proof fn lemma_extends_same(s: Seq<Mark>, t: Seq<Mark>)
    requires
        extends(s, t),
    ensures
        line_count(t, all_cells(), Mark::Unknown) <= line_count(s, all_cells(), Mark::Unknown),
        line_count(t, all_cells(), Mark::Unknown) == line_count(s, all_cells(), Mark::Unknown)
            ==> t == s,
{
    lemma_extends_count(s, t, s.len() as int);
    if line_count(t, all_cells(), Mark::Unknown) == line_count(s, all_cells(), Mark::Unknown) {
        assert(t =~= s);
    }
}

} // verus!
