use crate::rules::{adj4, adj8};
use crate::solver::marks_of;
use crate::state::{
    bit_set, col_of, count_upto, down_of, lemma_bit_or, lemma_bit_zero, lemma_count_step, lemma_id_rc,
    line_count, row_of, up_of, Mark,
};
use vstd::prelude::*;

verus! {

/// A set of cells as bits, bit `i` for cell `i` (row-major).
pub type Mask = u32;

/// Side of the standard board.
pub const GRID_SIZE: usize = 5;

/// Cells of the standard board.
pub const CELL_COUNT: usize = 25;

/// The id of the cell in row `x`, column `y`.
pub fn cell_index(x: usize, y: usize, size: usize) -> (r: usize)
    requires
        x * size + y <= usize::MAX,
    ensures
        r == x * size + y,
{
    x * size + y
}

/// The mask holding only cell `i`.
pub fn cell_bit(i: usize) -> (r: Mask)
    requires
        i < 32,
    ensures
        forall|j: u32| j < 32 ==> (bit_set(r, j) <==> j == i),
{
    proof {
        assert forall|j: u32| j < 32 implies (#[trigger] bit_set(1u32 << (i as u32), j) <==> j == i) by {
            lemma_bit_or(0u32, i as u32, j);
            lemma_bit_zero(j);
            assert((0u32 | (1u32 << (i as u32))) == (1u32 << (i as u32))) by (bit_vector);
        }
    }
    1u32 << (i as u32)
}

/// The cells of a family of lines: 0 the 8 neighbours of `idx`, 1 its 4 side
/// neighbours, 2 row `idx`, 3 column `idx`, 4 falling diagonal `idx`, 5 rising
/// diagonal `idx`, 6 the main diagonal, 7 the anti-diagonal.
pub open spec fn kind_pred(size: int, kind: int, idx: int) -> spec_fn(int) -> bool {
    if kind == 0 {
        adj8(size, idx)
    } else if kind == 1 {
        adj4(size, idx)
    } else if kind == 2 {
        row_of(size, idx)
    } else if kind == 3 {
        col_of(size, idx)
    } else if kind == 4 {
        down_of(size, idx)
    } else if kind == 5 {
        up_of(size, idx)
    } else if kind == 6 {
        |j: int| j / size == j % size
    } else {
        |j: int| j / size + j % size == size - 1
    }
}

/// `idx` names a cell for the neighbourhood kinds, a line for the others.
pub open spec fn kind_index_ok(size: int, kind: int, idx: int) -> bool {
    &&& 0 <= idx
    &&& kind <= 1 ==> idx < size * size
    &&& kind > 1 ==> idx < 2 * size
}

/// Does cell `j` belong to the line of `kind` and `idx`?
fn in_kind(size: usize, kind: usize, idx: usize, j: usize) -> (r: bool)
    requires
        1 <= size <= 32,
        j < size * size,
        kind_index_ok(size as int, kind as int, idx as int),
    ensures
        r == kind_pred(size as int, kind as int, idx as int)(j as int),
{
    proof {
        lemma_id_rc(size as int, j as int);
        if kind <= 1 {
            lemma_id_rc(size as int, idx as int);
        }
    }
    let jr = j / size;
    let jc = j % size;
    if kind == 0 || kind == 1 {
        let ir = idx / size;
        let ic = idx % size;
        let dr_small = jr + 1 >= ir && jr <= ir + 1;
        let dc_small = jc + 1 >= ic && jc <= ic + 1;
        if kind == 0 {
            j != idx && dr_small && dc_small
        } else {
            (jr == ir && (jc == ic + 1 || ic == jc + 1)) || (jc == ic && (jr == ir + 1 || ir == jr
                + 1))
        }
    } else if kind == 2 {
        jr == idx
    } else if kind == 3 {
        jc == idx
    } else if kind == 4 {
        jr + (size - 1) == idx + jc
    } else if kind == 5 {
        jr + jc == idx
    } else if kind == 6 {
        jr == jc
    } else {
        jr + jc == size - 1
    }
}

/// The mask of the cells of a line of a board of side `size` (at most 5).
pub fn mask_where(size: usize, kind: usize, idx: usize) -> (r: Mask)
    requires
        1 <= size <= 5,
        kind_index_ok(size as int, kind as int, idx as int),
    ensures
        forall|j: u32|
            j < 32 ==> (bit_set(r, j) <==> j < size * size && kind_pred(
                size as int,
                kind as int,
                idx as int,
            )(j as int)),
{
    proof {
        assert(size * size <= 25) by (nonlinear_arith)
            requires
                size <= 5,
        ;
    }
    let n = size * size;
    let mut out: Mask = 0;
    proof {
        assert forall|c: u32| c < 32 implies !bit_set(out, c) by {
            lemma_bit_zero(c);
        }
    }
    let mut j: usize = 0;
    while j < n
        invariant
            1 <= size <= 5,
            n == size * size,
            n <= 25,
            kind_index_ok(size as int, kind as int, idx as int),
            j <= n,
            forall|c: u32|
                c < 32 ==> (bit_set(out, c) <==> c < j && kind_pred(
                    size as int,
                    kind as int,
                    idx as int,
                )(c as int)),
        decreases n - j,
    {
        let ghost prev = out;
        let hit = in_kind(size, kind, idx, j);
        if hit {
            out = out | (1u32 << (j as u32));
        }
        proof {
            assert forall|c: u32| c < 32 implies (bit_set(out, c) <==> c < j + 1 && kind_pred(
                size as int,
                kind as int,
                idx as int,
            )(c as int)) by {
                if hit {
                    lemma_bit_or(prev, j as u32, c);
                }
            }
        }
        j = j + 1;
    }
    out
}

/// How many cells of the line of `kind` and `idx` are set in `m`.
pub fn count_where(size: usize, m: Mask, kind: usize, idx: usize) -> (r: u32)
    requires
        1 <= size <= 5,
        kind_index_ok(size as int, kind as int, idx as int),
    ensures
        r == line_count(
            marks_of(size * size, m),
            kind_pred(size as int, kind as int, idx as int),
            Mark::Checked,
        ),
        r <= 25,
{
    proof {
        assert(size * size <= 25) by (nonlinear_arith)
            requires
                size <= 5,
        ;
    }
    let ghost s = marks_of(size * size, m);
    let ghost p = kind_pred(size as int, kind as int, idx as int);
    let n = size * size;
    let mut count: u32 = 0;
    let mut j: usize = 0;
    while j < n
        invariant
            1 <= size <= 5,
            n == size * size,
            n <= 25,
            kind_index_ok(size as int, kind as int, idx as int),
            j <= n,
            s == marks_of(size * size, m),
            p == kind_pred(size as int, kind as int, idx as int),
            count == count_upto(s, j as int, p, Mark::Checked),
            count <= j,
        decreases n - j,
    {
        proof {
            lemma_count_step(s, j as int, p, Mark::Checked);
        }
        if in_kind(size, kind, idx, j) && (m >> (j as u32)) & 1u32 == 1u32 {
            count = count + 1;
        }
        j = j + 1;
    }
    count
}

/// Bit `i` of the wide mask `m` is set.
pub open spec fn bit_set64(m: u64, i: u64) -> bool {
    (m >> i) & 1u64 == 1u64
}

/// Setting bit `i` of a wide mask leaves the other bits as they were.
pub proof fn lemma_bit_or64(m: u64, i: u64, j: u64)
    requires
        i < 64,
        j < 64,
    ensures
        bit_set64(m | (1u64 << i), j) <==> (j == i || bit_set64(m, j)),
{
    assert(((m | (1u64 << i)) >> j) & 1u64 == 1u64 <==> (j == i || (m >> j) & 1u64 == 1u64))
        by (bit_vector)
        requires
            i < 64,
            j < 64,
    ;
}

/// The wide mask of the cells of a line of a board of side `size` (at most 8).
pub fn mask_where64(size: usize, kind: usize, idx: usize) -> (r: u64)
    requires
        1 <= size <= 8,
        kind_index_ok(size as int, kind as int, idx as int),
    ensures
        forall|j: u64|
            j < 64 ==> (bit_set64(r, j) <==> j < size * size && kind_pred(
                size as int,
                kind as int,
                idx as int,
            )(j as int)),
{
    proof {
        assert(size * size <= 64) by (nonlinear_arith)
            requires
                size <= 8,
        ;
    }
    let n = size * size;
    let mut out: u64 = 0;
    proof {
        assert forall|c: u64| c < 64 implies !bit_set64(out, c) by {
            assert((0u64 >> c) & 1u64 != 1u64) by (bit_vector);
        }
    }
    let mut j: usize = 0;
    while j < n
        invariant
            1 <= size <= 8,
            n == size * size,
            n <= 64,
            kind_index_ok(size as int, kind as int, idx as int),
            j <= n,
            forall|c: u64|
                c < 64 ==> (bit_set64(out, c) <==> c < j && kind_pred(
                    size as int,
                    kind as int,
                    idx as int,
                )(c as int)),
        decreases n - j,
    {
        let ghost prev = out;
        let hit = in_kind(size, kind, idx, j);
        if hit {
            out = out | (1u64 << (j as u64));
        }
        proof {
            assert forall|c: u64| c < 64 implies (bit_set64(out, c) <==> c < j + 1 && kind_pred(
                size as int,
                kind as int,
                idx as int,
            )(c as int)) by {
                if hit {
                    lemma_bit_or64(prev, j as u64, c);
                }
            }
        }
        j = j + 1;
    }
    out
}

/// The board that a wide mask describes: bit `i` set means cell `i` checked,
/// clear means unchecked.
pub open spec fn marks_of64(n: int, m: u64) -> Seq<Mark> {
    Seq::new(
        n as nat,
        |i: int|
            if bit_set64(m, i as u64) {
                Mark::Checked
            } else {
                Mark::Unchecked
            },
    )
}

/// A narrow mask read as a wide one describes the same board.
pub proof fn lemma_marks_widen(n: int, m: u32)
    requires
        0 <= n <= 32,
    ensures
        marks_of64(n, m as u64) == crate::solver::marks_of(n, m),
{
    assert forall|i: int| 0 <= i < n implies marks_of64(n, m as u64)[i] == crate::solver::marks_of(n, m)[i] by {
        let k = i as u32;
        assert(((m as u64) >> (k as u64)) & 1u64 == 1u64 <==> (m >> k) & 1u32 == 1u32) by (bit_vector)
            requires
                k < 32,
        ;
    }
    assert(marks_of64(n, m as u64) =~= crate::solver::marks_of(n, m));
}

/// How many cells of the line of `kind` and `idx` are set in the wide mask `m`.
pub fn count_where64(size: usize, m: u64, kind: usize, idx: usize) -> (r: u32)
    requires
        1 <= size <= 8,
        kind_index_ok(size as int, kind as int, idx as int),
    ensures
        r == line_count(
            marks_of64(size * size, m),
            kind_pred(size as int, kind as int, idx as int),
            Mark::Checked,
        ),
        r <= 64,
{
    proof {
        assert(size * size <= 64) by (nonlinear_arith)
            requires
                size <= 8,
        ;
    }
    let ghost s = marks_of64(size * size, m);
    let ghost p = kind_pred(size as int, kind as int, idx as int);
    let n = size * size;
    let mut count: u32 = 0;
    let mut j: usize = 0;
    while j < n
        invariant
            1 <= size <= 8,
            n == size * size,
            n <= 64,
            kind_index_ok(size as int, kind as int, idx as int),
            j <= n,
            s == marks_of64(size * size, m),
            p == kind_pred(size as int, kind as int, idx as int),
            count == count_upto(s, j as int, p, Mark::Checked),
            count <= j,
        decreases n - j,
    {
        proof {
            lemma_count_step(s, j as int, p, Mark::Checked);
        }
        if in_kind(size, kind, idx, j) && (m >> (j as u64)) & 1u64 == 1u64 {
            count = count + 1;
        }
        j = j + 1;
    }
    count
}

/// The masks of a board of side at most 8 (64 cells): the neighbourhoods of each cell,
/// its rows, columns and diagonals, and its winning lines (rows, columns and
/// the two long diagonals).
pub struct BoardMasks {
    pub size: usize,
    pub cell_count: usize,
    pub neighbors_8: Vec<u64>,
    pub neighbors_4: Vec<u64>,
    pub row_masks: Vec<u64>,
    pub col_masks: Vec<u64>,
    pub diag_down_masks: Vec<u64>,
    pub diag_up_masks: Vec<u64>,
    pub line_masks: Vec<u64>,
}

/// `v[k]` is the mask of the line of `kind` and index `k`.
pub open spec fn masks_of_kind(size: int, v: Seq<u64>, kind: int) -> bool {
    forall|k: int, j: u64|
        #![trigger bit_set64(v[k], j)]
        0 <= k < v.len() && j < 64 ==> (bit_set64(v[k], j) <==> j < size * size && kind_pred(
            size,
            kind,
            k,
        )(j as int))
}

/// The kind and index of winning line `k`: the rows, then the columns, then
/// the main diagonal and the anti-diagonal.
pub open spec fn winning_kind(size: int, k: int) -> (int, int) {
    if k < size {
        (2, k)
    } else if k < 2 * size {
        (3, k - size)
    } else if k == 2 * size {
        (6, 0)
    } else {
        (7, 0)
    }
}

/// The cells of winning line `k`.
pub open spec fn winning_line(size: int, k: int) -> spec_fn(int) -> bool {
    kind_pred(size, winning_kind(size, k).0, winning_kind(size, k).1)
}

impl BoardMasks {
    /// Builds the masks of a board of side `size` (1 to 8).
    pub fn new(size: usize) -> (r: Self)
        requires
            1 <= size <= 8,
        ensures
            r.size == size,
            r.cell_count == size * size,
            r.neighbors_8@.len() == size * size,
            r.neighbors_4@.len() == size * size,
            r.row_masks@.len() == size,
            r.col_masks@.len() == size,
            r.diag_down_masks@.len() == 2 * size - 1,
            r.diag_up_masks@.len() == 2 * size - 1,
            r.line_masks@.len() == 2 * size + 2,
            masks_of_kind(size as int, r.neighbors_8@, 0),
            masks_of_kind(size as int, r.neighbors_4@, 1),
            masks_of_kind(size as int, r.row_masks@, 2),
            masks_of_kind(size as int, r.col_masks@, 3),
            masks_of_kind(size as int, r.diag_down_masks@, 4),
            masks_of_kind(size as int, r.diag_up_masks@, 5),
            forall|k: int, j: u64|
                #![trigger bit_set64(r.line_masks@[k], j)]
                0 <= k < 2 * size + 2 && j < 64 ==> (bit_set64(r.line_masks@[k], j) <==> j
                    < size * size && winning_line(size as int, k)(j as int)),
    {
        proof {
            assert(size * size <= 64) by (nonlinear_arith)
                requires
                    size <= 8,
            ;
        }
        let n = size * size;
        let neighbors_8 = masks_for(size, 0, n);
        let neighbors_4 = masks_for(size, 1, n);
        let row_masks = masks_for(size, 2, size);
        let col_masks = masks_for(size, 3, size);
        let diag_down_masks = masks_for(size, 4, 2 * size - 1);
        let diag_up_masks = masks_for(size, 5, 2 * size - 1);
        let mut line_masks: Vec<u64> = Vec::new();
        let mut k: usize = 0;
        while k < 2 * size + 2
            invariant
                1 <= size <= 8,
                k <= 2 * size + 2,
                line_masks@.len() == k,
                forall|q: int, j: u64|
                    #![trigger bit_set64(line_masks@[q], j)]
                    0 <= q < k && j < 64 ==> (bit_set64(line_masks@[q], j) <==> j < size
                        * size && winning_line(size as int, q)(j as int)),
            decreases 2 * size + 2 - k,
        {
            let (kind, idx) = if k < size {
                (2, k)
            } else if k < 2 * size {
                (3, k - size)
            } else if k == 2 * size {
                (6, 0)
            } else {
                (7, 0)
            };
            line_masks.push(mask_where64(size, kind, idx));
            k = k + 1;
        }
        BoardMasks {
            size,
            cell_count: n,
            neighbors_8,
            neighbors_4,
            row_masks,
            col_masks,
            diag_down_masks,
            diag_up_masks,
            line_masks,
        }
    }
}

/// The masks of the lines of `kind` with indexes `0 .. count`.
fn masks_for(size: usize, kind: usize, count: usize) -> (r: Vec<u64>)
    requires
        1 <= size <= 8,
        count == 0 || kind_index_ok(size as int, kind as int, count - 1),
    ensures
        r@.len() == count,
        masks_of_kind(size as int, r@, kind as int),
{
    let mut out: Vec<u64> = Vec::new();
    let mut k: usize = 0;
    while k < count
        invariant
            1 <= size <= 8,
            k <= count,
            count == 0 || kind_index_ok(size as int, kind as int, count - 1),
            out@.len() == k,
            masks_of_kind(size as int, out@, kind as int),
        decreases count - k,
    {
        out.push(mask_where64(size, kind, k));
        k = k + 1;
    }
    out
}

} // verus!
