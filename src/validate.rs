use crate::colors::{all_codes_valid, colors_of, first_bad_code, parse_colors, Color};
use crate::masks::{count_where64, kind_pred, lemma_marks_widen, marks_of64};
use crate::rules::{
    cell_ok, decided, dir_dc, dir_dr, five_possible, segment_avoids, segment_cell, segment_fits,
};
use crate::solver::{five_in_a_row_possible, marks_of, mask_solves};
use crate::state::{bit_set, id_of, lemma_id_rc, lemma_rc_id, Mark, SolverState};
use crate::text::push_number;
use vstd::prelude::*;
use vstd::string::StringExecFns;

verus! {

/// Why a board could not be checked.
#[derive(Debug, Clone, PartialEq, Eq, Structural)]
pub enum ValidateError {
    /// The grid is not square, or its side is above 8.
    BadGridLength(usize),
    BadColor { index: usize, value: u8 },
}

/// The verdict on a fully decided board.
#[derive(Debug, Clone)]
pub struct ValidateResult {
    /// Some run of five cells (along a row, a column or a diagonal) is checked.
    pub is_bingo: bool,
    /// Every cell's rule holds.
    pub is_valid: bool,
    /// Whether each cell's rule holds, row-major.
    pub cell_ok: Vec<bool>,
    /// What is wrong with each cell, if anything.
    pub cell_messages: Vec<Option<String>>,
}

/// The side of a square grid of `len` cells with side 0 to 8; -1 when there is none.
pub open spec fn grid_side(len: int) -> int {
    if len == 0 {
        0
    } else if len == 1 {
        1
    } else if len == 4 {
        2
    } else if len == 9 {
        3
    } else if len == 16 {
        4
    } else if len == 25 {
        5
    } else if len == 36 {
        6
    } else if len == 49 {
        7
    } else if len == 64 {
        8
    } else {
        -1
    }
}

/// The decided board of side `size` (1 to 8) that a wide mask describes.
fn board_of_mask(size: usize, m: u64) -> (r: SolverState)
    requires
        1 <= size <= 8,
    ensures
        r.wf(),
        r.side() == size,
        r@ == marks_of64(size * size, m),
{
    proof {
        assert(size * size <= 64) by (nonlinear_arith)
            requires
                size <= 8,
        ;
    }
    let n = size * size;
    let mut st = SolverState::new(size);
    let mut i: usize = 0;
    while i < n
        invariant
            1 <= size <= 8,
            n == size * size,
            n <= 64,
            i <= n,
            st.wf(),
            st.side() == size,
            st@.len() == n,
            forall|j: int| 0 <= j < i ==> #[trigger] st@[j] == marks_of64(n as int, m)[j],
            forall|j: int| i <= j < n ==> #[trigger] st@[j] == Mark::Unknown,
        decreases n - i,
    {
        proof {
            st.lemma_bounds();
        }
        if (m >> (i as u64)) & 1u64 == 1u64 {
            let _ = st.set_checked_id(i);
        } else {
            let _ = st.set_unchecked_id(i);
        }
        i = i + 1;
    }
    assert(st@ =~= marks_of64(n as int, m));
    st
}

/// A message `head` + `n` + `tail`.
fn count_message(head: &str, n: u32, tail: &str) -> String {
    let mut s = String::from_str(head);
    push_number(&mut s, n as usize);
    s.append(tail);
    s
}

/// Checks the board whose checked cells are `checked_mask` against the colors
/// of `color_grid` (row-major codes of a square grid of side 1 to 5): each
/// cell's rule, and whether some row, column or long diagonal is fully checked.
pub fn validate_state(checked_mask: u64, color_grid: &[u8]) -> (r: Result<ValidateResult, ValidateError>)
    ensures
        grid_side(color_grid@.len() as int) < 0 ==> r == Err::<ValidateResult, ValidateError>(
            ValidateError::BadGridLength(color_grid@.len() as usize),
        ),
        grid_side(color_grid@.len() as int) >= 0 && !all_codes_valid(color_grid@) ==> exists|i: int|
            first_bad_code(color_grid@, i) && r == Err::<ValidateResult, ValidateError>(
                ValidateError::BadColor { index: i as usize, value: color_grid@[i] },
            ),
        r is Ok ==> {
            let res = r.unwrap();
            let size = grid_side(color_grid@.len() as int);
            let n = color_grid@.len() as int;
            let colors = colors_of(color_grid@);
            let s = marks_of64(n, checked_mask);
            &&& size >= 0
            &&& all_codes_valid(color_grid@)
            &&& res.cell_ok@.len() == n
            &&& res.cell_messages@.len() == n
            &&& forall|i: int| 0 <= i < n ==> #[trigger] res.cell_ok@[i] == cell_ok(size, colors, s, i)
            &&& forall|i: int| 0 <= i < n ==> (res.cell_messages@[i] is None <==> #[trigger] res.cell_ok@[i])
            &&& res.is_valid == forall|i: int| 0 <= i < n ==> #[trigger] cell_ok(size, colors, s, i)
            &&& res.is_bingo == five_possible(size, s)
        },
        r is Ok <==> grid_side(color_grid@.len() as int) >= 0 && all_codes_valid(color_grid@),
{
    let len = color_grid.len();
    let size: usize = if len == 0 {
        0
    } else if len == 1 {
        1
    } else if len == 4 {
        2
    } else if len == 9 {
        3
    } else if len == 16 {
        4
    } else if len == 25 {
        5
    } else if len == 36 {
        6
    } else if len == 49 {
        7
    } else if len == 64 {
        8
    } else {
        99
    };
    if size == 99 {
        return Err(ValidateError::BadGridLength(len));
    }
    let colors = match parse_colors(color_grid) {
        Ok(c) => c,
        Err((index, value)) => {
            return Err(ValidateError::BadColor { index, value });
        },
    };
    if size == 0 {
        proof {
            lemma_no_five_below(0, marks_of64(0, checked_mask));
        }
        return Ok(
            ValidateResult {
                is_bingo: false,
                is_valid: true,
                cell_ok: Vec::new(),
                cell_messages: Vec::new(),
            },
        );
    }
    proof {
        assert(len == size * size) by {
            if size == 1 {
                assert(len == 1 * 1);
            } else if size == 2 {
                assert(len == 2 * 2);
            } else if size == 3 {
                assert(len == 3 * 3);
            } else if size == 4 {
                assert(len == 4 * 4);
            } else if size == 5 {
                assert(len == 5 * 5);
            } else if size == 6 {
                assert(len == 6 * 6);
            } else if size == 7 {
                assert(len == 7 * 7);
            } else {
                assert(len == 8 * 8);
            }
        }
        assert(grid_side(len as int) == size);
    }
    let ghost sz = size as int;
    let ghost spec_colors = colors_of(color_grid@);
    let ghost s = marks_of64(len as int, checked_mask);
    let mut cell_ok_v: Vec<bool> = Vec::new();
    let mut messages: Vec<Option<String>> = Vec::new();
    let mut all_ok = true;
    let mut i: usize = 0;
    while i < len
        invariant
            1 <= size <= 8,
            sz == size,
            len == size * size,
            len <= 64,
            len == color_grid@.len(),
            colors@ == spec_colors,
            spec_colors == colors_of(color_grid@),
            s == marks_of64(len as int, checked_mask),
            i <= len,
            cell_ok_v@.len() == i,
            messages@.len() == i,
            forall|q: int| 0 <= q < i ==> #[trigger] cell_ok_v@[q] == cell_ok(sz, spec_colors, s, q),
            forall|q: int| 0 <= q < i ==> (messages@[q] is None <==> #[trigger] cell_ok_v@[q]),
            all_ok == forall|q: int| 0 <= q < i ==> #[trigger] cell_ok(sz, spec_colors, s, q),
        decreases len - i,
    {
        proof {
            lemma_id_rc(sz, i as int);
        }
        let x = i / size;
        let y = i % size;
        let checked = (checked_mask >> (i as u64)) & 1u64 == 1u64;
        let (ok, msg): (bool, Option<String>) = match colors[i] {
            Color::Black => {
                if checked {
                    (true, None)
                } else {
                    (false, Some(String::from_str("A black cell must be checked.")))
                }
            },
            Color::White => (true, None),
            Color::Red => {
                let count = count_where64(size, checked_mask, 0, i);
                if count >= 1 {
                    (true, None)
                } else {
                    (false, Some(count_message("Needs at least 1 checked neighbour; has ", count, ".")))
                }
            },
            Color::Blue => {
                let count = count_where64(size, checked_mask, 0, i);
                if count <= 2 {
                    (true, None)
                } else {
                    (false, Some(count_message("At most 2 neighbours may be checked; has ", count, ".")))
                }
            },
            Color::Green => {
                let rc = count_where64(size, checked_mask, 2, x);
                let cc = count_where64(size, checked_mask, 3, y);
                if rc == cc {
                    (true, None)
                } else {
                    (false, Some(String::from_str("Row and column hold different numbers of checked cells.")))
                }
            },
            Color::Yellow => {
                let d = count_where64(size, checked_mask, 4, x + (size - 1) - y);
                let u = count_where64(size, checked_mask, 5, x + y);
                if d == u {
                    (true, None)
                } else {
                    (false, Some(String::from_str("The two diagonals hold different numbers of checked cells.")))
                }
            },
            Color::Purple => {
                let count = count_where64(size, checked_mask, 0, i);
                if count % 2 == 1 {
                    (true, None)
                } else {
                    (false, Some(count_message("Needs an odd number of checked neighbours; has ", count, ".")))
                }
            },
            Color::Orange => {
                let count = count_where64(size, checked_mask, 0, i);
                if count % 2 == 0 {
                    (true, None)
                } else {
                    (false, Some(count_message("Needs an even number of checked neighbours; has ", count, ".")))
                }
            },
            Color::Cyan => {
                if !checked {
                    (true, None)
                } else {
                    let count = count_where64(size, checked_mask, 1, i);
                    if count >= 1 {
                        (true, None)
                    } else {
                        (false, Some(String::from_str("A checked cyan cell needs a checked cell beside it.")))
                    }
                }
            },
        };
        proof {
            assert(ok == cell_ok(sz, spec_colors, s, i as int));
        }
        cell_ok_v.push(ok);
        messages.push(msg);
        all_ok = all_ok && ok;
        i = i + 1;
    }
    let board = board_of_mask(size, checked_mask);
    let bingo = five_in_a_row_possible(&board);
    Ok(ValidateResult { is_bingo: bingo, is_valid: all_ok, cell_ok: cell_ok_v, cell_messages: messages })
}

} // verus!

verus! {

/// A board of side below 5 holds no run of five cells.
pub proof fn lemma_no_five_below(size: int, s: Seq<Mark>)
    requires
        size < 5,
    ensures
        !five_possible(size, s),
{
    assert forall|r: int, c: int, dir: int| !segment_fits(size, r, c, dir) by {
        if dir == 1 || dir == 2 {
            assert(crate::rules::dir_dr(dir) == 1);
        }
    }
}

/// A mask solves a 5x5 puzzle exactly when every cell's rule holds on it and
/// some run of five cells is checked: what `validate_state` reports as
/// `is_valid` and `is_bingo` for the same mask widened to 64 bits.
pub proof fn lemma_solution_iff_valid_bingo(colors: Seq<Color>, m: u32)
    requires
        colors.len() == 25,
    ensures
        mask_solves(5, colors, m) <==> (forall|i: int|
            0 <= i < 25 ==> #[trigger] cell_ok(5, colors, marks_of64(25, m as u64), i)) && five_possible(
            5,
            marks_of64(25, m as u64),
        ),
{
    lemma_marks_widen(25, m);
    let s = marks_of(25, m);
    assert(decided(s));
}

} // verus!
