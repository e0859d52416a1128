use crate::colors::{color_code, non_white_colors, Color};
use crate::masks::{count_where, mask_where, winning_kind, winning_line};
use crate::rules::cell_ok;
use crate::solver::{marks_of, mask_solves, Solver};
use crate::state::Mark;
use crate::state::bit_set;
use rand::seq::SliceRandom;
use rand::{Rng, SeedableRng};
use rand_chacha::ChaCha8Rng;
use vstd::prelude::*;

verus! {

/// The random number generator of the puzzle generator, a ChaCha stream
/// with 8 rounds seeded from a `u64`.
#[verifier::external_type_specification]
#[verifier::external_body]
pub struct ExChaCha8Rng(ChaCha8Rng);

/// Relies on rand_core's `SeedableRng::seed_from_u64` for `ChaCha8Rng`: the
/// stream is a function of the seed.
#[verifier::external_body]
fn rng_from_seed(seed: u64) -> ChaCha8Rng {
    ChaCha8Rng::seed_from_u64(seed)
}

/// Relies on rand's `Rng::gen_range` over `0..n`: a value in `[0, n)`; it
/// panics on an empty range, which `requires` leaves out.
#[verifier::external_body]
fn gen_below(rng: &mut ChaCha8Rng, n: usize) -> (r: usize)
    requires
        n > 0,
    ensures
        r < n,
{
    rng.gen_range(0..n)
}

/// Relies on rand's `Rng::gen_range` over `0..n` as `u32` (the draw that
/// `SliceRandom::choose` makes for a slice of `n` elements, and that a range
/// of `i32` makes): a value in `[0, n)`; `n > 0` rules out the panic on an
/// empty range.
#[verifier::external_body]
fn choose_index(rng: &mut ChaCha8Rng, n: usize) -> (r: usize)
    requires
        0 < n <= u32::MAX,
    ensures
        r < n,
{
    rng.gen_range(0..n as u32) as usize
}

/// Relies on rand's `Rng::gen_ratio`: true with probability
/// `numerator / denominator`, always false for 0 and always true for 1; it
/// panics on a zero denominator or a ratio above 1, which `requires` leaves out.
#[verifier::external_body]
fn gen_ratio(rng: &mut ChaCha8Rng, numerator: u32, denominator: u32) -> (r: bool)
    requires
        0 < denominator,
        numerator <= denominator,
    ensures
        numerator == 0 ==> !r,
        numerator == denominator ==> r,
{
    rng.gen_ratio(numerator, denominator)
}

/// Relies on rand's `SliceRandom::shuffle`: the elements are permuted in
/// place (swaps only), so the length is kept and every element comes from
/// the original vector: the result is a permutation of it.
#[verifier::external_body]
fn shuffle_in_place(v: &mut Vec<usize>, rng: &mut ChaCha8Rng)
    ensures
        final(v)@.len() == old(v)@.len(),
        final(v)@.to_multiset() == old(v)@.to_multiset(),
        forall|k: int|
            0 <= k < final(v)@.len() ==> exists|j: int|
                0 <= j < old(v)@.len() && #[trigger] final(v)@[k] == old(v)@[j],
{
    v.shuffle(rng)
}

/// Why no puzzle was produced.
#[derive(Debug, Clone, PartialEq, Eq, Structural)]
pub enum GenerateError {
    NoSatisfiablePuzzle { seed: u64, attempts: usize },
}

/// Number of candidate grids tried before giving up.
pub const MAX_ATTEMPTS: usize = 2000;

/// A copy of a color vector.
fn copy_colors(v: &Vec<Color>) -> (r: Vec<Color>)
    ensures
        r@ == v@,
{
    let mut out: Vec<Color> = Vec::new();
    let mut i: usize = 0;
    while i < v.len()
        invariant
            i <= v@.len(),
            out@ == v@.subrange(0, i as int),
        decreases v@.len() - i,
    {
        out.push(v[i]);
        i = i + 1;
    }
    assert(out@ =~= v@);
    out
}

/// `grid` lists the codes of `colors` row by row.
pub open spec fn grid_of(grid: Seq<Vec<u8>>, size: int, colors: Seq<Color>) -> bool {
    &&& grid.len() == size
    &&& forall|x: int| 0 <= x < size ==> (#[trigger] grid[x])@.len() == size
    &&& forall|x: int, y: int|
        0 <= x < size && 0 <= y < size ==> grid[x]@[y] == color_code(
            #[trigger] colors[x * size + y],
        )
}

/// The colors as rows of codes.
fn to_grid(colors: &Vec<Color>, size: usize) -> (r: Vec<Vec<u8>>)
    requires
        1 <= size <= 5,
        colors@.len() == size * size,
    ensures
        grid_of(r@, size as int, colors@),
{
    let mut grid: Vec<Vec<u8>> = Vec::new();
    let mut x: usize = 0;
    while x < size
        invariant
            1 <= size <= 5,
            colors@.len() == size * size,
            x <= size,
            grid@.len() == x,
            forall|q: int| 0 <= q < x ==> (#[trigger] grid@[q])@.len() == size,
            forall|q: int, y: int|
                0 <= q < x && 0 <= y < size ==> grid@[q]@[y] == color_code(
                    #[trigger] colors@[q * size + y],
                ),
        decreases size - x,
    {
        let mut row: Vec<u8> = Vec::new();
        let mut y: usize = 0;
        while y < size
            invariant
                1 <= size <= 5,
                colors@.len() == size * size,
                x < size,
                y <= size,
                row@.len() == y,
                forall|q: int| 0 <= q < y ==> row@[q] == color_code(#[trigger] colors@[x * size + q]),
            decreases size - y,
        {
            proof {
                crate::state::lemma_rc_id(size as int, x as int, y as int);
                assert(size * size <= 25) by (nonlinear_arith)
                    requires
                        size <= 5,
                ;
                assert(x * size <= x * size + y);
            }
            row.push(colors[x * size + y].to_u8());
            y = y + 1;
        }
        grid.push(row);
        x = x + 1;
    }
    grid
}

/// Where symmetry `op` moves the cell in row `x`, column `y` of a board of
/// side `size`: 0 identity, 1 to 3 the rotations by 90, 180 and 270 degrees,
/// 4 and 5 the flips across the vertical and horizontal axes, 6 and 7 the
/// flips across the main and the anti-diagonal.
pub open spec fn moved_to(op: int, size: int, x: int, y: int) -> (int, int) {
    if op == 1 {
        (y, size - 1 - x)
    } else if op == 2 {
        (size - 1 - x, size - 1 - y)
    } else if op == 3 {
        (size - 1 - y, x)
    } else if op == 4 {
        (x, size - 1 - y)
    } else if op == 5 {
        (size - 1 - x, y)
    } else if op == 6 {
        (y, x)
    } else if op == 7 {
        (size - 1 - y, size - 1 - x)
    } else {
        (x, y)
    }
}

/// `to` is `from` under symmetry `op`.
pub open spec fn moved_by(op: int, size: int, from: Seq<Color>, to: Seq<Color>) -> bool {
    forall|x: int, y: int|
        0 <= x < size && 0 <= y < size ==> to[crate::state::id_of(
            size,
            moved_to(op, size, x, y).0,
            moved_to(op, size, x, y).1,
        )] == #[trigger] from[x * size + y]
}

/// The grid under symmetry `op` (see `moved_to`): the color of cell `(x, y)`
/// lands on the cell it is moved to.
pub fn symmetry(colors: &Vec<Color>, op: usize, size: usize) -> (r: Vec<Color>)
    requires
        1 <= size <= 5,
        colors@.len() == size * size,
        op < 8,
    ensures
        r@.len() == size * size,
        forall|x: int, y: int|
            0 <= x < size && 0 <= y < size ==> r@[crate::state::id_of(
                size as int,
                moved_to(op as int, size as int, x, y).0,
                moved_to(op as int, size as int, x, y).1,
            )] == #[trigger] colors@[x * size + y],
{
    let mut new_colors = copy_colors(colors);
    let ghost sz = size as int;
    let mut x: usize = 0;
    while x < size
        invariant
            1 <= size <= 5,
            sz == size,
            colors@.len() == size * size,
            new_colors@.len() == size * size,
            op < 8,
            x <= size,
            forall|a: int, b: int|
                0 <= a < x && 0 <= b < size ==> new_colors@[crate::state::id_of(
                    sz,
                    moved_to(op as int, sz, a, b).0,
                    moved_to(op as int, sz, a, b).1,
                )] == #[trigger] colors@[a * size + b],
        decreases size - x,
    {
        let mut y: usize = 0;
        while y < size
            invariant
                1 <= size <= 5,
                sz == size,
                colors@.len() == size * size,
                new_colors@.len() == size * size,
                op < 8,
                x < size,
                y <= size,
                forall|a: int, b: int|
                    (0 <= a < x && 0 <= b < size) || (a == x && 0 <= b < y) ==> new_colors@[crate::state::id_of(
                        sz,
                        moved_to(op as int, sz, a, b).0,
                        moved_to(op as int, sz, a, b).1,
                    )] == #[trigger] colors@[a * size + b],
            decreases size - y,
        {
            let (nx, ny) = if op == 1 {
                (y, size - 1 - x)
            } else if op == 2 {
                (size - 1 - x, size - 1 - y)
            } else if op == 3 {
                (size - 1 - y, x)
            } else if op == 4 {
                (x, size - 1 - y)
            } else if op == 5 {
                (size - 1 - x, y)
            } else if op == 6 {
                (y, x)
            } else if op == 7 {
                (size - 1 - y, size - 1 - x)
            } else {
                (x, y)
            };
            proof {
                crate::state::lemma_rc_id(sz, x as int, y as int);
                crate::state::lemma_rc_id(sz, nx as int, ny as int);
                assert(size * size <= 25) by (nonlinear_arith)
                    requires
                        size <= 5,
                ;
                assert(x * size <= x * size + y);
                assert(nx * size <= nx * size + ny);
            }
            let ghost prev = new_colors@;
            new_colors.set(nx * size + ny, colors[x * size + y]);
            proof {
                assert forall|a: int, b: int|
                    (0 <= a < x && 0 <= b < size) || (a == x && 0 <= b < y + 1) implies new_colors@[crate::state::id_of(
                    sz,
                    moved_to(op as int, sz, a, b).0,
                    moved_to(op as int, sz, a, b).1,
                )] == #[trigger] colors@[a * size + b] by {
                    let (ma, mb) = moved_to(op as int, sz, a, b);
                    assert(0 <= ma < sz && 0 <= mb < sz);
                    crate::state::lemma_rc_id(sz, ma, mb);
                    if !(a == x && b == y) {
                        assert((ma, mb) != (nx as int, ny as int));
                        assert(crate::state::id_of(sz, ma, mb) != nx * size + ny);
                    }
                }
            }
            y = y + 1;
        }
        x = x + 1;
    }
    new_colors
}

/// Applies one random symmetry of the square to the grid (see `symmetry`).
fn apply_symmetry(colors: &mut Vec<Color>, rng: &mut ChaCha8Rng, size: usize)
    requires
        1 <= size <= 5,
        old(colors)@.len() == size * size,
    ensures
        final(colors)@.len() == size * size,
        exists|op: int| 0 <= op < 8 && #[trigger] moved_by(op, size as int, old(colors)@, final(colors)@),
{
    let op = choose_index(rng, 8);
    let moved = symmetry(colors, op, size);
    proof {
        assert(moved_by(op as int, size as int, colors@, moved@));
    }
    *colors = moved;
}

/// The rule of color `c` holds at cell `i` of the board whose checked cells
/// are `target`.
pub open spec fn rule_holds_at(size: int, target: u32, i: int, c: Color) -> bool {
    cell_ok(size, Seq::new((size * size) as nat, |j: int| c), marks_of(size * size, target), i)
}

/// Appends `c` when `cond` holds.
fn push_if(v: &mut Vec<Color>, c: Color, cond: bool)
    ensures
        final(v)@ == if cond {
            old(v)@.push(c)
        } else {
            old(v)@
        },
{
    if cond {
        v.push(c);
    }
}

/// Membership after an append.
proof fn lemma_push_contains(s: Seq<Color>, x: Color, y: Color)
    ensures
        s.push(x).contains(y) == (s.contains(y) || x == y),
{
    if s.contains(y) {
        let k = choose|k: int| 0 <= k < s.len() && s[k] == y;
        assert(s.push(x)[k] == y);
    }
    if x == y {
        assert(s.push(x)[s.len() as int] == y);
    }
    if s.push(x).contains(y) {
        let k = choose|k: int| 0 <= k < s.push(x).len() && s.push(x)[k] == y;
        if k < s.len() {
            assert(s[k] == y);
        }
    }
}

/// The target solution of a candidate: winning line `line` (see
/// `winning_kind`) plus every cell `i` with `extra[i]`.
pub fn target_mask(size: usize, line: usize, extra: &Vec<bool>) -> (r: u32)
    requires
        1 <= size <= 5,
        line < 2 * size + 2,
        extra@.len() == size * size,
    ensures
        forall|i: u32|
            i < 32 ==> (bit_set(r, i) <==> i < size * size && (winning_line(size as int, line as int)(
                i as int,
            ) || extra@[i as int])),
{
    proof {
        assert(size * size <= 25) by (nonlinear_arith)
            requires
                size <= 5,
        ;
    }
    let (kind, idx) = if line < size {
        (2, line)
    } else if line < 2 * size {
        (3, line - size)
    } else if line == 2 * size {
        (6, 0)
    } else {
        (7, 0)
    };
    let mut target: u32 = mask_where(size, kind, idx);
    let n = size * size;
    let mut i: usize = 0;
    while i < n
        invariant
            1 <= size <= 5,
            n == size * size,
            n <= 25,
            line < 2 * size + 2,
            extra@.len() == n,
            i <= n,
            forall|c: u32|
                c < 32 ==> (bit_set(target, c) <==> c < n && (winning_line(size as int, line as int)(
                    c as int,
                ) || (c < i && extra@[c as int]))),
        decreases n - i,
    {
        let ghost prev = target;
        if extra[i] {
            target = target | (1u32 << (i as u32));
        }
        proof {
            assert forall|c: u32| c < 32 implies (bit_set(target, c) <==> c < n && (winning_line(
                size as int,
                line as int,
            )(c as int) || (c < i + 1 && extra@[c as int]))) by {
                if extra@[i as int] {
                    crate::state::lemma_bit_or(prev, i as u32, c);
                }
            }
        }
        i = i + 1;
    }
    target
}

/// Whitens the cells `cells[0..count]`.
pub fn whiten(colors: &mut Vec<Color>, cells: &Vec<usize>, count: usize)
    requires
        count <= cells@.len(),
        forall|k: int| 0 <= k < cells@.len() ==> #[trigger] cells@[k] < old(colors)@.len(),
    ensures
        final(colors)@.len() == old(colors)@.len(),
        forall|i: int|
            0 <= i < old(colors)@.len() ==> #[trigger] final(colors)@[i] == if exists|k: int|
                0 <= k < count && cells@[k] == i {
                Color::White
            } else {
                old(colors)@[i]
            },
{
    let ghost start = colors@;
    let mut w: usize = 0;
    while w < count
        invariant
            count <= cells@.len(),
            forall|k: int| 0 <= k < cells@.len() ==> #[trigger] cells@[k] < start.len(),
            colors@.len() == start.len(),
            start == old(colors)@,
            w <= count,
            forall|i: int|
                0 <= i < start.len() ==> #[trigger] colors@[i] == if exists|k: int|
                    0 <= k < w && cells@[k] == i {
                    Color::White
                } else {
                    start[i]
                },
        decreases count - w,
    {
        let ghost prev = colors@;
        let target = cells[w];
        colors.set(target, Color::White);
        proof {
            assert forall|i: int| 0 <= i < start.len() implies #[trigger] colors@[i] == if exists|k: int|
                0 <= k < w + 1 && cells@[k] == i {
                Color::White
            } else {
                start[i]
            } by {
                if i == target {
                    assert(cells@[w as int] == i);
                } else {
                    assert(colors@[i] == prev[i]);
                    if exists|k: int| 0 <= k < w + 1 && cells@[k] == i {
                        let k = choose|k: int| 0 <= k < w + 1 && cells@[k] == i;
                        assert(k < w);
                    }
                }
            }
        }
        w = w + 1;
    }
}

/// The colors other than white whose rule the target holds at cell `i`, in
/// the order red, blue, green, yellow, purple, orange, cyan, black.
pub fn candidate_colors(size: usize, target: u32, i: usize) -> (r: Vec<Color>)
    requires
        1 <= size <= 5,
        i < size * size,
    ensures
        r@.len() <= 8,
        forall|c: Color| #[trigger] r@.contains(c) <==> c != Color::White && rule_holds_at(
            size as int,
            target,
            i as int,
            c,
        ),
{
    proof {
        crate::state::lemma_id_rc(size as int, i as int);
        assert(size * size <= 25) by (nonlinear_arith)
            requires
                size <= 5,
        ;
    }
    let x = i / size;
    let y = i % size;
    let is_checked = (target >> (i as u32)) & 1u32 == 1u32;
    let n8 = count_where(size, target, 0, i);
    let n4 = count_where(size, target, 1, i);
    let row = count_where(size, target, 2, x);
    let col = count_where(size, target, 3, y);
    let down = count_where(size, target, 4, x + (size - 1) - y);
    let up = count_where(size, target, 5, x + y);
    let mut candidates: Vec<Color> = Vec::new();
    push_if(&mut candidates, Color::Red, n8 >= 1);
    push_if(&mut candidates, Color::Blue, n8 <= 2);
    push_if(&mut candidates, Color::Green, row == col);
    push_if(&mut candidates, Color::Yellow, down == up);
    push_if(&mut candidates, Color::Purple, n8 % 2 == 1);
    push_if(&mut candidates, Color::Orange, n8 % 2 == 0);
    push_if(&mut candidates, Color::Cyan, !is_checked || n4 >= 1);
    push_if(&mut candidates, Color::Black, is_checked);
    proof {
        let n = size * size;
        let s = marks_of(n as int, target);
        assert(s[i as int] == Mark::Checked <==> is_checked);
        let e = Seq::<Color>::empty();
        let s1 = if n8 >= 1 { e.push(Color::Red) } else { e };
        let s2 = if n8 <= 2 { s1.push(Color::Blue) } else { s1 };
        let s3 = if row == col { s2.push(Color::Green) } else { s2 };
        let s4 = if down == up { s3.push(Color::Yellow) } else { s3 };
        let s5 = if n8 % 2 == 1 { s4.push(Color::Purple) } else { s4 };
        let s6 = if n8 % 2 == 0 { s5.push(Color::Orange) } else { s5 };
        let s7 = if !is_checked || n4 >= 1 { s6.push(Color::Cyan) } else { s6 };
        let s8 = if is_checked { s7.push(Color::Black) } else { s7 };
        assert(candidates@ == s8);
        assert forall|c: Color| #[trigger] candidates@.contains(c) <==> c != Color::White && rule_holds_at(
            size as int,
            target,
            i as int,
            c,
        ) by {
            lemma_push_contains(e, Color::Red, c);
            lemma_push_contains(s1, Color::Blue, c);
            lemma_push_contains(s2, Color::Green, c);
            lemma_push_contains(s3, Color::Yellow, c);
            lemma_push_contains(s4, Color::Purple, c);
            lemma_push_contains(s5, Color::Orange, c);
            lemma_push_contains(s6, Color::Cyan, c);
            lemma_push_contains(s7, Color::Black, c);
            assert(!e.contains(c));
            assert(Seq::new(n as nat, |j: int| c)[i as int] == c);
        }
    }
    candidates
}

/// Generates a puzzle of side `size` (1 to 5) from `seed`, row by row as
/// color codes, that has at least one solution; the same seed and size give
/// the same grid. Candidates are built backwards from a random target
/// solution containing a winning line, perturbed, whitened in 3 to 5 cells
/// and turned by a random symmetry; after 2000 failed candidates, an error.
pub fn generate_puzzle(seed: u64, size: usize) -> (r: Result<Vec<Vec<u8>>, GenerateError>)
    requires
        1 <= size <= 5,
    ensures
        r is Ok ==> exists|colors: Seq<Color>|
            #[trigger] grid_of(r.unwrap()@, size as int, colors) && exists|m: u32|
                mask_solves(size as int, colors, m),
        size < 5 ==> r is Err,
        r is Err ==> r == Err::<Vec<Vec<u8>>, GenerateError>(
            GenerateError::NoSatisfiablePuzzle { seed, attempts: MAX_ATTEMPTS },
        ),
{
    proof {
        assert(size * size <= 25) by (nonlinear_arith)
            requires
                size <= 5,
        ;
    }
    let cell_count = size * size;
    let line_count = 2 * size + 2;
    proof {
        assert(1 <= size * size <= 25) by (nonlinear_arith)
            requires
                1 <= size <= 5,
        ;
    }
    let palette = non_white_colors();
    let mut rng = rng_from_seed(seed);
    let mut attempt: usize = 0;
    while attempt < MAX_ATTEMPTS
        invariant
            1 <= size <= 5,
            cell_count == size * size,
            1 <= cell_count <= 25,
            line_count == 2 * size + 2,
            palette@.len() == 8,
        decreases MAX_ATTEMPTS - attempt,
    {
        // 1. A target solution: one winning line plus random extra cells.
        let line = choose_index(&mut rng, line_count);
        let (kind, idx) = if line < size {
            (2, line)
        } else if line < 2 * size {
            (3, line - size)
        } else if line == 2 * size {
            (6, 0)
        } else {
            (7, 0)
        };
        let line_cells: u32 = mask_where(size, kind, idx);
        let mut extra: Vec<bool> = Vec::new();
        let mut i: usize = 0;
        while i < cell_count
            invariant
                cell_count <= 25,
                i <= cell_count,
                extra@.len() == i,
            decreases cell_count - i,
        {
            extra.push((line_cells >> (i as u32)) & 1u32 == 0 && gen_ratio(&mut rng, 2, 5));
            i = i + 1;
        }
        let target = target_mask(size, line, &extra);
        // 2. Colors whose rules the target satisfies.
        let mut colors: Vec<Color> = Vec::new();
        i = 0;
        while i < cell_count
            invariant
                1 <= size <= 5,
                cell_count == size * size,
                cell_count <= 25,
                i <= cell_count,
                colors@.len() == i,
            decreases cell_count - i,
        {
            let candidates = candidate_colors(size, target, i);
            if candidates.len() == 0 || gen_ratio(&mut rng, 1, 10) {
                colors.push(Color::White);
            } else {
                let k = choose_index(&mut rng, candidates.len());
                colors.push(candidates[k]);
            }
            i = i + 1;
        }
        // 3. Perturb: recolor random cells, keeping only changes that stay solvable.
        let mut t: usize = 0;
        while t < 5
            invariant
                1 <= size <= 5,
                cell_count == size * size,
                1 <= cell_count <= 25,
                colors@.len() == cell_count,
                palette@.len() == 8,
            decreases 5 - t,
        {
            let idx = gen_below(&mut rng, cell_count);
            let old_color = colors[idx];
            let new_color = palette[choose_index(&mut rng, 8)];
            colors.set(idx, new_color);
            let solver = Solver::new(size, copy_colors(&colors));
            if solver.solve_masks_limit(1).len() == 0 {
                colors.set(idx, old_color);
            }
            t = t + 1;
        }
        // 4. Whiten three to five random cells.
        let white_count = 3 + gen_below(&mut rng, 3);
        let mut all_indices: Vec<usize> = Vec::new();
        i = 0;
        while i < cell_count
            invariant
                i <= cell_count,
                all_indices@.len() == i,
                forall|q: int| 0 <= q < i ==> #[trigger] all_indices@[q] < cell_count,
            decreases cell_count - i,
        {
            all_indices.push(i);
            i = i + 1;
        }
        let ghost before_shuffle = all_indices@;
        shuffle_in_place(&mut all_indices, &mut rng);
        proof {
            assert forall|k: int| 0 <= k < all_indices@.len() implies #[trigger] all_indices@[k] < colors@.len() by {
                let j = choose|j: int| 0 <= j < before_shuffle.len() && all_indices@[k] == before_shuffle[j];
            }
        }
        let count = if white_count < all_indices.len() {
            white_count
        } else {
            all_indices.len()
        };
        whiten(&mut colors, &all_indices, count);
        // 5. A random symmetry.
        apply_symmetry(&mut colors, &mut rng, size);
        // 6. Keep it when it has a solution.
        let solver = Solver::new(size, copy_colors(&colors));
        let found = solver.solve_masks_limit(1);
        if found.len() > 0 {
            let grid = to_grid(&colors, size);
            proof {
                assert(mask_solves(size as int, colors@, found@[0]));
                if size < 5 {
                    crate::validate::lemma_no_five_below(size as int, marks_of(size * size, found@[0]));
                }
                assert(grid_of(grid@, size as int, colors@));
                assert(exists|m: u32| mask_solves(size as int, colors@, m));
            }
            let res: Result<Vec<Vec<u8>>, GenerateError> = Ok(grid);
            proof {
                assert(res.unwrap()@ == grid@);
                assert(grid_of(res.unwrap()@, size as int, colors@));
            }
            return res;
        }
        attempt = attempt + 1;
    }
    Err(GenerateError::NoSatisfiablePuzzle { seed, attempts: MAX_ATTEMPTS })
}

} // verus!
