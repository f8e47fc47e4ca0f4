//! The fractal height-field generator: diamond-square midpoint displacement
//! over a square grid of side `2^n + 1`, carried in fixed-point integers and
//! rounded to non-negative elevations in `[0, size)` at the end.
//!
//! Heights are scaled by `HEIGHT_FP` while the algorithm runs. Perturbations
//! come in as fixed-point fractions in `[-HEIGHT_FP, HEIGHT_FP]`, standing
//! for the `2*rand - 1` factor; the amplitude `step^2 * roughness` scales
//! them at each level, with roughness `3/2500` (0.0012). Every written cell
//! is clamped into `[0, size * HEIGHT_FP)`, so the rounded result always
//! lies in `[0, size)`.

use vstd::prelude::*;

verus! {

use crate::geometry::{tdiv, tdiv_i64};
use crate::volume::rows_view;

/// Fixed-point scale of heights while the algorithm runs.
pub const HEIGHT_FP: i64 = 4096;

/// Largest accepted grid side; keeps all fixed-point arithmetic inside `i64`
/// and the grid inside memory.
pub const MAX_GRID: usize = 4097;

/// `2^n`.
pub open spec fn pow2(n: nat) -> nat
    decreases n,
{
    if n == 0 {
        1
    } else {
        2 * pow2((n - 1) as nat)
    }
}

/// A valid grid side: `2^n + 1` for some `n >= 1`.
pub open spec fn valid_grid_size(size: int) -> bool {
    exists|n: nat| 1 <= n && size == pow2(n) + 1
}

/// `pow2` grows strictly.
proof fn lemma_pow2_increases(a: nat, b: nat)
    requires
        a < b,
    ensures
        pow2(a) < pow2(b),
    decreases b,
{
    if a + 1 == b {
        assert(pow2(b) == 2 * pow2(a));
        assert(pow2(a) >= 1) by {
            lemma_pow2_pos(a);
        }
    } else {
        lemma_pow2_increases(a, (b - 1) as nat);
        assert(pow2(b) == 2 * pow2((b - 1) as nat));
    }
}

proof fn lemma_pow2_pos(n: nat)
    ensures
        pow2(n) >= 1,
    decreases n,
{
    if n > 0 {
        lemma_pow2_pos((n - 1) as nat);
    }
}

/// Whether `size` is a valid grid side, `2^n + 1` with `n >= 1`.
pub fn is_valid_grid_size(size: usize) -> (b: bool)
    requires
        size <= MAX_GRID,
    ensures
        b == valid_grid_size(size as int),
{
    proof {
        assert(pow2(0) == 1);
        assert(pow2(1) == 2);
    }
    if size < 3 {
        proof {
            if valid_grid_size(size as int) {
                let n = choose|n: nat| 1 <= n && size == pow2(n) + 1;
                if n > 1 {
                    lemma_pow2_increases(1, n);
                }
            }
        }
        return false;
    }
    let target: usize = size - 1;
    let mut k: usize = 2;
    let ghost mut j: nat = 1nat;
    while k < target
        invariant
            2 <= k,
            k <= 2 * target,
            target <= MAX_GRID,
            k == pow2(j),
            1 <= j,
            forall|m: nat| 1 <= m < j ==> pow2(m) < target,
        decreases 2 * target - k,
    {
        proof {
            assert forall|m: nat| 1 <= m < j + 1 implies pow2(m) < target by {
                if m < j {
                } else {
                    assert(m == j);
                }
            }
            j = j + 1;
        }
        k = k * 2;
    }
    if k == target {
        proof {
            assert(size == pow2(j) + 1);
        }
        true
    } else {
        proof {
            if valid_grid_size(size as int) {
                let n = choose|n: nat| 1 <= n && size == pow2(n) + 1;
                assert(pow2(n) == target);
                if n < j {
                    assert(pow2(n) < target);
                } else if n > j {
                    lemma_pow2_increases(j, n);
                }
            }
        }
        false
    }
}

/// Flat index of grid cell `(x, y)`: row `x`, column `y`.
pub open spec fn gidx(size: int, x: int, y: int) -> int {
    x * size + y
}

/// The value of grid cell `(x, y)`.
pub open spec fn gval(g: Seq<i64>, size: int, x: int, y: int) -> int {
    g[gidx(size, x, y)] as int
}

/// The grid buffer is the right size and every cell lies in
/// `[0, size * HEIGHT_FP)`.
pub open spec fn grid_ok(g: Seq<i64>, size: int) -> bool {
    &&& g.len() == size * size
    &&& forall|i: int| 0 <= i < g.len() ==> 0 <= #[trigger] g[i] < size * HEIGHT_FP
}

/// The `k`-th perturbation fraction, the sequence reused cyclically.
pub open spec fn pval(p: Seq<i64>, k: int) -> int {
    p[k % (p.len() as int)] as int
}

/// Each perturbation fraction stands for `2*rand - 1` in fixed point.
pub open spec fn perturb_ok(p: Seq<i64>) -> bool {
    p.len() > 0 && forall|i: int| 0 <= i < p.len() ==> -HEIGHT_FP <= #[trigger] p[i] <= HEIGHT_FP
}

/// The random displacement for one cell: the fraction `f` scaled by
/// `step^2 * 3 / 2500` (roughness 0.0012), truncated toward zero.
pub open spec fn delta_of(f: int, step: int) -> int {
    tdiv(f * (step * step) * 3, 2500)
}

/// Clamp a fixed-point height into `[0, size * HEIGHT_FP)`.
pub open spec fn clamp_h(v: int, size: int) -> int {
    if v < 0 {
        0
    } else if v >= size * HEIGHT_FP {
        size * HEIGHT_FP - 1
    } else {
        v
    }
}

/// One square step: the center of the square with top-left corner `(x, y)`
/// and side `step` becomes the clamped average of its 4 corners plus a
/// perturbation.
pub open spec fn sq_cell(
    g: Seq<i64>, p: Seq<i64>, k: int, size: int, step: int, x: int, y: int) -> (Seq<i64>, int) {
    let m = step / 2;
    let sum = gval(g, size, x, y) + gval(g, size, x + step, y)
        + gval(g, size, x + step, y + step) + gval(g, size, x, y + step);
    let v = clamp_h(sum / 4 + delta_of(pval(p, k), step), size);
    (g.update(gidx(size, x + m, y + m), v as i64), k + 1)
}

/// The square step applied down one column of squares.
pub open spec fn sq_row(
    g: Seq<i64>, p: Seq<i64>, k: int, size: int, step: int, x: int, y: int) -> (Seq<i64>, int)
    decreases size - y,
{
    if 0 < step && y + step < size {
        let (g2, k2) = sq_cell(g, p, k, size, step, x, y);
        sq_row(g2, p, k2, size, step, x, y + step)
    } else {
        (g, k)
    }
}

/// The square step applied to every square of side `step`.
pub open spec fn sq_pass(
    g: Seq<i64>, p: Seq<i64>, k: int, size: int, step: int, x: int) -> (Seq<i64>, int)
    decreases size - x,
{
    if 0 < step && x + step < size {
        let (g2, k2) = sq_row(g, p, k, size, step, x, 0);
        sq_pass(g2, p, k2, size, step, x + step)
    } else {
        (g, k)
    }
}

/// One diamond step of the row sweep: cell `(x, y)` becomes the clamped
/// average of its 2, 3 or 4 existing axis neighbors at distance `step / 2`,
/// plus a perturbation.
pub open spec fn d1_cell(
    g: Seq<i64>, p: Seq<i64>, k: int, size: int, step: int, x: int, y: int) -> (Seq<i64>, int) {
    let m = step / 2;
    let base = gval(g, size, x - m, y) + gval(g, size, x + m, y);
    let sum3 = if y > 0 {
        base + gval(g, size, x, y - m)
    } else {
        base
    };
    let count3: int = if y > 0 {
        3
    } else {
        2
    };
    let sum4 = if y + m < size {
        sum3 + gval(g, size, x, y + m)
    } else {
        sum3
    };
    let count4: int = if y + m < size {
        count3 + 1
    } else {
        count3
    };
    let v = clamp_h(sum4 / count4 + delta_of(pval(p, k), step), size);
    (g.update(gidx(size, x, y), v as i64), k + 1)
}

/// The row sweep of the diamond step, down one column.
pub open spec fn d1_row(
    g: Seq<i64>, p: Seq<i64>, k: int, size: int, step: int, x: int, y: int) -> (Seq<i64>, int)
    decreases size + step - y,
{
    if 0 < step && y < size - 1 {
        let (g2, k2) = d1_cell(g, p, k, size, step, x, y);
        d1_row(g2, p, k2, size, step, x, y + step)
    } else {
        (g, k)
    }
}

/// The row sweep of the diamond step, over all columns.
pub open spec fn d1_pass(
    g: Seq<i64>, p: Seq<i64>, k: int, size: int, step: int, x: int) -> (Seq<i64>, int)
    decreases size + step - x,
{
    if 0 < step && x < size - step / 2 {
        let (g2, k2) = d1_row(g, p, k, size, step, x, 0);
        d1_pass(g2, p, k2, size, step, x + step)
    } else {
        (g, k)
    }
}

/// One diamond step of the column sweep, mirroring `d1_cell` with the axes
/// exchanged.
pub open spec fn d2_cell(
    g: Seq<i64>, p: Seq<i64>, k: int, size: int, step: int, x: int, y: int) -> (Seq<i64>, int) {
    let m = step / 2;
    let base = gval(g, size, x, y - m) + gval(g, size, x, y + m);
    let sum3 = if x > 0 {
        base + gval(g, size, x - m, y)
    } else {
        base
    };
    let count3: int = if x > 0 {
        3
    } else {
        2
    };
    let sum4 = if x + m < size {
        sum3 + gval(g, size, x + m, y)
    } else {
        sum3
    };
    let count4: int = if x + m < size {
        count3 + 1
    } else {
        count3
    };
    let v = clamp_h(sum4 / count4 + delta_of(pval(p, k), step), size);
    (g.update(gidx(size, x, y), v as i64), k + 1)
}

/// The column sweep of the diamond step, along one row.
pub open spec fn d2_row(
    g: Seq<i64>, p: Seq<i64>, k: int, size: int, step: int, x: int, y: int) -> (Seq<i64>, int)
    decreases size + step - x,
{
    if 0 < step && x < size - 1 {
        let (g2, k2) = d2_cell(g, p, k, size, step, x, y);
        d2_row(g2, p, k2, size, step, x + step, y)
    } else {
        (g, k)
    }
}

/// The column sweep of the diamond step, over all rows.
pub open spec fn d2_pass(
    g: Seq<i64>, p: Seq<i64>, k: int, size: int, step: int, y: int) -> (Seq<i64>, int)
    decreases size + step - y,
{
    if 0 < step && y < size - step / 2 {
        let (g2, k2) = d2_row(g, p, k, size, step, 0, y);
        d2_pass(g2, p, k2, size, step, y + step)
    } else {
        (g, k)
    }
}

/// One level of diamond-square: the square step, then the two diamond
/// sweeps, all at the same `step`.
pub open spec fn ds_level(
    g: Seq<i64>, p: Seq<i64>, k: int, size: int, step: int) -> (Seq<i64>, int) {
    let m = step / 2;
    let (g1, k1) = sq_pass(g, p, k, size, step, 0);
    let (g2, k2) = d1_pass(g1, p, k1, size, step, m);
    d2_pass(g2, p, k2, size, step, m)
}

/// All levels of diamond-square, halving `step` until it reaches 1.
pub open spec fn ds_all(
    g: Seq<i64>, p: Seq<i64>, k: int, size: int, step: int) -> (Seq<i64>, int)
    decreases step,
{
    if step > 1 {
        let (g2, k2) = ds_level(g, p, k, size, step);
        ds_all(g2, p, k2, size, step / 2)
    } else {
        (g, k)
    }
}

/// The starting grid: every cell at the seed value `size / 2`, in fixed
/// point.
pub open spec fn init_grid(size: int) -> Seq<i64> {
    Seq::new((size * size) as nat, |i: int| (size * (HEIGHT_FP / 2)) as i64)
}

/// Round a fixed-point height to the nearest integer and clamp it into
/// `[0, size)`.
pub open spec fn round_cell(v: int, size: int) -> usize {
    let r = if v < 0 {
        0
    } else {
        (v + (HEIGHT_FP as int) / 2) / (HEIGHT_FP as int)
    };
    if r >= size {
        (size - 1) as usize
    } else {
        r as usize
    }
}

/// The rounded `size x size` height grid.
pub open spec fn rounded(g: Seq<i64>, size: int) -> Seq<Seq<usize>> {
    Seq::new(size as nat, |i: int| Seq::new(size as nat, |j: int| round_cell(gval(g, size, i, j), size)))
}

/// The whole generator, as a function of the grid side and the perturbation
/// fractions.
pub open spec fn gen_spec(size: int, p: Seq<i64>) -> Seq<Seq<usize>> {
    rounded(ds_all(init_grid(size), p, 0, size, size - 1).0, size)
}

/// A flat grid index is inside the buffer.
proof fn lemma_gidx_bound(size: int, x: int, y: int)
    requires
        0 <= x < size,
        0 <= y < size,
    ensures
        0 <= x * size + y < size * size,
{
    assert(0 <= x * size + y < size * size) by (nonlinear_arith)
        requires
            0 <= x < size,
            0 <= y < size,
    ;
}

/// Stepping the cyclic perturbation cursor matches incrementing the counter.
proof fn lemma_mod_step(k: int, len: int)
    requires
        0 <= k,
        0 < len,
    ensures
        (k + 1) % len == if k % len + 1 == len {
            0int
        } else {
            k % len + 1
        },
{
    vstd::arithmetic::div_mod::lemma_fundamental_div_mod(k, len);
    vstd::arithmetic::div_mod::lemma_mod_bound(k, len);
    let q = k / len;
    let r = k % len;
    if r + 1 == len {
        assert(k + 1 == (q + 1) * len + 0) by (nonlinear_arith)
            requires
                k == len * q + r,
                r + 1 == len,
        ;
        vstd::arithmetic::div_mod::lemma_fundamental_div_mod_converse_mod(k + 1, len, q + 1, 0);
    } else {
        assert(k + 1 == q * len + (r + 1)) by (nonlinear_arith)
            requires
                k == len * q + r,
        ;
        vstd::arithmetic::div_mod::lemma_fundamental_div_mod_converse_mod(k + 1, len, q, r + 1);
    }
}

/// A valid grid side is at least 3.
proof fn lemma_valid_size_ge_3(size: int)
    requires
        valid_grid_size(size),
    ensures
        size >= 3,
{
    let n = choose|n: nat| 1 <= n && size == pow2(n) + 1;
    assert(pow2(0) == 1);
    assert(pow2(1) == 2);
    if n > 1 {
        lemma_pow2_increases(1, n);
    }
}

/// The clamped fixed-point value one midpoint write stores: the average
/// `sum / count` plus the perturbation for `f`, clamped into range.
#[verifier::loop_isolation(false)]
fn write_value(sum: i64, count: i64, f: i64, step: usize, size: usize) -> (v: i64)
    requires
        0 <= sum < 4 * ((size as int) * (HEIGHT_FP as int)),
        1 <= count <= 4,
        -HEIGHT_FP <= f <= HEIGHT_FP,
        2 <= step <= size,
        size <= MAX_GRID,
    ensures
        v == clamp_h((sum as int) / (count as int) + delta_of(f as int, step as int), size as int),
        0 <= v < (size as int) * (HEIGHT_FP as int),
{
    proof {
        assert((size as int) * (HEIGHT_FP as int) <= (MAX_GRID as int) * (HEIGHT_FP as int))
            by (nonlinear_arith)
            requires
                size <= MAX_GRID,
        ;
        assert(0 <= (step as int) * (step as int) <= MAX_GRID * MAX_GRID) by (nonlinear_arith)
            requires
                0 <= step <= MAX_GRID,
        ;
    }
    let avg: i64 = tdiv_i64(sum, count);
    proof {
        assert(tdiv(sum as int, count as int) == (sum as int) / (count as int));
        vstd::arithmetic::div_mod::lemma_div_pos_is_pos(sum as int, count as int);
        vstd::arithmetic::div_mod::lemma_div_is_ordered(
            sum as int, 4 * ((size as int) * (HEIGHT_FP as int)), count as int);
        vstd::arithmetic::div_mod::lemma_div_is_ordered_by_denominator(
            4 * ((size as int) * (HEIGHT_FP as int)), 1, count as int);
    }
    proof {
        assert(0 <= (step as int) * (step as int) <= 0x100_2001) by (nonlinear_arith)
            requires
                0 <= step <= 4097,
        ;
    }
    let sq: i64 = (step as i64) * (step as i64);
    proof {
        assert(-0x1_0020_0100_0000 <= f * (sq as int) <= 0x1_0020_0100_0000) by (nonlinear_arith)
            requires
                -HEIGHT_FP <= f <= HEIGHT_FP,
                0 <= sq <= 0x100_2001,
                HEIGHT_FP == 4096,
        ;
    }
    let num3: i64 = f * sq;
    let num: i64 = num3 * 3;
    let dlt: i64 = tdiv_i64(num, 2500);
    proof {
        assert(num == f * ((step as int) * (step as int)) * 3) by (nonlinear_arith)
            requires
                sq == (step as int) * (step as int),
                num3 == f * (sq as int),
                num == num3 * 3,
        ;
        assert(dlt == delta_of(f as int, step as int));
        lemma_tdiv_small(num as int, 2500);
    }
    let v: i64 = avg + dlt;
    let cap: i64 = (size as i64) * HEIGHT_FP;
    if v < 0 {
        0
    } else if v >= cap {
        cap - 1
    } else {
        v
    }
}

/// A truncating quotient never exceeds the dividend in magnitude.
proof fn lemma_tdiv_small(a: int, b: int)
    requires
        1 <= b,
    ensures
        -(if a >= 0 { a } else { -a }) <= tdiv(a, b) <= if a >= 0 { a } else { -a },
{
    if a >= 0 {
        vstd::arithmetic::div_mod::lemma_div_pos_is_pos(a, b);
        vstd::arithmetic::div_mod::lemma_div_is_ordered_by_denominator(a, 1, b);
        vstd::arithmetic::div_mod::lemma_div_basics(a);
    } else {
        vstd::arithmetic::div_mod::lemma_div_pos_is_pos(-a, b);
        vstd::arithmetic::div_mod::lemma_div_is_ordered_by_denominator(-a, 1, b);
        vstd::arithmetic::div_mod::lemma_div_basics(-a);
    }
}

/// Advance the cyclic perturbation cursor.
fn step_cursor(c: usize, p: &Vec<i64>, Ghost(k): Ghost<int>) -> (c2: usize)
    requires
        p@.len() > 0,
        0 <= k,
        c == k % (p@.len() as int),
    ensures
        c2 == (k + 1) % (p@.len() as int),
{
    proof {
        vstd::arithmetic::div_mod::lemma_mod_bound(k, p@.len() as int);
        lemma_mod_step(k, p@.len() as int);
    }
    let n = p.len();
    assert(c < n);
    if c + 1 == n {
        0
    } else {
        c + 1
    }
}

/// One square-step midpoint write.
#[verifier::loop_isolation(false)]
fn sq_cell_exec(
    g: &mut Vec<i64>, p: &Vec<i64>, c: usize, Ghost(k): Ghost<int>,
    size: usize, step: usize, x: usize, y: usize) -> (res: (usize, Ghost<int>))
    requires
        grid_ok(old(g)@, size as int),
        perturb_ok(p@),
        size <= MAX_GRID,
        2 <= step <= size,
        0 <= k,
        c == k % (p@.len() as int),
        x + step < size,
        y + step < size,
    ensures
        grid_ok(final(g)@, size as int),
        (final(g)@, res.1@) == sq_cell(old(g)@, p@, k, size as int, step as int, x as int, y as int),
        res.1@ >= 0,
        res.0 == res.1@ % (p@.len() as int),
{
    let m = step / 2;
    proof {
        lemma_gidx_bound(size as int, x as int, y as int);
        lemma_gidx_bound(size as int, (x + step) as int, y as int);
        lemma_gidx_bound(size as int, (x + step) as int, (y + step) as int);
        lemma_gidx_bound(size as int, x as int, (y + step) as int);
        lemma_gidx_bound(size as int, (x + m) as int, (y + m) as int);
        assert(size * size <= MAX_GRID * MAX_GRID <= usize::MAX) by (nonlinear_arith)
            requires
                size <= MAX_GRID,
        ;
    }
    let a = g[x * size + y];
    let b = g[(x + step) * size + y];
    let cc = g[(x + step) * size + (y + step)];
    let d = g[x * size + (y + step)];
    let sum = a + b + cc + d;
    let f = p[c];
    let v = write_value(sum, 4, f, step, size);
    g.set((x + m) * size + (y + m), v);
    let c2 = step_cursor(c, p, Ghost(k));
    proof {
        assert((g@, k + 1) == sq_cell(
            old(g)@, p@, k, size as int, step as int, x as int, y as int)) by {
            assert(g@ =~= sq_cell(
                old(g)@, p@, k, size as int, step as int, x as int, y as int).0);
        }
    }
    (c2, Ghost(k + 1))
}

/// One diamond-step write of the row sweep.
#[verifier::loop_isolation(false)]
fn d1_cell_exec(
    g: &mut Vec<i64>, p: &Vec<i64>, c: usize, Ghost(k): Ghost<int>,
    size: usize, step: usize, x: usize, y: usize) -> (res: (usize, Ghost<int>))
    requires
        grid_ok(old(g)@, size as int),
        perturb_ok(p@),
        size <= MAX_GRID,
        2 <= step <= size,
        0 <= k,
        c == k % (p@.len() as int),
        step / 2 <= x,
        x + step / 2 < size,
        y < size,
        y == 0 || y >= step,
    ensures
        grid_ok(final(g)@, size as int),
        (final(g)@, res.1@) == d1_cell(old(g)@, p@, k, size as int, step as int, x as int, y as int),
        res.1@ >= 0,
        res.0 == res.1@ % (p@.len() as int),
{
    let m = step / 2;
    proof {
        lemma_gidx_bound(size as int, (x - m) as int, y as int);
        lemma_gidx_bound(size as int, (x + m) as int, y as int);
        lemma_gidx_bound(size as int, x as int, y as int);
        assert(size * size <= MAX_GRID * MAX_GRID <= usize::MAX) by (nonlinear_arith)
            requires
                size <= MAX_GRID,
        ;
    }
    let mut sum = g[(x - m) * size + y] + g[(x + m) * size + y];
    let mut count: i64 = 2;
    if y > 0 {
        proof {
            lemma_gidx_bound(size as int, x as int, (y - m) as int);
        }
        sum = sum + g[x * size + (y - m)];
        count = count + 1;
    }
    if y + m < size {
        proof {
            lemma_gidx_bound(size as int, x as int, (y + m) as int);
        }
        sum = sum + g[x * size + (y + m)];
        count = count + 1;
    }
    let f = p[c];
    let v = write_value(sum, count, f, step, size);
    g.set(x * size + y, v);
    let c2 = step_cursor(c, p, Ghost(k));
    proof {
        assert((g@, k + 1) == d1_cell(
            old(g)@, p@, k, size as int, step as int, x as int, y as int)) by {
            assert(g@ =~= d1_cell(
                old(g)@, p@, k, size as int, step as int, x as int, y as int).0);
        }
    }
    (c2, Ghost(k + 1))
}

/// One diamond-step write of the column sweep.
#[verifier::loop_isolation(false)]
fn d2_cell_exec(
    g: &mut Vec<i64>, p: &Vec<i64>, c: usize, Ghost(k): Ghost<int>,
    size: usize, step: usize, x: usize, y: usize) -> (res: (usize, Ghost<int>))
    requires
        grid_ok(old(g)@, size as int),
        perturb_ok(p@),
        size <= MAX_GRID,
        2 <= step <= size,
        0 <= k,
        c == k % (p@.len() as int),
        step / 2 <= y,
        y + step / 2 < size,
        x < size,
        x == 0 || x >= step,
    ensures
        grid_ok(final(g)@, size as int),
        (final(g)@, res.1@) == d2_cell(old(g)@, p@, k, size as int, step as int, x as int, y as int),
        res.1@ >= 0,
        res.0 == res.1@ % (p@.len() as int),
{
    let m = step / 2;
    proof {
        lemma_gidx_bound(size as int, x as int, (y - m) as int);
        lemma_gidx_bound(size as int, x as int, (y + m) as int);
        lemma_gidx_bound(size as int, x as int, y as int);
        assert(size * size <= MAX_GRID * MAX_GRID <= usize::MAX) by (nonlinear_arith)
            requires
                size <= MAX_GRID,
        ;
    }
    let mut sum = g[x * size + (y - m)] + g[x * size + (y + m)];
    let mut count: i64 = 2;
    if x > 0 {
        proof {
            lemma_gidx_bound(size as int, (x - m) as int, y as int);
        }
        sum = sum + g[(x - m) * size + y];
        count = count + 1;
    }
    if x + m < size {
        proof {
            lemma_gidx_bound(size as int, (x + m) as int, y as int);
        }
        sum = sum + g[(x + m) * size + y];
        count = count + 1;
    }
    let f = p[c];
    let v = write_value(sum, count, f, step, size);
    g.set(x * size + y, v);
    let c2 = step_cursor(c, p, Ghost(k));
    proof {
        assert((g@, k + 1) == d2_cell(
            old(g)@, p@, k, size as int, step as int, x as int, y as int)) by {
            assert(g@ =~= d2_cell(
                old(g)@, p@, k, size as int, step as int, x as int, y as int).0);
        }
    }
    (c2, Ghost(k + 1))
}

/// The square step down one column of squares.
fn sq_row_exec(
    g: &mut Vec<i64>, p: &Vec<i64>, c: usize, Ghost(k): Ghost<int>,
    size: usize, step: usize, x: usize, y: usize) -> (res: (usize, Ghost<int>))
    requires
        grid_ok(old(g)@, size as int),
        perturb_ok(p@),
        size <= MAX_GRID,
        2 <= step <= size,
        0 <= k,
        c == k % (p@.len() as int),
        x + step < size,
        y <= size,
    ensures
        grid_ok(final(g)@, size as int),
        (final(g)@, res.1@) == sq_row(old(g)@, p@, k, size as int, step as int, x as int, y as int),
        res.1@ >= 0,
        res.0 == res.1@ % (p@.len() as int),
    decreases size - y,
{
    if y + step < size {
        let (c2, g_k2) = sq_cell_exec(g, p, c, Ghost(k), size, step, x, y);
        sq_row_exec(g, p, c2, Ghost(g_k2@), size, step, x, y + step)
    } else {
        (c, Ghost(k))
    }
}

/// The square step over every square of side `step`.
fn sq_pass_exec(
    g: &mut Vec<i64>, p: &Vec<i64>, c: usize, Ghost(k): Ghost<int>,
    size: usize, step: usize, x: usize) -> (res: (usize, Ghost<int>))
    requires
        grid_ok(old(g)@, size as int),
        perturb_ok(p@),
        size <= MAX_GRID,
        2 <= step <= size,
        0 <= k,
        c == k % (p@.len() as int),
        x <= size,
    ensures
        grid_ok(final(g)@, size as int),
        (final(g)@, res.1@) == sq_pass(old(g)@, p@, k, size as int, step as int, x as int),
        res.1@ >= 0,
        res.0 == res.1@ % (p@.len() as int),
    decreases size - x,
{
    if x + step < size {
        let (c2, g_k2) = sq_row_exec(g, p, c, Ghost(k), size, step, x, 0);
        sq_pass_exec(g, p, c2, Ghost(g_k2@), size, step, x + step)
    } else {
        (c, Ghost(k))
    }
}

/// The row sweep of the diamond step, down one column.
fn d1_row_exec(
    g: &mut Vec<i64>, p: &Vec<i64>, c: usize, Ghost(k): Ghost<int>,
    size: usize, step: usize, x: usize, y: usize) -> (res: (usize, Ghost<int>))
    requires
        grid_ok(old(g)@, size as int),
        perturb_ok(p@),
        size <= MAX_GRID,
        2 <= step <= size,
        0 <= k,
        c == k % (p@.len() as int),
        step / 2 <= x,
        x + step / 2 < size,
        y == 0 || y >= step,
    ensures
        grid_ok(final(g)@, size as int),
        (final(g)@, res.1@) == d1_row(old(g)@, p@, k, size as int, step as int, x as int, y as int),
        res.1@ >= 0,
        res.0 == res.1@ % (p@.len() as int),
    decreases size + step - y,
{
    if y < size - 1 {
        let (c2, g_k2) = d1_cell_exec(g, p, c, Ghost(k), size, step, x, y);
        d1_row_exec(g, p, c2, Ghost(g_k2@), size, step, x, y + step)
    } else {
        (c, Ghost(k))
    }
}

/// The row sweep of the diamond step, over all columns.
fn d1_pass_exec(
    g: &mut Vec<i64>, p: &Vec<i64>, c: usize, Ghost(k): Ghost<int>,
    size: usize, step: usize, x: usize) -> (res: (usize, Ghost<int>))
    requires
        grid_ok(old(g)@, size as int),
        perturb_ok(p@),
        size <= MAX_GRID,
        2 <= step <= size,
        0 <= k,
        c == k % (p@.len() as int),
        step / 2 <= x,
    ensures
        grid_ok(final(g)@, size as int),
        (final(g)@, res.1@) == d1_pass(old(g)@, p@, k, size as int, step as int, x as int),
        res.1@ >= 0,
        res.0 == res.1@ % (p@.len() as int),
    decreases size + step - x,
{
    if x < size - step / 2 {
        let (c2, g_k2) = d1_row_exec(g, p, c, Ghost(k), size, step, x, 0);
        d1_pass_exec(g, p, c2, Ghost(g_k2@), size, step, x + step)
    } else {
        (c, Ghost(k))
    }
}

/// The column sweep of the diamond step, along one row.
fn d2_row_exec(
    g: &mut Vec<i64>, p: &Vec<i64>, c: usize, Ghost(k): Ghost<int>,
    size: usize, step: usize, x: usize, y: usize) -> (res: (usize, Ghost<int>))
    requires
        grid_ok(old(g)@, size as int),
        perturb_ok(p@),
        size <= MAX_GRID,
        2 <= step <= size,
        0 <= k,
        c == k % (p@.len() as int),
        step / 2 <= y,
        y + step / 2 < size,
        x == 0 || x >= step,
    ensures
        grid_ok(final(g)@, size as int),
        (final(g)@, res.1@) == d2_row(old(g)@, p@, k, size as int, step as int, x as int, y as int),
        res.1@ >= 0,
        res.0 == res.1@ % (p@.len() as int),
    decreases size + step - x,
{
    if x < size - 1 {
        let (c2, g_k2) = d2_cell_exec(g, p, c, Ghost(k), size, step, x, y);
        d2_row_exec(g, p, c2, Ghost(g_k2@), size, step, x + step, y)
    } else {
        (c, Ghost(k))
    }
}

/// The column sweep of the diamond step, over all rows.
fn d2_pass_exec(
    g: &mut Vec<i64>, p: &Vec<i64>, c: usize, Ghost(k): Ghost<int>,
    size: usize, step: usize, y: usize) -> (res: (usize, Ghost<int>))
    requires
        grid_ok(old(g)@, size as int),
        perturb_ok(p@),
        size <= MAX_GRID,
        2 <= step <= size,
        0 <= k,
        c == k % (p@.len() as int),
        step / 2 <= y,
    ensures
        grid_ok(final(g)@, size as int),
        (final(g)@, res.1@) == d2_pass(old(g)@, p@, k, size as int, step as int, y as int),
        res.1@ >= 0,
        res.0 == res.1@ % (p@.len() as int),
    decreases size + step - y,
{
    if y < size - step / 2 {
        let (c2, g_k2) = d2_row_exec(g, p, c, Ghost(k), size, step, 0, y);
        d2_pass_exec(g, p, c2, Ghost(g_k2@), size, step, y + step)
    } else {
        (c, Ghost(k))
    }
}

/// One full diamond-square level at side `step`.
fn ds_level_exec(
    g: &mut Vec<i64>, p: &Vec<i64>, c: usize, Ghost(k): Ghost<int>,
    size: usize, step: usize) -> (res: (usize, Ghost<int>))
    requires
        grid_ok(old(g)@, size as int),
        perturb_ok(p@),
        size <= MAX_GRID,
        2 <= step <= size,
        0 <= k,
        c == k % (p@.len() as int),
    ensures
        grid_ok(final(g)@, size as int),
        (final(g)@, res.1@) == ds_level(old(g)@, p@, k, size as int, step as int),
        res.1@ >= 0,
        res.0 == res.1@ % (p@.len() as int),
{
    let m = step / 2;
    let (c1, g_k1) = sq_pass_exec(g, p, c, Ghost(k), size, step, 0);
    let (c2, g_k2) = d1_pass_exec(g, p, c1, Ghost(g_k1@), size, step, m);
    d2_pass_exec(g, p, c2, Ghost(g_k2@), size, step, m)
}

/// Generate a height map of side `size` (which must be `2^n + 1`) from the
/// given perturbation fractions, reused cyclically: the result is exactly
/// `gen_spec(size, perturb)` -- the same inputs always give the same grid --
/// a square of side `size` whose every value lies in `[0, size)`.
#[verifier::loop_isolation(false)]
pub fn generate_hight_map_from(size: usize, perturb: &Vec<i64>) -> (r: Vec<Vec<usize>>)
    requires
        valid_grid_size(size as int),
        size <= MAX_GRID,
        perturb_ok(perturb@),
    ensures
        rows_view(r@) == gen_spec(size as int, perturb@),
        r@.len() == size,
        forall|i: int| 0 <= i < size ==> (#[trigger] r@[i])@.len() == size,
        forall|i: int, j: int|
            0 <= i < size && 0 <= j < size ==> (#[trigger] r@[i]@[j]) < size,
{
    proof {
        lemma_valid_size_ge_3(size as int);
        assert(size * size <= MAX_GRID * MAX_GRID <= usize::MAX) by (nonlinear_arith)
            requires
                size <= MAX_GRID,
        ;
        assert(0 <= size * (HEIGHT_FP as int / 2) < size * HEIGHT_FP) by (nonlinear_arith)
            requires
                3 <= size,
        ;
    }
    let total: usize = size * size;
    let seed: i64 = (size as i64) * (HEIGHT_FP / 2);
    let mut g: Vec<i64> = Vec::new();
    let mut i: usize = 0;
    while i < total
        invariant
            i <= total,
            g@.len() == i,
            forall|j: int| 0 <= j < i ==> #[trigger] g@[j] == seed,
        decreases total - i,
    {
        g.push(seed);
        i = i + 1;
    }
    proof {
        assert(g@ =~= init_grid(size as int));
        assert(grid_ok(g@, size as int));
    }
    let mut step: usize = size - 1;
    let mut c: usize = 0;
    let ghost mut k: int = 0;
    let ghost g0 = g@;
    while step > 1
        invariant
            grid_ok(g@, size as int),
            3 <= size,
            step <= size,
            0 <= k,
            c == k % (perturb@.len() as int),
            ds_all(g0, perturb@, 0, size as int, (size - 1) as int)
                == ds_all(g@, perturb@, k, size as int, step as int),
        decreases step,
    {
        let (c2, g_k2) = ds_level_exec(&mut g, perturb, c, Ghost(k), size, step);
        c = c2;
        proof {
            k = g_k2@;
        }
        step = step / 2;
    }
    proof {
        assert(ds_all(g@, perturb@, k, size as int, step as int) == (g@, k));
        assert(g@ == ds_all(g0, perturb@, 0, size as int, (size - 1) as int).0);
    }
    // round every cell to the nearest integer and clamp into [0, size)
    let mut out: Vec<Vec<usize>> = Vec::new();
    let mut x: usize = 0;
    while x < size
        invariant
            x <= size,
            out@.len() == x,
            forall|i2: int|
                0 <= i2 < x ==> (#[trigger] out@[i2])@
                    == rounded(g@, size as int)[i2],
        decreases size - x,
    {
        let mut row: Vec<usize> = Vec::new();
        let mut y: usize = 0;
        while y < size
            invariant
                x < size,
                y <= size,
                row@.len() == y,
                forall|j2: int|
                    0 <= j2 < y ==> #[trigger] row@[j2]
                        == round_cell(gval(g@, size as int, x as int, j2), size as int),
            decreases size - y,
        {
            proof {
                lemma_gidx_bound(size as int, x as int, y as int);
            }
            let v: i64 = g[x * size + y];
            let rv: i64 = (v + HEIGHT_FP / 2) / HEIGHT_FP;
            let cell: usize = if rv >= size as i64 {
                size - 1
            } else {
                rv as usize
            };
            proof {
                assert(v >= 0);
                vstd::arithmetic::div_mod::lemma_div_pos_is_pos(
                    v + (HEIGHT_FP as int) / 2, HEIGHT_FP as int);
                assert(cell == round_cell(gval(g@, size as int, x as int, y as int), size as int));
            }
            row.push(cell);
            y = y + 1;
        }
        proof {
            assert(row@ =~= rounded(g@, size as int)[x as int]);
        }
        out.push(row);
        x = x + 1;
    }
    proof {
        assert(rows_view(out@) =~= rounded(g@, size as int));
        assert forall|i2: int, j2: int|
            0 <= i2 < size && 0 <= j2 < size implies (#[trigger] out@[i2]@[j2]) < size by {
            assert(out@[i2]@[j2] == rounded(g@, size as int)[i2][j2]);
        }
    }
    out
}

/// Determinism: the generator is a function of the grid side and the
/// perturbation sequence alone, so the same seeded sequence reproduces the
/// same grid, value for value.
pub proof fn lemma_generate_deterministic(size: int, p1: Seq<i64>, p2: Seq<i64>)
    requires
        p1 == p2,
    ensures
        gen_spec(size, p1) == gen_spec(size, p2),
{
}

/// Relies on rand::random: a uniformly random value from the thread-local
/// generator; nothing is promised of it.
#[verifier::external_body]
fn random_u64() -> u64 {
    rand::random::<u64>()
}

/// Generate a height map of side `size` (which must be `2^n + 1`) with fresh
/// random perturbations: whatever the random source returns, the result is a
/// square of side `size` whose every value lies in `[0, size)`, and equals
/// `gen_spec` of some perturbation sequence.
#[verifier::loop_isolation(false)]
pub fn generate_hight_map(size: usize) -> (r: Vec<Vec<usize>>)
    requires
        valid_grid_size(size as int),
        size <= MAX_GRID,
    ensures
        r@.len() == size,
        forall|i: int| 0 <= i < size ==> (#[trigger] r@[i])@.len() == size,
        forall|i: int, j: int|
            0 <= i < size && 0 <= j < size ==> (#[trigger] r@[i]@[j]) < size,
        exists|p: Seq<i64>| #[trigger] perturb_ok(p) && rows_view(r@) == gen_spec(size as int, p),
{
    proof {
        lemma_valid_size_ge_3(size as int);
        assert(4 * (size * size) <= 4 * (MAX_GRID * MAX_GRID) <= usize::MAX) by (nonlinear_arith)
            requires
                size <= MAX_GRID,
        ;
    }
    let n: usize = 4 * (size * size);
    proof {
        assert(n >= 1) by (nonlinear_arith)
            requires
                n == 4 * ((size as int) * (size as int)),
                size >= 3,
        ;
    }
    let mut perturb: Vec<i64> = Vec::new();
    let mut i: usize = 0;
    while i < n
        invariant
            i <= n,
            1 <= n,
            perturb@.len() == i,
            forall|j: int|
                0 <= j < i ==> -HEIGHT_FP <= #[trigger] perturb@[j] <= HEIGHT_FP,
        decreases n - i,
    {
        let raw = random_u64();
        let f: i64 = (raw % 8193) as i64 - HEIGHT_FP;
        perturb.push(f);
        i = i + 1;
    }
    let r = generate_hight_map_from(size, &perturb);
    proof {
        assert(perturb_ok(perturb@));
        assert(perturb_ok(perturb@) && rows_view(r@) == gen_spec(size as int, perturb@));
    }
    r
}

} // verus!
