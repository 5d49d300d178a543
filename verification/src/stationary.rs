//! Fixed-point arithmetic for the distance-weighted random walk: row
//! normalization of a weight matrix, repeated squaring of the transition
//! matrix, and the final row sums.
//!
//! Probabilities are carried as integers relative to [`PROB_SCALE`]: the
//! value `PROB_SCALE` stands for probability one.

use vstd::prelude::*;
use vstd::arithmetic::div_mod::lemma_fundamental_div_mod;
use vstd::arithmetic::div_mod::lemma_div_multiples_vanish;

verus! {

/// The fixed-point scale: this value stands for probability one.
pub const PROB_SCALE: u64 = 1000000;

/// The sum of the first `t` entries of a row.
pub open spec fn row_sum_upto(row: Seq<u64>, t: int) -> int
    decreases t,
{
    if t <= 0 {
        0
    } else {
        row_sum_upto(row, t - 1) + row[t - 1]
    }
}

/// The sum of a row.
pub open spec fn row_sum(row: Seq<u64>) -> int {
    row_sum_upto(row, row.len() as int)
}

/// Row sums grow with the prefix and bound each entry.
pub proof fn lemma_row_sum_mono(row: Seq<u64>, t1: int, t2: int)
    requires
        0 <= t1 <= t2 <= row.len(),
    ensures
        0 <= row_sum_upto(row, t1) <= row_sum_upto(row, t2),
    decreases t2,
{
    lemma_row_sum_nonneg(row, t1);
    if t2 > t1 {
        lemma_row_sum_mono(row, t1, t2 - 1);
    }
}

/// Prefix sums of a row are never negative.
pub proof fn lemma_row_sum_nonneg(row: Seq<u64>, t: int)
    ensures
        0 <= row_sum_upto(row, t),
    decreases t,
{
    if t > 0 {
        lemma_row_sum_nonneg(row, t - 1);
    }
}

/// Each entry of a row is bounded by the full row sum.
pub proof fn lemma_entry_le_sum(row: Seq<u64>, j: int)
    requires
        0 <= j < row.len(),
    ensures
        row[j] <= row_sum(row),
{
    lemma_row_sum_mono(row, 0, j);
    lemma_row_sum_mono(row, j + 1, row.len() as int);
    assert(row_sum_upto(row, j + 1) == row_sum_upto(row, j) + row[j]);
}

/// The first position of a non-zero entry at or after `t`, or the row
/// length when there is none.
pub open spec fn first_nonzero(row: Seq<u64>, t: int) -> int
    decreases row.len() - t,
{
    if t < 0 || t >= row.len() {
        row.len() as int
    } else if row[t] > 0 {
        t
    } else {
        first_nonzero(row, t + 1)
    }
}

/// A row with a positive sum has a first non-zero entry.
pub proof fn lemma_first_nonzero_props(row: Seq<u64>, t: int)
    requires
        0 <= t <= row.len(),
    ensures
        t <= first_nonzero(row, t) <= row.len(),
        first_nonzero(row, t) < row.len() ==> row[first_nonzero(row, t)] > 0,
        forall|u: int| t <= u < first_nonzero(row, t) ==> row[u] == 0,
        first_nonzero(row, t) == row.len() ==> row_sum_upto(row, row.len() as int)
            == row_sum_upto(row, t),
    decreases row.len() - t,
{
    if t < row.len() && row[t] == 0 {
        lemma_first_nonzero_props(row, t + 1);
    }
}

/// The scaled, floored shares of a row relative to its sum.
pub open spec fn base_shares(row: Seq<u64>) -> Seq<u64> {
    Seq::new(row.len(), |j: int| ((row[j] * PROB_SCALE) / row_sum(row)) as u64)
}

/// One normalized transition row: each entry is its weight's share of the
/// scale, with the rounding deficit given to the first non-zero weight so
/// that the row sums exactly to the scale.  A row with no weight stays
/// zero.
pub open spec fn norm_row(row: Seq<u64>) -> Seq<u64> {
    if row_sum(row) == 0 {
        Seq::new(row.len(), |j: int| 0u64)
    } else {
        let base = base_shares(row);
        let f = first_nonzero(row, 0);
        base.update(f, (base[f] + (PROB_SCALE - row_sum_upto(base, base.len() as int))) as u64)
    }
}

/// The normalized form of every row of a weight matrix.
pub open spec fn norm_mat(w: Seq<Seq<u64>>) -> Seq<Seq<u64>> {
    Seq::new(w.len(), |i: int| norm_row(w[i]))
}

/// The partial dot product of a row with a column of a matrix.
pub open spec fn dot_upto(a: Seq<u64>, m: Seq<Seq<u64>>, j: int, k: int) -> int
    decreases k,
{
    if k <= 0 {
        0
    } else {
        dot_upto(a, m, j, k - 1) + a[k - 1] * m[k - 1][j]
    }
}

/// One entry of the fixed-point matrix square.
pub open spec fn sq_entry(m: Seq<Seq<u64>>, i: int, j: int) -> int {
    dot_upto(m[i], m, j, m.len() as int) / (PROB_SCALE as int)
}

/// The fixed-point square of a transition matrix.
pub open spec fn mat_sq(m: Seq<Seq<u64>>) -> Seq<Seq<u64>> {
    Seq::new(m.len(), |i: int| Seq::new(m.len(), |j: int| sq_entry(m, i, j) as u64))
}

/// The matrix after squaring `steps` times.
pub open spec fn mat_iter_sq(m: Seq<Seq<u64>>, steps: nat) -> Seq<Seq<u64>>
    decreases steps,
{
    if steps == 0 {
        m
    } else {
        mat_iter_sq(mat_sq(m), (steps - 1) as nat)
    }
}

/// The row sums of a matrix.
pub open spec fn row_sums(m: Seq<Seq<u64>>) -> Seq<u64> {
    Seq::new(m.len(), |i: int| row_sum(m[i]) as u64)
}

/// The stationary estimate for a weight matrix: normalize the rows, square
/// the result `steps` times, and take the row sums.
pub open spec fn stationary_spec(w: Seq<Seq<u64>>, steps: nat) -> Seq<u64> {
    row_sums(mat_iter_sq(norm_mat(w), steps))
}

/// A square matrix of bounded rows: every row has `n` entries and sums to
/// at most the scale.
pub open spec fn mat_ok(m: Seq<Seq<u64>>, n: int) -> bool {
    &&& m.len() == n
    &&& forall|i: int| 0 <= i < n ==> (#[trigger] m[i]).len() == n
    &&& forall|i: int| 0 <= i < n ==> row_sum(#[trigger] m[i]) <= PROB_SCALE
}

/// Dividing a larger sum cannot give a smaller quotient.
pub proof fn lemma_div_ordered(a: int, b: int, s: int)
    requires
        0 <= a <= b,
        0 < s,
    ensures
        a / s <= b / s,
{
    lemma_fundamental_div_mod(a, s);
    lemma_fundamental_div_mod(b, s);
    assert(s * (a / s) + (a % s) <= s * (b / s) + (b % s));
    if a / s > b / s {
        assert(s * (a / s) >= s * (b / s) + s) by (nonlinear_arith)
            requires
                0 < s,
                a / s >= b / s + 1,
        ;
    }
}

/// A non-negative value shrinks (weakly) under division by a positive
/// divisor.
pub proof fn lemma_div_le_self(a: int, s: int)
    requires
        0 <= a,
        1 <= s,
    ensures
        0 <= a / s <= a,
{
    lemma_fundamental_div_mod(a, s);
    assert(0 <= a / s && a / s <= a) by (nonlinear_arith)
        requires
            a == s * (a / s) + (a % s),
            0 <= a % s < s,
            1 <= s,
            0 <= a,
    ;
}

/// Sums distribute over pointwise addition of two rows.
pub proof fn lemma_row_sum_add(a: Seq<u64>, b: Seq<u64>, c: Seq<int>, t: int)
    requires
        0 <= t <= a.len(),
        a.len() == b.len(),
        c.len() == a.len(),
        forall|j: int| 0 <= j < a.len() ==> #[trigger] c[j] == a[j] + b[j],
    ensures
        sum_int_upto(c, t) == row_sum_upto(a, t) + row_sum_upto(b, t),
    decreases t,
{
    if t > 0 {
        lemma_row_sum_add(a, b, c, t - 1);
    }
}

/// The sum of the first `t` entries of an integer row.
pub open spec fn sum_int_upto(c: Seq<int>, t: int) -> int
    decreases t,
{
    if t <= 0 {
        0
    } else {
        sum_int_upto(c, t - 1) + c[t - 1]
    }
}

/// A row scaled by a constant sums to the scaled sum.
pub proof fn lemma_row_sum_scale(row: Seq<u64>, x: int, c: Seq<int>, t: int)
    requires
        0 <= t <= row.len(),
        c.len() == row.len(),
        forall|j: int| 0 <= j < row.len() ==> #[trigger] c[j] == x * row[j],
    ensures
        sum_int_upto(c, t) == x * row_sum_upto(row, t),
    decreases t,
{
    if t == 0 {
        assert(x * row_sum_upto(row, 0) == 0) by (nonlinear_arith);
    } else {
        lemma_row_sum_scale(row, x, c, t - 1);
        assert(x * (row_sum_upto(row, t - 1) + row[t - 1]) == x * row_sum_upto(row, t - 1) + x
            * row[t - 1]) by (nonlinear_arith);
    }
}

/// Exchanging the order of summation: the total of the dot products over a
/// whole row equals the weights paired with the row sums of the matrix.
pub proof fn lemma_dot_exchange(a: Seq<u64>, m: Seq<Seq<u64>>, n: int, k: int)
    requires
        0 <= n,
        a.len() == n,
        m.len() == n,
        forall|i: int| 0 <= i < n ==> (#[trigger] m[i]).len() == n,
        0 <= k <= n,
    ensures
        sum_int_upto(Seq::new(n as nat, |j: int| dot_upto(a, m, j, k)), n) == sum_int_upto(
            Seq::new(n as nat, |i: int| (a[i] * row_sum(m[i])) as int),
            k,
        ),
    decreases k,
{
    let dots_k = Seq::new(n as nat, |j: int| dot_upto(a, m, j, k));
    if k == 0 {
        lemma_sum_int_zero(dots_k, n);
    } else {
        lemma_dot_exchange(a, m, n, k - 1);
        let dots_prev = Seq::new(n as nat, |j: int| dot_upto(a, m, j, k - 1));
        let last_terms = Seq::new(n as nat, |j: int| (a[k - 1] * m[k - 1][j]) as int);
        assert forall|j: int| 0 <= j < n implies #[trigger] dots_k[j] == dots_prev[j]
            + last_terms[j] by {}
        lemma_sum_int_add(dots_prev, last_terms, dots_k, n);
        lemma_row_sum_scale(m[k - 1], a[k - 1] as int, last_terms, n);
    }
}

/// A row of zeros sums to zero.
pub proof fn lemma_sum_int_zero(c: Seq<int>, t: int)
    requires
        0 <= t <= c.len(),
        forall|j: int| 0 <= j < c.len() ==> #[trigger] c[j] == 0,
    ensures
        sum_int_upto(c, t) == 0,
    decreases t,
{
    if t > 0 {
        lemma_sum_int_zero(c, t - 1);
    }
}

/// Sums of integer rows distribute over pointwise addition.
pub proof fn lemma_sum_int_add(a: Seq<int>, b: Seq<int>, c: Seq<int>, t: int)
    requires
        0 <= t <= a.len(),
        a.len() == b.len(),
        c.len() == a.len(),
        forall|j: int| 0 <= j < a.len() ==> #[trigger] c[j] == a[j] + b[j],
    ensures
        sum_int_upto(c, t) == sum_int_upto(a, t) + sum_int_upto(b, t),
    decreases t,
{
    if t > 0 {
        lemma_sum_int_add(a, b, c, t - 1);
    }
}

/// A sum of floors is bounded by the floor of the sum, entry by entry over
/// a row of non-negative dot products.
pub proof fn lemma_sum_floor_div(c: Seq<int>, s: int, t: int)
    requires
        0 < s,
        0 <= t <= c.len(),
        forall|j: int| 0 <= j < c.len() ==> 0 <= #[trigger] c[j] <= u64::MAX,
    ensures
        row_sum_upto(Seq::new(c.len(), |j: int| (c[j] / s) as u64), t) <= sum_int_upto(c, t) / s,
        sum_int_upto(c, t) >= 0,
    decreases t,
{
    let q = Seq::new(c.len(), |j: int| (c[j] / s) as u64);
    if t == 0 {
    } else {
        lemma_sum_floor_div(c, s, t - 1);
        let a = sum_int_upto(c, t - 1);
        let b = c[t - 1];
        lemma_fundamental_div_mod(a, s);
        lemma_fundamental_div_mod(b, s);
        lemma_fundamental_div_mod(a + b, s);
        assert(0 <= b / s <= b) by (nonlinear_arith)
            requires
                0 < s,
                b >= 0,
                b == s * (b / s) + (b % s),
                0 <= b % s < s,
        ;
        assert(a / s + b / s <= (a + b) / s) by (nonlinear_arith)
            requires
                0 < s,
                a >= 0,
                b >= 0,
                a == s * (a / s) + (a % s),
                b == s * (b / s) + (b % s),
                a + b == s * ((a + b) / s) + ((a + b) % s),
                0 <= a % s < s,
                0 <= b % s < s,
                0 <= (a + b) % s < s,
        ;
        assert(q[t - 1] as int == b / s);
    }
}


/// The deep view of a matrix held as nested vectors.
pub open spec fn mat_view(m: Seq<Vec<u64>>) -> Seq<Seq<u64>> {
    Seq::new(m.len(), |i: int| m[i]@)
}

/// Updating one entry moves the row sum by the difference.
pub proof fn lemma_row_sum_update(row: Seq<u64>, f: int, v: u64, t: int)
    requires
        0 <= f < row.len(),
        0 <= t <= row.len(),
    ensures
        row_sum_upto(row.update(f, v), t) == if f < t {
            row_sum_upto(row, t) - row[f] + v
        } else {
            row_sum_upto(row, t)
        },
    decreases t,
{
    if t > 0 {
        lemma_row_sum_update(row, f, v, t - 1);
    }
}

/// The first non-zero position, characterized by its prefix of zeros.
pub proof fn lemma_first_nonzero_char(row: Seq<u64>, f: int, t: int)
    requires
        0 <= t <= f < row.len(),
        forall|u: int| t <= u < f ==> row[u] == 0,
        row[f] > 0,
    ensures
        first_nonzero(row, t) == f,
    decreases f - t,
{
    if t < f {
        lemma_first_nonzero_char(row, f, t + 1);
    }
}

/// A matrix equal to its own square stays fixed under iterated squaring.
pub proof fn lemma_iter_fixed(m: Seq<Seq<u64>>, steps: nat)
    requires
        mat_sq(m) == m,
    ensures
        mat_iter_sq(m, steps) == m,
    decreases steps,
{
    if steps > 0 {
        lemma_iter_fixed(m, (steps - 1) as nat);
    }
}

/// Normalizes one weight row into a transition row that sums exactly to
/// the scale, or stays zero when the row carries no weight.
#[verifier::rlimit(100)]
fn normalize_row(row: &Vec<u64>) -> (r: Vec<u64>)
    requires
        row@.len() <= 0x100000000,
        forall|j: int| 0 <= j < row@.len() ==> (#[trigger] row@[j]) <= PROB_SCALE,
    ensures
        r@ == norm_row(row@),
        r@.len() == row@.len(),
        row_sum(r@) == if row_sum(row@) == 0 {
            0
        } else {
            PROB_SCALE as int
        },
{
    let n = row.len();
    let mut s: u64 = 0;
    let mut j: usize = 0;
    while j < n
        invariant
            n == row@.len(),
            n <= 0x100000000,
            forall|t: int| 0 <= t < row@.len() ==> (#[trigger] row@[t]) <= PROB_SCALE,
            j <= n,
            s as int == row_sum_upto(row@, j as int),
            s as int <= (j as int) * (PROB_SCALE as int),
        decreases n - j,
    {
        proof {
            assert((j as int) * (PROB_SCALE as int) + PROB_SCALE == (j + 1) * (
            PROB_SCALE as int)) by (nonlinear_arith);
            assert((j + 1) * (PROB_SCALE as int) <= 0x100000000 * (PROB_SCALE as int)) by (
            nonlinear_arith)
                requires
                    0 <= j + 1 <= 0x100000000,
            ;
        }
        s = s + row[j];
        j += 1;
    }
    if s == 0 {
        let mut r: Vec<u64> = Vec::new();
        let mut j: usize = 0;
        while j < n
            invariant
                j <= n,
                r@.len() == j,
                forall|t: int| 0 <= t < j ==> (#[trigger] r@[t]) == 0,
            decreases n - j,
        {
            r.push(0);
            j += 1;
        }
        proof {
            assert(r@ =~= norm_row(row@));
            lemma_row_sum_nonneg(r@, n as int);
            lemma_sum_zero_rows(r@, n as int);
        }
        r
    } else {
        let ghost base = base_shares(row@);
        let mut r: Vec<u64> = Vec::new();
        let mut tsum: u64 = 0;
        let mut j: usize = 0;
        proof {
            lemma_row_sum_nonneg(row@, n as int);
        }
        while j < n
            invariant
                n == row@.len(),
                forall|t: int| 0 <= t < row@.len() ==> (#[trigger] row@[t]) <= PROB_SCALE,
                0 < s,
                s as int == row_sum(row@),
                base == base_shares(row@),
                j <= n,
                r@.len() == j,
                forall|t: int| 0 <= t < j ==> (#[trigger] r@[t]) == base[t],
                forall|t: int| 0 <= t < j ==> (#[trigger] r@[t]) <= PROB_SCALE,
                tsum as int == row_sum_upto(base, j as int),
                tsum <= PROB_SCALE,
            decreases n - j,
        {
            let wj = row[j];
            proof {
                lemma_entry_le_sum(row@, j as int);
                assert((wj as int) * (PROB_SCALE as int) <= (s as int) * (PROB_SCALE as int)) by (
                nonlinear_arith)
                    requires
                        wj as int <= s as int,
                        0 <= wj,
                ;
                lemma_div_ordered((wj as int) * (PROB_SCALE as int), (s as int) * (
                PROB_SCALE as int), s as int);
                lemma_div_multiples_vanish(PROB_SCALE as int, s as int);
                assert((s as int) * (PROB_SCALE as int) / (s as int) == PROB_SCALE);
                // The running share total stays within the scale.
                let c = Seq::new(row@.len(), |t: int| (row@[t] * PROB_SCALE) as int);
                lemma_sum_floor_div(c, s as int, j + 1);
                lemma_row_sum_scale(row@, PROB_SCALE as int, c, n as int);
                lemma_row_sum_scale(row@, PROB_SCALE as int, c, j + 1);
                assert(Seq::new(c.len(), |t: int| (c[t] / (s as int)) as u64) =~= base);
                lemma_row_sum_mono(row@, j + 1, n as int);
                assert(sum_int_upto(c, j + 1) <= (s as int) * (PROB_SCALE as int)) by (
                nonlinear_arith)
                    requires
                        sum_int_upto(c, j + 1) == (PROB_SCALE as int) * row_sum_upto(
                            row@,
                            j + 1,
                        ),
                        row_sum_upto(row@, j + 1) <= s as int,
                        0 <= row_sum_upto(row@, j + 1),
                ;
                lemma_div_ordered(sum_int_upto(c, j + 1), (s as int) * (PROB_SCALE as int),
                    s as int);
            }
            let share = (wj * PROB_SCALE) / s;
            r.push(share);
            tsum = tsum + share;
            j += 1;
        }
        // Give the rounding deficit to the first carried weight.
        let deficit = PROB_SCALE - tsum;
        let mut f: usize = 0;
        while f < n && row[f] == 0
            invariant
                n == row@.len(),
                f <= n,
                forall|t: int| 0 <= t < f ==> (#[trigger] row@[t]) == 0,
            decreases n - f,
        {
            f += 1;
        }
        proof {
            if f as int == n as int {
                lemma_first_nonzero_props(row@, 0);
                assert(first_nonzero(row@, 0) == n as int) by {
                    lemma_sum_zero_prefix(row@, n as int);
                }
                lemma_sum_zero_prefix(row@, n as int);
                assert(false);
            }
        }
        proof {
            lemma_first_nonzero_char(row@, f as int, 0);
            lemma_row_sum_update(r@, f as int, (r@[f as int] + deficit) as u64, n as int);
            assert(r@ =~= base);
        }
        let boosted = r[f] + deficit;
        r[f] = boosted;
        proof {
            assert(r@ =~= norm_row(row@));
            assert(row_sum(r@) == PROB_SCALE as int);
        }
        r
    }
}

/// A row of zeros sums to zero.
pub proof fn lemma_sum_zero_rows(row: Seq<u64>, t: int)
    requires
        0 <= t <= row.len(),
        forall|u: int| 0 <= u < row.len() ==> (#[trigger] row[u]) == 0,
    ensures
        row_sum_upto(row, t) == 0,
    decreases t,
{
    if t > 0 {
        lemma_sum_zero_rows(row, t - 1);
    }
}

/// A row whose entries are all zero up to `t` has a zero prefix sum.
proof fn lemma_sum_zero_prefix(row: Seq<u64>, t: int)
    requires
        0 <= t <= row.len(),
        forall|u: int| 0 <= u < t ==> (#[trigger] row[u]) == 0,
    ensures
        row_sum_upto(row, t) == 0,
    decreases t,
{
    if t > 0 {
        lemma_sum_zero_prefix(row, t - 1);
    }
}


/// Pointwise bounded integer rows have bounded sums.
proof fn lemma_sum_int_le(a: Seq<int>, b: Seq<int>, t: int)
    requires
        0 <= t <= a.len(),
        a.len() == b.len(),
        forall|j: int| 0 <= j < a.len() ==> #[trigger] a[j] <= b[j],
    ensures
        sum_int_upto(a, t) <= sum_int_upto(b, t),
    decreases t,
{
    if t > 0 {
        lemma_sum_int_le(a, b, t - 1);
    }
}

/// Squares a bounded transition matrix in fixed point.  Every row of the
/// result again sums to at most the scale.
#[verifier::rlimit(100)]
fn mat_square(m: &Vec<Vec<u64>>) -> (r: Vec<Vec<u64>>)
    requires
        mat_ok(mat_view(m@), m@.len() as int),
    ensures
        mat_view(r@) == mat_sq(mat_view(m@)),
        mat_ok(mat_view(r@), m@.len() as int),
{
    let n = m.len();
    let ghost mv = mat_view(m@);
    let mut out: Vec<Vec<u64>> = Vec::new();
    let mut i: usize = 0;
    while i < n
        invariant
            n == m@.len(),
            mv == mat_view(m@),
            mat_ok(mv, n as int),
            i <= n,
            out@.len() == i,
            forall|a: int| 0 <= a < i ==> (#[trigger] out@[a]@) == mat_sq(mv)[a],
            forall|a: int| 0 <= a < i ==> row_sum(#[trigger] out@[a]@) <= PROB_SCALE,
        decreases n - i,
    {
        let mut row: Vec<u64> = Vec::new();
        let mut j: usize = 0;
        while j < n
            invariant
                n == m@.len(),
                mv == mat_view(m@),
                mat_ok(mv, n as int),
                i < n,
                j <= n,
                row@.len() == j,
                forall|b: int|
                    0 <= b < j ==> ((#[trigger] row@[b]) as int) == sq_entry(mv, i as int, b),
                forall|b: int| 0 <= b < j ==> (#[trigger] row@[b]) <= PROB_SCALE,
            decreases n - j,
        {
            let mut acc: u64 = 0;
            let mut k: usize = 0;
            while k < n
                invariant
                    n == m@.len(),
                    mv == mat_view(m@),
                    mat_ok(mv, n as int),
                    i < n,
                    j < n,
                    k <= n,
                    acc as int == dot_upto(mv[i as int], mv, j as int, k as int),
                    acc as int <= row_sum_upto(mv[i as int], k as int) * (PROB_SCALE as int),
                decreases n - k,
            {
                let a = m[i][k];
                proof {
                    assert(mat_view(m@)[k as int] == m@[k as int]@);
                    assert(m@[k as int]@.len() == n);
                }
                let b = m[k][j];
                proof {
                    lemma_entry_le_sum(mv[i as int], k as int);
                    lemma_entry_le_sum(mv[k as int], j as int);
                    lemma_row_sum_mono(mv[i as int], k as int, n as int);
                    lemma_row_sum_mono(mv[i as int], k + 1, n as int);
                    lemma_row_sum_mono(mv[k as int], j as int, n as int);
                    assert((a as int) * (b as int) <= (a as int) * (PROB_SCALE as int)) by (
                    nonlinear_arith)
                        requires
                            0 <= a,
                            0 <= b <= PROB_SCALE,
                    ;
                    assert(row_sum_upto(mv[i as int], k as int) * (PROB_SCALE as int) + (a as int)
                        * (PROB_SCALE as int) == (row_sum_upto(mv[i as int], k as int) + a) * (
                    PROB_SCALE as int)) by (nonlinear_arith);
                    assert((row_sum_upto(mv[i as int], k + 1)) * (PROB_SCALE as int) <= (
                    PROB_SCALE as int) * (PROB_SCALE as int)) by (nonlinear_arith)
                        requires
                            0 <= row_sum_upto(mv[i as int], k + 1) <= PROB_SCALE as int,
                    ;
                    assert(mv[i as int][k as int] == a && mv[k as int][j as int] == b);
                }
                acc = acc + a * b;
                k += 1;
            }
            proof {
                lemma_row_sum_mono(mv[i as int], n as int, n as int);
                assert(row_sum(mv[i as int]) * (PROB_SCALE as int) <= (PROB_SCALE as int) * (
                PROB_SCALE as int)) by (nonlinear_arith)
                    requires
                        0 <= row_sum(mv[i as int]) <= PROB_SCALE as int,
                ;
                lemma_div_ordered(
                    acc as int,
                    (PROB_SCALE as int) * (PROB_SCALE as int),
                    PROB_SCALE as int,
                );
                lemma_div_multiples_vanish(PROB_SCALE as int, PROB_SCALE as int);
            }
            let e = acc / PROB_SCALE;
            row.push(e);
            j += 1;
        }
        // The finished row is one row of the square, and its sum stays
        // within the scale.
        proof {
            assert(row@ =~= mat_sq(mv)[i as int]);
            let a_row = mv[i as int];
            let c = Seq::new(n as nat, |b: int| dot_upto(a_row, mv, b, n as int));
            assert forall|b: int| 0 <= b < n implies 0 <= #[trigger] c[b] <= u64::MAX by {
                lemma_dot_bounds(a_row, mv, b, n as int);
            }
            lemma_sum_floor_div(c, PROB_SCALE as int, n as int);
            assert(Seq::new(c.len(), |b: int| (c[b] / (PROB_SCALE as int)) as u64) =~= row@);
            lemma_dot_exchange(a_row, mv, n as int, n as int);
            let prods = Seq::new(n as nat, |x: int| (a_row[x] * row_sum(mv[x])) as int);
            let caps = Seq::new(n as nat, |x: int| (a_row[x] * (PROB_SCALE as int)) as int);
            assert forall|x: int| 0 <= x < n implies #[trigger] prods[x] <= caps[x] by {
                assert((a_row[x] as int) * row_sum(mv[x]) <= (a_row[x] as int) * (
                PROB_SCALE as int)) by (nonlinear_arith)
                    requires
                        0 <= a_row[x],
                        row_sum(mv[x]) <= PROB_SCALE as int,
                ;
            }
            lemma_sum_int_le(prods, caps, n as int);
            lemma_row_sum_scale(a_row, PROB_SCALE as int, caps, n as int);
            lemma_row_sum_mono(a_row, n as int, n as int);
            assert((PROB_SCALE as int) * row_sum(a_row) <= (PROB_SCALE as int) * (
            PROB_SCALE as int)) by (nonlinear_arith)
                requires
                    0 <= row_sum(a_row) <= PROB_SCALE as int,
            ;
            lemma_div_ordered(
                sum_int_upto(c, n as int),
                (PROB_SCALE as int) * (PROB_SCALE as int),
                PROB_SCALE as int,
            );
            lemma_div_multiples_vanish(PROB_SCALE as int, PROB_SCALE as int);
            assert(row_sum(row@) <= PROB_SCALE);
        }
        out.push(row);
        i += 1;
    }
    proof {
        assert(mat_view(out@) =~= mat_sq(mv));
    }
    out
}

/// Partial dot products stay within the scale's square.
proof fn lemma_dot_bounds(a: Seq<u64>, m: Seq<Seq<u64>>, j: int, k: int)
    requires
        0 <= k <= a.len(),
        a.len() == m.len(),
        forall|x: int| 0 <= x < m.len() ==> (#[trigger] m[x]).len() == m.len(),
        forall|x: int| 0 <= x < m.len() ==> row_sum(#[trigger] m[x]) <= PROB_SCALE,
        row_sum(a) <= PROB_SCALE,
        0 <= j < m.len(),
    ensures
        0 <= dot_upto(a, m, j, k) <= row_sum_upto(a, k) * (PROB_SCALE as int),
        dot_upto(a, m, j, k) <= u64::MAX,
    decreases k,
{
    lemma_row_sum_mono(a, k, a.len() as int);
    if k == 0 {
        assert(row_sum_upto(a, 0) * (PROB_SCALE as int) == 0) by (nonlinear_arith);
    } else {
        lemma_dot_bounds(a, m, j, k - 1);
        lemma_entry_le_sum(m[k - 1], j);
        lemma_row_sum_mono(a, k - 1, k);
        assert((a[k - 1] as int) * (m[k - 1][j] as int) <= (a[k - 1] as int) * (
        PROB_SCALE as int)) by (nonlinear_arith)
            requires
                0 <= a[k - 1],
                0 <= m[k - 1][j] <= PROB_SCALE,
        ;
        assert(0 <= (a[k - 1] as int) * (m[k - 1][j] as int)) by (nonlinear_arith)
            requires
                0 <= a[k - 1],
                0 <= m[k - 1][j],
        ;
        assert(row_sum_upto(a, k) == row_sum_upto(a, k - 1) + a[k - 1]);
        assert(row_sum_upto(a, k - 1) * (PROB_SCALE as int) + (a[k - 1] as int) * (
        PROB_SCALE as int) == row_sum_upto(a, k) * (PROB_SCALE as int)) by (nonlinear_arith)
            requires
                row_sum_upto(a, k) == row_sum_upto(a, k - 1) + a[k - 1],
        ;
        assert(row_sum_upto(a, k) * (PROB_SCALE as int) <= (PROB_SCALE as int) * (
        PROB_SCALE as int)) by (nonlinear_arith)
            requires
                0 <= row_sum_upto(a, k) <= PROB_SCALE as int,
        ;
    }
}

/// Runs the whole fixed-point pipeline: normalize the weight rows, square
/// the transition matrix the requested number of times, and return the
/// row sums of the result.
#[verifier::rlimit(100)]
pub fn stationary_from_weights(w: &Vec<Vec<u64>>, num_steps: usize) -> (r: Vec<u64>)
    requires
        w@.len() <= 0x100000000,
        forall|i: int| 0 <= i < w@.len() ==> (#[trigger] w@[i]@).len() == w@.len(),
        forall|i: int, j: int|
            0 <= i < w@.len() && 0 <= j < w@.len() ==> (#[trigger] w@[i]@[j]) <= PROB_SCALE,
    ensures
        r@ == stationary_spec(mat_view(w@), num_steps as nat),
        r@.len() == w@.len(),
        forall|i: int| 0 <= i < r@.len() ==> (#[trigger] r@[i]) <= PROB_SCALE,
        num_steps == 0 ==> forall|i: int|
            0 <= i < r@.len() ==> ((#[trigger] r@[i]) as int) == (if row_sum(w@[i]@) == 0 {
                0
            } else {
                PROB_SCALE as int
            }),
{
    let n = w.len();
    let ghost w0 = mat_view(w@);
    let mut m: Vec<Vec<u64>> = Vec::new();
    let mut i: usize = 0;
    while i < n
        invariant
            n == w@.len(),
            n <= 0x100000000,
            w0 == mat_view(w@),
            forall|t: int| 0 <= t < w@.len() ==> (#[trigger] w@[t]@).len() == w@.len(),
            forall|t: int, j: int|
                0 <= t < w@.len() && 0 <= j < w@.len() ==> (#[trigger] w@[t]@[j]) <= PROB_SCALE,
            i <= n,
            m@.len() == i,
            forall|t: int| 0 <= t < i ==> (#[trigger] m@[t]@) == norm_row(w@[t]@),
            forall|t: int|
                0 <= t < i ==> row_sum(#[trigger] m@[t]@) == (if row_sum(w@[t]@) == 0 {
                    0
                } else {
                    PROB_SCALE as int
                }),
        decreases n - i,
    {
        let row = normalize_row(&w[i]);
        m.push(row);
        i += 1;
    }
    let ghost m0 = mat_view(m@);
    proof {
        assert(m0 =~= norm_mat(w0)) by {
            assert forall|t: int| 0 <= t < n implies m0[t] == norm_mat(w0)[t] by {
                assert(m0[t] == m@[t]@);
            }
            assert(m0 =~= norm_mat(w0));
        }
        assert(mat_ok(m0, n as int)) by {
            assert forall|t: int| 0 <= t < n implies (#[trigger] m0[t]).len() == n
                && row_sum(m0[t]) <= PROB_SCALE by {
                assert(m0[t] == m@[t]@);
                assert(m@[t]@ == norm_row(w@[t]@));
                let row = w@[t]@;
                if row_sum(row) == 0 {
                    assert(norm_row(row).len() == row.len());
                } else {
                    lemma_first_nonzero_props(row, 0);
                    if first_nonzero(row, 0) == row.len() {
                        assert(row_sum(row) == row_sum_upto(row, 0));
                    }
                    assert(norm_row(row).len() == row.len());
                }
                assert(row_sum(m@[t]@) == (if row_sum(w@[t]@) == 0 {
                    0
                } else {
                    PROB_SCALE as int
                }));
            }
        }
    }
    let mut step: usize = 0;
    while step < num_steps
        invariant
            step <= num_steps,
            mat_ok(mat_view(m@), m@.len() as int),
            m@.len() == n,
            mat_iter_sq(mat_view(m@), (num_steps - step) as nat) == mat_iter_sq(
                norm_mat(w0),
                num_steps as nat,
            ),
        decreases num_steps - step,
    {
        m = mat_square(&m);
        step += 1;
    }
    let ghost fin = mat_view(m@);
    proof {
        assert(fin == mat_iter_sq(norm_mat(w0), num_steps as nat));
    }
    let mut r: Vec<u64> = Vec::new();
    let mut i: usize = 0;
    while i < n
        invariant
            n == m@.len(),
            fin == mat_view(m@),
            mat_ok(fin, n as int),
            i <= n,
            r@.len() == i,
            forall|t: int| 0 <= t < i ==> ((#[trigger] r@[t]) as int) == row_sum(fin[t]),
            forall|t: int| 0 <= t < i ==> (#[trigger] r@[t]) <= PROB_SCALE,
        decreases n - i,
    {
        let row_len = m[i].len();
        let mut acc: u64 = 0;
        let mut j: usize = 0;
        proof {
            lemma_row_sum_mono(fin[i as int], 0, row_len as int);
        }
        while j < row_len
            invariant
                n == m@.len(),
                fin == mat_view(m@),
                mat_ok(fin, n as int),
                i < n,
                row_len == fin[i as int].len(),
                j <= row_len,
                acc as int == row_sum_upto(fin[i as int], j as int),
            decreases row_len - j,
        {
            proof {
                lemma_row_sum_mono(fin[i as int], j + 1, row_len as int);
            }
            acc = acc + m[i][j];
            j += 1;
        }
        r.push(acc);
        i += 1;
    }
    proof {
        assert(r@ =~= row_sums(fin));
        assert(r@ =~= stationary_spec(w0, num_steps as nat));
    }
    r
}

} // verus!
