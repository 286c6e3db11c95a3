use vstd::prelude::*;
use vstd::arithmetic::div_mod::{lemma_add_mod_noop, lemma_mod_bound, lemma_mul_mod_noop_left, lemma_mul_mod_noop_right, lemma_small_mod};
use vstd::arithmetic::mul::{lemma_mul_is_associative, lemma_mul_is_commutative, lemma_mul_is_distributive_add};

use crate::fields::writable_ft63::{field_pow, p};
use crate::fields::{dot, dot_prefix, field_values, poly_eval, poly_eval_shifted};
use crate::fields::writable_ft63::{lemma_mont_value_bound, WriteableFt63};
use crate::lcpc_online::commit::{padded_words, row_of, PoSCommit};
use crate::lcpc_online::encoding::{all_canonical, field_words};
use crate::lcpc_online::{side_left_values, side_right_values, words_values};
use crate::networking::client::claimed_evaluation;
use crate::lcpc_online::encoding::{bit_reversed, ifft_oi_of, len_inv, sum_to, unity_root_inv};

verus! {

/// Sums of equal terms are equal.
pub proof fn lemma_sum_ext(f: spec_fn(nat) -> nat, g: spec_fn(nat) -> nat, n: nat)
    requires
        forall|i: nat| i < n ==> #[trigger] f(i) == g(i),
    ensures
        sum_to(f, n) == sum_to(g, n),
    decreases n,
{
    if n > 0 {
        lemma_sum_ext(f, g, (n - 1) as nat);
    }
}

/// Sums of terms that agree modulo the prime agree modulo the prime.
pub proof fn lemma_sum_mod(f: spec_fn(nat) -> nat, g: spec_fn(nat) -> nat, n: nat)
    requires
        forall|i: nat| i < n ==> #[trigger] f(i) % p() == g(i) % p(),
    ensures
        sum_to(f, n) % p() == sum_to(g, n) % p(),
    decreases n,
{
    if n > 0 {
        let m = (n - 1) as nat;
        lemma_sum_mod(f, g, m);
        lemma_add_mod_noop(sum_to(f, m) as int, f(m) as int, p() as int);
        lemma_add_mod_noop(sum_to(g, m) as int, g(m) as int, p() as int);
    }
}

/// The sum of two sums is the sum of the pairwise sums.
pub proof fn lemma_sum_add(f: spec_fn(nat) -> nat, g: spec_fn(nat) -> nat, h: spec_fn(nat) -> nat, n: nat)
    requires
        forall|i: nat| i < n ==> #[trigger] h(i) == f(i) + g(i),
    ensures
        sum_to(h, n) == sum_to(f, n) + sum_to(g, n),
    decreases n,
{
    if n > 0 {
        lemma_sum_add(f, g, h, (n - 1) as nat);
    }
}

/// A factor common to every term comes out of the sum.
pub proof fn lemma_sum_scale(c: nat, f: spec_fn(nat) -> nat, g: spec_fn(nat) -> nat, n: nat)
    requires
        forall|i: nat| i < n ==> #[trigger] g(i) == c * f(i),
    ensures
        sum_to(g, n) == c * sum_to(f, n),
    decreases n,
{
    if n > 0 {
        let m = (n - 1) as nat;
        lemma_sum_scale(c, f, g, m);
        lemma_mul_is_distributive_add(c as int, sum_to(f, m) as int, f(m) as int);
        assert(sum_to(g, n) == sum_to(g, m) + g(m));
        assert(sum_to(f, n) == sum_to(f, m) + f(m));
    } else {
        assert(c * 0 == 0) by (nonlinear_arith);
    }
}

/// A sum of zeros is zero.
pub proof fn lemma_sum_zero(f: spec_fn(nat) -> nat, n: nat)
    requires
        forall|i: nat| i < n ==> #[trigger] f(i) == 0,
    ensures
        sum_to(f, n) == 0,
    decreases n,
{
    if n > 0 {
        lemma_sum_zero(f, (n - 1) as nat);
    }
}

/// The order of summation of a double sum does not matter.
pub proof fn lemma_sum_swap(f: spec_fn(nat, nat) -> nat, rows: nat, cols: nat)
    ensures
        sum_to(|j: nat| sum_to(|r: nat| f(r, j), rows), cols) == sum_to(|r: nat| sum_to(|j: nat| f(r, j), cols), rows),
    decreases cols,
{
    if cols == 0 {
        lemma_sum_zero(|r: nat| sum_to(|j: nat| f(r, j), cols), rows);
    } else {
        let m = (cols - 1) as nat;
        lemma_sum_swap(f, rows, m);
        lemma_sum_add(
            |r: nat| sum_to(|j: nat| f(r, j), m),
            |r: nat| f(r, m),
            |r: nat| sum_to(|j: nat| f(r, j), cols),
            rows,
        );
    }
}

/// Summing `f` over `a + b` terms: the first `a`, then the next `b`.
pub proof fn lemma_sum_shift(f: spec_fn(nat) -> nat, a: nat, b: nat)
    ensures
        sum_to(f, a + b) == sum_to(f, a) + sum_to(|k: nat| f(a + k), b),
    decreases b,
{
    if b > 0 {
        lemma_sum_shift(f, a, (b - 1) as nat);
        assert(a + b - 1 == a + (b - 1));
    }
}

/// Summing `f` over `rows * w` terms, `w` at a time.
pub proof fn lemma_sum_split(f: spec_fn(nat) -> nat, rows: nat, w: nat)
    ensures
        sum_to(f, rows * w) == sum_to(|r: nat| sum_to(|k: nat| f(r * w + k), w), rows),
    decreases rows,
{
    if rows > 0 {
        let m = (rows - 1) as nat;
        lemma_sum_split(f, m, w);
        assert(rows * w == m * w + w) by (nonlinear_arith)
            requires m == rows - 1;
        lemma_sum_shift(f, m * w, w);
        let g = |r: nat| sum_to(|k: nat| f(r * w + k), w);
        assert(sum_to(g, rows) == sum_to(g, m) + g(m));
        assert(g(m) == sum_to(|k: nat| f(m * w + k), w));
    } else {
        assert(0 * w == 0) by (nonlinear_arith);
    }
}

proof fn lemma_p_positive()
    ensures
        p() > 1,
        p() < 0x8000_0000_0000_0000,
{
}

/// Powers add their exponents.
pub proof fn lemma_field_pow_add(b: nat, e1: nat, e2: nat)
    ensures
        field_pow(b, e1 + e2) == (field_pow(b, e1) * field_pow(b, e2)) % p(),
    decreases e1,
{
    lemma_p_positive();
    let m = p() as int;
    if e1 == 0 {
        lemma_field_pow_bound(b, e2);
        lemma_small_mod(field_pow(b, e2), p());
        assert(e1 + e2 == e2);
        assert(field_pow(b, e1) == 1);
        assert(1 * field_pow(b, e2) == field_pow(b, e2));
    } else {
        lemma_field_pow_add(b, (e1 - 1) as nat, e2);
        let a = field_pow(b, (e1 - 1) as nat);
        let c = field_pow(b, e2);
        assert(field_pow(b, e1 + e2) == (b * field_pow(b, ((e1 - 1) + e2) as nat)) % p());
        assert(field_pow(b, ((e1 - 1) + e2) as nat) == (a * c) % p());
        assert(field_pow(b, e1) == (b * a) % p());
        lemma_mul_mod_noop_right(b as int, (a * c) as int, m);
        lemma_mul_is_associative(b as int, a as int, c as int);
        lemma_mul_mod_noop_left((b * a) as int, c as int, m);
    }
}

/// A power is a field value.
pub proof fn lemma_field_pow_bound(b: nat, e: nat)
    ensures
        field_pow(b, e) < p(),
{
    lemma_p_positive();
    if e > 0 {
        lemma_mod_bound((b * field_pow(b, (e - 1) as nat)) as int, p() as int);
    }
}

/// A power of a power multiplies the exponents.
pub proof fn lemma_field_pow_mul(b: nat, w: nat, r: nat)
    ensures
        field_pow(field_pow(b, w), r) == field_pow(b, w * r),
    decreases r,
{
    lemma_p_positive();
    if r == 0 {
        assert(w * 0 == 0) by (nonlinear_arith);
    } else {
        lemma_field_pow_mul(b, w, (r - 1) as nat);
        assert(w * r == w + w * (r - 1)) by (nonlinear_arith)
            requires r >= 1;
        lemma_field_pow_add(b, w, w * (r - 1) as nat);
    }
}

/// The inner product over the first `n` positions, as a sum reduced once.
pub proof fn lemma_dot_prefix_sum(a: Seq<nat>, b: Seq<nat>, n: nat)
    ensures
        dot_prefix(a, b, n) == sum_to(|i: nat| a[i as int] * b[i as int], n) % p(),
    decreases n,
{
    lemma_p_positive();
    if n > 0 {
        let m = (n - 1) as nat;
        lemma_dot_prefix_sum(a, b, m);
        let f = |i: nat| a[i as int] * b[i as int];
        assert(sum_to(f, n) == sum_to(f, m) + f(m));
        lemma_add_mod_noop(sum_to(f, m) as int, f(m) as int, p() as int);
        lemma_mod_bound(f(m) as int, p() as int);
        lemma_add_mod_noop(sum_to(f, m) as int % p() as int, f(m) as int, p() as int);
        vstd::arithmetic::div_mod::lemma_mod_twice(sum_to(f, m) as int, p() as int);
    }
}

/// A polynomial's value as a sum reduced once.
pub proof fn lemma_poly_eval_sum(c: Seq<nat>, x: nat)
    ensures
        poly_eval_shifted(c, x, 0) == sum_to(|i: nat| c[i as int] * field_pow(x, i), c.len()) % p(),
    decreases c.len(),
{
    lemma_p_positive();
    if c.len() > 0 {
        let m = (c.len() - 1) as nat;
        let d = c.drop_last();
        lemma_poly_eval_sum(d, x);
        let f = |i: nat| c[i as int] * field_pow(x, i);
        let g = |i: nat| d[i as int] * field_pow(x, i);
        lemma_sum_ext(g, f, m);
        assert(sum_to(f, c.len()) == sum_to(f, m) + f(m));
        assert(c.len() - 1 + 0 == m);
        lemma_add_mod_noop(sum_to(f, m) as int, f(m) as int, p() as int);
        lemma_add_mod_noop(sum_to(f, m) as int % p() as int, f(m) as int, p() as int);
        vstd::arithmetic::div_mod::lemma_mod_twice(sum_to(f, m) as int, p() as int);
    }
}

proof fn lemma_ifft_combination_at(rows: Seq<Seq<u64>>, coef: Seq<nat>, v: Seq<u64>, k: nat)
    requires
        rows.len() == coef.len(),
        k < v.len(),
        forall|r: int| 0 <= r < rows.len() ==> (#[trigger] rows[r]).len() == v.len(),
        forall|j: int|
            0 <= j < v.len() ==> #[trigger] v[j] as nat == sum_to(
                |r: nat| coef[r as int] * rows[r as int][j] as nat,
                rows.len(),
            ) % p(),
    ensures
        ifft_oi_of(v)[k as int] as nat == sum_to(
            |r: nat| coef[r as int] * ifft_oi_of(rows[r as int])[k as int] as nat,
            rows.len(),
        ) % p(),
{
    reveal(ifft_oi_of);
    lemma_p_positive();
    let m = p() as int;
    let n = v.len();
    let nr = rows.len();
    let s = len_inv(n);
    let kk = |j: nat| field_pow(unity_root_inv(n), bit_reversed(j, n) * k);
    let a_term = |j: nat| v[j as int] as nat * field_pow(unity_root_inv(n), bit_reversed(j, n) * k);
    let a = sum_to(a_term, n);
    assert(ifft_oi_of(v)[k as int] as nat == (s * a) % p()) by {
        lemma_mod_bound((s * a) as int, m);
    }
    let ff = |r: nat, j: nat| kk(j) * (coef[r as int] * rows[r as int][j as int] as nat);
    let t = |j: nat| sum_to(|r: nat| coef[r as int] * rows[r as int][j as int] as nat, nr);
    let g = |j: nat| sum_to(|r: nat| ff(r, j), nr);
    // Each term of `a` agrees modulo the prime with the sum over rows.
    assert forall|j: nat| j < n implies #[trigger] a_term(j) % p() == g(j) % p() by {
        lemma_sum_scale(kk(j), |r: nat| coef[r as int] * rows[r as int][j as int] as nat, |r: nat| ff(r, j), nr);
        assert(v[j as int] as nat == t(j) % p());
        lemma_mul_mod_noop_left(t(j) as int, kk(j) as int, m);
        assert(t(j) * kk(j) == kk(j) * t(j)) by (nonlinear_arith);
    }
    lemma_sum_mod(a_term, g, n);
    lemma_sum_swap(ff, nr, n);
    let c = |r: nat| sum_to(|j: nat| rows[r as int][j as int] as nat * kk(j), n);
    let h = |r: nat| sum_to(|j: nat| ff(r, j), n);
    let cc = |r: nat| coef[r as int] * c(r);
    assert forall|r: nat| r < nr implies #[trigger] h(r) == cc(r) by {
        assert forall|j: nat| j < n implies #[trigger] ff(r, j) == coef[r as int] * (rows[r as int][j as int] as nat * kk(j)) by {
            let x = rows[r as int][j as int] as nat;
            let y = kk(j);
            let z = coef[r as int];
            assert(y * (z * x) == z * (x * y)) by (nonlinear_arith);
        }
        lemma_sum_scale(coef[r as int], |j: nat| rows[r as int][j as int] as nat * kk(j), |j: nat| ff(r, j), n);
    }
    lemma_sum_ext(h, cc, nr);
    let b = sum_to(g, n);
    // (s * a) % p == (s * b) % p
    lemma_mul_mod_noop_right(s as int, a as int, m);
    lemma_mul_mod_noop_right(s as int, b as int, m);
    // s * b == sum over rows of s * (coef * c)
    let sc = |r: nat| s * cc(r);
    lemma_sum_scale(s, cc, sc, nr);
    // each row's term agrees with coef * ifft(row)[k] modulo the prime
    let target = |r: nat| coef[r as int] * ifft_oi_of(rows[r as int])[k as int] as nat;
    assert forall|r: nat| r < nr implies #[trigger] sc(r) % p() == target(r) % p() by {
        let row = rows[r as int];
        assert(row.len() == n);
        let cr = c(r);
        assert(sum_to(|j: nat| row[j as int] as nat * field_pow(unity_root_inv(row.len()), bit_reversed(j, row.len()) * k), row.len()) == cr) by {
            lemma_sum_ext(
                |j: nat| row[j as int] as nat * field_pow(unity_root_inv(row.len()), bit_reversed(j, row.len()) * k),
                |j: nat| rows[r as int][j as int] as nat * kk(j),
                n,
            );
        }
        assert(ifft_oi_of(row)[k as int] as nat == (s * cr) % p()) by {
            lemma_mod_bound((s * cr) as int, m);
        }
        lemma_mul_mod_noop_right(coef[r as int] as int, (s * cr) as int, m);
        assert(coef[r as int] * (s * cr) == s * (coef[r as int] * cr)) by (nonlinear_arith);
    }
    lemma_sum_mod(sc, target, nr);
}

/// The inverse transform of a combination of rows, taken position by position, is the
/// same combination of the rows' inverse transforms.
pub proof fn lemma_ifft_of_combination(rows: Seq<Seq<u64>>, coef: Seq<nat>, v: Seq<u64>)
    requires
        rows.len() == coef.len(),
        forall|r: int| 0 <= r < rows.len() ==> (#[trigger] rows[r]).len() == v.len(),
        forall|j: int|
            0 <= j < v.len() ==> #[trigger] v[j] as nat == sum_to(
                |r: nat| coef[r as int] * rows[r as int][j] as nat,
                rows.len(),
            ) % p(),
    ensures
        forall|k: int|
            0 <= k < v.len() ==> #[trigger] ifft_oi_of(v)[k] as nat == sum_to(
                |r: nat| coef[r as int] * ifft_oi_of(rows[r as int])[k] as nat,
                rows.len(),
            ) % p(),
{
    assert forall|k: int| 0 <= k < v.len() implies #[trigger] ifft_oi_of(v)[k] as nat == sum_to(
        |r: nat| coef[r as int] * ifft_oi_of(rows[r as int])[k] as nat,
        rows.len(),
    ) % p() by {
        lemma_ifft_combination_at(rows, coef, v, k as nat);
    }
}

/// The coefficients of a matrix with rows of `pre` coefficients, laid out `w` to a row
/// (`w >= pre`): row `r`'s coefficients at positions `r * w ..`, zeros after them.
pub open spec fn spread_rows(coeffs: Seq<nat>, pre: nat, w: nat, n_rows: nat) -> Seq<nat> {
    Seq::new(
        n_rows * w,
        |i: int| if i % (w as int) < pre { coeffs[(i / (w as int)) * pre + i % (w as int)] } else { 0 },
    )
}

/// The rows of a commitment's encoded matrix as words.
pub open spec fn encoded_rows(c: PoSCommit) -> Seq<Seq<u64>> {
    Seq::new(c.spec_n_rows(), |r: int| field_words(row_of(c.spec_comm(), c.spec_n_cols(), r as nat)))
}

/// Whether `result` is the partial evaluation an honest server computes from commitment
/// `c`: each encoded column multiplied by the powers `(x^w)^r` of the rows.
pub open spec fn honest_partial_evaluation(c: PoSCommit, x: nat, w: nat, result: Seq<WriteableFt63>) -> bool {
    &&& result.len() == c.spec_n_cols()
    &&& forall|j: int|
        0 <= j < result.len() ==> (#[trigger] result[j]).value() == dot(
            side_left_values(x, c.spec_n_rows(), w),
            field_values(c.spec_column(j as nat)),
        )
}

proof fn lemma_answer_is_combination(c: PoSCommit, x: nat, w: nat, result: Seq<WriteableFt63>)
    requires
        c.wf(),
        honest_partial_evaluation(c, x, w, result),
    ensures
        forall|r: int| 0 <= r < encoded_rows(c).len() ==> (#[trigger] encoded_rows(c)[r]).len() == result.len(),
        forall|j: int|
            0 <= j < field_words(result).len() ==> #[trigger] field_words(result)[j] as nat == sum_to(
                |r: nat| side_left_values(x, c.spec_n_rows(), w)[r as int] * encoded_rows(c)[r as int][j] as nat,
                encoded_rows(c).len(),
            ) % p(),
{
    let n = c.spec_n_cols();
    let nr = c.spec_n_rows();
    let rows = encoded_rows(c);
    let left = side_left_values(x, nr, w);
    assert forall|r: int| 0 <= r < rows.len() implies (#[trigger] rows[r]).len() == result.len() by {
        assert(r * n + n <= nr * n) by (nonlinear_arith)
            requires 0 <= r < nr;
    }
    assert forall|j: int| 0 <= j < field_words(result).len() implies #[trigger] field_words(result)[j] as nat
        == sum_to(|r: nat| left[r as int] * rows[r as int][j] as nat, rows.len()) % p() by {
        let col = field_values(c.spec_column(j as nat));
        lemma_mont_value_bound(result[j].repr());
        assert(field_words(result)[j] as nat == result[j].value());
        lemma_dot_prefix_sum(left, col, nr);
        let f1 = |i: nat| left[i as int] * col[i as int];
        let f2 = |r: nat| left[r as int] * rows[r as int][j] as nat;
        assert forall|r: nat| r < nr implies #[trigger] f1(r) == f2(r) by {
            assert(r * n + n <= nr * n) by (nonlinear_arith)
                requires r < nr;
            assert(row_of(c.spec_comm(), n, r)[j] == c.spec_comm()[r * n + j]);
            lemma_mont_value_bound(c.spec_comm()[r * n + j].repr());
        }
        lemma_sum_ext(f1, f2, nr);
    }
}

/// The decoded answer of an honest server at position `k`: the padded data rows
/// combined with the powers `(x^w)^r`.
proof fn lemma_decoded_answer(c: PoSCommit, x: nat, w: nat, result: Seq<WriteableFt63>)
    requires
        c.wf(),
        honest_partial_evaluation(c, x, w, result),
    ensures
        forall|k: int|
            0 <= k < result.len() ==> #[trigger] ifft_oi_of(field_words(result))[k] as nat == sum_to(
                |r: nat| side_left_values(x, c.spec_n_rows(), w)[r as int] * padded_words(
                    row_of(c.spec_coeffs(), c.spec_n_per_row(), r),
                    c.spec_n_cols(),
                )[k] as nat,
                c.spec_n_rows(),
            ) % p(),
{
    let rows = encoded_rows(c);
    let left = side_left_values(x, c.spec_n_rows(), w);
    lemma_answer_is_combination(c, x, w, result);
    lemma_ifft_of_combination(rows, left, field_words(result));
    assert forall|k: int| 0 <= k < result.len() implies #[trigger] ifft_oi_of(field_words(result))[k] as nat == sum_to(
        |r: nat| left[r as int] * padded_words(row_of(c.spec_coeffs(), c.spec_n_per_row(), r), c.spec_n_cols())[k] as nat,
        c.spec_n_rows(),
    ) % p() by {
        assert(field_words(result).len() == result.len());
        let f1 = |r: nat| left[r as int] * ifft_oi_of(rows[r as int])[k] as nat;
        let f2 = |r: nat| left[r as int] * padded_words(row_of(c.spec_coeffs(), c.spec_n_per_row(), r), c.spec_n_cols())[k] as nat;
        assert forall|r: nat| r < c.spec_n_rows() implies #[trigger] f1(r) == f2(r) by {
            assert(rows[r as int] == field_words(row_of(c.spec_comm(), c.spec_n_cols(), r)));
        }
        lemma_sum_ext(f1, f2, c.spec_n_rows());
    }
}

/// The padded data value at row `r`, position `k` of a commitment, as a number.
pub open spec fn padded_value(c: PoSCommit, r: nat, k: nat) -> nat {
    padded_words(row_of(c.spec_coeffs(), c.spec_n_per_row(), r), c.spec_n_cols())[k as int] as nat
}

/// The terms `x^k * ((x^w)^r * data[r][k])` of the evaluation, as a double sum.
pub open spec fn evaluation_term(c: PoSCommit, x: nat, w: nat, r: nat, k: nat) -> nat {
    field_pow(x, k) * (side_left_values(x, c.spec_n_rows(), w)[r as int] * padded_value(c, r, k))
}

proof fn lemma_answer_double_sum(c: PoSCommit, x: nat, w: nat, result: Seq<WriteableFt63>)
    requires
        c.wf(),
        honest_partial_evaluation(c, x, w, result),
        c.spec_n_per_row() <= w <= c.spec_n_cols(),
    ensures
        claimed_evaluation(result, x, w) == sum_to(
            |r: nat| sum_to(|k: nat| evaluation_term(c, x, w, r, k), w),
            c.spec_n_rows(),
        ) % p(),
{
    reveal(ifft_oi_of);
    lemma_p_positive();
    let m = p() as int;
    let nr = c.spec_n_rows();
    let left = side_left_values(x, nr, w);
    let d = ifft_oi_of(field_words(result));
    let dv = words_values(d);
    let rv = side_right_values(x, w);
    lemma_decoded_answer(c, x, w, result);
    assert(dv.len() == c.spec_n_cols());
    lemma_dot_prefix_sum(dv, rv, w);
    let a_term = |k: nat| dv[k as int] * rv[k as int];
    let g = |r: nat, k: nat| evaluation_term(c, x, w, r, k);
    let gk = |k: nat| sum_to(|r: nat| g(r, k), nr);
    assert forall|k: nat| k < w implies #[trigger] a_term(k) % p() == gk(k) % p() by {
        let xk = field_pow(x, k);
        let t = |r: nat| left[r as int] * padded_value(c, r, k);
        let tk = sum_to(t, nr);
        assert(dv[k as int] == d[k as int] as nat);
        assert(d[k as int] as nat == tk % p()) by {
            lemma_sum_ext(
                |r: nat| left[r as int] * padded_words(row_of(c.spec_coeffs(), c.spec_n_per_row(), r), c.spec_n_cols())[k as int] as nat,
                t,
                nr,
            );
        }
        assert(rv[k as int] == xk);
        lemma_mul_mod_noop_left(tk as int, xk as int, m);
        lemma_sum_scale(xk, t, |r: nat| g(r, k), nr);
        assert(tk * xk == xk * tk) by (nonlinear_arith);
    }
    lemma_sum_mod(a_term, gk, w);
    lemma_sum_swap(g, nr, w);
    assert(claimed_evaluation(result, x, w) == dot_prefix(dv, rv, w));
    let inner = |k: nat| sum_to(|r: nat| g(r, k), nr);
    lemma_sum_ext(gk, inner, w);
    let outer = |r: nat| sum_to(|j: nat| g(r, j), w);
    let tgt = |r: nat| sum_to(|k: nat| evaluation_term(c, x, w, r, k), w);
    assert forall|r: nat| r < nr implies #[trigger] outer(r) == tgt(r) by {
        lemma_sum_ext(|j: nat| g(r, j), |k: nat| evaluation_term(c, x, w, r, k), w);
    }
    lemma_sum_ext(outer, tgt, nr);
}

proof fn lemma_poly_double_sum(c: PoSCommit, x: nat, w: nat)
    requires
        c.wf(),
        c.spec_n_per_row() <= w <= c.spec_n_cols(),
    ensures
        poly_eval(spread_rows(field_values(c.spec_coeffs()), c.spec_n_per_row(), w, c.spec_n_rows()), x) % p()
            == sum_to(|r: nat| sum_to(|k: nat| evaluation_term(c, x, w, r, k), w), c.spec_n_rows()) % p(),
{
    lemma_p_positive();
    let m = p() as int;
    let nr = c.spec_n_rows();
    let pre = c.spec_n_per_row();
    let n = c.spec_n_cols();
    let left = side_left_values(x, nr, w);
    let sp = spread_rows(field_values(c.spec_coeffs()), pre, w, nr);
    lemma_poly_eval_sum(sp, x);
    let f = |i: nat| sp[i as int] * field_pow(x, i);
    lemma_sum_split(f, nr, w);
    let h = |r: nat| sum_to(|k: nat| f(r * w + k), w);
    let g = |r: nat| sum_to(|k: nat| evaluation_term(c, x, w, r, k), w);
    assert forall|r: nat| r < nr implies #[trigger] h(r) % p() == g(r) % p() by {
        let f1 = |k: nat| f(r * w + k);
        let g1 = |k: nat| evaluation_term(c, x, w, r, k);
        assert forall|k: nat| k < w implies #[trigger] f1(k) % p() == g1(k) % p() by {
            let i = r * w + k;
            assert(i < nr * w) by (nonlinear_arith)
                requires r < nr, k < w, i == r * w + k;
            vstd::arithmetic::div_mod::lemma_fundamental_div_mod_converse(i as int, w as int, r as int, k as int);
            let pv = padded_value(c, r, k);
            assert(r * pre + pre <= nr * pre) by (nonlinear_arith)
                requires r < nr;
            if k < pre {
                let e = c.spec_coeffs()[(r * pre + k) as int];
                assert(row_of(c.spec_coeffs(), pre, r)[k as int] == e);
                lemma_mont_value_bound(e.repr());
                assert(pv == e.value());
                assert(sp[i as int] == e.value());
            } else {
                assert(pv == 0);
                assert(sp[i as int] == 0);
            }
            assert(sp[i as int] == pv);
            let xk = field_pow(x, k);
            let lr = left[r as int];
            lemma_field_pow_mul(x, w, r);
            assert(i == w * r + k) by (nonlinear_arith)
                requires i == r * w + k;
            lemma_field_pow_add(x, w * r, k);
            assert(field_pow(x, i) == (lr * xk) % p());
            lemma_mul_mod_noop_right(pv as int, (lr * xk) as int, m);
            assert(pv * (lr * xk) == xk * (lr * pv)) by (nonlinear_arith);
        }
        lemma_sum_mod(f1, g1, w);
    }
    lemma_sum_mod(h, g, nr);
}

/// An honest server's partial evaluation, decoded and multiplied by the powers of the
/// point, gives the value at the point of the committed coefficients laid out `w` to a
/// row: with `w` the number of data columns, the polynomial of the committed
/// coefficients themselves.
pub proof fn lemma_honest_answer_value(c: PoSCommit, x: nat, w: nat, result: Seq<WriteableFt63>)
    requires
        c.wf(),
        honest_partial_evaluation(c, x, w, result),
        c.spec_n_per_row() <= w <= c.spec_n_cols(),
    ensures
        claimed_evaluation(result, x, w) == poly_eval(
            spread_rows(field_values(c.spec_coeffs()), c.spec_n_per_row(), w, c.spec_n_rows()),
            x,
        ),
{
    lemma_answer_double_sum(c, x, w, result);
    lemma_poly_double_sum(c, x, w);
    let sp = spread_rows(field_values(c.spec_coeffs()), c.spec_n_per_row(), w, c.spec_n_rows());
    crate::fields::lemma_poly_eval_shifted_bound(sp, x, 0);
    lemma_small_mod(poly_eval(sp, x), p());
}

} // verus!
