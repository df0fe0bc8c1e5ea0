//! Laws of the DFT over residues that the signal operations rely on: the transform is
//! linear, and it turns convolution into bin-by-bin multiplication.
use crate::dft::{dft, dft_sum, lemma_cong_add, lemma_cong_mul, lemma_cong_sub, sample_values};
use crate::fft::{combined_halves, twiddle_power};
use crate::idft::{
    lemma_dft_sum_as_sum, lemma_sum_cong, lemma_sum_ext, lemma_sum_of_zeros, lemma_sum_scale,
    lemma_sum_swap, sum_of,
};
use crate::math::{convolution, convolution_terms, sample_or};
use crate::sample::{fold_sum, repeated};
use crate::modular::{Residue, MODULUS};
use crate::signal::elementwise;
use vstd::arithmetic::div_mod::*;
use vstd::arithmetic::power::*;
use vstd::prelude::*;
use vstd::std_specs::ops::{AddSpec, MulSpec};

verus! {

proof fn lemma_dft_sum_of_sum(s: Seq<int>, u: Seq<int>, v: Seq<int>, w: int, k: nat, m: nat)
    requires
        forall|j: int| 0 <= j < m ==> #[trigger] s[j] % (MODULUS as int) == (u[j] + v[j]) % (
        MODULUS as int),
    ensures
        dft_sum(s, w, k, m) % (MODULUS as int) == (dft_sum(u, w, k, m) + dft_sum(v, w, k, m)) % (
        MODULUS as int),
    decreases m,
{
    if m > 0 {
        let m1 = (m - 1) as nat;
        let j = m1 as int;
        lemma_dft_sum_of_sum(s, u, v, w, k, m1);
        let pw = pow(w, (m1 * k) as nat);
        assert(s[j] % (MODULUS as int) == (u[j] + v[j]) % (MODULUS as int));
        lemma_cong_mul(s[j], pw, u[j] + v[j], pw);
        assert((u[j] + v[j]) * pw == u[j] * pw + v[j] * pw) by (nonlinear_arith);
        lemma_cong_add(
            dft_sum(s, w, k, m1),
            s[j] * pw,
            dft_sum(u, w, k, m1) + dft_sum(v, w, k, m1),
            u[j] * pw + v[j] * pw,
        );
    }
}

proof fn lemma_dft_sum_of_scaled(s: Seq<int>, u: Seq<int>, c: int, w: int, k: nat, m: nat)
    requires
        forall|j: int| 0 <= j < m ==> #[trigger] s[j] % (MODULUS as int) == (c * u[j]) % (MODULUS as int),
    ensures
        dft_sum(s, w, k, m) % (MODULUS as int) == (c * dft_sum(u, w, k, m)) % (MODULUS as int),
    decreases m,
{
    if m > 0 {
        let m1 = (m - 1) as nat;
        let j = m1 as int;
        lemma_dft_sum_of_scaled(s, u, c, w, k, m1);
        let pw = pow(w, (m1 * k) as nat);
        assert(s[j] % (MODULUS as int) == (c * u[j]) % (MODULUS as int));
        lemma_cong_mul(s[j], pw, c * u[j], pw);
        assert(c * (dft_sum(u, w, k, m1) + u[j] * pw) == c * dft_sum(u, w, k, m1) + (c * u[j]) * pw)
            by (nonlinear_arith);
        lemma_cong_add(dft_sum(s, w, k, m1), s[j] * pw, c * dft_sum(u, w, k, m1), (c * u[j]) * pw);
    }
}

/// The DFT is additive: the transform of two signals added sample by sample is the sum of
/// their transforms, bin by bin.
pub proof fn lemma_dft_additive(x: Seq<Residue>, y: Seq<Residue>, w: int)
    requires
        x.len() == y.len(),
    ensures
        dft(elementwise(x, y, |a: Residue, b: Residue| a.add_spec(b)), w) == elementwise(
            dft(x, w),
            dft(y, w),
            |a: Residue, b: Residue| a.add_spec(b),
        ),
{
    let p = MODULUS as int;
    let s = elementwise(x, y, |a: Residue, b: Residue| a.add_spec(b));
    let lhs = dft(s, w);
    let rhs = elementwise(dft(x, w), dft(y, w), |a: Residue, b: Residue| a.add_spec(b));
    let vs = sample_values(s);
    let vx = sample_values(x);
    let vy = sample_values(y);
    assert forall|j: int| 0 <= j < x.len() implies #[trigger] vs[j] % p == (vx[j] + vy[j]) % p by {
        lemma_mod_twice(vx[j] + vy[j], p);
    }
    assert forall|k: int| 0 <= k < x.len() implies #[trigger] lhs[k] == rhs[k] by {
        let n = x.len();
        lemma_dft_sum_of_sum(vs, vx, vy, w, k as nat, n);
        let dx = dft_sum(vx, w, k as nat, n);
        let dy = dft_sum(vy, w, k as nat, n);
        lemma_mod_twice(dx, p);
        lemma_mod_twice(dy, p);
        lemma_cong_add(dx % p, dy % p, dx, dy);
    }
    assert(lhs =~= rhs);
}

/// The DFT is homogeneous: the transform of a signal scaled by `factor` is its transform
/// scaled by `factor`.
pub proof fn lemma_dft_homogeneous(x: Seq<Residue>, factor: Residue, w: int)
    ensures
        dft(x.map_values(|a: Residue| a.mul_spec(factor)), w) == dft(x, w).map_values(
            |a: Residue| a.mul_spec(factor),
        ),
{
    let p = MODULUS as int;
    let c = factor.value as int;
    let s = x.map_values(|a: Residue| a.mul_spec(factor));
    let lhs = dft(s, w);
    let rhs = dft(x, w).map_values(|a: Residue| a.mul_spec(factor));
    let vs = sample_values(s);
    let vx = sample_values(x);
    assert forall|j: int| 0 <= j < x.len() implies #[trigger] vs[j] % p == (c * vx[j]) % p by {
        lemma_mod_twice(vx[j] * c, p);
        assert(vx[j] * c == c * vx[j]) by (nonlinear_arith);
    }
    assert forall|k: int| 0 <= k < x.len() implies #[trigger] lhs[k] == rhs[k] by {
        let n = x.len();
        lemma_dft_sum_of_scaled(vs, vx, c, w, k as nat, n);
        let dx = dft_sum(vx, w, k as nat, n);
        lemma_mod_twice(dx, p);
        lemma_cong_mul(dx % p, c, dx, c);
        assert(dx * c == c * dx) by (nonlinear_arith);
        assert((dx % p) * c == c * (dx % p)) by (nonlinear_arith);
    }
    assert(lhs =~= rhs);
}

/// A left-to-right sum of residues is the residue of the sum of their values.
proof fn lemma_fold_sum_residues(s: Seq<Residue>)
    requires
        s.len() >= 1,
    ensures
        fold_sum(s).value as int % (MODULUS as int) == sum_of(|i: int| s[i].value as int, s.len())
            % (MODULUS as int),
    decreases s.len(),
{
    let p = MODULUS as int;
    let n1 = (s.len() - 1) as nat;
    let vals = |i: int| s[i].value as int;
    if s.len() == 1 {
        assert(sum_of(vals, 1) == sum_of(vals, 0) + vals(0));
    } else {
        let d = s.drop_last();
        lemma_fold_sum_residues(d);
        lemma_sum_ext(|i: int| d[i].value as int, vals, n1);
        let f = fold_sum(d).value as int;
        let l = s.last().value as int;
        assert(fold_sum(s).value as int == (f + l) % p);
        lemma_mod_twice(f + l, p);
        lemma_mod_twice(l, p);
        lemma_cong_add(f, l, sum_of(vals, n1), l);
        assert(sum_of(vals, s.len()) == sum_of(vals, n1) + vals(n1 as int));
    }
}

/// Delaying the terms of a sum by `i` places, with nothing before the start, leaves the sum
/// of the first `n - i` terms.
proof fn lemma_sum_delayed(g: spec_fn(int) -> int, i: nat, n: nat)
    requires
        n >= i,
        forall|q: int| q < 0 ==> #[trigger] g(q) == 0,
    ensures
        sum_of(|t: int| g(t - i), n) == sum_of(g, (n - i) as nat),
    decreases n,
{
    if n == i {
        let f = |t: int| g(t - i);
        assert forall|t: int| 0 <= t < n implies #[trigger] f(t) == (|t: int| 0int)(t) by {
            assert(g(t - i) == 0);
        }
        lemma_sum_ext(f, |t: int| 0int, n);
        lemma_sum_of_zeros(n);
    } else {
        lemma_sum_delayed(g, i, (n - 1) as nat);
    }
}

/// Terms that are zero do not change a sum.
proof fn lemma_sum_zero_tail(g: spec_fn(int) -> int, m: nat, m2: nat)
    requires
        m <= m2,
        forall|q: int| m <= q < m2 ==> #[trigger] g(q) == 0,
    ensures
        sum_of(g, m) == sum_of(g, m2),
    decreases m2,
{
    if m2 > m {
        lemma_sum_zero_tail(g, m, (m2 - 1) as nat);
        assert(g(m2 - 1) == 0);
    }
}

/// `h[q]` for `0 <= q < n`, zero elsewhere.
spec fn padded_value(h: Seq<int>, n: nat, q: int) -> int {
    if 0 <= q < n {
        h[q]
    } else {
        0
    }
}

/// One term of the transform of a linear convolution: sample `i` of `x` meeting sample
/// `t - i` of `h`, weighted for bin `k` at time `t`.
spec fn convolution_product_term(x: Seq<int>, h: Seq<int>, n: nat, w: int, k: nat, i: int, t: int) -> int {
    pow(w, (t * k) as nat) * (x[i] * padded_value(h, n, t - i))
}

/// For fixed `i < a`, the row of the double sum is `x[i] w^(i k) H`.
proof fn lemma_convolution_row(
    x: Seq<int>,
    h: Seq<int>,
    w: int,
    k: nat,
    n: nat,
    b: nat,
    i: nat,
)
    requires
        i + b <= n,
        forall|q: int| b <= q < n ==> #[trigger] h[q] == 0,
    ensures
        sum_of(|t: int| convolution_product_term(x, h, n, w, k, i as int, t), n) == x[i as int] * (pow(
            w,
            i * k,
        ) * sum_of(|q: int| h[q] * pow(w, (q * k) as nat), n)),
{
    let xi = x[i as int];
    let wi = pow(w, i * k);
    let g = |q: int| padded_value(h, n, q) * pow(w, ((q + i) * k) as nat);
    let row = |t: int| convolution_product_term(x, h, n, w, k, i as int, t);
    // row(t) is x[i] times the delayed term g(t - i)
    let delayed = |t: int| g(t - i);
    assert forall|t: int| 0 <= t < n implies #[trigger] row(t) == xi * delayed(t) by {
        assert(t - i + i == t);
        assert(pow(w, (t * k) as nat) * (xi * padded_value(h, n, t - i)) == xi * (padded_value(h, n, t - i)
            * pow(w, (t * k) as nat))) by (nonlinear_arith);
    }
    lemma_sum_ext(row, |t: int| xi * delayed(t), n);
    lemma_sum_scale(delayed, xi, n);
    assert forall|q: int| q < 0 implies #[trigger] g(q) == 0 by {}
    lemma_sum_delayed(g, i, n);
    assert forall|q: int| (n - i) as nat <= q < n implies #[trigger] g(q) == 0 by {
        assert(h[q] == 0);
    }
    lemma_sum_zero_tail(g, (n - i) as nat, n);
    // g(q) is w^(i k) times the term of H
    let hterm = |q: int| h[q] * pow(w, (q * k) as nat);
    assert forall|q: int| 0 <= q < n implies #[trigger] g(q) == wi * hterm(q) by {
        assert((q + i) * k == q * k + i * k) by (nonlinear_arith);
        assert(q * k >= 0) by (nonlinear_arith)
            requires
                q >= 0,
        ;
        lemma_pow_adds(w, (q * k) as nat, i * k);
        assert(h[q] * (pow(w, (q * k) as nat) * wi) == wi * (h[q] * pow(w, (q * k) as nat)))
            by (nonlinear_arith);
    }
    lemma_sum_ext(g, |q: int| wi * hterm(q), n);
    lemma_sum_scale(hterm, wi, n);
}

/// The DFT of the linear convolution of two zero-padded signals is the product of their
/// DFTs, as sums of integers: with `x` zero from `a` on, `h` zero from `b` on and
/// `a + b - 1 <= n`, no product wraps past the end.
proof fn lemma_convolution_sums(x: Seq<int>, h: Seq<int>, w: int, k: nat, n: nat, a: nat, b: nat)
    requires
        a + b <= n + 1,
        b <= n,
        forall|i: int| a <= i < n ==> #[trigger] x[i] == 0,
        forall|q: int| b <= q < n ==> #[trigger] h[q] == 0,
    ensures
        sum_of(
            |t: int| sum_of(|i: int| x[i] * padded_value(h, n, t - i), n) * pow(w, (t * k) as nat),
            n,
        ) == sum_of(|i: int| x[i] * pow(w, (i * k) as nat), n) * sum_of(
            |q: int| h[q] * pow(w, (q * k) as nat),
            n,
        ),
{
    let hh = sum_of(|q: int| h[q] * pow(w, (q * k) as nat), n);
    let term = |i: int, t: int| convolution_product_term(x, h, n, w, k, i, t);
    let outer = |t: int| sum_of(|i: int| x[i] * padded_value(h, n, t - i), n) * pow(w, (t * k) as nat);
    let outer2 = |t: int| sum_of(|i: int| term(i, t), n);
    assert forall|t: int| 0 <= t < n implies #[trigger] outer(t) == outer2(t) by {
        let c = |i: int| x[i] * padded_value(h, n, t - i);
        lemma_sum_scale(c, pow(w, (t * k) as nat), n);
        lemma_sum_ext(|i: int| pow(w, (t * k) as nat) * c(i), |i: int| term(i, t), n);
        assert(sum_of(c, n) * pow(w, (t * k) as nat) == pow(w, (t * k) as nat) * sum_of(c, n))
            by (nonlinear_arith);
    }
    lemma_sum_ext(outer, outer2, n);
    lemma_sum_swap(term, n, n);
    let rows = |i: int| sum_of(|t: int| term(i, t), n);
    let xterm = |i: int| x[i] * pow(w, (i * k) as nat);
    assert forall|i: int| 0 <= i < n implies #[trigger] rows(i) == hh * xterm(i) by {
        assert(i * k >= 0) by (nonlinear_arith)
            requires
                i >= 0,
        ;
        lemma_sum_ext(
            |t: int| term(i, t),
            |t: int| convolution_product_term(x, h, n, w, k, i, t),
            n,
        );
        if i < a {
            lemma_convolution_row(x, h, w, k, n, b, i as nat);
            assert(x[i] * (pow(w, (i * k) as nat) * hh) == hh * (x[i] * pow(w, (i * k) as nat)))
                by (nonlinear_arith);
        } else {
            let f = |t: int| convolution_product_term(x, h, n, w, k, i, t);
            assert forall|t: int| 0 <= t < n implies #[trigger] f(t) == (|t: int| 0int)(t) by {
                assert(x[i] == 0);
                assert(pow(w, (t * k) as nat) * (x[i] * padded_value(h, n, t - i)) == 0)
                    by (nonlinear_arith)
                    requires
                        x[i] == 0,
                ;
            }
            lemma_sum_ext(f, |t: int| 0int, n);
            lemma_sum_of_zeros(n);
            assert(hh * (x[i] * pow(w, (i * k) as nat)) == 0) by (nonlinear_arith)
                requires
                    x[i] == 0,
            ;
        }
    }
    assert(sum_of(|k1: int| sum_of(|j: int| term(j, k1), n), n) == sum_of(outer2, n));
    lemma_sum_ext(rows, |i: int| hh * xterm(i), n);
    lemma_sum_scale(xterm, hh, n);
    assert(hh * sum_of(xterm, n) == sum_of(xterm, n) * hh) by (nonlinear_arith);
}

/// The convolution theorem: for two signals zero-extended to `n` samples, where `n` leaves
/// room for their whole linear convolution, the DFT of the first `n` samples of the
/// convolution is the product, bin by bin, of their DFTs (for any `w`).
pub proof fn lemma_convolution_theorem(data: Seq<Residue>, ir: Seq<Residue>, n: nat, w: int)
    requires
        data.len() >= 1,
        ir.len() >= 1,
        data.len() + ir.len() - 1 <= n,
    ensures
        ({
            let zero = Residue { value: 0 };
            let x = data + repeated(zero, (n - data.len()) as nat);
            let h = ir + repeated(zero, (n - ir.len()) as nat);
            dft(convolution(x, h, zero).take(n as int), w) == elementwise(
                dft(x, w),
                dft(h, w),
                |a: Residue, b: Residue| a.mul_spec(b),
            )
        }),
{
    let p = MODULUS as int;
    let zero = Residue { value: 0 };
    let x = data + repeated(zero, (n - data.len()) as nat);
    let h = ir + repeated(zero, (n - ir.len()) as nat);
    let conv = convolution(x, h, zero);
    let ct = conv.take(n as int);
    let vx = sample_values(x);
    let vh = sample_values(h);
    let vc = sample_values(ct);
    let lhs = dft(ct, w);
    let rhs = elementwise(dft(x, w), dft(h, w), |a: Residue, b: Residue| a.mul_spec(b));
    assert(x.len() == n && h.len() == n);
    // each output of the convolution is the sum of the products, modulo MODULUS
    let c = |t: int| sum_of(|i: int| vx[i] * padded_value(vh, n, t - i), n);
    assert forall|t: int| 0 <= t < n implies #[trigger] vc[t] % p == c(t) % p by {
        let terms = convolution_terms(x, h, t, zero);
        assert(ct[t] == fold_sum(terms));
        lemma_fold_sum_residues(terms);
        let tv = |i: int| terms[i].value as int;
        let cv = |i: int| vx[i] * padded_value(vh, n, t - i);
        assert forall|i: int| 0 <= i < n implies #[trigger] tv(i) % p == cv(i) % p by {
            let so = sample_or(h, t - i, zero);
            assert(so.value as int == padded_value(vh, n, t - i));
            lemma_mod_twice(vx[i] * padded_value(vh, n, t - i), p);
        }
        lemma_sum_cong(tv, cv, n);
        lemma_mod_twice(vc[t], p);
    }
    assert forall|i: int| data.len() <= i < n implies #[trigger] vx[i] == 0 by {}
    assert forall|q: int| ir.len() <= q < n implies #[trigger] vh[q] == 0 by {}
    assert forall|k: int| 0 <= k < n implies #[trigger] lhs[k] == rhs[k] by {
        let kk = k as nat;
        lemma_dft_sum_as_sum(vc, w, kk, n);
        let l1 = |t: int| vc[t] * pow(w, (t * kk) as nat);
        let l2 = |t: int| c(t) * pow(w, (t * kk) as nat);
        assert forall|t: int| 0 <= t < n implies #[trigger] l1(t) % p == l2(t) % p by {
            lemma_cong_mul(vc[t], pow(w, (t * kk) as nat), c(t), pow(w, (t * kk) as nat));
        }
        lemma_sum_cong(l1, l2, n);
        lemma_sum_ext(
            l2,
            |t: int| sum_of(|i: int| vx[i] * padded_value(vh, n, t - i), n) * pow(w, (t * kk) as nat),
            n,
        );
        lemma_convolution_sums(vx, vh, w, kk, n, data.len(), ir.len());
        let xs = sum_of(|i: int| vx[i] * pow(w, (i * kk) as nat), n);
        let hs = sum_of(|q: int| vh[q] * pow(w, (q * kk) as nat), n);
        lemma_dft_sum_as_sum(vx, w, kk, n);
        lemma_dft_sum_as_sum(vh, w, kk, n);
        lemma_mod_twice(xs, p);
        lemma_mod_twice(hs, p);
        lemma_cong_mul(xs % p, hs % p, xs, hs);
        assert(lhs[k].value as int == dft_sum(vc, w, kk, n) % p);
        assert(rhs[k].value as int == ((xs % p) * (hs % p)) % p);
    }
    assert(lhs =~= rhs);
}

/// Over residues the twiddle factor of position `j` is `one * step^j`.
pub proof fn lemma_twiddle_power_is_power(one: Residue, step: Residue, j: nat)
    ensures
        twiddle_power(one, step, j).value as int % (MODULUS as int) == (one.value * pow(
            step.value as int,
            j,
        )) % (MODULUS as int),
    decreases j,
{
    let p = MODULUS as int;
    let o = one.value as int;
    let st = step.value as int;
    reveal(pow);
    if j == 0 {
        assert(o * 1 == o);
    } else {
        let j1 = (j - 1) as nat;
        lemma_twiddle_power_is_power(one, step, j1);
        let prev = twiddle_power(one, step, j1).value as int;
        assert(twiddle_power(one, step, j).value as int == (prev * st) % p);
        lemma_mod_twice(prev * st, p);
        lemma_cong_mul(prev, st, o * pow(st, j1), st);
        assert(pow(st, j) == st * pow(st, j1));
        assert(o * pow(st, j1) * st == o * pow(st, j)) by (nonlinear_arith)
            requires
                pow(st, j) == st * pow(st, j1),
        ;
    }
}

/// Over residues, recombining the transforms of the even and odd halves gives, at position
/// `j`, `evens[j] + one step^j odds[j]`, and half a block later `evens[j] - one step^j odds[j]`.
pub proof fn lemma_combined_halves_residues(
    evens: Seq<Residue>,
    odds: Seq<Residue>,
    step: Residue,
    one: Residue,
)
    requires
        evens.len() == odds.len(),
    ensures
        combined_halves(evens, odds, step, one).len() == 2 * evens.len(),
        forall|j: int|
            0 <= j < evens.len() ==> #[trigger] combined_halves(evens, odds, step, one)[j].value as int
                % (MODULUS as int) == (evens[j].value + one.value * pow(step.value as int, j as nat)
                * odds[j].value) % (MODULUS as int),
        forall|j: int|
            0 <= j < evens.len() ==> #[trigger] combined_halves(evens, odds, step, one)[j
                + evens.len()].value as int % (MODULUS as int) == (evens[j].value - one.value * pow(
                step.value as int,
                j as nat,
            ) * odds[j].value) % (MODULUS as int),
{
    let c = combined_halves(evens, odds, step, one);
    assert forall|j: int| 0 <= j < evens.len() implies #[trigger] c[j].value as int % (MODULUS as int)
        == (evens[j].value + one.value * pow(step.value as int, j as nat) * odds[j].value) % (
    MODULUS as int) by {
        lemma_combined_at(evens, odds, step, one, j);
    }
    assert forall|j: int| 0 <= j < evens.len() implies #[trigger] c[j + evens.len()].value as int % (
    MODULUS as int) == (evens[j].value - one.value * pow(step.value as int, j as nat)
        * odds[j].value) % (MODULUS as int) by {
        lemma_combined_at(evens, odds, step, one, j);
    }
}

proof fn lemma_combined_at(evens: Seq<Residue>, odds: Seq<Residue>, step: Residue, one: Residue, j: int)
    requires
        evens.len() == odds.len(),
        0 <= j < evens.len(),
    ensures
        combined_halves(evens, odds, step, one)[j].value as int % (MODULUS as int) == (evens[j].value
            + one.value * pow(step.value as int, j as nat) * odds[j].value) % (MODULUS as int),
        combined_halves(evens, odds, step, one)[j + evens.len()].value as int % (MODULUS as int) == (
        evens[j].value - one.value * pow(step.value as int, j as nat) * odds[j].value) % (
        MODULUS as int),
{
    let p = MODULUS as int;
    let h = evens.len() as int;
    let c = combined_halves(evens, odds, step, one);
    let t = twiddle_power(one, step, j as nat);
    let tv = t.value as int;
    let tw = one.value * pow(step.value as int, j as nat);
    let e = evens[j].value as int;
    let o = odds[j].value as int;
    lemma_twiddle_power_is_power(one, step, j as nat);
    let prod = (tv * o) % p;
    lemma_mod_twice(tv * o, p);
    lemma_cong_mul(tv, o, tw, o);
    lemma_cong_add(e, prod, e, tw * o);
    lemma_cong_sub(e, prod, e, tw * o);
    lemma_mod_twice(e + prod, p);
    lemma_mod_twice(e - prod, p);
    assert(c[j].value as int == (e + prod) % p);
    assert(c[j + h].value as int == (e - prod) % p);
}

} // verus!
