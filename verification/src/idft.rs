//! The inverse radix-2 FFT undoes the forward one on residues: transforming with the powers
//! of a root of unity and then with the powers of its inverse, and dividing by the number of
//! samples, gives back the samples.
use crate::dft::{lemma_cong_add, lemma_cong_mul, lemma_minus_one_squared, lemma_pow_of_square};
use crate::dft::{
    dft, dft_sum, half_turn, lemma_fft_computes_dft, reduced, root_twiddles, sample_values,
};
use crate::fft::radix_2_transform;
use crate::modular::{Residue, MODULUS};
use vstd::std_specs::ops::DivSpec;
use vstd::arithmetic::div_mod::*;
use vstd::arithmetic::mul::*;
use vstd::arithmetic::power::*;
use vstd::arithmetic::power2::*;
use vstd::prelude::*;

verus! {

/// `f(0) + f(1) + ... + f(n - 1)`.
pub open spec fn sum_of(f: spec_fn(int) -> int, n: nat) -> int
    decreases n,
{
    if n == 0 {
        0
    } else {
        sum_of(f, (n - 1) as nat) + f(n - 1)
    }
}

pub(crate) proof fn lemma_sum_ext(f: spec_fn(int) -> int, g: spec_fn(int) -> int, n: nat)
    requires
        forall|j: int| 0 <= j < n ==> #[trigger] f(j) == g(j),
    ensures
        sum_of(f, n) == sum_of(g, n),
    decreases n,
{
    if n > 0 {
        lemma_sum_ext(f, g, (n - 1) as nat);
    }
}

pub(crate) proof fn lemma_sum_cong(f: spec_fn(int) -> int, g: spec_fn(int) -> int, n: nat)
    requires
        forall|j: int| 0 <= j < n ==> #[trigger] f(j) % (MODULUS as int) == g(j) % (MODULUS as int),
    ensures
        sum_of(f, n) % (MODULUS as int) == sum_of(g, n) % (MODULUS as int),
    decreases n,
{
    if n > 0 {
        let n1 = (n - 1) as nat;
        lemma_sum_cong(f, g, n1);
        assert(f(n1 as int) % (MODULUS as int) == g(n1 as int) % (MODULUS as int));
        lemma_add_mod_noop(sum_of(f, n1), f(n1 as int), MODULUS as int);
        lemma_add_mod_noop(sum_of(g, n1), g(n1 as int), MODULUS as int);
    }
}

pub(crate) proof fn lemma_sum_add(f: spec_fn(int) -> int, g: spec_fn(int) -> int, n: nat)
    ensures
        sum_of(|j: int| f(j) + g(j), n) == sum_of(f, n) + sum_of(g, n),
    decreases n,
{
    if n > 0 {
        lemma_sum_add(f, g, (n - 1) as nat);
    }
}

pub(crate) proof fn lemma_sum_scale(f: spec_fn(int) -> int, c: int, n: nat)
    ensures
        sum_of(|j: int| c * f(j), n) == c * sum_of(f, n),
    decreases n,
{
    if n > 0 {
        let n1 = (n - 1) as nat;
        lemma_sum_scale(f, c, n1);
        lemma_mul_is_distributive_add(c, sum_of(f, n1), f(n1 as int));
    }
}

/// Exchanging the order of a double sum.
pub(crate) proof fn lemma_sum_swap(f: spec_fn(int, int) -> int, n: nat, m: nat)
    ensures
        sum_of(|k: int| sum_of(|j: int| f(j, k), m), n) == sum_of(
            |j: int| sum_of(|k: int| f(j, k), n),
            m,
        ),
    decreases n,
{
    if n > 0 {
        let n1 = (n - 1) as nat;
        lemma_sum_swap(f, n1, m);
        let a = |j: int| sum_of(|k: int| f(j, k), n1);
        let b = |j: int| f(j, n1 as int);
        lemma_sum_add(a, b, m);
        let row = |j: int| sum_of(|k: int| f(j, k), n);
        assert forall|j: int| 0 <= j < m implies #[trigger] row(j) == a(j) + b(j) by {
            assert(sum_of(|k: int| f(j, k), n) == sum_of(|k: int| f(j, k), n1) + f(j, n1 as int));
        }
        lemma_sum_ext(row, |j: int| a(j) + b(j), m);
        assert(sum_of(|k: int| sum_of(|j: int| f(j, k), m), n) == sum_of(
            |k: int| sum_of(|j: int| f(j, k), m),
            n1,
        ) + sum_of(|j: int| f(j, n1 as int), m));
        assert(sum_of(b, m) == sum_of(|j: int| f(j, n1 as int), m));
    } else {
        let row = |j: int| sum_of(|k: int| f(j, k), n);
        assert forall|j: int| 0 <= j < m implies #[trigger] row(j) == (|j: int| 0int)(j) by {}
        lemma_sum_ext(row, |j: int| 0int, m);
        lemma_sum_of_zeros(m);
    }
}

pub(crate) proof fn lemma_sum_of_zeros(n: nat)
    ensures
        sum_of(|j: int| 0int, n) == 0,
    decreases n,
{
    if n > 0 {
        lemma_sum_of_zeros((n - 1) as nat);
    }
}

/// A sum whose terms other than term `l` are all multiples of `MODULUS` is congruent to term
/// `l`.
proof fn lemma_sum_single(f: spec_fn(int) -> int, l: int, n: nat)
    requires
        0 <= l < n,
        forall|j: int| 0 <= j < n && j != l ==> #[trigger] f(j) % (MODULUS as int) == 0,
    ensures
        sum_of(f, n) % (MODULUS as int) == f(l) % (MODULUS as int),
    decreases n,
{
    let p = MODULUS as int;
    let n1 = (n - 1) as nat;
    if n1 as int == l {
        if n1 > 0 {
            lemma_sum_zero(f, n1);
        } else {
        }
        lemma_add_mod_noop(sum_of(f, n1), f(l), p);
        lemma_mod_twice(f(l), p);
        assert(sum_of(f, n1) % p == 0);
        assert((0 + f(l) % p) % p == f(l) % p);
    } else {
        lemma_sum_single(f, l, n1);
        assert(f(n1 as int) % p == 0);
        lemma_add_mod_noop(sum_of(f, n1), f(n1 as int), p);
        lemma_mod_twice(f(l), p);
        lemma_mod_twice(sum_of(f, n1), p);
    }
}

pub(crate) proof fn lemma_sum_zero(f: spec_fn(int) -> int, n: nat)
    requires
        forall|j: int| 0 <= j < n ==> #[trigger] f(j) % (MODULUS as int) == 0,
    ensures
        sum_of(f, n) % (MODULUS as int) == 0,
    decreases n,
{
    if n > 0 {
        let n1 = (n - 1) as nat;
        lemma_sum_zero(f, n1);
        assert(f(n1 as int) % (MODULUS as int) == 0);
        lemma_add_mod_noop(sum_of(f, n1), f(n1 as int), MODULUS as int);
    }
}

/// `1 + u + u^2 + ... + u^(n-1)`.
pub open spec fn geometric(u: int, n: nat) -> int {
    sum_of(|k: int| pow(u, k as nat), n)
}

proof fn lemma_geometric_concat(u: int, s: nat, t: nat)
    ensures
        geometric(u, s + t) == geometric(u, s) + pow(u, s) * geometric(u, t),
    decreases t,
{
    if t > 0 {
        let t1 = (t - 1) as nat;
        lemma_geometric_concat(u, s, t1);
        lemma_pow_adds(u, s, t1);
        assert(geometric(u, s + t) == geometric(u, (s + t1) as nat) + pow(u, (s + t1) as nat));
        assert(geometric(u, t) == geometric(u, t1) + pow(u, t1));
        lemma_mul_is_distributive_add(pow(u, s), geometric(u, t1), pow(u, t1));
    }
}

proof fn lemma_geometric_mul(u: int, a: nat, b: nat)
    ensures
        geometric(u, a * b) == geometric(u, a) * geometric(pow(u, a), b),
    decreases b,
{
    if b == 0 {
        assert(a * b == 0) by (nonlinear_arith)
            requires
                b == 0,
        ;
    } else {
        let b1 = (b - 1) as nat;
        lemma_geometric_mul(u, a, b1);
        assert(a * b1 >= 0 && a * b == a * b1 + a) by (nonlinear_arith)
            requires
                b1 == b - 1,
                a >= 0,
                b1 >= 0,
        ;
        lemma_geometric_concat(u, (a * b1) as nat, a);
        lemma_pow_multiplies(u, a, b1);
        let ga = geometric(u, a);
        let gb1 = geometric(pow(u, a), b1);
        assert(geometric(pow(u, a), b) == gb1 + pow(pow(u, a), b1));
        assert(ga * (gb1 + pow(u, (a * b1) as nat)) == ga * gb1 + pow(u, (a * b1) as nat) * ga)
            by (nonlinear_arith);
    }
}

/// When `u^h` is `-1` modulo `MODULUS`, the geometric sum over `2 h c` terms vanishes.
proof fn lemma_geometric_vanishes(u: int, h: nat, c: nat)
    requires
        pow(u, h) % (MODULUS as int) == MODULUS - 1,
    ensures
        geometric(u, h * (2 * c)) % (MODULUS as int) == 0,
{
    let p = MODULUS as int;
    let v = pow(u, h);
    lemma_geometric_mul(u, h, 2 * c);
    lemma_geometric_mul(v, 2, c);
    reveal_with_fuel(sum_of, 3);
    lemma_pow0(v);
    lemma_pow1(v);
    assert(geometric(v, 2) == 1 + v);
    lemma_add_mod_noop(1, v, p);
    lemma_small_mod(1, p as nat);
    assert(geometric(v, 2) % p == 0);
    lemma_cong_mul(geometric(v, 2), geometric(pow(v, 2), c), 0, geometric(pow(v, 2), c));
    lemma_cong_mul(geometric(u, h), geometric(v, 2 * c), geometric(u, h), 0);
}

/// When `u` is 1 modulo `MODULUS`, the geometric sum over `n` terms is `n`.
proof fn lemma_geometric_of_one(u: int, n: nat)
    requires
        u % (MODULUS as int) == 1,
    ensures
        geometric(u, n) % (MODULUS as int) == n as int % (MODULUS as int),
    decreases n,
{
    let p = MODULUS as int;
    if n > 0 {
        let n1 = (n - 1) as nat;
        lemma_geometric_of_one(u, n1);
        lemma_pow_mod_noop(u, n1, p);
        lemma1_pow(n1);
        lemma_small_mod(1, p as nat);
        assert(geometric(u, n) == geometric(u, n1) + pow(u, n1));
        lemma_cong_add(geometric(u, n1), pow(u, n1), n1 as int, 1);
    }
}

/// `d` as a power of two times an odd number.
proof fn odd_part(d: nat) -> (r: (nat, nat))
    requires
        d > 0,
    ensures
        d == pow2(r.0) * r.1,
        r.1 % 2 == 1,
    decreases d,
{
    if d % 2 == 1 {
        lemma2_to64();
        (0, d)
    } else {
        let (a, o) = odd_part(d / 2);
        lemma_pow2_unfold(a + 1);
        assert(d == 2 * (pow2(a) * o));
        assert(2 * (pow2(a) * o) == (2 * pow2(a)) * o) by (nonlinear_arith);
        (a + 1, o)
    }
}

proof fn lemma_minus_one_odd_power(b: int, o: nat)
    requires
        b % (MODULUS as int) == MODULUS - 1,
        o % 2 == 1,
    ensures
        pow(b, o) % (MODULUS as int) == MODULUS - 1,
{
    let p = MODULUS as int;
    let q = (o / 2) as nat;
    assert(o == 2 * q + 1);
    lemma_pow_adds(b, 2 * q, 1);
    lemma_pow1(b);
    lemma_pow_multiplies(b, 2, q);
    lemma_minus_one_squared(b);
    lemma_pow_mod_noop(pow(b, 2), q, p);
    lemma1_pow(q);
    lemma_small_mod(1, p as nat);
    lemma_cong_mul(pow(b, 2 * q), b, 1, b);
}

/// For a root `r` of order `2^levels` (`r^(2^(levels-1))` is `-1`) and `0 < d < 2^levels`,
/// the powers of `r^d` over `2^levels` terms sum to zero.
proof fn lemma_root_power_sum(r: int, levels: nat, d: nat)
    requires
        levels >= 1,
        pow(r, pow2((levels - 1) as nat)) % (MODULUS as int) == MODULUS - 1,
        0 < d < pow2(levels),
    ensures
        geometric(pow(r, d), pow2(levels)) % (MODULUS as int) == 0,
{
    let (a, o) = odd_part(d);
    if a >= levels {
        if a > levels {
            lemma_pow2_strictly_increases(levels, a);
        }
        assert(pow2(a) * o >= pow2(a)) by (nonlinear_arith)
            requires
                o >= 1,
        ;
        assert(false);
    }
    let l1 = (levels - 1) as nat;
    let h = pow2((l1 - a) as nat);
    lemma_pow2_adds(a, (l1 - a) as nat);
    assert(d * h == pow2(l1) * o) by (nonlinear_arith)
        requires
            d == pow2(a) * o,
            pow2(a) * h == pow2(l1),
    ;
    lemma_pow_multiplies(r, d, h);
    lemma_pow_multiplies(r, pow2(l1), o);
    lemma_minus_one_odd_power(pow(r, pow2(l1)), o);
    lemma_geometric_vanishes(pow(r, d), h, pow2(a));
    lemma_pow2_unfold(levels);
    assert(h * (2 * pow2(a)) == pow2(levels)) by (nonlinear_arith)
        requires
            pow2(a) * h == pow2(l1),
            pow2(levels) == 2 * pow2(l1),
    ;
}

pub(crate) proof fn lemma_dft_sum_as_sum(y: Seq<int>, v: int, k: nat, n: nat)
    ensures
        dft_sum(y, v, k, n) == sum_of(|j: int| y[j] * pow(v, (j * k) as nat), n),
    decreases n,
{
    if n > 0 {
        lemma_dft_sum_as_sum(y, v, k, (n - 1) as nat);
    }
}

proof fn lemma_geometric_cong(u1: int, u2: int, n: nat)
    requires
        u1 % (MODULUS as int) == u2 % (MODULUS as int),
    ensures
        geometric(u1, n) % (MODULUS as int) == geometric(u2, n) % (MODULUS as int),
{
    let p = MODULUS as int;
    let f1 = |k: int| pow(u1, k as nat);
    let f2 = |k: int| pow(u2, k as nat);
    assert forall|k: int| 0 <= k < n implies #[trigger] f1(k) % p == f2(k) % p by {
        lemma_pow_mod_noop(u1, k as nat, p);
        lemma_pow_mod_noop(u2, k as nat, p);
    }
    lemma_sum_cong(f1, f2, n);
}

/// The inverse root is a root of the same order.
proof fn lemma_inverse_root_half_turn(w: int, wi: int, levels: nat)
    requires
        levels >= 1,
        half_turn(w, levels),
        (w * wi) % (MODULUS as int) == 1,
    ensures
        half_turn(wi, levels),
{
    let p = MODULUS as int;
    let h = pow2((levels - 1) as nat);
    let a = pow(w, h);
    let b = pow(wi, h);
    lemma_pow_distributes(w, wi, h);
    lemma_pow_mod_noop(w * wi, h, p);
    lemma1_pow(h);
    lemma_small_mod(1, p as nat);
    assert((a * b) % p == 1);
    lemma_square_is_pow2(a);
    lemma_minus_one_squared(a);
    // b = (a a) b = a (a b), which is a modulo p, which is -1
    lemma_cong_mul(a * a, b, 1, b);
    assert(a * a * b == a * (a * b)) by (nonlinear_arith);
    lemma_cong_mul(a, a * b, a, 1);
}

/// The geometric sum of `w^j wi^l` over `n = 2^levels` terms is `n` when `j == l` and `0`
/// otherwise.
proof fn lemma_orthogonality(w: int, wi: int, levels: nat, j: nat, l: nat)
    requires
        levels >= 1,
        half_turn(w, levels),
        half_turn(wi, levels),
        (w * wi) % (MODULUS as int) == 1,
        j < pow2(levels),
        l < pow2(levels),
    ensures
        geometric(pow(w, j) * pow(wi, l), pow2(levels)) % (MODULUS as int) == (if j == l {
            pow2(levels) as int
        } else {
            0
        }) % (MODULUS as int),
{
    let p = MODULUS as int;
    let n = pow2(levels);
    let u = pow(w, j) * pow(wi, l);
    if j == l {
        lemma_pow_distributes(w, wi, j);
        lemma_pow_mod_noop(w * wi, j, p);
        lemma1_pow(j);
        lemma_small_mod(1, p as nat);
        lemma_geometric_of_one(u, n);
    } else if j > l {
        let d = (j - l) as nat;
        lemma_pow_adds(w, d, l);
        lemma_pow_distributes(w, wi, l);
        lemma_pow_mod_noop(w * wi, l, p);
        lemma1_pow(l);
        lemma_small_mod(1, p as nat);
        assert(u == pow(w, d) * (pow(w, l) * pow(wi, l))) by (nonlinear_arith)
            requires
                u == pow(w, j) * pow(wi, l),
                pow(w, j) == pow(w, d) * pow(w, l),
        ;
        lemma_cong_mul(pow(w, d), pow(w, l) * pow(wi, l), pow(w, d), 1);
        lemma_geometric_cong(u, pow(w, d), n);
        lemma_root_power_sum(w, levels, d);
        lemma_small_mod(0, p as nat);
    } else {
        let d = (l - j) as nat;
        lemma_pow_adds(wi, d, j);
        lemma_pow_distributes(w, wi, j);
        lemma_pow_mod_noop(w * wi, j, p);
        lemma1_pow(j);
        lemma_small_mod(1, p as nat);
        assert(u == pow(wi, d) * (pow(w, j) * pow(wi, j))) by (nonlinear_arith)
            requires
                u == pow(w, j) * pow(wi, l),
                pow(wi, l) == pow(wi, d) * pow(wi, j),
        ;
        lemma_cong_mul(pow(wi, d), pow(w, j) * pow(wi, j), pow(wi, d), 1);
        lemma_geometric_cong(u, pow(wi, d), n);
        lemma_root_power_sum(wi, levels, d);
        lemma_small_mod(0, p as nat);
    }
}

/// One term of the double sum of the DFT and its inverse at output `l`: sample `j` through
/// bin `k`.
spec fn round_trip_term(vx: Seq<int>, w: int, wi: int, l: int, j: int, k: int) -> int {
    pow(wi, (k * l) as nat) * (vx[j] * pow(w, (j * k) as nat))
}

proof fn lemma_row_is_geometric(vx: Seq<int>, w: int, wi: int, l: nat, j: nat, n: nat)
    ensures
        sum_of(|k: int| round_trip_term(vx, w, wi, l as int, j as int, k), n) == vx[j as int] * geometric(
            pow(w, j) * pow(wi, l),
            n,
        ),
{
    let u = pow(w, j) * pow(wi, l);
    let f = |k: int| round_trip_term(vx, w, wi, l as int, j as int, k);
    let g = |k: int| vx[j as int] * pow(u, k as nat);
    assert forall|k: int| 0 <= k < n implies #[trigger] f(k) == g(k) by {
        let kk = k as nat;
        assert(j * kk >= 0 && kk * l >= 0 && l * kk == kk * l) by (nonlinear_arith);
        lemma_pow_multiplies(w, j, kk);
        lemma_pow_multiplies(wi, l, kk);
        lemma_pow_distributes(pow(w, j), pow(wi, l), kk);
        assert(pow(wi, (kk * l) as nat) * (vx[j as int] * pow(w, (j * kk) as nat)) == vx[j as int] * (
        pow(pow(w, j), kk) * pow(pow(wi, l), kk))) by (nonlinear_arith)
            requires
                pow(wi, (kk * l) as nat) == pow(pow(wi, l), kk),
                pow(w, (j * kk) as nat) == pow(pow(w, j), kk),
        ;
    }
    lemma_sum_ext(f, g, n);
    lemma_sum_scale(|k: int| pow(u, k as nat), vx[j as int], n);
    lemma_sum_ext(g, |k: int| vx[j as int] * (|k: int| pow(u, k as nat))(k), n);
}

/// Transforming with `w` and then with its inverse `wi` multiplies each sample by `n`.
proof fn lemma_dft_inversion_at(x: Seq<Residue>, w: int, wi: int, levels: nat, l: nat)
    requires
        levels >= 1,
        x.len() == pow2(levels),
        half_turn(w, levels),
        (w * wi) % (MODULUS as int) == 1,
        l < x.len(),
    ensures
        dft(dft(x, w), wi)[l as int].value as int % (MODULUS as int) == (pow2(levels) * x[l as int].value)
            % (MODULUS as int),
{
    let p = MODULUS as int;
    let n = x.len();
    let vx = sample_values(x);
    let xf = dft(x, w);
    let vxf = sample_values(xf);
    lemma_inverse_root_half_turn(w, wi, levels);
    // the outer sum, first with reduced bins and then with the exact DFT sums
    lemma_dft_sum_as_sum(vxf, wi, l, n);
    let a = |k: int| vxf[k] * pow(wi, (k * l) as nat);
    let b = |k: int| dft_sum(vx, w, k as nat, n) * pow(wi, (k * l) as nat);
    assert forall|k: int| 0 <= k < n implies #[trigger] a(k) % p == b(k) % p by {
        lemma_mod_twice(dft_sum(vx, w, k as nat, n), p);
        lemma_cong_mul(vxf[k], pow(wi, (k * l) as nat), dft_sum(vx, w, k as nat, n), pow(wi, (k * l) as nat));
    }
    lemma_sum_cong(a, b, n);
    // each exact DFT sum times the inverse twiddle is a row of the double sum
    let row = |k: int| sum_of(|j: int| round_trip_term(vx, w, wi, l as int, j, k), n);
    assert forall|k: int| 0 <= k < n implies #[trigger] b(k) == row(k) by {
        lemma_dft_sum_as_sum(vx, w, k as nat, n);
        let s = |j: int| vx[j] * pow(w, (j * k) as nat);
        lemma_sum_scale(s, pow(wi, (k * l) as nat), n);
        lemma_sum_ext(
            |j: int| pow(wi, (k * l) as nat) * s(j),
            |j: int| round_trip_term(vx, w, wi, l as int, j, k),
            n,
        );
        lemma_mul_is_commutative(dft_sum(vx, w, k as nat, n), pow(wi, (k * l) as nat));
    }
    lemma_sum_ext(b, row, n);
    let term = |j: int, k: int| round_trip_term(vx, w, wi, l as int, j, k);
    lemma_sum_swap(term, n, n);
    let row2 = |k: int| sum_of(|j: int| term(j, k), n);
    assert forall|k: int| 0 <= k < n implies #[trigger] row(k) == row2(k) by {
        lemma_sum_ext(|j: int| round_trip_term(vx, w, wi, l as int, j, k), |j: int| term(j, k), n);
    }
    lemma_sum_ext(row, row2, n);
    let col2 = |j: int| sum_of(|k: int| term(j, k), n);
    // exchanging the sums leaves, for each sample, the sample times a geometric sum
    let col = |j: int| sum_of(|k: int| round_trip_term(vx, w, wi, l as int, j, k), n);
    let g = |j: int| vx[j] * geometric(pow(w, j as nat) * pow(wi, l), n);
    assert forall|j: int| 0 <= j < n implies #[trigger] col(j) == g(j) by {
        lemma_row_is_geometric(vx, w, wi, l, j as nat, n);
    }
    lemma_sum_ext(col, g, n);
    assert forall|j: int| 0 <= j < n implies #[trigger] col(j) == col2(j) by {
        lemma_sum_ext(|k: int| round_trip_term(vx, w, wi, l as int, j, k), |k: int| term(j, k), n);
    }
    lemma_sum_ext(col, col2, n);
    assert forall|j: int| 0 <= j < n && j != l implies #[trigger] g(j) % p == 0 by {
        lemma_orthogonality(w, wi, levels, j as nat, l);
        lemma_small_mod(0, p as nat);
        lemma_cong_mul(vx[j], geometric(pow(w, j as nat) * pow(wi, l), n), vx[j], 0);
    }
    lemma_sum_single(g, l as int, n);
    lemma_orthogonality(w, wi, levels, l, l);
    lemma_cong_mul(vx[l as int], geometric(pow(w, l) * pow(wi, l), n), vx[l as int], n as int);
    lemma_mul_is_commutative(vx[l as int], n as int);
    assert(sum_of(row, n) == sum_of(|k: int| sum_of(|j: int| round_trip_term(vx, w, wi, l as int, j, k), n), n));
    assert(sum_of(col, n) == sum_of(|j: int| sum_of(|k: int| round_trip_term(vx, w, wi, l as int, j, k), n), n));
    lemma_mod_twice(dft_sum(vxf, wi, l, n), p);
    assert(xf.len() == n);
    assert(dft(xf, wi)[l as int].value as int == dft_sum(vxf, wi, l, n) % p);
    assert(dft_sum(vxf, wi, l, n) == sum_of(a, n));
    assert(sum_of(a, n) % p == sum_of(b, n) % p);
    assert(sum_of(b, n) == sum_of(row, n));
    assert(sum_of(row, n) == sum_of(col, n));
    assert(sum_of(col, n) == sum_of(g, n));
    assert(sum_of(g, n) % p == g(l as int) % p);
    assert(g(l as int) % p == (vx[l as int] * n) % p);
}

proof fn lemma_two_pow_step(e: nat, bit: nat, a: int, b: int)
    requires
        bit <= 1,
        pow(2, e) % (MODULUS as int) == a,
        (a * a * (1 + bit)) % (MODULUS as int) == b,
    ensures
        pow(2, 2 * e + bit) % (MODULUS as int) == b,
{
    let p = MODULUS as int;
    lemma_pow_adds(2, 2 * e, bit);
    lemma_pow_multiplies(2, e, 2);
    assert(e * 2 == 2 * e);
    lemma_square_is_pow2(pow(2, e));
    lemma_square_is_pow2(a);
    lemma_pow_mod_noop(pow(2, e), 2, p);
    lemma_pow0(2);
    lemma_pow1(2);
    assert(pow(2, bit) == 1 + bit);
    lemma_mod_twice(pow(2, e), p);
    lemma_cong_mul(pow(2, e) * pow(2, e), pow(2, bit), a * a, (1 + bit) as int);
}

/// Fermat's little theorem for the base 2: `2^(MODULUS - 1)` is 1 modulo `MODULUS`, by
/// repeated squaring along the binary digits of `MODULUS - 1`.
proof fn lemma_two_to_the_modulus_less_one()
    ensures
        pow(2, (MODULUS - 1) as nat) % (MODULUS as int) == 1,
{
    lemma_pow1(2);
    lemma_small_mod(2, MODULUS as nat);
    lemma_two_pow_step(1, 1, 2, 8);
    lemma_two_pow_step(3, 1, 8, 128);
    lemma_two_pow_step(7, 0, 128, 16384);
    lemma_two_pow_step(14, 1, 16384, 536870912);
    lemma_two_pow_step(29, 1, 536870912, 840200159);
    lemma_two_pow_step(59, 1, 840200159, 749268343);
    lemma_two_pow_step(119, 0, 749268343, 854599625);
    lemma_two_pow_step(238, 0, 854599625, 275981743);
    lemma_two_pow_step(476, 0, 275981743, 121229115);
    lemma_two_pow_step(952, 0, 121229115, 564515440);
    lemma_two_pow_step(1904, 0, 564515440, 500482297);
    lemma_two_pow_step(3808, 0, 500482297, 929671676);
    lemma_two_pow_step(7616, 0, 929671676, 972782536);
    lemma_two_pow_step(15232, 0, 972782536, 319351757);
    lemma_two_pow_step(30464, 0, 319351757, 216733819);
    lemma_two_pow_step(60928, 0, 216733819, 307971575);
    lemma_two_pow_step(121856, 0, 307971575, 823085725);
    lemma_two_pow_step(243712, 0, 823085725, 900830825);
    lemma_two_pow_step(487424, 0, 900830825, 765263132);
    lemma_two_pow_step(974848, 0, 765263132, 896052152);
    lemma_two_pow_step(1949696, 0, 896052152, 842947365);
    lemma_two_pow_step(3899392, 0, 842947365, 158463934);
    lemma_two_pow_step(7798784, 0, 158463934, 645684063);
    lemma_two_pow_step(15597568, 0, 645684063, 624949902);
    lemma_two_pow_step(31195136, 0, 624949902, 625715529);
    lemma_two_pow_step(62390272, 0, 625715529, 911660635);
    lemma_two_pow_step(124780544, 0, 911660635, 998244352);
    lemma_two_pow_step(249561088, 0, 998244352, 1);
    lemma_two_pow_step(499122176, 0, 1, 1);
}

/// The number of samples `2^levels` times its `MODULUS - 2`-th power is 1: dividing by it
/// undoes multiplying by it.
proof fn lemma_power_of_two_inverse(levels: nat)
    ensures
        (pow2(levels) * pow(pow2(levels) as int, (MODULUS - 2) as nat)) % (MODULUS as int) == 1,
{
    let p = MODULUS as int;
    let n = pow2(levels) as int;
    lemma_pow2(levels);
    lemma_pow1(n);
    lemma_pow_adds(n, 1, (MODULUS - 2) as nat);
    lemma_pow_multiplies(2, levels, (MODULUS - 1) as nat);
    lemma_pow_multiplies(2, (MODULUS - 1) as nat, levels);
    assert(levels * (MODULUS - 1) == (MODULUS - 1) * levels) by (nonlinear_arith);
    lemma_two_to_the_modulus_less_one();
    lemma_pow_mod_noop(pow(2, (MODULUS - 1) as nat), levels, p);
    lemma1_pow(levels);
    lemma_small_mod(1, p as nat);
}

/// The inverse radix-2 FFT undoes the forward one: for `n = 2^levels` reduced residues,
/// transforming with the tables of a root `w` of order `n`, then with the tables of its
/// inverse `wi`, and dividing every sample by `size` (the number `n` as a residue) gives back
/// the samples.
pub proof fn lemma_inverse_fft_undoes_fft(
    x: Seq<Residue>,
    tw: Seq<Seq<Residue>>,
    itw: Seq<Seq<Residue>>,
    w: int,
    wi: int,
    size: Residue,
    levels: nat,
)
    requires
        x.len() == pow2(levels),
        reduced(x),
        root_twiddles(tw, w, levels),
        root_twiddles(itw, wi, levels),
        half_turn(w, levels),
        (w * wi) % (MODULUS as int) == 1,
        size.value as int % (MODULUS as int) == pow2(levels) as int % (MODULUS as int),
    ensures
        radix_2_transform(radix_2_transform(x, tw), itw).map_values(|y: Residue| y.div_spec(size)) == x,
{
    let p = MODULUS as int;
    let n = pow2(levels) as int;
    let e = (MODULUS - 2) as nat;
    let back = radix_2_transform(radix_2_transform(x, tw), itw);
    let divided = back.map_values(|y: Residue| y.div_spec(size));
    // dividing by `size` is multiplying by `n^(MODULUS - 2)`
    lemma_pow_mod_noop(size.value as int, e, p);
    lemma_pow_mod_noop(n, e, p);
    lemma_power_of_two_inverse(levels);
    if levels == 0 {
        lemma2_to64();
        assert(back == x);
        assert forall|l: int| 0 <= l < x.len() implies #[trigger] divided[l] == x[l] by {
            let v = x[l].value as int;
            lemma1_pow(e);
            assert(n == 1);
            assert(pow(n, e) == 1);
            lemma_cong_mul(v, pow(size.value as int, e), v, pow(n, e));
            lemma_small_mod(x[l].value as nat, p as nat);
            assert(divided[l].value as int == (v * pow(size.value as int, e)) % p);
        }
    } else {
        lemma_inverse_root_half_turn(w, wi, levels);
        lemma_fft_computes_dft(x, tw, w, levels);
        let xf = dft(x, w);
        assert forall|k: int| 0 <= k < xf.len() implies #[trigger] xf[k].value < MODULUS by {}
        lemma_fft_computes_dft(xf, itw, wi, levels);
        assert(back == dft(xf, wi));
        assert forall|l: int| 0 <= l < x.len() implies #[trigger] divided[l] == x[l] by {
            let v = x[l].value as int;
            let yv = back[l].value as int;
            lemma_dft_inversion_at(x, w, wi, levels, l as nat);
            // yv is n v, so yv size^(MODULUS - 2) is v n n^(MODULUS - 2), which is v
            lemma_cong_mul(yv, pow(size.value as int, e), n * v, pow(n, e));
            assert(n * v * pow(n, e) == v * (n * pow(n, e))) by (nonlinear_arith);
            lemma_small_mod(1, p as nat);
            lemma_cong_mul(v, n * pow(n, e), v, 1);
            lemma_small_mod(x[l].value as nat, p as nat);
        }
    }
    assert(divided =~= x);
}

} // verus!
