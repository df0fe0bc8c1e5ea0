//! The discrete Fourier transform over the residues modulo `MODULUS`, and the law that the
//! radix-2 FFT computes it: with twiddle tables made of the powers of a root of unity, the
//! bit-reversal permutation followed by the butterfly passes gives exactly the DFT sums.
use crate::bits::{binary_digits, digits_value, lemma_binary_digit, lemma_binary_digits_len, reversed_bits};
use crate::fft::{
    bit_reversal_permutation, butterfly_passes, butterfly_stage, lemma_log2_of, log2_of,
    radix_2_transform,
};
use crate::modular::{residue_of, Residue, MODULUS};
use vstd::arithmetic::power2::*;
use vstd::arithmetic::div_mod::*;
use vstd::arithmetic::mul::*;
use vstd::arithmetic::power::*;
use vstd::prelude::*;

verus! {

/// The first `m` terms of the DFT sum for bin `k`: `x[0] w^(0 k) + ... + x[m-1] w^((m-1) k)`.
pub open spec fn dft_sum(x: Seq<int>, w: int, k: nat, m: nat) -> int
    decreases m,
{
    if m == 0 {
        0
    } else {
        dft_sum(x, w, k, (m - 1) as nat) + x[m - 1] * pow(w, ((m - 1) * k) as nat)
    }
}

/// The samples at even positions.
pub open spec fn evens<T>(x: Seq<T>) -> Seq<T> {
    Seq::new(((x.len() + 1) / 2) as nat, |j: int| x[2 * j])
}

/// The samples at odd positions.
pub open spec fn odds<T>(x: Seq<T>) -> Seq<T> {
    Seq::new((x.len() / 2) as nat, |j: int| x[2 * j + 1])
}

/// The DFT sum of a length `2m` splits into the DFT sums (with root `w^2`) of its even- and
/// odd-indexed samples, the second weighted by `w^k`.
proof fn lemma_dft_split(x: Seq<int>, w: int, k: nat, m: nat)
    requires
        x.len() >= 2 * m,
    ensures
        dft_sum(x, w, k, 2 * m) == dft_sum(evens(x), w * w, k, m) + pow(w, k) * dft_sum(
            odds(x),
            w * w,
            k,
            m,
        ),
    decreases m,
{
    if m > 0 {
        let m1 = (m - 1) as nat;
        lemma_dft_split(x, w, k, m1);
        let a: nat = 2 * m1;
        let ai = a as int;
        let e0 = dft_sum(evens(x), w * w, k, m1);
        let o0 = dft_sum(odds(x), w * w, k, m1);
        let pk = pow(w, k);
        let mk = (m1 * k) as nat;
        assert(m1 * k >= 0) by (nonlinear_arith)
            requires
                m1 >= 0,
                k >= 0,
        ;
        // (w^2)^(m1 k) = w^(2 m1 k)
        lemma_square_is_pow2(w);
        lemma_pow_multiplies(w, 2, mk);
        let pe = pow(w, (2 * mk) as nat);
        assert(pow(w * w, mk) == pe);
        // w^k w^(2 m1 k) = w^((2 m1 + 1) k)
        lemma_pow_adds(w, k, (2 * mk) as nat);
        assert((a * k) as nat == 2 * mk) by (nonlinear_arith)
            requires
                a == 2 * m1,
                mk == m1 * k,
        ;
        assert(((a + 1) * k) as nat == k + 2 * mk) by (nonlinear_arith)
            requires
                a == 2 * m1,
                mk == m1 * k,
                k >= 0,
        ;
        assert(dft_sum(x, w, k, (a + 2) as nat) == dft_sum(x, w, k, (a + 1) as nat) + x[ai + 1] * pow(
            w,
            ((a + 1) * k) as nat,
        ));
        assert(dft_sum(x, w, k, (a + 1) as nat) == dft_sum(x, w, k, a) + x[ai] * pow(w, (a * k) as nat));
        assert(evens(x)[m1 as int] == x[ai]);
        assert(odds(x)[m1 as int] == x[ai + 1]);
        let xe = x[ai];
        let xo = x[ai + 1];
        let pko = pow(w, (k + 2 * mk) as nat);
        assert(pko == pk * pe);
        assert(pk * (o0 + xo * pe) == pk * o0 + xo * pko) by (nonlinear_arith)
            requires
                pko == pk * pe,
        ;
    }
}

pub(crate) proof fn lemma_cong_add(a1: int, b1: int, a2: int, b2: int)
    requires
        a1 % (MODULUS as int) == a2 % (MODULUS as int),
        b1 % (MODULUS as int) == b2 % (MODULUS as int),
    ensures
        (a1 + b1) % (MODULUS as int) == (a2 + b2) % (MODULUS as int),
{
    lemma_add_mod_noop(a1, b1, MODULUS as int);
    lemma_add_mod_noop(a2, b2, MODULUS as int);
}

pub(crate) proof fn lemma_cong_sub(a1: int, b1: int, a2: int, b2: int)
    requires
        a1 % (MODULUS as int) == a2 % (MODULUS as int),
        b1 % (MODULUS as int) == b2 % (MODULUS as int),
    ensures
        (a1 - b1) % (MODULUS as int) == (a2 - b2) % (MODULUS as int),
{
    lemma_sub_mod_noop(a1, b1, MODULUS as int);
    lemma_sub_mod_noop(a2, b2, MODULUS as int);
}

pub(crate) proof fn lemma_cong_mul(a1: int, b1: int, a2: int, b2: int)
    requires
        a1 % (MODULUS as int) == a2 % (MODULUS as int),
        b1 % (MODULUS as int) == b2 % (MODULUS as int),
    ensures
        (a1 * b1) % (MODULUS as int) == (a2 * b2) % (MODULUS as int),
{
    lemma_mul_mod_noop(a1, b1, MODULUS as int);
    lemma_mul_mod_noop(a2, b2, MODULUS as int);
}

/// When `v^m` is 1 modulo `MODULUS`, the DFT sums for bins `k + m` and `k` agree.
proof fn lemma_dft_periodic(y: Seq<int>, v: int, k: nat, m: nat, c: nat)
    requires
        pow(v, m) % (MODULUS as int) == 1,
    ensures
        dft_sum(y, v, k + m, c) % (MODULUS as int) == dft_sum(y, v, k, c) % (MODULUS as int),
    decreases c,
{
    let p = MODULUS as int;
    if c > 0 {
        let c1 = (c - 1) as nat;
        lemma_dft_periodic(y, v, k, m, c1);
        let a = (c1 * k) as nat;
        let b = (c1 * m) as nat;
        assert(c1 * k >= 0 && c1 * m >= 0 && c1 * (k + m) == c1 * k + c1 * m && m * c1 == c1 * m)
            by (nonlinear_arith)
            requires
                c1 >= 0,
                k >= 0,
                m >= 0,
        ;
        assert((c1 * (k + m)) as nat == a + b);
        lemma_pow_adds(v, a, b);
        lemma_pow_multiplies(v, m, c1);
        lemma_pow_mod_noop(pow(v, m), c1, p);
        lemma1_pow(c1);
        assert(pow(v, b) % p == 1);
        let y1 = y[c1 as int] * pow(v, a);
        assert(y[c1 as int] * pow(v, a + b) == y1 * pow(v, b)) by (nonlinear_arith)
            requires
                pow(v, a + b) == pow(v, a) * pow(v, b),
                y1 == y[c1 as int] * pow(v, a),
        ;
        lemma_mul_mod_noop_right(y1, pow(v, b), p);
        lemma_cong_add(
            dft_sum(y, v, k + m, c1),
            y1 * pow(v, b),
            dft_sum(y, v, k, c1),
            y1,
        );
    }
}

/// `x` reordered by reversing the lowest `width` bits of each index.
pub open spec fn bit_reversed<T>(x: Seq<T>, width: nat) -> Seq<T> {
    Seq::new(x.len(), |i: int| x[reversed_bits(i as nat, width) as int])
}

proof fn lemma_binary_digits_prefix(i: nat, w: nat)
    requires
        w >= 1,
    ensures
        binary_digits(i, w).take(w - 1) == binary_digits(i, (w - 1) as nat),
    decreases w,
{
    lemma_binary_digits_len(i, w);
    if w >= 2 {
        lemma_binary_digits_prefix(i / 2, (w - 1) as nat);
        lemma_binary_digits_len(i / 2, (w - 1) as nat);
        assert(binary_digits(i, w).take(w - 1) =~= seq![i % 2 == 1] + binary_digits(i / 2, (w - 1) as nat).take(
            w - 2,
        ));
    } else {
        assert(binary_digits(i, w).take(0) =~= Seq::<bool>::empty());
    }
}

proof fn lemma_binary_digits_mod(i: nat, w: nat)
    ensures
        binary_digits(i, w) == binary_digits(i % pow2(w), w),
    decreases w,
{
    if w > 0 {
        let h = pow2((w - 1) as nat);
        lemma_pow2_unfold(w);
        lemma_pow2_pos((w - 1) as nat);
        lemma_mod_mod(i as int, 2, h as int);
        lemma_mod_breakdown(i as int, 2, h as int);
        let r = i % pow2(w);
        assert(r == 2 * ((i / 2) % h) + i % 2);
        assert(r / 2 == (i / 2) % h) by {
            lemma_fundamental_div_mod_converse(r as int, 2, ((i / 2) % h) as int, (i % 2) as int);
        }
        lemma_binary_digits_mod(i / 2, (w - 1) as nat);
        assert(r % 2 == i % 2);
        assert(binary_digits(r, w) == seq![r % 2 == 1] + binary_digits(r / 2, (w - 1) as nat));
        assert(binary_digits(i, w) == seq![i % 2 == 1] + binary_digits(i / 2, (w - 1) as nat));
        assert(binary_digits(r / 2, (w - 1) as nat) == binary_digits(i / 2, (w - 1) as nat));
        assert(binary_digits(i, w) =~= binary_digits(r, w));
    } else {
        lemma_binary_digits_len(i, w);
        lemma_binary_digits_len(i % pow2(w), w);
        assert(binary_digits(i, w) =~= binary_digits(i % pow2(w), w));
    }
}

/// Reversing `w >= 1` bits of `i < 2^w`: the top bit becomes the lowest, the other bits are
/// those of `i` below `2^(w-1)` reversed and shifted up by one.
proof fn lemma_reversed_bits_top(i: nat, w: nat)
    requires
        w >= 1,
        i < pow2(w),
    ensures
        reversed_bits(i, w) == (if i >= pow2((w - 1) as nat) { 1nat } else { 0nat }) + 2
            * reversed_bits(i % pow2((w - 1) as nat), (w - 1) as nat),
{
    let h = pow2((w - 1) as nat);
    let d = binary_digits(i, w);
    lemma_binary_digits_len(i, w);
    lemma_pow2_unfold(w);
    lemma_pow2_pos((w - 1) as nat);
    lemma_binary_digit(i, w, (w - 1) as nat);
    if i >= h {
        lemma_fundamental_div_mod_converse(i as int, h as int, 1, i - h);
    } else {
        lemma_fundamental_div_mod_converse(i as int, h as int, 0, i as int);
    }
    lemma_binary_digits_prefix(i, w);
    lemma_binary_digits_mod(i, (w - 1) as nat);
    let r = d.reverse();
    assert(r[0] == d[w - 1]);
    assert(r.drop_first() =~= d.take(w - 1).reverse());
}

/// Bit-reversing `2^L` samples puts the bit-reversed even-indexed samples first and the
/// bit-reversed odd-indexed samples after them.
proof fn lemma_bit_reversed_split<T>(x: Seq<T>, w: nat)
    requires
        w >= 1,
        x.len() == pow2(w),
    ensures
        bit_reversed(x, w) == bit_reversed(evens(x), (w - 1) as nat) + bit_reversed(
            odds(x),
            (w - 1) as nat,
        ),
{
    let h = pow2((w - 1) as nat);
    lemma_pow2_unfold(w);
    lemma_pow2_pos((w - 1) as nat);
    let lhs = bit_reversed(x, w);
    let rhs = bit_reversed(evens(x), (w - 1) as nat) + bit_reversed(odds(x), (w - 1) as nat);
    assert forall|i: int| 0 <= i < x.len() implies #[trigger] lhs[i] == rhs[i] by {
        lemma_reversed_bits_top(i as nat, w);
        if i < h {
            lemma_small_mod(i as nat, h);
            crate::bits::lemma_reversed_bits_bound(i as nat, (w - 1) as nat);
        } else {
            lemma_fundamental_div_mod_converse(i, h as int, 1, i - h);
            crate::bits::lemma_reversed_bits_bound((i - h) as nat, (w - 1) as nat);
        }
    }
    assert(lhs =~= rhs);
}

proof fn lemma_in_block(i: int, h: int, c: int)
    requires
        h > 0,
        c >= 0,
        0 <= i < 2 * h * c,
    ensures
        i % (2 * h) < h ==> i + h < 2 * h * c,
        0 <= i % (2 * h) < 2 * h,
        i % (2 * h) >= h ==> i - h >= 0,
{
    let q = i / (2 * h);
    lemma_fundamental_div_mod(i, 2 * h);
    lemma_mod_bound(i, 2 * h);
    assert(i % (2 * h) < h ==> i + h < 2 * h * c) by (nonlinear_arith)
        requires
            i == (2 * h) * q + i % (2 * h),
            0 <= i % (2 * h),
            i < 2 * h * c,
            h > 0,
    ;
    assert(i % (2 * h) >= h ==> i - h >= 0) by (nonlinear_arith)
        requires
            i == (2 * h) * q + i % (2 * h),
            i >= 0,
            h > 0,
            q >= 0,
    {
        lemma_div_pos_is_pos(i, 2 * h);
    }
}

/// A butterfly pass over blocks that tile both halves acts on each half separately.
proof fn lemma_stage_concat<T: core::ops::Add<Output = T> + core::ops::Sub<Output = T> + core::ops::Mul<Output = T>>(
    a: Seq<T>,
    b: Seq<T>,
    half: nat,
    tw: Seq<T>,
    c: nat,
)
    requires
        half > 0,
        a.len() == 2 * half * c,
        b.len() == a.len(),
    ensures
        butterfly_stage(a + b, half, tw) == butterfly_stage(a, half, tw) + butterfly_stage(b, half, tw),
{
    let m = a.len() as int;
    let h = half as int;
    let lhs = butterfly_stage(a + b, half, tw);
    let rhs = butterfly_stage(a, half, tw) + butterfly_stage(b, half, tw);
    assert forall|i: int| 0 <= i < 2 * m implies #[trigger] lhs[i] == rhs[i] by {
        if i < m {
            lemma_in_block(i, h, c as int);
        } else {
            let j = i - m;
            lemma_in_block(j, h, c as int);
            assert(m == (2 * h) * (c as int)) by (nonlinear_arith)
                requires
                    m == 2 * h * c,
            ;
            lemma_mod_multiples_vanish(c as int, j, 2 * h);
            assert(i % (2 * h) == j % (2 * h));
        }
    }
    assert(lhs =~= rhs);
}

proof fn lemma_passes_len<T: core::ops::Add<Output = T> + core::ops::Sub<Output = T> + core::ops::Mul<Output = T>>(
    d: Seq<T>,
    tw: Seq<Seq<T>>,
    s: nat,
)
    ensures
        butterfly_passes(d, tw, s).len() == d.len(),
    decreases s,
{
    if s > 0 {
        lemma_passes_len(d, tw, (s - 1) as nat);
    }
}

/// The first `s` butterfly passes act on two halves of `2^l >= 2^s` samples separately.
proof fn lemma_passes_concat<T: core::ops::Add<Output = T> + core::ops::Sub<Output = T> + core::ops::Mul<Output = T>>(
    a: Seq<T>,
    b: Seq<T>,
    tw: Seq<Seq<T>>,
    s: nat,
    l: nat,
)
    requires
        s <= l,
        a.len() == pow2(l),
        b.len() == a.len(),
    ensures
        butterfly_passes(a + b, tw, s) == butterfly_passes(a, tw, s) + butterfly_passes(b, tw, s),
    decreases s,
{
    if s > 0 {
        let s1 = (s - 1) as nat;
        lemma_passes_concat(a, b, tw, s1, l);
        lemma_passes_len(a, tw, s1);
        lemma_passes_len(b, tw, s1);
        lemma_pow2_unfold(s);
        lemma_pow2_adds(s, (l - s) as nat);
        lemma_pow2_pos(s1);
        assert(a.len() == 2 * pow2(s1) * pow2((l - s) as nat));
        lemma_stage_concat(
            butterfly_passes(a, tw, s1),
            butterfly_passes(b, tw, s1),
            pow2(s1),
            tw[s1 as int],
            pow2((l - s) as nat),
        );
    }
}

/// The integer values of residues.
pub open spec fn sample_values(x: Seq<Residue>) -> Seq<int> {
    x.map_values(|r: Residue| r.value as int)
}

/// Twiddle tables for `2^levels` samples made of the powers of `w`: factor `j` of pass `s`
/// is `w^(j 2^(levels-1-s))` reduced modulo `MODULUS`, so that pass `s` uses a root of order
/// `2^(s+1)` when `w` has order `2^levels`.
pub open spec fn root_twiddles(tw: Seq<Seq<Residue>>, w: int, levels: nat) -> bool {
    forall|s: int, j: int|
        0 <= s < levels && 0 <= j < pow2(s as nat) ==> #[trigger] tw[s][j].value as int == pow(
            w,
            (j * pow2((levels - 1 - s) as nat)) as nat,
        ) % (MODULUS as int)
}

/// `w^(2^(levels-1))` is `-1` modulo `MODULUS`: `w` is a root of unity of order exactly
/// `2^levels` (for `levels >= 1`).
pub open spec fn half_turn(w: int, levels: nat) -> bool {
    levels >= 1 ==> pow(w, pow2((levels - 1) as nat)) % (MODULUS as int) == MODULUS - 1
}

pub(crate) proof fn lemma_pow_of_square(w: int, t: nat)
    ensures
        pow(w * w, t) == pow(w, 2 * t),
{
    lemma_square_is_pow2(w);
    lemma_pow_multiplies(w, 2, t);
}

/// The tables for `2^levels` samples and root `w` serve `2^(levels-1)` samples with root
/// `w^2`.
proof fn lemma_twiddles_for_half(tw: Seq<Seq<Residue>>, w: int, levels: nat)
    requires
        levels >= 1,
        root_twiddles(tw, w, levels),
        half_turn(w, levels),
    ensures
        root_twiddles(tw, w * w, (levels - 1) as nat),
        half_turn(w * w, (levels - 1) as nat),
{
    let l1 = (levels - 1) as nat;
    assert forall|s: int, j: int| 0 <= s < l1 && 0 <= j < pow2(s as nat) implies #[trigger] tw[s][j].value as int
        == pow(w * w, (j * pow2((l1 - 1 - s) as nat)) as nat) % (MODULUS as int) by {
        let e = pow2((l1 - 1 - s) as nat);
        lemma_pow2_unfold((levels - 1 - s) as nat);
        assert(pow2((levels - 1 - s) as nat) == 2 * e);
        assert(j * e >= 0 && 2 * (j * e) == j * (2 * e)) by (nonlinear_arith)
            requires
                j >= 0,
                e >= 0,
        ;
        lemma_pow_of_square(w, (j * e) as nat);
        assert(tw[s][j].value as int == pow(w, (j * pow2((levels - 1 - s) as nat)) as nat) % (MODULUS as int));
    }
    if l1 >= 1 {
        lemma_pow2_unfold(l1);
        lemma_pow_of_square(w, pow2((l1 - 1) as nat));
    }
}

/// `(MODULUS - 1)^2` is 1 modulo `MODULUS`.
pub(crate) proof fn lemma_minus_one_squared(a: int)
    requires
        a % (MODULUS as int) == MODULUS - 1,
    ensures
        pow(a, 2) % (MODULUS as int) == 1,
{
    let p = MODULUS as int;
    lemma_square_is_pow2(a);
    lemma_cong_mul(a, a, p - 1, p - 1);
    lemma_mod_twice(a, p);
    lemma_small_mod((p - 1) as nat, p as nat);
    assert((p - 1) * (p - 1) == (p - 2) * p + 1) by (nonlinear_arith)
        requires
            p == 998244353,
    ;
    lemma_fundamental_div_mod_converse((p - 1) * (p - 1), p, p - 2, 1);
}

proof fn lemma_butterfly_low(ev: int, ov: int, tv: int, de: int, dodd: int, wk: int)
    requires
        ev % (MODULUS as int) == de % (MODULUS as int),
        ov % (MODULUS as int) == dodd % (MODULUS as int),
        tv % (MODULUS as int) == wk % (MODULUS as int),
    ensures
        (ev + (ov * tv) % (MODULUS as int)) % (MODULUS as int) == (de + wk * dodd) % (MODULUS as int),
{
    let p = MODULUS as int;
    lemma_cong_mul(ov, tv, dodd, wk);
    lemma_mul_is_commutative(dodd, wk);
    lemma_mod_twice(ov * tv, p);
    lemma_cong_add(ev, (ov * tv) % p, de, wk * dodd);
}

proof fn lemma_butterfly_high(
    ev: int,
    ov: int,
    tv: int,
    de: int,
    dodd: int,
    wk: int,
    de2: int,
    do2: int,
    wk2: int,
)
    requires
        ev % (MODULUS as int) == de % (MODULUS as int),
        ov % (MODULUS as int) == dodd % (MODULUS as int),
        tv % (MODULUS as int) == wk % (MODULUS as int),
        de2 % (MODULUS as int) == de % (MODULUS as int),
        do2 % (MODULUS as int) == dodd % (MODULUS as int),
        wk2 % (MODULUS as int) == (wk * (MODULUS - 1)) % (MODULUS as int),
    ensures
        (ev - (ov * tv) % (MODULUS as int)) % (MODULUS as int) == (de2 + wk2 * do2) % (
        MODULUS as int),
{
    let p = MODULUS as int;
    lemma_mod_twice(wk * (p - 1), p);
    lemma_cong_mul(wk2, do2, wk * (p - 1), dodd);
    lemma_cong_add(de2, wk2 * do2, de, wk * (p - 1) * dodd);
    assert(de + wk * (p - 1) * dodd == p * (wk * dodd) + (de - wk * dodd)) by (nonlinear_arith);
    lemma_mod_multiples_vanish(wk * dodd, de - wk * dodd, p);
    lemma_cong_mul(ov, tv, dodd, wk);
    lemma_mul_is_commutative(dodd, wk);
    lemma_mod_twice(ov * tv, p);
    lemma_cong_sub(ev, (ov * tv) % p, de, wk * dodd);
}

/// The butterfly passes over bit-reversed residues compute the DFT sums, congruent modulo
/// `MODULUS`.
proof fn lemma_fft_core(x: Seq<Residue>, tw: Seq<Seq<Residue>>, w: int, levels: nat)
    requires
        x.len() == pow2(levels),
        root_twiddles(tw, w, levels),
        half_turn(w, levels),
    ensures
        butterfly_passes(bit_reversed(x, levels), tw, levels).len() == x.len(),
        forall|k: int|
            0 <= k < x.len() ==> #[trigger] butterfly_passes(bit_reversed(x, levels), tw, levels)[k].value as int
                % (MODULUS as int) == dft_sum(sample_values(x), w, k as nat, x.len()) % (
            MODULUS as int),
    decreases levels,
{
    let p = MODULUS as int;
    lemma_passes_len(bit_reversed(x, levels), tw, levels);
    if levels == 0 {
        lemma2_to64();
        assert(reversed_bits(0, 0) == 0) by {
            lemma_binary_digits_len(0, 0);
            assert(binary_digits(0, 0).reverse() =~= Seq::<bool>::empty());
        }
        assert forall|k: int| 0 <= k < x.len() implies #[trigger] butterfly_passes(
            bit_reversed(x, levels),
            tw,
            levels,
        )[k].value as int % p == dft_sum(sample_values(x), w, k as nat, x.len()) % p by {
            assert(k == 0);
            lemma_pow0(w);
            assert(sample_values(x)[0] == x[0].value as int);
            assert(dft_sum(sample_values(x), w, 0, 0) == 0);
            assert(dft_sum(sample_values(x), w, 0, 1) == x[0].value as int);
        }
    } else {
        let l1 = (levels - 1) as nat;
        let m = pow2(l1);
        let w2 = w * w;
        lemma_pow2_unfold(levels);
        lemma_pow2_pos(l1);
        let e = evens(x);
        let o = odds(x);
        lemma_twiddles_for_half(tw, w, levels);
        lemma_fft_core(e, tw, w2, l1);
        lemma_fft_core(o, tw, w2, l1);
        lemma_bit_reversed_split(x, levels);
        let bre = bit_reversed(e, l1);
        let bro = bit_reversed(o, l1);
        lemma_passes_concat(bre, bro, tw, l1, l1);
        let ee = butterfly_passes(bre, tw, l1);
        let oo = butterfly_passes(bro, tw, l1);
        let t = tw[l1 as int];
        let vx = sample_values(x);
        assert(sample_values(e) =~= evens(vx));
        assert(sample_values(o) =~= odds(vx));
        let out = butterfly_passes(bit_reversed(x, levels), tw, levels);
        assert(out == butterfly_stage(ee + oo, m, t));
        // w^m is -1, so (w^2)^m is 1
        lemma_pow_multiplies(w, m, 2);
        lemma_pow_of_square(w, m);
        lemma_minus_one_squared(pow(w, m));
        assert(m * 2 == 2 * m);
        assert(pow(w2, m) % p == 1);
        assert forall|k: int| 0 <= k < x.len() implies #[trigger] out[k].value as int % p == dft_sum(
            vx,
            w,
            k as nat,
            x.len(),
        ) % p by {
            lemma_small_mod(k as nat, (2 * m) as nat);
            lemma_dft_split(vx, w, k as nat, m);
            if k < m {
                lemma2_to64();
                assert(t[k].value as int == pow(w, (k * pow2(0)) as nat) % p);
                assert(k * pow2(0) == k) by (nonlinear_arith)
                    requires
                        pow2(0) == 1,
                ;
                lemma_mod_twice(pow(w, k as nat), p);
                lemma_butterfly_low(
                    ee[k].value as int,
                    oo[k].value as int,
                    t[k].value as int,
                    dft_sum(evens(vx), w2, k as nat, m),
                    dft_sum(odds(vx), w2, k as nat, m),
                    pow(w, k as nat),
                );
                lemma_mod_twice(ee[k].value + (oo[k].value * t[k].value) % p, p);
            } else {
                let k1 = k - m;
                lemma2_to64();
                assert(t[k1].value as int == pow(w, (k1 * pow2(0)) as nat) % p);
                assert(k1 * pow2(0) == k1) by (nonlinear_arith)
                    requires
                        pow2(0) == 1,
                ;
                assert((t[k1].value as int) % p == pow(w, k1 as nat) % p);
                lemma_mod_twice(pow(w, k1 as nat), p);
                lemma_dft_periodic(evens(vx), w2, k1 as nat, m, m);
                lemma_dft_periodic(odds(vx), w2, k1 as nat, m, m);
                lemma_pow_adds(w, k1 as nat, m);
                lemma_mod_twice(pow(w, m), p);
                lemma_cong_mul(pow(w, k1 as nat), pow(w, m), pow(w, k1 as nat), p - 1);
                lemma_butterfly_high(
                    ee[k1].value as int,
                    oo[k1].value as int,
                    t[k1].value as int,
                    dft_sum(evens(vx), w2, k1 as nat, m),
                    dft_sum(odds(vx), w2, k1 as nat, m),
                    pow(w, k1 as nat),
                    dft_sum(evens(vx), w2, k as nat, m),
                    dft_sum(odds(vx), w2, k as nat, m),
                    pow(w, k as nat),
                );
                lemma_mod_twice(ee[k1].value - (oo[k1].value * t[k1].value) % p, p);
            }
        }
    }
}

/// The discrete Fourier transform of `x` with root `w`: bin `k` is the residue of
/// `x[0] w^(0 k) + x[1] w^(1 k) + ... + x[n-1] w^((n-1) k)`.
pub open spec fn dft(x: Seq<Residue>, w: int) -> Seq<Residue> {
    Seq::new(x.len(), |k: int| residue_of(dft_sum(sample_values(x), w, k as nat, x.len())))
}

/// Every residue is below `MODULUS`.
pub open spec fn reduced(x: Seq<Residue>) -> bool {
    forall|j: int| 0 <= j < x.len() ==> #[trigger] x[j].value < MODULUS
}

/// The radix-2 FFT computes the DFT: for `2^levels` reduced residues, with twiddle tables
/// made of the powers of a root `w` of order `2^levels` (so that `w^(2^(levels-1))` is
/// `-1`), the bit-reversal permutation followed by the butterfly passes gives exactly the
/// DFT with root `w`.
pub proof fn lemma_fft_computes_dft(x: Seq<Residue>, tw: Seq<Seq<Residue>>, w: int, levels: nat)
    requires
        x.len() == pow2(levels),
        reduced(x),
        root_twiddles(tw, w, levels),
        half_turn(w, levels),
    ensures
        radix_2_transform(x, tw) == dft(x, w),
{
    let p = MODULUS as int;
    lemma_fft_core(x, tw, w, levels);
    let out = radix_2_transform(x, tw);
    if levels == 0 {
        lemma2_to64();
        assert(out == x);
        assert forall|k: int| 0 <= k < x.len() implies #[trigger] out[k] == dft(x, w)[k] by {
            lemma_small_mod(x[k].value as nat, p as nat);
            assert(reversed_bits(0, 0) == 0) by {
                lemma_binary_digits_len(0, 0);
                assert(binary_digits(0, 0).reverse() =~= Seq::<bool>::empty());
            }
            assert(bit_reversed(x, 0)[0] == x[0]);
        }
    } else {
        lemma_log2_of(x.len(), levels);
        lemma_pow2_unfold(levels);
        lemma_pow2_pos((levels - 1) as nat);
        assert(bit_reversal_permutation(x) =~= bit_reversed(x, levels));
        assert(out == butterfly_passes(bit_reversed(x, levels), tw, levels));
        let l1 = (levels - 1) as nat;
        let prev = butterfly_passes(bit_reversed(x, levels), tw, l1);
        assert(out == butterfly_stage(prev, pow2(l1), tw[l1 as int]));
        assert forall|k: int| 0 <= k < x.len() implies #[trigger] out[k] == dft(x, w)[k] by {
            let v = out[k].value as int;
            assert(v < p);
            lemma_small_mod(v as nat, p as nat);
        }
    }
    assert(out =~= dft(x, w));
}

} // verus!
