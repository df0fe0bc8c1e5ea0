//! Index bookkeeping of the radix-2 FFT: power-of-two lengths and the bit-reversal
//! reordering of the samples that precedes the butterfly passes.
use crate::bits::{
    binary_digits, digits_value_msb_first, lemma_binary_digit, lemma_binary_digits_len,
    lemma_msb_first_is_reversed, lemma_reversed_bits_bound, lemma_reversed_bits_involution,
    reversed_bits,
};
use crate::sample::{add_total, div_total, mul_total, sub_total};
use core::ops::{Add, Div, Mul, Sub};
use vstd::arithmetic::div_mod::*;
use vstd::arithmetic::mul::*;
use vstd::arithmetic::power::pow;
use vstd::arithmetic::power2::*;
use vstd::prelude::*;
use vstd::std_specs::ops::{AddSpec, DivSpec, MulSpec, SubSpec};

verus! {

/// `n` is a power of two (`1, 2, 4, ...`).
pub open spec fn power_of_two(n: nat) -> bool {
    exists|b: nat| pow2(b) == n
}

/// The exponent `b` with `2^b == n`, for a power of two `n`.
pub open spec fn log2_of(n: nat) -> nat {
    choose|b: nat| pow2(b) == n
}

/// The samples of `s` reordered so that position `i` holds the sample at the bit-reversed
/// index of `i`, where indices have `log2(s.len())` bits.
pub open spec fn bit_reversal_permutation<T>(s: Seq<T>) -> Seq<T> {
    Seq::new(s.len(), |i: int| s[reversed_bits(i as nat, log2_of(s.len())) as int])
}

proof fn lemma_pow2_injective(a: nat, b: nat)
    requires
        pow2(a) == pow2(b),
    ensures
        a == b,
{
    if a < b {
        lemma_pow2_strictly_increases(a, b);
    } else if b < a {
        lemma_pow2_strictly_increases(b, a);
    }
}

/// For a power of two, `log2_of` is the exponent.
pub proof fn lemma_log2_of(n: nat, b: nat)
    requires
        pow2(b) == n,
    ensures
        log2_of(n) == b,
{
    let c = log2_of(n);
    assert(pow2(c) == n);
    lemma_pow2_injective(b, c);
}

proof fn lemma_pow2_in_usize(b: nat)
    requires
        pow2(b) <= usize::MAX,
    ensures
        b < 64,
{
    if b >= 64 {
        lemma2_to64_rest();
        if b > 64 {
            lemma_pow2_strictly_increases(64, b);
        }
        assert(usize::MAX <= u64::MAX);
    }
}

/// Whether `n` is a power of two.
pub fn is_power_of_two(n: usize) -> (r: bool)
    ensures
        r == power_of_two(n as nat),
{
    let mut m = n;
    while m > 1 && m % 2 == 0
        invariant
            m <= n,
            is_pow2(m as int) == is_pow2(n as int),
        decreases m,
    {
        proof {
            reveal(is_pow2);
        }
        m = m / 2;
    }
    proof {
        reveal(is_pow2);
        is_pow2_equiv(n as int);
        if is_pow2_exists(n as int) {
            let b = choose|i: nat| pow(2, i) == n as int;
            lemma_pow2(b);
            assert(pow2(b) == n as nat);
        }
        if power_of_two(n as nat) {
            let b = choose|b: nat| pow2(b) == n as nat;
            lemma_pow2(b);
            assert(pow(2, b) == n as int);
        }
    }
    m == 1
}

/// The exponent of a power of two.
pub fn exact_log2(n: usize) -> (b: u32)
    requires
        power_of_two(n as nat),
    ensures
        pow2(b as nat) == n,
        b < 64,
        b as nat == log2_of(n as nat),
{
    let ghost c = choose|c: nat| pow2(c) == n as nat;
    proof {
        lemma_pow2_in_usize(c);
        lemma_log2_of(n as nat, c);
    }
    let mut m = n;
    let mut b: u32 = 0;
    while m > 1
        invariant
            b <= c,
            c < 64,
            m as nat == pow2((c - b) as nat),
            pow2(c) == n as nat,
        decreases m,
    {
        proof {
            if b == c {
                lemma2_to64();
                assert(false);
            }
            lemma_pow2_unfold((c - b) as nat);
        }
        m = m / 2;
        b = b + 1;
    }
    proof {
        if b < c {
            lemma_pow2_unfold((c - b) as nat);
            lemma_pow2_pos((c - b - 1) as nat);
        }
    }
    b
}

/// The lowest `width` bits of `i` in reverse order.
pub fn reverse_bits(i: usize, width: u32) -> (r: usize)
    requires
        i < pow2(width as nat),
        pow2(width as nat) <= usize::MAX,
    ensures
        r == reversed_bits(i as nat, width as nat),
        r < pow2(width as nat),
{
    let ghost digits = binary_digits(i as nat, width as nat);
    proof {
        lemma_binary_digits_len(i as nat, width as nat);
        lemma2_to64();
        assert(digits.take(0) =~= Seq::<bool>::empty());
    }
    let mut x = i;
    let mut r: usize = 0;
    let mut k: u32 = 0;
    while k < width
        invariant
            k <= width,
            digits == binary_digits(i as nat, width as nat),
            digits.len() == width,
            pow2(width as nat) <= usize::MAX,
            x as nat == i as nat / pow2(k as nat),
            r as nat == digits_value_msb_first(digits.take(k as int)),
            r < pow2(k as nat),
        decreases width - k,
    {
        proof {
            lemma_binary_digit(i as nat, width as nat, k as nat);
            assert(digits.take(k + 1).drop_last() =~= digits.take(k as int));
            lemma_pow2_unfold((k + 1) as nat);
            lemma_pow2_pos(k as nat);
            if k + 1 < width {
                lemma_pow2_strictly_increases((k + 1) as nat, width as nat);
            }
            lemma_div_denominator(i as int, pow2(k as nat) as int, 2);
        }
        r = r * 2 + x % 2;
        x = x / 2;
        k = k + 1;
    }
    proof {
        assert(digits.take(width as int) =~= digits);
        lemma_msb_first_is_reversed(digits);
    }
    r
}

/// Reorders `data` in place by bit-reversing each index, swapping every pair of positions
/// whose indices are each other's reversal; lengths 0 and 1 are left alone.
pub fn bit_reverse_permute<T: Copy>(data: &mut [T])
    requires
        old(data).len() <= 1 || power_of_two(old(data).len() as nat),
    ensures
        final(data)@ == bit_reversal_permutation(old(data)@),
{
    let n = data.len();
    let ghost orig = data@;
    if n <= 1 {
        proof {
            if n == 1 {
                lemma2_to64();
                lemma_log2_of(1, 0);
                assert(reversed_bits(0, 0) == 0);
            }
            assert(data@ =~= bit_reversal_permutation(orig));
        }
        return;
    }
    let width = exact_log2(n);
    let ghost w = width as nat;
    let mut i: usize = 0;
    while i < n
        invariant
            n == data@.len(),
            n == orig.len(),
            pow2(w) == n,
            w == width as nat,
            w == log2_of(n as nat),
            i <= n,
            forall|t: int|
                0 <= t < n ==> #[trigger] data@[t] == orig[(if t < i || reversed_bits(t as nat, w) < i {
                    reversed_bits(t as nat, w) as int
                } else {
                    t
                })],
        decreases n - i,
    {
        let j = reverse_bits(i, width);
        proof {
            lemma_reversed_bits_involution(i as nat, w);
            assert forall|t: int| 0 <= t < n implies #[trigger] reversed_bits(t as nat, w) < n by {
                lemma_reversed_bits_bound(t as nat, w);
            }
            assert forall|t: int|
                0 <= t < n && #[trigger] reversed_bits(t as nat, w) == i implies t == j by {
                lemma_reversed_bits_involution(t as nat, w);
            }
        }
        if i < j {
            let a = data[i];
            let b = data[j];
            data[i] = b;
            data[j] = a;
        }
        i = i + 1;
    }
    proof {
        assert forall|t: int| 0 <= t < n implies #[trigger] reversed_bits(t as nat, w) < n by {
            lemma_reversed_bits_bound(t as nat, w);
        }
        assert(data@ =~= bit_reversal_permutation(orig));
    }
}

/// Reordering by bit reversal twice gives back the samples in their first order.
pub proof fn lemma_bit_reversal_permutation_involution<T>(s: Seq<T>)
    requires
        power_of_two(s.len()),
    ensures
        bit_reversal_permutation(bit_reversal_permutation(s)) == s,
{
    let w = log2_of(s.len());
    let b = choose|b: nat| pow2(b) == s.len();
    lemma_log2_of(s.len(), b);
    let p = bit_reversal_permutation(s);
    assert forall|i: int| 0 <= i < s.len() implies #[trigger] bit_reversal_permutation(p)[i] == s[i] by {
        lemma_reversed_bits_bound(i as nat, w);
        lemma_reversed_bits_involution(i as nat, w);
    }
    assert(bit_reversal_permutation(p) =~= s);
}

/// Splits `data` into the samples at even indices and those at odd indices, each in order.
pub fn split_even_odd<T: Copy>(data: &[T]) -> (parts: (Vec<T>, Vec<T>))
    ensures
        parts.0@.len() == (data.len() + 1) / 2,
        parts.1@.len() == data.len() / 2,
        forall|i: int| 0 <= i < parts.0@.len() ==> #[trigger] parts.0@[i] == data@[2 * i],
        forall|i: int| 0 <= i < parts.1@.len() ==> #[trigger] parts.1@[i] == data@[2 * i + 1],
{
    let mut evens: Vec<T> = Vec::new();
    let mut odds: Vec<T> = Vec::new();
    let mut i: usize = 0;
    while i < data.len()
        invariant
            i <= data.len(),
            evens@.len() == (i + 1) / 2,
            odds@.len() == i / 2,
            forall|t: int| 0 <= t < evens@.len() ==> #[trigger] evens@[t] == data@[2 * t],
            forall|t: int| 0 <= t < odds@.len() ==> #[trigger] odds@[t] == data@[2 * t + 1],
        decreases data.len() - i,
    {
        if i % 2 == 0 {
            evens.push(data[i]);
        } else {
            odds.push(data[i]);
        }
        i = i + 1;
    }
    (evens, odds)
}

/// One radix-2 pass over blocks of `2 * half` samples: within each block, sample `p < half`
/// becomes `d[i] + d[i + half] * tw[p]` and its partner `half` positions later becomes
/// `d[i] - d[i + half] * tw[p]`.
pub open spec fn butterfly_stage<T: Add<Output = T> + Sub<Output = T> + Mul<Output = T>>(
    d: Seq<T>,
    half: nat,
    tw: Seq<T>,
) -> Seq<T> {
    Seq::new(
        d.len(),
        |i: int|
            {
                let p = i % (2 * half) as int;
                if p < half {
                    d[i].add_spec(d[i + half].mul_spec(tw[p]))
                } else {
                    d[i - half].sub_spec(d[i].mul_spec(tw[p - half]))
                }
            },
    )
}

/// The first `stages` radix-2 passes, pass `s` working on blocks of `2^(s+1)` samples with
/// the twiddle factors `twiddles[s]`.
pub open spec fn butterfly_passes<T: Add<Output = T> + Sub<Output = T> + Mul<Output = T>>(
    d: Seq<T>,
    twiddles: Seq<Seq<T>>,
    stages: nat,
) -> Seq<T>
    decreases stages,
{
    if stages == 0 {
        d
    } else {
        butterfly_stage(
            butterfly_passes(d, twiddles, (stages - 1) as nat),
            pow2((stages - 1) as nat),
            twiddles[stages - 1],
        )
    }
}

/// The views of the per-pass twiddle tables.
pub open spec fn twiddle_views<T>(twiddles: Seq<Vec<T>>) -> Seq<Seq<T>> {
    twiddles.map_values(|t: Vec<T>| t@)
}

/// Twiddle tables fit a transform of `n = 2^L` samples: one table per pass, the table of
/// pass `s` holding `2^s` factors.
pub open spec fn twiddles_fit<T>(twiddles: Seq<Vec<T>>, n: nat) -> bool {
    &&& twiddles.len() == log2_of(n)
    &&& forall|s: int| 0 <= s < twiddles.len() ==> (#[trigger] twiddles[s])@.len() == pow2(s as nat)
}

proof fn lemma_block_position(i: int, k: int, m: int, block: int)
    requires
        block > 0,
        k == m * block,
        k <= i < k + block,
    ensures
        i % block == i - k,
{
    lemma_fundamental_div_mod_converse(i, block, m, i - k);
}

fn butterfly_stage_in_place<T: Copy + Add<Output = T> + Sub<Output = T> + Mul<Output = T>>(
    data: &mut [T],
    half: usize,
    tw: &[T],
)
    requires
        half > 0,
        2 * half <= old(data).len(),
        old(data).len() as int % (2 * half) as int == 0,
        tw.len() == half,
        add_total::<T>(),
        sub_total::<T>(),
        mul_total::<T>(),
    ensures
        final(data)@.len() == old(data)@.len(),
        T::obeys_add_spec() && T::obeys_sub_spec() && T::obeys_mul_spec() ==> final(data)@
            == butterfly_stage(old(data)@, half as nat, tw@),
{
    let ghost d0 = data@;
    let ghost done = butterfly_stage(d0, half as nat, tw@);
    let ghost obeys = T::obeys_add_spec() && T::obeys_sub_spec() && T::obeys_mul_spec();
    let n = data.len();
    let block = 2 * half;
    let mut k: usize = 0;
    let ghost mut m: int = 0;
    while k < n
        invariant
            n == data@.len(),
            n == d0.len(),
            block == 2 * half,
            half > 0,
            n as int % block as int == 0,
            tw.len() == half,
            done == butterfly_stage(d0, half as nat, tw@),
            obeys == (T::obeys_add_spec() && T::obeys_sub_spec() && T::obeys_mul_spec()),
            add_total::<T>(),
            sub_total::<T>(),
            mul_total::<T>(),
            k == m * block,
            0 <= m,
            k <= n,
            forall|i: int| k <= i < n ==> #[trigger] data@[i] == d0[i],
            obeys ==> forall|i: int| 0 <= i < k ==> #[trigger] data@[i] == done[i],
        decreases n - k,
    {
        proof {
            let q = n as int / block as int;
            lemma_fundamental_div_mod(n as int, block as int);
            assert(k + block <= n) by (nonlinear_arith)
                requires
                    k == m * block,
                    n == block * q,
                    k < n,
                    block > 0,
            ;
        }
        let mut j: usize = 0;
        while j < half
            invariant
                n == data@.len(),
                n == d0.len(),
                block == 2 * half,
                half > 0,
                tw.len() == half,
                done == butterfly_stage(d0, half as nat, tw@),
                obeys == (T::obeys_add_spec() && T::obeys_sub_spec() && T::obeys_mul_spec()),
                add_total::<T>(),
                sub_total::<T>(),
                mul_total::<T>(),
                k == m * block,
                k + block <= n,
                j <= half,
                forall|i: int|
                    (k + j <= i < k + half || k + half + j <= i < n) ==> #[trigger] data@[i] == d0[i],
                obeys ==> forall|i: int|
                    (0 <= i < k + j || k + half <= i < k + half + j) ==> #[trigger] data@[i]
                        == done[i],
            decreases half - j,
        {
            let a = k + j;
            let b = a + half;
            proof {
                lemma_block_position(a as int, k as int, m, block as int);
                lemma_block_position(b as int, k as int, m, block as int);
            }
            let val_a = data[a];
            let val_b_scaled = data[b] * tw[j];
            data[a] = val_a + val_b_scaled;
            data[b] = val_a - val_b_scaled;
            j = j + 1;
        }
        k = k + block;
        proof {
            m = m + 1;
            assert(k == m * block) by (nonlinear_arith)
                requires
                    k == (m - 1) * block + block,
            ;
        }
    }
    proof {
        if obeys {
            assert(data@ =~= done);
        }
    }
}

/// Runs the radix-2 passes over samples already in bit-reversed order.
pub fn butterflies<T: Copy + Add<Output = T> + Sub<Output = T> + Mul<Output = T>>(
    data: &mut [T],
    twiddles: &[Vec<T>],
)
    requires
        power_of_two(old(data).len() as nat),
        twiddles_fit(twiddles@, old(data).len() as nat),
        add_total::<T>(),
        sub_total::<T>(),
        mul_total::<T>(),
    ensures
        final(data)@.len() == old(data)@.len(),
        T::obeys_add_spec() && T::obeys_sub_spec() && T::obeys_mul_spec() ==> final(data)@
            == butterfly_passes(old(data)@, twiddle_views(twiddles@), log2_of(old(data).len() as nat)),
{
    let ghost d0 = data@;
    let ghost tws = twiddle_views(twiddles@);
    let n = data.len();
    let stages = exact_log2(n);
    let mut s: u32 = 0;
    let mut half: usize = 1;
    proof {
        lemma2_to64();
    }
    while s < stages
        invariant
            n == data@.len(),
            n == d0.len(),
            pow2(stages as nat) == n,
            stages as nat == log2_of(n as nat),
            twiddles_fit(twiddles@, n as nat),
            tws == twiddle_views(twiddles@),
            s <= stages,
            half == pow2(s as nat),
            add_total::<T>(),
            sub_total::<T>(),
            mul_total::<T>(),
            T::obeys_add_spec() && T::obeys_sub_spec() && T::obeys_mul_spec() ==> data@
                == butterfly_passes(d0, tws, s as nat),
        decreases stages - s,
    {
        proof {
            lemma_pow2_unfold((s + 1) as nat);
            lemma_pow2_adds((stages - s - 1) as nat, (s + 1) as nat);
            lemma_pow2_pos((stages - s - 1) as nat);
            lemma_pow2_pos((s + 1) as nat);
            lemma_pow2_pos(s as nat);
            lemma_mod_multiples_basic(pow2((stages - s - 1) as nat) as int, pow2((s + 1) as nat) as int);
            if s + 1 < stages {
                lemma_pow2_strictly_increases((s + 1) as nat, stages as nat);
            }
            assert(twiddles@[s as int]@.len() == pow2(s as nat));
            assert(tws[s as int] == twiddles@[s as int]@);
        }
        butterfly_stage_in_place(data, half, twiddles[s as usize].as_slice());
        half = half * 2;
        s = s + 1;
    }
}

/// The radix-2 FFT of `d` with the given per-pass twiddle tables: the samples in
/// bit-reversed order, then every radix-2 pass.
pub open spec fn radix_2_transform<T: Add<Output = T> + Sub<Output = T> + Mul<Output = T>>(
    d: Seq<T>,
    twiddles: Seq<Seq<T>>,
) -> Seq<T> {
    if d.len() <= 1 {
        d
    } else {
        butterfly_passes(bit_reversal_permutation(d), twiddles, log2_of(d.len()))
    }
}

/// In-place radix-2 FFT of a power-of-two number of samples, using bit-reversal
/// permutation followed by the butterfly passes. `twiddles[s][j]` is the factor for
/// position `j` of the blocks of `2^(s+1)` samples: `e^(-2 pi i j / 2^(s+1))` for the
/// forward transform, its conjugate for the inverse.
pub fn r2fft_with_twiddles<T: Copy + Add<Output = T> + Sub<Output = T> + Mul<Output = T>>(
    data: &mut [T],
    twiddles: &[Vec<T>],
)
    requires
        old(data).len() <= 1 || power_of_two(old(data).len() as nat),
        old(data).len() > 1 ==> twiddles_fit(twiddles@, old(data).len() as nat),
        add_total::<T>(),
        sub_total::<T>(),
        mul_total::<T>(),
    ensures
        final(data)@.len() == old(data)@.len(),
        T::obeys_add_spec() && T::obeys_sub_spec() && T::obeys_mul_spec() ==> final(data)@
            == radix_2_transform(old(data)@, twiddle_views(twiddles@)),
{
    if data.len() > 1 {
        bit_reverse_permute(data);
        butterflies(data, twiddles);
    }
}

/// Divides every sample by `divisor`.
pub fn divide_each<T: Copy + Div<Output = T>>(data: &mut [T], divisor: T)
    requires
        div_total::<T>(),
    ensures
        final(data)@.len() == old(data)@.len(),
        T::obeys_div_spec() ==> final(data)@ == old(data)@.map_values(|x: T| x.div_spec(divisor)),
{
    let ghost orig = data@;
    let n = data.len();
    let mut i: usize = 0;
    while i < n
        invariant
            n == data@.len(),
            n == orig.len(),
            i <= n,
            div_total::<T>(),
            forall|t: int| i <= t < n ==> #[trigger] data@[t] == orig[t],
            T::obeys_div_spec() ==> forall|t: int|
                0 <= t < i ==> #[trigger] data@[t] == orig[t].div_spec(divisor),
        decreases n - i,
    {
        let v = data[i] / divisor;
        data[i] = v;
        i = i + 1;
    }
    proof {
        if T::obeys_div_spec() {
            assert(data@ =~= orig.map_values(|x: T| x.div_spec(divisor)));
        }
    }
}

/// In-place inverse radix-2 FFT: the same passes as `r2fft_with_twiddles` with the
/// conjugate twiddle factors, then every sample divided by `size`, the number of samples
/// as a sample value. Fewer than two samples are left alone.
pub fn ir2fft_with_twiddles<T: Copy + Add<Output = T> + Sub<Output = T> + Mul<Output = T> + Div<
    Output = T,
>>(data: &mut [T], twiddles: &[Vec<T>], size: T)
    requires
        old(data).len() <= 1 || power_of_two(old(data).len() as nat),
        old(data).len() > 1 ==> twiddles_fit(twiddles@, old(data).len() as nat),
        add_total::<T>(),
        sub_total::<T>(),
        mul_total::<T>(),
        div_total::<T>(),
    ensures
        final(data)@.len() == old(data)@.len(),
        T::obeys_add_spec() && T::obeys_sub_spec() && T::obeys_mul_spec() && T::obeys_div_spec()
            ==> final(data)@ == if old(data)@.len() <= 1 {
            old(data)@
        } else {
            radix_2_transform(old(data)@, twiddle_views(twiddles@)).map_values(
                |x: T| x.div_spec(size),
            )
        },
{
    if data.len() > 1 {
        bit_reverse_permute(data);
        butterflies(data, twiddles);
        divide_each(data, size);
    }
}

/// `one * step * step * ... ` with `j` factors `step`: the twiddle factor of position `j`
/// when it is advanced by one multiplication per position.
pub open spec fn twiddle_power<T: Mul<Output = T>>(one: T, step: T, j: nat) -> T
    decreases j,
{
    if j == 0 {
        one
    } else {
        twiddle_power(one, step, (j - 1) as nat).mul_spec(step)
    }
}

/// The twiddle factors advance by one factor `step` per position: position 0 has `one`, and
/// each next position has the previous factor times `step`.
pub proof fn lemma_twiddle_power_advances<T: Mul<Output = T>>(one: T, step: T, j: nat)
    ensures
        twiddle_power(one, step, 0) == one,
        twiddle_power(one, step, j + 1) == twiddle_power(one, step, j).mul_spec(step),
{
}

/// The combination step of a recursive radix-2 FFT: with `w_j` the twiddle factor of
/// position `j`, output `j` is `evens[j] + w_j * odds[j]` and output `j + evens.len()` is
/// `evens[j] - w_j * odds[j]`.
pub open spec fn combined_halves<T: Add<Output = T> + Sub<Output = T> + Mul<Output = T>>(
    evens: Seq<T>,
    odds: Seq<T>,
    step: T,
    one: T,
) -> Seq<T> {
    Seq::new(
        2 * evens.len(),
        |i: int|
            if i < evens.len() {
                evens[i].add_spec(twiddle_power(one, step, i as nat).mul_spec(odds[i]))
            } else {
                let j = i - evens.len();
                evens[j].sub_spec(twiddle_power(one, step, j as nat).mul_spec(odds[j]))
            },
    )
}

/// Combines the transforms of the even- and odd-indexed halves of a signal, the twiddle
/// factor starting at `one` and multiplied by `step` after each position.
pub fn combine_halves<T: Copy + Add<Output = T> + Sub<Output = T> + Mul<Output = T>>(
    evens: &[T],
    odds: &[T],
    step: T,
    one: T,
) -> (out: Vec<T>)
    requires
        evens.len() == odds.len(),
        2 * evens.len() <= usize::MAX,
        add_total::<T>(),
        sub_total::<T>(),
        mul_total::<T>(),
    ensures
        out@.len() == 2 * evens.len(),
        T::obeys_add_spec() && T::obeys_sub_spec() && T::obeys_mul_spec() ==> out@
            == combined_halves(evens@, odds@, step, one),
{
    let half = evens.len();
    let mut upper: Vec<T> = Vec::new();
    let mut lower: Vec<T> = Vec::new();
    let mut twiddle = one;
    let ghost obeys = T::obeys_add_spec() && T::obeys_sub_spec() && T::obeys_mul_spec();
    let ghost spec_out = combined_halves(evens@, odds@, step, one);
    let mut j: usize = 0;
    while j < half
        invariant
            half == evens.len(),
            half == odds.len(),
            j <= half,
            upper@.len() == j,
            lower@.len() == j,
            obeys == (T::obeys_add_spec() && T::obeys_sub_spec() && T::obeys_mul_spec()),
            spec_out == combined_halves(evens@, odds@, step, one),
            add_total::<T>(),
            sub_total::<T>(),
            mul_total::<T>(),
            obeys ==> twiddle == twiddle_power(one, step, j as nat),
            obeys ==> forall|t: int| 0 <= t < j ==> #[trigger] upper@[t] == spec_out[t],
            obeys ==> forall|t: int| 0 <= t < j ==> #[trigger] lower@[t] == spec_out[t + half],
        decreases half - j,
    {
        let scaled = twiddle * odds[j];
        upper.push(evens[j] + scaled);
        lower.push(evens[j] - scaled);
        twiddle = twiddle * step;
        j = j + 1;
    }
    let mut out = upper;
    let ghost up = out@;
    let mut t: usize = 0;
    while t < half
        invariant
            half == lower@.len(),
            t <= half,
            up.len() == half,
            out@ == up + lower@.subrange(0, t as int),
        decreases half - t,
    {
        out.push(lower[t]);
        t = t + 1;
        proof {
            assert(out@ =~= up + lower@.subrange(0, t as int));
        }
    }
    proof {
        if obeys {
            assert(out@ =~= spec_out);
        }
    }
    out
}

} // verus!
