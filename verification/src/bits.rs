//! Binary expansions of indices and the bit-reversal map used to reorder the input of a
//! radix-2 FFT.
use vstd::arithmetic::div_mod::*;
use vstd::arithmetic::power2::*;
use vstd::prelude::*;

verus! {

/// The lowest `width` binary digits of `i`, least significant first.
pub open spec fn binary_digits(i: nat, width: nat) -> Seq<bool>
    decreases width,
{
    if width == 0 {
        Seq::empty()
    } else {
        seq![i % 2 == 1] + binary_digits(i / 2, (width - 1) as nat)
    }
}

/// The number whose binary digits, least significant first, are `digits`.
pub open spec fn digits_value(digits: Seq<bool>) -> nat
    decreases digits.len(),
{
    if digits.len() == 0 {
        0
    } else {
        (if digits[0] { 1nat } else { 0nat }) + 2 * digits_value(digits.drop_first())
    }
}

/// The number whose binary digits, most significant first, are `digits`.
pub open spec fn digits_value_msb_first(digits: Seq<bool>) -> nat
    decreases digits.len(),
{
    if digits.len() == 0 {
        0
    } else {
        2 * digits_value_msb_first(digits.drop_last()) + (if digits.last() { 1nat } else { 0nat })
    }
}

/// `i` with its lowest `width` binary digits written in reverse order.
pub open spec fn reversed_bits(i: nat, width: nat) -> nat {
    digits_value(binary_digits(i, width).reverse())
}

pub proof fn lemma_binary_digits_len(i: nat, width: nat)
    ensures
        binary_digits(i, width).len() == width,
    decreases width,
{
    if width > 0 {
        lemma_binary_digits_len(i / 2, (width - 1) as nat);
    }
}

/// Digit `k` of `i` is the parity of `i / 2^k`.
pub proof fn lemma_binary_digit(i: nat, width: nat, k: nat)
    requires
        k < width,
    ensures
        binary_digits(i, width)[k as int] == ((i / pow2(k)) % 2 == 1),
    decreases width,
{
    lemma_binary_digits_len(i / 2, (width - 1) as nat);
    if k == 0 {
        assert(pow2(0) == 1) by {
            lemma2_to64();
        }
    } else {
        lemma_binary_digit(i / 2, (width - 1) as nat, (k - 1) as nat);
        lemma_pow2_unfold(k);
        lemma_pow2_pos((k - 1) as nat);
        lemma_div_denominator(i as int, 2, pow2((k - 1) as nat) as int);
    }
}

pub proof fn lemma_digits_value_bound(digits: Seq<bool>)
    ensures
        digits_value(digits) < pow2(digits.len()),
    decreases digits.len(),
{
    if digits.len() == 0 {
        lemma2_to64();
    } else {
        lemma_digits_value_bound(digits.drop_first());
        lemma_pow2_unfold(digits.len());
    }
}

/// Reading the lowest `width` digits of `i` back gives `i` modulo `2^width`.
pub proof fn lemma_digits_value_of_binary_digits(i: nat, width: nat)
    ensures
        digits_value(binary_digits(i, width)) == i % pow2(width),
    decreases width,
{
    if width == 0 {
        lemma2_to64();
    } else {
        let rest = binary_digits(i / 2, (width - 1) as nat);
        lemma_digits_value_of_binary_digits(i / 2, (width - 1) as nat);
        assert((seq![i % 2 == 1] + rest).drop_first() =~= rest);
        lemma_pow2_unfold(width);
        lemma_pow2_pos((width - 1) as nat);
        let p = pow2((width - 1) as nat) as int;
        let x = i as int;
        // x = 2 * (x / 2) + x % 2 and (x / 2) = p * ((x / 2) / p) + (x / 2) % p
        lemma_fundamental_div_mod(x, 2);
        lemma_fundamental_div_mod(x / 2, p);
        lemma_fundamental_div_mod(x, 2 * p);
        lemma_div_denominator(x, 2, p);
        lemma_mod_bound(x / 2, p);
        lemma_mod_bound(x, 2);
        lemma_mod_bound(x, 2 * p);
        assert(x % (2 * p) == 2 * ((x / 2) % p) + x % 2) by (nonlinear_arith)
            requires
                x == 2 * (x / 2) + x % 2,
                (x / 2) == p * ((x / 2) / p) + (x / 2) % p,
                x == (2 * p) * (x / (2 * p)) + x % (2 * p),
                (x / 2) / p == x / (2 * p),
                0 <= (x / 2) % p < p,
                0 <= x % 2 < 2,
                0 <= x % (2 * p) < 2 * p,
                p > 0,
        ;
    }
}

/// The digits of `digits_value(digits)` are `digits` again.
pub proof fn lemma_binary_digits_of_digits_value(digits: Seq<bool>)
    ensures
        binary_digits(digits_value(digits), digits.len()) == digits,
    decreases digits.len(),
{
    if digits.len() > 0 {
        let rest = digits.drop_first();
        lemma_binary_digits_of_digits_value(rest);
        let v = digits_value(digits);
        let b: nat = if digits[0] { 1 } else { 0 };
        assert(v % 2 == b && v / 2 == digits_value(rest)) by {
            lemma_fundamental_div_mod_converse(v as int, 2, digits_value(rest) as int, b as int);
        }
        assert(binary_digits(v, digits.len()) =~= seq![digits[0]] + rest);
        assert(seq![digits[0]] + rest =~= digits);
    }
}

pub proof fn lemma_msb_first_is_reversed(digits: Seq<bool>)
    ensures
        digits_value_msb_first(digits) == digits_value(digits.reverse()),
    decreases digits.len(),
{
    if digits.len() > 0 {
        lemma_msb_first_is_reversed(digits.drop_last());
        assert(digits.reverse().drop_first() =~= digits.drop_last().reverse());
    }
}

/// Reversing the lowest `width` bits is a map into `0 .. 2^width`.
pub proof fn lemma_reversed_bits_bound(i: nat, width: nat)
    ensures
        reversed_bits(i, width) < pow2(width),
{
    lemma_binary_digits_len(i, width);
    lemma_digits_value_bound(binary_digits(i, width).reverse());
}

/// Reversing the lowest `width` bits twice gives back every index below `2^width`.
pub proof fn lemma_reversed_bits_involution(i: nat, width: nat)
    requires
        i < pow2(width),
    ensures
        reversed_bits(reversed_bits(i, width), width) == i,
{
    let d = binary_digits(i, width);
    lemma_binary_digits_len(i, width);
    lemma_binary_digits_of_digits_value(d.reverse());
    assert(d.reverse().reverse() =~= d);
    lemma_digits_value_of_binary_digits(i, width);
    lemma_small_mod(i, pow2(width));
}

} // verus!
