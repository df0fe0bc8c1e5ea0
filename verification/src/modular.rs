//! An exact sample type: the integers modulo the prime `MODULUS`. Its `+`, `-`, `*` and `/`
//! are defined for every pair of values and are described exactly by the operator
//! specifications the library's contracts speak of, so every value clause of the library
//! applies to it. The prime has `2^23` dividing `MODULUS - 1`, so it has roots of unity of
//! every power-of-two order up to `2^23` and the radix-2 FFT runs on it exactly (as a
//! number-theoretic transform).
use core::ops::{Add, Div, Mul, Sub};
use vstd::arithmetic::div_mod::*;
use vstd::arithmetic::power::*;
use vstd::prelude::*;
use crate::sample::{add_total, div_total, mul_total, sub_total};
use vstd::std_specs::ops::{
    AddSpec, AddSpecImpl, DivSpec, DivSpecImpl, MulSpec, MulSpecImpl, SubSpec, SubSpecImpl,
};

verus! {

/// The prime modulus, `119 * 2^23 + 1`.
pub const MODULUS: u64 = 998244353;

/// An integer modulo `MODULUS`. Any `u64` may stand in `value`; the operators reduce it.
#[derive(Clone, Copy, Debug, PartialEq, Eq, Structural)]
pub struct Residue {
    pub value: u64,
}

/// The residue of `x` modulo `MODULUS`.
pub open spec fn residue_of(x: int) -> Residue {
    Residue { value: (x % (MODULUS as int)) as u64 }
}

impl Residue {
    /// The residue of `value`, reduced below `MODULUS`.
    pub fn new(value: u64) -> (r: Residue)
        ensures
            r == residue_of(value as int),
    {
        Residue { value: value % MODULUS }
    }
}

/// `base^exp` modulo `MODULUS`, by repeated squaring.
fn pow_mod(base: u64, exp: u64) -> (r: u64)
    ensures
        r == pow(base as int, exp as nat) % (MODULUS as int),
        r < MODULUS,
{
    let ghost p = MODULUS as int;
    let ghost target = pow(base as int, exp as nat) % p;
    let mut result: u64 = 1;
    let mut b: u64 = base % MODULUS;
    let mut e: u64 = exp;
    proof {
        lemma_pow_mod_noop(base as int, exp as nat, p);
        lemma_pow_positive(2, 0);
        assert((1 * pow(b as int, e as nat)) % p == target);
    }
    while e > 0
        invariant
            p == MODULUS as int,
            result < MODULUS,
            b < MODULUS,
            (result * pow(b as int, e as nat)) % p == target,
        decreases e,
    {
        if e % 2 == 1 {
            proof {
                let x = pow(b as int, (e - 1) as nat);
                reveal(pow);
                assert(pow(b as int, e as nat) == b * x);
                assert(result * (b * x) == (result * b) * x) by (nonlinear_arith);
                lemma_mul_mod_noop_left(result * b, x, p);
                assert(result * b < 0x1_0000_0000_0000_0000) by (nonlinear_arith)
                    requires
                        result < 998244353,
                        b < 998244353,
                ;
            }
            result = result * b % MODULUS;
            e = e - 1;
        }
        proof {
            let k = (e / 2) as nat;
            assert(e as nat == 2 * k);
            lemma_square_is_pow2(b as int);
            lemma_pow_multiplies(b as int, 2, k);
            lemma_pow_mod_noop(b * b, k, p);
            lemma_mul_mod_noop_right(result as int, pow((b * b) % p, k), p);
            lemma_mul_mod_noop_right(result as int, pow(b * b, k), p);
            assert(b * b < 0x1_0000_0000_0000_0000) by (nonlinear_arith)
                requires
                    b < 998244353,
            ;
        }
        b = b * b % MODULUS;
        e = e / 2;
    }
    proof {
        assert(pow(b as int, 0) == 1) by {
            lemma_pow0(b as int);
        }
        lemma_small_mod(result as nat, p as nat);
    }
    result
}

impl Add for Residue {
    type Output = Residue;

    fn add(self, rhs: Residue) -> (r: Residue) {
        let sum = self.value % MODULUS + rhs.value % MODULUS;
        proof {
            lemma_add_mod_noop(self.value as int, rhs.value as int, MODULUS as int);
        }
        Residue { value: sum % MODULUS }
    }
}

impl AddSpecImpl for Residue {
    open spec fn obeys_add_spec() -> bool {
        true
    }

    open spec fn add_req(self, rhs: Residue) -> bool {
        true
    }

    /// The residue of the sum.
    open spec fn add_spec(self, rhs: Residue) -> Residue {
        residue_of(self.value + rhs.value)
    }
}

impl Sub for Residue {
    type Output = Residue;

    fn sub(self, rhs: Residue) -> (r: Residue) {
        let a = self.value % MODULUS;
        let b = rhs.value % MODULUS;
        let diff = a + (MODULUS - b);
        proof {
            let p = MODULUS as int;
            lemma_sub_mod_noop(self.value as int, rhs.value as int, p);
            lemma_mod_add_multiples_vanish(a - b, p);
            assert(diff == p + (a - b));
        }
        Residue { value: diff % MODULUS }
    }
}

impl SubSpecImpl for Residue {
    open spec fn obeys_sub_spec() -> bool {
        true
    }

    open spec fn sub_req(self, rhs: Residue) -> bool {
        true
    }

    /// The residue of the difference.
    open spec fn sub_spec(self, rhs: Residue) -> Residue {
        residue_of(self.value - rhs.value)
    }
}

impl Mul for Residue {
    type Output = Residue;

    fn mul(self, rhs: Residue) -> (r: Residue) {
        let a = self.value % MODULUS;
        let b = rhs.value % MODULUS;
        proof {
            lemma_mul_mod_noop(self.value as int, rhs.value as int, MODULUS as int);
            assert(a * b < 0x1_0000_0000_0000_0000) by (nonlinear_arith)
                requires
                    a < 998244353,
                    b < 998244353,
            ;
        }
        Residue { value: a * b % MODULUS }
    }
}

impl MulSpecImpl for Residue {
    open spec fn obeys_mul_spec() -> bool {
        true
    }

    open spec fn mul_req(self, rhs: Residue) -> bool {
        true
    }

    /// The residue of the product.
    open spec fn mul_spec(self, rhs: Residue) -> Residue {
        residue_of(self.value * rhs.value)
    }
}

impl Div for Residue {
    type Output = Residue;

    fn div(self, rhs: Residue) -> (r: Residue) {
        let a = self.value % MODULUS;
        let inv = pow_mod(rhs.value, MODULUS - 2);
        proof {
            lemma_mul_mod_noop(
                self.value as int,
                pow(rhs.value as int, (MODULUS - 2) as nat),
                MODULUS as int,
            );
            assert(a * inv < 0x1_0000_0000_0000_0000) by (nonlinear_arith)
                requires
                    a < 998244353,
                    inv < 998244353,
            ;
        }
        Residue { value: a * inv % MODULUS }
    }
}

impl DivSpecImpl for Residue {
    open spec fn obeys_div_spec() -> bool {
        true
    }

    open spec fn div_req(self, rhs: Residue) -> bool {
        true
    }

    /// The product with the inverse of `rhs` by Fermat's little theorem,
    /// `rhs^(MODULUS - 2)`; dividing by a multiple of `MODULUS` gives zero.
    open spec fn div_spec(self, rhs: Residue) -> Residue {
        residue_of(self.value * pow(rhs.value as int, (MODULUS - 2) as nat))
    }
}

/// Residues meet every requirement the library puts on a sample type: each of `+`, `-`, `*`
/// and `/` is defined for every pair of residues (and behaves as its specification says).
pub proof fn lemma_residue_is_total()
    ensures
        add_total::<Residue>(),
        sub_total::<Residue>(),
        mul_total::<Residue>(),
        div_total::<Residue>(),
        <Residue as AddSpec>::obeys_add_spec(),
        <Residue as SubSpec>::obeys_sub_spec(),
        <Residue as MulSpec>::obeys_mul_spec(),
        <Residue as DivSpec>::obeys_div_spec(),
{
}

} // verus!
