//! Direct (time-domain) convolution of sample sequences.
use crate::sample::{add_total, fold_sum, lemma_fold_sum_push, mul_total};
use core::ops::{Add, Mul};
use vstd::prelude::*;
use vstd::std_specs::ops::{AddSpec, MulSpec};

verus! {

/// Sample `idx` of `ir`, or `zero` outside its range.
pub open spec fn sample_or<T>(ir: Seq<T>, idx: int, zero: T) -> T {
    if 0 <= idx < ir.len() {
        ir[idx]
    } else {
        zero
    }
}

/// The products `data[i] * ir[k - i]` (with `ir` extended by `zero`) for every `i`.
pub open spec fn convolution_terms<T: Mul<Output = T>>(
    data: Seq<T>,
    ir: Seq<T>,
    k: int,
    zero: T,
) -> Seq<T> {
    Seq::new(data.len(), |i: int| data[i].mul_spec(sample_or(ir, k - i, zero)))
}

/// The full linear convolution of `data` with `ir`: `data.len() + ir.len() - 1` outputs,
/// output `k` being the sum over every `i` of `data[i] * ir[k - i]`.
pub open spec fn convolution<T: Add<Output = T> + Mul<Output = T>>(
    data: Seq<T>,
    ir: Seq<T>,
    zero: T,
) -> Seq<T> {
    Seq::new(
        (data.len() + ir.len() - 1) as nat,
        |k: int|
            if data.len() == 0 {
                zero
            } else {
                fold_sum(convolution_terms(data, ir, k, zero))
            },
    )
}

fn ir_sample<T: Copy>(ir: &[T], k: usize, i: usize, zero: T) -> (r: T)
    ensures
        r == sample_or(ir@, k - i, zero),
{
    if k >= i && k - i < ir.len() {
        ir[k - i]
    } else {
        zero
    }
}

/// Convolves `data` with `ir` directly in the time domain; `zero` is the sample value
/// used for positions outside `ir`.
pub fn convolve<T: Copy + Add<Output = T> + Mul<Output = T>>(data: &[T], ir: &[T], zero: T) -> (out:
    Vec<T>)
    requires
        data.len() + ir.len() >= 1,
        data.len() + ir.len() <= usize::MAX,
        add_total::<T>(),
        mul_total::<T>(),
    ensures
        out@.len() == data.len() + ir.len() - 1,
        T::obeys_add_spec() && T::obeys_mul_spec() ==> out@ == convolution(data@, ir@, zero),
{
    let n = data.len();
    let out_len = n + ir.len() - 1;
    let mut out: Vec<T> = Vec::with_capacity(out_len);
    let ghost spec_out = convolution(data@, ir@, zero);
    let mut k: usize = 0;
    while k < out_len
        invariant
            n == data.len(),
            out_len == n + ir.len() - 1,
            spec_out == convolution(data@, ir@, zero),
            k <= out_len,
            out@.len() == k,
            add_total::<T>(),
            mul_total::<T>(),
            T::obeys_add_spec() && T::obeys_mul_spec() ==> forall|t: int|
                0 <= t < k ==> #[trigger] out@[t] == spec_out[t],
        decreases out_len - k,
    {
        let ghost terms = convolution_terms(data@, ir@, k as int, zero);
        let sum = if n == 0 {
            zero
        } else {
            let mut acc = data[0] * ir_sample(ir, k, 0, zero);
            proof {
                assert(terms.take(1) =~= seq![terms[0]]);
            }
            let mut i: usize = 1;
            while i < n
                invariant
                    n == data.len(),
                    n >= 1,
                    1 <= i <= n,
                    terms == convolution_terms(data@, ir@, k as int, zero),
                    add_total::<T>(),
                    mul_total::<T>(),
                    T::obeys_add_spec() && T::obeys_mul_spec() ==> acc == fold_sum(terms.take(i as int)),
                decreases n - i,
            {
                proof {
                    lemma_fold_sum_push(terms, i as int);
                }
                acc = acc + data[i] * ir_sample(ir, k, i, zero);
                i = i + 1;
            }
            proof {
                assert(terms.take(n as int) =~= terms);
            }
            acc
        };
        out.push(sum);
        k = k + 1;
    }
    proof {
        if T::obeys_add_spec() && T::obeys_mul_spec() {
            assert(out@ =~= spec_out);
        }
    }
    out
}

/// The number of samples of the convolution of `a_len` samples with `b_len` samples, when
/// such a request is served: both lengths must be non-zero and `a_len + b_len - 1` must fit
/// in a `usize`; otherwise there is no result.
pub fn convolution_output_len(a_len: usize, b_len: usize) -> (r: Option<usize>)
    ensures
        r == (if a_len > 0 && b_len > 0 && a_len + b_len - 1 <= usize::MAX {
            Some((a_len + b_len - 1) as usize)
        } else {
            None::<usize>
        }),
{
    if a_len == 0 || b_len == 0 {
        return None;
    }
    a_len.checked_add(b_len - 1)
}

} // verus!
