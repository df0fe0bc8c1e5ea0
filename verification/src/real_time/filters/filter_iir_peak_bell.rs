//! The peak-bell IIR filter, a stateful difference equation run one sample at a time.
use crate::math::{convolution, convolve};
use crate::real_time::real_time_signal_processer::RealTimeSignalProcessor;
use crate::sample::{add_total, div_by_total, fold_sum, lemma_fold_sum_push, mul_total, repeated};
use core::ops::{Add, Div, Mul};
use std::collections::VecDeque;
use vstd::prelude::*;
use vstd::std_specs::ops::{AddSpec, DivSpec, MulSpec};

verus! {

/// The products `coeffs[i] * history[history.len() - 1 - i]`: coefficient `i` applied to
/// the sample `i` steps before the newest one.
pub open spec fn weighted_history<T: Mul<Output = T>>(coeffs: Seq<T>, history: Seq<T>) -> Seq<T> {
    Seq::new(coeffs.len(), |i: int| coeffs[i].mul_spec(history[history.len() - 1 - i]))
}

/// Stateful peak-bell IIR filter: a difference equation whose output is the feed-forward
/// coefficients applied to the newest inputs plus the feedback coefficients applied to the
/// previous outputs.
/// Use `FilterIIRPeakBell<f64>` for audio, otherwise `FilterIIRPeakBell<Complex<f64>>`.
pub struct FilterIIRPeakBell<T> {
    inps: VecDeque<T>,
    outs: VecDeque<T>,
    b_coeffs: Vec<T>,
    a_coeffs: Vec<T>,
}

impl<T> FilterIIRPeakBell<T> {
    /// The feed-forward coefficients, applied to the newest inputs (newest first).
    pub closed spec fn feedforward(&self) -> Seq<T> {
        self.b_coeffs@
    }

    /// The feedback coefficients, applied to the previous outputs (newest first).
    pub closed spec fn feedback(&self) -> Seq<T> {
        self.a_coeffs@
    }

    /// The most recent inputs, oldest first.
    pub closed spec fn inputs(&self) -> Seq<T> {
        self.inps@
    }

    /// The most recent outputs, oldest first.
    pub closed spec fn outputs(&self) -> Seq<T> {
        self.outs@
    }

    /// The filter remembers exactly as many inputs as it has feed-forward coefficients and
    /// as many outputs as it has feedback coefficients.
    pub open spec fn well_formed(&self) -> bool {
        &&& self.inputs().len() == self.feedforward().len()
        &&& self.outputs().len() == self.feedback().len()
    }

    /// A filter with the given normalized coefficients whose remembered inputs and outputs
    /// are all `zero`, as before the first sample.
    pub fn from_coefficients(b_coeffs: Vec<T>, a_coeffs: Vec<T>, zero: T) -> (filter: Self)
        where T: Copy
        ensures
            filter.feedforward() == b_coeffs@,
            filter.feedback() == a_coeffs@,
            filter.inputs() == repeated(zero, b_coeffs@.len()),
            filter.outputs() == repeated(zero, a_coeffs@.len()),
            filter.well_formed(),
    {
        let inps = zeros_queue(b_coeffs.len(), zero);
        let outs = zeros_queue(a_coeffs.len(), zero);
        FilterIIRPeakBell { inps, outs, b_coeffs, a_coeffs }
    }
}

fn zeros_queue<T: Copy>(n: usize, zero: T) -> (q: VecDeque<T>)
    ensures
        q@ == repeated(zero, n as nat),
{
    let mut q: VecDeque<T> = VecDeque::new();
    let mut i: usize = 0;
    while i < n
        invariant
            i <= n,
            q@ == repeated(zero, i as nat),
        decreases n - i,
    {
        q.push_back(zero);
        i = i + 1;
        proof {
            assert(q@ =~= repeated(zero, i as nat));
        }
    }
    q
}

/// `coeffs[0] * history[newest] + coeffs[1] * history[newest - 1] + ...`, summed left to
/// right.
fn weighted_sum<T: Copy + Add<Output = T> + Mul<Output = T>>(
    coeffs: &Vec<T>,
    history: &VecDeque<T>,
) -> (sum: T)
    requires
        coeffs.len() > 0,
        history@.len() == coeffs.len(),
        add_total::<T>(),
        mul_total::<T>(),
    ensures
        T::obeys_add_spec() && T::obeys_mul_spec() ==> sum == fold_sum(
            weighted_history(coeffs@, history@),
        ),
{
    let n = coeffs.len();
    let ghost terms = weighted_history(coeffs@, history@);
    let mut acc = coeffs[0] * history[n - 1];
    proof {
        assert(terms.take(1) =~= seq![terms[0]]);
    }
    let mut i: usize = 1;
    while i < n
        invariant
            n == coeffs.len(),
            history@.len() == n,
            1 <= i <= n,
            terms == weighted_history(coeffs@, history@),
            add_total::<T>(),
            mul_total::<T>(),
            T::obeys_add_spec() && T::obeys_mul_spec() ==> acc == fold_sum(terms.take(i as int)),
        decreases n - i,
    {
        proof {
            lemma_fold_sum_push(terms, i as int);
        }
        acc = acc + coeffs[i] * history[n - 1 - i];
        i = i + 1;
    }
    proof {
        assert(terms.take(n as int) =~= terms);
    }
    acc
}

/// The filter's output for the next sample `val`, given its coefficients `b` (feed-forward)
/// and `a` (feedback) and its remembered inputs and outputs: the feed-forward sum over the
/// inputs with `val` as the newest, plus the feedback sum over the previous outputs.
pub open spec fn next_output<T: Add<Output = T> + Mul<Output = T>>(
    b: Seq<T>,
    a: Seq<T>,
    inputs: Seq<T>,
    outputs: Seq<T>,
    val: T,
) -> T {
    fold_sum(weighted_history(b, inputs.drop_first().push(val))).add_spec(
        fold_sum(weighted_history(a, outputs)),
    )
}

/// The remembered inputs and outputs of a filter after it has taken `samples` one at a time,
/// starting from `inputs` and `outputs`.
pub open spec fn history_after<T: Add<Output = T> + Mul<Output = T>>(
    b: Seq<T>,
    a: Seq<T>,
    inputs: Seq<T>,
    outputs: Seq<T>,
    samples: Seq<T>,
) -> (Seq<T>, Seq<T>)
    decreases samples.len(),
{
    if samples.len() == 0 {
        (inputs, outputs)
    } else {
        let prev = history_after(b, a, inputs, outputs, samples.drop_last());
        let y = next_output(b, a, prev.0, prev.1, samples.last());
        (prev.0.drop_first().push(samples.last()), prev.1.drop_first().push(y))
    }
}

/// The outputs of a filter fed `samples` one at a time, starting from the remembered `inputs`
/// and `outputs`: output `k` is the filter's answer to sample `k` after the samples before it.
pub open spec fn filtered<T: Add<Output = T> + Mul<Output = T>>(
    b: Seq<T>,
    a: Seq<T>,
    inputs: Seq<T>,
    outputs: Seq<T>,
    samples: Seq<T>,
) -> Seq<T> {
    Seq::new(
        samples.len(),
        |k: int|
            {
                let h = history_after(b, a, inputs, outputs, samples.take(k));
                next_output(b, a, h.0, h.1, samples[k])
            },
    )
}

proof fn lemma_history_after_concat<T: Add<Output = T> + Mul<Output = T>>(
    b: Seq<T>,
    a: Seq<T>,
    inputs: Seq<T>,
    outputs: Seq<T>,
    first: Seq<T>,
    second: Seq<T>,
)
    ensures
        ({
            let h = history_after(b, a, inputs, outputs, first);
            history_after(b, a, inputs, outputs, first + second) == history_after(b, a, h.0, h.1, second)
        }),
    decreases second.len(),
{
    if second.len() == 0 {
        assert(first + second =~= first);
    } else {
        lemma_history_after_concat(b, a, inputs, outputs, first, second.drop_last());
        assert((first + second).drop_last() =~= first + second.drop_last());
        assert((first + second).last() == second.last());
    }
}

/// Filtering a signal in two pieces, the second piece starting from the history the first
/// one left behind, gives the same outputs and the same final history as filtering the
/// whole signal at once.
pub proof fn lemma_filtering_in_pieces<T: Add<Output = T> + Mul<Output = T>>(
    b: Seq<T>,
    a: Seq<T>,
    inputs: Seq<T>,
    outputs: Seq<T>,
    first: Seq<T>,
    second: Seq<T>,
)
    ensures
        ({
            let h = history_after(b, a, inputs, outputs, first);
            &&& filtered(b, a, inputs, outputs, first + second) == filtered(
                b,
                a,
                inputs,
                outputs,
                first,
            ) + filtered(b, a, h.0, h.1, second)
            &&& history_after(b, a, inputs, outputs, first + second) == history_after(
                b,
                a,
                h.0,
                h.1,
                second,
            )
        }),
{
    let h = history_after(b, a, inputs, outputs, first);
    let whole = first + second;
    lemma_history_after_concat(b, a, inputs, outputs, first, second);
    assert forall|k: int| 0 <= k < whole.len() implies #[trigger] filtered(
        b,
        a,
        inputs,
        outputs,
        whole,
    )[k] == (filtered(b, a, inputs, outputs, first) + filtered(b, a, h.0, h.1, second))[k] by {
        if k < first.len() {
            assert(whole.take(k) =~= first.take(k));
        } else {
            let j = k - first.len();
            assert(whole.take(k) =~= first + second.take(j));
            lemma_history_after_concat(b, a, inputs, outputs, first, second.take(j));
        }
    }
    assert(filtered(b, a, inputs, outputs, whole) =~= filtered(b, a, inputs, outputs, first)
        + filtered(b, a, h.0, h.1, second));
}

/// Sample `t` of `s`, or `zero` before the start of the signal (`t < 0`).
pub open spec fn sample_at<T>(s: Seq<T>, t: int, zero: T) -> T {
    if t < 0 {
        zero
    } else {
        s[t]
    }
}

/// The right-hand side of the filter's difference equation for output `m`:
/// `b[0] x[m] + b[1] x[m-1] + ... + a[0] y[m-1] + a[1] y[m-2] + ...`, with every input
/// `x` and output `y` before the start taken as `zero`.
pub open spec fn difference_equation<T: Add<Output = T> + Mul<Output = T>>(
    b: Seq<T>,
    a: Seq<T>,
    x: Seq<T>,
    y: Seq<T>,
    m: int,
    zero: T,
) -> T {
    fold_sum(Seq::new(b.len(), |i: int| b[i].mul_spec(sample_at(x, m - i, zero)))).add_spec(
        fold_sum(Seq::new(a.len(), |i: int| a[i].mul_spec(sample_at(y, m - 1 - i, zero)))),
    )
}

proof fn lemma_history_window<T: Add<Output = T> + Mul<Output = T>>(
    b: Seq<T>,
    a: Seq<T>,
    zero: T,
    samples: Seq<T>,
    m: nat,
)
    requires
        b.len() > 0,
        a.len() > 0,
        m <= samples.len(),
    ensures
        ({
            let y = filtered(b, a, repeated(zero, b.len()), repeated(zero, a.len()), samples);
            let h = history_after(
                b,
                a,
                repeated(zero, b.len()),
                repeated(zero, a.len()),
                samples.take(m as int),
            );
            &&& h.0.len() == b.len()
            &&& h.1.len() == a.len()
            &&& forall|t: int| 0 <= t < b.len() ==> #[trigger] h.0[t] == sample_at(samples, m - b.len() + t, zero)
            &&& forall|t: int| 0 <= t < a.len() ==> #[trigger] h.1[t] == sample_at(y, m - a.len() + t, zero)
        }),
    decreases m,
{
    let zb = repeated(zero, b.len());
    let za = repeated(zero, a.len());
    let y = filtered(b, a, zb, za, samples);
    if m == 0 {
        assert(samples.take(0) =~= Seq::<T>::empty());
    } else {
        let m1 = (m - 1) as nat;
        lemma_history_window(b, a, zero, samples, m1);
        let taken = samples.take(m as int);
        assert(taken.drop_last() =~= samples.take(m1 as int));
        assert(taken.last() == samples[m1 as int]);
        let prev = history_after(b, a, zb, za, samples.take(m1 as int));
        assert(y[m1 as int] == next_output(b, a, prev.0, prev.1, samples[m1 as int]));
    }
}

/// A filter started from `from_coefficients` (all remembered inputs and outputs `zero`) and
/// fed `samples` answers each sample by its difference equation: output `m` is
/// `b[0] x[m] + b[1] x[m-1] + ... + a[0] y[m-1] + a[1] y[m-2] + ...`, inputs and outputs
/// before the first sample being `zero`.
pub proof fn lemma_filter_difference_equation<T: Add<Output = T> + Mul<Output = T>>(
    b: Seq<T>,
    a: Seq<T>,
    zero: T,
    samples: Seq<T>,
)
    requires
        b.len() > 0,
        a.len() > 0,
    ensures
        ({
            let y = filtered(b, a, repeated(zero, b.len()), repeated(zero, a.len()), samples);
            forall|m: int|
                0 <= m < samples.len() ==> #[trigger] y[m] == difference_equation(b, a, samples, y, m, zero)
        }),
{
    let zb = repeated(zero, b.len());
    let za = repeated(zero, a.len());
    let y = filtered(b, a, zb, za, samples);
    assert forall|m: int| 0 <= m < samples.len() implies #[trigger] y[m] == difference_equation(
        b,
        a,
        samples,
        y,
        m,
        zero,
    ) by {
        lemma_history_window(b, a, zero, samples, m as nat);
        let h = history_after(b, a, zb, za, samples.take(m));
        let ins = h.0.drop_first().push(samples[m]);
        assert(weighted_history(b, ins) =~= Seq::new(
            b.len(),
            |i: int| b[i].mul_spec(sample_at(samples, m - i, zero)),
        ));
        assert(weighted_history(a, h.1) =~= Seq::new(
            a.len(),
            |i: int| a[i].mul_spec(sample_at(y, m - 1 - i, zero)),
        ));
    }
}

impl<T> RealTimeSignalProcessor<T, T> for FilterIIRPeakBell<T> where
    T: Add<Output = T> + Mul<Output = T> + PartialEq + Copy,
 {
    open spec fn accepts(&self, inp: T) -> bool {
        &&& self.well_formed()
        &&& self.feedforward().len() > 0
        &&& self.feedback().len() > 0
        &&& add_total::<T>()
        &&& mul_total::<T>()
    }

    /// Filters the next sample: it becomes the newest remembered input, the output is the
    /// feed-forward sum over the inputs plus the feedback sum over the previous outputs, and
    /// the output becomes the newest remembered output.
    fn process_sample(&mut self, val: T) -> (out: T)
        ensures
            final(self).feedforward() == old(self).feedforward(),
            final(self).feedback() == old(self).feedback(),
            final(self).inputs() == old(self).inputs().drop_first().push(val),
            final(self).outputs() == old(self).outputs().drop_first().push(out),
            final(self).well_formed(),
            T::obeys_add_spec() && T::obeys_mul_spec() ==> out == next_output(
                old(self).feedforward(),
                old(self).feedback(),
                old(self).inputs(),
                old(self).outputs(),
                val,
            ),
    {
        self.inps.pop_front();
        self.inps.push_back(val);
        let tmp_b = weighted_sum(&self.b_coeffs, &self.inps);
        let tmp_a = weighted_sum(&self.a_coeffs, &self.outs);
        let out = tmp_b + tmp_a;
        self.outs.pop_front();
        self.outs.push_back(out);
        out
    }
}

/// The coefficients, in increasing powers of the delay, of the product of the binomials
/// `one + (minus_one * r) z^-1` over the roots `r`, multiplied in one root at a time: each
/// root convolves the polynomial so far with `[one, minus_one * r]`.
pub open spec fn root_polynomial<T: Add<Output = T> + Mul<Output = T>>(
    roots: Seq<T>,
    one: T,
    minus_one: T,
    zero: T,
) -> Seq<T>
    decreases roots.len(),
{
    if roots.len() == 0 {
        seq![one]
    } else {
        convolution(
            root_polynomial(roots.drop_last(), one, minus_one, zero),
            seq![one, minus_one.mul_spec(roots.last())],
            zero,
        )
    }
}

/// Multiplying in one more root `r` convolves the polynomial of the earlier roots with the
/// binomial `[one, minus_one * r]`, for every list of roots and every root; with no roots the
/// polynomial is `[one]`.
pub proof fn lemma_root_polynomial_push<T: Add<Output = T> + Mul<Output = T>>(
    roots: Seq<T>,
    r: T,
    one: T,
    minus_one: T,
    zero: T,
)
    ensures
        root_polynomial(Seq::<T>::empty(), one, minus_one, zero) == seq![one],
        root_polynomial(roots.push(r), one, minus_one, zero) == convolution(
            root_polynomial(roots, one, minus_one, zero),
            seq![one, minus_one.mul_spec(r)],
            zero,
        ),
{
    assert(roots.push(r).drop_last() =~= roots);
}

/// Expands the polynomial with the given roots (the zeroes or the poles of a filter) into
/// its coefficients by convolving the binomials `[one, minus_one * root]` one after another,
/// starting from the polynomial `[one]`.
pub fn expand_roots<T: Copy + Add<Output = T> + Mul<Output = T>>(
    roots: &[T],
    one: T,
    minus_one: T,
    zero: T,
) -> (coeffs: Vec<T>)
    requires
        roots.len() + 2 <= usize::MAX,
        add_total::<T>(),
        mul_total::<T>(),
    ensures
        coeffs@.len() == roots.len() + 1,
        T::obeys_add_spec() && T::obeys_mul_spec() ==> coeffs@ == root_polynomial(
            roots@,
            one,
            minus_one,
            zero,
        ),
{
    let mut coeffs: Vec<T> = vec![one];
    let mut i: usize = 0;
    proof {
        assert(roots@.take(0) =~= Seq::<T>::empty());
        assert(coeffs@ =~= seq![one]);
    }
    while i < roots.len()
        invariant
            i <= roots.len(),
            roots.len() + 2 <= usize::MAX,
            coeffs@.len() == i + 1,
            add_total::<T>(),
            mul_total::<T>(),
            T::obeys_add_spec() && T::obeys_mul_spec() ==> coeffs@ == root_polynomial(
                roots@.take(i as int),
                one,
                minus_one,
                zero,
            ),
        decreases roots.len() - i,
    {
        let binomial: Vec<T> = vec![one, minus_one * roots[i]];
        coeffs = convolve(coeffs.as_slice(), binomial.as_slice(), zero);
        proof {
            let taken = roots@.take(i + 1);
            assert(taken.drop_last() =~= roots@.take(i as int));
            assert(taken.last() == roots@[i as int]);
            if T::obeys_add_spec() && T::obeys_mul_spec() {
                assert(binomial@ =~= seq![one, minus_one.mul_spec(roots@[i as int])]);
            }
        }
        i = i + 1;
    }
    proof {
        assert(roots@.take(roots.len() as int) =~= roots@);
    }
    coeffs
}

/// Every coefficient divided by `first`.
pub open spec fn divided_by<T: Div<D, Output = T>, D>(coeffs: Seq<T>, first: D) -> Seq<T> {
    coeffs.map_values(|x: T| x.div_spec(first))
}

/// The feedback coefficients of a difference equation read off its denominator polynomial:
/// the leading coefficient is dropped and every other one negated (multiplied by
/// `minus_one`) and divided by `first`. An empty polynomial gives no coefficients.
pub open spec fn feedback_from_denominator<T: Mul<Output = T> + Div<D, Output = T>, D>(
    coeffs: Seq<T>,
    first: D,
    minus_one: T,
) -> Seq<T> {
    if coeffs.len() == 0 {
        Seq::empty()
    } else {
        coeffs.skip(1).map_values(|x: T| minus_one.mul_spec(x).div_spec(first))
    }
}

/// The feed-forward coefficients normalized by the leading coefficient `first` of the
/// denominator: every coefficient divided by `first`.
pub fn normalize_feedforward<T: Copy + Div<D, Output = T>, D: Copy>(coeffs: &[T], first: D) -> (out:
    Vec<T>)
    requires
        div_by_total::<T, D>(),
    ensures
        out@.len() == coeffs@.len(),
        T::obeys_div_spec() ==> out@ == divided_by(coeffs@, first),
{
    let mut out: Vec<T> = Vec::new();
    let mut i: usize = 0;
    while i < coeffs.len()
        invariant
            i <= coeffs.len(),
            out@.len() == i,
            div_by_total::<T, D>(),
            T::obeys_div_spec() ==> forall|t: int|
                0 <= t < i ==> #[trigger] out@[t] == coeffs@[t].div_spec(first),
        decreases coeffs.len() - i,
    {
        out.push(coeffs[i] / first);
        i = i + 1;
    }
    proof {
        if T::obeys_div_spec() {
            assert(out@ =~= divided_by(coeffs@, first));
        }
    }
    out
}

/// The feedback coefficients from the denominator polynomial `coeffs` whose leading
/// coefficient is `first`: the leading coefficient is dropped and every other one becomes
/// `(minus_one * x) / first`.
pub fn normalize_feedback<T: Copy + Mul<Output = T> + Div<D, Output = T>, D: Copy>(
    coeffs: &[T],
    first: D,
    minus_one: T,
) -> (out: Vec<T>)
    requires
        mul_total::<T>(),
        div_by_total::<T, D>(),
    ensures
        out@.len() == if coeffs@.len() == 0 { 0 } else { coeffs@.len() - 1 },
        T::obeys_mul_spec() && T::obeys_div_spec() ==> out@ == feedback_from_denominator(
            coeffs@,
            first,
            minus_one,
        ),
{
    let mut out: Vec<T> = Vec::new();
    let mut i: usize = 1;
    if coeffs.len() == 0 {
        proof {
            assert(out@ =~= feedback_from_denominator(coeffs@, first, minus_one));
        }
        return out;
    }
    while i < coeffs.len()
        invariant
            1 <= i <= coeffs.len(),
            out@.len() == i - 1,
            mul_total::<T>(),
            div_by_total::<T, D>(),
            T::obeys_mul_spec() && T::obeys_div_spec() ==> forall|t: int|
                0 <= t < i - 1 ==> #[trigger] out@[t] == minus_one.mul_spec(coeffs@[t + 1]).div_spec(
                    first,
                ),
        decreases coeffs.len() - i,
    {
        let negated = minus_one * coeffs[i];
        out.push(negated / first);
        i = i + 1;
    }
    proof {
        if T::obeys_mul_spec() && T::obeys_div_spec() {
            assert(out@ =~= feedback_from_denominator(coeffs@, first, minus_one));
        }
    }
    out
}

impl<T> FilterIIRPeakBell<T> where T: Add<Output = T> + Mul<Output = T> + PartialEq + Copy {
    /// Filters a whole signal: each sample is processed in turn, and the outputs are returned
    /// in order.
    pub fn process_samples(&mut self, samples: &[T]) -> (out: Vec<T>)
        requires
            old(self).well_formed(),
            old(self).feedforward().len() > 0,
            old(self).feedback().len() > 0,
            add_total::<T>(),
            mul_total::<T>(),
        ensures
            out@.len() == samples.len(),
            final(self).feedforward() == old(self).feedforward(),
            final(self).feedback() == old(self).feedback(),
            final(self).well_formed(),
            T::obeys_add_spec() && T::obeys_mul_spec() ==> out@ == filtered(
                old(self).feedforward(),
                old(self).feedback(),
                old(self).inputs(),
                old(self).outputs(),
                samples@,
            ),
            T::obeys_add_spec() && T::obeys_mul_spec() ==> (final(self).inputs(), final(self).outputs())
                == history_after(
                old(self).feedforward(),
                old(self).feedback(),
                old(self).inputs(),
                old(self).outputs(),
                samples@,
            ),
    {
        let ghost b = self.feedforward();
        let ghost a = self.feedback();
        let ghost inputs0 = self.inputs();
        let ghost outputs0 = self.outputs();
        let ghost obeys = T::obeys_add_spec() && T::obeys_mul_spec();
        let ghost all = filtered(b, a, inputs0, outputs0, samples@);
        let mut out: Vec<T> = Vec::new();
        let mut i: usize = 0;
        proof {
            assert(samples@.take(0) =~= Seq::<T>::empty());
        }
        while i < samples.len()
            invariant
                i <= samples.len(),
                out@.len() == i,
                self.feedforward() == b,
                self.feedback() == a,
                self.well_formed(),
                b.len() > 0,
                a.len() > 0,
                add_total::<T>(),
                mul_total::<T>(),
                obeys == (T::obeys_add_spec() && T::obeys_mul_spec()),
                all == filtered(b, a, inputs0, outputs0, samples@),
                obeys ==> (self.inputs(), self.outputs()) == history_after(
                    b,
                    a,
                    inputs0,
                    outputs0,
                    samples@.take(i as int),
                ),
                obeys ==> forall|t: int| 0 <= t < i ==> #[trigger] out@[t] == all[t],
            decreases samples.len() - i,
        {
            let y = self.process_sample(samples[i]);
            out.push(y);
            proof {
                let taken = samples@.take(i + 1);
                assert(taken.drop_last() =~= samples@.take(i as int));
                assert(taken.last() == samples@[i as int]);
            }
            i = i + 1;
        }
        proof {
            assert(samples@.take(samples.len() as int) =~= samples@);
            if obeys {
                assert(out@ =~= all);
            }
        }
        out
    }
}

} // verus!
