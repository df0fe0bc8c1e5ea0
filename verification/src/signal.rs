//! Operations on the sample sequence of a signal: padding, cropping, concatenation,
//! overlap-add, windowing into frames, element-wise arithmetic and the re-layout of a
//! spectrum for resampling.
//!
//! Samples are of any copyable type whose `+`, `-`, `*` and `/` the operations use;
//! `zero` is the sample value used for padding.
use crate::fft::{is_power_of_two, power_of_two};
use crate::sample::{add_total, div_total, mul_total, repeated, sub_total};
use core::ops::{Add, Div, Mul, Sub};
use vstd::prelude::*;
use vstd::std_specs::ops::{AddSpec, DivSpec, MulSpec, SubSpec};

verus! {

fn push_copies<T: Copy>(out: &mut Vec<T>, value: T, num: usize)
    requires
        old(out)@.len() + num <= usize::MAX,
    ensures
        final(out)@ == old(out)@ + repeated(value, num as nat),
{
    let ghost start = out@;
    let mut i: usize = 0;
    while i < num
        invariant
            i <= num,
            out@ == start + repeated(value, i as nat),
        decreases num - i,
    {
        out.push(value);
        i = i + 1;
        proof {
            assert(out@ =~= start + repeated(value, i as nat));
        }
    }
}

fn push_range<T: Copy>(out: &mut Vec<T>, src: &[T], start: usize, end: usize)
    requires
        start <= end <= src.len(),
        old(out)@.len() + (end - start) <= usize::MAX,
    ensures
        final(out)@ == old(out)@ + src@.subrange(start as int, end as int),
{
    let ghost init = out@;
    let mut i: usize = start;
    while i < end
        invariant
            start <= i <= end,
            end <= src.len(),
            out@ == init + src@.subrange(start as int, i as int),
        decreases end - i,
    {
        out.push(src[i]);
        i = i + 1;
        proof {
            assert(out@ =~= init + src@.subrange(start as int, i as int));
        }
    }
}

/// Pads `data` with `num` copies of `zero` on both sides.
pub fn zero_extend_start_and_end<T: Copy>(data: Vec<T>, num: usize, zero: T) -> (out: Vec<T>)
    requires
        data.len() + 2 * num <= usize::MAX,
    ensures
        out@ == repeated(zero, num as nat) + data@ + repeated(zero, num as nat),
{
    let mut out: Vec<T> = Vec::new();
    push_copies(&mut out, zero, num);
    push_range(&mut out, data.as_slice(), 0, data.len());
    push_copies(&mut out, zero, num);
    proof {
        assert(data@.subrange(0, data@.len() as int) =~= data@);
    }
    out
}

/// Pads `data` with `num` copies of `zero` at the end.
pub fn zero_extend_end<T: Copy>(data: Vec<T>, num: usize, zero: T) -> (out: Vec<T>)
    requires
        data.len() + num <= usize::MAX,
    ensures
        out@ == data@ + repeated(zero, num as nat),
{
    let mut out = data;
    push_copies(&mut out, zero, num);
    out
}

/// Pads `data` in place with `num` copies of `zero` at the end.
pub fn zero_extend_end_mut<T: Copy>(data: &mut Vec<T>, num: usize, zero: T)
    requires
        old(data).len() + num <= usize::MAX,
    ensures
        final(data)@ == old(data)@ + repeated(zero, num as nat),
{
    push_copies(data, zero, num);
}

/// Pads `data` with `num` copies of `zero` at the start.
pub fn zero_extend_start<T: Copy>(data: Vec<T>, num: usize, zero: T) -> (out: Vec<T>)
    requires
        data.len() + num <= usize::MAX,
    ensures
        out@ == repeated(zero, num as nat) + data@,
{
    let mut out: Vec<T> = Vec::new();
    push_copies(&mut out, zero, num);
    push_range(&mut out, data.as_slice(), 0, data.len());
    proof {
        assert(data@.subrange(0, data@.len() as int) =~= data@);
    }
    out
}

/// Pads `data` in place with `num` copies of `zero` at the start, inserting them one at a
/// time at the front.
pub fn zero_extend_start_mut<T: Copy>(data: &mut Vec<T>, num: usize, zero: T)
    requires
        old(data).len() + num <= usize::MAX,
    ensures
        final(data)@ == repeated(zero, num as nat) + old(data)@,
{
    let ghost start = data@;
    let mut i: usize = 0;
    while i < num
        invariant
            i <= num,
            start.len() + num <= usize::MAX,
            data@ == repeated(zero, i as nat) + start,
        decreases num - i,
    {
        data.insert(0, zero);
        i = i + 1;
        proof {
            assert(data@ =~= repeated(zero, i as nat) + start);
        }
    }
}

/// Keeps the samples of `data` from index `start` up to (not including) `end`, where `end`
/// is clamped to the length: the data is first truncated to `end` samples, then the first
/// `start` samples are removed.
pub fn crop<T: Copy>(data: Vec<T>, start: usize, end: usize) -> (out: Vec<T>)
    requires
        start <= end,
        start <= data.len(),
    ensures
        out@ == data@.subrange(
            start as int,
            if end < data.len() {
                end as int
            } else {
                data.len() as int
            },
        ),
{
    let ghost orig = data@;
    let mut kept = data;
    kept.truncate(end);
    let mut out: Vec<T> = Vec::new();
    push_range(&mut out, kept.as_slice(), start, kept.len());
    proof {
        let stop = if end < orig.len() { end as int } else { orig.len() as int };
        assert(kept@ =~= orig.subrange(0, stop));
        assert(out@ =~= orig.subrange(start as int, stop));
    }
    out
}

/// A copy of the samples of `data` from index `start` up to (not including) `end`.
pub fn crop_new<T: Copy>(data: &[T], start: usize, end: usize) -> (out: Vec<T>)
    requires
        start <= end <= data.len(),
    ensures
        out@ == data@.subrange(start as int, end as int),
{
    let mut out: Vec<T> = Vec::new();
    push_range(&mut out, data, start, end);
    out
}

/// `data` followed by `other`.
pub fn concat<T: Copy>(data: Vec<T>, other: &[T]) -> (out: Vec<T>)
    requires
        data.len() + other.len() <= usize::MAX,
    ensures
        out@ == data@ + other@,
{
    let mut out = data;
    push_range(&mut out, other, 0, other.len());
    proof {
        assert(other@.subrange(0, other@.len() as int) =~= other@);
    }
    out
}

/// `s` with `o` added onto it element-wise starting at index `offset`: positions before
/// `offset` keep `s`, positions covered by both are `s[i] + o[i - offset]`, and positions
/// past the end of `s` are `zero + o[i - offset]`.
pub open spec fn overlap_add<T: Add<Output = T>>(s: Seq<T>, o: Seq<T>, offset: nat, zero: T) -> Seq<
    T,
> {
    Seq::new(
        offset + o.len(),
        |i: int|
            if i < offset {
                s[i]
            } else if i < s.len() {
                s[i].add_spec(o[i - offset])
            } else {
                zero.add_spec(o[i - offset])
            },
    )
}

/// Overlap-adding keeps every sample: before `offset` the first signal's samples stand
/// alone, where both signals have samples they are added (`s[i] + o[i - offset]`, whatever
/// the offset), and past the end of the first signal the second one's samples are added onto
/// `zero`; the result ends where the second signal ends.
pub proof fn lemma_overlap_add_samples<T: Add<Output = T>>(s: Seq<T>, o: Seq<T>, offset: nat, zero: T)
    ensures
        overlap_add(s, o, offset, zero).len() == offset + o.len(),
        forall|i: int| 0 <= i < offset ==> #[trigger] overlap_add(s, o, offset, zero)[i] == s[i],
        forall|i: int|
            offset <= i < s.len() && i < offset + o.len() ==> #[trigger] overlap_add(s, o, offset, zero)[i]
                == s[i].add_spec(o[i - offset]),
        forall|i: int|
            s.len() <= i < offset + o.len() && offset <= i ==> #[trigger] overlap_add(s, o, offset, zero)[i]
                == zero.add_spec(o[i - offset]),
{
}

/// Adds `other` onto `data` element-wise beginning at index `offset`, first extending `data`
/// with `zero`s so that it ends where `other` ends.
pub fn overlap<T: Copy + Add<Output = T>>(data: Vec<T>, other: &[T], offset: usize, zero: T) -> (out:
    Vec<T>)
    requires
        offset <= data.len(),
        data.len() - offset <= other.len(),
        offset + other.len() <= usize::MAX,
        add_total::<T>(),
    ensures
        out@.len() == offset + other.len(),
        forall|i: int| 0 <= i < offset ==> #[trigger] out@[i] == data@[i],
        T::obeys_add_spec() ==> forall|i: int|
            offset <= i < data.len() ==> #[trigger] out@[i] == data@[i].add_spec(other@[i - offset]),
        T::obeys_add_spec() ==> forall|i: int|
            data.len() <= i < offset + other.len() ==> #[trigger] out@[i] == zero.add_spec(
                other@[i - offset],
            ),
        T::obeys_add_spec() ==> out@ == overlap_add(data@, other@, offset as nat, zero),
{
    let ghost orig = data@;
    let old_len = data.len();
    let overlap_len = old_len - offset;
    let mut out = data;
    push_copies(&mut out, zero, other.len() - overlap_len);
    let new_len = out.len();
    let mut i: usize = offset;
    while i < new_len
        invariant
            offset <= i <= new_len,
            new_len == offset + other.len(),
            out@.len() == new_len,
            old_len == orig.len(),
            offset <= old_len,
            add_total::<T>(),
            forall|t: int| 0 <= t < offset ==> #[trigger] out@[t] == orig[t],
            forall|t: int| i <= t < new_len ==> #[trigger] out@[t] == (if t < old_len { orig[t] } else { zero }),
            T::obeys_add_spec() ==> forall|t: int|
                offset <= t < i ==> #[trigger] out@[t] == overlap_add(orig, other@, offset as nat, zero)[t],
        decreases new_len - i,
    {
        let v = out[i] + other[i - offset];
        out[i] = v;
        i = i + 1;
    }
    proof {
        if T::obeys_add_spec() {
            assert(out@ =~= overlap_add(orig, other@, offset as nat, zero));
        }
    }
    out
}

/// The window length used for a frame of `len` samples: one less than the frame for a
/// symmetric window, the frame length otherwise.
pub fn window_length(len: usize, symmetric: bool) -> (r: usize)
    requires
        symmetric ==> len >= 1,
    ensures
        r == if symmetric { len - 1 } else { len as int },
{
    if symmetric {
        len - 1
    } else {
        len
    }
}

/// `data[j] * window[j]` for every `j`.
pub open spec fn windowed<T: Mul<Output = T>>(data: Seq<T>, window: Seq<T>) -> Seq<T> {
    Seq::new(data.len(), |j: int| data[j].mul_spec(window[j]))
}

/// Multiplies every sample by the window coefficient at its position.
pub fn apply_window<T: Copy + Mul<Output = T>>(data: Vec<T>, window: &[T]) -> (out: Vec<T>)
    requires
        window.len() == data.len(),
        mul_total::<T>(),
    ensures
        out@.len() == data@.len(),
        T::obeys_mul_spec() ==> forall|j: int|
            0 <= j < data@.len() ==> #[trigger] out@[j] == data@[j].mul_spec(window@[j]),
        T::obeys_mul_spec() ==> out@ == windowed(data@, window@),
{
    let ghost orig = data@;
    let mut out = data;
    let n = out.len();
    let mut j: usize = 0;
    while j < n
        invariant
            n == out@.len(),
            n == orig.len(),
            n == window.len(),
            j <= n,
            mul_total::<T>(),
            forall|t: int| j <= t < n ==> #[trigger] out@[t] == orig[t],
            T::obeys_mul_spec() ==> forall|t: int|
                0 <= t < j ==> #[trigger] out@[t] == windowed(orig, window@)[t],
        decreases n - j,
    {
        let v = out[j] * window[j];
        out[j] = v;
        j = j + 1;
    }
    proof {
        if T::obeys_mul_spec() {
            assert(out@ =~= windowed(orig, window@));
        }
    }
    out
}

/// Splits `data` into `windows_num` frames of `window_size` samples, frame `i` starting at
/// sample `hop_size * i`, each multiplied by the window coefficients `window`.
pub fn windows<T: Copy + Mul<Output = T>>(
    data: &[T],
    window_size: usize,
    hop_size: usize,
    windows_num: usize,
    window: &[T],
) -> (frames: Vec<Vec<T>>)
    requires
        window.len() == window_size,
        windows_num > 0 ==> hop_size * (windows_num - 1) + window_size <= data.len(),
        mul_total::<T>(),
    ensures
        frames@.len() == windows_num,
        forall|i: int| 0 <= i < windows_num ==> (#[trigger] frames@[i])@.len() == window_size,
        T::obeys_mul_spec() ==> forall|i: int|
            0 <= i < windows_num ==> (#[trigger] frames@[i])@ == windowed(
                data@.subrange(hop_size * i, hop_size * i + window_size),
                window@,
            ),
        T::obeys_mul_spec() ==> forall|i: int, j: int|
            0 <= i < windows_num && 0 <= j < window_size ==> #[trigger] frames@[i]@[j]
                == data@[hop_size * i + j].mul_spec(window@[j]),
{
    let mut frames: Vec<Vec<T>> = Vec::new();
    let mut i: usize = 0;
    while i < windows_num
        invariant
            i <= windows_num,
            frames@.len() == i,
            window.len() == window_size,
            windows_num > 0 ==> hop_size * (windows_num - 1) + window_size <= data.len(),
            mul_total::<T>(),
            forall|t: int| 0 <= t < i ==> (#[trigger] frames@[t])@.len() == window_size,
            T::obeys_mul_spec() ==> forall|t: int|
                0 <= t < i ==> (#[trigger] frames@[t])@ == windowed(
                    data@.subrange(hop_size * t, hop_size * t + window_size),
                    window@,
                ),
        decreases windows_num - i,
    {
        proof {
            assert(hop_size * i <= hop_size * (windows_num - 1)) by (nonlinear_arith)
                requires
                    i <= windows_num - 1,
            ;
        }
        let start = hop_size * i;
        let frame = crop_new(data, start, start + window_size);
        let frame = apply_window(frame, window);
        frames.push(frame);
        i = i + 1;
    }
    proof {
        if T::obeys_mul_spec() {
            assert forall|i: int, j: int|
                0 <= i < windows_num && 0 <= j < window_size implies #[trigger] frames@[i]@[j]
                    == data@[hop_size * i + j].mul_spec(window@[j]) by {
                assert(hop_size * i <= hop_size * (windows_num - 1)) by (nonlinear_arith)
                    requires
                        0 <= i < windows_num,
                ;
                assert(frames@[i]@ == windowed(
                    data@.subrange(hop_size * i, hop_size * i + window_size),
                    window@,
                ));
            }
        }
    }
    frames
}

/// The views of the frames in `chunks`.
pub open spec fn frame_views<T>(chunks: Seq<Vec<T>>) -> Seq<Seq<T>> {
    chunks.map_values(|c: Vec<T>| c@)
}

/// Overlap-adds the frames one after another, frame `i` starting at `hop * i`.
pub open spec fn overlap_add_all<T: Add<Output = T>>(chunks: Seq<Seq<T>>, hop: nat, zero: T) -> Seq<T>
    decreases chunks.len(),
{
    if chunks.len() == 0 {
        Seq::empty()
    } else {
        overlap_add(
            overlap_add_all(chunks.drop_last(), hop, zero),
            chunks.last(),
            hop * (chunks.len() - 1) as nat,
            zero,
        )
    }
}

/// The length of the overlap-add of the frames: where the last frame ends.
pub open spec fn overlap_add_len(chunks: Seq<nat>, hop: nat) -> nat {
    if chunks.len() == 0 {
        0
    } else {
        hop * (chunks.len() - 1) as nat + chunks.last()
    }
}

/// Every frame starts within the previous one's span and reaches at least as far, and every
/// frame's end fits in a `usize`.
pub open spec fn frames_chain(lens: Seq<nat>, hop: nat) -> bool {
    &&& forall|i: int| 1 <= i < lens.len() ==> hop <= #[trigger] lens[i - 1]
    &&& forall|i: int| 1 <= i < lens.len() ==> lens[i - 1] - hop <= #[trigger] lens[i]
    &&& forall|i: int| 0 <= i < lens.len() ==> hop * i + #[trigger] lens[i] <= usize::MAX
}

/// The lengths of the frames.
pub open spec fn frame_lens<T>(chunks: Seq<Vec<T>>) -> Seq<nat> {
    chunks.map_values(|c: Vec<T>| c@.len())
}

/// Builds one signal from (overlapping) frames by overlap-adding frame `i` at offset
/// `hop_size * i`.
pub fn reconstruct<T: Copy + Add<Output = T>>(chunks: &[Vec<T>], hop_size: usize, zero: T) -> (out:
    Vec<T>)
    requires
        frames_chain(frame_lens(chunks@), hop_size as nat),
        add_total::<T>(),
    ensures
        out@.len() == overlap_add_len(frame_lens(chunks@), hop_size as nat),
        T::obeys_add_spec() ==> out@ == overlap_add_all(frame_views(chunks@), hop_size as nat, zero),
{
    let ghost lens = frame_lens(chunks@);
    let ghost views = frame_views(chunks@);
    let mut out: Vec<T> = Vec::new();
    let mut i: usize = 0;
    proof {
        assert(views.take(0) =~= Seq::<Seq<T>>::empty());
    }
    while i < chunks.len()
        invariant
            i <= chunks.len(),
            lens == frame_lens(chunks@),
            views == frame_views(chunks@),
            frames_chain(lens, hop_size as nat),
            add_total::<T>(),
            out@.len() == overlap_add_len(lens.take(i as int), hop_size as nat),
            T::obeys_add_spec() ==> out@ == overlap_add_all(views.take(i as int), hop_size as nat, zero),
        decreases chunks.len() - i,
    {
        let chunk = &chunks[i];
        proof {
            assert(lens[i as int] == chunk@.len());
            if i > 0 {
                assert(lens.take(i as int).last() == lens[i - 1]);
                assert(hop_size * i == hop_size * (i - 1) + hop_size) by (nonlinear_arith);
                assert(hop_size <= lens[i - 1]);
                assert(lens[i - 1] - hop_size <= lens[i as int]);
            }
            assert(hop_size * i + lens[i as int] <= usize::MAX);
            assert(views.take(i + 1).drop_last() =~= views.take(i as int));
            assert(lens.take(i + 1).drop_last() =~= lens.take(i as int));
        }
        let offset = hop_size * i;
        out = overlap(out, chunk.as_slice(), offset, zero);
        i = i + 1;
    }
    proof {
        assert(views.take(chunks.len() as int) =~= views);
        assert(lens.take(chunks.len() as int) =~= lens);
    }
    out
}

/// `s` with `op(s[i], r[i])` in place of `s[i]` wherever `r` has a sample `i`.
pub open spec fn elementwise<T>(s: Seq<T>, r: Seq<T>, op: spec_fn(T, T) -> T) -> Seq<T> {
    Seq::new(s.len(), |i: int| if i < r.len() { op(s[i], r[i]) } else { s[i] })
}

/// Adds `rhs` to `data` element-wise over their common length.
pub fn elementwise_add<T: Copy + Add<Output = T>>(data: Vec<T>, rhs: &[T]) -> (out: Vec<T>)
    requires
        add_total::<T>(),
    ensures
        out@.len() == data@.len(),
        forall|i: int| rhs@.len() <= i < data@.len() ==> #[trigger] out@[i] == data@[i],
        T::obeys_add_spec() ==> forall|i: int|
            0 <= i < data@.len() && i < rhs@.len() ==> #[trigger] out@[i] == data@[i].add_spec(rhs@[i]),
        T::obeys_add_spec() ==> out@ == elementwise(data@, rhs@, |a: T, b: T| a.add_spec(b)),
{
    let ghost orig = data@;
    let mut out = data;
    let n = if out.len() < rhs.len() { out.len() } else { rhs.len() };
    let mut i: usize = 0;
    while i < n
        invariant
            n <= out@.len(),
            n <= rhs@.len(),
            n == out@.len() || n == rhs@.len(),
            out@.len() == orig.len(),
            i <= n,
            add_total::<T>(),
            forall|t: int| i <= t < orig.len() ==> #[trigger] out@[t] == orig[t],
            T::obeys_add_spec() ==> forall|t: int|
                0 <= t < i ==> #[trigger] out@[t] == orig[t].add_spec(rhs@[t]),
        decreases n - i,
    {
        let v = out[i] + rhs[i];
        out[i] = v;
        i = i + 1;
    }
    proof {
        if T::obeys_add_spec() {
            assert(out@ =~= elementwise(orig, rhs@, |a: T, b: T| a.add_spec(b)));
        }
    }
    out
}

/// Subtracts `rhs` from `data` element-wise over their common length.
pub fn elementwise_sub<T: Copy + Sub<Output = T>>(data: Vec<T>, rhs: &[T]) -> (out: Vec<T>)
    requires
        sub_total::<T>(),
    ensures
        out@.len() == data@.len(),
        forall|i: int| rhs@.len() <= i < data@.len() ==> #[trigger] out@[i] == data@[i],
        T::obeys_sub_spec() ==> forall|i: int|
            0 <= i < data@.len() && i < rhs@.len() ==> #[trigger] out@[i] == data@[i].sub_spec(rhs@[i]),
        T::obeys_sub_spec() ==> out@ == elementwise(data@, rhs@, |a: T, b: T| a.sub_spec(b)),
{
    let ghost orig = data@;
    let mut out = data;
    let n = if out.len() < rhs.len() { out.len() } else { rhs.len() };
    let mut i: usize = 0;
    while i < n
        invariant
            n <= out@.len(),
            n <= rhs@.len(),
            n == out@.len() || n == rhs@.len(),
            out@.len() == orig.len(),
            i <= n,
            sub_total::<T>(),
            forall|t: int| i <= t < orig.len() ==> #[trigger] out@[t] == orig[t],
            T::obeys_sub_spec() ==> forall|t: int|
                0 <= t < i ==> #[trigger] out@[t] == orig[t].sub_spec(rhs@[t]),
        decreases n - i,
    {
        let v = out[i] - rhs[i];
        out[i] = v;
        i = i + 1;
    }
    proof {
        if T::obeys_sub_spec() {
            assert(out@ =~= elementwise(orig, rhs@, |a: T, b: T| a.sub_spec(b)));
        }
    }
    out
}

/// Multiplies `data` by `rhs` element-wise over their common length.
pub fn elementwise_mul<T: Copy + Mul<Output = T>>(data: Vec<T>, rhs: &[T]) -> (out: Vec<T>)
    requires
        mul_total::<T>(),
    ensures
        out@.len() == data@.len(),
        forall|i: int| rhs@.len() <= i < data@.len() ==> #[trigger] out@[i] == data@[i],
        T::obeys_mul_spec() ==> forall|i: int|
            0 <= i < data@.len() && i < rhs@.len() ==> #[trigger] out@[i] == data@[i].mul_spec(rhs@[i]),
        T::obeys_mul_spec() ==> out@ == elementwise(data@, rhs@, |a: T, b: T| a.mul_spec(b)),
{
    let ghost orig = data@;
    let mut out = data;
    let n = if out.len() < rhs.len() { out.len() } else { rhs.len() };
    let mut i: usize = 0;
    while i < n
        invariant
            n <= out@.len(),
            n <= rhs@.len(),
            n == out@.len() || n == rhs@.len(),
            out@.len() == orig.len(),
            i <= n,
            mul_total::<T>(),
            forall|t: int| i <= t < orig.len() ==> #[trigger] out@[t] == orig[t],
            T::obeys_mul_spec() ==> forall|t: int|
                0 <= t < i ==> #[trigger] out@[t] == orig[t].mul_spec(rhs@[t]),
        decreases n - i,
    {
        let v = out[i] * rhs[i];
        out[i] = v;
        i = i + 1;
    }
    proof {
        if T::obeys_mul_spec() {
            assert(out@ =~= elementwise(orig, rhs@, |a: T, b: T| a.mul_spec(b)));
        }
    }
    out
}

/// Divides `data` by `rhs` element-wise over their common length.
pub fn elementwise_div<T: Copy + Div<Output = T>>(data: Vec<T>, rhs: &[T]) -> (out: Vec<T>)
    requires
        div_total::<T>(),
    ensures
        out@.len() == data@.len(),
        forall|i: int| rhs@.len() <= i < data@.len() ==> #[trigger] out@[i] == data@[i],
        T::obeys_div_spec() ==> forall|i: int|
            0 <= i < data@.len() && i < rhs@.len() ==> #[trigger] out@[i] == data@[i].div_spec(rhs@[i]),
        T::obeys_div_spec() ==> out@ == elementwise(data@, rhs@, |a: T, b: T| a.div_spec(b)),
{
    let ghost orig = data@;
    let mut out = data;
    let n = if out.len() < rhs.len() { out.len() } else { rhs.len() };
    let mut i: usize = 0;
    while i < n
        invariant
            n <= out@.len(),
            n <= rhs@.len(),
            n == out@.len() || n == rhs@.len(),
            out@.len() == orig.len(),
            i <= n,
            div_total::<T>(),
            forall|t: int| i <= t < orig.len() ==> #[trigger] out@[t] == orig[t],
            T::obeys_div_spec() ==> forall|t: int|
                0 <= t < i ==> #[trigger] out@[t] == orig[t].div_spec(rhs@[t]),
        decreases n - i,
    {
        let v = out[i] / rhs[i];
        out[i] = v;
        i = i + 1;
    }
    proof {
        if T::obeys_div_spec() {
            assert(out@ =~= elementwise(orig, rhs@, |a: T, b: T| a.div_spec(b)));
        }
    }
    out
}

/// Multiplies every sample by `factor`.
pub fn scale<T: Copy + Mul<Output = T>>(data: Vec<T>, factor: T) -> (out: Vec<T>)
    requires
        mul_total::<T>(),
    ensures
        out@.len() == data@.len(),
        T::obeys_mul_spec() ==> out@ == data@.map_values(|x: T| x.mul_spec(factor)),
{
    let ghost orig = data@;
    let mut out = data;
    let n = out.len();
    let mut i: usize = 0;
    while i < n
        invariant
            n == out@.len(),
            n == orig.len(),
            i <= n,
            mul_total::<T>(),
            forall|t: int| i <= t < n ==> #[trigger] out@[t] == orig[t],
            T::obeys_mul_spec() ==> forall|t: int|
                0 <= t < i ==> #[trigger] out@[t] == orig[t].mul_spec(factor),
        decreases n - i,
    {
        let v = out[i] * factor;
        out[i] = v;
        i = i + 1;
    }
    proof {
        if T::obeys_mul_spec() {
            assert(out@ =~= orig.map_values(|x: T| x.mul_spec(factor)));
        }
    }
    out
}

/// The spectrum `freq` of an `n`-sample signal re-laid out for `new_len` samples, so that its
/// inverse transform is the signal resampled to `new_len` samples:
/// - growing, with `n` even: the Nyquist bin is split into two halves with
///   `new_len - n - 1` zero bins between them;
/// - growing, with `n` odd: `new_len - n` zero bins are inserted after bin `n / 2`;
/// - shrinking to an even `new_len = 2k + 2`: bins `0 ..= k` are kept, then bin `k + 1` plus
///   its negative-frequency mirror `n - k - 1`, then the last `k` bins;
/// - shrinking to an odd `new_len = 2k + 1`: bins `0 ..= k` and the last `k` bins are kept.
pub open spec fn resampled_spectrum<T: Add<Output = T> + Div<Output = T>>(
    freq: Seq<T>,
    new_len: nat,
    zero: T,
    two: T,
) -> Seq<T> {
    let n = freq.len() as int;
    let m = new_len as int;
    if m == n {
        freq
    } else if m > n {
        let z = m - n;
        if n % 2 == 0 {
            let nyquist = n / 2;
            let half = freq[nyquist].div_spec(two);
            freq.take(nyquist) + seq![half] + repeated(zero, (z - 1) as nat) + seq![half]
                + freq.skip(nyquist + 1)
        } else {
            let halfway = n / 2;
            freq.take(halfway + 1) + repeated(zero, z as nat) + freq.skip(halfway + 1)
        }
    } else if m % 2 == 0 {
        let k = m / 2 - 1;
        freq.take(k + 1) + seq![freq[k + 1].add_spec(freq[n - k - 1])] + freq.skip(n - k)
    } else {
        let k = (m - 1) / 2;
        freq.take(k + 1) + freq.skip(n - k)
    }
}

/// Whether bin `i` of a spectrum of `n` samples re-laid out for `m` samples is computed by
/// arithmetic (a halved Nyquist bin, or a bin merged with its mirror) rather than moved or
/// filled with zero.
pub open spec fn computed_bin(n: nat, m: nat, i: int) -> bool {
    if m > n {
        n % 2 == 0 && (i == n / 2 || i == n / 2 + (m - n))
    } else if m < n {
        m % 2 == 0 && i == m / 2
    } else {
        false
    }
}

/// Bin by bin, the re-laid-out spectrum of `n = freq.len()` bins for `m` samples: the low
/// bins keep their place, the high (negative-frequency) bins move to the end, and the bins
/// between them are zero when growing; for an even `n` the Nyquist bin is split into two
/// halves at both ends of the zeros, and shrinking to an even `m` merges bin `m / 2` with its
/// mirror `n - m / 2`.
pub proof fn lemma_resampled_spectrum_bins<T: Add<Output = T> + Div<Output = T>>(
    freq: Seq<T>,
    m: nat,
    zero: T,
    two: T,
)
    requires
        freq.len() > 0,
        m > 0,
    ensures
        ({
            let n = freq.len() as int;
            let out = resampled_spectrum(freq, m, zero, two);
            &&& out.len() == m
            &&& m > n && n % 2 == 1 ==> forall|i: int|
                0 <= i < m ==> #[trigger] out[i] == if i <= n / 2 {
                    freq[i]
                } else if i <= n / 2 + (m - n) {
                    zero
                } else {
                    freq[i - (m - n)]
                }
            &&& m > n && n % 2 == 0 ==> forall|i: int|
                0 <= i < m ==> #[trigger] out[i] == if i < n / 2 {
                    freq[i]
                } else if i == n / 2 || i == n / 2 + (m - n) {
                    freq[n / 2].div_spec(two)
                } else if i < n / 2 + (m - n) {
                    zero
                } else {
                    freq[i - (m - n)]
                }
            &&& m < n && m % 2 == 0 ==> forall|i: int|
                0 <= i < m ==> #[trigger] out[i] == if i < m / 2 {
                    freq[i]
                } else if i == m / 2 {
                    freq[i].add_spec(freq[n - i])
                } else {
                    freq[i + (n - m)]
                }
            &&& m < n && m % 2 == 1 ==> forall|i: int|
                0 <= i < m ==> #[trigger] out[i] == if i <= m / 2 {
                    freq[i]
                } else {
                    freq[i + (n - m)]
                }
            &&& m == n ==> out == freq
        }),
{
}

/// Re-lays out the spectrum `freq` for a signal of `new_len` samples (see
/// `resampled_spectrum`); `zero` fills inserted bins and `two` halves the Nyquist bin.
pub fn resample_spectrum<T: Copy + Add<Output = T> + Div<Output = T>>(
    freq: Vec<T>,
    new_len: usize,
    zero: T,
    two: T,
) -> (out: Vec<T>)
    requires
        new_len == freq.len() || (freq.len() > 0 && new_len > 0),
        add_total::<T>(),
        div_total::<T>(),
    ensures
        out@.len() == new_len,
        forall|i: int|
            0 <= i < new_len && !computed_bin(freq@.len(), new_len as nat, i) ==> #[trigger] out@[i]
                == resampled_spectrum(freq@, new_len as nat, zero, two)[i],
        T::obeys_add_spec() && T::obeys_div_spec() ==> out@ == resampled_spectrum(
            freq@,
            new_len as nat,
            zero,
            two,
        ),
{
    let n = freq.len();
    if new_len == n {
        return freq;
    }
    let ghost f = freq@;
    let mut out: Vec<T> = Vec::new();
    if new_len > n {
        let z = new_len - n;
        if n % 2 == 0 {
            let nyquist = n / 2;
            let half = freq[nyquist] / two;
            push_range(&mut out, freq.as_slice(), 0, nyquist);
            out.push(half);
            push_copies(&mut out, zero, z - 1);
            out.push(half);
            push_range(&mut out, freq.as_slice(), nyquist + 1, n);
            proof {
                let rs = resampled_spectrum(f, new_len as nat, zero, two);
                let ghost_out = f.take(nyquist as int) + seq![half] + repeated(zero, (z - 1) as nat)
                    + seq![half] + f.skip(nyquist + 1);
                assert(out@ =~= ghost_out);
                assert forall|i: int|
                    0 <= i < new_len && !computed_bin(f.len(), new_len as nat, i) implies #[trigger] out@[i]
                        == rs[i] by {
                    if i < nyquist {
                    } else if i < nyquist + z {
                    } else {
                    }
                }
                if T::obeys_add_spec() && T::obeys_div_spec() {
                    assert(out@ =~= rs);
                }
            }
        } else {
            let halfway = n / 2;
            push_range(&mut out, freq.as_slice(), 0, halfway + 1);
            push_copies(&mut out, zero, z);
            push_range(&mut out, freq.as_slice(), halfway + 1, n);
            proof {
                assert(out@ =~= resampled_spectrum(f, new_len as nat, zero, two));
            }
        }
    } else if new_len % 2 == 0 {
        let k = new_len / 2 - 1;
        let merged = freq[k + 1] + freq[n - k - 1];
        push_range(&mut out, freq.as_slice(), 0, k + 1);
        out.push(merged);
        push_range(&mut out, freq.as_slice(), n - k, n);
        proof {
            let rs = resampled_spectrum(f, new_len as nat, zero, two);
            assert(out@ =~= f.take(k + 1) + seq![merged] + f.skip(n - k));
            assert forall|i: int|
                0 <= i < new_len && !computed_bin(f.len(), new_len as nat, i) implies #[trigger] out@[i]
                    == rs[i] by {
                if i < k + 1 {
                } else {
                }
            }
            if T::obeys_add_spec() && T::obeys_div_spec() {
                assert(out@ =~= rs);
            }
        }
    } else {
        let k = (new_len - 1) / 2;
        push_range(&mut out, freq.as_slice(), 0, k + 1);
        push_range(&mut out, freq.as_slice(), n - k, n);
        proof {
            assert(out@ =~= resampled_spectrum(f, new_len as nat, zero, two));
        }
    }
    out
}

/// The window functions a frame can be multiplied by.
#[derive(Clone, Copy, Debug, PartialEq, Eq, Structural)]
pub enum WindowFunction {
    Hann,
    Hamming,
    Rectangular,
    Blackman,
}

impl WindowFunction {
    /// The window function with the given code: 0 Hann, 1 Hamming, 2 rectangular,
    /// 3 Blackman; any other code selects the rectangular window.
    pub fn from_code(code: u8) -> (w: WindowFunction)
        ensures
            w == (match code {
                0 => WindowFunction::Hann,
                1 => WindowFunction::Hamming,
                3 => WindowFunction::Blackman,
                _ => WindowFunction::Rectangular,
            }),
    {
        match code {
            0 => WindowFunction::Hann,
            1 => WindowFunction::Hamming,
            2 => WindowFunction::Rectangular,
            3 => WindowFunction::Blackman,
            _ => WindowFunction::Rectangular,
        }
    }
}

/// The samples `function(start), function(start + 1), ..., function(end - 1)`.
pub fn from_fn<T, F: Fn(usize) -> T>(function: F, start: usize, end: usize) -> (out: Vec<T>)
    requires
        forall|i: usize| start <= i < end ==> #[trigger] call_requires(function, (i,)),
    ensures
        out@.len() == if start < end { end - start } else { 0 },
        forall|i: int|
            0 <= i < out@.len() ==> call_ensures(function, ((start + i) as usize,), #[trigger] out@[i]),
{
    let mut out: Vec<T> = Vec::new();
    let mut i = start;
    while i < end
        invariant
            start <= i,
            i <= end || start >= end,
            start >= end ==> i == start,
            forall|j: usize| start <= j < end ==> #[trigger] call_requires(function, (j,)),
            out@.len() == i - start,
            forall|t: int|
                0 <= t < out@.len() ==> call_ensures(function, ((start + t) as usize,), #[trigger] out@[t]),
        decreases end - i,
    {
        let v = function(i);
        out.push(v);
        i = i + 1;
    }
    out
}

/// Cropping a zero-extended signal back to the span of its data gives back that data,
/// whichever side (or both) was padded.
pub proof fn lemma_crop_undoes_zero_extend<T>(data: Seq<T>, num: nat, zero: T)
    ensures
        (data + repeated(zero, num)).subrange(0, data.len() as int) == data,
        (repeated(zero, num) + data).subrange(num as int, (num + data.len()) as int) == data,
        (repeated(zero, num) + data + repeated(zero, num)).subrange(num as int, (num + data.len()) as int)
            == data,
{
    assert((data + repeated(zero, num)).subrange(0, data.len() as int) =~= data);
    assert((repeated(zero, num) + data).subrange(num as int, (num + data.len()) as int) =~= data);
    assert((repeated(zero, num) + data + repeated(zero, num)).subrange(
        num as int,
        (num + data.len()) as int,
    ) =~= data);
}

/// Cropping a concatenation at the seam gives back both parts.
pub proof fn lemma_crop_undoes_concat<T>(first: Seq<T>, second: Seq<T>)
    ensures
        (first + second).subrange(0, first.len() as int) == first,
        (first + second).subrange(first.len() as int, (first.len() + second.len()) as int) == second,
{
    assert((first + second).subrange(0, first.len() as int) =~= first);
    assert((first + second).subrange(first.len() as int, (first.len() + second.len()) as int) =~= second);
}

/// Making room in a spectrum for more samples and then cutting it back to its starting
/// length gives back the same spectrum: the inserted zero bins are exactly the ones removed,
/// and for an even length the two halves of the Nyquist bin are added back together. For an
/// even length this needs the sample arithmetic to give a bin back when its two halves are
/// added.
pub proof fn lemma_resampled_spectrum_round_trip<T: Add<Output = T> + Div<Output = T>>(
    freq: Seq<T>,
    new_len: nat,
    zero: T,
    two: T,
)
    requires
        freq.len() > 0,
        new_len >= freq.len(),
        freq.len() % 2 == 0 && new_len > freq.len() ==> ({
            let half = freq[(freq.len() / 2) as int].div_spec(two);
            half.add_spec(half) == freq[(freq.len() / 2) as int]
        }),
    ensures
        resampled_spectrum(
            resampled_spectrum(freq, new_len, zero, two),
            freq.len(),
            zero,
            two,
        ) == freq,
{
    let n = freq.len() as int;
    let grown = resampled_spectrum(freq, new_len, zero, two);
    if new_len > freq.len() {
        let z = new_len - n;
        assert(grown.len() == new_len);
        let back = resampled_spectrum(grown, freq.len(), zero, two);
        if n % 2 == 1 {
            let k = (n - 1) / 2;
            assert(back =~= grown.take(k + 1) + grown.skip(new_len - k));
            assert(back =~= freq);
        } else {
            let h = n / 2;
            let k = h - 1;
            let half = freq[h].div_spec(two);
            assert(grown =~= freq.take(h) + seq![half] + repeated(zero, (z - 1) as nat) + seq![half]
                + freq.skip(h + 1));
            assert(grown[h] == half);
            assert(grown[new_len - k - 1] == half);
            assert(back =~= grown.take(k + 1) + seq![grown[k + 1].add_spec(grown[new_len - k - 1])]
                + grown.skip(new_len - k));
            assert(back =~= freq);
        }
    }
}

/// Whether a signal resampled from `old_len` to `new_len` samples is brought back from the
/// frequency domain by the radix-2 inverse FFT rather than the inverse DFT: only when
/// `new_len` is a power of two and the spectrum was grown from an even length or shrunk to
/// an even length.
pub fn resample_inverse_uses_fft(old_len: usize, new_len: usize) -> (r: bool)
    ensures
        r == (power_of_two(new_len as nat) && ((new_len > old_len && old_len % 2 == 0) || (new_len
            < old_len && new_len % 2 == 0))),
{
    let even_layout = (new_len > old_len && old_len % 2 == 0) || (new_len < old_len && new_len % 2
        == 0);
    even_layout && is_power_of_two(new_len)
}

/// The number of samples a resampling request asks for: exactly one of `from_ratio` (the
/// length given by a ratio, already rounded) and `new_len` must be given; giving both or
/// neither is an error.
pub fn resample_target_len(from_ratio: Option<usize>, new_len: Option<usize>) -> (r: Result<
    usize,
    &'static str,
>)
    ensures
        match (from_ratio, new_len) {
            (Some(len), None) => r == Ok::<usize, &'static str>(len),
            (None, Some(len)) => r == Ok::<usize, &'static str>(len),
            _ => r == Err::<usize, &'static str>(
                "Error: resampling where both ratio and new_len were supplied",
            ),
        },
{
    match (from_ratio, new_len) {
        (Some(len), None) => Ok(len),
        (None, Some(len)) => Ok(len),
        _ => Err("Error: resampling where both ratio and new_len were supplied"),
    }
}

} // verus!
