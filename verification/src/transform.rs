//! Discrete Fourier transforms along one or several axes of an array.
//!
//! The one-dimensional transform itself is not part of this library. It is
//! handed in as a `Kernel`, and every contract here says what the result is in
//! terms of what that kernel answers: which sequences it is given, and where in
//! the output its answers stand.

use vstd::prelude::*;
use crate::array::{NdArray, NdSpec};
use crate::error::TransformError;
use crate::index::ints;
use crate::lanes::{axis_check, lane_map, lanes_related, mutate_lane};

verus! {

/// The two primitives that the transforms are built from.
pub struct Kernel<D, S> {
    /// The one-dimensional discrete Fourier transform of a sequence, forward
    /// where the flag is `false` and inverse where it is `true`, in both cases
    /// without normalization. The answer has the length of the sequence.
    pub dft: D,
    /// The division of an element by a length.
    pub unscale: S,
}

impl<D, S> Kernel<D, S> {
    pub fn new(dft: D, unscale: S) -> (kernel: Self)
        ensures
            kernel.dft == dft,
            kernel.unscale == unscale,
    {
        Kernel { dft, unscale }
    }
}

/// The primitives accept every argument, and the transform keeps the length.
pub open spec fn kernel_total<T, D: Fn(Vec<T>, bool) -> Vec<T>, S: Fn(T, usize) -> T>(
    kernel: Kernel<D, S>,
) -> bool {
    &&& forall|x: Vec<T>, inverse: bool| call_requires(kernel.dft, (x, inverse))
    &&& forall|x: Vec<T>, inverse: bool, y: Vec<T>| #[trigger]
        call_ensures(kernel.dft, (x, inverse), y) ==> y@.len() == x@.len()
    &&& forall|v: T, n: usize| call_requires(kernel.unscale, (v, n))
}

/// The kernel's transform may answer `y` when given `x` and the direction.
pub open spec fn dft_rel<T, D: Fn(Vec<T>, bool) -> Vec<T>, S: Fn(T, usize) -> T>(
    kernel: Kernel<D, S>,
    inverse: bool,
    x: Seq<T>,
    y: Seq<T>,
) -> bool {
    exists|l: Vec<T>, r: Vec<T>| l@ == x && r@ == y && call_ensures(kernel.dft, (l, inverse), r)
}

/// `y` is `raw` with each element divided by `n`, as the kernel divides.
pub open spec fn unscaled<T, D: Fn(Vec<T>, bool) -> Vec<T>, S: Fn(T, usize) -> T>(
    kernel: Kernel<D, S>,
    n: usize,
    raw: Seq<T>,
    y: Seq<T>,
) -> bool {
    &&& y.len() == raw.len()
    &&& forall|i: int| 0 <= i < raw.len() ==> call_ensures(kernel.unscale, (raw[i], n), #[trigger] y[i])
}

/// `y` is a forward transform of `x`.
pub open spec fn fft_rel<T, D: Fn(Vec<T>, bool) -> Vec<T>, S: Fn(T, usize) -> T>(
    kernel: Kernel<D, S>,
    x: Seq<T>,
    y: Seq<T>,
) -> bool {
    dft_rel(kernel, false, x, y)
}

/// `y` is a normalized inverse transform of `x`: an inverse transform of `x`
/// with each element divided by the length of `x`.
pub open spec fn ifft_rel<T, D: Fn(Vec<T>, bool) -> Vec<T>, S: Fn(T, usize) -> T>(
    kernel: Kernel<D, S>,
    x: Seq<T>,
    y: Seq<T>,
) -> bool {
    exists|raw: Seq<T>|
        dft_rel(kernel, true, x, raw) && unscaled(kernel, x.len() as usize, raw, y)
}

/// The relation between a lane and its transform in the given direction: the
/// forward transform, or the normalized inverse.
pub open spec fn lane_rel<T, D: Fn(Vec<T>, bool) -> Vec<T>, S: Fn(T, usize) -> T>(
    kernel: Kernel<D, S>,
    inverse: bool,
) -> spec_fn(Seq<T>, Seq<T>) -> bool {
    |x: Seq<T>, y: Seq<T>|
        if inverse {
            ifft_rel(kernel, x, y)
        } else {
            fft_rel(kernel, x, y)
        }
}

/// `b` arises from `a` by transforming along each of `axes` in turn, each step
/// taking the result of the one before.
pub open spec fn chain<T>(
    rel: spec_fn(Seq<T>, Seq<T>) -> bool,
    axes: Seq<int>,
    a: NdSpec<T>,
    b: NdSpec<T>,
) -> bool
    decreases axes.len(),
{
    if axes.len() == 0 {
        b == a
    } else {
        exists|m: NdSpec<T>|
            chain(rel, axes.drop_last(), a, m) && lanes_related(rel, axes.last(), m, b)
    }
}

/// What a request to transform along `axes` is answered with, by the shapes of
/// the input and the output and the list of axes alone. A mismatch of the shapes
/// is reported before an empty list, and that before an axis out of range.
pub open spec fn axes_check(input: Seq<int>, output: Seq<int>, axes: Seq<int>) -> Result<
    (),
    TransformError,
> {
    if input != output {
        Err(TransformError::ShapeMismatch)
    } else if axes.len() == 0 {
        Err(TransformError::EmptyAxisList)
    } else if exists|i: int| 0 <= i < axes.len() && !(0 <= #[trigger] axes[i] < input.len()) {
        Err(TransformError::InvalidAxis)
    } else {
        Ok(())
    }
}

/// A relation that holds lane by lane still holds when it is replaced by one
/// that it implies.
pub proof fn lemma_lanes_related_weaken<T>(
    rel: spec_fn(Seq<T>, Seq<T>) -> bool,
    weaker: spec_fn(Seq<T>, Seq<T>) -> bool,
    axis: int,
    a: NdSpec<T>,
    b: NdSpec<T>,
)
    requires
        lanes_related(rel, axis, a, b),
        forall|x: Seq<T>, y: Seq<T>| #[trigger] rel(x, y) ==> weaker(x, y),
    ensures
        lanes_related(weaker, axis, a, b),
{
}

/// The transform of `input` in the given direction, without normalization.
fn _fft<T, D: Fn(Vec<T>, bool) -> Vec<T>, S: Fn(T, usize) -> T>(
    input: Vec<T>,
    inverse: bool,
    kernel: &Kernel<D, S>,
) -> (output: Vec<T>)
    requires
        kernel_total(*kernel),
    ensures
        dft_rel(*kernel, inverse, input@, output@),
        output@.len() == input@.len(),
{
    (kernel.dft)(input, inverse)
}

/// The forward transform of `input`.
pub fn fft<T, D: Fn(Vec<T>, bool) -> Vec<T>, S: Fn(T, usize) -> T>(
    input: Vec<T>,
    kernel: &Kernel<D, S>,
) -> (output: Vec<T>)
    requires
        kernel_total(*kernel),
    ensures
        fft_rel(*kernel, input@, output@),
        output@.len() == input@.len(),
{
    _fft(input, false, kernel)
}

/// The normalized inverse transform of `input`: the inverse transform with
/// each element divided by the length of `input`.
pub fn ifft<T: Copy, D: Fn(Vec<T>, bool) -> Vec<T>, S: Fn(T, usize) -> T>(
    input: Vec<T>,
    kernel: &Kernel<D, S>,
) -> (output: Vec<T>)
    requires
        kernel_total(*kernel),
    ensures
        ifft_rel(*kernel, input@, output@),
        output@.len() == input@.len(),
{
    let n = input.len();
    let ghost x = input@;
    let raw = _fft(input, true, kernel);
    let mut output: Vec<T> = Vec::new();
    let mut i: usize = 0;
    while i < n
        invariant
            kernel_total(*kernel),
            n == raw@.len(),
            i <= n,
            output@.len() == i,
            forall|j: int|
                0 <= j < i ==> call_ensures(kernel.unscale, (raw@[j], n), #[trigger] output@[j]),
        decreases n - i,
    {
        let v = (kernel.unscale)(raw[i], n);
        output.push(v);
        i += 1;
    }
    assert(unscaled(*kernel, x.len() as usize, raw@, output@));
    output
}

/// Transforms every lane along `axis` in the given direction; inverse
/// transforms are normalized lane by lane.
fn _fftn<T: Copy, D: Fn(Vec<T>, bool) -> Vec<T>, S: Fn(T, usize) -> T>(
    input: &mut NdArray<T>,
    output: &mut NdArray<T>,
    axis: usize,
    inverse: bool,
    kernel: &Kernel<D, S>,
) -> (r: Result<(), TransformError>)
    requires
        old(input).wf(),
        old(output).wf(),
        kernel_total(*kernel),
    ensures
        final(input).wf(),
        final(output).wf(),
        final(input)@ == old(input)@,
        r == axis_check(old(input)@.shape, old(output)@.shape, axis as int),
        r is Err ==> final(output)@ == old(output)@,
        r is Ok ==> lanes_related(
            lane_rel(*kernel, inverse),
            axis as int,
            old(input)@,
            final(output)@,
        ),
{
    if inverse {
        let f = |lane: Vec<T>| -> (answer: Vec<T>)
            ensures
                ifft_rel(*kernel, lane@, answer@),
                answer@.len() == lane@.len(),
            { ifft(lane, kernel) };
        let r = mutate_lane(input, output, &f, axis);
        proof {
            if r is Ok {
                lemma_lanes_related_weaken(
                    lane_map(f),
                    lane_rel(*kernel, inverse),
                    axis as int,
                    old(input)@,
                    output@,
                );
            }
        }
        r
    } else {
        let f = |lane: Vec<T>| -> (answer: Vec<T>)
            ensures
                fft_rel(*kernel, lane@, answer@),
                answer@.len() == lane@.len(),
            { fft(lane, kernel) };
        let r = mutate_lane(input, output, &f, axis);
        proof {
            if r is Ok {
                lemma_lanes_related_weaken(
                    lane_map(f),
                    lane_rel(*kernel, inverse),
                    axis as int,
                    old(input)@,
                    output@,
                );
            }
        }
        r
    }
}

/// Transforms along each of `axes` in turn. After each step but the last the
/// result is copied back into `input`, from where the next step reads; so
/// `input` ends as the result of all steps but the last, and `output` as the
/// result of all of them.
fn _fftnd<T: Copy, D: Fn(Vec<T>, bool) -> Vec<T>, S: Fn(T, usize) -> T>(
    input: &mut NdArray<T>,
    output: &mut NdArray<T>,
    axes: &[usize],
    inverse: bool,
    kernel: &Kernel<D, S>,
) -> (r: Result<(), TransformError>)
    requires
        old(input).wf(),
        old(output).wf(),
        kernel_total(*kernel),
    ensures
        final(input).wf(),
        final(output).wf(),
        r == axes_check(old(input)@.shape, old(output)@.shape, ints(axes@)),
        r is Err ==> final(input)@ == old(input)@ && final(output)@ == old(output)@,
        r is Ok ==> chain(
            lane_rel(*kernel, inverse),
            ints(axes@).drop_last(),
            old(input)@,
            final(input)@,
        ) && lanes_related(
            lane_rel(*kernel, inverse),
            ints(axes@).last(),
            final(input)@,
            final(output)@,
        ),
        r is Ok ==> chain(lane_rel(*kernel, inverse), ints(axes@), old(input)@, final(output)@),
{
    let len = axes.len();
    let ghost ax = ints(axes@);
    let ghost rel = lane_rel(*kernel, inverse);
    let ghost first = input@;
    if !input.same_shape(output) {
        return Err(TransformError::ShapeMismatch);
    }
    if len == 0 {
        return Err(TransformError::EmptyAxisList);
    }
    let ndim = input.ndim();
    let mut i: usize = 0;
    while i < len
        invariant
            input.wf(),
            output.wf(),
            input@ == first,
            first == old(input)@,
            output@ == old(output)@,
            first.shape == old(output)@.shape,
            len == axes.len(),
            len > 0,
            ax == ints(axes@),
            ndim == first.shape.len(),
            i <= len,
            forall|j: int| 0 <= j < i ==> 0 <= #[trigger] ax[j] < ndim,
        decreases len - i,
    {
        if axes[i] >= ndim {
            assert(!(0 <= ax[i as int] < first.shape.len()));
            return Err(TransformError::InvalidAxis);
        }
        i += 1;
    }
    i = 0;
    while i < len
        invariant
            input.wf(),
            output.wf(),
            kernel_total(*kernel),
            rel == lane_rel(*kernel, inverse),
            len == axes.len(),
            len > 0,
            ax == ints(axes@),
            ndim == first.shape.len(),
            forall|j: int| 0 <= j < len ==> 0 <= #[trigger] ax[j] < ndim,
            input@.shape == first.shape,
            output@.shape == first.shape,
            i <= len,
            i < len ==> chain(rel, ax.take(i as int), first, input@),
            i == len ==> chain(rel, ax.drop_last(), first, input@) && lanes_related(
                rel,
                ax.last(),
                input@,
                output@,
            ),
        decreases len - i,
    {
        let ghost before = input@;
        assert(0 <= ax[i as int] < ndim);
        let step = _fftn(input, output, axes[i], inverse, kernel);
        if step.is_err() {
            return step;
        }
        if i < len - 1 {
            input.assign(output);
            proof {
                let next = ax.take(i as int + 1);
                assert(next.drop_last() =~= ax.take(i as int));
                assert(next.last() == ax[i as int]);
                assert(chain(rel, next.drop_last(), first, before) && lanes_related(
                    rel,
                    next.last(),
                    before,
                    input@,
                ));
            }
        } else {
            proof {
                assert(ax.take(i as int) =~= ax.drop_last());
            }
        }
        i += 1;
    }
    Ok(())
}

/// The forward transform of every lane of `input` along `axis`, written to
/// `output`.
pub fn fftn<T: Copy, D: Fn(Vec<T>, bool) -> Vec<T>, S: Fn(T, usize) -> T>(
    input: &mut NdArray<T>,
    output: &mut NdArray<T>,
    axis: usize,
    kernel: &Kernel<D, S>,
) -> (r: Result<(), TransformError>)
    requires
        old(input).wf(),
        old(output).wf(),
        kernel_total(*kernel),
    ensures
        final(input).wf(),
        final(output).wf(),
        final(input)@ == old(input)@,
        r == axis_check(old(input)@.shape, old(output)@.shape, axis as int),
        r is Err ==> final(output)@ == old(output)@,
        r is Ok ==> lanes_related(
            lane_rel(*kernel, false),
            axis as int,
            old(input)@,
            final(output)@,
        ),
{
    _fftn(input, output, axis, false, kernel)
}

/// The normalized inverse transform of every lane of `input` along `axis`,
/// written to `output`.
pub fn ifftn<T: Copy, D: Fn(Vec<T>, bool) -> Vec<T>, S: Fn(T, usize) -> T>(
    input: &mut NdArray<T>,
    output: &mut NdArray<T>,
    axis: usize,
    kernel: &Kernel<D, S>,
) -> (r: Result<(), TransformError>)
    requires
        old(input).wf(),
        old(output).wf(),
        kernel_total(*kernel),
    ensures
        final(input).wf(),
        final(output).wf(),
        final(input)@ == old(input)@,
        r == axis_check(old(input)@.shape, old(output)@.shape, axis as int),
        r is Err ==> final(output)@ == old(output)@,
        r is Ok ==> lanes_related(
            lane_rel(*kernel, true),
            axis as int,
            old(input)@,
            final(output)@,
        ),
{
    _fftn(input, output, axis, true, kernel)
}

/// The forward transform along each of `axes`, in the order of the list.
/// `output` receives the result; `input` is used as scratch space and ends as
/// the result of all steps but the last.
pub fn fftnd<T: Copy, D: Fn(Vec<T>, bool) -> Vec<T>, S: Fn(T, usize) -> T>(
    input: &mut NdArray<T>,
    output: &mut NdArray<T>,
    axes: &[usize],
    kernel: &Kernel<D, S>,
) -> (r: Result<(), TransformError>)
    requires
        old(input).wf(),
        old(output).wf(),
        kernel_total(*kernel),
    ensures
        final(input).wf(),
        final(output).wf(),
        r == axes_check(old(input)@.shape, old(output)@.shape, ints(axes@)),
        r is Err ==> final(input)@ == old(input)@ && final(output)@ == old(output)@,
        r is Ok ==> chain(
            lane_rel(*kernel, false),
            ints(axes@).drop_last(),
            old(input)@,
            final(input)@,
        ) && lanes_related(
            lane_rel(*kernel, false),
            ints(axes@).last(),
            final(input)@,
            final(output)@,
        ),
        r is Ok ==> chain(lane_rel(*kernel, false), ints(axes@), old(input)@, final(output)@),
{
    _fftnd(input, output, axes, false, kernel)
}

/// The normalized inverse transform along each of `axes`, in the order of the
/// list. Each step divides by the extent of its own axis, so that the whole
/// divides by the product of the extents. `output` receives the result;
/// `input` is used as scratch space and ends as the result of all steps but
/// the last.
pub fn ifftnd<T: Copy, D: Fn(Vec<T>, bool) -> Vec<T>, S: Fn(T, usize) -> T>(
    input: &mut NdArray<T>,
    output: &mut NdArray<T>,
    axes: &[usize],
    kernel: &Kernel<D, S>,
) -> (r: Result<(), TransformError>)
    requires
        old(input).wf(),
        old(output).wf(),
        kernel_total(*kernel),
    ensures
        final(input).wf(),
        final(output).wf(),
        r == axes_check(old(input)@.shape, old(output)@.shape, ints(axes@)),
        r is Err ==> final(input)@ == old(input)@ && final(output)@ == old(output)@,
        r is Ok ==> chain(
            lane_rel(*kernel, true),
            ints(axes@).drop_last(),
            old(input)@,
            final(input)@,
        ) && lanes_related(
            lane_rel(*kernel, true),
            ints(axes@).last(),
            final(input)@,
            final(output)@,
        ),
        r is Ok ==> chain(lane_rel(*kernel, true), ints(axes@), old(input)@, final(output)@),
{
    _fftnd(input, output, axes, true, kernel)
}

/// The forward transform of a two-dimensional array: along axis 0, then along
/// axis 1.
pub fn fft2<T: Copy, D: Fn(Vec<T>, bool) -> Vec<T>, S: Fn(T, usize) -> T>(
    input: &mut NdArray<T>,
    output: &mut NdArray<T>,
    kernel: &Kernel<D, S>,
) -> (r: Result<(), TransformError>)
    requires
        old(input).wf(),
        old(output).wf(),
        kernel_total(*kernel),
    ensures
        final(input).wf(),
        final(output).wf(),
        r == axes_check(old(input)@.shape, old(output)@.shape, seq![0int, 1int]),
        r is Err ==> final(input)@ == old(input)@ && final(output)@ == old(output)@,
        r is Ok ==> lanes_related(lane_rel(*kernel, false), 0, old(input)@, final(input)@)
            && lanes_related(lane_rel(*kernel, false), 1, final(input)@, final(output)@),
{
    let axes: [usize; 2] = [0, 1];
    let r = fftnd(input, output, axes.as_slice(), kernel);
    proof {
        lemma_chain_pair(lane_rel(*kernel, false), ints(axes@), old(input)@, input@);
        assert(ints(axes@) =~= seq![0int, 1int]);
    }
    r
}

/// The normalized inverse transform of a two-dimensional array: along axis 1,
/// then along axis 0.
pub fn ifft2<T: Copy, D: Fn(Vec<T>, bool) -> Vec<T>, S: Fn(T, usize) -> T>(
    input: &mut NdArray<T>,
    output: &mut NdArray<T>,
    kernel: &Kernel<D, S>,
) -> (r: Result<(), TransformError>)
    requires
        old(input).wf(),
        old(output).wf(),
        kernel_total(*kernel),
    ensures
        final(input).wf(),
        final(output).wf(),
        r == axes_check(old(input)@.shape, old(output)@.shape, seq![1int, 0int]),
        r is Err ==> final(input)@ == old(input)@ && final(output)@ == old(output)@,
        r is Ok ==> lanes_related(lane_rel(*kernel, true), 1, old(input)@, final(input)@)
            && lanes_related(lane_rel(*kernel, true), 0, final(input)@, final(output)@),
{
    let axes: [usize; 2] = [1, 0];
    let r = ifftnd(input, output, axes.as_slice(), kernel);
    proof {
        lemma_chain_pair(lane_rel(*kernel, true), ints(axes@), old(input)@, input@);
        assert(ints(axes@) =~= seq![1int, 0int]);
    }
    r
}

/// With two axes, all steps but the last are the one step along the first.
pub proof fn lemma_chain_pair<T>(
    rel: spec_fn(Seq<T>, Seq<T>) -> bool,
    axes: Seq<int>,
    a: NdSpec<T>,
    b: NdSpec<T>,
)
    requires
        axes.len() == 2,
    ensures
        chain(rel, axes.drop_last(), a, b) <==> lanes_related(rel, axes[0], a, b),
{
    let one = axes.drop_last();
    assert(one.last() == axes[0]);
    assert(one.drop_last().len() == 0);
    if chain(rel, one, a, b) {
        let m = choose|m: NdSpec<T>|
            chain(rel, one.drop_last(), a, m) && lanes_related(rel, one.last(), m, b);
        assert(m == a);
    }
    if lanes_related(rel, axes[0], a, b) {
        assert(chain(rel, one.drop_last(), a, a) && lanes_related(rel, one.last(), a, b));
    }
}

} // verus!
