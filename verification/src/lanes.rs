//! Applying a one-dimensional operation to every lane along one axis.

use vstd::prelude::*;
use crate::array::{NdArray, NdSpec};
use crate::error::TransformError;
use crate::index::{
    in_bounds, is_lane_base, lane_base, lane_count, lane_shape, lemma_in_bounds_positive,
    lemma_in_bounds_swapped, lemma_lane_base_bounds, lemma_lane_count, lemma_ravel_bounds,
    lemma_swapped_twice, lemma_unravel_in_bounds, lemma_unravel_injective, lemma_unravel_ravel,
    on_lane, ravel, swapped,
};

verus! {

/// `f` may answer `y` when it is given `x`.
pub open spec fn maps<T, F: Fn(Vec<T>) -> Vec<T>>(f: F, x: Seq<T>, y: Seq<T>) -> bool {
    exists|l: Vec<T>, r: Vec<T>| l@ == x && r@ == y && call_ensures(f, (l,), r)
}

/// The relation between what `f` is given and what it may answer.
pub open spec fn lane_map<T, F: Fn(Vec<T>) -> Vec<T>>(f: F) -> spec_fn(Seq<T>, Seq<T>) -> bool {
    |x: Seq<T>, y: Seq<T>| maps(f, x, y)
}

/// `b` has the shape of `a`, and each of its lanes along `axis` is related by
/// `rel` to the lane of `a` in the same place. As every element lies on exactly
/// one lane along `axis`, this speaks of every element of `b`.
pub open spec fn lanes_related<T>(
    rel: spec_fn(Seq<T>, Seq<T>) -> bool,
    axis: int,
    a: NdSpec<T>,
    b: NdSpec<T>,
) -> bool {
    &&& b.shape == a.shape
    &&& 0 <= axis < a.shape.len()
    &&& forall|base: Seq<int>| #[trigger]
        is_lane_base(a.shape, axis, base) ==> rel(a.lane(axis, base), b.lane(axis, base))
}

/// What a request to transform along `axis` is answered with, by the shapes of
/// the input and the output alone.
pub open spec fn axis_check(input: Seq<int>, output: Seq<int>, axis: int) -> Result<
    (),
    TransformError,
> {
    if input != output {
        Err(TransformError::ShapeMismatch)
    } else if !(0 <= axis < input.len()) {
        Err(TransformError::InvalidAxis)
    } else {
        Ok(())
    }
}

/// Exchanging two axes twice gives the array back.
pub proof fn lemma_swap_axes_twice<T>(a: NdSpec<T>, x: int, y: int)
    requires
        a.wf(),
        0 <= x < a.shape.len(),
        0 <= y < a.shape.len(),
    ensures
        a.swap_axes(x, y).swap_axes(x, y) == a,
        a.swap_axes(x, y).wf(),
{
    let s = a.swap_axes(x, y);
    let t = s.swap_axes(x, y);
    lemma_swapped_twice(a.shape, x, y);
    assert forall|idx: Seq<int>| in_bounds(a.shape, idx) implies #[trigger] t.elems[idx]
        == a.elems[idx] by {
        lemma_in_bounds_swapped(a.shape, swapped(idx, x, y), x, y);
        lemma_swapped_twice(idx, x, y);
    }
    assert(t.elems =~= a.elems);
}

/// A lane that has been replaced reads as what it was replaced by.
pub proof fn lemma_with_lane_same<T>(a: NdSpec<T>, axis: int, base: Seq<int>, values: Seq<T>)
    requires
        is_lane_base(a.shape, axis, base),
        0 <= axis < a.shape.len(),
        values.len() == a.shape[axis],
    ensures
        a.with_lane(axis, base, values).lane(axis, base) == values,
{
    let b = a.with_lane(axis, base, values);
    assert forall|j: int| 0 <= j < values.len() implies #[trigger] b.lane(axis, base)[j]
        == values[j] by {
        let idx = base.update(axis, j);
        assert(in_bounds(a.shape, idx)) by {
            assert forall|m: int| 0 <= m < idx.len() implies 0 <= #[trigger] idx[m]
                < a.shape[m] by {
                if m != axis {
                    assert(0 <= base[m] < a.shape[m]);
                }
            }
        }
        assert(idx.update(axis, base[axis]) =~= base);
    }
    assert(b.lane(axis, base) =~= values);
}

/// Replacing one lane leaves every other lane along the same axis as it was.
pub proof fn lemma_with_lane_other<T>(
    a: NdSpec<T>,
    axis: int,
    base: Seq<int>,
    values: Seq<T>,
    other: Seq<int>,
)
    requires
        a.wf(),
        0 <= axis < a.shape.len(),
        is_lane_base(a.shape, axis, base),
        is_lane_base(a.shape, axis, other),
        other != base,
    ensures
        a.with_lane(axis, base, values).lane(axis, other) == a.lane(axis, other),
{
    let b = a.with_lane(axis, base, values);
    assert forall|j: int| 0 <= j < a.shape[axis] implies #[trigger] b.lane(axis, other)[j]
        == a.lane(axis, other)[j] by {
        let idx = other.update(axis, j);
        assert(in_bounds(a.shape, idx)) by {
            assert forall|m: int| 0 <= m < idx.len() implies 0 <= #[trigger] idx[m]
                < a.shape[m] by {
                if m != axis {
                    assert(0 <= other[m] < a.shape[m]);
                }
            }
        }
        if on_lane(axis, base, idx) {
            assert(idx.update(axis, base[axis]) =~= other);
        }
    }
    assert(b.lane(axis, other) =~= a.lane(axis, other));
}

/// Lanes along `x` become, once the axes `x` and `y` are exchanged, the lanes
/// along `y`: what holds lane by lane of two arrays holds of the exchanged ones.
pub proof fn lemma_lanes_related_swapped<T>(
    rel: spec_fn(Seq<T>, Seq<T>) -> bool,
    a: NdSpec<T>,
    b: NdSpec<T>,
    x: int,
    y: int,
)
    requires
        a.wf(),
        b.wf(),
        0 <= y < a.shape.len(),
        lanes_related(rel, x, a, b),
    ensures
        lanes_related(rel, y, a.swap_axes(x, y), b.swap_axes(x, y)),
{
    let a2 = a.swap_axes(x, y);
    let b2 = b.swap_axes(x, y);
    lemma_swapped_twice(a.shape, x, y);
    assert forall|base2: Seq<int>| #[trigger] is_lane_base(a2.shape, y, base2) implies rel(
        a2.lane(y, base2),
        b2.lane(y, base2),
    ) by {
        let base = swapped(base2, x, y);
        lemma_in_bounds_swapped(a.shape, base2, x, y);
        assert(is_lane_base(a.shape, x, base));
        assert forall|j: int| 0 <= j < a.shape[x] implies in_bounds(
            a2.shape,
            #[trigger] base2.update(y, j),
        ) && swapped(base2.update(y, j), x, y) == base.update(x, j) by {
            let idx2 = base2.update(y, j);
            assert(swapped(idx2, x, y) =~= base.update(x, j));
            assert forall|m: int| 0 <= m < idx2.len() implies 0 <= #[trigger] idx2[m]
                < a2.shape[m] by {
                if m != y {
                    assert(0 <= base2[m] < a2.shape[m]);
                }
            }
        }
        assert forall|j: int| 0 <= j < a.shape[x] implies #[trigger] a2.lane(y, base2)[j]
            == a.lane(x, base)[j] by {
            let idx2 = base2.update(y, j);
        }
        assert forall|j: int| 0 <= j < a.shape[x] implies #[trigger] b2.lane(y, base2)[j]
            == b.lane(x, base)[j] by {
            let idx2 = base2.update(y, j);
        }
        assert(a2.lane(y, base2) =~= a.lane(x, base));
        assert(b2.lane(y, base2) =~= b.lane(x, base));
    }
}

/// Applies `f` to every lane of `input` along `axis` and stores what it answers
/// as the lane of `output` in the same place.
///
/// The request is refused, and `output` left as it was, when the two shapes
/// differ or `axis` is not an axis of the arrays. Otherwise every element of
/// `output` is written once. The elements of `input` are never changed; its
/// axes are relabelled while the lanes are visited and are back in place on
/// return.
pub fn mutate_lane<T: Copy, F: Fn(Vec<T>) -> Vec<T>>(
    input: &mut NdArray<T>,
    output: &mut NdArray<T>,
    f: &F,
    axis: usize,
) -> (r: Result<(), TransformError>)
    requires
        old(input).wf(),
        old(output).wf(),
        forall|l: Vec<T>|
            axis < old(input)@.shape.len() && l@.len() == old(input)@.shape[axis as int]
                ==> call_requires(*f, (l,)),
        forall|l: Vec<T>, out: Vec<T>|
            axis < old(input)@.shape.len() && l@.len() == old(input)@.shape[axis as int]
                && call_ensures(*f, (l,), out) ==> out@.len() == l@.len(),
    ensures
        final(input).wf(),
        final(output).wf(),
        final(input)@ == old(input)@,
        r == axis_check(old(input)@.shape, old(output)@.shape, axis as int),
        r is Err ==> final(output)@ == old(output)@,
        r is Ok ==> lanes_related(lane_map(*f), axis as int, old(input)@, final(output)@),
{
    if !input.same_shape(output) {
        return Err(TransformError::ShapeMismatch);
    }
    if axis >= input.ndim() {
        return Err(TransformError::InvalidAxis);
    }
    let ghost a0 = input@;
    let ghost b0 = output@;
    let ghost ax = axis as int;
    proof {
        input.lemma_view_wf();
        output.lemma_view_wf();
        lemma_swap_axes_twice(a0, 0, ax);
        lemma_swap_axes_twice(b0, 0, ax);
    }
    input.swap_axes(0, axis);
    output.swap_axes(0, axis);
    let ghost a = input@;
    let ghost sh = a.shape;
    let ghost ls = lane_shape(sh, 0);
    assert(sh[0] == a0.shape[ax]);
    let count = input.lane_count();
    proof {
        lemma_lane_count(sh, 0);
    }
    let mut r: usize = 0;
    while r < count
        invariant
            input.wf(),
            output.wf(),
            input@ == a,
            a.wf(),
            sh == a.shape,
            ls == lane_shape(sh, 0),
            output@.shape == sh,
            sh.len() >= 1,
            count == lane_count(sh, 0),
            r <= count,
            forall|l: Vec<T>| l@.len() == sh[0] ==> call_requires(*f, (l,)),
            forall|l: Vec<T>, out: Vec<T>|
                l@.len() == sh[0] && call_ensures(*f, (l,), out) ==> out@.len() == l@.len(),
            forall|q: int|
                0 <= q < r ==> maps(
                    *f,
                    a.lane(0, #[trigger] lane_base(sh, 0, q)),
                    output@.lane(0, lane_base(sh, 0, q)),
                ),
        decreases count - r,
    {
        let ghost before = output@;
        let ghost base = lane_base(sh, 0, r as int);
        proof {
            output.lemma_view_wf();
        }
        let lane = input.read_lane(r);
        let answer = f(lane);
        output.write_lane(r, &answer);
        proof {
            lemma_lane_count(sh, 0);
            lemma_with_lane_same(before, 0, base, answer@);
            assert forall|q: int| 0 <= q < r + 1 implies maps(
                *f,
                a.lane(0, #[trigger] lane_base(sh, 0, q)),
                output@.lane(0, lane_base(sh, 0, q)),
            ) by {
                let other = lane_base(sh, 0, q);
                if q < r {
                    assert(is_lane_base(sh, 0, other)) by {
                        lemma_unravel_in_bounds(ls, q);
                        lemma_lane_base_bounds(sh, 0, other);
                    }
                    if other == base {
                        lemma_unravel_injective(ls, q, r as int);
                    }
                    lemma_with_lane_other(before, 0, base, answer@, other);
                }
            }
        }
        r += 1;
    }
    proof {
        assert forall|base: Seq<int>| #[trigger] is_lane_base(sh, 0, base) implies lane_map(*f)(
            a.lane(0, base),
            output@.lane(0, base),
        ) by {
            lemma_lane_base_bounds(sh, 0, base);
            lemma_ravel_bounds(ls, base);
            lemma_unravel_ravel(ls, base);
            let q = ravel(ls, base);
            assert(lane_base(sh, 0, q) == base);
            lemma_in_bounds_positive(sh, base);
        }
        assert(lanes_related(lane_map(*f), 0, a, output@));
        output.lemma_view_wf();
        lemma_lanes_related_swapped(lane_map(*f), a, output@, 0, ax);
    }
    input.swap_axes(0, axis);
    output.swap_axes(0, axis);
    Ok(())
}

} // verus!
