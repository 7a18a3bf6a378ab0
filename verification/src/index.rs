//! Index arithmetic of N-dimensional arrays, as mathematics.
//!
//! A shape is a sequence of extents, a multi-index a sequence of coordinates of
//! the same length. Storage positions are dot products of a multi-index with a
//! sequence of strides. Row-major ranks number the multi-indices of a shape, the
//! last axis varying fastest.

use vstd::prelude::*;
use vstd::arithmetic::div_mod::*;
use vstd::arithmetic::mul::*;

verus! {

/// The sequence of machine integers `s` as a sequence of mathematical integers.
pub open spec fn ints(s: Seq<usize>) -> Seq<int> {
    Seq::new(s.len(), |k: int| s[k] as int)
}

/// Every entry of `s` is at least zero.
pub open spec fn nonneg(s: Seq<int>) -> bool {
    forall|k: int| 0 <= k < s.len() ==> 0 <= #[trigger] s[k]
}

/// Every entry of `s` is at least one.
pub open spec fn positive(s: Seq<int>) -> bool {
    forall|k: int| 0 <= k < s.len() ==> 0 < #[trigger] s[k]
}

/// The number of elements of an array of the given shape: the product of its
/// extents (1 for the shape without axes).
pub open spec fn size(shape: Seq<int>) -> int
    decreases shape.len(),
{
    if shape.len() == 0 {
        1
    } else {
        size(shape.drop_last()) * shape.last()
    }
}

/// `idx` names an element of an array of shape `shape`.
pub open spec fn in_bounds(shape: Seq<int>, idx: Seq<int>) -> bool {
    &&& idx.len() == shape.len()
    &&& forall|k: int| 0 <= k < idx.len() ==> 0 <= #[trigger] idx[k] < shape[k]
}

/// The sum of the products of corresponding entries.
pub open spec fn dot(idx: Seq<int>, strides: Seq<int>) -> int
    decreases idx.len(),
{
    if idx.len() == 0 {
        0
    } else {
        dot(idx.drop_last(), strides.drop_last()) + idx.last() * strides.last()
    }
}

/// The row-major rank of `idx` among the multi-indices of `shape`.
pub open spec fn ravel(shape: Seq<int>, idx: Seq<int>) -> int
    decreases shape.len(),
{
    if shape.len() == 0 {
        0
    } else {
        ravel(shape.drop_last(), idx.drop_last()) * shape.last() + idx.last()
    }
}

/// The multi-index of `shape` whose row-major rank is `r`.
pub open spec fn unravel(shape: Seq<int>, r: int) -> Seq<int>
    decreases shape.len(),
{
    if shape.len() == 0 {
        Seq::empty()
    } else {
        unravel(shape.drop_last(), r / shape.last()).push(r % shape.last())
    }
}

/// `s` with the entries at `a` and `b` exchanged.
pub open spec fn swapped(s: Seq<int>, a: int, b: int) -> Seq<int> {
    s.update(a, s[b]).update(b, s[a])
}

/// The storage position of the multi-index of rank `r`.
pub open spec fn offset_of_rank(shape: Seq<int>, strides: Seq<int>, r: int) -> int {
    dot(unravel(shape, r), strides)
}

/// `strides` are the row-major strides of `shape`: each is the product of the
/// extents of the axes behind its own.
pub open spec fn row_major(shape: Seq<int>, strides: Seq<int>) -> bool {
    &&& strides.len() == shape.len()
    &&& forall|k: int|
        0 <= k < shape.len() ==> #[trigger] strides[k] == size(
            shape.subrange(k + 1, shape.len() as int),
        )
}

/// The shape of the lanes' base indices along `axis`: the axis itself is
/// reduced to a single position.
pub open spec fn lane_shape(shape: Seq<int>, axis: int) -> Seq<int> {
    shape.update(axis, 1)
}

/// The number of lanes along `axis` in an array of shape `shape`. An array
/// without elements has no lanes.
pub open spec fn lane_count(shape: Seq<int>, axis: int) -> int {
    if size(shape) == 0 {
        0
    } else {
        size(lane_shape(shape, axis))
    }
}

/// The multi-index at which the lane of rank `r` along `axis` begins: its
/// coordinate on `axis` is zero, the others are those of rank `r` among the
/// remaining axes in row-major order.
pub open spec fn lane_base(shape: Seq<int>, axis: int, r: int) -> Seq<int> {
    unravel(lane_shape(shape, axis), r)
}

/// `base` is the first multi-index of a lane along `axis`.
pub open spec fn is_lane_base(shape: Seq<int>, axis: int, base: Seq<int>) -> bool {
    in_bounds(shape, base) && base[axis] == 0
}

/// `idx` lies on the lane along `axis` that begins at `base`.
pub open spec fn on_lane(axis: int, base: Seq<int>, idx: Seq<int>) -> bool {
    idx.update(axis, base[axis]) == base
}

pub proof fn lemma_size_sign(shape: Seq<int>)
    requires
        nonneg(shape),
    ensures
        size(shape) >= 0,
        size(shape) > 0 <==> positive(shape),
    decreases shape.len(),
{
    if shape.len() > 0 {
        let init = shape.drop_last();
        lemma_size_sign(init);
        assert(forall|k: int| 0 <= k < init.len() ==> init[k] == shape[k]);
        lemma_mul_nonnegative(size(init), shape.last());
        if positive(shape) {
            assert(positive(init));
            lemma_mul_strictly_positive(size(init), shape.last());
        }
        if size(shape) > 0 {
            assert(size(init) != 0 && shape.last() != 0) by (nonlinear_arith)
                requires
                    size(init) * shape.last() > 0,
            ;
            assert forall|k: int| 0 <= k < shape.len() implies 0 < #[trigger] shape[k] by {
                if k < init.len() {
                    assert(init[k] == shape[k]);
                }
            }
        }
    }
}

pub proof fn lemma_in_bounds_positive(shape: Seq<int>, idx: Seq<int>)
    requires
        in_bounds(shape, idx),
    ensures
        positive(shape),
        nonneg(shape),
        nonneg(idx),
        size(shape) > 0,
{
    assert forall|k: int| 0 <= k < shape.len() implies 0 < #[trigger] shape[k] by {
        assert(0 <= idx[k] < shape[k]);
    }
    lemma_size_sign(shape);
}

/// The size is the extent of any one axis times the size of the rest.
pub proof fn lemma_size_factor(shape: Seq<int>, k: int, v: int)
    requires
        0 <= k < shape.len(),
    ensures
        size(shape.update(k, v)) == size(shape.update(k, 1)) * v,
        size(shape) == size(shape.update(k, 1)) * shape[k],
    decreases shape.len(),
{
    let init = shape.drop_last();
    let l = shape.last();
    if k == shape.len() - 1 {
        assert(shape.update(k, v).drop_last() =~= init);
        assert(shape.update(k, 1).drop_last() =~= init);
    } else {
        assert(shape.update(k, v).drop_last() =~= init.update(k, v));
        assert(shape.update(k, 1).drop_last() =~= init.update(k, 1));
        lemma_size_factor(init, k, v);
        let p = size(init.update(k, 1));
        assert((p * v) * l == (p * l) * v) by (nonlinear_arith);
        assert((p * init[k]) * l == (p * l) * shape[k]) by (nonlinear_arith)
            requires
                init[k] == shape[k],
        ;
    }
}

/// Exchanging two extents keeps the size.
pub proof fn lemma_size_swapped(shape: Seq<int>, a: int, b: int)
    requires
        0 <= a < shape.len(),
        0 <= b < shape.len(),
    ensures
        size(swapped(shape, a, b)) == size(shape),
{
    if a != b {
        let x = shape[a];
        let y = shape[b];
        let one = shape.update(a, 1).update(b, 1);
        let p = size(one);
        lemma_size_factor(shape, a, 1);
        lemma_size_factor(shape.update(a, 1), b, 1);
        assert(size(shape) == (p * y) * x);
        let sw = swapped(shape, a, b);
        let m = sw.update(b, 1);
        lemma_size_factor(sw, b, 1);
        lemma_size_factor(m, a, 1);
        assert(m.update(a, 1) =~= one);
        assert(size(sw) == (p * y) * x);
    } else {
        assert(swapped(shape, a, b) =~= shape);
    }
}

/// The size of a shape is the product of the sizes of a prefix and the
/// remaining suffix.
pub proof fn lemma_size_split(shape: Seq<int>, k: int)
    requires
        0 <= k <= shape.len(),
    ensures
        size(shape) == size(shape.take(k)) * size(shape.skip(k)),
    decreases shape.len(),
{
    if k == shape.len() {
        assert(shape.take(k) =~= shape);
        assert(shape.skip(k) =~= Seq::<int>::empty());
    } else {
        let init = shape.drop_last();
        lemma_size_split(init, k);
        assert(init.take(k) =~= shape.take(k));
        assert(shape.skip(k).drop_last() =~= init.skip(k));
        assert(shape.skip(k).last() == shape.last());
        let a = size(shape.take(k));
        let b = size(init.skip(k));
        let l = shape.last();
        assert((a * b) * l == a * (b * l)) by (nonlinear_arith);
    }
}

/// Along positive extents, no prefix and no suffix is larger than the whole.
pub proof fn lemma_size_parts_le(shape: Seq<int>, k: int)
    requires
        positive(shape),
        0 <= k <= shape.len(),
    ensures
        0 < size(shape.take(k)) <= size(shape),
        0 < size(shape.skip(k)) <= size(shape),
{
    let a = shape.take(k);
    let b = shape.skip(k);
    lemma_size_split(shape, k);
    assert(positive(a) && nonneg(a)) by {
        assert(forall|j: int| 0 <= j < a.len() ==> a[j] == shape[j]);
    }
    assert(positive(b) && nonneg(b)) by {
        assert(forall|j: int| 0 <= j < b.len() ==> b[j] == shape[j + k]);
    }
    lemma_size_sign(a);
    lemma_size_sign(b);
    assert(size(a) <= size(a) * size(b) && size(b) <= size(a) * size(b)) by (nonlinear_arith)
        requires
            0 < size(a),
            0 < size(b),
    ;
}

/// The size of a suffix is its first extent times the size of the rest.
pub proof fn lemma_size_skip(shape: Seq<int>, k: int)
    requires
        0 <= k < shape.len(),
    ensures
        size(shape.skip(k)) == shape[k] * size(shape.skip(k + 1)),
{
    let t = shape.skip(k);
    lemma_size_split(t, 1);
    assert(t.skip(1) =~= shape.skip(k + 1));
    let h = t.take(1);
    assert(h.drop_last() =~= Seq::<int>::empty());
    assert(h.last() == shape[k]);
    assert(size(h.drop_last()) == 1);
    assert(size(h) == size(h.drop_last()) * h.last());
    assert(size(h) == shape[k]);
    assert(size(t) == size(h) * size(t.skip(1)));
}

/// The size of a prefix grows by the extent of the axis it takes in.
pub proof fn lemma_size_take(shape: Seq<int>, k: int)
    requires
        0 <= k < shape.len(),
    ensures
        size(shape.take(k + 1)) == size(shape.take(k)) * shape[k],
{
    let t = shape.take(k + 1);
    assert(t.drop_last() =~= shape.take(k));
    assert(t.last() == shape[k]);
}

/// The lanes along an axis partition the elements: their number times their
/// length is the size.
pub proof fn lemma_lane_count(shape: Seq<int>, axis: int)
    requires
        nonneg(shape),
        0 <= axis < shape.len(),
    ensures
        lane_count(shape, axis) * shape[axis] == size(shape),
        nonneg(lane_shape(shape, axis)),
        size(shape) > 0 ==> positive(lane_shape(shape, axis)) && lane_count(shape, axis) > 0,
{
    lemma_size_factor(shape, axis, 1);
    lemma_size_sign(shape);
    let ls = lane_shape(shape, axis);
    assert(nonneg(ls)) by {
        assert forall|k: int| 0 <= k < ls.len() implies 0 <= #[trigger] ls[k] by {
            if k != axis {
                assert(ls[k] == shape[k]);
            }
        }
    }
    lemma_size_sign(ls);
    if size(shape) > 0 {
        assert forall|k: int| 0 <= k < ls.len() implies 0 < #[trigger] ls[k] by {
            if k != axis {
                assert(ls[k] == shape[k]);
            }
        }
    }
}

/// The multi-indices of the lane shape are the lane bases.
pub proof fn lemma_lane_base_bounds(shape: Seq<int>, axis: int, base: Seq<int>)
    requires
        0 <= axis < shape.len(),
        shape[axis] > 0,
    ensures
        in_bounds(lane_shape(shape, axis), base) <==> is_lane_base(shape, axis, base),
{
    let ls = lane_shape(shape, axis);
    if in_bounds(ls, base) {
        assert forall|k: int| 0 <= k < base.len() implies 0 <= #[trigger] base[k] < shape[k] by {
            assert(0 <= base[k] < ls[k]);
        }
        assert(0 <= base[axis] < ls[axis]);
    }
    if is_lane_base(shape, axis, base) {
        assert forall|k: int| 0 <= k < base.len() implies 0 <= #[trigger] base[k] < ls[k] by {
            assert(0 <= base[k] < shape[k]);
        }
    }
}

pub proof fn lemma_ravel_bounds(shape: Seq<int>, idx: Seq<int>)
    requires
        in_bounds(shape, idx),
    ensures
        0 <= ravel(shape, idx) < size(shape),
    decreases shape.len(),
{
    if shape.len() > 0 {
        let s = shape.drop_last();
        let i = idx.drop_last();
        assert(in_bounds(s, i));
        lemma_ravel_bounds(s, i);
        let d = shape.last();
        let x = idx.last();
        assert(0 <= x < d);
        assert(0 <= ravel(s, i) * d + x < size(s) * d) by (nonlinear_arith)
            requires
                0 <= ravel(s, i) < size(s),
                0 <= x < d,
        ;
    }
}

pub proof fn lemma_unravel_len(shape: Seq<int>, r: int)
    ensures
        unravel(shape, r).len() == shape.len(),
    decreases shape.len(),
{
    if shape.len() > 0 {
        lemma_unravel_len(shape.drop_last(), r / shape.last());
    }
}

pub proof fn lemma_unravel_in_bounds(shape: Seq<int>, r: int)
    requires
        nonneg(shape),
        0 <= r < size(shape),
    ensures
        in_bounds(shape, unravel(shape, r)),
    decreases shape.len(),
{
    lemma_unravel_len(shape, r);
    if shape.len() > 0 {
        let s = shape.drop_last();
        let d = shape.last();
        assert(forall|k: int| 0 <= k < s.len() ==> s[k] == shape[k]);
        lemma_size_sign(shape);
        assert(0 < d);
        lemma_size_sign(s);
        lemma_div_pos_is_pos(r, d);
        assert(size(s) * d == d * size(s)) by (nonlinear_arith);
        lemma_multiply_divide_lt(r, d, size(s));
        lemma_unravel_in_bounds(s, r / d);
        lemma_mod_bound(r, d);
        let u = unravel(shape, r);
        assert forall|k: int| 0 <= k < u.len() implies 0 <= #[trigger] u[k] < shape[k] by {
            if k < s.len() {
                assert(u[k] == unravel(s, r / d)[k]);
            }
        }
    }
}

pub proof fn lemma_unravel_ravel(shape: Seq<int>, idx: Seq<int>)
    requires
        in_bounds(shape, idx),
    ensures
        unravel(shape, ravel(shape, idx)) == idx,
    decreases shape.len(),
{
    if shape.len() == 0 {
        assert(unravel(shape, ravel(shape, idx)) =~= idx);
    } else {
        let s = shape.drop_last();
        let i = idx.drop_last();
        let d = shape.last();
        let x = idx.last();
        assert(in_bounds(s, i));
        assert(0 <= x < d);
        lemma_unravel_ravel(s, i);
        let q = ravel(s, i);
        lemma_fundamental_div_mod_converse(q * d + x, d, q, x);
        assert(unravel(shape, ravel(shape, idx)) =~= idx);
    }
}

pub proof fn lemma_ravel_unravel(shape: Seq<int>, r: int)
    requires
        nonneg(shape),
        0 <= r < size(shape),
    ensures
        ravel(shape, unravel(shape, r)) == r,
    decreases shape.len(),
{
    if shape.len() > 0 {
        let s = shape.drop_last();
        let d = shape.last();
        assert(forall|k: int| 0 <= k < s.len() ==> s[k] == shape[k]);
        lemma_size_sign(shape);
        lemma_size_sign(s);
        assert(0 < d);
        lemma_div_pos_is_pos(r, d);
        assert(size(s) * d == d * size(s)) by (nonlinear_arith);
        lemma_multiply_divide_lt(r, d, size(s));
        lemma_ravel_unravel(s, r / d);
        let u = unravel(shape, r);
        assert(u.drop_last() =~= unravel(s, r / d));
        assert(u.last() == r % d);
        lemma_fundamental_div_mod(r, d);
        assert((r / d) * d == d * (r / d)) by (nonlinear_arith);
    } else {
        assert(size(shape) == 1);
    }
}

/// Two ranks below the size that name the same multi-index are the same rank.
pub proof fn lemma_unravel_injective(shape: Seq<int>, r1: int, r2: int)
    requires
        nonneg(shape),
        0 <= r1 < size(shape),
        0 <= r2 < size(shape),
        unravel(shape, r1) == unravel(shape, r2),
    ensures
        r1 == r2,
{
    lemma_ravel_unravel(shape, r1);
    lemma_ravel_unravel(shape, r2);
}

pub proof fn lemma_dot_nonneg(idx: Seq<int>, strides: Seq<int>)
    requires
        idx.len() == strides.len(),
        nonneg(idx),
        nonneg(strides),
    ensures
        0 <= dot(idx, strides),
    decreases idx.len(),
{
    if idx.len() > 0 {
        let i = idx.drop_last();
        let s = strides.drop_last();
        assert(forall|k: int| 0 <= k < i.len() ==> i[k] == idx[k]);
        assert(forall|k: int| 0 <= k < s.len() ==> s[k] == strides[k]);
        lemma_dot_nonneg(i, s);
        lemma_mul_nonnegative(idx.last(), strides.last());
    }
}

/// Replacing the entries at `k` of both sequences replaces one term of the sum.
pub proof fn lemma_dot_update(idx: Seq<int>, strides: Seq<int>, k: int, x: int, y: int)
    requires
        idx.len() == strides.len(),
        0 <= k < idx.len(),
    ensures
        dot(idx.update(k, x), strides.update(k, y)) == dot(idx, strides) - idx[k] * strides[k] + x
            * y,
    decreases idx.len(),
{
    let i2 = idx.update(k, x);
    let s2 = strides.update(k, y);
    if k == idx.len() - 1 {
        assert(i2.drop_last() =~= idx.drop_last());
        assert(s2.drop_last() =~= strides.drop_last());
    } else {
        assert(i2.drop_last() =~= idx.drop_last().update(k, x));
        assert(s2.drop_last() =~= strides.drop_last().update(k, y));
        lemma_dot_update(idx.drop_last(), strides.drop_last(), k, x, y);
    }
}

/// Moving along one axis moves the storage position by that axis' stride.
pub proof fn lemma_dot_step(idx: Seq<int>, strides: Seq<int>, k: int, x: int)
    requires
        idx.len() == strides.len(),
        0 <= k < idx.len(),
    ensures
        dot(idx.update(k, x), strides) == dot(idx, strides) + (x - idx[k]) * strides[k],
{
    lemma_dot_update(idx, strides, k, x, strides[k]);
    assert(strides.update(k, strides[k]) =~= strides);
    assert((x - idx[k]) * strides[k] == x * strides[k] - idx[k] * strides[k])
        by (nonlinear_arith);
}

/// Exchanging the same two positions in both sequences keeps the sum.
pub proof fn lemma_dot_swapped(idx: Seq<int>, strides: Seq<int>, a: int, b: int)
    requires
        idx.len() == strides.len(),
        0 <= a < idx.len(),
        0 <= b < idx.len(),
    ensures
        dot(swapped(idx, a, b), swapped(strides, a, b)) == dot(idx, strides),
{
    let i1 = idx.update(a, idx[b]);
    let s1 = strides.update(a, strides[b]);
    lemma_dot_update(idx, strides, a, idx[b], strides[b]);
    lemma_dot_update(i1, s1, b, idx[a], strides[a]);
}

/// Exchanging two strides has the effect of exchanging the two coordinates.
pub proof fn lemma_dot_swapped_strides(idx: Seq<int>, strides: Seq<int>, a: int, b: int)
    requires
        idx.len() == strides.len(),
        0 <= a < idx.len(),
        0 <= b < idx.len(),
    ensures
        dot(idx, swapped(strides, a, b)) == dot(swapped(idx, a, b), strides),
{
    lemma_dot_swapped(swapped(idx, a, b), strides, a, b);
    lemma_swapped_twice(idx, a, b);
}

/// The sum over the first `k` entries.
pub proof fn lemma_dot_take(idx: Seq<int>, strides: Seq<int>, k: int)
    requires
        idx.len() == strides.len(),
        0 <= k < idx.len(),
    ensures
        dot(idx.take(k + 1), strides.take(k + 1)) == dot(idx.take(k), strides.take(k)) + idx[k]
            * strides[k],
{
    assert(idx.take(k + 1).drop_last() =~= idx.take(k));
    assert(strides.take(k + 1).drop_last() =~= strides.take(k));
}

/// With entries that are not negative, no partial sum exceeds the whole.
pub proof fn lemma_dot_prefix_le(idx: Seq<int>, strides: Seq<int>, k: int)
    requires
        idx.len() == strides.len(),
        nonneg(idx),
        nonneg(strides),
        0 <= k <= idx.len(),
    ensures
        0 <= dot(idx.take(k), strides.take(k)) <= dot(idx, strides),
    decreases idx.len(),
{
    if k == idx.len() {
        assert(idx.take(k) =~= idx);
        assert(strides.take(k) =~= strides);
        lemma_dot_nonneg(idx, strides);
    } else {
        let i = idx.drop_last();
        let s = strides.drop_last();
        assert(forall|j: int| 0 <= j < i.len() ==> i[j] == idx[j]);
        assert(forall|j: int| 0 <= j < s.len() ==> s[j] == strides[j]);
        lemma_dot_prefix_le(i, s, k);
        assert(i.take(k) =~= idx.take(k));
        assert(s.take(k) =~= strides.take(k));
        lemma_mul_nonnegative(idx.last(), strides.last());
    }
}

pub proof fn lemma_swapped_twice(s: Seq<int>, a: int, b: int)
    requires
        0 <= a < s.len(),
        0 <= b < s.len(),
    ensures
        swapped(swapped(s, a, b), a, b) == s,
        swapped(s, a, b).len() == s.len(),
        swapped(s, a, b) == swapped(s, b, a),
{
    assert(swapped(swapped(s, a, b), a, b) =~= s);
    assert(swapped(s, a, b) =~= swapped(s, b, a));
}

pub proof fn lemma_in_bounds_swapped(shape: Seq<int>, idx: Seq<int>, a: int, b: int)
    requires
        0 <= a < shape.len(),
        0 <= b < shape.len(),
        idx.len() == shape.len(),
    ensures
        in_bounds(swapped(shape, a, b), idx) <==> in_bounds(shape, swapped(idx, a, b)),
{
    let sh = swapped(shape, a, b);
    let ix = swapped(idx, a, b);
    if in_bounds(sh, idx) {
        assert forall|k: int| 0 <= k < ix.len() implies 0 <= #[trigger] ix[k] < shape[k] by {
            if k == a {
                assert(0 <= idx[b] < sh[b]);
            } else if k == b {
                assert(0 <= idx[a] < sh[a]);
            } else {
                assert(0 <= idx[k] < sh[k]);
            }
        }
    }
    if in_bounds(shape, ix) {
        assert forall|k: int| 0 <= k < idx.len() implies 0 <= #[trigger] idx[k] < sh[k] by {
            if k == a {
                assert(0 <= ix[b] < shape[b]);
                assert(ix[b] == idx[a]);
            } else if k == b {
                assert(0 <= ix[a] < shape[a]);
                assert(ix[a] == idx[b]);
            } else {
                assert(0 <= ix[k] < shape[k]);
                assert(ix[k] == idx[k]);
            }
        }
    }
}

/// With strides scaled by `c`, the sum is scaled by `c`.
pub proof fn lemma_dot_scaled(idx: Seq<int>, strides: Seq<int>, scaled: Seq<int>, c: int)
    requires
        idx.len() == strides.len(),
        scaled.len() == strides.len(),
        forall|k: int| 0 <= k < strides.len() ==> #[trigger] scaled[k] == strides[k] * c,
    ensures
        dot(idx, scaled) == dot(idx, strides) * c,
    decreases idx.len(),
{
    if idx.len() > 0 {
        lemma_dot_scaled(idx.drop_last(), strides.drop_last(), scaled.drop_last(), c);
        let p = dot(idx.drop_last(), strides.drop_last());
        let x = idx.last();
        let s = strides.last();
        assert(scaled.last() == s * c);
        assert(p * c + x * (s * c) == (p + x * s) * c) by (nonlinear_arith);
    }
}

/// With row-major strides, the storage position of a multi-index is its rank.
pub proof fn lemma_row_major_dot(shape: Seq<int>, strides: Seq<int>, idx: Seq<int>)
    requires
        row_major(shape, strides),
        idx.len() == shape.len(),
    ensures
        dot(idx, strides) == ravel(shape, idx),
    decreases shape.len(),
{
    if shape.len() > 0 {
        let n = shape.len() as int;
        let s = shape.drop_last();
        let d = shape.last();
        let inner = Seq::new(s.len(), |k: int| size(s.subrange(k + 1, n - 1)));
        assert(row_major(s, inner));
        lemma_row_major_dot(s, inner, idx.drop_last());
        assert forall|k: int| 0 <= k < inner.len() implies #[trigger] strides.drop_last()[k]
            == inner[k] * d by {
            let tail = shape.subrange(k + 1, n);
            assert(strides[k] == size(tail));
            assert(tail.drop_last() =~= s.subrange(k + 1, n - 1));
            assert(tail.last() == d);
        }
        lemma_dot_scaled(idx.drop_last(), inner, strides.drop_last(), d);
        assert(shape.subrange(n, n) =~= Seq::<int>::empty());
        assert(strides.last() == 1);
    }
}

/// The storage position of rank `r` splits into that of the leading axes and
/// the contribution of the last axis.
pub proof fn lemma_offset_of_rank_unfold(shape: Seq<int>, strides: Seq<int>, r: int)
    requires
        shape.len() > 0,
        strides.len() == shape.len(),
    ensures
        offset_of_rank(shape, strides, r) == offset_of_rank(
            shape.drop_last(),
            strides.drop_last(),
            r / shape.last(),
        ) + (r % shape.last()) * strides.last(),
{
    let u = unravel(shape, r);
    assert(u.drop_last() =~= unravel(shape.drop_last(), r / shape.last()));
}

} // verus!
