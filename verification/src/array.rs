//! A dense N-dimensional array with relabelable axes.
//!
//! `NdArray` stores its elements in one buffer and finds the element of a
//! multi-index through a stride per axis, so that exchanging two axes changes
//! the strides and the shape but moves no element. Contracts speak of the
//! array's view, `NdSpec`: the shape and the element at every multi-index.

use vstd::prelude::*;
use vstd::arithmetic::div_mod::{
    lemma_div_pos_is_pos, lemma_fundamental_div_mod_converse, lemma_mod_bound,
    lemma_multiply_divide_lt,
};
use vstd::arithmetic::mul::lemma_mul_nonnegative;
use crate::index::{
    dot, in_bounds, ints, is_lane_base, lane_base, lane_count, lane_shape, lemma_dot_nonneg,
    lemma_dot_prefix_le, lemma_dot_step, lemma_dot_swapped_strides, lemma_dot_take,
    lemma_in_bounds_positive, lemma_in_bounds_swapped, lemma_lane_base_bounds, lemma_lane_count,
    lemma_offset_of_rank_unfold, lemma_ravel_bounds, lemma_row_major_dot,
    lemma_size_parts_le, lemma_size_sign, lemma_size_skip, lemma_size_swapped, lemma_size_take,
    lemma_swapped_twice, lemma_unravel_in_bounds, lemma_unravel_injective, lemma_unravel_ravel, nonneg, offset_of_rank,
    on_lane, positive, ravel, row_major, size, swapped, unravel,
};

verus! {

/// What an array is, apart from how it is stored: its shape and the element at
/// each multi-index within that shape.
pub struct NdSpec<T> {
    pub shape: Seq<int>,
    pub elems: Map<Seq<int>, T>,
}

impl<T> NdSpec<T> {
    /// The elements are given at the multi-indices of the shape and nowhere else.
    pub open spec fn wf(self) -> bool {
        &&& nonneg(self.shape)
        &&& forall|idx: Seq<int>| #[trigger] self.elems.dom().contains(idx) <==> in_bounds(self.shape, idx)
    }

    /// The element at `idx`.
    pub open spec fn at(self, idx: Seq<int>) -> T {
        self.elems[idx]
    }

    /// The array of shape `shape` whose elements in row-major order are `flat`.
    pub open spec fn from_flat(shape: Seq<int>, flat: Seq<T>) -> NdSpec<T> {
        NdSpec {
            shape,
            elems: Map::new(
                |idx: Seq<int>| in_bounds(shape, idx),
                |idx: Seq<int>| flat[ravel(shape, idx)],
            ),
        }
    }

    /// The elements in row-major order.
    pub open spec fn flat(self) -> Seq<T> {
        Seq::new(size(self.shape) as nat, |r: int| self.elems[unravel(self.shape, r)])
    }

    /// The lane along `axis` through `base`: the elements met when the
    /// coordinate on `axis` runs over its extent and the others stay as in `base`.
    pub open spec fn lane(self, axis: int, base: Seq<int>) -> Seq<T> {
        Seq::new(self.shape[axis] as nat, |j: int| self.elems[base.update(axis, j)])
    }

    /// This array with the lane along `axis` through `base` replaced by `values`.
    pub open spec fn with_lane(self, axis: int, base: Seq<int>, values: Seq<T>) -> NdSpec<T> {
        NdSpec {
            shape: self.shape,
            elems: Map::new(
                |idx: Seq<int>| in_bounds(self.shape, idx),
                |idx: Seq<int>|
                    if on_lane(axis, base, idx) {
                        values[idx[axis]]
                    } else {
                        self.elems[idx]
                    },
            ),
        }
    }

    /// This array with the axes `a` and `b` exchanged: the element at a
    /// multi-index is the one that stood at the multi-index with the two
    /// coordinates exchanged.
    pub open spec fn swap_axes(self, a: int, b: int) -> NdSpec<T> {
        NdSpec {
            shape: swapped(self.shape, a, b),
            elems: Map::new(
                |idx: Seq<int>| in_bounds(swapped(self.shape, a, b), idx),
                |idx: Seq<int>| self.elems[swapped(idx, a, b)],
            ),
        }
    }
}

/// A dense N-dimensional array.
pub struct NdArray<T> {
    data: Vec<T>,
    shape: Vec<usize>,
    strides: Vec<usize>,
}

impl<T> View for NdArray<T> {
    type V = NdSpec<T>;

    closed spec fn view(&self) -> NdSpec<T> {
        NdSpec {
            shape: ints(self.shape@),
            elems: Map::new(
                |idx: Seq<int>| in_bounds(ints(self.shape@), idx),
                |idx: Seq<int>| self.data@[dot(idx, ints(self.strides@))],
            ),
        }
    }
}

impl<T> NdArray<T> {
    /// The storage invariant: the buffer holds exactly as many elements as the
    /// shape has multi-indices, and the strides send distinct multi-indices to
    /// distinct positions within the buffer.
    pub closed spec fn wf(&self) -> bool {
        let shape = ints(self.shape@);
        let strides = ints(self.strides@);
        &&& strides.len() == shape.len()
        &&& size(shape) == self.data@.len()
        &&& forall|idx: Seq<int>|
            in_bounds(shape, idx) ==> 0 <= #[trigger] dot(idx, strides) < self.data@.len()
        &&& forall|i: Seq<int>, j: Seq<int>|
            in_bounds(shape, i) && in_bounds(shape, j) && #[trigger] dot(i, strides)
                == #[trigger] dot(j, strides) ==> i == j
    }

    /// The view of any array gives elements exactly within its shape.
    pub proof fn lemma_view_wf(&self)
        ensures
            self@.wf(),
    {
        let v = self@;
        assert forall|k: int| 0 <= k < v.shape.len() implies 0 <= #[trigger] v.shape[k] by {}
        assert forall|idx: Seq<int>| #[trigger]
            v.elems.dom().contains(idx) <==> in_bounds(v.shape, idx) by {}
    }

    /// Builds the array of shape `shape` from its elements in row-major order.
    /// Fails exactly when the number of elements is not the size of the shape.
    pub fn from_shape_vec(shape: Vec<usize>, data: Vec<T>) -> (r: Option<NdArray<T>>)
        ensures
            r is Some <==> size(ints(shape@)) == data@.len(),
            r matches Some(a) ==> a.wf() && a@ == NdSpec::from_flat(ints(shape@), data@),
    {
        let n = shape.len();
        let ghost sh = ints(shape@);
        assert(nonneg(sh));
        let mut has_zero = false;
        let mut k: usize = 0;
        while k < n
            invariant
                n == shape.len(),
                k <= n,
                has_zero <==> exists|j: int| 0 <= j < k && shape@[j] == 0,
            decreases n - k,
        {
            if shape[k] == 0 {
                has_zero = true;
            }
            k += 1;
        }
        let mut strides: Vec<usize> = Vec::new();
        k = 0;
        while k < n
            invariant
                k <= n,
                strides.len() == k,
            decreases n - k,
        {
            strides.push(0);
            k += 1;
        }
        if has_zero {
            proof {
                let j = choose|j: int| 0 <= j < n && shape@[j] == 0;
                assert(sh[j] == 0);
                lemma_size_sign(sh);
            }
            if data.len() != 0 {
                return None;
            }
            let a = NdArray { data, shape, strides };
            proof {
                assert forall|idx: Seq<int>| !in_bounds(sh, idx) by {
                    if in_bounds(sh, idx) {
                        lemma_in_bounds_positive(sh, idx);
                    }
                }
                assert(a@.elems =~= NdSpec::from_flat(sh, data@).elems);
            }
            return Some(a);
        }
        proof {
            assert forall|j: int| 0 <= j < sh.len() implies 0 < #[trigger] sh[j] by {
                assert(shape@[j] != 0);
            }
            lemma_size_sign(sh);
        }
        let count = data.len();
        let mut total: usize = 1;
        k = 0;
        while k < n
            invariant
                n == shape.len(),
                sh == ints(shape@),
                positive(sh),
                k <= n,
                total == size(sh.take(k as int)),
                count == data@.len(),
            decreases n - k,
        {
            proof {
                lemma_size_take(sh, k as int);
                lemma_size_parts_le(sh, k as int + 1);
            }
            match total.checked_mul(shape[k]) {
                None => {
                    assert(size(sh.take(k as int + 1)) == total * shape@[k as int]);
                    assert(size(sh) > usize::MAX);
                    return None;
                },
                Some(t) => {
                    total = t;
                },
            }
            k += 1;
        }
        assert(sh.take(n as int) =~= sh);
        if total != count {
            return None;
        }
        let mut s: usize = 1;
        k = n;
        proof {
            assert(sh.skip(n as int) =~= Seq::<int>::empty());
        }
        while k > 0
            invariant
                n == shape.len(),
                sh == ints(shape@),
                positive(sh),
                size(sh) <= usize::MAX,
                k <= n,
                strides.len() == n,
                s == size(sh.skip(k as int)),
                forall|m: int| k <= m < n ==> #[trigger] strides@[m] == size(sh.skip(m + 1)),
            decreases k,
        {
            k -= 1;
            strides.set(k, s);
            proof {
                lemma_size_skip(sh, k as int);
                lemma_size_parts_le(sh, k as int);
                assert(shape@[k as int] * s == s * shape@[k as int]) by (nonlinear_arith);
            }
            s = s * shape[k];
        }
        let a = NdArray { data, shape, strides };
        proof {
            let st = ints(a.strides@);
            assert(row_major(sh, st)) by {
                assert forall|m: int| 0 <= m < sh.len() implies #[trigger] st[m] == size(
                    sh.subrange(m + 1, sh.len() as int),
                ) by {
                    assert(st[m] == a.strides@[m]);
                }
            }
            assert forall|idx: Seq<int>| in_bounds(sh, idx) implies 0 <= #[trigger] dot(idx, st)
                < a.data@.len() by {
                lemma_row_major_dot(sh, st, idx);
                lemma_ravel_bounds(sh, idx);
            }
            assert forall|i: Seq<int>, j: Seq<int>|
                in_bounds(sh, i) && in_bounds(sh, j) && #[trigger] dot(i, st) == #[trigger] dot(
                    j,
                    st,
                ) implies i == j by {
                lemma_row_major_dot(sh, st, i);
                lemma_row_major_dot(sh, st, j);
                lemma_unravel_ravel(sh, i);
                lemma_unravel_ravel(sh, j);
            }
            let want = NdSpec::from_flat(sh, data@);
            assert forall|idx: Seq<int>| in_bounds(sh, idx) implies a@.elems[idx]
                == want.elems[idx] by {
                lemma_row_major_dot(sh, st, idx);
            }
            assert(a@.elems =~= want.elems);
        }
        Some(a)
    }

    /// The extents of the axes.
    pub fn shape(&self) -> (r: &Vec<usize>)
        ensures
            ints(r@) == self@.shape,
    {
        &self.shape
    }

    /// The number of axes.
    pub fn ndim(&self) -> (r: usize)
        ensures
            r == self@.shape.len(),
    {
        self.shape.len()
    }

    /// The number of elements.
    pub fn len(&self) -> (r: usize)
        requires
            self.wf(),
        ensures
            r == size(self@.shape),
    {
        self.data.len()
    }

    /// Whether this array and `other` have the same shape.
    pub fn same_shape(&self, other: &NdArray<T>) -> (r: bool)
        ensures
            r == (self@.shape == other@.shape),
    {
        let n = self.shape.len();
        let ghost a = ints(self.shape@);
        let ghost b = ints(other.shape@);
        if other.shape.len() != n {
            assert(a.len() != b.len());
            return false;
        }
        let mut k: usize = 0;
        while k < n
            invariant
                n == self.shape.len(),
                n == other.shape.len(),
                a == ints(self.shape@),
                b == ints(other.shape@),
                k <= n,
                forall|j: int| 0 <= j < k ==> a[j] == b[j],
            decreases n - k,
        {
            if self.shape[k] != other.shape[k] {
                assert(a[k as int] != b[k as int]);
                return false;
            }
            k += 1;
        }
        assert(a =~= b);
        true
    }

    /// Exchanges the axes `a` and `b`. No element moves: only the labels of the
    /// two axes change.
    pub fn swap_axes(&mut self, a: usize, b: usize)
        requires
            old(self).wf(),
            a < old(self)@.shape.len(),
            b < old(self)@.shape.len(),
        ensures
            final(self).wf(),
            final(self)@ == old(self)@.swap_axes(a as int, b as int),
    {
        let ghost sh0 = ints(self.shape@);
        let ghost st0 = ints(self.strides@);
        let extent_a = self.shape[a];
        let extent_b = self.shape[b];
        self.shape.set(a, extent_b);
        self.shape.set(b, extent_a);
        let stride_a = self.strides[a];
        let stride_b = self.strides[b];
        self.strides.set(a, stride_b);
        self.strides.set(b, stride_a);
        proof {
            let ai = a as int;
            let bi = b as int;
            let sh1 = ints(self.shape@);
            let st1 = ints(self.strides@);
            assert(sh1 =~= swapped(sh0, ai, bi));
            assert(st1 =~= swapped(st0, ai, bi));
            lemma_size_swapped(sh0, ai, bi);
            assert forall|idx: Seq<int>| in_bounds(sh1, idx) implies 0 <= #[trigger] dot(idx, st1)
                < self.data@.len() && dot(idx, st1) == dot(swapped(idx, ai, bi), st0) by {
                lemma_in_bounds_swapped(sh0, idx, ai, bi);
                lemma_dot_swapped_strides(idx, st0, ai, bi);
                assert(0 <= dot(swapped(idx, ai, bi), st0) < self.data@.len());
            }
            assert forall|i: Seq<int>, j: Seq<int>|
                in_bounds(sh1, i) && in_bounds(sh1, j) && #[trigger] dot(i, st1) == #[trigger] dot(
                    j,
                    st1,
                ) implies i == j by {
                lemma_in_bounds_swapped(sh0, i, ai, bi);
                lemma_in_bounds_swapped(sh0, j, ai, bi);
                lemma_dot_swapped_strides(i, st0, ai, bi);
                lemma_dot_swapped_strides(j, st0, ai, bi);
                assert(dot(swapped(i, ai, bi), st0) == dot(swapped(j, ai, bi), st0));
                assert(swapped(i, ai, bi) == swapped(j, ai, bi));
                lemma_swapped_twice(i, ai, bi);
                lemma_swapped_twice(j, ai, bi);
            }
            assert(self@.elems =~= old(self)@.swap_axes(ai, bi).elems);
        }
    }
}

impl<T: Copy> NdArray<T> {
    /// The element at `idx`, or nothing where `idx` is not a multi-index of the
    /// array.
    pub fn get(&self, idx: &[usize]) -> (r: Option<T>)
        requires
            self.wf(),
        ensures
            r == if in_bounds(self@.shape, ints(idx@)) {
                Some(self@.at(ints(idx@)))
            } else {
                None
            },
    {
        let n = self.shape.len();
        let ghost sh = ints(self.shape@);
        let ghost st = ints(self.strides@);
        let ghost ix = ints(idx@);
        if idx.len() != n {
            return None;
        }
        let mut k: usize = 0;
        while k < n
            invariant
                n == self.shape.len(),
                n == idx.len(),
                k <= n,
                sh == ints(self.shape@),
                ix == ints(idx@),
                forall|j: int| 0 <= j < k ==> 0 <= #[trigger] ix[j] < sh[j],
            decreases n - k,
        {
            if idx[k] >= self.shape[k] {
                assert(!(ix[k as int] < sh[k as int]));
                return None;
            }
            k += 1;
        }
        assert(in_bounds(sh, ix));
        proof {
            lemma_in_bounds_positive(sh, ix);
            assert(nonneg(st));
        }
        let count = self.data.len();
        let mut off: usize = 0;
        k = 0;
        while k < n
            invariant
                self.wf(),
                count == self.data@.len(),
                n == self.shape.len(),
                n == self.strides.len(),
                n == idx.len(),
                k <= n,
                sh == ints(self.shape@),
                st == ints(self.strides@),
                ix == ints(idx@),
                in_bounds(sh, ix),
                nonneg(ix),
                nonneg(st),
                off == dot(ix.take(k as int), st.take(k as int)),
            decreases n - k,
        {
            proof {
                lemma_dot_take(ix, st, k as int);
                lemma_dot_prefix_le(ix, st, k as int + 1);
                lemma_dot_prefix_le(ix, st, k as int);
                assert(dot(ix, st) < self.data@.len());
                lemma_mul_nonnegative(ix[k as int], st[k as int]);
                assert(ix[k as int] == idx@[k as int]);
                assert(st[k as int] == self.strides@[k as int]);
                assert(off + idx@[k as int] * self.strides@[k as int] <= dot(ix, st));
            }
            off = off + idx[k] * self.strides[k];
            k += 1;
        }
        proof {
            assert(ix.take(n as int) =~= ix);
            assert(st.take(n as int) =~= st);
        }
        Some(self.data[off])
    }

    /// The shape whose ranks `rank_offset` decodes: the array's own, or, for
    /// the lanes along the first axis, the shape of their bases.
    spec fn ranked_shape(&self, lanes: bool) -> Seq<int> {
        if lanes {
            lane_shape(ints(self.shape@), 0)
        } else {
            ints(self.shape@)
        }
    }

    /// The storage position of the multi-index of rank `r`, among all
    /// multi-indices or among the bases of the lanes along the first axis.
    fn rank_offset(&self, r: usize, lanes: bool) -> (off: usize)
        requires
            self.wf(),
            size(ints(self.shape@)) > 0,
            lanes ==> self.shape@.len() >= 1,
            r < size(self.ranked_shape(lanes)),
        ensures
            off == offset_of_rank(self.ranked_shape(lanes), ints(self.strides@), r as int),
            in_bounds(ints(self.shape@), unravel(self.ranked_shape(lanes), r as int)),
            off < self.data@.len(),
    {
        let n = self.shape.len();
        let lead: usize = if lanes { 1 } else { 0 };
        let count = self.data.len();
        let ghost sh = ints(self.shape@);
        let ghost st = ints(self.strides@);
        let ghost rs = self.ranked_shape(lanes);
        let ghost total = offset_of_rank(rs, st, r as int);
        proof {
            lemma_size_sign(sh);
            if lanes {
                lemma_lane_count(sh, 0);
            }
            assert(positive(rs));
            lemma_unravel_in_bounds(rs, r as int);
            let u = unravel(rs, r as int);
            assert forall|j: int| 0 <= j < u.len() implies 0 <= #[trigger] u[j] < sh[j] by {
                assert(0 <= u[j] < rs[j]);
            }
            assert(in_bounds(sh, u));
            assert(0 <= dot(u, st) < self.data@.len());
            assert(rs.take(n as int) =~= rs);
            assert(st.take(n as int) =~= st);
        }
        let mut k: usize = n;
        let mut rem: usize = r;
        let mut off: usize = 0;
        while k > lead
            invariant
                n == self.shape.len(),
                n == self.strides.len(),
                sh == ints(self.shape@),
                st == ints(self.strides@),
                rs.len() == n,
                positive(rs),
                forall|j: int| lead <= j < n ==> rs[j] == #[trigger] sh[j],
                lead <= k <= n,
                0 <= rem < size(rs.take(k as int)),
                total == off + offset_of_rank(rs.take(k as int), st.take(k as int), rem as int),
                total < count,
            decreases k,
        {
            k -= 1;
            let extent = self.shape[k];
            proof {
                let t = rs.take(k as int + 1);
                let u = st.take(k as int + 1);
                let t0 = rs.take(k as int);
                let u0 = st.take(k as int);
                lemma_offset_of_rank_unfold(t, u, rem as int);
                assert(t.drop_last() =~= t0);
                assert(u.drop_last() =~= u0);
                assert(t.last() == rs[k as int]);
                assert(rs[k as int] == sh[k as int]);
                assert(u.last() == st[k as int]);
                assert(extent > 0);
                lemma_size_take(rs, k as int);
                assert(size(t0) * extent == extent * size(t0)) by (nonlinear_arith);
                lemma_multiply_divide_lt(rem as int, extent as int, size(t0));
                lemma_div_pos_is_pos(rem as int, extent as int);
                lemma_mod_bound(rem as int, extent as int);
                assert(positive(t0) && nonneg(t0)) by {
                    assert(forall|j: int| 0 <= j < t0.len() ==> t0[j] == rs[j]);
                }
                lemma_unravel_in_bounds(t0, rem as int / extent as int);
                lemma_in_bounds_positive(t0, unravel(t0, rem as int / extent as int));
                assert(nonneg(u0)) by {
                    assert(forall|j: int| 0 <= j < u0.len() ==> u0[j] == st[j]);
                }
                lemma_dot_nonneg(unravel(t0, rem as int / extent as int), u0);
                lemma_mul_nonnegative(rem as int % extent as int, st[k as int]);
            }
            let digit = rem % extent;
            rem = rem / extent;
            off = off + digit * self.strides[k];
        }
        proof {
            let t = rs.take(k as int);
            let u = st.take(k as int);
            if lanes {
                lemma_offset_of_rank_unfold(t, u, rem as int);
                assert(rs[0] == 1);
                assert(t.last() == 1);
                assert(t.drop_last() =~= Seq::<int>::empty());
                let e = unravel(t.drop_last(), rem as int / t.last());
                assert(e =~= Seq::<int>::empty());
                assert(dot(e, u.drop_last()) == 0);
                assert(offset_of_rank(t.drop_last(), u.drop_last(), rem as int / t.last()) == 0);
                let digit = rem as int % t.last();
                assert(digit == 0);
                assert(digit * u.last() == 0) by (nonlinear_arith)
                    requires
                        digit == 0,
                ;
                assert(offset_of_rank(t, u, rem as int) == 0);
            } else {
                assert(t =~= Seq::<int>::empty());
                let e = unravel(t, rem as int);
                assert(e =~= Seq::<int>::empty());
                assert(dot(e, u) == 0);
                assert(offset_of_rank(t, u, rem as int) == 0);
            }
        }
        off
    }

    /// The number of lanes along the first axis.
    pub fn lane_count(&self) -> (r: usize)
        requires
            self.wf(),
            self@.shape.len() >= 1,
        ensures
            r == lane_count(self@.shape, 0),
    {
        let count = self.data.len();
        if count == 0 {
            0
        } else {
            proof {
                let sh = ints(self.shape@);
                lemma_lane_count(sh, 0);
                lemma_size_sign(sh);
                assert(sh[0] > 0);
                assert(lane_count(sh, 0) * sh[0] == sh[0] * lane_count(sh, 0))
                    by (nonlinear_arith);
                lemma_fundamental_div_mod_converse(count as int, sh[0], lane_count(sh, 0), 0);
            }
            count / self.shape[0]
        }
    }

    /// The elements of the lane of rank `r` along the first axis, in order.
    pub fn read_lane(&self, r: usize) -> (lane: Vec<T>)
        requires
            self.wf(),
            self@.shape.len() >= 1,
            r < lane_count(self@.shape, 0),
        ensures
            is_lane_base(self@.shape, 0, lane_base(self@.shape, 0, r as int)),
            lane@ == self@.lane(0, lane_base(self@.shape, 0, r as int)),
    {
        let ghost sh = ints(self.shape@);
        let ghost st = ints(self.strides@);
        let ghost base = lane_base(sh, 0, r as int);
        proof {
            lemma_size_sign(sh);
            lemma_lane_count(sh, 0);
        }
        let start = self.rank_offset(r, true);
        let extent = self.shape[0];
        let stride = self.strides[0];
        let count = self.data.len();
        proof {
            lemma_unravel_in_bounds(lane_shape(sh, 0), r as int);
            lemma_lane_base_bounds(sh, 0, base);
        }
        let mut lane: Vec<T> = Vec::new();
        let mut j: usize = 0;
        while j < extent
            invariant
                self.wf(),
                sh == ints(self.shape@),
                st == ints(self.strides@),
                self.shape@.len() >= 1,
                extent == sh[0],
                stride == st[0],
                count == self.data@.len(),
                is_lane_base(sh, 0, base),
                start == dot(base, st),
                j <= extent,
                lane@.len() == j,
                forall|i: int| 0 <= i < j ==> #[trigger] lane@[i] == self@.elems[base.update(0, i)],
            decreases extent - j,
        {
            proof {
                let idx = base.update(0, j as int);
                assert(in_bounds(sh, idx)) by {
                    assert forall|m: int| 0 <= m < idx.len() implies 0 <= #[trigger] idx[m]
                        < sh[m] by {
                        if m != 0 {
                            assert(0 <= base[m] < sh[m]);
                        }
                    }
                }
                lemma_dot_step(base, st, 0, j as int);
                assert(0 <= dot(idx, st) < self.data@.len());
                assert(dot(idx, st) == start + j * stride);
                lemma_mul_nonnegative(j as int, stride as int);
            }
            lane.push(self.data[start + j * stride]);
            j += 1;
        }
        assert(lane@ =~= self@.lane(0, base));
        lane
    }

    /// Replaces the lane of rank `r` along the first axis by `values`.
    pub fn write_lane(&mut self, r: usize, values: &Vec<T>)
        requires
            old(self).wf(),
            old(self)@.shape.len() >= 1,
            r < lane_count(old(self)@.shape, 0),
            values@.len() == old(self)@.shape[0],
        ensures
            final(self).wf(),
            final(self)@ == old(self)@.with_lane(
                0,
                lane_base(old(self)@.shape, 0, r as int),
                values@,
            ),
    {
        let ghost sh = ints(self.shape@);
        let ghost st = ints(self.strides@);
        let ghost base = lane_base(sh, 0, r as int);
        proof {
            lemma_size_sign(sh);
            lemma_lane_count(sh, 0);
        }
        let start = self.rank_offset(r, true);
        let extent = self.shape[0];
        let stride = self.strides[0];
        let count = self.data.len();
        proof {
            lemma_unravel_in_bounds(lane_shape(sh, 0), r as int);
            lemma_lane_base_bounds(sh, 0, base);
        }
        let mut j: usize = 0;
        while j < extent
            invariant
                self.wf(),
                self.shape == old(self).shape,
                self.strides == old(self).strides,
                sh == ints(self.shape@),
                st == ints(self.strides@),
                self.shape@.len() >= 1,
                extent == sh[0],
                stride == st[0],
                values@.len() == extent,
                count == self.data@.len(),
                is_lane_base(sh, 0, base),
                start == dot(base, st),
                j <= extent,
                forall|idx: Seq<int>|
                    in_bounds(sh, idx) ==> self.data@[#[trigger] dot(idx, st)] == if on_lane(
                        0,
                        base,
                        idx,
                    ) && idx[0] < j {
                        values@[idx[0]]
                    } else {
                        old(self).data@[dot(idx, st)]
                    },
            decreases extent - j,
        {
            let ghost before = self.data@;
            let ghost target = base.update(0, j as int);
            proof {
                assert(in_bounds(sh, target)) by {
                    assert forall|m: int| 0 <= m < target.len() implies 0 <= #[trigger] target[m]
                        < sh[m] by {
                        if m != 0 {
                            assert(0 <= base[m] < sh[m]);
                        }
                    }
                }
                lemma_dot_step(base, st, 0, j as int);
                assert(0 <= dot(target, st) < self.data@.len());
                assert(dot(target, st) == start + j * stride);
                lemma_mul_nonnegative(j as int, stride as int);
            }
            self.data.set(start + j * stride, values[j]);
            proof {
                assert(self.wf());
                assert forall|idx: Seq<int>| in_bounds(sh, idx) implies self.data@[#[trigger] dot(
                    idx,
                    st,
                )] == if on_lane(0, base, idx) && idx[0] < j + 1 {
                    values@[idx[0]]
                } else {
                    old(self).data@[dot(idx, st)]
                } by {
                    assert(0 <= dot(idx, st) < before.len());
                    if dot(idx, st) == dot(target, st) {
                        assert(idx == target);
                        assert(idx.update(0, base[0]) =~= base);
                    } else {
                        if on_lane(0, base, idx) && idx[0] == j {
                            assert(idx =~= target);
                        }
                    }
                }
            }
            j += 1;
        }
        proof {
            let want = old(self)@.with_lane(0, base, values@);
            assert forall|idx: Seq<int>| in_bounds(sh, idx) implies self@.elems[idx]
                == want.elems[idx] by {
                let _ = dot(idx, st);
                if on_lane(0, base, idx) {
                    assert(0 <= idx[0] < sh[0]);
                }
            }
            assert(self@.elems =~= want.elems);
        }
    }

    /// Copies every element of `other` to the same multi-index of this array.
    pub fn assign(&mut self, other: &NdArray<T>)
        requires
            old(self).wf(),
            other.wf(),
            old(self)@.shape == other@.shape,
        ensures
            final(self).wf(),
            final(self)@ == other@,
    {
        let ghost sh = ints(self.shape@);
        let ghost st = ints(self.strides@);
        let ghost so = ints(other.strides@);
        let count = self.data.len();
        proof {
            lemma_size_sign(sh);
        }
        let mut r: usize = 0;
        while r < count
            invariant
                self.wf(),
                other.wf(),
                self.shape == old(self).shape,
                self.strides == old(self).strides,
                sh == ints(self.shape@),
                sh == ints(other.shape@),
                st == ints(self.strides@),
                so == ints(other.strides@),
                count == self.data@.len(),
                count == size(sh),
                r <= count,
                forall|q: int|
                    0 <= q < r ==> self.data@[dot(#[trigger] unravel(sh, q), st)]
                        == other.data@[dot(unravel(sh, q), so)],
            decreases count - r,
        {
            let from = other.rank_offset(r, false);
            let to = self.rank_offset(r, false);
            let ghost target = unravel(sh, r as int);
            let ghost before = self.data@;
            self.data.set(to, other.data[from]);
            proof {
                assert(self.wf());
                assert forall|q: int| 0 <= q < r + 1 implies self.data@[dot(
                    #[trigger] unravel(sh, q),
                    st,
                )] == other.data@[dot(unravel(sh, q), so)] by {
                    let idx = unravel(sh, q);
                    lemma_unravel_in_bounds(sh, q);
                    assert(0 <= dot(idx, st) < before.len());
                    if q < r {
                        if dot(idx, st) == dot(target, st) {
                            assert(idx == target);
                            lemma_unravel_injective(sh, q, r as int);
                        }
                    }
                }
            }
            r += 1;
        }
        proof {
            assert forall|idx: Seq<int>| in_bounds(sh, idx) implies self@.elems[idx]
                == other@.elems[idx] by {
                lemma_ravel_bounds(sh, idx);
                lemma_unravel_ravel(sh, idx);
                let _ = unravel(sh, ravel(sh, idx));
            }
            assert(self@.elems =~= other@.elems);
        }
    }

    /// The elements in row-major order.
    pub fn to_vec(&self) -> (flat: Vec<T>)
        requires
            self.wf(),
        ensures
            flat@ == self@.flat(),
    {
        let ghost sh = ints(self.shape@);
        let ghost st = ints(self.strides@);
        let count = self.data.len();
        let mut flat: Vec<T> = Vec::new();
        let mut r: usize = 0;
        while r < count
            invariant
                self.wf(),
                sh == ints(self.shape@),
                st == ints(self.strides@),
                count == self.data@.len(),
                count == size(sh),
                r <= count,
                flat@.len() == r,
                forall|q: int| 0 <= q < r ==> #[trigger] flat@[q] == self@.elems[unravel(sh, q)],
            decreases count - r,
        {
            let from = self.rank_offset(r, false);
            flat.push(self.data[from]);
            r += 1;
        }
        assert(flat@ =~= self@.flat());
        flat
    }
}

} // verus!
