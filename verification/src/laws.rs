//! What holds of the transforms whatever the kernel computes.

use vstd::prelude::*;
use crate::array::NdSpec;
use crate::index::{
    in_bounds, is_lane_base, lemma_ravel_unravel, lemma_size_sign, lemma_unravel_in_bounds,
    nonneg, size,
};
use crate::lanes::lanes_related;

verus! {

/// `rel` relates each sequence to at most one other.
pub open spec fn single_valued<T>(rel: spec_fn(Seq<T>, Seq<T>) -> bool) -> bool {
    forall|x: Seq<T>, y: Seq<T>, z: Seq<T>| #[trigger] rel(x, y) && #[trigger] rel(x, z) ==> y == z
}

/// A transform along one axis is the one-dimensional operation applied to each
/// lane along that axis on its own: where that operation has one answer for
/// each lane, the lanes of the input fix every element of the output.
pub proof fn lemma_lanes_determine_output<T>(
    rel: spec_fn(Seq<T>, Seq<T>) -> bool,
    axis: int,
    a: NdSpec<T>,
    b: NdSpec<T>,
    c: NdSpec<T>,
)
    requires
        single_valued(rel),
        b.wf(),
        c.wf(),
        lanes_related(rel, axis, a, b),
        lanes_related(rel, axis, a, c),
    ensures
        b == c,
{
    assert forall|idx: Seq<int>| in_bounds(a.shape, idx) implies b.elems[idx] == c.elems[idx] by {
        let base = idx.update(axis, 0);
        assert(is_lane_base(a.shape, axis, base)) by {
            assert forall|m: int| 0 <= m < base.len() implies 0 <= #[trigger] base[m]
                < a.shape[m] by {
                if m != axis {
                    assert(0 <= idx[m] < a.shape[m]);
                } else {
                    assert(0 <= idx[axis] < a.shape[axis]);
                }
            }
        }
        assert(rel(a.lane(axis, base), b.lane(axis, base)));
        assert(rel(a.lane(axis, base), c.lane(axis, base)));
        assert(base.update(axis, idx[axis]) =~= idx);
        assert(0 <= idx[axis] < a.shape[axis]);
        assert(b.lane(axis, base)[idx[axis]] == b.elems[idx]);
        assert(c.lane(axis, base)[idx[axis]] == c.elems[idx]);
    }
    assert(b.elems =~= c.elems);
}

/// An array built from its elements in row-major order gives them back in
/// that order.
pub proof fn lemma_flat_of_from_flat<T>(shape: Seq<int>, flat: Seq<T>)
    requires
        nonneg(shape),
        flat.len() == size(shape),
    ensures
        NdSpec::from_flat(shape, flat).flat() == flat,
{
    let a = NdSpec::from_flat(shape, flat);
    lemma_size_sign(shape);
    assert forall|r: int| 0 <= r < flat.len() implies #[trigger] a.flat()[r] == flat[r] by {
        lemma_unravel_in_bounds(shape, r);
        lemma_ravel_unravel(shape, r);
    }
    assert(a.flat() =~= flat);
}

} // verus!
