use vstd::prelude::*;
use crate::matrix::{Matrix, is_max_pick, is_irreflexive};

verus! {

/// `y` is the rectifier's slope at `x`: `one` where `greater(x, zero)` came
/// out true, `zero` where it came out false.
pub open spec fn is_relu_slope<T, F: Fn(T, T) -> bool>(greater: F, zero: T, one: T, x: T, y: T) -> bool {
    ||| greater.ensures((x, zero), true) && y == one
    ||| greater.ensures((x, zero), false) && y == zero
}

/// Rectified linear unit: elementwise `max(zero, x)`. With a comparison that
/// never puts a value above itself, no element of the result lies below
/// `zero`.
pub fn relu<T: Copy, F: Fn(T, T) -> bool>(m: &Matrix<T>, greater: F, zero: T) -> (r: Matrix<T>)
    requires
        m.wf(),
        forall|x: T, y: T| greater.requires((x, y)),
    ensures
        r.wf(),
        r.same_shape(m),
        forall|i: int, j: int| 0 <= i < m.nrows() && 0 <= j < m.ncols() ==> is_max_pick(greater, zero, m.at(i, j), #[trigger] r.at(i, j)),
        is_irreflexive(greater) ==> forall|i: int, j: int| 0 <= i < m.nrows() && 0 <= j < m.ncols()
            ==> greater.ensures((zero, #[trigger] r.at(i, j)), false),
{
    let r = Matrix::max_of(zero, m, greater);
    proof {
        if is_irreflexive(greater) {
            assert forall|i: int, j: int| 0 <= i < m.nrows() && 0 <= j < m.ncols()
                implies greater.ensures((zero, #[trigger] r.at(i, j)), false) by {
                assert(is_max_pick(greater, zero, m.at(i, j), r.at(i, j)));
                assert(greater.ensures((zero, zero), false));
            }
        }
    }
    r
}

/// Slope of the rectifier, taken at the pre-activation values: `one` where
/// the element is greater than `zero`, else `zero` (so `zero` at `zero`).
pub fn d_relu<T: Copy, F: Fn(T, T) -> bool>(m: &Matrix<T>, greater: F, zero: T, one: T) -> (r: Matrix<T>)
    requires
        m.wf(),
        forall|x: T, y: T| greater.requires((x, y)),
    ensures
        r.wf(),
        r.same_shape(m),
        forall|i: int, j: int| 0 <= i < m.nrows() && 0 <= j < m.ncols() ==> is_relu_slope(greater, zero, one, m.at(i, j), #[trigger] r.at(i, j)),
{
    let greater_ref = &greater;
    let slope = |x: T| -> (y: T)
        ensures
            is_relu_slope(*greater_ref, zero, one, x, y),
    {
        if greater_ref(x, zero) { one } else { zero }
    };
    let r = m.map(slope);
    assert forall|i: int, j: int| 0 <= i < m.nrows() && 0 <= j < m.ncols() implies is_relu_slope(greater, zero, one, m.at(i, j), #[trigger] r.at(i, j)) by {
        assert(slope.ensures((m.at(i, j),), r.at(i, j)));
    }
    r
}

} // verus!
