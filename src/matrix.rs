use vstd::prelude::*;

verus! {

/// A dense rectangular grid of values, stored row by row.
///
/// The engine is generic over the element type: what an element operation
/// means (adding two numbers, comparing them) is handed in by the caller as a
/// closure, while the engine owns the shapes, the indexing and the order in
/// which elements are visited.
pub struct Matrix<T> {
    data: Vec<Vec<T>>,
    rows: usize,
    cols: usize,
}

impl<T> Matrix<T> {
    /// Number of rows.
    pub closed spec fn nrows(&self) -> nat {
        self.rows as nat
    }

    /// Number of columns.
    pub closed spec fn ncols(&self) -> nat {
        self.cols as nat
    }

    /// The elements, one sequence per row.
    pub closed spec fn entries(&self) -> Seq<Seq<T>> {
        self.data@.map_values(|r: Vec<T>| r@)
    }

    /// Well-formed: as many rows as recorded, each holding exactly `ncols` elements.
    pub open spec fn wf(&self) -> bool {
        &&& self.entries().len() == self.nrows()
        &&& forall|i: int| 0 <= i < self.nrows() ==> (#[trigger] self.entries()[i]).len() == self.ncols()
    }

    /// The element at row `i`, column `j`.
    pub open spec fn at(&self, i: int, j: int) -> T {
        self.entries()[i][j]
    }

    /// Both matrices have the same number of rows and of columns.
    pub open spec fn same_shape<U>(&self, other: &Matrix<U>) -> bool {
        self.nrows() == other.nrows() && self.ncols() == other.ncols()
    }

    /// Column `j` as a sequence, top to bottom.
    pub open spec fn column(&self, j: int) -> Seq<T> {
        Seq::new(self.nrows(), |k: int| self.at(k, j))
    }

    pub fn rows(&self) -> (r: usize)
        ensures
            r == self.nrows(),
    {
        self.rows
    }

    pub fn cols(&self) -> (r: usize)
        ensures
            r == self.ncols(),
    {
        self.cols
    }
}

impl<T: Copy> Matrix<T> {
    /// A matrix of the given shape whose every element is `x`.
    pub fn fill_with(x: T, rows: usize, cols: usize) -> (r: Matrix<T>)
        ensures
            r.wf(),
            r.nrows() == rows,
            r.ncols() == cols,
            forall|i: int, j: int| 0 <= i < rows && 0 <= j < cols ==> #[trigger] r.at(i, j) == x,
    {
        let mut data: Vec<Vec<T>> = Vec::new();
        let mut i: usize = 0;
        while i < rows
            invariant
                i <= rows,
                data@.len() == i,
                forall|a: int| 0 <= a < i ==> (#[trigger] data@[a])@.len() == cols,
                forall|a: int, b: int| 0 <= a < i && 0 <= b < cols ==> #[trigger] data@[a]@[b] == x,
            decreases rows - i,
        {
            let mut row: Vec<T> = Vec::new();
            let mut j: usize = 0;
            while j < cols
                invariant
                    j <= cols,
                    row@.len() == j,
                    forall|b: int| 0 <= b < j ==> #[trigger] row@[b] == x,
                decreases cols - j,
            {
                row.push(x);
                j = j + 1;
            }
            data.push(row);
            i = i + 1;
        }
        Matrix { data, rows, cols }
    }

    /// A matrix of the given shape filled row by row with values drawn from
    /// `sample`, one call per element (for weights, a Gaussian draw).
    pub fn from_random<F: Fn() -> T>(rows: usize, cols: usize, sample: F) -> (r: Matrix<T>)
        requires
            sample.requires(()),
        ensures
            r.wf(),
            r.nrows() == rows,
            r.ncols() == cols,
            forall|i: int, j: int| 0 <= i < rows && 0 <= j < cols ==> sample.ensures((), #[trigger] r.at(i, j)),
    {
        let mut data: Vec<Vec<T>> = Vec::new();
        let mut i: usize = 0;
        while i < rows
            invariant
                sample.requires(()),
                i <= rows,
                data@.len() == i,
                forall|a: int| 0 <= a < i ==> (#[trigger] data@[a])@.len() == cols,
                forall|a: int, b: int| 0 <= a < i && 0 <= b < cols ==> sample.ensures((), #[trigger] data@[a]@[b]),
            decreases rows - i,
        {
            let mut row: Vec<T> = Vec::new();
            let mut j: usize = 0;
            while j < cols
                invariant
                    sample.requires(()),
                    j <= cols,
                    row@.len() == j,
                    forall|b: int| 0 <= b < j ==> sample.ensures((), #[trigger] row@[b]),
                decreases cols - j,
            {
                row.push(sample());
                j = j + 1;
            }
            data.push(row);
            i = i + 1;
        }
        let r = Matrix { data, rows, cols };
        assert forall|a: int| 0 <= a < r.nrows() implies (#[trigger] r.entries()[a]).len() == r.ncols() by {
            assert(r.entries()[a] == data@[a]@);
        }
        assert forall|a: int, b: int| 0 <= a < rows && 0 <= b < cols implies sample.ensures((), #[trigger] r.at(a, b)) by {
            assert(r.entries()[a] == data@[a]@);
        }
        r
    }

    /// A matrix of one row holding `data`.
    pub fn from_vec(cols: usize, data: Vec<T>) -> (r: Matrix<T>)
        requires
            data@.len() == cols,
        ensures
            r.wf(),
            r.nrows() == 1,
            r.ncols() == cols,
            r.entries() == seq![data@],
    {
        let mut rows_data: Vec<Vec<T>> = Vec::new();
        rows_data.push(data);
        let r = Matrix { data: rows_data, rows: 1, cols };
        assert(r.entries() =~= seq![data@]);
        r
    }

    /// A matrix taken from row-major nested data of `rows` rows of `cols` elements.
    pub fn from_2d_vec(rows: usize, cols: usize, data: Vec<Vec<T>>) -> (r: Matrix<T>)
        requires
            data@.len() == rows,
            forall|i: int| 0 <= i < rows ==> (#[trigger] data@[i])@.len() == cols,
        ensures
            r.wf(),
            r.nrows() == rows,
            r.ncols() == cols,
            forall|i: int, j: int| 0 <= i < rows && 0 <= j < cols ==> #[trigger] r.at(i, j) == data@[i]@[j],
    {
        Matrix { data, rows, cols }
    }

    /// The element at row `i`, column `j`.
    pub fn get(&self, i: usize, j: usize) -> (r: T)
        requires
            self.wf(),
            i < self.nrows(),
            j < self.ncols(),
        ensures
            r == self.at(i as int, j as int),
    {
        assert(self.entries()[i as int] == self.data@[i as int]@);
        self.data[i][j]
    }

    /// Overwrites the element at row `i`, column `j` with `x`.
    pub fn set(&mut self, i: usize, j: usize, x: T)
        requires
            old(self).wf(),
            i < old(self).nrows(),
            j < old(self).ncols(),
        ensures
            final(self).wf(),
            final(self).same_shape(old(self)),
            final(self).entries() == old(self).entries().update(i as int, old(self).entries()[i as int].update(j as int, x)),
    {
        assert(self.entries()[i as int] == self.data@[i as int]@);
        let mut row: Vec<T> = Vec::new();
        std::mem::swap(&mut row, &mut self.data[i]);
        row.set(j, x);
        self.data.set(i, row);
        assert(self.entries() =~= old(self).entries().update(i as int, old(self).entries()[i as int].update(j as int, x)));
    }

    /// The transpose: element `(j, i)` of the result is element `(i, j)` of `self`.
    pub fn transpose(&self) -> (r: Matrix<T>)
        requires
            self.wf(),
        ensures
            r.wf(),
            r.nrows() == self.ncols(),
            r.ncols() == self.nrows(),
            is_transpose(*self, r),
    {
        let mut data: Vec<Vec<T>> = Vec::new();
        let mut y: usize = 0;
        while y < self.cols
            invariant
                self.wf(),
                y <= self.ncols(),
                data@.len() == y,
                forall|a: int| 0 <= a < y ==> (#[trigger] data@[a])@.len() == self.nrows(),
                forall|a: int, b: int| 0 <= a < y && 0 <= b < self.nrows() ==> #[trigger] data@[a]@[b] == self.at(b, a),
            decreases self.ncols() - y,
        {
            let mut row: Vec<T> = Vec::new();
            let mut x: usize = 0;
            while x < self.rows
                invariant
                    self.wf(),
                    y < self.ncols(),
                    x <= self.nrows(),
                    row@.len() == x,
                    forall|b: int| 0 <= b < x ==> #[trigger] row@[b] == self.at(b, y as int),
                decreases self.nrows() - x,
            {
                row.push(self.get(x, y));
                x = x + 1;
            }
            data.push(row);
            y = y + 1;
        }
        let r = Matrix { data, rows: self.cols, cols: self.rows };
        assert forall|a: int| 0 <= a < r.nrows() implies (#[trigger] r.entries()[a]).len() == r.ncols() by {
            assert(r.entries()[a] == data@[a]@);
        }
        assert forall|a: int, b: int| 0 <= a < self.ncols() && 0 <= b < self.nrows() implies #[trigger] r.at(a, b) == self.at(b, a) by {
            assert(r.entries()[a] == data@[a]@);
        }
        assert(is_transpose(*self, r));
        r
    }
}

impl<T: Copy> Matrix<T> {
    /// Applies `f` to every element, giving a matrix of the same shape.
    /// Where `f` hands every value back unchanged, so is the matrix.
    pub fn map<F: Fn(T) -> T>(&self, f: F) -> (r: Matrix<T>)
        requires
            self.wf(),
            forall|x: T| f.requires((x,)),
        ensures
            is_map(*self, f, r),
            (forall|x: T, y: T| f.ensures((x,), y) ==> y == x) ==> r.entries() == self.entries(),
    {
        let mut data: Vec<Vec<T>> = Vec::new();
        let mut x: usize = 0;
        while x < self.rows
            invariant
                self.wf(),
                forall|v: T| f.requires((v,)),
                x <= self.nrows(),
                data@.len() == x,
                forall|a: int| 0 <= a < x ==> (#[trigger] data@[a])@.len() == self.ncols(),
                forall|a: int, b: int| 0 <= a < x && 0 <= b < self.ncols() ==> f.ensures((self.at(a, b),), #[trigger] data@[a]@[b]),
            decreases self.nrows() - x,
        {
            let mut row: Vec<T> = Vec::new();
            let mut y: usize = 0;
            while y < self.cols
                invariant
                    self.wf(),
                    forall|v: T| f.requires((v,)),
                    x < self.nrows(),
                    y <= self.ncols(),
                    row@.len() == y,
                    forall|b: int| 0 <= b < y ==> f.ensures((self.at(x as int, b),), #[trigger] row@[b]),
                decreases self.ncols() - y,
            {
                let v = f(self.get(x, y));
                row.push(v);
                y = y + 1;
            }
            data.push(row);
            x = x + 1;
        }
        let r = Matrix { data, rows: self.rows, cols: self.cols };
        assert forall|a: int| 0 <= a < r.nrows() implies (#[trigger] r.entries()[a]).len() == r.ncols() by {
            assert(r.entries()[a] == data@[a]@);
        }
        assert forall|a: int, b: int| 0 <= a < self.nrows() && 0 <= b < self.ncols() implies f.ensures((self.at(a, b),), #[trigger] r.at(a, b)) by {
            assert(r.entries()[a] == data@[a]@);
        }
        proof {
            if forall|u: T, w: T| f.ensures((u,), w) ==> w == u {
                assert forall|a: int| 0 <= a < r.nrows() implies #[trigger] r.entries()[a] == self.entries()[a] by {
                    assert(r.entries()[a] =~= self.entries()[a]);
                }
                assert(r.entries() =~= self.entries());
            }
        }
        r
    }

    /// An independent copy holding the same elements.
    pub fn duplicate(&self) -> (r: Matrix<T>)
        requires
            self.wf(),
        ensures
            r.wf(),
            r.same_shape(self),
            r.entries() == self.entries(),
    {
        let same = |x: T| -> (y: T)
            ensures
                y == x,
        { x };
        self.map(same)
    }

    /// Combines two matrices of one shape element by element:
    /// element `(i, j)` of the result is `f(self[i][j], other[i][j])`.
    pub fn zip_with<F: Fn(T, T) -> T>(&self, other: &Matrix<T>, f: F) -> (r: Matrix<T>)
        requires
            self.wf(),
            other.wf(),
            self.same_shape(other),
            forall|x: T, y: T| f.requires((x, y)),
        ensures
            is_zip(*self, *other, f, r),
    {
        let mut data: Vec<Vec<T>> = Vec::new();
        let mut x: usize = 0;
        while x < self.rows
            invariant
                self.wf(),
                other.wf(),
                self.same_shape(other),
                forall|u: T, v: T| f.requires((u, v)),
                x <= self.nrows(),
                data@.len() == x,
                forall|a: int| 0 <= a < x ==> (#[trigger] data@[a])@.len() == self.ncols(),
                forall|a: int, b: int| 0 <= a < x && 0 <= b < self.ncols() ==> f.ensures((self.at(a, b), other.at(a, b)), #[trigger] data@[a]@[b]),
            decreases self.nrows() - x,
        {
            let mut row: Vec<T> = Vec::new();
            let mut y: usize = 0;
            while y < self.cols
                invariant
                    self.wf(),
                    other.wf(),
                    self.same_shape(other),
                    forall|u: T, v: T| f.requires((u, v)),
                    x < self.nrows(),
                    y <= self.ncols(),
                    row@.len() == y,
                    forall|b: int| 0 <= b < y ==> f.ensures((self.at(x as int, b), other.at(x as int, b)), #[trigger] row@[b]),
                decreases self.ncols() - y,
            {
                let v = f(self.get(x, y), other.get(x, y));
                row.push(v);
                y = y + 1;
            }
            data.push(row);
            x = x + 1;
        }
        let r = Matrix { data, rows: self.rows, cols: self.cols };
        assert forall|a: int| 0 <= a < r.nrows() implies (#[trigger] r.entries()[a]).len() == r.ncols() by {
            assert(r.entries()[a] == data@[a]@);
        }
        assert forall|a: int, b: int| 0 <= a < self.nrows() && 0 <= b < self.ncols() implies f.ensures((self.at(a, b), other.at(a, b)), #[trigger] r.at(a, b)) by {
            assert(r.entries()[a] == data@[a]@);
        }
        r
    }

    /// In-place update of every element: `self[i][j]` becomes
    /// `f(self[i][j], other[i][j])`. Used for the subtract-assign of a
    /// layer's parameters.
    pub fn zip_assign<F: Fn(T, T) -> T>(&mut self, other: &Matrix<T>, f: F)
        requires
            old(self).wf(),
            other.wf(),
            old(self).same_shape(other),
            forall|x: T, y: T| f.requires((x, y)),
        ensures
            is_zip(*old(self), *other, f, *final(self)),
    {
        let r = self.zip_with(other, f);
        *self = r;
    }

    /// Exact comparison: same shape, and `same` holds of every pair of
    /// corresponding elements.
    pub fn equals<F: Fn(T, T) -> bool>(&self, other: &Matrix<T>, same: F) -> (r: bool)
        requires
            self.wf(),
            other.wf(),
            forall|x: T, y: T| same.requires((x, y)),
        ensures
            r ==> self.same_shape(other),
            r ==> forall|i: int, j: int| 0 <= i < self.nrows() && 0 <= j < self.ncols() ==> #[trigger] same.ensures((self.at(i, j), other.at(i, j)), true),
            !r ==> !self.same_shape(other) || exists|i: int, j: int| 0 <= i < self.nrows() && 0 <= j < self.ncols() && #[trigger] same.ensures((self.at(i, j), other.at(i, j)), false),
    {
        if self.rows != other.rows || self.cols != other.cols {
            return false;
        }
        let mut x: usize = 0;
        while x < self.rows
            invariant
                self.wf(),
                other.wf(),
                self.same_shape(other),
                forall|u: T, v: T| same.requires((u, v)),
                x <= self.nrows(),
                forall|a: int, b: int| 0 <= a < x && 0 <= b < self.ncols() ==> #[trigger] same.ensures((self.at(a, b), other.at(a, b)), true),
            decreases self.nrows() - x,
        {
            let mut y: usize = 0;
            while y < self.cols
                invariant
                    self.wf(),
                    other.wf(),
                    self.same_shape(other),
                    forall|u: T, v: T| same.requires((u, v)),
                    x < self.nrows(),
                    y <= self.ncols(),
                    forall|a: int, b: int| 0 <= a < x && 0 <= b < self.ncols() ==> #[trigger] same.ensures((self.at(a, b), other.at(a, b)), true),
                    forall|b: int| 0 <= b < y ==> #[trigger] same.ensures((self.at(x as int, b), other.at(x as int, b)), true),
                decreases self.ncols() - y,
            {
                if !same(self.get(x, y), other.get(x, y)) {
                    return false;
                }
                y = y + 1;
            }
            x = x + 1;
        }
        true
    }
}

/// `t` is the transpose of `a`: shape swapped, element `(i, j)` of `t` is
/// element `(j, i)` of `a`.
pub open spec fn is_transpose<T>(a: Matrix<T>, t: Matrix<T>) -> bool {
    &&& t.wf()
    &&& t.nrows() == a.ncols()
    &&& t.ncols() == a.nrows()
    &&& forall|i: int, j: int| 0 <= i < a.ncols() && 0 <= j < a.nrows() ==> #[trigger] t.at(i, j) == a.at(j, i)
}

/// Transposing twice gives back the matrix: the transpose of the transpose
/// of `a` has `a`'s shape and elements.
pub proof fn lemma_transpose_twice<T>(a: Matrix<T>, t: Matrix<T>, tt: Matrix<T>)
    requires
        a.wf(),
        is_transpose(a, t),
        is_transpose(t, tt),
    ensures
        tt.same_shape(&a),
        tt.entries() == a.entries(),
{
    assert forall|i: int| 0 <= i < a.nrows() implies #[trigger] tt.entries()[i] == a.entries()[i] by {
        assert forall|j: int| 0 <= j < a.ncols() implies tt.entries()[i][j] == a.entries()[i][j] by {
            assert(tt.at(i, j) == t.at(j, i));
        }
        assert(tt.entries()[i] =~= a.entries()[i]);
    }
    assert(tt.entries() =~= a.entries());
}

/// One step of the scan for a maximum: at position `k` the scan either moved to
/// `k`, because `greater(col[k], best so far)` was true, or stayed, because it
/// was false.
pub open spec fn scan_step<T, F: Fn(T, T) -> bool>(col: Seq<T>, greater: F, best: Seq<int>, k: int) -> bool {
    ||| best[k] == k && greater.ensures((col[k], col[best[k - 1]]), true)
    ||| best[k] == best[k - 1] && greater.ensures((col[k], col[best[k - 1]]), false)
}

/// `best[k]` is the index of the maximum found after looking at `col[0..=k]`,
/// scanning from the top and moving only to a strictly greater value.
pub open spec fn is_max_scan<T, F: Fn(T, T) -> bool>(col: Seq<T>, greater: F, best: Seq<int>) -> bool {
    &&& col.len() > 0
    &&& best.len() == col.len()
    &&& best[0] == 0
    &&& forall|k: int| 0 <= k < col.len() ==> 0 <= #[trigger] best[k] <= k
    &&& forall|k: int| 1 <= k < col.len() ==> #[trigger] scan_step(col, greater, best, k)
}

/// `f` gives one result for each pair of arguments.
pub open spec fn is_function2<A, T, F: Fn(A, T) -> T>(f: F) -> bool {
    forall|x: A, y: T, r1: T, r2: T| #[trigger] f.ensures((x, y), r1) && #[trigger] f.ensures((x, y), r2) ==> r1 == r2
}

/// `f` gives one result for each triple of arguments.
pub open spec fn is_function3<T, F: Fn(T, T, T) -> T>(f: F) -> bool {
    forall|a: T, x: T, y: T, r1: T, r2: T| #[trigger] f.ensures((a, x, y), r1) && #[trigger] f.ensures((a, x, y), r2) ==> r1 == r2
}

/// Two runs of one fold of a function agree step by step.
proof fn lemma_pair_fold_unique<T, F: Fn(T, T, T) -> T>(f: F, start: T, xs: Seq<T>, ys: Seq<T>, acc1: Seq<T>, acc2: Seq<T>, k: int)
    requires
        is_function3(f),
        is_pair_fold(f, start, xs, ys, acc1),
        is_pair_fold(f, start, xs, ys, acc2),
        0 <= k <= xs.len(),
    ensures
        acc1[k] == acc2[k],
    decreases k,
{
    if k > 0 {
        lemma_pair_fold_unique(f, start, xs, ys, acc1, acc2, k - 1);
        assert(f.ensures((acc1[k - 1], xs[k - 1], ys[k - 1]), acc1[k]));
        assert(f.ensures((acc2[k - 1], xs[k - 1], ys[k - 1]), acc2[k]));
    }
}

/// A fold of a function ends in one value only.
pub proof fn lemma_pair_folds_to_unique<T, F: Fn(T, T, T) -> T>(f: F, start: T, xs: Seq<T>, ys: Seq<T>, o1: T, o2: T)
    requires
        is_function3(f),
        pair_folds_to(f, start, xs, ys, o1),
        pair_folds_to(f, start, xs, ys, o2),
    ensures
        o1 == o2,
{
    let acc1 = choose|acc: Seq<T>| #[trigger] is_pair_fold(f, start, xs, ys, acc) && acc.last() == o1;
    let acc2 = choose|acc: Seq<T>| #[trigger] is_pair_fold(f, start, xs, ys, acc) && acc.last() == o2;
    lemma_pair_fold_unique(f, start, xs, ys, acc1, acc2, xs.len() as int);
}

/// Two well-formed matrices of one shape with equal elements have equal entries.
pub proof fn lemma_same_elements<T>(a: Matrix<T>, b: Matrix<T>)
    requires
        a.wf(),
        b.wf(),
        a.same_shape(&b),
        forall|i: int, j: int| 0 <= i < a.nrows() && 0 <= j < a.ncols() ==> #[trigger] a.at(i, j) == b.at(i, j),
    ensures
        a.entries() == b.entries(),
{
    assert forall|i: int| 0 <= i < a.nrows() implies #[trigger] a.entries()[i] == b.entries()[i] by {
        assert forall|j: int| 0 <= j < a.ncols() implies a.entries()[i][j] == b.entries()[i][j] by {
            assert(a.at(i, j) == b.at(i, j));
        }
        assert(a.entries()[i] =~= b.entries()[i]);
    }
    assert(a.entries() =~= b.entries());
}

/// `greater` answers each question exactly one way.
pub open spec fn is_deterministic<T, F: Fn(T, T) -> bool>(greater: F) -> bool {
    forall|x: T, y: T| #[trigger] greater.ensures((x, y), true) != greater.ensures((x, y), false)
}

/// `greater` is transitive.
pub open spec fn is_transitive<T, F: Fn(T, T) -> bool>(greater: F) -> bool {
    forall|x: T, y: T, z: T| #[trigger] greater.ensures((x, y), true) && #[trigger] greater.ensures((y, z), true) ==> greater.ensures((x, z), true)
}

/// From position `a` on, the scan never holds an element that `col[a]`
/// exceeds, and it never lands on `b`, a later row equal to `col[a]`.
proof fn lemma_scan_below_maximum<T, F: Fn(T, T) -> bool>(col: Seq<T>, greater: F, best: Seq<int>, a: int, b: int, k: int)
    requires
        is_max_scan(col, greater, best),
        is_deterministic(greater),
        is_transitive(greater),
        0 <= a < b < col.len(),
        col[a] == col[b],
        forall|i: int| 0 <= i < col.len() ==> greater.ensures((#[trigger] col[i], col[a]), false),
        a <= k < col.len(),
    ensures
        greater.ensures((col[a], col[best[k]]), false),
        k >= b ==> best[k] != b,
    decreases k - a,
{
    if k > a {
        lemma_scan_below_maximum(col, greater, best, a, b, k - 1);
        assert(scan_step(col, greater, best, k));
        let p = best[k - 1];
        if best[k] == k {
            assert(greater.ensures((col[k], col[p]), true));
            if k == b {
                assert(greater.ensures((col[a], col[p]), true));
                assert(false);
            }
            assert(greater.ensures((col[k], col[a]), false));
            if !greater.ensures((col[a], col[k]), false) {
                assert(greater.ensures((col[a], col[k]), true));
                assert(greater.ensures((col[a], col[p]), true));
            }
        }
    } else {
        assert(greater.ensures((col[a], col[a]), false));
        if a > 0 {
            assert(scan_step(col, greater, best, a));
        }
    }
}

/// Among two equal maximal rows, the scan for the maximum never settles on
/// the later one: with a comparison that is deterministic and transitive,
/// and no element greater than the shared value, the row found is not `b`.
pub proof fn lemma_tie_goes_to_lower_row<T, F: Fn(T, T) -> bool>(col: Seq<T>, greater: F, best: Seq<int>, a: int, b: int)
    requires
        is_max_scan(col, greater, best),
        is_deterministic(greater),
        is_transitive(greater),
        0 <= a < b < col.len(),
        col[a] == col[b],
        forall|i: int| 0 <= i < col.len() ==> greater.ensures((#[trigger] col[i], col[a]), false),
    ensures
        best.last() != b,
{
    lemma_scan_below_maximum(col, greater, best, a, b, col.len() - 1);
}

/// `greater` never says a value exceeds itself.
pub open spec fn is_irreflexive<T, F: Fn(T, T) -> bool>(greater: F) -> bool {
    forall|x: T| #[trigger] greater.ensures((x, x), false)
}

/// Not exceeding is transitive too: if `x` does not exceed `y` and `y` does
/// not exceed `z`, then `x` does not exceed `z` (with irreflexivity and
/// transitivity, `greater` is a strict weak order).
pub open spec fn is_negatively_transitive<T, F: Fn(T, T) -> bool>(greater: F) -> bool {
    forall|x: T, y: T, z: T| #[trigger] greater.ensures((x, y), false) && #[trigger] greater.ensures((y, z), false) ==> greater.ensures((x, z), false)
}

/// Up to position `k`, no element exceeds the one the scan holds, and the
/// one it holds exceeds every element before it.
proof fn lemma_scan_holds_first_maximum<T, F: Fn(T, T) -> bool>(col: Seq<T>, greater: F, best: Seq<int>, k: int)
    requires
        is_max_scan(col, greater, best),
        is_deterministic(greater),
        is_transitive(greater),
        is_irreflexive(greater),
        is_negatively_transitive(greater),
        0 <= k < col.len(),
    ensures
        forall|i: int| 0 <= i <= k ==> #[trigger] greater.ensures((col[i], col[best[k]]), false),
        forall|i: int| 0 <= i < best[k] ==> #[trigger] greater.ensures((col[best[k]], col[i]), true),
    decreases k,
{
    if k > 0 {
        lemma_scan_holds_first_maximum(col, greater, best, k - 1);
        assert(scan_step(col, greater, best, k));
        let b = best[k - 1];
        assert(0 <= b <= k - 1);
        if best[k] == k {
            assert(greater.ensures((col[k], col[b]), true));
            assert forall|i: int| 0 <= i <= k implies #[trigger] greater.ensures((col[i], col[k]), false) by {
                assert(greater.ensures((col[k], col[k]), false));
                if i < k && !greater.ensures((col[i], col[k]), false) {
                    assert(greater.ensures((col[i], col[k]), true));
                    assert(greater.ensures((col[i], col[b]), false));
                    assert(greater.ensures((col[i], col[b]), true));
                }
            }
            assert forall|i: int| 0 <= i < k implies #[trigger] greater.ensures((col[k], col[i]), true) by {
                assert(greater.ensures((col[i], col[b]), false));
                if !greater.ensures((col[k], col[i]), true) {
                    assert(greater.ensures((col[k], col[i]), false));
                    assert(greater.ensures((col[k], col[b]), false));
                }
            }
        }
    } else {
        assert(greater.ensures((col[0], col[0]), false));
    }
}

/// The scan for the maximum ends on the lowest row that no other row
/// exceeds, for a comparison that is a strict weak order answering each
/// question one way: no row exceeds the row found, and the row found exceeds
/// every row above it. So among equal maxima the first wins.
pub proof fn lemma_scan_finds_first_maximum<T, F: Fn(T, T) -> bool>(col: Seq<T>, greater: F, best: Seq<int>)
    requires
        is_max_scan(col, greater, best),
        is_deterministic(greater),
        is_transitive(greater),
        is_irreflexive(greater),
        is_negatively_transitive(greater),
    ensures
        0 <= best.last() < col.len(),
        forall|i: int| 0 <= i < col.len() ==> #[trigger] greater.ensures((col[i], col[best.last()]), false),
        forall|i: int| 0 <= i < best.last() ==> #[trigger] greater.ensures((col[best.last()], col[i]), true),
        forall|i: int| 0 <= i < best.last() ==> !greater.ensures((col[best.last()], col[i]), false),
{
    lemma_scan_holds_first_maximum(col, greater, best, col.len() - 1);
    assert forall|i: int| 0 <= i < best.last() implies !greater.ensures((col[best.last()], col[i]), false) by {
        assert(greater.ensures((col[best.last()], col[i]), true));
    }
}

/// A one-hot column pattern: `one` at `(hot, 0)`, `zero` everywhere else.
pub open spec fn one_hot_at<T>(m: Matrix<T>, hot: int, zero: T, one: T) -> bool {
    forall|i: int, j: int| 0 <= i < m.nrows() && 0 <= j < m.ncols() ==> #[trigger] m.at(i, j) == (if i == hot && j == 0 { one } else { zero })
}

impl<T: Copy> Matrix<T> {
    /// A `rows x cols` matrix of `zero` but for `one` at row `hot`, column 0.
    pub fn one_hot_encode(rows: usize, cols: usize, hot: usize, zero: T, one: T) -> (r: Matrix<T>)
        requires
            hot < rows,
            0 < cols,
        ensures
            r.wf(),
            r.nrows() == rows,
            r.ncols() == cols,
            one_hot_at(r, hot as int, zero, one),
    {
        let mut r = Matrix::fill_with(zero, rows, cols);
        let ghost r0 = r;
        r.set(hot, 0, one);
        assert forall|i: int, j: int| 0 <= i < r.nrows() && 0 <= j < r.ncols() implies #[trigger] r.at(i, j) == (if i == hot && j == 0 { one } else { zero }) by {
            assert(r0.at(i, j) == zero);
            if i == hot {
                assert(r.entries()[i] == r0.entries()[i].update(0, one));
            } else {
                assert(r.entries()[i] == r0.entries()[i]);
            }
        }
        r
    }

    /// The row of the largest element of column 0; among equal maxima the
    /// first (lowest) row wins, since the scan moves only on `greater`.
    pub fn index_of_maximum<F: Fn(T, T) -> bool>(&self, greater: F) -> (r: usize)
        requires
            self.wf(),
            0 < self.nrows(),
            0 < self.ncols(),
            forall|x: T, y: T| greater.requires((x, y)),
        ensures
            r < self.nrows(),
            exists|best: Seq<int>| #[trigger] is_max_scan(self.column(0), greater, best) && best.last() == r,
            forall|k: int| r < k < self.nrows() ==> greater.ensures((#[trigger] self.at(k, 0), self.at(r as int, 0)), false),
    {
        let ghost col = self.column(0);
        let mut maximum = self.get(0, 0);
        let mut max_row_index: usize = 0;
        let ghost mut best: Seq<int> = seq![0int];
        let mut x: usize = 1;
        while x < self.rows
            invariant
                self.wf(),
                0 < self.nrows(),
                0 < self.ncols(),
                col == self.column(0),
                forall|u: T, v: T| greater.requires((u, v)),
                1 <= x <= self.nrows(),
                best.len() == x,
                best[0] == 0,
                forall|k: int| 0 <= k < x ==> 0 <= #[trigger] best[k] <= k,
                forall|k: int| 1 <= k < x ==> #[trigger] scan_step(col, greater, best, k),
                max_row_index < x,
                best.last() == max_row_index,
                maximum == col[max_row_index as int],
                forall|k: int| max_row_index < k < x ==> greater.ensures((#[trigger] col[k], col[max_row_index as int]), false),
            decreases self.nrows() - x,
        {
            let v = self.get(x, 0);
            let ghost prev = best;
            if greater(v, maximum) {
                maximum = v;
                max_row_index = x;
            }
            proof {
                best = best.push(max_row_index as int);
                assert forall|k: int| 1 <= k < x + 1 implies #[trigger] scan_step(col, greater, best, k) by {
                    if k < x {
                        assert(scan_step(col, greater, prev, k));
                    }
                }
            }
            x = x + 1;
        }
        assert(is_max_scan(col, greater, best));
        assert forall|k: int| max_row_index < k < self.nrows() implies greater.ensures((#[trigger] self.at(k, 0), self.at(max_row_index as int, 0)), false) by {
            assert(col[k] == self.at(k, 0));
        }
        max_row_index
    }

    /// A matrix of `self`'s shape holding `zero` everywhere but for `one` at
    /// row `index_of_maximum`, column 0.
    pub fn one_hot_encode_by_maximum<F: Fn(T, T) -> bool>(m: &Matrix<T>, greater: F, zero: T, one: T) -> (r: Matrix<T>)
        requires
            m.wf(),
            0 < m.nrows(),
            0 < m.ncols(),
            forall|x: T, y: T| greater.requires((x, y)),
        ensures
            r.wf(),
            r.same_shape(m),
            exists|best: Seq<int>| #[trigger] is_max_scan(m.column(0), greater, best) && one_hot_at(r, best.last(), zero, one),
    {
        let hot = m.index_of_maximum(greater);
        let r = Matrix::one_hot_encode(m.rows, m.cols, hot, zero, one);
        r
    }
}

/// `acc` is the run of a left fold of `f` over the pairs `(xs[k], ys[k])`,
/// starting from `start`: `acc[k + 1] == f(acc[k], xs[k], ys[k])`.
pub open spec fn is_pair_fold<T, F: Fn(T, T, T) -> T>(f: F, start: T, xs: Seq<T>, ys: Seq<T>, acc: Seq<T>) -> bool {
    &&& xs.len() == ys.len()
    &&& acc.len() == xs.len() + 1
    &&& acc[0] == start
    &&& forall|k: int| 0 <= k < xs.len() ==> f.ensures((#[trigger] acc[k], xs[k], ys[k]), acc[k + 1])
}

/// `out` is what the left fold of `f` over the pairs of `xs` and `ys` ends with.
pub open spec fn pair_folds_to<T, F: Fn(T, T, T) -> T>(f: F, start: T, xs: Seq<T>, ys: Seq<T>, out: T) -> bool {
    exists|acc: Seq<T>| #[trigger] is_pair_fold(f, start, xs, ys, acc) && acc.last() == out
}

impl<T: Copy> Matrix<T> {
    /// Matrix product: element `(i, j)` is row `i` of `self` and column `j` of
    /// `other` accumulated from `zero` with `mul_add(acc, a, b)` (for numbers,
    /// `acc + a * b`), in order of `k`.
    pub fn dot_product<F: Fn(T, T, T) -> T>(&self, other: &Matrix<T>, zero: T, mul_add: &F) -> (r: Matrix<T>)
        requires
            self.wf(),
            other.wf(),
            self.ncols() == other.nrows(),
            forall|a: T, x: T, y: T| mul_add.requires((a, x, y)),
        ensures
            is_product(*self, *other, zero, *mul_add, r),
    {
        let mut data: Vec<Vec<T>> = Vec::new();
        let mut i: usize = 0;
        while i < self.rows
            invariant
                self.wf(),
                other.wf(),
                self.ncols() == other.nrows(),
                forall|a: T, x: T, y: T| mul_add.requires((a, x, y)),
                i <= self.nrows(),
                data@.len() == i,
                forall|a: int| 0 <= a < i ==> (#[trigger] data@[a])@.len() == other.ncols(),
                forall|a: int, b: int| 0 <= a < i && 0 <= b < other.ncols() ==> pair_folds_to(*mul_add, zero, self.entries()[a], other.column(b), #[trigger] data@[a]@[b]),
            decreases self.nrows() - i,
        {
            let mut row: Vec<T> = Vec::new();
            let mut j: usize = 0;
            while j < other.cols
                invariant
                    self.wf(),
                    other.wf(),
                    self.ncols() == other.nrows(),
                    forall|a: T, x: T, y: T| mul_add.requires((a, x, y)),
                    i < self.nrows(),
                    j <= other.ncols(),
                    row@.len() == j,
                    forall|b: int| 0 <= b < j ==> pair_folds_to(*mul_add, zero, self.entries()[i as int], other.column(b), #[trigger] row@[b]),
                decreases other.ncols() - j,
            {
                let ghost xs = self.entries()[i as int];
                let ghost ys = other.column(j as int);
                let mut acc = zero;
                let ghost mut trace: Seq<T> = seq![zero];
                let mut k: usize = 0;
                while k < other.rows
                    invariant
                        self.wf(),
                        other.wf(),
                        self.ncols() == other.nrows(),
                        forall|a: T, x: T, y: T| mul_add.requires((a, x, y)),
                        i < self.nrows(),
                        j < other.ncols(),
                        xs == self.entries()[i as int],
                        ys == other.column(j as int),
                        k <= other.nrows(),
                        trace.len() == k + 1,
                        trace[0] == zero,
                        trace.last() == acc,
                        forall|c: int| 0 <= c < k ==> mul_add.ensures((#[trigger] trace[c], xs[c], ys[c]), trace[c + 1]),
                    decreases other.nrows() - k,
                {
                    let ghost prev = trace;
                    acc = mul_add(acc, self.get(i, k), other.get(k, j));
                    proof {
                        trace = trace.push(acc);
                        assert forall|c: int| 0 <= c < k + 1 implies mul_add.ensures((#[trigger] trace[c], xs[c], ys[c]), trace[c + 1]) by {
                            if c < k {
                                assert(trace[c] == prev[c] && trace[c + 1] == prev[c + 1]);
                            }
                        }
                    }
                    k = k + 1;
                }
                assert(is_pair_fold(*mul_add, zero, xs, ys, trace));
                row.push(acc);
                j = j + 1;
            }
            data.push(row);
            i = i + 1;
        }
        let r = Matrix { data, rows: self.rows, cols: other.cols };
        assert forall|a: int| 0 <= a < r.nrows() implies (#[trigger] r.entries()[a]).len() == r.ncols() by {
            assert(r.entries()[a] == data@[a]@);
        }
        assert forall|a: int, b: int| 0 <= a < self.nrows() && 0 <= b < other.ncols() implies pair_folds_to(*mul_add, zero, self.entries()[a], other.column(b), #[trigger] r.at(a, b)) by {
            assert(r.entries()[a] == data@[a]@);
        }
        r
    }
}

/// `r` is `a` with `f` applied to every element.
pub open spec fn is_map<T, F: Fn(T) -> T>(a: Matrix<T>, f: F, r: Matrix<T>) -> bool {
    &&& r.wf()
    &&& r.same_shape(&a)
    &&& forall|i: int, j: int| 0 <= i < a.nrows() && 0 <= j < a.ncols() ==> f.ensures((a.at(i, j),), #[trigger] r.at(i, j))
}

/// `r` is `activate(kind, .)` applied to every element of `h`.
pub open spec fn is_tagged_map<T, K, AC: Fn(K, T) -> T>(h: Matrix<T>, activate: AC, kind: K, r: Matrix<T>) -> bool {
    &&& r.wf()
    &&& r.same_shape(&h)
    &&& forall|i: int, j: int| 0 <= i < h.nrows() && 0 <= j < h.ncols() ==> activate.ensures((kind, h.at(i, j)), #[trigger] r.at(i, j))
}

/// `r` combines `a` and `b`, of one shape, element by element with `f`.
pub open spec fn is_zip<T, F: Fn(T, T) -> T>(a: Matrix<T>, b: Matrix<T>, f: F, r: Matrix<T>) -> bool {
    &&& r.wf()
    &&& r.same_shape(&a)
    &&& forall|i: int, j: int| 0 <= i < a.nrows() && 0 <= j < a.ncols() ==> f.ensures((a.at(i, j), b.at(i, j)), #[trigger] r.at(i, j))
}

/// `r` is `a` with every element multiplied by `k` through `f`.
pub open spec fn is_scaled<T, F: Fn(T, T) -> T>(a: Matrix<T>, k: T, f: F, r: Matrix<T>) -> bool {
    &&& r.wf()
    &&& r.same_shape(&a)
    &&& forall|i: int, j: int| 0 <= i < a.nrows() && 0 <= j < a.ncols() ==> f.ensures((a.at(i, j), k), #[trigger] r.at(i, j))
}

/// `r` is the product of `a` and `b`, each element accumulated from `zero`
/// with `mul_add`.
pub open spec fn is_product<T, F: Fn(T, T, T) -> T>(a: Matrix<T>, b: Matrix<T>, zero: T, mul_add: F, r: Matrix<T>) -> bool {
    &&& r.wf()
    &&& r.nrows() == a.nrows()
    &&& r.ncols() == b.ncols()
    &&& forall|i: int, j: int| 0 <= i < a.nrows() && 0 <= j < b.ncols() ==> pair_folds_to(mul_add, zero, a.entries()[i], b.column(j), #[trigger] r.at(i, j))
}

/// `r` has `a`'s shape, and each row holds, throughout, the sum of that row of `a`.
pub open spec fn is_row_sums<T, F: Fn(T, T) -> T>(a: Matrix<T>, zero: T, plus: F, r: Matrix<T>) -> bool {
    &&& r.wf()
    &&& r.same_shape(&a)
    &&& forall|i: int, j: int| 0 <= i < a.nrows() && 0 <= j < a.ncols() ==> folds_to(plus, zero, a.entries()[i], #[trigger] r.at(i, j))
}

/// `y` is `max(val, x)` as `greater` decides it: `val` where `greater(val, x)`
/// came out true, `x` where it came out false.
pub open spec fn is_max_pick<T, F: Fn(T, T) -> bool>(greater: F, val: T, x: T, y: T) -> bool {
    ||| greater.ensures((val, x), true) && y == val
    ||| greater.ensures((val, x), false) && y == x
}

/// `acc` is the run of a left fold of `f` over `xs` from `start`:
/// `acc[k + 1] == f(acc[k], xs[k])`.
pub open spec fn is_fold<T, F: Fn(T, T) -> T>(f: F, start: T, xs: Seq<T>, acc: Seq<T>) -> bool {
    &&& acc.len() == xs.len() + 1
    &&& acc[0] == start
    &&& forall|k: int| 0 <= k < xs.len() ==> f.ensures((#[trigger] acc[k], xs[k]), acc[k + 1])
}

/// `out` is what the left fold of `f` over `xs` from `start` ends with.
pub open spec fn folds_to<T, F: Fn(T, T) -> T>(f: F, start: T, xs: Seq<T>, out: T) -> bool {
    exists|acc: Seq<T>| #[trigger] is_fold(f, start, xs, acc) && acc.last() == out
}

/// The rows of a grid laid end to end, first row first.
pub open spec fn row_major<T>(s: Seq<Seq<T>>) -> Seq<T>
    decreases s.len(),
{
    if s.len() == 0 {
        Seq::empty()
    } else {
        row_major(s.drop_last()) + s.last()
    }
}

/// Folding over `xs + ys` is folding over `xs`, then over `ys` from where that ended.
proof fn lemma_folds_to_append<T, F: Fn(T, T) -> T>(f: F, start: T, xs: Seq<T>, mid: T, ys: Seq<T>, out: T)
    requires
        folds_to(f, start, xs, mid),
        folds_to(f, mid, ys, out),
    ensures
        folds_to(f, start, xs + ys, out),
{
    let a1 = choose|acc: Seq<T>| #[trigger] is_fold(f, start, xs, acc) && acc.last() == mid;
    let a2 = choose|acc: Seq<T>| #[trigger] is_fold(f, mid, ys, acc) && acc.last() == out;
    let acc = a1 + a2.drop_first();
    let zs = xs + ys;
    assert forall|k: int| 0 <= k < zs.len() implies f.ensures((#[trigger] acc[k], zs[k]), acc[k + 1]) by {
        if k < xs.len() {
            assert(acc[k] == a1[k] && zs[k] == xs[k]);
            if k + 1 < a1.len() {
                assert(acc[k + 1] == a1[k + 1]);
            }
        } else {
            let m = k - xs.len();
            assert(zs[k] == ys[m]);
            assert(acc[k + 1] == a2[m + 1]);
            if m == 0 {
                assert(acc[k] == a1.last());
            } else {
                assert(acc[k] == a2[m]);
            }
            assert(f.ensures((a2[m], ys[m]), a2[m + 1]));
        }
    }
    assert(is_fold(f, start, zs, acc));
}

impl<T: Copy> Matrix<T> {
    /// Multiplies every element by `scalar`: element `(i, j)` of the result is
    /// `scale(self[i][j], scalar)`.
    pub fn apply_scalar<F: Fn(T, T) -> T>(m: &Matrix<T>, scalar: T, scale: F) -> (r: Matrix<T>)
        requires
            m.wf(),
            forall|x: T, y: T| scale.requires((x, y)),
        ensures
            is_scaled(*m, scalar, scale, r),
            (forall|x: T, y: T| scale.ensures((x, scalar), y) ==> y == x) ==> r.entries() == m.entries(),
    {
        let scale_ref = &scale;
        let by_scalar = |x: T| -> (y: T)
            ensures
                scale_ref.ensures((x, scalar), y),
        { scale_ref(x, scalar) };
        let r = m.map(by_scalar);
        proof {
            if forall|x: T, y: T| scale.ensures((x, scalar), y) ==> y == x {
                assert forall|i: int| 0 <= i < m.nrows() implies #[trigger] r.entries()[i] == m.entries()[i] by {
                    assert forall|j: int| 0 <= j < m.ncols() implies r.entries()[i][j] == m.entries()[i][j] by {
                        assert(by_scalar.ensures((m.at(i, j),), r.at(i, j)));
                    }
                    assert(r.entries()[i] =~= m.entries()[i]);
                }
                assert(r.entries() =~= m.entries());
            }
        }
        r
    }

    /// Elementwise `max(val, m[i][j])`: `val` where `greater(val, m[i][j])`,
    /// else the element itself.
    pub fn max_of<F: Fn(T, T) -> bool>(val: T, m: &Matrix<T>, greater: F) -> (r: Matrix<T>)
        requires
            m.wf(),
            forall|x: T, y: T| greater.requires((x, y)),
        ensures
            r.wf(),
            r.same_shape(m),
            forall|i: int, j: int| 0 <= i < m.nrows() && 0 <= j < m.ncols() ==> is_max_pick(greater, val, m.at(i, j), #[trigger] r.at(i, j)),
    {
        let greater_ref = &greater;
        let pick = |x: T| -> (y: T)
            ensures
                is_max_pick(*greater_ref, val, x, y),
        {
            if greater_ref(val, x) { val } else { x }
        };
        let r = m.map(pick);
        assert forall|i: int, j: int| 0 <= i < m.nrows() && 0 <= j < m.ncols() implies is_max_pick(greater, val, m.at(i, j), #[trigger] r.at(i, j)) by {
            assert(pick.ensures((m.at(i, j),), r.at(i, j)));
        }
        r
    }

    /// Left fold of `plus` over row `i`, starting from `start`.
    fn fold_row<F: Fn(T, T) -> T>(&self, i: usize, start: T, plus: &F) -> (t: T)
        requires
            self.wf(),
            i < self.nrows(),
            forall|x: T, y: T| plus.requires((x, y)),
        ensures
            folds_to(*plus, start, self.entries()[i as int], t),
    {
        let ghost xs = self.entries()[i as int];
        let mut total = start;
        let ghost mut trace: Seq<T> = seq![start];
        let mut y: usize = 0;
        while y < self.cols
            invariant
                self.wf(),
                i < self.nrows(),
                forall|a: T, b: T| plus.requires((a, b)),
                xs == self.entries()[i as int],
                y <= self.ncols(),
                trace.len() == y + 1,
                trace[0] == start,
                trace.last() == total,
                forall|c: int| 0 <= c < y ==> plus.ensures((#[trigger] trace[c], xs[c]), trace[c + 1]),
            decreases self.ncols() - y,
        {
            let ghost prev = trace;
            total = plus(total, self.get(i, y));
            proof {
                trace = trace.push(total);
                assert forall|c: int| 0 <= c < y + 1 implies plus.ensures((#[trigger] trace[c], xs[c]), trace[c + 1]) by {
                    if c < y {
                        assert(trace[c] == prev[c] && trace[c + 1] == prev[c + 1]);
                    }
                }
            }
            y = y + 1;
        }
        assert(is_fold(*plus, start, xs, trace));
        total
    }

    /// Sum of every element: a left fold of `plus` from `zero` over the rows
    /// laid end to end.
    pub fn sum<F: Fn(T, T) -> T>(m: &Matrix<T>, zero: T, plus: F) -> (r: T)
        requires
            m.wf(),
            forall|x: T, y: T| plus.requires((x, y)),
        ensures
            folds_to(plus, zero, row_major(m.entries()), r),
    {
        let mut total = zero;
        let mut x: usize = 0;
        assert(is_fold(plus, zero, row_major(m.entries().take(0)), seq![zero]));
        while x < m.rows
            invariant
                m.wf(),
                forall|a: T, b: T| plus.requires((a, b)),
                x <= m.nrows(),
                folds_to(plus, zero, row_major(m.entries().take(x as int)), total),
            decreases m.nrows() - x,
        {
            let ghost before = total;
            total = m.fold_row(x, total, &plus);
            proof {
                lemma_folds_to_append(plus, zero, row_major(m.entries().take(x as int)), before, m.entries()[x as int], total);
                assert(m.entries().take(x + 1).drop_last() =~= m.entries().take(x as int));
            }
            x = x + 1;
        }
        assert(m.entries().take(m.nrows() as int) =~= m.entries());
        total
    }

    /// Every element of row `i` becomes the sum of row `i` (a left fold of
    /// `plus` from `zero`); the shape is kept.
    pub fn colwise_sum_maintain_dim<F: Fn(T, T) -> T>(m: &Matrix<T>, zero: T, plus: F) -> (r: Matrix<T>)
        requires
            m.wf(),
            forall|x: T, y: T| plus.requires((x, y)),
        ensures
            is_row_sums(*m, zero, plus, r),
    {
        let mut data: Vec<Vec<T>> = Vec::new();
        let mut x: usize = 0;
        while x < m.rows
            invariant
                m.wf(),
                forall|a: T, b: T| plus.requires((a, b)),
                x <= m.nrows(),
                data@.len() == x,
                forall|a: int| 0 <= a < x ==> (#[trigger] data@[a])@.len() == m.ncols(),
                forall|a: int, b: int| 0 <= a < x && 0 <= b < m.ncols() ==> folds_to(plus, zero, m.entries()[a], #[trigger] data@[a]@[b]),
            decreases m.nrows() - x,
        {
            let total = m.fold_row(x, zero, &plus);
            let mut row: Vec<T> = Vec::new();
            let mut y: usize = 0;
            while y < m.cols
                invariant
                    m.wf(),
                    x < m.nrows(),
                    y <= m.ncols(),
                    row@.len() == y,
                    folds_to(plus, zero, m.entries()[x as int], total),
                    forall|b: int| 0 <= b < y ==> #[trigger] row@[b] == total,
                decreases m.ncols() - y,
            {
                row.push(total);
                y = y + 1;
            }
            data.push(row);
            x = x + 1;
        }
        let r = Matrix { data, rows: m.rows, cols: m.cols };
        assert forall|a: int| 0 <= a < r.nrows() implies (#[trigger] r.entries()[a]).len() == r.ncols() by {
            assert(r.entries()[a] == data@[a]@);
        }
        assert forall|a: int, b: int| 0 <= a < m.nrows() && 0 <= b < m.ncols() implies folds_to(plus, zero, m.entries()[a], #[trigger] r.at(a, b)) by {
            assert(r.entries()[a] == data@[a]@);
        }
        r
    }
}

} // verus!
