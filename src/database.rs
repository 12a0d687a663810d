use vstd::prelude::*;
use crate::matrix::Matrix;

verus! {

/// Two parallel lists of (sample, label) pairs, one for training and one for
/// testing, each read through a cursor that wraps round at the end.
pub struct Database<T> {
    training_data: Vec<Matrix<T>>,
    training_labels: Vec<Matrix<T>>,
    current_training_index: usize,
    testing_data: Vec<Matrix<T>>,
    testing_labels: Vec<Matrix<T>>,
    current_testing_index: usize,
}

/// The elements of a sample and of its label.
pub type PairView<T> = (Seq<Seq<T>>, Seq<Seq<T>>);

/// All matrices of the list are well formed.
pub open spec fn all_wf<T>(v: Seq<Matrix<T>>) -> bool {
    forall|k: int| 0 <= k < v.len() ==> (#[trigger] v[k]).wf()
}

/// The pairs that two parallel lists make.
pub open spec fn pairs_of<T>(data: Seq<Matrix<T>>, labels: Seq<Matrix<T>>) -> Seq<PairView<T>> {
    Seq::new(data.len(), |k: int| (data[k].entries(), labels[k].entries()))
}

/// Elements of an `n x 1` matrix.
pub open spec fn column_shaped<T>(e: Seq<Seq<T>>, n: nat) -> bool {
    &&& e.len() == n
    &&& forall|i: int| 0 <= i < n ==> (#[trigger] e[i]).len() == 1
}

/// Every sample is an `n_in x 1` column and every label an `n_out x 1` column.
pub open spec fn pairs_fit<T>(pairs: Seq<PairView<T>>, n_in: nat, n_out: nat) -> bool {
    forall|k: int| 0 <= k < pairs.len() ==> column_shaped((#[trigger] pairs[k]).0, n_in) && column_shaped(pairs[k].1, n_out)
}

/// Whether every matrix of `v` is an `n x 1` column.
fn all_columns<T>(v: &Vec<Matrix<T>>, n: usize) -> (r: bool)
    requires
        all_wf(v@),
    ensures
        r == forall|k: int| 0 <= k < v@.len() ==> column_shaped((#[trigger] v@[k]).entries(), n as nat),
{
    let mut k: usize = 0;
    while k < v.len()
        invariant
            all_wf(v@),
            k <= v@.len(),
            forall|c: int| 0 <= c < k ==> column_shaped((#[trigger] v@[c]).entries(), n as nat),
        decreases v@.len() - k,
    {
        let m = &v[k];
        assert(m.wf());
        if !(m.rows() == n && (n == 0 || m.cols() == 1)) {
            assert(!column_shaped(v@[k as int].entries(), n as nat)) by {
                if n > 0 && m.nrows() == n {
                    assert(m.entries()[0].len() == m.ncols());
                }
            }
            return false;
        }
        assert(column_shaped(v@[k as int].entries(), n as nat)) by {
            assert forall|i: int| 0 <= i < n implies (#[trigger] m.entries()[i]).len() == 1 by {}
        }
        k = k + 1;
    }
    true
}

impl<T> Database<T> {
    /// The training pairs, in the order the cursor visits them.
    pub closed spec fn training(&self) -> Seq<PairView<T>> {
        pairs_of(self.training_data@, self.training_labels@)
    }

    /// The testing pairs, in the order the cursor visits them.
    pub closed spec fn testing(&self) -> Seq<PairView<T>> {
        pairs_of(self.testing_data@, self.testing_labels@)
    }

    /// Position of the training pair that comes next.
    pub closed spec fn training_cursor(&self) -> nat {
        self.current_training_index as nat
    }

    /// Position of the testing pair that comes next.
    pub closed spec fn testing_cursor(&self) -> nat {
        self.current_testing_index as nat
    }

    pub closed spec fn wf(&self) -> bool {
        &&& self.training_data@.len() == self.training_labels@.len()
        &&& self.testing_data@.len() == self.testing_labels@.len()
        &&& self.current_training_index < self.training_data@.len()
        &&& self.current_testing_index < self.testing_data@.len()
        &&& all_wf(self.training_data@)
        &&& all_wf(self.training_labels@)
        &&& all_wf(self.testing_data@)
        &&& all_wf(self.testing_labels@)
    }

    /// The training pair that `n` calls of `next_training` from now hand out.
    pub open spec fn training_after(&self, n: nat) -> PairView<T> {
        self.training()[((self.training_cursor() + n) % self.training().len()) as int]
    }

    /// The testing pair that `n` calls of `next_testing` from now hand out.
    pub open spec fn testing_after(&self, n: nat) -> PairView<T> {
        self.testing()[((self.testing_cursor() + n) % self.testing().len()) as int]
    }

    /// Whether every sample, training and testing, is an `n_in x 1` column
    /// and every label an `n_out x 1` column.
    pub fn fits(&self, n_in: usize, n_out: usize) -> (r: bool)
        requires
            self.wf(),
        ensures
            r == (pairs_fit(self.training(), n_in as nat, n_out as nat) && pairs_fit(self.testing(), n_in as nat, n_out as nat)),
    {
        let a = all_columns(&self.training_data, n_in);
        let b = all_columns(&self.training_labels, n_out);
        let c = all_columns(&self.testing_data, n_in);
        let d = all_columns(&self.testing_labels, n_out);
        proof {
            assert(pairs_fit(self.training(), n_in as nat, n_out as nat) == (a && b)) by {
                if a && b {
                    assert forall|k: int| 0 <= k < self.training().len() implies column_shaped((#[trigger] self.training()[k]).0, n_in as nat)
                        && column_shaped(self.training()[k].1, n_out as nat) by {
                        lemma_pair_at(self.training_data@, self.training_labels@, k);
                        assert(column_shaped(self.training_data@[k].entries(), n_in as nat));
                        assert(column_shaped(self.training_labels@[k].entries(), n_out as nat));
                    }
                }
                if !a {
                    let k = choose|k: int| 0 <= k < self.training_data@.len() && !column_shaped((#[trigger] self.training_data@[k]).entries(), n_in as nat);
                    lemma_pair_at(self.training_data@, self.training_labels@, k);
                }
                if !b {
                    let k = choose|k: int| 0 <= k < self.training_labels@.len() && !column_shaped((#[trigger] self.training_labels@[k]).entries(), n_out as nat);
                    lemma_pair_at(self.training_data@, self.training_labels@, k);
                }
            }
            assert(pairs_fit(self.testing(), n_in as nat, n_out as nat) == (c && d)) by {
                if c && d {
                    assert forall|k: int| 0 <= k < self.testing().len() implies column_shaped((#[trigger] self.testing()[k]).0, n_in as nat)
                        && column_shaped(self.testing()[k].1, n_out as nat) by {
                        lemma_pair_at(self.testing_data@, self.testing_labels@, k);
                        assert(column_shaped(self.testing_data@[k].entries(), n_in as nat));
                        assert(column_shaped(self.testing_labels@[k].entries(), n_out as nat));
                    }
                }
                if !c {
                    let k = choose|k: int| 0 <= k < self.testing_data@.len() && !column_shaped((#[trigger] self.testing_data@[k]).entries(), n_in as nat);
                    lemma_pair_at(self.testing_data@, self.testing_labels@, k);
                }
                if !d {
                    let k = choose|k: int| 0 <= k < self.testing_labels@.len() && !column_shaped((#[trigger] self.testing_labels@[k]).entries(), n_out as nat);
                    lemma_pair_at(self.testing_data@, self.testing_labels@, k);
                }
            }
        }
        a && b && c && d
    }

    /// Number of training pairs.
    pub fn training_set_size(&self) -> (r: usize)
        requires
            self.wf(),
        ensures
            r == self.training().len(),
            r > 0,
    {
        self.training_data.len()
    }

    /// Number of testing pairs.
    pub fn testing_set_size(&self) -> (r: usize)
        requires
            self.wf(),
        ensures
            r == self.testing().len(),
            r > 0,
    {
        self.testing_data.len()
    }
}

/// A pair of the list as elements, and the list's matrices well formed.
proof fn lemma_pair_at<T>(data: Seq<Matrix<T>>, labels: Seq<Matrix<T>>, k: int)
    requires
        data.len() == labels.len(),
        0 <= k < data.len(),
    ensures
        pairs_of(data, labels)[k] == (data[k].entries(), labels[k].entries()),
{
}

/// In a well-formed dataset both lists are non-empty and each cursor points
/// into its list.
pub proof fn lemma_cursors_in_range<T>(db: Database<T>)
    requires
        db.wf(),
    ensures
        db.training_cursor() < db.training().len(),
        db.testing_cursor() < db.testing().len(),
{
}

/// The cursor arithmetic of one step: `k` itself sits at position `k`, and
/// one step on from `k` lands on `k + 1`, or on 0 past the end.
proof fn lemma_step_mod(k: int, n: int)
    requires
        0 <= k < n,
    ensures
        (k + 0) % n == k,
        (k + 1) % n == (if k + 1 < n { k + 1 } else { 0 }),
{
    vstd::arithmetic::div_mod::lemma_small_mod(k as nat, n as nat);
    if k + 1 < n {
        vstd::arithmetic::div_mod::lemma_small_mod((k + 1) as nat, n as nat);
    } else {
        vstd::arithmetic::div_mod::lemma_mod_self_0(n);
    }
}

/// Moving the cursor one step and then `m` more is moving it `m + 1` steps.
proof fn lemma_shift_mod(k: int, m: int, n: int)
    requires
        0 <= k < n,
        0 <= m,
    ensures
        ((k + 1) % n + m) % n == (k + (m + 1)) % n,
{
    vstd::arithmetic::div_mod::lemma_add_mod_noop(k + 1, m, n);
    vstd::arithmetic::div_mod::lemma_mod_twice(m, n);
    vstd::arithmetic::div_mod::lemma_add_mod_noop((k + 1) % n, m, n);
    vstd::arithmetic::div_mod::lemma_mod_twice(k + 1, n);
    assert(k + (m + 1) == (k + 1) + m);
}

/// Wrap-around: the pair handed out `n + size` calls from now is the one
/// handed out `n` calls from now, for training and for testing alike.
pub proof fn lemma_cursor_wraps<T>(db: Database<T>, n: nat)
    requires
        db.wf(),
    ensures
        db.training_after(n + db.training().len()) == db.training_after(n),
        db.testing_after(n + db.testing().len()) == db.testing_after(n),
{
    let a = db.training_cursor() + n;
    let s = db.training().len() as int;
    vstd::arithmetic::div_mod::lemma_mod_add_multiples_vanish(a as int, s);
    assert(db.training_cursor() + (n + db.training().len()) == s + a);
    let b = db.testing_cursor() + n;
    let t = db.testing().len() as int;
    vstd::arithmetic::div_mod::lemma_mod_add_multiples_vanish(b as int, t);
    assert(db.testing_cursor() + (n + db.testing().len()) == t + b);
}

/// A two-row, one-column matrix's elements.
pub open spec fn column_of<T>(a: T, b: T) -> Seq<Seq<T>> {
    seq![seq![a], seq![b]]
}

/// The XOR problem with inputs written as `one` and `minus_one`, and labels
/// one-hot over two rows: row 0 when both inputs agree, row 1 when they differ.
pub open spec fn xor_pairs<T>(one: T, minus_one: T, zero: T) -> Seq<PairView<T>> {
    seq![
        (column_of(one, one), column_of(one, zero)),
        (column_of(minus_one, minus_one), column_of(one, zero)),
        (column_of(minus_one, one), column_of(zero, one)),
        (column_of(one, minus_one), column_of(zero, one)),
    ]
}

/// A two-row, one-column matrix.
fn column2<T: Copy>(a: T, b: T) -> (r: Matrix<T>)
    ensures
        r.wf(),
        r.entries() == column_of(a, b),
{
    let mut top: Vec<T> = Vec::new();
    top.push(a);
    let mut bottom: Vec<T> = Vec::new();
    bottom.push(b);
    let mut data: Vec<Vec<T>> = Vec::new();
    data.push(top);
    data.push(bottom);
    let r = Matrix::from_2d_vec(2, 1, data);
    assert(r.entries()[0] =~= seq![a]) by {
        assert(r.at(0, 0) == a);
    }
    assert(r.entries()[1] =~= seq![b]) by {
        assert(r.at(1, 0) == b);
    }
    assert(r.entries() =~= column_of(a, b));
    r
}

impl<T: Copy> Database<T> {
    /// The XOR dataset, the same four pairs for training and for testing.
    pub fn from_xor(one: T, minus_one: T, zero: T) -> (r: Database<T>)
        ensures
            r.wf(),
            r.training() == xor_pairs(one, minus_one, zero),
            r.testing() == xor_pairs(one, minus_one, zero),
            r.training_cursor() == 0,
            r.testing_cursor() == 0,
    {
        let training_data = vec![
            column2(one, one),
            column2(minus_one, minus_one),
            column2(minus_one, one),
            column2(one, minus_one),
        ];
        let training_labels = vec![
            column2(one, zero),
            column2(one, zero),
            column2(zero, one),
            column2(zero, one),
        ];
        let testing_data = vec![
            column2(one, one),
            column2(minus_one, minus_one),
            column2(minus_one, one),
            column2(one, minus_one),
        ];
        let testing_labels = vec![
            column2(one, zero),
            column2(one, zero),
            column2(zero, one),
            column2(zero, one),
        ];
        let r = Database::new(training_data, training_labels, testing_data, testing_labels);
        assert(r.training() =~= xor_pairs(one, minus_one, zero));
        assert(r.testing() =~= xor_pairs(one, minus_one, zero));
        r
    }

    /// A dataset of the given pairs, both cursors at the first pair.
    pub fn new(
        training_data: Vec<Matrix<T>>,
        training_labels: Vec<Matrix<T>>,
        testing_data: Vec<Matrix<T>>,
        testing_labels: Vec<Matrix<T>>,
    ) -> (r: Database<T>)
        requires
            0 < training_data@.len(),
            training_data@.len() == training_labels@.len(),
            0 < testing_data@.len(),
            testing_data@.len() == testing_labels@.len(),
            all_wf(training_data@),
            all_wf(training_labels@),
            all_wf(testing_data@),
            all_wf(testing_labels@),
        ensures
            r.wf(),
            r.training() == pairs_of(training_data@, training_labels@),
            r.testing() == pairs_of(testing_data@, testing_labels@),
            r.training_cursor() == 0,
            r.testing_cursor() == 0,
    {
        Database {
            training_data,
            training_labels,
            current_training_index: 0,
            testing_data,
            testing_labels,
            current_testing_index: 0,
        }
    }

    /// Hands out a copy of the training pair under the cursor and moves the
    /// cursor on by one, back to the first pair after the last.
    pub fn next_training(&mut self) -> (r: (Matrix<T>, Matrix<T>))
        requires
            old(self).wf(),
        ensures
            final(self).wf(),
            r.0.wf(),
            r.1.wf(),
            (r.0.entries(), r.1.entries()) == old(self).training_after(0),
            final(self).training() == old(self).training(),
            final(self).testing() == old(self).testing(),
            final(self).testing_cursor() == old(self).testing_cursor(),
            final(self).training_cursor() == (old(self).training_cursor() + 1) % old(self).training().len() as nat,
            forall|m: nat| #[trigger] final(self).training_after(m) == old(self).training_after(m + 1),
    {
        let n = self.training_data.len();
        let k = self.current_training_index;
        proof {
            lemma_pair_at(self.training_data@, self.training_labels@, k as int);
            lemma_step_mod(k as int, n as int);
        }
        let sample = self.training_data[k].duplicate();
        let label = self.training_labels[k].duplicate();
        self.current_training_index = if k + 1 < n { k + 1 } else { 0 };
        proof {
            assert forall|m: nat| #[trigger] self.training_after(m) == old(self).training_after(m + 1) by {
                lemma_shift_mod(k as int, m as int, n as int);
            }
        }
        (sample, label)
    }

    /// Hands out a copy of the testing pair under the cursor and moves the
    /// cursor on by one, back to the first pair after the last.
    pub fn next_testing(&mut self) -> (r: (Matrix<T>, Matrix<T>))
        requires
            old(self).wf(),
        ensures
            final(self).wf(),
            r.0.wf(),
            r.1.wf(),
            (r.0.entries(), r.1.entries()) == old(self).testing_after(0),
            final(self).training() == old(self).training(),
            final(self).testing() == old(self).testing(),
            final(self).training_cursor() == old(self).training_cursor(),
            final(self).testing_cursor() == (old(self).testing_cursor() + 1) % old(self).testing().len() as nat,
            forall|m: nat| #[trigger] final(self).testing_after(m) == old(self).testing_after(m + 1),
    {
        let n = self.testing_data.len();
        let k = self.current_testing_index;
        proof {
            lemma_pair_at(self.testing_data@, self.testing_labels@, k as int);
            lemma_step_mod(k as int, n as int);
        }
        let sample = self.testing_data[k].duplicate();
        let label = self.testing_labels[k].duplicate();
        self.current_testing_index = if k + 1 < n { k + 1 } else { 0 };
        proof {
            assert forall|m: nat| #[trigger] self.testing_after(m) == old(self).testing_after(m + 1) by {
                lemma_shift_mod(k as int, m as int, n as int);
            }
        }
        (sample, label)
    }
}

} // verus!
