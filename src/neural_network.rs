use vstd::prelude::*;
use crate::database::Database;
use crate::layers::{HiddenLayer, is_forward, is_backward, drawn_from};
use crate::matrix::{Matrix, is_zip, is_max_scan, one_hot_at};
use crate::database::{PairView, lemma_cursors_in_range, column_shaped, pairs_fit};

verus! {

/// A stack of layers over a dataset, with the number of epochs of one
/// training round and whether tests report what they see.
pub struct NeuralNetwork<T, K> {
    database: Database<T>,
    layers: Vec<HiddenLayer<T, K>>,
    epochs: usize,
    show_model_outputs: bool,
}

/// Each layer reads what the one before it writes.
pub open spec fn layers_compose<T, K>(layers: Seq<HiddenLayer<T, K>>) -> bool {
    &&& layers.len() > 0
    &&& forall|i: int| 0 <= i < layers.len() ==> (#[trigger] layers[i]).wf()
    &&& forall|i: int| 0 < i < layers.len() ==> (#[trigger] layers[i]).in_dim() == layers[i - 1].out_dim()
}

/// Layers of one shape and tag, position by position.
pub open spec fn same_shapes<T, K>(a: Seq<HiddenLayer<T, K>>, b: Seq<HiddenLayer<T, K>>) -> bool {
    &&& a.len() == b.len()
    &&& forall|i: int| 0 <= i < a.len() ==> (#[trigger] a[i]).in_dim() == b[i].in_dim() && a[i].out_dim() == b[i].out_dim()
        && a[i].activation() == b[i].activation()
}

/// A well-formed matrix whose elements make an `n x 1` column, `n > 0`, is one.
proof fn lemma_column_shape<T>(m: Matrix<T>, n: nat)
    requires
        m.wf(),
        n > 0,
        column_shaped(m.entries(), n),
    ensures
        m.nrows() == n,
        m.ncols() == 1,
{
    assert(m.entries()[0].len() == m.ncols());
}

/// A cursor `j` steps past `c`, moved one step more, is `j + 1` steps past `c`.
proof fn lemma_cursor_step(c: int, j: int, s: int)
    requires
        0 <= c < s,
        0 <= j,
    ensures
        0 <= (c + j) % s < s,
        ((c + j) % s + 1) % s == (c + (j + 1)) % s,
        (c + 0) % s == c,
        (c + s) % s == c,
{
    vstd::arithmetic::div_mod::lemma_mod_pos_bound(c + j, s);
    vstd::arithmetic::div_mod::lemma_add_mod_noop(c + j, 1, s);
    vstd::arithmetic::div_mod::lemma_add_mod_noop((c + j) % s, 1, s);
    vstd::arithmetic::div_mod::lemma_mod_twice(c + j, s);
    assert(c + j + 1 == c + (j + 1));
    vstd::arithmetic::div_mod::lemma_small_mod(c as nat, s as nat);
    vstd::arithmetic::div_mod::lemma_mod_add_multiples_vanish(c, s);
    assert(c + s == s + c);
}

/// `r` is what the layers `before`, becoming `after`, make of `input`: a chain
/// of forward passes whose first input is `input` and whose last output is `r`.
pub open spec fn is_network_forward<T, K, MA: Fn(T, T, T) -> T, P: Fn(T, T) -> T, AC: Fn(K, T) -> T>(
    before: Seq<HiddenLayer<T, K>>,
    after: Seq<HiddenLayer<T, K>>,
    input: Matrix<T>,
    zero: T,
    mul_add: MA,
    plus: P,
    activate: AC,
    r: Matrix<T>,
) -> bool {
    exists|outs: Seq<Matrix<T>>|
        #[trigger] outs.len() == before.len() + 1
        && outs[0].entries() == input.entries()
        && outs[0].same_shape(&input)
        && outs.last() == r
        && forall|i: int| 0 <= i < before.len() ==> #[trigger] is_forward(
            before[i], after[i], outs[i], zero, mul_add, plus, activate, outs[i + 1])
}

/// The layers `before` became `after` by backward passes from the last layer
/// to the first, seeded with `grad`: each layer is handed the gradient that
/// the layer after it returned.
pub open spec fn is_network_backward<
    T,
    K,
    MA: Fn(T, T, T) -> T,
    P: Fn(T, T) -> T,
    S: Fn(T, T) -> T,
    M: Fn(T, T) -> T,
    D: Fn(K, T) -> T,
    I: Fn(usize) -> T,
>(
    before: Seq<HiddenLayer<T, K>>,
    after: Seq<HiddenLayer<T, K>>,
    grad: Matrix<T>,
    zero: T,
    mul_add: MA,
    plus: P,
    minus: S,
    times: M,
    derivative: D,
    inv_count: I,
    rate: T,
) -> bool {
    exists|grads: Seq<Matrix<T>>|
        #[trigger] grads.len() == before.len() + 1
        && grads.last().entries() == grad.entries()
        && grads.last().same_shape(&grad)
        && forall|i: int| 0 <= i < before.len() ==> #[trigger] is_backward(
            before[i], after[i], grads[i + 1], zero, mul_add, plus, minus, times, derivative, inv_count, rate, grads[i])
}

/// One training step took the layers `before` to `after` on a pair with
/// elements `pair`: a forward pass on the sample, the squared-error gradient
/// of the output against the label, and backward passes seeded with it.
pub open spec fn is_training_step<
    T,
    K,
    MA: Fn(T, T, T) -> T,
    P: Fn(T, T) -> T,
    S: Fn(T, T) -> T,
    M: Fn(T, T) -> T,
    AC: Fn(K, T) -> T,
    D: Fn(K, T) -> T,
    I: Fn(usize) -> T,
>(
    before: Seq<HiddenLayer<T, K>>,
    after: Seq<HiddenLayer<T, K>>,
    pair: PairView<T>,
    zero: T,
    mul_add: MA,
    plus: P,
    minus: S,
    times: M,
    activate: AC,
    derivative: D,
    inv_count: I,
    rate: T,
) -> bool {
    exists|mid: Seq<HiddenLayer<T, K>>, input: Matrix<T>, label: Matrix<T>, out: Matrix<T>, loss: Matrix<T>|
        input.entries() == pair.0
        && label.entries() == pair.1
        && #[trigger] is_network_forward(before, mid, input, zero, mul_add, plus, activate, out)
        && #[trigger] is_zip(out, label, minus, loss)
        && is_network_backward(mid, after, loss, zero, mul_add, plus, minus, times, derivative, inv_count, rate)
}

/// Layers with the same weights, biases and tags, position by position.
pub open spec fn same_params<T, K>(a: Seq<HiddenLayer<T, K>>, b: Seq<HiddenLayer<T, K>>) -> bool {
    &&& a.len() == b.len()
    &&& forall|i: int| 0 <= i < a.len() ==> (#[trigger] a[i]).weights() == b[i].weights() && a[i].biases() == b[i].biases()
        && a[i].activation() == b[i].activation()
}

/// `c` is how layers with the parameters of `layers` classify a sample with
/// elements `sample`: the one-hot encoding of the first maximum of the
/// network's output.
pub open spec fn classifies<T, K, MA: Fn(T, T, T) -> T, P: Fn(T, T) -> T, AC: Fn(K, T) -> T, G: Fn(T, T) -> bool>(
    layers: Seq<HiddenLayer<T, K>>,
    sample: Seq<Seq<T>>,
    zero: T,
    one: T,
    mul_add: MA,
    plus: P,
    activate: AC,
    greater: G,
    c: Matrix<T>,
) -> bool {
    exists|before: Seq<HiddenLayer<T, K>>, after: Seq<HiddenLayer<T, K>>, input: Matrix<T>, out: Matrix<T>, best: Seq<int>|
        #[trigger] same_params(before, layers)
        && input.entries() == sample
        && #[trigger] is_network_forward(before, after, input, zero, mul_add, plus, activate, out)
        && #[trigger] is_max_scan(out.column(0), greater, best)
        && one_hot_at(c, best.last(), zero, one)
}

/// A record of one test: `classes[k]` is the classification of the `k`-th
/// testing pair from the cursor on, by layers with the parameters of
/// `layers`, and `outcomes[k]` whether it matched that pair's label.
pub open spec fn is_test_record<T, K, MA: Fn(T, T, T) -> T, P: Fn(T, T) -> T, AC: Fn(K, T) -> T, G: Fn(T, T) -> bool, E: Fn(T, T) -> bool>(
    layers: Seq<HiddenLayer<T, K>>,
    db: Database<T>,
    n: nat,
    zero: T,
    one: T,
    mul_add: MA,
    plus: P,
    activate: AC,
    greater: G,
    same: E,
    classes: Seq<Matrix<T>>,
    outcomes: Seq<bool>,
) -> bool {
    &&& classes.len() == n
    &&& outcomes.len() == n
    &&& forall|k: int| 0 <= k < n ==> #[trigger] classifies(layers, db.testing_after(k as nat).0, zero, one, mul_add, plus, activate, greater, classes[k])
        && judged(classes[k], db.testing_after(k as nat).1, same, outcomes[k])
}

/// A test was run on layers with the parameters of `layers`, over testing
/// pairs `testing` (`size` of them, from wherever the cursor stood), and
/// `enough` gave `verdict` on the number of pairs it classified right.
pub open spec fn was_tested<
    T,
    K,
    MA: Fn(T, T, T) -> T,
    P: Fn(T, T) -> T,
    AC: Fn(K, T) -> T,
    G: Fn(T, T) -> bool,
    E: Fn(T, T) -> bool,
    Q: Fn(usize, usize) -> bool,
>(
    layers: Seq<HiddenLayer<T, K>>,
    testing: Seq<PairView<T>>,
    size: nat,
    zero: T,
    one: T,
    mul_add: MA,
    plus: P,
    activate: AC,
    greater: G,
    same: E,
    enough: Q,
    verdict: bool,
) -> bool {
    exists|tested: Seq<HiddenLayer<T, K>>, db: Database<T>, classes: Seq<Matrix<T>>, outcomes: Seq<bool>|
        same_params(layers, tested)
        && db.testing() == testing
        && #[trigger] is_test_record(tested, db, size, zero, one, mul_add, plus, activate, greater, same, classes, outcomes)
        && count_true(outcomes) <= size
        && enough.ensures((count_true(outcomes) as usize, size as usize), verdict)
}

/// Number of `true` entries.
pub open spec fn count_true(s: Seq<bool>) -> nat
    decreases s.len(),
{
    if s.len() == 0 {
        0
    } else {
        count_true(s.drop_last()) + if s.last() { 1nat } else { 0nat }
    }
}

/// `matched` says whether `same` finds classification `c` equal, element by
/// element, to a label of its shape with elements `label`: `same` true on
/// every pair, or else false on some pair.
pub open spec fn judged<T, E: Fn(T, T) -> bool>(c: Matrix<T>, label: Seq<Seq<T>>, same: E, matched: bool) -> bool {
    &&& matched ==> forall|i: int, j: int| 0 <= i < c.nrows() && 0 <= j < c.ncols()
        ==> #[trigger] same.ensures((c.at(i, j), label[i][j]), true)
    &&& !matched ==> exists|i: int, j: int| 0 <= i < c.nrows() && 0 <= j < c.ncols()
        && #[trigger] same.ensures((c.at(i, j), label[i][j]), false)
}

impl<T, K> NeuralNetwork<T, K> {
    pub closed spec fn database(&self) -> Database<T> {
        self.database
    }

    pub closed spec fn layers(&self) -> Seq<HiddenLayer<T, K>> {
        self.layers@
    }

    pub closed spec fn epochs(&self) -> nat {
        self.epochs as nat
    }

    pub closed spec fn show_model_outputs(&self) -> bool {
        self.show_model_outputs
    }

    pub open spec fn wf(&self) -> bool {
        &&& self.database().wf()
        &&& layers_compose(self.layers())
        &&& self.in_dim() > 0
        &&& self.out_dim() > 0
        &&& pairs_fit(self.database().training(), self.in_dim(), self.out_dim())
        &&& pairs_fit(self.database().testing(), self.in_dim(), self.out_dim())
    }

    /// Every layer holds the caches of a forward pass.
    pub open spec fn all_cached(&self) -> bool {
        forall|i: int| 0 <= i < self.layers().len() ==> (#[trigger] self.layers()[i]).has_caches()
    }

    /// Number of layers.
    pub open spec fn depth(&self) -> nat {
        self.layers().len()
    }

    /// Width of the network's input.
    pub open spec fn in_dim(&self) -> nat {
        self.layers()[0].in_dim()
    }

    /// Width of the network's output.
    pub open spec fn out_dim(&self) -> nat {
        self.layers().last().out_dim()
    }
}

impl<T: Copy, K: Copy> NeuralNetwork<T, K> {
    /// A network over `database` with `layers`, applied first to last.
    pub fn new(database: Database<T>, layers: Vec<HiddenLayer<T, K>>, epochs: usize, show_model_outputs: bool) -> (r: NeuralNetwork<T, K>)
        requires
            database.wf(),
            layers_compose(layers@),
            layers@[0].in_dim() > 0,
            layers@.last().out_dim() > 0,
            pairs_fit(database.training(), layers@[0].in_dim(), layers@.last().out_dim()),
            pairs_fit(database.testing(), layers@[0].in_dim(), layers@.last().out_dim()),
        ensures
            r.wf(),
            r.database() == database,
            r.layers() == layers@,
            r.epochs() == epochs,
            r.show_model_outputs() == show_model_outputs,
    {
        NeuralNetwork { database, layers, epochs, show_model_outputs }
    }

    /// Feeds `input` through every layer in order, each layer's output the
    /// next layer's input; returns the last output.
    #[verifier::spinoff_prover]
    #[verifier::rlimit(40)]
    pub fn forward<MA: Fn(T, T, T) -> T + Copy, P: Fn(T, T) -> T + Copy, AC: Fn(K, T) -> T + Copy>(
        &mut self,
        input: &Matrix<T>,
        zero: T,
        mul_add: MA,
        plus: P,
        activate: AC,
    ) -> (r: Matrix<T>)
        requires
            old(self).wf(),
            input.wf(),
            input.nrows() == old(self).in_dim(),
            input.ncols() == 1,
            forall|a: T, x: T, y: T| mul_add.requires((a, x, y)),
            forall|x: T, y: T| plus.requires((x, y)),
            forall|k: K, x: T| activate.requires((k, x)),
        ensures
            final(self).wf(),
            final(self).database() == old(self).database(),
            final(self).epochs() == old(self).epochs(),
            final(self).show_model_outputs() == old(self).show_model_outputs(),
            same_shapes(final(self).layers(), old(self).layers()),
            same_params(final(self).layers(), old(self).layers()),
            final(self).all_cached(),
            r.wf(),
            r.nrows() == old(self).out_dim(),
            r.ncols() == 1,
            is_network_forward(old(self).layers(), final(self).layers(), *input, zero, mul_add, plus, activate, r),
    {
        let ghost pre = *self;
        let n = self.layers.len();
        let mut pending: Vec<HiddenLayer<T, K>> = Vec::new();
        std::mem::swap(&mut pending, &mut self.layers);
        let mut output = input.duplicate();
        let ghost mut outs: Seq<Matrix<T>> = seq![output];
        let mut i: usize = 0;
        while i < n
            invariant
                pre.wf(),
                n == pre.depth(),
                i <= n,
                self.database == pre.database(),
                self.epochs == pre.epochs(),
                self.show_model_outputs == pre.show_model_outputs(),
                pending@ == pre.layers().subrange(i as int, n as int),
                self.layers@.len() == i,
                outs.len() == i + 1,
                outs[0].entries() == input.entries(),
                outs[0].same_shape(input),
                output.wf(),
                output == outs.last(),
                output.ncols() == 1,
                i == 0 ==> output.nrows() == pre.layers()[0].in_dim(),
                i > 0 ==> output.nrows() == pre.layers()[i - 1].out_dim(),
                forall|k: int| 0 <= k < i ==> (#[trigger] self.layers@[k]).wf() && self.layers@[k].weights() == pre.layers()[k].weights()
                    && self.layers@[k].activation() == pre.layers()[k].activation() && self.layers@[k].has_caches()
                    && self.layers@[k].biases() == pre.layers()[k].biases(),
                forall|k: int| 0 <= k < i ==> #[trigger] is_forward(
                    pre.layers()[k], self.layers@[k], outs[k], zero, mul_add, plus, activate, outs[k + 1]),
                forall|a: T, x: T, y: T| mul_add.requires((a, x, y)),
                forall|x: T, y: T| plus.requires((x, y)),
                forall|k: K, x: T| activate.requires((k, x)),
            decreases n - i,
        {
            let mut layer = pending.remove(0);
            assert(layer == pre.layers()[i as int]);
            let ghost prev_outs = outs;
            let next = layer.forward(&output, zero, mul_add, plus, activate);
            proof {
                outs = outs.push(next);
            }
            self.layers.push(layer);
            output = next;
            i = i + 1;
        }
        assert(self.layers@.len() == n);
        assert(layers_compose(self.layers@)) by {
            assert forall|k: int| 0 < k < n implies (#[trigger] self.layers@[k]).in_dim() == self.layers@[k - 1].out_dim() by {
                assert(pre.layers()[k].in_dim() == pre.layers()[k - 1].out_dim());
            }
        }
        assert(is_network_forward(pre.layers(), self.layers@, *input, zero, mul_add, plus, activate, output));
        output
    }

    /// Runs every layer's backward pass, last layer first, each layer
    /// handing the gradient it returns to the layer before it.
    #[verifier::spinoff_prover]
    #[verifier::rlimit(40)]
    pub fn backward<
        MA: Fn(T, T, T) -> T + Copy,
        P: Fn(T, T) -> T + Copy,
        S: Fn(T, T) -> T + Copy,
        M: Fn(T, T) -> T + Copy,
        D: Fn(K, T) -> T + Copy,
        I: Fn(usize) -> T + Copy,
    >(
        &mut self,
        downstream_grad: &Matrix<T>,
        zero: T,
        mul_add: MA,
        plus: P,
        minus: S,
        times: M,
        derivative: D,
        inv_count: I,
        rate: T,
    )
        requires
            old(self).wf(),
            old(self).all_cached(),
            downstream_grad.wf(),
            downstream_grad.nrows() == old(self).out_dim(),
            downstream_grad.ncols() == 1,
            forall|a: T, x: T, y: T| mul_add.requires((a, x, y)),
            forall|x: T, y: T| plus.requires((x, y)),
            forall|x: T, y: T| minus.requires((x, y)),
            forall|x: T, y: T| times.requires((x, y)),
            forall|k: K, x: T| derivative.requires((k, x)),
            forall|n: usize| inv_count.requires((n,)),
        ensures
            final(self).wf(),
            final(self).all_cached(),
            final(self).database() == old(self).database(),
            final(self).epochs() == old(self).epochs(),
            final(self).show_model_outputs() == old(self).show_model_outputs(),
            same_shapes(final(self).layers(), old(self).layers()),
            is_network_backward(old(self).layers(), final(self).layers(), *downstream_grad, zero, mul_add, plus, minus, times,
                derivative, inv_count, rate),
    {
        let ghost pre = *self;
        let n = self.layers.len();
        let mut pending: Vec<HiddenLayer<T, K>> = Vec::new();
        std::mem::swap(&mut pending, &mut self.layers);
        let mut grad = downstream_grad.duplicate();
        let ghost mut grads: Seq<Matrix<T>> = Seq::new((n + 1) as nat, |k: int| grad);
        let mut i: usize = n;
        while i > 0
            invariant
                pre.wf(),
                pre.all_cached(),
                n == pre.depth(),
                i <= n,
                self.database == pre.database(),
                self.epochs == pre.epochs(),
                self.show_model_outputs == pre.show_model_outputs(),
                pending@ == pre.layers().subrange(0, i as int),
                self.layers@.len() == n - i,
                grads.len() == n + 1,
                grads.last().entries() == downstream_grad.entries(),
                grads.last().same_shape(downstream_grad),
                grad.wf(),
                grad == grads[i as int],
                grad.ncols() == 1,
                i == n ==> grad.nrows() == pre.layers()[n - 1].out_dim(),
                i < n ==> grad.nrows() == pre.layers()[i as int].in_dim(),
                forall|k: int| i <= k < n ==> (#[trigger] self.layers@[k - i]).wf()
                    && self.layers@[k - i].has_caches()
                    && self.layers@[k - i].in_dim() == pre.layers()[k].in_dim()
                    && self.layers@[k - i].out_dim() == pre.layers()[k].out_dim()
                    && self.layers@[k - i].activation() == pre.layers()[k].activation(),
                forall|k: int| i <= k < n ==> #[trigger] is_backward(
                    pre.layers()[k], self.layers@[k - i], grads[k + 1], zero, mul_add, plus, minus, times,
                    derivative, inv_count, rate, grads[k]),
                forall|a: T, x: T, y: T| mul_add.requires((a, x, y)),
                forall|x: T, y: T| plus.requires((x, y)),
                forall|x: T, y: T| minus.requires((x, y)),
                forall|x: T, y: T| times.requires((x, y)),
                forall|k: K, x: T| derivative.requires((k, x)),
                forall|c: usize| inv_count.requires((c,)),
            decreases i,
        {
            let mut layer = pending.pop().unwrap();
            assert(layer == pre.layers()[i - 1]);
            let ghost before_layers = self.layers@;
            let next = layer.backward(&grad, zero, mul_add, plus, minus, times, derivative, inv_count, rate);
            proof {
                grads = grads.update(i - 1, next);
            }
            self.layers.insert(0, layer);
            proof {
                assert forall|k: int| i - 1 <= k < n implies #[trigger] is_backward(
                    pre.layers()[k], self.layers@[k - (i - 1)], grads[k + 1], zero, mul_add, plus, minus, times,
                    derivative, inv_count, rate, grads[k]) by {
                    if k >= i {
                        assert(self.layers@[k - (i - 1)] == before_layers[k - i]);
                    }
                }
                assert forall|k: int| i - 1 <= k < n implies (#[trigger] self.layers@[k - (i - 1)]).wf()
                    && self.layers@[k - (i - 1)].has_caches()
                    && self.layers@[k - (i - 1)].in_dim() == pre.layers()[k].in_dim()
                    && self.layers@[k - (i - 1)].out_dim() == pre.layers()[k].out_dim()
                    && self.layers@[k - (i - 1)].activation() == pre.layers()[k].activation() by {
                    if k >= i {
                        assert(self.layers@[k - (i - 1)] == before_layers[k - i]);
                    }
                }
            }
            grad = next;
            i = i - 1;
        }
        assert(is_network_backward(pre.layers(), self.layers@, *downstream_grad, zero, mul_add, plus, minus, times,
            derivative, inv_count, rate)) by {
            assert forall|k: int| 0 <= k < n implies #[trigger] is_backward(
                pre.layers()[k], self.layers@[k], grads[k + 1], zero, mul_add, plus, minus, times, derivative, inv_count, rate, grads[k]) by {
                assert(self.layers@[k - i] == self.layers@[k]);
            }
        }
        assert forall|k: int| 0 <= k < n implies #[trigger] self.layers@[k] == self.layers@[k - i] && self.layers@[k].wf() && self.layers@[k].has_caches() by {
            assert(self.layers@[k - i] == self.layers@[k]);
        }
        assert(layers_compose(self.layers@)) by {
            assert forall|k: int| 0 < k < n implies (#[trigger] self.layers@[k]).in_dim() == self.layers@[k - 1].out_dim() by {
                assert(pre.layers()[k].in_dim() == pre.layers()[k - 1].out_dim());
                assert(self.layers@[k - i] == self.layers@[k]);
                assert(self.layers@[(k - 1) - i] == self.layers@[k - 1]);
            }
        }
    }
}

impl<T: Copy, K: Copy> NeuralNetwork<T, K> {
    /// Gradient of the squared error with respect to the prediction, with
    /// the plain coefficient: `predicted - truth`, element by element.
    pub fn mse_loss_gradient<S: Fn(T, T) -> T>(pred_matrix: &Matrix<T>, true_matrix: &Matrix<T>, minus: S) -> (r: Matrix<T>)
        requires
            pred_matrix.wf(),
            true_matrix.wf(),
            pred_matrix.same_shape(true_matrix),
            forall|x: T, y: T| minus.requires((x, y)),
        ensures
            is_zip(*pred_matrix, *true_matrix, minus, r),
    {
        pred_matrix.zip_with(true_matrix, minus)
    }

    /// One-hot encoding of the network's output on `input`: the row of the
    /// first maximum of the output's column gets `one`, the rest `zero`.
    pub fn classify<MA: Fn(T, T, T) -> T + Copy, P: Fn(T, T) -> T + Copy, AC: Fn(K, T) -> T + Copy, G: Fn(T, T) -> bool>(
        &mut self,
        input: &Matrix<T>,
        zero: T,
        one: T,
        mul_add: MA,
        plus: P,
        activate: AC,
        greater: G,
    ) -> (r: Matrix<T>)
        requires
            old(self).wf(),
            input.wf(),
            input.nrows() == old(self).in_dim(),
            input.ncols() == 1,
            forall|a: T, x: T, y: T| mul_add.requires((a, x, y)),
            forall|x: T, y: T| plus.requires((x, y)),
            forall|k: K, x: T| activate.requires((k, x)),
            forall|x: T, y: T| greater.requires((x, y)),
        ensures
            final(self).wf(),
            final(self).all_cached(),
            final(self).database() == old(self).database(),
            final(self).epochs() == old(self).epochs(),
            final(self).show_model_outputs() == old(self).show_model_outputs(),
            same_shapes(final(self).layers(), old(self).layers()),
            same_params(final(self).layers(), old(self).layers()),
            r.wf(),
            r.nrows() == old(self).out_dim(),
            r.ncols() == 1,
            exists|out: Matrix<T>, best: Seq<int>|
                #[trigger] is_network_forward(old(self).layers(), final(self).layers(), *input, zero, mul_add, plus, activate, out)
                && #[trigger] is_max_scan(out.column(0), greater, best)
                && one_hot_at(r, best.last(), zero, one),
            classifies(old(self).layers(), input.entries(), zero, one, mul_add, plus, activate, greater, r),
    {
        let ghost pre = *self;
        let out = self.forward(input, zero, mul_add, plus, activate);
        let r = Matrix::one_hot_encode_by_maximum(&out, greater, zero, one);
        assert(same_params(pre.layers(), pre.layers()));
        assert(is_network_forward(pre.layers(), self.layers(), *input, zero, mul_add, plus, activate, out));
        let ghost best = choose|best: Seq<int>| #[trigger] is_max_scan(out.column(0), greater, best) && one_hot_at(r, best.last(), zero, one);
        assert(is_max_scan(out.column(0), greater, best));
        r
    }

    /// Redraws every layer's weights and biases from `sample`; shapes, tags
    /// and caches stay.
    pub fn reset_model<R: Fn() -> T + Copy>(&mut self, sample: R)
        requires
            old(self).wf(),
            sample.requires(()),
        ensures
            final(self).wf(),
            final(self).database() == old(self).database(),
            final(self).epochs() == old(self).epochs(),
            final(self).show_model_outputs() == old(self).show_model_outputs(),
            same_shapes(final(self).layers(), old(self).layers()),
            forall|i: int| 0 <= i < old(self).depth() ==> drawn_from((#[trigger] final(self).layers()[i]).weights(), sample)
                && drawn_from(final(self).layers()[i].biases(), sample)
                && final(self).layers()[i].input_cache() == old(self).layers()[i].input_cache()
                && final(self).layers()[i].hypothesis_cache() == old(self).layers()[i].hypothesis_cache(),
    {
        let ghost pre = *self;
        let n = self.layers.len();
        let mut pending: Vec<HiddenLayer<T, K>> = Vec::new();
        std::mem::swap(&mut pending, &mut self.layers);
        let mut i: usize = 0;
        while i < n
            invariant
                pre.wf(),
                sample.requires(()),
                n == pre.depth(),
                i <= n,
                self.database == pre.database(),
                self.epochs == pre.epochs(),
                self.show_model_outputs == pre.show_model_outputs(),
                pending@ == pre.layers().subrange(i as int, n as int),
                self.layers@.len() == i,
                forall|k: int| 0 <= k < i ==> (#[trigger] self.layers@[k]).wf()
                    && self.layers@[k].weights().same_shape(&pre.layers()[k].weights())
                    && self.layers@[k].biases().same_shape(&pre.layers()[k].biases())
                    && drawn_from(self.layers@[k].weights(), sample)
                    && drawn_from(self.layers@[k].biases(), sample)
                    && self.layers@[k].activation() == pre.layers()[k].activation()
                    && self.layers@[k].input_cache() == pre.layers()[k].input_cache()
                    && self.layers@[k].hypothesis_cache() == pre.layers()[k].hypothesis_cache(),
            decreases n - i,
        {
            let mut layer = pending.remove(0);
            assert(layer == pre.layers()[i as int]);
            layer.reset_weights_and_biases(sample);
            self.layers.push(layer);
            i = i + 1;
        }
        assert(layers_compose(self.layers@)) by {
            assert forall|k: int| 0 < k < n implies (#[trigger] self.layers@[k]).in_dim() == self.layers@[k - 1].out_dim() by {
                assert(pre.layers()[k].in_dim() == pre.layers()[k - 1].out_dim());
            }
        }
    }
}

impl<T: Copy, K: Copy> NeuralNetwork<T, K> {
    /// One training round: for each epoch, one pass over as many training
    /// pairs as the training set holds, in cursor order, each a forward pass,
    /// the squared-error gradient against the label, and a backward pass.
    /// The training cursor ends where it started.
    #[verifier::spinoff_prover]
    #[verifier::rlimit(40)]
    pub fn train<
        MA: Fn(T, T, T) -> T + Copy,
        P: Fn(T, T) -> T + Copy,
        S: Fn(T, T) -> T + Copy,
        M: Fn(T, T) -> T + Copy,
        AC: Fn(K, T) -> T + Copy,
        D: Fn(K, T) -> T + Copy,
        I: Fn(usize) -> T + Copy,
    >(
        &mut self,
        zero: T,
        mul_add: MA,
        plus: P,
        minus: S,
        times: M,
        activate: AC,
        derivative: D,
        inv_count: I,
        rate: T,
    )
        requires
            old(self).wf(),
            forall|a: T, x: T, y: T| mul_add.requires((a, x, y)),
            forall|x: T, y: T| plus.requires((x, y)),
            forall|x: T, y: T| minus.requires((x, y)),
            forall|x: T, y: T| times.requires((x, y)),
            forall|k: K, x: T| activate.requires((k, x)),
            forall|k: K, x: T| derivative.requires((k, x)),
            forall|n: usize| inv_count.requires((n,)),
        ensures
            final(self).wf(),
            final(self).database().training() == old(self).database().training(),
            final(self).database().testing() == old(self).database().testing(),
            final(self).database().training_cursor() == old(self).database().training_cursor(),
            final(self).database().testing_cursor() == old(self).database().testing_cursor(),
            final(self).epochs() == old(self).epochs(),
            final(self).show_model_outputs() == old(self).show_model_outputs(),
            same_shapes(final(self).layers(), old(self).layers()),
            exists|states: Seq<Seq<HiddenLayer<T, K>>>|
                #[trigger] states.len() == old(self).epochs() * old(self).database().training().len() + 1
                && states[0] == old(self).layers()
                && states.last() == final(self).layers()
                && forall|k: int| 0 <= k < states.len() - 1 ==> #[trigger] is_training_step(states[k], states[k + 1],
                    old(self).database().training_after(k as nat), zero, mul_add, plus, minus, times, activate, derivative,
                    inv_count, rate),
    {
        let ghost pre = *self;
        proof {
            lemma_cursors_in_range(pre.database());
        }
        let size = self.database.training_set_size();
        let mut epoch: usize = 0;
        let ghost mut done: int = 0;
        let ghost mut states: Seq<Seq<HiddenLayer<T, K>>> = seq![self.layers()];
        assert forall|m: nat| #[trigger] self.database().training_after(m) == pre.database().training_after((m + done) as nat) by {
            assert(m + 0 == m);
        }
        while epoch < self.epochs
            invariant
                self.wf(),
                pre.wf(),
                size == pre.database().training().len(),
                pre.database().training_cursor() < size,
                done == epoch * size,
                epoch <= pre.epochs(),
                states.len() == done + 1,
                states[0] == pre.layers(),
                states.last() == self.layers(),
                forall|k: int| 0 <= k < done ==> #[trigger] is_training_step(states[k], states[k + 1],
                    pre.database().training_after(k as nat), zero, mul_add, plus, minus, times, activate, derivative,
                    inv_count, rate),
                forall|m: nat| #[trigger] self.database().training_after(m) == pre.database().training_after((m + done) as nat),
                self.database().training() == pre.database().training(),
                self.database().testing() == pre.database().testing(),
                self.database().training_cursor() == pre.database().training_cursor(),
                self.database().testing_cursor() == pre.database().testing_cursor(),
                self.epochs() == pre.epochs(),
                self.show_model_outputs() == pre.show_model_outputs(),
                same_shapes(self.layers(), pre.layers()),
                forall|a: T, x: T, y: T| mul_add.requires((a, x, y)),
                forall|x: T, y: T| plus.requires((x, y)),
                forall|x: T, y: T| minus.requires((x, y)),
                forall|x: T, y: T| times.requires((x, y)),
                forall|k: K, x: T| activate.requires((k, x)),
                forall|k: K, x: T| derivative.requires((k, x)),
                forall|n: usize| inv_count.requires((n,)),
            decreases pre.epochs() - epoch,
        {
            proof {
                lemma_cursor_step(pre.database().training_cursor() as int, 0, size as int);
            }
            let mut step: usize = 0;
            while step < size
                invariant
                    self.wf(),
                    pre.wf(),
                    epoch < pre.epochs(),
                    size == pre.database().training().len(),
                    pre.database().training_cursor() < size,
                    step <= size,
                    done == epoch * size + step,
                    states.len() == done + 1,
                    states[0] == pre.layers(),
                    states.last() == self.layers(),
                    forall|k: int| 0 <= k < done ==> #[trigger] is_training_step(states[k], states[k + 1],
                        pre.database().training_after(k as nat), zero, mul_add, plus, minus, times, activate, derivative,
                        inv_count, rate),
                    forall|m: nat| #[trigger] self.database().training_after(m) == pre.database().training_after((m + done) as nat),

                    self.database().training() == pre.database().training(),
                    self.database().testing() == pre.database().testing(),
                    self.database().training_cursor() as int == (pre.database().training_cursor() + step) as int % (size as int),
                    self.database().testing_cursor() == pre.database().testing_cursor(),
                    self.epochs() == pre.epochs(),
                    self.show_model_outputs() == pre.show_model_outputs(),
                    same_shapes(self.layers(), pre.layers()),
                    forall|a: T, x: T, y: T| mul_add.requires((a, x, y)),
                    forall|x: T, y: T| plus.requires((x, y)),
                    forall|x: T, y: T| minus.requires((x, y)),
                    forall|x: T, y: T| times.requires((x, y)),
                    forall|k: K, x: T| activate.requires((k, x)),
                    forall|k: K, x: T| derivative.requires((k, x)),
                    forall|n: usize| inv_count.requires((n,)),
                decreases size - step,
            {
                let ghost c = self.database().training_cursor();
                proof {
                    lemma_cursor_step(pre.database().training_cursor() as int, step as int, size as int);
                    lemma_cursors_in_range(self.database());
                    lemma_cursor_step(c as int, 0, size as int);
                    assert(self.database().training_after(0) == self.database().training()[c as int]);
                }
                let ghost db_before = self.database();
                let ghost start = self.layers();
                let (input, labels) = self.database.next_training();
                proof {
                    lemma_column_shape(input, self.in_dim());
                    lemma_column_shape(labels, self.out_dim());
                    assert(db_before.training_after(0) == pre.database().training_after(done as nat));
                }
                let network_out = self.forward(&input, zero, mul_add, plus, activate);
                let ghost mid = self.layers();
                let network_loss = Self::mse_loss_gradient(&network_out, &labels, minus);
                self.backward(&network_loss, zero, mul_add, plus, minus, times, derivative, inv_count, rate);
                proof {
                    let pair = pre.database().training_after(done as nat);
                    assert(is_network_forward(start, mid, input, zero, mul_add, plus, activate, network_out));
                    assert(is_zip(network_out, labels, minus, network_loss));
                    assert(is_training_step(start, self.layers(), pair, zero, mul_add, plus, minus, times, activate, derivative,
                        inv_count, rate));
                    let ghost old_states = states;
                    states = states.push(self.layers());
                    assert forall|k: int| 0 <= k < done + 1 implies #[trigger] is_training_step(states[k], states[k + 1],
                        pre.database().training_after(k as nat), zero, mul_add, plus, minus, times, activate, derivative,
                        inv_count, rate) by {
                        if k < done {
                            assert(states[k] == old_states[k] && states[k + 1] == old_states[k + 1]);
                        } else {
                            assert(states[k] == start);
                        }
                    }
                    assert forall|m: nat| #[trigger] self.database().training_after(m) == pre.database().training_after((m + (done + 1)) as nat) by {
                        assert(self.database().training_after(m) == db_before.training_after(m + 1));
                        assert(db_before.training_after((m + 1) as nat) == pre.database().training_after(((m + 1) + done) as nat));
                        assert((m + 1) + done == m + (done + 1));
                    }
                    done = done + 1;
                }
                step = step + 1;
            }
            proof {
                lemma_cursor_step(pre.database().training_cursor() as int, 0, size as int);
                assert(done == (epoch + 1) * size) by (nonlinear_arith)
                    requires done == epoch * size + size;
            }
            epoch = epoch + 1;
        }
    }

    /// Classifies as many testing pairs as the training set holds, in
    /// testing-cursor order, and counts those whose classification `same`
    /// finds equal to the label; the accuracy is that count over the
    /// training set's size. Also returns each pair seen, with its
    /// classification, in order.
    #[verifier::spinoff_prover]
    #[verifier::rlimit(40)]
    pub fn test<
        MA: Fn(T, T, T) -> T + Copy,
        P: Fn(T, T) -> T + Copy,
        AC: Fn(K, T) -> T + Copy,
        G: Fn(T, T) -> bool + Copy,
        E: Fn(T, T) -> bool + Copy,
    >(
        &mut self,
        zero: T,
        one: T,
        mul_add: MA,
        plus: P,
        activate: AC,
        greater: G,
        same: E,
    ) -> (r: (usize, Vec<(Matrix<T>, Matrix<T>, Matrix<T>)>))
        requires
            old(self).wf(),
            forall|a: T, x: T, y: T| mul_add.requires((a, x, y)),
            forall|x: T, y: T| plus.requires((x, y)),
            forall|k: K, x: T| activate.requires((k, x)),
            forall|x: T, y: T| greater.requires((x, y)),
            forall|x: T, y: T| same.requires((x, y)),
        ensures
            final(self).wf(),
            r.0 <= old(self).database().training().len(),
            r.1@.len() == old(self).database().training().len(),
            exists|classes: Seq<Matrix<T>>, outcomes: Seq<bool>| #[trigger] is_test_record(old(self).layers(), old(self).database(),
                old(self).database().training().len(), zero, one, mul_add, plus, activate, greater, same, classes, outcomes)
                && r.0 == count_true(outcomes)
                && forall|k: int| 0 <= k < r.1@.len() ==> (#[trigger] r.1@[k]).2 == classes[k]
                    && r.1@[k].0.entries() == old(self).database().testing_after(k as nat).0
                    && r.1@[k].1.entries() == old(self).database().testing_after(k as nat).1,
            final(self).database().training() == old(self).database().training(),
            final(self).database().testing() == old(self).database().testing(),
            final(self).database().training_cursor() == old(self).database().training_cursor(),
            final(self).database().testing_cursor() as int == (old(self).database().testing_cursor()
                + old(self).database().training().len()) as int % (old(self).database().testing().len() as int),
            final(self).epochs() == old(self).epochs(),
            final(self).show_model_outputs() == old(self).show_model_outputs(),
            same_shapes(final(self).layers(), old(self).layers()),
            same_params(final(self).layers(), old(self).layers()),
    {
        let ghost pre = *self;
        proof {
            lemma_cursors_in_range(pre.database());
            lemma_cursor_step(pre.database().testing_cursor() as int, 0, pre.database().testing().len() as int);
        }
        let size = self.database.training_set_size();
        let tsize = self.database.testing_set_size();
        let mut correct_predictions: usize = 0;
        let mut step: usize = 0;
        let ghost mut classes: Seq<Matrix<T>> = Seq::empty();
        let ghost mut outcomes: Seq<bool> = Seq::empty();
        let mut seen: Vec<(Matrix<T>, Matrix<T>, Matrix<T>)> = Vec::new();
        assert forall|m: nat| #[trigger] self.database().testing_after(m) == pre.database().testing_after((m + step) as nat) by {
            assert(m + 0 == m);
        }
        while step < size
            invariant
                self.wf(),
                pre.wf(),
                size == pre.database().training().len(),
                tsize == pre.database().testing().len(),
                pre.database().testing_cursor() < tsize,
                step <= size,
                correct_predictions <= step,
                correct_predictions == count_true(outcomes),
                seen@.len() == step,
                forall|k: int| 0 <= k < step ==> (#[trigger] seen@[k]).2 == classes[k]
                    && seen@[k].0.entries() == pre.database().testing_after(k as nat).0
                    && seen@[k].1.entries() == pre.database().testing_after(k as nat).1,
                is_test_record(pre.layers(), pre.database(), step as nat, zero, one, mul_add, plus, activate, greater, same, classes, outcomes),
                forall|m: nat| #[trigger] self.database().testing_after(m) == pre.database().testing_after((m + step) as nat),
                self.database().training() == pre.database().training(),
                self.database().testing() == pre.database().testing(),
                self.database().training_cursor() == pre.database().training_cursor(),
                self.database().testing_cursor() as int == (pre.database().testing_cursor() + step) as int % (tsize as int),
                self.epochs() == pre.epochs(),
                self.show_model_outputs() == pre.show_model_outputs(),
                same_shapes(self.layers(), pre.layers()),
                same_params(self.layers(), pre.layers()),
                forall|a: T, x: T, y: T| mul_add.requires((a, x, y)),
                forall|x: T, y: T| plus.requires((x, y)),
                forall|k: K, x: T| activate.requires((k, x)),
                forall|x: T, y: T| greater.requires((x, y)),
                forall|x: T, y: T| same.requires((x, y)),
            decreases size - step,
        {
            let ghost c = self.database().testing_cursor();
            proof {
                lemma_cursor_step(pre.database().testing_cursor() as int, step as int, tsize as int);
                lemma_cursors_in_range(self.database());
                lemma_cursor_step(c as int, 0, tsize as int);
                assert(self.database().testing_after(0) == self.database().testing()[c as int]);
            }
            let ghost db_before = self.database();
            let (input, labels) = self.database.next_testing();
            proof {
                lemma_column_shape(input, self.in_dim());
                lemma_column_shape(labels, self.out_dim());
                assert(db_before.testing_after(0) == pre.database().testing_after(step as nat));
            }
            let ghost mid = self.layers();
            let classifications = self.classify(&input, zero, one, mul_add, plus, activate, greater);
            assert(same_params(self.layers(), pre.layers())) by {
                assert forall|i: int| 0 <= i < self.layers().len() implies (#[trigger] self.layers()[i]).weights() == pre.layers()[i].weights()
                    && self.layers()[i].biases() == pre.layers()[i].biases() && self.layers()[i].activation() == pre.layers()[i].activation() by {
                    assert(mid[i].weights() == pre.layers()[i].weights());
                }
            }
            let matched = classifications.equals(&labels, same);
            if matched {
                correct_predictions = correct_predictions + 1;
            }
            proof {
                let pair = pre.database().testing_after(step as nat);
                assert(classifies(pre.layers(), pair.0, zero, one, mul_add, plus, activate, greater, classifications)) by {
                    assert(classifies(mid, input.entries(), zero, one, mul_add, plus, activate, greater, classifications));
                    let (b0, a0, i0, o0, s0) = choose|before: Seq<HiddenLayer<T, K>>, after: Seq<HiddenLayer<T, K>>, input2: Matrix<T>, out: Matrix<T>, best: Seq<int>|
                        #[trigger] same_params(before, mid)
                        && input2.entries() == input.entries()
                        && #[trigger] is_network_forward(before, after, input2, zero, mul_add, plus, activate, out)
                        && #[trigger] is_max_scan(out.column(0), greater, best)
                        && one_hot_at(classifications, best.last(), zero, one);
                    assert(same_params(b0, pre.layers())) by {
                        assert forall|i: int| 0 <= i < b0.len() implies (#[trigger] b0[i]).weights() == pre.layers()[i].weights()
                            && b0[i].biases() == pre.layers()[i].biases() && b0[i].activation() == pre.layers()[i].activation() by {
                            assert(mid[i].weights() == pre.layers()[i].weights());
                        }
                    }
                }
                assert(labels.entries() == pair.1);
                assert(classifications.same_shape(&labels));
                if matched {
                    assert forall|i: int, j: int| 0 <= i < classifications.nrows() && 0 <= j < classifications.ncols()
                        implies #[trigger] same.ensures((classifications.at(i, j), pair.1[i][j]), true) by {
                        assert(labels.at(i, j) == pair.1[i][j]);
                    }
                } else {
                    let (i, j) = choose|i: int, j: int| 0 <= i < classifications.nrows() && 0 <= j < classifications.ncols()
                        && #[trigger] same.ensures((classifications.at(i, j), labels.at(i, j)), false);
                    assert(labels.at(i, j) == pair.1[i][j]);
                    assert(same.ensures((classifications.at(i, j), pair.1[i][j]), false));
                }
                assert(judged(classifications, pair.1, same, matched));
                let ghost old_outcomes = outcomes;
                let ghost old_classes = classes;
                assert(is_test_record(pre.layers(), pre.database(), step as nat, zero, one, mul_add, plus, activate, greater, same, old_classes, old_outcomes));
                classes = classes.push(classifications);
                outcomes = outcomes.push(matched);
                assert(outcomes.drop_last() =~= old_outcomes);
                assert forall|k: int| 0 <= k < step + 1 implies #[trigger] classifies(pre.layers(), pre.database().testing_after(k as nat).0, zero, one, mul_add, plus, activate, greater, classes[k])
                    && judged(classes[k], pre.database().testing_after(k as nat).1, same, outcomes[k]) by {
                    if k < step {
                        assert(classes[k] == old_classes[k]);
                        assert(outcomes[k] == old_outcomes[k]);
                        assert(classifies(pre.layers(), pre.database().testing_after(k as nat).0, zero, one, mul_add, plus, activate, greater, old_classes[k]));
                    } else {
                        assert(k as nat == step as nat);
                    }
                }
                assert(is_test_record(pre.layers(), pre.database(), (step + 1) as nat, zero, one, mul_add, plus, activate, greater, same,
                    classes, outcomes));
            }
            seen.push((input, labels, classifications));
            step = step + 1;
        }
        assert(is_test_record(pre.layers(), pre.database(), pre.database().training().len(), zero, one, mul_add, plus, activate, greater, same, classes, outcomes));
        (correct_predictions, seen)
    }

    /// Trains until the model is good enough: tests it, and while `enough`
    /// (given the number of right classifications and the training set's
    /// size) says no, redraws every parameter from `sample` and runs a
    /// training round, at most `max_rounds` rounds (`usize::MAX` to keep
    /// going). `on_round` is told the number of each round before it starts.
    /// Returns the number of training rounds run and whether the
    /// last test was good enough.
    #[verifier::spinoff_prover]
    pub fn generate_model<
        MA: Fn(T, T, T) -> T + Copy,
        P: Fn(T, T) -> T + Copy,
        S: Fn(T, T) -> T + Copy,
        M: Fn(T, T) -> T + Copy,
        AC: Fn(K, T) -> T + Copy,
        D: Fn(K, T) -> T + Copy,
        I: Fn(usize) -> T + Copy,
        G: Fn(T, T) -> bool + Copy,
        E: Fn(T, T) -> bool + Copy,
        Q: Fn(usize, usize) -> bool,
        R: Fn() -> T + Copy,
        N: Fn(usize),
    >(
        &mut self,
        enough: Q,
        sample: R,
        on_round: N,
        max_rounds: usize,
        zero: T,
        one: T,
        mul_add: MA,
        plus: P,
        minus: S,
        times: M,
        activate: AC,
        derivative: D,
        inv_count: I,
        rate: T,
        greater: G,
        same: E,
    ) -> (r: (usize, bool))
        requires
            old(self).wf(),
            forall|a: T, x: T, y: T| mul_add.requires((a, x, y)),
            forall|x: T, y: T| plus.requires((x, y)),
            forall|x: T, y: T| minus.requires((x, y)),
            forall|x: T, y: T| times.requires((x, y)),
            forall|k: K, x: T| activate.requires((k, x)),
            forall|k: K, x: T| derivative.requires((k, x)),
            forall|n: usize| inv_count.requires((n,)),
            forall|x: T, y: T| greater.requires((x, y)),
            forall|x: T, y: T| same.requires((x, y)),
            forall|c: usize, n: usize| enough.requires((c, n)),
            sample.requires(()),
            forall|n: usize| on_round.requires((n,)),
        ensures
            final(self).wf(),
            final(self).database().training() == old(self).database().training(),
            final(self).database().testing() == old(self).database().testing(),
            final(self).epochs() == old(self).epochs(),
            final(self).show_model_outputs() == old(self).show_model_outputs(),
            same_shapes(final(self).layers(), old(self).layers()),
            r.0 <= max_rounds,
            !r.1 ==> r.0 == max_rounds,
            r.0 == 0 ==> same_params(final(self).layers(), old(self).layers()),
            was_tested(final(self).layers(), old(self).database().testing(), old(self).database().training().len(), zero, one,
                mul_add, plus, activate, greater, same, enough, r.1),
            exists|fails: Seq<usize>| #[trigger] fails.len() == r.0
                && forall|k: int| 0 <= k < r.0 ==> #[trigger] enough.ensures((fails[k], old(self).database().training().len() as usize), false),
    {
        let ghost pre = *self;
        let size = self.training_set_size();
        let mut rounds: usize = 0;
        let ghost mut fails: Seq<usize> = Seq::empty();
        loop
            invariant
                pre == *old(self),
                fails.len() == rounds,
                forall|k: int| 0 <= k < rounds ==> #[trigger] enough.ensures((fails[k], size), false),
                rounds == 0 ==> same_params(self.layers(), pre.layers()),
                self.wf(),
                pre.wf(),
                size == pre.database().training().len(),
                rounds <= max_rounds,
                self.database().training() == pre.database().training(),
                self.database().testing() == pre.database().testing(),
                self.epochs() == pre.epochs(),
                self.show_model_outputs() == pre.show_model_outputs(),
                same_shapes(self.layers(), pre.layers()),
                forall|a: T, x: T, y: T| mul_add.requires((a, x, y)),
                forall|x: T, y: T| plus.requires((x, y)),
                forall|x: T, y: T| minus.requires((x, y)),
                forall|x: T, y: T| times.requires((x, y)),
                forall|k: K, x: T| activate.requires((k, x)),
                forall|k: K, x: T| derivative.requires((k, x)),
                forall|n: usize| inv_count.requires((n,)),
                forall|x: T, y: T| greater.requires((x, y)),
                forall|x: T, y: T| same.requires((x, y)),
                forall|c: usize, n: usize| enough.requires((c, n)),
                sample.requires(()),
                forall|n: usize| on_round.requires((n,)),
            decreases max_rounds - rounds,
        {
            let ghost tested = self.layers();
            let ghost db = self.database();
            let (correct, _seen) = self.test(zero, one, mul_add, plus, activate, greater, same);
            let good = enough(correct, size);
            proof {
                let (classes, outcomes) = choose|classes: Seq<Matrix<T>>, outcomes: Seq<bool>| #[trigger] is_test_record(
                    tested, db, db.training().len(), zero, one, mul_add, plus, activate, greater, same, classes, outcomes)
                    && correct == count_true(outcomes)
                    && forall|k: int| 0 <= k < _seen@.len() ==> (#[trigger] _seen@[k]).2 == classes[k]
                        && _seen@[k].0.entries() == db.testing_after(k as nat).0
                        && _seen@[k].1.entries() == db.testing_after(k as nat).1;
                assert(is_test_record(tested, db, size as nat, zero, one, mul_add, plus, activate, greater, same, classes, outcomes));
                assert(same_params(self.layers(), tested));
                assert(was_tested(self.layers(), pre.database().testing(), pre.database().training().len(), zero, one,
                    mul_add, plus, activate, greater, same, enough, good));
                if rounds == 0 {
                    assert(same_params(self.layers(), pre.layers())) by {
                        assert forall|i: int| 0 <= i < self.layers().len() implies (#[trigger] self.layers()[i]).weights() == pre.layers()[i].weights()
                            && self.layers()[i].biases() == pre.layers()[i].biases() && self.layers()[i].activation() == pre.layers()[i].activation() by {
                            assert(tested[i].weights() == pre.layers()[i].weights());
                        }
                    }
                }
            }
            if good {
                return (rounds, true);
            }
            if rounds == max_rounds {
                return (rounds, false);
            }
            proof {
                fails = fails.push(correct);
            }
            on_round(rounds + 1);
            let ghost before = self.layers();
            self.reset_model(sample);
            proof {
                assert(same_shapes(self.layers(), pre.layers())) by {
                    assert forall|i: int| 0 <= i < self.layers().len() implies (#[trigger] self.layers()[i]).in_dim() == pre.layers()[i].in_dim()
                        && self.layers()[i].out_dim() == pre.layers()[i].out_dim()
                        && self.layers()[i].activation() == pre.layers()[i].activation() by {
                        assert(before[i].in_dim() == pre.layers()[i].in_dim());
                    }
                }
            }
            self.train(zero, mul_add, plus, minus, times, activate, derivative, inv_count, rate);
            rounds = rounds + 1;
        }
    }

    /// Number of training pairs.
    pub fn training_set_size(&self) -> (r: usize)
        requires
            self.wf(),
        ensures
            r == self.database().training().len(),
    {
        self.database.training_set_size()
    }

    pub fn epochs_of(&self) -> (r: usize)
        ensures
            r == self.epochs(),
    {
        self.epochs
    }

    pub fn shows_model_outputs(&self) -> (r: bool)
        ensures
            r == self.show_model_outputs(),
    {
        self.show_model_outputs
    }

    /// Number of layers.
    pub fn depth_of(&self) -> (r: usize)
        ensures
            r == self.depth(),
    {
        self.layers.len()
    }

    /// Output width and input width of layer `i`.
    pub fn layer_shape(&self, i: usize) -> (r: (usize, usize))
        requires
            i < self.depth(),
        ensures
            r.0 == self.layers()[i as int].out_dim(),
            r.1 == self.layers()[i as int].in_dim(),
    {
        (self.layers[i].out_dim_of(), self.layers[i].in_dim_of())
    }
}

} // verus!
