use vstd::prelude::*;
use crate::matrix::{
    Matrix, is_zip, is_scaled, is_product, is_row_sums, is_transpose, is_tagged_map, is_function2, is_function3,
    lemma_pair_folds_to_unique, lemma_same_elements,
};

verus! {

/// One fully-connected layer: weights (`out_dim x in_dim`), biases
/// (`out_dim x 1`), and the input and pre-activation ("hypothesis") of the
/// last forward pass, which the next backward pass reads.
///
/// `activation` tags which activation the layer applies, fixed when the layer
/// is made. The element arithmetic, and the activation and its derivative as
/// functions of the tag, are handed to each pass as closures.
pub struct HiddenLayer<T, K> {
    weights: Matrix<T>,
    biases: Matrix<T>,
    input_cache: Option<Matrix<T>>,
    hypothesis_cache: Option<Matrix<T>>,
    activation: K,
}

/// `h` is the hypothesis of a layer with weights `w` and biases `b` on input
/// `x`: the product `w . x`, then `b` added element by element.
pub open spec fn is_hypothesis<T, MA: Fn(T, T, T) -> T, P: Fn(T, T) -> T>(
    w: Matrix<T>,
    b: Matrix<T>,
    x: Matrix<T>,
    zero: T,
    mul_add: MA,
    plus: P,
    h: Matrix<T>,
) -> bool {
    exists|d: Matrix<T>| #[trigger] is_product(w, x, zero, mul_add, d) && is_zip(d, b, plus, h)
}

/// `g` is the gradient with respect to the hypothesis `h`: the downstream
/// gradient times, element by element, `derivative` applied to `h`.
pub open spec fn is_hypothesis_grad<T, K, D: Fn(K, T) -> T, M: Fn(T, T) -> T>(
    h: Matrix<T>,
    grad: Matrix<T>,
    derivative: D,
    kind: K,
    times: M,
    g: Matrix<T>,
) -> bool {
    exists|dh: Matrix<T>| #[trigger] is_tagged_map(h, derivative, kind, dh) && is_zip(grad, dh, times, g)
}

/// `w2` is `w` less `rate` times the weight delta `g . transpose(x)`.
pub open spec fn is_weight_update<T, MA: Fn(T, T, T) -> T, M: Fn(T, T) -> T, S: Fn(T, T) -> T>(
    w: Matrix<T>,
    g: Matrix<T>,
    x: Matrix<T>,
    zero: T,
    mul_add: MA,
    times: M,
    minus: S,
    rate: T,
    w2: Matrix<T>,
) -> bool {
    exists|xt: Matrix<T>, wd: Matrix<T>, ws: Matrix<T>|
        #[trigger] is_transpose(x, xt) && #[trigger] is_product(g, xt, zero, mul_add, wd)
        && #[trigger] is_scaled(wd, rate, times, ws) && is_zip(w, ws, minus, w2)
}

/// `b2` is `b` less `rate` times the bias delta: the row sums of `g` scaled
/// by `inv_rows`.
pub open spec fn is_bias_update<T, P: Fn(T, T) -> T, M: Fn(T, T) -> T, S: Fn(T, T) -> T>(
    b: Matrix<T>,
    g: Matrix<T>,
    zero: T,
    plus: P,
    times: M,
    minus: S,
    inv_rows: T,
    rate: T,
    b2: Matrix<T>,
) -> bool {
    exists|cs: Matrix<T>, bd: Matrix<T>, bs: Matrix<T>|
        #[trigger] is_row_sums(g, zero, plus, cs) && #[trigger] is_scaled(cs, inv_rows, times, bd)
        && #[trigger] is_scaled(bd, rate, times, bs) && is_zip(b, bs, minus, b2)
}

/// `next` is the gradient for the layer before: `transpose(w) . g`.
pub open spec fn is_next_grad<T, MA: Fn(T, T, T) -> T>(w: Matrix<T>, g: Matrix<T>, zero: T, mul_add: MA, next: Matrix<T>) -> bool {
    exists|wt: Matrix<T>| #[trigger] is_transpose(w, wt) && is_product(wt, g, zero, mul_add, next)
}

/// Every element of `m` is a value `sample` may return.
pub open spec fn drawn_from<T, R: Fn() -> T>(m: Matrix<T>, sample: R) -> bool {
    forall|i: int, j: int| 0 <= i < m.nrows() && 0 <= j < m.ncols() ==> sample.ensures((), #[trigger] m.at(i, j))
}

/// One forward pass took `before` to `after` on input `x`, returning `y`:
/// parameters and tag kept, `x` cached, the hypothesis cached, and `y` the
/// activation of the hypothesis.
pub open spec fn is_forward<T, K, MA: Fn(T, T, T) -> T, P: Fn(T, T) -> T, AC: Fn(K, T) -> T>(
    before: HiddenLayer<T, K>,
    after: HiddenLayer<T, K>,
    x: Matrix<T>,
    zero: T,
    mul_add: MA,
    plus: P,
    activate: AC,
    y: Matrix<T>,
) -> bool {
    &&& after.wf()
    &&& after.weights() == before.weights()
    &&& after.biases() == before.biases()
    &&& after.activation() == before.activation()
    &&& after.input_cache() matches Some(c) && c.entries() == x.entries() && c.same_shape(&x)
    &&& after.hypothesis_cache() matches Some(h)
        && is_hypothesis(before.weights(), before.biases(), x, zero, mul_add, plus, h)
        && is_tagged_map(h, activate, before.activation(), y)
}

/// One backward pass took `before` to `after` on downstream gradient `grad`,
/// returning `next`. With `g` the gradient with respect to the cached
/// hypothesis, `next` is `transpose(w) . g` for the old weights `w`, the
/// weights move against `rate` times `g . transpose(input)`, and the biases
/// against `rate` times the row sums of `g` scaled by `inv_count(out_dim)`.
/// Caches and tag are kept.
pub open spec fn is_backward<
    T,
    K,
    MA: Fn(T, T, T) -> T,
    P: Fn(T, T) -> T,
    S: Fn(T, T) -> T,
    M: Fn(T, T) -> T,
    D: Fn(K, T) -> T,
    I: Fn(usize) -> T,
>(
    before: HiddenLayer<T, K>,
    after: HiddenLayer<T, K>,
    grad: Matrix<T>,
    zero: T,
    mul_add: MA,
    plus: P,
    minus: S,
    times: M,
    derivative: D,
    inv_count: I,
    rate: T,
    next: Matrix<T>,
) -> bool {
    &&& after.wf()
    &&& after.input_cache() == before.input_cache()
    &&& after.hypothesis_cache() == before.hypothesis_cache()
    &&& after.activation() == before.activation()
    &&& after.weights().same_shape(&before.weights())
    &&& after.biases().same_shape(&before.biases())
    &&& next.wf()
    &&& next.nrows() == before.in_dim()
    &&& next.ncols() == 1
    &&& exists|g: Matrix<T>, inv_rows: T|
        #[trigger] is_hypothesis_grad(before.hypothesis_cache()->0, grad, derivative, before.activation(), times, g)
        && inv_count.ensures((before.out_dim() as usize,), inv_rows)
        && is_next_grad(before.weights(), g, zero, mul_add, next)
        && is_weight_update(before.weights(), g, before.input_cache()->0, zero, mul_add, times, minus, rate, after.weights())
        && #[trigger] is_bias_update(before.biases(), g, zero, plus, times, minus, inv_rows, rate, after.biases())
}

/// Forward passes are free of hidden state: two forward passes on the same
/// input, the second on the layer the first left (so with the same weights
/// and biases), give the same output, provided the closures are functions.
pub proof fn lemma_forward_idempotent<T, K, MA: Fn(T, T, T) -> T, P: Fn(T, T) -> T, AC: Fn(K, T) -> T>(
    l0: HiddenLayer<T, K>,
    l1: HiddenLayer<T, K>,
    l2: HiddenLayer<T, K>,
    x: Matrix<T>,
    zero: T,
    mul_add: MA,
    plus: P,
    activate: AC,
    y1: Matrix<T>,
    y2: Matrix<T>,
)
    requires
        l0.wf(),
        x.wf(),
        x.nrows() == l0.in_dim(),
        x.ncols() == 1,
        is_function3(mul_add),
        is_function2(plus),
        is_function2(activate),
        is_forward(l0, l1, x, zero, mul_add, plus, activate, y1),
        is_forward(l1, l2, x, zero, mul_add, plus, activate, y2),
    ensures
        y1.same_shape(&y2),
        y1.entries() == y2.entries(),
{
    let h1 = l1.hypothesis_cache()->0;
    let h2 = l2.hypothesis_cache()->0;
    let w = l0.weights();
    let b = l0.biases();
    let d1 = choose|d: Matrix<T>| #[trigger] is_product(w, x, zero, mul_add, d) && is_zip(d, b, plus, h1);
    let d2 = choose|d: Matrix<T>| #[trigger] is_product(w, x, zero, mul_add, d) && is_zip(d, b, plus, h2);
    assert forall|i: int, j: int| 0 <= i < w.nrows() && 0 <= j < x.ncols() implies #[trigger] d1.at(i, j) == d2.at(i, j) by {
        lemma_pair_folds_to_unique(mul_add, zero, w.entries()[i], x.column(j), d1.at(i, j), d2.at(i, j));
    }
    assert forall|i: int, j: int| 0 <= i < d1.nrows() && 0 <= j < d1.ncols() implies #[trigger] h1.at(i, j) == h2.at(i, j) by {
        assert(d1.at(i, j) == d2.at(i, j));
        assert(plus.ensures((d1.at(i, j), b.at(i, j)), h1.at(i, j)));
        assert(plus.ensures((d2.at(i, j), b.at(i, j)), h2.at(i, j)));
    }
    let k = l0.activation();
    assert forall|i: int, j: int| 0 <= i < h1.nrows() && 0 <= j < h1.ncols() implies #[trigger] y1.at(i, j) == y2.at(i, j) by {
        assert(h1.at(i, j) == h2.at(i, j));
        assert(activate.ensures((k, h1.at(i, j)), y1.at(i, j)));
        assert(activate.ensures((k, h2.at(i, j)), y2.at(i, j)));
    }
    lemma_same_elements(y1, y2);
}

impl<T, K> HiddenLayer<T, K> {
    pub closed spec fn weights(&self) -> Matrix<T> {
        self.weights
    }

    pub closed spec fn biases(&self) -> Matrix<T> {
        self.biases
    }

    /// The activation tag.
    pub closed spec fn activation(&self) -> K {
        self.activation
    }

    /// The input of the last forward pass, if there was one.
    pub closed spec fn input_cache(&self) -> Option<Matrix<T>> {
        self.input_cache
    }

    /// The hypothesis of the last forward pass, if there was one.
    pub closed spec fn hypothesis_cache(&self) -> Option<Matrix<T>> {
        self.hypothesis_cache
    }

    /// Output width.
    pub open spec fn out_dim(&self) -> nat {
        self.weights().nrows()
    }

    /// Input width.
    pub open spec fn in_dim(&self) -> nat {
        self.weights().ncols()
    }

    /// Parameters well formed and of matching shapes; a cached input is
    /// `in_dim x 1` and a cached hypothesis `out_dim x 1`.
    pub open spec fn wf(&self) -> bool {
        &&& self.weights().wf()
        &&& self.biases().wf()
        &&& self.biases().nrows() == self.out_dim()
        &&& self.biases().ncols() == 1
        &&& (self.input_cache() matches Some(x) ==> x.wf() && x.nrows() == self.in_dim() && x.ncols() == 1)
        &&& (self.hypothesis_cache() matches Some(h) ==> h.wf() && h.nrows() == self.out_dim() && h.ncols() == 1)
    }

    /// A forward pass has filled both caches.
    pub open spec fn has_caches(&self) -> bool {
        self.input_cache() is Some && self.hypothesis_cache() is Some
    }
}

impl<T: Copy, K: Copy> HiddenLayer<T, K> {
    /// A layer of `rows` outputs and `cols` inputs, weights and biases drawn
    /// element by element from `sample`, caches empty.
    pub fn new<R: Fn() -> T>(rows: usize, cols: usize, activation: K, sample: R) -> (r: HiddenLayer<T, K>)
        requires
            sample.requires(()),
        ensures
            r.wf(),
            r.out_dim() == rows,
            r.in_dim() == cols,
            drawn_from(r.weights(), sample),
            drawn_from(r.biases(), sample),
            r.activation() == activation,
            r.input_cache() is None,
            r.hypothesis_cache() is None,
    {
        let weights = Matrix::from_random(rows, cols, &sample);
        let biases = Matrix::from_random(rows, 1, &sample);
        HiddenLayer { weights, biases, input_cache: None, hypothesis_cache: None, activation }
    }

    /// A layer with the given parameters and empty caches.
    pub fn from_parameters(weights: Matrix<T>, biases: Matrix<T>, activation: K) -> (r: HiddenLayer<T, K>)
        requires
            weights.wf(),
            biases.wf(),
            biases.nrows() == weights.nrows(),
            biases.ncols() == 1,
        ensures
            r.wf(),
            r.weights() == weights,
            r.biases() == biases,
            r.activation() == activation,
            r.input_cache() is None,
            r.hypothesis_cache() is None,
    {
        HiddenLayer { weights, biases, input_cache: None, hypothesis_cache: None, activation }
    }

    pub fn activation_of(&self) -> (r: K)
        ensures
            r == self.activation(),
    {
        self.activation
    }

    pub fn out_dim_of(&self) -> (r: usize)
        ensures
            r == self.out_dim(),
    {
        self.weights.rows()
    }

    pub fn in_dim_of(&self) -> (r: usize)
        ensures
            r == self.in_dim(),
    {
        self.weights.cols()
    }

    /// Whether a forward pass has filled the caches.
    pub fn caches_filled(&self) -> (r: bool)
        ensures
            r == self.has_caches(),
    {
        self.input_cache.is_some() && self.hypothesis_cache.is_some()
    }

    /// Redraws weights and biases from `sample`, shapes kept; the caches are
    /// left as they are.
    pub fn reset_weights_and_biases<R: Fn() -> T>(&mut self, sample: R)
        requires
            old(self).wf(),
            sample.requires(()),
        ensures
            final(self).wf(),
            final(self).weights().same_shape(&old(self).weights()),
            final(self).biases().same_shape(&old(self).biases()),
            drawn_from(final(self).weights(), sample),
            drawn_from(final(self).biases(), sample),
            final(self).activation() == old(self).activation(),
            final(self).input_cache() == old(self).input_cache(),
            final(self).hypothesis_cache() == old(self).hypothesis_cache(),
    {
        self.weights = Matrix::from_random(self.weights.rows(), self.weights.cols(), &sample);
        self.biases = Matrix::from_random(self.biases.rows(), 1, &sample);
    }

    /// Forward pass: caches `input`, computes and caches the hypothesis
    /// `weights . input + biases`, and returns `activate(activation, .)`
    /// applied to every element of it. Parameters are not touched.
    pub fn forward<MA: Fn(T, T, T) -> T, P: Fn(T, T) -> T, AC: Fn(K, T) -> T>(
        &mut self,
        input: &Matrix<T>,
        zero: T,
        mul_add: MA,
        plus: P,
        activate: AC,
    ) -> (r: Matrix<T>)
        requires
            old(self).wf(),
            input.wf(),
            input.nrows() == old(self).in_dim(),
            input.ncols() == 1,
            forall|a: T, x: T, y: T| mul_add.requires((a, x, y)),
            forall|x: T, y: T| plus.requires((x, y)),
            forall|k: K, x: T| activate.requires((k, x)),
        ensures
            is_forward(*old(self), *final(self), *input, zero, mul_add, plus, activate, r),
    {
        let d = self.weights.dot_product(input, zero, &mul_add);
        let h = d.zip_with(&self.biases, plus);
        let kind = self.activation;
        let activate_ref = &activate;
        let act = |x: T| -> (y: T)
            ensures
                activate_ref.ensures((kind, x), y),
        { activate_ref(kind, x) };
        let r = h.map(act);
        assert forall|a: int, b: int| 0 <= a < h.nrows() && 0 <= b < h.ncols() implies activate.ensures((kind, h.at(a, b)), #[trigger] r.at(a, b)) by {
            assert(act.ensures((h.at(a, b),), r.at(a, b)));
        }
        assert(is_hypothesis(self.weights, self.biases, *input, zero, mul_add, plus, h));
        self.input_cache = Some(input.duplicate());
        self.hypothesis_cache = Some(h);
        assert(is_tagged_map(h, activate, kind, r));
        r
    }

    /// Backward pass on the caches of the last forward pass. With `g` the
    /// gradient with respect to the hypothesis, it returns `transpose(w) . g`
    /// for the layer before, computed with the weights as they were, and
    /// then moves each parameter against its delta scaled by `rate`: the
    /// weights by `g . transpose(input)`, the biases by the row sums of `g`
    /// times `inv_count(out_dim)`. The caches stay as they were.
    pub fn backward<
        MA: Fn(T, T, T) -> T,
        P: Fn(T, T) -> T,
        S: Fn(T, T) -> T,
        M: Fn(T, T) -> T,
        D: Fn(K, T) -> T,
        I: Fn(usize) -> T,
    >(
        &mut self,
        downstream_grad: &Matrix<T>,
        zero: T,
        mul_add: MA,
        plus: P,
        minus: S,
        times: M,
        derivative: D,
        inv_count: I,
        rate: T,
    ) -> (r: Matrix<T>)
        requires
            old(self).wf(),
            old(self).has_caches(),
            downstream_grad.wf(),
            downstream_grad.nrows() == old(self).out_dim(),
            downstream_grad.ncols() == 1,
            forall|a: T, x: T, y: T| mul_add.requires((a, x, y)),
            forall|x: T, y: T| plus.requires((x, y)),
            forall|x: T, y: T| minus.requires((x, y)),
            forall|x: T, y: T| times.requires((x, y)),
            forall|k: K, x: T| derivative.requires((k, x)),
            forall|n: usize| inv_count.requires((n,)),
        ensures
            is_backward(*old(self), *final(self), *downstream_grad, zero, mul_add, plus, minus, times, derivative, inv_count, rate, r),
    {
        let ghost pre = *self;
        let hypothesis = match &self.hypothesis_cache {
            Some(h) => h,
            None => { proof { assert(false); } return self.weights.transpose(); },
        };
        let input = match &self.input_cache {
            Some(x) => x,
            None => { proof { assert(false); } return self.weights.transpose(); },
        };
        let kind = self.activation;
        let derivative_ref = &derivative;
        let slope = |x: T| -> (y: T)
            ensures
                derivative_ref.ensures((kind, x), y),
        { derivative_ref(kind, x) };
        let dh = hypothesis.map(slope);
        assert forall|a: int, b: int| 0 <= a < hypothesis.nrows() && 0 <= b < hypothesis.ncols() implies derivative.ensures((kind, hypothesis.at(a, b)), #[trigger] dh.at(a, b)) by {
            assert(slope.ensures((hypothesis.at(a, b),), dh.at(a, b)));
        }
        assert(is_tagged_map(*hypothesis, derivative, kind, dh));
        let g = downstream_grad.zip_with(&dh, &times);
        assert(is_hypothesis_grad(*hypothesis, *downstream_grad, derivative, kind, times, g));

        let xt = input.transpose();
        let wd = g.dot_product(&xt, zero, &mul_add);
        let cs = Matrix::colwise_sum_maintain_dim(&g, zero, plus);
        let inv_rows = inv_count(g.rows());
        let bd = Matrix::apply_scalar(&cs, inv_rows, &times);
        assert(is_scaled(cs, inv_rows, times, bd));

        let wt = self.weights.transpose();
        let next = wt.dot_product(&g, zero, &mul_add);
        assert(is_next_grad(self.weights, g, zero, mul_add, next));

        let ws = Matrix::apply_scalar(&wd, rate, &times);
        let bs = Matrix::apply_scalar(&bd, rate, &times);
        assert(is_scaled(wd, rate, times, ws));
        assert(is_scaled(bd, rate, times, bs));
        self.weights.zip_assign(&ws, &minus);
        self.biases.zip_assign(&bs, &minus);
        assert(is_zip(pre.weights, ws, minus, self.weights));
        assert(is_zip(pre.biases, bs, minus, self.biases));
        assert(is_transpose(*input, xt));
        assert(is_product(g, xt, zero, mul_add, wd));
        assert(is_row_sums(g, zero, plus, cs));
        assert(is_weight_update(pre.weights, g, *input, zero, mul_add, times, minus, rate, self.weights));
        assert(is_bias_update(pre.biases, g, zero, plus, times, minus, inv_rows, rate, self.biases));
        assert(pre.hypothesis_cache()->0 == *hypothesis);
        assert(pre.input_cache()->0 == *input);
        assert(is_backward(pre, *self, *downstream_grad, zero, mul_add, plus, minus, times, derivative, inv_count, rate, next)) by {
            assert(is_hypothesis_grad(pre.hypothesis_cache()->0, *downstream_grad, derivative, pre.activation(), times, g));
            assert(is_bias_update(pre.biases(), g, zero, plus, times, minus, inv_rows, rate, self.biases()));
        }
        next
    }
}

} // verus!
