//! A feed-forward network trained by backpropagation. Its scalar arithmetic
//! and activation come from a `Scalars` implementation, whose methods carry
//! no contract of their own; the network's contracts state what it computes
//! in terms of what those methods return (`plus_of`, `activate_of`, ...).
//! It owns every matrix it works in, sized once from the topology and
//! reused by each forward and backward pass.

use vstd::prelude::*;
use crate::matrix::{Matrix, Layout, unflatten, column_vector, transposed, has_shape, column, folds_to};

verus! {

/// The scalar operations a network computes with.
pub trait Scalars<T> {
    /// The additive identity.
    fn zero(&self) -> T;

    /// `x + y`.
    fn plus(&self, x: T, y: T) -> T;

    /// `x - y`.
    fn minus(&self, x: T, y: T) -> T;

    /// `x * y`.
    fn times(&self, x: T, y: T) -> T;

    /// The activation applied to each neuron's weighted input.
    fn activate(&self, x: T) -> T;

    /// The derivative of the activation, given the activation's output `y`
    /// at that point.
    fn activate_slope(&self, y: T) -> T;

    /// A fresh starting value for a weight or a bias.
    fn initial_weight(&mut self) -> T;

    /// The learning rate a new network starts with.
    fn default_rate(&self) -> T;
}

/// `r` is a result `s.plus(x, y)` may return.
pub open spec fn plus_of<T, S: Scalars<T>>(s: &S, x: T, y: T, r: T) -> bool {
    call_ensures(S::plus, (s, x, y), r)
}

/// `r` is a result `s.minus(x, y)` may return.
pub open spec fn minus_of<T, S: Scalars<T>>(s: &S, x: T, y: T, r: T) -> bool {
    call_ensures(S::minus, (s, x, y), r)
}

/// `r` is a result `s.times(x, y)` may return.
pub open spec fn times_of<T, S: Scalars<T>>(s: &S, x: T, y: T, r: T) -> bool {
    call_ensures(S::times, (s, x, y), r)
}

/// `r` is a result `s.activate(x)` may return.
pub open spec fn activate_of<T, S: Scalars<T>>(s: &S, x: T, r: T) -> bool {
    call_ensures(S::activate, (s, x), r)
}

/// `r` is a result `s.activate_slope(y)` may return.
pub open spec fn slope_of<T, S: Scalars<T>>(s: &S, y: T, r: T) -> bool {
    call_ensures(S::activate_slope, (s, y), r)
}

/// `r` is a result `s.default_rate()` may return.
pub open spec fn default_rate_of<T, S: Scalars<T>>(s: &S, r: T) -> bool {
    call_ensures(S::default_rate, (s,), r)
}

/// `z` is a result `s.zero()` may return.
pub open spec fn zero_of<T, S: Scalars<T>>(s: &S, z: T) -> bool {
    call_ensures(S::zero, (s,), z)
}

/// `r` may come of starting from `zero` and adding, with `s.plus`, the
/// products `s.times(u[t], v[t])` for `t` from `0` below `k`, in that order.
pub open spec fn dot_of<T, S: Scalars<T>>(s: &S, zero: T, u: Seq<T>, v: Seq<T>, k: nat, r: T) -> bool
    decreases k,
{
    if k == 0 {
        r == zero
    } else {
        exists|a: T, b: T|
            #[trigger] plus_of(s, a, b, r) && dot_of(s, zero, u, v, (k - 1) as nat, a) && times_of(s, u[k - 1], v[k - 1], b)
    }
}

/// `r` is a product of `a` (with `inner` columns) and `b` (with `columns`
/// columns) computed with the scalars `s` from `zero`.
pub open spec fn product_of<T, S: Scalars<T>>(
    s: &S,
    zero: T,
    a: Seq<Seq<T>>,
    b: Seq<Seq<T>>,
    inner: nat,
    columns: nat,
    r: Seq<Seq<T>>,
) -> bool {
    &&& has_shape(r, a.len(), columns)
    &&& forall|i: int, j: int|
        0 <= i < a.len() && 0 <= j < columns ==> dot_of(s, zero, a[i], column(b, j), inner, #[trigger] r[i][j])
}

/// `r` is `a + b`, entry by entry, computed with `s.plus`.
pub open spec fn sum_of<T, S: Scalars<T>>(s: &S, a: Seq<Seq<T>>, b: Seq<Seq<T>>, r: Seq<Seq<T>>) -> bool {
    &&& r.len() == a.len()
    &&& forall|i: int| 0 <= i < a.len() ==> #[trigger] r[i].len() == a[i].len()
    &&& forall|i: int, j: int| 0 <= i < a.len() && 0 <= j < a[i].len() ==> plus_of(s, a[i][j], b[i][j], #[trigger] r[i][j])
}

/// `r` is `a` with the activation applied to each entry.
pub open spec fn activated<T, S: Scalars<T>>(s: &S, a: Seq<Seq<T>>, r: Seq<Seq<T>>) -> bool {
    &&& r.len() == a.len()
    &&& forall|i: int| 0 <= i < a.len() ==> #[trigger] r[i].len() == a[i].len()
    &&& forall|i: int, j: int| 0 <= i < a.len() && 0 <= j < a[i].len() ==> activate_of(s, a[i][j], #[trigger] r[i][j])
}

/// `y` is the output of a layer with weights `w` (with `inner` columns) and
/// bias `bias` on the column `x`: `activate(w · x + bias)`.
pub open spec fn layer_output<T, S: Scalars<T>>(
    s: &S,
    w: Seq<Seq<T>>,
    inner: nat,
    bias: Seq<Seq<T>>,
    x: Seq<Seq<T>>,
    y: Seq<Seq<T>>,
) -> bool {
    exists|zero: T, p: Seq<Seq<T>>, q: Seq<Seq<T>>|
        #![trigger product_of(s, zero, w, x, inner, 1, p), sum_of(s, p, bias, q)]
        zero_of(s, zero) && product_of(s, zero, w, x, inner, 1, p) && sum_of(s, p, bias, q) && activated(s, q, y)
}

/// `acts` are the activations of a forward pass of the column `x` through
/// layers with the given weights and biases: each layer's output is computed from the input (for the first)
/// or from the activation of the layer before.
pub open spec fn forward_pass<T, S: Scalars<T>>(
    s: &S,
    params: Seq<(Seq<Seq<T>>, Seq<Seq<T>>)>,
    x: Seq<Seq<T>>,
    acts: Seq<Seq<Seq<T>>>,
) -> bool {
    &&& acts.len() == params.len()
    &&& forall|k: int|
        0 <= k < params.len() ==> #[trigger] layer_output(
            s,
            params[k].0,
            layer_input(x, acts, k).len(),
            params[k].1,
            layer_input(x, acts, k),
            acts[k],
        )
}

/// The input of layer `k`: `x` for the first layer, else the activation
/// of the layer before.
pub open spec fn layer_input<T>(x: Seq<Seq<T>>, acts: Seq<Seq<Seq<T>>>, k: int) -> Seq<Seq<T>> {
    if k == 0 {
        x
    } else {
        acts[k - 1]
    }
}

/// `r` is `a - b`, entry by entry, computed with `s.minus`.
pub open spec fn difference_of<T, S: Scalars<T>>(s: &S, a: Seq<Seq<T>>, b: Seq<Seq<T>>, r: Seq<Seq<T>>) -> bool {
    &&& r.len() == a.len()
    &&& forall|i: int| 0 <= i < a.len() ==> #[trigger] r[i].len() == a[i].len()
    &&& forall|i: int, j: int| 0 <= i < a.len() && 0 <= j < a[i].len() ==> minus_of(s, a[i][j], b[i][j], #[trigger] r[i][j])
}

/// `r` is `a ⊙ b`, entry by entry, computed with `s.times`.
pub open spec fn hadamard_of<T, S: Scalars<T>>(s: &S, a: Seq<Seq<T>>, b: Seq<Seq<T>>, r: Seq<Seq<T>>) -> bool {
    &&& r.len() == a.len()
    &&& forall|i: int| 0 <= i < a.len() ==> #[trigger] r[i].len() == a[i].len()
    &&& forall|i: int, j: int| 0 <= i < a.len() && 0 <= j < a[i].len() ==> times_of(s, a[i][j], b[i][j], #[trigger] r[i][j])
}

/// `r` is `a` with each entry multiplied by `c` with `s.times`.
pub open spec fn scaled_of<T, S: Scalars<T>>(s: &S, a: Seq<Seq<T>>, c: T, r: Seq<Seq<T>>) -> bool {
    &&& r.len() == a.len()
    &&& forall|i: int| 0 <= i < a.len() ==> #[trigger] r[i].len() == a[i].len()
    &&& forall|i: int, j: int| 0 <= i < a.len() && 0 <= j < a[i].len() ==> times_of(s, a[i][j], c, #[trigger] r[i][j])
}

/// `r` is the slope of the activation at each entry of the activation
/// output `a`.
pub open spec fn sloped<T, S: Scalars<T>>(s: &S, a: Seq<Seq<T>>, r: Seq<Seq<T>>) -> bool {
    &&& r.len() == a.len()
    &&& forall|i: int| 0 <= i < a.len() ==> #[trigger] r[i].len() == a[i].len()
    &&& forall|i: int, j: int| 0 <= i < a.len() && 0 <= j < a[i].len() ==> slope_of(s, a[i][j], #[trigger] r[i][j])
}

/// One backward step on a layer with weights `w` and bias `b`, input `x`
/// (a column), activation `y` and output error `e`, at learning rate `lr`:
/// the gradient is `g = lr * (slope(y) ⊙ e)`, and the new weights and bias
/// are `w2 = w + g · xᵀ` and `b2 = b + g`.
pub open spec fn backward_step<T, S: Scalars<T>>(
    s: &S,
    lr: T,
    w: Seq<Seq<T>>,
    b: Seq<Seq<T>>,
    x: Seq<Seq<T>>,
    y: Seq<Seq<T>>,
    e: Seq<Seq<T>>,
    w2: Seq<Seq<T>>,
    b2: Seq<Seq<T>>,
) -> bool {
    exists|zero: T, g1: Seq<Seq<T>>, g2: Seq<Seq<T>>, g: Seq<Seq<T>>, d: Seq<Seq<T>>|
        #![trigger sloped(s, y, g1), hadamard_of(s, g1, e, g2), product_of(s, zero, g, transposed(x, 1), 1, x.len(), d)]
        {
            &&& zero_of(s, zero)
            &&& sloped(s, y, g1)
            &&& hadamard_of(s, g1, e, g2)
            &&& scaled_of(s, g2, lr, g)
            &&& product_of(s, zero, g, transposed(x, 1), 1, x.len(), d)
            &&& sum_of(s, w, d, w2)
            &&& sum_of(s, b, g, b2)
        }
}

/// `e_prev` is the error a layer with weights `w` (with `inner` columns)
/// passes back for the error `e` at its output: `wᵀ · e`.
pub open spec fn propagated<T, S: Scalars<T>>(s: &S, w: Seq<Seq<T>>, inner: nat, e: Seq<Seq<T>>, e_prev: Seq<Seq<T>>) -> bool {
    exists|zero: T| #[trigger] zero_of(s, zero) && product_of(s, zero, transposed(w, inner), e, w.len(), 1, e_prev)
}

/// `errs[k]` is the error at the output of layer `k` during a backward
/// pass from the target column `target`: the last is `target - output`,
/// each earlier one is what the layer after passes back with its weights
/// before the update, and each layer's new weights and bias are what one
/// backward step makes of them.
pub open spec fn error_chain<T, S: Scalars<T>>(
    s: &S,
    lr: T,
    params: Seq<(Seq<Seq<T>>, Seq<Seq<T>>)>,
    x: Seq<Seq<T>>,
    acts: Seq<Seq<Seq<T>>>,
    target: Seq<Seq<T>>,
    new_params: Seq<(Seq<Seq<T>>, Seq<Seq<T>>)>,
    errs: Seq<Seq<Seq<T>>>,
) -> bool {
    let n = params.len();
    &&& errs.len() == n
    &&& difference_of(s, target, acts[n - 1], errs[n - 1])
    &&& forall|k: int|
        0 <= k < n ==> #[trigger] backward_step(
            s,
            lr,
            params[k].0,
            params[k].1,
            layer_input(x, acts, k),
            acts[k],
            errs[k],
            new_params[k].0,
            new_params[k].1,
        )
    &&& forall|k: int|
        0 < k < n ==> #[trigger] propagated(s, params[k].0, layer_input(x, acts, k).len(), errs[k], errs[k - 1])
}

/// `new_params` are what one backpropagation step makes of `params`, given
/// the activations `acts` of the forward pass of `x` and the target column
/// `target`.
pub open spec fn backpropagated<T, S: Scalars<T>>(
    s: &S,
    lr: T,
    params: Seq<(Seq<Seq<T>>, Seq<Seq<T>>)>,
    x: Seq<Seq<T>>,
    acts: Seq<Seq<Seq<T>>>,
    target: Seq<Seq<T>>,
    new_params: Seq<(Seq<Seq<T>>, Seq<Seq<T>>)>,
) -> bool {
    &&& new_params.len() == params.len()
    &&& exists|errs: Seq<Seq<Seq<T>>>| #[trigger] error_chain(s, lr, params, x, acts, target, new_params, errs)
}

/// A fold with closures whose results are results of the scalars' `plus`
/// and `times` is a fold with the scalars.
proof fn lemma_dot_of<T, S: Scalars<T>, A: Fn(T, T) -> T, M: Fn(T, T) -> T>(
    s: &S,
    plus: A,
    times: M,
    zero: T,
    u: Seq<T>,
    v: Seq<T>,
    k: nat,
    r: T,
)
    requires
        forall|x: T, y: T, z: T| plus.ensures((x, y), z) ==> plus_of(s, x, y, z),
        forall|x: T, y: T, z: T| times.ensures((x, y), z) ==> times_of(s, x, y, z),
        folds_to(plus, times, zero, u, v, k, r),
    ensures
        dot_of(s, zero, u, v, k, r),
    decreases k,
{
    if k > 0 {
        let (a, b) = choose|a: T, b: T|
            #[trigger] plus.ensures((a, b), r) && folds_to(plus, times, zero, u, v, (k - 1) as nat, a)
                && times.ensures((u[k - 1], v[k - 1]), b);
        lemma_dot_of(s, plus, times, zero, u, v, (k - 1) as nat, a);
        assert(plus_of(s, a, b, r));
    }
}

impl<T: Copy> Matrix<T> {
    /// Applies the activation of `s` (the logistic sigmoid, in a network
    /// of floats) to every entry, in place.
    pub fn sigmoid<S: Scalars<T>>(&mut self, s: &S)
        requires
            old(self).wf(),
        ensures
            final(self).wf(),
            final(self).nrows() == old(self).nrows(),
            final(self).ncols() == old(self).ncols(),
            activated(s, old(self)@, final(self)@),
    {
        let act = |a: T| -> (r: T)
            ensures
                activate_of(s, a, r),
        { s.activate(a) };
        self.apply(&act);
    }

    /// Writes the slope of the activation of `s` at each entry of `self`,
    /// read as an output of the activation, into `out`, which has the shape
    /// of `self`.
    pub fn dsigmoid<S: Scalars<T>>(&self, s: &S, out: &mut Self)
        requires
            self.wf(),
            old(out).wf(),
            old(out).nrows() == self.nrows(),
            old(out).ncols() == self.ncols(),
        ensures
            final(out).wf(),
            final(out).nrows() == self.nrows(),
            final(out).ncols() == self.ncols(),
            sloped(s, self@, final(out)@),
    {
        let slope = |a: T| -> (r: T)
            ensures
                slope_of(s, a, r),
        { s.activate_slope(a) };
        self.map_into(&slope, out);
    }
}

/// One affine transform followed by the activation, with the matrices that
/// a training step works in.
pub struct Layer<T> {
    /// `outputs × inputs`.
    pub weights: Matrix<T>,
    /// `outputs × 1`.
    pub bias: Matrix<T>,
    /// `outputs × 1`: the scaled error gradient of the last training step.
    pub gradients: Matrix<T>,
    /// `1 × inputs`: the transposed input of the last training step.
    pub transposed: Matrix<T>,
    /// `inputs × outputs`: the transposed weights, through which the error
    /// travels to the layer before.
    pub weights_t: Matrix<T>,
    /// `outputs × inputs`: the weight change of the last training step.
    pub weights_deltas: Matrix<T>,
}

/// `m` is well formed with `rows` rows and `columns` columns.
pub open spec fn shaped<T>(m: Matrix<T>, rows: nat, columns: nat) -> bool {
    m.wf() && m.nrows() == rows && m.ncols() == columns
}

impl<T> Layer<T> {
    /// Every matrix of the layer has the shape that `inputs` and `outputs`
    /// give it.
    pub open spec fn wf(&self, inputs: nat, outputs: nat) -> bool {
        &&& shaped(self.weights, outputs, inputs)
        &&& shaped(self.bias, outputs, 1)
        &&& shaped(self.gradients, outputs, 1)
        &&& shaped(self.transposed, 1, inputs)
        &&& shaped(self.weights_t, inputs, outputs)
        &&& shaped(self.weights_deltas, outputs, inputs)
    }
}

/// Widths as natural numbers.
pub open spec fn as_widths(v: Seq<usize>) -> Seq<nat> {
    v.map_values(|x: usize| x as nat)
}

/// The number of neurons of each layer: one layer per hidden width, then
/// the output layer.
pub open spec fn architecture(hidden: Seq<usize>, n_output: nat) -> Seq<nat> {
    as_widths(hidden).push(n_output)
}

/// The number of inputs of layer `k` of a network of the given widths.
pub open spec fn fan_in(n_input: nat, widths: Seq<nat>, k: int) -> nat {
    if k == 0 {
        n_input
    } else {
        widths[k - 1]
    }
}

/// Each layer's weight matrix fits in memory.
pub open spec fn sizes_fit(n_input: nat, widths: Seq<nat>) -> bool {
    forall|k: int| 0 <= k < widths.len() ==> #[trigger] widths[k] * fan_in(n_input, widths, k) <= usize::MAX
}

/// A sequence of layers, the activation of each from the last forward pass,
/// and the learning rate.
pub struct NeuralNetwork<T, S: Scalars<T>> {
    layers: Vec<Layer<T>>,
    results: Vec<Matrix<T>>,
    learning_rate: T,
    n_input: usize,
    scalars: S,
}

impl<T: Copy, S: Scalars<T>> NeuralNetwork<T, S> {
    /// The number of inputs.
    pub closed spec fn input_size(&self) -> nat {
        self.n_input as nat
    }

    /// The number of neurons of each layer, first to last.
    pub closed spec fn widths(&self) -> Seq<nat> {
        self.layers@.map_values(|l: Layer<T>| l.weights.nrows())
    }

    /// The weights and bias of each layer, first to last.
    pub closed spec fn parameters(&self) -> Seq<(Seq<Seq<T>>, Seq<Seq<T>>)> {
        self.layers@.map_values(|l: Layer<T>| (l.weights@, l.bias@))
    }

    /// The activation of each layer from the last forward pass.
    pub closed spec fn activations(&self) -> Seq<Seq<Seq<T>>> {
        self.results@.map_values(|m: Matrix<T>| m@)
    }

    /// The layers, first to last.
    pub closed spec fn layer_list(&self) -> Seq<Layer<T>> {
        self.layers@
    }

    /// The activation buffers, first to last.
    pub closed spec fn result_buffers(&self) -> Seq<Matrix<T>> {
        self.results@
    }

    /// Layer `k` has `fan_in(input_size, widths, k)` inputs and `widths[k]`
    /// outputs; its weights, bias and scratch buffers, and its activation
    /// buffer, have the shapes these fix.
    pub open spec fn buffers_sized(&self) -> bool {
        &&& self.widths().len() >= 1
        &&& self.layer_list().len() == self.widths().len()
        &&& self.result_buffers().len() == self.widths().len()
        &&& forall|k: int|
            0 <= k < self.widths().len() ==> #[trigger] self.layer_list()[k].wf(
                fan_in(self.input_size(), self.widths(), k),
                self.widths()[k],
            )
        &&& forall|k: int| 0 <= k < self.widths().len() ==> shaped(#[trigger] self.result_buffers()[k], self.widths()[k], 1)
    }

    /// A well-formed network has every buffer sized from its topology.
    pub proof fn lemma_buffers_sized(&self)
        requires
            self.wf(),
        ensures
            self.buffers_sized(),
    {
    }

    /// The scalar operations.
    pub closed spec fn scalars(&self) -> S {
        self.scalars
    }

    /// The learning rate.
    pub closed spec fn rate(&self) -> T {
        self.learning_rate
    }

    /// At least one layer; layer `k` takes the input (for `k == 0`) or the
    /// activation of layer `k - 1`; every buffer has the shape this fixes.
    pub closed spec fn wf(&self) -> bool {
        &&& self.layers@.len() >= 1
        &&& self.results@.len() == self.layers@.len()
        &&& forall|k: int|
            0 <= k < self.layers@.len() ==> #[trigger] self.layers@[k].wf(
                fan_in(self.n_input as nat, self.widths(), k),
                self.widths()[k],
            )
        &&& forall|k: int| 0 <= k < self.results@.len() ==> shaped(#[trigger] self.results@[k], self.widths()[k], 1)
    }
}

/// A `rows × columns` matrix of fresh starting values.
fn initial_matrix<T, S: Scalars<T>>(scalars: &mut S, rows: usize, columns: usize) -> (r: Matrix<T>)
    requires
        rows * columns <= usize::MAX,
    ensures
        shaped(r, rows as nat, columns as nat),
{
    let n = rows * columns;
    let mut v: Vec<T> = Vec::with_capacity(n);
    let mut k: usize = 0;
    while k < n
        invariant
            k <= n,
            v@.len() == k,
        decreases n - k,
    {
        v.push(scalars.initial_weight());
        k += 1;
    }
    Matrix::from_row_major(v, rows, columns)
}

/// The widths `hidden ++ [n_output]`.
fn build_architecture(hidden: &Vec<usize>, n_output: usize) -> (r: Vec<usize>)
    ensures
        as_widths(r@) == architecture(hidden@, n_output as nat),
{
    let mut arch: Vec<usize> = Vec::new();
    let mut k: usize = 0;
    while k < hidden.len()
        invariant
            k <= hidden@.len(),
            arch@ == hidden@.subrange(0, k as int),
        decreases hidden@.len() - k,
    {
        arch.push(hidden[k]);
        k += 1;
        assert(arch@ =~= hidden@.subrange(0, k as int));
    }
    arch.push(n_output);
    assert(as_widths(arch@) =~= architecture(hidden@, n_output as nat));
    arch
}

impl<T: Copy, S: Scalars<T>> NeuralNetwork<T, S> {
    /// A network with `n_input` inputs, one layer for each width of `hidden`
    /// and an output layer of `n_output` neurons; the first layer reads the
    /// input and each later one the activation of the layer before. Its
    /// weights and biases are drawn from
    /// `scalars.initial_weight()`, its learning rate `scalars.default_rate()`.
    pub fn new(n_input: usize, hidden: Vec<usize>, n_output: usize, scalars: S) -> (r: Self)
        requires
            hidden@.len() > 0,
            n_output > 0,
            sizes_fit(n_input as nat, architecture(hidden@, n_output as nat)),
        ensures
            r.wf(),
            r.buffers_sized(),
            r.input_size() == n_input,
            r.widths() == architecture(hidden@, n_output as nat),
            default_rate_of(&r.scalars(), r.rate()),
    {
        let mut scalars = scalars;
        let arch = build_architecture(&hidden, n_output);
        let ghost widths = architecture(hidden@, n_output as nat);
        let mut layers: Vec<Layer<T>> = Vec::new();
        let mut results: Vec<Matrix<T>> = Vec::new();
        let mut prev = n_input;
        let mut k: usize = 0;
        while k < arch.len()
            invariant
                as_widths(arch@) == widths,
                sizes_fit(n_input as nat, widths),
                k <= arch@.len(),
                layers@.len() == k,
                results@.len() == k,
                prev == fan_in(n_input as nat, widths, k as int),
                forall|t: int| 0 <= t < k ==> (#[trigger] layers@[t]).weights.nrows() == widths[t],
                forall|t: int|
                    0 <= t < k ==> #[trigger] layers@[t].wf(fan_in(n_input as nat, widths, t), widths[t]),
                forall|t: int| 0 <= t < k ==> shaped(#[trigger] results@[t], widths[t], 1),
            decreases arch@.len() - k,
        {
            let w = arch[k];
            proof {
                assert(widths[k as int] == w);
                assert(widths[k as int] * fan_in(n_input as nat, widths, k as int) <= usize::MAX);
                assert(w * prev == prev * w) by (nonlinear_arith);
            }
            let weights = initial_matrix(&mut scalars, w, prev);
            let bias = initial_matrix(&mut scalars, w, 1);
            let zero = scalars.zero();
            let layer = Layer {
                weights,
                bias,
                gradients: Matrix::filled(w, 1, zero),
                transposed: Matrix::filled(1, prev, zero),
                weights_t: Matrix::filled(prev, w, zero),
                weights_deltas: Matrix::filled(w, prev, zero),
            };
            layers.push(layer);
            results.push(Matrix::filled(w, 1, zero));
            prev = w;
            k += 1;
        }
        let learning_rate = scalars.default_rate();
        let r = NeuralNetwork { layers, results, learning_rate, n_input, scalars };
        assert(r.widths() =~= widths);
        r
    }

    /// Sets the learning rate.
    pub fn set_learning_rate(&mut self, lr: T)
        requires
            old(self).wf(),
        ensures
            final(self).wf(),
            final(self).buffers_sized(),
            final(self).rate() == lr,
            final(self).scalars() == old(self).scalars(),
            final(self).input_size() == old(self).input_size(),
            final(self).widths() == old(self).widths(),
            final(self).parameters() == old(self).parameters(),
    {
        self.learning_rate = lr;
        assert(self.widths() == old(self).widths());
    }

    /// Runs the input `x` through every layer, leaving each layer's
    /// activation `activate(weights · previous + bias)` in its buffer.
    fn forward(&mut self, x: &Matrix<T>)
        requires
            old(self).wf(),
            shaped(*x, old(self).input_size(), 1),
        ensures
            final(self).wf(),
            final(self).layers == old(self).layers,
            final(self).n_input == old(self).n_input,
            final(self).learning_rate == old(self).learning_rate,
            final(self).scalars == old(self).scalars,
            forward_pass(&final(self).scalars, final(self).parameters(), x@, final(self).activations()),
    {
        let sc = &self.scalars;
        let plus = |a: T, b: T| -> (r: T)
            ensures
                plus_of(sc, a, b, r),
        { sc.plus(a, b) };
        let times = |a: T, b: T| -> (r: T)
            ensures
                times_of(sc, a, b, r),
        { sc.times(a, b) };
        let zero = sc.zero();
        let n = self.layers.len();
        let mut k: usize = 0;
        while k < n
            invariant
                self.wf(),
                self.layers == old(self).layers,
                self.n_input == old(self).n_input,
                self.learning_rate == old(self).learning_rate,
                *sc == self.scalars,
                self.scalars == old(self).scalars,
                shaped(*x, self.input_size(), 1),
                n == self.layers@.len(),
                k <= n,
                forall|a: T, b: T| plus.requires((a, b)),
                forall|a: T, b: T| times.requires((a, b)),
                forall|a: T, b: T, r: T| plus.ensures((a, b), r) ==> plus_of(sc, a, b, r),
                forall|a: T, b: T, r: T| times.ensures((a, b), r) ==> times_of(sc, a, b, r),
                zero_of(sc, zero),
                forall|t: int|
                    0 <= t < k ==> #[trigger] layer_output(
                        sc,
                        self.parameters()[t].0,
                        layer_input(x@, self.activations(), t).len(),
                        self.parameters()[t].1,
                        layer_input(x@, self.activations(), t),
                        self.activations()[t],
                    ),
            decreases n - k,
        {
            let ghost widths = self.widths();
            let ghost before = self.results@;
            let ghost acts0 = self.activations();
            let ghost params = self.parameters();
            let ghost input = layer_input(x@, acts0, k as int);
            assert(self.layers@[k as int].wf(fan_in(self.n_input as nat, widths, k as int), widths[k as int]));
            assert(shaped(self.results@[k as int], widths[k as int], 1));
            let mut cur = Matrix::from_row_major(Vec::new(), 0, 0);
            std::mem::swap(&mut self.results[k], &mut cur);
            if k == 0 {
                self.layers[0].weights.product_into_with(x, &mut cur, zero, &plus, &times);
            } else {
                assert(shaped(self.results@[k - 1], widths[k - 1], 1));
                assert(acts0[k - 1] == self.results@[k - 1]@);
                self.layers[k].weights.product_into_with(&self.results[k - 1], &mut cur, zero, &plus, &times);
            }
            let ghost p = cur@;
            cur.combine(&self.layers[k].bias, &plus);
            let ghost q = cur@;
            cur.sigmoid(sc);
            std::mem::swap(&mut self.results[k], &mut cur);
            proof {
                let w = params[k as int].0;
                let inner = input.len();
                assert(w == self.layers@[k as int].weights@);
                assert(inner == fan_in(self.n_input as nat, widths, k as int));
                assert forall|i: int, j: int| 0 <= i < w.len() && 0 <= j < 1 implies dot_of(sc, zero, w[i], column(input, j), inner, #[trigger] p[i][j]) by {
                    lemma_dot_of(sc, plus, times, zero, w[i], column(input, j), inner, p[i][j]);
                }
                assert(product_of(sc, zero, w, input, inner, 1, p));
                assert(sum_of(sc, p, params[k as int].1, q));
                assert(activated(sc, q, self.results@[k as int]@));
                assert(self.results@ == before.update(k as int, self.results@[k as int]));
                assert forall|t: int| 0 <= t < self.results@.len() && t != k implies #[trigger] self.activations()[t] == acts0[t] by {
                    assert(self.results@[t] == before[t]);
                }
                assert(self.parameters() == params);
                assert(layer_input(x@, self.activations(), k as int) == input);
                assert(layer_output(sc, w, inner, params[k as int].1, input, self.activations()[k as int]));
                assert forall|t: int| 0 <= t < self.results@.len() implies shaped(#[trigger] self.results@[t], widths[t], 1) by {
                    if t != k {
                        assert(self.results@[t] == before[t]);
                    }
                }
                assert forall|t: int| 0 <= t < k + 1 implies #[trigger] layer_output(
                    sc,
                    self.parameters()[t].0,
                    layer_input(x@, self.activations(), t).len(),
                    self.parameters()[t].1,
                    layer_input(x@, self.activations(), t),
                    self.activations()[t],
                ) by {
                    if t < k {
                        assert(layer_input(x@, self.activations(), t) == layer_input(x@, acts0, t));
                        assert(self.activations()[t] == acts0[t]);
                    }
                }
            }
            k += 1;
        }
    }

    /// Runs `input` through the network and returns the last layer's
    /// activation. Only the activation buffers change.
    pub fn feedforward(&mut self, input: Vec<T>) -> (r: Vec<T>)
        requires
            old(self).wf(),
            input@.len() == old(self).input_size(),
        ensures
            final(self).wf(),
            final(self).buffers_sized(),
            final(self).input_size() == old(self).input_size(),
            final(self).widths() == old(self).widths(),
            final(self).parameters() == old(self).parameters(),
            final(self).rate() == old(self).rate(),
            final(self).scalars() == old(self).scalars(),
            forward_pass(&old(self).scalars(), old(self).parameters(), column_vector(input@), final(self).activations()),
            r@.len() == old(self).widths().last(),
            unflatten(r@, old(self).widths().last(), 1, Layout::RowMajor) == final(self).activations().last(),
    {
        let x = Matrix::from_slice(input.as_slice());
        self.forward(&x);
        let last = self.results.len() - 1;
        proof {
            assert(shaped(self.results@[last as int], self.widths()[last as int], 1));
        }
        self.results[last].to_vec()
    }

    /// One step of backpropagation on the pair `inputs`, `targets`. After a
    /// forward pass the output error is `targets - output`; then, from the
    /// last layer to the first, the layer's gradient is
    /// `rate * activate_slope(activation) ⊙ error`, its weights gain
    /// `gradient · transpose(layer input)` and its bias gains the gradient,
    /// and the error passed to the layer before is
    /// `transpose(weights) · error`, taken with the weights as they were
    /// before this step's update.
    pub fn train(&mut self, inputs: &[T], targets: &[T])
        requires
            old(self).wf(),
            inputs@.len() == old(self).input_size(),
            targets@.len() == old(self).widths().last(),
        ensures
            final(self).wf(),
            final(self).buffers_sized(),
            final(self).input_size() == old(self).input_size(),
            final(self).widths() == old(self).widths(),
            final(self).rate() == old(self).rate(),
            final(self).scalars() == old(self).scalars(),
            forward_pass(&old(self).scalars(), old(self).parameters(), column_vector(inputs@), final(self).activations()),
            backpropagated(
                &old(self).scalars(),
                old(self).rate(),
                old(self).parameters(),
                column_vector(inputs@),
                final(self).activations(),
                column_vector(targets@),
                final(self).parameters(),
            ),
    {
        let x = Matrix::from_slice(inputs);
        self.forward(&x);
        let n = self.layers.len();
        let t = Matrix::from_slice(targets);
        let ghost widths = self.widths();
        let ghost acts = self.activations();
        let ghost params = self.parameters();
        proof {
            assert(shaped(self.results@[n - 1], widths[n - 1], 1));
        }
        let sc = &self.scalars;
        let plus = |a: T, b: T| -> (r: T)
            ensures
                plus_of(sc, a, b, r),
        { sc.plus(a, b) };
        let minus = |a: T, b: T| -> (r: T)
            ensures
                minus_of(sc, a, b, r),
        { sc.minus(a, b) };
        let times = |a: T, b: T| -> (r: T)
            ensures
                times_of(sc, a, b, r),
        { sc.times(a, b) };
        let lr = self.learning_rate;
        let scale = |a: T| -> (r: T)
            ensures
                times_of(sc, a, lr, r),
        { sc.times(a, lr) };
        let zero = sc.zero();
        let mut errors = t.zip(&self.results[n - 1], &minus);
        let ghost mut errs: Seq<Seq<Seq<T>>> = Seq::new(n as nat, |i: int| errors@);
        proof {
            assert(acts[n - 1] == self.results@[n - 1]@);
        }
        let mut k: usize = n;
        while k > 0
            invariant
                self.wf(),
                self.widths() == widths,
                self.n_input == old(self).n_input,
                self.learning_rate == old(self).learning_rate,
                self.learning_rate == lr,
                self.scalars == old(self).scalars,
                *sc == self.scalars,
                self.activations() == acts,
                params == old(self).parameters(),
                params.len() == n,
                forward_pass(sc, params, x@, acts),
                shaped(x, self.input_size(), 1),
                n == self.layers@.len(),
                k <= n,
                errs.len() == n,
                difference_of(sc, t@, acts[n - 1], errs[n - 1]),
                k > 0 ==> errs[k - 1] == errors@,
                k > 0 ==> shaped(errors, widths[k - 1], 1),
                forall|j: int| 0 <= j < k ==> #[trigger] self.parameters()[j] == params[j],
                forall|j: int|
                    k <= j < n ==> #[trigger] backward_step(
                        sc,
                        lr,
                        params[j].0,
                        params[j].1,
                        layer_input(x@, acts, j),
                        acts[j],
                        errs[j],
                        self.parameters()[j].0,
                        self.parameters()[j].1,
                    ),
                forall|j: int|
                    k <= j < n && 0 < j ==> #[trigger] propagated(sc, params[j].0, layer_input(x@, acts, j).len(), errs[j], errs[j - 1]),
                forall|a: T, b: T| plus.requires((a, b)),
                forall|a: T, b: T| times.requires((a, b)),
                forall|a: T| scale.requires((a,)),
                forall|a: T, b: T, r: T| plus.ensures((a, b), r) ==> plus_of(sc, a, b, r),
                forall|a: T, b: T, r: T| times.ensures((a, b), r) ==> times_of(sc, a, b, r),
                forall|a: T, r: T| scale.ensures((a,), r) ==> times_of(sc, a, lr, r),
                zero_of(sc, zero),
            decreases k,
        {
            k -= 1;
            let ghost before = self.layers@;
            let ghost before_params = self.parameters();
            let ghost fan = fan_in(self.n_input as nat, widths, k as int);
            let ghost input = layer_input(x@, acts, k as int);
            let ghost e = errors@;
            proof {
                assert(self.layers@[k as int].wf(fan, widths[k as int]));
                assert(shaped(self.results@[k as int], widths[k as int], 1));
                assert(acts[k as int] == self.results@[k as int]@);
                assert(before_params[k as int] == params[k as int]);
                if k > 0 {
                    assert(shaped(self.results@[k - 1], widths[k - 1], 1));
                    assert(acts[k - 1] == self.results@[k - 1]@);
                }
            }
            let mut layer = Layer::placeholder();
            std::mem::swap(&mut self.layers[k], &mut layer);
            let ghost w = layer.weights@;
            let ghost b = layer.bias@;
            self.results[k].dsigmoid(sc, &mut layer.gradients);
            let ghost g1 = layer.gradients@;
            layer.gradients.combine(&errors, &times);
            let ghost g2 = layer.gradients@;
            layer.gradients.apply(&scale);
            let ghost g = layer.gradients@;
            if k == 0 {
                x.transpose_into(&mut layer.transposed);
            } else {
                self.results[k - 1].transpose_into(&mut layer.transposed);
            }
            layer.gradients.product_into_with(&layer.transposed, &mut layer.weights_deltas, zero, &plus, &times);
            let ghost d = layer.weights_deltas@;
            layer.weights.transpose_into(&mut layer.weights_t);
            layer.weights.combine(&layer.weights_deltas, &plus);
            layer.bias.combine(&layer.gradients, &plus);
            proof {
                assert(w == params[k as int].0);
                assert(b == params[k as int].1);
                assert(layer.transposed@ == transposed(input, 1));
                assert(input.len() == fan);
                assert forall|i: int, j: int| 0 <= i < g.len() && 0 <= j < input.len() implies dot_of(sc, zero, g[i], column(transposed(input, 1), j), 1, #[trigger] d[i][j]) by {
                    lemma_dot_of(sc, plus, times, zero, g[i], column(transposed(input, 1), j), 1, d[i][j]);
                }
                assert(sloped(sc, acts[k as int], g1));
                assert(hadamard_of(sc, g1, e, g2));
                assert(scaled_of(sc, g2, lr, g));
                assert(product_of(sc, zero, g, transposed(input, 1), 1, input.len(), d));
                assert(sum_of(sc, w, d, layer.weights@));
                assert(sum_of(sc, b, g, layer.bias@));
                assert(backward_step(sc, lr, w, b, input, acts[k as int], e, layer.weights@, layer.bias@));
            }
            if k > 0 {
                let ghost wt = layer.weights_t@;
                errors = layer.weights_t.product_with(&errors, zero, &plus, &times);
                proof {
                    assert(wt == transposed(w, fan));
                    assert forall|i: int, j: int| 0 <= i < wt.len() && 0 <= j < 1 implies dot_of(sc, zero, wt[i], column(e, j), w.len(), #[trigger] errors@[i][j]) by {
                        lemma_dot_of(sc, plus, times, zero, wt[i], column(e, j), w.len(), errors@[i][j]);
                    }
                    assert(product_of(sc, zero, transposed(w, fan), e, w.len(), 1, errors@));
                    assert(propagated(sc, w, fan, e, errors@));
                    errs = errs.update(k - 1, errors@);
                }
            }
            std::mem::swap(&mut self.layers[k], &mut layer);
            proof {
                assert(self.layers@ == before.update(k as int, self.layers@[k as int]));
                assert(self.widths() =~= widths);
                assert forall|j: int| 0 <= j < self.layers@.len() implies #[trigger] self.layers@[j].wf(
                    fan_in(self.n_input as nat, self.widths(), j),
                    self.widths()[j],
                ) by {
                    if j != k {
                        assert(self.layers@[j] == before[j]);
                    }
                }
                assert forall|j: int| 0 <= j < self.layers@.len() && j != k implies #[trigger] self.parameters()[j] == before_params[j] by {
                    assert(self.layers@[j] == before[j]);
                }
                assert(self.parameters()[k as int] == (self.layers@[k as int].weights@, self.layers@[k as int].bias@));
                assert(self.activations() =~= acts);
            }
        }
        proof {
            assert(self.parameters().len() == params.len());
            assert(error_chain(sc, lr, params, x@, acts, t@, self.parameters(), errs));
        }
    }
}

impl<T> Layer<T> {
    /// A layer of empty matrices, to stand in a slot while the real layer is
    /// worked on.
    fn placeholder() -> (r: Self) {
        Layer {
            weights: Matrix::from_row_major(Vec::new(), 0, 0),
            bias: Matrix::from_row_major(Vec::new(), 0, 0),
            gradients: Matrix::from_row_major(Vec::new(), 0, 0),
            transposed: Matrix::from_row_major(Vec::new(), 0, 0),
            weights_t: Matrix::from_row_major(Vec::new(), 0, 0),
            weights_deltas: Matrix::from_row_major(Vec::new(), 0, 0),
        }
    }
}

} // verus!
