use vstd::prelude::*;
use crate::engine::{extends, minus_one, Graph, Node, Op, Scalar, Value};

verus! {

/// Nodes `base..base + count` are leaves holding `init[start..start + count]`.
pub open spec fn fresh_leaves<S>(nodes: Seq<Node<S>>, base: int, init: Seq<S>, start: int, count: int) -> bool {
    forall|k: int|
        0 <= k < count ==> (#[trigger] nodes[base + k]).op == Op::<S>::Leaf && nodes[base + k].value
            == init[start + k]
}

/// Every node from `lo` on has gradient zero.
pub open spec fn fresh_grads<S: Scalar>(nodes: Seq<Node<S>>, lo: int) -> bool {
    forall|k: int| lo <= k < nodes.len() ==> #[trigger] nodes[k].grad == S::spec_zero()
}

/// Every handle in `vs` points into a graph of `len` nodes.
pub open spec fn all_valid(vs: Seq<Value>, len: int) -> bool {
    forall|k: int| 0 <= k < vs.len() ==> (#[trigger] vs[k]).index < len
}

/// The running sum of a neuron after `k` products: the bias, then the
/// addition node of each step.
pub open spec fn sum_index(base: int, bias: Value, k: int) -> int {
    if k == 0 {
        bias.index as int
    } else {
        base + 2 * k - 1
    }
}

/// How many nodes one evaluation of a neuron with `nin` weights appends.
pub open spec fn neuron_cost(nin: int, non_lin: bool) -> int {
    2 * nin + if non_lin { 1int } else { 0int }
}

/// The nodes that evaluating a neuron appends at `base`: for each weight in
/// turn, its product with the matching input, then the running sum plus that
/// product, starting from the bias; then, for a non-linear neuron, the
/// hyperbolic tangent of the sum.
pub open spec fn neuron_block<S>(
    nodes: Seq<Node<S>>,
    base: int,
    weights: Seq<Value>,
    bias: Value,
    non_lin: bool,
    x: Seq<Value>,
) -> bool {
    &&& forall|k: int|
        0 <= k < weights.len() ==> (#[trigger] nodes[base + 2 * k]).op == Op::<S>::Mul(
            weights[k].index,
            x[k].index,
        ) && nodes[base + 2 * k + 1].op == Op::<S>::Add(
            sum_index(base, bias, k) as usize,
            (base + 2 * k) as usize,
        )
    &&& non_lin ==> nodes[base + 2 * weights.len()].op == Op::<S>::Tanh(
        sum_index(base, bias, weights.len() as int) as usize,
    )
}

/// Where the output of a neuron evaluated at `base` stands.
pub open spec fn neuron_output(base: int, nin: int, bias: Value, non_lin: bool) -> int {
    if non_lin {
        base + 2 * nin
    } else {
        sum_index(base, bias, nin)
    }
}

/// The parameters of a neuron: its weights, then its bias.
pub open spec fn neuron_params(n: Neuron) -> Seq<Value> {
    n.weights@.push(n.bias)
}

/// The parameters of a sequence of neurons, neuron by neuron.
pub open spec fn neurons_params(ns: Seq<Neuron>) -> Seq<Value>
    decreases ns.len(),
{
    if ns.len() == 0 {
        seq![]
    } else {
        neurons_params(ns.drop_last()) + neuron_params(ns.last())
    }
}

/// Handles `vs` number consecutive nodes from `base` on.
pub open spec fn consecutive(vs: Seq<Value>, base: int) -> bool {
    forall|k: int| 0 <= k < vs.len() ==> (#[trigger] vs[k]).index == base + k
}

/// A neuron's nodes stay as they are when the graph grows.
proof fn lemma_block_kept<S>(
    new: Seq<Node<S>>,
    old: Seq<Node<S>>,
    base: int,
    weights: Seq<Value>,
    bias: Value,
    non_lin: bool,
    x: Seq<Value>,
)
    requires
        extends(new, old),
        0 <= base,
        base + neuron_cost(weights.len() as int, non_lin) <= old.len(),
        neuron_block(old, base, weights, bias, non_lin, x),
    ensures
        neuron_block(new, base, weights, bias, non_lin, x),
{
    assert forall|k: int| 0 <= k < weights.len() implies (#[trigger] new[base + 2 * k]).op == Op::<S>::Mul(
        weights[k].index,
        x[k].index,
    ) && new[base + 2 * k + 1].op == Op::<S>::Add(
        sum_index(base, bias, k) as usize,
        (base + 2 * k) as usize,
    ) by {
        assert(old[base + 2 * k] == new[base + 2 * k]);
        assert(old[base + 2 * k + 1] == new[base + 2 * k + 1]);
    }
    if non_lin {
        assert(old[base + 2 * weights.len()] == new[base + 2 * weights.len()]);
    }
}

/// Weighted sum of its inputs plus a bias, optionally through `tanh`.
pub struct Neuron {
    pub weights: Vec<Value>,
    pub bias: Value,
    pub non_lin: bool,
}

impl Neuron {
    pub open spec fn valid_in(&self, len: int) -> bool {
        all_valid(self.weights@, len) && self.bias.index < len
    }

    /// A neuron with `nin` weights: its weights and then its bias are new
    /// leaves holding `init[start..start + nin + 1]`, created in that order.
    pub fn new<S: Scalar>(g: &mut Graph<S>, init: &Vec<S>, start: usize, nin: usize, non_lin: bool) -> (n: Neuron)
        requires
            old(g).wf(),
            start + nin < init@.len(),
            old(g)@.len() + nin + 1 <= usize::MAX,
        ensures
            final(g).wf(),
            extends(final(g)@, old(g)@),
            fresh_grads(final(g)@, old(g)@.len() as int),
            final(g)@.len() == old(g)@.len() + nin + 1,
            fresh_leaves(final(g)@, old(g)@.len() as int, init@, start as int, nin + 1),
            n.weights@.len() == nin,
            forall|k: int| 0 <= k < nin ==> (#[trigger] n.weights@[k]).index == old(g)@.len() + k,
            n.bias.index == old(g)@.len() + nin,
            n.non_lin == non_lin,
    {
        let ghost g0 = g@;
        let base = g.len();
        let total = init.len();
        let mut weights: Vec<Value> = Vec::new();
        let mut k: usize = 0;
        while k < nin
            invariant
                g.wf(),
                extends(g@, g0),
                fresh_grads(g@, g0.len() as int),
                base == g0.len(),
                g@.len() == base + k,
                k <= nin,
                start + nin < init@.len(),
                total == init@.len(),
                base + nin + 1 <= usize::MAX,
                fresh_leaves(g@, base as int, init@, start as int, k as int),
                weights@.len() == k,
                forall|j: int| 0 <= j < k ==> (#[trigger] weights@[j]).index == base + j,
            decreases nin - k,
        {
            let w = g.leaf(init[start + k]);
            weights.push(w);
            k += 1;
        }
        let bias = g.leaf(init[start + nin]);
        Neuron { weights, bias, non_lin }
    }

    /// The weights of the neuron, then its bias.
    pub fn parameters(&self) -> (r: Vec<Value>)
        ensures
            r@ == neuron_params(*self),
    {
        let mut r: Vec<Value> = Vec::new();
        let mut k: usize = 0;
        while k < self.weights.len()
            invariant
                k <= self.weights@.len(),
                r@ == self.weights@.subrange(0, k as int),
            decreases self.weights@.len() - k,
        {
            r.push(self.weights[k]);
            k += 1;
            assert(r@ =~= self.weights@.subrange(0, k as int));
        }
        r.push(self.bias);
        assert(r@ =~= self.weights@.push(self.bias));
        r
    }

    /// Evaluates the neuron on `x`, appending `neuron_cost` nodes and
    /// returning the output node.
    pub fn call<S: Scalar>(&self, g: &mut Graph<S>, x: &Vec<Value>) -> (r: Value)
        requires
            old(g).wf(),
            self.valid_in(old(g)@.len() as int),
            x@.len() == self.weights@.len(),
            all_valid(x@, old(g)@.len() as int),
            old(g)@.len() + neuron_cost(self.weights@.len() as int, self.non_lin) <= usize::MAX,
        ensures
            final(g).wf(),
            extends(final(g)@, old(g)@),
            fresh_grads(final(g)@, old(g)@.len() as int),
            final(g)@.len() == old(g)@.len() + neuron_cost(self.weights@.len() as int, self.non_lin),
            neuron_block(final(g)@, old(g)@.len() as int, self.weights@, self.bias, self.non_lin, x@),
            r.index == neuron_output(old(g)@.len() as int, self.weights@.len() as int, self.bias, self.non_lin),
            r.index < final(g)@.len(),
    {
        let ghost g0 = g@;
        let base = g.len();
        let n = self.weights.len();
        let mut acc = self.bias;
        let mut k: usize = 0;
        while k < n
            invariant
                g.wf(),
                extends(g@, g0),
                fresh_grads(g@, g0.len() as int),
                base == g0.len(),
                n == self.weights@.len(),
                x@.len() == n,
                self.valid_in(base as int),
                all_valid(x@, base as int),
                base + neuron_cost(n as int, self.non_lin) <= usize::MAX,
                k <= n,
                g@.len() == base + 2 * k,
                acc.index == sum_index(base as int, self.bias, k as int),
                forall|j: int|
                    0 <= j < k ==> (#[trigger] g@[base + 2 * j]).op == Op::<S>::Mul(
                        self.weights@[j].index,
                        x@[j].index,
                    ) && g@[base + 2 * j + 1].op == Op::<S>::Add(
                        sum_index(base as int, self.bias, j) as usize,
                        (base + 2 * j) as usize,
                    ),
            decreases n - k,
        {
            let ghost before = g@;
            let p = g.mul(self.weights[k], x[k]);
            let ghost mid = g@;
            acc = g.add(acc, p);
            assert forall|j: int| 0 <= j < k + 1 implies (#[trigger] g@[base + 2 * j]).op == Op::<S>::Mul(
                self.weights@[j].index,
                x@[j].index,
            ) && g@[base + 2 * j + 1].op == Op::<S>::Add(
                sum_index(base as int, self.bias, j) as usize,
                (base + 2 * j) as usize,
            ) by {
                if j < k {
                    assert(before[base + 2 * j] == g@[base + 2 * j]);
                    assert(before[base + 2 * j + 1] == g@[base + 2 * j + 1]);
                } else {
                    assert(mid[base + 2 * j] == g@[base + 2 * j]);
                }
            }
            k += 1;
        }
        if self.non_lin {
            let ghost before = g@;
            let t = g.tanh(acc);
            assert forall|j: int| 0 <= j < n implies (#[trigger] g@[base + 2 * j]).op == Op::<S>::Mul(
                self.weights@[j].index,
                x@[j].index,
            ) && g@[base + 2 * j + 1].op == Op::<S>::Add(
                sum_index(base as int, self.bias, j) as usize,
                (base + 2 * j) as usize,
            ) by {
                assert(before[base + 2 * j] == g@[base + 2 * j]);
                assert(before[base + 2 * j + 1] == g@[base + 2 * j + 1]);
            }
            t
        } else {
            acc
        }
    }
}

/// How many nodes evaluating the first `m` neurons of `ns` on `nin` inputs
/// appends: where neuron `m` starts.
pub open spec fn neurons_cost(ns: Seq<Neuron>, nin: int, m: int) -> int
    decreases m,
{
    if m <= 0 {
        0
    } else {
        neurons_cost(ns, nin, m - 1) + neuron_cost(nin, ns[m - 1].non_lin)
    }
}

proof fn lemma_neurons_cost_grows(ns: Seq<Neuron>, nin: int, m: int, k: int)
    requires
        0 <= nin,
        0 <= m <= k,
    ensures
        0 <= neurons_cost(ns, nin, m) <= neurons_cost(ns, nin, k),
    decreases k,
{
    if m < k {
        lemma_neurons_cost_grows(ns, nin, m, k - 1);
    } else if m > 0 {
        lemma_neurons_cost_grows(ns, nin, m - 1, m - 1);
    }
}

/// Where the outputs of `layer` stand when it is evaluated at `base` on
/// `nin` inputs: neuron `m` appends its nodes `neurons_cost(.., m)` past `base`.
pub open spec fn layer_outputs(layer: Layer, base: int, nin: int) -> Seq<Value> {
    Seq::new(
        layer.neurons@.len(),
        |m: int|
            Value {
                index: neuron_output(
                    base + neurons_cost(layer.neurons@, nin, m),
                    nin,
                    layer.neurons@[m].bias,
                    layer.neurons@[m].non_lin,
                ) as usize,
            },
    )
}

/// Neurons that all read the same inputs.
pub struct Layer {
    pub neurons: Vec<Neuron>,
}

impl Layer {
    /// Every neuron has `nin` weights and the same non-linearity.
    pub open spec fn shaped(&self, nin: int, non_lin: bool) -> bool {
        forall|m: int|
            0 <= m < self.neurons@.len() ==> (#[trigger] self.neurons@[m]).weights@.len() == nin
                && self.neurons@[m].non_lin == non_lin
    }

    pub open spec fn valid_in(&self, len: int) -> bool {
        forall|m: int| 0 <= m < self.neurons@.len() ==> (#[trigger] self.neurons@[m]).valid_in(len)
    }

    /// A layer of `nout` neurons with `nin` weights each, whose parameters are
    /// new leaves holding `init[start..start + nout * (nin + 1)]`, in the order
    /// of `neurons_params`.
    pub fn new<S: Scalar>(
        g: &mut Graph<S>,
        init: &Vec<S>,
        start: usize,
        nin: usize,
        nout: usize,
        non_lin: bool,
    ) -> (l: Layer)
        requires
            old(g).wf(),
            start + nout * (nin + 1) <= init@.len(),
            old(g)@.len() + nout * (nin + 1) <= usize::MAX,
        ensures
            final(g).wf(),
            extends(final(g)@, old(g)@),
            fresh_grads(final(g)@, old(g)@.len() as int),
            final(g)@.len() == old(g)@.len() + nout * (nin + 1),
            fresh_leaves(final(g)@, old(g)@.len() as int, init@, start as int, nout * (nin + 1)),
            l.neurons@.len() == nout,
            l.shaped(nin as int, non_lin),
            l.valid_in(final(g)@.len() as int),
            neurons_params(l.neurons@).len() == nout * (nin + 1),
            consecutive(neurons_params(l.neurons@), old(g)@.len() as int),
    {
        let ghost g0 = g@;
        let base = g.len();
        let total = init.len();
        let mut neurons: Vec<Neuron> = Vec::new();
        let mut pos: usize = 0;
        let mut m: usize = 0;
        while m < nout
            invariant
                g.wf(),
                extends(g@, g0),
                fresh_grads(g@, g0.len() as int),
                base == g0.len(),
                start + nout * (nin + 1) <= init@.len(),
                total == init@.len(),
                base + nout * (nin + 1) <= usize::MAX,
                m <= nout,
                pos == m * (nin + 1),
                g@.len() == base + pos,
                fresh_leaves(g@, base as int, init@, start as int, pos as int),
                neurons@.len() == m,
                forall|j: int|
                    0 <= j < m ==> (#[trigger] neurons@[j]).weights@.len() == nin && neurons@[j].non_lin
                        == non_lin && neurons@[j].valid_in(g@.len() as int),
                neurons_params(neurons@).len() == pos,
                consecutive(neurons_params(neurons@), base as int),
            decreases nout - m,
        {
            assert((m + 1) * (nin + 1) <= nout * (nin + 1)) by (nonlinear_arith)
                requires
                    m < nout,
            ;
            assert((m + 1) * (nin + 1) == m * (nin + 1) + nin + 1) by (nonlinear_arith);
            let ghost before = g@;
            let n = Neuron::new(g, init, start + pos, nin, non_lin);
            assert forall|k: int| 0 <= k < pos + nin + 1 implies (#[trigger] g@[base + k]).op
                == Op::<S>::Leaf && g@[base + k].value == init@[start + k] by {
                if k < pos {
                    assert(before[base + k] == g@[base + k]);
                } else {
                    assert(g@[base + pos + (k - pos)] == g@[base + k]);
                }
            }
            let ghost old_neurons = neurons@;
            neurons.push(n);
            assert(neurons@.drop_last() =~= old_neurons);
            assert(neurons_params(neurons@) == neurons_params(old_neurons) + neuron_params(n));
            assert forall|j: int| 0 <= j < m + 1 implies (#[trigger] neurons@[j]).weights@.len() == nin
                && neurons@[j].non_lin == non_lin && neurons@[j].valid_in(g@.len() as int) by {
                if j < m {
                    assert(neurons@[j] == old_neurons[j]);
                }
            }
            pos = pos + nin + 1;
            m += 1;
        }
        Layer { neurons }
    }

    /// The weights and biases of the layer, neuron by neuron.
    pub fn parameters(&self) -> (r: Vec<Value>)
        ensures
            r@ == neurons_params(self.neurons@),
    {
        let mut r: Vec<Value> = Vec::new();
        let mut m: usize = 0;
        while m < self.neurons.len()
            invariant
                m <= self.neurons@.len(),
                r@ == neurons_params(self.neurons@.subrange(0, m as int)),
            decreases self.neurons@.len() - m,
        {
            let mut p = self.neurons[m].parameters();
            r.append(&mut p);
            m += 1;
            assert(self.neurons@.subrange(0, m as int).drop_last() =~= self.neurons@.subrange(0, m - 1));
        }
        assert(self.neurons@.subrange(0, self.neurons@.len() as int) =~= self.neurons@);
        r
    }

    /// Every neuron has `nin` weights.
    pub open spec fn reads(&self, nin: int) -> bool {
        forall|m: int| 0 <= m < self.neurons@.len() ==> (#[trigger] self.neurons@[m]).weights@.len() == nin
    }

    /// Evaluates every neuron on the same `x`, in order. Neuron `m` appends
    /// its nodes `neurons_cost(.., m)` past the old end of the graph.
    pub fn call<S: Scalar>(&self, g: &mut Graph<S>, x: &Vec<Value>) -> (outs: Vec<Value>)
        requires
            old(g).wf(),
            self.valid_in(old(g)@.len() as int),
            self.reads(x@.len() as int),
            all_valid(x@, old(g)@.len() as int),
            old(g)@.len() + neurons_cost(self.neurons@, x@.len() as int, self.neurons@.len() as int) <= usize::MAX,
        ensures
            final(g).wf(),
            extends(final(g)@, old(g)@),
            fresh_grads(final(g)@, old(g)@.len() as int),
            final(g)@.len() == old(g)@.len() + neurons_cost(self.neurons@, x@.len() as int, self.neurons@.len() as int),
            outs@ == layer_outputs(*self, old(g)@.len() as int, x@.len() as int),
            all_valid(outs@, final(g)@.len() as int),
            forall|m: int|
                0 <= m < self.neurons@.len() ==> neuron_block(
                    final(g)@,
                    old(g)@.len() + neurons_cost(self.neurons@, x@.len() as int, m),
                    (#[trigger] self.neurons@[m]).weights@,
                    self.neurons@[m].bias,
                    self.neurons@[m].non_lin,
                    x@,
                ),
    {
        let ghost g0 = g@;
        let ghost nin = x@.len() as int;
        let ghost ns = self.neurons@;
        let base = g.len();
        let count = self.neurons.len();
        let mut outs: Vec<Value> = Vec::new();
        let mut m: usize = 0;
        while m < count
            invariant
                g.wf(),
                extends(g@, g0),
                fresh_grads(g@, g0.len() as int),
                base == g0.len(),
                count == ns.len(),
                ns == self.neurons@,
                nin == x@.len(),
                self.valid_in(base as int),
                self.reads(nin),
                all_valid(x@, base as int),
                base + neurons_cost(ns, nin, count as int) <= usize::MAX,
                m <= count,
                g@.len() == base + neurons_cost(ns, nin, m as int),
                outs@.len() == m,
                all_valid(outs@, g@.len() as int),
                forall|j: int|
                    0 <= j < m ==> neuron_block(
                        g@,
                        base + neurons_cost(ns, nin, j),
                        (#[trigger] ns[j]).weights@,
                        ns[j].bias,
                        ns[j].non_lin,
                        x@,
                    ) && outs@[j].index == neuron_output(base + neurons_cost(ns, nin, j), nin, ns[j].bias, ns[j].non_lin),
            decreases count - m,
        {
            proof {
                lemma_neurons_cost_grows(ns, nin, m + 1, count as int);
            }
            let ghost before = g@;
            let ghost old_outs = outs@;
            let neuron = &self.neurons[m];
            assert(neuron.valid_in(base as int));
            let r = neuron.call(g, x);
            outs.push(r);
            assert forall|j: int|
                0 <= j < m + 1 implies neuron_block(
                    g@,
                    base + neurons_cost(ns, nin, j),
                    (#[trigger] ns[j]).weights@,
                    ns[j].bias,
                    ns[j].non_lin,
                    x@,
                ) && outs@[j].index == neuron_output(base + neurons_cost(ns, nin, j), nin, ns[j].bias, ns[j].non_lin) by {
                if j < m {
                    lemma_neurons_cost_grows(ns, nin, j + 1, m as int);
                    lemma_neurons_cost_grows(ns, nin, j, m as int);
                    assert(ns[j].weights@.len() == nin);
                    lemma_block_kept(g@, before, base + neurons_cost(ns, nin, j), ns[j].weights@, ns[j].bias, ns[j].non_lin, x@);
                    assert(outs@[j] == old_outs[j]);
                }
            }
            assert forall|k: int| 0 <= k < outs@.len() implies (#[trigger] outs@[k]).index < g@.len() by {
                if k < m {
                    assert(outs@[k] == old_outs[k]);
                }
            }
            m += 1;
        }
        assert(outs@ =~= layer_outputs(*self, base as int, nin));
        outs
    }
}

/// The input width of layer `l` of a network with input width `nin` and
/// layer widths `nouts`.
pub open spec fn in_width(nin: int, nouts: Seq<usize>, l: int) -> int {
    if l == 0 {
        nin
    } else {
        nouts[l - 1] as int
    }
}

/// The number of parameters of the first `l` layers: each neuron has one
/// weight per input and a bias.
pub open spec fn param_count_upto(nin: int, nouts: Seq<usize>, l: int) -> int
    decreases l,
{
    if l <= 0 {
        0
    } else {
        param_count_upto(nin, nouts, l - 1) + nouts[l - 1] * (in_width(nin, nouts, l - 1) + 1)
    }
}

/// The number of parameters of a network with input width `nin` and layer
/// widths `nouts`.
pub open spec fn param_count(nin: int, nouts: Seq<usize>) -> int {
    param_count_upto(nin, nouts, nouts.len() as int)
}

proof fn lemma_param_count_nonneg(nin: int, nouts: Seq<usize>, l: int)
    requires
        0 <= nin,
        l <= nouts.len(),
    ensures
        0 <= param_count_upto(nin, nouts, l),
    decreases l,
{
    if l > 0 {
        lemma_param_count_nonneg(nin, nouts, l - 1);
        assert(nouts[l - 1] * (in_width(nin, nouts, l - 1) + 1) >= 0) by (nonlinear_arith)
            requires
                in_width(nin, nouts, l - 1) >= 0,
                nouts[l - 1] >= 0,
        ;
    }
}

proof fn lemma_param_count_grows(nin: int, nouts: Seq<usize>, l: int, m: int)
    requires
        0 <= nin,
        0 <= l <= m <= nouts.len(),
    ensures
        0 <= param_count_upto(nin, nouts, l) <= param_count_upto(nin, nouts, m),
    decreases m - l,
{
    lemma_param_count_nonneg(nin, nouts, l);
    if l < m {
        lemma_param_count_grows(nin, nouts, l, m - 1);
        assert(nouts[m - 1] * (in_width(nin, nouts, m - 1) + 1) >= 0) by (nonlinear_arith)
            requires
                in_width(nin, nouts, m - 1) >= 0,
                nouts[m - 1] >= 0,
        ;
    }
}

/// The widths of the layers, in order.
pub open spec fn widths(layers: Seq<Layer>) -> Seq<usize> {
    layers.map_values(|l: Layer| l.neurons.len())
}

/// The parameters of a sequence of layers, layer by layer.
pub open spec fn layers_params(ls: Seq<Layer>) -> Seq<Value>
    decreases ls.len(),
{
    if ls.len() == 0 {
        seq![]
    } else {
        layers_params(ls.drop_last()) + neurons_params(ls.last().neurons@)
    }
}

/// How many nodes evaluating the first `l` layers appends, `nin` inputs wide.
pub open spec fn eval_cost_upto(nin: int, layers: Seq<Layer>, l: int) -> int
    decreases l,
{
    if l <= 0 {
        0
    } else {
        eval_cost_upto(nin, layers, l - 1) + neurons_cost(
            layers[l - 1].neurons@,
            in_width(nin, widths(layers), l - 1),
            layers[l - 1].neurons@.len() as int,
        )
    }
}

proof fn lemma_eval_cost_grows(nin: int, layers: Seq<Layer>, l: int, m: int)
    requires
        0 <= nin,
        0 <= l <= m <= layers.len(),
    ensures
        0 <= eval_cost_upto(nin, layers, l) <= eval_cost_upto(nin, layers, m),
    decreases m - l, m,
{
    if l < m {
        lemma_eval_cost_grows(nin, layers, l, m - 1);
        let w = in_width(nin, widths(layers), m - 1);
        assert(w >= 0);
        lemma_neurons_cost_grows(layers[m - 1].neurons@, w, 0, layers[m - 1].neurons@.len() as int);
    } else if l > 0 {
        lemma_eval_cost_grows(nin, layers, l - 1, l - 1);
        let w = in_width(nin, widths(layers), l - 1);
        assert(w >= 0);
        lemma_neurons_cost_grows(layers[l - 1].neurons@, w, 0, layers[l - 1].neurons@.len() as int);
    }
}

/// The nodes of the squared error of one example, appended at `e` after the
/// network's evaluation: a leaf (minus one), the target `y` times it, the
/// network's output `out` plus that, its square, and the running sum `prev`
/// plus the square.
pub open spec fn loss_term<S: Scalar>(nodes: Seq<Node<S>>, e: int, y: Value, out: Value, prev: int) -> bool {
    &&& nodes[e].op == Op::<S>::Leaf
    &&& nodes[e].value == minus_one::<S>()
    &&& nodes[e + 1].op == Op::<S>::Mul(y.index, e as usize)
    &&& nodes[e + 2].op == Op::<S>::Add(out.index, (e + 1) as usize)
    &&& nodes[e + 3].op == Op::<S>::Pow((e + 2) as usize, S::spec_plus(S::spec_one(), S::spec_one()))
    &&& nodes[e + 4].op == Op::<S>::Add(prev as usize, (e + 3) as usize)
}

proof fn lemma_term_kept<S: Scalar>(new: Seq<Node<S>>, old: Seq<Node<S>>, e: int, y: Value, out: Value, prev: int)
    requires
        extends(new, old),
        0 <= e,
        e + 5 <= old.len(),
        loss_term(old, e, y, out, prev),
    ensures
        loss_term(new, e, y, out, prev),
{
    assert(new[e] == old[e]);
    assert(new[e + 1] == old[e + 1]);
    assert(new[e + 2] == old[e + 2]);
    assert(new[e + 3] == old[e + 3]);
    assert(new[e + 4] == old[e + 4]);
}

/// A feed-forward network: layers applied one after the other.
pub struct MLP {
    pub nin: usize,
    pub layers: Vec<Layer>,
}

impl MLP {
    /// Layer `l` reads the outputs of layer `l - 1` (the inputs, for the first
    /// layer); every layer but the last applies `tanh`.
    pub open spec fn shaped(&self) -> bool {
        forall|l: int|
            0 <= l < self.layers@.len() ==> (#[trigger] self.layers@[l]).shaped(
                in_width(self.nin as int, widths(self.layers@), l),
                l + 1 < self.layers@.len(),
            )
    }

    pub open spec fn valid_in(&self, len: int) -> bool {
        forall|l: int| 0 <= l < self.layers@.len() ==> (#[trigger] self.layers@[l]).valid_in(len)
    }

    /// The number of outputs of the network.
    pub open spec fn out_width(&self) -> int {
        in_width(self.nin as int, widths(self.layers@), self.layers@.len() as int)
    }

    /// All weights and biases, layer by layer, neuron by neuron.
    pub open spec fn params(&self) -> Seq<Value> {
        layers_params(self.layers@)
    }

    /// A network with input width `nin` and one layer per entry of `nouts`,
    /// of that width. Its parameters are new leaves holding `init`, in the
    /// order of `params`.
    pub fn new<S: Scalar>(g: &mut Graph<S>, nin: usize, nouts: &Vec<usize>, init: &Vec<S>) -> (net: MLP)
        requires
            old(g).wf(),
            init@.len() == param_count(nin as int, nouts@),
            old(g)@.len() + init@.len() <= usize::MAX,
        ensures
            final(g).wf(),
            extends(final(g)@, old(g)@),
            fresh_grads(final(g)@, old(g)@.len() as int),
            final(g)@.len() == old(g)@.len() + init@.len(),
            fresh_leaves(final(g)@, old(g)@.len() as int, init@, 0, init@.len() as int),
            net.nin == nin,
            widths(net.layers@) == nouts@,
            net.shaped(),
            net.valid_in(final(g)@.len() as int),
            net.params().len() == init@.len(),
            consecutive(net.params(), old(g)@.len() as int),
    {
        let ghost g0 = g@;
        let base = g.len();
        let total = init.len();
        let count = nouts.len();
        let mut layers: Vec<Layer> = Vec::new();
        let mut pos: usize = 0;
        let mut width: usize = nin;
        let mut l: usize = 0;
        while l < count
            invariant
                g.wf(),
                extends(g@, g0),
                fresh_grads(g@, g0.len() as int),
                base == g0.len(),
                total == init@.len(),
                count == nouts@.len(),
                total == param_count(nin as int, nouts@),
                base + total <= usize::MAX,
                l <= count,
                width == in_width(nin as int, nouts@, l as int),
                pos == param_count_upto(nin as int, nouts@, l as int),
                g@.len() == base + pos,
                fresh_leaves(g@, base as int, init@, 0, pos as int),
                layers@.len() == l,
                forall|j: int| 0 <= j < l ==> (#[trigger] layers@[j]).neurons@.len() == nouts@[j],
                forall|j: int|
                    0 <= j < l ==> (#[trigger] layers@[j]).shaped(
                        in_width(nin as int, nouts@, j),
                        j + 1 < count,
                    ) && layers@[j].valid_in(g@.len() as int),
                layers_params(layers@).len() == pos,
                consecutive(layers_params(layers@), base as int),
            decreases count - l,
        {
            proof {
                lemma_param_count_grows(nin as int, nouts@, l + 1, count as int);
            }
            let nout = nouts[l];
            let ghost before = g@;
            let layer = Layer::new(g, init, pos, width, nout, l + 1 < count);
            assert forall|k: int| 0 <= k < pos + nout * (width + 1) implies (#[trigger] g@[base + k]).op
                == Op::<S>::Leaf && g@[base + k].value == init@[0 + k] by {
                if k < pos {
                    assert(before[base + k] == g@[base + k]);
                } else {
                    assert(g@[base + pos + (k - pos)] == g@[base + k]);
                }
            }
            let ghost old_layers = layers@;
            layers.push(layer);
            assert(layers@.drop_last() =~= old_layers);
            assert(layers_params(layers@) == layers_params(old_layers) + neurons_params(layer.neurons@));
            assert forall|j: int|
                0 <= j < l + 1 implies (#[trigger] layers@[j]).shaped(
                    in_width(nin as int, nouts@, j),
                    j + 1 < count,
                ) && layers@[j].valid_in(g@.len() as int) by {
                if j < l {
                    assert(layers@[j] == old_layers[j]);
                    assert forall|m: int| 0 <= m < layers@[j].neurons@.len() implies
                        (#[trigger] layers@[j].neurons@[m]).valid_in(g@.len() as int) by {
                        let n = layers@[j].neurons@[m];
                        assert(n.valid_in(before.len() as int));
                    }
                }
            }
            assert forall|j: int| 0 <= j < l + 1 implies (#[trigger] layers@[j]).neurons@.len() == nouts@[j] by {
                if j < l {
                    assert(layers@[j] == old_layers[j]);
                }
            }
            let used: usize = if nout == 0 {
                0
            } else {
                assert(width + 1 <= nout * (width + 1)) by (nonlinear_arith)
                    requires
                        nout >= 1,
                        width >= 0,
                ;
                nout * (width + 1)
            };
            pos = pos + used;
            width = nout;
            l += 1;
        }
        let net = MLP { nin, layers };
        assert(widths(net.layers@) =~= nouts@);
        net
    }

    /// How many nodes one evaluation of the network appends.
    pub open spec fn eval_cost(&self) -> int {
        eval_cost_upto(self.nin as int, self.layers@, self.layers@.len() as int)
    }

    /// Where neuron `m` of layer `l` starts, past the start of its layer.
    pub open spec fn neuron_offset(&self, l: int, m: int) -> int {
        neurons_cost(self.layers@[l].neurons@, in_width(self.nin as int, widths(self.layers@), l), m)
    }

    /// Where layer `l` starts appending when the network is evaluated at `base`.
    pub open spec fn layer_base(&self, base: int, l: int) -> int {
        base + eval_cost_upto(self.nin as int, self.layers@, l)
    }

    /// What layer `l` reads when the network is evaluated at `base` on `x`:
    /// `x` itself for the first layer, the outputs of the layer before it
    /// otherwise.
    pub open spec fn layer_input(&self, base: int, x: Seq<Value>, l: int) -> Seq<Value> {
        if l <= 0 {
            x
        } else {
            layer_outputs(
                self.layers@[l - 1],
                self.layer_base(base, l - 1),
                in_width(self.nin as int, widths(self.layers@), l - 1),
            )
        }
    }

    /// The outputs of the network evaluated at `base` on `x`.
    pub open spec fn outputs(&self, base: int, x: Seq<Value>) -> Seq<Value> {
        self.layer_input(base, x, self.layers@.len() as int)
    }

    /// The nodes from `base` on are one evaluation of the network on `x`:
    /// every layer in turn, each neuron of it in turn, as `neuron_block`
    /// describes, reading what `layer_input` gives.
    #[verifier::opaque]
    pub open spec fn evaluated<S>(&self, nodes: Seq<Node<S>>, base: int, x: Seq<Value>) -> bool {
        self.evaluated_upto(nodes, base, x, self.layers@.len() as int)
    }

    /// The first `k` layers of an evaluation, as `evaluated` describes.
    pub open spec fn evaluated_upto<S>(&self, nodes: Seq<Node<S>>, base: int, x: Seq<Value>, k: int) -> bool {
        forall|l: int, m: int|
            0 <= l < k && l < self.layers@.len() && 0 <= m < self.layers@[l].neurons@.len() ==> neuron_block(
                nodes,
                self.layer_base(base, l) + self.neuron_offset(l, m),
                (#[trigger] self.layers@[l].neurons@[m]).weights@,
                self.layers@[l].neurons@[m].bias,
                self.layers@[l].neurons@[m].non_lin,
                self.layer_input(base, x, l),
            )
    }

    /// The nodes of neuron `m` of layer `l` lie within one evaluation.
    proof fn lemma_block_within(&self, l: int, m: int)
        requires
            0 <= l < self.layers@.len(),
            0 <= m < self.layers@[l].neurons@.len(),
        ensures
            0 <= self.neuron_offset(l, m),
            eval_cost_upto(self.nin as int, self.layers@, l) + self.neuron_offset(l, m) + neuron_cost(
                in_width(self.nin as int, widths(self.layers@), l),
                self.layers@[l].neurons@[m].non_lin,
            ) <= eval_cost_upto(self.nin as int, self.layers@, l + 1),
    {
        let ns = self.layers@[l].neurons@;
        let w = in_width(self.nin as int, widths(self.layers@), l);
        assert(w >= 0);
        lemma_neurons_cost_grows(ns, w, m + 1, ns.len() as int);
        lemma_neurons_cost_grows(ns, w, m, ns.len() as int);
    }

    /// Evaluating layer `l` right after the layers before it extends an
    /// evaluation of those layers by one layer.
    #[verifier::rlimit(50)]
    proof fn lemma_call_step<S>(&self, new: Seq<Node<S>>, before: Seq<Node<S>>, base: int, x: Seq<Value>, l: int)
        requires
            extends(new, before),
            0 <= base,
            0 <= l < self.layers@.len(),
            self.shaped(),
            before.len() == self.layer_base(base, l),
            self.evaluated_upto(before, base, x, l),
            forall|m: int|
                0 <= m < self.layers@[l].neurons@.len() ==> neuron_block(
                    new,
                    before.len() + neurons_cost(
                        self.layers@[l].neurons@,
                        self.layer_input(base, x, l).len() as int,
                        m,
                    ),
                    (#[trigger] self.layers@[l].neurons@[m]).weights@,
                    self.layers@[l].neurons@[m].bias,
                    self.layers@[l].neurons@[m].non_lin,
                    self.layer_input(base, x, l),
                ),
            self.layer_input(base, x, l).len() == in_width(self.nin as int, widths(self.layers@), l),
        ensures
            self.evaluated_upto(new, base, x, l + 1),
    {
        let ws = widths(self.layers@);
        let count = self.layers@.len();
        let input = self.layer_input(base, x, l);
        assert forall|m: int| 0 <= m < self.layers@[l].neurons@.len() implies neuron_block(
            new,
            self.layer_base(base, l) + self.neuron_offset(l, m),
            (#[trigger] self.layers@[l].neurons@[m]).weights@,
            self.layers@[l].neurons@[m].bias,
            self.layers@[l].neurons@[m].non_lin,
            input,
        ) by {
            assert(self.neuron_offset(l, m) == neurons_cost(self.layers@[l].neurons@, input.len() as int, m));
        }
        assert forall|j: int, m: int|
            0 <= j < l + 1 && j < self.layers@.len() && 0 <= m < self.layers@[j].neurons@.len() implies neuron_block(
            new,
            self.layer_base(base, j) + self.neuron_offset(j, m),
            (#[trigger] self.layers@[j].neurons@[m]).weights@,
            self.layers@[j].neurons@[m].bias,
            self.layers@[j].neurons@[m].non_lin,
            self.layer_input(base, x, j),
        ) by {
            if j == l {
                assert(neuron_block(
                    new,
                    self.layer_base(base, l) + self.neuron_offset(l, m),
                    self.layers@[l].neurons@[m].weights@,
                    self.layers@[l].neurons@[m].bias,
                    self.layers@[l].neurons@[m].non_lin,
                    input,
                ));
            } else {
                self.lemma_block_within(j, m);
                lemma_eval_cost_grows(self.nin as int, self.layers@, j + 1, l);
                lemma_eval_cost_grows(self.nin as int, self.layers@, j, l);
                assert(self.layers@[j].shaped(in_width(self.nin as int, ws, j), j + 1 < count));
                lemma_block_kept(
                    new,
                    before,
                    self.layer_base(base, j) + self.neuron_offset(j, m),
                    self.layers@[j].neurons@[m].weights@,
                    self.layers@[j].neurons@[m].bias,
                    self.layers@[j].neurons@[m].non_lin,
                    self.layer_input(base, x, j),
                );
            }
        }
    }

    /// One evaluation stays as it is when the graph grows.
    proof fn lemma_evaluated_kept<S>(&self, new: Seq<Node<S>>, old: Seq<Node<S>>, base: int, x: Seq<Value>)
        requires
            extends(new, old),
            0 <= base,
            base + self.eval_cost() <= old.len(),
            self.shaped(),
            self.evaluated(old, base, x),
        ensures
            self.evaluated(new, base, x),
    {
        reveal(MLP::evaluated);
        assert forall|l: int, m: int|
            0 <= l < self.layers@.len() && 0 <= m < self.layers@[l].neurons@.len() implies neuron_block(
                new,
                self.layer_base(base, l) + self.neuron_offset(l, m),
                (#[trigger] self.layers@[l].neurons@[m]).weights@,
                self.layers@[l].neurons@[m].bias,
                self.layers@[l].neurons@[m].non_lin,
                self.layer_input(base, x, l),
            ) by {
            self.lemma_block_within(l, m);
            lemma_eval_cost_grows(self.nin as int, self.layers@, l, self.layers@.len() as int);
            lemma_eval_cost_grows(self.nin as int, self.layers@, l + 1, self.layers@.len() as int);
            assert(self.layers@[l].shaped(in_width(self.nin as int, widths(self.layers@), l), l + 1 < self.layers@.len()));
            assert(self.layers@[l].neurons@[m].weights@.len() == in_width(self.nin as int, widths(self.layers@), l));
            lemma_block_kept(
                new,
                old,
                self.layer_base(base, l) + self.neuron_offset(l, m),
                self.layers@[l].neurons@[m].weights@,
                self.layers@[l].neurons@[m].bias,
                self.layers@[l].neurons@[m].non_lin,
                self.layer_input(base, x, l),
            );
        }
    }

    /// Evaluates the network on `x`: each layer reads the outputs of the one
    /// before it. Returns one node per output of the last layer.
    pub fn call<S: Scalar>(&self, g: &mut Graph<S>, x: &Vec<Value>) -> (out: Vec<Value>)
        requires
            old(g).wf(),
            self.shaped(),
            self.valid_in(old(g)@.len() as int),
            x@.len() == self.nin,
            all_valid(x@, old(g)@.len() as int),
            old(g)@.len() + self.eval_cost() <= usize::MAX,
        ensures
            final(g).wf(),
            extends(final(g)@, old(g)@),
            fresh_grads(final(g)@, old(g)@.len() as int),
            final(g)@.len() == old(g)@.len() + self.eval_cost(),
            out@.len() == self.out_width(),
            all_valid(out@, final(g)@.len() as int),
            out@ == self.outputs(old(g)@.len() as int, x@),
            self.evaluated(final(g)@, old(g)@.len() as int, x@),
    {
        let ghost g0 = g@;
        let ghost ws = widths(self.layers@);
        let base = g.len();
        let mut out: Vec<Value> = Vec::new();
        let mut k: usize = 0;
        while k < x.len()
            invariant
                k <= x@.len(),
                out@ == x@.subrange(0, k as int),
            decreases x@.len() - k,
        {
            out.push(x[k]);
            k += 1;
            assert(out@ =~= x@.subrange(0, k as int));
        }
        assert(out@ =~= x@);
        let count = self.layers.len();
        let mut l: usize = 0;
        while l < count
            invariant
                g.wf(),
                extends(g@, g0),
                fresh_grads(g@, g0.len() as int),
                base == g0.len(),
                ws == widths(self.layers@),
                count == self.layers@.len(),
                self.shaped(),
                self.valid_in(base as int),
                base + self.eval_cost() <= usize::MAX,
                l <= count,
                g@.len() == base + eval_cost_upto(self.nin as int, self.layers@, l as int),
                out@.len() == in_width(self.nin as int, ws, l as int),
                all_valid(out@, g@.len() as int),
                out@ == self.layer_input(base as int, x@, l as int),
                self.evaluated_upto(g@, base as int, x@, l as int),
            decreases count - l,
        {
            proof {
                lemma_eval_cost_grows(self.nin as int, self.layers@, l + 1, count as int);
            }
            let layer = &self.layers[l];
            assert(layer.shaped(in_width(self.nin as int, ws, l as int), l + 1 < count));
            assert(layer.reads(out@.len() as int));
            assert forall|m: int| 0 <= m < layer.neurons@.len() implies
                (#[trigger] layer.neurons@[m]).valid_in(g@.len() as int) by {
                assert(layer.neurons@[m].valid_in(base as int));
            }
            let ghost before = g@;
            let next = layer.call(g, &out);
            proof {
                self.lemma_call_step(g@, before, base as int, x@, l as int);
            }
            out = next;
            let width = layer.neurons.len();
            assert(ws[l as int] == width);
            l += 1;
        }
        proof {
            reveal(MLP::evaluated);
        }
        out
    }

    /// All weights and biases of the network, in the order of `params`.
    pub fn parameters(&self) -> (r: Vec<Value>)
        ensures
            r@ == self.params(),
    {
        let mut r: Vec<Value> = Vec::new();
        let mut l: usize = 0;
        while l < self.layers.len()
            invariant
                l <= self.layers@.len(),
                r@ == layers_params(self.layers@.subrange(0, l as int)),
            decreases self.layers@.len() - l,
        {
            let mut p = self.layers[l].parameters();
            r.append(&mut p);
            l += 1;
            assert(self.layers@.subrange(0, l as int).drop_last() =~= self.layers@.subrange(0, l - 1));
        }
        assert(self.layers@.subrange(0, self.layers@.len() as int) =~= self.layers@);
        r
    }

    proof fn lemma_valid_grows(&self, a: int, b: int)
        requires
            self.valid_in(a),
            a <= b,
        ensures
            self.valid_in(b),
    {
        assert forall|l: int| 0 <= l < self.layers@.len() implies (#[trigger] self.layers@[l]).valid_in(b) by {
            let layer = self.layers@[l];
            assert forall|m: int| 0 <= m < layer.neurons@.len() implies (#[trigger] layer.neurons@[m]).valid_in(
                b,
            ) by {
                assert(layer.neurons@[m].valid_in(a));
            }
        }
    }

    /// The sum of squared errors over a batch: for each example in turn, the
    /// first output minus the target, squared, added to a running sum that
    /// starts at a leaf holding zero. The result is the root to run
    /// `backward` from.
    #[verifier::rlimit(100)]
    pub fn loss<S: Scalar>(&self, g: &mut Graph<S>, xs: &Vec<Vec<Value>>, ys: &Vec<Value>) -> (r: Value)
        requires
            old(g).wf(),
            self.shaped(),
            self.valid_in(old(g)@.len() as int),
            self.out_width() >= 1,
            xs@.len() == ys@.len(),
            forall|i: int|
                0 <= i < xs@.len() ==> (#[trigger] xs@[i])@.len() == self.nin && all_valid(
                    xs@[i]@,
                    old(g)@.len() as int,
                ),
            all_valid(ys@, old(g)@.len() as int),
            old(g)@.len() + 1 + xs@.len() * (self.eval_cost() + 5) <= usize::MAX,
        ensures
            final(g).wf(),
            extends(final(g)@, old(g)@),
            fresh_grads(final(g)@, old(g)@.len() as int),
            final(g)@.len() == old(g)@.len() + 1 + xs@.len() * (self.eval_cost() + 5),
            final(g)@[old(g)@.len() as int].op == Op::<S>::Leaf,
            final(g)@[old(g)@.len() as int].value == S::spec_zero(),
            r.index == old(g)@.len() + xs@.len() * (self.eval_cost() + 5),
            forall|i: int|
                0 <= i < xs@.len() ==> self.evaluated(
                    final(g)@,
                    old(g)@.len() + 1 + i * (self.eval_cost() + 5),
                    (#[trigger] xs@[i])@,
                ) && loss_term(
                    final(g)@,
                    old(g)@.len() + 1 + i * (self.eval_cost() + 5) + self.eval_cost(),
                    ys@[i],
                    self.outputs(old(g)@.len() + 1 + i * (self.eval_cost() + 5), xs@[i]@)[0],
                    old(g)@.len() + i * (self.eval_cost() + 5),
                ),
    {
        let ghost g0 = g@;
        let ghost cost = self.eval_cost();
        let ghost stride = cost + 5;
        let base = g.len();
        let count = xs.len();
        proof {
            lemma_eval_cost_grows(self.nin as int, self.layers@, 0, self.layers@.len() as int);
            assert(0 <= count * stride) by (nonlinear_arith)
                requires
                    stride >= 0,
            ;
        }
        let two = S::one().plus(&S::one());
        let mut sum = g.leaf(S::zero());
        let mut i: usize = 0;
        while i < count
            invariant
                g.wf(),
                extends(g@, g0),
                fresh_grads(g@, g0.len() as int),
                base == g0.len(),
                count == xs@.len(),
                count == ys@.len(),
                cost == self.eval_cost(),
                stride == cost + 5,
                cost >= 0,
                self.shaped(),
                self.valid_in(base as int),
                self.out_width() >= 1,
                forall|k: int|
                    0 <= k < xs@.len() ==> (#[trigger] xs@[k])@.len() == self.nin && all_valid(
                        xs@[k]@,
                        base as int,
                    ),
                all_valid(ys@, base as int),
                base + 1 + count * stride <= usize::MAX,
                i <= count,
                g@.len() == base + 1 + i * stride,
                g@[base as int].op == Op::<S>::Leaf,
                g@[base as int].value == S::spec_zero(),
                two == S::spec_plus(S::spec_one(), S::spec_one()),
                sum.index == base + i * stride,
                forall|j: int|
                    0 <= j < i ==> self.evaluated(g@, base + 1 + j * stride, (#[trigger] xs@[j])@) && loss_term(
                        g@,
                        base + 1 + j * stride + cost,
                        ys@[j],
                        self.outputs(base + 1 + j * stride, xs@[j]@)[0],
                        base + j * stride,
                    ),
            decreases count - i,
        {
            assert((i + 1) * stride <= count * stride) by (nonlinear_arith)
                requires
                    i < count,
                    stride >= 0,
            ;
            assert((i + 1) * stride == i * stride + stride) by (nonlinear_arith);
            assert(0 <= i * stride) by (nonlinear_arith)
                requires
                    stride >= 0,
            ;
            let ghost before = g@;
            proof {
                self.lemma_valid_grows(base as int, g@.len() as int);
            }
            let x = &xs[i];
            assert(all_valid(x@, g@.len() as int)) by {
                assert forall|k: int| 0 <= k < x@.len() implies (#[trigger] x@[k]).index < g@.len() by {
                    assert(x@[k].index < base);
                }
            }
            let outs = self.call(g, x);
            let ghost after_call = g@;
            let y = ys[i];
            assert(y.index < base);
            let d = g.sub(outs[0], y);
            let sq = g.powf(d, two);
            let ghost prev = sum.index as int;
            sum = g.add(sum, sq);
            proof {
                let e = base + 1 + i * stride + cost;
                assert(e == before.len() + cost);
                assert forall|j: int| 0 <= j < i + 1 implies self.evaluated(
                    g@,
                    base + 1 + j * stride,
                    (#[trigger] xs@[j])@,
                ) && loss_term(
                    g@,
                    base + 1 + j * stride + cost,
                    ys@[j],
                    self.outputs(base + 1 + j * stride, xs@[j]@)[0],
                    base + j * stride,
                ) by {
                    if j < i {
                        assert(j * stride + stride <= i * stride && 0 <= j * stride) by (nonlinear_arith)
                            requires
                                0 <= j < i,
                                stride >= 0,
                        ;
                        lemma_term_kept(
                            g@,
                            before,
                            base + 1 + j * stride + cost,
                            ys@[j],
                            self.outputs(base + 1 + j * stride, xs@[j]@)[0],
                            base + j * stride,
                        );
                        self.lemma_evaluated_kept(g@, before, base + 1 + j * stride, xs@[j]@);
                    } else {
                        assert(g@[base as int + 1 + j * stride + cost + 0] == g@[e]);
                        self.lemma_evaluated_kept(g@, after_call, before.len() as int, x@);
                    }
                }
                assert(g@[base as int] == before[base as int]);
            }
            i += 1;
        }
        sum
    }
}

/// The number of parameters of a network with input width `nin` and layer
/// widths `nouts`, or `None` where that number does not fit in a `usize`.
pub fn parameter_count(nin: usize, nouts: &Vec<usize>) -> (r: Option<usize>)
    ensures
        r matches Some(c) ==> c == param_count(nin as int, nouts@),
        r is None ==> param_count(nin as int, nouts@) > usize::MAX,
{
    let mut total: usize = 0;
    let mut width: usize = nin;
    let mut l: usize = 0;
    while l < nouts.len()
        invariant
            l <= nouts@.len(),
            width == in_width(nin as int, nouts@, l as int),
            total == param_count_upto(nin as int, nouts@, l as int),
        decreases nouts@.len() - l,
    {
        proof {
            lemma_param_count_grows(nin as int, nouts@, l + 1, nouts@.len() as int);
        }
        let nout = nouts[l];
        if nout > 0 {
            if width == usize::MAX {
                assert(nout * (width + 1) > usize::MAX) by (nonlinear_arith)
                    requires
                        nout >= 1,
                        width == usize::MAX,
                ;
                return None;
            }
            let per = width + 1;
            match nout.checked_mul(per) {
                Some(used) => match total.checked_add(used) {
                    Some(t) => {
                        total = t;
                    },
                    None => {
                        return None;
                    },
                },
                None => {
                    return None;
                },
            }
        } else {
            assert(nout * (width + 1) == 0) by (nonlinear_arith)
                requires
                    nout == 0,
            ;
        }
        width = nout;
        l += 1;
    }
    Some(total)
}


proof fn lemma_neurons_params_len(ns: Seq<Neuron>, nin: int)
    requires
        nin >= 0,
        forall|m: int| 0 <= m < ns.len() ==> (#[trigger] ns[m]).weights@.len() == nin,
    ensures
        neurons_params(ns).len() == ns.len() * (nin + 1),
    decreases ns.len(),
{
    if ns.len() > 0 {
        let rest = ns.drop_last();
        assert forall|m: int| 0 <= m < rest.len() implies (#[trigger] rest[m]).weights@.len() == nin by {
            assert(rest[m] == ns[m]);
        }
        lemma_neurons_params_len(rest, nin);
        assert(ns.last().weights@.len() == nin);
        assert(rest.len() * (nin + 1) + nin + 1 == ns.len() * (nin + 1)) by (nonlinear_arith)
            requires
                rest.len() + 1 == ns.len(),
        ;
    }
}

proof fn lemma_params_upto(net: MLP, l: int)
    requires
        net.shaped(),
        0 <= l <= net.layers@.len(),
    ensures
        layers_params(net.layers@.subrange(0, l)).len() == param_count_upto(
            net.nin as int,
            widths(net.layers@),
            l,
        ),
    decreases l,
{
    if l > 0 {
        lemma_params_upto(net, l - 1);
        let ws = widths(net.layers@);
        let layer = net.layers@[l - 1];
        let w = in_width(net.nin as int, ws, l - 1);
        assert(layer.shaped(w, l < net.layers@.len()));
        lemma_neurons_params_len(layer.neurons@, w);
        assert(net.layers@.subrange(0, l).drop_last() =~= net.layers@.subrange(0, l - 1));
        assert(ws[l - 1] == layer.neurons@.len());
    }
}

/// The shape of a network is fixed by its input width and layer widths: it
/// has `param_count(nin, widths)` parameters (a weight per input and a bias
/// for every neuron), and as many outputs as its last layer has neurons.
pub proof fn lemma_network_shape(net: MLP)
    requires
        net.shaped(),
    ensures
        net.params().len() == param_count(net.nin as int, widths(net.layers@)),
        net.layers@.len() > 0 ==> net.out_width() == net.layers@.last().neurons@.len(),
{
    let n = net.layers@.len() as int;
    lemma_params_upto(net, n);
    assert(net.layers@.subrange(0, n) =~= net.layers@);
    if n > 0 {
        assert(widths(net.layers@)[n - 1] == net.layers@[n - 1].neurons@.len());
    }
}

} // verus!
