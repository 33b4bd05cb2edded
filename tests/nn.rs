use microrunn::engine::{Graph, Op, Scalar, Value};
use microrunn::nn::{parameter_count, Layer, Neuron, MLP};
use rand::distributions::{Distribution, Uniform};
use rand::rngs::StdRng;
use rand::SeedableRng;

#[derive(Clone, Copy, Debug, PartialEq)]
struct F(f64);

impl Scalar for F {
    fn spec_zero() -> F {
        F::zero()
    }

    fn spec_one() -> F {
        F::one()
    }

    fn spec_plus(a: F, b: F) -> F {
        a.plus(&b)
    }

    fn spec_minus(a: F, b: F) -> F {
        a.minus(&b)
    }

    fn spec_times(a: F, b: F) -> F {
        a.times(&b)
    }

    fn spec_powf(a: F, exponent: F) -> F {
        a.powf(&exponent)
    }

    fn spec_tanh(a: F) -> F {
        Scalar::tanh(&a)
    }

    fn zero() -> F {
        F(0.0)
    }

    fn one() -> F {
        F(1.0)
    }

    fn plus(&self, other: &F) -> F {
        F(self.0 + other.0)
    }

    fn minus(&self, other: &F) -> F {
        F(self.0 - other.0)
    }

    fn times(&self, other: &F) -> F {
        F(self.0 * other.0)
    }

    fn powf(&self, exponent: &F) -> F {
        F(self.0.powf(exponent.0))
    }

    fn tanh(&self) -> F {
        F(self.0.tanh())
    }
}

fn samples(n: usize) -> Vec<F> {
    let mut rng = StdRng::seed_from_u64(42);
    let generator = Uniform::from(0.01..=1.00);
    (0..n).map(|_| F(generator.sample(&mut rng))).collect()
}

fn leaves(g: &mut Graph<F>, xs: &[f64]) -> Vec<Value> {
    xs.iter().map(|x| g.leaf(F(*x))).collect()
}

#[test]
fn create_neuron() {
    let mut g: Graph<F> = Graph::new();
    let n = Neuron::new(&mut g, &samples(7), 0, 6, true);
    assert_eq!(6, n.weights.len());
}

#[test]
fn mod_create_output_from_neuron() {
    let mut g: Graph<F> = Graph::new();
    let s = samples(1)[0];
    let x = vec![g.leaf(s), g.leaf(s), g.leaf(s)];
    let n = Neuron::new(&mut g, &samples(4), 0, 3, true);
    let out = n.call(&mut g, &x);
    assert_eq!(3, n.weights.len());
    assert_eq!(0.0, g.grad(out).0);
}

#[test]
fn create_output_from_layer() {
    let mut g: Graph<F> = Graph::new();
    let l = Layer::new(&mut g, &samples(12), 0, 3, 3, true);
    let s = samples(1)[0];
    let x = vec![g.leaf(s), g.leaf(s), g.leaf(s)];
    let out = l.call(&mut g, &x);
    assert_eq!(3, out.len());
}

#[test]
fn create_output_from_mlp() {
    let mut g: Graph<F> = Graph::new();
    let s = samples(1)[0];
    // the network reads exactly as many inputs as its input width
    let x = vec![g.leaf(s), g.leaf(s)];
    let nouts = vec![3, 3, 1];
    let count = parameter_count(2, &nouts).unwrap();
    let m = MLP::new(&mut g, 2, &nouts, &samples(count));
    let out: Vec<Value> = m.call(&mut g, &x);
    assert_eq!(1, out.len());
    assert_eq!(3, m.layers.len());
}

#[test]
fn create_neuron_adds_correct_amount_of_weights() {
    let mut g: Graph<F> = Graph::new();
    let n = Neuron::new(&mut g, &samples(7), 0, 6, true);
    assert_eq!(6, n.weights.len());
}

#[test]
fn create_neuron_adds_random_value_weights() {
    let mut g: Graph<F> = Graph::new();
    let n = Neuron::new(&mut g, &samples(7), 0, 6, true);
    for w in n.weights.iter() {
        assert_ne!(0.0, g.value(*w).0);
    }
}

#[test]
fn create_neuron_adds_random_value_bias() {
    let mut g: Graph<F> = Graph::new();
    let n = Neuron::new(&mut g, &samples(7), 0, 6, true);
    assert_ne!(0.0, g.value(n.bias).0);
}

#[test]
fn v1_create_output_from_neuron() {
    let mut g: Graph<F> = Graph::new();
    let xs = samples(3);
    let x: Vec<Value> = xs.iter().map(|v| g.leaf(*v)).collect();
    let n = Neuron::new(&mut g, &samples(4), 0, 3, true);
    let out = n.call(&mut g, &x);
    assert_eq!(0.0, g.grad(out).0);
}

#[test]
fn output_grad_not_zero_after_backward_from_neuron() {
    let mut g: Graph<F> = Graph::new();
    let xs = samples(3);
    let x: Vec<Value> = xs.iter().map(|v| g.leaf(*v)).collect();
    let n = Neuron::new(&mut g, &samples(4), 0, 3, true);
    let out = n.call(&mut g, &x);
    g.backward(out);
    assert_ne!(0.0, g.grad(out).0);
}

#[test]
fn neuron_weights_are_sampled_independently() {
    let init = samples(7);
    let mut g: Graph<F> = Graph::new();
    let n = Neuron::new(&mut g, &init, 0, 6, false);
    for (k, w) in n.weights.iter().enumerate() {
        assert_eq!(g.value(*w), init[k]);
    }
    assert_eq!(g.value(n.bias), init[6]);
    assert_ne!(init[0], init[1]);
}

#[test]
fn neuron_computes_bias_plus_weighted_sum() {
    let mut g: Graph<F> = Graph::new();
    let x = leaves(&mut g, &[1.0, 2.0, 3.0]);
    let init = vec![F(0.5), F(-1.0), F(2.0), F(0.25)];
    let linear = Neuron::new(&mut g, &init, 0, 3, false);
    let out = linear.call(&mut g, &x);
    assert_eq!(g.value(out).0, 0.25 + 0.5 * 1.0 - 1.0 * 2.0 + 2.0 * 3.0);
    let squashed = Neuron::new(&mut g, &init, 0, 3, true);
    let out2 = squashed.call(&mut g, &x);
    assert_eq!(g.value(out2).0, (4.75f64).tanh());
    assert!(matches!(g.op(out2), Op::Tanh(_)));
}

#[test]
fn network_shape_has_one_output_and_25_parameters() {
    let mut g: Graph<F> = Graph::new();
    let nouts = vec![3, 3, 1];
    assert_eq!(parameter_count(2, &nouts), Some(25));
    let m = MLP::new(&mut g, 2, &nouts, &samples(25));
    assert_eq!(m.parameters().len(), 25);
    assert_eq!(g.len(), 25);
    let x = leaves(&mut g, &[0.0, 1.0]);
    let out = m.call(&mut g, &x);
    assert_eq!(out.len(), 1);
    let params = m.parameters();
    for (k, p) in params.iter().enumerate() {
        assert_eq!(p.index, k);
    }
}

#[test]
fn parameter_count_overflow_is_none() {
    assert_eq!(parameter_count(usize::MAX, &vec![1]), None);
    assert_eq!(parameter_count(usize::MAX, &vec![0]), Some(0));
    assert_eq!(parameter_count(4, &vec![]), Some(0));
    assert_eq!(parameter_count(usize::MAX / 2, &vec![3]), None);
    assert_eq!(parameter_count(3, &vec![2, 5]), Some(2 * 4 + 5 * 3));
}

#[test]
fn last_layer_is_linear_and_others_are_not() {
    let mut g: Graph<F> = Graph::new();
    let nouts = vec![3, 3, 1];
    let m = MLP::new(&mut g, 2, &nouts, &samples(25));
    assert!(m.layers[0].neurons.iter().all(|n| n.non_lin));
    assert!(m.layers[1].neurons.iter().all(|n| n.non_lin));
    assert!(m.layers[2].neurons.iter().all(|n| !n.non_lin));
}

#[test]
fn loss_is_non_negative_and_backward_reaches_parameters() {
    let mut g: Graph<F> = Graph::new();
    let nouts = vec![3, 3, 1];
    let m = MLP::new(&mut g, 2, &nouts, &samples(25));
    let data = [[0.0, 0.0], [0.0, 1.0], [1.0, 0.0], [1.0, 1.0]];
    let targets = [0.0, 1.0, 1.0, 0.0];
    let xs: Vec<Vec<Value>> = data.iter().map(|d| leaves(&mut g, d)).collect();
    let ys: Vec<Value> = leaves(&mut g, &targets);
    let loss = m.loss(&mut g, &xs, &ys);
    assert!(g.value(loss).0 >= 0.0);
    g.backward(loss);
    assert_eq!(g.grad(loss).0, 1.0);
    assert!(m.parameters().iter().any(|p| g.grad(*p).0 != 0.0));
}

#[test]
fn loss_of_one_example_is_squared_error() {
    let mut g: Graph<F> = Graph::new();
    let nouts = vec![1];
    let m = MLP::new(&mut g, 1, &nouts, &vec![F(2.0), F(0.5)]);
    let x = leaves(&mut g, &[3.0]);
    let y = g.leaf(F(4.0));
    let loss = m.loss(&mut g, &vec![x], &vec![y]);
    assert_eq!(g.value(loss).0, 6.25);
    g.backward(loss);
    // d/dw (w*x + b - y)^2 = 2 * (w*x + b - y) * x
    assert_eq!(g.grad(Value { index: 0 }).0, 2.0 * 2.5 * 3.0);
    assert_eq!(g.grad(Value { index: 1 }).0, 2.0 * 2.5);
}

#[test]
fn loss_of_empty_batch_is_zero_leaf() {
    let mut g: Graph<F> = Graph::new();
    let m = MLP::new(&mut g, 1, &vec![1], &vec![F(2.0), F(0.5)]);
    let loss = m.loss(&mut g, &vec![], &vec![]);
    assert_eq!(g.value(loss).0, 0.0);
    assert!(matches!(g.op(loss), Op::Leaf));
}

#[test]
fn neuron_and_layer_parameters_in_creation_order() {
    let mut g: Graph<F> = Graph::new();
    let n = Neuron::new(&mut g, &samples(4), 0, 3, true);
    let p: Vec<usize> = n.parameters().iter().map(|v| v.index).collect();
    assert_eq!(p, vec![0, 1, 2, 3]);
    let l = Layer::new(&mut g, &samples(6), 0, 2, 2, false);
    let q: Vec<usize> = l.parameters().iter().map(|v| v.index).collect();
    assert_eq!(q, vec![4, 5, 6, 7, 8, 9]);
}

#[test]
fn linear_network_output_is_bias_plus_products() {
    let mut g: Graph<F> = Graph::new();
    let m = MLP::new(&mut g, 2, &vec![1], &vec![F(3.0), F(-1.0), F(0.5)]);
    let x = leaves(&mut g, &[2.0, 4.0]);
    let out = m.call(&mut g, &x);
    assert_eq!(out.len(), 1);
    assert_eq!(g.value(out[0]).0, 0.5 + 3.0 * 2.0 - 1.0 * 4.0);
    // weight 0 times input 0, bias plus it, weight 1 times input 1, sum plus it
    assert!(matches!(g.op(Value { index: 5 }), Op::Mul(0, 3)));
    assert!(matches!(g.op(Value { index: 6 }), Op::Add(2, 5)));
    assert!(matches!(g.op(Value { index: 7 }), Op::Mul(1, 4)));
    assert!(matches!(g.op(Value { index: 8 }), Op::Add(6, 7)));
    assert_eq!(out[0].index, 8);
}

#[test]
fn layer_with_mixed_non_linearity() {
    let mut g: Graph<F> = Graph::new();
    let x = leaves(&mut g, &[1.0, 2.0]);
    let init = vec![F(0.5), F(0.25), F(0.1)];
    let a = Neuron::new(&mut g, &init, 0, 2, true);
    let b = Neuron::new(&mut g, &init, 0, 2, false);
    let layer = Layer { neurons: vec![a, b] };
    let outs = layer.call(&mut g, &x);
    let sum = 0.1 + 0.5 * 1.0 + 0.25 * 2.0;
    assert_eq!(g.value(outs[0]).0, (sum as f64).tanh());
    assert_eq!(g.value(outs[1]).0, sum);
    assert!(matches!(g.op(outs[0]), Op::Tanh(_)));
    assert!(matches!(g.op(outs[1]), Op::Add(_, _)));
    assert_eq!(g.grad(outs[0]).0, 0.0);
}
