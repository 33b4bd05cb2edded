use microrunn::engine::{Graph, Op, Scalar, Value};

#[derive(Clone, Copy, Debug, PartialEq)]
struct F(f64);

impl Scalar for F {
    fn spec_zero() -> F {
        F::zero()
    }

    fn spec_one() -> F {
        F::one()
    }

    fn spec_plus(a: F, b: F) -> F {
        a.plus(&b)
    }

    fn spec_minus(a: F, b: F) -> F {
        a.minus(&b)
    }

    fn spec_times(a: F, b: F) -> F {
        a.times(&b)
    }

    fn spec_powf(a: F, exponent: F) -> F {
        a.powf(&exponent)
    }

    fn spec_tanh(a: F) -> F {
        Scalar::tanh(&a)
    }

    fn zero() -> F {
        F(0.0)
    }

    fn one() -> F {
        F(1.0)
    }

    fn plus(&self, other: &F) -> F {
        F(self.0 + other.0)
    }

    fn minus(&self, other: &F) -> F {
        F(self.0 - other.0)
    }

    fn times(&self, other: &F) -> F {
        F(self.0 * other.0)
    }

    fn powf(&self, exponent: &F) -> F {
        F(self.0.powf(exponent.0))
    }

    fn tanh(&self) -> F {
        F(self.0.tanh())
    }
}

fn val(g: &Graph<F>, v: Value) -> f64 {
    g.value(v).0
}

fn grad(g: &Graph<F>, v: Value) -> f64 {
    g.grad(v).0
}

fn close(a: f64, b: f64, tol: f64) -> bool {
    (a - b).abs() < tol
}

#[test]
fn mod_add_two_values() {
    let mut g: Graph<F> = Graph::new();
    let a = g.leaf(F(2.0));
    let b = g.leaf(F(-3.0));
    let result = g.add(a, b);
    assert_eq!(val(&g, result), -1.0);
}

#[test]
fn mod_multiply_two_values() {
    let mut g: Graph<F> = Graph::new();
    let a = g.leaf(F(2.0));
    let b = g.leaf(F(-3.0));
    let result = g.mul(a, b);
    assert_eq!(val(&g, result), -6.0);
}

#[test]
fn mod_multiply_two_reference_values() {
    let mut g: Graph<F> = Graph::new();
    let a = g.leaf(F(2.0));
    let b = g.leaf(F(-3.0));
    let result = g.mul(a, b);
    assert_eq!(val(&g, result), -6.0);
    assert_eq!(val(&g, a), 2.0);
    assert_eq!(val(&g, b), -3.0);
}

#[test]
fn mod_tanh_one_value() {
    let mut g: Graph<F> = Graph::new();
    let a = g.leaf(F(2.0));
    let result = g.tanh(a);
    let offset = 0.000009;
    let r = val(&g, result);
    assert!((0.96402 + offset) > r && r > (0.96402 - offset));
}

#[test]
fn mod_feed_forward() {
    let mut g: Graph<F> = Graph::new();
    let a = g.leaf(F(2.0));
    let b = g.leaf(F(-3.0));
    let c = g.leaf(F(10.0));
    let d = g.mul(a, b);
    let e = g.add(d, c);
    let f = g.tanh(e);
    g.backward(f);
    assert_ne!(0.0, grad(&g, f));
}

#[test]
fn v1_add_two_values() {
    let mut g: Graph<F> = Graph::new();
    let a = g.leaf(F(2.0));
    let b = g.leaf(F(-3.0));
    let result = g.add(a, b);
    assert_eq!(g.value(result), F(-1.0));
    assert_eq!(g.grad(result), F(0.0));
}

#[test]
fn v1_multiply_two_values() {
    let mut g: Graph<F> = Graph::new();
    let a = g.leaf(F(2.0));
    let b = g.leaf(F(-3.0));
    let result = g.mul(a, b);
    assert_eq!(g.value(result), F(-6.0));
    assert_eq!(g.grad(result), F(0.0));
}

#[test]
fn v1_multiply_two_reference_values() {
    let mut g: Graph<F> = Graph::new();
    let a = g.leaf(F(2.0));
    let b = g.leaf(F(-3.0));
    let result = g.mul(a, b);
    assert_eq!(g.value(result), F(-6.0));
    assert_eq!(g.grad(result), F(0.0));
}

#[test]
fn v1_tanh_one_value() {
    let mut g: Graph<F> = Graph::new();
    let a = g.leaf(F(2.0));
    let result = g.tanh(a);
    let offset = 0.000009;
    let r = val(&g, result);
    assert!((0.96402 + offset) > r && r > (0.96402 - offset));
}

#[test]
fn v1_feed_forward() {
    let mut g: Graph<F> = Graph::new();
    let a = g.leaf(F(2.0));
    let b = g.leaf(F(-3.0));
    let c = g.leaf(F(10.0));
    let d = g.mul(a, b);
    let e = g.add(d, c);
    let f = g.tanh(e);
    g.backward(f);
    assert_ne!(0.0, grad(&g, f));
}

#[test]
fn add_and_multiply_values_sum_and_product() {
    for (x, y) in [(0.5, 4.0), (-1.25, 3.0), (0.0, -7.5), (1e10, 2e-3)] {
        let mut g: Graph<F> = Graph::new();
        let a = g.leaf(F(x));
        let b = g.leaf(F(y));
        let s = g.add(a, b);
        let p = g.mul(a, b);
        assert_eq!(val(&g, s), x + y);
        assert_eq!(val(&g, p), x * y);
    }
}

#[test]
fn tanh_stays_inside_open_unit_interval() {
    for x in [-5.0, -0.5, 0.0, 0.3, 2.0, 5.0] {
        let mut g: Graph<F> = Graph::new();
        let a = g.leaf(F(x));
        let t = g.tanh(a);
        let v = val(&g, t);
        assert!(-1.0 < v && v < 1.0);
    }
}

#[test]
fn shared_node_gradient_accumulates() {
    let mut g: Graph<F> = Graph::new();
    let x = g.leaf(F(3.0));
    let y = g.add(x, x);
    g.backward(y);
    assert_eq!(grad(&g, y), 1.0);
    assert_eq!(grad(&g, x), 2.0);
}

#[test]
fn chain_rule_matches_finite_differences() {
    let mut g: Graph<F> = Graph::new();
    let a = g.leaf(F(2.0));
    let b = g.leaf(F(-3.0));
    let c = g.leaf(F(10.0));
    let d = g.mul(a, b);
    let e = g.add(d, c);
    let f = g.tanh(e);
    g.backward(f);

    let fv = val(&g, f);
    assert_eq!(grad(&g, f), 1.0);
    assert!(close(grad(&g, e), 1.0 - fv * fv, 1e-12));
    assert_eq!(grad(&g, d), grad(&g, e));
    assert_eq!(grad(&g, c), grad(&g, e));
    assert!(close(grad(&g, a), val(&g, b) * grad(&g, d), 1e-12));
    assert!(close(grad(&g, b), val(&g, a) * grad(&g, d), 1e-12));

    let out = |av: f64, bv: f64, cv: f64| (av * bv + cv).tanh();
    let h = 1e-6;
    let da = (out(2.0 + h, -3.0, 10.0) - out(2.0 - h, -3.0, 10.0)) / (2.0 * h);
    let db = (out(2.0, -3.0 + h, 10.0) - out(2.0, -3.0 - h, 10.0)) / (2.0 * h);
    let dc = (out(2.0, -3.0, 10.0 + h) - out(2.0, -3.0, 10.0 - h)) / (2.0 * h);
    assert!(close(grad(&g, a), da, 1e-4));
    assert!(close(grad(&g, b), db, 1e-4));
    assert!(close(grad(&g, c), dc, 1e-4));
}

#[test]
fn backward_twice_doubles_gradients() {
    let mut g: Graph<F> = Graph::new();
    let a = g.leaf(F(2.0));
    let b = g.leaf(F(-3.0));
    let f = g.mul(a, b);
    g.backward(f);
    assert_eq!((grad(&g, a), grad(&g, b)), (-3.0, 2.0));
    g.backward(f);
    assert_eq!((grad(&g, a), grad(&g, b)), (-6.0, 4.0));
    assert_eq!(grad(&g, f), 1.0);
    g.zero_grad();
    g.backward(f);
    assert_eq!((grad(&g, a), grad(&g, b)), (-3.0, 2.0));
}

#[test]
fn backward_twice_without_reset_is_wrong_deeper_down() {
    let mut g: Graph<F> = Graph::new();
    let a = g.leaf(F(2.0));
    let b = g.leaf(F(-3.0));
    let d = g.mul(a, b);
    let x = g.leaf(F(0.5));
    let e = g.add(d, x);
    g.backward(e);
    assert_eq!((grad(&g, a), grad(&g, d), grad(&g, x)), (-3.0, 1.0, 1.0));
    g.backward(e);
    // the direct operands of the root get twice their contribution; below
    // them the inflated gradients are propagated again
    assert_eq!((grad(&g, d), grad(&g, x)), (2.0, 2.0));
    assert_eq!(grad(&g, a), -9.0);
    g.zero_grad();
    g.backward(e);
    assert_eq!((grad(&g, a), grad(&g, d), grad(&g, x)), (-3.0, 1.0, 1.0));
}

#[test]
fn power_gradient() {
    let mut g: Graph<F> = Graph::new();
    let a = g.leaf(F(3.0));
    let p = g.powf(a, F(2.0));
    assert_eq!(val(&g, p), 9.0);
    g.backward(p);
    assert_eq!(grad(&g, a), 6.0);
}

#[test]
fn non_integer_power_of_negative_is_nan() {
    let mut g: Graph<F> = Graph::new();
    let a = g.leaf(F(-2.0));
    let p = g.powf(a, F(0.5));
    assert!(val(&g, p).is_nan());
    let q = g.add(p, a);
    assert!(val(&g, q).is_nan());
}

#[test]
fn tanh_gradient_uses_output_value() {
    let mut g: Graph<F> = Graph::new();
    let a = g.leaf(F(0.7));
    let t = g.tanh(a);
    g.backward(t);
    let tv = 0.7f64.tanh();
    assert!(close(grad(&g, a), 1.0 - tv * tv, 1e-12));
}

#[test]
fn negate_and_subtract() {
    let mut g: Graph<F> = Graph::new();
    let a = g.leaf(F(5.0));
    let b = g.leaf(F(2.0));
    let n = g.neg(a);
    assert_eq!(val(&g, n), -5.0);
    let s = g.sub(a, b);
    assert_eq!(val(&g, s), 3.0);
    assert_eq!(g.len(), 7);
    g.backward(s);
    assert_eq!(grad(&g, a), 1.0);
    assert_eq!(grad(&g, b), -1.0);
    assert_eq!(grad(&g, n), 0.0);
}

#[test]
fn unreachable_nodes_keep_their_gradient() {
    let mut g: Graph<F> = Graph::new();
    let a = g.leaf(F(1.0));
    let b = g.leaf(F(2.0));
    let c = g.mul(a, b);
    let d = g.add(a, a);
    g.backward(d);
    assert_eq!(grad(&g, b), 0.0);
    assert_eq!(grad(&g, c), 0.0);
    assert_eq!(grad(&g, a), 2.0);
}

#[test]
fn reachable_marks_exactly_the_ancestors() {
    let mut g: Graph<F> = Graph::new();
    let a = g.leaf(F(1.0));
    let b = g.leaf(F(2.0));
    let c = g.leaf(F(3.0));
    let d = g.mul(a, b);
    let e = g.tanh(d);
    let _f = g.add(c, c);
    let marks = g.reachable(e);
    assert_eq!(marks, vec![true, true, false, true, true, false]);
    let marks_c = g.reachable(c);
    assert_eq!(marks_c, vec![false, false, true, false, false, false]);
}

#[test]
fn nodes_record_their_operations() {
    let mut g: Graph<F> = Graph::new();
    let a = g.leaf(F(1.0));
    let b = g.leaf(F(2.0));
    let c = g.mul(a, b);
    let d = g.powf(c, F(3.0));
    assert_eq!(c, Value { index: 2 });
    assert_eq!(d, Value { index: 3 });
    assert_eq!(val(&g, d), 8.0);
    assert!(matches!(g.op(c), Op::Mul(0, 1)));
    assert!(matches!(g.op(d), Op::Pow(2, F(e)) if e == 3.0));
}
