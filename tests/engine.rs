use micrograd::backward::{Factor, Term};
use micrograd::diagram::Diagram;
use micrograd::graph::{Graph, Operation, Value};
use micrograd::network::{Layer, Neuron};

/// Values and gradients beside a graph, the way a numeric caller keeps them.
struct Tape {
    g: Graph,
    data: Vec<f32>,
    grad: Vec<f32>,
}

impl Tape {
    fn new() -> Tape {
        Tape { g: Graph::new(), data: Vec::new(), grad: Vec::new() }
    }

    fn leaf(&mut self, v: f32, label: &str) -> usize {
        self.sync();
        let i = self.g.leaf(label.to_string());
        self.data.push(v);
        self.grad.push(0.0);
        i
    }

    /// Computes the forward value of every node added since the last call.
    fn sync(&mut self) {
        for i in self.data.len()..self.g.len() {
            let d = &self.data;
            let v = match self.g.op(i) {
                None => panic!("a leaf needs a value"),
                Some(Operation::Add(a, b)) => d[a] + d[b],
                Some(Operation::Mul(a, b)) => d[a] * d[b],
                Some(Operation::Pow(a, k)) => d[a].powf(d[k]),
                Some(Operation::Exp(a)) => d[a].exp(),
                Some(Operation::Tanh(a)) => {
                    let e = (2.0 * d[a]).exp();
                    (e - 1.0) / (e + 1.0)
                }
            };
            self.data.push(v);
            self.grad.push(0.0);
        }
    }

    fn factor(&self, f: Factor) -> f32 {
        let d = &self.data;
        match f {
            Factor::One => 1.0,
            Factor::ValueOf(n) => d[n],
            Factor::PowRule(a, k) => d[k] * d[a].powf(d[k] - 1.0),
            Factor::TanhRule(a) => 1.0 - d[a].tanh().powi(2),
        }
    }

    fn zero_grad(&mut self) {
        for g in self.grad.iter_mut() {
            *g = 0.0;
        }
    }

    fn backward(&mut self, root: usize) {
        let plan = self.g.full_backward(root);
        self.grad[root] = 1.0;
        for t in plan {
            let delta = self.factor(t.factor) * self.grad[t.source];
            self.grad[t.target] += delta;
        }
    }
}

fn close(a: f32, b: f32) -> bool {
    (a - b).abs() < 1e-4
}

#[test]
fn add_forward_value() {
    let mut t = Tape::new();
    let a = t.leaf(2.0, "a");
    let b = t.leaf(3.0, "b");
    let c = t.g.add(a, b);
    t.sync();
    assert_eq!(t.g.op(c), Some(Operation::Add(a, b)));
    assert_eq!(t.data[c], 5.0);
}

#[test]
fn tanh_of_zero_is_zero() {
    let mut t = Tape::new();
    let a = t.leaf(0.0, "a");
    let c = t.g.tanh(a);
    t.sync();
    assert_eq!(t.g.op(c), Some(Operation::Tanh(a)));
    assert_eq!(t.data[c], 0.0);
}

#[test]
fn shared_operand_accumulates() {
    let mut t = Tape::new();
    let x = t.leaf(3.0, "x");
    let y = t.g.add(x, x);
    t.sync();
    let plan = t.g.full_backward(y);
    let step = Term { target: x, source: y, factor: Factor::One };
    assert_eq!(plan, vec![step, step]);
    t.backward(y);
    assert_eq!(t.grad[x], 2.0);
    assert_eq!(t.data[y], 6.0);
}

#[test]
fn mul_gradients() {
    let mut t = Tape::new();
    let a = t.leaf(2.0, "a");
    let b = t.leaf(3.0, "b");
    let z = t.g.mul(a, b);
    t.sync();
    let plan = t.g.full_backward(z);
    assert_eq!(
        plan,
        vec![
            Term { target: a, source: z, factor: Factor::ValueOf(b) },
            Term { target: b, source: z, factor: Factor::ValueOf(a) },
        ]
    );
    t.backward(z);
    assert_eq!(t.grad[a], 3.0);
    assert_eq!(t.grad[b], 2.0);
}

#[test]
fn zeroed_gradients_leave_no_residue() {
    let mut t = Tape::new();
    let a = t.leaf(2.0, "a");
    let b = t.leaf(3.0, "b");
    let z = t.g.mul(a, b);
    let s = t.g.add(a, b);
    t.sync();
    t.backward(z);
    assert_eq!(t.grad[a], 3.0);
    t.zero_grad();
    t.backward(s);
    assert_eq!(t.grad[a], 1.0);
    assert_eq!(t.grad[b], 1.0);
    assert_eq!(t.grad[z], 0.0);
    // the same root twice, with zeroing, gives the same gradients
    t.zero_grad();
    t.backward(s);
    assert_eq!(t.grad[a], 1.0);
    assert_eq!(t.grad[b], 1.0);
}

#[test]
fn reversed_topo_emits_each_node_once() {
    let mut g = Graph::new();
    let a = g.leaf("a".to_string());
    let b = g.mul(a, a);
    let c = g.add(b, a);
    let unrelated = g.leaf("u".to_string());
    let order = g.reversed_topo(c);
    assert_eq!(order, vec![c, b, a]);
    assert!(!order.contains(&unrelated));
}

#[test]
fn reversed_topo_depth_first_order() {
    let mut g = Graph::new();
    let x1 = g.leaf("x1".to_string());
    let w1 = g.leaf("w1".to_string());
    let x2 = g.leaf("x2".to_string());
    let w2 = g.leaf("w2".to_string());
    let m1 = g.mul(x1, w1);
    let m2 = g.mul(x2, w2);
    let s = g.add(m1, m2);
    let o = g.tanh(s);
    // post-order: x1 w1 m1 x2 w2 m2 s o, reversed
    assert_eq!(g.reversed_topo(o), vec![o, s, m2, w2, x2, m1, w1, x1]);
    assert_eq!(g.reversed_topo(x1), vec![x1]);
}

#[test]
fn consumers_come_before_operands() {
    let mut g = Graph::new();
    let a = g.leaf("a".to_string());
    let b = g.leaf("b".to_string());
    let c = g.mul(a, b);
    let d = g.add(c, a);
    let e = g.exp(d);
    let f = g.mul(e, c);
    let order = g.reversed_topo(f);
    assert_eq!(order.len(), 6);
    let pos = |n: usize| order.iter().position(|&m| m == n).unwrap();
    for &n in order.iter() {
        let ops: Vec<usize> = g.operand_list(n);
        for o in ops {
            assert!(pos(n) < pos(o));
        }
    }
    let plan = g.full_backward(f);
    for (p, tp) in plan.iter().enumerate() {
        for (q, tq) in plan.iter().enumerate() {
            if tp.target == tq.source {
                assert!(p < q);
            }
        }
    }
}

#[test]
fn neuron_scenario_gradients() {
    let mut t = Tape::new();
    let x1 = t.leaf(2.0, "x1");
    let x2 = t.leaf(0.0, "x2");
    let w1 = t.leaf(-3.0, "w1");
    let w2 = t.leaf(1.0, "w2");
    let b = t.leaf(6.8813735870195432, "b");
    let x1w1 = t.g.mul(x1, w1);
    let x2w2 = t.g.mul(x2, w2);
    let sum = t.g.add(x1w1, x2w2);
    let n = t.g.add(sum, b);
    let o = t.g.tanh(n);
    t.sync();
    t.backward(o);
    assert!(close(t.data[o], 0.707_106_8));
    assert!(close(t.grad[n], 0.5));
    assert!(close(t.grad[x1], -1.5));
    assert!(close(t.grad[w1], 1.0));
    assert!(close(t.grad[x2], 0.5));
    assert!(close(t.grad[w2], 0.0));
    assert!(close(t.grad[b], 0.5));
}

#[test]
fn neuron_scenario_through_exp() {
    let mut t = Tape::new();
    let x1 = t.leaf(2.0, "x1");
    let x2 = t.leaf(0.0, "x2");
    let w1 = t.leaf(-3.0, "w1");
    let w2 = t.leaf(1.0, "w2");
    let b = t.leaf(6.8813735870195432, "b");
    let x1w1 = t.g.mul(x1, w1);
    let x2w2 = t.g.mul(x2, w2);
    let sum = t.g.add(x1w1, x2w2);
    let n = t.g.add(sum, b);
    let two = t.leaf(2.0, "2");
    let n2 = t.g.mul(two, n);
    let e = t.g.exp(n2);
    let one = t.leaf(1.0, "1");
    let minus_one = t.leaf(-1.0, "-1");
    let num = t.g.sub(e, one, minus_one);
    let den = t.g.add(e, one);
    let o = t.g.div(num, den, minus_one);
    t.sync();
    t.backward(o);
    assert!(close(t.data[o], 0.707_106_8));
    assert!(close(t.grad[x1], -1.5));
    assert!(close(t.grad[w1], 1.0));
    assert!(close(t.grad[x2], 0.5));
    assert!(close(t.grad[w2], 0.0));
    assert!(close(t.grad[b], 0.5));
}

#[test]
fn gradients_match_finite_differences() {
    // f(a, b) = tanh(a * b + a ^ 3) * exp(b)
    fn build(av: f32, bv: f32) -> (Tape, usize, usize, usize) {
        let mut t = Tape::new();
        let a = t.leaf(av, "a");
        let b = t.leaf(bv, "b");
        let three = t.leaf(3.0, "3");
        let ab = t.g.mul(a, b);
        let a3 = t.g.pow(a, three);
        let s = t.g.add(ab, a3);
        let th = t.g.tanh(s);
        let eb = t.g.exp(b);
        let f = t.g.mul(th, eb);
        t.sync();
        (t, a, b, f)
    }
    let (av, bv) = (0.3f32, -0.4f32);
    let (mut t, a, b, f) = build(av, bv);
    t.backward(f);
    let h = 1e-2f32;
    let fa = (build(av + h, bv).0.data[f] - build(av - h, bv).0.data[f]) / (2.0 * h);
    let fb = (build(av, bv + h).0.data[f] - build(av, bv - h).0.data[f]) / (2.0 * h);
    assert!((t.grad[a] - fa).abs() < 1e-3);
    assert!((t.grad[b] - fb).abs() < 1e-3);
}

#[test]
fn local_rules_of_each_operation() {
    let leaf = Value::new("x".to_string());
    assert!(leaf.backward(0).is_empty());
    assert_eq!(leaf.label, Some("x".to_string()));
    let t = Value { op: Some(Operation::Tanh(1)), label: None };
    assert_eq!(t.backward(4), vec![Term { target: 1, source: 4, factor: Factor::TanhRule(1) }]);
    let e = Value { op: Some(Operation::Exp(2)), label: None };
    assert_eq!(e.backward(5), vec![Term { target: 2, source: 5, factor: Factor::ValueOf(5) }]);
    let p = Value { op: Some(Operation::Pow(2, 3)), label: None };
    assert_eq!(p.backward(6), vec![Term { target: 2, source: 6, factor: Factor::PowRule(2, 3) }]);
    let a = Value { op: Some(Operation::Add(0, 1)), label: None };
    assert_eq!(
        a.backward(7),
        vec![
            Term { target: 0, source: 7, factor: Factor::One },
            Term { target: 1, source: 7, factor: Factor::One },
        ]
    );
}

#[test]
fn pow_sends_no_gradient_to_exponent() {
    let mut t = Tape::new();
    let a = t.leaf(3.0, "a");
    let k = t.leaf(2.0, "k");
    let p = t.g.pow(a, k);
    t.sync();
    assert_eq!(t.data[p], 9.0);
    t.backward(p);
    assert_eq!(t.grad[a], 6.0);
    assert_eq!(t.grad[k], 0.0);
}

#[test]
fn derived_operators_build_primitives() {
    let mut g = Graph::new();
    let a = g.leaf("a".to_string());
    let b = g.leaf("b".to_string());
    let c = g.leaf("-1".to_string());
    let n = g.neg(a, c);
    assert_eq!(g.op(n), Some(Operation::Mul(a, c)));
    let s = g.sub(a, b, c);
    assert_eq!(g.op(s - 1), Some(Operation::Mul(b, c)));
    assert_eq!(g.op(s), Some(Operation::Add(a, s - 1)));
    let d = g.div(a, b, c);
    assert_eq!(g.op(d - 1), Some(Operation::Pow(b, c)));
    assert_eq!(g.op(d), Some(Operation::Mul(a, d - 1)));
    assert_eq!(g.len(), 8);
}

#[test]
fn sum_is_a_left_fold() {
    let mut t = Tape::new();
    let zero = t.leaf(0.0, "0");
    let xs: Vec<usize> = vec![t.leaf(1.5, "p"), t.leaf(2.0, "q"), t.leaf(-0.5, "r")];
    let total = t.g.sum(zero, &xs);
    assert_eq!(total, 6);
    assert_eq!(t.g.op(4), Some(Operation::Add(zero, xs[0])));
    assert_eq!(t.g.op(5), Some(Operation::Add(4, xs[1])));
    assert_eq!(t.g.op(6), Some(Operation::Add(5, xs[2])));
    t.sync();
    assert_eq!(t.data[total], 3.0);
    let empty: Vec<usize> = Vec::new();
    assert_eq!(t.g.sum(zero, &empty), zero);
}

#[test]
fn labels_are_kept_and_replaced() {
    let mut g = Graph::new();
    let a = g.leaf("a".to_string());
    let b = g.exp(a);
    assert_eq!(g.label(a), &Some("a".to_string()));
    assert_eq!(g.label(b), &None);
    g.set_label(b, "e^(a)".to_string());
    assert_eq!(g.label(b), &Some("e^(a)".to_string()));
    assert_eq!(g.op(b), Some(Operation::Exp(a)));
}

#[test]
fn diagram_mirrors_structure() {
    let mut g = Graph::new();
    let x = g.leaf("x".to_string());
    let y = g.add(x, x);
    let z = g.tanh(y);
    let d: Diagram = g.diagram(z);
    assert_eq!(d.vertices, vec![z, y, x]);
    assert_eq!(d.links, vec![(1, 0), (2, 1), (2, 1)]);
}

#[test]
fn neuron_forward_and_parameters() {
    let mut t = Tape::new();
    let w0 = t.leaf(0.5, "w0");
    let w1 = t.leaf(-1.0, "w1");
    let b = t.leaf(0.25, "b");
    let x0 = t.leaf(2.0, "x0");
    let x1 = t.leaf(1.0, "x1");
    let neuron = Neuron::new(vec![w0, w1], b);
    assert_eq!(neuron.parameters(), vec![b, w0, w1]);
    let out = neuron.call(&mut t.g, &vec![x0, x1]);
    assert_eq!(out, 5 + 4);
    assert_eq!(t.g.op(5), Some(Operation::Mul(w0, x0)));
    assert_eq!(t.g.op(6), Some(Operation::Add(b, 5)));
    assert_eq!(t.g.op(7), Some(Operation::Mul(w1, x1)));
    assert_eq!(t.g.op(8), Some(Operation::Add(6, 7)));
    assert_eq!(t.g.op(9), Some(Operation::Tanh(8)));
    t.sync();
    assert!(close(t.data[out], 0.25f32.tanh()));
}

#[test]
fn layer_forward_and_parameters() {
    let mut g = Graph::new();
    let w = g.leaf("w".to_string());
    let b = g.leaf("b".to_string());
    let v = g.leaf("v".to_string());
    let c = g.leaf("c".to_string());
    let x = g.leaf("x".to_string());
    let layer = Layer::new(vec![Neuron::new(vec![w], b), Neuron::new(vec![v], c)]);
    assert_eq!(layer.parameters(), vec![b, w, c, v]);
    let outs = layer.call(&mut g, &vec![x]);
    assert_eq!(outs, vec![7, 10]);
    assert_eq!(g.op(8), Some(Operation::Mul(v, x)));
    assert_eq!(g.op(10), Some(Operation::Tanh(9)));
    assert_eq!(g.len(), 11);
}

#[test]
fn deep_chain_walks_without_recursion() {
    let mut g = Graph::new();
    let zero = g.leaf("0".to_string());
    let x = g.leaf("x".to_string());
    let items: Vec<usize> = vec![x; 200_000];
    let total = g.sum(zero, &items);
    assert_eq!(total, 200_001);
    let order = g.reversed_topo(total);
    assert_eq!(order.len(), 200_002);
    assert_eq!(order[0], total);
    assert_eq!(order[200_000], x);
    assert_eq!(order[200_001], zero);
    let plan = g.full_backward(total);
    assert_eq!(plan.len(), 400_000);
    assert_eq!(plan.iter().filter(|t| t.target == x).count(), 200_000);
}
