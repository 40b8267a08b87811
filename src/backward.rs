use vstd::prelude::*;

use crate::graph::{is_operand, operands, reaches, Graph, Operation, Value};
use crate::topo::topo_order;

verus! {

/// The local derivative of a node with respect to one operand, named by the values
/// it is computed from.
#[derive(Clone, Copy, PartialEq, Eq, Structural, Debug)]
pub enum Factor {
    /// The constant 1 (both operands of `Add`).
    One,
    /// The value of the given node (the other operand of `Mul`; the `Exp` node itself).
    ValueOf(usize),
    /// `k * a^(k - 1)` for base node `a` and exponent node `k` (the base of `Pow`).
    PowRule(usize, usize),
    /// `1 - tanh(a)^2` for the operand node `a` of `Tanh`.
    TanhRule(usize),
}

/// One accumulation step of the backward pass:
/// `gradient[target] += factor * gradient[source]`.
#[derive(Clone, Copy, PartialEq, Eq, Structural, Debug)]
pub struct Term {
    pub target: usize,
    pub source: usize,
    pub factor: Factor,
}

/// The local backward rule of node `n` with provenance `op`: one step into each operand
/// that receives gradient, in the order the operation names its operands. The exponent
/// of `Pow` receives none, and a leaf propagates nothing.
pub open spec fn local_terms(n: usize, op: Option<Operation>) -> Seq<Term> {
    match op {
        None => Seq::empty(),
        Some(Operation::Tanh(a)) => seq![Term { target: a, source: n, factor: Factor::TanhRule(a) }],
        Some(Operation::Exp(a)) => seq![Term { target: a, source: n, factor: Factor::ValueOf(n) }],
        Some(Operation::Pow(a, k)) => seq![
            Term { target: a, source: n, factor: Factor::PowRule(a, k) },
        ],
        Some(Operation::Add(a, b)) => seq![
            Term { target: a, source: n, factor: Factor::One },
            Term { target: b, source: n, factor: Factor::One },
        ],
        Some(Operation::Mul(a, b)) => seq![
            Term { target: a, source: n, factor: Factor::ValueOf(b) },
            Term { target: b, source: n, factor: Factor::ValueOf(a) },
        ],
    }
}

/// The local rules of the nodes of `order`, replayed one node after the other.
pub open spec fn schedule(g: Seq<Option<Operation>>, order: Seq<usize>) -> Seq<Term>
    decreases order.len(),
{
    if order.len() == 0 {
        Seq::empty()
    } else {
        schedule(g, order.drop_last()) + local_terms(order.last(), g[order.last() as int])
    }
}

impl Value {
    /// The local backward rule of this node, which has index `id` in its graph.
    pub fn backward(&self, id: usize) -> (r: Vec<Term>)
        ensures
            r@ == local_terms(id, self.op),
    {
        let mut r: Vec<Term> = Vec::new();
        match self.op {
            None => {},
            Some(Operation::Tanh(a)) => {
                r.push(Term { target: a, source: id, factor: Factor::TanhRule(a) });
            },
            Some(Operation::Exp(a)) => {
                r.push(Term { target: a, source: id, factor: Factor::ValueOf(id) });
            },
            Some(Operation::Pow(a, k)) => {
                r.push(Term { target: a, source: id, factor: Factor::PowRule(a, k) });
            },
            Some(Operation::Add(a, b)) => {
                r.push(Term { target: a, source: id, factor: Factor::One });
                r.push(Term { target: b, source: id, factor: Factor::One });
            },
            Some(Operation::Mul(a, b)) => {
                r.push(Term { target: a, source: id, factor: Factor::ValueOf(b) });
                r.push(Term { target: b, source: id, factor: Factor::ValueOf(a) });
            },
        }
        assert(r@ =~= local_terms(id, self.op));
        r
    }
}

impl Graph {
    /// The local rule of node `i` of this graph.
    pub fn node_terms(&self, i: usize) -> (r: Vec<Term>)
        requires
            i < self@.len(),
        ensures
            r@ == local_terms(i, self@[i as int]),
    {
        let op = self.op(i);
        let v = Value { op, label: None };
        v.backward(i)
    }

    /// The steps of the backward pass from `root`: the local rule of every node that
    /// `root` reaches, once each, root first. Before the steps run, the gradient of
    /// `root` is seeded with 1. Every step into a node comes before any step out of
    /// it, so each node's gradient is complete before it is passed on.
    pub fn full_backward(&self, root: usize) -> (r: Vec<Term>)
        requires
            self.wf(),
            root < self@.len(),
        ensures
            r@ == schedule(self@, topo_order(self@, root)),
            forall|p: int|
                0 <= p < r@.len() ==> {
                    &&& reaches(self@, root as int, (#[trigger] r@[p]).source as int)
                    &&& is_operand(self@, r@[p].source as int, r@[p].target as int)
                },
            forall|p: int, q: int|
                0 <= p < r@.len() && 0 <= q < r@.len() && (#[trigger] r@[p]).target == (
                #[trigger] r@[q]).source ==> p < q,
    {
        let order = self.reversed_topo(root);
        let ghost g = self@;
        let mut plan: Vec<Term> = Vec::new();
        let ghost mut owner: Seq<int> = Seq::empty();
        let mut i: usize = 0;
        while i < order.len()
            invariant
                self.wf(),
                g == self@,
                i <= order@.len(),
                order@ == topo_order(g, root),
                forall|x: int| 0 <= x < order@.len() ==> (#[trigger] order@[x] as int) < g.len(),
                forall|x: usize|
                    x < g.len() ==> (order@.contains(x) <==> reaches(g, root as int, x as int)),
                forall|x: int, k: int|
                    0 <= x < order@.len() && 0 <= k < order@.len() && #[trigger] is_operand(
                        g,
                        order@[x] as int,
                        order@[k] as int,
                    ) ==> x < k,
                plan@ == schedule(g, order@.take(i as int)),
                owner.len() == plan@.len(),
                forall|p: int|
                    0 <= p < plan@.len() ==> {
                        &&& 0 <= #[trigger] owner[p] < i
                        &&& plan@[p].source == order@[owner[p]]
                        &&& is_operand(g, plan@[p].source as int, plan@[p].target as int)
                    },
                forall|p: int, q: int|
                    0 <= p < q < plan@.len() ==> #[trigger] owner[p] <= #[trigger] owner[q],
            decreases order@.len() - i,
        {
            let n = order[i];
            let terms = self.node_terms(n);
            let ghost before = plan@;
            let ghost owner_before = owner;
            let mut j: usize = 0;
            while j < terms.len()
                invariant
                    j <= terms@.len(),
                    terms@ == local_terms(n, g[n as int]),
                    plan@ == before + terms@.take(j as int),
                    owner =~= owner_before + Seq::new(j as nat, |x: int| i as int),
                decreases terms@.len() - j,
            {
                plan.push(terms[j]);
                proof {
                    owner = owner.push(i as int);
                    assert(plan@ =~= before + terms@.take(j + 1));
                }
                j = j + 1;
            }
            proof {
                assert(terms@.take(j as int) =~= terms@);
                assert(order@.take(i + 1).drop_last() =~= order@.take(i as int));
                assert(order@.take(i + 1).last() == n);
                assert forall|p: int| 0 <= p < plan@.len() implies {
                    &&& 0 <= #[trigger] owner[p] < i + 1
                    &&& plan@[p].source == order@[owner[p]]
                    &&& is_operand(g, plan@[p].source as int, plan@[p].target as int)
                } by {
                    if p >= before.len() {
                        let x = p - before.len();
                        let ops = operands(g[n as int]);
                        assert(plan@[p] == terms@[x]);
                        match g[n as int] {
                            None => {},
                            Some(Operation::Tanh(a)) => {
                                assert(ops[0] == a);
                            },
                            Some(Operation::Exp(a)) => {
                                assert(ops[0] == a);
                            },
                            Some(Operation::Pow(a, k)) => {
                                assert(ops[0] == a);
                            },
                            Some(Operation::Add(a, b)) => {
                                assert(ops[0] == a && ops[1] == b);
                            },
                            Some(Operation::Mul(a, b)) => {
                                assert(ops[0] == a && ops[1] == b);
                            },
                        }
                    } else {
                        assert(plan@[p] == before[p]);
                        assert(owner[p] == owner_before[p]);
                    }
                }
            }
            i = i + 1;
        }
        proof {
            assert(order@.take(order@.len() as int) =~= order@);
            assert forall|p: int, q: int|
                0 <= p < plan@.len() && 0 <= q < plan@.len() && (#[trigger] plan@[p]).target == (
                #[trigger] plan@[q]).source implies p < q by {
                let x = owner[p];
                let k = owner[q];
                assert(order@[k] == plan@[p].target);
                assert(is_operand(g, order@[x] as int, order@[k] as int));
                if q <= p {
                    if q < p {
                        assert(owner[q] <= owner[p]);
                    }
                }
            }
            assert forall|p: int| 0 <= p < plan@.len() implies {
                &&& reaches(g, root as int, (#[trigger] plan@[p]).source as int)
                &&& is_operand(g, plan@[p].source as int, plan@[p].target as int)
            } by {
                let x = owner[p];
                assert(order@.contains(order@[x]));
            }
        }
        plan
    }
}

} // verus!
