use vstd::prelude::*;

verus! {

/// A primitive operation together with the arena indices of its operands.
///
/// The exponent of `Pow` is a node too, but it is treated as a constant:
/// no gradient flows into it.
#[derive(Clone, Copy, PartialEq, Eq, Structural, Debug)]
pub enum Operation {
    Tanh(usize),
    Exp(usize),
    Pow(usize, usize),
    Add(usize, usize),
    Mul(usize, usize),
}

/// The operands that a node's provenance refers to, in the order the operation names them.
pub open spec fn operands(op: Option<Operation>) -> Seq<usize> {
    match op {
        None => Seq::empty(),
        Some(Operation::Tanh(a)) => seq![a],
        Some(Operation::Exp(a)) => seq![a],
        Some(Operation::Pow(a, k)) => seq![a, k],
        Some(Operation::Add(a, b)) => seq![a, b],
        Some(Operation::Mul(a, b)) => seq![a, b],
    }
}

/// Node `to` is one of the operands of node `from`.
pub open spec fn is_operand(g: Seq<Option<Operation>>, from: int, to: int) -> bool {
    &&& 0 <= from < g.len()
    &&& exists|j: int| 0 <= j < operands(g[from]).len() && operands(g[from])[j] as int == to
}

/// Every operand of every node was created strictly before the node itself,
/// so the provenance graph is acyclic.
pub open spec fn acyclic(g: Seq<Option<Operation>>) -> bool {
    forall|i: int, j: int|
        0 <= i < g.len() && 0 <= j < operands(g[i]).len() ==> (#[trigger] operands(g[i])[j] as int)
            < i
}

/// `to` is reachable from `from` by following provenance (every node reaches itself).
pub open spec fn reaches(g: Seq<Option<Operation>>, from: int, to: int) -> bool
    decreases from,
{
    if from == to {
        true
    } else if 0 <= from < g.len() {
        let ops = operands(g[from]);
        ||| (ops.len() > 0 && 0 <= ops[0] < from && reaches(g, ops[0] as int, to))
        ||| (ops.len() > 1 && 0 <= ops[1] < from && reaches(g, ops[1] as int, to))
    } else {
        false
    }
}

/// The nodes that `Graph::sum` appends to a graph of `base` nodes: one `Add` per item,
/// each taking the running total on the left.
pub open spec fn sum_chain(base: int, zero: usize, items: Seq<usize>) -> Seq<Option<Operation>>
    decreases items.len(),
{
    if items.len() == 0 {
        Seq::empty()
    } else {
        let n = items.len() - 1;
        let acc = if n == 0 {
            zero
        } else {
            (base + n - 1) as usize
        };
        sum_chain(base, zero, items.drop_last()).push(Some(Operation::Add(acc, items.last())))
    }
}

/// One node of the computation graph: its provenance and an optional display label.
/// Leaves (inputs, parameters, constants) have no provenance.
#[derive(Debug)]
pub struct Value {
    pub op: Option<Operation>,
    pub label: Option<String>,
}

impl Value {
    /// A leaf node record with the given label and no provenance.
    pub fn new(label: String) -> (r: Value)
        ensures
            r.op is None,
            r.label == Some(label),
    {
        Value { op: None, label: Some(label) }
    }

    /// An unlabelled node record for `a + b`.
    pub fn add(a: usize, b: usize) -> (r: Value)
        ensures
            r.op == Some(Operation::Add(a, b)),
            r.label is None,
    {
        Value { op: Some(Operation::Add(a, b)), label: None }
    }

    /// An unlabelled node record for `a * b`.
    pub fn mul(a: usize, b: usize) -> (r: Value)
        ensures
            r.op == Some(Operation::Mul(a, b)),
            r.label is None,
    {
        Value { op: Some(Operation::Mul(a, b)), label: None }
    }

    /// An unlabelled node record for `a ^ k`.
    pub fn pow(a: usize, k: usize) -> (r: Value)
        ensures
            r.op == Some(Operation::Pow(a, k)),
            r.label is None,
    {
        Value { op: Some(Operation::Pow(a, k)), label: None }
    }

    /// An unlabelled node record for `e ^ a`.
    pub fn exp(a: usize) -> (r: Value)
        ensures
            r.op == Some(Operation::Exp(a)),
            r.label is None,
    {
        Value { op: Some(Operation::Exp(a)), label: None }
    }

    /// An unlabelled node record for `tanh(a)`.
    pub fn tanh(a: usize) -> (r: Value)
        ensures
            r.op == Some(Operation::Tanh(a)),
            r.label is None,
    {
        Value { op: Some(Operation::Tanh(a)), label: None }
    }
}

/// The arena that owns every node of a computation graph.
/// A node is addressed by its index, which is also its creation order.
pub struct Graph {
    nodes: Vec<Value>,
}

impl View for Graph {
    type V = Seq<Option<Operation>>;

    closed spec fn view(&self) -> Seq<Option<Operation>> {
        self.nodes@.map_values(|v: Value| v.op)
    }
}

impl Graph {
    /// The display labels of the nodes, by index.
    pub closed spec fn labels(&self) -> Seq<Option<String>> {
        self.nodes@.map_values(|v: Value| v.label)
    }

    /// The graph is acyclic and every node has a label slot.
    pub open spec fn wf(&self) -> bool {
        &&& acyclic(self@)
        &&& self.labels().len() == self@.len()
    }

    /// An empty graph.
    pub fn new() -> (r: Graph)
        ensures
            r.wf(),
            r@ == Seq::<Option<Operation>>::empty(),
    {
        let r = Graph { nodes: Vec::new() };
        assert(r@ =~= Seq::<Option<Operation>>::empty());
        r
    }

    /// The number of nodes in the graph.
    pub fn len(&self) -> (r: usize)
        ensures
            r == self@.len(),
    {
        self.nodes.len()
    }

    /// The provenance of node `i`.
    pub fn op(&self, i: usize) -> (r: Option<Operation>)
        requires
            i < self@.len(),
        ensures
            r == self@[i as int],
    {
        self.nodes[i].op
    }

    /// The operands of node `i`, in the order its operation names them.
    pub fn operand_list(&self, i: usize) -> (r: Vec<usize>)
        requires
            i < self@.len(),
        ensures
            r@ == operands(self@[i as int]),
    {
        let mut r: Vec<usize> = Vec::new();
        match self.nodes[i].op {
            None => {},
            Some(Operation::Tanh(a)) => {
                r.push(a);
            },
            Some(Operation::Exp(a)) => {
                r.push(a);
            },
            Some(Operation::Pow(a, k)) => {
                r.push(a);
                r.push(k);
            },
            Some(Operation::Add(a, b)) => {
                r.push(a);
                r.push(b);
            },
            Some(Operation::Mul(a, b)) => {
                r.push(a);
                r.push(b);
            },
        }
        assert(r@ =~= operands(self@[i as int]));
        r
    }

    /// The display label of node `i`.
    pub fn label(&self, i: usize) -> (r: &Option<String>)
        requires
            i < self@.len(),
        ensures
            *r == self.labels()[i as int],
    {
        &self.nodes[i].label
    }

    /// Replaces the display label of node `i`; the provenance is left as it was.
    pub fn set_label(&mut self, i: usize, label: String)
        requires
            old(self).wf(),
            i < old(self)@.len(),
        ensures
            final(self).wf(),
            final(self)@ == old(self)@,
            final(self).labels() == old(self).labels().update(i as int, Some(label)),
    {
        let op = self.nodes[i].op;
        self.nodes.set(i, Value { op, label: Some(label) });
        assert(self@ =~= old(self)@);
        assert(self.labels() =~= old(self).labels().update(i as int, Some(label)));
    }

    /// Appends a node whose operands all exist already, and returns its index.
    fn push(&mut self, v: Value) -> (r: usize)
        requires
            old(self).wf(),
            old(self)@.len() < usize::MAX,
            forall|j: int|
                0 <= j < operands(v.op).len() ==> (operands(v.op)[j] as int) < old(self)@.len(),
        ensures
            final(self).wf(),
            r == old(self)@.len(),
            final(self)@ == old(self)@.push(v.op),
            final(self).labels() == old(self).labels().push(v.label),
    {
        let r = self.nodes.len();
        self.nodes.push(v);
        assert(self@ =~= old(self)@.push(v.op));
        assert(self.labels() =~= old(self).labels().push(v.label));
        r
    }

    /// Adds a leaf with the given label and returns its index.
    pub fn leaf(&mut self, label: String) -> (r: usize)
        requires
            old(self).wf(),
            old(self)@.len() < usize::MAX,
        ensures
            final(self).wf(),
            r == old(self)@.len(),
            final(self)@ == old(self)@.push(None),
            final(self).labels() == old(self).labels().push(Some(label)),
    {
        self.push(Value::new(label))
    }

    /// Adds the node `a + b` and returns its index.
    pub fn add(&mut self, a: usize, b: usize) -> (r: usize)
        requires
            old(self).wf(),
            old(self)@.len() < usize::MAX,
            a < old(self)@.len(),
            b < old(self)@.len(),
        ensures
            final(self).wf(),
            r == old(self)@.len(),
            final(self)@ == old(self)@.push(Some(Operation::Add(a, b))),
            final(self).labels() == old(self).labels().push(None),
    {
        self.push(Value::add(a, b))
    }

    /// Adds the node `a * b` and returns its index.
    pub fn mul(&mut self, a: usize, b: usize) -> (r: usize)
        requires
            old(self).wf(),
            old(self)@.len() < usize::MAX,
            a < old(self)@.len(),
            b < old(self)@.len(),
        ensures
            final(self).wf(),
            r == old(self)@.len(),
            final(self)@ == old(self)@.push(Some(Operation::Mul(a, b))),
            final(self).labels() == old(self).labels().push(None),
    {
        self.push(Value::mul(a, b))
    }

    /// Adds the node `a ^ k`, with `k` read as a constant exponent, and returns its index.
    pub fn pow(&mut self, a: usize, k: usize) -> (r: usize)
        requires
            old(self).wf(),
            old(self)@.len() < usize::MAX,
            a < old(self)@.len(),
            k < old(self)@.len(),
        ensures
            final(self).wf(),
            r == old(self)@.len(),
            final(self)@ == old(self)@.push(Some(Operation::Pow(a, k))),
            final(self).labels() == old(self).labels().push(None),
    {
        self.push(Value::pow(a, k))
    }

    /// Adds the node `e ^ a` and returns its index.
    pub fn exp(&mut self, a: usize) -> (r: usize)
        requires
            old(self).wf(),
            old(self)@.len() < usize::MAX,
            a < old(self)@.len(),
        ensures
            final(self).wf(),
            r == old(self)@.len(),
            final(self)@ == old(self)@.push(Some(Operation::Exp(a))),
            final(self).labels() == old(self).labels().push(None),
    {
        self.push(Value::exp(a))
    }

    /// Adds the node `tanh(a)` and returns its index.
    pub fn tanh(&mut self, a: usize) -> (r: usize)
        requires
            old(self).wf(),
            old(self)@.len() < usize::MAX,
            a < old(self)@.len(),
        ensures
            final(self).wf(),
            r == old(self)@.len(),
            final(self)@ == old(self)@.push(Some(Operation::Tanh(a))),
            final(self).labels() == old(self).labels().push(None),
    {
        self.push(Value::tanh(a))
    }

    /// Adds `-a`, as `a * c` for a leaf `c` that holds -1, and returns its index.
    pub fn neg(&mut self, a: usize, c: usize) -> (r: usize)
        requires
            old(self).wf(),
            old(self)@.len() < usize::MAX,
            a < old(self)@.len(),
            c < old(self)@.len(),
        ensures
            final(self).wf(),
            r == old(self)@.len(),
            final(self)@ == old(self)@.push(Some(Operation::Mul(a, c))),
            final(self).labels() == old(self).labels().push(None),
    {
        self.mul(a, c)
    }

    /// Adds `a - b`, as `a + b * c` for a leaf `c` that holds -1, and returns its index.
    pub fn sub(&mut self, a: usize, b: usize, c: usize) -> (r: usize)
        requires
            old(self).wf(),
            old(self)@.len() + 1 < usize::MAX,
            a < old(self)@.len(),
            b < old(self)@.len(),
            c < old(self)@.len(),
        ensures
            final(self).wf(),
            r == old(self)@.len() + 1,
            final(self)@ == old(self)@.push(Some(Operation::Mul(b, c))).push(
                Some(Operation::Add(a, (r - 1) as usize)),
            ),
            final(self).labels() == old(self).labels().push(None).push(None),
    {
        let m = self.neg(b, c);
        self.add(a, m)
    }

    /// Adds `a / b`, as `a * b ^ c` for a leaf `c` that holds -1, and returns its index.
    pub fn div(&mut self, a: usize, b: usize, c: usize) -> (r: usize)
        requires
            old(self).wf(),
            old(self)@.len() + 1 < usize::MAX,
            a < old(self)@.len(),
            b < old(self)@.len(),
            c < old(self)@.len(),
        ensures
            final(self).wf(),
            r == old(self)@.len() + 1,
            final(self)@ == old(self)@.push(Some(Operation::Pow(b, c))).push(
                Some(Operation::Mul(a, (r - 1) as usize)),
            ),
            final(self).labels() == old(self).labels().push(None).push(None),
    {
        let p = self.pow(b, c);
        self.mul(a, p)
    }

    /// Adds the left fold `((zero + items[0]) + items[1]) + ...` and returns the index of
    /// the total; with no items the total is `zero` itself.
    pub fn sum(&mut self, zero: usize, items: &Vec<usize>) -> (r: usize)
        requires
            old(self).wf(),
            old(self)@.len() + items@.len() < usize::MAX,
            zero < old(self)@.len(),
            forall|i: int| 0 <= i < items@.len() ==> #[trigger] items@[i] < old(self)@.len(),
        ensures
            final(self).wf(),
            final(self)@ == old(self)@ + sum_chain(old(self)@.len() as int, zero, items@),
            final(self).labels().len() == final(self)@.len(),
            r == (if items@.len() == 0 {
                zero as int
            } else {
                old(self)@.len() + items@.len() - 1
            }),
    {
        let ghost base = self@;
        let mut acc = zero;
        let mut i: usize = 0;
        proof {
            assert(items@.take(0) =~= Seq::<usize>::empty());
            assert(self@ =~= base + Seq::<Option<Operation>>::empty());
        }
        while i < items.len()
            invariant
                self.wf(),
                i <= items@.len(),
                base.len() + items@.len() < usize::MAX,
                zero < base.len(),
                forall|x: int| 0 <= x < items@.len() ==> #[trigger] items@[x] < base.len(),
                self@ == base + sum_chain(base.len() as int, zero, items@.take(i as int)),
                self@.len() == base.len() + i,
                acc == (if i == 0 {
                    zero as int
                } else {
                    base.len() + i - 1
                }),
            decreases items@.len() - i,
        {
            proof {
                assert(items@.take(i + 1).drop_last() =~= items@.take(i as int));
            }
            acc = self.add(acc, items[i]);
            proof {
                assert(self@ =~= base + sum_chain(base.len() as int, zero, items@.take(i + 1)));
            }
            i = i + 1;
        }
        proof {
            assert(items@.take(i as int) =~= items@);
        }
        acc
    }
}

} // verus!
