use vstd::prelude::*;

use crate::graph::{Graph, Operation};

verus! {

/// A neuron over the parameter leaves `w` (one weight per input) and `b` (the bias).
pub struct Neuron {
    pub w: Vec<usize>,
    pub b: usize,
}

/// The running total of a neuron's forward pass after `n` inputs, in a graph that had
/// `base` nodes before the pass.
pub open spec fn neuron_acc(base: int, b: usize, n: int) -> usize {
    if n <= 0 {
        b
    } else {
        (base + 2 * n - 1) as usize
    }
}

/// The `Mul` and `Add` nodes of a neuron's forward pass over its first `n` inputs:
/// `w[i] * x[i]`, then the running total plus that product.
pub open spec fn neuron_chain(base: int, b: usize, w: Seq<usize>, x: Seq<usize>, n: int) -> Seq<
    Option<Operation>,
>
    decreases n,
{
    if n <= 0 {
        Seq::empty()
    } else {
        let i = n - 1;
        neuron_chain(base, b, w, x, i).push(Some(Operation::Mul(w[i], x[i]))).push(
            Some(Operation::Add(neuron_acc(base, b, i), (base + 2 * i) as usize)),
        )
    }
}

/// Every node that a neuron's forward pass appends: `tanh(b + w[0] * x[0] + ...)`.
pub open spec fn neuron_nodes(base: int, b: usize, w: Seq<usize>, x: Seq<usize>) -> Seq<
    Option<Operation>,
> {
    neuron_chain(base, b, w, x, w.len() as int).push(
        Some(Operation::Tanh(neuron_acc(base, b, w.len() as int))),
    )
}

/// The number of nodes that a neuron with `n` inputs appends.
pub open spec fn neuron_size(n: int) -> int {
    2 * n + 1
}

impl Neuron {
    /// A neuron over existing parameter leaves.
    pub fn new(w: Vec<usize>, b: usize) -> (r: Neuron)
        ensures
            r.w@ == w@,
            r.b == b,
    {
        Neuron { w, b }
    }

    /// The forward pass on inputs `x`: appends `tanh(b + w[0] * x[0] + w[1] * x[1] + ...)`
    /// to the graph and returns the index of the result.
    pub fn call(&self, g: &mut Graph, x: &Vec<usize>) -> (r: usize)
        requires
            old(g).wf(),
            x@.len() == self.w@.len(),
            old(g)@.len() + neuron_size(self.w@.len() as int) < usize::MAX,
            self.b < old(g)@.len(),
            forall|i: int| 0 <= i < self.w@.len() ==> #[trigger] self.w@[i] < old(g)@.len(),
            forall|i: int| 0 <= i < x@.len() ==> #[trigger] x@[i] < old(g)@.len(),
        ensures
            final(g).wf(),
            final(g)@ == old(g)@ + neuron_nodes(old(g)@.len() as int, self.b, self.w@, x@),
            final(g)@.len() == old(g)@.len() + neuron_size(self.w@.len() as int),
            r == old(g)@.len() + 2 * self.w@.len(),
    {
        let ghost base = g@;
        let n = self.w.len();
        let mut act = self.b;
        let mut i: usize = 0;
        proof {
            assert(g@ =~= base + Seq::<Option<Operation>>::empty());
        }
        while i < n
            invariant
                g.wf(),
                i <= n,
                n == self.w@.len(),
                x@.len() == n,
                base.len() + 2 * n + 1 < usize::MAX,
                self.b < base.len(),
                forall|k: int| 0 <= k < n ==> #[trigger] self.w@[k] < base.len(),
                forall|k: int| 0 <= k < n ==> #[trigger] x@[k] < base.len(),
                g@ == base + neuron_chain(base.len() as int, self.b, self.w@, x@, i as int),
                g@.len() == base.len() + 2 * i,
                act == neuron_acc(base.len() as int, self.b, i as int),
            decreases n - i,
        {
            let m = g.mul(self.w[i], x[i]);
            act = g.add(act, m);
            proof {
                assert(g@ =~= base + neuron_chain(base.len() as int, self.b, self.w@, x@, i + 1));
            }
            i = i + 1;
        }
        let r = g.tanh(act);
        proof {
            assert(g@ =~= base + neuron_nodes(base.len() as int, self.b, self.w@, x@));
        }
        r
    }

    /// The parameter leaves: the bias, then the weights.
    pub fn parameters(&self) -> (r: Vec<usize>)
        ensures
            r@ == seq![self.b] + self.w@,
    {
        let mut r: Vec<usize> = Vec::new();
        r.push(self.b);
        let mut i: usize = 0;
        while i < self.w.len()
            invariant
                i <= self.w@.len(),
                r@ == seq![self.b] + self.w@.take(i as int),
            decreases self.w@.len() - i,
        {
            r.push(self.w[i]);
            proof {
                assert(self.w@.take(i + 1) =~= self.w@.take(i as int).push(self.w@[i as int]));
                assert(r@ =~= seq![self.b] + self.w@.take(i + 1));
            }
            i = i + 1;
        }
        proof {
            assert(self.w@.take(i as int) =~= self.w@);
        }
        r
    }
}

/// A layer of neurons that all read the same inputs.
pub struct Layer {
    pub neurons: Vec<Neuron>,
}

/// The number of nodes that the forward passes of the first `m` neurons append.
pub open spec fn layer_size(neurons: Seq<Neuron>, m: int) -> int
    decreases m,
{
    if m <= 0 {
        0
    } else {
        layer_size(neurons, m - 1) + neuron_size(neurons[m - 1].w@.len() as int)
    }
}

/// The nodes that the forward passes of the first `m` neurons append, one neuron after
/// the other, to a graph of `base` nodes.
pub open spec fn layer_nodes(base: int, neurons: Seq<Neuron>, x: Seq<usize>, m: int) -> Seq<
    Option<Operation>,
>
    decreases m,
{
    if m <= 0 {
        Seq::empty()
    } else {
        let n = neurons[m - 1];
        layer_nodes(base, neurons, x, m - 1) + neuron_nodes(
            base + layer_size(neurons, m - 1),
            n.b,
            n.w@,
            x,
        )
    }
}

/// The parameters of the first `m` neurons, neuron by neuron.
pub open spec fn layer_params(neurons: Seq<Neuron>, m: int) -> Seq<usize>
    decreases m,
{
    if m <= 0 {
        Seq::empty()
    } else {
        layer_params(neurons, m - 1) + seq![neurons[m - 1].b] + neurons[m - 1].w@
    }
}

proof fn lemma_layer_size_monotone(neurons: Seq<Neuron>, i: int, m: int)
    requires
        0 <= i <= m,
    ensures
        layer_size(neurons, i) <= layer_size(neurons, m),
    decreases m - i,
{
    if i < m {
        lemma_layer_size_monotone(neurons, i, m - 1);
    }
}

impl Layer {
    /// A layer of the given neurons.
    pub fn new(neurons: Vec<Neuron>) -> (r: Layer)
        ensures
            r.neurons@ == neurons@,
    {
        Layer { neurons }
    }

    /// The forward pass on inputs `x`: each neuron's forward pass in turn, and the
    /// index of each neuron's result.
    pub fn call(&self, g: &mut Graph, x: &Vec<usize>) -> (r: Vec<usize>)
        requires
            old(g).wf(),
            old(g)@.len() + layer_size(self.neurons@, self.neurons@.len() as int) < usize::MAX,
            forall|k: int|
                0 <= k < self.neurons@.len() ==> {
                    &&& (#[trigger] self.neurons@[k]).w@.len() == x@.len()
                    &&& self.neurons@[k].b < old(g)@.len()
                    &&& forall|i: int|
                        0 <= i < self.neurons@[k].w@.len() ==> #[trigger] self.neurons@[k].w@[i]
                            < old(g)@.len()
                },
            forall|i: int| 0 <= i < x@.len() ==> #[trigger] x@[i] < old(g)@.len(),
        ensures
            final(g).wf(),
            final(g)@ == old(g)@ + layer_nodes(
                old(g)@.len() as int,
                self.neurons@,
                x@,
                self.neurons@.len() as int,
            ),
            r@.len() == self.neurons@.len(),
            forall|k: int|
                0 <= k < r@.len() ==> #[trigger] r@[k] == old(g)@.len() + layer_size(
                    self.neurons@,
                    k,
                ) + 2 * x@.len(),
    {
        let ghost base = g@;
        let ghost ns = self.neurons@;
        let mut r: Vec<usize> = Vec::new();
        let mut k: usize = 0;
        proof {
            assert(g@ =~= base + Seq::<Option<Operation>>::empty());
        }
        while k < self.neurons.len()
            invariant
                g.wf(),
                ns == self.neurons@,
                k <= ns.len(),
                base.len() + layer_size(ns, ns.len() as int) < usize::MAX,
                forall|j: int|
                    0 <= j < ns.len() ==> {
                        &&& (#[trigger] ns[j]).w@.len() == x@.len()
                        &&& ns[j].b < base.len()
                        &&& forall|i: int|
                            0 <= i < ns[j].w@.len() ==> #[trigger] ns[j].w@[i] < base.len()
                    },
                forall|i: int| 0 <= i < x@.len() ==> #[trigger] x@[i] < base.len(),
                g@ == base + layer_nodes(base.len() as int, ns, x@, k as int),
                g@.len() == base.len() + layer_size(ns, k as int),
                r@.len() == k,
                forall|j: int|
                    0 <= j < k ==> #[trigger] r@[j] == base.len() + layer_size(ns, j) + 2
                        * x@.len(),
            decreases ns.len() - k,
        {
            let ghost before = g@;
            proof {
                lemma_layer_size_monotone(ns, k + 1, ns.len() as int);
                let nk = ns[k as int];
                assert(nk.w@.len() == x@.len());
                assert forall|i: int| 0 <= i < nk.w@.len() implies #[trigger] nk.w@[i]
                    < before.len() by {
                    assert(ns[k as int].w@[i] < base.len());
                }
            }
            let o = self.neurons[k].call(g, x);
            r.push(o);
            proof {
                assert(g@ =~= base + layer_nodes(base.len() as int, ns, x@, k + 1));
            }
            k = k + 1;
        }
        r
    }

    /// The parameter leaves of every neuron, neuron by neuron.
    pub fn parameters(&self) -> (r: Vec<usize>)
        ensures
            r@ == layer_params(self.neurons@, self.neurons@.len() as int),
    {
        let mut r: Vec<usize> = Vec::new();
        let mut k: usize = 0;
        while k < self.neurons.len()
            invariant
                k <= self.neurons@.len(),
                r@ == layer_params(self.neurons@, k as int),
            decreases self.neurons@.len() - k,
        {
            let p = self.neurons[k].parameters();
            let ghost before = r@;
            let mut j: usize = 0;
            while j < p.len()
                invariant
                    j <= p@.len(),
                    r@ == before + p@.take(j as int),
                decreases p@.len() - j,
            {
                r.push(p[j]);
                proof {
                    assert(r@ =~= before + p@.take(j + 1));
                }
                j = j + 1;
            }
            proof {
                assert(p@.take(j as int) =~= p@);
                assert(r@ =~= layer_params(self.neurons@, k + 1));
            }
            k = k + 1;
        }
        r
    }
}

} // verus!
