use vstd::prelude::*;

use crate::graph::{operands, reaches, Graph, Operation};
use crate::topo::{lemma_reaches_operand, lemma_reaches_trans, topo_order};

verus! {

/// The shape of a drawing of the graph below a root.
///
/// Vertex `k` draws node `vertices[k]`; a node with provenance also gets an operator
/// vertex, with an edge from it into vertex `k`. A link `(c, k)` is an edge from
/// vertex `c` into the operator vertex of `k`: one for each operand that the
/// operation names, so `x + x` gives the same link twice.
pub struct Diagram {
    pub vertices: Vec<usize>,
    pub links: Vec<(usize, usize)>,
}

/// The links of the first `n` vertices of `order`, vertex by vertex and operand by operand.
pub open spec fn links_upto(g: Seq<Option<Operation>>, order: Seq<usize>, n: int) -> Seq<
    (usize, usize),
>
    decreases n,
{
    if n <= 0 {
        Seq::empty()
    } else {
        links_upto(g, order, n - 1) + operands(g[order[n - 1] as int]).map_values(
            |o: usize| (order.index_of(o) as usize, (n - 1) as usize),
        )
    }
}

/// The links of a diagram whose vertices are `order`.
pub open spec fn diagram_links(g: Seq<Option<Operation>>, order: Seq<usize>) -> Seq<
    (usize, usize),
> {
    links_upto(g, order, order.len() as int)
}

impl Graph {
    /// The diagram of everything that `root` reaches: one vertex per node, each node
    /// once, numbered in the order of the backward pass (the root is vertex 0).
    pub fn diagram(&self, root: usize) -> (d: Diagram)
        requires
            self.wf(),
            root < self@.len(),
        ensures
            d.vertices@ == topo_order(self@, root),
            d.links@ == diagram_links(self@, d.vertices@),
    {
        let ghost g = self@;
        let order = self.reversed_topo(root);
        let n = self.len();
        let mut pos: Vec<usize> = Vec::new();
        let mut i: usize = 0;
        while i < n
            invariant
                i <= n,
                n == g.len(),
                pos@.len() == i,
            decreases n - i,
        {
            pos.push(0);
            i = i + 1;
        }
        let mut k: usize = 0;
        while k < order.len()
            invariant
                k <= order@.len(),
                pos@.len() == n,
                n == g.len(),
                order@.no_duplicates(),
                forall|x: int| 0 <= x < order@.len() ==> (#[trigger] order@[x] as int) < g.len(),
                forall|x: int| 0 <= x < k ==> pos@[#[trigger] order@[x] as int] == x,
            decreases order@.len() - k,
        {
            pos.set(order[k], k);
            proof {
                assert forall|x: int| 0 <= x < k + 1 implies pos@[#[trigger] order@[x] as int]
                    == x by {
                    if x < k {
                        assert(order@[x] != order@[k as int]);
                    }
                }
            }
            k = k + 1;
        }
        let mut links: Vec<(usize, usize)> = Vec::new();
        let mut k: usize = 0;
        while k < order.len()
            invariant
                self.wf(),
                g == self@,
                k <= order@.len(),
                pos@.len() == n,
                n == g.len(),
                order@.no_duplicates(),
                forall|x: int| 0 <= x < order@.len() ==> (#[trigger] order@[x] as int) < g.len(),
                forall|x: int| 0 <= x < order@.len() ==> pos@[#[trigger] order@[x] as int] == x,
                forall|t: usize|
                    t < g.len() ==> (order@.contains(t) <==> reaches(g, root as int, t as int)),
                links@ == links_upto(g, order@, k as int),
            decreases order@.len() - k,
        {
            let v = order[k];
            let ops = self.operand_list(v);
            let ghost before = links@;
            let mut j: usize = 0;
            while j < ops.len()
                invariant
                    self.wf(),
                    g == self@,
                    k < order@.len(),
                    v == order@[k as int],
                    v < g.len(),
                    j <= ops@.len(),
                    ops@ == operands(g[v as int]),
                    pos@.len() == n,
                    n == g.len(),
                    order@.no_duplicates(),
                    forall|x: int|
                        0 <= x < order@.len() ==> (#[trigger] order@[x] as int) < g.len(),
                    forall|x: int| 0 <= x < order@.len() ==> pos@[#[trigger] order@[x] as int] == x,
                    forall|t: usize|
                        t < g.len() ==> (order@.contains(t) <==> reaches(g, root as int, t as int)),
                    links@ == before + ops@.take(j as int).map_values(
                        |o: usize| (order@.index_of(o) as usize, k),
                    ),
                decreases ops@.len() - j,
            {
                let o = ops[j];
                proof {
                    assert(order@.contains(v));
                    assert((operands(g[v as int])[j as int] as int) < v);
                    lemma_reaches_operand(g, v as int, j as int);
                    lemma_reaches_trans(g, root as int, v as int, o as int);
                    assert(order@.contains(o));
                    let x = choose|x: int| 0 <= x < order@.len() && order@[x] == o;
                    assert(pos@[o as int] == x);
                    let y = order@.index_of(o);
                    assert(order@[y] == o);
                    assert(x == y);
                }
                links.push((pos[o], k));
                proof {
                    assert(ops@.take(j + 1) =~= ops@.take(j as int).push(o));
                    assert(links@ =~= before + ops@.take(j + 1).map_values(
                        |o: usize| (order@.index_of(o) as usize, k),
                    ));
                }
                j = j + 1;
            }
            proof {
                assert(ops@.take(j as int) =~= ops@);
                assert(links@ =~= links_upto(g, order@, k + 1));
            }
            k = k + 1;
        }
        Diagram { vertices: order, links }
    }
}

} // verus!
