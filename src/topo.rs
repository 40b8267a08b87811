use vstd::prelude::*;

use crate::graph::{acyclic, is_operand, operands, reaches, Graph, Operation};

verus! {

/// The depth-first post-order walk from `v`: each operand is walked before `v` is
/// emitted, and a node already in `seen` is not walked again.
pub open spec fn post_order(g: Seq<Option<Operation>>, v: usize, seen: Seq<usize>) -> Seq<usize>
    decreases v,
{
    if v >= g.len() || seen.contains(v) {
        seen
    } else {
        let ops = operands(g[v as int]);
        let s1 = if ops.len() > 0 && ops[0] < v {
            post_order(g, ops[0], seen)
        } else {
            seen
        };
        let s2 = if ops.len() > 1 && ops[1] < v {
            post_order(g, ops[1], s1)
        } else {
            s1
        };
        s2.push(v)
    }
}

/// The order in which the backward pass visits the nodes reachable from `root`:
/// the depth-first post-order, reversed, so that `root` comes first.
pub open spec fn topo_order(g: Seq<Option<Operation>>, root: usize) -> Seq<usize> {
    post_order(g, root, Seq::empty()).reverse()
}

/// `s` lists nodes of `g` once each, holds the operands of each node it lists,
/// and lists every operand before the nodes that consume it.
pub open spec fn operands_first(g: Seq<Option<Operation>>, s: Seq<usize>) -> bool {
    &&& s.no_duplicates()
    &&& forall|i: int| 0 <= i < s.len() ==> (#[trigger] s[i] as int) < g.len()
    &&& forall|i: int, j: int|
        0 <= i < s.len() && 0 <= j < operands(g[s[i] as int]).len() ==> s.contains(
            #[trigger] operands(g[s[i] as int])[j],
        )
    &&& forall|i: int, k: int|
        0 <= i < s.len() && 0 <= k < s.len() && #[trigger] is_operand(g, s[i] as int, s[k] as int)
            ==> k < i
}

/// A node reaches each of its operands.
pub proof fn lemma_reaches_operand(g: Seq<Option<Operation>>, from: int, j: int)
    requires
        acyclic(g),
        0 <= from < g.len(),
        0 <= j < operands(g[from]).len(),
    ensures
        reaches(g, from, operands(g[from])[j] as int),
{
    let ops = operands(g[from]);
    assert(ops[j] < from);
    assert(reaches(g, ops[j] as int, ops[j] as int));
    if j == 0 {
        assert(ops.len() > 0 && 0 <= ops[0] < from && reaches(g, ops[0] as int, ops[j] as int));
    } else {
        assert(ops[1] < from);
    }
}

/// Reachability composes.
pub proof fn lemma_reaches_trans(g: Seq<Option<Operation>>, a: int, b: int, c: int)
    requires
        reaches(g, a, b),
        reaches(g, b, c),
    ensures
        reaches(g, a, c),
    decreases a,
{
    if a != b {
        let ops = operands(g[a]);
        if ops.len() > 0 && 0 <= ops[0] < a && reaches(g, ops[0] as int, b) {
            lemma_reaches_trans(g, ops[0] as int, b, c);
        } else {
            lemma_reaches_trans(g, ops[1] as int, b, c);
        }
    }
}

/// Walking from `v` keeps what was seen as a prefix, emits `v`, emits only nodes that
/// `v` reaches, and keeps the walk's result in operands-first order.
pub proof fn lemma_post_order(g: Seq<Option<Operation>>, v: usize, seen: Seq<usize>)
    requires
        acyclic(g),
        operands_first(g, seen),
        v < g.len(),
    ensures
        operands_first(g, post_order(g, v, seen)),
        post_order(g, v, seen).len() >= seen.len(),
        post_order(g, v, seen).subrange(0, seen.len() as int) == seen,
        post_order(g, v, seen).contains(v),
        forall|i: int|
            seen.len() <= i < post_order(g, v, seen).len() ==> {
                &&& reaches(g, v as int, #[trigger] post_order(g, v, seen)[i] as int)
                &&& post_order(g, v, seen)[i] <= v
            },
    decreases v,
{
    let r = post_order(g, v, seen);
    if seen.contains(v) {
        assert(r.subrange(0, seen.len() as int) =~= seen);
    } else {
        let ops = operands(g[v as int]);
        assert forall|j: int| 0 <= j < ops.len() implies #[trigger] ops[j] < v by {
            assert((operands(g[v as int])[j] as int) < v);
        }
        let s1 = if ops.len() > 0 && ops[0] < v {
            post_order(g, ops[0], seen)
        } else {
            seen
        };
        let s2 = if ops.len() > 1 && ops[1] < v {
            post_order(g, ops[1], s1)
        } else {
            s1
        };
        assert(r == s2.push(v));
        // the walk from the first operand
        if ops.len() > 0 {
            lemma_post_order(g, ops[0], seen);
            assert forall|i: int| seen.len() <= i < s1.len() implies reaches(
                g,
                v as int,
                #[trigger] s1[i] as int,
            ) && s1[i] < v by {
                assert(reaches(g, ops[0] as int, s1[i] as int));
            }
        } else {
            assert(s1.subrange(0, seen.len() as int) =~= seen);
        }
        // the walk from the second operand
        if ops.len() > 1 {
            lemma_post_order(g, ops[1], s1);
            assert forall|i: int| s1.len() <= i < s2.len() implies reaches(
                g,
                v as int,
                #[trigger] s2[i] as int,
            ) && s2[i] < v by {
                assert(reaches(g, ops[1] as int, s2[i] as int));
            }
        } else {
            assert(s2.subrange(0, s1.len() as int) =~= s1);
        }
        assert(s2.subrange(0, seen.len() as int) =~= seen) by {
            assert(s2.subrange(0, seen.len() as int) =~= s2.subrange(0, s1.len() as int).subrange(
                0,
                seen.len() as int,
            ));
        }
        assert forall|i: int| seen.len() <= i < s2.len() implies reaches(
            g,
            v as int,
            #[trigger] s2[i] as int,
        ) && s2[i] < v by {
            if i < s1.len() {
                assert(s2[i] == s2.subrange(0, s1.len() as int)[i]);
            }
        }
        assert(!s2.contains(v)) by {
            if s2.contains(v) {
                let i = choose|i: int| 0 <= i < s2.len() && s2[i] == v;
                if i < seen.len() {
                    assert(s2[i] == s2.subrange(0, seen.len() as int)[i]);
                }
            }
        }
        // the operands of `v` are in s2
        assert forall|j: int| 0 <= j < ops.len() implies s2.contains(#[trigger] ops[j]) by {
            if j == 0 {
                let i = choose|i: int| 0 <= i < s1.len() && s1[i] == ops[0];
                assert(s2.subrange(0, s1.len() as int)[i] == s2[i]);
            }
        }
        assert(r.no_duplicates()) by {
            assert forall|i: int, k: int|
                0 <= i < r.len() && 0 <= k < r.len() && i != k implies r[i] != r[k] by {
                if i == r.len() - 1 {
                    assert(s2[k] == r[k]);
                } else if k == r.len() - 1 {
                    assert(s2[i] == r[i]);
                } else {
                    assert(s2[i] == r[i] && s2[k] == r[k]);
                }
            }
        }
        assert forall|i: int, j: int|
            0 <= i < r.len() && 0 <= j < operands(g[r[i] as int]).len() implies r.contains(
            #[trigger] operands(g[r[i] as int])[j],
        ) by {
            let o = operands(g[r[i] as int])[j];
            if i == r.len() - 1 {
                assert(s2.contains(ops[j]));
            } else {
                assert(r[i] == s2[i]);
            }
            assert(s2.contains(o));
            let m = choose|m: int| 0 <= m < s2.len() && s2[m] == o;
            assert(r[m] == o);
        }
        assert forall|i: int, k: int|
            0 <= i < r.len() && 0 <= k < r.len() && #[trigger] is_operand(
                g,
                r[i] as int,
                r[k] as int,
            ) implies k < i by {
            let j = choose|j: int|
                0 <= j < operands(g[r[i] as int]).len() && operands(g[r[i] as int])[j] as int
                    == r[k] as int;
            if i == r.len() - 1 {
                if k == r.len() - 1 {
                    assert(ops[j] < v);
                }
            } else if k == r.len() - 1 {
                assert(r[i] == s2[i]);
                assert(s2.contains(operands(g[s2[i] as int])[j]));
            } else {
                assert(r[i] == s2[i] && r[k] == s2[k]);
                assert(is_operand(g, s2[i] as int, s2[k] as int));
            }
        }
        assert forall|i: int| 0 <= i < r.len() implies (#[trigger] r[i] as int) < g.len() by {
            if i < s2.len() {
                assert(r[i] == s2[i]);
            }
        }
        assert(r[r.len() - 1] == v);
        assert(r.subrange(0, seen.len() as int) =~= s2.subrange(0, seen.len() as int));
        assert forall|i: int| seen.len() <= i < r.len() implies reaches(
            g,
            v as int,
            #[trigger] r[i] as int,
        ) && r[i] <= v by {
            if i < s2.len() {
                assert(r[i] == s2[i]);
            }
        }
    }
}

/// A list in operands-first order that holds `v` holds every node that `v` reaches.
pub proof fn lemma_operands_first_complete(
    g: Seq<Option<Operation>>,
    s: Seq<usize>,
    v: usize,
    t: int,
)
    requires
        acyclic(g),
        operands_first(g, s),
        s.contains(v),
        reaches(g, v as int, t),
    ensures
        0 <= t,
        s.contains(t as usize),
    decreases v,
{
    if v as int != t {
        let i = choose|i: int| 0 <= i < s.len() && s[i] == v;
        let ops = operands(g[v as int]);
        if ops.len() > 0 && 0 <= ops[0] < v && reaches(g, ops[0] as int, t) {
            assert(s.contains(operands(g[s[i] as int])[0]));
            lemma_operands_first_complete(g, s, ops[0], t);
        } else {
            assert(s.contains(operands(g[s[i] as int])[1]));
            lemma_operands_first_complete(g, s, ops[1], t);
        }
    }
}

/// The walk from `root` lists exactly the nodes that `root` reaches, once each,
/// every operand before the nodes that consume it, and `root` last.
pub proof fn lemma_post_order_from_root(g: Seq<Option<Operation>>, root: usize)
    requires
        acyclic(g),
        root < g.len(),
    ensures
        operands_first(g, post_order(g, root, Seq::empty())),
        post_order(g, root, Seq::empty()).len() > 0,
        post_order(g, root, Seq::empty()).last() == root,
        forall|t: usize|
            t < g.len() ==> (post_order(g, root, Seq::empty()).contains(t) <==> reaches(
                g,
                root as int,
                t as int,
            )),
{
    let s = post_order(g, root, Seq::empty());
    lemma_post_order(g, root, Seq::empty());
    assert forall|t: usize| t < g.len() implies (s.contains(t) <==> reaches(
        g,
        root as int,
        t as int,
    )) by {
        if s.contains(t) {
            let i = choose|i: int| 0 <= i < s.len() && s[i] == t;
            assert(reaches(g, root as int, s[i] as int));
        }
        if reaches(g, root as int, t as int) {
            lemma_operands_first_complete(g, s, root, t as int);
        }
    }
    let ops = operands(g[root as int]);
    let s1 = if ops.len() > 0 && ops[0] < root {
        post_order(g, ops[0], Seq::empty())
    } else {
        Seq::empty()
    };
    let s2 = if ops.len() > 1 && ops[1] < root {
        post_order(g, ops[1], s1)
    } else {
        s1
    };
    assert(!Seq::<usize>::empty().contains(root));
    assert(s == s2.push(root));
}

/// What is left of a frame of the walk: the walks from operands `j..` of `v`, then `v`.
pub open spec fn finish_frame(g: Seq<Option<Operation>>, v: usize, j: int, s: Seq<usize>) -> Seq<
    usize,
>
    decreases operands(g[v as int]).len() - j,
{
    let ops = operands(g[v as int]);
    if j < 0 || j >= ops.len() {
        s.push(v)
    } else {
        let s1 = if ops[j] < v {
            post_order(g, ops[j], s)
        } else {
            s
        };
        finish_frame(g, v, j + 1, s1)
    }
}

/// What is left of a whole stack of frames, the top (last) frame first.
pub open spec fn finish_stack(g: Seq<Option<Operation>>, stack: Seq<(usize, usize)>, s: Seq<usize>) -> Seq<
    usize,
>
    decreases stack.len(),
{
    if stack.len() == 0 {
        s
    } else {
        finish_stack(g, stack.drop_last(), finish_frame(g, stack.last().0, stack.last().1 as int, s))
    }
}

/// The operands still to be walked by the frames of a stack, counted with room for two each.
pub open spec fn stack_slack(stack: Seq<(usize, usize)>) -> int
    decreases stack.len(),
{
    if stack.len() == 0 {
        0
    } else {
        stack_slack(stack.drop_last()) + 2 - stack.last().1
    }
}

proof fn lemma_stack_slack(stack: Seq<(usize, usize)>)
    requires
        forall|i: int| 0 <= i < stack.len() ==> (#[trigger] stack[i]).1 <= 2,
    ensures
        stack_slack(stack) >= 0,
    decreases stack.len(),
{
    if stack.len() > 0 {
        lemma_stack_slack(stack.drop_last());
    }
}

proof fn lemma_post_order_grows(g: Seq<Option<Operation>>, v: usize, s: Seq<usize>)
    ensures
        post_order(g, v, s).len() >= s.len(),
    decreases v,
{
    if !(v >= g.len() || s.contains(v)) {
        let ops = operands(g[v as int]);
        if ops.len() > 0 && ops[0] < v {
            lemma_post_order_grows(g, ops[0], s);
        }
        let s1 = if ops.len() > 0 && ops[0] < v {
            post_order(g, ops[0], s)
        } else {
            s
        };
        if ops.len() > 1 && ops[1] < v {
            lemma_post_order_grows(g, ops[1], s1);
        }
    }
}

proof fn lemma_finish_frame_grows(g: Seq<Option<Operation>>, v: usize, j: int, s: Seq<usize>)
    ensures
        finish_frame(g, v, j, s).len() >= s.len(),
    decreases operands(g[v as int]).len() - j,
{
    let ops = operands(g[v as int]);
    if !(j < 0 || j >= ops.len()) {
        if ops[j] < v {
            lemma_post_order_grows(g, ops[j], s);
        }
        let s1 = if ops[j] < v {
            post_order(g, ops[j], s)
        } else {
            s
        };
        lemma_finish_frame_grows(g, v, j + 1, s1);
    }
}

proof fn lemma_finish_stack_grows(g: Seq<Option<Operation>>, stack: Seq<(usize, usize)>, s: Seq<usize>)
    ensures
        finish_stack(g, stack, s).len() >= s.len(),
    decreases stack.len(),
{
    if stack.len() > 0 {
        let t = finish_frame(g, stack.last().0, stack.last().1 as int, s);
        lemma_finish_frame_grows(g, stack.last().0, stack.last().1 as int, s);
        lemma_finish_stack_grows(g, stack.drop_last(), t);
    }
}

/// Starting a frame for a node not yet seen is the walk from that node.
proof fn lemma_frame_start(g: Seq<Option<Operation>>, v: usize, s: Seq<usize>)
    requires
        v < g.len(),
        !s.contains(v),
    ensures
        finish_frame(g, v, 0, s) == post_order(g, v, s),
{
    let ops = operands(g[v as int]);
    let s1 = if ops.len() > 0 && ops[0] < v {
        post_order(g, ops[0], s)
    } else {
        s
    };
    let s2 = if ops.len() > 1 && ops[1] < v {
        post_order(g, ops[1], s1)
    } else {
        s1
    };
    if ops.len() == 0 {
        assert(finish_frame(g, v, 0, s) == s.push(v));
    } else if ops.len() == 1 {
        assert(finish_frame(g, v, 1, s1) == s1.push(v));
        assert(finish_frame(g, v, 0, s) == finish_frame(g, v, 1, s1));
    } else {
        assert(finish_frame(g, v, 2, s2) == s2.push(v));
        assert(finish_frame(g, v, 1, s1) == finish_frame(g, v, 2, s2));
        assert(finish_frame(g, v, 0, s) == finish_frame(g, v, 1, s1));
    }
}

impl Graph {
    /// The depth-first post-order walk from `root`, run on an explicit stack of frames
    /// (a node and the index of its next operand), so that deep graphs need no deep
    /// recursion. A node already emitted is not walked again.
    fn build_topo(&self, root: usize) -> (nodes: Vec<usize>)
        requires
            self.wf(),
            root < self@.len(),
        ensures
            nodes@ == post_order(self@, root, Seq::empty()),
    {
        let ghost g = self@;
        let ghost target = post_order(g, root, Seq::empty());
        let n = self.len();
        let mut visited: Vec<bool> = Vec::new();
        let mut i: usize = 0;
        while i < n
            invariant
                i <= n,
                n == g.len(),
                visited@.len() == i,
                forall|k: int| 0 <= k < i ==> !visited@[k],
            decreases n - i,
        {
            visited.push(false);
            i = i + 1;
        }
        let mut nodes: Vec<usize> = Vec::new();
        let mut stack: Vec<(usize, usize)> = Vec::new();
        stack.push((root, 0));
        proof {
            assert(!nodes@.contains(root));
            lemma_frame_start(g, root, nodes@);
            assert(stack@.drop_last() =~= Seq::<(usize, usize)>::empty());
            assert(stack@.last() == (root, 0usize));
            assert(finish_stack(g, stack@, nodes@) == finish_stack(
                g,
                Seq::empty(),
                finish_frame(g, root, 0, nodes@),
            ));
            lemma_finish_stack_grows(g, stack@, nodes@);
        }
        while stack.len() > 0
            invariant
                self.wf(),
                g == self@,
                n == g.len(),
                target == post_order(g, root, Seq::empty()),
                finish_stack(g, stack@, nodes@) == target,
                nodes@.len() <= target.len(),
                visited@.len() == n,
                forall|k: usize| k < n ==> (visited@[k as int] <==> nodes@.contains(k)),
                forall|x: int|
                    0 <= x < stack@.len() ==> {
                        &&& (#[trigger] stack@[x]).0 < n
                        &&& stack@[x].1 <= operands(g[stack@[x].0 as int]).len()
                        &&& stack@[x].0 + x < n
                    },
            decreases target.len() - nodes@.len(), stack_slack(stack@) + 3 * (n - stack@.len()),
        {
            let top = stack.len() - 1;
            let (v, j) = stack[top];
            let ops = self.operand_list(v);
            let ghost s = nodes@;
            let ghost below = stack@.drop_last();
            let ghost before = stack@;
            proof {
                assert(stack@ =~= below.push((v, j)));
                assert(finish_stack(g, before, s) == finish_stack(g, below, finish_frame(g, v, j as int, s)));
                assert(ops@.len() <= 2);
                assert forall|x: int| 0 <= x < stack@.len() implies (#[trigger] stack@[x]).1
                    <= 2 by {
                    assert(operands(g[stack@[x].0 as int]).len() <= 2);
                }
                lemma_stack_slack(stack@);
            }
            if j < ops.len() {
                let o = ops[j];
                proof {
                    assert((operands(g[v as int])[j as int] as int) < v);
                }
                stack.set(top, (v, j + 1));
                let ghost mid = stack@;
                proof {
                    assert(stack@ =~= below.push((v, (j + 1) as usize)));
                    assert(stack@.drop_last() =~= below);
                    assert(finish_frame(g, v, j as int, s) == finish_frame(
                        g,
                        v,
                        j + 1,
                        post_order(g, o, s),
                    ));
                    assert(finish_stack(g, mid, s) == finish_stack(
                        g,
                        below,
                        finish_frame(g, v, j + 1, s),
                    ));
                    assert(stack_slack(mid) == stack_slack(below) + 2 - (j + 1));
                    assert(stack_slack(before) == stack_slack(below) + 2 - j);
                }
                if !visited[o] {
                    stack.push((o, 0));
                    proof {
                        assert(!s.contains(o));
                        lemma_frame_start(g, o, s);
                        assert(stack@.drop_last() =~= mid);
                        assert(stack@.last() == (o, 0usize));
                        assert(finish_stack(g, stack@, s) == finish_stack(
                            g,
                            mid,
                            finish_frame(g, o, 0, s),
                        ));
                        assert(finish_stack(g, mid, post_order(g, o, s)) == finish_stack(
                            g,
                            below,
                            finish_frame(g, v, j + 1, post_order(g, o, s)),
                        ));
                        assert(stack_slack(stack@) == stack_slack(mid) + 2);
                    }
                } else {
                    proof {
                        assert(s.contains(o));
                        assert(post_order(g, o, s) == s);
                    }
                }
            } else {
                stack.pop();
                nodes.push(v);
                visited.set(v, true);
                proof {
                    assert(stack@ =~= below);
                    assert(finish_frame(g, v, j as int, s) == s.push(v));
                    lemma_finish_stack_grows(g, stack@, nodes@);
                    assert forall|k: usize| k < n implies (visited@[k as int] <==> nodes@.contains(
                        k,
                    )) by {
                        if k != v {
                            if nodes@.contains(k) {
                                let i = choose|i: int| 0 <= i < nodes@.len() && nodes@[i] == k;
                                assert(s[i] == k);
                            }
                            if s.contains(k) {
                                let i = choose|i: int| 0 <= i < s.len() && s[i] == k;
                                assert(nodes@[i] == k);
                            }
                        } else {
                            assert(nodes@[nodes@.len() - 1] == v);
                        }
                    }
                }
            }
        }
        nodes
    }

    /// The nodes reachable from `root`, each once, ordered so that every node comes
    /// before all of its operands: `root` first, leaves last. The backward pass
    /// visits them in this order.
    pub fn reversed_topo(&self, root: usize) -> (r: Vec<usize>)
        requires
            self.wf(),
            root < self@.len(),
        ensures
            r@ == topo_order(self@, root),
            r@.len() > 0,
            r@[0] == root,
            r@.no_duplicates(),
            forall|i: int| 0 <= i < r@.len() ==> (#[trigger] r@[i] as int) < self@.len(),
            forall|t: usize|
                t < self@.len() ==> (r@.contains(t) <==> reaches(self@, root as int, t as int)),
            forall|i: int, k: int|
                0 <= i < r@.len() && 0 <= k < r@.len() && #[trigger] is_operand(
                    self@,
                    r@[i] as int,
                    r@[k] as int,
                ) ==> i < k,
    {
        let nodes = self.build_topo(root);
        let ghost s = nodes@;
        proof {
            lemma_post_order_from_root(self@, root);
        }
        let len = nodes.len();
        let mut r: Vec<usize> = Vec::new();
        let mut j: usize = 0;
        while j < len
            invariant
                j <= len,
                len == s.len(),
                nodes@ == s,
                r@ =~= Seq::new(j as nat, |x: int| s[len - 1 - x]),
            decreases len - j,
        {
            r.push(nodes[len - 1 - j]);
            j = j + 1;
        }
        proof {
            assert(r@ =~= s.reverse());
            assert(r@[0] == s.last());
            assert forall|i: int, k: int|
                0 <= i < r@.len() && 0 <= k < r@.len() && i != k implies r@[i] != r@[k] by {
                assert(r@[i] == s[len - 1 - i] && r@[k] == s[len - 1 - k]);
            }
            assert forall|t: usize| t < self@.len() implies (r@.contains(t) <==> reaches(
                self@,
                root as int,
                t as int,
            )) by {
                if r@.contains(t) {
                    let i = choose|i: int| 0 <= i < r@.len() && r@[i] == t;
                    assert(s[len - 1 - i] == t);
                }
                if s.contains(t) {
                    let i = choose|i: int| 0 <= i < s.len() && s[i] == t;
                    assert(r@[len - 1 - i] == t);
                }
            }
            assert forall|i: int| 0 <= i < r@.len() implies (#[trigger] r@[i] as int)
                < self@.len() by {
                assert(r@[i] == s[len - 1 - i]);
            }
            assert forall|i: int, k: int|
                0 <= i < r@.len() && 0 <= k < r@.len() && #[trigger] is_operand(
                    self@,
                    r@[i] as int,
                    r@[k] as int,
                ) implies i < k by {
                assert(r@[i] == s[len - 1 - i] && r@[k] == s[len - 1 - k]);
            }
        }
        r
    }
}

} // verus!
