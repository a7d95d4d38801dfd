//! Paths, cycles and topological orders of the dependency graph, and the
//! depth-first search that finds such an order or a cycle.
use vstd::prelude::*;
use vstd::seq_lib::{lemma_no_dup_in_concat, seq_to_set_is_finite};
use vstd::set_lib::lemma_len_subset;

use crate::graph::{DependencyGraph, NodeId, lemma_successors_edges};

verus! {

impl DependencyGraph {
    /// `p` is a walk along edges: consecutive nodes are joined by an edge.
    pub open spec fn is_path(&self, p: Seq<NodeId>) -> bool {
        &&& p.len() >= 1
        &&& forall|k: int| 0 <= k < p.len() - 1 ==> #[trigger] self.has_edge(p[k], p[k + 1])
    }

    /// `p` is a closed walk of at least one edge.
    pub open spec fn is_cycle(&self, p: Seq<NodeId>) -> bool {
        &&& p.len() >= 2
        &&& self.is_path(p)
        &&& p[0] == p.last()
    }

    /// The graph contains a cycle.
    pub open spec fn has_cycle(&self) -> bool {
        exists|p: Seq<NodeId>| #[trigger] self.is_cycle(p)
    }

    /// Some node has an edge to itself.
    pub open spec fn has_self_loop(&self) -> bool {
        exists|a: NodeId| #[trigger] self.has_edge(a, a)
    }

    /// `order` lists every node exactly once, and every edge goes from an
    /// earlier node to a later one.
    pub open spec fn is_topological_order(&self, order: Seq<NodeId>) -> bool {
        &&& order.no_duplicates()
        &&& forall|x: NodeId| #[trigger] order.contains(x) <==> self.has_node(x)
        &&& forall|i: int, j: int|
            0 <= i < order.len() && 0 <= j < order.len() && #[trigger] self.has_edge(order[i], order[j])
                ==> i < j
    }

    /// The state of the depth-first search: `color` marks each node (by
    /// position) unvisited (0), on the current path (1) or finished (2);
    /// `post` lists the finished nodes in the order they finished, and
    /// `stack` is the current path. Every finished node finished after all of
    /// its successors.
    pub open spec fn dfs_state(&self, color: Seq<u8>, post: Seq<NodeId>, stack: Seq<NodeId>) -> bool {
        let keys = self.node_ids();
        &&& color.len() == keys.len()
        &&& forall|i: int| 0 <= i < keys.len() ==> #[trigger] color[i] <= 2
        &&& forall|i: int| 0 <= i < keys.len() ==> (color[i] == 2 <==> post.contains(#[trigger] keys[i]))
        &&& forall|i: int| 0 <= i < keys.len() ==> (color[i] == 1 <==> stack.contains(#[trigger] keys[i]))
        &&& forall|x: NodeId| #[trigger] post.contains(x) ==> self.has_node(x)
        &&& forall|x: NodeId| #[trigger] stack.contains(x) ==> self.has_node(x)
        &&& post.no_duplicates()
        &&& stack.no_duplicates()
        &&& forall|k: int| 0 <= k < stack.len() - 1 ==> #[trigger] self.has_edge(stack[k], stack[k + 1])
        &&& forall|i: int, w: NodeId|
            0 <= i < post.len() && #[trigger] self.has_edge(post[i], w) ==> post.take(i).contains(w)
    }
}

/// A topological order rules out cycles: along a path positions in the order
/// strictly increase.
pub proof fn lemma_topological_order_acyclic(g: DependencyGraph, order: Seq<NodeId>)
    requires
        g.wf(),
        g.is_topological_order(order),
    ensures
        !g.has_cycle(),
{
    if g.has_cycle() {
        let p = choose|p: Seq<NodeId>| #[trigger] g.is_cycle(p);
        let pos = |x: NodeId| choose|i: int| 0 <= i < order.len() && order[i] == x;
        // every node of the cycle is a node of the graph
        assert forall|k: int| 0 <= k < p.len() implies #[trigger] order.contains(p[k]) by {
            if k < p.len() - 1 {
                assert(g.has_edge(p[k], p[k + 1]));
            } else {
                let j = k - 1;
                assert(g.has_edge(p[j], p[j + 1]));
            }
        }
        assert forall|k: int| 1 <= k < p.len() implies pos(p[0]) < #[trigger] pos(p[k]) by {
            lemma_positions_increase(g, order, p, k);
        }
        assert(pos(p[0]) < pos(p[p.len() - 1]));
    }
}

/// Positions along a path increase.
proof fn lemma_positions_increase(g: DependencyGraph, order: Seq<NodeId>, p: Seq<NodeId>, k: int)
    requires
        g.wf(),
        g.is_topological_order(order),
        g.is_path(p),
        1 <= k < p.len(),
        forall|m: int| 0 <= m < p.len() ==> #[trigger] order.contains(p[m]),
    ensures
        (choose|i: int| 0 <= i < order.len() && order[i] == p[0]) < (choose|i: int|
            0 <= i < order.len() && order[i] == p[k]),
    decreases k,
{
    let pos = |x: NodeId| choose|i: int| 0 <= i < order.len() && order[i] == x;
    assert(order.contains(p[k - 1]));
    assert(order.contains(p[k]));
    let a = pos(p[k - 1]);
    let b = pos(p[k]);
    assert(order[a] == p[k - 1]);
    assert(order[b] == p[k]);
    let j = k - 1;
    assert(g.has_edge(p[j], p[j + 1]));
    assert(g.has_edge(order[a], order[b]));
    if k > 1 {
        lemma_positions_increase(g, order, p, k - 1);
    }
}

/// A sequence without duplicates whose elements all lie in another sequence
/// without duplicates is no longer than it.
pub proof fn lemma_no_dup_within_len<T>(s: Seq<T>, keys: Seq<T>)
    requires
        s.no_duplicates(),
        keys.no_duplicates(),
        forall|x: T| #[trigger] s.contains(x) ==> keys.contains(x),
    ensures
        s.len() <= keys.len(),
{
    s.unique_seq_to_set();
    keys.unique_seq_to_set();
    seq_to_set_is_finite(keys);
    assert(s.to_set().subset_of(keys.to_set()));
    lemma_len_subset(s.to_set(), keys.to_set());
}

/// Finished nodes and nodes on the path are disjoint, and with an unvisited
/// node at position `i` there is room for one more.
proof fn lemma_dfs_room(g: DependencyGraph, color: Seq<u8>, post: Seq<NodeId>, stack: Seq<NodeId>, i: int)
    requires
        g.wf(),
        g.dfs_state(color, post, stack),
        0 <= i < g.node_ids().len(),
        color[i] == 0,
    ensures
        post.len() + stack.len() + 1 <= g.node_ids().len(),
        forall|x: NodeId| #[trigger] post.contains(x) ==> !stack.contains(x),
        !post.contains(g.node_ids()[i]),
        !stack.contains(g.node_ids()[i]),
{
    let keys = g.node_ids();
    assert forall|x: NodeId| #[trigger] post.contains(x) implies !stack.contains(x) by {
        assert(g.has_node(x));
        let j = choose|j: int| 0 <= j < keys.len() && keys[j] == x;
        assert(post.contains(keys[j]));
    }
    let node = keys[i];
    let stack1 = stack.push(node);
    assert(!post.contains(node));
    assert(!stack.contains(node));
    crate::graph::lemma_no_dup_push(stack, node);
    assert forall|a: int, b: int| 0 <= a < post.len() && 0 <= b < stack1.len() implies post[a] != stack1[b] by {
        assert(post.contains(post[a]));
        if b < stack.len() {
            assert(stack.contains(stack1[b]));
        }
    }
    lemma_no_dup_in_concat(post, stack1);
    assert forall|x: NodeId| #[trigger] (post + stack1).contains(x) implies keys.contains(x) by {
        let j = choose|j: int| 0 <= j < (post + stack1).len() && (post + stack1)[j] == x;
        if j < post.len() {
            assert(post.contains(x));
        } else if j - post.len() < stack.len() {
            assert(stack.contains(stack[j - post.len()]));
        } else {
            assert(x == node);
        }
    }
    lemma_no_dup_within_len(post + stack1, keys);
}

impl DependencyGraph {
    /// Depth-first visit of the unvisited node at position `v`: visits its
    /// unvisited successors, then finishes it. Returns `false` when an edge back
    /// to a node on the current path shows a cycle.
    fn dfs_visit(
        &self,
        ids: &Vec<NodeId>,
        v: usize,
        color: &mut Vec<u8>,
        post: &mut Vec<NodeId>,
        Ghost(stack): Ghost<Seq<NodeId>>,
        Ghost(room): Ghost<int>,
    ) -> (ok: bool)
        requires
            self.wf(),
            ids@ == self.node_ids(),
            self.dfs_state(old(color)@, old(post)@, stack),
            v < self.node_ids().len(),
            old(color)@[v as int] == 0,
            stack.len() > 0 ==> self.has_edge(stack.last(), self.node_ids()[v as int]),
            room == self.node_ids().len() - old(post)@.len() - stack.len(),
        ensures
            ok ==> self.dfs_state(final(color)@, final(post)@, stack),
            ok ==> final(post)@.contains(self.node_ids()[v as int]),
            ok ==> final(post)@.len() >= old(post)@.len() && final(post)@.take(old(post)@.len() as int)
                == old(post)@,
            !ok ==> self.has_cycle(),
        decreases room,
    {
        let ghost keys = self.node_ids();
        let ghost post0 = post@;
        let ghost node = keys[v as int];
        let ghost stack1 = stack.push(node);
        proof {
            lemma_dfs_room(*self, color@, post@, stack, v as int);
        }
        color.set(v, 1);
        proof {
            assert forall|i: int| 0 <= i < keys.len() implies (color@[i] == 1 <==> stack1.contains(
                #[trigger] keys[i],
            )) by {
                crate::graph::lemma_push_contains(stack, node, keys[i]);
                if i != v {
                    assert(keys[i] != node);
                }
            }
            assert forall|x: NodeId| #[trigger] stack1.contains(x) implies self.has_node(x) by {
                crate::graph::lemma_push_contains(stack, node, x);
            }
            crate::graph::lemma_no_dup_push(stack, node);
            assert(self.dfs_state(color@, post@, stack1));
        }
        let succs = self.neighbors(ids[v]);
        let len = succs.len();
        let mut k: usize = 0;
        while k < len
            invariant
                self.wf(),
                keys == self.node_ids(),
                ids@ == keys,
                v < keys.len(),
                node == keys[v as int],
                stack1 == stack.push(node),
                self.dfs_state(color@, post@, stack1),
                color@[v as int] == 1,
                len == succs@.len(),
                forall|w: NodeId| #[trigger] succs@.contains(w) <==> self.has_edge(node, w),
                k <= len,
                forall|m: int| 0 <= m < k ==> #[trigger] post@.contains(succs@[m]),
                post@.len() >= post0.len(),
                post@.take(post0.len() as int) == post0,
                self.node_ids().len() - post0.len() - stack.len() > 0,
                room == self.node_ids().len() - post0.len() - stack.len(),
            decreases len - k,
        {
            let w = succs[k];
            proof {
                assert(succs@.contains(w));
                assert(self.has_edge(node, w));
            }
            let wi = self.to_index(w);
            if color[wi] == 1 {
                proof {
                    lemma_back_edge_cycle(*self, stack1, w);
                }
                return false;
            }
            if color[wi] == 0 {
                let ghost post_before = post@;
                proof {
                    assert(stack1.last() == node);
                    lemma_dfs_room(*self, color@, post@, stack1, wi as int);
                }
                let ghost room1 = self.node_ids().len() - post@.len() - stack1.len();
                if !self.dfs_visit(ids, wi, color, post, Ghost(stack1), Ghost(room1)) {
                    return false;
                }
                proof {
                    assert(post@.take(post_before.len() as int) == post_before);
                    assert(post@.take(post0.len() as int) =~= post_before.take(post0.len() as int));
                    assert forall|m: int| 0 <= m < k implies #[trigger] post@.contains(succs@[m]) by {
                        assert(post_before.contains(succs@[m]));
                        let j = choose|j: int| 0 <= j < post_before.len() && post_before[j] == succs@[m];
                        assert(post@[j] == post_before[j]);
                    }
                }
            }
            proof {
                assert(color@[wi as int] == 2);
                assert(keys[wi as int] == w);
                assert(post@.contains(w));
            }
            k = k + 1;
        }
        // every successor is finished: finish v
        let ghost post1 = post@;
        color.set(v, 2);
        post.push(ids[v]);
        proof {
            assert forall|w: NodeId| #[trigger] self.has_edge(node, w) implies post1.contains(w) by {
                assert(succs@.contains(w));
                let m = choose|m: int| 0 <= m < len && succs@[m] == w;
                assert(post1.contains(succs@[m]));
            }
            lemma_finish_node(*self, color@, post1, stack, v as int);
            assert(post@.take(post0.len() as int) =~= post1.take(post0.len() as int));
            assert(post@[post1.len() as int] == node);
        }
        true
    }
}

impl DependencyGraph {
    /// A topological order of the nodes found by depth-first search: the nodes
    /// in reverse order of finishing, starting the search from each node in
    /// node order and following edges in link order. `None` when the search
    /// meets a cycle.
    pub(crate) fn dfs_topological_order(&self) -> (r: Option<Vec<NodeId>>)
        requires
            self.wf(),
        ensures
            r matches Some(o) ==> self.is_topological_order(o@),
            r is None ==> self.has_cycle(),
    {
        let ids = self.nodes();
        let n = ids.len();
        let mut color: Vec<u8> = Vec::with_capacity(n);
        let mut z: usize = 0;
        while z < n
            invariant
                z <= n,
                color@.len() == z,
                forall|j: int| 0 <= j < z ==> color@[j] == 0,
            decreases n - z,
        {
            color.push(0);
            z = z + 1;
        }
        let mut post: Vec<NodeId> = Vec::new();
        let ghost empty = Seq::<NodeId>::empty();
        proof {
            let keys = self.node_ids();
            assert forall|i: int| 0 <= i < keys.len() implies (color@[i] == 2 <==> post@.contains(#[trigger] keys[i])) by {}
            assert(self.dfs_state(color@, post@, empty));
        }
        let mut i: usize = 0;
        while i < n
            invariant
                self.wf(),
                ids@ == self.node_ids(),
                n == ids@.len(),
                i <= n,
                empty == Seq::<NodeId>::empty(),
                self.dfs_state(color@, post@, empty),
                forall|j: int| 0 <= j < i ==> #[trigger] color@[j] == 2,
            decreases n - i,
        {
            if color[i] == 0 {
                let ghost room = n - post@.len();
                let ghost post_before = post@;
                proof {
                    assert forall|j: int| 0 <= j < i implies post_before.contains(#[trigger] self.node_ids()[j]) by {
                        assert(color@[j] == 2);
                    }
                }
                if !self.dfs_visit(&ids, i, &mut color, &mut post, Ghost(empty), Ghost(room)) {
                    return None;
                }
                proof {
                    assert forall|j: int| 0 <= j < i implies #[trigger] color@[j] == 2 by {
                        let key = self.node_ids()[j];
                        assert(post_before.contains(key));
                        let m = choose|m: int| 0 <= m < post_before.len() && post_before[m] == key;
                        assert(post@.take(post_before.len() as int)[m] == key);
                        assert(post@.contains(key));
                    }
                    assert(post@.contains(ids@[i as int]));
                    assert(color@[i as int] == 2);
                }
            }
            proof {
                let key = self.node_ids()[i as int];
                assert(!empty.contains(key));
                assert(color@[i as int] != 1);
                assert(color@[i as int] <= 2);
            }
            i = i + 1;
        }
        let len = post.len();
        let mut order: Vec<NodeId> = Vec::with_capacity(len);
        let mut k: usize = 0;
        while k < len
            invariant
                len == post@.len(),
                k <= len,
                order@.len() == k,
                forall|m: int| 0 <= m < k ==> #[trigger] order@[m] == post@[len - 1 - m],
            decreases len - k,
        {
            order.push(post[len - 1 - k]);
            k = k + 1;
        }
        proof {
            lemma_reverse_postorder(*self, color@, post@, order@);
        }
        Some(order)
    }
}

/// When every node is finished, the finishing order reversed is a
/// topological order.
proof fn lemma_reverse_postorder(g: DependencyGraph, color: Seq<u8>, post: Seq<NodeId>, order: Seq<NodeId>)
    requires
        g.wf(),
        g.dfs_state(color, post, Seq::empty()),
        forall|j: int| 0 <= j < g.node_ids().len() ==> #[trigger] color[j] == 2,
        order.len() == post.len(),
        forall|m: int| 0 <= m < post.len() ==> #[trigger] order[m] == post[post.len() - 1 - m],
    ensures
        g.is_topological_order(order),
{
    let n = post.len();
    let keys = g.node_ids();
    assert forall|m: int| 0 <= m < n implies #[trigger] post[m] == order[n - 1 - m] by {
        assert(order[n - 1 - m] == post[n - 1 - (n - 1 - m)]);
    }
    assert forall|x: NodeId| #[trigger] order.contains(x) <==> post.contains(x) by {
        if order.contains(x) {
            let m = choose|m: int| 0 <= m < n && order[m] == x;
            assert(post[n - 1 - m] == x);
        }
        if post.contains(x) {
            let m = choose|m: int| 0 <= m < n && post[m] == x;
            assert(order[n - 1 - m] == x);
        }
    }
    assert forall|x: NodeId| #[trigger] order.contains(x) <==> g.has_node(x) by {
        if g.has_node(x) {
            let j = choose|j: int| 0 <= j < keys.len() && keys[j] == x;
            assert(color[j] == 2);
            assert(post.contains(keys[j]));
        }
    }
    assert forall|a: int, b: int| 0 <= a < n && 0 <= b < n && a != b implies order[a] != order[b] by {
        assert(order[a] == post[n - 1 - a]);
        assert(order[b] == post[n - 1 - b]);
    }
    assert forall|i: int, j: int|
        0 <= i < order.len() && 0 <= j < order.len() && #[trigger] g.has_edge(order[i], order[j]) implies i < j by {
        let pi = n - 1 - i;
        let pj = n - 1 - j;
        assert(order[i] == post[pi]);
        assert(order[j] == post[pj]);
        assert(g.has_edge(post[pi], order[j]));
        assert(post.take(pi).contains(order[j]));
        let m = choose|m: int| 0 <= m < pi && post.take(pi)[m] == order[j];
        assert(post[m] == post[pj]);
    }
}

/// An edge from the end of the current path back to a node on it closes a
/// cycle.
proof fn lemma_back_edge_cycle(g: DependencyGraph, stack: Seq<NodeId>, w: NodeId)
    requires
        stack.len() > 0,
        forall|k: int| 0 <= k < stack.len() - 1 ==> #[trigger] g.has_edge(stack[k], stack[k + 1]),
        stack.contains(w),
        g.has_edge(stack.last(), w),
    ensures
        g.has_cycle(),
{
    let i = choose|i: int| 0 <= i < stack.len() && stack[i] == w;
    let p = stack.subrange(i, stack.len() as int).push(w);
    assert forall|k: int| 0 <= k < p.len() - 1 implies #[trigger] g.has_edge(p[k], p[k + 1]) by {
        if k < p.len() - 2 {
            assert(p[k] == stack[i + k]);
            assert(p[k + 1] == stack[i + k + 1]);
        } else {
            assert(p[k] == stack.last());
        }
    }
    assert(g.is_cycle(p));
}

/// Finishing the node at position `v` once all of its successors are finished
/// keeps the search state, with `v` off the path.
proof fn lemma_finish_node(
    g: DependencyGraph,
    color: Seq<u8>,
    post1: Seq<NodeId>,
    stack: Seq<NodeId>,
    v: int,
)
    requires
        g.wf(),
        0 <= v < g.node_ids().len(),
        color.len() == g.node_ids().len(),
        g.dfs_state(color.update(v, 1), post1, stack.push(g.node_ids()[v])),
        color[v] == 2,
        forall|w: NodeId| #[trigger] g.has_edge(g.node_ids()[v], w) ==> post1.contains(w),
    ensures
        g.dfs_state(color, post1.push(g.node_ids()[v]), stack),
{
    let keys = g.node_ids();
    let node = keys[v];
    let stack1 = stack.push(node);
    let c1 = color.update(v, 1);
    let post = post1.push(node);
    assert(stack1.contains(node)) by {
        assert(stack1[stack.len() as int] == node);
    }
    assert(!post1.contains(node)) by {
        assert(c1[v] == 1);
    }
    crate::graph::lemma_no_dup_push(post1, node);
    assert(stack1.no_duplicates());
    assert(!stack.contains(node)) by {
        if stack.contains(node) {
            let j = choose|j: int| 0 <= j < stack.len() && stack[j] == node;
            assert(stack1[j] == stack1[stack.len() as int]);
        }
    }
    assert forall|i: int| 0 <= i < keys.len() implies (color[i] == 2 <==> post.contains(#[trigger] keys[i])) by {
        crate::graph::lemma_push_contains(post1, node, keys[i]);
        if i != v {
            assert(keys[i] != node);
            assert(c1[i] == color[i]);
        }
    }
    assert forall|i: int| 0 <= i < keys.len() implies (color[i] == 1 <==> stack.contains(#[trigger] keys[i])) by {
        crate::graph::lemma_push_contains(stack, node, keys[i]);
        if i != v {
            assert(keys[i] != node);
            assert(c1[i] == color[i]);
        }
    }
    assert forall|i: int| 0 <= i < keys.len() implies #[trigger] color[i] <= 2 by {
        if i != v {
            assert(c1[i] == color[i]);
        }
    }
    assert forall|x: NodeId| #[trigger] post.contains(x) implies g.has_node(x) by {
        crate::graph::lemma_push_contains(post1, node, x);
    }
    assert forall|x: NodeId| #[trigger] stack.contains(x) implies g.has_node(x) by {
        crate::graph::lemma_push_contains(stack, node, x);
    }
    assert forall|k: int| 0 <= k < stack.len() - 1 implies #[trigger] g.has_edge(stack[k], stack[k + 1]) by {
        assert(stack1[k] == stack[k] && stack1[k + 1] == stack[k + 1]);
    }
    assert forall|i: int, w: NodeId|
        0 <= i < post.len() && #[trigger] g.has_edge(post[i], w) implies post.take(i).contains(w) by {
        if i < post1.len() {
            assert(post[i] == post1[i]);
            assert(g.has_edge(post1[i], w));
            assert(post1.take(i).contains(w));
            assert(post.take(i) =~= post1.take(i));
        } else {
            assert(post[i] == node);
            assert(g.has_edge(node, w));
            assert(post1.contains(w));
            assert(post.take(i) =~= post1);
        }
    }
    assert(color.len() == keys.len());
    assert(post.no_duplicates());
    assert(stack.no_duplicates()) by {
        assert forall|a: int, b: int| 0 <= a < stack.len() && 0 <= b < stack.len() && a != b implies stack[a] != stack[b] by {
            assert(stack1[a] == stack[a] && stack1[b] == stack[b]);
        }
    }
}

} // verus!
