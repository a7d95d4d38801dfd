//! Elementary cycles of a strongly connected component, used to explain a
//! dependency cycle.
use vstd::prelude::*;

use crate::graph::{DependencyGraph, NodeId, lemma_push_contains, lemma_no_dup_push};
use crate::topsort::lemma_no_dup_within_len;

verus! {

/// `c` lists distinct nodes joined by edges one after the other, with an
/// edge from the last back to the first.
pub open spec fn is_elementary_cycle(g: DependencyGraph, c: Seq<NodeId>) -> bool {
    &&& c.len() >= 1
    &&& c.no_duplicates()
    &&& forall|k: int| 0 <= k < c.len() - 1 ==> #[trigger] g.has_edge(c[k], c[k + 1])
    &&& g.has_edge(c.last(), c[0])
}

/// Every listed cycle is an elementary cycle of `g` through nodes of `within`.
pub open spec fn cycles_within(g: DependencyGraph, cycles: Seq<Vec<NodeId>>, within: Seq<NodeId>) -> bool {
    forall|k: int| 0 <= k < cycles.len() ==> is_elementary_cycle(g, (#[trigger] cycles[k])@)
        && forall|x: NodeId| cycles[k]@.contains(x) ==> within.contains(x)
}

/// The search state of one round of the cycle search.
struct CycleSearch {
    /// Path of nodes that may form a cycle.
    path: Vec<NodeId>,
    /// Whether each node (by position in the subgraph) is on the path.
    on_path: Vec<bool>,
    /// The cycles found.
    cycles: Vec<Vec<NodeId>>,
}

impl CycleSearch {
    spec fn inv(&self, sub: DependencyGraph, g: DependencyGraph, within: Seq<NodeId>, root: NodeId) -> bool {
        let keys = sub.node_ids();
        &&& self.on_path@.len() == keys.len()
        &&& forall|i: int| 0 <= i < keys.len() ==> (#[trigger] self.on_path@[i] <==> self.path@.contains(keys[i]))
        &&& self.path@.no_duplicates()
        &&& forall|x: NodeId| #[trigger] self.path@.contains(x) ==> sub.has_node(x)
        &&& forall|k: int| 0 <= k < self.path@.len() - 1 ==> #[trigger] sub.has_edge(self.path@[k], self.path@[k + 1])
        &&& self.path@.len() > 0 ==> self.path@[0] == root
        &&& cycles_within(g, self.cycles@, within)
    }
}

/// All nodes of `c` are among `within`.
pub open spec fn inside(c: Seq<NodeId>, within: Seq<NodeId>) -> bool {
    forall|x: NodeId| #[trigger] c.contains(x) ==> within.contains(x)
}

/// `c` turned to start at its position `i`.
pub open spec fn rotation(c: Seq<NodeId>, i: int) -> Seq<NodeId> {
    c.subrange(i, c.len() as int) + c.subrange(0, i)
}

/// Some listed cycle is `c` turned to start at one of its positions.
pub open spec fn rotation_listed(cycles: Seq<Vec<NodeId>>, c: Seq<NodeId>) -> bool {
    exists|k: int, i: int|
        #![trigger cycles[k], rotation(c, i)]
        0 <= k < cycles.len() && 0 <= i < c.len() && cycles[k]@ == rotation(c, i)
}

/// `a` is `b` turned to start at one of its positions.
pub open spec fn is_rotation_of(a: Seq<NodeId>, b: Seq<NodeId>) -> bool {
    exists|i: int| 0 <= i < b.len() && a == #[trigger] rotation(b, i)
}

/// Some node of `c` is not a node of `g`.
spec fn left_behind(c: Seq<NodeId>, g: DependencyGraph) -> bool {
    exists|x: NodeId| #[trigger] c.contains(x) && !g.has_node(x)
}

/// A turned sequence has the same length and the same members, and starts
/// at the position it was turned to.
pub proof fn lemma_rotation_contains(c: Seq<NodeId>, i: int)
    requires
        0 <= i < c.len(),
    ensures
        rotation(c, i).len() == c.len(),
        rotation(c, i)[0] == c[i],
        forall|x: NodeId| #[trigger] rotation(c, i).contains(x) <==> c.contains(x),
{
    let n = c.len() as int;
    let r = rotation(c, i);
    assert forall|x: NodeId| #[trigger] r.contains(x) <==> c.contains(x) by {
        if r.contains(x) {
            let k = choose|k: int| 0 <= k < n && r[k] == x;
            assert(r[k] == c[if k < n - i { k + i } else { k + i - n }]);
        }
        if c.contains(x) {
            let k = choose|k: int| 0 <= k < n && c[k] == x;
            let q = if k >= i { k - i } else { k + n - i };
            assert(r[q] == c[k]);
        }
    }
}

/// The nodes of an elementary cycle of a well-formed graph are its nodes.
pub proof fn lemma_cycle_nodes(g: DependencyGraph, c: Seq<NodeId>)
    requires
        g.wf(),
        is_elementary_cycle(g, c),
    ensures
        forall|x: NodeId| #[trigger] c.contains(x) ==> g.has_node(x),
{
    assert forall|x: NodeId| #[trigger] c.contains(x) implies g.has_node(x) by {
        let q = choose|q: int| 0 <= q < c.len() && c[q] == x;
        if q < c.len() - 1 {
            assert(g.has_edge(c[q], c[q + 1]));
            assert(g.edge_pairs().contains((c[q], c[q + 1])));
        } else {
            assert(g.edge_pairs().contains((c.last(), c[0])));
        }
    }
}

/// A cycle that starts with `p` and then `x` starts with `p` and goes on to
/// `x` after it.
proof fn lemma_extends_push(c: Seq<NodeId>, p: Seq<NodeId>, x: NodeId)
    requires
        extends(c, p.push(x)),
    ensures
        extends(c, p),
        next_after(c, p) == x,
{
    let m = p.len() as int;
    assert(c.take(m + 1)[m] == x);
    assert(c.take(m) =~= c.take(m + 1).take(m));
    assert(p.push(x).take(m) =~= p);
}

/// Every elementary cycle of `g` through nodes of `part` is listed, turned
/// to start at one of its nodes.
pub open spec fn covers(g: DependencyGraph, cycles: Seq<Vec<NodeId>>, part: Seq<NodeId>) -> bool {
    forall|c: Seq<NodeId>| #[trigger] is_elementary_cycle(g, c) && inside(c, part) ==> rotation_listed(cycles, c)
}

/// `c` is listed at position `from` or later.
spec fn listed_from(cycles: Seq<Vec<NodeId>>, from: int, c: Seq<NodeId>) -> bool {
    exists|k: int| from <= k < cycles.len() && #[trigger] cycles[k]@ == c
}

/// `c` starts with the path `p`.
spec fn extends(c: Seq<NodeId>, p: Seq<NodeId>) -> bool {
    c.len() >= p.len() && c.take(p.len() as int) == p
}

/// Where the cycle `c` goes after the path `p`: its next node, or back to
/// its start when it is `p` itself.
spec fn next_after(c: Seq<NodeId>, p: Seq<NodeId>) -> NodeId {
    if c.len() > p.len() {
        c[p.len() as int]
    } else {
        c[0]
    }
}

/// A cycle that starts with the path `p` goes on along an edge from the last
/// node of `p`: back to its start exactly when it is `p`, and otherwise to a
/// node off `p`, which then starts it too.
proof fn lemma_next_after(g: DependencyGraph, c: Seq<NodeId>, p: Seq<NodeId>)
    requires
        is_elementary_cycle(g, c),
        extends(c, p),
        p.len() > 0,
    ensures
        g.has_edge(p.last(), next_after(c, p)),
        next_after(c, p) == c[0] ==> c == p,
        next_after(c, p) != c[0] ==> !p.contains(next_after(c, p)) && extends(c, p.push(next_after(c, p))),
{
    let m = p.len() as int;
    assert(c[m - 1] == p[m - 1]);
    if c.len() > m {
        let k = m - 1;
        assert(g.has_edge(c[k], c[k + 1]));
        assert(c[m] != c[0]);
        assert(!p.contains(c[m])) by {
            if p.contains(c[m]) {
                let q = choose|q: int| 0 <= q < p.len() && p[q] == c[m];
                assert(c[q] == p[q]);
            }
        }
        assert(c.take(m + 1) =~= p.push(c[m]));
    } else {
        assert(c =~= p);
    }
}

/// A listing that keeps its first entries keeps every cycle listed there.
proof fn lemma_listed_grows(cs1: Seq<Vec<NodeId>>, cs2: Seq<Vec<NodeId>>, from: int, to: int, c: Seq<NodeId>)
    requires
        0 <= from,
        listed_from(cs1, from, c),
        cs2.len() >= cs1.len(),
        forall|k: int| 0 <= k < cs1.len() ==> #[trigger] cs2[k] == cs1[k],
        to <= from,
    ensures
        listed_from(cs2, to, c),
{
    let k = choose|k: int| from <= k < cs1.len() && #[trigger] cs1[k]@ == c;
    assert(from <= k < cs1.len() && cs1[k]@ == c);
    assert(cs2[k] == cs1[k]);
    assert(cs2[k]@ == c);
}

/// Turning an elementary cycle keeps it an elementary cycle, with the same
/// nodes, in any graph that has the edges of `g` between its nodes.
proof fn lemma_rotation(g: DependencyGraph, h: DependencyGraph, c: Seq<NodeId>, i: int)
    requires
        is_elementary_cycle(g, c),
        0 <= i < c.len(),
        forall|x: NodeId, y: NodeId|
            #![trigger h.has_edge(x, y)]
            c.contains(x) && c.contains(y) && g.has_edge(x, y) ==> h.has_edge(x, y),
    ensures
        is_elementary_cycle(h, rotation(c, i)),
        rotation(c, i)[0] == c[i],
        forall|x: NodeId| #[trigger] rotation(c, i).contains(x) <==> c.contains(x),
{
    let n = c.len() as int;
    let r = rotation(c, i);
    assert(r.len() == n);
    assert forall|k: int| 0 <= k < n implies #[trigger] r[k] == c[if k < n - i { k + i } else { k + i - n }] by {}
    assert forall|k: int| 0 <= k < n - 1 implies #[trigger] h.has_edge(r[k], r[k + 1]) by {
        let a = if k < n - i { k + i } else { k + i - n };
        let b = if k + 1 < n - i { k + 1 + i } else { k + 1 + i - n };
        assert(r[k] == c[a] && r[k + 1] == c[b]);
        assert(c.contains(c[a]) && c.contains(c[b]));
        if a == n - 1 {
            assert(b == 0);
        } else {
            assert(b == a + 1);
            assert(g.has_edge(c[a], c[a + 1]));
        }
    }
    assert(h.has_edge(r.last(), r[0])) by {
        assert(r[0] == c[i]);
        if i == 0 {
            assert(r[n - 1] == c[n - 1]);
            assert(c.contains(c[n - 1]) && c.contains(c[0]));
        } else {
            assert(r[n - 1] == c[i - 1]);
            let k = i - 1;
            assert(g.has_edge(c[k], c[k + 1]));
            assert(c.contains(c[i - 1]) && c.contains(c[i]));
        }
    }
    assert forall|a: int, b: int| 0 <= a < n && 0 <= b < n && a != b implies r[a] != r[b] by {
        assert(r[a] == c[if a < n - i { a + i } else { a + i - n }]);
        assert(r[b] == c[if b < n - i { b + i } else { b + i - n }]);
    }
    assert forall|x: NodeId| #[trigger] r.contains(x) <==> c.contains(x) by {
        if r.contains(x) {
            let k = choose|k: int| 0 <= k < n && r[k] == x;
            assert(r[k] == c[if k < n - i { k + i } else { k + i - n }]);
        }
        if c.contains(x) {
            let k = choose|k: int| 0 <= k < n && c[k] == x;
            let q = if k >= i { k - i } else { k + n - i };
            assert(r[q] == c[k]);
        }
    }
}

/// A copy of a list of node ids.
fn copy_ids(v: &Vec<NodeId>) -> (r: Vec<NodeId>)
    ensures
        r@ == v@,
{
    let mut r: Vec<NodeId> = Vec::with_capacity(v.len());
    let mut i: usize = 0;
    while i < v.len()
        invariant
            i <= v@.len(),
            r@ == v@.take(i as int),
        decreases v@.len() - i,
    {
        r.push(v[i]);
        proof {
            assert(v@.take(i + 1) =~= v@.take(i as int).push(v@[i as int]));
        }
        i = i + 1;
    }
    proof {
        assert(v@.take(v@.len() as int) =~= v@);
    }
    r
}

/// The subgraph's edges are edges of `g` between nodes of `within`.
pub open spec fn sub_of(sub: DependencyGraph, g: DependencyGraph, within: Seq<NodeId>) -> bool {
    &&& forall|a: NodeId, b: NodeId| #[trigger] sub.has_edge(a, b) ==> g.has_edge(a, b)
    &&& forall|x: NodeId| #[trigger] sub.has_node(x) ==> within.contains(x)
}

impl DependencyGraph {
    /// Explores every path that extends the current path, which ends at
    /// `node`, without visiting a node twice, and records each that closes
    /// back to `root`; takes `node` off the path when done. Afterwards every
    /// elementary cycle that starts with the path is listed among the new
    /// cycles, and the cycles listed before are kept.
    fn circuit(
        &self,
        j: &mut CycleSearch,
        root: NodeId,
        node: NodeId,
        Ghost(g): Ghost<DependencyGraph>,
        Ghost(within): Ghost<Seq<NodeId>>,
        Ghost(room): Ghost<int>,
    )
        requires
            self.wf(),
            sub_of(*self, g, within),
            old(j).inv(*self, g, within, root),
            old(j).path@.len() > 0,
            old(j).path@.last() == node,
            room == self.node_ids().len() - old(j).path@.len(),
        ensures
            final(j).inv(*self, g, within, root),
            final(j).path@ == old(j).path@.drop_last(),
            final(j).cycles@.len() >= old(j).cycles@.len(),
            forall|k: int| 0 <= k < old(j).cycles@.len() ==> #[trigger] final(j).cycles@[k] == old(j).cycles@[k],
            forall|c: Seq<NodeId>|
                is_elementary_cycle(*self, c) && #[trigger] extends(c, old(j).path@) ==> listed_from(
                    final(j).cycles@,
                    old(j).cycles@.len() as int,
                    c,
                ),
            forall|k: int|
                old(j).cycles@.len() <= k < final(j).cycles@.len() ==> extends(#[trigger] final(j).cycles@[k]@, old(j).path@)
                    && is_elementary_cycle(*self, final(j).cycles@[k]@),
            forall|k1: int, k2: int|
                #![trigger final(j).cycles@[k1], final(j).cycles@[k2]]
                old(j).cycles@.len() <= k1 < k2 < final(j).cycles@.len() ==> final(j).cycles@[k1]@ != final(j).cycles@[k2]@,
        decreases room,
    {
        let ghost keys = self.node_ids();
        let ghost path0 = j.path@;
        let ghost c0 = j.cycles@;
        let succs = self.neighbors(node);
        let len = succs.len();
        let mut idx: usize = 0;
        proof {
            assert(path0.contains(node)) by {
                assert(path0[path0.len() - 1] == node);
            }
        }
        while idx < len
            invariant
                self.wf(),
                sub_of(*self, g, within),
                keys == self.node_ids(),
                j.inv(*self, g, within, root),
                j.path@ == path0,
                path0 == old(j).path@,
                c0 == old(j).cycles@,
                path0.contains(node),
                path0.len() > 0,
                path0.last() == node,
                room == keys.len() - path0.len(),
                len == succs@.len(),
                forall|w: NodeId| #[trigger] succs@.contains(w) <==> self.has_edge(node, w),
                idx <= len,
                j.cycles@.len() >= c0.len(),
                forall|k: int| 0 <= k < c0.len() ==> #[trigger] j.cycles@[k] == c0[k],
                forall|c: Seq<NodeId>|
                    is_elementary_cycle(*self, c) && #[trigger] extends(c, path0) && succs@.take(idx as int).contains(
                        next_after(c, path0),
                    ) ==> listed_from(j.cycles@, c0.len() as int, c),
                succs@.no_duplicates(),
                forall|k: int|
                    c0.len() <= k < j.cycles@.len() ==> extends(#[trigger] j.cycles@[k]@, path0) && is_elementary_cycle(
                        *self,
                        j.cycles@[k]@,
                    ) && succs@.take(idx as int).contains(next_after(j.cycles@[k]@, path0)),
                forall|k1: int, k2: int|
                    #![trigger j.cycles@[k1], j.cycles@[k2]]
                    c0.len() <= k1 < k2 < j.cycles@.len() ==> j.cycles@[k1]@ != j.cycles@[k2]@,
            decreases len - idx,
        {
            let next = succs[idx];
            let ghost cs1 = j.cycles@;
            proof {
                assert(succs@.contains(next));
                assert(self.has_edge(node, next));
                assert(succs@.take(idx + 1) =~= succs@.take(idx as int).push(next));
                assert(succs@.take(idx + 1).contains(next)) by {
                    assert(succs@.take(idx + 1)[idx as int] == next);
                }
                assert(!succs@.take(idx as int).contains(next)) by {
                    if succs@.take(idx as int).contains(next) {
                        let q = choose|q: int| 0 <= q < idx && succs@.take(idx as int)[q] == next;
                        assert(succs@[q] == succs@[idx as int]);
                    }
                }
                assert forall|k: int| c0.len() <= k < cs1.len() implies succs@.take(idx + 1).contains(
                    next_after(#[trigger] cs1[k]@, path0),
                ) by {
                    lemma_push_contains(succs@.take(idx as int), next, next_after(cs1[k]@, path0));
                }
            }
            if next == root {
                // found a cycle
                let found = copy_ids(&j.path);
                proof {
                    lemma_path_cycle(*self, g, within, path0, root);
                }
                j.cycles.push(found);
                proof {
                    let cs = j.cycles@;
                    assert forall|k: int| 0 <= k < cs.len() implies is_elementary_cycle(g, (#[trigger] cs[k])@)
                        && forall|x: NodeId| cs[k]@.contains(x) ==> within.contains(x) by {
                        if k < cs.len() - 1 {
                            assert(cs[k] == cs1[k]);
                        }
                    }
                    assert forall|c: Seq<NodeId>|
                        is_elementary_cycle(*self, c) && #[trigger] extends(c, path0) && succs@.take(idx + 1).contains(
                            next_after(c, path0),
                        ) implies listed_from(cs, c0.len() as int, c) by {
                        lemma_next_after(*self, c, path0);
                        assert(c[0] == root) by {
                            assert(c[0] == path0[0]);
                        }
                        if next_after(c, path0) == next {
                            assert(cs[cs.len() - 1]@ == c);
                        } else {
                            lemma_push_contains(succs@.take(idx as int), next, next_after(c, path0));
                            lemma_listed_grows(cs1, cs, c0.len() as int, c0.len() as int, c);
                        }
                    }
                    assert(cs[cs.len() - 1]@ == path0);
                    assert(path0.take(path0.len() as int) =~= path0);
                    assert(next_after(path0, path0) == next);
                    assert forall|k: int| c0.len() <= k < cs.len() implies extends(#[trigger] cs[k]@, path0)
                        && is_elementary_cycle(*self, cs[k]@) && succs@.take(idx + 1).contains(next_after(cs[k]@, path0)) by {
                        if k < cs.len() - 1 {
                            assert(cs[k] == cs1[k]);
                        }
                    }
                    assert forall|k1: int, k2: int|
                        #![trigger cs[k1], cs[k2]]
                        c0.len() <= k1 < k2 < cs.len() implies cs[k1]@ != cs[k2]@ by {
                        assert(cs[k1] == cs1[k1]);
                        if k2 < cs.len() - 1 {
                            assert(cs[k2] == cs1[k2]);
                        } else {
                            assert(succs@.take(idx as int).contains(next_after(cs1[k1]@, path0)));
                        }
                    }
                }
            } else {
                let ni = self.to_index(next);
                if !j.on_path[ni] {
                    // first time seeing `next` on this path
                    j.path.push(next);
                    j.on_path.set(ni, true);
                    proof {
                        assert(!path0.contains(next)) by {
                            assert(keys[ni as int] == next);
                        }
                        lemma_no_dup_push(path0, next);
                        let p1 = j.path@;
                        assert forall|i: int| 0 <= i < keys.len() implies (#[trigger] j.on_path@[i]
                            <==> p1.contains(keys[i])) by {
                            lemma_push_contains(path0, next, keys[i]);
                            if i != ni {
                                assert(keys[i] != next);
                            }
                        }
                        assert forall|x: NodeId| #[trigger] p1.contains(x) implies self.has_node(x) by {
                            lemma_push_contains(path0, next, x);
                        }
                        assert forall|k: int| 0 <= k < p1.len() - 1 implies #[trigger] self.has_edge(p1[k], p1[k + 1]) by {
                            if k < path0.len() - 1 {
                                assert(p1[k] == path0[k] && p1[k + 1] == path0[k + 1]);
                            } else {
                                assert(p1[k] == node);
                            }
                        }
                        assert(p1[0] == root);
                        assert(p1.last() == next);
                        lemma_no_dup_within_len(p1, keys);
                    }
                    let ghost p1 = j.path@;
                    let ghost room1 = keys.len() - j.path@.len();
                    self.circuit(j, root, next, Ghost(g), Ghost(within), Ghost(room1));
                    proof {
                        assert(j.path@ =~= path0);
                        let cs = j.cycles@;
                        assert forall|k: int| 0 <= k < c0.len() implies #[trigger] cs[k] == c0[k] by {
                            assert(cs[k] == cs1[k]);
                        }
                        assert forall|c: Seq<NodeId>|
                            is_elementary_cycle(*self, c) && #[trigger] extends(c, path0) && succs@.take(
                                idx + 1,
                            ).contains(next_after(c, path0)) implies listed_from(cs, c0.len() as int, c) by {
                            lemma_next_after(*self, c, path0);
                            assert(c[0] == root) by {
                                assert(c[0] == path0[0]);
                            }
                            if next_after(c, path0) == next {
                                assert(extends(c, p1));
                                lemma_listed_grows(cs, cs, cs1.len() as int, c0.len() as int, c);
                            } else {
                                lemma_push_contains(succs@.take(idx as int), next, next_after(c, path0));
                                lemma_listed_grows(cs1, cs, c0.len() as int, c0.len() as int, c);
                            }
                        }
                        assert forall|k: int| c0.len() <= k < cs.len() implies extends(#[trigger] cs[k]@, path0)
                            && is_elementary_cycle(*self, cs[k]@) && succs@.take(idx + 1).contains(next_after(cs[k]@, path0)) by {
                            if k < cs1.len() {
                                assert(cs[k] == cs1[k]);
                            } else {
                                assert(extends(cs[k]@, p1));
                                lemma_extends_push(cs[k]@, path0, next);
                            }
                        }
                        assert forall|k1: int, k2: int|
                            #![trigger cs[k1], cs[k2]]
                            c0.len() <= k1 < k2 < cs.len() implies cs[k1]@ != cs[k2]@ by {
                            if k2 < cs1.len() {
                                assert(cs[k1] == cs1[k1] && cs[k2] == cs1[k2]);
                            } else if k1 < cs1.len() {
                                assert(cs[k1] == cs1[k1]);
                                assert(succs@.take(idx as int).contains(next_after(cs1[k1]@, path0)));
                                assert(extends(cs[k2]@, p1));
                                lemma_extends_push(cs[k2]@, path0, next);
                            }
                        }
                    }
                } else {
                    proof {
                        assert(path0.contains(next)) by {
                            assert(keys[ni as int] == next);
                        }
                        assert forall|c: Seq<NodeId>|
                            is_elementary_cycle(*self, c) && #[trigger] extends(c, path0) && succs@.take(
                                idx + 1,
                            ).contains(next_after(c, path0)) implies listed_from(j.cycles@, c0.len() as int, c) by {
                            lemma_next_after(*self, c, path0);
                            assert(c[0] == root) by {
                                assert(c[0] == path0[0]);
                            }
                            lemma_push_contains(succs@.take(idx as int), next, next_after(c, path0));
                        }
                    }
                }
            }
            idx = idx + 1;
        }
        proof {
            assert(succs@.take(len as int) =~= succs@);
            assert forall|c: Seq<NodeId>| is_elementary_cycle(*self, c) && #[trigger] extends(c, path0) implies listed_from(
                j.cycles@,
                c0.len() as int,
                c,
            ) by {
                lemma_next_after(*self, c, path0);
                assert(succs@.contains(next_after(c, path0)));
            }
        }
        // remove node from path
        let ni = self.to_index(node);
        j.path.pop();
        j.on_path.set(ni, false);
        proof {
            let p1 = j.path@;
            assert(p1 =~= path0.drop_last());
            assert forall|x: NodeId| #[trigger] p1.contains(x) implies path0.contains(x) && x != node by {
                let k = choose|k: int| 0 <= k < p1.len() && p1[k] == x;
                assert(path0[k] == x);
                assert(path0[path0.len() - 1] == node);
            }
            assert forall|i: int| 0 <= i < keys.len() implies (#[trigger] j.on_path@[i] <==> p1.contains(keys[i])) by {
                if i != ni {
                    assert(keys[i] != node);
                    if path0.contains(keys[i]) {
                        let k = choose|k: int| 0 <= k < path0.len() && path0[k] == keys[i];
                        assert(k != path0.len() - 1);
                        assert(p1[k] == keys[i]);
                    }
                } else {
                    assert(keys[i] == node);
                }
            }
            assert forall|k: int| 0 <= k < p1.len() - 1 implies #[trigger] self.has_edge(p1[k], p1[k + 1]) by {
                assert(p1[k] == path0[k] && p1[k + 1] == path0[k + 1]);
            }
            assert forall|a: int, b: int| 0 <= a < p1.len() && 0 <= b < p1.len() && a != b implies p1[a] != p1[b] by {
                assert(p1[a] == path0[a] && p1[b] == path0[b]);
            }
            if p1.len() > 0 {
                assert(p1[0] == path0[0]);
            }
        }
    }
}

/// Returns the elementary cycles of a directed graph whose nodes all lie in
/// `scc` (a strongly connected component): each such cycle once, turned to
/// start at one of its nodes. Round by round, the search takes the last
/// remaining node as root, records every path from it that closes back to it
/// without visiting a node twice, and then removes the root.
///
/// The rounds follow D. B. Johnson, "Finding all the elementary circuits of
/// a directed graph", without its blocking of nodes: each round explores
/// every path from its root.
pub fn simple_cycles_in_component(graph: &DependencyGraph, scc: &[NodeId]) -> (cycles: Vec<Vec<NodeId>>)
    requires
        graph.wf(),
        scc@.len() > 0,
    ensures
        cycles_within(*graph, cycles@, scc@),
        forall|c: Seq<NodeId>| #[trigger] is_elementary_cycle(*graph, c) && inside(c, scc@) ==> rotation_listed(cycles@, c),
        forall|k1: int, k2: int|
            #![trigger cycles@[k1], cycles@[k2]]
            0 <= k1 < cycles@.len() && 0 <= k2 < cycles@.len() && k1 != k2 ==> !is_rotation_of(cycles@[k1]@, cycles@[k2]@),
{
    let ghost within = scc@;
    let ghost members = scc@;
    let mut cycles: Vec<Vec<NodeId>> = Vec::new();
    // only look at nodes and edges in this strongly-connected component
    let mut subgraph = DependencyGraph::new();
    let mut a: usize = 0;
    while a < scc.len()
        invariant
            scc@ == members,
            a <= members.len(),
            subgraph.wf(),
            forall|x: NodeId| #[trigger] subgraph.has_node(x) <==> members.take(a as int).contains(x),
            subgraph.edge_pairs() == Set::<(NodeId, NodeId)>::empty(),
        decreases members.len() - a,
    {
        let node = scc[a];
        let ghost ids_b = subgraph.node_ids();
        proof {
            assert forall|x: NodeId| #[trigger] ids_b.contains(x) <==> members.take(a as int).contains(x) by {
                assert(subgraph.has_node(x) <==> members.take(a as int).contains(x));
            }
        }
        subgraph.add_node(node);
        proof {
            assert(members.take(a + 1) =~= members.take(a as int).push(node));
            assert forall|x: NodeId| #[trigger] subgraph.has_node(x) <==> members.take(a + 1).contains(x) by {
                lemma_push_contains(members.take(a as int), node, x);
                lemma_push_contains(ids_b, node, x);
            }
        }
        a = a + 1;
    }
    proof {
        assert(members.take(members.len() as int) =~= members);
    }
    let mut b: usize = 0;
    while b < scc.len()
        invariant
            graph.wf(),
            scc@ == members,
            b <= members.len(),
            subgraph.wf(),
            forall|x: NodeId| #[trigger] subgraph.has_node(x) <==> members.contains(x),
            forall|x: NodeId, y: NodeId| #[trigger] subgraph.has_edge(x, y) ==> graph.has_edge(x, y),
            forall|x: NodeId, y: NodeId|
                #![trigger subgraph.has_edge(x, y)]
                members.take(b as int).contains(x) && members.contains(y) && graph.has_edge(x, y) ==> subgraph.has_edge(x, y),
        decreases members.len() - b,
    {
        let node = scc[b];
        proof {
            assert(members.contains(node));
        }
        let successors = graph.neighbors(node);
        let mut s: usize = 0;
        while s < successors.len()
            invariant
                graph.wf(),
                subgraph.wf(),
                members.contains(node),
                forall|w: NodeId| #[trigger] successors@.contains(w) <==> graph.has_edge(node, w),
                forall|x: NodeId| #[trigger] subgraph.has_node(x) <==> members.contains(x),
                forall|x: NodeId, y: NodeId| #[trigger] subgraph.has_edge(x, y) ==> graph.has_edge(x, y),
                s <= successors@.len(),
                forall|x: NodeId, y: NodeId|
                    #![trigger subgraph.has_edge(x, y)]
                    members.take(b as int).contains(x) && members.contains(y) && graph.has_edge(x, y)
                        ==> subgraph.has_edge(x, y),
                forall|y: NodeId|
                    #![trigger subgraph.has_edge(node, y)]
                    successors@.take(s as int).contains(y) && members.contains(y) ==> subgraph.has_edge(node, y),
            decreases successors@.len() - s,
        {
            let successor = successors[s];
            let ghost sub_b = subgraph;
            if subgraph.contains_node(successor) {
                let ghost ids_b = subgraph.node_ids();
                proof {
                    assert(successors@.contains(successor));
                    assert(subgraph.has_node(node));
                }
                let ghost edges_b = subgraph.edge_pairs();
                proof {
                    assert forall|x: NodeId| #[trigger] ids_b.contains(x) <==> members.contains(x) by {
                        assert(subgraph.has_node(x) <==> members.contains(x));
                    }
                    assert forall|x: NodeId, y: NodeId| #[trigger] edges_b.contains((x, y)) implies graph.has_edge(x, y) by {
                        assert(subgraph.has_edge(x, y));
                    }
                }
                subgraph.add_edge(node, successor);
                proof {
                    assert(subgraph.node_ids() == ids_b);
                    assert forall|x: NodeId| #[trigger] subgraph.has_node(x) <==> members.contains(x) by {
                        assert(subgraph.node_ids().contains(x) <==> ids_b.contains(x));
                        assert(ids_b.contains(x) <==> members.contains(x));
                    }
                    assert forall|x: NodeId, y: NodeId| #[trigger] subgraph.has_edge(x, y) implies graph.has_edge(x, y) by {
                        assert(subgraph.edge_pairs().contains((x, y)));
                        if (x, y) != (node, successor) {
                            assert(edges_b.contains((x, y)));
                        }
                    }
                    assert forall|x: NodeId, y: NodeId| #[trigger] sub_b.has_edge(x, y) implies subgraph.has_edge(x, y) by {
                        assert(edges_b.contains((x, y)));
                        assert(subgraph.edge_pairs().contains((x, y)));
                    }
                    assert(subgraph.has_edge(node, successor));
                }
            }
            proof {
                assert forall|x: NodeId, y: NodeId|
                    #![trigger subgraph.has_edge(x, y)]
                    members.take(b as int).contains(x) && members.contains(y) && graph.has_edge(x, y)
                        implies subgraph.has_edge(x, y) by {
                    assert(sub_b.has_edge(x, y));
                }
                assert forall|y: NodeId|
                    #![trigger subgraph.has_edge(node, y)]
                    successors@.take(s + 1).contains(y) && members.contains(y) implies subgraph.has_edge(node, y) by {
                    let t = successors@.take(s + 1);
                    let i = choose|i: int| 0 <= i < t.len() && t[i] == y;
                    if i < s {
                        assert(successors@.take(s as int)[i] == y);
                        assert(sub_b.has_edge(node, y));
                    } else {
                        assert(y == successor);
                        assert(subgraph.has_node(y));
                    }
                }
            }
            s = s + 1;
        }
        proof {
            assert(successors@.take(successors@.len() as int) =~= successors@);
            assert forall|x: NodeId, y: NodeId|
                #![trigger subgraph.has_edge(x, y)]
                members.take(b + 1).contains(x) && members.contains(y) && graph.has_edge(x, y)
                    implies subgraph.has_edge(x, y) by {
                let t = members.take(b + 1);
                let i = choose|i: int| 0 <= i < t.len() && t[i] == x;
                if i < b {
                    assert(members.take(b as int)[i] == x);
                } else {
                    assert(x == node);
                    assert(successors@.contains(y));
                }
            }
        }
        b = b + 1;
    }
    proof {
        assert(members.take(members.len() as int) =~= members);
        assert forall|c: Seq<NodeId>| #[trigger] is_elementary_cycle(*graph, c) && inside(c, within) implies nodes_in(
            c,
            subgraph,
        ) by {
            assert forall|x: NodeId| #[trigger] c.contains(x) implies subgraph.has_node(x) by {
                assert(within.contains(x));
            }
        }
    }
    while subgraph.node_count() > 0
        invariant
            graph.wf(),
            subgraph.wf(),
            forall|x: NodeId| #[trigger] subgraph.has_node(x) ==> within.contains(x),
            forall|x: NodeId, y: NodeId| #[trigger] subgraph.has_edge(x, y) ==> graph.has_edge(x, y),
            forall|x: NodeId, y: NodeId|
                #![trigger subgraph.has_edge(x, y)]
                subgraph.has_node(x) && subgraph.has_node(y) && graph.has_edge(x, y) ==> subgraph.has_edge(x, y),
            cycles_within(*graph, cycles@, within),
            forall|c: Seq<NodeId>| #[trigger] is_elementary_cycle(*graph, c) && inside(c, within) ==> nodes_in(c, subgraph)
                || rotation_listed(cycles@, c),
            forall|k: int| 0 <= k < cycles@.len() ==> left_behind(#[trigger] cycles@[k]@, subgraph),
            forall|k1: int, k2: int|
                #![trigger cycles@[k1], cycles@[k2]]
                0 <= k1 < cycles@.len() && 0 <= k2 < cycles@.len() && k1 != k2 ==> !is_rotation_of(
                    cycles@[k1]@,
                    cycles@[k2]@,
                ),
        decreases subgraph.node_ids().len(),
    {
        let n = subgraph.node_count();
        let ids = subgraph.nodes();
        let root = ids[n - 1];
        let mut on_path: Vec<bool> = Vec::with_capacity(n);
        let mut z: usize = 0;
        while z < n
            invariant
                z <= n,
                on_path@.len() == z,
                forall|i: int| 0 <= i < z ==> !(#[trigger] on_path@[i]),
            decreases n - z,
        {
            on_path.push(false);
            z = z + 1;
        }
        let ghost cs0 = cycles@;
        let mut j = CycleSearch { path: Vec::with_capacity(n), on_path, cycles };
        // start a path at the root
        proof {
            assert(ids@.contains(root)) by {
                assert(ids@[n - 1] == root);
            }
            assert(subgraph.has_node(root));
        }
        let ri = subgraph.to_index(root);
        j.path.push(root);
        j.on_path.set(ri, true);
        proof {
            let keys = subgraph.node_ids();
            assert(j.path@ =~= seq![root]);
            assert forall|i: int| 0 <= i < keys.len() implies (#[trigger] j.on_path@[i] <==> j.path@.contains(keys[i])) by {
                if i != ri {
                    assert(keys[i] != root) by {
                        assert(keys[ri as int] == root);
                    }
                    assert(!j.path@.contains(keys[i])) by {
                        if j.path@.contains(keys[i]) {
                            assert(j.path@[0] == keys[i]);
                        }
                    }
                } else {
                    assert(j.path@[0] == root);
                }
            }
            assert forall|x: NodeId| #[trigger] j.path@.contains(x) implies subgraph.has_node(x) by {
                assert(j.path@[0] == x);
            }
            assert(sub_of(subgraph, *graph, within));
            assert(j.inv(subgraph, *graph, within, root));
            crate::topsort::lemma_no_dup_within_len(j.path@, keys);
        }
        let ghost room = subgraph.node_ids().len() - 1;
        let ghost sub0 = subgraph;
        subgraph.circuit(&mut j, root, root, Ghost(*graph), Ghost(within), Ghost(room));
        cycles = j.cycles;
        // remove the root from the subgraph
        subgraph.remove_node(root);
        proof {
            assert(subgraph.node_ids().len() < sub0.node_ids().len()) by {
                assert forall|x: NodeId| #[trigger] subgraph.node_ids().contains(x) implies sub0.node_ids().contains(x)
                    && x != root by {
                    assert(subgraph.has_node(x));
                }
                assert(sub0.node_ids().contains(root));
                lemma_fewer_nodes(sub0.node_ids(), subgraph.node_ids(), root);
            }
            assert forall|x: NodeId, y: NodeId|
                #![trigger subgraph.has_edge(x, y)]
                subgraph.has_node(x) && subgraph.has_node(y) && graph.has_edge(x, y) implies subgraph.has_edge(x, y) by {
                assert(sub0.has_edge(x, y));
                assert(subgraph.edge_pairs().contains((x, y)));
            }
            assert forall|x: NodeId, y: NodeId| #[trigger] subgraph.has_edge(x, y) implies graph.has_edge(x, y) by {
                assert(subgraph.edge_pairs().contains((x, y)));
                assert(sub0.edge_pairs().contains((x, y)));
                assert(sub0.has_edge(x, y));
            }
            assert forall|c: Seq<NodeId>| #[trigger] is_elementary_cycle(*graph, c) && inside(c, within) implies nodes_in(
                c,
                subgraph,
            ) || rotation_listed(cycles@, c) by {
                if rotation_listed(cs0, c) {
                    let (k, i) = choose|k: int, i: int|
                        #![trigger cs0[k], rotation(c, i)]
                        0 <= k < cs0.len() && 0 <= i < c.len() && cs0[k]@ == rotation(c, i);
                    assert(cycles@[k] == cs0[k]);
                } else {
                    assert(nodes_in(c, sub0));
                    if c.contains(root) {
                        let i = choose|i: int| 0 <= i < c.len() && c[i] == root;
                        assert forall|x: NodeId, y: NodeId|
                            #![trigger sub0.has_edge(x, y)]
                            c.contains(x) && c.contains(y) && graph.has_edge(x, y) implies sub0.has_edge(x, y) by {
                            assert(sub0.has_node(x) && sub0.has_node(y));
                        }
                        lemma_rotation(*graph, sub0, c, i);
                        let r = rotation(c, i);
                        assert(r.take(1) =~= seq![root]);
                        assert(extends(r, seq![root]));
                        let k = choose|k: int| cs0.len() <= k < cycles@.len() && #[trigger] cycles@[k]@ == r;
                        assert(cycles@[k]@ == rotation(c, i));
                    } else {
                        assert forall|x: NodeId| #[trigger] c.contains(x) implies subgraph.has_node(x) by {
                            assert(sub0.has_node(x));
                        }
                    }
                }
            }
            let start = seq![root];
            assert forall|k: int| cs0.len() <= k < cycles@.len() implies (#[trigger] cycles@[k]@)[0] == root
                && forall|x: NodeId| cycles@[k]@.contains(x) ==> sub0.has_node(x) by {
                let c = cycles@[k]@;
                assert(extends(c, start));
                assert(c.take(1)[0] == root);
                lemma_cycle_nodes(sub0, c);
            }
            assert forall|k: int| 0 <= k < cycles@.len() implies left_behind(#[trigger] cycles@[k]@, subgraph) by {
                if k < cs0.len() {
                    assert(cycles@[k] == cs0[k]);
                    let x = choose|x: NodeId| #[trigger] cs0[k]@.contains(x) && !sub0.has_node(x);
                    assert(!subgraph.has_node(x));
                } else {
                    let c = cycles@[k]@;
                    assert(c[0] == root);
                    assert(c.contains(c[0]));
                    assert(!subgraph.has_node(root));
                }
            }
            assert forall|k1: int, k2: int|
                #![trigger cycles@[k1], cycles@[k2]]
                0 <= k1 < cycles@.len() && 0 <= k2 < cycles@.len() && k1 != k2 implies !is_rotation_of(
                    cycles@[k1]@,
                    cycles@[k2]@,
                ) by {
                let a = cycles@[k1]@;
                let b = cycles@[k2]@;
                if k1 < cs0.len() && k2 < cs0.len() {
                    assert(cycles@[k1] == cs0[k1] && cycles@[k2] == cs0[k2]);
                } else if is_rotation_of(a, b) {
                    let i = choose|i: int| 0 <= i < b.len() && a == #[trigger] rotation(b, i);
                    lemma_rotation_contains(b, i);
                    if k1 >= cs0.len() && k2 >= cs0.len() {
                        assert(b[0] == root && a[0] == root);
                        assert(b.no_duplicates());
                        assert(i == 0);
                        assert(rotation(b, 0) =~= b);
                        if k1 < k2 {
                            assert(a != b);
                        } else {
                            assert(b != a);
                        }
                    } else if k1 < cs0.len() {
                        assert(cycles@[k1] == cs0[k1]);
                        let x = choose|x: NodeId| #[trigger] cs0[k1]@.contains(x) && !sub0.has_node(x);
                        assert(a.contains(x));
                        assert(b.contains(x));
                    } else {
                        assert(cycles@[k2] == cs0[k2]);
                        let x = choose|x: NodeId| #[trigger] cs0[k2]@.contains(x) && !sub0.has_node(x);
                        assert(b.contains(x));
                        assert(rotation(b, i).contains(x));
                    }
                }
            }
        }
    }
    proof {
        assert forall|c: Seq<NodeId>| #[trigger] is_elementary_cycle(*graph, c) && inside(c, within) implies rotation_listed(
            cycles@,
            c,
        ) by {
            assert(c.contains(c[0]));
            assert(!subgraph.has_node(c[0]));
        }
    }
    cycles
}

/// All nodes of `c` are nodes of `g`.
spec fn nodes_in(c: Seq<NodeId>, g: DependencyGraph) -> bool {
    forall|x: NodeId| #[trigger] c.contains(x) ==> g.has_node(x)
}

/// Removing a node that was there leaves fewer nodes.
proof fn lemma_fewer_nodes(before: Seq<NodeId>, after: Seq<NodeId>, root: NodeId)
    requires
        before.contains(root),
        before.no_duplicates(),
        after.no_duplicates(),
        forall|x: NodeId| #[trigger] after.contains(x) ==> before.contains(x) && x != root,
    ensures
        after.len() < before.len(),
{
    let t = after.push(root);
    lemma_no_dup_push(after, root);
    assert forall|x: NodeId| #[trigger] t.contains(x) implies before.contains(x) by {
        lemma_push_contains(after, root, x);
    }
    lemma_no_dup_within_len(t, before);
}

/// The current path closes a cycle back to `root` when its last node has an
/// edge to `root`.
proof fn lemma_path_cycle(sub: DependencyGraph, g: DependencyGraph, within: Seq<NodeId>, path: Seq<NodeId>, root: NodeId)
    requires
        sub_of(sub, g, within),
        path.len() > 0,
        path[0] == root,
        path.no_duplicates(),
        forall|x: NodeId| #[trigger] path.contains(x) ==> sub.has_node(x),
        forall|k: int| 0 <= k < path.len() - 1 ==> #[trigger] sub.has_edge(path[k], path[k + 1]),
        sub.has_edge(path.last(), root),
    ensures
        is_elementary_cycle(g, path),
        is_elementary_cycle(sub, path),
        forall|x: NodeId| path.contains(x) ==> within.contains(x),
{
    assert forall|k: int| 0 <= k < path.len() - 1 implies #[trigger] g.has_edge(path[k], path[k + 1]) by {
        assert(sub.has_edge(path[k], path[k + 1]));
    }
    assert forall|x: NodeId| path.contains(x) implies within.contains(x) by {
        assert(sub.has_node(x));
    }
}

} // verus!
