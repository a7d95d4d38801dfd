//! Strongly connected components of the dependency graph (Tarjan's
//! algorithm).
use vstd::prelude::*;

use crate::graph::{DependencyGraph, NodeId, lemma_push_contains, lemma_no_dup_push};
use crate::topsort::lemma_no_dup_within_len;

verus! {

/// The positions `0..n`.
pub open spec fn positions(n: nat) -> Seq<usize> {
    Seq::new(n, |i: int| i as usize)
}

/// The state of Tarjan's search over node positions `0..n`.
struct Tarjan {
    /// Visit number of each visited node.
    index: Vec<usize>,
    /// Smallest visit number reachable through the node's search subtree.
    lowlink: Vec<usize>,
    /// Whether each node has been visited.
    visited: Vec<bool>,
    /// Whether each node is on the stack.
    on_stack: Vec<bool>,
    /// Visited nodes not yet assigned to a component.
    stack: Vec<usize>,
    /// The next visit number.
    next: usize,
    /// Components found so far, as node ids.
    sccs: Vec<Vec<NodeId>>,
    /// Visited nodes in visiting order.
    vorder: Ghost<Seq<usize>>,
    /// Nodes assigned to a component, in order.
    emitted: Ghost<Seq<usize>>,
}

/// The node ids of a sequence of components, one after the other.
pub open spec fn flat_ids(sccs: Seq<Vec<NodeId>>) -> Seq<NodeId>
    decreases sccs.len(),
{
    if sccs.len() == 0 {
        Seq::empty()
    } else {
        flat_ids(sccs.drop_last()) + sccs.last()@
    }
}

impl Tarjan {
    spec fn inv(&self, keys: Seq<NodeId>) -> bool {
        let n = keys.len();
        &&& self.index@.len() == n
        &&& self.lowlink@.len() == n
        &&& self.visited@.len() == n
        &&& self.on_stack@.len() == n
        &&& self.vorder@.no_duplicates()
        &&& forall|k: int| 0 <= k < self.vorder@.len() ==> #[trigger] self.vorder@[k] < n
        &&& forall|i: usize| i < n ==> (#[trigger] self.visited@[i as int] <==> self.vorder@.contains(i))
        &&& self.next == self.vorder@.len()
        &&& self.stack@.no_duplicates()
        &&& forall|i: usize| i < n ==> (#[trigger] self.on_stack@[i as int] <==> self.stack@.contains(i))
        &&& forall|x: usize| #[trigger] self.stack@.contains(x) ==> self.vorder@.contains(x)
        &&& self.emitted@.no_duplicates()
        &&& forall|x: usize| #[trigger] self.emitted@.contains(x) ==> self.vorder@.contains(x) && !self.stack@.contains(x)
        &&& forall|x: usize| #[trigger] self.vorder@.contains(x) ==> self.stack@.contains(x) || self.emitted@.contains(x)
        &&& forall|i: int| 0 <= i < n && #[trigger] self.visited@[i] ==> self.index@[i] < self.next && self.lowlink@[i]
            <= self.index@[i]
        &&& flat_ids(self.sccs@) == self.emitted@.map_values(|i: usize| keys[i as int])
        &&& forall|k: int| 0 <= k < self.sccs@.len() ==> (#[trigger] self.sccs@[k])@.len() > 0
    }
}

/// A visited-node sequence without duplicates, over positions below `n`, has
/// room for an unvisited position.
proof fn lemma_room(vorder: Seq<usize>, n: nat, v: usize)
    requires
        n <= usize::MAX,
        vorder.no_duplicates(),
        forall|k: int| 0 <= k < vorder.len() ==> #[trigger] vorder[k] < n,
        v < n,
        !vorder.contains(v),
    ensures
        vorder.len() < n,
{
    let s = vorder.push(v);
    let keys = positions(n);
    lemma_no_dup_push(vorder, v);
    assert forall|x: usize| #[trigger] s.contains(x) implies keys.contains(x) by {
        let k = choose|k: int| 0 <= k < s.len() && s[k] == x;
        if k < vorder.len() {
            assert(vorder[k] == x);
        }
        assert(x < n);
        assert(keys[x as int] == x);
    }
    assert forall|a: int, b: int| 0 <= a < keys.len() && 0 <= b < keys.len() && a != b implies keys[a] != keys[b] by {
        assert(keys[a] == a as usize);
        assert(keys[b] == b as usize);
    }
    lemma_no_dup_within_len(s, keys);
}

impl DependencyGraph {
    /// There is a walk along edges from `a` to `b`.
    pub open spec fn reaches(&self, a: NodeId, b: NodeId) -> bool {
        exists|p: Seq<NodeId>| #[trigger] self.is_path(p) && p[0] == a && p.last() == b
    }

    /// Every two nodes of a component reach each other.
    pub open spec fn components_connected(&self, sccs: Seq<Vec<NodeId>>) -> bool {
        forall|k: int, x: NodeId, y: NodeId|
            #![trigger sccs[k]@.contains(x), sccs[k]@.contains(y)]
            0 <= k < sccs.len() && sccs[k]@.contains(x) && sccs[k]@.contains(y) ==> self.reaches(x, y)
    }

    /// The node at position `x` reaches a node on the stack whose visit
    /// number is the lowlink of `x`.
    spec fn anchored(&self, keys: Seq<NodeId>, st: Seq<usize>, index: Seq<usize>, lowlink: Seq<usize>, x: usize) -> bool {
        exists|w: usize| #[trigger] st.contains(w) && index[w as int] == lowlink[x as int] && self.reaches(keys[x as int], keys[w as int])
    }

    /// Every edge that leaves a component leads to a node of a component, and
    /// never to a later one.
    pub open spec fn components_ordered(&self, sccs: Seq<Vec<NodeId>>) -> bool {
        &&& forall|k: int, x: NodeId, y: NodeId|
            #![trigger sccs[k]@.contains(x), self.has_edge(x, y)]
            0 <= k < sccs.len() && sccs[k]@.contains(x) && self.has_edge(x, y) ==> flat_ids(sccs).contains(y)
        &&& forall|k1: int, k2: int, x: NodeId, y: NodeId|
            #![trigger sccs[k1]@.contains(x), sccs[k2]@.contains(y), self.has_edge(x, y)]
            0 <= k1 < sccs.len() && 0 <= k2 < sccs.len() && sccs[k1]@.contains(x) && sccs[k2]@.contains(y)
                && self.has_edge(x, y) ==> k2 <= k1
    }

    /// Every successor of the node at position `u` has been visited, and the
    /// lowlink of `u` is at most the visit number of each that is on the stack.
    spec fn settled(&self, t: Tarjan, keys: Seq<NodeId>, u: usize) -> bool {
        forall|z: usize|
            z < keys.len() && #[trigger] self.has_edge(keys[u as int], keys[z as int]) ==> t.visited@[z as int] && (
            t.stack@.contains(z) ==> t.lowlink@[u as int] <= t.index@[z as int])
    }

    /// Tarjan's search from the unvisited node at position `v`. When every
    /// node on the stack has a visit number of at least `base`, so has every
    /// node on the stack afterwards, and so has the lowlink of `v`; when
    /// `base` is the visit number that `v` gets, the search takes off the
    /// stack all that it put there.
    fn strongconnect(
        &self,
        ids: &Vec<NodeId>,
        t: &mut Tarjan,
        v: usize,
        Ghost(room): Ghost<int>,
        Ghost(base): Ghost<int>,
    )
        requires
            self.wf(),
            ids@ == self.node_ids(),
            old(t).inv(ids@),
            v < ids@.len(),
            !old(t).visited@[v as int],
            room == ids@.len() - old(t).vorder@.len(),
            base <= old(t).next,
            forall|x: usize| #[trigger] old(t).stack@.contains(x) ==> old(t).index@[x as int] >= base,
            self.components_ordered(old(t).sccs@),
            self.components_connected(old(t).sccs@),
        ensures
            self.components_ordered(final(t).sccs@),
            self.components_connected(final(t).sccs@),
            final(t).index@[v as int] == old(t).next,
            forall|x: usize|
                #![trigger final(t).visited@[x as int]]
                x < ids@.len() && final(t).visited@[x as int] && !old(t).visited@[x as int] ==> self.reaches(
                    ids@[v as int],
                    ids@[x as int],
                ),
            forall|x: usize|
                #![trigger final(t).stack@.contains(x)]
                final(t).stack@.contains(x) && !old(t).stack@.contains(x) ==> final(t).lowlink@[x as int]
                    < final(t).index@[x as int] && self.anchored(
                    ids@,
                    final(t).stack@,
                    final(t).index@,
                    final(t).lowlink@,
                    x,
                ),
            !final(t).stack@.contains(v) ==> final(t).lowlink@[v as int] == final(t).index@[v as int],
            forall|x: usize|
                #![trigger final(t).stack@.contains(x)]
                final(t).stack@.contains(x) && old(t).visited@[x as int] ==> old(t).stack@.contains(x),
            forall|x: usize|
                #![trigger final(t).stack@.contains(x)]
                final(t).stack@.contains(x) && !old(t).stack@.contains(x) ==> self.settled(*final(t), ids@, x)
                    && final(t).lowlink@[v as int] <= final(t).lowlink@[x as int],
            final(t).inv(ids@),
            final(t).visited@[v as int],
            forall|i: int| 0 <= i < ids@.len() && old(t).visited@[i] ==> #[trigger] final(t).visited@[i],
            final(t).stack@.len() >= old(t).stack@.len(),
            final(t).stack@.take(old(t).stack@.len() as int) == old(t).stack@,
            forall|i: int|
                #![trigger final(t).index@[i]]
                #![trigger final(t).lowlink@[i]]
                0 <= i < ids@.len() && old(t).visited@[i] ==> final(t).index@[i] == old(t).index@[i]
                    && final(t).lowlink@[i] == old(t).lowlink@[i],
            final(t).lowlink@[v as int] >= base,
            forall|x: usize| #[trigger] final(t).stack@.contains(x) ==> old(t).stack@.contains(x)
                || final(t).index@[x as int] >= old(t).next,
            forall|x: usize| #[trigger] final(t).stack@.contains(x) ==> final(t).index@[x as int] >= base,
            base == old(t).next ==> final(t).stack@ == old(t).stack@,
        decreases room,
    {
        let ids_len = ids.len();
        let ghost keys = ids@;
        let ghost n = keys.len();
        let ghost s0 = t.stack@;
        proof {
            lemma_room(t.vorder@, n, v);
            assert(!t.vorder@.contains(v));
            assert(!t.stack@.contains(v)) by {
                if t.stack@.contains(v) {
                    assert(t.vorder@.contains(v));
                }
            }
            assert(!t.emitted@.contains(v)) by {
                if t.emitted@.contains(v) {
                    assert(t.vorder@.contains(v));
                }
            }
        }
        let idx = t.next;
        t.index.set(v, idx);
        t.lowlink.set(v, idx);
        t.next = t.next + 1;
        t.visited.set(v, true);
        t.on_stack.set(v, true);
        t.stack.push(v);
        proof {
            lemma_no_dup_push(t.vorder@, v);
            lemma_no_dup_push(s0, v);
            t.vorder@ = t.vorder@.push(v);
            assert forall|i: usize| i < n implies (#[trigger] t.visited@[i as int] <==> t.vorder@.contains(i)) by {
                lemma_push_contains(old(t).vorder@, v, i);
            }
            assert forall|i: usize| i < n implies (#[trigger] t.on_stack@[i as int] <==> t.stack@.contains(i)) by {
                lemma_push_contains(s0, v, i);
            }
            assert forall|x: usize| #[trigger] t.stack@.contains(x) implies t.vorder@.contains(x) by {
                lemma_push_contains(s0, v, x);
                lemma_push_contains(old(t).vorder@, v, x);
            }
            assert forall|x: usize| #[trigger] t.emitted@.contains(x) implies t.vorder@.contains(x) && !t.stack@.contains(x) by {
                lemma_push_contains(s0, v, x);
                lemma_push_contains(old(t).vorder@, v, x);
            }
            assert forall|x: usize| #[trigger] t.vorder@.contains(x) implies t.stack@.contains(x) || t.emitted@.contains(x) by {
                lemma_push_contains(s0, v, x);
                lemma_push_contains(old(t).vorder@, v, x);
            }
            assert forall|x: usize| #[trigger] t.stack@.contains(x) implies old(t).stack@.contains(x) || t.index@[x as int] >= idx by {
                lemma_push_contains(s0, v, x);
            }
            assert forall|x: usize| #[trigger] t.stack@.contains(x) implies t.index@[x as int] >= base by {
                lemma_push_contains(s0, v, x);
            }
            assert forall|k: int| 0 <= k < t.vorder@.len() implies #[trigger] t.vorder@[k] < n by {
                if k < old(t).vorder@.len() {
                    assert(t.vorder@[k] == old(t).vorder@[k]);
                }
            }
            assert(t.inv(keys));
            assert(t.stack@.take(s0.len() as int) =~= s0);
            lemma_reaches_self(*self, keys[v as int]);
            assert(t.stack@.contains(v)) by {
                assert(t.stack@[s0.len() as int] == v);
            }
            assert(self.anchored(keys, t.stack@, t.index@, t.lowlink@, v));
            assert forall|x: usize|
                #![trigger t.stack@.contains(x)]
                t.stack@.contains(x) && !s0.contains(x) implies self.anchored(keys, t.stack@, t.index@, t.lowlink@, x) by {
                lemma_push_contains(s0, v, x);
            }
        }
        let succs = self.neighbors(ids[v]);
        let len = succs.len();
        let mut k: usize = 0;
        while k < len
            invariant
                self.wf(),
                ids@ == self.node_ids(),
                keys == ids@,
                n == keys.len(),
                n <= usize::MAX,
                old(t).visited@.len() == n,
                v < n,
                t.inv(keys),
                t.visited@[v as int],
                forall|i: int| 0 <= i < n && old(t).visited@[i] ==> #[trigger] t.visited@[i],
                t.stack@.len() > s0.len(),
                t.stack@.take(s0.len() as int + 1) == s0.push(v),
                len == succs@.len(),
                forall|w: NodeId| #[trigger] succs@.contains(w) ==> self.has_node(w),
                forall|w: NodeId| #[trigger] succs@.contains(w) <==> self.has_edge(keys[v as int], w),
                k <= len,
                self.components_ordered(t.sccs@),
                self.components_connected(t.sccs@),
                forall|x: usize|
                    #![trigger t.visited@[x as int]]
                    x < n && t.visited@[x as int] && !old(t).visited@[x as int] ==> self.reaches(
                        keys[v as int],
                        keys[x as int],
                    ),
                forall|x: usize|
                    #![trigger t.stack@.contains(x)]
                    t.stack@.contains(x) && !s0.contains(x) && x != v ==> t.lowlink@[x as int] < t.index@[x as int],
                forall|x: usize|
                    #![trigger t.stack@.contains(x)]
                    t.stack@.contains(x) && !s0.contains(x) ==> self.anchored(keys, t.stack@, t.index@, t.lowlink@, x),
                forall|x: usize| #[trigger] s0.contains(x) ==> old(t).visited@[x as int],
                forall|x: usize|
                    #![trigger t.stack@.contains(x)]
                    t.stack@.contains(x) && old(t).visited@[x as int] ==> s0.contains(x),
                forall|x: usize|
                    #![trigger t.stack@.contains(x)]
                    t.stack@.contains(x) && !s0.contains(x) && x != v ==> self.settled(*t, keys, x)
                        && t.lowlink@[v as int] <= t.lowlink@[x as int],
                forall|z: usize|
                    #![trigger self.has_edge(keys[v as int], keys[z as int])]
                    z < n && self.has_edge(keys[v as int], keys[z as int]) && succs@.take(k as int).contains(keys[z as int])
                        ==> t.visited@[z as int] && (t.stack@.contains(z) ==> t.lowlink@[v as int] <= t.index@[z as int]),
                t.vorder@.len() >= old(t).vorder@.len() + 1,
                room == n - old(t).vorder@.len(),
                idx == old(t).next,
                old(t).next == old(t).vorder@.len(),
                !old(t).visited@[v as int],
                base <= idx,
                t.index@[v as int] == idx,
                base <= t.lowlink@[v as int] <= idx,
                forall|i: int|
                    #![trigger t.index@[i]]
                    #![trigger t.lowlink@[i]]
                    0 <= i < n && old(t).visited@[i] ==> t.index@[i] == old(t).index@[i] && t.lowlink@[i]
                        == old(t).lowlink@[i],
                forall|x: usize| #[trigger] t.stack@.contains(x) ==> old(t).stack@.contains(x) || t.index@[x as int] >= idx,
                forall|x: usize| #[trigger] t.stack@.contains(x) ==> t.index@[x as int] >= base,
            decreases len - k,
        {
            let w = succs[k];
            proof {
                assert(succs@.contains(w));
            }
            let wi = self.to_index(w);
            if !t.visited[wi] {
                proof {
                    lemma_room(t.vorder@, n, wi);
                }
                let ghost room1 = n - t.vorder@.len();
                let ghost stack_before = t.stack@;
                let ghost vorder_before = t.vorder@;
                let ghost visited_before = t.visited@;
                let ghost index_before = t.index@;
                let ghost lowlink_before = t.lowlink@;
                let ghost next_before = t.next;
                assert(next_before >= idx);
                self.strongconnect(ids, t, wi, Ghost(room1), Ghost(base));
                proof {
                    assert(visited_before[v as int]);
                    assert forall|x: usize| #[trigger] t.stack@.contains(x) implies old(t).stack@.contains(x) || t.index@[x as int] >= idx by {
                        if stack_before.contains(x) {
                            assert(vorder_before.contains(x));
                            let j = choose|j: int| 0 <= j < vorder_before.len() && vorder_before[j] == x;
                            assert(x < n);
                            assert(visited_before[x as int]);
                            assert(t.index@[x as int] == index_before[x as int]);
                        }
                    }
                    assert forall|i: int|
                        #![trigger t.index@[i]]
                        #![trigger t.lowlink@[i]]
                        0 <= i < n && old(t).visited@[i] implies t.index@[i] == old(t).index@[i] && t.lowlink@[i]
                            == old(t).lowlink@[i] by {
                        assert(visited_before[i]);
                    }
                    assert(t.stack@.take(s0.len() as int + 1) =~= stack_before.take(s0.len() as int + 1));
                    assert forall|i: int| 0 <= i < n && old(t).visited@[i] implies #[trigger] t.visited@[i] by {
                        assert(visited_before[i]);
                    }
                    assert(t.vorder@.len() >= vorder_before.len()) by {
                        lemma_visited_count(visited_before, t.visited@, vorder_before, t.vorder@, n);
                    }
                }
                let ghost stack_c = t.stack@;
                let ghost index_c = t.index@;
                let ghost lowlink_c = t.lowlink@;
                if t.lowlink[wi] < t.lowlink[v] {
                    let l = t.lowlink[wi];
                    t.lowlink.set(v, l);
                }
                proof {
                    assert(!visited_before[wi as int]);
                    assert(stack_before.contains(v)) by {
                        assert(stack_before.take(s0.len() as int + 1)[s0.len() as int] == v);
                    }
                    assert(!s0.contains(v));
                    assert(self.has_edge(keys[v as int], keys[wi as int]));
                    assert(t.stack@.take(stack_before.len() as int) == stack_before);
                    assert forall|x: usize| #[trigger] stack_before.contains(x) implies x < n && visited_before[x as int] by {
                        assert(vorder_before.contains(x));
                        let j = choose|j: int| 0 <= j < vorder_before.len() && vorder_before[j] == x;
                    }
                    assert forall|x: usize| #[trigger] stack_c.contains(x) implies x < n by {
                        assert(t.vorder@.contains(x));
                        let j = choose|j: int| 0 <= j < t.vorder@.len() && t.vorder@[j] == x;
                    }
                    lemma_child_step(
                        *self,
                        keys,
                        v,
                        wi,
                        idx as int,
                        s0,
                        old(t).visited@,
                        stack_before,
                        index_before,
                        lowlink_before,
                        visited_before,
                        stack_c,
                        index_c,
                        lowlink_c,
                        t.visited@,
                        t.lowlink@,
                    );
                }
            } else if t.on_stack[wi] {
                let ghost lowlink_b = t.lowlink@;
                if t.index[wi] < t.lowlink[v] {
                    let l = t.index[wi];
                    t.lowlink.set(v, l);
                }
                proof {
                    assert(t.stack@.contains(wi));
                    lemma_reaches_edge(*self, keys[v as int], keys[wi as int]);
                    assert forall|x: usize|
                        #![trigger t.stack@.contains(x)]
                        t.stack@.contains(x) && !s0.contains(x) implies self.anchored(
                            keys,
                            t.stack@,
                            t.index@,
                            t.lowlink@,
                            x,
                        ) by {
                        if x == v && t.lowlink@[v as int] != lowlink_b[v as int] {
                            assert(t.index@[wi as int] == t.lowlink@[v as int]);
                        } else {
                            assert(self.anchored(keys, t.stack@, t.index@, lowlink_b, x));
                            let w = choose|w: usize|
                                #[trigger] t.stack@.contains(w) && t.index@[w as int] == lowlink_b[x as int]
                                    && self.reaches(keys[x as int], keys[w as int]);
                            assert(t.lowlink@[x as int] == lowlink_b[x as int]);
                        }
                    }
                }
            }
            k = k + 1;
        }
        proof {
            assert(succs@.take(len as int) =~= succs@);
            assert forall|z: usize| z < n && #[trigger] self.has_edge(keys[v as int], keys[z as int]) implies ({
                let zi = z as int;
                t.visited@[zi] && (t.stack@.contains(z) ==> t.lowlink@[v as int] <= t.index@[zi])
            }) by {
                assert(succs@.contains(keys[z as int]));
            }
            assert(self.settled(*t, keys, v));
        }
        if t.lowlink[v] == t.index[v] {
            let mut scc: Vec<NodeId> = Vec::new();
            let ghost ix0 = t.index@;
            let ghost ll0 = t.lowlink@;
            let ghost e0 = t.emitted@;
            let ghost sccs0 = t.sccs@;
            let ghost st_full = t.stack@;
            let ghost vis_p = t.visited@;
            let ghost mut popped: Seq<usize> = Seq::empty();
            proof {
                assert forall|x: usize| #[trigger] s0.contains(x) implies t.index@[x as int] < idx by {
                    assert(old(t).visited@[x as int]);
                    assert(t.index@[x as int] == old(t).index@[x as int]);
                    assert(old(t).index@[x as int] < old(t).next);
                }
                assert forall|x: usize|
                    #![trigger st_full.contains(x)]
                    st_full.contains(x) && !s0.contains(x) && x != v implies t.lowlink@[x as int] < t.index@[x as int]
                        && t.lowlink@[v as int] <= t.lowlink@[x as int] by {
                    assert(self.settled(*t, keys, x));
                }
                assert forall|x: usize|
                    #![trigger st_full.contains(x)]
                    st_full.contains(x) && !s0.contains(x) implies ({
                        let xi = x as int;
                        t.index@[xi] >= idx
                    }) by {
                    assert(old(t).stack@.contains(x) || t.index@[x as int] >= idx);
                }
                // every two nodes that this search left on the stack reach each other
                assert forall|x: usize, y: usize|
                    st_full.contains(x) && !s0.contains(x) && #[trigger] st_full.contains(y) && !s0.contains(y) implies
                    #[trigger] self.reaches(keys[x as int], keys[y as int]) by {
                    lemma_reaches_root(*self, keys, st_full, s0, t.index@, t.lowlink@, v, idx as int, x);
                    assert(!old(t).visited@[y as int]);
                    assert(t.vorder@.contains(y));
                    assert(y < n);
                    assert(t.visited@[y as int]);
                    lemma_reaches_trans(*self, keys[x as int], keys[v as int], keys[y as int]);
                }
                assert forall|q: int| 0 <= q < e0.len() implies #[trigger] e0[q] < n by {
                    assert(e0.contains(e0[q]));
                    assert(t.vorder@.contains(e0[q]));
                }
                assert forall|x: usize| #[trigger] st_full.contains(x) implies x < n by {
                    assert(t.vorder@.contains(x));
                }
                // every successor of a node that this search left on the
                // stack is already in a component, or on the stack above `v`
                assert forall|u: usize, z: usize|
                    st_full.contains(u) && !s0.contains(u) && z < n && #[trigger] self.has_edge(
                        keys[u as int],
                        keys[z as int],
                    ) implies e0.contains(z) || (st_full.contains(z) && !s0.contains(z)) by {
                    assert(self.settled(*t, keys, u));
                    assert(t.visited@[z as int]);
                    assert(t.vorder@.contains(z));
                    if st_full.contains(z) && s0.contains(z) {
                        assert(old(t).visited@[z as int]);
                        assert(t.index@[z as int] == old(t).index@[z as int]);
                        assert(old(t).index@[z as int] < old(t).next);
                        assert(t.lowlink@[u as int] <= t.index@[z as int]);
                        if u != v {
                            assert(t.lowlink@[v as int] <= t.lowlink@[u as int]);
                        }
                    }
                }
            }
            loop
                invariant_except_break
                    t.stack@.len() > s0.len(),
                    t.stack@.take(s0.len() as int + 1) == s0.push(v),
                invariant
                    ids@ == keys,
                    n == keys.len(),
                    old(t).visited@.len() == n,
                    v < n,
                    t.visited@[v as int],
                    forall|i: int| 0 <= i < n && old(t).visited@[i] ==> #[trigger] t.visited@[i],
                    t.index@.len() == n && t.lowlink@.len() == n && t.visited@.len() == n && t.on_stack@.len() == n,
                    t.vorder@.no_duplicates(),
                    forall|k: int| 0 <= k < t.vorder@.len() ==> #[trigger] t.vorder@[k] < n,
                    forall|i: usize| i < n ==> (#[trigger] t.visited@[i as int] <==> t.vorder@.contains(i)),
                    t.next == t.vorder@.len(),
                    t.stack@.no_duplicates(),
                    forall|i: usize| i < n ==> (#[trigger] t.on_stack@[i as int] <==> t.stack@.contains(i)),
                    forall|x: usize| #[trigger] t.stack@.contains(x) ==> t.vorder@.contains(x),
                    t.emitted@ == e0 + popped,
                    t.emitted@.no_duplicates(),
                    forall|x: usize| #[trigger] t.emitted@.contains(x) ==> t.vorder@.contains(x) && !t.stack@.contains(x),
                    t.sccs@ == sccs0,
                    flat_ids(sccs0) == e0.map_values(|i: usize| keys[i as int]),
                    forall|k: int| 0 <= k < sccs0.len() ==> (#[trigger] sccs0[k])@.len() > 0,
                    scc@ == popped.map_values(|i: usize| keys[i as int]),
                    forall|x: usize|
                        #![trigger popped.contains(x)]
                        #![trigger st_full.contains(x)]
                        (popped.contains(x) || (t.stack@.contains(x) && !s0.contains(x))) <==> (st_full.contains(x)
                            && !s0.contains(x)),
                    t.stack@.len() >= s0.len(),
                    t.stack@.take(s0.len() as int) == s0,
                    t.index@ == ix0,
                    t.lowlink@ == ll0,
                    t.visited@ == vis_p,
                    self.components_connected(sccs0),
                    forall|i: int| 0 <= i < n && #[trigger] t.visited@[i] ==> t.index@[i] < t.next && t.lowlink@[i]
                        <= t.index@[i],
                    forall|x: usize| #[trigger] t.vorder@.contains(x) ==> t.stack@.contains(x) || t.emitted@.contains(x),
                    forall|x: usize| #[trigger] t.stack@.contains(x) ==> old(t).stack@.contains(x) || t.index@[x as int] >= idx,
                    forall|x: usize| #[trigger] t.stack@.contains(x) ==> t.index@[x as int] >= base,
                ensures
                    t.stack@ == s0,
                    scc@.len() > 0,
                decreases t.stack@.len(),
            {
                let ghost st = t.stack@;
                proof {
                    assert(st.take(s0.len() as int + 1)[s0.len() as int] == st[s0.len() as int]);
                    assert(s0.push(v)[s0.len() as int] == v);
                }
                let w = t.stack.pop().unwrap();
                proof {
                    assert(w == st.last());
                    assert(st.contains(w));
                    assert(!s0.contains(w)) by {
                        if s0.contains(w) {
                            let j = choose|j: int| 0 <= j < s0.len() && s0[j] == w;
                            assert(st.take(s0.len() as int)[j] == s0[j]);
                            assert(st[j] == st[st.len() - 1]);
                        }
                    }
                    assert(w < n) by {
                        assert(t.vorder@.contains(w));
                        let j = choose|j: int| 0 <= j < t.vorder@.len() && t.vorder@[j] == w;
                    }
                }
                t.on_stack.set(w, false);
                scc.push(ids[w]);
                proof {
                    let em_old = t.emitted@;
                    assert(!em_old.contains(w));
                    lemma_no_dup_push(em_old, w);
                    let st2 = t.stack@;
                    assert(st2 =~= st.drop_last());
                    assert(!st2.contains(w)) by {
                        if st2.contains(w) {
                            let j = choose|j: int| 0 <= j < st2.len() && st2[j] == w;
                            assert(st[j] == st[st.len() - 1]);
                        }
                    }
                    assert forall|x: usize| #[trigger] st2.contains(x) implies st.contains(x) by {
                        let j = choose|j: int| 0 <= j < st2.len() && st2[j] == x;
                        assert(st[j] == x);
                    }
                    assert forall|x: usize| #[trigger] st.contains(x) && x != w implies st2.contains(x) by {
                        let j = choose|j: int| 0 <= j < st.len() && st[j] == x;
                        assert(st[st.len() - 1] == w);
                        assert(j != st.len() - 1);
                        assert(st2[j] == x);
                    }
                    let popped_before = popped;
                    popped = popped.push(w);
                    assert forall|x: usize|
                        #![trigger popped.contains(x)]
                        #![trigger st_full.contains(x)]
                        (popped.contains(x) || (st2.contains(x) && !s0.contains(x))) <==> (st_full.contains(x)
                            && !s0.contains(x)) by {
                        lemma_push_contains(popped_before, w, x);
                        if st.contains(x) && x != w {
                            assert(st2.contains(x));
                        }
                    }
                    t.emitted@ = t.emitted@.push(w);
                    assert(t.emitted@ =~= e0 + popped);
                    assert forall|x: usize| #[trigger] t.vorder@.contains(x) implies t.stack@.contains(x) || t.emitted@.contains(x) by {
                        lemma_push_contains(em_old, w, x);
                        if x != w && st.contains(x) {
                            assert(st2.contains(x));
                        }
                    }
                    assert forall|i: usize| i < n implies (#[trigger] t.on_stack@[i as int] <==> t.stack@.contains(i)) by {
                        if i != w {
                            assert(st.contains(i) <==> st2.contains(i)) by {
                                if st.contains(i) {
                                    let j = choose|j: int| 0 <= j < st.len() && st[j] == i;
                                    assert(st[st.len() - 1] == w);
                                    assert(j != st.len() - 1);
                                    assert(st2[j] == i);
                                }
                            }
                        }
                    }
                    assert forall|x: usize| #[trigger] t.emitted@.contains(x) implies t.vorder@.contains(x) && !t.stack@.contains(x) by {
                        lemma_push_contains(em_old, w, x);
                        if x != w {
                            assert(em_old.contains(x));
                            assert(!st.contains(x));
                        }
                    }
                    assert(scc@ =~= popped.map_values(|i: usize| keys[i as int]));
                    assert(st2.no_duplicates());
                    if st.len() - 1 > s0.len() {
                        assert(st[s0.len() as int] == v);
                        assert(w != v);
                        assert(st2.take(s0.len() as int + 1) =~= st.take(s0.len() as int + 1));
                    } else {
                        assert(st.len() - 1 == s0.len());
                        assert(st[s0.len() as int] == v);
                        assert(w == v);
                        assert(st2 =~= s0);
                    }
                    assert(st2.take(s0.len() as int) =~= st.take(s0.len() as int));
                }
                if w == v {
                    break;
                }
            }
            proof {
                assert(flat_ids(sccs0.push(scc)) =~= flat_ids(sccs0) + scc@) by {
                    assert(sccs0.push(scc).drop_last() =~= sccs0);
                }
                assert(e0.map_values(|i: usize| keys[i as int]) + popped.map_values(|i: usize| keys[i as int])
                    =~= (e0 + popped).map_values(|i: usize| keys[i as int]));
            }
            t.sccs.push(scc);
            proof {
                assert forall|k: int| 0 <= k < t.sccs@.len() implies (#[trigger] t.sccs@[k])@.len() > 0 by {
                    if k < sccs0.len() {
                        assert(t.sccs@[k] == sccs0[k]);
                    }
                }
                assert(t.stack@.take(s0.len() as int) =~= s0);
                assert(t.stack@ == s0);
                lemma_new_component_ordered(*self, keys, sccs0, scc, e0, popped, st_full, s0);
                let sc = t.sccs@;
                assert forall|kk: int, x: NodeId, y: NodeId|
                    #![trigger sc[kk]@.contains(x), sc[kk]@.contains(y)]
                    0 <= kk < sc.len() && sc[kk]@.contains(x) && sc[kk]@.contains(y) implies self.reaches(x, y) by {
                    if kk < sccs0.len() {
                        assert(sc[kk] == sccs0[kk]);
                    } else {
                        assert(sc[kk] == scc);
                        let a = choose|a: int| 0 <= a < scc@.len() && scc@[a] == x;
                        let b = choose|b: int| 0 <= b < scc@.len() && scc@[b] == y;
                        let pa = popped[a];
                        let pb = popped[b];
                        assert(popped.contains(pa) && popped.contains(pb));
                        assert(st_full.contains(pa) && !s0.contains(pa));
                        assert(st_full.contains(pb) && !s0.contains(pb));
                        assert(self.reaches(keys[pa as int], keys[pb as int]));
                    }
                }
            }
        } else {
            proof {
                assert(t.stack@.take(s0.len() as int) =~= t.stack@.take(s0.len() as int + 1).take(s0.len() as int));
                assert(s0.push(v).take(s0.len() as int) =~= s0);
            }
        }
    }

    /// The strongly connected components of the graph, as found by Tarjan's
    /// algorithm started from each node in node order: each component is
    /// non-empty, every node belongs to exactly one of them, the nodes of a
    /// component reach each other, and an edge never leads to a later
    /// component (the components come in reverse topological order).
    pub(crate) fn iter_sccs(&self) -> (r: Vec<Vec<NodeId>>)
        requires
            self.wf(),
        ensures
            forall|k: int| 0 <= k < r@.len() ==> (#[trigger] r@[k])@.len() > 0,
            flat_ids(r@).no_duplicates(),
            forall|x: NodeId| #[trigger] flat_ids(r@).contains(x) ==> self.has_node(x),
            forall|x: NodeId| #[trigger] self.has_node(x) ==> flat_ids(r@).contains(x),
            self.components_ordered(r@),
            self.components_connected(r@),
    {
        let ids = self.nodes();
        let n = ids.len();
        let mut t = Tarjan {
            index: Vec::new(),
            lowlink: Vec::new(),
            visited: Vec::new(),
            on_stack: Vec::new(),
            stack: Vec::new(),
            next: 0,
            sccs: Vec::new(),
            vorder: Ghost(Seq::empty()),
            emitted: Ghost(Seq::empty()),
        };
        let mut z: usize = 0;
        while z < n
            invariant
                z <= n,
                t.index@.len() == z && t.lowlink@.len() == z && t.visited@.len() == z && t.on_stack@.len() == z,
                forall|j: int| 0 <= j < z ==> !(#[trigger] t.visited@[j]) && !t.on_stack@[j],
                n == ids@.len(),
                t.stack@ == Seq::<usize>::empty(),
                t.next == 0,
                t.sccs@ == Seq::<Vec<NodeId>>::empty(),
                t.vorder@ == Seq::<usize>::empty(),
                t.emitted@ == Seq::<usize>::empty(),
            decreases n - z,
        {
            t.index.push(0);
            t.lowlink.push(0);
            t.visited.push(false);
            t.on_stack.push(false);
            z = z + 1;
        }
        proof {
            assert(flat_ids(t.sccs@) =~= t.emitted@.map_values(|i: usize| ids@[i as int]));
            assert forall|i: usize| i < n implies (#[trigger] t.visited@[i as int] <==> t.vorder@.contains(i)) by {
                assert(!t.visited@[i as int]);
            }
            assert forall|i: usize| i < n implies (#[trigger] t.on_stack@[i as int] <==> t.stack@.contains(i)) by {
                assert(!t.visited@[i as int]);
            }
            assert(t.inv(ids@));
            assert(self.components_ordered(t.sccs@));
            assert(self.components_connected(t.sccs@));
        }
        let mut i: usize = 0;
        while i < n
            invariant
                self.wf(),
                ids@ == self.node_ids(),
                n == ids@.len(),
                i <= n,
                t.inv(ids@),
                t.stack@ == Seq::<usize>::empty(),
                forall|j: int| 0 <= j < i ==> #[trigger] t.visited@[j],
                self.components_ordered(t.sccs@),
                self.components_connected(t.sccs@),
            decreases n - i,
        {
            if !t.visited[i] {
                let ghost room = n - t.vorder@.len();
                let ghost base = t.next as int;
                self.strongconnect(&ids, &mut t, i, Ghost(room), Ghost(base));
            }
            i = i + 1;
        }
        proof {
            let keys = ids@;
            let e = t.emitted@;
            let m = e.map_values(|i: usize| keys[i as int]);
            assert forall|a: int, b: int| 0 <= a < m.len() && 0 <= b < m.len() && a != b implies
                m[a] != m[b] by {
                assert(e.contains(e[a]) && e.contains(e[b]));
                assert(t.vorder@.contains(e[a]));
                assert(t.vorder@.contains(e[b]));
                let ja = choose|j: int| 0 <= j < t.vorder@.len() && t.vorder@[j] == e[a];
                let jb = choose|j: int| 0 <= j < t.vorder@.len() && t.vorder@[j] == e[b];
                assert(e[a] < n && e[b] < n);
                assert(e[a] != e[b]);
            }
            assert forall|x: NodeId| #[trigger] self.has_node(x) implies flat_ids(t.sccs@).contains(x) by {
                let j = choose|j: int| 0 <= j < keys.len() && keys[j] == x;
                let ju = j as usize;
                assert(t.visited@[ju as int]);
                assert(t.vorder@.contains(ju));
                assert(t.emitted@.contains(ju));
                let q = choose|q: int| 0 <= q < e.len() && e[q] == ju;
                assert(m[q] == x);
            }
            assert forall|x: NodeId| #[trigger] flat_ids(t.sccs@).contains(x) implies self.has_node(x) by {
                let j = choose|j: int| 0 <= j < m.len() && m[j] == x;
                assert(e.contains(e[j]));
                assert(t.vorder@.contains(e[j]));
                let jj = choose|jj: int| 0 <= jj < t.vorder@.len() && t.vorder@[jj] == e[j];
                assert(e[j] < n);
                assert(keys[e[j] as int] == x);
            }
        }
        t.sccs
    }
}

/// After the search from a successor `c` of `v`, and the update of the
/// lowlink of `v` from that of `c`: `v` reaches every node visited since
/// `v` was, and every node that the search from `v` left on the stack is
/// anchored, with a lowlink below its visit number unless it is `v`.
#[verifier::rlimit(60)]
proof fn lemma_child_step(
    g: DependencyGraph,
    keys: Seq<NodeId>,
    v: usize,
    c: usize,
    idx: int,
    s0: Seq<usize>,
    old_visited: Seq<bool>,
    st_b: Seq<usize>,
    ix_b: Seq<usize>,
    ll_b: Seq<usize>,
    vis_b: Seq<bool>,
    st_c: Seq<usize>,
    ix_c: Seq<usize>,
    ll_c: Seq<usize>,
    vis_c: Seq<bool>,
    ll_f: Seq<usize>,
)
    requires
        v < keys.len(),
        c < keys.len(),
        g.has_edge(keys[v as int], keys[c as int]),
        !vis_b[c as int],
        vis_b[v as int],
        st_b.contains(v),
        !s0.contains(v),
        ll_b[v as int] <= idx,
        forall|x: usize| #[trigger] st_b.contains(x) ==> x < keys.len() && vis_b[x as int],
        st_c.len() >= st_b.len(),
        st_c.take(st_b.len() as int) == st_b,
        forall|x: usize| #[trigger] st_c.contains(x) ==> x < keys.len(),
        forall|i: int| 0 <= i < keys.len() && #[trigger] vis_b[i] ==> ix_c[i] == ix_b[i] && ll_c[i] == ll_b[i],
        ix_c[c as int] > idx,
        forall|x: usize| #![trigger st_c.contains(x)] st_c.contains(x) && vis_b[x as int] ==> st_b.contains(x),
        forall|x: usize|
            #![trigger vis_c[x as int]]
            x < keys.len() && vis_c[x as int] && !vis_b[x as int] ==> g.reaches(keys[c as int], keys[x as int]),
        forall|x: usize|
            #![trigger st_c.contains(x)]
            st_c.contains(x) && !st_b.contains(x) ==> ll_c[x as int] < ix_c[x as int] && g.anchored(
                keys,
                st_c,
                ix_c,
                ll_c,
                x,
            ),
        !st_c.contains(c) ==> ll_c[c as int] == ix_c[c as int],
        forall|x: usize|
            #![trigger vis_b[x as int]]
            x < keys.len() && vis_b[x as int] && !old_visited[x as int] ==> g.reaches(keys[v as int], keys[x as int]),
        forall|x: usize|
            #![trigger st_b.contains(x)]
            st_b.contains(x) && !s0.contains(x) && x != v ==> ll_b[x as int] < ix_b[x as int],
        forall|x: usize|
            #![trigger st_b.contains(x)]
            st_b.contains(x) && !s0.contains(x) ==> g.anchored(keys, st_b, ix_b, ll_b, x),
        ll_f == if ll_c[c as int] < ll_c[v as int] {
            ll_c.update(v as int, ll_c[c as int])
        } else {
            ll_c
        },
        ll_f.len() == keys.len(),
        ll_c.len() == keys.len(),
    ensures
        forall|x: usize|
            #![trigger vis_c[x as int]]
            x < keys.len() && vis_c[x as int] && !old_visited[x as int] ==> g.reaches(keys[v as int], keys[x as int]),
        forall|x: usize|
            #![trigger st_c.contains(x)]
            st_c.contains(x) && !s0.contains(x) && x != v ==> ll_f[x as int] < ix_c[x as int],
        forall|x: usize|
            #![trigger st_c.contains(x)]
            st_c.contains(x) && !s0.contains(x) ==> g.anchored(keys, st_c, ix_c, ll_f, x),
{
    lemma_reaches_edge(g, keys[v as int], keys[c as int]);
    assert forall|w: usize| #[trigger] st_b.contains(w) implies st_c.contains(w) by {
        let j = choose|j: int| 0 <= j < st_b.len() && st_b[j] == w;
        assert(st_c.take(st_b.len() as int)[j] == w);
    }
    assert forall|x: usize|
        #![trigger vis_c[x as int]]
        x < keys.len() && vis_c[x as int] && !old_visited[x as int] implies g.reaches(keys[v as int], keys[x as int]) by {
        if !vis_b[x as int] {
            lemma_reaches_trans(g, keys[v as int], keys[c as int], keys[x as int]);
        }
    }
    assert forall|x: usize|
        #![trigger st_c.contains(x)]
        st_c.contains(x) && !s0.contains(x) && x != v implies ll_f[x as int] < ix_c[x as int] by {
        assert(ll_f[x as int] == ll_c[x as int]);
        if st_b.contains(x) {
            assert(vis_b[x as int]);
            assert(ll_b[x as int] < ix_b[x as int]);
        }
    }
    assert forall|x: usize|
        #![trigger st_c.contains(x)]
        st_c.contains(x) && !s0.contains(x) implies g.anchored(keys, st_c, ix_c, ll_f, x) by {
        if x == v && ll_c[c as int] < ll_c[v as int] {
            assert(ll_c[v as int] == ll_b[v as int]);
            assert(st_c.contains(c)) by {
                if !st_c.contains(c) {
                    assert(ll_c[c as int] == ix_c[c as int]);
                }
            }
            assert(!st_b.contains(c));
            assert(g.anchored(keys, st_c, ix_c, ll_c, c));
            let w = choose|w: usize|
                #[trigger] st_c.contains(w) && ix_c[w as int] == ll_c[c as int] && g.reaches(keys[c as int], keys[w as int]);
            lemma_reaches_trans(g, keys[v as int], keys[c as int], keys[w as int]);
            assert(ll_f[v as int] == ll_c[c as int]);
        } else if st_b.contains(x) {
            assert(vis_b[x as int]);
            assert(ll_f[x as int] == ll_b[x as int]);
            assert(g.anchored(keys, st_b, ix_b, ll_b, x));
            let w = choose|w: usize|
                #[trigger] st_b.contains(w) && ix_b[w as int] == ll_b[x as int] && g.reaches(keys[x as int], keys[w as int]);
            assert(vis_b[w as int]);
            assert(st_c.contains(w));
        } else {
            assert(x != v);
            assert(g.anchored(keys, st_c, ix_c, ll_c, x));
            let w = choose|w: usize|
                #[trigger] st_c.contains(w) && ix_c[w as int] == ll_c[x as int] && g.reaches(keys[x as int], keys[w as int]);
            assert(ll_f[x as int] == ll_c[x as int]);
        }
    }
}

/// A node of one component is among the flattened components.
pub proof fn lemma_flat_member(parts: Seq<Vec<NodeId>>, k: int, x: NodeId)
    requires
        0 <= k < parts.len(),
        parts[k]@.contains(x),
    ensures
        flat_ids(parts).contains(x),
    decreases parts.len(),
{
    let f = flat_ids(parts.drop_last());
    if k == parts.len() - 1 {
        let j = choose|j: int| 0 <= j < parts[k]@.len() && parts[k]@[j] == x;
        assert((f + parts.last()@)[f.len() + j] == x);
    } else {
        assert(parts.drop_last()[k] == parts[k]);
        lemma_flat_member(parts.drop_last(), k, x);
        let j = choose|j: int| 0 <= j < f.len() && f[j] == x;
        assert((f + parts.last()@)[j] == x);
    }
}

/// Components whose flattened nodes are distinct share no node.
pub proof fn lemma_parts_disjoint(parts: Seq<Vec<NodeId>>, j1: int, j2: int, x: NodeId)
    requires
        flat_ids(parts).no_duplicates(),
        0 <= j1 < j2 < parts.len(),
        parts[j1]@.contains(x),
    ensures
        !parts[j2]@.contains(x),
    decreases parts.len(),
{
    let d = parts.drop_last();
    let f = flat_ids(d);
    let all = flat_ids(parts);
    assert(all == f + parts.last()@);
    assert(f.no_duplicates()) by {
        assert forall|a: int, b: int| 0 <= a < f.len() && 0 <= b < f.len() && a != b implies f[a] != f[b] by {
            assert(all[a] == f[a] && all[b] == f[b]);
        }
    }
    assert(d[j1] == parts[j1]);
    if j2 == parts.len() - 1 {
        if parts[j2]@.contains(x) {
            lemma_flat_member(d, j1, x);
            let a = choose|a: int| 0 <= a < f.len() && f[a] == x;
            let b = choose|b: int| 0 <= b < parts.last()@.len() && parts.last()@[b] == x;
            assert(all[a] == x && all[f.len() + b] == x);
        }
    } else {
        assert(d[j2] == parts[j2]);
        lemma_parts_disjoint(d, j1, j2, x);
    }
}

/// A node among the flattened components is in one of them.
pub proof fn lemma_flat_part(parts: Seq<Vec<NodeId>>, x: NodeId)
    requires
        flat_ids(parts).contains(x),
    ensures
        exists|k: int| 0 <= k < parts.len() && #[trigger] parts[k]@.contains(x),
    decreases parts.len(),
{
    let f = flat_ids(parts.drop_last());
    let j = choose|j: int| 0 <= j < flat_ids(parts).len() && flat_ids(parts)[j] == x;
    if j < f.len() {
        assert(f[j] == x);
        lemma_flat_part(parts.drop_last(), x);
        let k = choose|k: int| 0 <= k < parts.drop_last().len() && #[trigger] parts.drop_last()[k]@.contains(x);
        assert(parts[k] == parts.drop_last()[k]);
    } else {
        assert(parts.last()@[j - f.len()] == x);
        assert(parts[parts.len() - 1]@.contains(x));
    }
}

/// Along a walk from a node of component `ka`, every node lies in a
/// component that does not come later.
proof fn lemma_walk_order(g: DependencyGraph, parts: Seq<Vec<NodeId>>, p: Seq<NodeId>, ka: int) -> (kb: int)
    requires
        g.components_ordered(parts),
        g.is_path(p),
        0 <= ka < parts.len(),
        parts[ka]@.contains(p[0]),
    ensures
        0 <= kb <= ka,
        parts[kb]@.contains(p.last()),
    decreases p.len(),
{
    if p.len() == 1 {
        ka
    } else {
        let z: int = 0;
        assert(g.has_edge(p[z], p[z + 1]));
        assert(flat_ids(parts).contains(p[1]));
        lemma_flat_part(parts, p[1]);
        let k1 = choose|k: int| 0 <= k < parts.len() && #[trigger] parts[k]@.contains(p[1]);
        assert(k1 <= ka);
        let q = p.drop_first();
        assert forall|k: int| 0 <= k < q.len() - 1 implies #[trigger] g.has_edge(q[k], q[k + 1]) by {
            let m = k + 1;
            assert(g.has_edge(p[m], p[m + 1]));
            assert(q[k] == p[m] && q[k + 1] == p[m + 1]);
        }
        lemma_walk_order(g, parts, q, k1)
    }
}

/// Components listed as `iter_sccs` lists them are the strongly connected
/// components: two nodes lie in the same component exactly when each
/// reaches the other.
pub proof fn lemma_components_are_sccs(
    g: DependencyGraph,
    parts: Seq<Vec<NodeId>>,
    kx: int,
    ky: int,
    x: NodeId,
    y: NodeId,
)
    requires
        flat_ids(parts).no_duplicates(),
        g.components_ordered(parts),
        g.components_connected(parts),
        0 <= kx < parts.len(),
        0 <= ky < parts.len(),
        parts[kx]@.contains(x),
        parts[ky]@.contains(y),
    ensures
        kx == ky <==> g.reaches(x, y) && g.reaches(y, x),
{
    if kx == ky {
        assert(g.reaches(x, y) && g.reaches(y, x));
    }
    if g.reaches(x, y) && g.reaches(y, x) {
        let p1 = choose|p: Seq<NodeId>| #[trigger] g.is_path(p) && p[0] == x && p.last() == y;
        let p2 = choose|p: Seq<NodeId>| #[trigger] g.is_path(p) && p[0] == y && p.last() == x;
        let k1 = lemma_walk_order(g, parts, p1, kx);
        let k2 = lemma_walk_order(g, parts, p2, ky);
        if k1 != ky {
            if k1 < ky {
                lemma_parts_disjoint(parts, k1, ky, y);
            } else {
                lemma_parts_disjoint(parts, ky, k1, y);
            }
        }
        if k2 != kx {
            if k2 < kx {
                lemma_parts_disjoint(parts, k2, kx, x);
            } else {
                lemma_parts_disjoint(parts, kx, k2, x);
            }
        }
    }
}

/// Every node reaches itself.
proof fn lemma_reaches_self(g: DependencyGraph, a: NodeId)
    ensures
        g.reaches(a, a),
{
    let p = seq![a];
    assert(g.is_path(p));
}

/// An edge is a path.
proof fn lemma_reaches_edge(g: DependencyGraph, a: NodeId, b: NodeId)
    requires
        g.has_edge(a, b),
    ensures
        g.reaches(a, b),
{
    let p = seq![a, b];
    assert forall|k: int| 0 <= k < p.len() - 1 implies #[trigger] g.has_edge(p[k], p[k + 1]) by {
        assert(k == 0);
    }
    assert(g.is_path(p));
}

/// Paths join: what `b` reaches, whatever reaches `b` reaches too.
proof fn lemma_reaches_trans(g: DependencyGraph, a: NodeId, b: NodeId, c: NodeId)
    requires
        g.reaches(a, b),
        g.reaches(b, c),
    ensures
        g.reaches(a, c),
{
    let p1 = choose|p: Seq<NodeId>| #[trigger] g.is_path(p) && p[0] == a && p.last() == b;
    let p2 = choose|p: Seq<NodeId>| #[trigger] g.is_path(p) && p[0] == b && p.last() == c;
    let q = p1 + p2.drop_first();
    assert forall|k: int| 0 <= k < q.len() - 1 implies #[trigger] g.has_edge(q[k], q[k + 1]) by {
        if k < p1.len() - 1 {
            assert(q[k] == p1[k] && q[k + 1] == p1[k + 1]);
        } else if k == p1.len() - 1 {
            assert(q[k] == b);
            assert(q[k + 1] == p2[1]);
            let z: int = 0;
            assert(g.has_edge(p2[z], p2[z + 1]));
        } else {
            let m = k - p1.len() + 1;
            assert(q[k] == p2[m] && q[k + 1] == p2[m + 1]);
        }
    }
    if p2.len() == 1 {
        assert(q =~= p1);
    }
    assert(g.is_path(q));
    assert(q.last() == c);
}

/// When the root `v` of a search is popped, every node that the search
/// left on the stack reaches `v`: its lowlink is the visit number of a node
/// it reaches that was put on the stack earlier in the same search.
proof fn lemma_reaches_root(
    g: DependencyGraph,
    keys: Seq<NodeId>,
    st: Seq<usize>,
    s0: Seq<usize>,
    index: Seq<usize>,
    lowlink: Seq<usize>,
    v: usize,
    idx: int,
    u: usize,
)
    requires
        st.contains(u),
        !s0.contains(u),
        forall|x: usize| #![trigger st.contains(x)] st.contains(x) && !s0.contains(x) ==> index[x as int] >= idx,
        forall|x: usize|
            #![trigger st.contains(x)]
            st.contains(x) && !s0.contains(x) && x != v ==> lowlink[x as int] < index[x as int] && lowlink[v as int]
                <= lowlink[x as int],
        forall|x: usize|
            #![trigger st.contains(x)]
            st.contains(x) && !s0.contains(x) ==> g.anchored(keys, st, index, lowlink, x),
        forall|x: usize| #[trigger] s0.contains(x) ==> index[x as int] < idx,
        index[v as int] == idx,
        lowlink[v as int] == idx,
    ensures
        g.reaches(keys[u as int], keys[v as int]),
    decreases index[u as int] - idx,
{
    if u == v {
        lemma_reaches_self(g, keys[v as int]);
    } else {
        assert(g.anchored(keys, st, index, lowlink, u));
        let w = choose|w: usize|
            #[trigger] st.contains(w) && index[w as int] == lowlink[u as int] && g.reaches(keys[u as int], keys[w as int]);
        assert(!s0.contains(w)) by {
            if s0.contains(w) {
                assert(index[w as int] < idx);
            }
        }
        lemma_reaches_root(g, keys, st, s0, index, lowlink, v, idx, w);
        lemma_reaches_trans(g, keys[u as int], keys[w as int], keys[v as int]);
    }
}

/// Adding a component keeps the components ordered when every successor of
/// its nodes is already in a component or in it, and none of its nodes is.
proof fn lemma_new_component_ordered(
    g: DependencyGraph,
    keys: Seq<NodeId>,
    sccs0: Seq<Vec<NodeId>>,
    scc: Vec<NodeId>,
    e0: Seq<usize>,
    popped: Seq<usize>,
    st_full: Seq<usize>,
    s0: Seq<usize>,
)
    requires
        g.wf(),
        keys == g.node_ids(),
        keys.len() <= usize::MAX,
        g.components_ordered(sccs0),
        flat_ids(sccs0) == e0.map_values(|i: usize| keys[i as int]),
        scc@ == popped.map_values(|i: usize| keys[i as int]),
        forall|k: int| 0 <= k < e0.len() ==> #[trigger] e0[k] < keys.len(),
        forall|x: usize| #[trigger] e0.contains(x) ==> !st_full.contains(x),
        forall|x: usize|
            #![trigger popped.contains(x)]
            popped.contains(x) <==> st_full.contains(x) && !s0.contains(x),
        forall|x: usize| #[trigger] st_full.contains(x) ==> x < keys.len(),
        forall|u: usize, z: usize|
            st_full.contains(u) && !s0.contains(u) && z < keys.len() && #[trigger] g.has_edge(keys[u as int], keys[z as int])
                ==> e0.contains(z) || (st_full.contains(z) && !s0.contains(z)),
    ensures
        g.components_ordered(sccs0.push(scc)),
{
    let sc = sccs0.push(scc);
    assert(flat_ids(sc) =~= flat_ids(sccs0) + scc@) by {
        assert(sc.drop_last() =~= sccs0);
    }
    assert forall|k: int, x: NodeId, y: NodeId|
        #![trigger sc[k]@.contains(x), g.has_edge(x, y)]
        0 <= k < sc.len() && sc[k]@.contains(x) && g.has_edge(x, y) implies flat_ids(sc).contains(y) by {
        if k < sccs0.len() {
            assert(sc[k] == sccs0[k]);
            assert(flat_ids(sccs0).contains(y));
            let m = choose|m: int| 0 <= m < flat_ids(sccs0).len() && flat_ids(sccs0)[m] == y;
            assert(flat_ids(sc)[m] == y);
        } else {
            assert(sc[k] == scc);
            let m = choose|m: int| 0 <= m < scc@.len() && scc@[m] == x;
            let u = popped[m];
            assert(popped.contains(u));
            assert(keys[u as int] == x);
            assert(g.edge_pairs().contains((x, y)));
            assert(keys.contains(y));
            let zi = choose|zi: int| 0 <= zi < keys.len() && keys[zi] == y;
            let z = zi as usize;
            assert(z as int == zi);
            assert(g.has_edge(keys[u as int], keys[z as int]));
            if e0.contains(z) {
                let q = choose|q: int| 0 <= q < e0.len() && e0[q] == z;
                assert(e0.map_values(|i: usize| keys[i as int])[q] == y);
                assert(flat_ids(sc)[q] == y);
            } else {
                assert(popped.contains(z));
                let q = choose|q: int| 0 <= q < popped.len() && popped[q] == z;
                assert(scc@[q] == y);
                assert(flat_ids(sc)[flat_ids(sccs0).len() + q] == y);
            }
        }
    }
    assert forall|k1: int, k2: int, x: NodeId, y: NodeId|
        #![trigger sc[k1]@.contains(x), sc[k2]@.contains(y), g.has_edge(x, y)]
        0 <= k1 < sc.len() && 0 <= k2 < sc.len() && sc[k1]@.contains(x) && sc[k2]@.contains(y) && g.has_edge(x, y)
            implies k2 <= k1 by {
        if k1 < sccs0.len() {
            assert(sc[k1] == sccs0[k1]);
            if k2 == sccs0.len() {
                assert(sc[k2] == scc);
                assert(flat_ids(sccs0).contains(y));
                let m = choose|m: int| 0 <= m < flat_ids(sccs0).len() && flat_ids(sccs0)[m] == y;
                let e = e0[m];
                assert(keys[e as int] == y);
                let q = choose|q: int| 0 <= q < scc@.len() && scc@[q] == y;
                let p = popped[q];
                assert(popped.contains(p));
                assert(keys[p as int] == y);
                assert(e0.contains(e));
                assert(e < keys.len() && p < keys.len());
                assert(e == p);
                assert(false);
            } else {
                assert(sc[k2] == sccs0[k2]);
            }
        }
    }
}

/// The visited count only grows when the visited flags only grow.
proof fn lemma_visited_count(v0: Seq<bool>, v1: Seq<bool>, o0: Seq<usize>, o1: Seq<usize>, n: nat)
    requires
        v0.len() == n,
        v1.len() == n,
        o0.no_duplicates(),
        o1.no_duplicates(),
        forall|k: int| 0 <= k < o0.len() ==> #[trigger] o0[k] < n,
        forall|k: int| 0 <= k < o1.len() ==> #[trigger] o1[k] < n,
        forall|i: usize| i < n ==> (#[trigger] v0[i as int] <==> o0.contains(i)),
        forall|i: usize| i < n ==> (#[trigger] v1[i as int] <==> o1.contains(i)),
        forall|i: int| 0 <= i < n && v0[i] ==> #[trigger] v1[i],
    ensures
        o0.len() <= o1.len(),
{
    assert forall|x: usize| #[trigger] o0.contains(x) implies o1.contains(x) by {
        let k = choose|k: int| 0 <= k < o0.len() && o0[k] == x;
        assert(x < n);
        assert(v0[x as int]);
        assert(v1[x as int]);
    }
    lemma_no_dup_within_len(o0, o1);
}

} // verus!
