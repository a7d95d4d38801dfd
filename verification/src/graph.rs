//! The directed graph that tracks which service depends on which, with its
//! topological sort and cycle reporting.
use vstd::prelude::*;
use bevy_platform::collections::{HashMap, HashSet};
use bevy_platform::hash::FixedHasher;
use indexmap::IndexMap;

use crate::collections::{
    adjacency_entries, adjacency_new, adjacency_len, adjacency_contains_key, adjacency_index_of,
    adjacency_get_index, adjacency_get, adjacency_insert, adjacency_swap_remove, entry_keys, pair_set_contents,
    pair_set_new, pair_set_insert, pair_set_remove, pair_set_contains, pair_set_to_vec,
    dep_info_map_contents, dep_info_map_new, dep_info_map_insert, dep_info_map_get,
};
use crate::service::ServiceDepInfo;

verus! {

/// Identifier of a node: the type identity of a service handle.
pub type NodeId = u64;

/// Edge direction.
#[derive(Clone, Copy, Debug, PartialEq, Eq, Structural, Hash)]
pub enum Direction {
    /// An `Outgoing` edge is an outward edge *from* the current node.
    Outgoing,
    /// An `Incoming` edge is an inbound edge *to* the current node.
    Incoming,
}

impl Direction {
    /// Return the opposite `Direction`.
    pub fn opposite(self) -> (r: Direction)
        ensures
            r == self.flip(),
    {
        match self {
            Direction::Outgoing => Direction::Incoming,
            Direction::Incoming => Direction::Outgoing,
        }
    }

    /// The opposite direction.
    pub open spec fn flip(self) -> Direction {
        match self {
            Direction::Outgoing => Direction::Incoming,
            Direction::Incoming => Direction::Outgoing,
        }
    }
}

/// Compact storage of a [`NodeId`] and a [`Direction`].
#[derive(Clone, Copy, Debug, PartialEq, Eq, Structural)]
pub struct NodeIdAndDir(pub NodeId, pub Direction);

/// Compact storage of a [`NodeId`] pair.
#[derive(Clone, Copy, Debug, PartialEq, Eq, Structural, Hash)]
pub struct NodeIdPair(pub NodeId, pub NodeId);

/// The node ids of the outgoing links of a link list, in order.
pub open spec fn outgoing_targets(links: Seq<NodeIdAndDir>) -> Seq<NodeId>
    decreases links.len(),
{
    if links.len() == 0 {
        Seq::empty()
    } else {
        let rest = outgoing_targets(links.drop_last());
        if links.last().1 == Direction::Outgoing {
            rest.push(links.last().0)
        } else {
            rest
        }
    }
}

/// The node ids of the links of `a` whose direction is `dir`, or which point
/// back at `a` itself, in order.
pub open spec fn directed_targets(links: Seq<NodeIdAndDir>, a: NodeId, dir: Direction) -> Seq<
    NodeId,
>
    decreases links.len(),
{
    if links.len() == 0 {
        Seq::empty()
    } else {
        let rest = directed_targets(links.drop_last(), a, dir);
        if links.last().1 == dir || links.last().0 == a {
            rest.push(links.last().0)
        } else {
            rest
        }
    }
}

/// The pair for an edge between `a` and `b` seen from `a` in direction `dir`.
pub open spec fn oriented(dir: Direction, a: NodeId, b: NodeId) -> (NodeId, NodeId) {
    if dir == Direction::Incoming {
        (b, a)
    } else {
        (a, b)
    }
}

/// The type id that names node `x`: the one recorded for it in `infos`, or
/// the node's own id when it has no description.
pub open spec fn type_id_named(infos: Map<NodeId, ServiceDepInfo>, x: NodeId) -> u64 {
    if infos.contains_key(x) {
        infos[x].type_id
    } else {
        x
    }
}

/// The position of key `n` among the keys, when it is there.
pub open spec fn key_pos(keys: Seq<NodeId>, n: NodeId) -> int {
    choose|i: int| 0 <= i < keys.len() && keys[i] == n
}

/// The links recorded for `n` in a sequence of adjacency entries (none when
/// `n` has no entry).
pub open spec fn links_in(entries: Seq<(NodeId, Seq<NodeIdAndDir>)>, n: NodeId) -> Seq<
    NodeIdAndDir,
> {
    if entry_keys(entries).contains(n) {
        entries[key_pos(entry_keys(entries), n)].1
    } else {
        Seq::empty()
    }
}

/// Whether a recorded link of `a` is backed by the edge that it stands for.
pub open spec fn link_backed(edges: Set<(NodeId, NodeId)>, a: NodeId, l: NodeIdAndDir) -> bool {
    match l.1 {
        Direction::Outgoing => edges.contains((a, l.0)),
        Direction::Incoming => edges.contains((l.0, a)) && l.0 != a,
    }
}

/// `keys` with `n` appended unless it is already there.
pub open spec fn with_key(keys: Seq<NodeId>, n: NodeId) -> Seq<NodeId> {
    if keys.contains(n) {
        keys
    } else {
        keys.push(n)
    }
}

/// Well-formedness of adjacency entries against an edge set: keys are
/// distinct, every edge is recorded at both ends (once at a self loop), every
/// recorded link stands for an edge, and no link is recorded twice.
pub open spec fn wf_parts(entries: Seq<(NodeId, Seq<NodeIdAndDir>)>, edges: Set<(NodeId, NodeId)>) -> bool {
    &&& entry_keys(entries).no_duplicates()
    &&& forall|a: NodeId, b: NodeId| #[trigger]
        edges.contains((a, b)) ==> entry_keys(entries).contains(a) && entry_keys(entries).contains(b)
            && links_in(entries, a).contains(NodeIdAndDir(b, Direction::Outgoing)) && (a != b
            ==> links_in(entries, b).contains(NodeIdAndDir(a, Direction::Incoming)))
    &&& forall|a: NodeId, l: NodeIdAndDir|
        entry_keys(entries).contains(a) && #[trigger] links_in(entries, a).contains(l) ==> link_backed(
            edges,
            a,
            l,
        )
    &&& forall|a: NodeId| entry_keys(entries).contains(a) ==> #[trigger] links_in(entries, a).no_duplicates()
}

/// The entries after appending link `l` to the links of `k`, creating the entry
/// at the end when `k` has none.
pub open spec fn with_link(entries: Seq<(NodeId, Seq<NodeIdAndDir>)>, k: NodeId, l: NodeIdAndDir) -> Seq<(NodeId, Seq<NodeIdAndDir>)> {
    if entry_keys(entries).contains(k) {
        let i = key_pos(entry_keys(entries), k);
        entries.update(i, (k, entries[i].1.push(l)))
    } else {
        entries.push((k, seq![l]))
    }
}

/// A directed acyclic graph structure used to track service dependencies.
pub struct DependencyGraph {
    /// Descriptions of the dependencies that were registered, by node id.
    pub services: HashMap<NodeId, ServiceDepInfo, FixedHasher>,
    nodes: IndexMap<NodeId, Vec<NodeIdAndDir>, FixedHasher>,
    edges: HashSet<(NodeId, NodeId), FixedHasher>,
    /// A cached topological ordering of the graph.
    topsort: Vec<NodeId>,
}

impl DependencyGraph {
    /// The adjacency entries, in node order.
    pub closed spec fn entries(&self) -> Seq<(NodeId, Seq<NodeIdAndDir>)> {
        adjacency_entries(self.nodes)
    }

    /// The node ids, in node order.
    pub open spec fn node_ids(&self) -> Seq<NodeId> {
        entry_keys(self.entries())
    }

    /// The edges, as (from, to) pairs.
    pub closed spec fn edge_pairs(&self) -> Set<(NodeId, NodeId)> {
        pair_set_contents(self.edges)
    }

    /// The cached topological order.
    pub closed spec fn cached_order(&self) -> Seq<NodeId> {
        self.topsort@
    }

    /// The registered dependency descriptions.
    pub closed spec fn service_infos(&self) -> Map<NodeId, ServiceDepInfo> {
        dep_info_map_contents(self.services)
    }

    /// Whether `n` is a node.
    pub open spec fn has_node(&self, n: NodeId) -> bool {
        self.node_ids().contains(n)
    }

    /// Whether the edge from `a` to `b` is in the graph.
    pub open spec fn has_edge(&self, a: NodeId, b: NodeId) -> bool {
        self.edge_pairs().contains((a, b))
    }

    /// The links recorded for node `n`, in order.
    pub open spec fn links(&self, n: NodeId) -> Seq<NodeIdAndDir> {
        links_in(self.entries(), n)
    }

    /// The targets of the edges leaving `a`, in link order.
    pub open spec fn successors(&self, a: NodeId) -> Seq<NodeId> {
        outgoing_targets(self.links(a))
    }

    /// Well-formedness: node ids are distinct, every edge is recorded at both
    /// ends (once at a self loop), and every recorded link stands for an edge.
    pub open spec fn wf(&self) -> bool {
        wf_parts(self.entries(), self.edge_pairs())
    }

    /// An empty graph.
    pub fn new() -> (g: DependencyGraph)
        ensures
            g.wf(),
            g.node_ids() == Seq::<NodeId>::empty(),
            g.edge_pairs() == Set::<(NodeId, NodeId)>::empty(),
            g.service_infos() == Map::<NodeId, ServiceDepInfo>::empty(),
            g.cached_order() == Seq::<NodeId>::empty(),
    {
        let g = DependencyGraph {
            services: dep_info_map_new(),
            nodes: adjacency_new(),
            edges: pair_set_new(),
            topsort: Vec::new(),
        };
        assert(g.node_ids() =~= Seq::<NodeId>::empty());
        g
    }

    /// Return the number of nodes in the graph.
    pub fn node_count(&self) -> (n: usize)
        ensures
            n == self.node_ids().len(),
    {
        adjacency_len(&self.nodes)
    }

    /// Return `true` if the node is contained in the graph.
    pub fn contains_node(&self, n: NodeId) -> (b: bool)
        ensures
            b == self.has_node(n),
    {
        adjacency_contains_key(&self.nodes, n)
    }

    /// Return `true` if the edge connecting `a` with `b` is contained in the
    /// graph.
    pub fn _contains_edge(&self, a: NodeId, b: NodeId) -> (r: bool)
        ensures
            r == self.has_edge(a, b),
    {
        pair_set_contains(&self.edges, (a, b))
    }

    /// Add node `n` to the graph.
    pub fn add_node(&mut self, n: NodeId)
        requires
            old(self).wf(),
        ensures
            final(self).wf(),
            final(self).node_ids() == with_key(old(self).node_ids(), n),
            final(self).edge_pairs() == old(self).edge_pairs(),
            forall|x: NodeId| #[trigger] final(self).links(x) == old(self).links(x),
            final(self).service_infos() == old(self).service_infos(),
            final(self).cached_order() == old(self).cached_order(),
    {
        if !adjacency_contains_key(&self.nodes, n) {
            let ghost old_entries = self.entries();
            adjacency_insert(&mut self.nodes, n, Vec::new());
            proof {
                lemma_keys_push(old_entries, n, Seq::empty());
                assert forall|x: NodeId| #[trigger] self.links(x) == links_in(old_entries, x) by {
                    lemma_links_push(old_entries, n, Seq::empty(), x);
                }
                lemma_wf_new_key(old_entries, self.edge_pairs(), n);
            }
        }
    }
}

impl DependencyGraph {
    /// Appends link `l` to the links of `k`, creating the entry for `k` at the
    /// end when it has none.
    fn push_link(&mut self, k: NodeId, l: NodeIdAndDir)
        requires
            entry_keys(old(self).entries()).no_duplicates(),
        ensures
            final(self).entries() == with_link(old(self).entries(), k, l),
            final(self).edge_pairs() == old(self).edge_pairs(),
            final(self).service_infos() == old(self).service_infos(),
            final(self).cached_order() == old(self).cached_order(),
    {
        let ghost e0 = self.entries();
        let ghost keys = entry_keys(e0);
        match adjacency_insert(&mut self.nodes, k, Vec::new()) {
            Some(mut v) => {
                proof {
                    let i = key_pos(keys, k);
                    assert(keys[i] == e0[i].0);
                    lemma_links_at(e0, i);
                    assert(self.entries() == e0.update(i, (k, Seq::<NodeIdAndDir>::empty())));
                    assert(v@ == e0[i].1);
                    assert(self.entries()[i].0 == k);
                }
                v.push(l);
                adjacency_insert(&mut self.nodes, k, v);
                proof {
                    let i = key_pos(keys, k);
                    assert(self.entries() =~= e0.update(i, (k, e0[i].1.push(l))));
                }
            },
            None => {
                let mut v = Vec::with_capacity(1);
                v.push(l);
                proof {
                    let n = e0.len() as int;
                    assert(self.entries() == e0.push((k, Seq::<NodeIdAndDir>::empty())));
                    assert(self.entries()[n].0 == k);
                }
                adjacency_insert(&mut self.nodes, k, v);
                proof {
                    assert(v@ =~= seq![l]);
                    assert(self.entries() =~= e0.push((k, seq![l])));
                }
            },
        }
    }

    /// Add an edge connecting `a` and `b` to the graph.
    /// For a directed graph, the edge is directed from `a` to `b`.
    ///
    /// Inserts nodes `a` and/or `b` if they aren't already part of the graph.
    pub fn add_edge(&mut self, a: NodeId, b: NodeId)
        requires
            old(self).wf(),
        ensures
            final(self).wf(),
            final(self).edge_pairs() == old(self).edge_pairs().insert((a, b)),
            final(self).node_ids() == with_key(with_key(old(self).node_ids(), a), b),
            forall|x: NodeId| #[trigger]
                final(self).links(x) == if old(self).has_edge(a, b) {
                    old(self).links(x)
                } else if x == a {
                    old(self).links(a).push(NodeIdAndDir(b, Direction::Outgoing))
                } else if x == b {
                    old(self).links(b).push(NodeIdAndDir(a, Direction::Incoming))
                } else {
                    old(self).links(x)
                },
            final(self).service_infos() == old(self).service_infos(),
            final(self).cached_order() == old(self).cached_order(),
    {
        let ghost e0 = self.entries();
        let ghost edges0 = self.edge_pairs();
        if pair_set_insert(&mut self.edges, (a, b)) {
            self.push_link(a, NodeIdAndDir(b, Direction::Outgoing));
            let ghost e1 = self.entries();
            proof {
                assert forall|x: NodeId| #[trigger] links_in(e1, x) == if x == a {
                    links_in(e0, a).push(NodeIdAndDir(b, Direction::Outgoing))
                } else {
                    links_in(e0, x)
                } by {
                    lemma_with_link(e0, a, NodeIdAndDir(b, Direction::Outgoing), x);
                }
                lemma_with_link(e0, a, NodeIdAndDir(b, Direction::Outgoing), a);
            }
            if a != b {
                self.push_link(b, NodeIdAndDir(a, Direction::Incoming));
                proof {
                    assert forall|x: NodeId| #[trigger] self.links(x) == if x == b {
                        links_in(e1, b).push(NodeIdAndDir(a, Direction::Incoming))
                    } else {
                        links_in(e1, x)
                    } by {
                        lemma_with_link(e1, b, NodeIdAndDir(a, Direction::Incoming), x);
                    }
                    lemma_with_link(e1, b, NodeIdAndDir(a, Direction::Incoming), b);
                }
            }
            proof {
                lemma_push_contains(entry_keys(e0), a, a);
                if a == b {
                    assert(with_key(with_key(entry_keys(e0), a), b) == with_key(entry_keys(e0), a));
                } else {
                    lemma_with_link(e1, b, NodeIdAndDir(a, Direction::Incoming), b);
                }
                assert forall|x: NodeId| #[trigger] links_in(self.entries(), x) == if x == a {
                    links_in(e0, a).push(NodeIdAndDir(b, Direction::Outgoing))
                } else if x == b {
                    links_in(e0, b).push(NodeIdAndDir(a, Direction::Incoming))
                } else {
                    links_in(e0, x)
                } by {
                    assert(links_in(e1, x) == if x == a {
                        links_in(e0, a).push(NodeIdAndDir(b, Direction::Outgoing))
                    } else {
                        links_in(e0, x)
                    });
                    if a != b {
                        assert(self.links(x) == if x == b {
                            links_in(e1, b).push(NodeIdAndDir(a, Direction::Incoming))
                        } else {
                            links_in(e1, x)
                        });
                    }
                }
                lemma_wf_new_edge(e0, edges0, a, b, self.entries());
            }
        } else {
            proof {
                assert(edges0.insert((a, b)) =~= edges0);
                assert(old(self).has_edge(a, b));
            }
        }
    }
}

impl DependencyGraph {
    /// Remove the link `NodeIdAndDir(b, dir)` from the links of `a`.
    ///
    /// Return `true` if it did exist.
    fn remove_single_edge(&mut self, a: NodeId, b: NodeId, dir: Direction) -> (r: bool)
        requires
            entry_keys(old(self).entries()).no_duplicates(),
            old(self).links(a).no_duplicates(),
        ensures
            r == old(self).links(a).contains(NodeIdAndDir(b, dir)),
            entry_keys(final(self).entries()) == entry_keys(old(self).entries()),
            final(self).links(a).no_duplicates(),
            forall|l: NodeIdAndDir| #[trigger]
                final(self).links(a).contains(l) <==> old(self).links(a).contains(l) && l
                    != NodeIdAndDir(b, dir),
            forall|x: NodeId| x != a ==> #[trigger] final(self).links(x) == old(self).links(x),
            final(self).edge_pairs() == old(self).edge_pairs(),
            final(self).service_infos() == old(self).service_infos(),
            final(self).cached_order() == old(self).cached_order(),
    {
        let ghost e0 = self.entries();
        let i = match adjacency_index_of(&self.nodes, a) {
            Some(i) => i,
            None => {
                proof {
                    assert(self.links(a) =~= Seq::<NodeIdAndDir>::empty());
                }
                return false;
            },
        };
        proof {
            lemma_links_at(e0, i as int);
        }
        let target = NodeIdAndDir(b, dir);
        let (_, sus) = adjacency_get_index(&self.nodes, i).unwrap();
        let mut index: usize = 0;
        let len = sus.len();
        while index < len
            invariant
                len == sus@.len(),
                i < e0.len(),
                sus@ == e0[i as int].1,
                index <= len,
                forall|k: int| 0 <= k < index ==> sus@[k] != target,
            ensures
                index < len ==> sus@[index as int] == target,
                index <= len,
                forall|k: int| 0 <= k < index ==> sus@[k] != target,
            decreases len - index,
        {
            if sus[index] == target {
                break;
            }
            index = index + 1;
        }
        if index == len {
            proof {
                assert(!sus@.contains(target));
            }
            return false;
        }
        let taken = adjacency_insert(&mut self.nodes, a, Vec::new());
        let mut v = taken.unwrap();
        proof {
            assert(v@ == e0[i as int].1);
            assert(self.entries()[i as int].0 == a);
        }
        v.swap_remove(index);
        proof {
            lemma_swap_remove_members(e0[i as int].1, index as int);
        }
        let ghost v_final = v@;
        adjacency_insert(&mut self.nodes, a, v);
        proof {
            assert(self.entries() =~= e0.update(i as int, (a, v_final)));
            lemma_keys_update(e0, i as int, v_final);
            assert forall|x: NodeId| #[trigger] self.links(x) == if x == a {
                v_final
            } else {
                links_in(e0, x)
            } by {
                lemma_links_update(e0, i as int, v_final, x);
            }
            assert(sus@[index as int] == target);
        }
        true
    }
}

impl DependencyGraph {
    /// Remove edge from `a` to `b` from the graph.
    ///
    /// Return `false` if the edge didn't exist.
    pub fn _remove_edge(&mut self, a: NodeId, b: NodeId) -> (r: bool)
        requires
            old(self).wf(),
        ensures
            final(self).wf(),
            r == old(self).has_edge(a, b),
            final(self).edge_pairs() == old(self).edge_pairs().remove((a, b)),
            final(self).node_ids() == old(self).node_ids(),
            forall|x: NodeId, l: NodeIdAndDir| #[trigger]
                final(self).links(x).contains(l) <==> old(self).links(x).contains(l) && !(x == a
                    && l == NodeIdAndDir(b, Direction::Outgoing)) && !(x == b && a != b && l
                    == NodeIdAndDir(a, Direction::Incoming)),
            final(self).service_infos() == old(self).service_infos(),
            final(self).cached_order() == old(self).cached_order(),
    {
        let ghost g0 = *self;
        let ghost e0 = self.entries();
        let ghost edges0 = self.edge_pairs();
        let exist1 = self.remove_single_edge(a, b, Direction::Outgoing);
        let ghost g1 = *self;
        let ghost e1 = self.entries();
        let exist2 = if a != b {
            proof {
                assert(g1.links(b) == g0.links(b));
            }
            self.remove_single_edge(b, a, Direction::Incoming)
        } else {
            exist1
        };
        let ghost g2 = *self;
        let weight = pair_set_remove(&mut self.edges, (a, b));
        proof {
            let e2 = self.entries();
            let edges2 = self.edge_pairs();
            let keys = entry_keys(e0);
            assert(entry_keys(e2) == keys);
            assert forall|x: NodeId, l: NodeIdAndDir| #[trigger] links_in(e2, x).contains(l)
                <==> links_in(e0, x).contains(l) && !(x == a && l == NodeIdAndDir(b, Direction::Outgoing))
                && !(x == b && a != b && l == NodeIdAndDir(a, Direction::Incoming)) by {
                assert(g2.links(x) == links_in(e2, x));
                if a != b {
                    if x == b {
                        assert(g1.links(b) == g0.links(b));
                        assert(g2.links(b).contains(l) <==> g1.links(b).contains(l) && l != NodeIdAndDir(a, Direction::Incoming));
                    } else if x == a {
                        assert(g2.links(a) == g1.links(a));
                        assert(g1.links(a).contains(l) <==> g0.links(a).contains(l) && l != NodeIdAndDir(b, Direction::Outgoing));
                    } else {
                        assert(g2.links(x) == g1.links(x));
                        assert(g1.links(x) == g0.links(x));
                    }
                } else {
                    if x == a {
                        assert(g1.links(a).contains(l) <==> g0.links(a).contains(l) && l != NodeIdAndDir(b, Direction::Outgoing));
                    } else {
                        assert(g1.links(x) == g0.links(x));
                    }
                }
            }
            // the link at each end is present exactly when the edge is
            if edges0.contains((a, b)) {
                assert(links_in(e0, a).contains(NodeIdAndDir(b, Direction::Outgoing)));
            } else {
                if links_in(e0, a).contains(NodeIdAndDir(b, Direction::Outgoing)) {
                    if !keys.contains(a) {
                        assert(links_in(e0, a) =~= Seq::<NodeIdAndDir>::empty());
                    }
                    assert(link_backed(edges0, a, NodeIdAndDir(b, Direction::Outgoing)));
                }
                if a != b && links_in(e0, b).contains(NodeIdAndDir(a, Direction::Incoming)) {
                    if !keys.contains(b) {
                        assert(links_in(e0, b) =~= Seq::<NodeIdAndDir>::empty());
                    }
                    assert(link_backed(edges0, b, NodeIdAndDir(a, Direction::Incoming)));
                }
            }
            assert(exist1 == exist2 && exist1 == weight);
            assert forall|x: NodeId, y: NodeId| #[trigger] edges2.contains((x, y)) implies keys.contains(x)
                && keys.contains(y) && links_in(e2, x).contains(NodeIdAndDir(y, Direction::Outgoing)) && (
                x != y ==> links_in(e2, y).contains(NodeIdAndDir(x, Direction::Incoming))) by {
                assert(edges0.contains((x, y)));
                assert(links_in(e0, x).contains(NodeIdAndDir(y, Direction::Outgoing)));
                if x != y {
                    assert(links_in(e0, y).contains(NodeIdAndDir(x, Direction::Incoming)));
                }
            }
            assert forall|x: NodeId, l: NodeIdAndDir|
                keys.contains(x) && #[trigger] links_in(e2, x).contains(l) implies link_backed(edges2, x, l) by {
                assert(links_in(e0, x).contains(l));
                assert(link_backed(edges0, x, l));
            }
            assert forall|x: NodeId| keys.contains(x) implies #[trigger] links_in(e2, x).no_duplicates() by {
                assert(links_in(e0, x).no_duplicates());
                if a != b && x == b {
                    assert(g1.links(b) == g0.links(b));
                } else if x != a {
                    assert(g1.links(x) == g0.links(x));
                    if a != b {
                        assert(g2.links(x) == g1.links(x));
                    }
                } else if a != b {
                    assert(g2.links(a) == g1.links(a));
                }
            }
        }
        weight
    }
}

impl DependencyGraph {
    /// The links of `a`, when `a` is a node.
    fn links_of(&self, a: NodeId) -> (r: Option<&Vec<NodeIdAndDir>>)
        requires
            self.wf(),
        ensures
            r is Some <==> self.has_node(a),
            r matches Some(v) ==> v@ == self.links(a),
            r is None ==> self.links(a) == Seq::<NodeIdAndDir>::empty(),
    {
        let r = adjacency_get(&self.nodes, a);
        proof {
            if self.has_node(a) {
                let i = key_pos(self.node_ids(), a);
                assert(self.node_ids()[i] == self.entries()[i].0);
                lemma_links_at(self.entries(), i);
            }
        }
        r
    }

    /// Return the nodes of the graph, in node order.
    pub fn nodes(&self) -> (r: Vec<NodeId>)
        ensures
            r@ == self.node_ids(),
    {
        let n = adjacency_len(&self.nodes);
        let mut r: Vec<NodeId> = Vec::with_capacity(n);
        let mut i: usize = 0;
        while i < n
            invariant
                n == self.entries().len(),
                i <= n,
                r@ == self.node_ids().take(i as int),
            decreases n - i,
        {
            let (k, _) = adjacency_get_index(&self.nodes, i).unwrap();
            r.push(*k);
            proof {
                assert(self.node_ids().take(i + 1) =~= self.node_ids().take(i as int).push(*k));
            }
            i = i + 1;
        }
        proof {
            assert(self.node_ids().take(n as int) =~= self.node_ids());
        }
        r
    }

    /// Return all nodes with an edge starting from `a`, in link order.
    pub fn neighbors(&self, a: NodeId) -> (r: Vec<NodeId>)
        requires
            self.wf(),
        ensures
            r@ == self.successors(a),
            forall|b: NodeId| #[trigger] r@.contains(b) <==> self.has_edge(a, b),
            r@.no_duplicates(),
    {
        proof {
            if self.has_node(a) {
                assert(self.links(a).no_duplicates());
            } else {
                assert(self.links(a) =~= Seq::<NodeIdAndDir>::empty());
            }
            lemma_targets_distinct(self.links(a));
        }
        let mut r: Vec<NodeId> = Vec::new();
        match self.links_of(a) {
            Some(v) => {
                let len = v.len();
                let mut i: usize = 0;
                while i < len
                    invariant
                        len == v@.len(),
                        i <= len,
                        r@ == outgoing_targets(v@.take(i as int)),
                    decreases len - i,
                {
                    let NodeIdAndDir(n, dir) = v[i];
                    proof {
                        assert(v@.take(i + 1).drop_last() =~= v@.take(i as int));
                    }
                    if dir == Direction::Outgoing {
                        r.push(n);
                    }
                    i = i + 1;
                }
                proof {
                    assert(v@.take(len as int) =~= v@);
                }
            },
            None => {},
        }
        proof {
            lemma_successors_edges(*self, a);
            assert forall|b: NodeId| #[trigger] r@.contains(b) <==> self.has_edge(a, b) by {
                assert(self.successors(a).contains(b) <==> self.has_edge(a, b));
            }
        }
        r
    }

    /// Return all nodes linked with `a` in the direction `dir`, together with
    /// `a` itself when it has a self loop, in link order.
    pub fn _neighbors_directed(&self, a: NodeId, dir: Direction) -> (r: Vec<NodeId>)
        requires
            self.wf(),
        ensures
            r@ == directed_targets(self.links(a), a, dir),
    {
        let mut r: Vec<NodeId> = Vec::new();
        match self.links_of(a) {
            Some(v) => {
                let len = v.len();
                let mut i: usize = 0;
                while i < len
                    invariant
                        len == v@.len(),
                        i <= len,
                        r@ == directed_targets(v@.take(i as int), a, dir),
                    decreases len - i,
                {
                    let NodeIdAndDir(n, d) = v[i];
                    proof {
                        assert(v@.take(i + 1).drop_last() =~= v@.take(i as int));
                    }
                    if d == dir || n == a {
                        r.push(n);
                    }
                    i = i + 1;
                }
                proof {
                    assert(v@.take(len as int) =~= v@);
                }
            },
            None => {},
        }
        r
    }

    /// Return the edges starting from `a`, as (from, to) pairs, in link order.
    pub fn _edges(&self, a: NodeId) -> (r: Vec<(NodeId, NodeId)>)
        requires
            self.wf(),
        ensures
            r@ == self.successors(a).map_values(|b: NodeId| (a, b)),
    {
        let targets = self.neighbors(a);
        let mut r: Vec<(NodeId, NodeId)> = Vec::new();
        let len = targets.len();
        let mut i: usize = 0;
        while i < len
            invariant
                self.wf(),
                targets@ == self.successors(a),
                forall|b: NodeId| #[trigger] targets@.contains(b) <==> self.has_edge(a, b),
                len == targets@.len(),
                i <= len,
                r@ == targets@.take(i as int).map_values(|b: NodeId| (a, b)),
            decreases len - i,
        {
            let b = targets[i];
            proof {
                assert(targets@.contains(b));
            }
            let present = pair_set_contains(&self.edges, (a, b));
            assert(present);
            r.push((a, b));
            proof {
                assert(targets@.take(i + 1).map_values(|b: NodeId| (a, b)) =~= targets@.take(i as int).map_values(
                    |b: NodeId| (a, b),
                ).push((a, b)));
            }
            i = i + 1;
        }
        proof {
            assert(targets@.take(len as int) =~= targets@);
        }
        r
    }

    /// Return the edges between `a` and its neighbours in direction `dir`, as
    /// (from, to) pairs, in link order.
    pub fn _edges_directed(&self, a: NodeId, dir: Direction) -> (r: Vec<(NodeId, NodeId)>)
        requires
            self.wf(),
        ensures
            r@ == directed_targets(self.links(a), a, dir).map_values(|b: NodeId| oriented(dir, a, b)),
    {
        let targets = self._neighbors_directed(a, dir);
        proof {
            lemma_directed_targets_edges(*self, a, dir);
        }
        let mut r: Vec<(NodeId, NodeId)> = Vec::new();
        let len = targets.len();
        let mut i: usize = 0;
        while i < len
            invariant
                self.wf(),
                targets@ == directed_targets(self.links(a), a, dir),
                forall|b: NodeId| #[trigger] targets@.contains(b) ==> self.edge_pairs().contains(oriented(dir, a, b)),
                len == targets@.len(),
                i <= len,
                r@ == targets@.take(i as int).map_values(|b: NodeId| oriented(dir, a, b)),
            decreases len - i,
        {
            let b = targets[i];
            let pair = if dir == Direction::Incoming {
                (b, a)
            } else {
                (a, b)
            };
            proof {
                assert(targets@.contains(b));
                assert(pair == oriented(dir, a, b));
            }
            let present = pair_set_contains(&self.edges, pair);
            assert(present);
            r.push(pair);
            proof {
                assert(targets@.take(i + 1).map_values(|b: NodeId| oriented(dir, a, b)) =~= targets@.take(i as int).map_values(|b: NodeId| oriented(dir, a, b)).push(pair));
            }
            i = i + 1;
        }
        proof {
            assert(targets@.take(len as int) =~= targets@);
        }
        r
    }

    /// Return all edges of the graph, in the edge set's iteration order.
    pub fn all_edges(&self) -> (r: Vec<NodeIdPair>)
        ensures
            r@.len() == self.edge_pairs().len(),
            forall|i: int| 0 <= i < r@.len() ==> self.edge_pairs().contains((#[trigger] r@[i].0, r@[i].1)),
            forall|a: NodeId, b: NodeId| self.has_edge(a, b) ==> #[trigger] r@.contains(NodeIdPair(a, b)),
            r@.no_duplicates(),
    {
        let pairs = pair_set_to_vec(&self.edges);
        let mut r: Vec<NodeIdPair> = Vec::new();
        let len = pairs.len();
        let mut i: usize = 0;
        while i < len
            invariant
                len == pairs@.len(),
                i <= len,
                r@.len() == i,
                forall|k: int| 0 <= k < i ==> #[trigger] r@[k] == NodeIdPair(pairs@[k].0, pairs@[k].1),
            decreases len - i,
        {
            let (a, b) = pairs[i];
            r.push(NodeIdPair(a, b));
            i = i + 1;
        }
        proof {
            pairs@.unique_seq_to_set();
            assert forall|i: int| 0 <= i < r@.len() implies self.edge_pairs().contains((#[trigger] r@[i].0, r@[i].1)) by {
                assert(pairs@.to_set().contains(pairs@[i]));
            }
            assert forall|a: NodeId, b: NodeId| self.has_edge(a, b) implies #[trigger] r@.contains(NodeIdPair(a, b)) by {
                assert(pairs@.to_set().contains((a, b)));
                let k = choose|k: int| 0 <= k < pairs@.len() && pairs@[k] == (a, b);
                assert(r@[k] == NodeIdPair(a, b));
            }
            assert forall|x: int, y: int| 0 <= x < r@.len() && 0 <= y < r@.len() && x != y implies r@[x] != r@[y] by {
                assert(pairs@[x] != pairs@[y]);
            }
        }
        r
    }

    /// The type id that names node `n`: the one recorded in `services`, or
    /// the node's own id when it has no description.
    pub(crate) fn type_id_of(&self, n: NodeId) -> (id: u64)
        ensures
            id == type_id_named(self.service_infos(), n),
    {
        match crate::collections::dep_info_map_get(&self.services, n) {
            Some(info) => info.type_id,
            None => n,
        }
    }

    /// Records `order` as the cached topological order.
    pub(crate) fn cache_order(&mut self, order: Vec<NodeId>)
        ensures
            final(self).cached_order() == order@,
            final(self).entries() == old(self).entries(),
            final(self).edge_pairs() == old(self).edge_pairs(),
            final(self).service_infos() == old(self).service_infos(),
    {
        self.topsort = order;
    }

    /// Records `info` in `services` under its type id.
    pub(crate) fn record_service(&mut self, info: ServiceDepInfo)
        ensures
            final(self).service_infos() == old(self).service_infos().insert(info.type_id, info),
            final(self).entries() == old(self).entries(),
            final(self).edge_pairs() == old(self).edge_pairs(),
            final(self).cached_order() == old(self).cached_order(),
    {
        let key = info.type_id;
        dep_info_map_insert(&mut self.services, key, info);
    }

    /// The position of node `ix` in node order.
    pub(crate) fn to_index(&self, ix: NodeId) -> (r: usize)
        requires
            self.has_node(ix),
        ensures
            r < self.node_ids().len(),
            self.node_ids()[r as int] == ix,
    {
        adjacency_index_of(&self.nodes, ix).unwrap()
    }
}

/// The outgoing targets of links listed once each are listed once each.
proof fn lemma_targets_distinct(s: Seq<NodeIdAndDir>)
    requires
        s.no_duplicates(),
    ensures
        outgoing_targets(s).no_duplicates(),
    decreases s.len(),
{
    if s.len() > 0 {
        let d = s.drop_last();
        assert(d.no_duplicates()) by {
            assert forall|a: int, b: int| 0 <= a < d.len() && 0 <= b < d.len() && a != b implies d[a] != d[b] by {
                assert(d[a] == s[a] && d[b] == s[b]);
            }
        }
        lemma_targets_distinct(d);
        if s.last().1 == Direction::Outgoing {
            let t = s.last().0;
            lemma_outgoing_targets_contains(d, t);
            assert(s.last() == NodeIdAndDir(t, Direction::Outgoing));
            if d.contains(NodeIdAndDir(t, Direction::Outgoing)) {
                let q = choose|q: int| 0 <= q < d.len() && d[q] == NodeIdAndDir(t, Direction::Outgoing);
                assert(s[q] == s[s.len() - 1]);
            }
            lemma_no_dup_push(outgoing_targets(d), t);
        }
    }
}

/// Adding an edge that the graph already has changes nothing: the nodes,
/// the edges and the links that `add_edge` gives are those there were.
pub proof fn lemma_add_edge_again(g: DependencyGraph, a: NodeId, b: NodeId)
    requires
        g.wf(),
        g.has_edge(a, b),
    ensures
        with_key(with_key(g.node_ids(), a), b) == g.node_ids(),
        g.edge_pairs().insert((a, b)) == g.edge_pairs(),
{
    assert(g.edge_pairs().contains((a, b)));
    assert(g.edge_pairs().insert((a, b)) =~= g.edge_pairs());
}

/// Outgoing targets are exactly the ids of outgoing links.
pub proof fn lemma_outgoing_targets_contains(s: Seq<NodeIdAndDir>, b: NodeId)
    ensures
        outgoing_targets(s).contains(b) <==> s.contains(NodeIdAndDir(b, Direction::Outgoing)),
    decreases s.len(),
{
    if s.len() > 0 {
        lemma_outgoing_targets_contains(s.drop_last(), b);
        let rest = outgoing_targets(s.drop_last());
        lemma_push_contains(s.drop_last(), s.last(), NodeIdAndDir(b, Direction::Outgoing));
        assert(s.drop_last().push(s.last()) =~= s);
        if s.last().1 == Direction::Outgoing {
            lemma_push_contains(rest, s.last().0, b);
        }
    }
}

/// Directed targets are exactly the ids of links in the direction, or of the
/// node itself.
pub proof fn lemma_directed_targets_contains(s: Seq<NodeIdAndDir>, a: NodeId, dir: Direction, b: NodeId)
    ensures
        directed_targets(s, a, dir).contains(b) <==> s.contains(NodeIdAndDir(b, dir)) || (b == a && s.contains(NodeIdAndDir(b, dir.flip()))),
    decreases s.len(),
{
    if s.len() > 0 {
        lemma_directed_targets_contains(s.drop_last(), a, dir, b);
        let rest = directed_targets(s.drop_last(), a, dir);
        assert(s.drop_last().push(s.last()) =~= s);
        assert forall|d: Direction| #[trigger] s.contains(NodeIdAndDir(b, d)) <==> s.drop_last().contains(NodeIdAndDir(b, d)) || s.last() == NodeIdAndDir(b, d) by {
            lemma_push_contains(s.drop_last(), s.last(), NodeIdAndDir(b, d));
        }
        if s.last().1 == dir || s.last().0 == a {
            lemma_push_contains(rest, s.last().0, b);
        }
        let l = s.last();
        if l.1 != dir && l.0 == a {
            assert(l.1 == dir.flip());
        }
    }
}

/// In a well-formed graph the successors of `a` are the targets of the edges
/// leaving `a`.
pub proof fn lemma_successors_edges(g: DependencyGraph, a: NodeId)
    requires
        g.wf(),
    ensures
        forall|b: NodeId| #[trigger] g.successors(a).contains(b) <==> g.has_edge(a, b),
{
    assert forall|b: NodeId| #[trigger] g.successors(a).contains(b) <==> g.has_edge(a, b) by {
        lemma_outgoing_targets_contains(g.links(a), b);
        if g.links(a).contains(NodeIdAndDir(b, Direction::Outgoing)) {
            if !g.has_node(a) {
                assert(g.links(a) =~= Seq::<NodeIdAndDir>::empty());
            }
            assert(link_backed(g.edge_pairs(), a, NodeIdAndDir(b, Direction::Outgoing)));
        }
    }
}

/// In a well-formed graph every directed target of `a` stands for an edge.
pub proof fn lemma_directed_targets_edges(g: DependencyGraph, a: NodeId, dir: Direction)
    requires
        g.wf(),
    ensures
        forall|b: NodeId| #[trigger] directed_targets(g.links(a), a, dir).contains(b) ==> g.edge_pairs().contains(
            oriented(dir, a, b),
        ),
{
    assert forall|b: NodeId| #[trigger] directed_targets(g.links(a), a, dir).contains(b) implies g.edge_pairs().contains(
        oriented(dir, a, b),
    ) by {
        lemma_directed_targets_contains(g.links(a), a, dir, b);
        if !g.has_node(a) {
            assert(g.links(a) =~= Seq::<NodeIdAndDir>::empty());
        }
        if g.links(a).contains(NodeIdAndDir(b, dir)) {
            assert(link_backed(g.edge_pairs(), a, NodeIdAndDir(b, dir)));
        } else {
            assert(link_backed(g.edge_pairs(), a, NodeIdAndDir(b, dir.flip())));
        }
    }
}

/// The edge that link `l` of node `n` stands for.
pub open spec fn edge_of(n: NodeId, l: NodeIdAndDir) -> (NodeId, NodeId) {
    match l.1 {
        Direction::Outgoing => (n, l.0),
        Direction::Incoming => (l.0, n),
    }
}

/// Whether edge `e` is one of those that the first `j` links in `links` of
/// node `n` stand for.
pub open spec fn edge_among(n: NodeId, links: Seq<NodeIdAndDir>, j: int, e: (NodeId, NodeId)) -> bool {
    exists|k: int| 0 <= k < j && #[trigger] edge_of(n, links[k]) == e
}

/// The keys after removing key `n` by swapping the last key into its place.
pub open spec fn without_key(keys: Seq<NodeId>, n: NodeId) -> Seq<NodeId> {
    if keys.contains(n) {
        let i = key_pos(keys, n);
        keys.update(i, keys.last()).drop_last()
    } else {
        keys
    }
}

impl DependencyGraph {
    /// Remove a node `n` from the graph, together with every edge that starts
    /// or ends at it.
    ///
    /// Computes in **O(N)** time, due to the removal of edges with other nodes.
    pub fn remove_node(&mut self, n: NodeId)
        requires
            old(self).wf(),
        ensures
            final(self).wf(),
            final(self).node_ids() == without_key(old(self).node_ids(), n),
            forall|x: NodeId| #[trigger] final(self).has_node(x) <==> old(self).has_node(x) && x != n,
            forall|e: (NodeId, NodeId)| #[trigger]
                final(self).edge_pairs().contains(e) <==> old(self).edge_pairs().contains(e) && e.0
                    != n && e.1 != n,
            forall|x: NodeId, l: NodeIdAndDir|
                x != n && #[trigger] final(self).links(x).contains(l) ==> old(self).links(x).contains(l),
            final(self).service_infos() == old(self).service_infos(),
            final(self).cached_order() == old(self).cached_order(),
            !old(self).has_node(n) ==> final(self).entries() == old(self).entries() && final(self).edge_pairs()
                == old(self).edge_pairs(),
    {
        let ghost g0 = *self;
        let ghost e0 = self.entries();
        let ghost keys0 = entry_keys(e0);
        let ghost edges0 = self.edge_pairs();
        let links = match adjacency_swap_remove(&mut self.nodes, n) {
            Some(links) => links,
            None => {
                proof {
                    assert(edges0.contains((n, n)) ==> keys0.contains(n));
                    assert forall|e: (NodeId, NodeId)| #[trigger] edges0.contains(e) implies e.0 != n && e.1 != n by {
                        assert(edges0.contains((e.0, e.1)));
                    }
                }
                return ;
            },
        };
        let ghost i0 = key_pos(keys0, n);
        let ghost keys1 = entry_keys(self.entries());
        proof {
            assert(keys0[i0] == e0[i0].0);
            lemma_links_at(e0, i0);
            assert(links@ == g0.links(n));
            lemma_entries_swap_remove(e0, i0);
            assert forall|x: NodeId| x != n implies #[trigger] self.links(x) == g0.links(x) by {
                lemma_entries_swap_remove_links(e0, i0, x);
            }
        }
        let len = links.len();
        let mut j: usize = 0;
        while j < len
            invariant
                g0.wf(),
                e0 == g0.entries(),
                keys0 == g0.node_ids(),
                edges0 == g0.edge_pairs(),
                keys0.contains(n),
                links@ == g0.links(n),
                len == links@.len(),
                j <= len,
                entry_keys(self.entries()) == keys1,
                keys1.no_duplicates(),
                forall|x: NodeId| #[trigger] keys1.contains(x) <==> keys0.contains(x) && x != n,
                forall|x: NodeId, l: NodeIdAndDir|
                    x != n ==> (#[trigger] self.links(x).contains(l) <==> g0.links(x).contains(l) && !(
                    l.0 == n && links@.take(j as int).contains(NodeIdAndDir(x, l.1.flip())))),
                forall|x: NodeId| #[trigger] keys1.contains(x) ==> self.links(x).no_duplicates(),
                forall|e: (NodeId, NodeId)| #[trigger]
                    self.edge_pairs().contains(e) <==> edges0.contains(e) && !edge_among(n, links@, j as int, e),
                self.service_infos() == g0.service_infos(),
                self.cached_order() == g0.cached_order(),
            decreases len - j,
        {
            let NodeIdAndDir(succ, dir) = links[j];
            let edge = if dir == Direction::Outgoing {
                (n, succ)
            } else {
                (succ, n)
            };
            let ghost gb = *self;
            proof {
                if !keys1.contains(succ) {
                    assert(self.links(succ) =~= Seq::<NodeIdAndDir>::empty());
                }
            }
            self.remove_single_edge(succ, n, dir.opposite());
            let ghost gm = *self;
            pair_set_remove(&mut self.edges, edge);
            proof {
                let lj = links@[j as int];
                assert(lj == NodeIdAndDir(succ, dir));
                assert(edge == edge_of(n, lj));
                assert(links@.take(j + 1) =~= links@.take(j as int).push(lj));
                assert forall|x: NodeId, l: NodeIdAndDir|
                    x != n implies (#[trigger] self.links(x).contains(l) <==> g0.links(x).contains(l) && !(
                    l.0 == n && links@.take(j + 1).contains(NodeIdAndDir(x, l.1.flip())))) by {
                    lemma_push_contains(links@.take(j as int), lj, NodeIdAndDir(x, l.1.flip()));
                    assert(self.links(x) == gm.links(x));
                    if x == succ {
                        assert(gm.links(x).contains(l) <==> gb.links(x).contains(l) && l != NodeIdAndDir(n, dir.flip()));
                        assert(gb.links(x).contains(l) <==> g0.links(x).contains(l) && !(
                            l.0 == n && links@.take(j as int).contains(NodeIdAndDir(x, l.1.flip()))));
                        if l.0 == n && l.1.flip() == dir {
                            assert(l == NodeIdAndDir(n, dir.flip()));
                        }
                    } else {
                        assert(gm.links(x) == gb.links(x));
                    }
                }
                assert forall|x: NodeId| #[trigger] keys1.contains(x) implies self.links(x).no_duplicates() by {
                    assert(self.links(x) == gm.links(x));
                    if x != succ {
                        assert(gm.links(x) == gb.links(x));
                    }
                }
                assert forall|e: (NodeId, NodeId)| #[trigger] self.edge_pairs().contains(e) <==> edges0.contains(e)
                    && !edge_among(n, links@, j + 1, e) by {
                    if edge_among(n, links@, j + 1, e) && !edge_among(n, links@, j as int, e) {
                        let k = choose|k: int| 0 <= k < j + 1 && #[trigger] edge_of(n, links@[k]) == e;
                        assert(k == j);
                    }
                    if edge_among(n, links@, j as int, e) {
                        let k = choose|k: int| 0 <= k < j && #[trigger] edge_of(n, links@[k]) == e;
                        assert(edge_among(n, links@, j + 1, e));
                    }
                    if e == edge {
                        assert(edge_of(n, links@[j as int]) == e);
                    }
                }
            }
            j = j + 1;
        }
        proof {
            assert(links@.take(len as int) =~= links@);
            lemma_remove_node_wf(g0, n, *self);
        }
    }
}

/// The entries after removing the entry at position `i` by swapping the last
/// entry into its place.
pub proof fn lemma_entries_swap_remove(entries: Seq<(NodeId, Seq<NodeIdAndDir>)>, i: int)
    requires
        entry_keys(entries).no_duplicates(),
        0 <= i < entries.len(),
    ensures
        entry_keys(entries.update(i, entries.last()).drop_last()) == without_key(entry_keys(entries), entries[i].0),
        entry_keys(entries.update(i, entries.last()).drop_last()).no_duplicates(),
        forall|x: NodeId| #[trigger] entry_keys(entries.update(i, entries.last()).drop_last()).contains(x)
            <==> entry_keys(entries).contains(x) && x != entries[i].0,
{
    let keys = entry_keys(entries);
    let n = entries[i].0;
    lemma_links_at(entries, i);
    assert(keys[i] == n);
    assert(keys.contains(n));
    let e2 = entries.update(i, entries.last()).drop_last();
    assert(entry_keys(e2) =~= keys.update(i, keys.last()).drop_last());
    lemma_swap_remove_members(keys, i);
}

/// Links of other keys are kept when an entry is swap-removed.
pub proof fn lemma_entries_swap_remove_links(entries: Seq<(NodeId, Seq<NodeIdAndDir>)>, i: int, x: NodeId)
    requires
        entry_keys(entries).no_duplicates(),
        0 <= i < entries.len(),
        x != entries[i].0,
    ensures
        links_in(entries.update(i, entries.last()).drop_last(), x) == links_in(entries, x),
{
    let keys = entry_keys(entries);
    let e2 = entries.update(i, entries.last()).drop_last();
    lemma_entries_swap_remove(entries, i);
    if keys.contains(x) {
        let j = key_pos(keys, x);
        lemma_links_at(entries, j);
        let last = entries.len() - 1;
        if j == last {
            assert(e2[i] == entries[j]);
            lemma_links_at(e2, i);
        } else {
            assert(j != i);
            assert(e2[j] == entries[j]);
            lemma_links_at(e2, j);
        }
    }
}

/// After every link of `n` has been removed from the other ends and every
/// edge at `n` dropped, the graph without `n` is well formed.
pub proof fn lemma_remove_node_wf(g0: DependencyGraph, n: NodeId, g: DependencyGraph)
    requires
        g0.wf(),
        g0.has_node(n),
        entry_keys(g.entries()).no_duplicates(),
        forall|x: NodeId| #[trigger] g.node_ids().contains(x) <==> g0.node_ids().contains(x) && x != n,
        forall|x: NodeId, l: NodeIdAndDir|
            x != n ==> (#[trigger] g.links(x).contains(l) <==> g0.links(x).contains(l) && !(l.0 == n
                && g0.links(n).contains(NodeIdAndDir(x, l.1.flip())))),
        forall|x: NodeId| #[trigger] g.node_ids().contains(x) ==> g.links(x).no_duplicates(),
        forall|e: (NodeId, NodeId)| #[trigger]
            g.edge_pairs().contains(e) <==> g0.edge_pairs().contains(e) && !edge_among(
                n,
                g0.links(n),
                g0.links(n).len() as int,
                e,
            ),
    ensures
        g.wf(),
        forall|e: (NodeId, NodeId)| #[trigger]
            g.edge_pairs().contains(e) <==> g0.edge_pairs().contains(e) && e.0 != n && e.1 != n,
{
    let L = g0.links(n);
    let E0 = g0.edge_pairs();
    assert forall|e: (NodeId, NodeId)| E0.contains(e) implies (#[trigger] edge_among(n, L, L.len() as int, e) <==> e.0
        == n || e.1 == n) by {
        if edge_among(n, L, L.len() as int, e) {
            let k = choose|k: int| 0 <= k < L.len() && #[trigger] edge_of(n, L[k]) == e;
        }
        if e.0 == n {
            assert(E0.contains((n, e.1)));
            assert(L.contains(NodeIdAndDir(e.1, Direction::Outgoing)));
            let k = choose|k: int| 0 <= k < L.len() && L[k] == NodeIdAndDir(e.1, Direction::Outgoing);
            assert(edge_of(n, L[k]) == e);
        } else if e.1 == n {
            assert(E0.contains((e.0, n)));
            assert(L.contains(NodeIdAndDir(e.0, Direction::Incoming)));
            let k = choose|k: int| 0 <= k < L.len() && L[k] == NodeIdAndDir(e.0, Direction::Incoming);
            assert(edge_of(n, L[k]) == e);
        }
    }
    assert forall|e: (NodeId, NodeId)| #[trigger]
        g.edge_pairs().contains(e) <==> E0.contains(e) && e.0 != n && e.1 != n by {
        if E0.contains(e) {
            assert(edge_among(n, L, L.len() as int, e) <==> e.0 == n || e.1 == n);
        }
    }
    assert forall|a: NodeId, b: NodeId| #[trigger] g.edge_pairs().contains((a, b)) implies g.has_node(a) && g.has_node(b)
        && g.links(a).contains(NodeIdAndDir(b, Direction::Outgoing)) && (a != b ==> g.links(b).contains(
        NodeIdAndDir(a, Direction::Incoming))) by {
        assert(g.edge_pairs().contains((a, b)));
        assert(E0.contains((a, b)));
        assert(g0.has_edge(a, b));
        assert(g.node_ids().contains(a));
        assert(g.node_ids().contains(b));
        assert(g0.links(a).contains(NodeIdAndDir(b, Direction::Outgoing)));
        assert(g.links(a).contains(NodeIdAndDir(b, Direction::Outgoing)));
        if a != b {
            assert(g0.links(b).contains(NodeIdAndDir(a, Direction::Incoming)));
            assert(g.links(b).contains(NodeIdAndDir(a, Direction::Incoming)));
        }
    }
    assert forall|a: NodeId, l: NodeIdAndDir| g.has_node(a) && #[trigger] links_in(g.entries(), a).contains(l) implies link_backed(
        g.edge_pairs(),
        a,
        l,
    ) by {
        assert(g.links(a).contains(l));
        assert(g.node_ids().contains(a));
        assert(a != n);
        assert(g0.links(a).contains(l));
        assert(g0.node_ids().contains(a));
        assert(link_backed(E0, a, l));
        if l.0 == n {
            match l.1 {
                Direction::Outgoing => {
                    assert(E0.contains((a, n)));
                    assert(g0.has_edge(a, n));
                    assert(L.contains(NodeIdAndDir(a, Direction::Incoming)));
                },
                Direction::Incoming => {
                    assert(E0.contains((n, a)));
                    assert(g0.has_edge(n, a));
                    assert(L.contains(NodeIdAndDir(a, Direction::Outgoing)));
                },
            }
        }
        match l.1 {
            Direction::Outgoing => {
                assert(g.edge_pairs().contains((a, l.0)));
            },
            Direction::Incoming => {
                assert(g.edge_pairs().contains((l.0, a)));
            },
        }
    }
    assert forall|a: NodeId| entry_keys(g.entries()).contains(a) implies #[trigger] links_in(g.entries(), a).no_duplicates() by {
        assert(g.node_ids().contains(a));
    }
}

/// Removing the element at position `p` by swapping the last element into its
/// place, in a sequence without duplicates, removes exactly that element.
pub proof fn lemma_swap_remove_members<T>(s: Seq<T>, p: int)
    requires
        s.no_duplicates(),
        0 <= p < s.len(),
    ensures
        s.update(p, s.last()).drop_last().no_duplicates(),
        forall|x: T| #[trigger]
            s.update(p, s.last()).drop_last().contains(x) <==> s.contains(x) && x != s[p],
{
    let t = s.update(p, s.last()).drop_last();
    let n = s.len() - 1;
    assert forall|i: int| 0 <= i < t.len() implies #[trigger] t[i] == if i == p {
        s[n]
    } else {
        s[i]
    } by {}
    assert forall|i: int, j: int| 0 <= i < t.len() && 0 <= j < t.len() && i != j implies t[i] != t[j] by {
        let si = if i == p { n } else { i };
        let sj = if j == p { n } else { j };
        assert(t[i] == s[si]);
        assert(t[j] == s[sj]);
    }
    assert forall|x: T| #[trigger] t.contains(x) <==> s.contains(x) && x != s[p] by {
        if t.contains(x) {
            let i = choose|i: int| 0 <= i < t.len() && t[i] == x;
            let si = if i == p { n } else { i };
            assert(s[si] == x);
            assert(si != p);
        }
        if s.contains(x) && x != s[p] {
            let i = choose|i: int| 0 <= i < s.len() && s[i] == x;
            assert(i != p);
            if i == n {
                assert(t[p] == x);
            } else {
                assert(t[i] == x);
            }
        }
    }
}

/// Recording a new edge at both of its ends keeps the entries well formed.
pub proof fn lemma_wf_new_edge(
    entries: Seq<(NodeId, Seq<NodeIdAndDir>)>,
    edges: Set<(NodeId, NodeId)>,
    a: NodeId,
    b: NodeId,
    e2: Seq<(NodeId, Seq<NodeIdAndDir>)>,
)
    requires
        wf_parts(entries, edges),
        !edges.contains((a, b)),
        entry_keys(e2).no_duplicates(),
        entry_keys(e2) == with_key(with_key(entry_keys(entries), a), b),
        forall|x: NodeId| #[trigger]
            links_in(e2, x) == if x == a {
                links_in(entries, a).push(NodeIdAndDir(b, Direction::Outgoing))
            } else if x == b {
                links_in(entries, b).push(NodeIdAndDir(a, Direction::Incoming))
            } else {
                links_in(entries, x)
            },
    ensures
        wf_parts(e2, edges.insert((a, b))),
{
    let keys = entry_keys(entries);
    let keys2 = entry_keys(e2);
    let edges2 = edges.insert((a, b));
    assert forall|x: NodeId| #[trigger] keys2.contains(x) <==> (keys.contains(x) || x == a || x == b) by {
        lemma_push_contains(keys, a, x);
        lemma_push_contains(with_key(keys, a), b, x);
    }
    assert forall|x: NodeId, l: NodeIdAndDir| #[trigger] links_in(entries, x).contains(l) implies links_in(
        e2,
        x,
    ).contains(l) by {
        if x == a {
            lemma_push_contains(links_in(entries, a), NodeIdAndDir(b, Direction::Outgoing), l);
        } else if x == b {
            lemma_push_contains(links_in(entries, b), NodeIdAndDir(a, Direction::Incoming), l);
        }
    }
    assert forall|x: NodeId, y: NodeId| #[trigger] edges2.contains((x, y)) implies keys2.contains(x)
        && keys2.contains(y) && links_in(e2, x).contains(NodeIdAndDir(y, Direction::Outgoing)) && (x
        != y ==> links_in(e2, y).contains(NodeIdAndDir(x, Direction::Incoming))) by {
        if (x, y) == (a, b) {
            lemma_push_contains(links_in(entries, a), NodeIdAndDir(b, Direction::Outgoing), NodeIdAndDir(b, Direction::Outgoing));
            lemma_push_contains(links_in(entries, b), NodeIdAndDir(a, Direction::Incoming), NodeIdAndDir(a, Direction::Incoming));
        } else {
            assert(edges.contains((x, y)));
            assert(links_in(entries, x).contains(NodeIdAndDir(y, Direction::Outgoing)));
            if x != y {
                assert(links_in(entries, y).contains(NodeIdAndDir(x, Direction::Incoming)));
            }
        }
    }
    assert forall|x: NodeId, l: NodeIdAndDir|
        keys2.contains(x) && #[trigger] links_in(e2, x).contains(l) implies link_backed(edges2, x, l) by {
        if x == a {
            lemma_push_contains(links_in(entries, a), NodeIdAndDir(b, Direction::Outgoing), l);
            if l != NodeIdAndDir(b, Direction::Outgoing) {
                if !keys.contains(x) {
                    assert(links_in(entries, x) =~= Seq::<NodeIdAndDir>::empty());
                }
                assert(link_backed(edges, x, l));
            }
        } else if x == b {
            lemma_push_contains(links_in(entries, b), NodeIdAndDir(a, Direction::Incoming), l);
            if l != NodeIdAndDir(a, Direction::Incoming) {
                if !keys.contains(x) {
                    assert(links_in(entries, x) =~= Seq::<NodeIdAndDir>::empty());
                }
                assert(link_backed(edges, x, l));
            }
        } else {
            assert(keys.contains(x));
            assert(link_backed(edges, x, l));
        }
    }
    assert forall|x: NodeId| keys2.contains(x) implies #[trigger] links_in(e2, x).no_duplicates() by {
        if x == a {
            let s = links_in(entries, a);
            if keys.contains(a) {
                assert(!s.contains(NodeIdAndDir(b, Direction::Outgoing))) by {
                    if s.contains(NodeIdAndDir(b, Direction::Outgoing)) {
                        assert(link_backed(edges, a, NodeIdAndDir(b, Direction::Outgoing)));
                    }
                }
            } else {
                assert(s =~= Seq::<NodeIdAndDir>::empty());
            }
            lemma_no_dup_push(s, NodeIdAndDir(b, Direction::Outgoing));
        } else if x == b {
            let s = links_in(entries, b);
            if keys.contains(b) {
                assert(!s.contains(NodeIdAndDir(a, Direction::Incoming))) by {
                    if s.contains(NodeIdAndDir(a, Direction::Incoming)) {
                        assert(link_backed(edges, b, NodeIdAndDir(a, Direction::Incoming)));
                    }
                }
            } else {
                assert(s =~= Seq::<NodeIdAndDir>::empty());
            }
            lemma_no_dup_push(s, NodeIdAndDir(a, Direction::Incoming));
        } else {
            assert(keys.contains(x));
        }
    }
}

/// Pushing an absent element keeps a sequence free of duplicates.
pub proof fn lemma_no_dup_push<T>(s: Seq<T>, v: T)
    requires
        s.no_duplicates(),
        !s.contains(v),
    ensures
        s.push(v).no_duplicates(),
{
    let t = s.push(v);
    assert forall|i: int, j: int| 0 <= i < t.len() && 0 <= j < t.len() && i != j implies t[i] != t[j] by {
        if i < s.len() && j < s.len() {
            assert(t[i] == s[i] && t[j] == s[j]);
        } else if i < s.len() {
            assert(t[i] == s[i]);
        } else if j < s.len() {
            assert(t[j] == s[j]);
        }
    }
}

/// Adding a key with no links keeps the entries well formed.
pub proof fn lemma_wf_new_key(
    entries: Seq<(NodeId, Seq<NodeIdAndDir>)>,
    edges: Set<(NodeId, NodeId)>,
    n: NodeId,
)
    requires
        wf_parts(entries, edges),
        !entry_keys(entries).contains(n),
    ensures
        wf_parts(entries.push((n, Seq::empty())), edges),
{
    let e2 = entries.push((n, Seq::<NodeIdAndDir>::empty()));
    lemma_keys_push(entries, n, Seq::empty());
    assert forall|x: NodeId| #[trigger] links_in(e2, x) == if x == n {
        Seq::<NodeIdAndDir>::empty()
    } else {
        links_in(entries, x)
    } by {
        lemma_links_push(entries, n, Seq::empty(), x);
    }
    assert forall|x: NodeId| #[trigger] entry_keys(e2).contains(x) <==> (entry_keys(entries).contains(x) || x == n) by {
        lemma_push_contains(entry_keys(entries), n, x);
    }
    assert forall|a: NodeId, l: NodeIdAndDir|
        entry_keys(e2).contains(a) && #[trigger] links_in(e2, a).contains(l) implies link_backed(edges, a, l) by {
        if a == n {
            assert(!links_in(e2, a).contains(l));
        } else {
            assert(links_in(entries, a).contains(l));
        }
    }
    assert forall|a: NodeId, b: NodeId| #[trigger] edges.contains((a, b)) implies entry_keys(e2).contains(a)
        && entry_keys(e2).contains(b) && links_in(e2, a).contains(NodeIdAndDir(b, Direction::Outgoing))
        && (a != b ==> links_in(e2, b).contains(NodeIdAndDir(a, Direction::Incoming))) by {
        assert(links_in(entries, a).contains(NodeIdAndDir(b, Direction::Outgoing)));
    }
    assert forall|a: NodeId| entry_keys(e2).contains(a) implies #[trigger] links_in(e2, a).no_duplicates() by {
        if a != n {
            assert(entry_keys(entries).contains(a));
        }
    }
}

/// Links and keys after appending a link.
pub proof fn lemma_with_link(
    entries: Seq<(NodeId, Seq<NodeIdAndDir>)>,
    k: NodeId,
    l: NodeIdAndDir,
    x: NodeId,
)
    requires
        entry_keys(entries).no_duplicates(),
    ensures
        entry_keys(with_link(entries, k, l)) == with_key(entry_keys(entries), k),
        entry_keys(with_link(entries, k, l)).no_duplicates(),
        links_in(with_link(entries, k, l), x) == if x == k {
            links_in(entries, k).push(l)
        } else {
            links_in(entries, x)
        },
{
    let keys = entry_keys(entries);
    if keys.contains(k) {
        let i = key_pos(keys, k);
        assert(keys[i] == entries[i].0);
        lemma_links_at(entries, i);
        lemma_keys_update(entries, i, entries[i].1.push(l));
        lemma_links_update(entries, i, entries[i].1.push(l), x);
    } else {
        lemma_keys_push(entries, k, seq![l]);
        lemma_links_push(entries, k, seq![l], x);
        assert(links_in(entries, k) =~= Seq::<NodeIdAndDir>::empty());
        assert(Seq::<NodeIdAndDir>::empty().push(l) =~= seq![l]);
    }
}

/// Membership in a sequence after a push.
pub proof fn lemma_push_contains<T>(s: Seq<T>, v: T, x: T)
    ensures
        s.push(v).contains(x) <==> (s.contains(x) || x == v),
{
    if s.contains(x) {
        let i = choose|i: int| 0 <= i < s.len() && s[i] == x;
        assert(s.push(v)[i] == x);
    }
    if x == v {
        assert(s.push(v)[s.len() as int] == v);
    }
    if s.push(v).contains(x) {
        let i = choose|i: int| 0 <= i < s.push(v).len() && s.push(v)[i] == x;
        if i < s.len() {
            assert(s[i] == x);
        }
    }
}

/// The keys after appending an entry.
pub proof fn lemma_keys_push(
    entries: Seq<(NodeId, Seq<NodeIdAndDir>)>,
    n: NodeId,
    v: Seq<NodeIdAndDir>,
)
    ensures
        entry_keys(entries.push((n, v))) == entry_keys(entries).push(n),
{
    assert(entry_keys(entries.push((n, v))) =~= entry_keys(entries).push(n));
}

/// The keys after replacing the value of an entry.
pub proof fn lemma_keys_update(
    entries: Seq<(NodeId, Seq<NodeIdAndDir>)>,
    i: int,
    v: Seq<NodeIdAndDir>,
)
    requires
        0 <= i < entries.len(),
    ensures
        entry_keys(entries.update(i, (entries[i].0, v))) == entry_keys(entries),
{
    assert(entry_keys(entries.update(i, (entries[i].0, v))) =~= entry_keys(entries));
}

/// With distinct keys, the entry at position `i` holds the links of its key.
pub proof fn lemma_links_at(entries: Seq<(NodeId, Seq<NodeIdAndDir>)>, i: int)
    requires
        entry_keys(entries).no_duplicates(),
        0 <= i < entries.len(),
    ensures
        links_in(entries, entries[i].0) == entries[i].1,
        key_pos(entry_keys(entries), entries[i].0) == i,
{
    let keys = entry_keys(entries);
    assert(keys[i] == entries[i].0);
    assert(keys.contains(entries[i].0));
    let j = key_pos(keys, entries[i].0);
    assert(keys[j] == entries[j].0);
}

/// Links after appending an entry for a new key.
pub proof fn lemma_links_push(
    entries: Seq<(NodeId, Seq<NodeIdAndDir>)>,
    n: NodeId,
    v: Seq<NodeIdAndDir>,
    x: NodeId,
)
    requires
        entry_keys(entries).no_duplicates(),
        !entry_keys(entries).contains(n),
    ensures
        links_in(entries.push((n, v)), x) == if x == n {
            v
        } else {
            links_in(entries, x)
        },
        entry_keys(entries.push((n, v))).no_duplicates(),
{
    let e2 = entries.push((n, v));
    lemma_keys_push(entries, n, v);
    let keys = entry_keys(entries);
    let keys2 = entry_keys(e2);
    assert forall|a: int, b: int| 0 <= a < keys2.len() && 0 <= b < keys2.len() && a != b implies keys2[a]
        != keys2[b] by {
        if a < keys.len() && b < keys.len() {
            assert(keys2[a] == keys[a]);
            assert(keys2[b] == keys[b]);
        } else if a < keys.len() {
            assert(keys2[a] == keys[a]);
        } else if b < keys.len() {
            assert(keys2[b] == keys[b]);
        }
    }
    if x == n {
        lemma_links_at(e2, entries.len() as int);
    } else if keys.contains(x) {
        let i = key_pos(keys, x);
        lemma_links_at(entries, i);
        assert(e2[i] == entries[i]);
        lemma_links_at(e2, i);
    } else {
        assert(!keys2.contains(x)) by {
            if keys2.contains(x) {
                let j = choose|j: int| 0 <= j < keys2.len() && keys2[j] == x;
                if j < keys.len() {
                    assert(keys[j] == x);
                }
            }
        }
    }
}

/// Links after replacing the value of the entry at position `i`.
pub proof fn lemma_links_update(
    entries: Seq<(NodeId, Seq<NodeIdAndDir>)>,
    i: int,
    v: Seq<NodeIdAndDir>,
    x: NodeId,
)
    requires
        entry_keys(entries).no_duplicates(),
        0 <= i < entries.len(),
    ensures
        links_in(entries.update(i, (entries[i].0, v)), x) == if x == entries[i].0 {
            v
        } else {
            links_in(entries, x)
        },
{
    let e2 = entries.update(i, (entries[i].0, v));
    lemma_keys_update(entries, i, v);
    let keys = entry_keys(entries);
    if x == entries[i].0 {
        lemma_links_at(e2, i);
    } else if keys.contains(x) {
        let j = key_pos(keys, x);
        lemma_links_at(entries, j);
        assert(j != i);
        assert(e2[j] == entries[j]);
        lemma_links_at(e2, j);
    }
}


/// Removing an edge that was just added gives back the edges of the graph
/// and the links recorded for every node.
pub proof fn lemma_remove_undoes_add(g0: DependencyGraph, g1: DependencyGraph, g2: DependencyGraph, a: NodeId, b: NodeId)
    requires
        g0.wf(),
        !g0.has_edge(a, b),
        g1.edge_pairs() == g0.edge_pairs().insert((a, b)),
        forall|x: NodeId| #[trigger]
            g1.links(x) == if x == a {
                g0.links(a).push(NodeIdAndDir(b, Direction::Outgoing))
            } else if x == b {
                g0.links(b).push(NodeIdAndDir(a, Direction::Incoming))
            } else {
                g0.links(x)
            },
        g2.edge_pairs() == g1.edge_pairs().remove((a, b)),
        forall|x: NodeId, l: NodeIdAndDir| #[trigger]
            g2.links(x).contains(l) <==> g1.links(x).contains(l) && !(x == a && l == NodeIdAndDir(
                b,
                Direction::Outgoing,
            )) && !(x == b && a != b && l == NodeIdAndDir(a, Direction::Incoming)),
    ensures
        g2.edge_pairs() == g0.edge_pairs(),
        forall|x: NodeId, l: NodeIdAndDir| #[trigger] g2.links(x).contains(l) <==> g0.links(x).contains(l),
{
    assert(g2.edge_pairs() =~= g0.edge_pairs());
    assert forall|x: NodeId, l: NodeIdAndDir| #[trigger] g2.links(x).contains(l) <==> g0.links(x).contains(l) by {
        if g0.links(x).contains(l) {
            assert(g0.has_node(x)) by {
                if !g0.has_node(x) {
                    assert(g0.links(x) =~= Seq::<NodeIdAndDir>::empty());
                }
            }
            assert(link_backed(g0.edge_pairs(), x, l));
        }
        let g1x = g1.links(x);
        if x == a {
            lemma_push_contains(g0.links(a), NodeIdAndDir(b, Direction::Outgoing), l);
        } else if x == b {
            lemma_push_contains(g0.links(b), NodeIdAndDir(a, Direction::Incoming), l);
        }
    }
}

} // verus!
