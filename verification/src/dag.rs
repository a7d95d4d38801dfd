//! Sorting the dependency graph, reporting its cycles, and registering a
//! service with its dependencies.
use vstd::prelude::*;
use vstd::string::StringExecFns;

use crate::cycles::{
    is_elementary_cycle, cycles_within, simple_cycles_in_component, covers, inside, rotation_listed, rotation,
    is_rotation_of, lemma_cycle_nodes, lemma_rotation_contains,
};
use crate::scc::{flat_ids, lemma_flat_part, lemma_parts_disjoint};
use crate::digits::{decimal, push_decimal};
use crate::graph::{DependencyGraph, NodeId, NodeIdPair, with_key, type_id_named};
use crate::service::ServiceDepInfo;

verus! {

/// Category of errors encountered during schedule construction.
#[derive(Clone, Debug, PartialEq, Eq)]
#[non_exhaustive]
pub enum DagError {
    /// A dependency has been told to run before itself.
    DependencyLoop(String),
    /// The dependency graph contains a cycle.
    DependencyCycle(String),
}

/// The type ids recorded for the nodes of a cycle.
pub open spec fn names_of(infos: Map<NodeId, ServiceDepInfo>, c: Seq<NodeId>) -> Seq<u64> {
    c.map_values(|x: NodeId| type_id_named(infos, x))
}

/// A type id between backticks.
pub open spec fn backticked(n: u64) -> Seq<char> {
    "`"@ + decimal(n as nat) + "`"@
}

/// One "... which must run before" line for each name.
pub open spec fn run_before_lines(names: Seq<u64>) -> Seq<char>
    decreases names.len(),
{
    if names.len() == 0 {
        Seq::empty()
    } else {
        run_before_lines(names.drop_last()) + " ... which must run before "@ + backticked(names.last())
            + "\n"@
    }
}

/// The report of the cycle at position `i` whose nodes carry `names`: the
/// first name must run before itself, then the chain round the cycle back to
/// the first name, then a blank line.
pub open spec fn cycle_report(i: nat, names: Seq<u64>) -> Seq<char> {
    "cycle "@ + decimal(i + 1) + ": "@ + backticked(names[0]) + " must run before itself\n"@
        + backticked(names[0]) + "\n"@ + run_before_lines(names.drop_first().push(names[0])) + "\n"@
}

/// The reports of all cycles, in order.
pub open spec fn cycle_reports(infos: Map<NodeId, ServiceDepInfo>, cycles: Seq<Vec<NodeId>>) -> Seq<char>
    decreases cycles.len(),
{
    if cycles.len() == 0 {
        Seq::empty()
    } else {
        cycle_reports(infos, cycles.drop_last()) + cycle_report(
            (cycles.len() - 1) as nat,
            names_of(infos, cycles.last()@),
        )
    }
}

/// The message that explains the dependency cycles `cycles`.
pub open spec fn cycles_message(infos: Map<NodeId, ServiceDepInfo>, cycles: Seq<Vec<NodeId>>) -> Seq<char> {
    "Service has "@ + decimal(cycles.len()) + " before/after cycle(s):\n"@ + cycle_reports(infos, cycles)
}

/// `p` is a closed walk of at least one edge of the edge set `edges`.
pub open spec fn closed_walk(edges: Set<(NodeId, NodeId)>, p: Seq<NodeId>) -> bool {
    &&& p.len() >= 2
    &&& p[0] == p.last()
    &&& forall|k: int| 0 <= k < p.len() - 1 ==> #[trigger] edges.contains((p[k], p[k + 1]))
}

/// The edges from `dependent` to each of `deps`.
pub open spec fn dependency_edges(dependent: NodeId, deps: Seq<ServiceDepInfo>) -> Set<(NodeId, NodeId)> {
    Set::new(|e: (NodeId, NodeId)| exists|i: int| 0 <= i < deps.len() && e == (dependent, (#[trigger] deps[i]).type_id))
}

/// The descriptions after recording each of `deps` under its type id, in
/// order (a later one replaces an earlier one with the same id).
pub open spec fn with_deps(infos: Map<NodeId, ServiceDepInfo>, deps: Seq<ServiceDepInfo>) -> Map<NodeId, ServiceDepInfo>
    decreases deps.len(),
{
    if deps.len() == 0 {
        infos
    } else {
        with_deps(infos, deps.drop_last()).insert(deps.last().type_id, deps.last())
    }
}

/// The node order after adding `dependent` and then each dependency, each
/// at the end unless it is already a node.
pub open spec fn nodes_after(keys: Seq<NodeId>, dependent: NodeId, deps: Seq<ServiceDepInfo>) -> Seq<NodeId>
    decreases deps.len(),
{
    if deps.len() == 0 {
        with_key(keys, dependent)
    } else {
        with_key(nodes_after(keys, dependent, deps.drop_last()), deps.last().type_id)
    }
}

impl DependencyGraph {
    /// `msg` explains the elementary cycles `cycles` of the graph, which
    /// list every elementary cycle of the graph once, turned to start at one
    /// of its nodes.
    pub open spec fn reports(&self, cycles: Seq<Vec<NodeId>>, msg: Seq<char>) -> bool {
        &&& forall|k: int| 0 <= k < cycles.len() ==> is_elementary_cycle(*self, (#[trigger] cycles[k])@)
        &&& forall|c: Seq<NodeId>| #[trigger] is_elementary_cycle(*self, c) ==> rotation_listed(cycles, c)
        &&& forall|k1: int, k2: int|
            #![trigger cycles[k1], cycles[k2]]
            0 <= k1 < cycles.len() && 0 <= k2 < cycles.len() && k1 != k2 ==> !is_rotation_of(cycles[k1]@, cycles[k2]@)
        &&& msg == cycles_message(self.service_infos(), cycles)
    }

    /// What sorting the graph gives: an order exactly when there is no cycle,
    /// a topological one; a loop error, naming such a node by its id, exactly
    /// when a node depends on itself;
    /// otherwise a message explaining every elementary cycle of the graph,
    /// once each.
    pub open spec fn sort_outcome(&self, r: Result<Vec<NodeId>, DagError>) -> bool {
        &&& (r is Ok <==> !self.has_cycle())
        &&& (r matches Ok(order) ==> self.is_topological_order(order@))
        &&& ((r matches Err(DagError::DependencyLoop(_))) <==> self.has_self_loop())
        &&& (r matches Err(DagError::DependencyLoop(name)) ==> exists|a: NodeId|
            #[trigger] self.has_edge(a, a) && name@ == decimal(a as nat))
        &&& (r matches Err(DagError::DependencyCycle(msg)) ==> exists|cycles: Seq<Vec<NodeId>>|
            #[trigger] self.reports(cycles, msg@))
    }

    /// Tries to topologically sort the graph.
    ///
    /// If the graph is acyclic, returns [`Ok`] with the list of [`NodeId`] in a
    /// valid topological order. If a node depends on itself, returns a
    /// [`DagError::DependencyLoop`] whose message is that node's id in
    /// decimal; if the graph contains other cycles,
    /// returns a [`DagError::DependencyCycle`] that explains each of them
    /// once, whether or not its nodes are described in `services`.
    pub fn topsort_graph(&self) -> (r: Result<Vec<NodeId>, DagError>)
        requires
            self.wf(),
        ensures
            self.sort_outcome(r),
    {
        // Check explicitly for self-edges: strongly connected components
        // don't report them as cycles because they still form components
        // of one node.
        let edges = self.all_edges();
        let mut i: usize = 0;
        while i < edges.len()
            invariant
                i <= edges@.len(),
                forall|k: int| 0 <= k < edges@.len() ==> self.edge_pairs().contains(
                    (#[trigger] edges@[k].0, edges@[k].1),
                ),
                forall|a: NodeId, b: NodeId| self.has_edge(a, b) ==> #[trigger] edges@.contains(NodeIdPair(a, b)),
                forall|k: int| 0 <= k < i ==> (#[trigger] edges@[k]).0 != edges@[k].1,
            decreases edges@.len() - i,
        {
            let NodeIdPair(node, other) = edges[i];
            if node == other {
                let mut name = String::new();
                push_decimal(&mut name, node);
                proof {
                    assert(self.edge_pairs().contains((edges@[i as int].0, edges@[i as int].1)));
                    assert(self.has_edge(node, node));
                    lemma_self_loop_cycle(*self, node);
                }
                return Err(DagError::DependencyLoop(name));
            }
            i = i + 1;
        }
        proof {
            assert(!self.has_self_loop()) by {
                if self.has_self_loop() {
                    let a = choose|a: NodeId| #[trigger] self.has_edge(a, a);
                    assert(edges@.contains(NodeIdPair(a, a)));
                    let k = choose|k: int| 0 <= k < edges@.len() && edges@[k] == NodeIdPair(a, a);
                    assert(edges@[k].0 != edges@[k].1);
                }
            }
        }
        match self.dfs_topological_order() {
            Some(order) => {
                proof {
                    crate::topsort::lemma_topological_order_acyclic(*self, order@);
                }
                Ok(order)
            },
            None => {
                let sccs = self.iter_sccs();
                let mut cycles: Vec<Vec<NodeId>> = Vec::new();
                let mut k: usize = 0;
                while k < sccs.len()
                    invariant
                        self.wf(),
                        k <= sccs@.len(),
                        forall|j: int| 0 <= j < sccs@.len() ==> (#[trigger] sccs@[j])@.len() > 0,
                        forall|j: int| 0 <= j < cycles@.len() ==> is_elementary_cycle(*self, (#[trigger] cycles@[j])@),
                        forall|j: int| 0 <= j < k && sccs@[j]@.len() > 1 ==> #[trigger] covers(*self, cycles@, sccs@[j]@),
                        flat_ids(sccs@).no_duplicates(),
                        forall|m: int| 0 <= m < cycles@.len() ==> exists|j: int| 0 <= j < k && inside(
                            #[trigger] cycles@[m]@,
                            sccs@[j]@,
                        ),
                        forall|k1: int, k2: int|
                            #![trigger cycles@[k1], cycles@[k2]]
                            0 <= k1 < cycles@.len() && 0 <= k2 < cycles@.len() && k1 != k2 ==> !is_rotation_of(
                                cycles@[k1]@,
                                cycles@[k2]@,
                            ),
                    decreases sccs@.len() - k,
                {
                    // A strongly-connected component of more than one node
                    // holds at least one cycle.
                    if sccs[k].len() > 1 {
                        let mut found = simple_cycles_in_component(self, sccs[k].as_slice());
                        let ghost c0 = cycles@;
                        let ghost f0 = found@;
                        cycles.append(&mut found);
                        proof {
                            assert forall|j: int| 0 <= j < cycles@.len() implies is_elementary_cycle(
                                *self,
                                (#[trigger] cycles@[j])@,
                            ) by {
                                if j < c0.len() {
                                    assert(cycles@[j] == c0[j]);
                                } else {
                                    assert(cycles@[j] == f0[j - c0.len()]);
                                    assert(cycles_within(*self, f0, sccs@[k as int]@));
                                }
                            }
                            assert(cycles@ =~= c0 + f0);
                            assert forall|j: int| 0 <= j < k && sccs@[j]@.len() > 1 implies #[trigger] covers(
                                *self,
                                cycles@,
                                sccs@[j]@,
                            ) by {
                                lemma_covers_append(*self, c0, f0, sccs@[j]@, true);
                            }
                            lemma_covers_append(*self, c0, f0, sccs@[k as int]@, false);
                            let part = sccs@[k as int]@;
                            assert forall|m: int| 0 <= m < cycles@.len() implies exists|j: int| 0 <= j < k + 1 && inside(
                                #[trigger] cycles@[m]@,
                                sccs@[j]@,
                            ) by {
                                if m < c0.len() {
                                    assert(cycles@[m] == c0[m]);
                                    let j = choose|j: int| 0 <= j < k && inside(c0[m]@, sccs@[j]@);
                                    assert(inside(cycles@[m]@, sccs@[j]@));
                                } else {
                                    assert(cycles@[m] == f0[m - c0.len()]);
                                    assert(cycles_within(*self, f0, part));
                                    assert(inside(cycles@[m]@, part));
                                }
                            }
                            assert forall|k1: int, k2: int|
                                #![trigger cycles@[k1], cycles@[k2]]
                                0 <= k1 < cycles@.len() && 0 <= k2 < cycles@.len() && k1 != k2 implies !is_rotation_of(
                                    cycles@[k1]@,
                                    cycles@[k2]@,
                                ) by {
                                if k1 < c0.len() && k2 < c0.len() {
                                    assert(cycles@[k1] == c0[k1] && cycles@[k2] == c0[k2]);
                                } else if k1 >= c0.len() && k2 >= c0.len() {
                                    assert(cycles@[k1] == f0[k1 - c0.len()] && cycles@[k2] == f0[k2 - c0.len()]);
                                } else {
                                    let (o, w) = if k1 < c0.len() {
                                        (k1, k2)
                                    } else {
                                        (k2, k1)
                                    };
                                    assert(cycles@[o] == c0[o]);
                                    assert(cycles@[w] == f0[w - c0.len()]);
                                    let j = choose|j: int| 0 <= j < k && inside(c0[o]@, sccs@[j]@);
                                    assert(cycles_within(*self, f0, part));
                                    let a = cycles@[k1]@;
                                    let b = cycles@[k2]@;
                                    if is_rotation_of(a, b) {
                                        let i = choose|i: int| 0 <= i < b.len() && a == #[trigger] rotation(b, i);
                                        lemma_rotation_contains(b, i);
                                        let x = b[i];
                                        assert(a[0] == x);
                                        assert(a.contains(x) && b.contains(x));
                                        assert(sccs@[j]@.contains(x));
                                        assert(part.contains(x));
                                        lemma_parts_disjoint(sccs@, j, k as int, x);
                                    }
                                }
                            }
                        }
                    }
                    k = k + 1;
                }
                proof {
                    assert forall|c: Seq<NodeId>| #[trigger] is_elementary_cycle(*self, c) implies rotation_listed(
                        cycles@,
                        c,
                    ) by {
                        let j = lemma_cycle_in_component(*self, sccs@, c);
                        assert(c.len() >= 2) by {
                            if c.len() == 1 {
                                assert(self.has_edge(c.last(), c[0]));
                            }
                        }
                        assert(sccs@[j]@.len() > 1) by {
                            assert(c.contains(c[0]) && c.contains(c[1]));
                            assert(sccs@[j]@.contains(c[0]) && sccs@[j]@.contains(c[1]));
                            if sccs@[j]@.len() <= 1 {
                                let a = choose|a: int| 0 <= a < sccs@[j]@.len() && sccs@[j]@[a] == c[0];
                                let b = choose|b: int| 0 <= b < sccs@[j]@.len() && sccs@[j]@[b] == c[1];
                            }
                        }
                        assert(covers(*self, cycles@, sccs@[j]@));
                    }
                }
                proof {
                    assert forall|j: int| 0 <= j < cycles@.len() implies (#[trigger] cycles@[j])@.len() > 0 by {
                        assert(is_elementary_cycle(*self, cycles@[j]@));
                    }
                }
                let msg = self.get_dependency_cycles_error_message(&cycles);
                proof {
                    assert(self.reports(cycles@, msg@));
                }
                let r = Err(DagError::DependencyCycle(msg));
                assert(r matches Err(DagError::DependencyCycle(m)) && self.reports(cycles@, m@));
                r
            },
        }
    }

    /// The message that explains the dependency cycles `cycles`, naming each
    /// node by the type id recorded for it in `services`.
    pub(crate) fn get_dependency_cycles_error_message(&self, cycles: &Vec<Vec<NodeId>>) -> (message: String)
        requires
            forall|k: int| 0 <= k < cycles@.len() ==> (#[trigger] cycles@[k])@.len() > 0,
        ensures
            message@ == cycles_message(self.service_infos(), cycles@),
    {
        let ghost infos = self.service_infos();
        let mut message = String::from_str("Service has ");
        push_decimal(&mut message, cycles.len() as u64);
        message.append(" before/after cycle(s):\n");
        let ghost head = message@;
        let mut i: usize = 0;
        while i < cycles.len()
            invariant
                i <= cycles@.len(),
                infos == self.service_infos(),
                forall|k: int| 0 <= k < cycles@.len() ==> (#[trigger] cycles@[k])@.len() > 0,
                message@ == head + cycle_reports(infos, cycles@.take(i as int)),
            decreases cycles@.len() - i,
        {
            self.push_cycle_report(&mut message, i, &cycles[i]);
            proof {
                assert(cycles@.take(i + 1).drop_last() =~= cycles@.take(i as int));
                assert(cycles@.take(i + 1).last() == cycles@[i as int]);
                assert(message@ =~= head + cycle_reports(infos, cycles@.take(i + 1)));
            }
            i = i + 1;
        }
        proof {
            assert(cycles@.take(cycles@.len() as int) =~= cycles@);
            assert(message@ =~= cycles_message(infos, cycles@));
        }
        message
    }

    /// Appends the report of cycle `cycle`, at position `i`.
    fn push_cycle_report(&self, message: &mut String, i: usize, cycle: &Vec<NodeId>)
        requires
            i < usize::MAX,
            cycle@.len() > 0,
        ensures
            final(message)@ == old(message)@ + cycle_report(i as nat, names_of(self.service_infos(), cycle@)),
    {
        let ghost infos = self.service_infos();
        let ghost names = names_of(infos, cycle@);
        let ghost before = message@;
        proof {
            assert(cycle@.contains(cycle@[0]));
        }
        let first = self.type_id_of(cycle[0]);
        message.append("cycle ");
        push_decimal(message, i as u64 + 1);
        message.append(": ");
        push_backticked(message, first);
        message.append(" must run before itself\n");
        push_backticked(message, first);
        message.append("\n");
        let ghost lines_start = message@;
        let ghost chain = names.drop_first().push(names[0]);
        let mut k: usize = 0;
        while k < cycle.len()
            invariant
                k <= cycle@.len(),
                cycle@.len() > 0,
                names == names_of(infos, cycle@),
                chain == names.drop_first().push(names[0]),
                first == names[0],
                infos == self.service_infos(),
                message@ == lines_start + run_before_lines(chain.take(k as int)),
            decreases cycle@.len() - k,
        {
            let name = if k + 1 < cycle.len() {
                proof {
                    assert(cycle@.contains(cycle@[k + 1]));
                }
                self.type_id_of(cycle[k + 1])
            } else {
                first
            };
            message.append(" ... which must run before ");
            push_backticked(message, name);
            message.append("\n");
            proof {
                assert(chain[k as int] == name);
                assert(chain.take(k + 1).drop_last() =~= chain.take(k as int));
                assert(chain.take(k + 1).last() == name);
            }
            k = k + 1;
        }
        message.append("\n");
        proof {
            assert(chain.take(cycle@.len() as int) =~= chain);
            assert(message@ =~= before + cycle_report(i as nat, names));
        }
    }
}

impl DependencyGraph {
    /// Adds a service to the dependency graph: the node `dependent` with an
    /// edge to each of its dependencies, whose descriptions are recorded in
    /// `services`. Fails if the graph then has a cycle; otherwise caches a
    /// topological order of the graph.
    pub fn register_service(&mut self, dependent: NodeId, deps: Vec<ServiceDepInfo>) -> (r: Result<(), DagError>)
        requires
            old(self).wf(),
        ensures
            final(self).wf(),
            final(self).node_ids() == nodes_after(old(self).node_ids(), dependent, deps@),
            final(self).edge_pairs() == old(self).edge_pairs().union(dependency_edges(dependent, deps@)),
            final(self).service_infos() == with_deps(old(self).service_infos(), deps@),
            r is Ok <==> !final(self).has_cycle(),
            r is Ok ==> final(self).is_topological_order(final(self).cached_order()),
            r is Err ==> final(self).cached_order() == old(self).cached_order(),
            r matches Err(e) ==> final(self).sort_outcome(Err(e)),
    {
        let ghost ds = deps@;
        let ghost g0 = *self;
        self.add_node(dependent);
        proof {
            assert(ds.take(0) =~= Seq::<ServiceDepInfo>::empty());
            assert(dependency_edges(dependent, ds.take(0)) =~= Set::<(NodeId, NodeId)>::empty());
            assert(g0.edge_pairs().union(dependency_edges(dependent, ds.take(0))) =~= g0.edge_pairs());
            crate::graph::lemma_push_contains(g0.node_ids(), dependent, dependent);
        }
        let mut rest = deps;
        let ghost mut i: int = 0;
        while rest.len() > 0
            invariant
                self.wf(),
                0 <= i <= ds.len(),
                rest@ == ds.skip(i),
                self.node_ids() == nodes_after(g0.node_ids(), dependent, ds.take(i)),
                self.edge_pairs() == g0.edge_pairs().union(dependency_edges(dependent, ds.take(i))),
                self.service_infos() == with_deps(g0.service_infos(), ds.take(i)),
                self.cached_order() == g0.cached_order(),
                self.has_node(dependent),
            decreases rest@.len(),
        {
            let dep = rest.remove(0);
            let id = dep.type_id;
            let ghost keys0 = self.node_ids();
            let ghost edges0 = self.edge_pairs();
            if !self.contains_node(id) {
                self.add_node(id);
            }
            proof {
                crate::graph::lemma_push_contains(keys0, id, id);
                crate::graph::lemma_push_contains(keys0, id, dependent);
                assert(self.node_ids() == with_key(keys0, id));
            }
            self.add_edge(dependent, id);
            self.record_service(dep);
            proof {
                assert(dep == ds[i]);
                let t = ds.take(i + 1);
                assert(t.drop_last() =~= ds.take(i));
                assert(t.last() == ds[i]);
                assert(dependency_edges(dependent, t) =~= dependency_edges(dependent, ds.take(i)).insert(
                    (dependent, id),
                )) by {
                    assert forall|e: (NodeId, NodeId)| dependency_edges(dependent, t).contains(e) implies dependency_edges(
                        dependent,
                        ds.take(i),
                    ).insert((dependent, id)).contains(e) by {
                        let j = choose|j: int| 0 <= j < t.len() && e == (dependent, (#[trigger] t[j]).type_id);
                        if j < i {
                            assert(ds.take(i)[j] == t[j]);
                        }
                    }
                    assert forall|e: (NodeId, NodeId)| dependency_edges(dependent, ds.take(i)).insert((dependent, id)).contains(e)
                        implies dependency_edges(dependent, t).contains(e) by {
                        if e == (dependent, id) {
                            assert(t[i] == ds[i]);
                        } else {
                            let j = choose|j: int| 0 <= j < ds.take(i).len() && e == (dependent, (#[trigger] ds.take(i)[j]).type_id);
                            assert(t[j] == ds.take(i)[j]);
                        }
                    }
                }
                assert(self.edge_pairs() =~= g0.edge_pairs().union(dependency_edges(dependent, t)));
                assert(rest@ =~= ds.skip(i + 1));
                crate::graph::lemma_push_contains(keys0, id, dependent);
                i = i + 1;
            }
        }
        proof {
            assert(ds.take(i) =~= ds);
            assert(self.service_infos().dom() == with_deps(g0.service_infos(), ds).dom());
        }
        let ghost g1 = *self;
        match self.topsort_graph() {
            Ok(order) => {
                self.cache_order(order);
                proof {
                    lemma_same_graph(g1, *self);
                }
                Ok(())
            },
            Err(e) => Err(e),
        }
    }
}

/// Appends a type id between backticks.
fn push_backticked(s: &mut String, n: u64)
    ensures
        final(s)@ == old(s)@ + backticked(n),
{
    s.append("`");
    push_decimal(s, n);
    s.append("`");
    proof {
        assert(s@ =~= old(s)@ + backticked(n));
    }
}

/// Two graphs with the same nodes and edges have the same cycles and
/// topological orders.
proof fn lemma_same_graph(g1: DependencyGraph, g2: DependencyGraph)
    requires
        g1.node_ids() == g2.node_ids(),
        g1.edge_pairs() == g2.edge_pairs(),
    ensures
        g1.has_cycle() == g2.has_cycle(),
        forall|o: Seq<NodeId>| #[trigger] g1.is_topological_order(o) == g2.is_topological_order(o),
{
    assert forall|p: Seq<NodeId>| #[trigger] g1.is_cycle(p) implies g2.is_cycle(p) by {
        assert forall|k: int| 0 <= k < p.len() - 1 implies #[trigger] g2.has_edge(p[k], p[k + 1]) by {
            assert(g1.has_edge(p[k], p[k + 1]));
        }
    }
    assert forall|p: Seq<NodeId>| #[trigger] g2.is_cycle(p) implies g1.is_cycle(p) by {
        assert forall|k: int| 0 <= k < p.len() - 1 implies #[trigger] g1.has_edge(p[k], p[k + 1]) by {
            assert(g2.has_edge(p[k], p[k + 1]));
        }
    }
    if g1.has_cycle() {
        let p = choose|p: Seq<NodeId>| #[trigger] g1.is_cycle(p);
        assert(g2.is_cycle(p));
    }
    if g2.has_cycle() {
        let p = choose|p: Seq<NodeId>| #[trigger] g2.is_cycle(p);
        assert(g1.is_cycle(p));
    }
    assert forall|o: Seq<NodeId>| #[trigger] g1.is_topological_order(o) == g2.is_topological_order(o) by {
        assert forall|x: NodeId| g1.has_node(x) == g2.has_node(x) by {}
        assert forall|i: int, j: int| g1.has_edge(o[i], o[j]) == g2.has_edge(o[i], o[j]) by {}
    }
}

/// A graph with a cycle has an elementary cycle: a closed walk without a
/// repeated node, found inside any closed walk.
pub proof fn lemma_cycle_has_elementary(g: DependencyGraph, p: Seq<NodeId>)
    requires
        g.is_cycle(p),
    ensures
        exists|c: Seq<NodeId>| #[trigger] is_elementary_cycle(g, c),
    decreases p.len(),
{
    let q = p.drop_last();
    if q.no_duplicates() {
        assert forall|k: int| 0 <= k < q.len() - 1 implies #[trigger] g.has_edge(q[k], q[k + 1]) by {
            assert(g.has_edge(p[k], p[k + 1]));
        }
        let k = p.len() - 2;
        assert(g.has_edge(p[k], p[k + 1]));
        assert(is_elementary_cycle(g, q));
    } else {
        let (a, b) = choose|a: int, b: int| 0 <= a < q.len() && 0 <= b < q.len() && a != b && q[a] == q[b];
        let (lo, hi) = if a < b {
            (a, b)
        } else {
            (b, a)
        };
        let w = q.subrange(lo, hi + 1);
        assert forall|k: int| 0 <= k < w.len() - 1 implies #[trigger] g.has_edge(w[k], w[k + 1]) by {
            let m = lo + k;
            assert(g.has_edge(p[m], p[m + 1]));
        }
        assert(g.is_cycle(w));
        lemma_cycle_has_elementary(g, w);
    }
}

/// A cycle report names at least one cycle: the graph has an elementary
/// cycle, and each is listed.
pub proof fn lemma_report_nonempty(g: DependencyGraph, cycles: Seq<Vec<NodeId>>, msg: Seq<char>)
    requires
        g.has_cycle(),
        g.reports(cycles, msg),
    ensures
        cycles.len() > 0,
{
    let p = choose|p: Seq<NodeId>| #[trigger] g.is_cycle(p);
    lemma_cycle_has_elementary(g, p);
    let c = choose|c: Seq<NodeId>| #[trigger] is_elementary_cycle(g, c);
    assert(rotation_listed(cycles, c));
}

/// A listing that covers a part keeps covering it with more cycles after it;
/// when `found` covers the part, so does any listing that ends with it.
proof fn lemma_covers_append(
    g: DependencyGraph,
    c0: Seq<Vec<NodeId>>,
    found: Seq<Vec<NodeId>>,
    part: Seq<NodeId>,
    before: bool,
)
    requires
        before ==> covers(g, c0, part),
        !before ==> covers(g, found, part),
    ensures
        covers(g, c0 + found, part),
{
    let all = c0 + found;
    assert forall|c: Seq<NodeId>| #[trigger] is_elementary_cycle(g, c) && inside(c, part) implies rotation_listed(all, c) by {
        if before {
            let (k, i) = choose|k: int, i: int|
                #![trigger c0[k], rotation(c, i)]
                0 <= k < c0.len() && 0 <= i < c.len() && c0[k]@ == rotation(c, i);
            assert(all[k] == c0[k]);
        } else {
            let (k, i) = choose|k: int, i: int|
                #![trigger found[k], rotation(c, i)]
                0 <= k < found.len() && 0 <= i < c.len() && found[k]@ == rotation(c, i);
            assert(all[c0.len() + k] == found[k]);
        }
    }
}

/// The component that holds `x`, when one does.
spec fn part_of(parts: Seq<Vec<NodeId>>, x: NodeId) -> int {
    choose|k: int| 0 <= k < parts.len() && #[trigger] parts[k]@.contains(x)
}

/// Along the edges of a cycle, the components of its nodes never come later.
proof fn lemma_parts_along(g: DependencyGraph, parts: Seq<Vec<NodeId>>, c: Seq<NodeId>, i: int, from: int)
    requires
        g.components_ordered(parts),
        is_elementary_cycle(g, c),
        0 <= from <= i < c.len(),
        forall|x: NodeId| #[trigger] c.contains(x) ==> exists|k: int| 0 <= k < parts.len() && #[trigger] parts[k]@.contains(x),
    ensures
        part_of(parts, c[i]) <= part_of(parts, c[from]),
    decreases i - from,
{
    if i > from {
        lemma_parts_along(g, parts, c, i - 1, from);
        let j = i - 1;
        assert(g.has_edge(c[j], c[j + 1]));
        assert(c.contains(c[j]) && c.contains(c[i]));
        let kj = part_of(parts, c[j]);
        let ki = part_of(parts, c[i]);
        assert(parts[kj]@.contains(c[j]) && parts[ki]@.contains(c[i]));
    }
}

/// The nodes of an elementary cycle all lie in one component, when the
/// components hold every node and no edge leads to a later component.
proof fn lemma_cycle_in_component(g: DependencyGraph, parts: Seq<Vec<NodeId>>, c: Seq<NodeId>) -> (k: int)
    requires
        g.wf(),
        is_elementary_cycle(g, c),
        forall|x: NodeId| #[trigger] g.has_node(x) ==> flat_ids(parts).contains(x),
        g.components_ordered(parts),
    ensures
        0 <= k < parts.len(),
        inside(c, parts[k]@),
{
    lemma_cycle_nodes(g, c);
    assert forall|x: NodeId| #[trigger] c.contains(x) implies exists|k: int| 0 <= k < parts.len() && #[trigger] parts[k]@.contains(x) by {
        lemma_flat_part(parts, x);
    }
    let n = c.len() as int;
    let k0 = part_of(parts, c[0]);
    assert(c.contains(c[0]) && c.contains(c[n - 1]));
    assert(parts[k0]@.contains(c[0]));
    lemma_parts_along(g, parts, c, n - 1, 0);
    let kl = part_of(parts, c[n - 1]);
    assert(parts[kl]@.contains(c[n - 1]));
    assert(g.has_edge(c.last(), c[0]));
    assert(k0 <= kl);
    assert forall|x: NodeId| #[trigger] c.contains(x) implies parts[k0]@.contains(x) by {
        let i = choose|i: int| 0 <= i < n && c[i] == x;
        lemma_parts_along(g, parts, c, i, 0);
        lemma_parts_along(g, parts, c, n - 1, i);
        assert(parts[part_of(parts, c[i])]@.contains(c[i]));
    }
    k0
}

/// A self loop is a cycle.
proof fn lemma_self_loop_cycle(g: DependencyGraph, a: NodeId)
    requires
        g.has_edge(a, a),
    ensures
        g.has_cycle(),
        g.has_self_loop(),
{
    let p = seq![a, a];
    assert(g.is_cycle(p));
}

} // verus!
