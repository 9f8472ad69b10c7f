//! Depth-first traversal.

use crate::graph::graph_impl::lemma_incident_members;
use crate::graph::graph_impl::out_edges;
use crate::graph::graph_impl::EdgeView;
use crate::graph::graph_impl::Graph;
use crate::graph::graph_impl::GraphView;
use std::collections::HashSet;
use vstd::prelude::*;

verus! {

broadcast use vstd::std_specs::hash::group_hash_axioms;

/// A depth-first search that yields the nodes in postorder: every node
/// after the nodes that were first reached through it.
#[derive(Debug)]
pub struct DfsPostOrder {
    /// The nodes to visit, the next one last.
    pub stack: Vec<u32>,
    /// The nodes that were reached.
    pub discovered: HashSet<u32>,
    /// The nodes that were yielded.
    pub finished: HashSet<u32>,
}

/// What a search holds.
pub ghost struct DfsView {
    pub stack: Seq<u32>,
    pub discovered: Set<u32>,
    pub finished: Set<u32>,
}

impl View for DfsPostOrder {
    type V = DfsView;

    open spec fn view(&self) -> DfsView {
        DfsView { stack: self.stack@, discovered: self.discovered@, finished: self.finished@ }
    }
}

/// The targets of the listed edges that are not among `seen`, in the order
/// of the list.
pub open spec fn fresh_targets<E>(edges: Seq<EdgeView<E>>, list: Seq<u32>, seen: Set<u32>) -> Seq<
    u32,
>
    decreases list.len(),
{
    if list.len() == 0 {
        Seq::empty()
    } else {
        (if seen.contains(edges[list[0] as int].to) {
            Seq::empty()
        } else {
            seq![edges[list[0] as int].to]
        }) + fresh_targets(edges, list.skip(1), seen)
    }
}

/// The search can go on in the graph: the graph is finite, its edges join
/// nodes, and every node that waits to be visited is a node of the graph.
pub open spec fn searchable<N, E>(s: DfsView, g: GraphView<N, E>) -> bool {
    &&& g.nodes.dom().finite()
    &&& g.edges_closed()
    &&& g.edges.len() <= u32::MAX
    &&& forall|i: int| 0 <= i < s.stack.len() ==> g.nodes.dom().contains(#[trigger] s.stack[i])
}

/// One step of the search, at the node that waits last. A node that is
/// reached for the first time stays, and its successors that were not
/// reached yet are put behind it. A node that was reached before leaves,
/// and it is yielded unless it was yielded before.
pub open spec fn dfs_step<N, E>(s: DfsView, g: GraphView<N, E>) -> (DfsView, Option<u32>) {
    let node = s.stack.last();
    if !s.discovered.contains(node) {
        let reached = s.discovered.insert(node);
        (
            DfsView {
                stack: s.stack + fresh_targets(g.edges, out_edges(g.edges, node), reached),
                discovered: reached,
                finished: s.finished,
            },
            None,
        )
    } else if !s.finished.contains(node) {
        (
            DfsView {
                stack: s.stack.drop_last(),
                discovered: s.discovered,
                finished: s.finished.insert(node),
            },
            Some(node),
        )
    } else {
        (
            DfsView { stack: s.stack.drop_last(), discovered: s.discovered, finished: s.finished },
            None,
        )
    }
}

/// The search up to the next node that it yields, or up to its end: what
/// the search holds then, and the node.
pub open spec fn dfs_next<N, E>(s: DfsView, g: GraphView<N, E>) -> (DfsView, Option<u32>)
    decreases g.nodes.dom().difference(s.discovered).len(), s.stack.len(),
    when searchable(s, g)
{
    if s.stack.len() == 0 {
        (s, None)
    } else if dfs_step(s, g).1 is Some {
        dfs_step(s, g)
    } else {
        proof {
            let node = s.stack.last();
            let waiting = g.nodes.dom().difference(s.discovered);
            if !s.discovered.contains(node) {
                assert(g.nodes.dom().contains(s.stack[s.stack.len() - 1]));
                assert(waiting.contains(node));
                assert(g.nodes.dom().difference(s.discovered.insert(node)) =~= waiting.remove(
                    node,
                ));
            }
        }
        dfs_next(dfs_step(s, g).0, g)
    }
}

/// What the search holds behind the next node that it yields: it can go on,
/// and the node, if there is one, is a node of the graph that was not
/// yielded before and is yielded now.
pub proof fn lemma_dfs_next<N, E>(s: DfsView, g: GraphView<N, E>)
    requires
        searchable(s, g),
    ensures
        searchable(dfs_next(s, g).0, g),
        match dfs_next(s, g).1 {
            Some(node) => g.nodes.dom().contains(node) && !s.finished.contains(node) && dfs_next(
                s,
                g,
            ).0.finished == s.finished.insert(node),
            None => dfs_next(s, g).0.stack.len() == 0 && dfs_next(s, g).0.finished == s.finished,
        },
    decreases g.nodes.dom().difference(s.discovered).len(), s.stack.len(),
{
    if s.stack.len() > 0 {
        lemma_step_searchable(s, g);
        let node = s.stack.last();
        assert(g.nodes.dom().contains(s.stack[s.stack.len() - 1]));
        if dfs_step(s, g).1 is None {
            let waiting = g.nodes.dom().difference(s.discovered);
            if !s.discovered.contains(node) {
                assert(waiting.contains(node));
                assert(g.nodes.dom().difference(s.discovered.insert(node)) =~= waiting.remove(
                    node,
                ));
            }
            lemma_dfs_next(dfs_step(s, g).0, g);
        }
    }
}

/// The nodes that the search yields from here on, in their order.
pub open spec fn post_order<N, E>(s: DfsView, g: GraphView<N, E>) -> Seq<u32>
    decreases g.nodes.dom().difference(s.finished).len(),
    when searchable(s, g)
{
    match dfs_next(s, g).1 {
        Some(node) => {
            proof {
                lemma_dfs_next(s, g);
                let left = g.nodes.dom().difference(s.finished);
                assert(left.contains(node));
                assert(g.nodes.dom().difference(s.finished.insert(node)) =~= left.remove(node));
            }
            seq![node] + post_order(dfs_next(s, g).0, g)
        },
        None => Seq::empty(),
    }
}

proof fn lemma_fresh_targets<N, E>(g: GraphView<N, E>, list: Seq<u32>, seen: Set<u32>)
    requires
        g.edges_closed(),
        forall|i: int| 0 <= i < list.len() ==> (#[trigger] list[i]) < g.edges.len(),
    ensures
        forall|i: int|
            0 <= i < fresh_targets(g.edges, list, seen).len() ==> g.nodes.dom().contains(
                #[trigger] fresh_targets(g.edges, list, seen)[i],
            ),
    decreases list.len(),
{
    if list.len() > 0 {
        assert forall|i: int| 0 <= i < list.skip(1).len() implies (#[trigger] list.skip(1)[i])
            < g.edges.len() by {
            assert(list.skip(1)[i] == list[i + 1]);
        }
        lemma_fresh_targets(g, list.skip(1), seen);
        assert(list[0] < g.edges.len());
        assert(g.nodes.dom().contains(g.edges[list[0] as int].from));
        let rest = fresh_targets(g.edges, list.skip(1), seen);
        let all = fresh_targets(g.edges, list, seen);
        let to = g.edges[list[0] as int].to;
        assert forall|i: int| 0 <= i < all.len() implies g.nodes.dom().contains(
            #[trigger] all[i],
        ) by {
            if seen.contains(to) {
                assert(all =~= rest);
            } else {
                assert(all =~= seq![to] + rest);
                if i > 0 {
                    assert(all[i] == rest[i - 1]);
                }
            }
        }
    }
}

/// A step of a search that can go on leaves a search that can go on.
proof fn lemma_step_searchable<N, E>(s: DfsView, g: GraphView<N, E>)
    requires
        searchable(s, g),
        s.stack.len() > 0,
    ensures
        searchable(dfs_step(s, g).0, g),
{
    let node = s.stack.last();
    if !s.discovered.contains(node) {
        let list = out_edges(g.edges, node);
        lemma_incident_members(g.edges, true, node, g.edges.len() as int);
        lemma_fresh_targets(g, list, s.discovered.insert(node));
    }
}

impl Default for DfsPostOrder {
    fn default() -> (dfs: Self)
        ensures
            dfs@ == (DfsView {
                stack: Seq::empty(),
                discovered: Set::empty(),
                finished: Set::empty(),
            }),
    {
        DfsPostOrder { stack: Vec::new(), discovered: HashSet::new(), finished: HashSet::new() }
    }
}

impl DfsPostOrder {
    /// Every node that waits to be visited is a node of the graph.
    pub open spec fn wf<N, E>(&self, graph: &Graph<N, E>) -> bool {
        forall|i: int|
            0 <= i < self.stack@.len() ==> graph@.nodes.dom().contains(#[trigger] self.stack@[i])
    }

    /// The nodes of the graph that were not reached yet.
    pub open spec fn not_reached<N, E>(&self, graph: &Graph<N, E>) -> Set<u32> {
        graph@.nodes.dom().difference(self.discovered@)
    }

    /// A search that starts at `start` and has reached nothing yet.
    pub fn new<N, E>(graph: &Graph<N, E>, start: u32) -> (dfs: Self)
        requires
            graph.wf(),
        ensures
            dfs.stack@ == seq![start],
            dfs.discovered@ == Set::<u32>::empty(),
            dfs.finished@ == Set::<u32>::empty(),
    {
        let mut dfs = DfsPostOrder {
            stack: Vec::with_capacity(graph.node_count()),
            discovered: HashSet::with_capacity(graph.node_count()),
            finished: HashSet::with_capacity(graph.node_count()),
        };
        dfs.move_to(start);
        dfs
    }

    /// Starts again at `start`, and keeps what was reached and yielded.
    pub fn move_to(&mut self, start: u32)
        ensures
            final(self).stack@ == seq![start],
            final(self).discovered@ == old(self).discovered@,
            final(self).finished@ == old(self).finished@,
    {
        self.stack.clear();
        self.stack.push(start);
        proof {
            assert(self.stack@ =~= seq![start]);
        }
    }

    /// The next node in postorder, or `None` when no node is left to
    /// visit. A node is yielded once, after it was reached.
    pub fn next<N, E>(&mut self, graph: &Graph<N, E>) -> (r: Option<u32>)
        requires
            graph.wf(),
            old(self).wf(graph),
        ensures
            (final(self)@, r) == dfs_next(old(self)@, graph@),
            final(self).wf(graph),
            old(self).discovered@.subset_of(final(self).discovered@),
            final(self).discovered@.subset_of(old(self).discovered@.union(graph@.nodes.dom())),
            match r {
                Some(node) => graph@.nodes.dom().contains(node) && final(self).discovered@.contains(
                    node,
                ) && !old(self).finished@.contains(node)
                    && final(self).finished@ == old(self).finished@.insert(node),
                None => final(self).stack@.len() == 0 && final(self).finished@ == old(self).finished@,
            },
    {
        proof {
            graph.lemma_wf();
        }
        while self.stack.len() > 0
            invariant
                graph.wf(),
                self.wf(graph),
                searchable(self@, graph@),
                dfs_next(old(self)@, graph@) == dfs_next(self@, graph@),
                old(self).discovered@.subset_of(self.discovered@),
                self.discovered@.subset_of(old(self).discovered@.union(graph@.nodes.dom())),
                self.finished@ == old(self).finished@,
            decreases self.not_reached(graph).len(), self.stack@.len(),
        {
            let nx = self.stack[self.stack.len() - 1];
            let ghost before = self@;
            let ghost reached = self.discovered@;
            let ghost waiting = self.not_reached(graph);
            let ghost all = out_edges(graph@.edges, nx);
            proof {
                lemma_step_searchable(before, graph@);
            }
            // a node that is reached for the first time: its successors
            // wait to be visited before it
            if self.discovered.insert(nx) {
                proof {
                    assert(waiting.contains(nx));
                    assert(self.not_reached(graph) =~= waiting.remove(nx));
                    lemma_incident_members(graph@.edges, true, nx, graph@.edges.len() as int);
                    assert(self.stack@ + fresh_targets(graph@.edges, all, reached.insert(nx))
                        == dfs_step(before, graph@).0.stack);
                }
                let mut edges = graph.outputs(nx);
                loop
                    invariant
                        graph.wf(),
                        self.wf(graph),
                        edges.wf(),
                        waiting == graph@.nodes.dom().difference(reached),
                        waiting.contains(nx),
                        graph@.nodes.dom().finite(),
                        graph@.edges_closed(),
                        self.discovered@ == reached.insert(nx),
                        self.finished@ == old(self).finished@,
                        self.stack@.len() >= 1,
                        forall|i: int|
                            0 <= i < edges.remaining().len() ==> (#[trigger] edges.remaining()[i])
                                < graph@.edges.len(),
                        self.stack@ + fresh_targets(
                            graph@.edges,
                            edges.remaining(),
                            reached.insert(nx),
                        ) == dfs_step(before, graph@).0.stack,
                    ensures
                        self.stack@ == dfs_step(before, graph@).0.stack,
                    decreases edges.remaining().len(),
                {
                    let ghost left = edges.remaining();
                    let ghost held = self.stack@;
                    match edges.next() {
                        Some(edge) => {
                            proof {
                                assert(left[0] == edge);
                                assert(left.skip(1) =~= edges.remaining());
                                assert forall|i: int| 0 <= i < edges.remaining().len() implies (
                                #[trigger] edges.remaining()[i]) < graph@.edges.len() by {
                                    assert(left[i + 1] == edges.remaining()[i]);
                                }
                            }
                            let node_id = graph.edge_to(edge);
                            if !self.discovered.contains(&node_id) {
                                proof {
                                    assert(graph@.nodes.dom().contains(graph@.edges[edge as int].from));
                                }
                                self.stack.push(node_id);
                            }
                            proof {
                                let rest = fresh_targets(
                                    graph@.edges,
                                    edges.remaining(),
                                    reached.insert(nx),
                                );
                                assert(self.stack@ + rest =~= held + fresh_targets(
                                    graph@.edges,
                                    left,
                                    reached.insert(nx),
                                ));
                            }
                        },
                        None => {
                            proof {
                                assert(self.stack@ + Seq::<u32>::empty() =~= self.stack@);
                            }
                            break ;
                        },
                    }
                }
                proof {
                    assert(self.not_reached(graph) =~= waiting.remove(nx));
                    assert(waiting.finite());
                    assert(waiting.contains(nx));
                    assert(self@ == dfs_step(before, graph@).0);
                }
            } else {
                // a node whose successors were all visited
                proof {
                    assert(self.discovered@ =~= reached);
                    assert(self.not_reached(graph) =~= waiting);
                }
                self.stack.pop();
                if self.finished.insert(nx) {
                    proof {
                        assert(self@ == dfs_step(before, graph@).0);
                    }
                    return Some(nx);
                }
                proof {
                    assert(self.finished@ =~= old(self).finished@);
                    assert(self@ == dfs_step(before, graph@).0);
                }
            }
        }
        None
    }
}

} // verus!
