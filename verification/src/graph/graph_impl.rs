//! The graph itself: nodes in key order, edges in the order they were added.
//!
//! Every node heads two singly linked lists threaded through the edges: one of
//! the edges that leave it and one of the edges that enter it. Both run from
//! the newest edge to the oldest.

use crate::graph::visit::DfsPostOrder;
use vstd::prelude::*;

verus! {

/// A node: its payload and the heads of its two edge lists.
#[derive(Debug)]
pub struct Node<N> {
    weight: N,
    next_outgoing_edge: Option<u32>,
    next_incoming_edge: Option<u32>,
}

/// An edge: its label, its two endpoints, and for either endpoint the next
/// older edge at that endpoint.
#[derive(Debug)]
pub struct Edge<E> {
    weight: E,
    from: u32,
    to: u32,
    next_outgoing_edge: Option<u32>,
    next_incoming_edge: Option<u32>,
}

/// What an edge is, apart from the list links.
pub ghost struct EdgeView<E> {
    pub weight: E,
    pub from: u32,
    pub to: u32,
}

/// What a graph is: a payload for every key, and the edges in insertion order.
pub ghost struct GraphView<N, E> {
    pub nodes: Map<u32, N>,
    pub edges: Seq<EdgeView<E>>,
}

/// The endpoint of an edge on the chosen side: the source if `out`, the
/// target otherwise.
pub open spec fn endpoint<E>(e: EdgeView<E>, out: bool) -> u32 {
    if out {
        e.from
    } else {
        e.to
    }
}

/// Among the first `n` edges, the newest one whose endpoint on the chosen side
/// is `key`.
pub open spec fn newest_at<E>(edges: Seq<EdgeView<E>>, out: bool, key: u32, n: int) -> Option<u32>
    decreases n,
{
    if n <= 0 {
        None
    } else if endpoint(edges[n - 1], out) == key {
        Some((n - 1) as u32)
    } else {
        newest_at(edges, out, key, n - 1)
    }
}

/// Among the first `n` edges, those whose endpoint on the chosen side is
/// `key`, newest first.
pub open spec fn incident<E>(edges: Seq<EdgeView<E>>, out: bool, key: u32, n: int) -> Seq<u32>
    decreases n,
{
    if n <= 0 {
        Seq::empty()
    } else if endpoint(edges[n - 1], out) == key {
        seq![(n - 1) as u32] + incident(edges, out, key, n - 1)
    } else {
        incident(edges, out, key, n - 1)
    }
}

/// The edges that leave `key`, newest first.
pub open spec fn out_edges<E>(edges: Seq<EdgeView<E>>, key: u32) -> Seq<u32> {
    incident(edges, true, key, edges.len() as int)
}

/// The edges that enter `key`, newest first.
pub open spec fn in_edges<E>(edges: Seq<EdgeView<E>>, key: u32) -> Seq<u32> {
    incident(edges, false, key, edges.len() as int)
}

/// The edges after a node was split: every edge that left `old_key` now
/// leaves `new_key`, and nothing else changed.
pub open spec fn with_source_moved<E>(edges: Seq<EdgeView<E>>, old_key: u32, new_key: u32) -> Seq<
    EdgeView<E>,
> {
    Seq::new(
        edges.len(),
        |j: int|
            if edges[j].from == old_key {
                EdgeView { weight: edges[j].weight, from: new_key, to: edges[j].to }
            } else {
                edges[j]
            },
    )
}

/// `keys` lists exactly the members of `dom`, in strictly increasing order.
pub open spec fn lists_in_order(keys: Seq<u32>, dom: Set<u32>) -> bool {
    &&& forall|i: int, j: int| 0 <= i < j < keys.len() ==> keys[i] < keys[j]
    &&& forall|k: u32| dom.contains(k) <==> keys.contains(k)
}

impl<N, E> GraphView<N, E> {
    /// Both endpoints of every edge are nodes.
    pub open spec fn edges_closed(self) -> bool {
        forall|j: int|
            0 <= j < self.edges.len() ==> self.nodes.dom().contains(#[trigger] self.edges[j].from)
                && self.nodes.dom().contains(self.edges[j].to)
    }
}

pub proof fn lemma_newest_at_bounds<E>(edges: Seq<EdgeView<E>>, out: bool, key: u32, n: int)
    requires
        0 <= n <= edges.len() <= u32::MAX,
    ensures
        match newest_at(edges, out, key, n) {
            Some(j) => j < n && endpoint(edges[j as int], out) == key && forall|i: int|
                j < i < n ==> endpoint(#[trigger] edges[i], out) != key,
            None => forall|i: int| 0 <= i < n ==> endpoint(#[trigger] edges[i], out) != key,
        },
    decreases n,
{
    if n > 0 && endpoint(edges[n - 1], out) != key {
        lemma_newest_at_bounds(edges, out, key, n - 1);
    }
}

pub proof fn lemma_newest_at_agrees<E, F>(
    a: Seq<EdgeView<E>>,
    b: Seq<EdgeView<F>>,
    out: bool,
    ka: u32,
    kb: u32,
    n: int,
)
    requires
        0 <= n <= a.len(),
        n <= b.len(),
        forall|i: int|
            0 <= i < n ==> ((endpoint(#[trigger] a[i], out) == ka) <==> (endpoint(b[i], out)
                == kb)),
    ensures
        newest_at(a, out, ka, n) == newest_at(b, out, kb, n),
        incident(a, out, ka, n) == incident(b, out, kb, n),
    decreases n,
{
    if n > 0 {
        lemma_newest_at_agrees(a, b, out, ka, kb, n - 1);
    }
}

pub proof fn lemma_incident_unfolds<E>(edges: Seq<EdgeView<E>>, out: bool, key: u32, n: int)
    requires
        0 <= n <= edges.len() <= u32::MAX,
    ensures
        incident(edges, out, key, n) == match newest_at(edges, out, key, n) {
            Some(j) => seq![j] + incident(edges, out, key, j as int),
            None => Seq::empty(),
        },
    decreases n,
{
    if n > 0 && endpoint(edges[n - 1], out) != key {
        lemma_incident_unfolds(edges, out, key, n - 1);
    }
}

/// Every listed edge index is in range and has `key` at the chosen side, and
/// the indices strictly decrease.
pub proof fn lemma_incident_members<E>(edges: Seq<EdgeView<E>>, out: bool, key: u32, n: int)
    requires
        0 <= n <= edges.len() <= u32::MAX,
    ensures
        incident(edges, out, key, n).len() <= n,
        forall|i: int|
            0 <= i < incident(edges, out, key, n).len() ==> (#[trigger] incident(
                edges,
                out,
                key,
                n,
            )[i]) < n && endpoint(edges[incident(edges, out, key, n)[i] as int], out) == key,
        forall|i: int, j: int|
            0 <= i < j < incident(edges, out, key, n).len() ==> incident(edges, out, key, n)[i]
                > incident(edges, out, key, n)[j],
        forall|e: int|
            0 <= e < n && endpoint(edges[e], out) == key ==> incident(
                edges,
                out,
                key,
                n,
            ).contains(e as u32),
    decreases n,
{
    if n > 0 {
        lemma_incident_members(edges, out, key, n - 1);
        let rest = incident(edges, out, key, n - 1);
        let all = incident(edges, out, key, n);
        if endpoint(edges[n - 1], out) == key {
            assert(all[0] == (n - 1) as u32);
            assert forall|i: int| 1 <= i < all.len() implies all[i] == rest[i - 1] by {}
            assert forall|e: int| 0 <= e < n && endpoint(edges[e], out) == key implies all.contains(
                e as u32,
            ) by {
                if e == n - 1 {
                    assert(all[0] == e as u32);
                } else {
                    let i = choose|i: int| 0 <= i < rest.len() && rest[i] == e as u32;
                    assert(all[i + 1] == e as u32);
                }
            }
        }
    }
}

impl<N: Clone> Clone for Node<N> {
    fn clone(&self) -> (r: Self)
        ensures
            cloned(self.payload(), r.payload()),
            r.head(true) == self.head(true),
            r.head(false) == self.head(false),
    {
        Node {
            weight: self.weight.clone(),
            next_incoming_edge: self.next_incoming_edge,
            next_outgoing_edge: self.next_outgoing_edge,
        }
    }
}

impl<E: Clone> Clone for Edge<E> {
    fn clone(&self) -> (r: Self)
        ensures
            cloned(self.view().weight, r.view().weight),
            r.view().from == self.view().from,
            r.view().to == self.view().to,
            r.link(true) == self.link(true),
            r.link(false) == self.link(false),
    {
        Edge {
            weight: self.weight.clone(),
            from: self.from,
            to: self.to,
            next_incoming_edge: self.next_incoming_edge,
            next_outgoing_edge: self.next_outgoing_edge,
        }
    }
}

impl<N: Clone> Node<N> {
    /// A copy of the payload.
    pub fn weight(&self) -> (r: N)
        ensures
            cloned(self.payload(), r),
    {
        self.weight.clone()
    }
}

impl<N> Node<N> {
    /// The payload.
    pub closed spec fn payload(&self) -> N {
        self.weight
    }
}

impl<E> Edge<E> {
    /// The edge without its list links.
    pub closed spec fn view(&self) -> EdgeView<E> {
        EdgeView { weight: self.weight, from: self.from, to: self.to }
    }

    #[inline(always)]
    pub fn weight(&self) -> (r: &E)
        ensures
            *r == self.view().weight,
    {
        &self.weight
    }

    #[inline(always)]
    pub fn to(&self) -> (r: u32)
        ensures
            r == self.view().to,
    {
        self.to
    }

    #[inline(always)]
    pub fn from(&self) -> (r: u32)
        ensures
            r == self.view().from,
    {
        self.from
    }

    /// The next older edge at the source, if `out`, or at the target.
    pub closed spec fn link(&self, out: bool) -> Option<u32> {
        if out {
            self.next_outgoing_edge
        } else {
            self.next_incoming_edge
        }
    }
}

impl<N> Node<N> {
    /// The newest edge that leaves the node, if `out`, or enters it.
    pub closed spec fn head(&self, out: bool) -> Option<u32> {
        if out {
            self.next_outgoing_edge
        } else {
            self.next_incoming_edge
        }
    }
}

/// The graph.
#[derive(Debug)]
pub struct Graph<N, E> {
    keys: Vec<u32>,
    nodes: Vec<Node<N>>,
    edges: Vec<Edge<E>>,
}

spec fn strictly_increasing(keys: Seq<u32>) -> bool {
    forall|i: int, j: int| 0 <= i < j < keys.len() ==> keys[i] < keys[j]
}

spec fn views_of<E>(edges: Seq<Edge<E>>) -> Seq<EdgeView<E>> {
    Seq::new(edges.len(), |j: int| edges[j].view())
}

spec fn slot_of(keys: Seq<u32>, key: u32) -> int {
    choose|i: int| 0 <= i < keys.len() && keys[i] == key
}

proof fn lemma_slot_of(keys: Seq<u32>, i: int)
    requires
        strictly_increasing(keys),
        0 <= i < keys.len(),
    ensures
        slot_of(keys, keys[i]) == i,
{
    let s = slot_of(keys, keys[i]);
    assert(0 <= s < keys.len() && keys[s] == keys[i]);
    if s < i {
        assert(keys[s] < keys[i]);
    } else if i < s {
        assert(keys[i] < keys[s]);
    }
}

/// The links of the first `n` edges lead where the lists require.
spec fn links_sound<E>(edges: Seq<Edge<E>>, n: int) -> bool {
    forall|j: int, out: bool|
        0 <= j < n ==> (#[trigger] edges[j].link(out)) == newest_at(
            views_of(edges),
            out,
            endpoint(edges[j].view(), out),
            j,
        )
}

impl<N, E> View for Graph<N, E> {
    type V = GraphView<N, E>;

    closed spec fn view(&self) -> GraphView<N, E> {
        GraphView {
            nodes: Map::new(
                |k: u32| self.keys@.contains(k),
                |k: u32| self.nodes@[slot_of(self.keys@, k)].weight,
            ),
            edges: views_of(self.edges@),
        }
    }
}

impl<N, E> Graph<N, E> {
    /// The representation is consistent: the keys are in order, every edge
    /// joins two nodes, and the edge lists are threaded as described.
    pub closed spec fn wf(&self) -> bool {
        &&& self.keys@.len() == self.nodes@.len()
        &&& strictly_increasing(self.keys@)
        &&& self.edges@.len() <= u32::MAX
        &&& forall|j: int|
            0 <= j < self.edges@.len() ==> self.keys@.contains((#[trigger] self.edges@[j]).from)
                && self.keys@.contains(self.edges@[j].to)
        &&& forall|i: int, out: bool|
            0 <= i < self.nodes@.len() ==> (#[trigger] self.nodes@[i].head(out)) == newest_at(
                views_of(self.edges@),
                out,
                self.keys@[i],
                self.edges@.len() as int,
            )
        &&& links_sound(self.edges@, self.edges@.len() as int)
    }

    /// The node keys in increasing order.
    pub closed spec fn key_seq(&self) -> Seq<u32> {
        self.keys@
    }

    /// What a well-formed graph guarantees about its view.
    pub proof fn lemma_wf(&self)
        requires
            self.wf(),
        ensures
            self@.edges_closed(),
            self@.edges.len() <= u32::MAX,
            self@.nodes.dom().finite(),
            self@.nodes.dom().len() == self.key_seq().len(),
            lists_in_order(self.key_seq(), self@.nodes.dom()),
    {
        assert forall|j: int| 0 <= j < self@.edges.len() implies self@.nodes.dom().contains(
            #[trigger] self@.edges[j].from,
        ) && self@.nodes.dom().contains(self@.edges[j].to) by {
            assert(self.keys@.contains(self.edges@[j].from));
        }
        self.keys@.unique_seq_to_set();
        assert(self@.nodes.dom() =~= self.keys@.to_set());
    }

    #[inline(always)]
    pub fn new() -> (g: Self)
        ensures
            g.wf(),
            g@.nodes == Map::<u32, N>::empty(),
            g@.edges == Seq::<EdgeView<E>>::empty(),
    {
        let g = Graph { keys: Vec::new(), nodes: Vec::new(), edges: Vec::new() };
        assert(g@.nodes =~= Map::<u32, N>::empty());
        assert(g@.edges =~= Seq::<EdgeView<E>>::empty());
        g
    }

    /// The number of keys below `key`.
    fn lower_bound(&self, key: u32) -> (pos: usize)
        requires
            strictly_increasing(self.keys@),
        ensures
            pos <= self.keys@.len(),
            forall|i: int| 0 <= i < pos ==> self.keys@[i] < key,
            forall|i: int| pos <= i < self.keys@.len() ==> self.keys@[i] >= key,
    {
        let mut lo: usize = 0;
        let mut hi: usize = self.keys.len();
        while lo < hi
            invariant
                lo <= hi <= self.keys@.len(),
                strictly_increasing(self.keys@),
                forall|i: int| 0 <= i < lo ==> self.keys@[i] < key,
                forall|i: int| hi <= i < self.keys@.len() ==> self.keys@[i] >= key,
            decreases hi - lo,
        {
            let mid: usize = lo + (hi - lo) / 2;
            if self.keys[mid] < key {
                lo = mid + 1;
            } else {
                hi = mid;
            }
        }
        lo
    }

    /// Where the node with this key is stored, if there is one.
    fn slot(&self, key: u32) -> (r: Option<usize>)
        requires
            self.wf(),
        ensures
            match r {
                Some(i) => i < self.keys@.len() && self.keys@[i as int] == key
                    && self@.nodes.dom().contains(key)
                    && self@.nodes[key] == self.nodes@[i as int].weight,
                None => !self@.nodes.dom().contains(key),
            },
    {
        let pos = self.lower_bound(key);
        if pos < self.keys.len() && self.keys[pos] == key {
            proof {
                lemma_slot_of(self.keys@, pos as int);
            }
            Some(pos)
        } else {
            None
        }
    }
}

impl<N, E> Graph<N, E> {
    /// The nodes in key order.
    #[inline(always)]
    pub fn nodes(&self) -> (r: &Vec<Node<N>>)
        requires
            self.wf(),
        ensures
            r@.len() == self.key_seq().len(),
            forall|i: int|
                0 <= i < r@.len() ==> (#[trigger] r@[i]).payload() == self@.nodes[self.key_seq()[i]],
    {
        proof {
            assert forall|i: int| 0 <= i < self.nodes@.len() implies (
            #[trigger] self.nodes@[i]).payload() == self@.nodes[self.keys@[i]] by {
                lemma_slot_of(self.keys@, i);
            }
        }
        &self.nodes
    }

    /// The node keys in increasing order.
    #[inline(always)]
    pub fn keys(&self) -> (r: &Vec<u32>)
        ensures
            r@ == self.key_seq(),
    {
        &self.keys
    }

    #[inline(always)]
    pub fn edge(&self, idx: u32) -> (r: Option<&Edge<E>>)
        ensures
            match r {
                Some(e) => idx < self@.edges.len() && e.view() == self@.edges[idx as int],
                None => idx >= self@.edges.len(),
            },
    {
        if (idx as usize) < self.edges.len() {
            Some(&self.edges[idx as usize])
        } else {
            None
        }
    }

    #[inline(always)]
    pub fn node_count(&self) -> (n: usize)
        requires
            self.wf(),
        ensures
            n == self@.nodes.dom().len(),
    {
        proof {
            self.lemma_wf();
        }
        self.keys.len()
    }

    /// The number of edges.
    #[inline(always)]
    pub fn edge_count(&self) -> (n: usize)
        ensures
            n == self@.edges.len(),
    {
        self.edges.len()
    }

    /// The target of an edge.
    #[inline(always)]
    pub fn edge_to(&self, index: u32) -> (r: u32)
        requires
            index < self@.edges.len(),
        ensures
            r == self@.edges[index as int].to,
    {
        self.edges[index as usize].to
    }

    /// The source of an edge.
    #[inline(always)]
    pub fn edge_from(&self, index: u32) -> (r: u32)
        requires
            index < self@.edges.len(),
        ensures
            r == self@.edges[index as int].from,
    {
        self.edges[index as usize].from
    }

    #[inline(always)]
    pub fn edge_weight(&self, index: u32) -> (r: Option<&E>)
        ensures
            match r {
                Some(w) => index < self@.edges.len() && *w == self@.edges[index as int].weight,
                None => index >= self@.edges.len(),
            },
    {
        if (index as usize) < self.edges.len() {
            Some(&self.edges[index as usize].weight)
        } else {
            None
        }
    }

    /// The greatest node key that is at most `index`.
    #[inline(always)]
    pub fn try_prev_node(&self, index: u32) -> (r: Option<u32>)
        requires
            self.wf(),
        ensures
            match r {
                Some(p) => p <= index && self@.nodes.dom().contains(p) && forall|k: u32|
                    self@.nodes.dom().contains(k) && k <= index ==> k <= p,
                None => forall|k: u32| self@.nodes.dom().contains(k) ==> k > index,
            },
    {
        let pos = self.lower_bound(index);
        if pos < self.keys.len() && self.keys[pos] == index {
            Some(index)
        } else if pos > 0 {
            let p = self.keys[pos - 1];
            assert forall|k: u32| self@.nodes.dom().contains(k) && k <= index implies k <= p by {
                let i = slot_of(self.keys@, k);
                if i >= pos {
                    assert(self.keys@[i] >= index);
                } else if i < pos - 1 {
                    assert(self.keys@[i] < self.keys@[pos - 1]);
                }
            }
            Some(p)
        } else {
            assert forall|k: u32| self@.nodes.dom().contains(k) implies k > index by {
                let i = slot_of(self.keys@, k);
                assert(self.keys@[i] >= index);
            }
            None
        }
    }

    /// The least node key that is at least `index`.
    #[inline(always)]
    pub fn try_next_node(&self, index: u32) -> (r: Option<u32>)
        requires
            self.wf(),
        ensures
            match r {
                Some(p) => p >= index && self@.nodes.dom().contains(p) && forall|k: u32|
                    self@.nodes.dom().contains(k) && k >= index ==> k >= p,
                None => forall|k: u32| self@.nodes.dom().contains(k) ==> k < index,
            },
    {
        let pos = self.lower_bound(index);
        if pos < self.keys.len() {
            let p = self.keys[pos];
            assert forall|k: u32| self@.nodes.dom().contains(k) && k >= index implies k >= p by {
                let i = slot_of(self.keys@, k);
                if i > pos {
                    assert(self.keys@[pos as int] < self.keys@[i]);
                }
            }
            Some(p)
        } else {
            assert forall|k: u32| self@.nodes.dom().contains(k) implies k < index by {
                let i = slot_of(self.keys@, k);
                assert(self.keys@[i] < index);
            }
            None
        }
    }

    /// The node stored under a key.
    #[inline(always)]
    pub fn node(&self, index: u32) -> (r: Option<&Node<N>>)
        requires
            self.wf(),
        ensures
            match r {
                Some(n) => self@.nodes.dom().contains(index) && n.payload() == self@.nodes[index],
                None => !self@.nodes.dom().contains(index),
            },
    {
        match self.slot(index) {
            Some(i) => Some(&self.nodes[i]),
            None => None,
        }
    }

    #[inline(always)]
    pub fn contains_node(&self, index: u32) -> (r: bool)
        requires
            self.wf(),
        ensures
            r == self@.nodes.dom().contains(index),
    {
        self.slot(index).is_some()
    }

    #[inline(always)]
    pub fn node_weight(&self, index: u32) -> (r: Option<&N>)
        requires
            self.wf(),
        ensures
            match r {
                Some(w) => self@.nodes.dom().contains(index) && *w == self@.nodes[index],
                None => !self@.nodes.dom().contains(index),
            },
    {
        match self.slot(index) {
            Some(i) => Some(&self.nodes[i].weight),
            None => None,
        }
    }

    /// Mutable access to the payload of a node. Whatever the caller writes
    /// through the reference becomes the payload; nothing else changes.
    #[inline(always)]
    pub fn node_weight_mut(&mut self, index: u32) -> (r: Option<&mut N>)
        requires
            old(self).wf(),
        ensures
            final(self).wf(),
            final(self)@.edges == old(self)@.edges,
            final(self).key_seq() == old(self).key_seq(),
            match r {
                Some(w) => old(self)@.nodes.dom().contains(index) && *w == old(self)@.nodes[index]
                    && final(self)@.nodes == old(self)@.nodes.insert(index, *final(w)),
                None => !old(self)@.nodes.dom().contains(index) && final(self)@.nodes == old(
                    self,
                )@.nodes,
            },
    {
        match self.slot(index) {
            Some(i) => {
                proof {
                    assert forall|g: Self| self.reweighted(g, i as int) implies (#[trigger] g.wf())
                        && g@.edges == self@.edges && g.key_seq() == self.key_seq() && g@.nodes
                        == self@.nodes.insert(index, g.nodes@[i as int].weight) by {
                        self.lemma_reweighted(g, i as int);
                    }
                }
                Some(&mut self.nodes[i].weight)
            },
            None => None,
        }
    }

    /// `g` is this graph with another payload in the node at slot `i`.
    spec fn reweighted(&self, g: Self, i: int) -> bool {
        &&& 0 <= i < self.nodes@.len()
        &&& g.keys == self.keys
        &&& g.edges == self.edges
        &&& g.nodes@.len() == self.nodes@.len()
        &&& forall|j: int| 0 <= j < self.nodes@.len() && j != i ==> g.nodes@[j] == self.nodes@[j]
        &&& g.nodes@[i].next_outgoing_edge == self.nodes@[i].next_outgoing_edge
        &&& g.nodes@[i].next_incoming_edge == self.nodes@[i].next_incoming_edge
    }

    proof fn lemma_reweighted(&self, g: Self, i: int)
        requires
            self.wf(),
            self.reweighted(g, i),
        ensures
            g.wf(),
            g@.edges == self@.edges,
            g.key_seq() == self.key_seq(),
            g@.nodes == self@.nodes.insert(self.keys@[i], g.nodes@[i].weight),
    {
        assert forall|j: int, out: bool| 0 <= j < g.nodes@.len() implies (#[trigger] g.nodes@[j].head(
            out,
        )) == self.nodes@[j].head(out) by {}
        assert(g@.nodes =~= self@.nodes.insert(self.keys@[i], g.nodes@[i].weight)) by {
            assert forall|k: u32| self.keys@.contains(k) implies (#[trigger] g@.nodes[k])
                == self@.nodes.insert(self.keys@[i], g.nodes@[i].weight)[k] by {
                lemma_slot_of(self.keys@, i);
            }
        }
    }
}

impl<N, E> Graph<N, E> {
    /// Puts a payload under a key. A key that is new becomes a node without
    /// edges. A key that is taken keeps its edges and gets the new payload;
    /// the payload it had is handed back.
    #[verifier::rlimit(50)]
    pub fn add_node(&mut self, index: u32, weight: N) -> (previous: Option<N>)
        requires
            old(self).wf(),
        ensures
            final(self).wf(),
            final(self)@.nodes == old(self)@.nodes.insert(index, weight),
            final(self)@.edges == old(self)@.edges,
            previous == if old(self)@.nodes.dom().contains(index) {
                Some(old(self)@.nodes[index])
            } else {
                None::<N>
            },
    {
        let pos = self.lower_bound(index);
        if pos < self.keys.len() && self.keys[pos] == index {
            proof {
                lemma_slot_of(self.keys@, pos as int);
            }
            let mut w = weight;
            core::mem::swap(&mut self.nodes[pos].weight, &mut w);
            proof {
                old(self).lemma_reweighted(*self, pos as int);
            }
            Some(w)
        } else {
            let ghost keys0 = self.keys@;
            let ghost nodes0 = self.nodes@;
            self.keys.insert(pos, index);
            self.nodes.insert(
                pos,
                Node { weight, next_outgoing_edge: None, next_incoming_edge: None },
            );
            proof {
                let keys1 = self.keys@;
                let nodes1 = self.nodes@;
                let views = views_of(self.edges@);
                assert(!keys0.contains(index));
                assert(strictly_increasing(keys1));
                assert forall|k: u32| keys1.contains(k) <==> (keys0.contains(k) || k == index) by {
                    if keys0.contains(k) {
                        let i = slot_of(keys0, k);
                        if i < pos {
                            assert(keys1[i] == k);
                        } else {
                            assert(keys1[i + 1] == k);
                        }
                    }
                    if k == index {
                        assert(keys1[pos as int] == k);
                    }
                    if keys1.contains(k) {
                        let i = slot_of(keys1, k);
                        if i < pos {
                            assert(keys0[i] == k);
                        } else if i > pos {
                            assert(keys0[i - 1] == k);
                        }
                    }
                }
                assert forall|i: int, out: bool| 0 <= i < nodes1.len() implies (
                #[trigger] nodes1[i].head(out)) == newest_at(
                    views,
                    out,
                    keys1[i],
                    self.edges@.len() as int,
                ) by {
                    if i < pos {
                        assert(nodes1[i] == nodes0[i]);
                        assert(nodes0[i].head(out) == nodes1[i].head(out));
                    } else if i > pos {
                        assert(nodes1[i] == nodes0[i - 1]);
                        assert(nodes0[i - 1].head(out) == nodes1[i].head(out));
                    } else {
                        lemma_newest_at_bounds(views, out, index, self.edges@.len() as int);
                        if let Some(j) = newest_at(views, out, index, self.edges@.len() as int) {
                            assert(keys0.contains(self.edges@[j as int].from));
                            assert(keys0.contains(self.edges@[j as int].to));
                        }
                    }
                }
                assert forall|j: int| 0 <= j < self.edges@.len() implies keys1.contains(
                    (#[trigger] self.edges@[j]).from,
                ) && keys1.contains(self.edges@[j].to) by {
                    assert(keys0.contains(self.edges@[j].from));
                    assert(keys0.contains(self.edges@[j].to));
                }
                assert(final(self)@.nodes =~= old(self)@.nodes.insert(index, weight)) by {
                    assert forall|k: u32| keys1.contains(k) implies (#[trigger] self@.nodes[k]) == old(
                        self,
                    )@.nodes.insert(index, weight)[k] by {
                        let i = slot_of(keys1, k);
                        if i < pos {
                            lemma_slot_of(keys0, i);
                        } else if i > pos {
                            lemma_slot_of(keys0, i - 1);
                        }
                    }
                }
            }
            None
        }
    }

    /// Appends an edge and puts it at the front of the lists of both its
    /// endpoints. The result is the index of the new edge.
    #[verifier::rlimit(50)]
    pub fn add_edge(&mut self, weight: E, from: u32, to: u32) -> (index: u32)
        requires
            old(self).wf(),
            old(self)@.nodes.dom().contains(from),
            old(self)@.nodes.dom().contains(to),
            old(self)@.edges.len() < u32::MAX,
        ensures
            final(self).wf(),
            final(self)@.nodes == old(self)@.nodes,
            final(self).key_seq() == old(self).key_seq(),
            final(self)@.edges == old(self)@.edges.push(EdgeView { weight, from, to }),
            index == old(self)@.edges.len(),
    {
        let index = self.edges.len() as u32;
        let fi = self.slot(from).unwrap();
        let ti = self.slot(to).unwrap();
        let ghost nodes0 = self.nodes@;
        let ghost views0 = views_of(self.edges@);

        let next_outgoing_edge = self.nodes[fi].next_outgoing_edge;
        self.nodes[fi].next_outgoing_edge = Some(index);
        let next_incoming_edge = self.nodes[ti].next_incoming_edge;
        self.nodes[ti].next_incoming_edge = Some(index);

        self.edges.push(Edge { weight, from, to, next_incoming_edge, next_outgoing_edge });

        proof {
            let keys = self.keys@;
            let nodes1 = self.nodes@;
            let views1 = views_of(self.edges@);
            let n = index as int;
            assert(views1 =~= views0.push(EdgeView { weight, from, to }));
            assert(next_outgoing_edge == nodes0[fi as int].head(true));
            assert(next_incoming_edge == nodes0[ti as int].head(false));
            assert forall|j: int, out: bool, k: u32| 0 <= j <= n implies newest_at(
                views1,
                out,
                k,
                j,
            ) == newest_at(views0, out, k, j) by {
                lemma_newest_at_agrees(views1, views0, out, k, k, j);
            }
            assert forall|i: int, out: bool| 0 <= i < nodes1.len() implies (#[trigger] nodes1[i].head(
                out,
            )) == newest_at(views1, out, keys[i], n + 1) by {
                assert(nodes0[i].head(out) == newest_at(views0, out, keys[i], n));
                if i != fi {
                    assert(keys[i] != from);
                }
                if i != ti {
                    assert(keys[i] != to);
                }
            }
            assert forall|j: int, out: bool| 0 <= j < n + 1 implies (#[trigger] self.edges@[j].link(
                out,
            )) == newest_at(views1, out, endpoint(self.edges@[j].view(), out), j) by {
                if j < n {
                    assert(self.edges@[j] == old(self).edges@[j]);
                    assert(old(self).edges@[j].link(out) == newest_at(
                        views0,
                        out,
                        endpoint(old(self).edges@[j].view(), out),
                        j,
                    ));
                }
            }
            assert forall|j: int| 0 <= j < self.edges@.len() implies keys.contains(
                (#[trigger] self.edges@[j]).from,
            ) && keys.contains(self.edges@[j].to) by {
                if j < n {
                    assert(self.edges@[j] == old(self).edges@[j]);
                }
            }
            assert(self@.nodes =~= old(self)@.nodes);
        }
        index
    }

    /// The target of the newest edge that leaves a node.
    pub fn next_outgoing_node_idx(&self, node_idx: u32) -> (r: Option<u32>)
        requires
            self.wf(),
            self@.nodes.dom().contains(node_idx),
        ensures
            r == match newest_at(self@.edges, true, node_idx, self@.edges.len() as int) {
                Some(j) => Some(self@.edges[j as int].to),
                None => None,
            },
    {
        let i = self.slot(node_idx).unwrap();
        proof {
            assert(self.nodes@[i as int].head(true) == newest_at(
                self@.edges,
                true,
                node_idx,
                self@.edges.len() as int,
            ));
            lemma_newest_at_bounds(self@.edges, true, node_idx, self@.edges.len() as int);
        }
        if let Some(edge_idx) = self.nodes[i].next_outgoing_edge {
            return Some(self.edges[edge_idx as usize].to);
        }
        None
    }
}

/// Where the lists stand after the edges that left `index` were moved to the
/// fresh key `new_index`.
spec fn moved<E>(
    edges: Seq<EdgeView<E>>,
    out: bool,
    key: u32,
    n: int,
    index: u32,
    new_index: u32,
) -> Option<u32> {
    if out && key == new_index {
        newest_at(edges, true, index, n)
    } else if out && key == index {
        None
    } else {
        newest_at(edges, out, key, n)
    }
}

/// `e1` is `e0` with every source `index` replaced by `new_index`.
spec fn renamed<E>(e0: Seq<Edge<E>>, e1: Seq<Edge<E>>, index: u32, new_index: u32) -> bool {
    &&& e1.len() == e0.len()
    &&& forall|j: int|
        0 <= j < e0.len() ==> (#[trigger] e1[j]).weight == e0[j].weight && e1[j].to == e0[j].to
            && e1[j].next_outgoing_edge == e0[j].next_outgoing_edge && e1[j].next_incoming_edge
            == e0[j].next_incoming_edge && e1[j].from == if e0[j].from == index {
            new_index
        } else {
            e0[j].from
        }
}

proof fn lemma_moved<E>(
    e0: Seq<Edge<E>>,
    e1: Seq<Edge<E>>,
    index: u32,
    new_index: u32,
    out: bool,
    key: u32,
    m: int,
)
    requires
        0 <= m <= e0.len() <= u32::MAX,
        index != new_index,
        renamed(e0, e1, index, new_index),
        forall|j: int|
            0 <= j < e0.len() ==> (#[trigger] e0[j]).from != new_index && e0[j].to != new_index,
    ensures
        newest_at(views_of(e1), out, key, m) == moved(views_of(e0), out, key, m, index, new_index),
    decreases m,
{
    let v0 = views_of(e0);
    let v1 = views_of(e1);
    if m > 0 {
        lemma_moved(e0, e1, index, new_index, out, key, m - 1);
        assert(e1[m - 1].to == e0[m - 1].to);
        assert(e0[m - 1].from != new_index);
        assert(v1[m - 1] == e1[m - 1].view());
        assert(v0[m - 1] == e0[m - 1].view());
    }
}

proof fn lemma_renamed_links<E>(e0: Seq<Edge<E>>, e1: Seq<Edge<E>>, index: u32, new_index: u32)
    requires
        e0.len() <= u32::MAX,
        index != new_index,
        renamed(e0, e1, index, new_index),
        forall|j: int|
            0 <= j < e0.len() ==> (#[trigger] e0[j]).from != new_index && e0[j].to != new_index,
        links_sound(e0, e0.len() as int),
    ensures
        links_sound(e1, e1.len() as int),
        views_of(e1) == with_source_moved(views_of(e0), index, new_index),
{
    let v0 = views_of(e0);
    let v1 = views_of(e1);
    assert forall|j: int, out: bool| 0 <= j < e1.len() implies (#[trigger] e1[j].link(out))
        == newest_at(v1, out, endpoint(e1[j].view(), out), j) by {
        assert(e0[j].link(out) == newest_at(v0, out, endpoint(e0[j].view(), out), j));
        assert(e1[j].link(out) == e0[j].link(out));
        assert(e0[j].from != new_index && e0[j].to != new_index);
        lemma_moved(e0, e1, index, new_index, out, endpoint(e1[j].view(), out), j);
    }
    assert forall|j: int| 0 <= j < e0.len() implies (#[trigger] v1[j]) == with_source_moved(
        v0,
        index,
        new_index,
    )[j] by {
        assert(v1[j] == e1[j].view());
        assert(v0[j] == e0[j].view());
    }
    assert(v1 =~= with_source_moved(v0, index, new_index));
}

proof fn lemma_keys_inserted(keys0: Seq<u32>, pos: int, key: u32)
    requires
        strictly_increasing(keys0),
        0 <= pos <= keys0.len(),
        forall|i: int| 0 <= i < pos ==> keys0[i] < key,
        forall|i: int| pos <= i < keys0.len() ==> keys0[i] > key,
    ensures
        strictly_increasing(keys0.insert(pos, key)),
        forall|k: u32| keys0.insert(pos, key).contains(k) <==> (keys0.contains(k) || k == key),
        forall|i: int|
            0 <= i < keys0.len() ==> slot_of(keys0.insert(pos, key), #[trigger] keys0[i]) == if i
                < pos {
                i
            } else {
                i + 1
            },
        slot_of(keys0.insert(pos, key), key) == pos,
{
    let keys1 = keys0.insert(pos, key);
    assert(strictly_increasing(keys1));
    assert forall|k: u32| keys1.contains(k) <==> (keys0.contains(k) || k == key) by {
        if keys0.contains(k) {
            let s = slot_of(keys0, k);
            if s < pos {
                assert(keys1[s] == k);
            } else {
                assert(keys1[s + 1] == k);
            }
        }
        if k == key {
            assert(keys1[pos] == k);
        }
        if keys1.contains(k) {
            let s = slot_of(keys1, k);
            if s < pos {
                assert(keys0[s] == k);
            } else if s > pos {
                assert(keys0[s - 1] == k);
            }
        }
    }
    assert forall|i: int| 0 <= i < keys0.len() implies slot_of(keys1, #[trigger] keys0[i]) == if i
        < pos {
        i
    } else {
        i + 1
    } by {
        if i < pos {
            assert(keys1[i] == keys0[i]);
            lemma_slot_of(keys1, i);
        } else {
            assert(keys1[i + 1] == keys0[i]);
            lemma_slot_of(keys1, i + 1);
        }
    }
    assert(keys1[pos] == key);
    lemma_slot_of(keys1, pos);
}

impl<N, E> Graph<N, E> {
    /// `g` is this graph after the node at slot `i` was split and the new
    /// node was stored at slot `pos`.
    spec fn split_into(&self, g: Self, i: int, pos: int, index: u32, new_index: u32) -> bool {
        &&& 0 <= i < self.nodes@.len()
        &&& self.keys@[i] == index
        &&& index != new_index
        &&& !self.keys@.contains(new_index)
        &&& 0 <= pos <= self.keys@.len()
        &&& forall|s: int| 0 <= s < pos ==> self.keys@[s] < new_index
        &&& forall|s: int| pos <= s < self.keys@.len() ==> self.keys@[s] > new_index
        &&& g.keys@ == self.keys@.insert(pos, new_index)
        &&& g.nodes@.len() == self.nodes@.len() + 1
        &&& g.nodes@[pos].next_outgoing_edge == self.nodes@[i].next_outgoing_edge
        &&& g.nodes@[pos].next_incoming_edge.is_none()
        &&& forall|t: int|
            0 <= t < g.nodes@.len() && t != pos ==> {
                let s = if t < pos {
                    t
                } else {
                    t - 1
                };
                if s == i {
                    (#[trigger] g.nodes@[t]).next_outgoing_edge.is_none()
                        && g.nodes@[t].next_incoming_edge == self.nodes@[s].next_incoming_edge
                } else {
                    g.nodes@[t] == self.nodes@[s]
                }
            }
        &&& renamed(self.edges@, g.edges@, index, new_index)
    }

    #[verifier::rlimit(50)]
    proof fn lemma_split_into(&self, g: Self, i: int, pos: int, index: u32, new_index: u32)
        requires
            self.wf(),
            self.split_into(g, i, pos, index, new_index),
        ensures
            g.wf(),
            g@.edges == with_source_moved(self@.edges, index, new_index),
            g@.nodes.dom() == self@.nodes.dom().insert(new_index),
            g@.nodes == self@.nodes.insert(
                index,
                g.nodes@[if i < pos {
                    i
                } else {
                    i + 1
                }].weight,
            ).insert(new_index, g.nodes@[pos].weight),
    {
        let keys0 = self.keys@;
        let keys1 = g.keys@;
        let e0 = self.edges@;
        let e1 = g.edges@;
        let v0 = views_of(e0);
        let v1 = views_of(e1);
        let n = e0.len() as int;
        lemma_keys_inserted(keys0, pos, new_index);
        assert forall|j: int| 0 <= j < e0.len() implies (#[trigger] e0[j]).from != new_index
            && e0[j].to != new_index by {
            assert(keys0.contains(e0[j].from));
            assert(keys0.contains(e0[j].to));
        }
        lemma_renamed_links(e0, e1, index, new_index);
        assert forall|j: int| 0 <= j < e1.len() implies keys1.contains((#[trigger] e1[j]).from)
            && keys1.contains(e1[j].to) by {
            assert(keys0.contains(e0[j].from));
            assert(keys0.contains(e0[j].to));
        }
        assert forall|t: int, out: bool| 0 <= t < g.nodes@.len() implies (#[trigger] g.nodes@[t].head(
            out,
        )) == newest_at(v1, out, keys1[t], n) by {
            lemma_moved(e0, e1, index, new_index, out, keys1[t], n);
            if t == pos {
                assert(self.nodes@[i].head(true) == newest_at(v0, true, index, n));
                lemma_newest_at_bounds(v0, false, new_index, n);
                if let Some(j) = newest_at(v0, false, new_index, n) {
                    assert(v0[j as int] == e0[j as int].view());
                }
            } else {
                let s = if t < pos {
                    t
                } else {
                    t - 1
                };
                assert(keys1[t] == keys0[s]);
                assert(self.nodes@[s].head(out) == newest_at(v0, out, keys0[s], n));
                if s != i {
                    assert(keys0[s] != index);
                    assert(g.nodes@[t] == self.nodes@[s]);
                }
            }
        }
        assert(g@.nodes.dom() =~= self@.nodes.dom().insert(new_index));
        let ti = if i < pos {
            i
        } else {
            i + 1
        };
        assert(g@.nodes =~= self@.nodes.insert(index, g.nodes@[ti].weight).insert(
            new_index,
            g.nodes@[pos].weight,
        )) by {
            assert forall|k: u32| keys1.contains(k) implies (#[trigger] g@.nodes[k])
                == self@.nodes.insert(index, g.nodes@[ti].weight).insert(
                new_index,
                g.nodes@[pos].weight,
            )[k] by {
                if k != new_index {
                    let s = slot_of(keys0, k);
                    assert(keys0[s] == k);
                    lemma_slot_of(keys0, s);
                    lemma_slot_of(keys0, i);
                }
            }
        }
    }

    /// Splits a node in two. `splitter` gets the payload of the node at
    /// `index`, may change it, and returns the payload of a new node at
    /// `new_index`. The new node takes over every edge that left the old one;
    /// the old node keeps the edges that enter it.
    #[verifier::rlimit(50)]
    pub fn split_node<F: FnOnce(&mut N) -> N>(
        &mut self,
        index: u32,
        new_index: u32,
        splitter: F,
    ) -> (r: u32)
        requires
            old(self).wf(),
            old(self)@.nodes.dom().contains(index),
            !old(self)@.nodes.dom().contains(new_index),
            new_index > index,
            forall|a: &mut N| *a == old(self)@.nodes[index] ==> #[trigger] splitter.requires((a,)),
        ensures
            final(self).wf(),
            r == new_index,
            final(self)@.edges == with_source_moved(old(self)@.edges, index, new_index),
            final(self)@.nodes.dom() == old(self)@.nodes.dom().insert(new_index),
            exists|a: &mut N|
                *a == old(self)@.nodes[index] && #[trigger] splitter.ensures(
                    (a,),
                    final(self)@.nodes[new_index],
                ) && final(self)@.nodes == old(self)@.nodes.insert(index, *final(a)).insert(
                    new_index,
                    final(self)@.nodes[new_index],
                ),
    {
        let i = self.slot(index).unwrap();
        let ghost edges0 = self.edges@;
        let ghost views0 = views_of(self.edges@);
        let ghost n = self.edges@.len() as int;

        let mut next_outgoing_edge = self.nodes[i].next_outgoing_edge;
        self.nodes[i].next_outgoing_edge = None;
        let new_weight = splitter(&mut self.nodes[i].weight);
        let ghost changed = self.nodes@[i as int].weight;

        let pos = self.lower_bound(new_index);
        self.keys.insert(pos, new_index);
        self.nodes.insert(
            pos,
            Node { weight: new_weight, next_outgoing_edge, next_incoming_edge: None },
        );
        let ghost keys1 = self.keys@;
        let ghost nodes1 = self.nodes@;

        let ghost mut bound = n;
        proof {
            assert(old(self).nodes@[i as int].head(true) == newest_at(views0, true, index, n));
        }
        loop
            invariant
                self.keys@ == keys1,
                self.nodes@ == nodes1,
                self.edges@.len() == n,
                n == edges0.len(),
                n <= u32::MAX,
                views0 == views_of(edges0),
                links_sound(edges0, n),
                0 <= bound <= n,
                next_outgoing_edge == newest_at(views0, true, index, bound),
                forall|j: int|
                    0 <= j < n ==> (#[trigger] self.edges@[j]).weight == edges0[j].weight
                        && self.edges@[j].to == edges0[j].to && self.edges@[j].next_outgoing_edge
                        == edges0[j].next_outgoing_edge && self.edges@[j].next_incoming_edge
                        == edges0[j].next_incoming_edge,
                forall|j: int|
                    0 <= j < n ==> (#[trigger] self.edges@[j]).from == if j >= bound
                        && edges0[j].from == index {
                        new_index
                    } else {
                        edges0[j].from
                    },
            ensures
                next_outgoing_edge.is_none(),
            decreases bound,
        {
            proof {
                lemma_newest_at_bounds(views0, true, index, bound);
                assert forall|j: int| 0 <= j < n implies (#[trigger] views0[j]).from
                    == edges0[j].from by {}
            }
            match next_outgoing_edge {
                Some(edge_index) => {
                    proof {
                        assert(edges0[edge_index as int].link(true) == newest_at(
                            views0,
                            true,
                            endpoint(edges0[edge_index as int].view(), true),
                            edge_index as int,
                        ));
                        assert(views0[edge_index as int].from == index);
                    }
                    let ghost before = self.edges@;
                    self.edges[edge_index as usize].from = new_index;
                    next_outgoing_edge = self.edges[edge_index as usize].next_outgoing_edge;
                    proof {
                        assert forall|j: int| 0 <= j < n implies (#[trigger] self.edges@[j]).from
                            == if j >= edge_index && edges0[j].from == index {
                            new_index
                        } else {
                            edges0[j].from
                        } by {
                            if j != edge_index {
                                assert(self.edges@[j] == before[j]);
                                if edge_index < j < bound {
                                    assert(endpoint(views0[j], true) != index);
                                }
                            }
                        }
                        bound = edge_index as int;
                    }
                },
                None => {
                    break ;
                },
            }
        }

        proof {
            lemma_newest_at_bounds(views0, true, index, bound);
            assert forall|j: int| 0 <= j < n implies (#[trigger] self.edges@[j]).from
                == if edges0[j].from == index {
                new_index
            } else {
                edges0[j].from
            } by {
                if j < bound {
                    assert(endpoint(views0[j], true) != index);
                }
            }
            assert(old(self).split_into(*self, i as int, pos as int, index, new_index));
            old(self).lemma_split_into(*self, i as int, pos as int, index, new_index);
            assert(self.nodes@[pos as int].weight == new_weight);
            assert(self@.nodes[new_index] == new_weight);
            assert(self@.nodes == old(self)@.nodes.insert(index, changed).insert(
                new_index,
                new_weight,
            ));
        }
        new_index
    }
}

/// What is still to come when a list is walked from `next`.
spec fn rest_of<E>(edges: Seq<Edge<E>>, out: bool, next: Option<u32>) -> Seq<u32> {
    match next {
        Some(j) => seq![j] + incident(
            views_of(edges),
            out,
            endpoint(edges[j as int].view(), out),
            j as int,
        ),
        None => Seq::empty(),
    }
}

spec fn walk_sound<E>(edges: Seq<Edge<E>>, next: Option<u32>) -> bool {
    &&& edges.len() <= u32::MAX
    &&& links_sound(edges, edges.len() as int)
    &&& match next {
        Some(j) => j < edges.len(),
        None => true,
    }
}

proof fn lemma_walk_step<E>(edges: Seq<Edge<E>>, out: bool, j: u32)
    requires
        walk_sound(edges, Some(j)),
    ensures
        walk_sound(edges, edges[j as int].link(out)),
        rest_of(edges, out, Some(j)) == seq![j] + rest_of(edges, out, edges[j as int].link(out)),
{
    let views = views_of(edges);
    let key = endpoint(edges[j as int].view(), out);
    assert(edges[j as int].link(out) == newest_at(views, out, key, j as int));
    lemma_newest_at_bounds(views, out, key, j as int);
    lemma_incident_unfolds(views, out, key, j as int);
    if let Some(k) = newest_at(views, out, key, j as int) {
        assert(views[k as int] == edges[k as int].view());
    }
}

/// A walk over the edges that leave one node, newest first.
pub struct Outputs<'graph, E> {
    edges: &'graph [Edge<E>],
    next: Option<u32>,
}

impl<'graph, E> Outputs<'graph, E> {
    /// The walk stands inside a well-formed edge list.
    pub closed spec fn wf(&self) -> bool {
        walk_sound(self.edges@, self.next)
    }

    /// The edge indices that the walk has still to yield, in order.
    pub closed spec fn remaining(&self) -> Seq<u32> {
        rest_of(self.edges@, true, self.next)
    }

    /// Yields the next edge index, or `None` at the end of the list.
    #[inline]
    pub fn next(&mut self) -> (r: Option<u32>)
        requires
            old(self).wf(),
        ensures
            final(self).wf(),
            match r {
                Some(j) => old(self).remaining() == seq![j] + final(self).remaining(),
                None => old(self).remaining() == Seq::<u32>::empty() && final(self).remaining()
                    == Seq::<u32>::empty(),
            },
    {
        let next = self.next;
        if let Some(idx) = next {
            proof {
                lemma_walk_step(self.edges@, true, idx);
            }
            self.next = self.edges[idx as usize].next_outgoing_edge;
        }
        next
    }
}

/// A walk over the edges that enter one node, newest first.
pub struct Inputs<'graph, E> {
    edges: &'graph [Edge<E>],
    next: Option<u32>,
}

impl<'graph, E> Inputs<'graph, E> {
    /// The walk stands inside a well-formed edge list.
    pub closed spec fn wf(&self) -> bool {
        walk_sound(self.edges@, self.next)
    }

    /// The edge indices that the walk has still to yield, in order.
    pub closed spec fn remaining(&self) -> Seq<u32> {
        rest_of(self.edges@, false, self.next)
    }

    /// Yields the next edge index, or `None` at the end of the list.
    #[inline]
    pub fn next(&mut self) -> (r: Option<u32>)
        requires
            old(self).wf(),
        ensures
            final(self).wf(),
            match r {
                Some(j) => old(self).remaining() == seq![j] + final(self).remaining(),
                None => old(self).remaining() == Seq::<u32>::empty() && final(self).remaining()
                    == Seq::<u32>::empty(),
            },
    {
        let next = self.next;
        if let Some(idx) = next {
            proof {
                lemma_walk_step(self.edges@, false, idx);
            }
            self.next = self.edges[idx as usize].next_incoming_edge;
        }
        next
    }
}

impl<N, E> Graph<N, E> {
    proof fn lemma_head_rest(&self, i: int, out: bool)
        requires
            self.wf(),
            0 <= i < self.nodes@.len(),
        ensures
            walk_sound(self.edges@, self.nodes@[i].head(out)),
            rest_of(self.edges@, out, self.nodes@[i].head(out)) == incident(
                self@.edges,
                out,
                self.keys@[i],
                self@.edges.len() as int,
            ),
    {
        let views = views_of(self.edges@);
        let n = self.edges@.len() as int;
        assert(self.nodes@[i].head(out) == newest_at(views, out, self.keys@[i], n));
        lemma_newest_at_bounds(views, out, self.keys@[i], n);
        lemma_incident_unfolds(views, out, self.keys@[i], n);
        if let Some(k) = newest_at(views, out, self.keys@[i], n) {
            assert(views[k as int] == self.edges@[k as int].view());
        }
    }

    /// A walk over the edges that leave a node.
    #[inline(always)]
    pub fn outputs(&self, node_idx: u32) -> (r: Outputs<'_, E>)
        requires
            self.wf(),
            self@.nodes.dom().contains(node_idx),
        ensures
            r.wf(),
            r.remaining() == out_edges(self@.edges, node_idx),
    {
        let i = self.slot(node_idx).unwrap();
        proof {
            self.lemma_head_rest(i as int, true);
        }
        Outputs { edges: self.edges.as_slice(), next: self.nodes[i].next_outgoing_edge }
    }

    /// A walk over the edges that enter a node.
    #[inline(always)]
    pub fn inputs(&self, node_idx: u32) -> (r: Inputs<'_, E>)
        requires
            self.wf(),
            self@.nodes.dom().contains(node_idx),
        ensures
            r.wf(),
            r.remaining() == in_edges(self@.edges, node_idx),
    {
        let i = self.slot(node_idx).unwrap();
        proof {
            self.lemma_head_rest(i as int, false);
        }
        Inputs { edges: self.edges.as_slice(), next: self.nodes[i].next_incoming_edge }
    }

    /// Every node's key with its payload, in key order.
    pub fn iter_node_weights(&self) -> (r: Vec<(u32, &N)>)
        requires
            self.wf(),
        ensures
            r@.len() == self.key_seq().len(),
            forall|i: int|
                0 <= i < r@.len() ==> (#[trigger] r@[i]).0 == self.key_seq()[i] && *r@[i].1
                    == self@.nodes[self.key_seq()[i]],
    {
        let mut out: Vec<(u32, &N)> = Vec::with_capacity(self.keys.len());
        let mut i: usize = 0;
        while i < self.keys.len()
            invariant
                self.wf(),
                i <= self.keys@.len(),
                out@.len() == i,
                forall|j: int|
                    0 <= j < i ==> (#[trigger] out@[j]).0 == self.keys@[j] && *out@[j].1
                        == self@.nodes[self.keys@[j]],
            decreases self.keys@.len() - i,
        {
            proof {
                lemma_slot_of(self.keys@, i as int);
            }
            out.push((self.keys[i], &self.nodes[i].weight));
            i += 1;
        }
        out
    }
}

/// Two graphs have the same keys and the same edges between them, label for
/// label a copy.
pub open spec fn same_structure<N, T, E: Clone>(a: GraphView<N, E>, b: GraphView<T, E>) -> bool {
    &&& b.nodes.dom() == a.nodes.dom()
    &&& b.edges.len() == a.edges.len()
    &&& forall|j: int|
        0 <= j < a.edges.len() ==> (#[trigger] b.edges[j]).from == a.edges[j].from && b.edges[j].to
            == a.edges[j].to && cloned(a.edges[j].weight, b.edges[j].weight)
}

impl<N, E: Clone> Graph<N, E> {
    fn copy_edges(&self) -> (r: Vec<Edge<E>>)
        ensures
            r@.len() == self.edges@.len(),
            forall|j: int|
                0 <= j < r@.len() ==> (#[trigger] r@[j]).from == self.edges@[j].from && r@[j].to
                    == self.edges@[j].to && r@[j].next_outgoing_edge
                    == self.edges@[j].next_outgoing_edge && r@[j].next_incoming_edge
                    == self.edges@[j].next_incoming_edge && cloned(
                    self.edges@[j].weight,
                    r@[j].weight,
                ),
    {
        let mut out: Vec<Edge<E>> = Vec::with_capacity(self.edges.len());
        let mut j: usize = 0;
        while j < self.edges.len()
            invariant
                j <= self.edges@.len(),
                out@.len() == j,
                forall|k: int|
                    0 <= k < j ==> (#[trigger] out@[k]).from == self.edges@[k].from && out@[k].to
                        == self.edges@[k].to && out@[k].next_outgoing_edge
                        == self.edges@[k].next_outgoing_edge && out@[k].next_incoming_edge
                        == self.edges@[k].next_incoming_edge && cloned(
                        self.edges@[k].weight,
                        out@[k].weight,
                    ),
            decreases self.edges@.len() - j,
        {
            out.push(self.edges[j].clone());
            j += 1;
        }
        out
    }

    /// A copy of the edges, in insertion order.
    #[inline(always)]
    pub fn edges(&self) -> (r: Vec<Edge<E>>)
        ensures
            r@.len() == self@.edges.len(),
            forall|j: int|
                0 <= j < r@.len() ==> (#[trigger] r@[j]).view().from == self@.edges[j].from
                    && r@[j].view().to == self@.edges[j].to && cloned(
                    self@.edges[j].weight,
                    r@[j].view().weight,
                ),
    {
        self.copy_edges()
    }

    /// A graph with the same keys and edges, and a default payload in every
    /// node.
    #[verifier::rlimit(50)]
    pub fn structure_copy<T: Default>(&self) -> (r: Graph<T, E>)
        requires
            self.wf(),
        ensures
            r.wf(),
            r.key_seq() == self.key_seq(),
            same_structure(self@, r@),
            forall|k: u32|
                r@.nodes.dom().contains(k) ==> call_ensures(T::default, (), #[trigger] r@.nodes[k]),
    {
        let mut keys: Vec<u32> = Vec::with_capacity(self.keys.len());
        let mut nodes: Vec<Node<T>> = Vec::with_capacity(self.nodes.len());
        let mut i: usize = 0;
        while i < self.nodes.len()
            invariant
                self.keys@.len() == self.nodes@.len(),
                i <= self.nodes@.len(),
                keys@ == self.keys@.subrange(0, i as int),
                nodes@.len() == i,
                forall|j: int|
                    0 <= j < i ==> (#[trigger] nodes@[j]).next_outgoing_edge
                        == self.nodes@[j].next_outgoing_edge && nodes@[j].next_incoming_edge
                        == self.nodes@[j].next_incoming_edge && call_ensures(
                        T::default,
                        (),
                        nodes@[j].weight,
                    ),
            decreases self.nodes@.len() - i,
        {
            keys.push(self.keys[i]);
            nodes.push(
                Node {
                    weight: T::default(),
                    next_outgoing_edge: self.nodes[i].next_outgoing_edge,
                    next_incoming_edge: self.nodes[i].next_incoming_edge,
                },
            );
            i += 1;
            proof {
                assert(keys@ =~= self.keys@.subrange(0, i as int));
            }
        }
        let edges = self.copy_edges();
        let r = Graph { keys, nodes, edges };
        proof {
            assert(r.keys@ =~= self.keys@);
            let v0 = views_of(self.edges@);
            let v1 = views_of(r.edges@);
            let n = self.edges@.len() as int;
            assert forall|j: int| 0 <= j < n implies (#[trigger] v1[j]).from == v0[j].from
                && v1[j].to == v0[j].to && cloned(v0[j].weight, v1[j].weight) by {
                assert(r.edges@[j].from == self.edges@[j].from);
            }
            assert forall|m: int, out: bool, k: u32| 0 <= m <= n implies newest_at(v1, out, k, m)
                == newest_at(v0, out, k, m) by {
                lemma_newest_at_agrees(v1, v0, out, k, k, m);
            }
            assert forall|t: int, out: bool| 0 <= t < r.nodes@.len() implies (
            #[trigger] r.nodes@[t].head(out)) == newest_at(v1, out, r.keys@[t], n) by {
                assert(self.nodes@[t].head(out) == newest_at(v0, out, self.keys@[t], n));
            }
            assert forall|j: int, out: bool| 0 <= j < n implies (#[trigger] r.edges@[j].link(out))
                == newest_at(v1, out, endpoint(r.edges@[j].view(), out), j) by {
                assert(self.edges@[j].link(out) == newest_at(
                    v0,
                    out,
                    endpoint(self.edges@[j].view(), out),
                    j,
                ));
                assert(r.edges@[j].from == self.edges@[j].from);
            }
            assert forall|j: int| 0 <= j < n implies r.keys@.contains((#[trigger] r.edges@[j]).from)
                && r.keys@.contains(r.edges@[j].to) by {
                assert(self.keys@.contains(self.edges@[j].from));
                assert(self.keys@.contains(self.edges@[j].to));
            }
            assert(r@.nodes.dom() =~= self@.nodes.dom());
            assert forall|k: u32| r@.nodes.dom().contains(k) implies call_ensures(
                T::default,
                (),
                #[trigger] r@.nodes[k],
            ) by {
                let t = slot_of(r.keys@, k);
                assert(call_ensures(T::default, (), r.nodes@[t].weight));
            }
        }
        r
    }
}

impl<N, E> Graph<N, E> {
    /// A depth-first search in postorder from `start`.
    pub fn dfs_post_order_visitor(&self, start: u32) -> (dfs: DfsPostOrder)
        requires
            self.wf(),
        ensures
            dfs.stack@ == seq![start],
            dfs.discovered@ == Set::<u32>::empty(),
            dfs.finished@ == Set::<u32>::empty(),
    {
        DfsPostOrder::new(self, start)
    }
}

} // verus!
