//! Dominators.

use crate::graph::graph_impl::in_edges;
use crate::graph::graph_impl::lemma_incident_members;
use crate::graph::graph_impl::EdgeView;
use crate::graph::graph_impl::Graph;
use crate::graph::graph_impl::GraphView;
use crate::graph::visit::post_order;
use crate::graph::visit::searchable;
use crate::graph::visit::DfsView;
use std::collections::HashMap;
use vstd::prelude::*;

verus! {

broadcast use vstd::std_specs::hash::group_hash_axioms;

/// The dominator tree of a control-flow graph: for every node but the root
/// the node that dominates it most closely.
pub struct DominatorTree {
    /// The entry node of the control-flow graph.
    root: u32,
    /// For every node, its immediate dominator.
    dominators: HashMap<u32, u32>,
}

/// What a dominator tree is.
pub ghost struct DominatorTreeView {
    pub root: u32,
    pub dominators: Map<u32, u32>,
}

impl DominatorTreeView {
    /// The immediate dominator of a node: the root has none, and neither has
    /// a node that the tree does not know.
    pub open spec fn idom(self, node: u32) -> Option<u32> {
        if node != self.root && self.dominators.dom().contains(node) {
            Some(self.dominators[node])
        } else {
            None
        }
    }
}

impl View for DominatorTree {
    type V = DominatorTreeView;

    closed spec fn view(&self) -> DominatorTreeView {
        DominatorTreeView { root: self.root, dominators: self.dominators@ }
    }
}

impl DominatorTree {
    /// The tree with the given root, in which every node has the immediate
    /// dominator that the map gives it.
    pub fn new(root: u32, dominators: HashMap<u32, u32>) -> (t: Self)
        ensures
            t@ == (DominatorTreeView { root, dominators: dominators@ }),
    {
        DominatorTree { root, dominators }
    }

    pub fn root(&self) -> (r: u32)
        ensures
            r == self@.root,
    {
        self.root
    }

    /// The immediate dominator of a node.
    pub fn idom(&self, node: u32) -> (r: Option<u32>)
        ensures
            r == self@.idom(node),
    {
        if node == self.root {
            None
        } else {
            match self.dominators.get(&node) {
                Some(d) => Some(*d),
                None => None,
            }
        }
    }

    /// A walk over the dominators of a node, from the node itself up to the
    /// root. A node that the tree does not know has none.
    pub fn dominators(&self, node: u32) -> (r: Option<DominatorsIter<'_>>)
        ensures
            match r {
                Some(walk) => self@.dominators.dom().contains(node) && walk.tree() == self@
                    && walk.at() == Some(node),
                None => !self@.dominators.dom().contains(node),
            },
    {
        if self.dominators.contains_key(&node) {
            Some(DominatorsIter { dominators: self, node: Some(node) })
        } else {
            None
        }
    }
}

/// A walk up a dominator tree.
pub struct DominatorsIter<'a> {
    dominators: &'a DominatorTree,
    node: Option<u32>,
}

impl<'a> DominatorsIter<'a> {
    /// The tree that is walked.
    pub closed spec fn tree(&self) -> DominatorTreeView {
        self.dominators@
    }

    /// The node that the walk yields next.
    pub closed spec fn at(&self) -> Option<u32> {
        self.node
    }

    /// Yields the node the walk stands at, and goes on to its immediate
    /// dominator.
    pub fn next(&mut self) -> (r: Option<u32>)
        ensures
            r == old(self).at(),
            final(self).tree() == old(self).tree(),
            final(self).at() == match old(self).at() {
                Some(node) => old(self).tree().idom(node),
                None => None,
            },
    {
        let next = self.node;
        self.node = None;
        if let Some(node) = next {
            self.node = self.dominators.idom(node);
        }
        next
    }
}

/// From `from` the entries lead upwards, step by step, to the last index.
pub open spec fn climbs(dominators: Seq<usize>, from: int) -> bool
    decreases dominators.len() - from,
{
    0 <= from < dominators.len() && (from == dominators.len() - 1 || (from < dominators[from]
        < dominators.len() && climbs(dominators, dominators[from] as int)))
}

/// `x` lies on the way up from `from`.
pub open spec fn on_way_up(dominators: Seq<usize>, from: int, x: int) -> bool
    decreases dominators.len() - from,
{
    0 <= from < dominators.len() && (x == from || (from < dominators[from] < dominators.len()
        && on_way_up(dominators, dominators[from] as int, x)))
}

proof fn lemma_way_up(dominators: Seq<usize>, from: int, x: int)
    requires
        on_way_up(dominators, from, x),
    ensures
        from <= x < dominators.len(),
        x != from ==> from < dominators[from] < dominators.len() && on_way_up(
            dominators,
            dominators[from] as int,
            x,
        ),
    decreases dominators.len() - from,
{
    if x != from {
        lemma_way_up(dominators, dominators[from] as int, x);
    }
}

proof fn lemma_way_up_trans(dominators: Seq<usize>, from: int, mid: int, x: int)
    requires
        on_way_up(dominators, from, mid),
        on_way_up(dominators, mid, x),
    ensures
        on_way_up(dominators, from, x),
    decreases dominators.len() - from,
{
    if mid != from {
        lemma_way_up_trans(dominators, dominators[from] as int, mid, x);
    }
}

/// Where the ways up from two indices meet: the lowest index that lies on
/// both.
pub fn intersect(dominators: &[usize], finger1: usize, finger2: usize) -> (r: usize)
    requires
        climbs(dominators@, finger1 as int),
        climbs(dominators@, finger2 as int),
    ensures
        on_way_up(dominators@, finger1 as int, r as int),
        on_way_up(dominators@, finger2 as int, r as int),
        forall|x: int|
            on_way_up(dominators@, finger1 as int, x) && on_way_up(dominators@, finger2 as int, x)
                ==> r <= x,
{
    let mut a = finger1;
    let mut b = finger2;
    loop
        invariant
            climbs(dominators@, a as int),
            climbs(dominators@, b as int),
            on_way_up(dominators@, finger1 as int, a as int),
            on_way_up(dominators@, finger2 as int, b as int),
            forall|x: int|
                on_way_up(dominators@, finger1 as int, x) && on_way_up(
                    dominators@,
                    finger2 as int,
                    x,
                ) ==> on_way_up(dominators@, a as int, x) && on_way_up(dominators@, b as int, x),
        ensures
            a == b,
        decreases 2 * dominators@.len() - a - b,
    {
        if a < b {
            proof {
                assert forall|x: int|
                    on_way_up(dominators@, finger1 as int, x) && on_way_up(
                        dominators@,
                        finger2 as int,
                        x,
                    ) implies on_way_up(dominators@, dominators@[a as int] as int, x) by {
                    lemma_way_up(dominators@, b as int, x);
                    lemma_way_up(dominators@, a as int, x);
                }
                assert(a as int != dominators@.len() - 1);
                assert(on_way_up(
                    dominators@,
                    dominators@[a as int] as int,
                    dominators@[a as int] as int,
                ));
                assert(on_way_up(dominators@, a as int, dominators@[a as int] as int));
                lemma_way_up_trans(
                    dominators@,
                    finger1 as int,
                    a as int,
                    dominators@[a as int] as int,
                );
            }
            a = dominators[a];
        } else if a > b {
            proof {
                assert forall|x: int|
                    on_way_up(dominators@, finger1 as int, x) && on_way_up(
                        dominators@,
                        finger2 as int,
                        x,
                    ) implies on_way_up(dominators@, dominators@[b as int] as int, x) by {
                    lemma_way_up(dominators@, a as int, x);
                    lemma_way_up(dominators@, b as int, x);
                }
                assert(b as int != dominators@.len() - 1);
                assert(on_way_up(
                    dominators@,
                    dominators@[b as int] as int,
                    dominators@[b as int] as int,
                ));
                assert(on_way_up(dominators@, b as int, dominators@[b as int] as int));
                lemma_way_up_trans(
                    dominators@,
                    finger2 as int,
                    b as int,
                    dominators@[b as int] as int,
                );
            }
            b = dominators[b];
        } else {
            break ;
        }
    }
    proof {
        assert forall|x: int|
            on_way_up(dominators@, finger1 as int, x) && on_way_up(
                dominators@,
                finger2 as int,
                x,
            ) implies a <= x by {
            lemma_way_up(dominators@, a as int, x);
        }
    }
    a
}

/// The entry of a node whose immediate dominator is not known yet.
pub const UNDEFINED: usize = usize::MAX;

/// The immediate dominator of the node with index `i` is known.
pub open spec fn known(dominators: Seq<usize>, i: int) -> bool {
    0 <= i < dominators.len() && dominators[i] != UNDEFINED
}

/// The entries that are known form a tree under the last index: the last
/// index is its own entry, and every other known entry is a known index
/// above its own.
pub open spec fn settled(dominators: Seq<usize>) -> bool {
    &&& dominators.len() >= 1
    &&& dominators[dominators.len() - 1] == dominators.len() - 1
    &&& forall|i: int|
        0 <= i < dominators.len() - 1 && known(dominators, i) ==> i < (#[trigger] dominators[i])
            < dominators.len() && known(dominators, dominators[i] as int)
}

/// The lists that the vectors hold.
pub open spec fn lists_of(vectors: Seq<Vec<usize>>) -> Seq<Seq<usize>> {
    Seq::new(vectors.len(), |i: int| vectors[i]@)
}

/// The predecessors of every node are indices of nodes, and every node but
/// the last has a predecessor above it.
pub open spec fn predecessors_fit(preds: Seq<Seq<usize>>, len: int) -> bool {
    &&& preds.len() == len
    &&& forall|i: int, j: int|
        0 <= i < len && 0 <= j < preds[i].len() ==> (#[trigger] preds[i][j]) < len
    &&& forall|i: int| 0 <= i < len - 1 ==> reaches_above(#[trigger] preds[i], i)
}

/// One of the indices lies above `i`.
pub open spec fn reaches_above(indices: Seq<usize>, i: int) -> bool {
    exists|j: int| 0 <= j < indices.len() && #[trigger] indices[j] > i
}

/// `r` is where the ways up from `a` and `b` meet.
pub open spec fn is_meet(dominators: Seq<usize>, a: int, b: int, r: int) -> bool {
    &&& on_way_up(dominators, a, r)
    &&& on_way_up(dominators, b, r)
    &&& forall|x: int| on_way_up(dominators, a, x) && on_way_up(dominators, b, x) ==> r <= x
}

/// Where the ways up from `a` and `b` meet.
pub open spec fn meet(dominators: Seq<usize>, a: int, b: int) -> int {
    choose|r: int| is_meet(dominators, a, b, r)
}

/// Where the ways up from the known ones among the first `n` of `preds`
/// meet, if any of them is known.
pub open spec fn meet_of(dominators: Seq<usize>, preds: Seq<usize>, n: int) -> Option<int>
    decreases n,
{
    if n <= 0 {
        None
    } else if !known(dominators, preds[n - 1] as int) {
        meet_of(dominators, preds, n - 1)
    } else {
        match meet_of(dominators, preds, n - 1) {
            None => Some(preds[n - 1] as int),
            Some(m) => Some(meet(dominators, m, preds[n - 1] as int)),
        }
    }
}

/// One round over the nodes below index `idx`, from the highest down: every
/// node gets as its entry the meeting point of its known predecessors. The
/// result is the entries after the round, and whether any of them changed.
pub open spec fn round_below(dominators: Seq<usize>, preds: Seq<Seq<usize>>, idx: int) -> (
    Seq<usize>,
    bool,
)
    decreases idx,
{
    if idx <= 0 {
        (dominators, false)
    } else {
        let found = meet_of(dominators, preds[idx - 1], preds[idx - 1].len() as int);
        let entry = match found {
            Some(m) => m as usize,
            None => UNDEFINED,
        };
        let (rest, changed) = round_below(dominators.update(idx - 1, entry), preds, idx - 1);
        (rest, changed || entry != dominators[idx - 1])
    }
}

proof fn lemma_known_climbs(dominators: Seq<usize>, from: int)
    requires
        settled(dominators),
        known(dominators, from),
    ensures
        climbs(dominators, from),
    decreases dominators.len() - from,
{
    if from != dominators.len() - 1 {
        lemma_known_climbs(dominators, dominators[from] as int);
    }
}

proof fn lemma_way_up_known(dominators: Seq<usize>, from: int, x: int)
    requires
        settled(dominators),
        known(dominators, from),
        on_way_up(dominators, from, x),
    ensures
        known(dominators, x),
    decreases dominators.len() - from,
{
    if x != from {
        lemma_way_up(dominators, from, x);
        if from != dominators.len() - 1 {
            lemma_way_up_known(dominators, dominators[from] as int, x);
        }
    }
}

proof fn lemma_meet(dominators: Seq<usize>, a: int, b: int, r: int)
    requires
        is_meet(dominators, a, b, r),
    ensures
        meet(dominators, a, b) == r,
{
    let m = meet(dominators, a, b);
    assert(is_meet(dominators, a, b, m));
}

/// The meeting point of the known predecessors.
fn meet_predecessors(dominators: &Vec<usize>, preds: &Vec<usize>) -> (r: Option<usize>)
    requires
        settled(dominators@),
        forall|j: int| 0 <= j < preds@.len() ==> (#[trigger] preds@[j]) < dominators@.len(),
    ensures
        match meet_of(dominators@, preds@, preds@.len() as int) {
            Some(m) => r == Some(m as usize) && known(dominators@, m) && forall|j: int|
                0 <= j < preds@.len() && known(dominators@, preds@[j] as int) ==> preds@[j] <= m,
            None => r is None && forall|j: int|
                0 <= j < preds@.len() ==> !known(dominators@, #[trigger] preds@[j] as int),
        },
{
    let mut found: Option<usize> = None;
    let mut j: usize = 0;
    while j < preds.len()
        invariant
            j <= preds@.len(),
            settled(dominators@),
            forall|k: int| 0 <= k < preds@.len() ==> (#[trigger] preds@[k]) < dominators@.len(),
            match meet_of(dominators@, preds@, j as int) {
                Some(m) => found == Some(m as usize) && known(dominators@, m) && forall|k: int|
                    0 <= k < j && known(dominators@, preds@[k] as int) ==> preds@[k] <= m,
                None => found is None && forall|k: int|
                    0 <= k < j ==> !known(dominators@, #[trigger] preds@[k] as int),
            },
        decreases preds@.len() - j,
    {
        let p = preds[j];
        if dominators[p] != UNDEFINED {
            found = match found {
                None => Some(p),
                Some(m) => {
                    proof {
                        lemma_known_climbs(dominators@, m as int);
                        lemma_known_climbs(dominators@, p as int);
                    }
                    let r = intersect(dominators.as_slice(), m, p);
                    proof {
                        lemma_meet(dominators@, m as int, p as int, r as int);
                        lemma_way_up_known(dominators@, m as int, r as int);
                        lemma_way_up(dominators@, m as int, r as int);
                        lemma_way_up(dominators@, p as int, r as int);
                    }
                    Some(r)
                },
            };
        }
        j += 1;
    }
    found
}

/// One round of the search for the immediate dominators: every node but
/// the last, from the highest index down, gets as its entry the meeting
/// point of its predecessors whose entries are known. The result tells
/// whether any entry changed.
pub fn dominator_round(preds: &Vec<Vec<usize>>, dominators: &mut Vec<usize>) -> (changed: bool)
    requires
        settled(old(dominators)@),
        predecessors_fit(lists_of(preds@), old(dominators)@.len() as int),
    ensures
        (final(dominators)@, changed) == round_below(
            old(dominators)@,
            lists_of(preds@),
            old(dominators)@.len() - 1,
        ),
        settled(final(dominators)@),
        final(dominators)@.len() == old(dominators)@.len(),
        forall|i: int| 0 <= i < final(dominators)@.len() ==> known(final(dominators)@, i),
{
    let length = dominators.len();
    let ghost lists = lists_of(preds@);
    let mut changed = false;
    let mut idx: usize = length - 1;
    while idx > 0
        invariant
            idx < length,
            dominators@.len() == length,
            settled(dominators@),
            lists == lists_of(preds@),
            predecessors_fit(lists, length as int),
            forall|i: int| idx <= i < length ==> known(dominators@, i),
            round_below(old(dominators)@, lists, length - 1) == (
                round_below(dominators@, lists, idx as int).0,
                round_below(dominators@, lists, idx as int).1 || changed,
            ),
        decreases idx,
    {
        let i = idx - 1;
        let ghost before = dominators@;
        proof {
            assert(lists[i as int] == preds@[i as int]@);
            assert forall|j: int| 0 <= j < preds@[i as int]@.len() implies (
            #[trigger] preds@[i as int]@[j]) < length by {
                assert(lists[i as int][j] < length);
            }
        }
        let found = meet_predecessors(dominators, &preds[i]);
        proof {
            assert(reaches_above(lists[i as int], i as int));
            let j = choose|j: int| 0 <= j < lists[i as int].len() && #[trigger] lists[i as int][j] > i;
            assert(known(before, lists[i as int][j] as int));
        }
        let new_idom_idx = found.unwrap();
        if new_idom_idx != dominators[i] {
            dominators[i] = new_idom_idx;
            changed = true;
        }
        proof {
            assert(dominators@ =~= before.update(i as int, new_idom_idx));
            assert forall|x: int|
                0 <= x < length - 1 && known(dominators@, x) implies x < (#[trigger] dominators@[x])
                < length && known(dominators@, dominators@[x] as int) by {
                if x != i {
                    assert(known(before, x));
                    assert(known(before, before[x] as int));
                }
            }
        }
        idx = i;
    }
    changed
}

/// The place of a node among the first `n` of `order`: the last one, if the
/// node stands there more than once.
pub open spec fn index_among(order: Seq<u32>, node: u32, n: int) -> Option<int>
    decreases n,
{
    if n <= 0 {
        None
    } else if order[n - 1] == node {
        Some(n - 1)
    } else {
        index_among(order, node, n - 1)
    }
}

/// The places in `order` of the sources of the listed edges, in the order
/// of the list. A source that does not stand in `order` is left out.
pub open spec fn sources_in<E>(edges: Seq<EdgeView<E>>, order: Seq<u32>, list: Seq<u32>) -> Seq<
    usize,
>
    decreases list.len(),
{
    if list.len() == 0 {
        Seq::empty()
    } else {
        (match index_among(order, edges[list[0] as int].from, order.len() as int) {
            Some(i) => seq![i as usize],
            None => Seq::empty(),
        }) + sources_in(edges, order, list.skip(1))
    }
}

/// For every node of `order`, the places of its predecessors in `order`.
pub open spec fn predecessors_in<N, E>(g: GraphView<N, E>, order: Seq<u32>) -> Seq<Seq<usize>> {
    Seq::new(order.len(), |i: int| sources_in(g.edges, order, in_edges(g.edges, order[i])))
}

/// The entries before the first round: only the last node has one, itself.
pub open spec fn start_entries(len: int) -> Seq<usize> {
    Seq::new(
        len as nat,
        |i: int|
            if i == len - 1 {
                i as usize
            } else {
                UNDEFINED
            },
    )
}

/// A search that starts at `root` and has reached nothing yet.
pub open spec fn search_from(root: u32) -> DfsView {
    DfsView { stack: seq![root], discovered: Set::empty(), finished: Set::empty() }
}

/// The immediate dominators of the first `n` nodes of `order`: every node
/// has the node at its entry.
pub open spec fn tree_of(order: Seq<u32>, entries: Seq<usize>, n: int) -> Map<u32, u32>
    decreases n,
{
    if n <= 0 {
        Map::empty()
    } else {
        tree_of(order, entries, n - 1).insert(order[n - 1], order[entries[n - 1] as int])
    }
}

/// The map gives every node its place among the first `n` of `order`.
spec fn indexed(places: Map<u32, usize>, order: Seq<u32>, n: int) -> bool {
    forall|node: u32|
        (#[trigger] index_among(order, node, n)) == (if places.contains_key(node) {
            Some(places[node] as int)
        } else {
            None
        })
}

proof fn lemma_index_among(order: Seq<u32>, node: u32, n: int)
    requires
        0 <= n <= order.len(),
    ensures
        index_among(order, node, n) matches Some(i) ==> 0 <= i < n && order[i] == node,
    decreases n,
{
    if n > 0 && order[n - 1] != node {
        lemma_index_among(order, node, n - 1);
    }
}

/// A search for the immediate dominators of the nodes that can be reached
/// from a root: the nodes in postorder, for every node the places of its
/// predecessors, and for every node its entry, the place of the node that is
/// taken to dominate it most closely. A round gives every node the meeting
/// point of its predecessors; the search is over when a round changes
/// nothing.
pub struct DominatorSearch {
    post_order: Vec<u32>,
    preds: Vec<Vec<usize>>,
    dominators: Vec<usize>,
}

impl DominatorSearch {
    /// The nodes in postorder.
    pub closed spec fn order(&self) -> Seq<u32> {
        self.post_order@
    }

    /// For every node the places of its predecessors.
    pub closed spec fn predecessors(&self) -> Seq<Seq<usize>> {
        lists_of(self.preds@)
    }

    /// For every node its entry.
    pub closed spec fn entries(&self) -> Seq<usize> {
        self.dominators@
    }

    /// The entries form a tree, and the predecessors fit the nodes.
    pub closed spec fn wf(&self) -> bool {
        &&& settled(self.dominators@)
        &&& predecessors_fit(lists_of(self.preds@), self.dominators@.len() as int)
        &&& self.post_order@.len() == self.dominators@.len()
    }

    /// Collects the nodes that a search from the root yields.
    fn collect<N, E>(graph: &Graph<N, E>, root: u32) -> (order: Vec<u32>)
        requires
            graph.wf(),
            graph@.nodes.dom().contains(root),
        ensures
            order@ == post_order(search_from(root), graph@),
            forall|i: int| 0 <= i < order@.len() ==> graph@.nodes.dom().contains(#[trigger] order@[i]),
    {
        let mut dfs = graph.dfs_post_order_visitor(root);
        let mut order: Vec<u32> = Vec::new();
        proof {
            graph.lemma_wf();
            assert(dfs@ == search_from(root));
            assert(Seq::<u32>::empty() + post_order(dfs@, graph@) =~= post_order(dfs@, graph@));
        }
        loop
            invariant
                graph.wf(),
                dfs.wf(graph),
                searchable(dfs@, graph@),
                post_order(search_from(root), graph@) == order@ + post_order(dfs@, graph@),
                forall|i: int|
                    0 <= i < order@.len() ==> graph@.nodes.dom().contains(#[trigger] order@[i]),
            ensures
                order@ == post_order(search_from(root), graph@),
            decreases graph@.nodes.dom().difference(dfs.finished@).len(),
        {
            let ghost before = dfs@;
            let ghost done = order@;
            let ghost left = graph@.nodes.dom().difference(dfs.finished@);
            match dfs.next(graph) {
                Some(node) => {
                    order.push(node);
                    proof {
                        assert(left.contains(node));
                        assert(graph@.nodes.dom().difference(dfs.finished@) =~= left.remove(node));
                        assert((done + seq![node]) + post_order(dfs@, graph@) =~= done + (seq![
                            node,
                        ] + post_order(dfs@, graph@)));
                        assert(order@ =~= done + seq![node]);
                    }
                },
                None => {
                    proof {
                        assert(done + Seq::<u32>::empty() =~= done);
                    }
                    break ;
                },
            }
        }
        order
    }

    /// The place of every node in the order.
    fn index(order: &Vec<u32>) -> (places: HashMap<u32, usize>)
        ensures
            indexed(places@, order@, order@.len() as int),
    {
        let mut places: HashMap<u32, usize> = HashMap::new();
        let mut i: usize = 0;
        while i < order.len()
            invariant
                i <= order@.len(),
                indexed(places@, order@, i as int),
            decreases order@.len() - i,
        {
            let ghost before = places@;
            places.insert(order[i], i);
            proof {
                assert forall|node: u32|
                    (#[trigger] index_among(order@, node, i + 1)) == (if places@.contains_key(
                        node,
                    ) {
                        Some(places@[node] as int)
                    } else {
                        None
                    }) by {
                    if node != order@[i as int] {
                        assert(index_among(order@, node, i as int) == (if before.contains_key(
                            node,
                        ) {
                            Some(before[node] as int)
                        } else {
                            None
                        }));
                    }
                }
            }
            i += 1;
        }
        places
    }

    /// The places of the predecessors of one node.
    fn sources<N, E>(
        graph: &Graph<N, E>,
        order: &Vec<u32>,
        places: &HashMap<u32, usize>,
        node: u32,
    ) -> (found: Vec<usize>)
        requires
            graph.wf(),
            graph@.nodes.dom().contains(node),
            indexed(places@, order@, order@.len() as int),
        ensures
            found@ == sources_in(graph@.edges, order@, in_edges(graph@.edges, node)),
            forall|j: int| 0 <= j < found@.len() ==> (#[trigger] found@[j]) < order@.len(),
    {
        let mut found: Vec<usize> = Vec::new();
        let mut edges = graph.inputs(node);
        let ghost all = in_edges(graph@.edges, node);
        proof {
            graph.lemma_wf();
            lemma_incident_members(graph@.edges, false, node, graph@.edges.len() as int);
            assert(Seq::<usize>::empty() + sources_in(graph@.edges, order@, all) =~= sources_in(
                graph@.edges,
                order@,
                all,
            ));
        }
        loop
            invariant
                graph.wf(),
                edges.wf(),
                indexed(places@, order@, order@.len() as int),
                forall|i: int|
                    0 <= i < edges.remaining().len() ==> (#[trigger] edges.remaining()[i])
                        < graph@.edges.len(),
                forall|j: int| 0 <= j < found@.len() ==> (#[trigger] found@[j]) < order@.len(),
                found@ + sources_in(graph@.edges, order@, edges.remaining()) == sources_in(
                    graph@.edges,
                    order@,
                    all,
                ),
            ensures
                found@ == sources_in(graph@.edges, order@, all),
                forall|j: int| 0 <= j < found@.len() ==> (#[trigger] found@[j]) < order@.len(),
            decreases edges.remaining().len(),
        {
            let ghost left = edges.remaining();
            let ghost held = found@;
            match edges.next() {
                Some(edge) => {
                    proof {
                        assert(left[0] == edge);
                        assert(left.skip(1) =~= edges.remaining());
                        assert forall|i: int| 0 <= i < edges.remaining().len() implies (
                        #[trigger] edges.remaining()[i]) < graph@.edges.len() by {
                            assert(left[i + 1] == edges.remaining()[i]);
                        }
                    }
                    let source = graph.edge_from(edge);
                    proof {
                        lemma_index_among(order@, source, order@.len() as int);
                        assert(index_among(order@, source, order@.len() as int) == (
                        if places@.contains_key(source) {
                            Some(places@[source] as int)
                        } else {
                            None
                        }));
                    }
                    match places.get(&source) {
                        Some(place) => {
                            found.push(*place);
                        },
                        None => {},
                    }
                    proof {
                        let first: Seq<usize> = match index_among(
                            order@,
                            source,
                            order@.len() as int,
                        ) {
                            Some(i) => seq![i as usize],
                            None => Seq::empty(),
                        };
                        assert(found@ =~= held + first);
                        assert(sources_in(graph@.edges, order@, left) == first + sources_in(
                            graph@.edges,
                            order@,
                            edges.remaining(),
                        ));
                        assert(found@ + sources_in(graph@.edges, order@, edges.remaining())
                            =~= held + sources_in(graph@.edges, order@, left));
                    }
                },
                None => {
                    proof {
                        assert(found@ + Seq::<usize>::empty() =~= found@);
                    }
                    break ;
                },
            }
        }
        found
    }

    /// Tells whether one of the indices lies above `i`.
    fn any_above(indices: &Vec<usize>, i: usize) -> (r: bool)
        ensures
            r == reaches_above(indices@, i as int),
    {
        let mut j: usize = 0;
        while j < indices.len()
            invariant
                j <= indices@.len(),
                forall|k: int| 0 <= k < j ==> indices@[k] <= i,
            decreases indices@.len() - j,
        {
            if indices[j] > i {
                return true;
            }
            j += 1;
        }
        false
    }

    /// Begins the search in the part of the graph that can be reached from
    /// `root`. There is no search where the traversal yields no node, or
    /// where a node but the last one has no predecessor behind it in the
    /// postorder.
    pub fn start<N, E>(graph: &Graph<N, E>, root: u32) -> (r: Option<DominatorSearch>)
        requires
            graph.wf(),
            graph@.nodes.dom().contains(root),
        ensures
            match r {
                Some(search) => search.wf() && search.order() == post_order(
                    search_from(root),
                    graph@,
                ) && search.predecessors() == predecessors_in(graph@, search.order())
                    && search.entries() == start_entries(search.order().len() as int),
                None => post_order(search_from(root), graph@).len() == 0 || !predecessors_fit(
                    predecessors_in(graph@, post_order(search_from(root), graph@)),
                    post_order(search_from(root), graph@).len() as int,
                ),
            },
    {
        let post_order = Self::collect(graph, root);
        let length = post_order.len();
        if length == 0 {
            return None;
        }
        let places = Self::index(&post_order);
        let ghost wanted = predecessors_in(graph@, post_order@);
        let mut preds: Vec<Vec<usize>> = Vec::new();
        let mut fit = true;
        let mut i: usize = 0;
        while i < length
            invariant
                i <= length,
                length == post_order@.len(),
                graph.wf(),
                wanted == predecessors_in(graph@, post_order@),
                forall|k: int|
                    0 <= k < length ==> graph@.nodes.dom().contains(#[trigger] post_order@[k]),
                indexed(places@, post_order@, post_order@.len() as int),
                preds@.len() == i,
                forall|k: int| 0 <= k < i ==> (#[trigger] preds@[k])@ == wanted[k],
                forall|k: int, j: int|
                    0 <= k < i && 0 <= j < preds@[k]@.len() ==> (#[trigger] preds@[k]@[j]) < length,
                fit == forall|k: int| 0 <= k < i && k < length - 1 ==> reaches_above(
                    #[trigger] wanted[k],
                    k,
                ),
            decreases length - i,
        {
            let found = Self::sources(graph, &post_order, &places, post_order[i]);
            let ghost was_fit = fit;
            if i + 1 < length && !Self::any_above(&found, i) {
                fit = false;
            }
            preds.push(found);
            proof {
                assert(found@ == wanted[i as int]);
                if fit {
                    assert forall|k: int| 0 <= k < i + 1 && k < length - 1 implies reaches_above(
                        #[trigger] wanted[k],
                        k,
                    ) by {
                        if k == i {
                            assert(reaches_above(found@, i as int));
                        }
                    }
                } else if was_fit {
                    assert(!reaches_above(wanted[i as int], i as int));
                }
            }
            i += 1;
        }
        proof {
            assert(lists_of(preds@) =~= wanted);
        }
        if !fit {
            return None;
        }
        let mut dominators: Vec<usize> = Vec::new();
        let mut k: usize = 0;
        while k < length
            invariant
                k <= length,
                length >= 1,
                dominators@.len() == k,
                forall|j: int|
                    0 <= j < k ==> dominators@[j] == if j == length - 1 {
                        j as usize
                    } else {
                        UNDEFINED
                    },
            decreases length - k,
        {
            dominators.push(
                if k == length - 1 {
                    k
                } else {
                    UNDEFINED
                },
            );
            k += 1;
        }
        proof {
            assert(dominators@ =~= start_entries(length as int));
        }
        Some(DominatorSearch { post_order, preds, dominators })
    }

    /// Runs one round of the search, and tells whether an entry changed.
    pub fn round(&mut self) -> (changed: bool)
        requires
            old(self).wf(),
        ensures
            final(self).wf(),
            final(self).order() == old(self).order(),
            final(self).predecessors() == old(self).predecessors(),
            (final(self).entries(), changed) == round_below(
                old(self).entries(),
                old(self).predecessors(),
                old(self).entries().len() - 1,
            ),
            forall|i: int| 0 <= i < final(self).entries().len() ==> known(final(self).entries(), i),
    {
        dominator_round(&self.preds, &mut self.dominators)
    }

    /// The tree that the entries stand for: every node is dominated most
    /// closely by the node at its entry. There is no tree while an entry is
    /// not known.
    pub fn finish(self, root: u32) -> (r: Option<DominatorTree>)
        requires
            self.wf(),
        ensures
            match r {
                Some(tree) => (forall|i: int|
                    0 <= i < self.entries().len() ==> known(self.entries(), i)) && tree@
                    == (DominatorTreeView {
                    root,
                    dominators: tree_of(
                        self.order(),
                        self.entries(),
                        self.order().len() as int,
                    ),
                }),
                None => exists|i: int| 0 <= i < self.entries().len() && !known(self.entries(), i),
            },
    {
        let length = self.post_order.len();
        let mut dominators: HashMap<u32, u32> = HashMap::new();
        let mut idx: usize = 0;
        while idx < length
            invariant
                idx <= length,
                self.wf(),
                length == self.post_order@.len(),
                forall|i: int| 0 <= i < idx ==> known(self.dominators@, i),
                dominators@ == tree_of(self.post_order@, self.dominators@, idx as int),
            decreases length - idx,
        {
            let dom_idx = self.dominators[idx];
            if dom_idx == UNDEFINED {
                proof {
                    assert(0 <= idx < self.entries().len() && !known(self.entries(), idx as int));
                }
                return None;
            }
            proof {
                assert(known(self.dominators@, idx as int));
                if idx < length - 1 {
                    assert(self.dominators@[idx as int] < length);
                }
            }
            dominators.insert(self.post_order[idx], self.post_order[dom_idx]);
            idx += 1;
        }
        Some(DominatorTree::new(root, dominators))
    }
}

} // verus!
