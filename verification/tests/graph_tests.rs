use luajit_decompiler::graph::Graph;

#[test]
fn test_dfs_postorder() {
    // create test graph
    let mut graph: Graph<u32, u32> = Graph::new();

    graph.add_node(1, 1);
    graph.add_node(2, 2);
    graph.add_node(3, 3);
    graph.add_node(4, 4);
    graph.add_node(5, 5);
    graph.add_node(6, 6);
    graph.add_node(7, 7);
    graph.add_node(8, 8);
    graph.add_node(9, 9);
    graph.add_node(10, 10);
    graph.add_node(11, 11);

    graph.add_edge(0, 1, 2);
    graph.add_edge(0, 1, 8);
    graph.add_edge(0, 2, 3);
    graph.add_edge(0, 2, 6);
    graph.add_edge(0, 2, 7);
    graph.add_edge(0, 3, 4);
    graph.add_edge(0, 3, 5);
    graph.add_edge(0, 8, 9);
    graph.add_edge(0, 8, 10);
    graph.add_edge(0, 10, 11);

    // GRAPH VISUALIZATION
    //                1
    //             /     \
    //            2       8
    //         /  |  \   / \
    //        3   6   7 9   10
    //       / \             \
    //      4   5             11

    let mut dfs = graph.dfs_post_order_visitor(1);

    while let Some(idx) = dfs.next(&graph) {
        println!("idx {}", idx);
    }
}

fn sample() -> Graph<u32, u32> {
    let mut graph: Graph<u32, u32> = Graph::new();
    for k in [1u32, 2, 3, 4, 5, 6, 7, 8, 9, 10, 11] {
        graph.add_node(k, k);
    }
    for (from, to) in [(1u32, 2u32), (1, 8), (2, 3), (2, 6), (2, 7), (3, 4), (3, 5), (8, 9), (8, 10), (10, 11)] {
        graph.add_edge(0, from, to);
    }
    graph
}

#[test]
fn dfs_yields_every_node_once_children_first() {
    let graph = sample();
    let mut dfs = graph.dfs_post_order_visitor(1);
    let mut order = Vec::new();
    while let Some(idx) = dfs.next(&graph) {
        order.push(idx);
    }
    assert_eq!(order, vec![4, 5, 3, 6, 7, 2, 9, 11, 10, 8, 1]);
}

#[test]
fn dfs_move_to_keeps_what_was_finished() {
    let graph = sample();
    let mut dfs = graph.dfs_post_order_visitor(8);
    let mut order = Vec::new();
    while let Some(idx) = dfs.next(&graph) {
        order.push(idx);
    }
    assert_eq!(order, vec![9, 11, 10, 8]);
    dfs.move_to(1);
    let mut rest = Vec::new();
    while let Some(idx) = dfs.next(&graph) {
        rest.push(idx);
    }
    assert_eq!(rest, vec![4, 5, 3, 6, 7, 2, 1]);
}

#[test]
fn add_node_hands_back_the_previous_weight() {
    let mut graph: Graph<u32, u32> = Graph::new();
    assert_eq!(graph.add_node(5, 50), None);
    assert_eq!(graph.add_node(5, 51), Some(50));
    assert_eq!(graph.node_weight(5), Some(&51));
    assert_eq!(graph.node_count(), 1);
}

#[test]
fn nodes_are_kept_in_key_order() {
    let mut graph: Graph<u32, u32> = Graph::new();
    for k in [9u32, 3, 7, 1, 5] {
        graph.add_node(k, k * 10);
    }
    assert_eq!(graph.keys().clone(), vec![1, 3, 5, 7, 9]);
    let weights: Vec<(u32, u32)> = graph.iter_node_weights().into_iter().map(|(k, w)| (k, *w)).collect();
    assert_eq!(weights, vec![(1, 10), (3, 30), (5, 50), (7, 70), (9, 90)]);
    assert!(graph.contains_node(7));
    assert!(!graph.contains_node(8));
}

#[test]
fn prev_and_next_node_find_the_nearest_keys() {
    let mut graph: Graph<u32, u32> = Graph::new();
    for k in [10u32, 20, 30] {
        graph.add_node(k, 0);
    }
    assert_eq!(graph.try_prev_node(9), None);
    assert_eq!(graph.try_prev_node(10), Some(10));
    assert_eq!(graph.try_prev_node(25), Some(20));
    assert_eq!(graph.try_prev_node(u32::MAX), Some(30));
    assert_eq!(graph.try_next_node(0), Some(10));
    assert_eq!(graph.try_next_node(20), Some(20));
    assert_eq!(graph.try_next_node(21), Some(30));
    assert_eq!(graph.try_next_node(31), None);
}

fn walk_out(graph: &Graph<u32, u32>, key: u32) -> Vec<u32> {
    let mut walk = graph.outputs(key);
    let mut seen = Vec::new();
    while let Some(e) = walk.next() {
        seen.push(e);
    }
    seen
}

fn walk_in(graph: &Graph<u32, u32>, key: u32) -> Vec<u32> {
    let mut walk = graph.inputs(key);
    let mut seen = Vec::new();
    while let Some(e) = walk.next() {
        seen.push(e);
    }
    seen
}

#[test]
fn edge_lists_run_from_the_newest_edge() {
    let graph = sample();
    assert_eq!(walk_out(&graph, 2), vec![4, 3, 2]);
    assert_eq!(walk_out(&graph, 4), Vec::<u32>::new());
    assert_eq!(walk_in(&graph, 2), vec![0]);
    assert_eq!(walk_in(&graph, 1), Vec::<u32>::new());
    assert_eq!(graph.edge_to(4), 7);
    assert_eq!(graph.next_outgoing_node_idx(2), Some(7));
    assert_eq!(graph.next_outgoing_node_idx(4), None);
    assert_eq!(graph.edge_weight(9), Some(&0));
    assert_eq!(graph.edge_weight(10), None);
    assert_eq!(graph.edge_count(), 10);
}

#[test]
fn add_edge_returns_consecutive_indices() {
    let mut graph: Graph<u32, u32> = Graph::new();
    graph.add_node(1, 0);
    graph.add_node(2, 0);
    assert_eq!(graph.add_edge(7, 1, 2), 0);
    assert_eq!(graph.add_edge(8, 2, 1), 1);
    assert_eq!(graph.add_edge(9, 1, 1), 2);
    let e = graph.edge(2).unwrap();
    assert_eq!((e.from(), e.to(), *e.weight()), (1, 1, 9));
    assert_eq!(walk_out(&graph, 1), vec![2, 0]);
    assert_eq!(walk_in(&graph, 1), vec![2, 1]);
    assert!(graph.edge(3).is_none());
}

#[test]
fn split_node_moves_the_outgoing_edges() {
    let mut graph: Graph<u32, u32> = Graph::new();
    graph.add_node(0, 100);
    graph.add_node(10, 7);
    graph.add_edge(1, 0, 10);
    graph.add_edge(2, 10, 0);
    graph.add_edge(3, 0, 0);
    let new_key = graph.split_node(0, 4, |w: &mut u32| {
        *w = 40;
        60
    });
    assert_eq!(new_key, 4);
    assert_eq!(graph.node_weight(0), Some(&40));
    assert_eq!(graph.node_weight(4), Some(&60));
    // the edges that left node 0 now leave node 4
    assert_eq!(walk_out(&graph, 4), vec![2, 0]);
    assert_eq!(walk_out(&graph, 0), Vec::<u32>::new());
    // the edges that enter node 0 still do
    assert_eq!(walk_in(&graph, 0), vec![2, 1]);
    let froms: Vec<u32> = graph.edges().iter().map(|e| e.from()).collect();
    let tos: Vec<u32> = graph.edges().iter().map(|e| e.to()).collect();
    assert_eq!(froms, vec![4, 10, 4]);
    assert_eq!(tos, vec![10, 0, 0]);
}

#[test]
fn structure_copy_keeps_keys_and_edges() {
    let graph = sample();
    let copy: Graph<String, u32> = graph.structure_copy();
    assert_eq!(copy.keys().clone(), graph.keys().clone());
    assert_eq!(copy.edge_count(), graph.edge_count());
    for k in copy.keys().clone() {
        assert_eq!(copy.node_weight(k), Some(&String::new()));
    }
    let mut walk = copy.outputs(2);
    let mut seen = Vec::new();
    while let Some(e) = walk.next() {
        seen.push(copy.edge_to(e));
    }
    assert_eq!(seen, vec![7, 6, 3]);
}

#[test]
fn node_weight_mut_changes_one_payload() {
    let mut graph = sample();
    *graph.node_weight_mut(3).unwrap() = 333;
    assert!(graph.node_weight_mut(12).is_none());
    assert_eq!(graph.node_weight(3), Some(&333));
    assert_eq!(graph.node_weight(2), Some(&2));
    assert_eq!(graph.node(3).unwrap().weight(), 333);
    assert_eq!(graph.nodes().len(), 11);
}

#[test]
fn intersect_finds_where_two_ways_up_meet() {
    // a tree in postorder numbering: 0 and 1 hang under 2; 2 and 3 under 4
    let doms = [2usize, 2, 4, 4, 4];
    assert_eq!(luajit_decompiler::graph::algo::intersect(&doms, 0, 1), 2);
    assert_eq!(luajit_decompiler::graph::algo::intersect(&doms, 0, 3), 4);
    assert_eq!(luajit_decompiler::graph::algo::intersect(&doms, 2, 0), 2);
    assert_eq!(luajit_decompiler::graph::algo::intersect(&doms, 3, 3), 3);
    assert_eq!(luajit_decompiler::graph::algo::intersect(&doms, 4, 0), 4);
}

#[test]
fn dominator_tree_walks_up_to_the_root() {
    let mut map = std::collections::HashMap::new();
    map.insert(1u32, 1u32);
    map.insert(2, 1);
    map.insert(3, 2);
    map.insert(4, 2);
    let tree = luajit_decompiler::graph::algo::DominatorTree::new(1, map);
    assert_eq!(tree.root(), 1);
    assert_eq!(tree.idom(1), None);
    assert_eq!(tree.idom(3), Some(2));
    assert_eq!(tree.idom(9), None);
    assert!(tree.dominators(9).is_none());
    let mut walk = tree.dominators(4).unwrap();
    let mut seen = Vec::new();
    while let Some(n) = walk.next() {
        seen.push(n);
    }
    assert_eq!(seen, vec![4, 2, 1]);
}

#[test]
fn dfs_visits_a_graph_with_a_cycle_and_parallel_edges() {
    let mut graph: Graph<u32, u32> = Graph::new();
    for k in [1u32, 2, 3] {
        graph.add_node(k, k);
    }
    graph.add_edge(0, 1, 2);
    graph.add_edge(0, 1, 2);
    graph.add_edge(0, 2, 3);
    graph.add_edge(0, 3, 1);
    graph.add_edge(0, 3, 3);
    let mut dfs = graph.dfs_post_order_visitor(1);
    let mut order = Vec::new();
    while let Some(idx) = dfs.next(&graph) {
        order.push(idx);
    }
    assert_eq!(order, vec![3, 2, 1]);
    assert!(dfs.stack.is_empty());
    assert_eq!(dfs.finished.len(), 3);
}

#[test]
fn dominator_rounds_reach_the_immediate_dominators() {
    // a diamond with a tail, in postorder numbering: 4 is the entry,
    // 4 -> 3, 4 -> 2, 3 -> 1, 2 -> 1, 1 -> 0
    let preds: Vec<Vec<usize>> = vec![vec![1], vec![3, 2], vec![4], vec![4], vec![]];
    let undefined = luajit_decompiler::graph::algo::UNDEFINED;
    let mut doms = vec![undefined, undefined, undefined, undefined, 4];
    assert!(luajit_decompiler::graph::algo::dominator_round(&preds, &mut doms));
    assert_eq!(doms, vec![1, 4, 4, 4, 4]);
    assert!(!luajit_decompiler::graph::algo::dominator_round(&preds, &mut doms));
    assert_eq!(doms, vec![1, 4, 4, 4, 4]);
}

#[test]
fn dominator_rounds_with_a_back_edge() {
    // 3 -> 2, 2 -> 1, 1 -> 0, 0 -> 2: a loop below the entry
    let preds: Vec<Vec<usize>> = vec![vec![1], vec![2], vec![0, 3], vec![]];
    let undefined = luajit_decompiler::graph::algo::UNDEFINED;
    let mut doms = vec![undefined, undefined, undefined, 3];
    assert!(luajit_decompiler::graph::algo::dominator_round(&preds, &mut doms));
    assert_eq!(doms, vec![1, 2, 3, 3]);
    assert!(!luajit_decompiler::graph::algo::dominator_round(&preds, &mut doms));
}

fn dominators_of(graph: &Graph<u32, u32>, root: u32) -> luajit_decompiler::graph::algo::DominatorTree {
    let mut search = luajit_decompiler::graph::algo::DominatorSearch::start(graph, root).unwrap();
    let mut rounds = 0;
    while search.round() {
        rounds += 1;
        assert!(rounds < 100);
    }
    search.finish(root).unwrap()
}

#[test]
fn dominators_of_a_tree_are_the_parents() {
    let graph = sample();
    let tree = dominators_of(&graph, 1);
    assert_eq!(tree.root(), 1);
    assert_eq!(tree.idom(1), None);
    for (node, parent) in [(2u32, 1u32), (8, 1), (3, 2), (6, 2), (7, 2), (4, 3), (5, 3), (9, 8), (10, 8), (11, 10)] {
        assert_eq!(tree.idom(node), Some(parent));
    }
    let mut walk = tree.dominators(11).unwrap();
    let mut seen = Vec::new();
    while let Some(n) = walk.next() {
        seen.push(n);
    }
    assert_eq!(seen, vec![11, 10, 8, 1]);
}

#[test]
fn dominators_of_a_diamond_with_a_loop() {
    // 1 -> 2, 1 -> 3, 2 -> 4, 3 -> 4, 4 -> 5, 5 -> 2, and 6 out of reach
    let mut graph: Graph<u32, u32> = Graph::new();
    for k in [1u32, 2, 3, 4, 5, 6] {
        graph.add_node(k, k);
    }
    for (from, to) in [(1u32, 2u32), (1, 3), (2, 4), (3, 4), (4, 5), (5, 2), (6, 4)] {
        graph.add_edge(0, from, to);
    }
    let tree = dominators_of(&graph, 1);
    assert_eq!(tree.idom(2), Some(1));
    assert_eq!(tree.idom(3), Some(1));
    assert_eq!(tree.idom(4), Some(1));
    assert_eq!(tree.idom(5), Some(4));
    assert_eq!(tree.idom(6), None);
    assert!(tree.dominators(6).is_none());
}

#[test]
fn dominators_of_a_single_node() {
    let mut graph: Graph<u32, u32> = Graph::new();
    graph.add_node(7, 0);
    graph.add_edge(0, 7, 7);
    let tree = dominators_of(&graph, 7);
    assert_eq!(tree.root(), 7);
    assert_eq!(tree.idom(7), None);
    assert!(tree.dominators(7).is_some());
}
