use scc_graph::graph::{
    add_edge, add_vertex, edge_count, from_edges, graph_from_one_based, graph_reverse, new_graph,
    out_edges, vertex_count, vertex_label, Digraph,
};
use scc_graph::kahn::kahn_topo_sort;
use scc_graph::order::topo_sort;
use scc_graph::scc::{compute_sccs, kosaraju};
use scc_graph::sizes::{component_sizes, sort_descending, top_sizes};

fn sample_graph() -> Digraph {
    let edges = vec![
        (0, 2),
        (2, 4),
        (2, 10),
        (4, 0),
        (10, 7),
        (10, 5),
        (5, 9),
        (9, 7),
        (7, 5),
        (4, 6),
        (4, 8),
        (6, 8),
        (8, 3),
        (3, 6),
        (8, 1),
        (1, 3),
        (1, 9),
        (8, 7),
    ];
    from_edges(11, &edges)
}

fn cycle(n: usize) -> Digraph {
    let mut edges = Vec::new();
    for i in 0..n {
        edges.push((i, (i + 1) % n));
    }
    from_edges(n, &edges)
}

fn all_edges(g: &Digraph) -> Vec<(usize, usize)> {
    let mut es = Vec::new();
    for v in 0..vertex_count(g) {
        es.extend(out_edges(g, v));
    }
    es.sort();
    es
}

fn partition(ids: &[usize]) -> Vec<Vec<usize>> {
    let mut groups: Vec<Vec<usize>> = Vec::new();
    for v in 0..ids.len() {
        let members: Vec<usize> = (0..ids.len()).filter(|&u| ids[u] == ids[v]).collect();
        if !groups.contains(&members) {
            groups.push(members);
        }
    }
    groups.sort();
    groups
}

#[test]
fn sanity_checks() {
    let g = sample_graph();
    assert_eq!(kosaraju(&g), [4, 3, 3, 1, 0]);
}

#[test]
fn sample_components_are_the_expected_groups() {
    let g = sample_graph();
    let (ids, count) = compute_sccs(&g);
    assert_eq!(count, 4);
    assert_eq!(
        partition(&ids),
        vec![vec![0, 2, 4], vec![1, 3, 6, 8], vec![5, 7, 9], vec![10]]
    );
    assert!(ids.iter().all(|&c| 1 <= c && c <= count));
}

#[test]
fn empty_graph_gives_five_zeros() {
    let g = new_graph();
    assert_eq!(kosaraju(&g), [0, 0, 0, 0, 0]);
    let (ids, count) = compute_sccs(&g);
    assert!(ids.is_empty());
    assert_eq!(count, 0);
}

#[test]
fn no_edges_gives_singletons() {
    let g = from_edges(7, &Vec::new());
    let (ids, count) = compute_sccs(&g);
    assert_eq!(count, 7);
    assert_eq!(partition(&ids).len(), 7);
    assert_eq!(component_sizes(&ids, count), vec![1; 7]);
    assert_eq!(kosaraju(&g), [1, 1, 1, 1, 1]);
}

#[test]
fn single_cycle_is_one_component() {
    for n in [1usize, 2, 5, 12] {
        let g = cycle(n);
        let (ids, count) = compute_sccs(&g);
        assert_eq!(count, 1);
        assert!(ids.iter().all(|&c| c == 1));
        assert_eq!(kosaraju(&g), [n as u32, 0, 0, 0, 0]);
    }
}

#[test]
fn sizes_add_up_to_vertex_count() {
    let g = sample_graph();
    let (ids, count) = compute_sccs(&g);
    let sizes = component_sizes(&ids, count);
    assert_eq!(sizes.iter().sum::<usize>(), vertex_count(&g));
}

#[test]
fn recomputing_gives_the_same_partition() {
    let g = sample_graph();
    let (a, _) = compute_sccs(&g);
    let (b, _) = compute_sccs(&g);
    assert_eq!(partition(&a), partition(&b));
}

#[test]
fn mutually_reachable_share_an_id_and_others_do_not() {
    // two 2-cycles joined one way, and a tail
    let g = from_edges(5, &vec![(0, 1), (1, 0), (1, 2), (2, 3), (3, 2), (3, 4)]);
    let (ids, count) = compute_sccs(&g);
    assert_eq!(count, 3);
    assert_eq!(ids[0], ids[1]);
    assert_eq!(ids[2], ids[3]);
    assert_ne!(ids[0], ids[2]);
    assert_ne!(ids[2], ids[4]);
    assert_ne!(ids[0], ids[4]);
    assert_eq!(kosaraju(&g), [2, 2, 1, 0, 0]);
}

#[test]
fn self_loops_and_parallel_edges_are_harmless() {
    let g = from_edges(3, &vec![(0, 0), (0, 1), (0, 1), (1, 2), (2, 1), (2, 1)]);
    assert_eq!(kosaraju(&g), [2, 1, 0, 0, 0]);
}

#[test]
fn reverse_flips_every_edge() {
    let g = sample_graph();
    let r = graph_reverse(&g);
    assert_eq!(vertex_count(&r), 11);
    assert_eq!(edge_count(&r), 18);
    for v in 0..11 {
        assert_eq!(vertex_label(&r, v), vertex_label(&g, v));
    }
    let mut flipped: Vec<(usize, usize)> = all_edges(&g).into_iter().map(|(a, b)| (b, a)).collect();
    flipped.sort();
    assert_eq!(all_edges(&r), flipped);
    assert!(out_edges(&r, 0).contains(&(0, 4)));
    assert!(!out_edges(&r, 0).contains(&(0, 2)));
}

#[test]
fn reversing_twice_restores_the_edges() {
    let g = from_edges(4, &vec![(0, 1), (1, 1), (1, 2), (1, 2), (3, 0)]);
    let rr = graph_reverse(&graph_reverse(&g));
    assert_eq!(all_edges(&rr), all_edges(&g));
    assert_eq!(edge_count(&rr), 5);
}

#[test]
fn out_edges_list_most_recent_first() {
    let mut g = new_graph();
    let a = add_vertex(&mut g, 10);
    let b = add_vertex(&mut g, 20);
    let c = add_vertex(&mut g, 30);
    assert_eq!((a, b, c), (0, 1, 2));
    add_edge(&mut g, a, b);
    add_edge(&mut g, a, c);
    add_edge(&mut g, b, c);
    assert_eq!(out_edges(&g, a), vec![(0, 2), (0, 1)]);
    assert_eq!(out_edges(&g, c), Vec::<(usize, usize)>::new());
    assert_eq!(vertex_label(&g, 2), 30);
    assert_eq!(edge_count(&g), 3);
}

#[test]
fn finishing_order_is_a_permutation() {
    let g = sample_graph();
    let mut order = topo_sort(&graph_reverse(&g));
    assert_eq!(order.len(), 11);
    order.sort();
    assert_eq!(order, (0..11).collect::<Vec<_>>());
}

#[test]
fn finishing_order_on_a_chain() {
    // 0 -> 1 -> 2: 2 finishes first, so 0 comes first after reversal
    let g = from_edges(3, &vec![(0, 1), (1, 2)]);
    assert_eq!(topo_sort(&g), vec![0, 1, 2]);
    // a search that finishes a vertex only after all its edges
    let g = from_edges(3, &vec![(0, 1), (0, 2), (2, 1)]);
    assert_eq!(topo_sort(&g), vec![0, 2, 1]);
}

#[test]
fn sizes_are_tallied_per_id() {
    let ids = vec![2, 1, 2, 3, 2];
    assert_eq!(component_sizes(&ids, 3), vec![1, 3, 1]);
}

#[test]
fn top_sizes_sorts_pads_and_truncates() {
    assert_eq!(top_sizes(&vec![1, 3, 1]), [3, 1, 1, 0, 0]);
    assert_eq!(top_sizes(&vec![2, 9, 4, 4, 7, 1, 8]), [9, 8, 7, 4, 4]);
    assert_eq!(top_sizes(&vec![]), [0, 0, 0, 0, 0]);
}

#[test]
fn sort_descending_keeps_values() {
    assert_eq!(sort_descending(&vec![3, 1, 4, 1, 5, 9, 2, 6]), vec![9, 6, 5, 4, 3, 2, 1, 1]);
    assert_eq!(sort_descending(&vec![]), Vec::<usize>::new());
}

#[test]
fn one_based_edges_are_renumbered() {
    let g = graph_from_one_based(&vec![(1, 2), (2, 1), (3, 4)]).unwrap();
    assert_eq!(vertex_count(&g), 4);
    assert_eq!(edge_count(&g), 3);
    assert_eq!(out_edges(&g, 0), vec![(0, 1)]);
    assert_eq!(out_edges(&g, 2), vec![(2, 3)]);
    assert_eq!(vertex_label(&g, 3), 3);
    assert_eq!(kosaraju(&g), [2, 1, 1, 0, 0]);
}

#[test]
fn one_based_zero_endpoint_is_refused() {
    assert!(graph_from_one_based(&vec![(1, 2), (0, 1)]).is_none());
    assert!(graph_from_one_based(&vec![(3, 0)]).is_none());
}

#[test]
fn kahn_lists_a_dag_in_topological_order() {
    let edges = vec![(0, 1), (0, 2), (1, 3), (2, 3), (4, 3)];
    let g = from_edges(5, &edges);
    let order = kahn_topo_sort(&g);
    assert_eq!(order.len(), 5);
    let pos = |v: usize| order.iter().position(|&x| x == v).unwrap();
    for (a, b) in edges {
        assert!(pos(a) < pos(b));
    }
}

#[test]
fn kahn_leaves_out_cycles_and_what_follows_them() {
    let g = from_edges(5, &vec![(0, 1), (1, 2), (2, 1), (2, 3)]);
    let mut order = kahn_topo_sort(&g);
    order.sort();
    assert_eq!(order, vec![0, 4]);
}

#[test]
fn kahn_on_a_self_loop_lists_nothing_after_it() {
    let g = from_edges(2, &vec![(0, 0), (0, 1)]);
    assert_eq!(kahn_topo_sort(&g), Vec::<usize>::new());
}
