use nl_opt::graph::Edge;
use nl_opt::scc::sccs;
use nl_opt::fas::greedy_feedback_arcs;
use nl_opt::depth::max_comb_depth;
use nl_opt::netlist::Netlist;

fn arc(src: usize, dst: usize) -> Edge {
    Edge { src, src_port: 0, dst, dst_port: dst }
}

#[test]
fn scc_partition_is_exhaustive_and_disjoint() {
    // a 3-cycle 0->1->2->0, plus 3->4
    let edges = vec![arc(0, 1), arc(1, 2), arc(2, 0), arc(3, 4)];
    let comps = sccs(5, &edges);
    let mut seen = vec![0usize; 5];
    for c in &comps {
        assert!(!c.is_empty());
        for &v in c {
            seen[v] += 1;
        }
    }
    // every node is in exactly one component
    assert_eq!(seen, vec![1, 1, 1, 1, 1]);
    let big: Vec<&Vec<usize>> = comps.iter().filter(|c| c.len() > 1).collect();
    assert_eq!(big.len(), 1);
    let mut cycle = big[0].clone();
    cycle.sort();
    assert_eq!(cycle, vec![0, 1, 2]);
}

#[test]
fn feedback_arc_removal_leaves_no_cycle() {
    // two touching cycles: 0->1->2->0 and 2->3->2
    let edges = vec![arc(0, 1), arc(1, 2), arc(2, 0), arc(2, 3), arc(3, 2)];
    let fas = greedy_feedback_arcs(4, &edges);
    assert!(!fas.is_empty());
    let kept: Vec<Edge> = edges
        .iter()
        .copied()
        .filter(|e| !fas.contains(e))
        .collect();
    let comps = sccs(4, &kept);
    for c in &comps {
        assert_eq!(c.len(), 1);
    }
}

#[test]
fn depth_of_chain_counts_cells() {
    // 0 -> 1 -> 2, all combinational
    let edges = vec![arc(0, 1), arc(1, 2)];
    let comb = vec![true, true, true];
    assert_eq!(max_comb_depth(3, &edges, &comb), Some(3));
}

#[test]
fn depth_breaks_at_sequential_cells() {
    // 0 -> 1 -> 2 where 1 is sequential: the longest combinational chain is
    // a single cell
    let edges = vec![arc(0, 1), arc(1, 2)];
    let comb = vec![true, false, true];
    assert_eq!(max_comb_depth(3, &edges, &comb), Some(1));
}

#[test]
fn depth_undefined_on_combinational_cycle() {
    let edges = vec![arc(0, 1), arc(1, 0)];
    let comb = vec![true, true];
    assert_eq!(max_comb_depth(2, &edges, &comb), None);
    // a self-loop is a cycle too
    let edges2 = vec![arc(0, 0)];
    assert_eq!(max_comb_depth(1, &edges2, &vec![true]), None);
}

#[test]
fn depth_of_empty_graph_is_zero() {
    let edges: Vec<Edge> = vec![];
    let comb: Vec<bool> = vec![];
    assert_eq!(max_comb_depth(0, &edges, &comb), Some(0));
}

fn cell(nl: &mut Netlist, name: &str, is_seq: bool) -> usize {
    nl.add_instance(
        name.to_string(),
        is_seq,
        vec!["I".to_string()],
        vec!["O".to_string()],
    )
    .unwrap()
}

fn wire(nl: &mut Netlist, name: &str, from: usize, to: usize) -> usize {
    let n = nl.add_net(name.to_string()).unwrap();
    nl.set_driver(n, from, 0).unwrap();
    nl.connect_input(to, 0, n).unwrap();
    n
}

#[test]
fn store_analyses_track_mutations() {
    let mut nl = Netlist::new();
    let a = cell(&mut nl, "A", false);
    let b = cell(&mut nl, "B", false);
    wire(&mut nl, "nab", a, b);
    wire(&mut nl, "nba", b, a);
    let (nt, tot) = nl.get_scc_counts();
    assert_eq!((nt, tot), (1, 1));
    // a cached second read agrees
    assert_eq!(nl.get_scc_counts(), (1, 1));
    assert_eq!(nl.get_max_depth(), None);
    // breaking the cycle invalidates the caches
    nl.disconnect(a, 0).unwrap();
    assert_eq!(nl.get_scc_counts(), (0, 2));
    assert_eq!(nl.get_max_depth(), Some(2));
}

#[test]
fn graph_view_lists_arcs() {
    let mut nl = Netlist::new();
    let a = cell(&mut nl, "A", false);
    let b = cell(&mut nl, "B", false);
    let n = wire(&mut nl, "nab", a, b);
    let es = nl.get_graph();
    assert_eq!(es.len(), 1);
    assert_eq!((es[0].src, es[0].dst), (a, b));
    nl.disconnect(b, 0).unwrap();
    assert_eq!(nl.get_graph().len(), 0);
    let _ = n;
}
