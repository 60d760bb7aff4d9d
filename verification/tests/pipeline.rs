use nl_opt::netlist::Netlist;
use nl_opt::passes::{
    Clean, DisconnectArcSet, DisconnectRegisters, DotGraph, MarkArcSet, PassKind, RenameNets,
    ReportDepth, ReportSccs, run_pipeline,
};

fn cell(nl: &mut Netlist, name: &str, is_seq: bool) -> usize {
    nl.add_instance(
        name.to_string(),
        is_seq,
        vec!["I".to_string()],
        vec!["O".to_string()],
    )
    .unwrap()
}

fn wire(nl: &mut Netlist, name: &str, from: usize, to: usize) -> usize {
    let n = nl.add_net(name.to_string()).unwrap();
    nl.set_driver(n, from, 0).unwrap();
    nl.connect_input(to, 0, n).unwrap();
    n
}

/// A three-cell combinational ring: A drives B, B drives C, C drives A.
fn three_ring() -> Netlist {
    let mut nl = Netlist::new();
    let a = cell(&mut nl, "A", false);
    let b = cell(&mut nl, "B", false);
    let c = cell(&mut nl, "C", false);
    wire(&mut nl, "nab", a, b);
    wire(&mut nl, "nbc", b, c);
    wire(&mut nl, "nca", c, a);
    nl
}

#[test]
fn ring_reports_one_component_then_none() {
    let mut nl = three_ring();
    let s = ReportSccs.run(&mut nl).unwrap();
    assert_eq!(
        s,
        "Netlist contains 1 non-trivial strongly connected components (1 total)"
    );
    let s = DisconnectArcSet.run(&mut nl).unwrap();
    assert_eq!(s, "Disconnected 1 arcs");
    let s = ReportSccs.run(&mut nl).unwrap();
    assert_eq!(
        s,
        "Netlist contains 0 non-trivial strongly connected components (3 total)"
    );
    let s = ReportDepth.run(&mut nl).unwrap();
    assert_eq!(s, "Maximum combinational depth: 3");
    assert!(nl.verify().is_ok());
}

#[test]
fn depth_is_undefined_on_a_ring() {
    let mut nl = three_ring();
    let s = ReportDepth.run(&mut nl).unwrap();
    assert_eq!(s, "Maximum combinational depth: undefined");
}

#[test]
fn clean_pass_is_idempotent() {
    let mut nl = Netlist::new();
    let a = cell(&mut nl, "A", false);
    let b = cell(&mut nl, "B", false);
    let no = nl.add_net("no".to_string()).unwrap();
    nl.set_driver(no, a, 0).unwrap();
    nl.add_output(no).unwrap();
    let nb = nl.add_net("nb".to_string()).unwrap();
    nl.set_driver(nb, b, 0).unwrap();
    let s = Clean.run(&mut nl).unwrap();
    assert_eq!(s, "Cleaned 2 objects. 2 remain.");
    let s = Clean.run(&mut nl).unwrap();
    assert_eq!(s, "Cleaned 0 objects. 2 remain.");
}

#[test]
fn disconnect_registers_pass_reports_count() {
    let mut nl = Netlist::new();
    let a = cell(&mut nl, "A", false);
    let r = cell(&mut nl, "R", true);
    wire(&mut nl, "nar", a, r);
    let s = DisconnectRegisters.run(&mut nl).unwrap();
    assert_eq!(s, "Disconnected 1 registers");
    assert_eq!(nl.instances[r].inputs[0], None);
    let s = DisconnectRegisters.run(&mut nl).unwrap();
    assert_eq!(s, "Disconnected 0 registers");
}

#[test]
fn mark_arc_set_prefixes_sources() {
    let mut nl = three_ring();
    let s = MarkArcSet.run(&mut nl).unwrap();
    assert_eq!(s, "Marked 1 arcs");
    // the greedy order keeps the ring's last cell as the arc source
    assert_eq!(nl.instances[2].name, "arc_C");
    assert!(nl.verify().is_ok());
}

#[test]
fn rename_nets_pass_numbers_everything() {
    let mut nl = three_ring();
    let s = RenameNets.run(&mut nl).unwrap();
    assert_eq!(s, "Renamed 6 cells");
    assert_eq!(nl.nets[0].name, "__0__");
    assert_eq!(nl.nets[1].name, "__1__");
    assert_eq!(nl.nets[2].name, "__2__");
    assert!(nl.verify().is_ok());
}

#[test]
fn rename_nets_pass_detects_collisions() {
    let mut nl = Netlist::new();
    let a = cell(&mut nl, "__0__", false);
    let b = cell(&mut nl, "B", false);
    wire(&mut nl, "n", a, b);
    assert!(RenameNets.run(&mut nl).is_err());
    assert_eq!(nl.nets[0].name, "n");
}

#[test]
fn dot_graph_renders_arcs() {
    let mut nl = Netlist::new();
    let a = cell(&mut nl, "A", false);
    let b = cell(&mut nl, "B", false);
    wire(&mut nl, "nab", a, b);
    let s = DotGraph.run(&mut nl).unwrap();
    assert!(s.starts_with("digraph netlist {"));
    assert!(s.contains("  \"A\";"));
    assert!(s.contains("  \"A\" -> \"B\";"));
    assert!(s.ends_with("}\n"));
}

#[test]
fn pipeline_runs_passes_in_order() {
    let mut nl = three_ring();
    let passes = vec![
        PassKind::ReportSccs,
        PassKind::DisconnectArcSet,
        PassKind::ReportSccs,
        PassKind::ReportDepth,
    ];
    let reports = run_pipeline(&mut nl, &passes, true).unwrap();
    assert_eq!(reports.len(), 4);
    assert_eq!(
        reports[0],
        "Netlist contains 1 non-trivial strongly connected components (1 total)"
    );
    assert_eq!(reports[1], "Disconnected 1 arcs");
    assert_eq!(
        reports[2],
        "Netlist contains 0 non-trivial strongly connected components (3 total)"
    );
    assert_eq!(reports[3], "Maximum combinational depth: 3");
}

#[test]
fn dot_string_matches_dot_graph_pass() {
    let mut nl = Netlist::new();
    let a = cell(&mut nl, "A", false);
    let b = cell(&mut nl, "B", false);
    wire(&mut nl, "nab", a, b);
    let s = nl.dot_string().unwrap();
    assert!(s.contains("  \"A\" -> \"B\";"));
}

#[test]
fn pipeline_aborts_on_first_failure() {
    let mut nl = Netlist::new();
    let a = cell(&mut nl, "__0__", false);
    let b = cell(&mut nl, "B", false);
    let _ = wire(&mut nl, "n", a, b);
    // the rename collides with the instance name, so the later report
    // never runs
    let r = run_pipeline(
        &mut nl,
        &vec![PassKind::RenameNets, PassKind::ReportSccs],
        false,
    );
    assert!(r.is_err());
}
