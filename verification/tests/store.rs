use nl_opt::netlist::{Netlist, NetlistError};

fn cell(nl: &mut Netlist, name: &str, is_seq: bool) -> usize {
    nl.add_instance(
        name.to_string(),
        is_seq,
        vec!["I".to_string()],
        vec!["O".to_string()],
    )
    .unwrap()
}

fn wire(nl: &mut Netlist, name: &str, from: usize, to: usize) -> usize {
    let n = nl.add_net(name.to_string()).unwrap();
    nl.set_driver(n, from, 0).unwrap();
    nl.connect_input(to, 0, n).unwrap();
    n
}

#[test]
fn add_and_len() {
    let mut nl = Netlist::new();
    assert_eq!(nl.len(), 0);
    let a = cell(&mut nl, "A", false);
    let n = nl.add_net("n0".to_string()).unwrap();
    assert_eq!(a, 0);
    assert_eq!(n, 0);
    assert_eq!(nl.len(), 2);
    assert!(nl.verify().is_ok());
}

#[test]
fn name_collision_on_add() {
    let mut nl = Netlist::new();
    cell(&mut nl, "A", false);
    assert_eq!(
        nl.add_net("A".to_string()),
        Err(NetlistError::NameCollision)
    );
    assert_eq!(
        nl.add_instance("A".to_string(), false, vec![], vec![]),
        Err(NetlistError::NameCollision)
    );
}

#[test]
fn connect_errors() {
    let mut nl = Netlist::new();
    let a = cell(&mut nl, "A", false);
    let n = nl.add_net("n0".to_string()).unwrap();
    assert_eq!(
        nl.connect_input(7, 0, n),
        Err(NetlistError::MissingObject)
    );
    assert_eq!(nl.connect_input(a, 5, n), Err(NetlistError::BadPort));
    assert_eq!(
        nl.connect_input(a, 0, 9),
        Err(NetlistError::MissingObject)
    );
}

#[test]
fn driver_conflict() {
    let mut nl = Netlist::new();
    let a = cell(&mut nl, "A", false);
    let n0 = nl.add_net("n0".to_string()).unwrap();
    let n1 = nl.add_net("n1".to_string()).unwrap();
    nl.set_driver(n0, a, 0).unwrap();
    assert_eq!(nl.set_driver(n1, a, 0), Err(NetlistError::DriverConflict));
}

#[test]
fn disconnect_returns_removed_net() {
    let mut nl = Netlist::new();
    let a = cell(&mut nl, "A", false);
    let b = cell(&mut nl, "B", false);
    let n = wire(&mut nl, "nab", a, b);
    assert_eq!(nl.disconnect(b, 0), Ok(Some(n)));
    assert_eq!(nl.disconnect(9, 0), Err(NetlistError::MissingObject));
    assert_eq!(nl.disconnect(b, 3), Err(NetlistError::BadPort));
}

#[test]
fn double_disconnect_is_idempotent() {
    let mut nl = Netlist::new();
    let a = cell(&mut nl, "A", false);
    let b = cell(&mut nl, "B", false);
    wire(&mut nl, "nab", a, b);
    assert_eq!(nl.disconnect(b, 0), Ok(Some(0)));
    let len_before = nl.len();
    // second disconnect of the same input: no net removed, state unchanged
    assert_eq!(nl.disconnect(b, 0), Ok(None));
    assert_eq!(nl.instances[b].inputs[0], None);
    assert_eq!(nl.len(), len_before);
    assert!(nl.verify().is_ok());
}

#[test]
fn remap_ports() {
    let mut nl = Netlist::new();
    let a = cell(&mut nl, "INV0", false);
    nl.remap_input(a, 0, "I".to_string()).unwrap();
    nl.remap_output(a, 0, "O".to_string()).unwrap();
    assert_eq!(nl.instances[a].input_names[0], "I");
    assert_eq!(nl.instances[a].output_names[0], "O");
    assert_eq!(nl.remap_input(a, 3, "X".to_string()), Err(NetlistError::BadPort));
    assert_eq!(
        nl.remap_input(9, 0, "X".to_string()),
        Err(NetlistError::MissingObject)
    );
}

#[test]
fn set_instance_name_checks_collisions() {
    let mut nl = Netlist::new();
    let a = cell(&mut nl, "A", false);
    let b = cell(&mut nl, "B", false);
    assert_eq!(
        nl.set_instance_name(b, "A".to_string()),
        Err(NetlistError::NameCollision)
    );
    nl.set_instance_name(a, "A2".to_string()).unwrap();
    assert_eq!(nl.instances[a].name, "A2");
    // renaming to its own name is allowed
    nl.set_instance_name(b, "B".to_string()).unwrap();
    assert!(nl.verify().is_ok());
}

#[test]
fn rename_nets_applies_names() {
    let mut nl = Netlist::new();
    let a = cell(&mut nl, "A", false);
    let b = cell(&mut nl, "B", false);
    wire(&mut nl, "nab", a, b);
    let names = vec!["w0".to_string()];
    let count = nl.rename_nets(&names).unwrap();
    assert_eq!(count, 3);
    assert_eq!(nl.nets[0].name, "w0");
    assert!(nl.verify().is_ok());
}

#[test]
fn rename_nets_rejects_bad_count_and_collision() {
    let mut nl = Netlist::new();
    let a = cell(&mut nl, "A", false);
    let b = cell(&mut nl, "B", false);
    wire(&mut nl, "n0", a, b);
    nl.add_net("n1".to_string()).unwrap();
    assert_eq!(
        nl.rename_nets(&vec!["x".to_string()]),
        Err(NetlistError::BadArity)
    );
    assert_eq!(
        nl.rename_nets(&vec!["x".to_string(), "x".to_string()]),
        Err(NetlistError::NameCollision)
    );
    assert_eq!(
        nl.rename_nets(&vec!["A".to_string(), "y".to_string()]),
        Err(NetlistError::NameCollision)
    );
    // the store is untouched after a refused rename
    assert_eq!(nl.nets[0].name, "n0");
    assert_eq!(nl.nets[1].name, "n1");
}

#[test]
fn verify_reports_corruption() {
    let mut nl = Netlist::new();
    let a = cell(&mut nl, "A", false);
    let b = cell(&mut nl, "B", false);
    wire(&mut nl, "nab", a, b);
    assert!(nl.verify().is_ok());
    let mut bad = Netlist::new();
    let x = cell(&mut bad, "X", false);
    // a dangling input reference is caught
    bad.instances[x].inputs[0] = Some(42);
    assert_eq!(bad.verify(), Err(NetlistError::DanglingInput));
    // two live objects with one name are caught
    let mut dup = Netlist::new();
    cell(&mut dup, "X", false);
    cell(&mut dup, "Y", false);
    dup.instances[1].name = "X".to_string();
    assert_eq!(dup.verify(), Err(NetlistError::NameCollision));
}

#[test]
fn seq_instances_lists_registers() {
    let mut nl = Netlist::new();
    cell(&mut nl, "A", false);
    let r0 = cell(&mut nl, "R0", true);
    cell(&mut nl, "B", false);
    let r1 = cell(&mut nl, "R1", true);
    assert_eq!(nl.seq_instances(), vec![r0, r1]);
}

#[test]
fn clean_removes_dead_objects() {
    let mut nl = Netlist::new();
    let a = cell(&mut nl, "A", false);
    let b = cell(&mut nl, "B", false);
    let no = nl.add_net("no".to_string()).unwrap();
    nl.set_driver(no, a, 0).unwrap();
    nl.add_output(no).unwrap();
    let nb = nl.add_net("nb".to_string()).unwrap();
    nl.set_driver(nb, b, 0).unwrap();
    let removed = nl.clean().unwrap();
    assert_eq!(removed.len(), 2);
    assert!(nl.instances[a].live);
    assert!(!nl.instances[b].live);
    assert!(nl.nets[no].live);
    assert!(!nl.nets[nb].live);
    assert_eq!(nl.len(), 2);
    // nothing is left to clean
    assert_eq!(nl.clean().unwrap().len(), 0);
    assert!(nl.verify().is_ok());
}

#[test]
fn matches_filters_by_predicate() {
    let mut nl = Netlist::new();
    cell(&mut nl, "A", false);
    let r0 = cell(&mut nl, "R0", true);
    cell(&mut nl, "B", false);
    let r1 = cell(&mut nl, "R1", true);
    assert_eq!(nl.matches(|i: &nl_opt::netlist::Instance| i.is_seq), vec![r0, r1]);
    assert_eq!(
        nl.matches(|i: &nl_opt::netlist::Instance| !i.is_seq),
        vec![0, 2]
    );
    assert_eq!(
        nl.matches(|_i: &nl_opt::netlist::Instance| false),
        Vec::<usize>::new()
    );
    let _ = (r0, r1);
}
