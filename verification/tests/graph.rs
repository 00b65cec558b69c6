use piper::derivation::Derivation;
use piper::errors::BuildError;
use piper::process::ProcessGraph;
use piper::scheduler::DerivationRunner;
use piper::value::AttrValue;

fn derivation(name: &str, script: &str) -> Derivation {
    Derivation::new(vec![
        ("name".to_string(), AttrValue::Str(name.to_string())),
        ("script".to_string(), AttrValue::Str(script.to_string())),
    ])
    .expect("mandatory attributes are present")
}

#[test]
fn identical_submissions() {
    // Two derivations submitted with identical name "build" and identical
    // effective script text "echo 1": the second submission returns the
    // same hash and the graph keeps exactly one node.
    let mut graph = ProcessGraph::new();
    let mut first = derivation("build", "\necho 1");
    first.set_interpolations(vec![]);
    let h1 = graph.add_process(first).expect("insertion succeeds");
    assert_eq!(graph.node_count(), 1);

    let mut second = derivation("build", "\necho 1");
    second.set_interpolations(vec![]);
    let h2 = graph.add_process(second).expect("re-insertion succeeds");
    assert_eq!(h1, h2);
    assert_eq!(graph.node_count(), 1);
    assert_eq!(h1, "8656100147954331789-build");
}

#[test]
fn cycle_panic() {
    // A's script references B's output while B's references A's: whichever
    // insertion would close the cycle must carry a dependency hash that is
    // not in the graph yet, and is rejected with CycleDetected, leaving the
    // graph unchanged.
    let mut graph = ProcessGraph::new();
    let mut b = derivation("B", "\ncat ${a}/out");
    // To resolve B's reference to A, A would have to be finalized first —
    // and vice versa.  The authoring layer can only hand over a hash that
    // no finalized derivation carries.
    b.set_interpolations(vec![AttrValue::DerivationRef(
        "0000000000-A".to_string(),
    )]);
    let before = graph.len();
    let r = graph.add_process(b);
    assert_eq!(r, Err(BuildError::CycleDetected));
    assert_eq!(graph.len(), before);
}

#[test]
fn missing_attributes_are_rejected() {
    let r = Derivation::new(vec![(
        "script".to_string(),
        AttrValue::Str("\necho hi".to_string()),
    )]);
    assert!(matches!(r, Err(BuildError::MissingAttribute)));

    let r = Derivation::new(vec![
        ("name".to_string(), AttrValue::Str("x".to_string())),
        ("script".to_string(), AttrValue::Int(3)),
    ]);
    assert!(matches!(r, Err(BuildError::BadAttributeValue)));
}

#[test]
fn attributes_are_kept() {
    let d = Derivation::new(vec![
        ("name".to_string(), AttrValue::Str("x".to_string())),
        ("script".to_string(), AttrValue::Str("\necho hi".to_string())),
        ("container".to_string(), AttrValue::Str("none".to_string())),
    ])
    .expect("mandatory attributes are present");
    assert!(matches!(d.attr("container"), Some(AttrValue::Str(s)) if s == "none"));
    assert!(d.attr("memory").is_none());
}

#[test]
fn single_line_script_is_rejected() {
    // The first line of a script is reserved; a script with nothing after
    // it cannot be rendered, and insertion fails with EmptyScript.
    let mut graph = ProcessGraph::new();
    let mut d = derivation("build", "echo 1");
    d.set_interpolations(vec![]);
    assert_eq!(graph.add_process(d), Err(BuildError::EmptyScript));
    assert_eq!(graph.len(), 0);
}

#[test]
fn scheduler_orders_dependencies() {
    // Derivation A has no dependencies and B references A's output: the
    // scheduler must place A in level 0 and B in level 1.
    let mut graph = ProcessGraph::new();
    let mut a = derivation("A", "\necho hi > ${out}");
    a.set_interpolations(vec![AttrValue::Str("out".to_string())]);
    let ha = graph.add_process(a).expect("insertion succeeds");
    assert_eq!(ha, "15664350730709122142-A");

    let mut b = derivation("B", "\ncat ${a}/out");
    b.set_interpolations(vec![AttrValue::DerivationRef(ha.clone())]);
    let hb = graph.add_process(b).expect("insertion succeeds");

    let runner = DerivationRunner { graph };
    let levels = runner.run_derivations().expect("a well-formed graph schedules");
    assert_eq!(levels.len(), 2);
    assert_eq!(levels[0], vec![ha]);
    assert_eq!(levels[1], vec![hb]);
}

#[test]
fn scheduler_levels_are_topological() {
    // A diamond: B and C depend on A, D depends on B and C.  Every
    // dependency must stand in an earlier level and every node in exactly
    // one level.
    let mut graph = ProcessGraph::new();
    let mut a = derivation("A", "\necho a");
    a.set_interpolations(vec![]);
    let ha = graph.add_process(a).unwrap();

    let mut b = derivation("B", "\ncat ${a}");
    b.set_interpolations(vec![AttrValue::DerivationRef(ha.clone())]);
    let hb = graph.add_process(b).unwrap();

    let mut c = derivation("C", "\nwc ${a}");
    c.set_interpolations(vec![AttrValue::DerivationRef(ha.clone())]);
    let hc = graph.add_process(c).unwrap();

    let mut d = derivation("D", "\npaste ${b} ${c}");
    d.set_interpolations(vec![
        AttrValue::DerivationRef(hb.clone()),
        AttrValue::DerivationRef(hc.clone()),
    ]);
    let hd = graph.add_process(d).unwrap();

    let runner = DerivationRunner { graph };
    let levels = runner.run_derivations().expect("a well-formed graph schedules");
    assert_eq!(levels.len(), 3);
    assert_eq!(levels[0], vec![ha]);
    assert_eq!(levels[1], vec![hb.clone(), hc.clone()]);
    assert_eq!(levels[2], vec![hd]);
}

#[test]
fn single_target_run_covers_only_the_closure() {
    // With A <- B and an unrelated C, running B schedules A then B and
    // leaves C out.
    let mut graph = ProcessGraph::new();
    let mut a = derivation("A", "\necho a");
    a.set_interpolations(vec![]);
    let ha = graph.add_process(a).unwrap();

    let mut c = derivation("C", "\necho c");
    c.set_interpolations(vec![]);
    let hc = graph.add_process(c).unwrap();

    let mut b = derivation("B", "\ncat ${a}");
    b.set_interpolations(vec![AttrValue::DerivationRef(ha.clone())]);
    let hb = graph.add_process(b).unwrap();

    let levels = graph
        .run_derivation(hb.clone())
        .expect("the hash names a node");
    assert_eq!(levels, vec![vec![ha], vec![hb]]);
    assert!(!levels.iter().any(|level| level.contains(&hc)));
}

#[test]
fn finalize_resolves_and_inserts() {
    // finalize stores the resolved values, computes dependencies and hash,
    // and inserts, all in one lifecycle step.
    let mut graph = ProcessGraph::new();
    let a = derivation("A", "\necho hi > ${out}");
    let ha = graph
        .finalize(a, vec![AttrValue::Str("out".to_string())])
        .expect("insertion succeeds");
    assert_eq!(ha, "15664350730709122142-A");
    assert_eq!(graph.len(), 1);

    let b = derivation("B", "\ncat ${a}/out");
    let hb = graph
        .finalize(b, vec![AttrValue::DerivationRef(ha.clone())])
        .expect("insertion succeeds");
    let node = graph.get(hb.as_str()).expect("B is present");
    assert_eq!(node.inward_hashes(), Some(vec![ha]));
}

#[test]
fn unknown_derivation_is_reported() {
    let graph = ProcessGraph::new();
    let r = graph.run_derivation("no-such-hash".to_string());
    assert_eq!(r, Err(BuildError::UnknownDerivation));
}

#[test]
fn nodes_are_found_by_hash() {
    let mut graph = ProcessGraph::new();
    let mut a = derivation("A", "\necho a");
    a.set_interpolations(vec![]);
    let ha = graph.add_process(a).unwrap();
    let node = graph.get(ha.as_str()).expect("the node is present");
    assert_eq!(node.hash(), ha);
    assert_eq!(node.name, "A");
    assert!(graph.get("absent").is_none());
}

#[test]
fn error_messages_name_the_failure() {
    assert_eq!(
        BuildError::CycleDetected.message(),
        "adding the process node would create a cycle"
    );
    assert_eq!(
        BuildError::UnknownDerivation.message(),
        "the derivation is not in the process graph"
    );
}
