use piper::derivation::Derivation;
use piper::evaluator::make_dir_check_hash;
use piper::evaluator::command_file_path;
use piper::evaluator::marker_file_path;
use piper::evaluator::run_derivation;
use piper::evaluator::symlink_edges;
use piper::evaluator::work_dir_path;
use piper::evaluator::CacheState;
use piper::evaluator::ContainerRuntime;
use piper::evaluator::ContainerRuntimeFunctions;
use piper::evaluator::HPCRuntime;
use piper::evaluator::NoContainerRuntime;
use piper::evaluator::NoHPCRuntime;
use piper::derivation::SafeInsert;
use piper::hash::calculate_hash;
use piper::hash::u64_to_dec;
use piper::value::AttrValue;

fn resolved(name: &str, script: &str) -> Derivation {
    let mut d = Derivation::new(vec![
        ("name".to_string(), AttrValue::Str(name.to_string())),
        ("script".to_string(), AttrValue::Str(script.to_string())),
    ])
    .expect("mandatory attributes are present");
    d.set_interpolations(vec![]);
    d
}

#[test]
fn hashes_are_deterministic() {
    // Identical name and identical resolved script text give the identical
    // hash, however the derivations were constructed.
    let h1 = calculate_hash("build".to_string(), "echo 1".to_string());
    let h2 = calculate_hash("build".to_string(), "echo 1".to_string());
    assert_eq!(h1, h2);
    let other = calculate_hash("build".to_string(), "echo 2".to_string());
    assert_ne!(h1, other);
}

#[test]
fn hash_format_is_digest_dash_name() {
    assert_eq!(
        calculate_hash("".to_string(), "".to_string()),
        "14695981039346656037-"
    );
    assert_eq!(
        calculate_hash("a".to_string(), "".to_string()),
        "12638187200555641996-a"
    );
    assert_eq!(u64_to_dec(0), "0");
    assert_eq!(u64_to_dec(9005), "9005");
}

#[test]
fn cache_reuse_skips_the_run() {
    // A pre-existing work directory with a completion marker is a valid
    // cache, and a valid cache spawns no process at all.
    let state = make_dir_check_hash(true, true);
    assert_eq!(state, CacheState::Valid);
    let d = resolved("cached", "\necho done");
    let r = run_derivation(&d, state, "sh".to_string(), "work/x/run".to_string());
    assert!(matches!(r, Ok(None)));
}

#[test]
fn missing_marker_reruns() {
    assert_eq!(make_dir_check_hash(true, false), CacheState::Invalid);
    assert_eq!(make_dir_check_hash(false, false), CacheState::Invalid);
    let d = resolved("fresh", "\necho run me");
    let r = run_derivation(&d, CacheState::Invalid, "sh".to_string(), "w/r".to_string());
    match r {
        Ok(Some(HPCRuntime::NoHpc(rt))) => {
            let job = rt.pending.expect("a job was submitted");
            assert_eq!(job.cmd, "echo run me");
            assert_eq!(job.shell, "sh");
            assert_eq!(job.work_dir, "w/r");
        },
        _ => panic!("an invalid cache must submit a job"),
    }
}

#[test]
fn work_directory_paths_are_hash_named() {
    let wd = work_dir_path(&"root".to_string(), &"77-x".to_string());
    assert_eq!(wd, "root/77-x/run");
    assert_eq!(command_file_path(&wd), "root/77-x/run/.cmd");
    assert_eq!(marker_file_path(&wd), "root/77-x/run/.finished");
}

#[test]
fn symlink_plan_names_links_by_hash() {
    let edges = Some(vec!["1-a".to_string(), "2-b".to_string()]);
    let plan = symlink_edges(&edges, &"root".to_string(), &"root/3-c/run".to_string());
    assert_eq!(
        plan,
        vec![
            ("root/1-a/run/out".to_string(), "root/3-c/run/1-a".to_string()),
            ("root/2-b/run/out".to_string(), "root/3-c/run/2-b".to_string()),
        ]
    );
    assert_eq!(symlink_edges(&None, &"r".to_string(), &"w".to_string()), vec![]);
}

#[test]
fn container_runtime_passes_commands_through() {
    let rt = ContainerRuntime::NoContainer(NoContainerRuntime::new());
    assert_eq!(rt.cmd("echo hi".to_string()), "echo hi");
    let bare = NoContainerRuntime::new();
    assert_eq!(bare.cmd("echo hi".to_string()), "echo hi");
}

#[test]
fn submission_records_the_job() {
    let mut rt = NoHPCRuntime::new();
    assert!(rt.pending.is_none());
    rt.submit_job("sh".to_string(), "echo x".to_string(), "wd".to_string());
    let job = rt.pending.expect("submitted");
    assert_eq!(job.cmd, "echo x");
}

#[test]
fn unrenderable_script_fails_the_job() {
    let mut d = Derivation::new(vec![
        ("name".to_string(), AttrValue::Str("bad".to_string())),
        ("script".to_string(), AttrValue::Str("one line".to_string())),
    ])
    .expect("mandatory attributes are present");
    d.set_interpolations(vec![]);
    let r = run_derivation(&d, CacheState::Invalid, "sh".to_string(), "w".to_string());
    assert!(matches!(r, Err(piper::errors::BuildError::EmptyScript)));
}

#[test]
fn safe_insert_refuses_replacement() {
    let mut m = std::collections::HashMap::new();
    assert_eq!(m.safe_insert("k".to_string(), 1), Ok(()));
    assert_eq!(m.safe_insert("k".to_string(), 2), Err(()));
    assert_eq!(m.get("k"), Some(&1));
}
