use ingestd::dispatch::{admit_candidate, finish_unit, run_sequential, DispatchConfig, UnitPlan};
use ingestd::signal::SignalDataIntern;
use ingestd::store::{
    handle_dbres, handle_yn, hashes_algorithms, open_algo_tree, record_decision, store_contains,
    tree_len, Decision,
};

fn temp_db() -> sled::Db {
    sled::Config::new().temporary(true).open().expect("temporary store")
}

fn cfg(max: Option<u64>) -> DispatchConfig {
    DispatchConfig {
        max_filesize: max,
        use_mp: false,
        suppress_logmsgs: false,
        store_failure_limit: Some(8),
    }
}

fn unit(size: u64, fp: &[u8], hook_ok: bool) -> UnitPlan {
    UnitPlan { size: Some(size), fingerprint: fp.to_vec(), hook_ok, interrupt: false }
}

#[test]
fn decision_translation() {
    let mut db = temp_db();
    let mut tree = open_algo_tree(&mut db, b"blake2b").unwrap();
    let fp = b"fingerprint-1";
    assert!(!store_contains(&tree, fp).unwrap());
    record_decision(&mut tree, fp, Decision::Accepted).unwrap();
    assert!(store_contains(&tree, fp).unwrap());
    record_decision(&mut tree, fp, Decision::Rejected).unwrap();
    assert!(!store_contains(&tree, fp).unwrap());
}

#[test]
fn confirmation_recorded() {
    let mut db = temp_db();
    let mut tree = open_algo_tree(&mut db, b"blake2b").unwrap();
    let key = b"key-1";
    assert_eq!(handle_yn(&mut tree, key, "yes"), Some(()));
    assert!(store_contains(&tree, key).unwrap());
    assert_eq!(handle_yn(&mut tree, key, "No"), Some(()));
    assert!(!store_contains(&tree, key).unwrap());
    // an unknown specifier changes nothing
    assert_eq!(handle_yn(&mut tree, key, "maybe"), None);
    assert!(!store_contains(&tree, key).unwrap());
}

#[test]
fn hash_trees_enumerated() {
    let mut db = temp_db();
    open_algo_tree(&mut db, b"blake2b").unwrap();
    open_algo_tree(&mut db, b"sha256").unwrap();
    // a tree without the reserved prefix is not enumerated
    db.open_tree(b"bookkeeping").unwrap();
    let mut algos = hashes_algorithms(&db);
    algos.sort();
    assert_eq!(algos, vec![b"blake2b".to_vec(), b"sha256".to_vec()]);
}

#[test]
fn hash_trees_visited_with_contents() {
    let mut db = temp_db();
    let mut t1 = open_algo_tree(&mut db, b"blake2b").unwrap();
    record_decision(&mut t1, b"fp-1", Decision::Accepted).unwrap();
    open_algo_tree(&mut db, b"sha256").unwrap();
    let pairs = ingestd::store::foreach_hashes_tree(&mut db).unwrap();
    assert_eq!(pairs.len(), 2);
    let mut names: Vec<Vec<u8>> = pairs.iter().map(|(n, _)| n.clone()).collect();
    names.sort();
    assert_eq!(names, vec![b"blake2b".to_vec(), b"sha256".to_vec()]);
    for (name, tree) in &pairs {
        let expect = if name == b"blake2b" { 1 } else { 0 };
        assert_eq!(tree_len(tree).unwrap(), expect);
    }
}

#[test]
fn size_ceiling() {
    // over the ceiling is skipped, exactly the ceiling is processed
    assert!(!admit_candidate(&Some(10), &Some(11)));
    assert!(admit_candidate(&Some(10), &Some(10)));
    assert!(admit_candidate(&None, &Some(u64::MAX)));
    // unreadable (no stat result) is skipped
    assert!(!admit_candidate(&None, &None));

    let mut db = temp_db();
    let mut tree = open_algo_tree(&mut db, b"blake2b").unwrap();
    let units = vec![unit(11, b"fp-big", true), unit(10, b"fp-ok", true)];
    let (_, outcome) = run_sequential(&mut tree, SignalDataIntern::new(), &cfg(Some(10)), &units);
    assert_eq!(outcome.store_failures, 0);
    assert_eq!(outcome.hook_invocations, 1);
    assert!(!store_contains(&tree, b"fp-big").unwrap());
    assert!(store_contains(&tree, b"fp-ok").unwrap());
}

#[test]
fn duplicate_listing_single_hook() {
    let mut db = temp_db();
    let mut tree = open_algo_tree(&mut db, b"blake2b").unwrap();
    let units = vec![unit(5, b"same-content", true), unit(5, b"same-content", true)];
    let (_, outcome) = run_sequential(&mut tree, SignalDataIntern::new(), &cfg(None), &units);
    assert_eq!(outcome.store_failures, 0);
    assert!(!outcome.gave_up);
    assert_eq!(outcome.hook_invocations, 1);
    assert!(store_contains(&tree, b"same-content").unwrap());
}

#[test]
fn second_run_is_dedup_hit() {
    let mut db = temp_db();
    let mut tree = open_algo_tree(&mut db, b"blake2b").unwrap();
    let units = vec![unit(5, b"content-a", true), unit(7, b"content-b", true)];
    let sig = SignalDataIntern::new();
    let (sig, first) = run_sequential(&mut tree, sig, &cfg(None), &units);
    assert_eq!(first.hook_invocations, 2);
    let (_, second) = run_sequential(&mut tree, sig, &cfg(None), &units);
    assert_eq!(second.store_failures, 0);
    assert_eq!(second.hook_invocations, 0);
}

#[test]
fn failed_hook_leaves_no_record_and_retries() {
    let mut db = temp_db();
    let mut tree = open_algo_tree(&mut db, b"blake2b").unwrap();
    let failing = vec![unit(5, b"content-c", false)];
    let (sig, first) = run_sequential(&mut tree, SignalDataIntern::new(), &cfg(None), &failing);
    assert_eq!(first.hook_invocations, 1);
    assert!(!store_contains(&tree, b"content-c").unwrap());
    // the next run retries the same content
    let ok = vec![unit(5, b"content-c", true)];
    let (_, second) = run_sequential(&mut tree, sig, &cfg(None), &ok);
    assert_eq!(second.hook_invocations, 1);
    assert!(store_contains(&tree, b"content-c").unwrap());
}

#[test]
fn interrupt_mid_unit_is_deferred() {
    let mut db = temp_db();
    let mut tree = open_algo_tree(&mut db, b"blake2b").unwrap();
    let sig = SignalDataIntern::new();
    assert!(sig.is_ctrlc_armed());
    let mut guard = sig.disarm_aquire();
    assert!(!guard.got_ctrlc());
    // the interrupt arrives while the guard is held: deferred, not fatal
    guard.request_interrupt();
    assert!(guard.got_ctrlc());
    // the unit still completes: the hook ran (successfully) and the
    // decision is recorded before the loop reacts to the interrupt
    let (sig, stop, wres) = finish_unit(&mut tree, guard, b"mid-unit", true);
    assert!(wres.is_ok());
    assert!(stop);
    assert!(store_contains(&tree, b"mid-unit").unwrap());
    // the guard release re-armed the state and cleared the pending flag
    assert!(sig.is_ctrlc_armed());
    assert!(!sig.got_ctrlc());
}

#[test]
fn interrupted_run_stops_gracefully() {
    let mut db = temp_db();
    let mut tree = open_algo_tree(&mut db, b"blake2b").unwrap();
    let mut units = vec![unit(5, b"done-before-stop", true), unit(5, b"never-reached", true)];
    units[0].interrupt = true;
    let (sig, outcome) = run_sequential(&mut tree, SignalDataIntern::new(), &cfg(None), &units);
    assert_eq!(outcome.store_failures, 0);
    assert!(outcome.stopped_early);
    assert_eq!(outcome.hook_invocations, 1);
    // the interrupted unit's decision was fully applied, the next unit
    // was never started
    assert!(store_contains(&tree, b"done-before-stop").unwrap());
    assert!(!store_contains(&tree, b"never-reached").unwrap());
    assert!(sig.is_ctrlc_armed());
    assert!(!sig.got_ctrlc());
}

#[test]
fn end_to_end_scenario() {
    // listing: a.txt (10 bytes), b.txt (10 bytes, same content as a.txt),
    // c.txt (5 MB, over the 1 MB ceiling)
    let fp_ab = b"digest-of-shared-content";
    let fp_c = b"digest-never-computed";
    let units = vec![
        unit(10, fp_ab, true),
        unit(10, fp_ab, true),
        unit(5 * 1024 * 1024, fp_c, true),
    ];
    let mut db = temp_db();
    let mut tree = open_algo_tree(&mut db, b"blake2b").unwrap();
    let (_, outcome) =
        run_sequential(&mut tree, SignalDataIntern::new(), &cfg(Some(1024 * 1024)), &units);
    assert_eq!(outcome.store_failures, 0);
    assert!(!outcome.gave_up);
    // the hook ran exactly once, for whichever of a/b came first
    assert_eq!(outcome.hook_invocations, 1);
    assert!(!outcome.stopped_early);
    // the tree holds exactly one fingerprint, the shared one
    assert_eq!(tree_len(&tree).unwrap(), 1);
    assert!(store_contains(&tree, fp_ab).unwrap());
    assert!(!store_contains(&tree, fp_c).unwrap());
}

#[test]
fn signal_state_protocol() {
    let mut sig = SignalDataIntern::new();
    assert!(sig.is_ctrlc_armed());
    assert!(!sig.got_ctrlc());
    // armed: the handler must terminate the process
    assert!(sig.handle_ctrlc());
    // disarmed directly: the handler only records the interrupt
    sig.set_ctrlc_armed(false);
    assert!(!sig.handle_ctrlc());
    assert!(sig.got_ctrlc());
    // re-arming consumes the pending flag
    sig.set_ctrlc_armed(true);
    assert!(!sig.got_ctrlc());
}

#[test]
fn dbres_drops_error() {
    let mut db = temp_db();
    let mut tree = open_algo_tree(&mut db, b"blake2b").unwrap();
    let ok = record_decision(&mut tree, b"k", Decision::Accepted);
    assert_eq!(handle_dbres(ok), Some(()));
    let err: Result<(), sled::Error> = Err(sled::Error::Unsupported("nope".to_string()));
    assert_eq!(handle_dbres(err), None);
}
