use puzzle_explorer::gap::GapGroupResult;
use puzzle_explorer::pipeline::{post_action, GroupJobs, GroupView, PostAction};

fn analysis() -> (Vec<Option<usize>>, Vec<Vec<Vec<Vec<usize>>>>) {
    // orbit 0: pieces 0, 1; orbit 1: piece 2; orbit 2: pieces 3, 4 without a generator
    let fo = vec![Some(0), Some(0), Some(1), Some(2), Some(2)];
    let gens = vec![vec![vec![vec![0, 1]]], vec![], vec![]];
    (fo, gens)
}

#[test]
fn orbits_with_generators_get_requests() {
    let mut jobs = GroupJobs::new();
    let (fo, gens) = analysis();
    let batch = jobs.on_orbits_computed(&fo, &gens);
    assert_eq!(batch.len(), 1);
    assert_eq!(batch[0].0, 1);
    assert_eq!(batch[0].1, "l=0\n-m\nAd\nd\nn=2 g\n0: 1;\n1: 0.\nc -a\nx\nz\n");
    assert_eq!(jobs.request_counter, 1);
    assert_eq!(jobs.pending_dreadnaut.get(&1), Some(&(0, 0)));
    assert!(!jobs.groups_settled());
}

#[test]
fn labels_lead_to_group_commands_once() {
    let mut jobs = GroupJobs::new();
    let (fo, gens) = analysis();
    jobs.on_orbits_computed(&fo, &gens);
    jobs.on_dreadnaut_result(1, "[o1 a b c]".to_string(), true, Some(&gens));
    assert_eq!(jobs.orbit_hashes.get(&0), Some(&"[o1 a b c]".to_string()));
    assert!(jobs.pending_dreadnaut.is_empty());
    assert_eq!(jobs.pending_gap.get(&2), Some(&"[o1 a b c]".to_string()));
    let cmd = jobs.pop_current_command().unwrap();
    assert_eq!(cmd.0, 2);
    assert_eq!(
        cmd.1,
        "g := Group([(1,2)]);; Print(Size(g), \"\\n\", StructureDescription(g));"
    );
    jobs.on_gap_result(
        2,
        GapGroupResult { size: "2".to_string(), structure: "C2".to_string() },
    );
    assert!(jobs.groups_settled());
    assert_eq!(jobs.gap_cache.len(), 1);
    assert_eq!(jobs.gap_cache[0].0, "[o1 a b c]");
    assert_eq!(jobs.gap_cache[0].1.as_ref().unwrap().structure, "C2");
    // the same label again asks nothing of GAP
    jobs.on_orbits_computed(&fo, &gens);
    jobs.on_dreadnaut_result(3, "[o1 a b c]".to_string(), true, Some(&gens));
    assert!(jobs.pending_gap.is_empty());
    assert!(jobs.pop_current_command().is_none());
}

#[test]
fn answers_for_an_old_geometry_are_dropped() {
    let mut jobs = GroupJobs::new();
    let (fo, gens) = analysis();
    jobs.on_orbits_computed(&fo, &gens);
    jobs.on_geometry_computed();
    jobs.on_dreadnaut_result(1, "[h]".to_string(), true, Some(&gens));
    assert!(jobs.orbit_hashes.is_empty());
    assert_eq!(jobs.pending_dreadnaut.len(), 1);
    assert!(jobs.pending_gap.is_empty());
}

#[test]
fn unknown_answers_are_dropped() {
    let mut jobs = GroupJobs::new();
    jobs.on_dreadnaut_result(9, "[h]".to_string(), true, None);
    assert!(jobs.orbit_hashes.is_empty());
    jobs.on_gap_result(9, GapGroupResult { size: "1".to_string(), structure: "1".to_string() });
    assert!(jobs.gap_cache.is_empty());
}

#[test]
fn stale_commands_are_skipped() {
    let mut jobs = GroupJobs::new();
    jobs.trickle.push_back((0, 5, "old".to_string()));
    jobs.on_geometry_computed();
    jobs.trickle.push_back((1, 6, "new".to_string()));
    jobs.trickle.push_back((1, 7, "next".to_string()));
    assert_eq!(jobs.pop_current_command(), Some((6, "new".to_string())));
    assert_eq!(jobs.trickle.len(), 1);
    jobs.reset_gap();
    assert!(jobs.pop_current_command().is_none());
}

#[test]
fn posting_requests() {
    assert!(matches!(post_action(false, false, false), PostAction::Send));
    assert!(matches!(post_action(true, true, false), PostAction::Queue));
    assert!(matches!(post_action(true, true, true), PostAction::RestartAndSend));
    assert!(matches!(post_action(true, false, true), PostAction::Send));
}

#[test]
fn group_views() {
    let mut jobs = GroupJobs::new();
    assert!(matches!(jobs.orbit_group_view(0), GroupView::LabelPending));
    jobs.orbit_hashes.insert(0, "[h]".to_string());
    match jobs.orbit_group_view(0) {
        GroupView::Label { hash, entry } => {
            assert_eq!(hash, "[h]");
            assert_eq!(entry, None);
        }
        _ => panic!("label expected"),
    }
    jobs.gap_cache.push(("[h]".to_string(), None));
    match jobs.orbit_group_view(0) {
        GroupView::Label { entry, .. } => assert_eq!(entry, Some(0)),
        _ => panic!("label expected"),
    }
}
