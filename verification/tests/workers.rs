use puzzle_explorer::dreadnaut::{extract_hashes, DreadnautManager};
use puzzle_explorer::gap::{GapGroupResult, GapManager, GapState};
use puzzle_explorer::generator::parse_generator_string;

#[test]
fn hashes_are_read_line_by_line() {
    let out = "noise\n  [o1 00000001 00000002 00000003]  \nbad ] [\n[x]\n";
    assert_eq!(
        extract_hashes(out),
        vec!["[o1 00000001 00000002 00000003]".to_string(), "[x]".to_string()]
    );
}

#[test]
fn dreadnaut_pairs_answers_in_order() {
    let mut d = DreadnautManager::new();
    let script = d.enqueue_batch(vec![(4, "a\n".to_string()), (9, "b\n".to_string())], true);
    assert_eq!(script, Some("a\nb\n".to_string()));
    assert!(d.is_computing);
    let done = d.process_responses(vec!["[h4]".to_string()]);
    assert!(!done);
    assert_eq!(d.completed_jobs, vec![(4, "[h4]".to_string())]);
    let done = d.process_responses(vec!["[h9]".to_string(), "[extra]".to_string()]);
    assert!(done);
    assert_eq!(d.completed_jobs, vec![(4, "[h4]".to_string()), (9, "[h9]".to_string())]);
}

#[test]
fn dreadnaut_sends_nothing_without_a_worker() {
    let mut d = DreadnautManager::new();
    assert_eq!(d.enqueue_batch(vec![(1, "a\n".to_string())], false), None);
    assert_eq!(d.enqueue_batch(vec![], true), None);
    assert!(!d.is_computing);
}

#[test]
fn gap_job_round_trip() {
    let mut g = GapManager::new();
    assert_eq!(g.send_queued_command(7, "1+1;", true), None);
    g.on_ready();
    let sent = g.try_send_next_job(true).unwrap();
    assert_eq!(
        sent,
        "Print(\"---START_7---\\n\");\n1+1;\nPrint(\"---END_7---\\n\");\n"
    );
    g.on_output("echo---START_7---\n 120 \nS5\n---END_7---\n");
    assert_eq!(
        g.completed_jobs,
        vec![(7, GapGroupResult { size: "120".to_string(), structure: "S5".to_string() })]
    );
    assert!(g.current_job.is_none());
}

#[test]
fn gap_output_split_over_messages() {
    let mut g = GapManager::new();
    g.on_ready();
    g.send_queued_command(3, "x;", true).unwrap();
    g.on_output("---START_3---\n6\n");
    assert_eq!(g.current_job, Some(3));
    g.on_output("---END_3---\n");
    assert_eq!(
        g.completed_jobs,
        vec![(3, GapGroupResult { size: "6".to_string(), structure: "Unknown".to_string() })]
    );
}

#[test]
fn gap_refuses_when_not_ready() {
    let mut g = GapManager::new();
    assert_eq!(g.send_command("1;", true, true), None);
    assert!(g.output_history.ends_with("GAP not ready.\n"));
    g.on_status("loading".to_string());
    assert!(matches!(g.state, GapState::Loading(_)));
    g.on_error("boom");
    assert!(g.output_history.ends_with("ERROR: boom\n"));
}

#[test]
fn gap_group_command() {
    let cmd = GapManager::construct_group_cmd(&[vec![vec![0, 1, 2]], vec![vec![3, 4], vec![5, 6]]]);
    assert_eq!(
        cmd,
        "g := Group([(1,2,3),(4,5)(6,7)]);; Print(Size(g), \"\\n\", StructureDescription(g));"
    );
}

#[test]
fn group_command_list_parses_back_shifted() {
    let g: Vec<Vec<Vec<usize>>> =
        vec![vec![vec![0, 1, 2], vec![4, 5]], vec![vec![3], vec![]], vec![vec![17, 6]]];
    let cmd = GapManager::construct_group_cmd(&g);
    let list = &cmd[cmd.find('[').unwrap()..=cmd.find(']').unwrap()];
    let back = parse_generator_string(list).unwrap();
    let shifted: Vec<Vec<Vec<usize>>> = g
        .iter()
        .map(|op| op.iter().map(|c| c.iter().map(|x| x + 1).collect()).collect())
        .collect();
    assert_eq!(back, shifted);
}
