use puzzle_explorer::canonizer::OrbitCanonizer;

#[test]
fn generate_script_for_a_swap() {
    let mut c = OrbitCanonizer::new(&[vec![vec![1, 2]]]);
    let s = c.generate_script().unwrap();
    assert_eq!(
        s,
        "l=0\nm\nAs\nd\nn=4 g\n0: 2;\n1: 2;\n2:;\n3: 2.\nc\n-a\nx\n\"LABEL:\n\"\nb\n"
    );
}

#[test]
fn generate_script_for_a_three_cycle_keeps_both_directions() {
    let mut c = OrbitCanonizer::new(&[vec![vec![4, 8, 9]]]);
    let s = c.generate_script().unwrap();
    // pieces 0..3, midpoints 3..9, operation vertices 9 and 10
    assert_eq!(
        s,
        "l=0\nm\nAs\nd\nn=11 g\n0: 3 8;\n1: 4 7;\n2: 5 6;\n3: 1;\n4: 2;\n5: 0;\n\
         6: 1;\n7: 0;\n8: 2;\n9: 3 4 5;\n10: 6 7 8.\nc\n-a\nx\n\"LABEL:\n\"\nb\n"
    );
}

#[test]
fn process_result_reads_label_and_graph() {
    let mut c = OrbitCanonizer::new(&[vec![vec![1, 2]]]);
    let out = "junk: 1\nLABEL:\n 2 0 1 3\n  0: 2 1;\n  1: 0;\n 2: 0 ;\n3:;\n";
    assert_eq!(c.process_script_result(out), Ok(()));
    assert_eq!(c.get_relabeling(), vec![2, 0, 1, 3]);
    let g = c.get_canonical_graph();
    assert_eq!(g.len(), 4);
    assert_eq!(g[&0], vec![2, 1]);
    assert_eq!(g[&3], Vec::<usize>::new());
    assert_eq!(c.get_canonical_graph_as_string(), "0:1 2\n1:0\n2:0\n3:\n");
}

#[test]
fn process_result_without_marker() {
    let mut c = OrbitCanonizer::new(&[]);
    assert_eq!(
        c.process_script_result("0 1 2\n"),
        Err("LABEL: not found in output".to_string())
    );
}

#[test]
fn process_result_without_label() {
    let mut c = OrbitCanonizer::new(&[]);
    assert_eq!(
        c.process_script_result("LABEL:\n0: 1;\n"),
        Err("could not parse canonical label".to_string())
    );
    assert!(c.get_relabeling().is_empty());
}

#[test]
fn hash_matches_blake3_of_graph_text() {
    let mut c = OrbitCanonizer::new(&[]);
    c.process_script_result("LABEL:\n1 0\n0: 1;\n1: 0;\n").unwrap();
    let text = c.get_canonical_graph_as_string();
    assert_eq!(text, "0:1\n1:0\n");
    let h = blake3::hash(text.as_bytes());
    let b = h.as_bytes();
    let expected = format!(
        "[o1 {:08x} {:08x} {:08x}]",
        u32::from_be_bytes([b[0], b[1], b[2], b[3]]),
        u32::from_be_bytes([b[4], b[5], b[6], b[7]]),
        u32::from_be_bytes([b[8], b[9], b[10], b[11]]),
    );
    assert_eq!(c.get_hash(), expected);
}
