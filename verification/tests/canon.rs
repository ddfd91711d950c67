use puzzle_explorer::canon::{orbit_graph_hash_script, renumber_generator_for_dreadnaut};

#[test]
fn test_renumber_generator_for_dreadnaut() {
    let gen_raw = vec![vec![vec![1, 9, 3], vec![4, 3, 6]]];
    let (gen_renumbered, num_vertices) = renumber_generator_for_dreadnaut(&gen_raw);
    assert_eq!(gen_renumbered, vec![vec![vec![0, 1, 2], vec![3, 2, 4]]]);
    assert_eq!(num_vertices, 5);
}

#[test]
fn renumber_empty_generator() {
    let (g, n) = renumber_generator_for_dreadnaut(&[]);
    assert!(g.is_empty());
    assert_eq!(n, 0);
}

#[test]
fn renumber_keeps_labels_invertible() {
    let gen_raw = vec![vec![vec![7, 5]], vec![vec![5, 2, 7], vec![]]];
    let (g, n) = renumber_generator_for_dreadnaut(&gen_raw);
    assert_eq!(g, vec![vec![vec![0, 1]], vec![vec![1, 2, 0], vec![]]]);
    assert_eq!(n, 3);
}

#[test]
fn hash_script_for_three_cycle() {
    let s = orbit_graph_hash_script(&[vec![vec![0, 1, 2]]], 3);
    assert_eq!(
        s,
        "l=0\n-m\nAd\nd\nn=3 g\n0: 1;\n1: 2;\n2: 0.\nc -a\nx\nz\n"
    );
}

#[test]
fn hash_script_merges_and_sorts_neighbours() {
    let s = orbit_graph_hash_script(&[vec![vec![0, 2], vec![3]], vec![vec![0, 1], vec![0, 2]]], 4);
    assert_eq!(
        s,
        "l=0\n-m\nAd\nd\nn=4 g\n0: 1 2;\n1: 0;\n2: 0;\n3:.\nc -a\nx\nz\n"
    );
}

#[test]
fn hash_script_with_no_vertices() {
    let s = orbit_graph_hash_script(&[], 0);
    assert_eq!(s, "l=0\n-m\nAd\nd\nn=0 g\nc -a\nx\nz\n");
}

#[test]
fn hash_script_depends_on_the_edges_only() {
    let g: Vec<Vec<Vec<usize>>> = vec![vec![vec![0, 1, 2]], vec![vec![3, 4]]];
    let rotated_and_reordered: Vec<Vec<Vec<usize>>> =
        vec![vec![vec![4, 3]], vec![vec![2, 0, 1]], vec![vec![3, 4]]];
    let reversed: Vec<Vec<Vec<usize>>> = vec![vec![vec![2, 1, 0]], vec![vec![3, 4]]];
    let a = orbit_graph_hash_script(&g, 5);
    assert_eq!(a, orbit_graph_hash_script(&rotated_and_reordered, 5));
    assert_ne!(a, orbit_graph_hash_script(&reversed, 5));
}
