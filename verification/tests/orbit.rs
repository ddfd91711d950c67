use puzzle_explorer::orbit::{
    analyze_orbits, connected_orbits, face_orbit_indices, link_pieces, perm_cycles, OrbitError,
};

#[test]
fn orbits_are_connected_components_in_order() {
    let adj = vec![vec![1], vec![0], vec![3], vec![2], vec![]];
    assert_eq!(connected_orbits(&adj), vec![vec![0, 1], vec![2, 3], vec![4]]);
}

#[test]
fn orbit_members_are_sorted() {
    let adj = vec![vec![2], vec![], vec![0, 3], vec![2]];
    assert_eq!(connected_orbits(&adj), vec![vec![0, 2, 3], vec![1]]);
}

#[test]
fn no_pieces_no_orbits() {
    let adj: Vec<Vec<usize>> = vec![];
    assert!(connected_orbits(&adj).is_empty());
}

#[test]
fn cycles_use_positions_in_the_orbit() {
    let perm = vec![1, 2, 0, 4, 3];
    assert_eq!(perm_cycles(&perm, &vec![0, 1, 2]), vec![vec![0, 1, 2]]);
    assert_eq!(perm_cycles(&perm, &vec![3, 4]), vec![vec![0, 1]]);
}

#[test]
fn cycles_stop_where_the_move_leaves_the_orbit() {
    let perm = vec![1, 2, 0];
    assert_eq!(perm_cycles(&perm, &vec![0, 1]), vec![vec![0, 1]]);
}

#[test]
fn fixed_pieces_make_no_cycle() {
    let perm = vec![0, 2, 1];
    assert_eq!(perm_cycles(&perm, &vec![0, 1, 2]), vec![vec![1, 2]]);
}

#[test]
fn links_go_both_ways_once() {
    let matches = vec![vec![Some(1), None, Some(0)], vec![Some(1), Some(0), None]];
    assert_eq!(link_pieces(3, &matches), vec![vec![1, 2], vec![0], vec![0]]);
}

fn three_cycle() -> Vec<Vec<Option<usize>>> {
    vec![
        vec![Some(1), Some(2), Some(0), Some(3)],
        vec![Some(2), Some(0), Some(1), Some(3)],
    ]
}

#[test]
fn analysis_of_a_three_cycle() {
    let r = analyze_orbits(4, &vec![3], &three_cycle(), false);
    let s = match r {
        Ok(s) => s,
        Err(_) => panic!("analysis failed"),
    };
    assert_eq!(s.orbits, vec![vec![0, 1, 2], vec![3]]);
    assert_eq!(s.generators, vec![vec![vec![vec![0, 1, 2]]], vec![]]);
    assert!(s.degenerate_faces.is_empty());
}

#[test]
fn analysis_reports_a_cycle_length_mismatch() {
    let r = analyze_orbits(4, &vec![2], &three_cycle(), false);
    match r {
        Err(e) => {
            match &e {
                OrbitError::CycleLengthMismatch { expected, axis } => {
                    assert_eq!(*expected, 2);
                    assert_eq!(*axis, 0);
                }
            }
            assert_eq!(
                e.message(),
                "Orbit Cycle Length mismatch: expected cycle length of 2 for axis 0."
            );
        }
        Ok(_) => panic!("expected a mismatch"),
    }
}

#[test]
fn fudged_analysis_sets_mismatched_orbits_aside() {
    let r = analyze_orbits(4, &vec![2], &three_cycle(), true);
    let s = match r {
        Ok(s) => s,
        Err(_) => panic!("fudged analysis fails only on nothing"),
    };
    assert_eq!(s.orbits, vec![vec![3]]);
    assert_eq!(s.generators, vec![Vec::<Vec<Vec<usize>>>::new()]);
    assert_eq!(s.degenerate_faces, vec![0, 1, 2]);
}

#[test]
fn fudged_analysis_keeps_every_axis() {
    // axis 1 does not move the orbit at all
    let matches = vec![
        vec![Some(1), Some(0)],
        vec![Some(1), Some(0)],
        vec![None, None],
        vec![None, None],
    ];
    let s = match analyze_orbits(2, &vec![2, 5], &matches, true) {
        Ok(s) => s,
        Err(_) => panic!("no mismatch here"),
    };
    assert_eq!(s.generators, vec![vec![vec![vec![0, 1]], vec![]]]);
    let plain = match analyze_orbits(2, &vec![2, 5], &matches, false) {
        Ok(s) => s,
        Err(_) => panic!("no mismatch here"),
    };
    assert_eq!(plain.generators, vec![vec![vec![vec![0, 1]]]]);
}

#[test]
fn no_pieces_give_an_empty_analysis() {
    let matches: Vec<Vec<Option<usize>>> = vec![vec![], vec![]];
    let s = match analyze_orbits(0, &vec![3], &matches, false) {
        Ok(s) => s,
        Err(_) => panic!("nothing to mismatch"),
    };
    assert!(s.orbits.is_empty() && s.generators.is_empty() && s.degenerate_faces.is_empty());
}

#[test]
fn each_face_gets_its_orbit() {
    let orbits = vec![vec![0, 1], vec![2, 3], vec![4]];
    assert_eq!(
        face_orbit_indices(6, &orbits),
        vec![Some(0), Some(0), Some(1), Some(1), Some(2), None]
    );
}

#[test]
fn error_message_formats_large_numbers() {
    let e = OrbitError::CycleLengthMismatch { expected: 120, axis: 17 };
    assert_eq!(
        e.message(),
        "Orbit Cycle Length mismatch: expected cycle length of 120 for axis 17."
    );
}

#[test]
fn orbits_partition_the_pieces() {
    let adj = vec![vec![3], vec![2], vec![1, 4], vec![0], vec![2], vec![]];
    let orbits = connected_orbits(&adj);
    let mut seen = vec![0; 6];
    for o in &orbits {
        for &p in o {
            seen[p] += 1;
            for &q in &adj[p] {
                assert!(o.contains(&q));
            }
        }
    }
    assert_eq!(seen, vec![1; 6]);
}

#[test]
fn cycles_are_disjoint_positions() {
    let perm = vec![1, 0, 3, 4, 2, 5];
    let cycles = perm_cycles(&perm, &vec![0, 1, 2, 3, 4, 5]);
    assert_eq!(cycles, vec![vec![0, 1], vec![2, 3, 4]]);
}
