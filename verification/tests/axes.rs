use puzzle_explorer::axes::{
    axis_selection, is_axis_ok, max_iterations_cap, rename_axis_in_puzzle_params,
    strip_sub_index, sync_n_match, AxisDefinition, AxisDefinitions, AxisEntry, DerivedAxis,
    VectorRef,
};

fn s(x: &str) -> String {
    x.to_string()
}

fn def(name: &str, axis: DerivedAxis) -> AxisDefinition {
    AxisDefinition { name: s(name), axis }
}

fn defs(list: Vec<AxisDefinition>) -> AxisDefinitions {
    AxisDefinitions { definitions: list, visible_axes: vec![], resolved: vec![] }
}

fn copy_of(name: &str) -> DerivedAxis {
    DerivedAxis::Copy { axis: s(name), invert: false }
}

fn pattern(target: &str, n: u32) -> DerivedAxis {
    DerivedAxis::CircularPattern { pattern_axis: s("Z"), target_axis: s(target), n, invert_range: false }
}

fn cosine(n_a: u32, n_b: u32) -> DerivedAxis {
    DerivedAxis::CosineRule {
        p: 1,
        q: 5,
        n_a,
        n_b,
        a_axis: s("X"),
        perpendicular_axis: s("Y"),
    }
}

fn entry(name: &str, n: u32, n_match: bool) -> AxisEntry {
    AxisEntry { axis_name: s(name), n, n_match, enabled: true }
}

#[test]
fn strip_sub_index_examples() {
    assert_eq!(strip_sub_index("Trapentrix_A"), "Trapentrix");
    assert_eq!(strip_sub_index("X"), "X");
    assert_eq!(strip_sub_index("Pattern_1"), "Pattern");
    assert_eq!(strip_sub_index("a_b_2"), "a_b");
    assert_eq!(strip_sub_index("a_b"), "a_b");
    assert_eq!(strip_sub_index("a_C"), "a_C");
    assert_eq!(strip_sub_index("x_"), "x_");
    assert_eq!(strip_sub_index("x_+5"), "x");
    assert_eq!(strip_sub_index("big_4294967296"), "big_4294967296");
    assert_eq!(strip_sub_index("max_4294967295"), "max");
}

#[test]
fn output_suffixes_of_each_kind() {
    assert_eq!(pattern("X", 3).output_suffixes(), vec![s("1"), s("2"), s("3")]);
    assert_eq!(cosine(3, 3).output_suffixes(), vec![s("A"), s("B")]);
    assert!(copy_of("X").output_suffixes().is_empty());
    assert!(DerivedAxis::Vector.output_suffixes().is_empty());
}

#[test]
fn dependencies_in_order() {
    let avg = DerivedAxis::Average { axes: vec![s("A"), s("B_1")] };
    assert_eq!(avg.dependencies(), vec![s("A"), s("B_1")]);
    assert_eq!(pattern("Y", 2).dependencies(), vec![s("Z"), s("Y")]);
    assert!(DerivedAxis::Euler.dependencies().is_empty());
}

#[test]
fn variants_and_defaults() {
    for i in 0..7 {
        assert_eq!(DerivedAxis::default_for_variant(i).variant_index(), i);
    }
    assert_eq!(DerivedAxis::default_for_variant(99).variant_index(), 0);
    match DerivedAxis::default_for_variant(3) {
        DerivedAxis::CrossProduct { a0, a1 } => {
            assert_eq!(a0, "X");
            assert_eq!(a1, "Y");
        }
        _ => panic!("wrong variant"),
    }
    match DerivedAxis::default_for_variant(6) {
        DerivedAxis::CircularPattern { pattern_axis, target_axis, n, invert_range } => {
            assert_eq!(pattern_axis, "Z");
            assert_eq!(target_axis, "X");
            assert_eq!(n, 3);
            assert!(!invert_range);
        }
        _ => panic!("wrong variant"),
    }
}

#[test]
fn rename_references_replaces_exact_names() {
    let mut a = DerivedAxis::Average { axes: vec![s("A"), s("AB"), s("A")] };
    a.rename_references("A", "C");
    assert_eq!(a.dependencies(), vec![s("C"), s("AB"), s("C")]);
}

#[test]
fn generate_name_follows_the_largest_number() {
    let d = defs(vec![
        def("Axis 1", DerivedAxis::Vector),
        def("Axis 7", DerivedAxis::Vector),
        def("Other", DerivedAxis::Vector),
        def("Axis x", DerivedAxis::Vector),
    ]);
    assert_eq!(d.generate_name(), "Axis 8");
    assert_eq!(defs(vec![]).generate_name(), "Axis 1");
}

#[test]
fn unique_names() {
    let d = defs(vec![def("Cube", DerivedAxis::Vector), def("Cube 2", DerivedAxis::Vector)]);
    assert_eq!(d.make_unique_name("Cube"), "Cube 3");
    assert_eq!(d.make_unique_name("X"), "X 2");
    assert_eq!(d.make_unique_name("New"), "New");
}

#[test]
fn dependents_by_base_name() {
    let d = defs(vec![
        def("A", DerivedAxis::Vector),
        def("B", copy_of("A")),
        def("C", DerivedAxis::CrossProduct { a0: s("A_1"), a1: s("X") }),
        def("D", DerivedAxis::Average { axes: vec![s("B")] }),
    ]);
    assert_eq!(d.find_dependents("A"), vec![s("B"), s("C")]);
    assert!(d.find_dependents("D").is_empty());
    assert!(d.contains_definition("C"));
    assert!(!d.contains_definition("E"));
    assert_eq!(d.definitions_keys(), vec![s("A"), s("B"), s("C"), s("D")]);
}

#[test]
fn delete_removes_definition_and_visibility() {
    let mut d = defs(vec![def("A", DerivedAxis::Vector), def("B", copy_of("A"))]);
    d.visible_axes = vec![s("A"), s("X")];
    d.delete("A");
    assert_eq!(d.definitions_keys(), vec![s("B")]);
    assert_eq!(d.visible_axes, vec![s("X")]);
}

#[test]
fn rename_follows_references_and_outputs() {
    let mut d = defs(vec![
        def("P", pattern("X", 2)),
        def("Q", copy_of("P_2")),
        def("R", copy_of("P")),
    ]);
    d.visible_axes = vec![s("P")];
    d.do_rename("P", "S");
    assert_eq!(d.definitions_keys(), vec![s("S"), s("Q"), s("R")]);
    assert_eq!(d.definitions[1].axis.dependencies(), vec![s("S_2")]);
    assert_eq!(d.definitions[2].axis.dependencies(), vec![s("S")]);
    assert_eq!(d.visible_axes, vec![s("S")]);
}

#[test]
fn rename_with_a_repeated_name_reaches_its_first_definition_only() {
    let mut d = defs(vec![
        def("P", DerivedAxis::Vector),
        def("Q", copy_of("P")),
        def("Q", copy_of("P")),
    ]);
    d.do_rename("P", "S");
    assert_eq!(d.definitions_keys(), vec![s("S"), s("Q"), s("Q")]);
    assert_eq!(d.definitions[1].axis.dependencies(), vec![s("S")]);
    assert_eq!(d.definitions[2].axis.dependencies(), vec![s("P")]);
}

#[test]
fn rename_to_same_name_changes_nothing() {
    let mut d = defs(vec![def("P", copy_of("P"))]);
    d.do_rename("P", "P");
    assert_eq!(d.definitions_keys(), vec![s("P")]);
    assert_eq!(d.definitions[0].axis.dependencies(), vec![s("P")]);
}

#[test]
fn resolution_order_skips_cycles() {
    let d = defs(vec![
        def("A", DerivedAxis::Vector),
        def("B", copy_of("A")),
        def("C", copy_of("D")),
        def("D", copy_of("C")),
        def("E", copy_of("C")),
    ]);
    assert_eq!(d.resolution_order(), vec![0, 1]);
}

#[test]
fn resolution_order_puts_dependencies_first() {
    let d = defs(vec![def("B", copy_of("A_2")), def("A", pattern("X", 2)), def("Self", copy_of("Self"))]);
    assert_eq!(d.resolution_order(), vec![1, 0]);
}

fn resolved_defs() -> AxisDefinitions {
    let mut d = defs(vec![
        def("P", pattern("X", 2)),
        def("A", DerivedAxis::Vector),
        def("F", copy_of("F")),
        def("T", cosine(3, 5)),
    ]);
    d.resolved = vec![(s("P"), Some(2)), (s("A"), Some(1)), (s("F"), None), (s("T"), Some(2))];
    d
}

#[test]
fn available_names_list_outputs() {
    let d = resolved_defs();
    assert_eq!(
        d.available_axis_names(),
        vec![s("X"), s("Y"), s("Z"), s("P_1"), s("P_2"), s("A"), s("F"), s("T_A"), s("T_B")]
    );
}

#[test]
fn axis_names_that_resolve() {
    let d = resolved_defs();
    assert!(d.check_outputs_recorded());
    assert!(is_axis_ok("P_2", &d));
    assert!(!is_axis_ok("P_3", &d));
    assert!(is_axis_ok("A", &d));
    assert!(!is_axis_ok("P", &d));
    assert!(!is_axis_ok("", &d));
    assert!(is_axis_ok("Y", &d));
    assert!(!is_axis_ok("F", &d));
    assert!(!is_axis_ok("Q", &d));
    match d.get_resolved_vector("T_B") {
        Some(VectorRef::Output { key, index }) => {
            assert_eq!(key, "T");
            assert_eq!(index, 1);
        }
        _ => panic!("T_B is the second output of T"),
    }
    match d.get_resolved_vector("Z") {
        Some(VectorRef::Builtin(b)) => assert_eq!(b, 2),
        _ => panic!("Z is built in"),
    }
}

#[test]
fn short_resolution_is_reported() {
    let mut d = resolved_defs();
    d.resolved[0] = (s("P"), Some(1));
    assert!(!d.check_outputs_recorded());
}

#[test]
fn cosine_rule_orders() {
    let d = resolved_defs();
    assert_eq!(d.get_cosine_rule_n_for_axis("T_A"), Some(3));
    assert_eq!(d.get_cosine_rule_n_for_axis("T_B"), Some(5));
    assert_eq!(d.get_cosine_rule_n_for_axis("T_C"), None);
    assert_eq!(d.get_cosine_rule_n_for_axis("T"), None);
    assert_eq!(d.get_cosine_rule_n_for_axis("P_1"), None);
}

#[test]
fn sync_follows_cosine_rules() {
    let d = resolved_defs();
    let mut entries = vec![
        entry("T_A", 2, true),
        entry("T_B", 5, true),
        entry("Q", 4, true),
        entry("T_A", 7, false),
    ];
    assert!(sync_n_match(&d, &mut entries));
    let got: Vec<(u32, bool)> = entries.iter().map(|e| (e.n, e.n_match)).collect();
    assert_eq!(got, vec![(3, true), (5, true), (4, false), (7, false)]);
    assert!(!sync_n_match(&d, &mut entries));
}

#[test]
fn puzzle_axes_follow_a_rename() {
    let mut entries = vec![entry("P", 3, false), entry("P_2", 3, false), entry("X", 3, false)];
    rename_axis_in_puzzle_params(&mut entries, "P", "R", &vec![s("1"), s("2")]);
    let names: Vec<String> = entries.iter().map(|e| e.axis_name.clone()).collect();
    assert_eq!(names, vec![s("R"), s("R_2"), s("X")]);
}

#[test]
fn selection_skips_disabled_axes() {
    let d = resolved_defs();
    let mut off = entry("A", 3, false);
    off.enabled = false;
    let sel = axis_selection(&d, &vec![entry("A", 3, false), off, entry("nope", 2, false)]);
    assert_eq!(sel.len(), 3);
    assert!(matches!(&sel[0], Some(VectorRef::Output { index: 0, .. })));
    assert!(sel[1].is_none());
    assert!(sel[2].is_none());
}

#[test]
fn visible_lists() {
    let mut d = resolved_defs();
    d.visible_axes = vec![s("F"), s("A"), s("Y"), s("X")];
    assert_eq!(d.visible_resolved_names(), vec![s("A")]);
    assert_eq!(d.visible_builtins(), vec![0, 1]);
    assert!(d.is_visible("Y"));
    assert!(!d.is_visible("Z"));
}

#[test]
fn iteration_cap_is_at_least_one() {
    assert_eq!(max_iterations_cap(0), 1);
    assert_eq!(max_iterations_cap(30), 30);
}

#[test]
fn show_and_hide_all() {
    let mut d = defs(vec![def("A", DerivedAxis::Vector)]);
    assert!(d.show_all());
    let mut shown = d.visible_axes.clone();
    shown.sort();
    assert_eq!(shown, vec![s("A"), s("X"), s("Y"), s("Z")]);
    assert!(!d.show_all());
    assert!(d.hide_all());
    assert!(!d.hide_all());
    d.toggle_visible("A");
    assert_eq!(d.visible_axes, vec![s("A")]);
    d.toggle_visible("A");
    assert!(d.visible_axes.is_empty());
}

#[test]
fn new_axes_are_numbered_and_shown() {
    let mut d = defs(vec![def("Axis 2", DerivedAxis::Vector)]);
    let name = d.add_new_axis();
    assert_eq!(name, "Axis 3");
    assert_eq!(d.definitions_keys(), vec![s("Axis 2"), s("Axis 3")]);
    assert_eq!(d.definitions[1].axis.variant_index(), 0);
    assert_eq!(d.visible_axes, vec![s("Axis 3")]);
}

#[test]
fn moving_and_retyping() {
    let mut d = defs(vec![def("A", DerivedAxis::Vector), def("B", DerivedAxis::Euler)]);
    d.move_up(1);
    assert_eq!(d.definitions_keys(), vec![s("B"), s("A")]);
    d.set_variant("A", 5);
    assert_eq!(d.definitions[1].axis.variant_index(), 5);
    assert_eq!(d.get_cosine_rule_n_for_axis("A_B"), Some(3));
}

#[test]
fn renaming_from_the_editor() {
    let mut d = defs(vec![def("P", pattern("X", 2)), def("Q", copy_of("P_1")), def("Taken", DerivedAxis::Vector)]);
    let mut entries = vec![entry("P_2", 2, false)];
    assert!(d.apply_rename(&mut entries, "P", "   ").is_none());
    assert!(d.apply_rename(&mut entries, "P", " P ").is_none());
    assert_eq!(d.apply_rename(&mut entries, "P", " Taken "), Some(s("Taken 2")));
    assert_eq!(d.definitions_keys(), vec![s("Taken 2"), s("Q"), s("Taken")]);
    assert_eq!(d.definitions[1].axis.dependencies(), vec![s("Taken 2_1")]);
    assert_eq!(entries[0].axis_name, "Taken 2_2");
}

#[test]
fn delete_questions() {
    assert_eq!(
        puzzle_explorer::axes::delete_question(&vec![s("B")]),
        "This definition is referenced by B. Continue deleting?"
    );
    assert_eq!(
        puzzle_explorer::axes::delete_question(&vec![s("B"), s("C"), s("D")]),
        "This definition is referenced by B and 2 other(s). Continue deleting?"
    );
}

#[test]
fn axis_labels() {
    assert_eq!(puzzle_explorer::axes::axis_label(0), 'A');
    assert_eq!(puzzle_explorer::axes::axis_label(25), 'Z');
    assert_eq!(puzzle_explorer::axes::axis_label(26), '?');
}

#[test]
fn renaming_there_and_back_restores_names() {
    let mut d = defs(vec![def("A", DerivedAxis::Vector), def("B", copy_of("A"))]);
    d.do_rename("A", "Fresh");
    d.do_rename("Fresh", "A");
    assert_eq!(d.definitions_keys(), vec![s("A"), s("B")]);
    assert_eq!(d.definitions[1].axis.dependencies(), vec![s("A")]);
}

#[test]
fn output_names_strip_to_their_axis() {
    for suffix in pattern("X", 12).output_suffixes().iter().chain(cosine(3, 3).output_suffixes().iter()) {
        let full = format!("Some_name_{}", suffix);
        assert_eq!(strip_sub_index(&full), "Some_name");
    }
}

#[test]
fn generated_names_are_fresh() {
    let mut d = defs(vec![def("Axis 01", DerivedAxis::Vector), def("Axis +2", DerivedAxis::Vector)]);
    let n = d.generate_name();
    assert_eq!(n, "Axis 3");
    assert!(!d.contains_definition(&n));
    d.add_new_axis();
    assert!(!d.contains_definition(&d.generate_name()));
}

#[test]
fn resolved_set_is_closed_and_least() {
    // C depends on B which depends on a cycle D <-> E; A is free
    let d = defs(vec![
        def("A", DerivedAxis::Vector),
        def("B", copy_of("D")),
        def("C", copy_of("B")),
        def("D", copy_of("E")),
        def("E", copy_of("D")),
    ]);
    assert_eq!(d.resolution_order(), vec![0]);
}
