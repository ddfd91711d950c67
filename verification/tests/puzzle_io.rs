use puzzle_explorer::puzzle_io::{
    check_imported_version, download_file_name, edited_puzzle_name, export_base_name,
    import_base_name, import_puzzle_name, window_title,
    transform_import_yaml, PUZZLE_FORMAT_VERSION,
};

#[test]
fn current_version_passes_and_is_written_back() {
    let out = transform_import_yaml("version: 1\nname: cube\n").unwrap();
    assert!(out.contains("version: 1"));
    assert!(out.contains("name: cube"));
}

#[test]
fn other_versions_are_refused() {
    assert_eq!(
        transform_import_yaml("version: 2\n"),
        Err("Puzzle definition version 2 is not supported".to_string())
    );
}

#[test]
fn missing_version_is_unreadable() {
    assert_eq!(
        transform_import_yaml("name: cube\n"),
        Err("Could not read imported puzzle version".to_string())
    );
    assert_eq!(
        transform_import_yaml("version: one\n"),
        Err("Could not read imported puzzle version".to_string())
    );
}

#[test]
fn documents_that_are_not_mappings_pass() {
    let out = transform_import_yaml("- 1\n- 2\n").unwrap();
    assert!(out.contains("- 1"));
}

#[test]
fn unparsable_documents_are_refused() {
    assert!(transform_import_yaml("a: [").is_err());
}

#[test]
fn version_check_answers() {
    assert_eq!(check_imported_version(None), Ok(()));
    assert_eq!(check_imported_version(Some(Some(PUZZLE_FORMAT_VERSION as u64))), Ok(()));
    assert_eq!(
        check_imported_version(Some(None)),
        Err("Could not read imported puzzle version".to_string())
    );
    assert_eq!(
        check_imported_version(Some(Some(18446744073709551615))),
        Err("Puzzle definition version 18446744073709551615 is not supported".to_string())
    );
}

#[test]
fn file_names() {
    assert_eq!(download_file_name("cube"), "cube.yml");
    assert_eq!(import_base_name("a.yml"), "a");
    assert_eq!(import_base_name("b.yaml"), "b");
    assert_eq!(import_base_name("c.txt"), "c.txt");
    assert_eq!(import_base_name("x.yml.yaml"), "x.yml");
    assert_eq!(import_base_name(".yml"), "");
}

#[test]
fn imported_names() {
    assert_eq!(import_puzzle_name(Some("Cube".to_string()), "file".to_string()), "Cube");
    assert_eq!(import_puzzle_name(Some("  \t".to_string()), "file".to_string()), "file");
    assert_eq!(import_puzzle_name(None, "file".to_string()), "file");
}

#[test]
fn menu_names_and_titles() {
    assert_eq!(export_base_name(&None), "puzzle");
    assert_eq!(export_base_name(&Some("Cube".to_string())), "Cube");
    assert_eq!(edited_puzzle_name(Some("Old".to_string()), "  New  "), Some("New".to_string()));
    assert_eq!(edited_puzzle_name(Some("Old".to_string()), "   "), Some("Old".to_string()));
    assert_eq!(edited_puzzle_name(None, ""), None);
    assert_eq!(window_title(""), "Puzzle Explorer");
    assert_eq!(window_title("Cube"), "Puzzle Explorer - Cube");
}
