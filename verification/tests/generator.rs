use puzzle_explorer::generator::parse_generator_string;

#[test]
fn parse_generator_string_single_operation() {
    let result = parse_generator_string("[(1,2,5)(3,4)]");
    assert_eq!(result, Some(vec![vec![vec![1, 2, 5], vec![3, 4]]]));
}

#[test]
fn parse_generator_string_multiple_operations() {
    let result = parse_generator_string("[(1,2)(3,4),(5,6,9)]");
    assert_eq!(
        result,
        Some(vec![vec![vec![1, 2], vec![3, 4]], vec![vec![5, 6, 9]]])
    );
}

#[test]
fn parse_generator_string_empty_cycle() {
    let result = parse_generator_string("[(),(1,2)]");
    assert_eq!(result, Some(vec![vec![vec![]], vec![vec![1, 2]]]));
}

#[test]
fn parse_generator_string_invalid_returns_none() {
    assert_eq!(parse_generator_string(""), None);
    assert_eq!(parse_generator_string("foo"), None);
    assert_eq!(parse_generator_string("("), None);
}

#[test]
fn parse_generator_string_trims_and_skips_blank_fields() {
    let result = parse_generator_string("  [( 1 , 2 ,)(+3,4)]\n");
    assert_eq!(result, Some(vec![vec![vec![1, 2], vec![3, 4]]]));
}

#[test]
fn parse_generator_string_rejects_bad_numbers() {
    assert_eq!(parse_generator_string("[(1,x)]"), None);
    assert_eq!(parse_generator_string("[(1,-2)]"), None);
    assert_eq!(parse_generator_string("[(99999999999999999999999)]"), None);
}

#[test]
fn parse_generator_string_empty_brackets() {
    assert_eq!(parse_generator_string("[]"), Some(vec![vec![vec![]]]));
}
