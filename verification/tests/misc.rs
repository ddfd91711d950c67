use puzzle_explorer::color::get_contrast_color;
use puzzle_explorer::examples::{builtin_examples, default_example, Example};
use puzzle_explorer::text::parse_u32;
use puzzle_explorer::types::{MeasureAxisAngleWindowState, WindowState};

#[test]
fn contrast_colors() {
    assert_eq!(get_contrast_color(255, 255, 255), "#000000");
    assert_eq!(get_contrast_color(0, 0, 0), "#ffffff");
    assert_eq!(get_contrast_color(128, 128, 128), "#000000");
    assert_eq!(get_contrast_color(127, 127, 127), "#ffffff");
    assert_eq!(get_contrast_color(0, 0, 255), "#ffffff");
    assert_eq!(get_contrast_color(218, 58, 248), "#000000");
    assert_eq!(get_contrast_color(0, 204, 68), "#ffffff");
}

#[test]
fn examples_and_default() {
    let list = [Example::new("a", b"x: 1\n"), Example::new("b", b"y: 2\n")];
    assert_eq!(default_example(&list).name, "b");
    assert_eq!(list[0].to_yaml(), Some("x: 1\n".to_string()));
    let bad = Example::new("bad", &[0xff, 0xfe]);
    assert_eq!(bad.to_yaml(), None);
}

#[test]
fn the_default_is_the_photonic_crystal() {
    let contents: [&'static [u8]; 6] = [b"a: 1\n", b"b: 2\n", b"c: 3\n", b"d: 4\n", b"e: 5\n", b"f: 6\n"];
    let list = builtin_examples(&contents);
    let names: Vec<&str> = list.iter().map(|e| e.name).collect();
    assert_eq!(
        names,
        vec!["Trapentrix", "Photonic Crystal", "Biaxe", "Undectrix", "Megaminx", "Skyglobe Ultimate"]
    );
    let d = default_example(&list);
    assert_eq!(d.name, "Photonic Crystal");
    assert_eq!(d.yaml, b"b: 2\n");
}

#[test]
fn window_defaults() {
    let w = WindowState::default();
    assert!(!w.show_controls);
    assert!(!w.show_measure_axis_angle);
    assert!(w.show_gap_console);
    let m = MeasureAxisAngleWindowState::default();
    assert!(m.axis_a.is_empty() && m.axis_b.is_empty());
}

#[test]
fn parse_u32_bounds() {
    let cs: Vec<char> = "4294967295".chars().collect();
    assert_eq!(parse_u32(&cs, 0, cs.len()), Some(4294967295));
    let cs: Vec<char> = "4294967296".chars().collect();
    assert_eq!(parse_u32(&cs, 0, cs.len()), None);
    let cs: Vec<char> = "+7".chars().collect();
    assert_eq!(parse_u32(&cs, 0, cs.len()), Some(7));
    let cs: Vec<char> = "-7".chars().collect();
    assert_eq!(parse_u32(&cs, 0, cs.len()), None);
}
