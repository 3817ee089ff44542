use spu::builder::{build_settings, index_document, index_line};
use spu::manifest::{parse_manifest, render_manifest};
use spu::text::{chars_of, string_of};

fn strings(items: &[&str]) -> Vec<String> {
    items.iter().map(|s| s.to_string()).collect()
}

#[test]
fn manifest_has_one_path_per_line() {
    assert_eq!(render_manifest(&strings(&["usr/bin/tool", "etc/tool.conf"])), "usr/bin/tool\netc/tool.conf\n");
    assert_eq!(render_manifest(&vec![]), "");
}

#[test]
fn manifest_is_read_line_by_line() {
    assert_eq!(parse_manifest("usr/bin/tool\netc/tool.conf\n"), strings(&["usr/bin/tool", "etc/tool.conf"]));
    assert_eq!(parse_manifest(""), Vec::<String>::new());
}

#[test]
fn empty_lines_are_passed_over() {
    assert_eq!(parse_manifest("\n\na\n\nb\n\n"), strings(&["a", "b"]));
    assert_eq!(parse_manifest("\n"), Vec::<String>::new());
}

#[test]
fn a_last_line_needs_no_line_feed() {
    assert_eq!(parse_manifest("a\nb"), strings(&["a", "b"]));
    assert_eq!(parse_manifest("a"), strings(&["a"]));
}

#[test]
fn a_written_manifest_is_read_back() {
    let paths = strings(&["usr/bin/tool", "usr/share/d\u{e9}j\u{e0} vu", "var/lib/tool"]);
    assert_eq!(parse_manifest(&render_manifest(&paths)), paths);
}

#[test]
fn index_line_pairs_a_variant_with_its_address() {
    assert_eq!(index_line(0, "QmAbc"), "0 = \"QmAbc\"\n");
    assert_eq!(index_line(7, "QmAbc"), "7 = \"QmAbc\"\n");
    assert_eq!(index_line(10, ""), "10 = \"\"\n");
    assert_eq!(index_line(1234567890, "x"), "1234567890 = \"x\"\n");
    assert_eq!(index_line(usize::MAX, "x"), format!("{} = \"x\"\n", usize::MAX));
}

#[test]
fn index_lists_the_variants_in_order() {
    assert_eq!(index_document(&strings(&["QmA", "QmB", "QmC"])), "0 = \"QmA\"\n1 = \"QmB\"\n2 = \"QmC\"\n");
    assert_eq!(index_document(&vec![]), "");
    let many: Vec<String> = (0..12).map(|i| format!("Qm{}", i)).collect();
    let text = index_document(&many);
    assert!(text.ends_with("10 = \"Qm10\"\n11 = \"Qm11\"\n"));
}

#[test]
fn settings_carry_each_choice() {
    let choices = vec![
        ("debug".to_string(), "true".to_string()),
        ("arch".to_string(), "x86_64".to_string()),
    ];
    assert_eq!(build_settings(&choices), "SPU_CONFIG_debug=true SPU_CONFIG_arch=x86_64 ");
    assert_eq!(build_settings(&vec![]), "");
}

#[test]
fn characters_of_a_string_and_back() {
    let chars = chars_of("a\u{e9}z");
    assert_eq!(chars, vec!['a', '\u{e9}', 'z']);
    assert_eq!(string_of(&chars, 1, 3), "\u{e9}z");
    assert_eq!(string_of(&chars, 2, 2), "");
    assert_eq!(chars_of(""), Vec::<char>::new());
}
