use domtree::render::create_tree;
use domtree::render::parse_kind;
use domtree::render::NodeKind;
use domtree::text::count_char;
use domtree::text::join_with;
use domtree::text::reverse_strings;
use domtree::text::split_on_str;
use domtree::text::str_eq;
use domtree::order::chars_lt_str;
use domtree::order::domain_le_vec;
use domtree::order::sort_domains;

fn names(list: &[&str]) -> Vec<String> {
    list.iter().map(|s| s.to_string()).collect()
}

#[test]
fn round_trip_example_com() {
    let out = create_tree(names(&["api.example.com", "www.example.com", "example.com"]), false);
    assert_eq!(out, "example.com\n├─api.example.com\n└─www.example.com");
}

#[test]
fn shared_suffix_single_node() {
    let out = create_tree(names(&["api.example.com", "www.example.com"]), false);
    assert_eq!(out, "example.com\n├─api.example.com\n└─www.example.com");
    assert_eq!(out.lines().count(), 3);
    assert_eq!(out.lines().filter(|l| *l == "example.com").count(), 1);
}

#[test]
fn last_child_gets_corner_glyph() {
    let out = create_tree(names(&["a.x.com", "b.x.com"]), false);
    assert_eq!(out, "x.com\n├─a.x.com\n└─b.x.com");
}

#[test]
fn empty_input_renders_empty() {
    let out = create_tree(Vec::new(), false);
    assert_eq!(out, "");
    let colored = create_tree(Vec::new(), true);
    assert_eq!(colored, "");
}

#[test]
fn rendering_is_idempotent() {
    let input = ["a.x.com", "b.x.com", "x.com", "q.b.x.com"];
    let first = create_tree(names(&input), false);
    let second = create_tree(names(&input), false);
    assert_eq!(first, second);
    let first_colored = create_tree(names(&input), true);
    let second_colored = create_tree(names(&input), true);
    assert_eq!(first_colored, second_colored);
}

#[test]
fn duplicates_collapse() {
    let out = create_tree(names(&["x.com", "x.com"]), false);
    assert_eq!(out, "x.com");
}

#[test]
fn indentation_under_last_child() {
    let out = create_tree(names(&["a.b.x.com", "c.x.com"]), false);
    assert_eq!(out, "x.com\n├─c.x.com\n└─b.x.com\n      └─a.b.x.com");
}

#[test]
fn indentation_under_middle_child() {
    let out = create_tree(names(&["a.b.x.com", "b.x.com", "z.x.com"]), false);
    assert_eq!(out, "x.com\n├─b.x.com\n│   └─a.b.x.com\n└─z.x.com");
}

#[test]
fn multiple_roots_in_creation_order() {
    let out = create_tree(names(&["a.com", "b.org"]), false);
    assert_eq!(out, "a.com\nb.org");
}

#[test]
fn bare_top_level_label_not_rendered() {
    let out = create_tree(names(&["com", "example.com"]), false);
    assert_eq!(out, "example.com");
}

#[test]
fn single_label_only_renders_empty() {
    let out = create_tree(names(&["com"]), false);
    assert_eq!(out, "");
}

#[test]
fn leading_dot_keeps_empty_label() {
    let out = create_tree(names(&[".com"]), false);
    assert_eq!(out, ".com");
}

#[test]
fn colored_single_child() {
    let out = create_tree(names(&["a.x.com"]), true);
    assert_eq!(out, "\x1b[91mx.com\x1b[0m\n\x1b[91m\x1b[92m└─a.x.com\x1b[0m");
}

#[test]
fn color_cycles_after_six_levels() {
    let out = create_tree(names(&["a.b.c.d.e.f.g.h"]), true);
    let lines: Vec<&str> = out.lines().collect();
    assert_eq!(lines.len(), 7);
    // depth 0 uses the first color of the cycle
    assert!(lines[0].starts_with("\x1b[91m"));
    // depth 6 cycles back to the same color directly before its glyph
    assert!(lines[6].ends_with("\x1b[91m└─a.b.c.d.e.f.g.h\x1b[0m"));
    // depth 1 uses the second color
    assert!(lines[1].ends_with("\x1b[92m└─f.g.h\x1b[0m"));
}

#[test]
fn color_flag_off_is_plain() {
    let out = create_tree(names(&["a.x.com"]), false);
    assert!(!out.contains('\x1b'));
    assert_eq!(out, "x.com\n└─a.x.com");
}

#[test]
fn parse_kind_accepts_the_three_names() {
    assert!(matches!(parse_kind("default"), Ok(NodeKind::Default)));
    assert!(matches!(parse_kind("last"), Ok(NodeKind::Last)));
    assert!(matches!(parse_kind("root"), Ok(NodeKind::Root)));
    assert!(matches!(parse_kind("Default"), Err(())));
    assert!(matches!(parse_kind(""), Err(())));
}

#[test]
fn node_kind_from_str_trait() {
    let parsed: Result<NodeKind, ()> = "last".parse();
    assert!(matches!(parsed, Ok(NodeKind::Last)));
    let bad: Result<NodeKind, ()> = "corner".parse();
    assert!(matches!(bad, Err(())));
}

#[test]
fn split_keeps_empty_labels() {
    let parts = split_on_str("a.b", '.');
    assert_eq!(parts, vec!["a".to_string(), "b".to_string()]);
    let dotted = split_on_str(".com", '.');
    assert_eq!(dotted, vec!["".to_string(), "com".to_string()]);
    let lone = split_on_str("", '.');
    assert_eq!(lone, vec!["".to_string()]);
}

#[test]
fn join_inverts_split() {
    let parts = split_on_str("api.example.com", '.');
    let joined = join_with(&parts, ".");
    assert_eq!(joined, "api.example.com");
}

#[test]
fn string_helpers() {
    assert!(str_eq("abc", "abc"));
    assert!(!str_eq("abc", "abd"));
    assert!(!str_eq("abc", "ab"));
    assert!(chars_lt_str("abc", "abd"));
    assert!(chars_lt_str("ab", "abc"));
    assert!(!chars_lt_str("abc", "abc"));
    assert_eq!(count_char("a.b.c", '.'), 2);
    assert_eq!(count_char("abc", '.'), 0);
    let rev = reverse_strings(&names(&["com", "example", "api"]));
    assert_eq!(rev, vec!["api".to_string(), "example".to_string(), "com".to_string()]);
}

#[test]
fn sort_is_by_length_then_lex() {
    let sorted = sort_domains(vec![
        names(&["com", "example", "api"]),
        names(&["com", "example"]),
        names(&["com", "a"]),
    ]);
    assert_eq!(
        sorted,
        vec![names(&["com", "a"]), names(&["com", "example"]), names(&["com", "example", "api"])]
    );
    assert!(domain_le_vec(&names(&["com", "a"]), &names(&["com", "example", "api"])));
    assert!(!domain_le_vec(&names(&["com", "b"]), &names(&["com", "a"])));
    assert!(domain_le_vec(&names(&["com", "a"]), &names(&["com", "a"])));
}
