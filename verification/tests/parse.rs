use tree2tui::arena::Arena;
use tree2tui::builder::ParseError;
use tree2tui::builder::parse_tree;
use tree2tui::classify::Config;
use tree2tui::classify::classify_line;
use tree2tui::fold::resolve_children;

fn glyph_pattern() -> Vec<u8> {
    "[│\\s]*([├└]─*\\s*)".as_bytes().to_vec()
}

fn config(pattern: &str, anchor_group: usize, data_group: Option<usize>) -> Config {
    Config {
        pattern: pattern.as_bytes().to_vec(),
        anchor_group,
        data_group,
        skip_lines: 0,
        treat_first_nonmatch_as_heading: true,
        fold_duplicates: false,
    }
}

fn glyph_config() -> Config {
    Config {
        pattern: glyph_pattern(),
        anchor_group: 1,
        data_group: None,
        skip_lines: 0,
        treat_first_nonmatch_as_heading: true,
        fold_duplicates: false,
    }
}

fn to_lines(v: &[&str]) -> Vec<Vec<u8>> {
    v.iter().map(|s| s.as_bytes().to_vec()).collect()
}

fn label_of(arena: &Arena, handle: usize) -> String {
    String::from_utf8(arena.label(handle).clone()).unwrap()
}

#[test]
fn nested_glyph_scenario() {
    let cfg = glyph_config();
    let input = to_lines(&["root", "├─ a", "│  └─ b", "└─ c"]);
    let (arena, root) = parse_tree(&cfg, &input).unwrap();
    assert_eq!(root, 0);
    assert_eq!(arena.len(), 4);
    assert_eq!(label_of(&arena, 0), "root");
    assert_eq!(arena.child_handles(0), &vec![1, 3]);
    assert_eq!(label_of(&arena, 1), "a");
    assert_eq!(arena.child_handles(1), &vec![2]);
    assert_eq!(label_of(&arena, 2), "b");
    assert!(arena.child_handles(2).is_empty());
    assert_eq!(label_of(&arena, 3), "c");
    assert!(arena.child_handles(3).is_empty());
    assert_eq!(arena.parent_of(0), None);
    assert_eq!(arena.parent_of(1), Some(0));
    assert_eq!(arena.parent_of(2), Some(1));
    assert_eq!(arena.parent_of(3), Some(0));
}

#[test]
fn columns_are_counted_in_characters() {
    let cfg = glyph_config();
    let line_a = "├─ a".as_bytes().to_vec();
    let line_b = "│  └─ b".as_bytes().to_vec();
    let (a_anchor, a_data, a_text) = classify_line(&cfg, &line_a).unwrap();
    let (b_anchor, b_data, b_text) = classify_line(&cfg, &line_b).unwrap();
    assert_eq!(a_anchor, 0);
    assert_eq!(a_data, 3);
    assert_eq!(a_text, b"a".to_vec());
    // `a`'s data column equals `b`'s anchor column, although the connector
    // glyphs are multi-byte: byte offsets would have given 7 and 5 here.
    assert_eq!(b_anchor, a_data);
    assert_eq!(b_data, 6);
    assert_eq!(b_text, b"b".to_vec());
}

#[test]
fn empty_line_is_no_match() {
    let cfg = glyph_config();
    assert!(classify_line(&cfg, &Vec::new()).is_none());
}

#[test]
fn zero_lines_yield_empty_input() {
    let cfg = glyph_config();
    let err = parse_tree(&cfg, &Vec::new()).unwrap_err();
    assert!(matches!(err, ParseError::EmptyInput));
}

#[test]
fn only_unmatched_lines_yield_empty_input() {
    let cfg = glyph_config();
    let err = parse_tree(&cfg, &to_lines(&["hello", "world"])).unwrap_err();
    assert!(matches!(err, ParseError::EmptyInput));
}

#[test]
fn stray_deep_line_dangles() {
    let cfg = glyph_config();
    let input = to_lines(&["root", "├─ a", "      └─ x"]);
    let err = parse_tree(&cfg, &input).unwrap_err();
    match err {
        ParseError::DanglingAnchor { line_index, line } => {
            assert_eq!(line_index, 2);
            assert_eq!(line, "      └─ x".as_bytes().to_vec());
        }
        other => panic!("expected a dangling anchor, got {:?}", other),
    }
}

#[test]
fn missing_root_level_registration_dangles() {
    let cfg = glyph_config();
    // The first node line registers the root under anchor column 2, so a
    // later line anchored at column 0 finds nothing registered there.
    let input = to_lines(&["  ├─ deep", "└─ shallow"]);
    let err = parse_tree(&cfg, &input).unwrap_err();
    match err {
        ParseError::DanglingAnchor { line_index, line } => {
            assert_eq!(line_index, 1);
            assert_eq!(line, "└─ shallow".as_bytes().to_vec());
        }
        other => panic!("expected a dangling anchor, got {:?}", other),
    }
}

#[test]
fn placeholder_root_without_heading() {
    let mut cfg = glyph_config();
    cfg.treat_first_nonmatch_as_heading = false;
    let input = to_lines(&["this heading is ignored", "├─ a"]);
    let (arena, root) = parse_tree(&cfg, &input).unwrap();
    assert_eq!(label_of(&arena, root), "<...>");
    assert_eq!(arena.len(), 2);
    assert_eq!(label_of(&arena, 1), "a");
}

#[test]
fn placeholder_root_when_first_line_matches() {
    let cfg = glyph_config();
    let input = to_lines(&["├─ a"]);
    let (arena, root) = parse_tree(&cfg, &input).unwrap();
    assert_eq!(label_of(&arena, root), "<...>");
    assert_eq!(arena.child_handles(root), &vec![1]);
}

#[test]
fn latest_line_before_first_node_becomes_heading() {
    let cfg = glyph_config();
    let input = to_lines(&["first", "second", "├─ a"]);
    let (arena, root) = parse_tree(&cfg, &input).unwrap();
    assert_eq!(label_of(&arena, root), "second");
}

#[test]
fn heading_is_trimmed() {
    let cfg = glyph_config();
    let input = to_lines(&["  padded heading \t ", "├─ a"]);
    let (arena, root) = parse_tree(&cfg, &input).unwrap();
    assert_eq!(label_of(&arena, root), "padded heading");
}

#[test]
fn skip_lines_discards_leading_lines() {
    let mut cfg = glyph_config();
    cfg.skip_lines = 2;
    let input = to_lines(&["├─ junk", "├─ more junk", "real heading", "├─ a"]);
    let (arena, root) = parse_tree(&cfg, &input).unwrap();
    assert_eq!(arena.len(), 2);
    assert_eq!(label_of(&arena, root), "real heading");
    assert_eq!(label_of(&arena, 1), "a");
}

#[test]
fn skip_beyond_input_yields_empty_input() {
    let mut cfg = glyph_config();
    cfg.skip_lines = 10;
    let err = parse_tree(&cfg, &to_lines(&["root", "├─ a"])).unwrap_err();
    assert!(matches!(err, ParseError::EmptyInput));
}

#[test]
fn configured_data_group_selects_label() {
    let cfg = config("^( *)([a-z]+)", 1, Some(2));
    let input = to_lines(&["root", "  ab", "  cd"]);
    let (arena, root) = parse_tree(&cfg, &input).unwrap();
    // The first matched line registers its node at data column 0, the same
    // column the root was registered under, so both later lines attach to it.
    assert_eq!(arena.len(), 4);
    assert_eq!(label_of(&arena, root), "<...>");
    assert_eq!(label_of(&arena, 1), "root");
    assert_eq!(arena.child_handles(1), &vec![2, 3]);
    assert_eq!(label_of(&arena, 2), "ab");
    assert_eq!(label_of(&arena, 3), "cd");
}

#[test]
fn missing_data_group_capture_is_no_match() {
    let cfg = config("(a)(b)?", 1, Some(2));
    let err = parse_tree(&cfg, &to_lines(&["a"])).unwrap_err();
    assert!(matches!(err, ParseError::EmptyInput));
    let (arena, _root) = parse_tree(&cfg, &to_lines(&["ab"])).unwrap();
    assert_eq!(arena.len(), 2);
    assert_eq!(label_of(&arena, 1), "b");
}

#[test]
fn missing_anchor_group_capture_is_no_match() {
    let cfg = config("(x)|(y)", 2, None);
    let err = parse_tree(&cfg, &to_lines(&["x"])).unwrap_err();
    assert!(matches!(err, ParseError::EmptyInput));
}

#[test]
fn invalid_pattern_matches_nothing() {
    let cfg = config("(unclosed", 1, None);
    let err = parse_tree(&cfg, &to_lines(&["(unclosed", "anything"])).unwrap_err();
    assert!(matches!(err, ParseError::EmptyInput));
}

#[test]
fn folding_shares_the_original_subtree() {
    let mut cfg = glyph_config();
    cfg.fold_duplicates = true;
    let input = to_lines(&["mypkg", "├─ dep1", "│  └─ sub", "└─ dep1 (*)"]);
    let (arena, _root) = parse_tree(&cfg, &input).unwrap();
    // The marker node adds no copy: one node per matched line plus the root.
    assert_eq!(arena.len(), 4);
    assert_eq!(label_of(&arena, 3), "dep1 (*)");
    assert!(arena.child_handles(3).is_empty());
    // The marker leaf exposes the original's children, shared.
    assert_eq!(resolve_children(&arena, &cfg, 3), vec![2]);
    assert_eq!(resolve_children(&arena, &cfg, 1), vec![2]);
    assert_eq!(label_of(&arena, 2), "sub");
}

#[test]
fn folding_without_original_keeps_plain_leaf() {
    let mut cfg = glyph_config();
    cfg.fold_duplicates = true;
    let input = to_lines(&["mypkg", "├─ dep1", "└─ other (*)"]);
    let (arena, _root) = parse_tree(&cfg, &input).unwrap();
    assert_eq!(arena.len(), 3);
    assert_eq!(label_of(&arena, 2), "other (*)");
    assert_eq!(resolve_children(&arena, &cfg, 2), Vec::<usize>::new());
}

#[test]
fn folding_disabled_changes_nothing() {
    let cfg = glyph_config();
    let input = to_lines(&["mypkg", "├─ dep1", "│  └─ sub", "└─ dep1 (*)"]);
    let (arena, _root) = parse_tree(&cfg, &input).unwrap();
    assert_eq!(arena.len(), 4);
    assert_eq!(resolve_children(&arena, &cfg, 3), Vec::<usize>::new());
}

fn render_into(arena: &Arena, handle: usize, depth: usize, out: &mut Vec<String>) {
    for &child in arena.child_handles(handle) {
        let mut s = String::new();
        for _ in 0..depth {
            s.push(' ');
        }
        s.push('└');
        s.push_str(std::str::from_utf8(arena.label(child)).unwrap());
        out.push(s);
        render_into(arena, child, depth + 1, out);
    }
}

/// Depth-first re-serialization: a heading line with the root's label, then
/// one line per node whose connector starts at column depth-1.
fn render(arena: &Arena, root: usize) -> Vec<String> {
    let mut out = vec![label_of(arena, root)];
    render_into(arena, root, 0, &mut out);
    out
}

fn assert_same_tree(a1: &Arena, n1: usize, a2: &Arena, n2: usize) {
    assert_eq!(a1.label(n1), a2.label(n2));
    let k1 = a1.child_handles(n1);
    let k2 = a2.child_handles(n2);
    assert_eq!(k1.len(), k2.len());
    for i in 0..k1.len() {
        assert_same_tree(a1, k1[i], a2, k2[i]);
    }
}

#[test]
fn reparsing_a_serialized_tree_is_isomorphic() {
    let cfg = glyph_config();
    let input = to_lines(&["root", "├─ a", "│  └─ b", "│  └─ c", "└─ d"]);
    let (arena, root) = parse_tree(&cfg, &input).unwrap();
    let rendered = render(&arena, root);
    let reparsed_input: Vec<Vec<u8>> = rendered.iter().map(|s| s.as_bytes().to_vec()).collect();
    let (arena2, root2) = parse_tree(&cfg, &reparsed_input).unwrap();
    assert_same_tree(&arena, root, &arena2, root2);
    // And a second round trip reproduces the same lines exactly.
    assert_eq!(render(&arena2, root2), rendered);
}
