use rv::{Case, Node};

fn s(t: &str) -> String {
    t.to_string()
}

fn leaf(k: &str, v: &str) -> (String, Node) {
    (s(k), Node::Str(s(v)))
}

#[test]
fn precedence_scoped_wins_shared_key() {
    // global {A: "1"}, scoped {A: "2", B: "3"} resolves to {A: "2", B: "3"}
    let tree = Node::Table(vec![
        leaf("A", "1"),
        (s("p"), Node::Table(vec![leaf("A", "2"), leaf("B", "3")])),
    ]);
    let m = rv::tree::resolve(&tree, &s("p"), None).unwrap();
    assert_eq!(m.get(&s("A")), Some(&s("2")));
    assert_eq!(m.get(&s("B")), Some(&s("3")));
    assert_eq!(m.len(), 2);
}

#[test]
fn selector_failure_names_segment_and_consumed_path() {
    // selector "a.b" against a tree holding only a = { c = "1" }
    let tree = Node::Table(vec![(s("a"), Node::Table(vec![leaf("c", "1")]))]);
    let e = rv::tree::resolve(&tree, &s("a.b"), None).unwrap_err();
    assert_eq!(e.segment, s("b"));
    assert_eq!(e.consumed, vec![s("a")]);
}

#[test]
fn selector_failure_on_first_segment_consumes_nothing() {
    let tree = Node::Table(vec![leaf("c", "1")]);
    let e = rv::tree::resolve(&tree, &s("missing"), None).unwrap_err();
    assert_eq!(e.segment, s("missing"));
    assert!(e.consumed.is_empty());
}

#[test]
fn selector_segment_that_is_a_leaf_fails() {
    // "a" exists but is a string leaf, not a table
    let tree = Node::Table(vec![leaf("a", "1")]);
    let e = rv::tree::resolve(&tree, &s("a"), None).unwrap_err();
    assert_eq!(e.segment, s("a"));
    assert!(e.consumed.is_empty());
}

#[test]
fn empty_selector_fails_with_empty_segment() {
    let tree = Node::Table(vec![(s("p"), Node::Table(vec![]))]);
    let e = rv::tree::resolve(&tree, &s(""), None).unwrap_err();
    assert_eq!(e.segment, s(""));
}

#[test]
fn dotted_selector_walks_nested_tables() {
    let staging = Node::Table(vec![leaf("URL", "https://stage.example")]);
    let work = Node::Table(vec![(s("staging"), staging)]);
    let tree = Node::Table(vec![leaf("GLOBAL", "g"), (s("work"), work)]);
    let m = rv::tree::resolve(&tree, &s("work.staging"), None).unwrap();
    assert_eq!(m.get(&s("URL")), Some(&s("https://stage.example")));
    assert_eq!(m.get(&s("GLOBAL")), Some(&s("g")));
}

#[test]
fn nested_scoped_tables_flatten_to_leaf_keys() {
    // a table inside the profile recurses; the leaf keeps its own key
    let inner = Node::Table(vec![leaf("DEEP", "d")]);
    let prof = Node::Table(vec![leaf("TOP", "t"), (s("sub"), inner)]);
    let tree = Node::Table(vec![(s("p"), prof)]);
    let m = rv::tree::resolve(&tree, &s("p"), None).unwrap();
    assert_eq!(m.get(&s("TOP")), Some(&s("t")));
    assert_eq!(m.get(&s("DEEP")), Some(&s("d")));
    assert_eq!(m.len(), 2);
}

#[test]
fn non_string_leaves_are_skipped_not_errors() {
    let prof = Node::Table(vec![(s("NUM"), Node::Other), leaf("STR", "v")]);
    let tree = Node::Table(vec![(s("FLAG"), Node::Other), (s("p"), prof)]);
    let m = rv::tree::resolve(&tree, &s("p"), None).unwrap();
    assert_eq!(m.get(&s("NUM")), None);
    assert_eq!(m.get(&s("FLAG")), None);
    assert_eq!(m.get(&s("STR")), Some(&s("v")));
    assert_eq!(m.len(), 1);
}

#[test]
fn kebab_transform_applies_to_global_and_scoped_maps() {
    // key "my_var" under the kebab transform flattens to "my-var" in both
    let prof = Node::Table(vec![leaf("other_key", "scoped")]);
    let tree = Node::Table(vec![leaf("my_var", "global"), (s("p"), prof)]);
    let m = rv::tree::resolve(&tree, &s("p"), Some(Case::Kebab)).unwrap();
    assert_eq!(m.get(&s("my-var")), Some(&s("global")));
    assert_eq!(m.get(&s("other-key")), Some(&s("scoped")));
    assert_eq!(m.get(&s("my_var")), None);
}

#[test]
fn non_table_root_fails_resolution() {
    let tree = Node::Str(s("oops"));
    let e = rv::tree::resolve(&tree, &s("p"), None).unwrap_err();
    assert_eq!(e.segment, s("p"));
    assert!(e.consumed.is_empty());
}
