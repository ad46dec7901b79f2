use rv::{Class, Directive, VarMap};

fn s(t: &str) -> String {
    t.to_string()
}

fn map_of(pairs: &[(&str, &str)]) -> VarMap {
    let mut m = VarMap::new();
    for (k, v) in pairs {
        m.insert(s(k), s(v));
    }
    m
}

#[test]
fn classification_changed_added_no_removed() {
    // live {X: "old"}, resolved {X: "new", Y: "v"}: X Changed, Y Added
    let live = map_of(&[("X", "old")]);
    assert_eq!(rv::diff::classify(&live, &s("X"), &s("new")), Class::Changed);
    assert_eq!(rv::diff::classify(&live, &s("Y"), &s("v")), Class::Added);
    let resolved = map_of(&[("X", "new"), ("Y", "v")]);
    let (directives, owned) = rv::diff::plan_enter(&resolved, &live);
    assert_eq!(
        directives,
        vec![
            Directive::Export(s("X"), s("new")),
            Directive::Export(s("Y"), s("v")),
        ]
    );
    // the enter half never unsets anything: zero Removed
    for d in &directives {
        assert!(matches!(d, Directive::Export(_, _)));
    }
    assert_eq!(owned, vec![s("X"), s("Y")]);
}

#[test]
fn unchanged_key_emits_nothing_but_is_owned() {
    let live = map_of(&[("SAME", "v")]);
    assert_eq!(rv::diff::classify(&live, &s("SAME"), &s("v")), Class::Unchanged);
    let resolved = map_of(&[("SAME", "v"), ("NEW", "n")]);
    let (directives, owned) = rv::diff::plan_enter(&resolved, &live);
    assert_eq!(directives, vec![Directive::Export(s("NEW"), s("n"))]);
    assert_eq!(owned, vec![s("SAME"), s("NEW")]);
}

#[test]
fn exit_unsets_every_owned_key_unconditionally() {
    // ownership alone triggers the unset: the live value is not consulted
    let previous = vec![s("A"), s("B"), s("C")];
    let directives = rv::diff::plan_exit(&previous);
    assert_eq!(
        directives,
        vec![
            Directive::Unset(s("A")),
            Directive::Unset(s("B")),
            Directive::Unset(s("C")),
        ]
    );
}

#[test]
fn entering_twice_with_applied_exports_is_idempotent() {
    // first enter exports; once the shell applied them, a second enter
    // with unchanged config and environment emits zero directives
    let resolved = map_of(&[("X", "new"), ("Y", "v"), ("Z", "kept")]);
    let mut live = map_of(&[("X", "old"), ("Z", "kept")]);
    let (first, _) = rv::diff::plan_enter(&resolved, &live);
    assert!(!first.is_empty());
    for d in first {
        match d {
            Directive::Export(k, v) => live.insert(k, v),
            Directive::Unset(_) => panic!("enter emitted an unset"),
        }
    }
    let (second, owned) = rv::diff::plan_enter(&resolved, &live);
    assert!(second.is_empty());
    assert_eq!(owned, vec![s("X"), s("Y"), s("Z")]);
}

#[test]
fn exit_reverses_exactly_the_entered_keys() {
    // the keys unset by exit are exactly the key set enter resolved
    let resolved = map_of(&[("A", "1"), ("B", "2")]);
    let live = map_of(&[("A", "1")]);
    let (_, owned) = rv::diff::plan_enter(&resolved, &live);
    let unsets = rv::diff::plan_exit(&owned);
    let mut unset_keys: Vec<String> = Vec::new();
    for d in unsets {
        match d {
            Directive::Unset(k) => unset_keys.push(k),
            Directive::Export(_, _) => panic!("exit emitted an export"),
        }
    }
    assert_eq!(unset_keys, vec![s("A"), s("B")]);
}

#[test]
fn varmap_insert_overwrites_in_place() {
    let mut m = VarMap::new();
    m.insert(s("A"), s("1"));
    m.insert(s("B"), s("2"));
    m.insert(s("A"), s("3"));
    assert_eq!(m.len(), 2);
    assert_eq!(m.get(&s("A")), Some(&s("3")));
    assert_eq!(m.get(&s("B")), Some(&s("2")));
    assert_eq!(m.get(&s("C")), None);
}
