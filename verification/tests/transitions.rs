use rv::{Activate, Clear, Directive, Get, Metadata, Node, Precmd, Profile, Show, VarMap};

fn s(t: &str) -> String {
    t.to_string()
}

fn leaf(k: &str, v: &str) -> (String, Node) {
    (s(k), Node::Str(s(v)))
}

fn map_of(pairs: &[(&str, &str)]) -> VarMap {
    let mut m = VarMap::new();
    for (k, v) in pairs {
        m.insert(s(k), s(v));
    }
    m
}

#[test]
fn activate_creates_an_unresolved_record() {
    let mut m = Metadata { profiles: vec![] };
    let cmd = Activate { profile: s("work.staging") };
    cmd.set(&mut m, s("/d/rv.toml"));
    let rec = m.get(&s("/d/rv.toml")).unwrap();
    assert_eq!(rec.name, s("work.staging"));
    assert!(rec.variables.is_none());
}

#[test]
fn activate_overwrites_profile_and_clears_resolution() {
    let mut m = Metadata {
        profiles: vec![(s("/d/rv.toml"), Profile { name: s("old"), variables: Some(vec![s("A")]) })],
    };
    let cmd = Activate { profile: s("new") };
    cmd.set(&mut m, s("/d/rv.toml"));
    let rec = m.get(&s("/d/rv.toml")).unwrap();
    assert_eq!(rec.name, s("new"));
    assert!(rec.variables.is_none());
}

#[test]
fn precmd_unsets_previous_and_exports_current() {
    let prev = s("/prev/rv.toml");
    let cur = s("/cur/rv.toml");
    let mut m = Metadata {
        profiles: vec![
            (prev.clone(), Profile { name: s("p"), variables: Some(vec![s("OLD1"), s("OLD2")]) }),
            (cur.clone(), Profile { name: s("dev"), variables: None }),
        ],
    };
    let tree = Node::Table(vec![leaf("G", "g"), (s("dev"), Node::Table(vec![leaf("K", "v")]))]);
    let live = map_of(&[("OLD1", "x"), ("G", "g")]);
    let cmd = Precmd;
    let ds = cmd.precmd(&mut m, &prev, &cur, true, Some(&tree), &live).unwrap();
    assert_eq!(
        ds,
        vec![
            Directive::Unset(s("OLD1")),
            Directive::Unset(s("OLD2")),
            Directive::Export(s("K"), s("v")),
        ]
    );
    // the current record now owns every resolved key, matching G included
    let rec = m.get(&cur).unwrap();
    assert_eq!(rec.variables, Some(vec![s("G"), s("K")]));
    // the previous record is left untouched by the exit half
    let prec = m.get(&prev).unwrap();
    assert_eq!(prec.variables, Some(vec![s("OLD1"), s("OLD2")]));
}

#[test]
fn precmd_without_check_skips_the_unset_half() {
    let prev = s("/prev/rv.toml");
    let cur = s("/cur/rv.toml");
    let mut m = Metadata {
        profiles: vec![
            (prev.clone(), Profile { name: s("p"), variables: Some(vec![s("OLD")]) }),
            (cur.clone(), Profile { name: s("dev"), variables: None }),
        ],
    };
    let tree = Node::Table(vec![(s("dev"), Node::Table(vec![leaf("K", "v")]))]);
    let live = VarMap::new();
    let ds = Precmd.precmd(&mut m, &prev, &cur, false, Some(&tree), &live).unwrap();
    assert_eq!(ds, vec![Directive::Export(s("K"), s("v"))]);
}

#[test]
fn precmd_without_config_leaves_store_untouched() {
    let prev = s("/prev/rv.toml");
    let cur = s("/cur/rv.toml");
    let mut m = Metadata {
        profiles: vec![(prev.clone(), Profile { name: s("p"), variables: Some(vec![s("OLD")]) })],
    };
    let before = Metadata::load(Some(m.save().as_str())).unwrap();
    let live = VarMap::new();
    let ds = Precmd.precmd(&mut m, &prev, &cur, true, None, &live).unwrap();
    assert_eq!(ds, vec![Directive::Unset(s("OLD"))]);
    assert_eq!(m, before);
}

#[test]
fn precmd_resolution_failure_aborts_without_directives_or_writes() {
    let prev = s("/prev/rv.toml");
    let cur = s("/cur/rv.toml");
    let mut m = Metadata {
        profiles: vec![
            (prev.clone(), Profile { name: s("p"), variables: Some(vec![s("OLD")]) }),
            (cur.clone(), Profile { name: s("no.such"), variables: None }),
        ],
    };
    let before = Metadata::load(Some(m.save().as_str())).unwrap();
    let tree = Node::Table(vec![leaf("G", "g")]);
    let live = map_of(&[("OLD", "x")]);
    let e = Precmd.precmd(&mut m, &prev, &cur, true, Some(&tree), &live).unwrap_err();
    assert_eq!(e.segment, s("no"));
    assert!(e.consumed.is_empty());
    assert_eq!(m, before);
}

#[test]
fn precmd_enter_then_exit_unsets_the_resolved_keys() {
    let dir = s("/d/rv.toml");
    let other = s("/other/rv.toml");
    let mut m = Metadata {
        profiles: vec![(dir.clone(), Profile { name: s("dev"), variables: None })],
    };
    let tree = Node::Table(vec![leaf("G", "g"), (s("dev"), Node::Table(vec![leaf("K", "v")]))]);
    let live = VarMap::new();
    // enter half: dir becomes the current directory
    Precmd.precmd(&mut m, &other, &dir, true, Some(&tree), &live).unwrap();
    // exit half: leaving dir, no config in the new directory
    let ds = Precmd.precmd(&mut m, &dir, &other, true, None, &live).unwrap();
    assert_eq!(ds, vec![Directive::Unset(s("G")), Directive::Unset(s("K"))]);
}

#[test]
fn clear_unsets_owned_keys_and_removes_the_record() {
    let dir = s("/d/rv.toml");
    let mut m = Metadata {
        profiles: vec![(dir.clone(), Profile { name: s("p"), variables: Some(vec![s("A"), s("B")]) })],
    };
    let ds = Clear.clear(&mut m, &dir);
    assert_eq!(ds, vec![Directive::Unset(s("A")), Directive::Unset(s("B"))]);
    assert!(m.get(&dir).is_none());
}

#[test]
fn clear_of_unresolved_or_absent_record_emits_nothing() {
    let dir = s("/d/rv.toml");
    let mut m = Metadata {
        profiles: vec![(dir.clone(), Profile { name: s("p"), variables: None })],
    };
    assert_eq!(Clear.clear(&mut m, &dir), vec![]);
    assert!(m.get(&dir).is_none());
    assert_eq!(Clear.clear(&mut m, &s("/absent")), vec![]);
}

#[test]
fn show_joins_the_owned_keys() {
    let dir = s("/d/rv.toml");
    let m = Metadata {
        profiles: vec![(
            dir.clone(),
            Profile { name: s("work"), variables: Some(vec![s("A"), s("B"), s("C")]) },
        )],
    };
    let (name, list) = Show.show(&m, &dir).unwrap();
    assert_eq!(name, s("work"));
    assert_eq!(list, s("A B C"));
}

#[test]
fn show_is_silent_without_a_resolved_record() {
    let dir = s("/d/rv.toml");
    let m = Metadata {
        profiles: vec![(dir.clone(), Profile { name: s("work"), variables: None })],
    };
    assert!(Show.show(&m, &dir).is_none());
    assert!(Show.show(&m, &s("/absent")).is_none());
}

#[test]
fn get_returns_the_value_or_null() {
    let dir = s("/d/rv.toml");
    let m = Metadata {
        profiles: vec![(dir.clone(), Profile { name: s("dev"), variables: None })],
    };
    let tree = Node::Table(vec![leaf("G", "g"), (s("dev"), Node::Table(vec![leaf("K", "v")]))]);
    let g = Get { key: s("K") };
    assert_eq!(g.get(&m, &dir, &tree).unwrap(), Some(s("v")));
    let g2 = Get { key: s("MISSING") };
    assert_eq!(g2.get(&m, &dir, &tree).unwrap(), Some(s("null")));
}

#[test]
fn get_without_record_prints_nothing() {
    let m = Metadata { profiles: vec![] };
    let tree = Node::Table(vec![leaf("G", "g")]);
    let g = Get { key: s("G") };
    assert_eq!(g.get(&m, &s("/absent"), &tree).unwrap(), None);
}

#[test]
fn get_surfaces_a_bad_selector() {
    let dir = s("/d/rv.toml");
    let m = Metadata {
        profiles: vec![(dir.clone(), Profile { name: s("a.b"), variables: None })],
    };
    let tree = Node::Table(vec![(s("a"), Node::Table(vec![leaf("c", "1")]))]);
    let g = Get { key: s("c") };
    let e = g.get(&m, &dir, &tree).unwrap_err();
    assert_eq!(e.segment, s("b"));
    assert_eq!(e.consumed, vec![s("a")]);
}

#[test]
fn error_messages_name_what_failed() {
    let tree = Node::Table(vec![(s("a"), Node::Table(vec![]))]);
    let e = rv::tree::resolve(&tree, &s("a.b"), None).unwrap_err();
    let msg = e.message();
    assert!(msg.contains("b"));
    assert!(msg.contains("profile not found"));
    let corrupt = Metadata::load(Some("nope")).unwrap_err();
    assert!(corrupt.message().contains("corrupt"));
}
