use rv::{Metadata, Profile};

fn s(t: &str) -> String {
    t.to_string()
}

fn sample_store() -> Metadata {
    Metadata {
        profiles: vec![
            (
                s("/home/u/proj/rv.toml"),
                Profile { name: s("work.staging"), variables: Some(vec![s("A"), s("B")]) },
            ),
            (s("/tmp/rv.toml"), Profile { name: s("dev"), variables: None }),
            (s("/opt/x/rv.toml"), Profile { name: s("p"), variables: Some(vec![]) }),
        ],
    }
}

#[test]
fn save_then_load_returns_an_equal_store() {
    let m = sample_store();
    let doc = m.save();
    let m2 = Metadata::load(Some(doc.as_str())).unwrap();
    assert_eq!(m2, m);
}

#[test]
fn save_then_load_round_trips_awkward_characters() {
    let m = Metadata {
        profiles: vec![(
            s("/home/u/\"quoted\"/back\\slash/rv.toml"),
            Profile {
                name: s("a.b"),
                variables: Some(vec![s("K\"EY"), s("VA\\LUE"), s("comma,colon:brace}")]),
            },
        )],
    };
    let doc = m.save();
    let m2 = Metadata::load(Some(doc.as_str())).unwrap();
    assert_eq!(m2, m);
}

#[test]
fn missing_document_loads_the_empty_store() {
    let m = Metadata::load(None).unwrap();
    assert_eq!(m.profiles.len(), 0);
}

#[test]
fn empty_document_braces_load_the_empty_store() {
    let m = Metadata::load(Some("{}")).unwrap();
    assert_eq!(m.profiles.len(), 0);
}

#[test]
fn unparsable_document_is_corrupt_not_reset() {
    assert!(Metadata::load(Some("")).is_err());
    assert!(Metadata::load(Some("not json")).is_err());
    assert!(Metadata::load(Some("{\"a\":")).is_err());
    assert!(Metadata::load(Some("[]")).is_err());
}

#[test]
fn truncated_record_is_corrupt() {
    let m = sample_store();
    let doc = m.save();
    let cut = &doc[..doc.len() - 1];
    assert!(Metadata::load(Some(cut)).is_err());
}

#[test]
fn trailing_text_is_corrupt() {
    let m = sample_store();
    let mut doc = m.save();
    doc.push_str("x");
    assert!(Metadata::load(Some(doc.as_str())).is_err());
}

#[test]
fn duplicate_directory_keys_are_corrupt() {
    let rec = "{\"name\":\"p\",\"variables\":null}";
    let doc = format!("{{\"/d/rv.toml\":{},\"/d/rv.toml\":{}}}", rec, rec);
    assert!(Metadata::load(Some(doc.as_str())).is_err());
}

#[test]
fn saved_document_shape_is_json_like() {
    let m = Metadata {
        profiles: vec![(
            s("/d/rv.toml"),
            Profile { name: s("p"), variables: Some(vec![s("A")]) },
        )],
    };
    assert_eq!(
        m.save(),
        s("{\"/d/rv.toml\":{\"name\":\"p\",\"variables\":[\"A\"]}}")
    );
    let empty = Metadata { profiles: vec![] };
    assert_eq!(empty.save(), s("{}"));
}

#[test]
fn store_get_set_remove() {
    let mut m = Metadata { profiles: vec![] };
    m.set(s("/a"), Profile { name: s("p1"), variables: None });
    m.set(s("/b"), Profile { name: s("p2"), variables: Some(vec![s("X")]) });
    assert_eq!(m.get(&s("/a")).unwrap().name, s("p1"));
    assert_eq!(m.get(&s("/b")).unwrap().variables, Some(vec![s("X")]));
    // replace keeps the key's position and takes the new record whole
    m.set(s("/a"), Profile { name: s("p3"), variables: Some(vec![]) });
    assert_eq!(m.get(&s("/a")).unwrap().name, s("p3"));
    assert_eq!(m.profiles.len(), 2);
    m.remove(&s("/a"));
    assert!(m.get(&s("/a")).is_none());
    // removing an absent key is a no-op, not an error
    m.remove(&s("/never"));
    assert_eq!(m.profiles.len(), 1);
}
