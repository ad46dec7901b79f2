use rv::Case;
use rv::tree::transform;

fn t(case: Case, key: &str) -> String {
    transform(Some(case), &key.to_string())
}

#[test]
fn no_transform_leaves_the_key_alone() {
    assert_eq!(transform(None, &"my_var".to_string()), "my_var".to_string());
}

#[test]
fn kebab_converts_underscores_to_hyphens() {
    // the conversion must actually rewrite the key, not echo it
    assert_eq!(t(Case::Kebab, "my_var"), "my-var".to_string());
    assert_eq!(t(Case::Kebab, "dbPassword"), "db-password".to_string());
}

#[test]
fn snake_and_screaming_snake() {
    assert_eq!(t(Case::Snake, "myVar"), "my_var".to_string());
    assert_eq!(t(Case::ScreamingSnake, "my_var"), "MY_VAR".to_string());
}

#[test]
fn camel_families() {
    assert_eq!(t(Case::Camel, "my_var"), "myVar".to_string());
    assert_eq!(t(Case::UpperCamel, "my_var"), "MyVar".to_string());
}

#[test]
fn kebab_families() {
    assert_eq!(t(Case::UpperKebab, "my_var"), "My-Var".to_string());
    assert_eq!(t(Case::Cobol, "my_var"), "MY-VAR".to_string());
}

#[test]
fn flat_families() {
    assert_eq!(t(Case::Flat, "my_var"), "myvar".to_string());
    assert_eq!(t(Case::UpperFlat, "my_var"), "MYVAR".to_string());
}

#[test]
fn word_cases() {
    assert_eq!(t(Case::Lower, "my_var"), "my var".to_string());
    assert_eq!(t(Case::Upper, "my_var"), "MY VAR".to_string());
}
