use mdlex::links::{parse_declared_url, LinkTable};

fn chars(s: &str) -> Vec<char> {
    s.chars().collect()
}

#[test]
fn declared_url_is_parsed() {
    let v = parse_declared_url(&chars("<!-- url: foo -->")).unwrap();
    assert_eq!(v.iter().collect::<String>(), "foo");
}

#[test]
fn declared_url_value_is_trimmed() {
    let v = parse_declared_url(&chars("<!-- url:   spaced-value   -->")).unwrap();
    assert_eq!(v.iter().collect::<String>(), "spaced-value");
}

#[test]
fn declared_url_tolerates_surrounding_whitespace() {
    let v = parse_declared_url(&chars("  <!-- url: x -->  ")).unwrap();
    assert_eq!(v.iter().collect::<String>(), "x");
}

#[test]
fn empty_declared_url_is_no_match() {
    assert!(parse_declared_url(&chars("<!-- url: -->")).is_none());
}

#[test]
fn missing_space_after_colon_is_no_match() {
    assert!(parse_declared_url(&chars("<!-- url:foo -->")).is_none());
}

#[test]
fn ordinary_comment_is_no_match() {
    assert!(parse_declared_url(&chars("<!-- hello -->")).is_none());
    assert!(parse_declared_url(&chars("plain first line")).is_none());
}

#[test]
fn lookup_misses_on_empty_table() {
    let links = LinkTable::new();
    assert!(links.lookup(&chars("anything")).is_none());
}

#[test]
fn lookup_finds_added_entry() {
    let mut links = LinkTable::new();
    links.add(chars("a"), chars("u1"));
    links.add(chars("b"), chars("u2"));
    let u = links.lookup(&chars("b")).unwrap();
    assert_eq!(u.iter().collect::<String>(), "u2");
}
