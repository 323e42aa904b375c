use stampenv::{contains_text, join_path, preset_name_from_file, text_less, SortedNames};

fn s(x: &str) -> String {
    x.to_string()
}

#[test]
fn join_inserts_one_separator() {
    assert_eq!(join_path(&s("/a"), &s("b")), "/a/b");
    assert_eq!(join_path(&s("/a/"), &s("b")), "/a/b");
    assert_eq!(join_path(&s(""), &s("b")), "b");
    assert_eq!(join_path(&s("/a"), &s("/abs")), "/abs");
}

#[test]
fn document_names() {
    assert_eq!(preset_name_from_file(&s("web.toml")), Some(s("web")));
    assert_eq!(preset_name_from_file(&s("a.b.toml")), Some(s("a.b")));
    assert_eq!(preset_name_from_file(&s(".toml")), None);
    assert_eq!(preset_name_from_file(&s("web.json")), None);
    assert_eq!(preset_name_from_file(&s("toml")), None);
}

#[test]
fn text_order() {
    assert!(text_less(&s("a"), &s("b")));
    assert!(text_less(&s("ab"), &s("abc")));
    assert!(!text_less(&s("abc"), &s("ab")));
    assert!(!text_less(&s("x"), &s("x")));
    assert!(text_less(&s("B"), &s("a")));
}

#[test]
fn sorted_names_add_and_remove() {
    let mut n = SortedNames::new();
    n.add(s("m"));
    n.add(s("c"));
    n.add(s("x"));
    n.add(s("c"));
    assert_eq!(n.to_vec(), vec![s("c"), s("m"), s("x")]);
    assert!(n.contains(&s("m")));
    assert!(n.remove(&s("m")));
    assert!(!n.remove(&s("m")));
    assert_eq!(n.to_vec(), vec![s("c"), s("x")]);
}

#[test]
fn text_membership() {
    let items = vec![s("a"), s("b")];
    assert!(contains_text(&items, &s("b")));
    assert!(!contains_text(&items, &s("c")));
}
