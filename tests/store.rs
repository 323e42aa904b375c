use stampenv::{LinkRecord, LinksRegistry, Preset, PresetDocument, PresetEntry, PresetManager, StoreError};

fn s(x: &str) -> String {
    x.to_string()
}

fn preset(name: &str) -> Preset {
    Preset {
        name: s(name),
        source: s("/src"),
        entries: vec![PresetEntry { path: s("f"), is_dir: false }],
    }
}

fn document(file_name: &str, inner_name: &str) -> PresetDocument {
    PresetDocument { name: s(file_name), preset: preset(inner_name) }
}

fn record(p: &str, t: &str) -> LinkRecord {
    LinkRecord { preset: s(p), target: s(t), linked_at: s("1") }
}

fn store() -> PresetManager {
    let files = vec![s("b.toml"), s("a.toml"), s("notes.txt"), s(".toml"), s("c.toml")];
    let registry = LinksRegistry { links: vec![record("a", "/x"), record("b", "/y"), record("a", "/z")] };
    PresetManager::new(s("/base"), &files, vec![document("a", "a"), document("b", "b")], registry)
}

#[test]
fn list_is_sorted_and_only_documents() {
    assert_eq!(store().list(), vec![s("a"), s("b"), s("c")]);
}

#[test]
fn list_of_empty_store() {
    let m = PresetManager::new(s("/base"), &Vec::new(), Vec::new(), LinksRegistry::new());
    assert!(m.list().is_empty());
}

#[test]
fn existence_follows_documents() {
    let m = store();
    assert!(m.preset_exists(&s("a")));
    assert!(m.preset_exists(&s("c")));
    assert!(!m.preset_exists(&s("notes")));
    assert!(!m.preset_exists(&s("")));
}

#[test]
fn load_outcomes() {
    let m = store();
    let a = m.load(&s("a")).unwrap();
    assert_eq!(a.name, "a");
    assert_eq!(a.entries.len(), 1);
    assert!(matches!(m.load(&s("c")), Err(StoreError::ParseError)));
    assert!(matches!(m.load(&s("zzz")), Err(StoreError::NotFound)));
}

#[test]
fn commit_then_load_round_trip() {
    let mut m = store();
    let walked = vec![
        PresetEntry { path: s("a.rs"), is_dir: false },
        PresetEntry { path: s("b.txt"), is_dir: false },
        PresetEntry { path: s("dir"), is_dir: true },
        PresetEntry { path: s("dir/c.rs"), is_dir: false },
    ];
    let patterns = vec![s("*.rs")];
    let doc = m.commit(&s("new"), &s("/home/u/proj"), &walked, Some(&patterns));
    assert_eq!(doc.name, "new");
    assert_eq!(doc.source, "/home/u/proj");
    let loaded = m.load(&s("new")).unwrap();
    let got: Vec<String> = loaded.entries.iter().map(|e| e.path.clone()).collect();
    assert_eq!(got, vec![s("a.rs"), s("dir/c.rs")]);
    assert_eq!(m.list(), vec![s("a"), s("b"), s("c"), s("new")]);
}

#[test]
fn commit_overwrites_same_name() {
    let mut m = store();
    let walked = vec![PresetEntry { path: s("only"), is_dir: true }];
    m.commit(&s("a"), &s("/elsewhere"), &walked, None);
    let a = m.load(&s("a")).unwrap();
    assert_eq!(a.source, "/elsewhere");
    assert_eq!(a.entries.len(), 1);
    assert!(a.entries[0].is_dir);
    assert_eq!(m.list(), vec![s("a"), s("b"), s("c")]);
    assert_eq!(m.registry().links.len(), 3);
}

#[test]
fn commit_is_idempotent() {
    let mut m = store();
    let walked = vec![PresetEntry { path: s("x"), is_dir: false }];
    let first = m.commit(&s("n"), &s("/s"), &walked, None);
    let second = m.commit(&s("n"), &s("/s"), &walked, None);
    assert_eq!(format!("{first:?}"), format!("{second:?}"));
    assert_eq!(m.list(), vec![s("a"), s("b"), s("c"), s("n")]);
}

#[test]
fn delete_with_unlink_removes_document_and_records() {
    let mut m = store();
    assert!(m.delete(&s("a"), true).is_ok());
    assert!(!m.preset_exists(&s("a")));
    assert!(matches!(m.load(&s("a")), Err(StoreError::NotFound)));
    assert!(m.get_links(&s("a")).is_empty());
    assert_eq!(m.registry().links.len(), 1);
}

#[test]
fn delete_without_unlink_keeps_records() {
    let mut m = store();
    assert!(m.delete(&s("a"), false).is_ok());
    assert!(!m.preset_exists(&s("a")));
    assert_eq!(m.get_links(&s("a")), vec![s("/x"), s("/z")]);
    assert_eq!(m.registry().links.len(), 3);
    assert_eq!(m.list(), vec![s("b"), s("c")]);
}

#[test]
fn delete_missing_is_not_found() {
    let mut m = store();
    assert_eq!(m.delete(&s("nope"), true), Err(StoreError::NotFound));
    assert_eq!(m.list(), vec![s("a"), s("b"), s("c")]);
    assert_eq!(m.registry().links.len(), 3);
}

#[test]
fn store_file_layout() {
    let m = store();
    assert_eq!(m.presets_dir(), "/base/presets");
    assert_eq!(m.preset_file(&s("a")), "/base/presets/a.toml");
    assert_eq!(m.links_file(), "/base/links.toml");
}

#[test]
fn load_goes_by_file_name() {
    let files = vec![s("x.toml")];
    let m = PresetManager::new(s("/base"), &files, vec![document("x", "y")], LinksRegistry::new());
    let p = m.load(&s("x")).unwrap();
    assert_eq!(p.name, "y");
    assert!(matches!(m.load(&s("y")), Err(StoreError::NotFound)));
}
