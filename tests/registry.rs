use stampenv::{LinkRecord, LinksRegistry, PresetManager};

fn record(preset: &str, target: &str, at: &str) -> LinkRecord {
    LinkRecord { preset: preset.to_string(), target: target.to_string(), linked_at: at.to_string() }
}

fn manager(links: Vec<LinkRecord>) -> PresetManager {
    PresetManager::new("/base".to_string(), &Vec::new(), Vec::new(), LinksRegistry { links })
}

fn s(x: &str) -> String {
    x.to_string()
}

#[test]
fn upsert_twice_keeps_one_record_with_second_time() {
    let mut reg = LinksRegistry::new();
    reg.upsert(&s("p"), &s("/t"), s("2024-01-01T00:00:00+00:00"));
    reg.upsert(&s("p"), &s("/t"), s("2024-02-01T00:00:00+00:00"));
    assert_eq!(reg.links.len(), 1);
    assert_eq!(reg.links[0].linked_at, "2024-02-01T00:00:00+00:00");
    assert_eq!(reg.targets_for(&s("p")), vec![s("/t")]);
}

#[test]
fn upsert_appends_new_pair() {
    let mut reg = LinksRegistry { links: vec![record("p", "/t", "1")] };
    reg.upsert(&s("q"), &s("/t"), s("2"));
    reg.upsert(&s("p"), &s("/u"), s("3"));
    assert_eq!(reg.links.len(), 3);
    assert_eq!(reg.links[1].preset, "q");
    assert_eq!(reg.links[2].target, "/u");
    assert_eq!(reg.links[0].linked_at, "1");
}

#[test]
fn add_link_twice_leaves_one_record() {
    let mut m = manager(Vec::new());
    m.add_link(&s("p"), &s("/t"), s("2024-01-01T00:00:00+00:00"));
    m.add_link(&s("p"), &s("/t"), s("2024-03-01T12:00:00+00:00"));
    assert_eq!(m.registry().links.len(), 1);
    assert_eq!(m.registry().links[0].linked_at, "2024-03-01T12:00:00+00:00");
    assert_eq!(m.get_links(&s("p")), vec![s("/t")]);
}

#[test]
fn get_links_in_registry_order() {
    let m = manager(vec![record("p", "/a", "1"), record("q", "/b", "1"), record("p", "/c", "1")]);
    assert_eq!(m.get_links(&s("p")), vec![s("/a"), s("/c")]);
    assert!(m.get_links(&s("r")).is_empty());
}

#[test]
fn remove_link_reports_first_preset_and_drops_all_at_target() {
    let mut m = manager(vec![record("p", "/a", "1"), record("q", "/t", "1"), record("p", "/t", "1")]);
    assert_eq!(m.remove_link(&s("/t")), Some(s("q")));
    assert_eq!(m.registry().links.len(), 1);
    assert_eq!(m.registry().links[0].target, "/a");
    assert_eq!(m.remove_link(&s("/t")), None);
}

#[test]
fn cleanup_removes_exactly_missing_targets() {
    let mut m = manager(vec![
        record("p", "/gone1", "1"),
        record("p", "/here", "1"),
        record("q", "/gone2", "1"),
    ]);
    let missing = vec![s("/gone1"), s("/gone2")];
    assert_eq!(m.cleanup_broken_links(&missing), 2);
    assert_eq!(m.registry().links.len(), 1);
    assert_eq!(m.get_links(&s("p")), vec![s("/here")]);
    assert!(m.get_links(&s("q")).is_empty());
}

#[test]
fn cleanup_with_nothing_missing_removes_nothing() {
    let mut m = manager(vec![record("p", "/here", "1")]);
    assert_eq!(m.cleanup_broken_links(&Vec::new()), 0);
    assert_eq!(m.registry().links.len(), 1);
}

#[test]
fn remove_links_for_preset_counts() {
    let mut m = manager(vec![record("p", "/a", "1"), record("q", "/b", "1"), record("p", "/c", "1")]);
    assert_eq!(m.remove_links_for_preset(&s("p")), 2);
    assert_eq!(m.registry().links.len(), 1);
    assert_eq!(m.registry().links[0].preset, "q");
    assert_eq!(m.remove_links_for_preset(&s("p")), 0);
}
