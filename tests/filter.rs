use stampenv::{filter_entries, is_included, PresetEntry};

fn entry(path: &str, is_dir: bool) -> PresetEntry {
    PresetEntry { path: path.to_string(), is_dir }
}

fn walked_tree() -> Vec<PresetEntry> {
    vec![entry("a.rs", false), entry("b.txt", false), entry("dir", true), entry("dir/c.rs", false)]
}

fn paths(entries: &[PresetEntry]) -> Vec<String> {
    entries.iter().map(|e| e.path.clone()).collect()
}

#[test]
fn rs_pattern_keeps_only_rust_files() {
    let patterns = vec!["*.rs".to_string()];
    let kept = filter_entries(&walked_tree(), Some(&patterns));
    assert_eq!(paths(&kept), vec!["a.rs", "dir/c.rs"]);
    assert!(kept.iter().all(|e| !e.is_dir));
}

#[test]
fn no_patterns_keep_everything() {
    let kept = filter_entries(&walked_tree(), None);
    assert_eq!(paths(&kept), vec!["a.rs", "b.txt", "dir", "dir/c.rs"]);
    assert!(kept[2].is_dir);
}

#[test]
fn empty_pattern_set_keeps_everything() {
    let patterns: Vec<String> = Vec::new();
    let kept = filter_entries(&walked_tree(), Some(&patterns));
    assert_eq!(kept.len(), 4);
}

#[test]
fn any_matching_pattern_includes() {
    let patterns = vec!["*.txt".to_string(), "dir".to_string()];
    let kept = filter_entries(&walked_tree(), Some(&patterns));
    assert_eq!(paths(&kept), vec!["b.txt", "dir"]);
}

#[test]
fn invalid_patterns_are_dropped() {
    let patterns = vec!["a**b".to_string(), "*.txt".to_string()];
    let kept = filter_entries(&walked_tree(), Some(&patterns));
    assert_eq!(paths(&kept), vec!["b.txt"]);
}

#[test]
fn only_invalid_patterns_keep_everything() {
    let patterns = vec!["[".to_string()];
    let kept = filter_entries(&walked_tree(), Some(&patterns));
    assert_eq!(kept.len(), 4);
}

#[test]
fn pattern_matching_nothing_keeps_nothing() {
    let patterns = vec!["*.md".to_string()];
    let kept = filter_entries(&walked_tree(), Some(&patterns));
    assert!(kept.is_empty());
}

#[test]
fn inclusion_from_match_results() {
    assert!(is_included(&vec![]));
    assert!(is_included(&vec![false, true]));
    assert!(!is_included(&vec![false, false]));
}
