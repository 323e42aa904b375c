use stampenv::{EntryKind, FoundEntry, LinkStep, Preset, PresetEntry, SymlinkBuilder};

fn s(x: &str) -> String {
    x.to_string()
}

fn sample() -> Preset {
    Preset {
        name: s("p"),
        source: s("/src"),
        entries: vec![
            PresetEntry { path: s("dir"), is_dir: true },
            PresetEntry { path: s("dir/c.rs"), is_dir: false },
            PresetEntry { path: s("a.rs"), is_dir: false },
        ],
    }
}

#[test]
fn apply_plans_one_step_per_entry() {
    let b = SymlinkBuilder::new();
    let steps = b.apply(&sample(), &s("/target"));
    assert_eq!(steps.len(), 3);
    match &steps[0] {
        LinkStep::MakeDir { path } => assert_eq!(path, "/target/dir"),
        other => panic!("unexpected {other:?}"),
    }
    match &steps[1] {
        LinkStep::Link { source, dest } => {
            assert_eq!(source, "/src/dir/c.rs");
            assert_eq!(dest, "/target/dir/c.rs");
        }
        other => panic!("unexpected {other:?}"),
    }
    assert_eq!(b.created_paths(&steps), vec![s("/target/dir/c.rs"), s("/target/a.rs")]);
}

#[test]
fn apply_twice_plans_the_same() {
    let b = SymlinkBuilder::default();
    let first = b.apply(&sample(), &s("/t/"));
    let second = b.apply(&sample(), &s("/t/"));
    assert_eq!(format!("{first:?}"), format!("{second:?}"));
    assert_eq!(b.created_paths(&first), vec![s("/t/dir/c.rs"), s("/t/a.rs")]);
}

#[test]
fn apply_empty_preset_plans_nothing() {
    let b = SymlinkBuilder::new();
    let p = Preset { name: s("e"), source: s("/src"), entries: Vec::new() };
    assert!(b.apply(&p, &s("/t")).is_empty());
}

#[test]
fn unlink_picks_only_symlinks() {
    let b = SymlinkBuilder::new();
    let found = vec![
        FoundEntry { path: s("/t/l1"), kind: EntryKind::Symlink },
        FoundEntry { path: s("/t/d"), kind: EntryKind::Directory },
        FoundEntry { path: s("/t/d/e"), kind: EntryKind::Directory },
        FoundEntry { path: s("/t/d/e/l3"), kind: EntryKind::Symlink },
        FoundEntry { path: s("/t/d/file"), kind: EntryKind::File },
    ];
    let removed = b.unlink(&found);
    assert_eq!(removed, vec![s("/t/l1"), s("/t/d/e/l3")]);
}

#[test]
fn unlink_of_nothing_removes_nothing() {
    let b = SymlinkBuilder::new();
    let found = vec![FoundEntry { path: s("/t/f"), kind: EntryKind::File }];
    assert!(b.unlink(&found).is_empty());
}
