//! The preset store and the link registry, held in memory.
//!
//! A [`PresetManager`] knows the per-user base directory, which preset
//! documents exist there, the documents that could be read, and the link
//! registry. The caller loads it from disk, asks it what to do, and writes back
//! what it reports as changed.

use vstd::prelude::*;
use vstd::string::*;
use crate::paths::{join_path, joined, preset_name_from_file, preset_name_of, strictly_sorted, SortedNames};
use crate::pattern::{
    filter_entries, glob_compiles, glob_matches, lemma_all_usable, plain_glob, selected, selected_entries, texts,
    usable_patterns,
};
use crate::preset::{entries_view, DocumentView, EntryView, PresetDocument, LinkRecordView, LinksRegistry, Preset, PresetEntry, PresetView};
use crate::registry::{of_preset, not_of_preset, not_at_target, target_present, targets_of, upserted, first_preset_at};

verus! {

/// Why a preset could not be had from the store.
#[derive(Debug, Clone, Copy, PartialEq, Eq, Structural)]
pub enum StoreError {
    /// No document exists for the name.
    NotFound,
    /// A document exists but could not be read as a preset.
    ParseError,
}

/// The mathematical value of a [`PresetManager`].
pub struct ManagerView {
    /// The per-user base directory.
    pub base: Seq<char>,
    /// The names of the preset documents in the store, in listing order.
    pub names: Seq<Seq<char>>,
    /// The documents that could be read, each under its file's preset name.
    pub documents: Seq<DocumentView>,
    /// The link registry.
    pub links: Seq<LinkRecordView>,
}

/// The views of a sequence of documents.
pub open spec fn documents_view(s: Seq<PresetDocument>) -> Seq<DocumentView> {
    s.map_values(|d: PresetDocument| d@)
}

/// Holds of the documents not stored under `name`.
pub open spec fn not_named(name: Seq<char>) -> spec_fn(DocumentView) -> bool {
    |d: DocumentView| d.name != name
}

/// `i` is the first document stored under `name`.
pub open spec fn is_first_named(documents: Seq<DocumentView>, name: Seq<char>, i: int) -> bool {
    &&& 0 <= i < documents.len()
    &&& documents[i].name == name
    &&& forall|j: int| 0 <= j < i ==> (#[trigger] documents[j]).name != name
}

/// What loading `name` from the store gives.
pub open spec fn load_result(v: ManagerView, name: Seq<char>) -> Result<PresetView, StoreError> {
    if !v.names.contains(name) {
        Err(StoreError::NotFound)
    } else if exists|i: int| is_first_named(v.documents, name, i) {
        Ok(v.documents[choose|i: int| is_first_named(v.documents, name, i)].preset)
    } else {
        Err(StoreError::ParseError)
    }
}

/// The pattern texts of an optional pattern set.
pub open spec fn pattern_texts(patterns: Option<&Vec<String>>) -> Option<Seq<Seq<char>>> {
    match patterns {
        None => None,
        Some(ps) => Some(texts(ps@)),
    }
}

/// The preset that committing `walked` under `name` from `source` captures.
pub open spec fn captured(
    name: Seq<char>,
    source: Seq<char>,
    walked: Seq<EntryView>,
    patterns: Option<Seq<Seq<char>>>,
) -> PresetView {
    PresetView { name, source, entries: selected_entries(walked, patterns) }
}

/// The store after committing `preset`: its document is written, replacing
/// any of the same name; the registry is untouched.
pub open spec fn commit_post(before: ManagerView, after: ManagerView, preset: PresetView) -> bool {
    &&& after.base == before.base
    &&& forall|x: Seq<char>| after.names.contains(x) <==> (before.names.contains(x) || x == preset.name)
    &&& after.documents == before.documents.filter(not_named(preset.name)).push(
        DocumentView { name: preset.name, preset },
    )
    &&& after.links == before.links
}

/// The store after deleting `name`: its document is gone, and its link
/// records too when `remove_links` is set.
pub open spec fn delete_post(before: ManagerView, after: ManagerView, name: Seq<char>, remove_links: bool) -> bool {
    &&& after.base == before.base
    &&& forall|x: Seq<char>| after.names.contains(x) <==> (before.names.contains(x) && x != name)
    &&& after.documents == before.documents.filter(not_named(name))
    &&& after.links == if remove_links {
        before.links.filter(not_of_preset(name))
    } else {
        before.links
    }
}

/// Only the registry changed.
pub open spec fn links_changed(before: ManagerView, after: ManagerView) -> bool {
    &&& after.base == before.base
    &&& after.names == before.names
    &&& after.documents == before.documents
}

/// A fresh copy of a preset.
fn copy_preset(p: &Preset) -> (c: Preset)
    ensures
        c@ == p@,
{
    let mut entries: Vec<PresetEntry> = Vec::new();
    let mut i: usize = 0;
    while i < p.entries.len()
        invariant
            0 <= i <= p.entries@.len(),
            entries_view(entries@) == entries_view(p.entries@).subrange(0, i as int),
        decreases p.entries@.len() - i,
    {
        let ghost prev = entries@;
        let e = &p.entries[i];
        entries.push(PresetEntry { path: e.path.clone(), is_dir: e.is_dir });
        assert(entries_view(entries@) =~= entries_view(prev).push(p.entries@[i as int]@));
        assert(entries_view(p.entries@).subrange(0, i + 1) =~= entries_view(p.entries@).subrange(0, i as int).push(
            p.entries@[i as int]@,
        ));
        i += 1;
    }
    assert(entries_view(p.entries@).subrange(0, p.entries@.len() as int) =~= entries_view(p.entries@));
    Preset { name: p.name.clone(), source: p.source.clone(), entries }
}

/// A fresh copy of a document.
fn copy_document(d: &PresetDocument) -> (c: PresetDocument)
    ensures
        c@ == d@,
{
    PresetDocument { name: d.name.clone(), preset: copy_preset(&d.preset) }
}

/// The preset store and the link registry of one base directory.
pub struct PresetManager {
    base_dir: String,
    names: SortedNames,
    documents: Vec<PresetDocument>,
    registry: LinksRegistry,
}

impl View for PresetManager {
    type V = ManagerView;

    closed spec fn view(&self) -> ManagerView {
        ManagerView {
            base: self.base_dir@,
            names: self.names@,
            documents: documents_view(self.documents@),
            links: self.registry@,
        }
    }
}

impl PresetManager {
    /// A store rooted at `base_dir`, whose directory of presets holds the
    /// files `files`, of which `documents` could be read (each under the
    /// preset name of its file), and whose link registry is `registry`.
    pub fn new(base_dir: String, files: &Vec<String>, documents: Vec<PresetDocument>, registry: LinksRegistry) -> (r: PresetManager)
        ensures
            r@.base == base_dir@,
            forall|x: Seq<char>|
                r@.names.contains(x) <==> exists|i: int|
                    0 <= i < files@.len() && preset_name_of(#[trigger] files@[i]@) == Some(x),
            r@.documents == documents_view(documents@),
            r@.links == registry@,
    {
        let mut names = SortedNames::new();
        let mut i: usize = 0;
        while i < files.len()
            invariant
                0 <= i <= files@.len(),
                forall|x: Seq<char>|
                    names@.contains(x) <==> exists|j: int|
                        0 <= j < i && preset_name_of(#[trigger] files@[j]@) == Some(x),
            decreases files@.len() - i,
        {
            match preset_name_from_file(&files[i]) {
                Some(n) => {
                    names.add(n);
                },
                None => {},
            }
            assert forall|x: Seq<char>|
                names@.contains(x) <==> exists|j: int|
                    0 <= j < i + 1 && preset_name_of(#[trigger] files@[j]@) == Some(x) by {
                if preset_name_of(files@[i as int]@) == Some(x) {
                    assert(0 <= i < i + 1);
                }
            }
            i += 1;
        }
        PresetManager { base_dir, names, documents, registry }
    }

    /// The directory holding the preset documents.
    pub fn presets_dir(&self) -> (r: String)
        ensures
            r@ == joined(self@.base, "presets"@),
    {
        join_path(&self.base_dir, &String::from_str("presets"))
    }

    /// The file holding the document of preset `name`.
    pub fn preset_file(&self, name: &String) -> (r: String)
        ensures
            r@ == joined(joined(self@.base, "presets"@), name@ + ".toml"@),
    {
        let dir = self.presets_dir();
        let mut file = name.clone();
        file.append(".toml");
        join_path(&dir, &file)
    }

    /// The file holding the link registry.
    pub fn links_file(&self) -> (r: String)
        ensures
            r@ == joined(self@.base, "links.toml"@),
    {
        join_path(&self.base_dir, &String::from_str("links.toml"))
    }

    /// The names of the stored presets, sorted.
    pub fn list(&self) -> (r: Vec<String>)
        ensures
            texts(r@) == self@.names,
            strictly_sorted(texts(r@)),
    {
        self.names.to_vec()
    }

    /// Whether a document for `name` exists.
    pub fn preset_exists(&self, name: &String) -> (r: bool)
        ensures
            r == self@.names.contains(name@),
    {
        self.names.contains(name)
    }

    /// The document of preset `name`.
    pub fn load(&self, name: &String) -> (r: Result<Preset, StoreError>)
        ensures
            r matches Ok(p) ==> load_result(self@, name@) == Ok::<PresetView, StoreError>(p@),
            r matches Err(e) ==> load_result(self@, name@) == Err::<PresetView, StoreError>(e),
    {
        if !self.preset_exists(name) {
            return Err(StoreError::NotFound);
        }
        let ghost ps = documents_view(self.documents@);
        let mut i: usize = 0;
        while i < self.documents.len()
            invariant
                ps == documents_view(self.documents@),
                self@.names.contains(name@),
                0 <= i <= ps.len(),
                forall|j: int| 0 <= j < i ==> (#[trigger] ps[j]).name != name@,
            decreases ps.len() - i,
        {
            if self.documents[i].name == *name {
                assert(is_first_named(ps, name@, i as int));
                let ghost k = choose|k: int| is_first_named(ps, name@, k);
                assert(k == i) by {
                    if k < i {
                        assert(ps[k].name != name@);
                    } else if k > i {
                        assert(ps[i as int].name != name@);
                    }
                }
                let p = copy_preset(&self.documents[i].preset);
                assert(ps[i as int] == self.documents@[i as int]@);
                assert(self@.documents == ps);
                assert(load_result(self@, name@) == Ok::<PresetView, StoreError>(p@));
                return Ok(p);
            }
            i += 1;
        }
        assert forall|k: int| !is_first_named(ps, name@, k) by {
            if 0 <= k < ps.len() {
                assert(ps[k].name != name@);
            }
        }
        Err(StoreError::ParseError)
    }

    /// Captures `walked`, the items found under `source` (relative paths, in
    /// traversal order, the root itself excluded), as preset `name`, keeping
    /// the items that `patterns` includes. Returns the document to write,
    /// which replaces any earlier one of the same name.
    pub fn commit(&mut self, name: &String, source: &String, walked: &Vec<PresetEntry>, patterns: Option<&Vec<String>>) -> (r: Preset)
        ensures
            r@ == captured(name@, source@, entries_view(walked@), pattern_texts(patterns)),
            patterns matches Some(ps) ==> forall|k: int|
                0 <= k < ps@.len() && plain_glob(#[trigger] ps@[k]@) ==> glob_compiles(ps@[k]@),
            commit_post(old(self)@, final(self)@, r@),
    {
        let entries = filter_entries(walked, patterns);
        let preset = Preset { name: name.clone(), source: source.clone(), entries };
        let ghost ps = documents_view(self.documents@);
        let ghost keep = not_named(name@);
        let mut kept: Vec<PresetDocument> = Vec::new();
        let mut i: usize = 0;
        while i < self.documents.len()
            invariant
                ps == documents_view(self.documents@),
                keep == not_named(name@),
                patterns matches Some(ps) ==> forall|k: int|
                    0 <= k < ps@.len() && plain_glob(#[trigger] ps@[k]@) ==> glob_compiles(ps@[k]@),
                0 <= i <= ps.len(),
                documents_view(kept@) == ps.subrange(0, i as int).filter(keep),
            decreases ps.len() - i,
        {
            proof {
                reveal(Seq::filter);
                assert(ps.subrange(0, i + 1).drop_last() =~= ps.subrange(0, i as int));
            }
            let ghost prev = kept@;
            if self.documents[i].name != *name {
                kept.push(copy_document(&self.documents[i]));
                assert(documents_view(kept@) =~= documents_view(prev).push(ps[i as int]));
            }
            i += 1;
        }
        assert(ps.subrange(0, ps.len() as int) =~= ps);
        let ghost pv = DocumentView { name: name@, preset: preset@ };
        kept.push(PresetDocument { name: name.clone(), preset: copy_preset(&preset) });
        self.documents = kept;
        self.names.add(name.clone());
        assert(documents_view(self.documents@) =~= ps.filter(keep).push(pv));
        preset
    }

    /// Records that `preset_name` is linked at `target` (an absolute,
    /// canonical path) at time `linked_at`: the pair's record is refreshed, or
    /// one is added.
    pub fn add_link(&mut self, preset_name: &String, target: &String, linked_at: String)
        ensures
            links_changed(old(self)@, final(self)@),
            final(self)@.links == upserted(old(self)@.links, preset_name@, target@, linked_at@),
    {
        self.registry.upsert(preset_name, target, linked_at);
    }

    /// Drops every record at `target` (an absolute, canonical path), whatever
    /// its preset; returns the preset of the first such record.
    pub fn remove_link(&mut self, target: &String) -> (r: Option<String>)
        ensures
            links_changed(old(self)@, final(self)@),
            final(self)@.links == old(self)@.links.filter(not_at_target(target@)),
            r matches Some(p) ==> first_preset_at(old(self)@.links, target@) == Some(p@),
            r is None ==> first_preset_at(old(self)@.links, target@) is None,
    {
        self.registry.remove_target(target)
    }

    /// The targets recorded for `preset_name`, in registry order.
    pub fn get_links(&self, preset_name: &String) -> (r: Vec<String>)
        ensures
            texts(r@) == targets_of(self@.links, preset_name@),
    {
        self.registry.targets_for(preset_name)
    }

    /// Drops every record whose target is among `missing`, the targets found
    /// to exist no more; returns how many were dropped.
    pub fn cleanup_broken_links(&mut self, missing: &Vec<String>) -> (removed: usize)
        ensures
            links_changed(old(self)@, final(self)@),
            final(self)@.links == old(self)@.links.filter(target_present(texts(missing@))),
            removed == old(self)@.links.len() - final(self)@.links.len(),
    {
        self.registry.remove_missing(missing)
    }

    /// Drops every record of `preset_name`; returns how many were dropped.
    pub fn remove_links_for_preset(&mut self, preset_name: &String) -> (removed: usize)
        ensures
            links_changed(old(self)@, final(self)@),
            final(self)@.links == old(self)@.links.filter(not_of_preset(preset_name@)),
            removed == old(self)@.links.len() - final(self)@.links.len(),
    {
        self.registry.remove_preset(preset_name)
    }

    /// Deletes the document of `name`, and its link records too when
    /// `remove_link_records` is set. Fails with `NotFound`, changing nothing,
    /// when no document exists for `name`.
    pub fn delete(&mut self, name: &String, remove_link_records: bool) -> (r: Result<(), StoreError>)
        ensures
            r is Err <==> !old(self)@.names.contains(name@),
            r matches Err(e) ==> e == StoreError::NotFound && final(self)@ == old(self)@,
            r is Ok ==> delete_post(old(self)@, final(self)@, name@, remove_link_records),
    {
        if !self.preset_exists(name) {
            return Err(StoreError::NotFound);
        }
        let ghost ps = documents_view(self.documents@);
        let ghost keep = not_named(name@);
        let mut kept: Vec<PresetDocument> = Vec::new();
        let mut i: usize = 0;
        while i < self.documents.len()
            invariant
                ps == documents_view(self.documents@),
                keep == not_named(name@),
                0 <= i <= ps.len(),
                documents_view(kept@) == ps.subrange(0, i as int).filter(keep),
            decreases ps.len() - i,
        {
            proof {
                reveal(Seq::filter);
                assert(ps.subrange(0, i + 1).drop_last() =~= ps.subrange(0, i as int));
            }
            let ghost prev = kept@;
            if self.documents[i].name != *name {
                kept.push(copy_document(&self.documents[i]));
                assert(documents_view(kept@) =~= documents_view(prev).push(ps[i as int]));
            }
            i += 1;
        }
        assert(ps.subrange(0, ps.len() as int) =~= ps);
        self.documents = kept;
        self.names.remove(name);
        if remove_link_records {
            self.registry.remove_preset(name);
        }
        Ok(())
    }

    /// The link registry, to be written back after a change.
    pub fn registry(&self) -> (r: &LinksRegistry)
        ensures
            r@ == self@.links,
    {
        &self.registry
    }
}

/// Committing a preset and then loading it by name gives back exactly what
/// was captured: the walked entries that the patterns include, in walk order.
pub proof fn lemma_commit_then_load(
    before: ManagerView,
    after: ManagerView,
    name: Seq<char>,
    source: Seq<char>,
    walked: Seq<EntryView>,
    patterns: Option<Seq<Seq<char>>>,
)
    requires
        commit_post(before, after, captured(name, source, walked, patterns)),
    ensures
        load_result(after, name) == Ok::<PresetView, StoreError>(captured(name, source, walked, patterns)),
{
    let p = captured(name, source, walked, patterns);
    let others = before.documents.filter(not_named(name));
    let last = others.len() as int;
    assert(after.names.contains(name));
    assert forall|j: int| 0 <= j < last implies (#[trigger] after.documents[j]).name != name by {
        before.documents.lemma_filter_pred(not_named(name), j);
    }
    assert(is_first_named(after.documents, name, last));
    let k = choose|k: int| is_first_named(after.documents, name, k);
    assert(k == last) by {
        if k < last {
            assert(after.documents[k].name != name);
        }
    }
}

/// Deleting a preset leaves no document for it; with `remove_links` it also
/// leaves no record of it in the registry, and without it the registry is
/// untouched.
pub proof fn lemma_delete_semantics(before: ManagerView, after: ManagerView, name: Seq<char>, remove_links: bool)
    requires
        delete_post(before, after, name, remove_links),
    ensures
        load_result(after, name) == Err::<PresetView, StoreError>(StoreError::NotFound),
        remove_links ==> forall|i: int| 0 <= i < after.links.len() ==> (#[trigger] after.links[i]).preset != name,
        remove_links ==> targets_of(after.links, name).len() == 0,
        !remove_links ==> after.links == before.links,
{
    if remove_links {
        assert forall|i: int| 0 <= i < after.links.len() implies (#[trigger] after.links[i]).preset != name by {
            before.links.lemma_filter_pred(not_of_preset(name), i);
        }
        let mine = after.links.filter(of_preset(name));
        if mine.len() > 0 {
            after.links.lemma_filter_pred(of_preset(name), 0);
            assert(mine.contains(mine[0]));
            after.links.lemma_filter_contains_rev(of_preset(name), mine[0]);
        }
    }
}

/// With a non-empty pattern set whose patterns all compile (as `commit`
/// shows of every pattern with no `[` and no two `*` in a row, such as
/// `*.ext`), committing and then loading gives exactly the walked entries
/// whose relative path one of the patterns matches, in walk order.
pub proof fn lemma_commit_then_load_matching(
    before: ManagerView,
    after: ManagerView,
    name: Seq<char>,
    source: Seq<char>,
    walked: Seq<EntryView>,
    patterns: Seq<Seq<char>>,
)
    requires
        commit_post(before, after, captured(name, source, walked, Some(patterns))),
        patterns.len() > 0,
        forall|k: int| 0 <= k < patterns.len() ==> glob_compiles(#[trigger] patterns[k]),
    ensures
        load_result(after, name) == Ok::<PresetView, StoreError>(
            PresetView {
                name,
                source,
                entries: walked.filter(
                    |e: EntryView| exists|k: int| 0 <= k < patterns.len() && glob_matches(patterns[k], e.path),
                ),
            },
        ),
{
    lemma_commit_then_load(before, after, name, source, walked, Some(patterns));
    lemma_all_usable(patterns);
    let by_usable = |e: EntryView| selected(usable_patterns(patterns), e.path);
    let by_match = |e: EntryView| exists|k: int| 0 <= k < patterns.len() && glob_matches(patterns[k], e.path);
    assert(by_usable =~= by_match);
}

} // verus!
