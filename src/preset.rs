//! The persisted data model: presets, their entries, and link records.

use vstd::prelude::*;

verus! {

/// One captured item under a preset's source root.
#[derive(Debug, Clone)]
pub struct PresetEntry {
    /// Path relative to the preset's source.
    pub path: String,
    /// Whether the item is a directory.
    pub is_dir: bool,
}

/// The mathematical value of a [`PresetEntry`].
pub struct EntryView {
    pub path: Seq<char>,
    pub is_dir: bool,
}

impl View for PresetEntry {
    type V = EntryView;

    open spec fn view(&self) -> EntryView {
        EntryView { path: self.path@, is_dir: self.is_dir }
    }
}

/// The views of a sequence of entries.
pub open spec fn entries_view(s: Seq<PresetEntry>) -> Seq<EntryView> {
    s.map_values(|e: PresetEntry| e@)
}

/// A named snapshot of a directory's structure.
#[derive(Debug, Clone)]
pub struct Preset {
    /// Identity of the preset.
    pub name: String,
    /// Absolute path of the captured directory.
    pub source: String,
    /// Captured items, in traversal order.
    pub entries: Vec<PresetEntry>,
}

/// The mathematical value of a [`Preset`].
pub struct PresetView {
    pub name: Seq<char>,
    pub source: Seq<char>,
    pub entries: Seq<EntryView>,
}

impl View for Preset {
    type V = PresetView;

    open spec fn view(&self) -> PresetView {
        PresetView { name: self.name@, source: self.source@, entries: entries_view(self.entries@) }
    }
}

/// A stored preset document, under the preset name that its file gives.
#[derive(Debug, Clone)]
pub struct PresetDocument {
    /// The preset name taken from the document's file name.
    pub name: String,
    /// What the document holds.
    pub preset: Preset,
}

/// The mathematical value of a [`PresetDocument`].
pub struct DocumentView {
    pub name: Seq<char>,
    pub preset: PresetView,
}

impl View for PresetDocument {
    type V = DocumentView;

    open spec fn view(&self) -> DocumentView {
        DocumentView { name: self.name@, preset: self.preset@ }
    }
}

/// One materialization of a preset at a target that opted into tracking.
#[derive(Debug, Clone)]
pub struct LinkRecord {
    /// Name of the preset.
    pub preset: String,
    /// Absolute path of the target directory.
    pub target: String,
    /// When the link was made or last refreshed (RFC 3339).
    pub linked_at: String,
}

/// The mathematical value of a [`LinkRecord`].
pub struct LinkRecordView {
    pub preset: Seq<char>,
    pub target: Seq<char>,
    pub linked_at: Seq<char>,
}

impl View for LinkRecord {
    type V = LinkRecordView;

    open spec fn view(&self) -> LinkRecordView {
        LinkRecordView { preset: self.preset@, target: self.target@, linked_at: self.linked_at@ }
    }
}

/// The views of a sequence of link records.
pub open spec fn records_view(s: Seq<LinkRecord>) -> Seq<LinkRecordView> {
    s.map_values(|r: LinkRecord| r@)
}

/// Every tracked materialization, in the order recorded.
#[derive(Debug, Clone)]
pub struct LinksRegistry {
    /// The link records.
    pub links: Vec<LinkRecord>,
}

impl View for LinksRegistry {
    type V = Seq<LinkRecordView>;

    open spec fn view(&self) -> Seq<LinkRecordView> {
        records_view(self.links@)
    }
}

impl LinksRegistry {
    /// An empty registry.
    pub fn new() -> (r: LinksRegistry)
        ensures
            r@ == Seq::<LinkRecordView>::empty(),
    {
        let r = LinksRegistry { links: Vec::new() };
        assert(r@ =~= Seq::<LinkRecordView>::empty());
        r
    }
}

} // verus!
