//! Selecting captured entries by glob patterns.
//!
//! A pattern set includes an entry when any of its patterns matches the
//! entry's relative path. Patterns that do not compile are dropped; a set with
//! no usable pattern (or no set at all) includes everything.

use vstd::prelude::*;
use crate::preset::{entries_view, EntryView, PresetEntry};

verus! {

#[verifier::external_type_specification]
#[verifier::external_body]
pub struct ExPattern(glob::Pattern);

/// Whether `glob::Pattern::new` accepts the pattern text.
pub uninterp spec fn glob_compiles(pattern: Seq<char>) -> bool;

/// Whether the compiled pattern matches a path under glob's default options.
pub uninterp spec fn glob_matches(pattern: Seq<char>, path: Seq<char>) -> bool;

/// A pattern with no `[` and no two `*` in a row; glob compiles every such
/// pattern.
pub open spec fn plain_glob(p: Seq<char>) -> bool {
    &&& forall|i: int| 0 <= i < p.len() ==> p[i] != '['
    &&& forall|i: int| 0 <= i < p.len() - 1 ==> !(#[trigger] p[i] == '*' && p[i + 1] == '*')
}

/// A compiled glob pattern together with the text it was compiled from.
///
/// The fields are private and only [`GlobPattern::compile`] builds one, so
/// `compiled` is always the compilation of `text`.
pub(crate) struct GlobPattern {
    text: String,
    compiled: glob::Pattern,
}

impl View for GlobPattern {
    type V = Seq<char>;

    closed spec fn view(&self) -> Seq<char> {
        self.text@
    }
}

impl GlobPattern {
    /// Relies on `glob::Pattern::new`: it succeeds or fails on the pattern
    /// text alone, and fails only on a `[` that it cannot close, on three or
    /// more `*` in a row, or on a `**` that is not a whole path component.
    #[verifier::external_body]
    pub(crate) fn compile(text: &String) -> (r: Option<GlobPattern>)
        ensures
            r.is_some() == glob_compiles(text@),
            plain_glob(text@) ==> r.is_some(),
            r matches Some(g) ==> g@ == text@,
    {
        match glob::Pattern::new(text) {
            Ok(compiled) => Some(GlobPattern { text: text.clone(), compiled }),
            Err(_) => None,
        }
    }

    /// Relies on `glob::Pattern::matches`: whether the pattern matches `path`
    /// with the default match options.
    #[verifier::external_body]
    pub(crate) fn matches(&self, path: &String) -> (r: bool)
        ensures
            r == glob_matches(self@, path@),
    {
        self.compiled.matches(path)
    }
}

/// The pattern texts that compile, in the order given.
pub open spec fn usable_patterns(patterns: Seq<Seq<char>>) -> Seq<Seq<char>> {
    patterns.filter(|p: Seq<char>| glob_compiles(p))
}

/// Whether a set of per-pattern match results includes an entry: it does
/// when there was no usable pattern or when one of them matched.
pub open spec fn included_by(results: Seq<bool>) -> bool {
    results.len() == 0 || results.contains(true)
}

/// Whether the usable patterns include the relative path `path`.
pub open spec fn selected(usable: Seq<Seq<char>>, path: Seq<char>) -> bool {
    usable.len() == 0 || exists|k: int| 0 <= k < usable.len() && glob_matches(usable[k], path)
}

/// The entries that a pattern set keeps, in the order given.
pub open spec fn selected_entries(entries: Seq<EntryView>, patterns: Option<Seq<Seq<char>>>) -> Seq<EntryView> {
    match patterns {
        None => entries,
        Some(ps) => entries.filter(|e: EntryView| selected(usable_patterns(ps), e.path)),
    }
}

/// The texts of a sequence of strings.
pub open spec fn texts(s: Seq<String>) -> Seq<Seq<char>> {
    s.map_values(|x: String| x@)
}

/// Decides inclusion from the results of matching each usable pattern.
pub fn is_included(results: &Vec<bool>) -> (r: bool)
    ensures
        r == included_by(results@),
{
    if results.len() == 0 {
        return true;
    }
    let mut i: usize = 0;
    while i < results.len()
        invariant
            0 <= i <= results@.len(),
            forall|j: int| 0 <= j < i ==> !results@[j],
        decreases results@.len() - i,
    {
        if results[i] {
            assert(results@[i as int] == true);
            return true;
        }
        i += 1;
    }
    assert(!results@.contains(true));
    false
}

/// Compiles the patterns, dropping those that do not compile.
pub(crate) fn compile_patterns(patterns: &Vec<String>) -> (r: Vec<GlobPattern>)
    ensures
        r@.map_values(|g: GlobPattern| g@) == usable_patterns(texts(patterns@)),
        forall|k: int| 0 <= k < patterns@.len() && plain_glob(#[trigger] patterns@[k]@) ==> glob_compiles(patterns@[k]@),
{
    let mut r: Vec<GlobPattern> = Vec::new();
    let mut i: usize = 0;
    while i < patterns.len()
        invariant
            0 <= i <= patterns@.len(),
            r@.map_values(|g: GlobPattern| g@) == usable_patterns(texts(patterns@).subrange(0, i as int)),
            forall|k: int| 0 <= k < i && plain_glob(#[trigger] patterns@[k]@) ==> glob_compiles(patterns@[k]@),
        decreases patterns@.len() - i,
    {
        let ghost prev = r@;
        proof {
            reveal(Seq::filter);
            assert(texts(patterns@).subrange(0, i + 1).drop_last() =~= texts(patterns@).subrange(0, i as int));
        }
        match GlobPattern::compile(&patterns[i]) {
            Some(g) => {
                r.push(g);
                assert(r@.map_values(|g: GlobPattern| g@) =~= prev.map_values(|g: GlobPattern| g@).push(patterns@[i as int]@));
            },
            None => {},
        }
        i += 1;
    }
    assert(texts(patterns@).subrange(0, patterns@.len() as int) =~= texts(patterns@));
    r
}

/// The results of matching each compiled pattern against `path`.
fn match_results(compiled: &Vec<GlobPattern>, path: &String) -> (r: Vec<bool>)
    ensures
        r@.len() == compiled@.len(),
        forall|k: int| 0 <= k < r@.len() ==> r@[k] == glob_matches(compiled@[k]@, path@),
{
    let mut r: Vec<bool> = Vec::new();
    let mut i: usize = 0;
    while i < compiled.len()
        invariant
            0 <= i <= compiled@.len(),
            r@.len() == i,
            forall|k: int| 0 <= k < i ==> r@[k] == glob_matches(compiled@[k]@, path@),
        decreases compiled@.len() - i,
    {
        let m = compiled[i].matches(path);
        r.push(m);
        i += 1;
    }
    r
}

/// Keeps the entries that the pattern set includes, in the order given.
///
/// `None` and a set whose patterns all fail to compile keep every entry.
pub fn filter_entries(entries: &Vec<PresetEntry>, patterns: Option<&Vec<String>>) -> (r: Vec<PresetEntry>)
    ensures
        entries_view(r@) == selected_entries(
            entries_view(entries@),
            match patterns {
                None => None,
                Some(ps) => Some(texts(ps@)),
            },
        ),
        patterns matches Some(ps) ==> forall|k: int|
            0 <= k < ps@.len() && plain_glob(#[trigger] ps@[k]@) ==> glob_compiles(ps@[k]@),
{
    let compiled = match patterns {
        None => Vec::new(),
        Some(ps) => compile_patterns(ps),
    };
    let ghost usable = compiled@.map_values(|g: GlobPattern| g@);
    let mut r: Vec<PresetEntry> = Vec::new();
    let mut i: usize = 0;
    while i < entries.len()
        invariant
            0 <= i <= entries@.len(),
            usable == compiled@.map_values(|g: GlobPattern| g@),
            entries_view(r@) == entries_view(entries@).subrange(0, i as int).filter(
                |e: EntryView| selected(usable, e.path),
            ),
        decreases entries@.len() - i,
    {
        let e = &entries[i];
        let results = match_results(&compiled, &e.path);
        let keep = is_included(&results);
        proof {
            reveal(Seq::filter);
            assert(entries_view(entries@).subrange(0, i + 1).drop_last()
                =~= entries_view(entries@).subrange(0, i as int));
            if keep {
                if usable.len() > 0 {
                    let k = choose|k: int| 0 <= k < results@.len() && results@[k] == true;
                    assert(glob_matches(usable[k], e.path@));
                }
            } else {
                assert forall|k: int| 0 <= k < usable.len() implies !glob_matches(usable[k], e.path@) by {
                    assert(results@[k] == glob_matches(usable[k], e.path@));
                    if results@[k] {
                        assert(results@.contains(true));
                    }
                }
            }
            assert(keep == selected(usable, e@.path));
        }
        let ghost prev = r@;
        if keep {
            r.push(PresetEntry { path: e.path.clone(), is_dir: e.is_dir });
            assert(entries_view(r@) =~= entries_view(prev).push(entries@[i as int]@));
        }
        i += 1;
    }
    proof {
        assert(entries_view(entries@).subrange(0, entries@.len() as int) =~= entries_view(entries@));
        if patterns.is_none() {
            assert(usable =~= Seq::<Seq<char>>::empty());
            lemma_filter_all(entries_view(entries@), |e: EntryView| selected(usable, e.path));
        }
    }
    r
}

/// When every pattern of a set compiles, all of them are usable: an entry is
/// kept exactly when one of the patterns matches its path.
pub proof fn lemma_all_usable(patterns: Seq<Seq<char>>)
    requires
        forall|k: int| 0 <= k < patterns.len() ==> glob_compiles(#[trigger] patterns[k]),
    ensures
        usable_patterns(patterns) == patterns,
    decreases patterns.len(),
{
    reveal(Seq::filter);
    if patterns.len() > 0 {
        let d = patterns.drop_last();
        assert forall|k: int| 0 <= k < d.len() implies glob_compiles(#[trigger] d[k]) by {
            assert(d[k] == patterns[k]);
        }
        lemma_all_usable(d);
        assert(glob_compiles(patterns[patterns.len() - 1]));
        assert(d.push(patterns.last()) =~= patterns);
    }
}

/// Filtering by a predicate that holds everywhere keeps the sequence.
pub proof fn lemma_filter_all<A>(s: Seq<A>, pred: spec_fn(A) -> bool)
    requires
        forall|x: A| #[trigger] pred(x),
    ensures
        s.filter(pred) == s,
    decreases s.len(),
{
    reveal(Seq::filter);
    if s.len() > 0 {
        lemma_filter_all(s.drop_last(), pred);
        assert(s.drop_last().push(s.last()) =~= s);
    }
}

} // verus!
