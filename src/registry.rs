//! Bookkeeping of the link registry: which preset was materialized where.
//!
//! Records are keyed by the pair (preset, target); adding a pair that is
//! already present refreshes its timestamp instead of adding a second record.

use vstd::prelude::*;
use crate::preset::{records_view, LinkRecord, LinkRecordView, LinksRegistry};
use crate::pattern::texts;

verus! {

/// A record for `preset` at `target` stamped with `linked_at`.
pub open spec fn record_of(preset: Seq<char>, target: Seq<char>, linked_at: Seq<char>) -> LinkRecordView {
    LinkRecordView { preset, target, linked_at }
}

/// Holds of the records for the pair (`preset`, `target`).
pub open spec fn for_pair(preset: Seq<char>, target: Seq<char>) -> spec_fn(LinkRecordView) -> bool {
    |r: LinkRecordView| r.preset == preset && r.target == target
}

/// Holds of the records of `preset`.
pub open spec fn of_preset(preset: Seq<char>) -> spec_fn(LinkRecordView) -> bool {
    |r: LinkRecordView| r.preset == preset
}

/// Holds of the records of every preset but `preset`.
pub open spec fn not_of_preset(preset: Seq<char>) -> spec_fn(LinkRecordView) -> bool {
    |r: LinkRecordView| r.preset != preset
}

/// Holds of the records whose target is not `target`.
pub open spec fn not_at_target(target: Seq<char>) -> spec_fn(LinkRecordView) -> bool {
    |r: LinkRecordView| r.target != target
}

/// Holds of the records whose target is not among `missing`.
pub open spec fn target_present(missing: Seq<Seq<char>>) -> spec_fn(LinkRecordView) -> bool {
    |r: LinkRecordView| !missing.contains(r.target)
}

/// Holds of the records whose target is among `missing`.
pub open spec fn target_missing(missing: Seq<Seq<char>>) -> spec_fn(LinkRecordView) -> bool {
    |r: LinkRecordView| missing.contains(r.target)
}

/// `i` is the first record for the pair (`preset`, `target`).
pub open spec fn is_first_for_pair(links: Seq<LinkRecordView>, preset: Seq<char>, target: Seq<char>, i: int) -> bool {
    &&& 0 <= i < links.len()
    &&& for_pair(preset, target)(links[i])
    &&& forall|j: int| 0 <= j < i ==> !for_pair(preset, target)(#[trigger] links[j])
}

/// `i` is the first record whose target is `target`.
pub open spec fn is_first_at_target(links: Seq<LinkRecordView>, target: Seq<char>, i: int) -> bool {
    &&& 0 <= i < links.len()
    &&& links[i].target == target
    &&& forall|j: int| 0 <= j < i ==> (#[trigger] links[j]).target != target
}

/// The registry after recording that `preset` was linked at `target` at time
/// `linked_at`: the first record of the pair gets the new time, or a new
/// record is appended when the pair is absent.
pub open spec fn upserted(links: Seq<LinkRecordView>, preset: Seq<char>, target: Seq<char>, linked_at: Seq<char>) -> Seq<LinkRecordView> {
    if exists|i: int| is_first_for_pair(links, preset, target, i) {
        let i = choose|i: int| is_first_for_pair(links, preset, target, i);
        links.update(i, record_of(preset, target, linked_at))
    } else {
        links.push(record_of(preset, target, linked_at))
    }
}

/// The preset of the first record at `target`, if any.
pub open spec fn first_preset_at(links: Seq<LinkRecordView>, target: Seq<char>) -> Option<Seq<char>> {
    if exists|i: int| is_first_at_target(links, target, i) {
        Some(links[choose|i: int| is_first_at_target(links, target, i)].preset)
    } else {
        None
    }
}

/// The targets recorded for `preset`, in registry order.
pub open spec fn targets_of(links: Seq<LinkRecordView>, preset: Seq<char>) -> Seq<Seq<char>> {
    links.filter(of_preset(preset)).map_values(|r: LinkRecordView| r.target)
}

/// A fresh copy of a record.
fn copy_record(r: &LinkRecord) -> (c: LinkRecord)
    ensures
        c@ == r@,
{
    LinkRecord { preset: r.preset.clone(), target: r.target.clone(), linked_at: r.linked_at.clone() }
}

impl LinksRegistry {
    /// Records that `preset` was linked at `target` at time `linked_at`:
    /// refreshes the time of the pair's record, or appends one.
    pub fn upsert(&mut self, preset: &String, target: &String, linked_at: String)
        ensures
            final(self)@ == upserted(old(self)@, preset@, target@, linked_at@),
    {
        let ghost links = self@;
        let mut i: usize = 0;
        let mut found: bool = false;
        while i < self.links.len()
            invariant
                self@ == links,
                0 <= i <= links.len(),
                forall|j: int| 0 <= j < i ==> !for_pair(preset@, target@)(#[trigger] links[j]),
                found ==> i < links.len() && for_pair(preset@, target@)(links[i as int]),
            ensures
                !found ==> i == links.len(),
            decreases links.len() - i,
        {
            if self.links[i].preset == *preset && self.links[i].target == *target {
                found = true;
                break;
            }
            i += 1;
        }
        let rec = LinkRecord { preset: preset.clone(), target: target.clone(), linked_at };
        if found {
            assert(is_first_for_pair(links, preset@, target@, i as int));
            let ghost k = choose|k: int| is_first_for_pair(links, preset@, target@, k);
            assert(k == i) by {
                if k < i {
                    assert(!for_pair(preset@, target@)(links[k]));
                } else if k > i {
                    assert(!for_pair(preset@, target@)(links[i as int]));
                }
            }
            self.links.set(i, rec);
        } else {
            assert forall|k: int| !is_first_for_pair(links, preset@, target@, k) by {
                if 0 <= k < links.len() {
                    assert(!for_pair(preset@, target@)(links[k]));
                }
            }
            self.links.push(rec);
        }
        assert(self@ =~= upserted(links, preset@, target@, linked_at@));
    }

    /// The targets recorded for `preset`, in registry order.
    pub fn targets_for(&self, preset: &String) -> (r: Vec<String>)
        ensures
            texts(r@) == targets_of(self@, preset@),
    {
        let ghost links = self@;
        let mut r: Vec<String> = Vec::new();
        let mut i: usize = 0;
        while i < self.links.len()
            invariant
                links == self@,
                0 <= i <= links.len(),
                texts(r@) == links.subrange(0, i as int).filter(of_preset(preset@)).map_values(
                    |r: LinkRecordView| r.target,
                ),
            decreases links.len() - i,
        {
            proof {
                reveal(Seq::filter);
                assert(links.subrange(0, i + 1).drop_last() =~= links.subrange(0, i as int));
            }
            let ghost prev = r@;
            if self.links[i].preset == *preset {
                r.push(self.links[i].target.clone());
                assert(texts(r@) =~= texts(prev).push(links[i as int].target));
                assert(links.subrange(0, i + 1).filter(of_preset(preset@)) == links.subrange(0, i as int).filter(
                    of_preset(preset@),
                ).push(links[i as int]));
                assert(texts(r@) =~= links.subrange(0, i + 1).filter(of_preset(preset@)).map_values(
                    |r: LinkRecordView| r.target,
                ));
            }
            i += 1;
        }
        assert(links.subrange(0, links.len() as int) =~= links);
        r
    }

    /// Removes every record whose target is `target` and returns the preset
    /// of the first such record.
    pub fn remove_target(&mut self, target: &String) -> (r: Option<String>)
        ensures
            final(self)@ == old(self)@.filter(not_at_target(target@)),
            r matches Some(p) ==> first_preset_at(old(self)@, target@) == Some(p@),
            r is None ==> first_preset_at(old(self)@, target@) is None,
    {
        let ghost links = self@;
        let mut found: Option<String> = None;
        let mut kept: Vec<LinkRecord> = Vec::new();
        let mut i: usize = 0;
        while i < self.links.len()
            invariant
                links == self@,
                0 <= i <= links.len(),
                records_view(kept@) == links.subrange(0, i as int).filter(not_at_target(target@)),
                found is None ==> forall|j: int| 0 <= j < i ==> (#[trigger] links[j]).target != target@,
                found matches Some(p) ==> exists|k: int| is_first_at_target(links, target@, k) && links[k].preset == p@,
            decreases links.len() - i,
        {
            proof {
                reveal(Seq::filter);
                assert(links.subrange(0, i + 1).drop_last() =~= links.subrange(0, i as int));
            }
            let ghost prev = kept@;
            if self.links[i].target == *target {
                if found.is_none() {
                    assert(is_first_at_target(links, target@, i as int));
                    found = Some(self.links[i].preset.clone());
                }
            } else {
                kept.push(copy_record(&self.links[i]));
                assert(records_view(kept@) =~= records_view(prev).push(links[i as int]));
            }
            i += 1;
        }
        assert(links.subrange(0, links.len() as int) =~= links);
        proof {
            if found is None {
                assert(!exists|k: int| is_first_at_target(links, target@, k));
            } else {
                let k = choose|k: int| is_first_at_target(links, target@, k) && links[k].preset == found->0@;
                let c = choose|c: int| is_first_at_target(links, target@, c);
                assert(c == k) by {
                    if c < k {
                        assert(links[c].target != target@);
                    } else if k < c {
                        assert(links[k].target != target@);
                    }
                }
            }
        }
        self.links = kept;
        found
    }

    /// Removes every record of `preset`; returns how many were removed.
    pub fn remove_preset(&mut self, preset: &String) -> (removed: usize)
        ensures
            final(self)@ == old(self)@.filter(not_of_preset(preset@)),
            removed == old(self)@.len() - final(self)@.len(),
    {
        let ghost links = self@;
        let mut kept: Vec<LinkRecord> = Vec::new();
        let mut i: usize = 0;
        while i < self.links.len()
            invariant
                links == self@,
                0 <= i <= links.len(),
                kept@.len() <= i,
                records_view(kept@) == links.subrange(0, i as int).filter(not_of_preset(preset@)),
            decreases links.len() - i,
        {
            proof {
                reveal(Seq::filter);
                assert(links.subrange(0, i + 1).drop_last() =~= links.subrange(0, i as int));
            }
            let ghost prev = kept@;
            if self.links[i].preset != *preset {
                kept.push(copy_record(&self.links[i]));
                assert(records_view(kept@) =~= records_view(prev).push(links[i as int]));
            }
            i += 1;
        }
        assert(links.subrange(0, links.len() as int) =~= links);
        let removed = self.links.len() - kept.len();
        self.links = kept;
        removed
    }

    /// Removes every record whose target is among `missing`; returns how
    /// many were removed.
    pub fn remove_missing(&mut self, missing: &Vec<String>) -> (removed: usize)
        ensures
            final(self)@ == old(self)@.filter(target_present(texts(missing@))),
            removed == old(self)@.len() - final(self)@.len(),
    {
        let ghost links = self@;
        let ghost gone = texts(missing@);
        let mut kept: Vec<LinkRecord> = Vec::new();
        let mut i: usize = 0;
        while i < self.links.len()
            invariant
                links == self@,
                gone == texts(missing@),
                0 <= i <= links.len(),
                kept@.len() <= i,
                records_view(kept@) == links.subrange(0, i as int).filter(target_present(gone)),
            decreases links.len() - i,
        {
            proof {
                reveal(Seq::filter);
                assert(links.subrange(0, i + 1).drop_last() =~= links.subrange(0, i as int));
            }
            let ghost prev = kept@;
            let is_missing = contains_text(missing, &self.links[i].target);
            if !is_missing {
                kept.push(copy_record(&self.links[i]));
                assert(records_view(kept@) =~= records_view(prev).push(links[i as int]));
            }
            i += 1;
        }
        assert(links.subrange(0, links.len() as int) =~= links);
        let removed = self.links.len() - kept.len();
        self.links = kept;
        removed
    }
}

/// Whether `s` occurs among `items`.
pub fn contains_text(items: &Vec<String>, s: &String) -> (r: bool)
    ensures
        r == texts(items@).contains(s@),
{
    let mut i: usize = 0;
    while i < items.len()
        invariant
            0 <= i <= items@.len(),
            forall|j: int| 0 <= j < i ==> items@[j]@ != s@,
        decreases items@.len() - i,
    {
        if items[i] == *s {
            assert(texts(items@)[i as int] == s@);
            return true;
        }
        i += 1;
    }
    assert(!texts(items@).contains(s@)) by {
        if texts(items@).contains(s@) {
            let j = choose|j: int| 0 <= j < texts(items@).len() && texts(items@)[j] == s@;
            assert(items@[j]@ == s@);
        }
    }
    false
}

/// Holds of the texts equal to `t`.
pub open spec fn equal_to(t: Seq<char>) -> spec_fn(Seq<char>) -> bool {
    |x: Seq<char>| x == t
}

/// Adding the same link twice, to a registry that holds at most one record
/// for the pair, leaves exactly one record for it, stamped with the second
/// time, and the preset's targets then list the target exactly once.
pub proof fn lemma_add_link_twice(
    links: Seq<LinkRecordView>,
    preset: Seq<char>,
    target: Seq<char>,
    first: Seq<char>,
    second: Seq<char>,
)
    requires
        links.filter(for_pair(preset, target)).len() <= 1,
    ensures
        upserted(upserted(links, preset, target, first), preset, target, second).filter(for_pair(preset, target))
            == seq![record_of(preset, target, second)],
        targets_of(upserted(upserted(links, preset, target, first), preset, target, second), preset).filter(
            equal_to(target),
        ) == seq![target],
{
    let once = upserted(links, preset, target, first);
    let twice = upserted(once, preset, target, second);
    lemma_upsert_single(links, preset, target, first);
    lemma_upsert_single(once, preset, target, second);
    lemma_targets_of_pair(twice, preset, target);
    assert(seq![record_of(preset, target, second)].map_values(|r: LinkRecordView| r.target) =~= seq![target]);
}

/// Upserting into a registry with at most one record for the pair leaves
/// exactly one, the new one.
pub proof fn lemma_upsert_single(links: Seq<LinkRecordView>, preset: Seq<char>, target: Seq<char>, linked_at: Seq<char>)
    requires
        links.filter(for_pair(preset, target)).len() <= 1,
    ensures
        upserted(links, preset, target, linked_at).filter(for_pair(preset, target)) == seq![
            record_of(preset, target, linked_at),
        ],
{
    let pred = for_pair(preset, target);
    let rec = record_of(preset, target, linked_at);
    if exists|i: int| is_first_for_pair(links, preset, target, i) {
        let i = choose|i: int| is_first_for_pair(links, preset, target, i);
        links.lemma_filter_contains(pred, i);
        let f = links.filter(pred);
        let j = choose|j: int| 0 <= j < f.len() && f[j] == links[i];
        assert(f =~= seq![links[i]]);
        lemma_update_single(links, pred, i, rec);
    } else {
        let f = links.filter(pred);
        if f.len() == 1 {
            assert(f.contains(f[0]));
            links.lemma_filter_contains_rev(pred, f[0]);
            links.lemma_filter_pred(pred, 0);
            let i = choose|i: int| 0 <= i < links.len() && links[i] == f[0];
            lemma_first_exists(links, preset, target, i);
        }
        assert(f =~= Seq::<LinkRecordView>::empty());
        reveal(Seq::filter);
        assert(links.push(rec).drop_last() =~= links);
        assert(links.push(rec).filter(pred) =~= seq![rec]);
    }
}

/// A record for the pair at `i` means the pair has a first record.
pub proof fn lemma_first_exists(links: Seq<LinkRecordView>, preset: Seq<char>, target: Seq<char>, i: int)
    requires
        0 <= i < links.len(),
        for_pair(preset, target)(links[i]),
    ensures
        exists|k: int| is_first_for_pair(links, preset, target, k),
    decreases i,
{
    if exists|j: int| 0 <= j < i && for_pair(preset, target)(#[trigger] links[j]) {
        let j = choose|j: int| 0 <= j < i && for_pair(preset, target)(#[trigger] links[j]);
        lemma_first_exists(links, preset, target, j);
    } else {
        assert(is_first_for_pair(links, preset, target, i));
    }
}

/// Replacing the only element that a predicate keeps by another that it
/// keeps leaves the replacement as the only element kept.
pub proof fn lemma_update_single<A>(s: Seq<A>, pred: spec_fn(A) -> bool, i: int, y: A)
    requires
        0 <= i < s.len(),
        pred(y),
        s.filter(pred) == seq![s[i]],
    ensures
        s.update(i, y).filter(pred) == seq![y],
    decreases s.len(),
{
    reveal(Seq::filter);
    let d = s.drop_last();
    let u = s.update(i, y);
    s.lemma_filter_pred(pred, 0);
    assert(pred(s[i]));
    assert(u.len() == s.len());
    if i == s.len() - 1 {
        assert(s.filter(pred) == d.filter(pred).push(s.last()));
        assert(u.drop_last() =~= d);
        assert(d.filter(pred) =~= Seq::<A>::empty());
        assert(u.filter(pred) == d.filter(pred).push(y));
        assert(u.filter(pred) =~= seq![y]);
    } else {
        assert(u.drop_last() =~= d.update(i, y));
        assert(d[i] == s[i]);
        if pred(s.last()) {
            assert(s.filter(pred) == d.filter(pred).push(s.last()));
            assert(d.filter(pred).len() == 0);
            d.lemma_filter_contains(pred, i);
            assert(false);
        }
        assert(s.filter(pred) == d.filter(pred));
        assert(d.filter(pred) == seq![d[i]]);
        lemma_update_single(d, pred, i, y);
        assert(u.last() == s.last());
        assert(u.filter(pred) == d.update(i, y).filter(pred));
    }
}

/// The occurrences of `target` among the preset's targets are the targets of
/// the records for the pair.
pub proof fn lemma_targets_of_pair(links: Seq<LinkRecordView>, preset: Seq<char>, target: Seq<char>)
    ensures
        targets_of(links, preset).filter(equal_to(target)) == links.filter(for_pair(preset, target)).map_values(
            |r: LinkRecordView| r.target,
        ),
    decreases links.len(),
{
    reveal(Seq::filter);
    if links.len() == 0 {
        assert(targets_of(links, preset) =~= Seq::<Seq<char>>::empty());
        assert(targets_of(links, preset).filter(equal_to(target)) =~= Seq::<Seq<char>>::empty());
    } else {
        let d = links.drop_last();
        let last = links.last();
        lemma_targets_of_pair(d, preset, target);
        if last.preset == preset {
            assert(targets_of(links, preset) =~= targets_of(d, preset).push(last.target));
            assert(targets_of(links, preset).drop_last() =~= targets_of(d, preset));
        } else {
            assert(targets_of(links, preset) =~= targets_of(d, preset));
        }
        let m = |r: LinkRecordView| r.target;
        if for_pair(preset, target)(last) {
            assert(links.filter(for_pair(preset, target)).map_values(m) =~= d.filter(for_pair(preset, target)).map_values(
                m,
            ).push(target));
        } else {
            assert(links.filter(for_pair(preset, target)).map_values(m) =~= d.filter(for_pair(preset, target)).map_values(
                m,
            ));
        }
    }
}

/// Dropping the records at missing targets removes as many records as there
/// are at missing targets, and afterwards no preset lists a missing target.
pub proof fn lemma_cleanup_broken(links: Seq<LinkRecordView>, missing: Seq<Seq<char>>, preset: Seq<char>)
    ensures
        links.len() - links.filter(target_present(missing)).len() == links.filter(target_missing(missing)).len(),
        forall|k: int|
            0 <= k < targets_of(links.filter(target_present(missing)), preset).len() ==> !missing.contains(
                #[trigger] targets_of(links.filter(target_present(missing)), preset)[k],
            ),
{
    lemma_filter_split_len(links, target_present(missing), target_missing(missing));
    let after = links.filter(target_present(missing));
    let mine = after.filter(of_preset(preset));
    assert forall|k: int| 0 <= k < targets_of(after, preset).len() implies !missing.contains(
        #[trigger] targets_of(after, preset)[k],
    ) by {
        assert(targets_of(after, preset)[k] == mine[k].target);
        assert(mine.contains(mine[k]));
        after.lemma_filter_contains_rev(of_preset(preset), mine[k]);
        let j = choose|j: int| 0 <= j < after.len() && after[j] == mine[k];
        links.lemma_filter_pred(target_present(missing), j);
    }
}

/// A predicate and its negation split a sequence's length between them.
pub proof fn lemma_filter_split_len<A>(s: Seq<A>, keep: spec_fn(A) -> bool, drop: spec_fn(A) -> bool)
    requires
        forall|x: A| #[trigger] drop(x) == !keep(x),
    ensures
        s.filter(keep).len() + s.filter(drop).len() == s.len(),
    decreases s.len(),
{
    reveal(Seq::filter);
    if s.len() > 0 {
        lemma_filter_split_len(s.drop_last(), keep, drop);
    }
}

} // verus!
