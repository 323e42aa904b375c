//! Materializing a preset at a target through symbolic links, and tearing
//! the links down again.
//!
//! The builder decides; the caller acts. [`SymlinkBuilder::apply`] turns a
//! preset into the steps that build it at a target, and
//! [`SymlinkBuilder::unlink`] picks, from what was found under a target, the
//! symbolic links to remove.

use vstd::prelude::*;
use crate::paths::{join_path, joined};
use crate::pattern::texts;
use crate::preset::{EntryView, Preset, PresetView};

verus! {

/// What a path is by its own metadata; a symbolic link is not followed.
#[derive(Debug, Clone, Copy, PartialEq, Eq, Structural)]
pub enum EntryKind {
    File,
    Directory,
    Symlink,
    Missing,
}

/// An item found under a target, with its kind.
#[derive(Debug, Clone)]
pub struct FoundEntry {
    /// The item's path.
    pub path: String,
    /// What the item is.
    pub kind: EntryKind,
}

/// The mathematical value of a [`FoundEntry`].
pub struct FoundView {
    pub path: Seq<char>,
    pub kind: EntryKind,
}

impl View for FoundEntry {
    type V = FoundView;

    open spec fn view(&self) -> FoundView {
        FoundView { path: self.path@, kind: self.kind }
    }
}

/// The views of a sequence of found items.
pub open spec fn found_view(s: Seq<FoundEntry>) -> Seq<FoundView> {
    s.map_values(|f: FoundEntry| f@)
}

/// One step of materializing a preset.
#[derive(Debug, Clone)]
pub enum LinkStep {
    /// Create the directory `path`, with any missing ancestors; an existing
    /// directory is kept as it is.
    MakeDir { path: String },
    /// Create the parent of `dest` if missing, remove whatever is at `dest`
    /// (a file, a symbolic link, or a directory with its contents), and create
    /// there a symbolic link to `source`.
    Link { source: String, dest: String },
}

/// The mathematical value of a [`LinkStep`].
pub enum StepView {
    MakeDir(Seq<char>),
    Link(Seq<char>, Seq<char>),
}

impl View for LinkStep {
    type V = StepView;

    open spec fn view(&self) -> StepView {
        match self {
            LinkStep::MakeDir { path } => StepView::MakeDir(path@),
            LinkStep::Link { source, dest } => StepView::Link(source@, dest@),
        }
    }
}

/// The views of a sequence of steps.
pub open spec fn steps_view(s: Seq<LinkStep>) -> Seq<StepView> {
    s.map_values(|st: LinkStep| st@)
}

/// The step that materializes entry `e` of a preset captured from `source`
/// at `target`.
pub open spec fn step_for(source: Seq<char>, target: Seq<char>, e: EntryView) -> StepView {
    if e.is_dir {
        StepView::MakeDir(joined(target, e.path))
    } else {
        StepView::Link(joined(source, e.path), joined(target, e.path))
    }
}

/// The steps that materialize `preset` at `target`, one per entry, in entry
/// order.
pub open spec fn plan_of(preset: PresetView, target: Seq<char>) -> Seq<StepView> {
    preset.entries.map_values(|e: EntryView| step_for(preset.source, target, e))
}

/// The path that a step creates.
pub open spec fn step_path(st: StepView) -> Seq<char> {
    match st {
        StepView::MakeDir(p) => p,
        StepView::Link(_, d) => d,
    }
}

/// Holds of the steps that create a symbolic link.
pub open spec fn is_link_step() -> spec_fn(StepView) -> bool {
    |st: StepView| st is Link
}

/// The symbolic links that a plan creates, in order.
pub open spec fn created_by(steps: Seq<StepView>) -> Seq<Seq<char>> {
    steps.filter(is_link_step()).map_values(|st: StepView| step_path(st))
}

/// Holds of the items that are symbolic links.
pub open spec fn is_symlink() -> spec_fn(FoundView) -> bool {
    |f: FoundView| f.kind == EntryKind::Symlink
}

/// The paths of the symbolic links among `found`, in order.
pub open spec fn symlink_paths(found: Seq<FoundView>) -> Seq<Seq<char>> {
    found.filter(is_symlink()).map_values(|f: FoundView| f.path)
}

/// Builds and removes symbolic-link trees.
#[derive(Debug, Clone, Copy)]
pub struct SymlinkBuilder;

impl SymlinkBuilder {
    /// A builder.
    pub fn new() -> (r: SymlinkBuilder)
        ensures
            r == SymlinkBuilder,
    {
        SymlinkBuilder
    }

    /// The steps that materialize `preset` at `target`: for a directory
    /// entry, create `target/path`; for any other, link `target/path` to
    /// `source/path`. One step per entry, in entry order.
    pub fn apply(&self, preset: &Preset, target: &String) -> (steps: Vec<LinkStep>)
        ensures
            steps_view(steps@) == plan_of(preset@, target@),
    {
        let ghost plan = plan_of(preset@, target@);
        let mut steps: Vec<LinkStep> = Vec::new();
        let mut i: usize = 0;
        while i < preset.entries.len()
            invariant
                plan == plan_of(preset@, target@),
                0 <= i <= preset.entries@.len(),
                steps_view(steps@) == plan.subrange(0, i as int),
            decreases preset.entries@.len() - i,
        {
            let e = &preset.entries[i];
            let dest = join_path(target, &e.path);
            let step = if e.is_dir {
                LinkStep::MakeDir { path: dest }
            } else {
                LinkStep::Link { source: join_path(&preset.source, &e.path), dest }
            };
            let ghost prev = steps@;
            steps.push(step);
            assert(preset@.entries[i as int] == e@);
            assert(steps_view(steps@) =~= steps_view(prev).push(plan[i as int]));
            assert(steps_view(steps@) =~= plan.subrange(0, i + 1));
            i += 1;
        }
        assert(plan.subrange(0, plan.len() as int) =~= plan);
        steps
    }

    /// The symbolic links that `steps` create, in order: what a successful
    /// run of them reports.
    pub fn created_paths(&self, steps: &Vec<LinkStep>) -> (r: Vec<String>)
        ensures
            texts(r@) == created_by(steps_view(steps@)),
    {
        let ghost all = steps_view(steps@);
        let mut r: Vec<String> = Vec::new();
        let mut i: usize = 0;
        while i < steps.len()
            invariant
                all == steps_view(steps@),
                0 <= i <= all.len(),
                texts(r@) == created_by(all.subrange(0, i as int)),
            decreases all.len() - i,
        {
            proof {
                reveal(Seq::filter);
                assert(all.subrange(0, i + 1).drop_last() =~= all.subrange(0, i as int));
            }
            let ghost prev = r@;
            match &steps[i] {
                LinkStep::Link { source: _, dest } => {
                    r.push(dest.clone());
                    assert(texts(r@) =~= texts(prev).push(step_path(all[i as int])));
                    assert(created_by(all.subrange(0, i + 1)) =~= created_by(all.subrange(0, i as int)).push(
                        step_path(all[i as int]),
                    ));
                },
                LinkStep::MakeDir { path: _ } => {},
            }
            i += 1;
        }
        assert(all.subrange(0, all.len() as int) =~= all);
        r
    }

    /// The symbolic links to remove from what was found under a target (its
    /// items at every depth, the target itself excluded): every item that is
    /// itself a symbolic link, in the order found. Nothing else is touched.
    pub fn unlink(&self, found: &Vec<FoundEntry>) -> (r: Vec<String>)
        ensures
            texts(r@) == symlink_paths(found_view(found@)),
    {
        let ghost all = found_view(found@);
        let mut r: Vec<String> = Vec::new();
        let mut i: usize = 0;
        while i < found.len()
            invariant
                all == found_view(found@),
                0 <= i <= all.len(),
                texts(r@) == symlink_paths(all.subrange(0, i as int)),
            decreases all.len() - i,
        {
            proof {
                reveal(Seq::filter);
                assert(all.subrange(0, i + 1).drop_last() =~= all.subrange(0, i as int));
            }
            let ghost prev = r@;
            if found[i].kind == EntryKind::Symlink {
                r.push(found[i].path.clone());
                assert(texts(r@) =~= texts(prev).push(all[i as int].path));
                assert(symlink_paths(all.subrange(0, i + 1)) =~= symlink_paths(all.subrange(0, i as int)).push(
                    all[i as int].path,
                ));
            }
            i += 1;
        }
        assert(all.subrange(0, all.len() as int) =~= all);
        r
    }
}

impl Default for SymlinkBuilder {
    fn default() -> (r: SymlinkBuilder)
        ensures
            r == SymlinkBuilder,
    {
        SymlinkBuilder::new()
    }
}

/// What stands at a path of a target, as far as materializing is concerned.
///
/// The model follows the paths that the steps name; the missing ancestors
/// that a step creates on the way are not tracked.
pub enum NodeView {
    Dir,
    File,
    Link(Seq<char>),
}

/// The paths of a target and what stands at each.
pub type TargetState = Map<Seq<char>, NodeView>;

/// Whether a node serves as a directory: a directory, or a symbolic link whose
/// source is one (`dir_source` tells which sources are directories).
pub open spec fn serves_as_dir(n: NodeView, dir_source: spec_fn(Seq<char>) -> bool) -> bool {
    match n {
        NodeView::Dir => true,
        NodeView::File => false,
        NodeView::Link(src) => dir_source(src),
    }
}

/// One step run against a target. A directory step creates the directory
/// where nothing stands, keeps what already serves as a directory, and fails
/// on anything else. A link step replaces whatever stands at its destination,
/// file, link or directory, by the link. `None` when the step fails.
pub open spec fn run_step(fs: TargetState, st: StepView, dir_source: spec_fn(Seq<char>) -> bool) -> Option<
    TargetState,
> {
    match st {
        StepView::MakeDir(p) => if !fs.contains_key(p) {
            Some(fs.insert(p, NodeView::Dir))
        } else if serves_as_dir(fs[p], dir_source) {
            Some(fs)
        } else {
            None
        },
        StepView::Link(src, d) => Some(fs.insert(d, NodeView::Link(src))),
    }
}

/// The end of a run: the target's state, and whether every step succeeded.
pub struct Outcome {
    pub state: TargetState,
    pub ok: bool,
}

/// The steps run in order against a target. The run stops at the first step
/// that fails; what the earlier steps did stays.
pub open spec fn run_plan(fs: TargetState, steps: Seq<StepView>, dir_source: spec_fn(Seq<char>) -> bool) -> Outcome
    decreases steps.len(),
{
    if steps.len() == 0 {
        Outcome { state: fs, ok: true }
    } else {
        match run_step(fs, steps[0], dir_source) {
            None => Outcome { state: fs, ok: false },
            Some(next) => run_plan(next, steps.drop_first(), dir_source),
        }
    }
}

/// No directory step and link step of `steps` create the same path.
pub open spec fn kinds_apart(steps: Seq<StepView>) -> bool {
    forall|i: int, j: int|
        0 <= i < steps.len() && 0 <= j < steps.len() && (#[trigger] steps[i]) is MakeDir && (#[trigger] steps[j]) is Link
            ==> step_path(steps[i]) != step_path(steps[j])
}

/// Some step of `steps` creates `p`.
pub open spec fn touches(steps: Seq<StepView>, p: Seq<char>) -> bool {
    exists|i: int| 0 <= i < steps.len() && step_path(#[trigger] steps[i]) == p
}

/// `a` and `b` hold the same at `p`.
pub open spec fn same_at(a: TargetState, b: TargetState, p: Seq<char>) -> bool {
    &&& a.contains_key(p) == b.contains_key(p)
    &&& a.contains_key(p) ==> a[p] == b[p]
}

/// Applying a preset to a target a second time, right after a first
/// application that succeeded, succeeds too and leaves the target as the first
/// left it; what stood at a link's destination before, directories included,
/// is replaced rather than duplicated. Left out: plans in which a directory
/// entry and a file entry land on the same path.
pub proof fn lemma_apply_idempotent(
    fs: TargetState,
    preset: PresetView,
    target: Seq<char>,
    dir_source: spec_fn(Seq<char>) -> bool,
)
    requires
        run_plan(fs, plan_of(preset, target), dir_source).ok,
        kinds_apart(plan_of(preset, target)),
    ensures
        run_plan(run_plan(fs, plan_of(preset, target), dir_source).state, plan_of(preset, target), dir_source)
            == run_plan(fs, plan_of(preset, target), dir_source),
{
    let steps = plan_of(preset, target);
    let r = run_plan(fs, steps, dir_source).state;
    assert forall|p: Seq<char>|
        #[trigger] same_at(r, fs, p) || (touches(steps, p) && r.contains_key(p) && r.contains_key(p) && r[p] == r[p]) by {
        if touches(steps, p) {
            lemma_touched_present(fs, steps, p, dir_source);
        } else {
            lemma_untouched_kept(fs, steps, p, dir_source);
        }
    }
    lemma_rerun(fs, r, steps, dir_source);
}

/// Running steps from a state that differs from `m` only at paths the steps
/// create, and there already as the run from `m` leaves them, ends as the run
/// from `m` ends.
proof fn lemma_rerun(m: TargetState, m2: TargetState, steps: Seq<StepView>, dir_source: spec_fn(Seq<char>) -> bool)
    requires
        run_plan(m, steps, dir_source).ok,
        kinds_apart(steps),
        forall|p: Seq<char>|
            #[trigger] same_at(m2, m, p) || (touches(steps, p) && m2.contains_key(p) && run_plan(
                m,
                steps,
                dir_source,
            ).state.contains_key(p) && m2[p] == run_plan(m, steps, dir_source).state[p]),
    ensures
        run_plan(m2, steps, dir_source) == run_plan(m, steps, dir_source),
    decreases steps.len(),
{
    let r = run_plan(m, steps, dir_source).state;
    if steps.len() == 0 {
        assert forall|p: Seq<char>| #[trigger] m2.contains_key(p) == m.contains_key(p) && (m.contains_key(p) ==> m2[p]
            == m[p]) by {
            assert(same_at(m2, m, p) || touches(steps, p));
        }
        assert(m2 =~= m);
    } else {
        let st = steps[0];
        let k = step_path(st);
        let rest = steps.drop_first();
        let next = run_step(m, st, dir_source)->0;
        assert(run_plan(m, steps, dir_source) == run_plan(next, rest, dir_source));
        assert(kinds_apart(rest)) by {
            assert forall|i: int, j: int|
                0 <= i < rest.len() && 0 <= j < rest.len() && (#[trigger] rest[i]) is MakeDir && (
                #[trigger] rest[j]) is Link implies step_path(rest[i]) != step_path(rest[j]) by {
                assert(steps[i + 1] == rest[i] && steps[j + 1] == rest[j]);
            }
        }
        if st is MakeDir && !same_at(m2, m, k) {
            assert forall|i: int| 0 <= i < rest.len() && (#[trigger] rest[i]) is Link implies step_path(rest[i]) != k by {
                assert(steps[i + 1] == rest[i]);
                assert(steps[0] is MakeDir);
            }
            lemma_dir_kept(next, rest, k, dir_source);
        }
        assert(run_step(m2, st, dir_source) is Some);
        let next2 = run_step(m2, st, dir_source)->0;
        assert forall|p: Seq<char>|
            #[trigger] same_at(next2, next, p) || (touches(rest, p) && next2.contains_key(p) && r.contains_key(p)
                && next2[p] == r[p]) by {
            if p != k {
                assert(same_at(m2, m, p) || (touches(steps, p) && m2.contains_key(p) && r.contains_key(p) && m2[p]
                    == r[p]));
                if !same_at(m2, m, p) {
                    let i = choose|i: int| 0 <= i < steps.len() && step_path(#[trigger] steps[i]) == p;
                    assert(i != 0);
                    assert(step_path(rest[i - 1]) == p);
                }
            }
        }
        lemma_rerun(next, next2, rest, dir_source);
    }
}

/// A path stays present through a run.
proof fn lemma_present_kept(m: TargetState, steps: Seq<StepView>, p: Seq<char>, dir_source: spec_fn(Seq<char>) -> bool)
    requires
        m.contains_key(p),
    ensures
        run_plan(m, steps, dir_source).state.contains_key(p),
    decreases steps.len(),
{
    if steps.len() > 0 {
        if let Some(next) = run_step(m, steps[0], dir_source) {
            lemma_present_kept(next, steps.drop_first(), p, dir_source);
        }
    }
}

/// Where no link step of a successful run lands, something that serves as a
/// directory is left as it was.
proof fn lemma_dir_kept(m: TargetState, steps: Seq<StepView>, p: Seq<char>, dir_source: spec_fn(Seq<char>) -> bool)
    requires
        run_plan(m, steps, dir_source).ok,
        m.contains_key(p),
        serves_as_dir(m[p], dir_source),
        forall|i: int| 0 <= i < steps.len() && (#[trigger] steps[i]) is Link ==> step_path(steps[i]) != p,
    ensures
        run_plan(m, steps, dir_source).state.contains_key(p),
        run_plan(m, steps, dir_source).state[p] == m[p],
    decreases steps.len(),
{
    if steps.len() > 0 {
        let rest = steps.drop_first();
        assert(steps[0] is Link ==> step_path(steps[0]) != p);
        assert forall|i: int| 0 <= i < rest.len() && (#[trigger] rest[i]) is Link implies step_path(rest[i]) != p by {
            assert(steps[i + 1] == rest[i]);
        }
        lemma_dir_kept(run_step(m, steps[0], dir_source)->0, rest, p, dir_source);
    }
}

/// A path that a successful run creates is there at its end.
proof fn lemma_touched_present(m: TargetState, steps: Seq<StepView>, p: Seq<char>, dir_source: spec_fn(Seq<char>) -> bool)
    requires
        run_plan(m, steps, dir_source).ok,
        touches(steps, p),
    ensures
        run_plan(m, steps, dir_source).state.contains_key(p),
    decreases steps.len(),
{
    let next = run_step(m, steps[0], dir_source)->0;
    if step_path(steps[0]) == p {
        lemma_present_kept(next, steps.drop_first(), p, dir_source);
    } else {
        let i = choose|i: int| 0 <= i < steps.len() && step_path(#[trigger] steps[i]) == p;
        assert(step_path(steps.drop_first()[i - 1]) == p);
        lemma_touched_present(next, steps.drop_first(), p, dir_source);
    }
}

/// A path that no step creates is left as it was.
proof fn lemma_untouched_kept(m: TargetState, steps: Seq<StepView>, p: Seq<char>, dir_source: spec_fn(Seq<char>) -> bool)
    requires
        !touches(steps, p),
    ensures
        same_at(run_plan(m, steps, dir_source).state, m, p),
    decreases steps.len(),
{
    if steps.len() > 0 {
        assert(step_path(steps[0]) != p);
        assert forall|i: int| 0 <= i < steps.drop_first().len() implies step_path(
            #[trigger] steps.drop_first()[i],
        ) != p by {
            assert(step_path(steps[i + 1]) != p);
        }
        if let Some(next) = run_step(m, steps[0], dir_source) {
            lemma_untouched_kept(next, steps.drop_first(), p, dir_source);
        }
    }
}

/// Unlinking removes exactly the symbolic links found: one path per link,
/// every link's path, and only links' paths, so that where the found paths are
/// distinct no plain file or directory is removed.
pub proof fn lemma_unlink_scope(found: Seq<FoundView>)
    ensures
        symlink_paths(found).len() == found.filter(is_symlink()).len(),
        forall|i: int|
            0 <= i < found.len() && (#[trigger] found[i]).kind == EntryKind::Symlink ==> symlink_paths(found).contains(
                found[i].path,
            ),
        forall|x: Seq<char>|
            symlink_paths(found).contains(x) ==> exists|i: int|
                0 <= i < found.len() && (#[trigger] found[i]).kind == EntryKind::Symlink && found[i].path == x,
        (forall|i: int, j: int| 0 <= i < j < found.len() ==> (#[trigger] found[i]).path != (#[trigger] found[j]).path)
            ==> forall|i: int|
            0 <= i < found.len() && (#[trigger] found[i]).kind != EntryKind::Symlink ==> !symlink_paths(found).contains(
                found[i].path,
            ),
{
    let links = found.filter(is_symlink());
    let paths = symlink_paths(found);
    assert forall|i: int| 0 <= i < found.len() && (#[trigger] found[i]).kind == EntryKind::Symlink implies paths.contains(
        found[i].path,
    ) by {
        found.lemma_filter_contains(is_symlink(), i);
        let j = choose|j: int| 0 <= j < links.len() && links[j] == found[i];
        assert(paths[j] == found[i].path);
    }
    assert forall|x: Seq<char>| paths.contains(x) implies exists|i: int|
        0 <= i < found.len() && (#[trigger] found[i]).kind == EntryKind::Symlink && found[i].path == x by {
        let j = choose|j: int| 0 <= j < paths.len() && paths[j] == x;
        found.lemma_filter_pred(is_symlink(), j);
        assert(links.contains(links[j]));
        found.lemma_filter_contains_rev(is_symlink(), links[j]);
        let i = choose|i: int| 0 <= i < found.len() && found[i] == links[j];
        assert(found[i].kind == EntryKind::Symlink && found[i].path == x);
    }
    if forall|i: int, j: int| 0 <= i < j < found.len() ==> (#[trigger] found[i]).path != (#[trigger] found[j]).path {
        assert forall|i: int| 0 <= i < found.len() && (#[trigger] found[i]).kind != EntryKind::Symlink implies !paths.contains(
            found[i].path,
        ) by {
            if paths.contains(found[i].path) {
                let k = choose|k: int|
                    0 <= k < found.len() && (#[trigger] found[k]).kind == EntryKind::Symlink && found[k].path
                        == found[i].path;
                assert(k != i);
                if k < i {
                    assert(found[k].path != found[i].path);
                } else {
                    assert(found[i].path != found[k].path);
                }
            }
        }
    }
}

} // verus!
