//! What the walk over history hands to the reports.
//!
//! The walk visits every commit reachable from the head once, newest first,
//! and for each one reads who authored it, when, how many parents it has and
//! which paths differ from its baseline. The reports fold these commits into
//! their tables in the order of the walk.

use crate::shared_types::{ContributorKey, Identity};
use vstd::prelude::*;

verus! {

/// One commit as the walk read it.
pub struct Commit {
    pub author: ContributorKey,
    /// When it was authored, in seconds since the epoch.
    pub time: i64,
    pub parent_count: usize,
    /// The paths that differ from the baseline, one for each difference.
    pub changed_paths: Vec<String>,
}

/// A commit as a mathematical value.
pub struct CommitView {
    pub author: Identity,
    pub time: i64,
    pub parents: nat,
    pub paths: Seq<Seq<char>>,
}

impl View for Commit {
    type V = CommitView;

    open spec fn view(&self) -> CommitView {
        CommitView {
            author: self.author@,
            time: self.time,
            parents: self.parent_count as nat,
            paths: self.changed_paths@.map_values(|p: String| p@),
        }
    }
}

/// A walk as a mathematical value: its commits in the order visited.
pub open spec fn history(commits: Seq<Commit>) -> Seq<CommitView> {
    commits.map_values(|c: Commit| c@)
}

/// The tree that a commit's changes are computed against.
#[derive(Debug, Clone, Copy, PartialEq, Eq, Structural)]
pub enum Baseline {
    /// A commit without parents: everything in its tree counts as changed.
    EmptyTree,
    /// A commit with one parent: what differs from that parent's tree.
    FirstParent,
    /// A merge: no difference is computed and no file is attributed.
    NoDiff,
}

/// The baseline for a commit with `parents` parents.
pub open spec fn baseline_for(parents: nat) -> Baseline {
    if parents == 0 {
        Baseline::EmptyTree
    } else if parents == 1 {
        Baseline::FirstParent
    } else {
        Baseline::NoDiff
    }
}

/// Which difference to compute for a commit with `parent_count` parents.
pub fn diff_baseline(parent_count: usize) -> (baseline: Baseline)
    ensures
        baseline == baseline_for(parent_count as nat),
        baseline is NoDiff <==> parent_count >= 2,
{
    if parent_count == 0 {
        Baseline::EmptyTree
    } else if parent_count == 1 {
        Baseline::FirstParent
    } else {
        Baseline::NoDiff
    }
}

/// Why a commit's author cannot be told.
#[derive(Debug, Clone, Copy, PartialEq, Eq, Structural)]
pub enum IdentityError {
    MissingName,
    MissingEmail,
}

/// The author of a commit from what its signature holds.
///
/// A signature without a name is refused, and one with a name but without
/// an email too; the name is looked at first.
pub fn identify(name: Option<String>, email: Option<String>) -> (r: Result<
    ContributorKey,
    IdentityError,
>)
    ensures
        name is None ==> r == Err::<ContributorKey, IdentityError>(IdentityError::MissingName),
        name is Some && email is None ==> r == Err::<ContributorKey, IdentityError>(
            IdentityError::MissingEmail,
        ),
        name is Some && email is Some ==> r is Ok && r->Ok_0@ == (Identity {
            email: email->Some_0@,
            name: name->Some_0@,
        }),
{
    match name {
        None => Err(IdentityError::MissingName),
        Some(name) => match email {
            None => Err(IdentityError::MissingEmail),
            Some(email) => Ok(ContributorKey::new(email, name)),
        },
    }
}

/// A count one higher, or the same where it has reached the ceiling.
pub open spec fn bumped(count: u32) -> u32 {
    if count < u32::MAX {
        (count + 1) as u32
    } else {
        count
    }
}

/// A tally one higher, or the same where it has reached the ceiling.
pub open spec fn advanced(tally: usize) -> usize {
    if tally < usize::MAX {
        (tally + 1) as usize
    } else {
        tally
    }
}

/// Counts one more, without passing the ceiling.
pub fn bump(count: u32) -> (r: u32)
    ensures
        r == bumped(count),
{
    if count < u32::MAX {
        count + 1
    } else {
        count
    }
}

/// Tallies one more, without passing the ceiling.
pub fn advance(tally: usize) -> (r: usize)
    ensures
        r == advanced(tally),
{
    if tally < usize::MAX {
        tally + 1
    } else {
        tally
    }
}

/// A count as a table holds it: exact below the ceiling, the ceiling from
/// there on.
pub open spec fn capped(count: nat) -> u32 {
    if count >= u32::MAX {
        u32::MAX
    } else {
        count as u32
    }
}

/// How often `path` stands among `paths`, where it passes the filter; 0
/// where it does not.
pub open spec fn occurrences(
    paths: Seq<Seq<char>>,
    path: Seq<char>,
    included: spec_fn(Seq<char>) -> bool,
) -> nat
    decreases paths.len(),
{
    if paths.len() == 0 {
        0
    } else {
        occurrences(paths.drop_last(), path, included) + if paths.last() == path && included(path) {
            1nat
        } else {
            0nat
        }
    }
}

/// How often a commit touches `path`: never where it is a merge or the
/// path does not pass the filter, else once for each time the path stands
/// among those it changed.
pub open spec fn touches_of(
    commit: CommitView,
    path: Seq<char>,
    included: spec_fn(Seq<char>) -> bool,
) -> nat {
    if commit.parents <= 1 {
        occurrences(commit.paths, path, included)
    } else {
        0
    }
}

/// How often a walk touches `path`.
pub open spec fn touches(
    walk: Seq<CommitView>,
    path: Seq<char>,
    included: spec_fn(Seq<char>) -> bool,
) -> nat
    decreases walk.len(),
{
    if walk.len() == 0 {
        0
    } else {
        touches(walk.drop_last(), path, included) + touches_of(walk.last(), path, included)
    }
}

/// Whether a commit touches `path`: it is no merge, the path passes the
/// filter and is among those the commit changed.
pub open spec fn touches_path(
    commit: CommitView,
    path: Seq<char>,
    included: spec_fn(Seq<char>) -> bool,
) -> bool {
    commit.parents <= 1 && included(path) && commit.paths.contains(path)
}

/// Whether some commit of the walk touches `path`.
pub open spec fn is_touched(
    walk: Seq<CommitView>,
    path: Seq<char>,
    included: spec_fn(Seq<char>) -> bool,
) -> bool {
    exists|i: int| 0 <= i < walk.len() && touches_path(#[trigger] walk[i], path, included)
}

/// Whether some commit of the walk by an author with this email touches `path`.
pub open spec fn is_touched_by(
    walk: Seq<CommitView>,
    path: Seq<char>,
    email: Seq<char>,
    included: spec_fn(Seq<char>) -> bool,
) -> bool {
    exists|i: int|
        0 <= i < walk.len() && touches_path(#[trigger] walk[i], path, included)
            && walk[i].author.email == email
}

/// How many commits of a walk touch `path`.
pub open spec fn touching_commits(
    walk: Seq<CommitView>,
    path: Seq<char>,
    included: spec_fn(Seq<char>) -> bool,
) -> nat
    decreases walk.len(),
{
    if walk.len() == 0 {
        0
    } else {
        touching_commits(walk.drop_last(), path, included) + if touches_path(
            walk.last(),
            path,
            included,
        ) {
            1nat
        } else {
            0nat
        }
    }
}

/// Whether a commit names no path twice among those it changed.
pub open spec fn names_each_path_once(commit: CommitView) -> bool {
    forall|i: int, j: int| 0 <= i < j < commit.paths.len() ==> commit.paths[i] != commit.paths[j]
}

/// A path stands among the paths exactly when it occurs at least once, and
/// among paths that are all different it occurs at most once.
pub proof fn lemma_occurrences(
    paths: Seq<Seq<char>>,
    path: Seq<char>,
    included: spec_fn(Seq<char>) -> bool,
)
    ensures
        occurrences(paths, path, included) > 0 <==> included(path) && paths.contains(path),
        (forall|i: int, j: int| 0 <= i < j < paths.len() ==> paths[i] != paths[j]) ==> occurrences(
            paths,
            path,
            included,
        ) <= 1,
    decreases paths.len(),
{
    if paths.len() > 0 {
        let rest = paths.drop_last();
        lemma_occurrences(rest, path, included);
        if rest.contains(path) {
            let at = choose|at: int| 0 <= at < rest.len() && rest[at] == path;
            assert(paths[at] == path);
        }
        if paths.contains(path) {
            let at = choose|at: int| 0 <= at < paths.len() && paths[at] == path;
            if at < rest.len() {
                assert(rest[at] == path);
            }
        }
        if paths.last() == path {
            assert(paths[paths.len() - 1] == path);
        }
        if forall|i: int, j: int| 0 <= i < j < paths.len() ==> paths[i] != paths[j] {
            assert forall|i: int, j: int| 0 <= i < j < rest.len() implies rest[i] != rest[j] by {
                assert(rest[i] == paths[i] && rest[j] == paths[j]);
            }
            if paths.last() == path && rest.contains(path) {
                let at = choose|at: int| 0 <= at < rest.len() && rest[at] == path;
                assert(paths[at] != paths[paths.len() - 1]);
            }
        }
    }
}

/// Where no commit names a path twice, a walk touches a path as often as
/// it has commits that touch it.
pub proof fn lemma_touches_count_commits(
    walk: Seq<CommitView>,
    path: Seq<char>,
    included: spec_fn(Seq<char>) -> bool,
)
    requires
        forall|i: int| 0 <= i < walk.len() ==> names_each_path_once(#[trigger] walk[i]),
    ensures
        touches(walk, path, included) == touching_commits(walk, path, included),
    decreases walk.len(),
{
    if walk.len() > 0 {
        let rest = walk.drop_last();
        assert forall|i: int| 0 <= i < rest.len() implies names_each_path_once(
            #[trigger] rest[i],
        ) by {
            assert(rest[i] == walk[i]);
        }
        lemma_touches_count_commits(rest, path, included);
        assert(names_each_path_once(walk[walk.len() - 1]));
        lemma_occurrences(walk.last().paths, path, included);
    }
}

/// A tally as a table holds it: exact below the ceiling, the ceiling from
/// there on.
pub open spec fn capped_tally(count: nat) -> usize {
    if count >= usize::MAX {
        usize::MAX
    } else {
        count as usize
    }
}

/// A walk none of whose commits touches a path does not touch it.
pub proof fn lemma_never_touched(
    walk: Seq<CommitView>,
    included: spec_fn(Seq<char>) -> bool,
    path: Seq<char>,
)
    requires
        forall|i: int| 0 <= i < walk.len() ==> touches_of(#[trigger] walk[i], path, included) == 0,
    ensures
        touches(walk, path, included) == 0,
    decreases walk.len(),
{
    if walk.len() > 0 {
        let rest = walk.drop_last();
        assert forall|i: int| 0 <= i < rest.len() implies touches_of(
            #[trigger] rest[i],
            path,
            included,
        ) == 0 by {
            assert(rest[i] == walk[i]);
        }
        lemma_never_touched(rest, included, path);
        assert(touches_of(walk[walk.len() - 1], path, included) == 0);
    }
}

} // verus!
