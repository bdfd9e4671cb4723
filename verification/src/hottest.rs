//! The files that change most often.
//!
//! Every commit but a merge touches the paths it changed that pass the
//! filter. A path gets a record at its first touch in the walk, with the
//! commit's author and time; every later touch only counts. Under a walk that
//! goes from the newest commit to the oldest, the author and time of the
//! first touch are those of the most recent change of the file.

use crate::filter::FileFilter;
use crate::history::{
    advance, advanced, bump, bumped, capped, capped_tally, history, lemma_never_touched,
    lemma_occurrences, lemma_touches_count_commits, names_each_path_once, occurrences, touches,
    touches_of, touches_path, touching_commits, Commit, CommitView,
};
use crate::lookup::{distinct, lemma_position, lemma_position_is, lemma_position_push, position};
use crate::ranking::{numbers, rank, ranking, ranks, shown};
use crate::shared_types::{ContributorKey, Identity};
use vstd::prelude::*;

verus! {

/// What is known of one file: how often it was touched, and by whom and when
/// it was seen first. The fields on the last sighting are filled in together
/// with those on the first and never written again.
#[derive(Debug)]
pub struct FileTouchRecord {
    pub path: String,
    pub touch_count: u32,
    pub first_seen_at: i64,
    pub first_seen_by: ContributorKey,
    pub last_seen_at: i64,
    pub last_seen_by: ContributorKey,
}

/// A record as a mathematical value.
pub struct TouchView {
    pub path: Seq<char>,
    pub touch_count: u32,
    pub first_seen_at: i64,
    pub first_seen_by: Identity,
    pub last_seen_at: i64,
    pub last_seen_by: Identity,
}

impl View for FileTouchRecord {
    type V = TouchView;

    open spec fn view(&self) -> TouchView {
        TouchView {
            path: self.path@,
            touch_count: self.touch_count,
            first_seen_at: self.first_seen_at,
            first_seen_by: self.first_seen_by@,
            last_seen_at: self.last_seen_at,
            last_seen_by: self.last_seen_by@,
        }
    }
}

impl Clone for FileTouchRecord {
    fn clone(&self) -> (copy: Self)
        ensures
            copy@ == self@,
    {
        FileTouchRecord {
            path: self.path.clone(),
            touch_count: self.touch_count,
            first_seen_at: self.first_seen_at,
            first_seen_by: self.first_seen_by.clone(),
            last_seen_at: self.last_seen_at,
            last_seen_by: self.last_seen_by.clone(),
        }
    }
}

/// The table as a mathematical value: the records in the order in which
/// their paths were first seen, and how many commits were walked.
pub struct HotspotView {
    pub rows: Seq<TouchView>,
    pub commits: usize,
}

/// The records of a list as mathematical values.
pub open spec fn views(records: Seq<FileTouchRecord>) -> Seq<TouchView> {
    records.map_values(|r: FileTouchRecord| r@)
}

/// The paths of the rows, in the rows' order.
pub open spec fn paths_of(rows: Seq<TouchView>) -> Seq<Seq<char>> {
    rows.map_values(|r: TouchView| r.path)
}

/// The record of a path at its first touch.
pub open spec fn first_touch(path: Seq<char>, who: Identity, time: i64) -> TouchView {
    TouchView {
        path,
        touch_count: 1,
        first_seen_at: time,
        first_seen_by: who,
        last_seen_at: time,
        last_seen_by: who,
    }
}

/// A record after one more touch: only the count moves.
pub open spec fn touched_again(row: TouchView) -> TouchView {
    TouchView { touch_count: bumped(row.touch_count), ..row }
}

/// The rows after one touch of `path`.
pub open spec fn touch(rows: Seq<TouchView>, path: Seq<char>, who: Identity, time: i64) -> Seq<
    TouchView,
> {
    let at = position(paths_of(rows), path);
    if at < rows.len() {
        rows.update(at, touched_again(rows[at]))
    } else {
        rows.push(first_touch(path, who, time))
    }
}

/// The rows after a touch of each of `paths` that passes the filter, in
/// their order.
pub open spec fn touch_each(
    rows: Seq<TouchView>,
    paths: Seq<Seq<char>>,
    who: Identity,
    time: i64,
    included: spec_fn(Seq<char>) -> bool,
) -> Seq<TouchView>
    decreases paths.len(),
{
    if paths.len() == 0 {
        rows
    } else {
        let before = touch_each(rows, paths.drop_last(), who, time, included);
        if included(paths.last()) {
            touch(before, paths.last(), who, time)
        } else {
            before
        }
    }
}

/// The table after one more commit: a merge is counted and touches nothing.
pub open spec fn record_commit(
    table: HotspotView,
    commit: CommitView,
    included: spec_fn(Seq<char>) -> bool,
) -> HotspotView {
    HotspotView {
        rows: if commit.parents <= 1 {
            touch_each(table.rows, commit.paths, commit.author, commit.time, included)
        } else {
            table.rows
        },
        commits: advanced(table.commits),
    }
}

/// The table that a walk gives.
pub open spec fn hotspots(walk: Seq<CommitView>, included: spec_fn(Seq<char>) -> bool)
    -> HotspotView
    decreases walk.len(),
{
    if walk.len() == 0 {
        HotspotView { rows: Seq::empty(), commits: 0 }
    } else {
        record_commit(hotspots(walk.drop_last(), included), walk.last(), included)
    }
}

/// The touch counts of the rows, in the rows' order.
pub open spec fn counts_of(rows: Seq<TouchView>) -> Seq<u32> {
    rows.map_values(|r: TouchView| r.touch_count)
}

/// The report: the rows with the most touches first, rows with the same
/// count in the order in which their paths were first seen, and no more
/// than `top` of them unless `top` is 0.
pub open spec fn ranked_rows(rows: Seq<TouchView>, top: u32) -> Seq<TouchView> {
    Seq::new(shown(rows.len(), top), |k: int| rows[ranking(counts_of(rows))[k]])
}

/// The per-file touch records of a walk.
pub struct HotspotTable {
    records: Vec<FileTouchRecord>,
    commits_walked: usize,
}

impl View for HotspotTable {
    type V = HotspotView;

    closed spec fn view(&self) -> HotspotView {
        HotspotView { rows: views(self.records@), commits: self.commits_walked }
    }
}

impl HotspotTable {
    /// A table before the first commit.
    pub fn new() -> (table: Self)
        ensures
            table@ == (HotspotView { rows: Seq::empty(), commits: 0 }),
    {
        let table = HotspotTable { records: Vec::new(), commits_walked: 0 };
        assert(table@.rows =~= Seq::empty());
        table
    }

    /// How many files have a record.
    pub fn len(&self) -> (n: usize)
        ensures
            n == self@.rows.len(),
    {
        self.records.len()
    }

    /// How many commits were walked, merges included.
    pub fn commits_walked(&self) -> (n: usize)
        ensures
            n == self@.commits,
    {
        self.commits_walked
    }

    /// The records, in the order in which their paths were first seen.
    pub fn records(&self) -> (records: &Vec<FileTouchRecord>)
        ensures
            views(records@) == self@.rows,
    {
        &self.records
    }

    /// Where the record of `path` stands, or the number of records where
    /// there is none.
    pub fn find(&self, path: &String) -> (at: usize)
        ensures
            at == position(paths_of(self@.rows), path@),
            at <= self@.rows.len(),
    {
        let ghost keys = paths_of(self@.rows);
        let mut i: usize = 0;
        while i < self.records.len()
            invariant
                0 <= i <= self.records.len(),
                keys == paths_of(self@.rows),
                keys.len() == self.records.len(),
                forall|k: int| 0 <= k < i ==> keys[k] != path@,
            decreases self.records.len() - i,
        {
            if self.records[i].path == *path {
                assert(keys[i as int] == path@);
                proof {
                    lemma_position_is(keys, path@, i as int);
                }
                return i;
            }
            assert(keys[i as int] != path@);
            i += 1;
        }
        proof {
            lemma_position_is(keys, path@, i as int);
        }
        i
    }

    /// Counts one touch of `path` by `who` at `time`.
    fn touch(&mut self, path: &String, who: &ContributorKey, time: i64)
        ensures
            final(self)@.rows == touch(old(self)@.rows, path@, who@, time),
            final(self)@.commits == old(self)@.commits,
    {
        let at = self.find(path);
        if at < self.records.len() {
            let count = bump(self.records[at].touch_count);
            self.records[at].touch_count = count;
            assert(self@.rows =~= touch(old(self)@.rows, path@, who@, time));
        } else {
            self.records.push(
                FileTouchRecord {
                    path: path.clone(),
                    touch_count: 1,
                    first_seen_at: time,
                    first_seen_by: who.clone(),
                    last_seen_at: time,
                    last_seen_by: who.clone(),
                },
            );
            assert(self@.rows =~= touch(old(self)@.rows, path@, who@, time));
        }
    }

    /// Folds one commit into the table.
    ///
    /// The commit is counted as walked. Unless it is a merge, each of its
    /// changed paths that passes the filter is touched once, in their order.
    pub fn record(&mut self, commit: &Commit, filter: &FileFilter)
        ensures
            final(self)@ == record_commit(old(self)@, commit@, filter.predicate()),
    {
        self.commits_walked = advance(self.commits_walked);
        if commit.parent_count <= 1 {
            let ghost included = filter.predicate();
            let ghost start = old(self)@.rows;
            let mut k: usize = 0;
            while k < commit.changed_paths.len()
                invariant
                    0 <= k <= commit.changed_paths.len(),
                    included == filter.predicate(),
                    self@.commits == advanced(old(self)@.commits),
                    self@.rows == touch_each(
                        start,
                        commit@.paths.take(k as int),
                        commit@.author,
                        commit@.time,
                        included,
                    ),
                decreases commit.changed_paths.len() - k,
            {
                let path = &commit.changed_paths[k];
                proof {
                    let upto = commit@.paths.take(k + 1);
                    assert(upto.drop_last() == commit@.paths.take(k as int));
                    assert(upto.last() == path@);
                }
                if filter.is_included(path.as_str()) {
                    self.touch(path, &commit.author, commit.time);
                }
                k += 1;
            }
            assert(commit@.paths.take(k as int) == commit@.paths);
        }
    }

    /// The table of a whole walk, its commits folded in the order given.
    pub fn from_history(commits: &Vec<Commit>, filter: &FileFilter) -> (table: Self)
        ensures
            table@ == hotspots(history(commits@), filter.predicate()),
    {
        let mut table = HotspotTable::new();
        let ghost walk = history(commits@);
        let mut i: usize = 0;
        while i < commits.len()
            invariant
                0 <= i <= commits.len(),
                walk == history(commits@),
                table@ == hotspots(walk.take(i as int), filter.predicate()),
            decreases commits.len() - i,
        {
            proof {
                let upto = walk.take(i + 1);
                assert(upto.drop_last() == walk.take(i as int));
                assert(upto.last() == commits@[i as int]@);
            }
            table.record(&commits[i], filter);
            i += 1;
        }
        assert(walk.take(i as int) == walk);
        table
    }

    /// The hottest files: the records by falling touch count, at most `top`
    /// of them, or all where `top` is 0.
    pub fn ranked(&self, top: u32) -> (out: Vec<FileTouchRecord>)
        ensures
            views(out@) == ranked_rows(self@.rows, top),
    {
        let total = self.records.len();
        let mut counts: Vec<u32> = Vec::new();
        let mut i: usize = 0;
        while i < total
            invariant
                0 <= i <= total,
                total == self.records.len(),
                counts@ == counts_of(self@.rows).take(i as int),
            decreases total - i,
        {
            counts.push(self.records[i].touch_count);
            assert(counts@ =~= counts_of(self@.rows).take(i + 1));
            i += 1;
        }
        assert(counts@ =~= counts_of(self@.rows));
        let order = rank(&counts);
        let limit: usize = if top == 0 || top as usize >= total {
            total
        } else {
            top as usize
        };
        assert(limit == shown(self@.rows.len(), top));
        let mut out: Vec<FileTouchRecord> = Vec::new();
        let mut k: usize = 0;
        while k < limit
            invariant
                0 <= k <= limit <= total,
                total == self.records.len(),
                order@.len() == total,
                counts@ == counts_of(self@.rows),
                numbers(order@) == ranking(counts@),
                ranks(counts@, numbers(order@)),
                out@.len() == k,
                forall|a: int|
                    0 <= a < k ==> (#[trigger] out@[a])@ == self@.rows[ranking(
                        counts_of(self@.rows),
                    )[a]],
            decreases limit - k,
        {
            let at = order[k];
            assert(numbers(order@)[k as int] == at);
            assert(0 <= numbers(order@)[k as int] < total);
            out.push(self.records[at].clone());
            k += 1;
        }
        assert(views(out@) =~= ranked_rows(self@.rows, top));
        out
    }
}

/// Whether the rows hold `count` touches of `path`: no record where there
/// were none, else a record with that count.
pub open spec fn tallies(rows: Seq<TouchView>, path: Seq<char>, count: nat) -> bool {
    let at = position(paths_of(rows), path);
    &&& at < rows.len() <==> count > 0
    &&& at < rows.len() ==> rows[at].touch_count == capped(count)
}

/// Whether the record of `path`, if there is one, names `who` and `time`
/// as its first and as its last sighting.
pub open spec fn sighted(rows: Seq<TouchView>, path: Seq<char>, who: Identity, time: i64) -> bool {
    let at = position(paths_of(rows), path);
    at < rows.len() ==> {
        &&& rows[at].first_seen_by == who
        &&& rows[at].first_seen_at == time
        &&& rows[at].last_seen_by == who
        &&& rows[at].last_seen_at == time
    }
}

/// One touch: the paths keep their places, a new one goes to the end, and
/// only the touched path's count moves.
pub proof fn lemma_touch(
    rows: Seq<TouchView>,
    touched: Seq<char>,
    who: Identity,
    time: i64,
    path: Seq<char>,
    count: nat,
)
    requires
        tallies(rows, path, count),
    ensures
        tallies(
            touch(rows, touched, who, time),
            path,
            if touched == path {
                count + 1
            } else {
                count
            },
        ),
        distinct(paths_of(rows)) ==> distinct(paths_of(touch(rows, touched, who, time))),
        position(paths_of(rows), path) < rows.len() ==> {
            let at = position(paths_of(rows), path);
            let after = touch(rows, touched, who, time);
            &&& position(paths_of(after), path) == at
            &&& after[at].first_seen_by == rows[at].first_seen_by
            &&& after[at].first_seen_at == rows[at].first_seen_at
            &&& after[at].last_seen_by == rows[at].last_seen_by
            &&& after[at].last_seen_at == rows[at].last_seen_at
        },
        position(paths_of(rows), path) == rows.len() && touched == path ==> sighted(
            touch(rows, touched, who, time),
            path,
            who,
            time,
        ),
{
    let keys = paths_of(rows);
    let after = touch(rows, touched, who, time);
    lemma_position(keys, touched);
    lemma_position(keys, path);
    lemma_position_push(keys, touched, path);
    let hit = position(keys, touched);
    if hit < rows.len() {
        assert(paths_of(after) =~= keys);
    } else {
        assert(paths_of(after) =~= keys.push(touched));
        if distinct(keys) {
            assert forall|i: int, j: int| 0 <= i < j < keys.len() + 1 implies keys.push(
                touched,
            )[i] != keys.push(touched)[j] by {
                if j == keys.len() {
                    assert(keys[i] != touched);
                }
            }
        }
    }
}

/// The touches of one commit: each path's count grows by the number of
/// times the commit names it, should it pass the filter.
pub proof fn lemma_touch_each(
    rows: Seq<TouchView>,
    paths: Seq<Seq<char>>,
    who: Identity,
    time: i64,
    included: spec_fn(Seq<char>) -> bool,
    path: Seq<char>,
    count: nat,
)
    requires
        tallies(rows, path, count),
    ensures
        tallies(
            touch_each(rows, paths, who, time, included),
            path,
            count + occurrences(paths, path, included),
        ),
        distinct(paths_of(rows)) ==> distinct(
            paths_of(touch_each(rows, paths, who, time, included)),
        ),
        position(paths_of(rows), path) < rows.len() ==> {
            let at = position(paths_of(rows), path);
            let after = touch_each(rows, paths, who, time, included);
            &&& position(paths_of(after), path) == at
            &&& after[at].first_seen_by == rows[at].first_seen_by
            &&& after[at].first_seen_at == rows[at].first_seen_at
            &&& after[at].last_seen_by == rows[at].last_seen_by
            &&& after[at].last_seen_at == rows[at].last_seen_at
        },
        position(paths_of(rows), path) == rows.len() ==> sighted(
            touch_each(rows, paths, who, time, included),
            path,
            who,
            time,
        ),
    decreases paths.len(),
{
    if paths.len() > 0 {
        let before = touch_each(rows, paths.drop_last(), who, time, included);
        lemma_touch_each(rows, paths.drop_last(), who, time, included, path, count);
        let so_far = count + occurrences(paths.drop_last(), path, included);
        lemma_position(paths_of(before), path);
        if included(paths.last()) {
            lemma_touch(before, paths.last(), who, time, path, so_far);
        }
    } else {
        lemma_position(paths_of(rows), path);
    }
}

/// The count of a file is the number of times the walk touched it, and a
/// file the walk never touched has no record. No path has two records.
pub proof fn lemma_touch_counts(
    walk: Seq<CommitView>,
    included: spec_fn(Seq<char>) -> bool,
    path: Seq<char>,
)
    ensures
        tallies(hotspots(walk, included).rows, path, touches(walk, path, included)),
        distinct(paths_of(hotspots(walk, included).rows)),
    decreases walk.len(),
{
    if walk.len() > 0 {
        let earlier = hotspots(walk.drop_last(), included);
        lemma_touch_counts(walk.drop_last(), included, path);
        let last = walk.last();
        if last.parents <= 1 {
            lemma_touch_each(
                earlier.rows,
                last.paths,
                last.author,
                last.time,
                included,
                path,
                touches(walk.drop_last(), path, included),
            );
        }
    } else {
        assert(paths_of(hotspots(walk, included).rows) =~= Seq::empty());
    }
}

/// A path that the filter excludes never gets a record.
pub proof fn lemma_excluded_path_has_no_record(
    walk: Seq<CommitView>,
    included: spec_fn(Seq<char>) -> bool,
    path: Seq<char>,
)
    requires
        !included(path),
    ensures
        position(paths_of(hotspots(walk, included).rows), path) == hotspots(
            walk,
            included,
        ).rows.len(),
        !paths_of(hotspots(walk, included).rows).contains(path),
{
    lemma_touch_counts(walk, included, path);
    assert forall|i: int| 0 <= i < walk.len() implies touches_of(
        #[trigger] walk[i],
        path,
        included,
    ) == 0 by {
        lemma_occurrences(walk[i].paths, path, included);
    }
    lemma_never_touched(walk, included, path);
    lemma_position(paths_of(hotspots(walk, included).rows), path);
}

/// The record of a file names, as its first and as its last sighting, the
/// author and the time of the first commit in the walk that touched it:
/// however many commits touch the file after that one, they only count.
pub proof fn lemma_first_touch_is_kept(
    walk: Seq<CommitView>,
    included: spec_fn(Seq<char>) -> bool,
    path: Seq<char>,
    first: int,
)
    requires
        0 <= first < walk.len(),
        touches_of(walk[first], path, included) > 0,
        forall|i: int| 0 <= i < first ==> touches_of(#[trigger] walk[i], path, included) == 0,
    ensures
        position(paths_of(hotspots(walk, included).rows), path) < hotspots(
            walk,
            included,
        ).rows.len(),
        sighted(hotspots(walk, included).rows, path, walk[first].author, walk[first].time),
    decreases walk.len(),
{
    let rest = walk.drop_last();
    let earlier = hotspots(rest, included);
    let last = walk.last();
    lemma_touch_counts(rest, included, path);
    lemma_touch_counts(walk, included, path);
    if first == walk.len() - 1 {
        assert forall|i: int| 0 <= i < rest.len() implies touches_of(
            #[trigger] rest[i],
            path,
            included,
        ) == 0 by {
            assert(rest[i] == walk[i]);
        }
        lemma_never_touched(rest, included, path);
        lemma_position(paths_of(earlier.rows), path);
        lemma_touch_each(earlier.rows, last.paths, last.author, last.time, included, path, 0);
    } else {
        assert(rest[first] == walk[first]);
        assert forall|i: int| 0 <= i < first implies touches_of(
            #[trigger] rest[i],
            path,
            included,
        ) == 0 by {
            assert(rest[i] == walk[i]);
        }
        lemma_first_touch_is_kept(rest, included, path, first);
        if last.parents <= 1 {
            lemma_touch_each(
                earlier.rows,
                last.paths,
                last.author,
                last.time,
                included,
                path,
                touches(rest, path, included),
            );
        }
    }
}

/// A merge is counted as walked and leaves every record as it was.
pub proof fn lemma_merge_touches_nothing(
    table: HotspotView,
    merge: CommitView,
    included: spec_fn(Seq<char>) -> bool,
)
    requires
        merge.parents >= 2,
    ensures
        record_commit(table, merge, included).rows == table.rows,
        record_commit(table, merge, included).commits == advanced(table.commits),
{
}

/// Two tables made from the same walk under the same filter are the same,
/// record for record and in the same order, and so are their reports.
pub proof fn lemma_same_walk_same_table(
    first: HotspotView,
    second: HotspotView,
    walk: Seq<CommitView>,
    included: spec_fn(Seq<char>) -> bool,
    top: u32,
)
    requires
        first == hotspots(walk, included),
        second == hotspots(walk, included),
    ensures
        first == second,
        ranked_rows(first.rows, top) == ranked_rows(second.rows, top),
{
}

/// The table knows how many commits were walked, merges included.
pub proof fn lemma_commits_walked(walk: Seq<CommitView>, included: spec_fn(Seq<char>) -> bool)
    ensures
        hotspots(walk, included).commits == capped_tally(walk.len()),
    decreases walk.len(),
{
    if walk.len() > 0 {
        lemma_commits_walked(walk.drop_last(), included);
    }
}

/// Where no commit names a path twice among those it changed, the count of
/// a file is the number of commits that touched it: those that are no
/// merge, changed the file, and found it passing the filter.
pub proof fn lemma_touch_count_is_commit_count(
    walk: Seq<CommitView>,
    included: spec_fn(Seq<char>) -> bool,
    path: Seq<char>,
)
    requires
        forall|i: int| 0 <= i < walk.len() ==> names_each_path_once(#[trigger] walk[i]),
    ensures
        tallies(hotspots(walk, included).rows, path, touching_commits(walk, path, included)),
{
    lemma_touch_counts(walk, included, path);
    lemma_touches_count_commits(walk, path, included);
}

/// A path that passes the filter has a record as soon as one commit that
/// is no merge changes it.
pub proof fn lemma_touched_path_has_a_record(
    walk: Seq<CommitView>,
    included: spec_fn(Seq<char>) -> bool,
    path: Seq<char>,
    at: int,
)
    requires
        0 <= at < walk.len(),
        touches_path(walk[at], path, included),
    ensures
        position(paths_of(hotspots(walk, included).rows), path) < hotspots(
            walk,
            included,
        ).rows.len(),
        touches(walk, path, included) >= 1,
    decreases walk.len(),
{
    lemma_touch_counts(walk, included, path);
    if at == walk.len() - 1 {
        lemma_occurrences(walk.last().paths, path, included);
    } else {
        assert(walk.drop_last()[at] == walk[at]);
        lemma_touched_path_has_a_record(walk.drop_last(), included, path, at);
    }
}

} // verus!
