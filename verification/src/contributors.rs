//! What each contributor did.
//!
//! Every commit, a merge too, counts once for its author. Every commit but
//! a merge adds the paths it changed that pass the filter to the files its
//! author has touched. A contributor is known by email: the name under
//! which they are shown is the one of their first commit in the walk, and a
//! later commit with the same email and another name does not change it.

use crate::busfactor::{emails_of, find_contributor, identities};
use crate::filter::FileFilter;
use crate::history::{
    advance, advanced, bump, bumped, capped, capped_tally, history, is_touched_by, touches_path,
    Commit, CommitView,
};
use crate::lookup::{distinct, lemma_position, lemma_position_is, lemma_position_push, position};
use crate::shared_types::{ContributorKey, Identity};
use vstd::prelude::*;

verus! {

/// The activity of one contributor.
#[derive(Debug)]
pub struct ContributorActivity {
    pub contributor: ContributorKey,
    pub commit_count: u32,
    /// The distinct paths touched, in the order in which they were first seen.
    pub files_touched: Vec<String>,
}

/// The activity of one contributor as a mathematical value.
pub struct ActivityView {
    pub contributor: Identity,
    pub commit_count: u32,
    pub files_touched: Seq<Seq<char>>,
}

/// The texts of a list of paths.
pub open spec fn path_texts(paths: Seq<String>) -> Seq<Seq<char>> {
    paths.map_values(|p: String| p@)
}

impl View for ContributorActivity {
    type V = ActivityView;

    open spec fn view(&self) -> ActivityView {
        ActivityView {
            contributor: self.contributor@,
            commit_count: self.commit_count,
            files_touched: path_texts(self.files_touched@),
        }
    }
}

/// The table as a mathematical value: the contributors in the order in
/// which they were first seen, and how many commits were walked.
pub struct ContributorsView {
    pub rows: Seq<ActivityView>,
    pub commits: usize,
}

/// The rows of a list as mathematical values.
pub open spec fn views(rows: Seq<ContributorActivity>) -> Seq<ActivityView> {
    rows.map_values(|r: ContributorActivity| r@)
}

/// The contributors of the rows, in the rows' order.
pub open spec fn people_of(rows: Seq<ActivityView>) -> Seq<Identity> {
    rows.map_values(|r: ActivityView| r.contributor)
}

/// The list with `path` in it: unchanged where it holds the path already.
pub open spec fn with_path(files: Seq<Seq<char>>, path: Seq<char>) -> Seq<Seq<char>> {
    if position(files, path) < files.len() {
        files
    } else {
        files.push(path)
    }
}

/// The list with each of `paths` that passes the filter in it.
pub open spec fn with_paths(
    files: Seq<Seq<char>>,
    paths: Seq<Seq<char>>,
    included: spec_fn(Seq<char>) -> bool,
) -> Seq<Seq<char>>
    decreases paths.len(),
{
    if paths.len() == 0 {
        files
    } else {
        let before = with_paths(files, paths.drop_last(), included);
        if included(paths.last()) {
            with_path(before, paths.last())
        } else {
            before
        }
    }
}

/// The row of a contributor before their first commit.
pub open spec fn newcomer(who: Identity) -> ActivityView {
    ActivityView { contributor: who, commit_count: 0, files_touched: Seq::empty() }
}

/// The rows with one for the contributor with the email of `who`: unchanged
/// where there is one already, under whatever name.
pub open spec fn enrolled(rows: Seq<ActivityView>, who: Identity) -> Seq<ActivityView> {
    if position(emails_of(people_of(rows)), who.email) < rows.len() {
        rows
    } else {
        rows.push(newcomer(who))
    }
}

/// A row after one more commit that changed `paths`; a merge changes none.
pub open spec fn after_commit(
    row: ActivityView,
    commit: CommitView,
    included: spec_fn(Seq<char>) -> bool,
) -> ActivityView {
    ActivityView {
        contributor: row.contributor,
        commit_count: bumped(row.commit_count),
        files_touched: if commit.parents <= 1 {
            with_paths(row.files_touched, commit.paths, included)
        } else {
            row.files_touched
        },
    }
}

/// The table after one more commit.
pub open spec fn record_commit(
    table: ContributorsView,
    commit: CommitView,
    included: spec_fn(Seq<char>) -> bool,
) -> ContributorsView {
    let at = position(emails_of(people_of(table.rows)), commit.author.email);
    let rows = enrolled(table.rows, commit.author);
    ContributorsView {
        rows: rows.update(at, after_commit(rows[at], commit, included)),
        commits: advanced(table.commits),
    }
}

/// The table that a walk gives.
pub open spec fn activity(walk: Seq<CommitView>, included: spec_fn(Seq<char>) -> bool)
    -> ContributorsView
    decreases walk.len(),
{
    if walk.len() == 0 {
        ContributorsView { rows: Seq::empty(), commits: 0 }
    } else {
        record_commit(activity(walk.drop_last(), included), walk.last(), included)
    }
}

/// Where `path` stands in `files`, or their number where it is not among them.
pub fn find_path(files: &Vec<String>, path: &String) -> (at: usize)
    ensures
        at == position(path_texts(files@), path@),
        at <= files@.len(),
{
    let ghost keys = path_texts(files@);
    let mut i: usize = 0;
    while i < files.len()
        invariant
            0 <= i <= files.len(),
            keys == path_texts(files@),
            keys.len() == files.len(),
            forall|k: int| 0 <= k < i ==> keys[k] != path@,
        decreases files.len() - i,
    {
        if files[i] == *path {
            assert(keys[i as int] == path@);
            proof {
                lemma_position_is(keys, path@, i as int);
            }
            return i;
        }
        assert(keys[i as int] != path@);
        i += 1;
    }
    proof {
        lemma_position_is(keys, path@, i as int);
    }
    i
}

/// The per-contributor activity of a walk.
pub struct ContributorTable {
    rows: Vec<ContributorActivity>,
    commits_walked: usize,
}

impl View for ContributorTable {
    type V = ContributorsView;

    closed spec fn view(&self) -> ContributorsView {
        ContributorsView { rows: views(self.rows@), commits: self.commits_walked }
    }
}

impl ContributorTable {
    /// A table before the first commit.
    pub fn new() -> (table: Self)
        ensures
            table@ == (ContributorsView { rows: Seq::empty(), commits: 0 }),
    {
        let table = ContributorTable { rows: Vec::new(), commits_walked: 0 };
        assert(table@.rows =~= Seq::empty());
        table
    }

    /// How many contributors have a row.
    pub fn len(&self) -> (n: usize)
        ensures
            n == self@.rows.len(),
    {
        self.rows.len()
    }

    /// How many commits were walked, merges included.
    pub fn commits_walked(&self) -> (n: usize)
        ensures
            n == self@.commits,
    {
        self.commits_walked
    }

    /// The rows, in the order in which their contributors were first seen.
    pub fn rows(&self) -> (rows: &Vec<ContributorActivity>)
        ensures
            views(rows@) == self@.rows,
    {
        &self.rows
    }

    /// Where the row of the contributor with the email of `who` stands, or
    /// the number of rows where there is none.
    pub fn find(&self, who: &ContributorKey) -> (at: usize)
        ensures
            at == position(emails_of(people_of(self@.rows)), who@.email),
            at <= self@.rows.len(),
    {
        let ghost keys = emails_of(people_of(self@.rows));
        let mut i: usize = 0;
        while i < self.rows.len()
            invariant
                0 <= i <= self.rows.len(),
                keys == emails_of(people_of(self@.rows)),
                keys.len() == self.rows.len(),
                forall|k: int| 0 <= k < i ==> keys[k] != who@.email,
            decreases self.rows.len() - i,
        {
            if self.rows[i].contributor == *who {
                assert(keys[i as int] == who@.email);
                proof {
                    lemma_position_is(keys, who@.email, i as int);
                }
                return i;
            }
            assert(keys[i as int] != who@.email);
            i += 1;
        }
        proof {
            lemma_position_is(keys, who@.email, i as int);
        }
        i
    }

    /// Folds one commit into the table.
    ///
    /// The commit is counted as walked and as one of its author's. Unless it
    /// is a merge, each of its changed paths that passes the filter joins the
    /// files its author has touched.
    pub fn record(&mut self, commit: &Commit, filter: &FileFilter)
        ensures
            final(self)@ == record_commit(old(self)@, commit@, filter.predicate()),
    {
        self.commits_walked = advance(self.commits_walked);
        let at = self.find(&commit.author);
        if at == self.rows.len() {
            let fresh = ContributorActivity {
                contributor: commit.author.clone(),
                commit_count: 0,
                files_touched: Vec::new(),
            };
            assert(fresh@.files_touched =~= Seq::empty());
            assert(fresh@ == newcomer(commit@.author));
            self.rows.push(fresh);
            assert(self@.rows =~= enrolled(old(self)@.rows, commit@.author));
        }
        let ghost rows = enrolled(old(self)@.rows, commit@.author);
        assert(self@.rows == rows);
        let count = bump(self.rows[at].commit_count);
        self.rows[at].commit_count = count;
        if commit.parent_count <= 1 {
            let ghost included = filter.predicate();
            let mut k: usize = 0;
            while k < commit.changed_paths.len()
                invariant
                    0 <= k <= commit.changed_paths.len(),
                    included == filter.predicate(),
                    at < self.rows.len(),
                    self@.commits == advanced(old(self)@.commits),
                    self@.rows.len() == rows.len(),
                    forall|j: int| 0 <= j < rows.len() && j != at ==> self@.rows[j] == rows[j],
                    self@.rows[at as int].contributor == rows[at as int].contributor,
                    self@.rows[at as int].commit_count == bumped(rows[at as int].commit_count),
                    self@.rows[at as int].files_touched == with_paths(
                        rows[at as int].files_touched,
                        commit@.paths.take(k as int),
                        included,
                    ),
                decreases commit.changed_paths.len() - k,
            {
                let path = &commit.changed_paths[k];
                proof {
                    let upto = commit@.paths.take(k + 1);
                    assert(upto.drop_last() == commit@.paths.take(k as int));
                    assert(upto.last() == path@);
                }
                if filter.is_included(path.as_str()) {
                    let known = find_path(&self.rows[at].files_touched, path);
                    if known == self.rows[at].files_touched.len() {
                        let ghost held = self@.rows;
                        self.rows[at].files_touched.push(path.clone());
                        assert(self@.rows[at as int].files_touched =~= held[at as int].files_touched.push(
                            path@,
                        ));
                        assert forall|j: int| 0 <= j < rows.len() && j != at implies self@.rows[j]
                            == rows[j] by {
                            assert(self@.rows[j] == held[j]);
                        }
                    }
                }
                k += 1;
            }
            assert(commit@.paths.take(k as int) == commit@.paths);
        }
        assert(self@.rows =~= rows.update(
            at as int,
            after_commit(rows[at as int], commit@, filter.predicate()),
        ));
    }

    /// The table of a whole walk, its commits folded in the order given.
    pub fn from_history(commits: &Vec<Commit>, filter: &FileFilter) -> (table: Self)
        ensures
            table@ == activity(history(commits@), filter.predicate()),
    {
        let mut table = ContributorTable::new();
        let ghost walk = history(commits@);
        let mut i: usize = 0;
        while i < commits.len()
            invariant
                0 <= i <= commits.len(),
                walk == history(commits@),
                table@ == activity(walk.take(i as int), filter.predicate()),
            decreases commits.len() - i,
        {
            proof {
                let upto = walk.take(i + 1);
                assert(upto.drop_last() == walk.take(i as int));
                assert(upto.last() == commits@[i as int]@);
            }
            table.record(&commits[i], filter);
            i += 1;
        }
        assert(walk.take(i as int) == walk);
        table
    }
}

/// The emails under which the rows stand, in the rows' order.
pub open spec fn emails(rows: Seq<ActivityView>) -> Seq<Seq<char>> {
    emails_of(people_of(rows))
}

/// How many commits of the walk are by an author with this email, merges
/// included.
pub open spec fn commits_by(walk: Seq<CommitView>, email: Seq<char>) -> nat
    decreases walk.len(),
{
    if walk.len() == 0 {
        0
    } else {
        commits_by(walk.drop_last(), email) + if walk.last().author.email == email {
            1nat
        } else {
            0nat
        }
    }
}

/// Whether the rows hold `count` commits for this email: no row where
/// there were none, else a row with that count.
pub open spec fn counted(rows: Seq<ActivityView>, email: Seq<char>, count: nat) -> bool {
    let at = position(emails(rows), email);
    &&& at < rows.len() <==> count > 0
    &&& at < rows.len() ==> rows[at].commit_count == capped(count)
}

/// Whether the contributor with this email is shown as `who`, if they have
/// a row.
pub open spec fn shown_as(rows: Seq<ActivityView>, email: Seq<char>, who: Identity) -> bool {
    let at = position(emails(rows), email);
    at < rows.len() ==> rows[at].contributor == who
}

/// Whether `path` is among the files of the contributor with this email.
pub open spec fn has_touched(rows: Seq<ActivityView>, email: Seq<char>, path: Seq<char>) -> bool {
    let at = position(emails(rows), email);
    at < rows.len() && position(rows[at].files_touched, path) < rows[at].files_touched.len()
}

/// Whether no email has two rows and no row names a path twice.
pub open spec fn well_formed(rows: Seq<ActivityView>) -> bool {
    &&& distinct(emails(rows))
    &&& forall|j: int| 0 <= j < rows.len() ==> distinct(#[trigger] rows[j].files_touched)
}

/// Adding the paths of one commit: which paths the list holds afterwards.
pub proof fn lemma_with_paths(
    files: Seq<Seq<char>>,
    paths: Seq<Seq<char>>,
    included: spec_fn(Seq<char>) -> bool,
    path: Seq<char>,
)
    ensures
        position(with_paths(files, paths, included), path) < with_paths(
            files,
            paths,
            included,
        ).len() <==> position(files, path) < files.len() || (included(path) && paths.contains(
            path,
        )),
        distinct(files) ==> distinct(with_paths(files, paths, included)),
        files.len() <= with_paths(files, paths, included).len(),
    decreases paths.len(),
{
    lemma_position(files, path);
    if paths.len() > 0 {
        let rest = paths.drop_last();
        let before = with_paths(files, rest, included);
        lemma_with_paths(files, rest, included, path);
        if rest.contains(path) {
            let at = choose|at: int| 0 <= at < rest.len() && rest[at] == path;
            assert(paths[at] == path);
        }
        if paths.contains(path) {
            let at = choose|at: int| 0 <= at < paths.len() && paths[at] == path;
            if at < rest.len() {
                assert(rest[at] == path);
            }
        }
        assert(paths[paths.len() - 1] == paths.last());
        if included(paths.last()) {
            lemma_position(before, paths.last());
            lemma_position(before, path);
            lemma_position_push(before, paths.last(), path);
            if position(before, paths.last()) == before.len() && distinct(before) {
                assert forall|i: int, j: int| 0 <= i < j < before.len() + 1 implies before.push(
                    paths.last(),
                )[i] != before.push(paths.last())[j] by {
                    if j == before.len() {
                        assert(before[i] != paths.last());
                    }
                }
            }
        }
    }
}

/// One more commit: its author's count grows by one and nobody else's
/// moves, nobody's name changes, and only its author gains files.
pub proof fn lemma_record(
    table: ContributorsView,
    commit: CommitView,
    included: spec_fn(Seq<char>) -> bool,
    email: Seq<char>,
    count: nat,
    path: Seq<char>,
)
    requires
        counted(table.rows, email, count),
    ensures
        counted(
            record_commit(table, commit, included).rows,
            email,
            if commit.author.email == email {
                count + 1
            } else {
                count
            },
        ),
        position(emails(table.rows), email) < table.rows.len() ==> {
            let at = position(emails(table.rows), email);
            let after = record_commit(table, commit, included).rows;
            position(emails(after), email) == at && after[at].contributor
                == table.rows[at].contributor
        },
        position(emails(table.rows), email) == table.rows.len() && commit.author.email == email
            ==> shown_as(record_commit(table, commit, included).rows, email, commit.author),
        has_touched(record_commit(table, commit, included).rows, email, path) <==> has_touched(
            table.rows,
            email,
            path,
        ) || (commit.author.email == email && touches_path(commit, path, included)),
        well_formed(table.rows) ==> well_formed(record_commit(table, commit, included).rows),
        record_commit(table, commit, included).commits == advanced(table.commits),
{
    let keys = emails(table.rows);
    let who = commit.author;
    let rows = enrolled(table.rows, who);
    let at = position(keys, who.email);
    let after = record_commit(table, commit, included).rows;
    lemma_position(keys, who.email);
    lemma_position(keys, email);
    lemma_position_push(keys, who.email, email);
    if at == table.rows.len() {
        assert(emails(rows) =~= keys.push(who.email));
    }
    assert(emails(after) =~= emails(rows));
    lemma_with_paths(rows[at].files_touched, commit.paths, included, path);
    lemma_position(Seq::<Seq<char>>::empty(), path);
    if well_formed(table.rows) {
        if at == table.rows.len() {
            assert forall|i: int, j: int| 0 <= i < j < keys.len() + 1 implies keys.push(
                who.email,
            )[i] != keys.push(who.email)[j] by {
                if j == keys.len() {
                    assert(keys[i] != who.email);
                }
            }
        }
        assert forall|j: int| 0 <= j < after.len() implies distinct(
            #[trigger] after[j].files_touched,
        ) by {
            if j != at {
                assert(after[j] == rows[j]);
                if j < table.rows.len() {
                    assert(rows[j] == table.rows[j]);
                }
            } else if at < table.rows.len() {
                assert(rows[at] == table.rows[at]);
            }
        }
    }
}

/// The count of a contributor is the number of commits of the walk that
/// carry their email, merges included, and someone without a commit has no
/// row. No email has two rows, and no row a path twice.
pub proof fn lemma_commit_counts(
    walk: Seq<CommitView>,
    included: spec_fn(Seq<char>) -> bool,
    email: Seq<char>,
)
    ensures
        counted(activity(walk, included).rows, email, commits_by(walk, email)),
        well_formed(activity(walk, included).rows),
        activity(walk, included).commits == capped_tally(walk.len()),
    decreases walk.len(),
{
    if walk.len() > 0 {
        let rest = walk.drop_last();
        lemma_commit_counts(rest, included, email);
        lemma_record(
            activity(rest, included),
            walk.last(),
            included,
            email,
            commits_by(rest, email),
            Seq::empty(),
        );
    } else {
        assert(emails(activity(walk, included).rows) =~= Seq::empty());
    }
}

/// A contributor is shown under the name of their first commit in the
/// walk: a later commit with the same email and another name counts for
/// them and leaves the name alone.
pub proof fn lemma_first_name_is_kept(
    walk: Seq<CommitView>,
    included: spec_fn(Seq<char>) -> bool,
    first: int,
)
    requires
        0 <= first < walk.len(),
        forall|i: int| 0 <= i < first ==> (#[trigger] walk[i]).author.email != walk[first].author.email,
    ensures
        position(emails(activity(walk, included).rows), walk[first].author.email) < activity(
            walk,
            included,
        ).rows.len(),
        shown_as(activity(walk, included).rows, walk[first].author.email, walk[first].author),
    decreases walk.len(),
{
    let email = walk[first].author.email;
    let rest = walk.drop_last();
    let earlier = activity(rest, included);
    lemma_commit_counts(rest, included, email);
    lemma_commit_counts(walk, included, email);
    lemma_position(emails(earlier.rows), email);
    lemma_record(earlier, walk.last(), included, email, commits_by(rest, email), Seq::empty());
    if first == walk.len() - 1 {
        assert forall|i: int| 0 <= i < rest.len() implies (#[trigger] rest[i]).author.email
            != email by {
            assert(rest[i] == walk[i]);
        }
        lemma_no_commit_by(rest, email);
    } else {
        assert(rest[first] == walk[first]);
        assert forall|i: int| 0 <= i < first implies (#[trigger] rest[i]).author.email
            != rest[first].author.email by {
            assert(rest[i] == walk[i]);
        }
        lemma_first_name_is_kept(rest, included, first);
    }
}

/// A walk without a commit under an email counts none for it.
pub proof fn lemma_no_commit_by(walk: Seq<CommitView>, email: Seq<char>)
    requires
        forall|i: int| 0 <= i < walk.len() ==> (#[trigger] walk[i]).author.email != email,
    ensures
        commits_by(walk, email) == 0,
    decreases walk.len(),
{
    if walk.len() > 0 {
        let rest = walk.drop_last();
        assert forall|i: int| 0 <= i < rest.len() implies (#[trigger] rest[i]).author.email
            != email by {
            assert(rest[i] == walk[i]);
        }
        lemma_no_commit_by(rest, email);
        assert(walk[walk.len() - 1].author.email != email);
    }
}

/// A path is among the files of a contributor exactly when one of their
/// commits touched it: so never a path that the filter excludes, and never
/// one that only a merge of theirs changed.
pub proof fn lemma_files_touched(
    walk: Seq<CommitView>,
    included: spec_fn(Seq<char>) -> bool,
    email: Seq<char>,
    path: Seq<char>,
)
    ensures
        has_touched(activity(walk, included).rows, email, path) <==> is_touched_by(
            walk,
            path,
            email,
            included,
        ),
        !included(path) ==> !has_touched(activity(walk, included).rows, email, path),
    decreases walk.len(),
{
    if walk.len() > 0 {
        let rest = walk.drop_last();
        lemma_files_touched(rest, included, email, path);
        lemma_commit_counts(rest, included, email);
        lemma_record(
            activity(rest, included),
            walk.last(),
            included,
            email,
            commits_by(rest, email),
            path,
        );
        assert(walk[walk.len() - 1] == walk.last());
        if is_touched_by(rest, path, email, included) {
            let i = choose|i: int|
                0 <= i < rest.len() && touches_path(#[trigger] rest[i], path, included)
                    && rest[i].author.email == email;
            assert(walk[i] == rest[i]);
        }
        if is_touched_by(walk, path, email, included) {
            let i = choose|i: int|
                0 <= i < walk.len() && touches_path(#[trigger] walk[i], path, included)
                    && walk[i].author.email == email;
            if i < rest.len() {
                assert(rest[i] == walk[i]);
            }
        }
    } else {
        assert(emails(activity(walk, included).rows) =~= Seq::empty());
    }
}

/// A merge counts for its author and gives nobody a file.
pub proof fn lemma_merge_counts_only(
    table: ContributorsView,
    merge: CommitView,
    included: spec_fn(Seq<char>) -> bool,
    email: Seq<char>,
    count: nat,
    path: Seq<char>,
)
    requires
        merge.parents >= 2,
        counted(table.rows, email, count),
    ensures
        record_commit(table, merge, included).commits == advanced(table.commits),
        counted(
            record_commit(table, merge, included).rows,
            email,
            if merge.author.email == email {
                count + 1
            } else {
                count
            },
        ),
        has_touched(record_commit(table, merge, included).rows, email, path) == has_touched(
            table.rows,
            email,
            path,
        ),
{
    lemma_record(table, merge, included, email, count, path);
}

/// Two commits under one email make one row with a count of 2, shown under
/// the name of the commit that was walked first, whatever name the second
/// one carries.
pub proof fn lemma_one_row_per_email(
    first: CommitView,
    second: CommitView,
    included: spec_fn(Seq<char>) -> bool,
)
    requires
        first.author.email == second.author.email,
    ensures
        activity(seq![first, second], included).rows.len() == 1,
        activity(seq![first, second], included).rows[0].commit_count == 2,
        activity(seq![first, second], included).rows[0].contributor == first.author,
{
    let walk = seq![first, second];
    let email = first.author.email;
    let one = seq![first];
    assert(walk.drop_last() =~= one);
    assert(one.drop_last() =~= Seq::<CommitView>::empty());
    let none = activity(Seq::<CommitView>::empty(), included);
    assert(none.rows.len() == 0);
    assert(emails(none.rows) =~= Seq::empty());
    let after_first = activity(one, included);
    assert(after_first == record_commit(none, first, included));
    assert(enrolled(none.rows, first.author) =~= seq![newcomer(first.author)]);
    assert(after_first.rows.len() == 1);
    assert(emails(after_first.rows) =~= seq![email]);
    lemma_position_is(seq![email], email, 0);
    let after_second = activity(walk, included);
    assert(after_second == record_commit(after_first, second, included));
}

/// Two tables made from the same walk under the same filter are the same,
/// row for row and in the same order.
pub proof fn lemma_same_walk_same_table(
    first: ContributorsView,
    second: ContributorsView,
    walk: Seq<CommitView>,
    included: spec_fn(Seq<char>) -> bool,
)
    requires
        first == activity(walk, included),
        second == activity(walk, included),
    ensures
        first == second,
{
}

} // verus!
