//! How many people have ever changed a file.
//!
//! Every commit but a merge credits its author with each path it changed
//! that passes the filter. The bus factor of a file is the number of
//! contributors credited with it over the whole walk: nobody is ever taken
//! off, and a contributor counts once however many commits they made.

use crate::filter::FileFilter;
use crate::history::{
    advance, advanced, capped_tally, history, is_touched, is_touched_by, touches_path, Commit,
    CommitView,
};
use crate::lookup::{distinct, lemma_position, lemma_position_is, lemma_position_push, position};
use crate::shared_types::{ContributorKey, Identity};
use vstd::prelude::*;

verus! {

/// The contributors of one file, in the order in which they were first seen.
#[derive(Debug)]
pub struct FileContributors {
    pub path: String,
    pub contributors: Vec<ContributorKey>,
}

/// The contributors of one file as a mathematical value.
pub struct FileContributorsView {
    pub path: Seq<char>,
    pub contributors: Seq<Identity>,
}

/// A list of contributors as mathematical values.
pub open spec fn identities(people: Seq<ContributorKey>) -> Seq<Identity> {
    people.map_values(|p: ContributorKey| p@)
}

impl View for FileContributors {
    type V = FileContributorsView;

    open spec fn view(&self) -> FileContributorsView {
        FileContributorsView { path: self.path@, contributors: identities(self.contributors@) }
    }
}

impl FileContributors {
    /// The number of distinct contributors of the file.
    pub fn bus_factor(&self) -> (n: usize)
        ensures
            n == self@.contributors.len(),
    {
        self.contributors.len()
    }
}

/// The table as a mathematical value: the files in the order in which
/// their paths were first seen, and how many commits were walked.
pub struct BusFactorView {
    pub rows: Seq<FileContributorsView>,
    pub commits: usize,
}

/// The rows of a list as mathematical values.
pub open spec fn views(rows: Seq<FileContributors>) -> Seq<FileContributorsView> {
    rows.map_values(|r: FileContributors| r@)
}

/// The paths of the rows, in the rows' order.
pub open spec fn paths_of(rows: Seq<FileContributorsView>) -> Seq<Seq<char>> {
    rows.map_values(|r: FileContributorsView| r.path)
}

/// The emails of a list of contributors.
pub open spec fn emails_of(people: Seq<Identity>) -> Seq<Seq<char>> {
    people.map_values(|p: Identity| p.email)
}

/// The list with `who` in it: unchanged where someone with that email is
/// in it already, whatever their name.
pub open spec fn joined(people: Seq<Identity>, who: Identity) -> Seq<Identity> {
    if position(emails_of(people), who.email) < people.len() {
        people
    } else {
        people.push(who)
    }
}

/// The rows after `who` was credited with `path`.
pub open spec fn credit(rows: Seq<FileContributorsView>, path: Seq<char>, who: Identity) -> Seq<
    FileContributorsView,
> {
    let at = position(paths_of(rows), path);
    if at < rows.len() {
        rows.update(
            at,
            FileContributorsView { path: rows[at].path, contributors: joined(rows[at].contributors, who) },
        )
    } else {
        rows.push(FileContributorsView { path, contributors: seq![who] })
    }
}

/// The rows after `who` was credited with each of `paths` that passes the
/// filter, in their order.
pub open spec fn credit_each(
    rows: Seq<FileContributorsView>,
    paths: Seq<Seq<char>>,
    who: Identity,
    included: spec_fn(Seq<char>) -> bool,
) -> Seq<FileContributorsView>
    decreases paths.len(),
{
    if paths.len() == 0 {
        rows
    } else {
        let before = credit_each(rows, paths.drop_last(), who, included);
        if included(paths.last()) {
            credit(before, paths.last(), who)
        } else {
            before
        }
    }
}

/// The table after one more commit: a merge is counted and credits nobody.
pub open spec fn record_commit(
    table: BusFactorView,
    commit: CommitView,
    included: spec_fn(Seq<char>) -> bool,
) -> BusFactorView {
    BusFactorView {
        rows: if commit.parents <= 1 {
            credit_each(table.rows, commit.paths, commit.author, included)
        } else {
            table.rows
        },
        commits: advanced(table.commits),
    }
}

/// The table that a walk gives.
pub open spec fn file_contributors(walk: Seq<CommitView>, included: spec_fn(Seq<char>) -> bool)
    -> BusFactorView
    decreases walk.len(),
{
    if walk.len() == 0 {
        BusFactorView { rows: Seq::empty(), commits: 0 }
    } else {
        record_commit(file_contributors(walk.drop_last(), included), walk.last(), included)
    }
}

/// Where the contributor with this email stands in `people`, or their
/// number where nobody has it.
pub fn find_contributor(people: &Vec<ContributorKey>, who: &ContributorKey) -> (at: usize)
    ensures
        at == position(emails_of(identities(people@)), who@.email),
        at <= people@.len(),
{
    let ghost keys = emails_of(identities(people@));
    let mut i: usize = 0;
    while i < people.len()
        invariant
            0 <= i <= people.len(),
            keys == emails_of(identities(people@)),
            keys.len() == people.len(),
            forall|k: int| 0 <= k < i ==> keys[k] != who@.email,
        decreases people.len() - i,
    {
        if people[i] == *who {
            assert(keys[i as int] == who@.email);
            proof {
                lemma_position_is(keys, who@.email, i as int);
            }
            return i;
        }
        assert(keys[i as int] != who@.email);
        i += 1;
    }
    proof {
        lemma_position_is(keys, who@.email, i as int);
    }
    i
}

/// The per-file contributor lists of a walk.
pub struct BusFactorTable {
    rows: Vec<FileContributors>,
    commits_walked: usize,
}

impl View for BusFactorTable {
    type V = BusFactorView;

    closed spec fn view(&self) -> BusFactorView {
        BusFactorView { rows: views(self.rows@), commits: self.commits_walked }
    }
}

impl BusFactorTable {
    /// A table before the first commit.
    pub fn new() -> (table: Self)
        ensures
            table@ == (BusFactorView { rows: Seq::empty(), commits: 0 }),
    {
        let table = BusFactorTable { rows: Vec::new(), commits_walked: 0 };
        assert(table@.rows =~= Seq::empty());
        table
    }

    /// How many files have a row.
    pub fn len(&self) -> (n: usize)
        ensures
            n == self@.rows.len(),
    {
        self.rows.len()
    }

    /// How many commits were walked, merges included.
    pub fn commits_walked(&self) -> (n: usize)
        ensures
            n == self@.commits,
    {
        self.commits_walked
    }

    /// The rows, in the order in which their paths were first seen.
    pub fn rows(&self) -> (rows: &Vec<FileContributors>)
        ensures
            views(rows@) == self@.rows,
    {
        &self.rows
    }

    /// Where the row of `path` stands, or the number of rows where there
    /// is none.
    pub fn find(&self, path: &String) -> (at: usize)
        ensures
            at == position(paths_of(self@.rows), path@),
            at <= self@.rows.len(),
    {
        let ghost keys = paths_of(self@.rows);
        let mut i: usize = 0;
        while i < self.rows.len()
            invariant
                0 <= i <= self.rows.len(),
                keys == paths_of(self@.rows),
                keys.len() == self.rows.len(),
                forall|k: int| 0 <= k < i ==> keys[k] != path@,
            decreases self.rows.len() - i,
        {
            if self.rows[i].path == *path {
                assert(keys[i as int] == path@);
                proof {
                    lemma_position_is(keys, path@, i as int);
                }
                return i;
            }
            assert(keys[i as int] != path@);
            i += 1;
        }
        proof {
            lemma_position_is(keys, path@, i as int);
        }
        i
    }

    /// Credits `who` with `path`.
    fn credit(&mut self, path: &String, who: &ContributorKey)
        ensures
            final(self)@.rows == credit(old(self)@.rows, path@, who@),
            final(self)@.commits == old(self)@.commits,
    {
        let at = self.find(path);
        if at < self.rows.len() {
            let known = find_contributor(&self.rows[at].contributors, who);
            if known == self.rows[at].contributors.len() {
                self.rows[at].contributors.push(who.clone());
                assert(self@.rows[at as int].contributors =~= joined(
                    old(self)@.rows[at as int].contributors,
                    who@,
                ));
            }
            assert(self@.rows =~= credit(old(self)@.rows, path@, who@));
        } else {
            let mut people: Vec<ContributorKey> = Vec::new();
            people.push(who.clone());
            assert(identities(people@) =~= seq![who@]);
            self.rows.push(FileContributors { path: path.clone(), contributors: people });
            assert(self@.rows =~= credit(old(self)@.rows, path@, who@));
        }
    }

    /// Folds one commit into the table.
    ///
    /// The commit is counted as walked. Unless it is a merge, its author is
    /// credited with each of its changed paths that passes the filter.
    pub fn record(&mut self, commit: &Commit, filter: &FileFilter)
        ensures
            final(self)@ == record_commit(old(self)@, commit@, filter.predicate()),
    {
        self.commits_walked = advance(self.commits_walked);
        if commit.parent_count <= 1 {
            let ghost included = filter.predicate();
            let ghost start = old(self)@.rows;
            let mut k: usize = 0;
            while k < commit.changed_paths.len()
                invariant
                    0 <= k <= commit.changed_paths.len(),
                    included == filter.predicate(),
                    self@.commits == advanced(old(self)@.commits),
                    self@.rows == credit_each(
                        start,
                        commit@.paths.take(k as int),
                        commit@.author,
                        included,
                    ),
                decreases commit.changed_paths.len() - k,
            {
                let path = &commit.changed_paths[k];
                proof {
                    let upto = commit@.paths.take(k + 1);
                    assert(upto.drop_last() == commit@.paths.take(k as int));
                    assert(upto.last() == path@);
                }
                if filter.is_included(path.as_str()) {
                    self.credit(path, &commit.author);
                }
                k += 1;
            }
            assert(commit@.paths.take(k as int) == commit@.paths);
        }
    }

    /// The table of a whole walk, its commits folded in the order given.
    pub fn from_history(commits: &Vec<Commit>, filter: &FileFilter) -> (table: Self)
        ensures
            table@ == file_contributors(history(commits@), filter.predicate()),
    {
        let mut table = BusFactorTable::new();
        let ghost walk = history(commits@);
        let mut i: usize = 0;
        while i < commits.len()
            invariant
                0 <= i <= commits.len(),
                walk == history(commits@),
                table@ == file_contributors(walk.take(i as int), filter.predicate()),
            decreases commits.len() - i,
        {
            proof {
                let upto = walk.take(i + 1);
                assert(upto.drop_last() == walk.take(i as int));
                assert(upto.last() == commits@[i as int]@);
            }
            table.record(&commits[i], filter);
            i += 1;
        }
        assert(walk.take(i as int) == walk);
        table
    }
}

/// Whether `path` has a row.
pub open spec fn has_row(rows: Seq<FileContributorsView>, path: Seq<char>) -> bool {
    position(paths_of(rows), path) < rows.len()
}

/// Whether the contributor with this email is credited with `path`.
pub open spec fn credited(rows: Seq<FileContributorsView>, path: Seq<char>, email: Seq<char>)
    -> bool {
    let at = position(paths_of(rows), path);
    at < rows.len() && position(emails_of(rows[at].contributors), email)
        < rows[at].contributors.len()
}

/// The bus factor of `path`: the number of its contributors, 0 where it
/// has no row.
pub open spec fn bus_factor_of(rows: Seq<FileContributorsView>, path: Seq<char>) -> nat {
    let at = position(paths_of(rows), path);
    if at < rows.len() {
        rows[at].contributors.len()
    } else {
        0
    }
}

/// Whether no path has two rows and no row names an email twice.
pub open spec fn well_formed(rows: Seq<FileContributorsView>) -> bool {
    &&& distinct(paths_of(rows))
    &&& forall|j: int| 0 <= j < rows.len() ==> distinct(emails_of(#[trigger] rows[j].contributors))
}

/// Whether `after` holds every row of `before` in its place, with every
/// contributor it had, in their order.
pub open spec fn extends(before: Seq<FileContributorsView>, after: Seq<FileContributorsView>)
    -> bool {
    &&& before.len() <= after.len()
    &&& forall|j: int|
        0 <= j < before.len() ==> (#[trigger] after[j]).path == before[j].path
            && before[j].contributors.is_prefix_of(after[j].contributors)
}

/// Joining a list: who is in it afterwards, and that it only grows.
pub proof fn lemma_joined(people: Seq<Identity>, who: Identity, email: Seq<char>)
    ensures
        position(emails_of(joined(people, who)), email) < joined(people, who).len() <==> position(
            emails_of(people),
            email,
        ) < people.len() || who.email == email,
        people.is_prefix_of(joined(people, who)),
        distinct(emails_of(people)) ==> distinct(emails_of(joined(people, who))),
{
    let keys = emails_of(people);
    lemma_position(keys, who.email);
    lemma_position(keys, email);
    lemma_position_push(keys, who.email, email);
    if position(keys, who.email) == people.len() {
        assert(emails_of(people.push(who)) =~= keys.push(who.email));
        if distinct(keys) {
            assert forall|i: int, j: int| 0 <= i < j < keys.len() + 1 implies keys.push(
                who.email,
            )[i] != keys.push(who.email)[j] by {
                if j == keys.len() {
                    assert(keys[i] != who.email);
                }
            }
        }
    }
}

/// One credit: who is credited afterwards, and that nothing is taken away.
pub proof fn lemma_credit(
    rows: Seq<FileContributorsView>,
    touched: Seq<char>,
    who: Identity,
    path: Seq<char>,
    email: Seq<char>,
)
    ensures
        has_row(credit(rows, touched, who), path) <==> has_row(rows, path) || touched == path,
        credited(credit(rows, touched, who), path, email) <==> credited(rows, path, email) || (
        touched == path && who.email == email),
        extends(rows, credit(rows, touched, who)),
        well_formed(rows) ==> well_formed(credit(rows, touched, who)),
{
    let keys = paths_of(rows);
    let after = credit(rows, touched, who);
    lemma_position(keys, touched);
    lemma_position(keys, path);
    lemma_position_push(keys, touched, path);
    let hit = position(keys, touched);
    if hit < rows.len() {
        assert(paths_of(after) =~= keys);
        lemma_joined(rows[hit].contributors, who, email);
        if well_formed(rows) {
            assert forall|j: int| 0 <= j < after.len() implies distinct(
                emails_of(#[trigger] after[j].contributors),
            ) by {
                if j != hit {
                    assert(after[j] == rows[j]);
                }
            }
        }
    } else {
        assert(paths_of(after) =~= keys.push(touched));
        assert(emails_of(seq![who]) =~= seq![who.email]);
        lemma_position_is(seq![who.email], email, if who.email == email { 0 } else { 1 });
        if well_formed(rows) {
            assert forall|i: int, j: int| 0 <= i < j < keys.len() + 1 implies keys.push(
                touched,
            )[i] != keys.push(touched)[j] by {
                if j == keys.len() {
                    assert(keys[i] != touched);
                }
            }
            assert forall|j: int| 0 <= j < after.len() implies distinct(
                emails_of(#[trigger] after[j].contributors),
            ) by {
                if j < rows.len() {
                    assert(after[j] == rows[j]);
                }
            }
        }
    }
}

/// Nothing is taken away twice over.
pub proof fn lemma_extends_further(
    first: Seq<FileContributorsView>,
    second: Seq<FileContributorsView>,
    third: Seq<FileContributorsView>,
)
    requires
        extends(first, second),
        extends(second, third),
    ensures
        extends(first, third),
{
    assert forall|j: int| 0 <= j < first.len() implies (#[trigger] third[j]).path == first[j].path
        && first[j].contributors.is_prefix_of(third[j].contributors) by {
        assert(second[j].path == first[j].path);
        assert(first[j].contributors.is_prefix_of(second[j].contributors));
        assert(second[j].contributors.is_prefix_of(third[j].contributors));
    }
}

/// The credits of one commit.
pub proof fn lemma_credit_each(
    rows: Seq<FileContributorsView>,
    paths: Seq<Seq<char>>,
    who: Identity,
    included: spec_fn(Seq<char>) -> bool,
    path: Seq<char>,
    email: Seq<char>,
)
    ensures
        has_row(credit_each(rows, paths, who, included), path) <==> has_row(rows, path) || (
        included(path) && paths.contains(path)),
        credited(credit_each(rows, paths, who, included), path, email) <==> credited(
            rows,
            path,
            email,
        ) || (included(path) && paths.contains(path) && who.email == email),
        extends(rows, credit_each(rows, paths, who, included)),
        well_formed(rows) ==> well_formed(credit_each(rows, paths, who, included)),
    decreases paths.len(),
{
    if paths.len() > 0 {
        let rest = paths.drop_last();
        let before = credit_each(rows, rest, who, included);
        lemma_credit_each(rows, rest, who, included, path, email);
        if rest.contains(path) {
            let at = choose|at: int| 0 <= at < rest.len() && rest[at] == path;
            assert(paths[at] == path);
        }
        if paths.contains(path) {
            let at = choose|at: int| 0 <= at < paths.len() && paths[at] == path;
            if at < rest.len() {
                assert(rest[at] == path);
            }
        }
        assert(paths[paths.len() - 1] == paths.last());
        if included(paths.last()) {
            lemma_credit(before, paths.last(), who, path, email);
            lemma_extends_further(rows, before, credit(before, paths.last(), who));
        }
    } else {
        assert forall|j: int| 0 <= j < rows.len() implies rows[j].contributors.is_prefix_of(
            (#[trigger] rows[j]).contributors,
        ) by {}
    }
}

/// One more commit takes nothing away: every file keeps its row, and every
/// row its contributors, so that no bus factor ever shrinks.
pub proof fn lemma_contributors_only_grow(
    table: BusFactorView,
    commit: CommitView,
    included: spec_fn(Seq<char>) -> bool,
)
    ensures
        extends(table.rows, record_commit(table, commit, included).rows),
        forall|j: int|
            0 <= j < table.rows.len() ==> table.rows[j].contributors.len() <= (
            #[trigger] record_commit(table, commit, included).rows[j]).contributors.len(),
{
    let after = record_commit(table, commit, included).rows;
    lemma_credit_each(table.rows, commit.paths, commit.author, included, Seq::empty(), Seq::empty());
    assert forall|j: int| 0 <= j < table.rows.len() implies table.rows[j].contributors.is_prefix_of(
        (#[trigger] table.rows[j]).contributors,
    ) by {}
    assert forall|j: int| 0 <= j < table.rows.len() implies table.rows[j].contributors.len() <= (
    #[trigger] after[j]).contributors.len() by {
        assert(table.rows[j].contributors.is_prefix_of(after[j].contributors));
    }
}

/// A file has a row exactly when some commit of the walk touched it, and a
/// contributor is credited with it exactly when one of the commits that
/// touched it is theirs. No path has two rows and no row an email twice.
pub proof fn lemma_credits(
    walk: Seq<CommitView>,
    included: spec_fn(Seq<char>) -> bool,
    path: Seq<char>,
    email: Seq<char>,
)
    ensures
        has_row(file_contributors(walk, included).rows, path) <==> is_touched(walk, path, included),
        credited(file_contributors(walk, included).rows, path, email) <==> is_touched_by(
            walk,
            path,
            email,
            included,
        ),
        well_formed(file_contributors(walk, included).rows),
    decreases walk.len(),
{
    if walk.len() > 0 {
        let rest = walk.drop_last();
        let last = walk.last();
        let earlier = file_contributors(rest, included);
        lemma_credits(rest, included, path, email);
        lemma_credit_each(earlier.rows, last.paths, last.author, included, path, email);
        assert(walk[walk.len() - 1] == last);
        if is_touched(rest, path, included) {
            let i = choose|i: int| 0 <= i < rest.len() && touches_path(#[trigger] rest[i], path, included);
            assert(walk[i] == rest[i]);
        }
        if is_touched(walk, path, included) {
            let i = choose|i: int| 0 <= i < walk.len() && touches_path(#[trigger] walk[i], path, included);
            if i < rest.len() {
                assert(rest[i] == walk[i]);
            }
        }
        if is_touched_by(rest, path, email, included) {
            let i = choose|i: int|
                0 <= i < rest.len() && touches_path(#[trigger] rest[i], path, included)
                    && rest[i].author.email == email;
            assert(walk[i] == rest[i]);
        }
        if is_touched_by(walk, path, email, included) {
            let i = choose|i: int|
                0 <= i < walk.len() && touches_path(#[trigger] walk[i], path, included)
                    && walk[i].author.email == email;
            if i < rest.len() {
                assert(rest[i] == walk[i]);
            }
        }
    } else {
        assert(paths_of(file_contributors(walk, included).rows) =~= Seq::empty());
    }
}

/// A path that the filter excludes never gets a row.
pub proof fn lemma_excluded_path_has_no_row(
    walk: Seq<CommitView>,
    included: spec_fn(Seq<char>) -> bool,
    path: Seq<char>,
)
    requires
        !included(path),
    ensures
        !has_row(file_contributors(walk, included).rows, path),
        !paths_of(file_contributors(walk, included).rows).contains(path),
        bus_factor_of(file_contributors(walk, included).rows, path) == 0,
{
    lemma_credits(walk, included, path, Seq::empty());
    lemma_position(paths_of(file_contributors(walk, included).rows), path);
}

/// A merge is counted as walked and credits nobody.
pub proof fn lemma_merge_credits_nobody(
    table: BusFactorView,
    merge: CommitView,
    included: spec_fn(Seq<char>) -> bool,
)
    requires
        merge.parents >= 2,
    ensures
        record_commit(table, merge, included).rows == table.rows,
        record_commit(table, merge, included).commits == advanced(table.commits),
{
}

/// Two tables made from the same walk under the same filter are the same,
/// row for row and in the same order.
pub proof fn lemma_same_walk_same_table(
    first: BusFactorView,
    second: BusFactorView,
    walk: Seq<CommitView>,
    included: spec_fn(Seq<char>) -> bool,
)
    requires
        first == file_contributors(walk, included),
        second == file_contributors(walk, included),
    ensures
        first == second,
{
}

/// An email that stands in a list is found in it.
proof fn lemma_found(keys: Seq<Seq<char>>, at: int)
    requires
        0 <= at < keys.len(),
    ensures
        position(keys, keys[at]) < keys.len(),
{
    lemma_position(keys, keys[at]);
}

/// The bus factor counts over the whole walk: a file that two commits by
/// different contributors touch, and no commit by anyone else, has a bus
/// factor of 2, however many commits lie between the two and around them.
pub proof fn lemma_two_contributors(
    walk: Seq<CommitView>,
    included: spec_fn(Seq<char>) -> bool,
    path: Seq<char>,
    one: int,
    other: int,
)
    requires
        0 <= one < walk.len(),
        0 <= other < walk.len(),
        touches_path(walk[one], path, included),
        touches_path(walk[other], path, included),
        walk[one].author.email != walk[other].author.email,
        forall|k: int|
            0 <= k < walk.len() && touches_path(#[trigger] walk[k], path, included) ==> walk[k].author.email
                == walk[one].author.email || walk[k].author.email == walk[other].author.email,
    ensures
        bus_factor_of(file_contributors(walk, included).rows, path) == 2,
{
    let rows = file_contributors(walk, included).rows;
    let x = walk[one].author.email;
    let y = walk[other].author.email;
    lemma_credits(walk, included, path, x);
    lemma_credits(walk, included, path, y);
    assert(is_touched_by(walk, path, x, included));
    assert(is_touched_by(walk, path, y, included));
    let at = position(paths_of(rows), path);
    lemma_position(paths_of(rows), path);
    assert(0 <= at < rows.len());
    let people = rows[at].contributors;
    let emails = emails_of(people);
    lemma_position(emails, x);
    lemma_position(emails, y);
    assert(distinct(emails));
    if people.len() >= 3 {
        assert forall|k: int| 0 <= k < 3 implies emails[k] == x || emails[k] == y by {
            lemma_found(emails, k);
            lemma_credits(walk, included, path, emails[k]);
            let i = choose|i: int|
                0 <= i < walk.len() && touches_path(#[trigger] walk[i], path, included)
                    && walk[i].author.email == emails[k];
        }
        assert(emails[0] != emails[1] && emails[0] != emails[2] && emails[1] != emails[2]);
    }
}

/// The table knows how many commits were walked, merges included.
pub proof fn lemma_commits_walked(walk: Seq<CommitView>, included: spec_fn(Seq<char>) -> bool)
    ensures
        file_contributors(walk, included).commits == capped_tally(walk.len()),
    decreases walk.len(),
{
    if walk.len() > 0 {
        lemma_commits_walked(walk.drop_last(), included);
    }
}

} // verus!
