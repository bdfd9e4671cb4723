//! The rows of the history reports, ready to be laid out.
//!
//! A report takes what a table holds and cuts the texts to the width of
//! their column: paths at their left end, where they differ least, names at
//! their right end.

use crate::busfactor;
use crate::busfactor::{BusFactorTable, FileContributors, FileContributorsView};
use crate::contributors;
use crate::contributors::{ActivityView, ContributorActivity, ContributorTable};
use crate::hottest;
use crate::hottest::{ranked_rows, FileTouchRecord, HotspotTable, TouchView};
use crate::shared_types::{
    label_of, truncate_left, truncate_right, truncated_left, truncated_right,
};
use vstd::prelude::*;

verus! {

/// The width of a column that holds a path or a contributor.
pub const COLUMN_WIDTH: usize = 70;

/// One line of the report on the hottest files.
#[derive(Debug)]
pub struct HottestRow {
    pub path: String,
    pub changes: u32,
    pub last_changed_by: String,
    /// In seconds since the epoch.
    pub last_changed_at: i64,
}

/// A line of the report on the hottest files as a mathematical value.
pub struct HottestRowView {
    pub path: Seq<char>,
    pub changes: u32,
    pub last_changed_by: Seq<char>,
    pub last_changed_at: i64,
}

impl View for HottestRow {
    type V = HottestRowView;

    open spec fn view(&self) -> HottestRowView {
        HottestRowView {
            path: self.path@,
            changes: self.changes,
            last_changed_by: self.last_changed_by@,
            last_changed_at: self.last_changed_at,
        }
    }
}

/// The line for a record.
pub open spec fn hottest_line(record: TouchView) -> HottestRowView {
    HottestRowView {
        path: truncated_left(record.path, COLUMN_WIDTH),
        changes: record.touch_count,
        last_changed_by: truncated_right(label_of(record.last_seen_by), COLUMN_WIDTH),
        last_changed_at: record.last_seen_at,
    }
}

/// The lines for a list of records, in their order.
pub open spec fn hottest_lines_for(records: Seq<TouchView>) -> Seq<HottestRowView> {
    records.map_values(|r: TouchView| hottest_line(r))
}

/// The lines of a list as mathematical values.
pub open spec fn hottest_lines(rows: Seq<HottestRow>) -> Seq<HottestRowView> {
    rows.map_values(|r: HottestRow| r@)
}

/// The line for a record.
pub fn hottest_row(record: &FileTouchRecord) -> (row: HottestRow)
    ensures
        row@ == hottest_line(record@),
{
    HottestRow {
        path: truncate_left(record.path.clone(), COLUMN_WIDTH),
        changes: record.touch_count,
        last_changed_by: truncate_right(record.last_seen_by.label(), COLUMN_WIDTH),
        last_changed_at: record.last_seen_at,
    }
}

/// The report on the hottest files: a line for each of the `top` files
/// with the most touches, or for all where `top` is 0, the most touched
/// first.
pub fn hottest_report(table: &HotspotTable, top: u32) -> (rows: Vec<HottestRow>)
    ensures
        hottest_lines(rows@) == hottest_lines_for(ranked_rows(table@.rows, top)),
{
    let ranked = table.ranked(top);
    let ghost expected = hottest_lines_for(ranked_rows(table@.rows, top));
    let mut rows: Vec<HottestRow> = Vec::new();
    let mut k: usize = 0;
    while k < ranked.len()
        invariant
            0 <= k <= ranked.len(),
            hottest::views(ranked@) == ranked_rows(table@.rows, top),
            expected == hottest_lines_for(ranked_rows(table@.rows, top)),
            rows@.len() == k,
            hottest_lines(rows@) == expected.take(k as int),
        decreases ranked.len() - k,
    {
        let row = hottest_row(&ranked[k]);
        assert(hottest::views(ranked@)[k as int] == ranked@[k as int]@);
        rows.push(row);
        assert(hottest_lines(rows@) =~= expected.take(k + 1));
        k += 1;
    }
    assert(expected.take(k as int) =~= expected);
    rows
}

/// One line of the bus factor report.
#[derive(Debug)]
pub struct BusFactorRow {
    pub path: String,
    pub bus_factor: usize,
}

/// A line of the bus factor report as a mathematical value.
pub struct BusFactorRowView {
    pub path: Seq<char>,
    pub bus_factor: nat,
}

impl View for BusFactorRow {
    type V = BusFactorRowView;

    open spec fn view(&self) -> BusFactorRowView {
        BusFactorRowView { path: self.path@, bus_factor: self.bus_factor as nat }
    }
}

/// The line for a file.
pub open spec fn bus_factor_line(file: FileContributorsView) -> BusFactorRowView {
    BusFactorRowView {
        path: truncated_left(file.path, COLUMN_WIDTH),
        bus_factor: file.contributors.len(),
    }
}

/// The lines for a list of files, in their order.
pub open spec fn bus_factor_lines_for(files: Seq<FileContributorsView>) -> Seq<BusFactorRowView> {
    files.map_values(|f: FileContributorsView| bus_factor_line(f))
}

/// The lines of a list as mathematical values.
pub open spec fn bus_factor_lines(rows: Seq<BusFactorRow>) -> Seq<BusFactorRowView> {
    rows.map_values(|r: BusFactorRow| r@)
}

/// The line for a file.
pub fn bus_factor_row(file: &FileContributors) -> (row: BusFactorRow)
    ensures
        row@ == bus_factor_line(file@),
{
    BusFactorRow {
        path: truncate_left(file.path.clone(), COLUMN_WIDTH),
        bus_factor: file.bus_factor(),
    }
}

/// The bus factor report: a line for each file, in the order in which the
/// files were first seen.
pub fn bus_factor_report(table: &BusFactorTable) -> (rows: Vec<BusFactorRow>)
    ensures
        bus_factor_lines(rows@) == bus_factor_lines_for(table@.rows),
{
    let files = table.rows();
    let ghost expected = bus_factor_lines_for(table@.rows);
    let mut rows: Vec<BusFactorRow> = Vec::new();
    let mut k: usize = 0;
    while k < files.len()
        invariant
            0 <= k <= files.len(),
            busfactor::views(files@) == table@.rows,
            expected == bus_factor_lines_for(table@.rows),
            rows@.len() == k,
            bus_factor_lines(rows@) == expected.take(k as int),
        decreases files.len() - k,
    {
        let row = bus_factor_row(&files[k]);
        assert(busfactor::views(files@)[k as int] == files@[k as int]@);
        rows.push(row);
        assert(bus_factor_lines(rows@) =~= expected.take(k + 1));
        k += 1;
    }
    assert(expected.take(k as int) =~= expected);
    rows
}

/// One line of the contributors report.
#[derive(Debug)]
pub struct ContributorRow {
    pub contributor: String,
    pub commits: u32,
    pub files_touched: usize,
}

/// A line of the contributors report as a mathematical value.
pub struct ContributorRowView {
    pub contributor: Seq<char>,
    pub commits: u32,
    pub files_touched: nat,
}

impl View for ContributorRow {
    type V = ContributorRowView;

    open spec fn view(&self) -> ContributorRowView {
        ContributorRowView {
            contributor: self.contributor@,
            commits: self.commits,
            files_touched: self.files_touched as nat,
        }
    }
}

/// The line for a contributor.
pub open spec fn contributor_line(activity: ActivityView) -> ContributorRowView {
    ContributorRowView {
        contributor: truncated_right(label_of(activity.contributor), COLUMN_WIDTH),
        commits: activity.commit_count,
        files_touched: activity.files_touched.len(),
    }
}

/// The lines for a list of contributors, in their order.
pub open spec fn contributor_lines_for(people: Seq<ActivityView>) -> Seq<ContributorRowView> {
    people.map_values(|a: ActivityView| contributor_line(a))
}

/// The lines of a list as mathematical values.
pub open spec fn contributor_lines(rows: Seq<ContributorRow>) -> Seq<ContributorRowView> {
    rows.map_values(|r: ContributorRow| r@)
}

/// The line for a contributor.
pub fn contributor_row(activity: &ContributorActivity) -> (row: ContributorRow)
    ensures
        row@ == contributor_line(activity@),
{
    ContributorRow {
        contributor: truncate_right(activity.contributor.label(), COLUMN_WIDTH),
        commits: activity.commit_count,
        files_touched: activity.files_touched.len(),
    }
}

/// The contributors report: a line for each contributor, in the order in
/// which they were first seen.
pub fn contributors_report(table: &ContributorTable) -> (rows: Vec<ContributorRow>)
    ensures
        contributor_lines(rows@) == contributor_lines_for(table@.rows),
{
    let people = table.rows();
    let ghost expected = contributor_lines_for(table@.rows);
    let mut rows: Vec<ContributorRow> = Vec::new();
    let mut k: usize = 0;
    while k < people.len()
        invariant
            0 <= k <= people.len(),
            contributors::views(people@) == table@.rows,
            expected == contributor_lines_for(table@.rows),
            rows@.len() == k,
            contributor_lines(rows@) == expected.take(k as int),
        decreases people.len() - k,
    {
        let row = contributor_row(&people[k]);
        assert(contributors::views(people@)[k as int] == people@[k as int]@);
        rows.push(row);
        assert(contributor_lines(rows@) =~= expected.take(k + 1));
        k += 1;
    }
    assert(expected.take(k as int) =~= expected);
    rows
}

} // verus!
