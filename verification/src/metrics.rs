//! The report on the static measures of the files in the working tree.
//!
//! Each file that the walk over the working tree finds is read and handed
//! to an analyser. A file that cannot be read is passed over. A file whose
//! language has no analyser, or whose contents do not parse, has no
//! measures; it gets a line only in a verbose report.

use crate::history::{advance, advanced};
use crate::shared_types::{truncate_left, truncated_left, SpecificMetrics};
use vstd::prelude::*;

verus! {

/// The width of the column that holds the path.
pub const PATH_WIDTH: usize = 80;

/// What an analyser measured of one file.
#[derive(Debug, Clone, Copy, PartialEq, Eq, Structural)]
pub struct Measures {
    pub loc: i64,
    pub cognitive: i64,
    pub cyclomatic: i64,
}

/// The metrics of one file as a mathematical value.
pub struct MetricsView {
    pub path: Seq<char>,
    pub cyclomatic: Option<i64>,
    pub cognitive: Option<i64>,
    pub loc: Option<i64>,
}

impl View for SpecificMetrics {
    type V = MetricsView;

    open spec fn view(&self) -> MetricsView {
        MetricsView {
            path: self.path@,
            cyclomatic: self.cyclomatic,
            cognitive: self.cognitive,
            loc: self.loc,
        }
    }
}

/// The metrics of a file that was read: what the analyser measured, or
/// nothing where it measured nothing.
pub open spec fn metrics_of(path: Seq<char>, measures: Option<Measures>) -> MetricsView {
    match measures {
        Some(m) => MetricsView {
            path,
            cyclomatic: Some(m.cyclomatic),
            cognitive: Some(m.cognitive),
            loc: Some(m.loc),
        },
        None => MetricsView { path, cyclomatic: None, cognitive: None, loc: None },
    }
}

/// The metrics of one file of the walk, or `None` where it could not be
/// read.
pub fn file_metrics(path: String, was_read: bool, measures: Option<Measures>) -> (r: Option<
    SpecificMetrics,
>)
    ensures
        r is Some <==> was_read,
        r matches Some(metrics) ==> metrics@ == metrics_of(path@, measures),
{
    if !was_read {
        return None;
    }
    match measures {
        Some(m) => Some(
            SpecificMetrics {
                path,
                cyclomatic: Some(m.cyclomatic),
                cognitive: Some(m.cognitive),
                loc: Some(m.loc),
            },
        ),
        None => Some(SpecificMetrics { path, cyclomatic: None, cognitive: None, loc: None }),
    }
}

/// How many files the walk found, and how many of them could be read.
#[derive(Debug, Clone, Copy, PartialEq, Eq, Structural)]
pub struct Tally {
    pub files_walked: usize,
    pub files_scanned: usize,
}

/// The tally after one more file.
pub open spec fn tallied(tally: Tally, was_read: bool) -> Tally {
    Tally {
        files_walked: advanced(tally.files_walked),
        files_scanned: if was_read {
            advanced(tally.files_scanned)
        } else {
            tally.files_scanned
        },
    }
}

impl Tally {
    /// The tally before the first file.
    pub fn new() -> (tally: Tally)
        ensures
            tally == (Tally { files_walked: 0, files_scanned: 0 }),
    {
        Tally { files_walked: 0, files_scanned: 0 }
    }

    /// Counts one file of the walk: always as walked, and as scanned where
    /// it could be read.
    pub fn count(&mut self, was_read: bool)
        ensures
            *final(self) == tallied(*old(self), was_read),
    {
        self.files_walked = advance(self.files_walked);
        if was_read {
            self.files_scanned = advance(self.files_scanned);
        }
    }
}

/// One line of the metrics report.
#[derive(Debug)]
pub enum MetricsRow {
    /// A file with measures. A measure that is absent is shown empty.
    Measured { path: String, loc: i64, cognitive: Option<i64>, cyclomatic: Option<i64> },
    /// A file without measures: every measure is shown as a dash.
    Unmeasured { path: String },
}

/// A line of the metrics report as a mathematical value.
pub enum MetricsRowView {
    Measured { path: Seq<char>, loc: i64, cognitive: Option<i64>, cyclomatic: Option<i64> },
    Unmeasured { path: Seq<char> },
}

impl View for MetricsRow {
    type V = MetricsRowView;

    open spec fn view(&self) -> MetricsRowView {
        match self {
            MetricsRow::Measured { path, loc, cognitive, cyclomatic } => MetricsRowView::Measured {
                path: path@,
                loc: *loc,
                cognitive: *cognitive,
                cyclomatic: *cyclomatic,
            },
            MetricsRow::Unmeasured { path } => MetricsRowView::Unmeasured { path: path@ },
        }
    }
}

/// The line for a file, if it gets one: a file with a line count always
/// does, any other only in a verbose report.
pub open spec fn metrics_line(metrics: MetricsView, verbose: bool) -> Option<MetricsRowView> {
    match metrics.loc {
        Some(loc) => Some(
            MetricsRowView::Measured {
                path: truncated_left(metrics.path, PATH_WIDTH),
                loc,
                cognitive: metrics.cognitive,
                cyclomatic: metrics.cyclomatic,
            },
        ),
        None => if verbose {
            Some(MetricsRowView::Unmeasured { path: truncated_left(metrics.path, PATH_WIDTH) })
        } else {
            None
        },
    }
}

/// The lines for a list of files: those of the files that get one, in the
/// files' order.
pub open spec fn metrics_lines_for(files: Seq<MetricsView>, verbose: bool) -> Seq<MetricsRowView>
    decreases files.len(),
{
    if files.len() == 0 {
        Seq::empty()
    } else {
        let before = metrics_lines_for(files.drop_last(), verbose);
        match metrics_line(files.last(), verbose) {
            Some(line) => before.push(line),
            None => before,
        }
    }
}

/// The metrics of a list as mathematical values.
pub open spec fn metrics_views(files: Seq<SpecificMetrics>) -> Seq<MetricsView> {
    files.map_values(|m: SpecificMetrics| m@)
}

/// The lines of a list as mathematical values.
pub open spec fn metrics_lines(rows: Seq<MetricsRow>) -> Seq<MetricsRowView> {
    rows.map_values(|r: MetricsRow| r@)
}

/// The line for a file, if it gets one.
pub fn metrics_row(metrics: &SpecificMetrics, verbose: bool) -> (row: Option<MetricsRow>)
    ensures
        row is Some <==> metrics_line(metrics@, verbose) is Some,
        row matches Some(r) ==> Some(r@) == metrics_line(metrics@, verbose),
{
    match metrics.loc {
        Some(loc) => Some(
            MetricsRow::Measured {
                path: truncate_left(metrics.path.clone(), PATH_WIDTH),
                loc,
                cognitive: metrics.cognitive,
                cyclomatic: metrics.cyclomatic,
            },
        ),
        None => if verbose {
            Some(MetricsRow::Unmeasured { path: truncate_left(metrics.path.clone(), PATH_WIDTH) })
        } else {
            None
        },
    }
}

/// The metrics report: a line for each file with measures, and in a verbose
/// report one for each file without, in the order of the files.
pub fn metrics_report(files: &Vec<SpecificMetrics>, verbose: bool) -> (rows: Vec<MetricsRow>)
    ensures
        metrics_lines(rows@) == metrics_lines_for(metrics_views(files@), verbose),
{
    let ghost all = metrics_views(files@);
    let mut rows: Vec<MetricsRow> = Vec::new();
    let mut k: usize = 0;
    while k < files.len()
        invariant
            0 <= k <= files.len(),
            all == metrics_views(files@),
            metrics_lines(rows@) == metrics_lines_for(all.take(k as int), verbose),
        decreases files.len() - k,
    {
        proof {
            let upto = all.take(k + 1);
            assert(upto.drop_last() == all.take(k as int));
            assert(upto.last() == files@[k as int]@);
        }
        match metrics_row(&files[k], verbose) {
            Some(row) => {
                let ghost held = metrics_lines(rows@);
                rows.push(row);
                assert(metrics_lines(rows@) =~= held.push(row@));
            },
            None => {},
        }
        k += 1;
    }
    assert(all.take(k as int) == all);
    rows
}

} // verus!
