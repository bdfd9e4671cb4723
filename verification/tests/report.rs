use hotspot::busfactor::BusFactorTable;
use hotspot::contributors::ContributorTable;
use hotspot::filter::FileFilter;
use hotspot::history::Commit;
use hotspot::hottest::HotspotTable;
use hotspot::metrics::{file_metrics, metrics_report, metrics_row, Measures, MetricsRow, Tally};
use hotspot::report::{bus_factor_report, contributors_report, hottest_report};
use hotspot::shared_types::{ContributorKey, SpecificMetrics, FILE_GLOBS};

fn source_files() -> FileFilter {
    FileFilter::new(&FILE_GLOBS.to_vec()).unwrap()
}

fn who(name: &str, email: &str) -> ContributorKey {
    ContributorKey::new(email.to_string(), name.to_string())
}

fn commit(author: &ContributorKey, time: i64, parent_count: usize, paths: &[&str]) -> Commit {
    Commit {
        author: author.clone(),
        time,
        parent_count,
        changed_paths: paths.iter().map(|p| p.to_string()).collect(),
    }
}

fn long_path() -> String {
    format!("{}/main.rs", "directory".repeat(10))
}

#[test]
fn hottest_report_lists_the_most_touched_first() {
    let ada = who("Ada", "ada@example.org");
    let bob = who("Bob", "bob@example.org");
    let long = long_path();
    let walk = vec![
        commit(&bob, 300, 1, &["a.rs", long.as_str()]),
        commit(&ada, 200, 1, &[long.as_str()]),
        commit(&ada, 100, 0, &["b.rs"]),
    ];
    let table = HotspotTable::from_history(&walk, &source_files());
    let rows = hottest_report(&table, 2);
    assert_eq!(rows.len(), 2);
    assert_eq!(rows[0].changes, 2);
    assert_eq!(rows[0].path.chars().count(), 70);
    assert!(rows[0].path.starts_with("..."));
    assert!(rows[0].path.ends_with("/main.rs"));
    assert_eq!(rows[0].last_changed_by, "Bob<bob@example.org>");
    assert_eq!(rows[0].last_changed_at, 300);
    assert_eq!(rows[1].path, "a.rs");
    assert_eq!(rows[1].changes, 1);
    assert_eq!(hottest_report(&table, 0).len(), 3);
}

#[test]
fn long_contributor_is_cut_at_the_right() {
    let long = who(&"n".repeat(80), "long@example.org");
    let walk = vec![commit(&long, 100, 0, &["a.rs"])];
    let filter = source_files();
    let hottest = hottest_report(&HotspotTable::from_history(&walk, &filter), 0);
    assert_eq!(hottest[0].last_changed_by, format!("{}...", "n".repeat(67)));
    let people = contributors_report(&ContributorTable::from_history(&walk, &filter));
    assert_eq!(people[0].contributor, format!("{}...", "n".repeat(67)));
}

#[test]
fn bus_factor_report_has_a_line_for_each_file() {
    let ada = who("Ada", "ada@example.org");
    let bob = who("Bob", "bob@example.org");
    let long = long_path();
    let walk = vec![
        commit(&bob, 300, 1, &["a.rs", long.as_str()]),
        commit(&ada, 200, 0, &["a.rs"]),
    ];
    let table = BusFactorTable::from_history(&walk, &source_files());
    let rows = bus_factor_report(&table);
    assert_eq!(rows.len(), 2);
    assert_eq!(rows[0].path, "a.rs");
    assert_eq!(rows[0].bus_factor, 2);
    assert_eq!(rows[1].bus_factor, 1);
    assert_eq!(rows[1].path.chars().count(), 70);
    assert!(rows[1].path.starts_with("..."));
}

#[test]
fn contributors_report_has_a_line_for_each_contributor() {
    let ada = who("Ada", "ada@example.org");
    let bob = who("Bob", "bob@example.org");
    let walk = vec![
        commit(&bob, 300, 1, &["a.rs", "b.rs"]),
        commit(&ada, 200, 2, &["a.rs"]),
        commit(&bob, 100, 0, &["a.rs"]),
    ];
    let rows = contributors_report(&ContributorTable::from_history(&walk, &source_files()));
    assert_eq!(rows.len(), 2);
    assert_eq!(rows[0].contributor, "Bob<bob@example.org>");
    assert_eq!(rows[0].commits, 2);
    assert_eq!(rows[0].files_touched, 2);
    assert_eq!(rows[1].contributor, "Ada<ada@example.org>");
    assert_eq!(rows[1].commits, 1);
    assert_eq!(rows[1].files_touched, 0);
}

#[test]
fn file_that_was_not_read_has_no_metrics() {
    let measures = Measures { loc: 10, cognitive: 2, cyclomatic: 3 };
    assert!(file_metrics("a.rs".to_string(), false, Some(measures)).is_none());
    assert!(file_metrics("a.rs".to_string(), false, None).is_none());
}

#[test]
fn file_that_was_read_has_its_measures_or_none() {
    let measures = Measures { loc: 10, cognitive: 2, cyclomatic: 3 };
    let measured = file_metrics("a.rs".to_string(), true, Some(measures)).unwrap();
    assert_eq!(measured.path, "a.rs");
    assert_eq!(measured.loc, Some(10));
    assert_eq!(measured.cognitive, Some(2));
    assert_eq!(measured.cyclomatic, Some(3));
    let unmeasured = file_metrics("a.fs".to_string(), true, None).unwrap();
    assert_eq!(unmeasured.path, "a.fs");
    assert_eq!(unmeasured.loc, None);
    assert_eq!(unmeasured.cognitive, None);
    assert_eq!(unmeasured.cyclomatic, None);
}

#[test]
fn tally_counts_walked_and_scanned_files() {
    let mut tally = Tally::new();
    assert_eq!(tally, Tally { files_walked: 0, files_scanned: 0 });
    tally.count(true);
    tally.count(false);
    tally.count(true);
    assert_eq!(tally, Tally { files_walked: 3, files_scanned: 2 });
    let mut full = Tally { files_walked: usize::MAX, files_scanned: 7 };
    full.count(true);
    assert_eq!(full, Tally { files_walked: usize::MAX, files_scanned: 8 });
}

#[test]
fn unmeasured_files_show_only_in_a_verbose_report() {
    let files = vec![
        SpecificMetrics {
            path: "a.rs".to_string(),
            cyclomatic: Some(3),
            cognitive: None,
            loc: Some(10),
        },
        SpecificMetrics { path: "b.fs".to_string(), cyclomatic: None, cognitive: None, loc: None },
        SpecificMetrics {
            path: "c.rs".to_string(),
            cyclomatic: Some(1),
            cognitive: Some(0),
            loc: None,
        },
    ];
    let quiet = metrics_report(&files, false);
    assert_eq!(quiet.len(), 1);
    match &quiet[0] {
        MetricsRow::Measured { path, loc, cognitive, cyclomatic } => {
            assert_eq!(path, "a.rs");
            assert_eq!(*loc, 10);
            assert_eq!(*cognitive, None);
            assert_eq!(*cyclomatic, Some(3));
        }
        MetricsRow::Unmeasured { .. } => panic!("a.rs has measures"),
    }
    let verbose = metrics_report(&files, true);
    assert_eq!(verbose.len(), 3);
    assert!(matches!(&verbose[0], MetricsRow::Measured { .. }));
    assert!(matches!(&verbose[1], MetricsRow::Unmeasured { path } if path == "b.fs"));
    assert!(matches!(&verbose[2], MetricsRow::Unmeasured { path } if path == "c.rs"));
}

#[test]
fn metrics_path_is_cut_to_its_column() {
    let long = format!("{}/main.rs", "directory".repeat(12));
    let metrics =
        SpecificMetrics { path: long, cyclomatic: Some(1), cognitive: Some(1), loc: Some(1) };
    match metrics_row(&metrics, false) {
        Some(MetricsRow::Measured { path, .. }) => {
            assert_eq!(path.chars().count(), 80);
            assert!(path.starts_with("..."));
            assert!(path.ends_with("/main.rs"));
        }
        _ => panic!("a file with a line count gets a line"),
    }
    let none = SpecificMetrics { path: "x".to_string(), cyclomatic: None, cognitive: None, loc: None };
    assert!(metrics_row(&none, false).is_none());
}
