use hotspot::filter::FileFilter;
use hotspot::history::Commit;
use hotspot::hottest::HotspotTable;
use hotspot::shared_types::{ContributorKey, FILE_GLOBS};

fn source_files() -> FileFilter {
    FileFilter::new(&FILE_GLOBS.to_vec()).unwrap()
}

fn who(name: &str, email: &str) -> ContributorKey {
    ContributorKey::new(email.to_string(), name.to_string())
}

fn commit(author: &ContributorKey, time: i64, parent_count: usize, paths: &[&str]) -> Commit {
    Commit {
        author: author.clone(),
        time,
        parent_count,
        changed_paths: paths.iter().map(|p| p.to_string()).collect(),
    }
}

#[test]
fn root_commit_adds_each_file_once() {
    let ada = who("Ada", "ada@example.org");
    let walk = vec![commit(&ada, 100, 0, &["a.rs", "b.rs", "c.rs"])];
    let table = HotspotTable::from_history(&walk, &source_files());
    assert_eq!(table.len(), 3);
    assert_eq!(table.commits_walked(), 1);
    let paths: Vec<&str> = table.records().iter().map(|r| r.path.as_str()).collect();
    assert_eq!(paths, vec!["a.rs", "b.rs", "c.rs"]);
    for record in table.records() {
        assert_eq!(record.touch_count, 1);
    }
    assert_eq!(table.ranked(0).len(), 3);
}

#[test]
fn two_commits_on_one_file_count_twice() {
    let ada = who("Ada", "ada@example.org");
    let bob = who("Bob", "bob@example.org");
    let walk = vec![
        commit(&bob, 300, 1, &["a.rs"]),
        commit(&ada, 200, 1, &["a.rs"]),
        commit(&ada, 100, 0, &["a.rs", "b.rs"]),
    ];
    let table = HotspotTable::from_history(&walk, &source_files());
    assert_eq!(table.len(), 2);
    let a = &table.records()[0];
    assert_eq!(a.path, "a.rs");
    assert_eq!(a.touch_count, 3);
    let b = &table.records()[1];
    assert_eq!(b.path, "b.rs");
    assert_eq!(b.touch_count, 1);
}

#[test]
fn first_sighting_is_kept_and_is_the_newest_under_a_newest_first_walk() {
    let ada = who("Ada", "ada@example.org");
    let bob = who("Bob", "bob@example.org");
    let walk = vec![
        commit(&bob, 300, 1, &["a.rs"]),
        commit(&ada, 200, 1, &["a.rs", "b.rs"]),
        commit(&ada, 100, 0, &["a.rs"]),
    ];
    let table = HotspotTable::from_history(&walk, &source_files());
    let a = &table.records()[0];
    assert_eq!(a.first_seen_at, 300);
    assert_eq!(a.first_seen_by.email(), "bob@example.org");
    assert_eq!(a.first_seen_by.name(), "Bob");
    assert_eq!(a.last_seen_at, 300);
    assert_eq!(a.last_seen_by.email(), "bob@example.org");
    let b = &table.records()[1];
    assert_eq!(b.first_seen_at, 200);
    assert_eq!(b.last_seen_at, 200);
    assert_eq!(b.last_seen_by.name(), "Ada");
}

#[test]
fn merge_commit_is_walked_and_touches_nothing() {
    let ada = who("Ada", "ada@example.org");
    let filter = source_files();
    let mut table = HotspotTable::new();
    table.record(&commit(&ada, 100, 0, &["a.rs"]), &filter);
    assert_eq!(table.commits_walked(), 1);
    table.record(&commit(&ada, 200, 2, &["a.rs", "b.rs"]), &filter);
    assert_eq!(table.commits_walked(), 2);
    assert_eq!(table.len(), 1);
    assert_eq!(table.records()[0].touch_count, 1);
    table.record(&commit(&ada, 300, 3, &["c.rs"]), &filter);
    assert_eq!(table.commits_walked(), 3);
    assert_eq!(table.len(), 1);
}

#[test]
fn excluded_paths_get_no_record() {
    let ada = who("Ada", "ada@example.org");
    let walk = vec![commit(
        &ada,
        100,
        0,
        &["build/output.o", "src/main.rs", "target/debug/main.rs", ".hidden.rs", "README.md"],
    )];
    let table = HotspotTable::from_history(&walk, &source_files());
    assert_eq!(table.len(), 1);
    assert_eq!(table.records()[0].path, "src/main.rs");
    assert_eq!(table.records()[0].touch_count, 1);
    assert_eq!(table.find(&"build/output.o".to_string()), 1);
    assert_eq!(table.find(&"src/main.rs".to_string()), 0);
}

#[test]
fn empty_walk_gives_an_empty_table() {
    let walk: Vec<Commit> = Vec::new();
    let table = HotspotTable::from_history(&walk, &source_files());
    assert_eq!(table.len(), 0);
    assert_eq!(table.commits_walked(), 0);
    assert!(table.ranked(0).is_empty());
    assert!(table.ranked(5).is_empty());
}

#[test]
fn ranking_is_by_falling_count_and_ties_keep_their_order() {
    let ada = who("Ada", "ada@example.org");
    let walk = vec![
        commit(&ada, 500, 1, &["c.rs", "d.rs"]),
        commit(&ada, 400, 1, &["b.rs", "d.rs"]),
        commit(&ada, 300, 1, &["d.rs", "e.rs"]),
        commit(&ada, 200, 1, &["b.rs"]),
        commit(&ada, 100, 0, &["a.rs", "c.rs"]),
    ];
    let table = HotspotTable::from_history(&walk, &source_files());
    let seen: Vec<&str> = table.records().iter().map(|r| r.path.as_str()).collect();
    assert_eq!(seen, vec!["c.rs", "d.rs", "b.rs", "e.rs", "a.rs"]);
    let ranked = table.ranked(0);
    let order: Vec<(&str, u32)> = ranked.iter().map(|r| (r.path.as_str(), r.touch_count)).collect();
    assert_eq!(
        order,
        vec![("d.rs", 3), ("c.rs", 2), ("b.rs", 2), ("e.rs", 1), ("a.rs", 1)]
    );
}

#[test]
fn top_caps_the_ranking_and_zero_means_all() {
    let ada = who("Ada", "ada@example.org");
    let walk = vec![
        commit(&ada, 300, 1, &["a.rs", "b.rs"]),
        commit(&ada, 200, 1, &["b.rs", "c.rs"]),
        commit(&ada, 100, 0, &["b.rs", "c.rs", "d.rs"]),
    ];
    let table = HotspotTable::from_history(&walk, &source_files());
    let paths = |top: u32| -> Vec<String> {
        table.ranked(top).iter().map(|r| r.path.clone()).collect()
    };
    assert_eq!(paths(0), vec!["b.rs", "c.rs", "a.rs", "d.rs"]);
    assert_eq!(paths(1), vec!["b.rs"]);
    assert_eq!(paths(2), vec!["b.rs", "c.rs"]);
    assert_eq!(paths(4), vec!["b.rs", "c.rs", "a.rs", "d.rs"]);
    assert_eq!(paths(40), vec!["b.rs", "c.rs", "a.rs", "d.rs"]);
}

#[test]
fn folding_touches_commit_by_commit_gives_the_table_of_the_walk() {
    let ada = who("Ada", "ada@example.org");
    let bob = who("Bob", "bob@example.org");
    let walk = vec![
        commit(&bob, 300, 1, &["a.rs", "x.txt"]),
        commit(&ada, 250, 2, &["a.rs"]),
        commit(&ada, 200, 1, &["b.rs", "a.rs"]),
        commit(&ada, 100, 0, &["a.rs"]),
    ];
    let filter = source_files();
    let whole = HotspotTable::from_history(&walk, &filter);
    let mut stepwise = HotspotTable::new();
    for c in &walk {
        stepwise.record(c, &filter);
    }
    assert_eq!(whole.len(), stepwise.len());
    assert_eq!(whole.commits_walked(), stepwise.commits_walked());
    for (x, y) in whole.records().iter().zip(stepwise.records().iter()) {
        assert_eq!(x.path, y.path);
        assert_eq!(x.touch_count, y.touch_count);
        assert_eq!(x.first_seen_at, y.first_seen_at);
        assert_eq!(x.first_seen_by.label(), y.first_seen_by.label());
        assert_eq!(x.last_seen_at, y.last_seen_at);
        assert_eq!(x.last_seen_by.label(), y.last_seen_by.label());
    }
}

#[test]
fn running_twice_gives_the_same_table() {
    let ada = who("Ada", "ada@example.org");
    let bob = who("Bob", "bob@example.org");
    let walk = vec![
        commit(&bob, 300, 1, &["a.rs", "c.rs"]),
        commit(&ada, 200, 1, &["b.rs", "a.rs"]),
        commit(&ada, 100, 0, &["a.rs"]),
    ];
    let filter = source_files();
    let first = format!("{:?}", HotspotTable::from_history(&walk, &filter).ranked(0));
    let second = format!("{:?}", HotspotTable::from_history(&walk, &filter).ranked(0));
    assert_eq!(first, second);
}

#[test]
fn a_path_named_twice_by_one_commit_counts_twice() {
    let ada = who("Ada", "ada@example.org");
    let walk = vec![commit(&ada, 100, 0, &["a.rs", "a.rs"])];
    let table = HotspotTable::from_history(&walk, &source_files());
    assert_eq!(table.len(), 1);
    assert_eq!(table.records()[0].touch_count, 2);
}
