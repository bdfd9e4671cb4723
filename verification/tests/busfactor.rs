use hotspot::busfactor::{find_contributor, BusFactorTable};
use hotspot::filter::FileFilter;
use hotspot::history::Commit;
use hotspot::shared_types::{ContributorKey, FILE_GLOBS};

fn source_files() -> FileFilter {
    FileFilter::new(&FILE_GLOBS.to_vec()).unwrap()
}

fn who(name: &str, email: &str) -> ContributorKey {
    ContributorKey::new(email.to_string(), name.to_string())
}

fn commit(author: &ContributorKey, time: i64, parent_count: usize, paths: &[&str]) -> Commit {
    Commit {
        author: author.clone(),
        time,
        parent_count,
        changed_paths: paths.iter().map(|p| p.to_string()).collect(),
    }
}

fn factor(table: &BusFactorTable, path: &str) -> usize {
    let at = table.find(&path.to_string());
    if at < table.len() {
        table.rows()[at].bus_factor()
    } else {
        0
    }
}

#[test]
fn one_author_twice_is_one_contributor() {
    let ada = who("Ada", "ada@example.org");
    let walk = vec![commit(&ada, 300, 1, &["a.rs"]), commit(&ada, 200, 1, &["a.rs"])];
    let table = BusFactorTable::from_history(&walk, &source_files());
    assert_eq!(table.len(), 1);
    assert_eq!(factor(&table, "a.rs"), 1);
}

#[test]
fn two_authors_are_two_contributors() {
    let ada = who("Ada", "ada@example.org");
    let bob = who("Bob", "bob@example.org");
    let walk = vec![commit(&bob, 300, 1, &["a.rs"]), commit(&ada, 200, 1, &["a.rs"])];
    let table = BusFactorTable::from_history(&walk, &source_files());
    assert_eq!(factor(&table, "a.rs"), 2);
    let names: Vec<&str> = table.rows()[0].contributors.iter().map(|c| c.name()).collect();
    assert_eq!(names, vec!["Bob", "Ada"]);
}

#[test]
fn bus_factor_counts_over_the_whole_history() {
    let x = who("X", "x@example.org");
    let y = who("Y", "y@example.org");
    let z = who("Z", "z@example.org");
    let walk = vec![
        commit(&y, 500, 1, &["a.rs"]),
        commit(&z, 400, 1, &["b.rs"]),
        commit(&z, 300, 1, &["c.rs", "b.rs"]),
        commit(&z, 200, 2, &["a.rs"]),
        commit(&x, 100, 0, &["a.rs", "b.rs"]),
    ];
    let table = BusFactorTable::from_history(&walk, &source_files());
    assert_eq!(table.commits_walked(), 5);
    assert_eq!(factor(&table, "a.rs"), 2);
    assert_eq!(factor(&table, "b.rs"), 2);
    assert_eq!(factor(&table, "c.rs"), 1);
    assert_eq!(factor(&table, "d.rs"), 0);
}

#[test]
fn same_email_under_another_name_is_the_same_contributor() {
    let ada = who("Ada", "ada@example.org");
    let countess = who("Countess of Lovelace", "ada@example.org");
    let walk = vec![commit(&countess, 300, 1, &["a.rs"]), commit(&ada, 200, 1, &["a.rs"])];
    let table = BusFactorTable::from_history(&walk, &source_files());
    assert_eq!(factor(&table, "a.rs"), 1);
    assert_eq!(table.rows()[0].contributors[0].name(), "Countess of Lovelace");
}

#[test]
fn merge_commit_credits_nobody() {
    let ada = who("Ada", "ada@example.org");
    let bob = who("Bob", "bob@example.org");
    let filter = source_files();
    let mut table = BusFactorTable::new();
    table.record(&commit(&ada, 100, 0, &["a.rs"]), &filter);
    table.record(&commit(&bob, 200, 2, &["a.rs", "b.rs"]), &filter);
    assert_eq!(table.commits_walked(), 2);
    assert_eq!(table.len(), 1);
    assert_eq!(factor(&table, "a.rs"), 1);
    assert_eq!(factor(&table, "b.rs"), 0);
}

#[test]
fn bus_factor_never_shrinks() {
    let ada = who("Ada", "ada@example.org");
    let bob = who("Bob", "bob@example.org");
    let walk = vec![
        commit(&ada, 400, 1, &["a.rs"]),
        commit(&bob, 300, 1, &["a.rs", "b.rs"]),
        commit(&bob, 200, 2, &[]),
        commit(&ada, 100, 0, &["b.rs"]),
    ];
    let filter = source_files();
    let mut table = BusFactorTable::new();
    let mut before = (0, 0);
    for c in &walk {
        table.record(c, &filter);
        let after = (factor(&table, "a.rs"), factor(&table, "b.rs"));
        assert!(after.0 >= before.0 && after.1 >= before.1);
        before = after;
    }
    assert_eq!(before, (2, 2));
}

#[test]
fn excluded_paths_get_no_row() {
    let ada = who("Ada", "ada@example.org");
    let walk = vec![commit(&ada, 100, 0, &["build/output.o", "src/main.rs", "node_modules/x.js"])];
    let table = BusFactorTable::from_history(&walk, &source_files());
    assert_eq!(table.len(), 1);
    assert_eq!(table.rows()[0].path, "src/main.rs");
    assert_eq!(factor(&table, "build/output.o"), 0);
}

#[test]
fn contributors_are_found_by_email() {
    let people = vec![who("Ada", "ada@example.org"), who("Bob", "bob@example.org")];
    assert_eq!(find_contributor(&people, &who("Robert", "bob@example.org")), 1);
    assert_eq!(find_contributor(&people, &who("Ada", "ada@example.org")), 0);
    assert_eq!(find_contributor(&people, &who("Ada", "ada@example.com")), 2);
}
