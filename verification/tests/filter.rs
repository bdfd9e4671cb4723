use hotspot::filter::{build_globset, parse_pattern, FileFilter};
use hotspot::shared_types::FILE_GLOBS;

fn source_files() -> FileFilter {
    FileFilter::new(&FILE_GLOBS.to_vec()).unwrap()
}

#[test]
fn default_patterns_compile() {
    let filter = source_files();
    assert_eq!(filter.len(), 4);
}

#[test]
fn recognised_extensions_are_included() {
    let filter = source_files();
    for path in [
        "a.c", "a.cpp", "a.cs", "a.fs", "a.go", "a.java", "a.js", "a.py", "a.rs", "a.ts", "a.tsx",
    ] {
        assert!(filter.is_included(path), "{}", path);
    }
}

#[test]
fn other_extensions_are_excluded() {
    let filter = source_files();
    for path in ["build/output.o", "README.md", "Cargo.toml", "a.rs.bak", "rs", "Makefile"] {
        assert!(!filter.is_included(path), "{}", path);
    }
}

#[test]
fn source_file_in_a_directory_is_included() {
    let filter = source_files();
    assert!(filter.is_included("src/main.rs"));
    assert!(filter.is_included("crates/core/src/lib.rs"));
}

#[test]
fn dot_files_are_excluded() {
    let filter = source_files();
    assert!(!filter.is_included(".eslintrc.js"));
    assert!(!filter.is_included("src/.hidden.rs"));
    assert!(!filter.is_included(".github/scripts/release.py"));
}

#[test]
fn build_and_dependency_directories_are_excluded() {
    let filter = source_files();
    assert!(!filter.is_included("target/debug/build/out.rs"));
    assert!(!filter.is_included("node_modules/left-pad/index.js"));
    assert!(!filter.is_included("web/node_modules/left-pad/index.js"));
    assert!(!filter.is_included("crates/core/target/generated.rs"));
    assert!(filter.is_included("src/target.rs"));
    assert!(filter.is_included("targets/main.rs"));
}

#[test]
fn the_last_matching_pattern_decides() {
    let excluded_then_included = FileFilter::new(&vec!["*.rs", "!gen/", "gen/keep.rs"]).unwrap();
    assert!(excluded_then_included.is_included("src/a.rs"));
    assert!(!excluded_then_included.is_included("gen/a.rs"));
    assert!(excluded_then_included.is_included("gen/keep.rs"));
    let included_then_excluded = FileFilter::new(&vec!["gen/keep.rs", "!gen/", "*.rs"]).unwrap();
    assert!(included_then_excluded.is_included("gen/a.rs"));
    let only_exclusions = FileFilter::new(&vec!["!*.rs"]).unwrap();
    assert!(!only_exclusions.is_included("a.rs"));
    assert!(!only_exclusions.is_included("a.py"));
}

#[test]
fn a_filter_without_patterns_includes_nothing() {
    let patterns: Vec<&str> = Vec::new();
    let filter = FileFilter::new(&patterns).unwrap();
    assert_eq!(filter.len(), 0);
    assert!(!filter.is_included("src/main.rs"));
}

#[test]
fn a_pattern_that_is_no_glob_is_refused() {
    assert!(FileFilter::new(&vec!["*.rs", "[oops"]).is_none());
    assert!(FileFilter::new(&vec!["{a,b"]).is_none());
    assert!(build_globset(vec!["*.rs", "[oops"]).is_err());
}

#[test]
fn glob_set_numbers_globs_in_order() {
    let set = build_globset(vec!["*.rs", "src/lib.rs", "src/**/foo.rs"]).unwrap();
    assert_eq!(set.len(), 3);
    assert_eq!(set.matches("src/bar/baz/foo.rs"), vec![0, 2]);
    assert_eq!(set.matches("src/lib.rs"), vec![0, 1]);
    assert!(set.matches("Cargo.toml").is_empty());
}

#[test]
fn patterns_become_globs() {
    assert_eq!(parse_pattern("*.rs"), (false, "**/*.rs".to_string()));
    assert_eq!(parse_pattern("!.*"), (true, "**/.*".to_string()));
    assert_eq!(parse_pattern("!target/"), (true, "**/target/**".to_string()));
    assert_eq!(parse_pattern("src/gen/"), (false, "src/gen/**".to_string()));
    assert_eq!(parse_pattern("docs/*.md"), (false, "docs/*.md".to_string()));
    assert_eq!(parse_pattern("!"), (true, "**/".to_string()));
    assert_eq!(parse_pattern(""), (false, "**/".to_string()));
    assert_eq!(parse_pattern("/"), (false, "**//**".to_string()));
}
