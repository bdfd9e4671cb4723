use hotspot::shared_types::{
    check_supported_file, is_supported_file, truncate_left, truncate_right, ContributorKey,
    Verbosity, FILE_GLOBS,
};

#[test]
fn non_matching_path_is_not_supported() {
    let path = "notamatch.xyz";
    let supported = is_supported_file(FILE_GLOBS.to_vec(), path);
    assert_eq!(supported, false);
}

#[test]
fn matching_path_is_supported() {
    let path = "test.rs";
    let supported = is_supported_file(FILE_GLOBS.to_vec(), path);
    assert!(supported);
}

#[test]
fn pattern_match_ext_is_supported() {
    let path = "test.rs";
    let supported = is_supported_file(["**.rs"].to_vec(), path);
    assert!(supported);
}

#[test]
fn nested_source_file_is_supported() {
    assert!(is_supported_file(FILE_GLOBS.to_vec(), "src/main.rs"));
    assert!(is_supported_file(FILE_GLOBS.to_vec(), "a/b/c/widget.tsx"));
}

#[test]
fn build_output_is_not_supported() {
    assert!(!is_supported_file(FILE_GLOBS.to_vec(), "build/output.o"));
}

#[test]
fn checked_filter_reports_a_bad_pattern() {
    assert_eq!(check_supported_file(vec!["*.rs", "[oops"], "main.rs"), None);
    assert_eq!(check_supported_file(vec!["*.rs"], "main.rs"), Some(true));
    assert_eq!(check_supported_file(vec!["*.rs"], "main.py"), Some(false));
}

#[test]
fn quiet_levels() {
    assert!(Verbosity::Silent.is_quiet());
    assert!(Verbosity::Error.is_quiet());
    assert!(!Verbosity::Info.is_quiet());
    assert!(!Verbosity::Debug.is_quiet());
    assert!(!Verbosity::Trace.is_quiet());
    assert!(Verbosity::Info.is_not_quiet());
    assert!(!Verbosity::Silent.is_not_quiet());
}

#[test]
fn verbose_and_informative_levels() {
    assert!(Verbosity::Debug.is_verbose());
    assert!(Verbosity::Trace.is_verbose());
    assert!(!Verbosity::Info.is_verbose());
    assert!(!Verbosity::Error.is_verbose());
    assert!(Verbosity::Info.is_informative());
    assert!(Verbosity::Debug.is_informative());
    assert!(Verbosity::Trace.is_informative());
    assert!(!Verbosity::Error.is_informative());
    assert!(!Verbosity::Silent.is_informative());
}

#[test]
fn verbosity_from_flags() {
    assert_eq!(Verbosity::from_flags(0, false), Verbosity::Error);
    assert_eq!(Verbosity::from_flags(0, true), Verbosity::Error);
    assert_eq!(Verbosity::from_flags(1, false), Verbosity::Info);
    assert_eq!(Verbosity::from_flags(2, true), Verbosity::Debug);
    assert_eq!(Verbosity::from_flags(3, false), Verbosity::Trace);
    assert_eq!(Verbosity::from_flags(4, false), Verbosity::Trace);
    assert_eq!(Verbosity::from_flags(4, true), Verbosity::Silent);
    assert_eq!(Verbosity::from_flags(9, true), Verbosity::Silent);
}

#[test]
fn contributors_are_equal_by_email_alone() {
    let first = ContributorKey::new("ada@example.org".to_string(), "Ada".to_string());
    let renamed = ContributorKey::new("ada@example.org".to_string(), "A. Lovelace".to_string());
    let other = ContributorKey::new("bob@example.org".to_string(), "Ada".to_string());
    assert!(first == renamed);
    assert!(first != other);
}

#[test]
fn contributor_label_and_parts() {
    let key = ContributorKey::new("ada@example.org".to_string(), "Ada".to_string());
    assert_eq!(key.email(), "ada@example.org");
    assert_eq!(key.name(), "Ada");
    assert_eq!(key.label(), "Ada<ada@example.org>");
    let copy = key.clone();
    assert_eq!(copy.name(), "Ada");
    assert_eq!(copy.email(), "ada@example.org");
}

#[test]
fn truncate_right_keeps_what_fits() {
    assert_eq!(truncate_right("abc".to_string(), 3), "abc");
    assert_eq!(truncate_right("abc".to_string(), 70), "abc");
    assert_eq!(truncate_right("".to_string(), 0), "");
}

#[test]
fn truncate_right_cuts_the_end() {
    assert_eq!(truncate_right("abcdefghij".to_string(), 8), "abcde...");
    assert_eq!(truncate_right("abcdefghij".to_string(), 3), "...");
    assert_eq!(truncate_right("abcdefghij".to_string(), 9), "abcdef...");
}

#[test]
fn truncate_left_keeps_what_fits() {
    assert_eq!(truncate_left("abc".to_string(), 3), "abc");
    assert_eq!(truncate_left("src/main.rs".to_string(), 70), "src/main.rs");
}

#[test]
fn truncate_left_cuts_the_start() {
    assert_eq!(truncate_left("abcdefghij".to_string(), 8), "...fghij");
    assert_eq!(truncate_left("abcdefghij".to_string(), 3), "...");
    assert_eq!(truncate_left("a/very/long/path.rs".to_string(), 10), "...path.rs");
}

#[test]
fn truncation_judges_bytes_and_keeps_characters() {
    let value = "\u{e9}\u{e9}\u{e9}\u{e9}".to_string();
    assert_eq!(value.len(), 8);
    assert_eq!(truncate_right(value.clone(), 8), "\u{e9}\u{e9}\u{e9}\u{e9}");
    assert_eq!(truncate_right(value.clone(), 7), "\u{e9}\u{e9}\u{e9}\u{e9}...");
    assert_eq!(truncate_left(value.clone(), 7), "...\u{e9}\u{e9}\u{e9}\u{e9}");
    assert_eq!(truncate_right(value.clone(), 5), "\u{e9}\u{e9}...");
    assert_eq!(truncate_left(value, 5), "...\u{e9}\u{e9}");
}
