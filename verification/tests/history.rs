use hotspot::history::{advance, bump, diff_baseline, identify, Baseline, IdentityError};

#[test]
fn root_commit_is_compared_with_the_empty_tree() {
    assert_eq!(diff_baseline(0), Baseline::EmptyTree);
}

#[test]
fn single_parent_commit_is_compared_with_its_parent() {
    assert_eq!(diff_baseline(1), Baseline::FirstParent);
}

#[test]
fn merge_commit_gets_no_diff() {
    assert_eq!(diff_baseline(2), Baseline::NoDiff);
    assert_eq!(diff_baseline(3), Baseline::NoDiff);
    assert_eq!(diff_baseline(usize::MAX), Baseline::NoDiff);
}

#[test]
fn author_with_name_and_email_is_identified() {
    let key = identify(Some("Ada".to_string()), Some("ada@example.org".to_string())).unwrap();
    assert_eq!(key.name(), "Ada");
    assert_eq!(key.email(), "ada@example.org");
}

#[test]
fn author_without_name_is_refused() {
    let refused = identify(None, Some("ada@example.org".to_string()));
    assert_eq!(refused.unwrap_err(), IdentityError::MissingName);
}

#[test]
fn author_without_email_is_refused() {
    let refused = identify(Some("Ada".to_string()), None);
    assert_eq!(refused.unwrap_err(), IdentityError::MissingEmail);
}

#[test]
fn author_without_anything_is_refused_for_the_name() {
    assert_eq!(identify(None, None).unwrap_err(), IdentityError::MissingName);
}

#[test]
fn counts_stop_at_the_ceiling() {
    assert_eq!(bump(0), 1);
    assert_eq!(bump(41), 42);
    assert_eq!(bump(u32::MAX - 1), u32::MAX);
    assert_eq!(bump(u32::MAX), u32::MAX);
    assert_eq!(advance(0), 1);
    assert_eq!(advance(usize::MAX - 1), usize::MAX);
    assert_eq!(advance(usize::MAX), usize::MAX);
}
