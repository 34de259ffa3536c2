use dup_finder::filter::{ExcludeFilter, FilterError};

#[test]
fn test_file_prefix() {
    let f = ExcludeFilter::from_patterns(&vec!["file:foo.txt".to_string()]).unwrap();
    assert!(f.should_skip_file("/some/dir/foo.txt"));
    assert!(!f.should_skip_file("/some/dir/bar.txt"));
    assert!(!f.should_skip_dir("/some/dir/foo.txt"));
}

#[test]
fn test_dir_prefix() {
    let f = ExcludeFilter::from_patterns(&vec!["dir:node_modules".to_string()]).unwrap();
    assert!(f.should_skip_dir("/project/node_modules"));
    assert!(!f.should_skip_dir("/project/src"));
    assert!(!f.should_skip_file("/project/node_modules/index.js"));
}

#[test]
fn test_no_ext() {
    let f = ExcludeFilter::from_patterns(&vec!["!no-ext".to_string()]).unwrap();
    assert!(f.should_skip_file("/some/Makefile"));
    assert!(!f.should_skip_file("/some/file.txt"));
}

#[test]
fn test_general() {
    let f = ExcludeFilter::from_patterns(&vec!["*.tmp".to_string()]).unwrap();
    assert!(f.should_skip_file("/some/file.tmp"));
    assert!(f.should_skip_dir("/some/cache.tmp"));
    assert!(!f.should_skip_file("/some/file.txt"));
}

#[test]
fn test_exclude_pattern() {
    let exclude = vec!["*.tmp".to_string()];
    let f = ExcludeFilter::from_patterns(&exclude).unwrap();
    assert!(f.should_skip_file("foo.tmp"));
    assert!(!f.should_skip_file("foo.txt"));
}

#[test]
fn no_patterns_skip_nothing() {
    let f = ExcludeFilter::from_patterns(&Vec::new()).unwrap();
    assert!(!f.should_skip_file("/a/b"));
    assert!(!f.should_skip_dir("/a"));
}

#[test]
fn invalid_glob_is_reported_with_its_text() {
    match ExcludeFilter::from_patterns(&vec!["*.ok".to_string(), "file:[abc".to_string(), "dir:{x".to_string()]) {
        Err(FilterError::InvalidPattern { pattern, .. }) => assert_eq!(pattern, "[abc"),
        _ => panic!("expected an invalid pattern"),
    }
}

#[test]
fn mixed_rules_apply_to_their_kind() {
    let f = ExcludeFilter::from_patterns(&vec![
        "dir:.git".to_string(),
        "file:*.log".to_string(),
        "!no-ext".to_string(),
    ])
    .unwrap();
    assert!(f.should_skip_dir("/repo/.git"));
    assert!(f.should_skip_file("/repo/.git"));
    assert!(!f.should_skip_file("/repo/x.git"));
    assert!(f.should_skip_file("/repo/build.log"));
    assert!(!f.should_skip_dir("/repo/build.log"));
    assert!(f.should_skip_file("/repo/LICENSE"));
    assert!(!f.should_skip_dir("/repo/LICENSE"));
}
