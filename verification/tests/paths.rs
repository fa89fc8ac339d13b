use repoloc::path::DirPath;
use repoloc::url::strip_repo_suffix;

fn dp(parts: &[&str]) -> DirPath {
    DirPath { components: parts.iter().map(|s| s.as_bytes().to_vec()).collect() }
}

#[test]
fn path_starts_with_ancestor() {
    let p = dp(&["work", "a", "sub"]);
    assert!(p.starts_with(&dp(&["work"])));
    assert!(p.starts_with(&dp(&["work", "a"])));
    assert!(p.starts_with(&dp(&["work", "a", "sub"])));
    assert!(p.starts_with(&dp(&[])));
    assert!(!p.starts_with(&dp(&["work", "b"])));
    assert!(!p.starts_with(&dp(&["work", "a", "sub", "deep"])));
}

#[test]
fn path_parent_drops_last_component() {
    let p = dp(&["work", "a", ".git"]);
    assert_eq!(p.parent().components, dp(&["work", "a"]).components);
    assert_eq!(dp(&["work"]).parent().components, dp(&[]).components);
}

#[test]
fn path_same_as_compares_components() {
    assert!(dp(&["a", "b"]).same_as(&dp(&["a", "b"])));
    assert!(!dp(&["a", "b"]).same_as(&dp(&["a"])));
    assert!(!dp(&["a", "b"]).same_as(&dp(&["a", "c"])));
}

#[test]
fn strip_repo_suffix_exact_values() {
    assert_eq!(strip_repo_suffix(&b"proj.git".to_vec()), b"proj".to_vec());
    assert_eq!(strip_repo_suffix(&b"proj".to_vec()), b"proj".to_vec());
    assert_eq!(strip_repo_suffix(&b"proj.git.git".to_vec()), b"proj".to_vec());
    assert_eq!(strip_repo_suffix(&b".git".to_vec()), b"".to_vec());
    assert_eq!(strip_repo_suffix(&b"git".to_vec()), b"git".to_vec());
}
