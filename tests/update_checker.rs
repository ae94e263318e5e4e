use pz_tags::update_checker::{
    compare_versions, get_current_version, update_info_for_release, GitHubRelease,
};
use std::cmp::Ordering;

#[test]
fn test_compare_versions_equal() {
    assert_eq!(compare_versions("1.0.0", "1.0.0"), Ordering::Equal);
    assert_eq!(compare_versions("0.1.0", "0.1.0"), Ordering::Equal);
}

#[test]
fn test_compare_versions_less() {
    assert_eq!(compare_versions("0.1.0", "0.2.0"), Ordering::Less);
    assert_eq!(compare_versions("1.0.0", "1.0.1"), Ordering::Less);
    assert_eq!(compare_versions("0.1.0", "1.0.0"), Ordering::Less);
}

#[test]
fn test_compare_versions_greater() {
    assert_eq!(compare_versions("0.2.0", "0.1.0"), Ordering::Greater);
    assert_eq!(compare_versions("1.0.1", "1.0.0"), Ordering::Greater);
    assert_eq!(compare_versions("1.0.0", "0.1.0"), Ordering::Greater);
}

#[test]
fn test_compare_versions_different_lengths() {
    assert_eq!(compare_versions("1.0", "1.0.0"), Ordering::Equal);
    assert_eq!(compare_versions("1.0.0", "1.0"), Ordering::Equal);
    assert_eq!(compare_versions("1.0", "1.0.1"), Ordering::Less);
    assert_eq!(compare_versions("1.0.1", "1.0"), Ordering::Greater);
}

#[test]
fn test_get_current_version() {
    let version = get_current_version();
    // Version should be in format x.y.z
    assert!(version.contains('.'));
    let parts: Vec<&str> = version.split('.').collect();
    assert_eq!(parts.len(), 3);
    parts.iter().for_each(|p| {
        p.parse::<u32>().expect("Version part should be a number");
    });
}

#[test]
fn compare_versions_numeric_and_odd_parts() {
    assert_eq!(compare_versions("1.10.0", "1.9.0"), Ordering::Greater);
    assert_eq!(compare_versions("1.x", "1.0"), Ordering::Less);
    assert_eq!(compare_versions("1.x", "1.y"), Ordering::Equal);
    assert_eq!(compare_versions("1.x", "1"), Ordering::Less);
    assert_eq!(compare_versions("+2.0", "2.0"), Ordering::Equal);
    assert_eq!(compare_versions("-2.0", "2.0"), Ordering::Less);
    assert_eq!(compare_versions("4294967296", "1"), Ordering::Less);
    assert_eq!(compare_versions("4294967295", "1"), Ordering::Greater);
    assert_eq!(compare_versions("", ""), Ordering::Equal);
    assert_eq!(compare_versions("1..2", "1.0.2"), Ordering::Less);
}

fn release(tag: &str, prerelease: bool) -> GitHubRelease {
    GitHubRelease {
        tag_name: tag.to_string(),
        name: "Release".to_string(),
        html_url: "https://example.org/r".to_string(),
        body: "notes".to_string(),
        published_at: "2024-01-01T00:00:00Z".to_string(),
        prerelease,
    }
}

#[test]
fn newer_release_is_an_update() {
    let info = update_info_for_release("0.1.0".to_string(), release("v0.2.0", false));
    assert!(info.has_update);
    assert_eq!(info.latest_version, "0.2.0");
    assert_eq!(info.current_version, "0.1.0");
    assert_eq!(info.release_url, "https://example.org/r");
    assert_eq!(info.release_notes, "notes");
    assert_eq!(info.published_at, "2024-01-01T00:00:00Z");
}

#[test]
fn same_or_older_release_is_no_update() {
    let info = update_info_for_release("0.2.0".to_string(), release("0.2.0", false));
    assert!(!info.has_update);
    assert_eq!(info.latest_version, "0.2.0");
    let info = update_info_for_release("0.2.0".to_string(), release("v0.1.9", false));
    assert!(!info.has_update);
}

#[test]
fn prerelease_is_never_an_update() {
    let info = update_info_for_release("0.1.0".to_string(), release("v9.0.0", true));
    assert!(!info.has_update);
    assert_eq!(info.latest_version, "v9.0.0");
}
