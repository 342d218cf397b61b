//! The tags for the packages whose version changed.
use cargo_notch::config::ReleaseConfig;
use cargo_notch::error::NotchError;
use cargo_notch::package::Package;
use cargo_notch::tag::{compute_tags, parse_version, tag};
use cargo_notch::version::Version;

fn member(path: &str, name: &str, version: &str) -> Package {
    Package::new(
        path.to_string(),
        name.to_string(),
        Version::parse(version).unwrap(),
        format!("{path}/Cargo.toml"),
    )
}

#[test]
fn tag_uses_package_name_not_directory_basename() {
    let release = ReleaseConfig::default();
    let old = vec![member("services/user", "user_service", "0.2.48")];
    let new = vec![member("services/user", "user_service", "0.2.49")];
    let tags = compute_tags(&old, &new, &release).unwrap();
    assert_eq!(tags, vec!["user_service-v0.2.49".to_string()]);
}

#[test]
fn respects_configured_tag_format() {
    let release = ReleaseConfig {
        tag_format: "release/{name}/{version}".to_string(),
        ..ReleaseConfig::default()
    };
    let old = vec![member("services/user", "user_service", "0.2.48")];
    let new = vec![member("services/user", "user_service", "0.2.49")];
    let tags = compute_tags(&old, &new, &release).unwrap();
    assert_eq!(tags, vec!["release/user_service/0.2.49".to_string()]);
}

#[test]
fn no_old_with_new_produces_tag() {
    let release = ReleaseConfig::default();
    let new = vec![member("services/user", "user_service", "0.2.49")];
    let tags = compute_tags(&[], &new, &release).unwrap();
    assert_eq!(tags, vec!["user_service-v0.2.49"]);
}

#[test]
fn old_with_new_produces_tag() {
    let release = ReleaseConfig::default();
    let old = vec![member("services/user", "user_service", "0.2.48")];
    let new = vec![member("services/user", "user_service", "0.2.49")];
    let tags = compute_tags(&old, &new, &release).unwrap();
    assert_eq!(tags, vec!["user_service-v0.2.49"]);
}

#[test]
fn old_with_newer_than_new_produces_error() {
    let release = ReleaseConfig::default();
    let old = vec![member("services/user", "user_service", "0.2.50")];
    let new = vec![member("services/user", "user_service", "0.2.49")];
    let tags = compute_tags(&old, &new, &release);
    assert!(matches!(tags, Err(_)));
}

#[test]
fn old_with_no_new_produces_no_tag() {
    let release = ReleaseConfig::default();
    let old = vec![member("services/user", "user_service", "0.2.48")];
    let tags: Vec<String> = compute_tags(&old, &[], &release).unwrap();
    assert!(tags.is_empty());
}

#[test]
fn an_unchanged_member_gets_no_tag() {
    let release = ReleaseConfig::default();
    let members = vec![member("a", "a", "1.0.0"), member("b", "b", "1.0.0+build")];
    assert_eq!(compute_tags(&members, &members, &release), Ok(Vec::new()));
}

#[test]
fn every_case_of_a_single_package() {
    let one = || Version::new(1, 0, 0);
    let two = || Version::new(2, 0, 0);
    assert_eq!(tag(None, Some(one())), Ok(Some(one())));
    assert_eq!(tag(Some(one()), Some(two())), Ok(Some(two())));
    assert_eq!(tag(Some(two()), Some(one())), Err(NotchError::OlderVersion));
    assert_eq!(tag(Some(one()), Some(one())), Ok(None));
    assert_eq!(tag(Some(one()), None), Ok(None));
    assert_eq!(tag(None, None), Ok(None));
}

#[test]
fn a_pre_release_is_older_than_its_release() {
    let pre = Version::parse("1.0.0-rc.1").unwrap();
    let release = Version::new(1, 0, 0);
    assert_eq!(tag(Some(pre.clone()), Some(release.clone())), Ok(Some(release.clone())));
    assert_eq!(tag(Some(release), Some(pre)), Err(NotchError::OlderVersion));
}

#[test]
fn the_version_is_read_from_the_top_of_a_document() {
    assert_eq!(parse_version("version = \"1.2.3\"\n"), Ok(Version::new(1, 2, 3)));
    assert_eq!(parse_version("name = \"a\"\n"), Err(NotchError::NoVersion));
    assert_eq!(parse_version("version ="), Err(NotchError::NoVersion));
    assert_eq!(
        parse_version("version = \"one\"\n"),
        Err(NotchError::InvalidVersion("one".to_string()))
    );
}

#[test]
fn what_stands_beside_the_version_does_not_matter() {
    let beside = |other: &str| parse_version(&format!("version = \"1.0.0\"\n{other}\n"));
    assert_eq!(beside("big = 18446744073709551615"), Ok(Version::new(1, 0, 0)));
    assert_eq!(beside("day = 1979-05-27\n[a]\nb = [1.5, { c = true }]"), Ok(Version::new(1, 0, 0)));
    // a number that fits no integer is no document that can be read
    assert_eq!(
        beside("huge = 999999999999999999999999999999999999999999"),
        Err(NotchError::NoVersion)
    );
    assert_eq!(parse_version("version = 1\n"), Err(NotchError::NoVersion));
    assert_eq!(parse_version("[package]\nversion = \"1.0.0\"\n"), Err(NotchError::NoVersion));
}
