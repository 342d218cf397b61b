//! Versions, bumps, and errors.
use cargo_notch::bump::Bump;
use cargo_notch::error::NotchError;
use cargo_notch::version::Version;

#[test]
fn apply_to_increments_the_right_field_and_zeroes_lower_ones() {
    let v = Version::parse("1.2.5").unwrap();
    assert_eq!(Bump::Patch.apply_to(&v), Version::parse("1.2.6").unwrap());
    assert_eq!(Bump::Minor.apply_to(&v), Version::parse("1.3.0").unwrap());
    assert_eq!(Bump::Major.apply_to(&v), Version::parse("2.0.0").unwrap());
}

#[test]
fn a_bump_keeps_the_pre_release_and_the_build() {
    let v = Version::parse("1.2.5-rc.1+b7").unwrap();
    assert_eq!(Bump::Major.apply_to(&v).to_string(), "2.0.0-rc.1+b7");
}

#[test]
fn levels_are_ordered_and_named() {
    assert_eq!(Bump::ALL.map(|b| b.label()), ["patch", "minor", "major"]);
    assert!(Bump::Patch < Bump::Minor && Bump::Minor < Bump::Major);
    assert_eq!(Bump::ALL.map(|b| b.rank()), [1, 2, 3]);
}

#[test]
fn versions_read_back_as_they_are_written() {
    for text in ["0.0.0", "1.2.3", "10.20.30-alpha.1", "1.0.0+build.5", "1.0.0-x.y+z"] {
        assert_eq!(Version::parse(text).unwrap().to_string(), text);
    }
    assert_eq!(Version::new(1, 2, 3), Version::parse("1.2.3").unwrap());
}

#[test]
fn what_is_no_version_is_refused() {
    for text in ["", "1", "1.2", "1.2.3.4", "v1.2.3", "1.2.x", "01.2.3"] {
        assert_eq!(Version::parse(text), Err(NotchError::InvalidVersion(text.to_string())));
    }
}

#[test]
fn versions_are_compared_number_by_number() {
    let v = |text: &str| Version::parse(text).unwrap();
    assert!(v("1.9.0").less(&v("1.10.0")));
    assert!(!v("2.0.0").less(&v("1.10.0")));
    assert!(!v("1.0.0").less(&v("1.0.0")));
    assert!(v("1.0.0-alpha").less(&v("1.0.0")));
    assert!(v("1.0.0-alpha").is_prerelease());
    assert!(!v("1.0.0+build").is_prerelease());
    assert_eq!((v("1.2.3").major(), v("1.2.3").minor(), v("1.2.3").patch()), (1, 2, 3));
}

#[test]
fn requirements_admit_or_do_not_parse() {
    let v = Version::new(1, 4, 0);
    assert_eq!(v.admitted_by("^1.2"), Some(true));
    assert_eq!(v.admitted_by("~1.2"), Some(false));
    assert_eq!(v.admitted_by("*"), Some(true));
    assert_eq!(v.admitted_by("nonsense"), None);
}

#[test]
fn every_error_says_what_it_is_about() {
    let text = || "x".to_string();
    let said = [
        (NotchError::InvalidVersion(text()), "not a version: x"),
        (NotchError::NoOriginUrl, "there is no origin remote with a url"),
        (NotchError::UnknownRemote(text()), "could not parse owner/repo from remote url: x"),
        (NotchError::EmptyCommand, "Command is empty"),
        (NotchError::CommandFailed(Some(-1)), "Command did not succeed: Some(-1)"),
        (NotchError::CommandFailed(Some(101)), "Command did not succeed: Some(101)"),
        (NotchError::CommandFailed(None), "Command did not succeed: None"),
        (NotchError::NoToken, "No token provided"),
        (NotchError::NothingUpdated, "No updated crates, shouldn't be creating a PR!"),
        (NotchError::DirtyFile(text()), "x is dirty, please commit the changes and try again"),
        (NotchError::OlderVersion, "New version is older than the old version"),
        (NotchError::NotAnOption(3), "Not a valid selection"),
        (NotchError::BackupFailed, "Copy cargo.toml did not succeed"),
        (NotchError::MissingManifest(text()), "there is no manifest to bump at x"),
        (NotchError::InvalidManifest(text()), "could not parse x"),
        (NotchError::NoPackageTable(text()), "x has no [package] table"),
        (NotchError::VersionNotString(text()), "x's `[package] version` is not a string"),
    ];
    for (error, message) in said {
        assert_eq!(error.message(), message);
    }
}
