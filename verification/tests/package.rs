//! What a package is identified by, and which files it tracks.
use cargo_notch::package::{
    insert_path, join_path, lies_under, path_before, path_components, same_path, Package, PathSpec,
};
use cargo_notch::version::Version;
use std::collections::HashMap;

// The regression this guards: `version` used to be part of the derived identity, so a package
// looked up after its version changed hashed and compared differently from the one that was
// inserted. Nothing hit it yet only because no live code path mutates a version between
// building a map and reading it back — a constraint nothing enforced.
#[test]
fn a_package_is_still_itself_after_its_version_changes() {
    let before = package("1.0.0");
    let mut after = before.clone();
    after.version = Version::parse("2.0.0").unwrap();

    assert_eq!(before, after);

    let map: HashMap<Package, &str> = HashMap::from([(before, "attributed commits")]);
    assert_eq!(map.get(&after), Some(&"attributed commits"));
}

#[test]
fn packages_from_different_manifests_are_different_packages() {
    let a = package("1.0.0");
    let mut b = package("1.0.0");
    b.manifest = "crate-b/Cargo.toml".to_string();

    assert_ne!(a, b);
}

#[test]
fn a_package_tracks_its_own_directory_and_nothing_beside_it() {
    let p = package("1.0.0");

    assert!(p.tracks("crate-a/src/lib.rs"));
    assert!(p.tracks("crate-a/Cargo.toml"));
    assert!(!p.tracks("crate-b/src/lib.rs"));
    assert!(!p.tracks("README.md"));
}

// A string prefix would match here; `Path::starts_with` compares components, so it doesn't.
#[test]
fn a_sibling_sharing_a_name_prefix_is_not_tracked() {
    let p = package("1.0.0");

    assert!(!p.tracks("crate-abc/src/lib.rs"));
}

#[test]
fn a_root_package_tracks_the_whole_repo() {
    let root = Package::new(
        ".".to_string(),
        "root".to_string(),
        Version::parse("1.0.0").unwrap(),
        "Cargo.toml".to_string(),
    );

    assert!(root.tracks("src/lib.rs"));
    assert!(root.tracks("Cargo.toml"));
    assert!(root.tracks("crates/a/src/lib.rs"));
}

// The case a bare list of tracked prefixes cannot express: "the root package, minus the
// members nested inside it".
#[test]
fn an_excluded_path_wins_over_the_tracked_path_containing_it() {
    let mut root = Package::new(
        ".".to_string(),
        "root".to_string(),
        Version::parse("1.0.0").unwrap(),
        "Cargo.toml".to_string(),
    );
    root.paths.exclude("crates/a");

    assert!(!root.tracks("crates/a/src/lib.rs"));
    assert!(root.tracks("src/lib.rs"));
    assert!(root.tracks("crates/b/src/lib.rs"));
}

// The editorial case: a subdirectory of the package's *own* tree that shouldn't trigger a
// release. Same mechanism as the structural exclude above, different source.
#[test]
fn an_excluded_subdirectory_of_the_package_itself_is_not_tracked() {
    let mut p = package("1.0.0");
    p.paths.exclude("crate-a/benches");

    assert!(!p.tracks("crate-a/benches/throughput.rs"));
    assert!(p.tracks("crate-a/src/lib.rs"));
}

// The rule that "an exclude always wins" cannot express: carve a directory out, then put one
// subdirectory of it back.
#[test]
fn a_tracked_path_nested_inside_an_excluded_one_wins_by_being_more_specific() {
    let mut p = package("1.0.0");
    p.paths.exclude("crate-a/tests");
    p.paths.track("crate-a/tests/compat");

    assert!(!p.tracks("crate-a/tests/unit.rs"));
    assert!(p.tracks("crate-a/tests/compat/v1.rs"));
    assert!(p.tracks("crate-a/src/lib.rs"));
}

// Specificity is what decides, not which list a prefix came from, so alternating track and
// exclude down a single chain keeps working at any depth.
#[test]
fn specificity_wins_at_every_depth_not_just_one_level() {
    let mut root = Package::new(
        ".".to_string(),
        "root".to_string(),
        Version::parse("1.0.0").unwrap(),
        "Cargo.toml".to_string(),
    );
    root.paths.exclude("docs");
    root.paths.track("docs/api");
    root.paths.exclude("docs/api/scratch");

    assert!(root.tracks("src/lib.rs"));
    assert!(!root.tracks("docs/notes.md"));
    assert!(root.tracks("docs/api/openapi.yaml"));
    assert!(!root.tracks("docs/api/scratch/wip.md"));
}

// A contradictory instruction resolves to the narrower reading: a missing release is
// recoverable, a spurious one is already published.
#[test]
fn a_path_both_tracked_and_excluded_is_excluded() {
    let mut p = package("1.0.0");
    p.paths.exclude("crate-a/benches");
    p.paths.track("crate-a/benches");

    assert!(!p.tracks("crate-a/benches/throughput.rs"));
}

// An empty prefix matches everything, so accepting one would silently freeze the package at
// its current version forever.
#[test]
fn an_empty_exclude_is_refused_rather_than_excluding_everything() {
    let mut p = package("1.0.0");
    p.paths.exclude("");

    assert!(p.tracks("crate-a/src/lib.rs"));
}

// The mirror hazard: an empty track would hand this package every file in the repo, including
// its siblings', and at specificity 0 it would lose to nothing at all.
#[test]
fn an_empty_track_is_refused_rather_than_tracking_the_whole_repo() {
    let mut p = package("1.0.0");
    p.paths.track("");

    assert!(!p.tracks("crate-b/src/lib.rs"));
}

fn package(version: &str) -> Package {
    Package::new(
        "crate-a".to_string(),
        "crate-a".to_string(),
        Version::parse(version).unwrap(),
        "crate-a/Cargo.toml".to_string(),
    )
}

#[test]
fn paths_are_compared_by_components() {
    assert_eq!(path_components("a//b/./c/"), vec!["a", "b", "c"]);
    assert_eq!(path_components("./a"), vec![".", "a"]);
    assert_eq!(path_components("/a"), vec!["/", "a"]);
    assert_eq!(path_components(""), Vec::<&str>::new());
    assert!(same_path("a//b/", "a/b"));
    assert!(!same_path("./a", "a"));
    assert!(lies_under("a/b/c", "a/b"));
    assert!(!lies_under("a/bc", "a/b"));
    assert!(lies_under("anything", ""));
}

#[test]
fn the_root_adds_nothing_to_a_path() {
    assert_eq!(join_path(".", "Cargo.toml"), "Cargo.toml");
    assert_eq!(join_path("crates/a", "Cargo.toml"), "crates/a/Cargo.toml");
    assert_eq!(package("1.0.0").join("CHANGELOG.md"), "crate-a/CHANGELOG.md");
}

#[test]
fn the_order_of_patterns_does_not_matter() {
    let mut a = PathSpec::rooted_at(".");
    a.exclude("x");
    a.exclude("y");
    a.track("x/z");
    let mut b = PathSpec::rooted_at(".");
    b.track("x/z");
    b.exclude("y");
    b.exclude("x");
    for file in ["x/f", "y/f", "x/z/f", "w/f"] {
        assert_eq!(a.matches(file), b.matches(file), "{file}");
    }
    assert!(a.matches("x/z/f"));
    assert!(!a.matches("x/f"));
}

#[test]
fn nothing_is_tracked_by_an_empty_list() {
    assert!(!PathSpec::default().matches("a"));
}

#[test]
fn paths_are_ordered_by_components() {
    assert!(path_before("a/b", "a-b"));
    assert!(path_before("a", "a/b"));
    assert!(!path_before("a/b", "a/b"));
    let mut paths = Vec::new();
    for path in ["b/Cargo.toml", "Cargo.toml", "a/Cargo.toml", "b/Cargo.toml"] {
        insert_path(&mut paths, path.to_string());
    }
    assert_eq!(paths, vec!["Cargo.toml", "a/Cargo.toml", "b/Cargo.toml"]);
}
