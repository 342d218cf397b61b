//! Narrowing what packages track to what the configuration says.
use cargo_notch::config::{PackageTracking, TrackingConfig};
use cargo_notch::package::Package;
use cargo_notch::tracking::{narrow_to_tracked, normalize};
use cargo_notch::version::Version;

#[test]
fn a_global_exclude_resolves_against_each_packages_own_directory() {
    let mut packages = vec![package("crates/a"), package("crates/b")];

    narrow_to_tracked(&mut packages, &tracking(&["benches"], Vec::new()));

    assert!(!packages[0].tracks("crates/a/benches/throughput.rs"));
    assert!(!packages[1].tracks("crates/b/benches/throughput.rs"));
    // one package's excluded directory is not another's
    assert!(packages[0].tracks("crates/a/src/lib.rs"));
}

#[test]
fn a_per_package_exclude_applies_only_to_that_package() {
    let mut packages = vec![package("crates/a"), package("crates/b")];
    let per_package =
        vec![("crates/a".to_string(), package_tracking(&["fixtures"], &[]))];

    narrow_to_tracked(&mut packages, &tracking(&[], per_package));

    assert!(!packages[0].tracks("crates/a/fixtures/big.json"));
    assert!(packages[1].tracks("crates/b/fixtures/big.json"));
}

// The global list is a baseline, not a default to be overwritten: a package that names its own
// excludes still gets the shared ones.
#[test]
fn a_per_package_exclude_adds_to_the_global_one_rather_than_replacing_it() {
    let mut packages = vec![package("crates/a")];
    let per_package =
        vec![("crates/a".to_string(), package_tracking(&["fixtures"], &[]))];

    narrow_to_tracked(&mut packages, &tracking(&["benches"], per_package));

    assert!(!packages[0].tracks("crates/a/benches/throughput.rs"));
    assert!(!packages[0].tracks("crates/a/fixtures/big.json"));
}

// "." joined onto a package is the package itself, which would freeze it forever.
#[test]
fn a_pattern_matching_the_whole_package_is_ignored() {
    let mut packages = vec![package("crates/a")];

    narrow_to_tracked(&mut packages, &tracking(&[".", "", "/"], Vec::new()));

    assert!(packages[0].tracks("crates/a/src/lib.rs"));
}

#[test]
fn excludes_resolve_against_the_root_package_without_a_leading_dot_slash() {
    let mut packages = vec![package(".")];

    narrow_to_tracked(&mut packages, &tracking(&["benches"], Vec::new()));

    assert!(!packages[0].tracks("benches/throughput.rs"));
    assert!(packages[0].tracks("src/lib.rs"));
}

// The `except tests/compat/` half. `include` is not an allowlist — it only ever wins back
// ground a broader `exclude` took, by being the more specific prefix.
#[test]
fn an_include_carves_a_subdirectory_back_out_of_a_broader_exclude() {
    let mut packages = vec![package("crates/a")];
    let config = TrackingConfig {
        exclude: strings(&["tests"]),
        included: strings(&["tests/compat"]),
        packages: Vec::new(),
    };

    narrow_to_tracked(&mut packages, &config);

    assert!(!packages[0].tracks("crates/a/tests/unit.rs"));
    assert!(packages[0].tracks("crates/a/tests/compat/v1.rs"));
    assert!(packages[0].tracks("crates/a/src/lib.rs"));
}

// Both lists resolve against the package, so a per-package `include` can win back ground the
// *global* `exclude` took — the two lists don't have to come from the same scope.
#[test]
fn a_per_package_include_overrides_a_global_exclude() {
    let mut packages = vec![package("crates/a"), package("crates/b")];
    let per_package = vec![(
        "crates/a".to_string(),
        package_tracking(&[], &["benches/regression"]),
    )];

    narrow_to_tracked(&mut packages, &tracking(&["benches"], per_package));

    assert!(packages[0].tracks("crates/a/benches/regression/slow.rs"));
    assert!(!packages[0].tracks("crates/a/benches/throughput.rs"));
    // the package that asked for nothing keeps the global exclude whole
    assert!(!packages[1].tracks("crates/b/benches/regression/slow.rs"));
}

fn tracking(exclude: &[&str], packages: Vec<(String, PackageTracking)>) -> TrackingConfig {
    TrackingConfig {
        exclude: strings(exclude),
        included: Vec::new(),
        packages,
    }
}

fn package_tracking(exclude: &[&str], included: &[&str]) -> PackageTracking {
    PackageTracking {
        exclude: strings(exclude),
        included: strings(included),
    }
}

fn strings(patterns: &[&str]) -> Vec<String> {
    patterns.iter().map(|s| (*s).to_string()).collect()
}

// named after its path so the per-package config in these tests has something to key on
fn package(path: &str) -> Package {
    Package::new(
        path.to_string(),
        path.to_string(),
        Version::new(1, 0, 0),
        format!("{path}/Cargo.toml"),
    )
}

#[test]
fn patterns_lose_their_slashes_and_spaces() {
    assert_eq!(normalize(" /benches/ "), Some("benches"));
    assert_eq!(normalize("a/b"), Some("a/b"));
    assert_eq!(normalize("./"), None);
    assert_eq!(normalize("  "), None);
}
