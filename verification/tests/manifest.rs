//! Rewriting manifests and the requirements in them.
use cargo_notch::cargo::{
    clean_member_path, contains_package, next_write, CargoEcosystem, ManifestFile, MetadataPackage,
    StagedManifest, WorkspaceMetadata, WriteStep,
};
use cargo_notch::error::NotchError;
use cargo_notch::manifest::{bump_manifest, bump_requirement, rewrite_requirement};
use cargo_notch::package::Package;
use cargo_notch::version::Version;

fn package(path: &str, version: &str) -> Package {
    Package::new(
        path.to_string(),
        path.to_string(),
        Version::parse(version).unwrap(),
        format!("{path}/Cargo.toml"),
    )
}

fn root(name: &str, version: &str) -> Package {
    Package::new(
        ".".to_string(),
        name.to_string(),
        Version::parse(version).unwrap(),
        "Cargo.toml".to_string(),
    )
}

fn file(path: &str, contents: &str) -> ManifestFile {
    ManifestFile { path: path.to_string(), contents: contents.to_string() }
}

fn manifest(name: &str, version: &str) -> String {
    format!("[package]\nname = \"{name}\"\nversion = \"{version}\"\nedition = \"2021\"\n")
}

fn workspace(members: &str) -> String {
    format!("[workspace]\nmembers = [{members}]\nresolver = \"2\"\n")
}

fn touched(staged: &[StagedManifest]) -> Vec<&str> {
    staged.iter().map(|s| s.file.path.as_str()).collect()
}

fn updated<'a>(staged: &'a [StagedManifest], path: &str) -> &'a str {
    staged.iter().find(|s| s.file.path == path).unwrap().updated.as_str()
}

/// What stands at the path once the staged manifests are written, where `before` stood.
fn written(staged: &[StagedManifest], path: &str, before: &str) -> String {
    match staged.iter().find(|s| s.file.path == path) {
        Some(s) => s.updated.clone(),
        None => before.to_string(),
    }
}

fn metadata(root: &str, members: &[(&str, &str)]) -> WorkspaceMetadata {
    let id = |path: &str| format!("path+file://{path}#0.1.0");
    WorkspaceMetadata {
        workspace_root: root.to_string(),
        members: members.iter().map(|(path, _)| id(path)).collect(),
        packages: members
            .iter()
            .map(|(path, name)| MetadataPackage {
                id: id(path),
                name: (*name).to_string(),
                version: Version::new(0, 1, 0),
            })
            .collect(),
    }
}

#[test]
fn cargo_root_crate_path_is_normalized_to_dot() {
    let members = CargoEcosystem.packages(&metadata("/tmp/root", &[("/tmp/root", "root-test-crate")]));
    assert_eq!(members.len(), 1);
    assert_eq!(members[0].path, ".");
    assert_eq!(members[0].name, "root-test-crate");
    assert_eq!(members[0].manifest, "Cargo.toml");
}

#[test]
fn a_root_package_excludes_the_members_nested_inside_it() {
    let members = CargoEcosystem.packages(&metadata(
        "/tmp/root",
        &[("/tmp/root", "root-test-crate"), ("/tmp/root/crates/a", "crate-a")],
    ));
    let root = members.iter().find(|m| m.path == ".").unwrap();
    let a = members.iter().find(|m| m.path == "crates/a").unwrap();
    assert!(root.tracks("src/lib.rs"));
    assert!(!root.tracks("crates/a/src/lib.rs"));
    assert!(a.tracks("crates/a/src/lib.rs"));
}

#[test]
fn a_sibling_sharing_a_name_prefix_is_not_excluded() {
    let members = CargoEcosystem.packages(&metadata(
        "/tmp/root",
        &[("/tmp/root/crates/a", "crate-a"), ("/tmp/root/crates/ab", "crate-ab")],
    ));
    let a = members.iter().find(|m| m.path == "crates/a").unwrap();
    assert!(a.tracks("crates/a/src/lib.rs"));
    assert!(!a.tracks("crates/ab/src/lib.rs"));
}

#[test]
fn nested_workspace_member_path_is_relative_to_root() {
    let members = CargoEcosystem.packages(&metadata("/tmp/root", &[("/tmp/root/crate-a", "crate-a")]));
    assert_eq!(members.len(), 1);
    assert_eq!(members[0].path, "crate-a");
    assert_eq!(members[0].name, "crate-a");
    assert_eq!(members[0].manifest, "crate-a/Cargo.toml");
}

#[test]
fn an_id_outside_the_root_keeps_its_whole_path() {
    assert_eq!(clean_member_path("path+file:///w/a#a@1.0.0", "/w"), "a");
    assert_eq!(clean_member_path("path+file:///elsewhere/a#1.0.0", "/w"), "/elsewhere/a");
}

#[test]
fn a_directory_contains_what_lies_deeper() {
    assert!(contains_package(".", "a"));
    assert!(!contains_package(".", "."));
    assert!(contains_package("a", "a/b"));
    assert!(!contains_package("a", "ab"));
    assert!(!contains_package("a", "a"));
}

#[test]
fn every_manifest_is_read_once() {
    let packages = vec![package("b", "1.0.0"), root("root", "1.0.0"), package("a", "1.0.0")];
    assert_eq!(
        CargoEcosystem.manifests(&packages),
        vec!["Cargo.toml", "a/Cargo.toml", "b/Cargo.toml"]
    );
    assert_eq!(CargoEcosystem.manifests(&Vec::new()), vec!["Cargo.toml"]);
}

#[test]
fn set_versions_writes_every_manifest_and_reports_what_it_touched() {
    let staged = CargoEcosystem
        .set_versions(
            vec![
                file("Cargo.toml", &workspace("\"crate-a\", \"crate-b\"")),
                file("crate-a/Cargo.toml", &manifest("crate-a", "0.3.0")),
                file("crate-b/Cargo.toml", &manifest("crate-b", "1.0.0")),
            ],
            &[
                (package("crate-a", "0.3.0"), Version::new(0, 4, 0)),
                (package("crate-b", "1.0.0"), Version::new(1, 0, 1)),
            ],
        )
        .unwrap();
    assert!(updated(&staged, "crate-a/Cargo.toml").contains("version = \"0.4.0\""));
    assert!(updated(&staged, "crate-b/Cargo.toml").contains("version = \"1.0.1\""));
    assert_eq!(touched(&staged), vec!["crate-a/Cargo.toml", "crate-b/Cargo.toml"]);
}

#[test]
fn a_package_that_cannot_be_bumped_leaves_every_other_manifest_untouched() {
    let result = CargoEcosystem
        .set_versions(
            vec![
                file("Cargo.toml", &workspace("\"crate-a\", \"crate-b\"")),
                file("crate-a/Cargo.toml", &manifest("crate-a", "0.3.0")),
                file("crate-b/Cargo.toml", &manifest("crate-b", "1.0.0")),
            ],
            &[
                (package("crate-a", "0.3.0"), Version::new(0, 4, 0)),
                (package("crate-b", "9.9.9"), Version::new(9, 9, 10)),
            ],
        );
    let staged = match &result {
        Ok(staged) => staged.as_slice(),
        Err(_) => &[],
    };
    let a = written(staged, "crate-a/Cargo.toml", &manifest("crate-a", "0.3.0"));
    assert!(a.contains("version = \"0.3.0\""), "crate-a was left bumped: {a}");
    let err = result.unwrap_err();
    assert!(err.message().contains("out of sync"), "got: {}", err.message());
    assert_eq!(
        err,
        NotchError::OutOfSync {
            manifest: "crate-b/Cargo.toml".to_string(),
            expected: "9.9.9".to_string(),
            found: "1.0.0".to_string(),
        }
    );
}

#[test]
fn a_dependency_sharing_the_version_string_is_not_bumped_instead_of_the_package() {
    let contents = "[workspace.dependencies]\n\
                    helper = { version = \"0.3.0\", path = \"helper\" }\n\
                    \n\
                    [package]\n\
                    name = \"root\"\n\
                    version = \"0.3.0\"\n\
                    edition = \"2021\"\n";
    let toml = bump_manifest(
        "Cargo.toml",
        contents,
        &[(root("root", "0.3.0"), Version::new(0, 4, 0))],
    )
    .unwrap()
    .unwrap();
    assert!(
        toml.contains("helper = { version = \"0.3.0\", path = \"helper\" }"),
        "the dependency was bumped instead: {toml}"
    );
    assert!(toml.contains("version = \"0.4.0\""), "the package was not bumped: {toml}");
}

#[test]
fn everything_around_the_version_survives_the_bump() {
    let contents = "[package]\n\
                    name = \"root\"\n\
                    version = \"0.3.0\" # keep me\n\
                    edition = \"2021\"\n\
                    \n\
                    # a section comment\n\
                    [dependencies]\n\
                    anyhow = \"1\"\n";
    let toml = bump_manifest(
        "Cargo.toml",
        contents,
        &[(root("root", "0.3.0"), Version::new(0, 4, 0))],
    )
    .unwrap()
    .unwrap();
    assert!(toml.contains("version = \"0.4.0\" # keep me"), "{toml}");
    assert!(toml.contains("# a section comment"), "{toml}");
    assert!(toml.contains("anyhow = \"1\""), "{toml}");
}

#[test]
fn a_workspace_inherited_version_is_refused_with_a_clear_error() {
    let contents = "[workspace]\n\
                    members = []\n\
                    resolver = \"2\"\n\
                    \n\
                    [workspace.package]\n\
                    version = \"0.3.0\"\n\
                    \n\
                    [package]\n\
                    name = \"member\"\n\
                    version.workspace = true\n\
                    edition = \"2021\"\n";
    let err = CargoEcosystem
        .set_versions(
            vec![file("Cargo.toml", contents)],
            &[(root("member", "0.3.0"), Version::new(0, 4, 0))],
        )
        .unwrap_err();
    assert!(err.message().contains("[workspace.package]"), "got: {}", err.message());
    assert_eq!(err, NotchError::InheritedVersion("Cargo.toml".to_string()));
}

const DEPENDENT: &str = "[package]\n\
                         name = \"crate-b\"\n\
                         version = \"1.0.0\"\n\
                         edition = \"2021\"\n\
                         \n\
                         [dependencies]\n\
                         crate-a = { version = \"0.3\", path = \"../crate-a\" }\n";

#[test]
fn a_sibling_depending_on_a_bumped_package_has_its_requirement_widened() {
    let staged = CargoEcosystem
        .set_versions(
            vec![
                file("Cargo.toml", &workspace("\"crate-a\", \"crate-b\"")),
                file("crate-a/Cargo.toml", &manifest("crate-a", "0.3.0")),
                file("crate-b/Cargo.toml", DEPENDENT),
            ],
            &[(package("crate-a", "0.3.0"), Version::new(0, 4, 0))],
        )
        .unwrap();
    assert!(updated(&staged, "crate-a/Cargo.toml").contains("version = \"0.4.0\""));
    let b = updated(&staged, "crate-b/Cargo.toml");
    assert!(b.contains("crate-a = { version = \"0.4\", path = \"../crate-a\" }"), "{b}");
    assert!(b.contains("version = \"1.0.0\""), "{b}");
    assert!(
        touched(&staged).contains(&"crate-b/Cargo.toml"),
        "the dependent was rewritten but not reported: {staged:?}"
    );
}

#[test]
fn a_requirement_that_already_admits_the_new_version_is_left_alone() {
    let staged = CargoEcosystem
        .set_versions(
            vec![
                file("Cargo.toml", &workspace("\"crate-a\", \"crate-b\"")),
                file("crate-a/Cargo.toml", &manifest("crate-a", "0.3.0")),
                file("crate-b/Cargo.toml", DEPENDENT),
            ],
            &[(package("crate-a", "0.3.0"), Version::new(0, 3, 1))],
        )
        .unwrap();
    let b = written(&staged, "crate-b/Cargo.toml", DEPENDENT);
    assert!(b.contains("version = \"0.3\""), "{b}");
    assert_eq!(touched(&staged), vec!["crate-a/Cargo.toml"]);
}

#[test]
fn bump_requirement_keeps_the_operator_and_component_count() {
    let new = Version::parse("2.0.0").unwrap();

    assert_eq!(bump_requirement("1", &new).as_deref(), Some("2"));
    assert_eq!(bump_requirement("1.5", &new).as_deref(), Some("2.0"));
    assert_eq!(bump_requirement("1.5.2", &new).as_deref(), Some("2.0.0"));
    assert_eq!(bump_requirement("^1.5.2", &new).as_deref(), Some("^2.0.0"));
    assert_eq!(bump_requirement("~1.5.2", &new).as_deref(), Some("~2.0.0"));
    assert_eq!(bump_requirement("=1.5.2", &new).as_deref(), Some("=2.0.0"));
}

#[test]
fn bump_requirement_leaves_alone_what_it_cannot_rewrite_safely() {
    let new = Version::parse("2.0.0").unwrap();

    // already satisfied
    assert_eq!(
        bump_requirement("^1.5", &Version::parse("1.6.0").unwrap()),
        None
    );
    // no single obvious rewrite
    assert_eq!(bump_requirement(">=1, <2", &new), None);
    assert_eq!(bump_requirement(">1.0", &new), None);
    assert_eq!(bump_requirement("*", &new), None);
    // not a requirement at all
    assert_eq!(bump_requirement("not-a-req", &new), None);
}

// A truncated requirement can't express a prerelease, so those are always spelled out in full.
#[test]
fn a_prerelease_is_always_written_out_in_full() {
    let new = Version::parse("2.0.0-rc.1").unwrap();

    assert_eq!(bump_requirement("1.5", &new).as_deref(), Some("2.0.0-rc.1"));
}

#[test]
fn a_path_only_dependency_has_no_requirement_to_widen() {
    let contents = "[package]\n\
                    name = \"crate-b\"\n\
                    version = \"1.0.0\"\n\
                    edition = \"2021\"\n\
                    \n\
                    [dependencies]\n\
                    crate-a = { path = \"../crate-a\" }\n";
    let staged = CargoEcosystem
        .set_versions(
            vec![
                file("Cargo.toml", &workspace("\"crate-a\", \"crate-b\"")),
                file("crate-a/Cargo.toml", &manifest("crate-a", "0.3.0")),
                file("crate-b/Cargo.toml", contents),
            ],
            &[(package("crate-a", "0.3.0"), Version::new(0, 4, 0))],
        )
        .unwrap();
    let b = written(&staged, "crate-b/Cargo.toml", contents);
    assert!(b.contains("crate-a = { path = \"../crate-a\" }"), "{b}");
    assert_eq!(touched(&staged), vec!["crate-a/Cargo.toml"]);
}

#[test]
fn every_dependency_table_is_searched() {
    let contents = "[workspace.dependencies]\n\
                    crate-a = \"0.3.0\"\n\
                    \n\
                    [dependencies]\n\
                    crate-a = \"0.3\"\n\
                    \n\
                    [dev-dependencies]\n\
                    crate-a = { version = \"^0.3\" }\n\
                    \n\
                    [build-dependencies.crate-a]\n\
                    version = \"=0.3.0\"\n\
                    \n\
                    [target.'cfg(unix)'.dependencies]\n\
                    crate-a = \"~0.3\"\n";
    let toml = bump_manifest(
        "Cargo.toml",
        contents,
        &[(package("crate-a", "0.3.0"), Version::new(0, 4, 0))],
    )
    .unwrap()
    .unwrap();
    assert_eq!(
        toml,
        contents.replace("0.3.0", "0.4.0").replace("\"0.3\"", "\"0.4\"").replace("^0.3", "^0.4").replace(
            "~0.3", "~0.4"
        )
    );
}

#[test]
fn a_dependency_under_another_name_is_found_by_its_package() {
    let contents = "[dependencies]\n\
                    alias = { package = \"crate-a\", version = \"0.3\" }\n\
                    crate-a = { package = \"other\", version = \"0.3\" }\n";
    let toml = bump_manifest(
        "Cargo.toml",
        contents,
        &[(package("crate-a", "0.3.0"), Version::new(0, 4, 0))],
    )
    .unwrap()
    .unwrap();
    assert_eq!(
        toml,
        "[dependencies]\n\
         alias = { package = \"crate-a\", version = \"0.4\" }\n\
         crate-a = { package = \"other\", version = \"0.3\" }\n"
    );
}

#[test]
fn each_unusable_manifest_has_its_own_error() {
    let bump = |contents: &str| {
        bump_manifest("Cargo.toml", contents, &[(root("r", "0.3.0"), Version::new(0, 4, 0))])
            .unwrap_err()
    };
    let path = || "Cargo.toml".to_string();
    assert_eq!(bump("= ="), NotchError::InvalidManifest(path()));
    assert_eq!(bump("[workspace]\n"), NotchError::NoPackageTable(path()));
    assert_eq!(bump("package = 1\n"), NotchError::NoPackageTable(path()));
    assert_eq!(bump("[package]\nname = \"r\"\n"), NotchError::NoPackageVersion(path()));
    assert_eq!(
        bump("[package.version]\nother = true\n"),
        NotchError::VersionNotValue(path())
    );
    assert_eq!(bump("[package]\nversion = 1\n"), NotchError::VersionNotString(path()));
    assert_eq!(
        bump("[package]\nversion = \"0.2.0\"\n"),
        NotchError::OutOfSync {
            manifest: path(),
            expected: "0.3.0".to_string(),
            found: "0.2.0".to_string(),
        }
    );
}

#[test]
fn a_manifest_without_anything_to_bump_is_not_rewritten() {
    assert_eq!(
        bump_manifest(
            "b/Cargo.toml",
            &manifest("b", "1.0.0"),
            &[(package("a", "1.0.0"), Version::new(2, 0, 0))]
        ),
        Ok(None)
    );
}

#[test]
fn a_requirement_that_does_not_admit_the_version_is_rewritten() {
    let new = Version::new(2, 1, 3);
    assert_eq!(rewrite_requirement("1.0", Some(false), &new).as_deref(), Some("2.1"));
    assert_eq!(rewrite_requirement("1.0", Some(true), &new), None);
    assert_eq!(rewrite_requirement("1.0", None, &new), None);
    assert_eq!(rewrite_requirement("^ 1.0.0", Some(false), &new).as_deref(), Some("^2.1.3"));
}

#[test]
fn failed_writes_are_rolled_back() {
    let staged = vec![
        StagedManifest { file: file("a", "old a"), updated: "new a".to_string() },
        StagedManifest { file: file("b", "old b"), updated: "new b".to_string() },
    ];
    assert!(matches!(next_write(&staged, 0, false), WriteStep::Write(0)));
    assert!(matches!(next_write(&staged, 1, false), WriteStep::Write(1)));
    match next_write(&staged, 2, false) {
        WriteStep::Finished(touched) => assert_eq!(touched, vec!["a", "b"]),
        step => panic!("{step:?}"),
    }
    match next_write(&staged, 1, true) {
        WriteStep::RollBack { restore, failed } => {
            let old = |path: &str, contents: &str| (path.to_string(), contents.to_string());
            assert_eq!(restore, vec![old("a", "old a"), old("b", "old b")]);
            assert_eq!(failed, "b");
        }
        step => panic!("{step:?}"),
    }
    match next_write(&staged, 0, true) {
        WriteStep::RollBack { restore, failed } => {
            assert_eq!(restore, vec![("a".to_string(), "old a".to_string())]);
            assert_eq!(failed, "a");
        }
        step => panic!("{step:?}"),
    }
}

#[test]
fn a_package_without_its_manifest_cannot_be_bumped() {
    let bump = |files: Vec<ManifestFile>| {
        CargoEcosystem.set_versions(
            files,
            &[
                (package("crate-a", "0.3.0"), Version::new(0, 4, 0)),
                (package("gone", "1.0.0"), Version::new(1, 0, 1)),
            ],
        )
    };
    let crate_a = || file("crate-a/Cargo.toml", &manifest("crate-a", "0.3.0"));
    assert_eq!(
        bump(vec![file("Cargo.toml", &workspace("\"crate-a\"")), crate_a()]).unwrap_err(),
        NotchError::MissingManifest("gone/Cargo.toml".to_string())
    );
    // which manifests are there is looked at before what they say
    assert_eq!(
        bump(vec![file("crate-a/Cargo.toml", "= =")]).unwrap_err(),
        NotchError::MissingManifest("gone/Cargo.toml".to_string())
    );
    let staged = bump(vec![crate_a(), file("gone//Cargo.toml", &manifest("gone", "1.0.0"))]);
    assert_eq!(touched(&staged.unwrap()), vec!["crate-a/Cargo.toml", "gone//Cargo.toml"]);
}

#[test]
fn a_bump_changes_nothing_but_the_strings() {
    let contents = |version: &str, requirement: &str| {
        format!(
            "# at the top\n\
             lints.rust.unsafe_code = 'forbid'\n\
             \n\
             [dependencies] # tables\n\
             z = {{ optional = true , version={requirement} }} # z\n\
             anyhow = \"1\"\n\
             \n\
             [[bin]]\n\
             name = \"tool\"\n\
             sizes = [ 1, 2,\n  0x10, 1e3 ]\n\
             \n\
             [package]\n\
             \tversion   =   {version}   # keep me\n\
             name = \"root\"\n\
             # at the end\n"
        )
    };
    let updated = bump_manifest(
        "Cargo.toml",
        &contents("'0.3.0'", "\"1.0\""),
        &[
            (root("root", "0.3.0"), Version::new(0, 4, 0)),
            (package("z", "1.0.0"), Version::new(2, 1, 0)),
        ],
    );
    assert_eq!(updated, Ok(Some(contents("\"0.4.0\"", "\"2.1\""))));
}

#[test]
fn a_rewritten_requirement_admits_the_version_and_stays() {
    let versions = ["2.0.0", "2.3.4", "0.0.0", "2.0.0-rc.1", "2.0.0+build"];
    let requirements = ["1", "1.5", "1.5.2", "^1", "~1.5", "=1.5.2", "= 1.5.2", " ^1.5.2 ", "1.0.0-a"];
    for version in versions {
        let new = Version::parse(version).unwrap();
        for existing in requirements {
            assert_eq!(new.admitted_by(existing), Some(false));
            let rewritten = bump_requirement(existing, &new).unwrap();
            assert_eq!(new.admitted_by(&rewritten), Some(true), "{existing} to {rewritten}");
            assert_eq!(bump_requirement(&rewritten, &new), None);
        }
        // two operators in a row make no requirement
        for existing in ["^^1", "^=1", "~~1.5", "==1.5.2", "=>1", "^<1", " =^1"] {
            assert_eq!(new.admitted_by(existing), None);
            assert_eq!(bump_requirement(existing, &new), None);
        }
    }
}

#[test]
fn the_workspace_has_one_lockfile() {
    assert_eq!(CargoEcosystem.refresh_lock_touches(), vec!["Cargo.lock"]);
    assert_eq!(CargoEcosystem.refresh_lock_command(), vec!["cargo", "generate-lockfile"]);
}
