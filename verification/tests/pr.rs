//! The pull request's title and body, and whether it is opened or updated.
use cargo_notch::commits::CommitInfo;
use cargo_notch::config::{BumpsConfig, ReleaseConfig};
use cargo_notch::error::NotchError;
use cargo_notch::package::Package;
use cargo_notch::pr::{
    get_pr_title_and_description, head_filter, highest_severity_commit, pr_action, PrAction,
};
use cargo_notch::release::UpdatedCrate;
use cargo_notch::version::Version;

fn updated_crate(name: &str, from: (u64, u64, u64), to: Version) -> UpdatedCrate {
    UpdatedCrate {
        package: Package::new(
            name.to_string(),
            name.to_string(),
            Version::new(from.0, from.1, from.2),
            format!("{name}/Cargo.toml"),
        ),
        new_version: to,
        commits: vec![],
    }
}

fn commit(summary: &str, breaking: bool) -> CommitInfo {
    CommitInfo {
        summary: summary.to_string(),
        sha1: "abcdef1234567890".to_string(),
        breaking,
    }
}

#[test]
fn errors_when_no_updated_crates() {
    let result = get_pr_title_and_description(&[], &BumpsConfig::default());
    assert!(result.is_err());
}

// No attributed commits to draw a title from (e.g. a crate bumped only as a dependent of
// another changed crate) falls back to the generic bump line.
#[test]
fn single_crate_with_no_commits_falls_back_to_the_bump_line() {
    let updated = vec![updated_crate("foo", (1, 0, 0), Version::new(1, 1, 0))];
    let (title, body) =
        get_pr_title_and_description(&updated, &BumpsConfig::default()).unwrap();

    assert_eq!(title, "chore: bumping foo from 1.0.0 to 1.1.0");
    assert!(body.contains("chore: bumping foo from 1.0.0 to 1.1.0"));
}

#[test]
fn repeated_bumps_of_one_crate_with_no_commits_get_a_cumulative_fallback_title() {
    let updated = vec![
        updated_crate("foo", (1, 0, 0), Version::new(1, 1, 0)),
        updated_crate("foo", (1, 1, 0), Version::new(1, 2, 0)),
    ];
    let (title, _body) =
        get_pr_title_and_description(&updated, &BumpsConfig::default()).unwrap();

    assert_eq!(title, "chore: bumping foo from 1.0.0 to 1.2.0");
}

#[test]
fn multiple_crates_with_no_commits_get_a_generic_fallback_title() {
    let updated = vec![
        updated_crate("foo", (1, 0, 0), Version::new(1, 1, 0)),
        updated_crate("bar", (0, 4, 0), Version::new(0, 5, 0)),
    ];
    let (title, _body) =
        get_pr_title_and_description(&updated, &BumpsConfig::default()).unwrap();

    assert_eq!(title, "chore: bumping package versions");
}

#[test]
fn body_lists_each_crates_commits_by_short_id() {
    let mut updated = updated_crate("foo", (1, 0, 0), Version::new(1, 1, 0));
    updated.commits = vec![
        CommitInfo {
            summary: "feat: add a thing".to_string(),
            sha1: "1234567890abcdef".to_string(),
            breaking: false,
        },
        CommitInfo {
            summary: "fix: fix a thing".to_string(),
            sha1: "abcdef1234567890".to_string(),
            breaking: false,
        },
    ];
    let (_title, body) =
        get_pr_title_and_description(&[updated], &BumpsConfig::default()).unwrap();

    assert!(body.contains("- 1234567 feat: add a thing"));
    assert!(body.contains("- abcdef1 fix: fix a thing"));
}

// The whole point: a squash-merge uses the PR title as the resulting commit's subject, so
// the title needs to carry the actual feature intent rather than a generic bump line.
#[test]
fn title_is_the_highest_severity_commits_summary() {
    let mut updated = updated_crate("foo", (1, 0, 0), Version::new(1, 1, 0));
    updated.commits = vec![
        commit("fix: fix a thing", false),
        commit("feat: add a thing", false),
    ];
    let (title, _body) =
        get_pr_title_and_description(&[updated], &BumpsConfig::default()).unwrap();

    assert_eq!(title, "feat: add a thing");
}

// A breaking change always outranks a plain `feat`, regardless of attribution order.
#[test]
fn a_breaking_commit_outranks_a_feature_commit() {
    let mut updated = updated_crate("foo", (1, 0, 0), Version::new(2, 0, 0));
    updated.commits = vec![
        commit("feat: add a thing", false),
        commit("feat!: rework the api", true),
    ];
    let (title, _body) =
        get_pr_title_and_description(&[updated], &BumpsConfig::default()).unwrap();

    assert_eq!(title, "feat!: rework the api");
}

// Two commits of equal severity: the first one encountered wins, not the last.
#[test]
fn ties_are_broken_by_attribution_order() {
    let mut updated = updated_crate("foo", (1, 0, 0), Version::new(1, 2, 0));
    updated.commits = vec![
        commit("feat: add the first thing", false),
        commit("feat: add a second thing", false),
    ];
    let (title, _body) =
        get_pr_title_and_description(&[updated], &BumpsConfig::default()).unwrap();

    assert_eq!(title, "feat: add the first thing");
}

// The highest-severity commit can come from a different crate than the first one listed.
#[test]
fn highest_severity_commit_is_found_across_every_updated_crate() {
    let mut foo = updated_crate("foo", (1, 0, 0), Version::new(1, 0, 1));
    foo.commits = vec![commit("fix: fix a thing in foo", false)];
    let mut bar = updated_crate("bar", (0, 4, 0), Version::new(0, 5, 0));
    bar.commits = vec![commit("feat: add a thing in bar", false)];

    let (title, _body) =
        get_pr_title_and_description(&[foo, bar], &BumpsConfig::default()).unwrap();

    assert_eq!(title, "feat: add a thing in bar");
}

#[test]
fn the_body_has_a_section_for_every_update() {
    let mut foo = updated_crate("foo", (1, 0, 0), Version::new(1, 0, 1));
    foo.commits = vec![commit("fix: a", false), commit("fix: b", false)];
    let bar = updated_crate("bar", (0, 4, 0), Version::new(0, 5, 0));
    let (_title, body) =
        get_pr_title_and_description(&[foo, bar], &BumpsConfig::default()).unwrap();
    assert_eq!(
        body,
        "chore: bumping foo from 1.0.0 to 1.0.1\n- abcdef1 fix: a\n- abcdef1 fix: b\n\n\
         chore: bumping bar from 0.4.0 to 0.5.0\n\n"
    );
}

#[test]
fn there_is_no_pull_request_without_updates() {
    assert_eq!(
        get_pr_title_and_description(&[], &BumpsConfig::default()),
        Err(NotchError::NothingUpdated)
    );
}

#[test]
fn without_commits_none_is_the_heaviest() {
    let updated = vec![updated_crate("foo", (1, 0, 0), Version::new(1, 1, 0))];
    assert!(highest_severity_commit(&updated, &BumpsConfig::default()).is_none());
}

#[test]
fn an_open_pull_request_is_updated() {
    let release = ReleaseConfig::default();
    assert_eq!(pr_action(Some(7), "feature", &release), PrAction::Update { number: 7 });
    assert_eq!(
        pr_action(None, "feature", &release),
        PrAction::Create { branch: "feature".to_string(), base: "master".to_string() }
    );
    assert_eq!(head_filter("me", "feature"), "me:feature");
}
