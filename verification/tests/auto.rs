//! Bumps from conventional commits.
use cargo_notch::auto::{
    adjust_for_v0, best_match, bump_for_commit, parse_conventional, pattern_specificity, select,
};
use cargo_notch::bump::Bump;
use cargo_notch::commits::CommitInfo;
use cargo_notch::config::{BumpsConfig, V0Style};
use cargo_notch::fsm::NotchFsm;
use cargo_notch::package::Package;
use cargo_notch::version::Version;

fn commit(summary: &str) -> CommitInfo {
    CommitInfo {
        summary: summary.to_string(),
        sha1: "0123456789abcdef".to_string(),
        breaking: false,
    }
}

fn package(version: &str) -> Package {
    Package::new(
        "a".to_string(),
        "a".to_string(),
        Version::parse(version).unwrap(),
        "a/Cargo.toml".to_string(),
    )
}

fn fsm_with(commits: &[CommitInfo], config: &BumpsConfig) -> NotchFsm {
    let mut fsm = NotchFsm::new(config.clone());
    fsm.handle_commits(commits);
    fsm
}

#[test]
fn parses_plain_scoped_and_breaking_headers() {
    assert_eq!(
        parse_conventional("feat: add x"),
        Some(("feat", None, false))
    );
    assert_eq!(
        parse_conventional("fix(core): y"),
        Some(("fix", Some("core"), false))
    );
    assert_eq!(
        parse_conventional("feat!: drop z"),
        Some(("feat", None, true))
    );
    assert_eq!(
        parse_conventional("feat(api)!: drop z"),
        Some(("feat", Some("api"), true))
    );
}

#[test]
fn non_conventional_summaries_do_not_parse() {
    assert_eq!(parse_conventional("update readme"), None);
    assert_eq!(parse_conventional("!: broken"), None);
    assert_eq!(parse_conventional("a b: spaced type"), None);
    assert_eq!(parse_conventional("feat(unclosed: x"), None);
}

#[test]
fn default_config_maps_types_to_expected_bumps() {
    let config = BumpsConfig::default();
    assert_eq!(
        bump_for_commit(&commit("feat: x"), &config),
        Some(Bump::Minor)
    );
    assert_eq!(
        bump_for_commit(&commit("fix: x"), &config),
        Some(Bump::Patch)
    );
    assert_eq!(
        bump_for_commit(&commit("chore: x"), &config),
        Some(Bump::Patch)
    );
    assert_eq!(
        bump_for_commit(&commit("feat!: x"), &config),
        Some(Bump::Major)
    );
    assert_eq!(
        bump_for_commit(&commit("not conventional"), &config),
        Some(Bump::Patch)
    );
}

#[test]
fn breaking_change_footer_maps_to_major() {
    let config = BumpsConfig::default();
    let mut c = commit("fix: subtle behavior change");
    c.breaking = true;
    assert_eq!(bump_for_commit(&c, &config), Some(Bump::Major));
}

#[test]
fn configured_lists_override_the_defaults() {
    let config = BumpsConfig {
        major: vec!["feat".to_string()],
        minor: vec!["fix".to_string()],
        ..BumpsConfig::default()
    };
    assert_eq!(
        bump_for_commit(&commit("feat: x"), &config),
        Some(Bump::Major)
    );
    assert_eq!(
        bump_for_commit(&commit("fix: x"), &config),
        Some(Bump::Minor)
    );
}

#[test]
fn scoped_pattern_beats_bare_type() {
    // chore -> patch, but chore(release) -> skipped
    let config = BumpsConfig {
        patch: vec!["chore".to_string()],
        skip: vec!["chore(release)".to_string()],
        ..BumpsConfig::default()
    };
    assert_eq!(
        bump_for_commit(&commit("chore: tidy"), &config),
        Some(Bump::Patch)
    );
    assert_eq!(
        bump_for_commit(&commit("chore(release): 1.2.3"), &config),
        None
    );
    // other scopes still fall through to the bare-type match
    assert_eq!(
        bump_for_commit(&commit("chore(deps): bump serde"), &config),
        Some(Bump::Patch)
    );
}

#[test]
fn scoped_pattern_can_also_raise_the_bump() {
    let config = BumpsConfig {
        minor: vec!["chore(api)".to_string()],
        skip: vec!["chore".to_string()],
        patch: vec![],
        ..BumpsConfig::default()
    };
    assert_eq!(bump_for_commit(&commit("chore: tidy"), &config), None);
    assert_eq!(
        bump_for_commit(&commit("chore(api): expose thing"), &config),
        Some(Bump::Minor)
    );
}

#[test]
fn breaking_marker_wins_over_skip() {
    let config = BumpsConfig {
        skip: vec!["chore(release)".to_string()],
        ..BumpsConfig::default()
    };
    assert_eq!(
        bump_for_commit(&commit("chore(release)!: drop old artifacts"), &config),
        Some(Bump::Major)
    );
}

#[test]
fn cargo_style_caps_bumps_below_one_zero() {
    assert_eq!(adjust_for_v0(Bump::Major, 0, V0Style::Cargo), Bump::Minor);
    assert_eq!(adjust_for_v0(Bump::Minor, 0, V0Style::Cargo), Bump::Patch);
    assert_eq!(adjust_for_v0(Bump::Patch, 0, V0Style::Cargo), Bump::Patch);
}

#[test]
fn semver_style_and_post_one_zero_apply_bumps_as_is() {
    assert_eq!(adjust_for_v0(Bump::Major, 0, V0Style::Semver), Bump::Major);
    assert_eq!(adjust_for_v0(Bump::Minor, 0, V0Style::Semver), Bump::Minor);
    assert_eq!(adjust_for_v0(Bump::Major, 1, V0Style::Cargo), Bump::Major);
}

#[test]
fn select_takes_the_max_bump_across_commits() {
    let config = BumpsConfig::default();
    let pkg = package("1.2.3");
    let commits = [commit("fix: a"), commit("feat: b"), commit("chore: c")];
    let changed = vec![(pkg, fsm_with(&commits, &config))];
    let updated = select(changed, &config);
    assert_eq!(updated.len(), 1);
    assert_eq!(updated[0].new_version, Version::parse("1.3.0").unwrap());
}

#[test]
fn select_applies_the_v0_policy() {
    let config = BumpsConfig::default();
    let pkg = package("0.1.0");
    let changed =
        vec![(pkg.clone(), fsm_with(&[commit("feat!: breaking")], &config))];
    let updated = select(changed, &config);
    assert_eq!(updated[0].new_version, Version::parse("0.2.0").unwrap());

    let changed = vec![(pkg, fsm_with(&[commit("feat: minor")], &config))];
    let updated = select(changed, &config);
    assert_eq!(updated[0].new_version, Version::parse("0.1.1").unwrap());
}

#[test]
fn select_drops_packages_whose_every_commit_is_skipped() {
    let config = BumpsConfig {
        skip: vec!["chore(release)".to_string()],
        ..BumpsConfig::default()
    };
    let pkg = package("0.1.0");
    let changed = vec![(
        pkg.clone(),
        fsm_with(&[commit("chore(release): 0.1.0")], &config),
    )];
    assert!(select(changed, &config).is_empty());

    // a non-skipped commit alongside the skipped one keeps the package in
    let changed = vec![(
        pkg,
        fsm_with(
            &[commit("chore(release): 0.1.0"), commit("fix: a")],
            &config,
        ),
    )];
    let updated = select(changed, &config);
    assert_eq!(updated.len(), 1);
    assert_eq!(updated[0].new_version, Version::parse("0.1.1").unwrap());
}

#[test]
fn packages_with_no_commits_are_dropped() {
    // the changed-package detection ran, but nothing was attributed — the state machine has
    // no suggestion, so there's nothing to bump automatically.
    let config = BumpsConfig::default();
    let pkg = package("0.1.0");
    let changed = vec![(pkg, fsm_with(&[], &config))];
    assert!(select(changed, &config).is_empty());
}

#[test]
fn scoped_patterns_are_more_specific_than_bare_ones() {
    assert_eq!(pattern_specificity("chore", "chore", Some("x")), Some(1));
    assert_eq!(pattern_specificity("chore(x)", "chore", Some("x")), Some(2));
    assert_eq!(pattern_specificity("chore(x)", "chore", Some("y")), None);
    assert_eq!(pattern_specificity("chore(x)", "chore", None), None);
    assert_eq!(pattern_specificity("fix", "chore", None), None);
}

#[test]
fn the_bigger_bump_wins_where_two_lists_hold_a_type() {
    let config = BumpsConfig {
        major: vec!["x".to_string()],
        minor: vec!["x".to_string()],
        patch: vec!["x".to_string()],
        skip: vec!["x".to_string()],
        ..BumpsConfig::default()
    };
    assert_eq!(best_match("x", None, &config), Some(Some(Bump::Major)));
    assert_eq!(best_match("y", None, &config), None);
}

#[test]
fn selected_packages_come_sorted_by_name() {
    let config = BumpsConfig::default();
    let named = |name: &str| {
        Package::new(
            name.to_string(),
            name.to_string(),
            Version::new(1, 0, 0),
            format!("{name}/Cargo.toml"),
        )
    };
    let updated = select(
        vec![
            (named("b"), fsm_with(&[commit("fix: b")], &config)),
            (named("a"), fsm_with(&[commit("feat!: a")], &config)),
        ],
        &config,
    );
    assert_eq!(updated.len(), 2);
    assert_eq!(updated[0].package.name, "a");
    assert_eq!(updated[0].new_version, Version::new(2, 0, 0));
    assert_eq!(updated[0].commits, vec![commit("feat!: a")]);
    assert_eq!(updated[1].package.name, "b");
    assert_eq!(updated[1].new_version, Version::new(1, 0, 1));
}
