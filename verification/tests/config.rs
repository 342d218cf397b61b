//! Defaults, ranges, tags, and where the repository is hosted.
use cargo_notch::config::{
    parse_github_owner_repo, resolve_owner_repo, Config, ReleaseConfig, RepoConfig, V0Style,
};
use cargo_notch::error::NotchError;

#[test]
fn shipped_notch_toml_parses_to_defaults() {
    let config = Config::default();
    assert_eq!(config.repo.owner, None);
    assert_eq!(config.repo.name, None);
    assert_eq!(config.release.default_branch, "master");
    assert_eq!(config.release.remote, "origin");
    assert_eq!(config.release.tag_format, "{name}-v{version}");
    assert_eq!(config.bumps.v0, V0Style::Cargo);
    assert_eq!(config.bumps.major, Vec::<String>::new());
    assert_eq!(config.bumps.minor, vec!["feat".to_string()]);
    assert_eq!(
        config.bumps.patch,
        ["fix", "chore", "refactor", "docs"]
            .iter()
            .map(std::string::ToString::to_string)
            .collect::<Vec<_>>()
    );
    assert_eq!(config.bumps.skip, Vec::<String>::new());
}

#[test]
fn parses_ssh_url() {
    assert_eq!(
        parse_github_owner_repo("git@github.com:jdeinum/notch.git"),
        Some(("jdeinum".to_string(), "notch".to_string()))
    );
}

#[test]
fn parses_https_url() {
    assert_eq!(
        parse_github_owner_repo("https://github.com/jdeinum/notch"),
        Some(("jdeinum".to_string(), "notch".to_string()))
    );
}

#[test]
fn rejects_unknown_host() {
    assert_eq!(
        parse_github_owner_repo("https://gitlab.com/jdeinum/notch"),
        None
    );
}

#[test]
fn other_forms_of_urls_are_understood() {
    let expected = Some(("o".to_string(), "r".to_string()));
    assert_eq!(parse_github_owner_repo("ssh://git@github.com/o/r.git"), expected);
    assert_eq!(parse_github_owner_repo("http://github.com/o/r"), expected);
    assert_eq!(parse_github_owner_repo("https://github.com/o"), None);
    assert_eq!(parse_github_owner_repo("https://github.com//r"), None);
    assert_eq!(parse_github_owner_repo("https://github.com/o/"), None);
}

#[test]
fn configured_owner_and_name_come_first() {
    let config = RepoConfig {
        owner: Some("mine".to_string()),
        ..RepoConfig::default()
    };
    assert_eq!(
        resolve_owner_repo(Some("git@github.com:o/r.git"), &config),
        Ok(("mine".to_string(), "r".to_string()))
    );
    let config = RepoConfig {
        owner: Some("mine".to_string()),
        name: Some("too".to_string()),
        ..RepoConfig::default()
    };
    assert_eq!(
        resolve_owner_repo(None, &config),
        Ok(("mine".to_string(), "too".to_string()))
    );
}

#[test]
fn the_host_must_be_known_where_something_is_not_configured() {
    let config = RepoConfig::default();
    assert_eq!(resolve_owner_repo(None, &config), Err(NotchError::NoOriginUrl));
    assert_eq!(
        resolve_owner_repo(Some("https://gitlab.com/o/r"), &config),
        Err(NotchError::UnknownRemote("https://gitlab.com/o/r".to_string()))
    );
}

#[test]
fn tags_and_ranges_follow_the_configuration() {
    let release = ReleaseConfig::default();
    assert_eq!(release.format_tag("user_service", "1.2.3"), "user_service-v1.2.3");
    assert_eq!(release.commit_range(), "origin/master..HEAD");
    let release = ReleaseConfig {
        default_branch: "main".to_string(),
        remote: "up".to_string(),
        tag_format: "{version}/{name}/{version}".to_string(),
    };
    assert_eq!(release.format_tag("a", "1.0.0"), "1.0.0/a/1.0.0");
    assert_eq!(release.commit_range(), "up/main..HEAD");
}

#[test]
fn the_changelog_is_left_out_by_default() {
    let config = Config::default();
    assert_eq!(config.tracking.exclude, vec!["CHANGELOG.md".to_string()]);
    assert!(config.tracking.included.is_empty());
    assert!(config.tracking.packages.is_empty());
    assert!(!config.repo.has_token);
}
