//! Planning a release, describing it, and writing it out.
use cargo_notch::apply::{bumps_of, touched_files, ApplyStep};
use cargo_notch::bump::Bump;
use cargo_notch::command::{command_outcome, generate_lockfile, run_command};
use cargo_notch::commits::CommitInfo;
use cargo_notch::config::{BumpsConfig, Config};
use cargo_notch::error::NotchError;
use cargo_notch::init::{NotchAction, WORKFLOW};
use cargo_notch::package::Package;
use cargo_notch::release::{
    can_plan, changelog_command, describe, ensure_all_writable, ensure_writable, is_file_dirty,
    plan, run, run_with_pr, FileStatus, PlanStep, ReleasePlan, RunStep, UpdatedCrate,
};
use cargo_notch::remote::{push_refspec, remote_credentials, upstream_to_set, Credential};
use cargo_notch::version::Version;

fn package(path: &str) -> Package {
    Package::new(
        path.to_string(),
        path.to_string(),
        Version::new(1, 0, 0),
        format!("{path}/Cargo.toml"),
    )
}

fn commit(summary: &str) -> CommitInfo {
    CommitInfo::new(summary.to_string(), "0123456789".to_string(), false)
}

fn release_plan() -> ReleasePlan {
    ReleasePlan {
        updates: vec![UpdatedCrate {
            package: package("a"),
            new_version: Version::new(1, 1, 0),
            commits: vec![commit("feat: x")],
        }],
        changelog_range: "origin/master..HEAD".to_string(),
    }
}

const DESCRIBED: &str = "dry run — nothing written, nothing committed\n\n  a 1.0.0 -> 1.1.0\n    \
                         0123456 feat: x\n    would write a/Cargo.toml and a/CHANGELOG.md\n\n";

fn clean() -> FileStatus {
    FileStatus {
        index_new: false,
        index_modified: false,
        index_deleted: false,
        index_renamed: false,
        index_typechange: false,
        worktree_new: false,
        worktree_modified: false,
        worktree_deleted: false,
        worktree_renamed: false,
        worktree_typechange: false,
    }
}

#[test]
fn nothing_changed_means_nothing_to_release() {
    let bumps = BumpsConfig::default();
    assert!(matches!(plan(Vec::new(), &bumps, true), PlanStep::Nothing));
    assert!(matches!(plan(Vec::new(), &bumps, false), PlanStep::Nothing));
}

#[test]
fn auto_mode_takes_the_suggested_bumps() {
    let bumps = BumpsConfig::default();
    match plan(vec![(package("a"), vec![commit("feat: x")])], &bumps, true) {
        PlanStep::Release(updates) => {
            assert_eq!(updates.len(), 1);
            assert_eq!(updates[0].new_version, Version::new(1, 1, 0));
        }
        _ => panic!("no release"),
    }
    let skip = BumpsConfig { skip: vec!["wip".to_string()], ..BumpsConfig::default() };
    assert!(matches!(
        plan(vec![(package("a"), vec![commit("wip: x")])], &skip, true),
        PlanStep::Nothing
    ));
}

#[test]
fn a_plan_needs_room_for_the_numbers_that_grow() {
    let bumps = BumpsConfig::default();
    let changed = |summary: &str| {
        let full = Version::new(1, u64::MAX, 0);
        let full = Package::new("a".to_string(), "a".to_string(), full, "a/Cargo.toml".to_string());
        vec![(package("b"), vec![commit("feat: x")]), (full, vec![commit(summary)])]
    };
    assert!(can_plan(&changed("fix: x"), &bumps, true));
    assert!(can_plan(&changed("feat!: x"), &bumps, true));
    assert!(!can_plan(&changed("feat: x"), &bumps, true));
    assert!(!can_plan(&changed("fix: x"), &bumps, false));
    assert!(can_plan(&vec![(package("b"), vec![commit("feat: x")])], &bumps, false));
    let skip = BumpsConfig { skip: vec!["wip".to_string()], ..BumpsConfig::default() };
    assert!(can_plan(&changed("wip: x"), &skip, true));
}

#[test]
fn otherwise_the_suggested_bumps_are_shown_first() {
    let bumps = BumpsConfig::default();
    let changed = vec![
        (package("b"), vec![commit("fix: x")]),
        (package("a"), vec![commit("feat!: x")]),
    ];
    match plan(changed, &bumps, false) {
        PlanStep::Ask(app) => {
            assert_eq!(app.packages[0].package().name, "a");
            assert_eq!(app.packages[0].selected, Some(Bump::Major));
            assert_eq!(app.packages[1].selected, Some(Bump::Patch));
            assert_eq!(app.focused, 0);
        }
        _ => panic!("nothing is asked"),
    }
}

#[test]
fn a_dry_run_only_describes_the_plan() {
    assert_eq!(describe(&release_plan()), DESCRIBED);
    match run(Some(release_plan()), true) {
        RunStep::Print(text) => assert_eq!(text, DESCRIBED),
        step => panic!("{step:?}"),
    }
    assert!(matches!(run(Some(release_plan()), false), RunStep::Apply(_)));
    assert!(matches!(run(None, false), RunStep::Stop));
    assert!(matches!(run(None, true), RunStep::Stop));
}

#[test]
fn a_pull_request_needs_a_token() {
    let mut config = Config::default();
    assert!(matches!(run_with_pr(&config, None, true), Err(NotchError::NoToken)));
    config.repo.has_token = true;
    match run_with_pr(&config, Some(release_plan()), true) {
        Ok(RunStep::Print(text)) => assert_eq!(
            text,
            format!(
                "{DESCRIBED}would then push the current branch to origin and open a release PR \
                 against master\n"
            )
        ),
        step => panic!("{step:?}"),
    }
    assert!(matches!(
        run_with_pr(&config, Some(release_plan()), false),
        Ok(RunStep::Apply(_))
    ));
    assert!(matches!(run_with_pr(&config, None, false), Ok(RunStep::Stop)));
}

#[test]
fn any_change_makes_a_file_dirty() {
    assert!(!is_file_dirty(None));
    assert!(!is_file_dirty(Some(clean())));
    assert!(is_file_dirty(Some(FileStatus { index_new: true, ..clean() })));
    assert!(is_file_dirty(Some(FileStatus { worktree_typechange: true, ..clean() })));
}

#[test]
fn a_dirty_file_stops_the_release() {
    let updates = release_plan().updates;
    let dirty = Some(FileStatus { worktree_modified: true, ..clean() });
    assert_eq!(ensure_writable(&updates[0], Some(clean()), None), Ok(()));
    assert_eq!(
        ensure_writable(&updates[0], dirty, None),
        Err(NotchError::DirtyFile("a/Cargo.toml".to_string()))
    );
    assert_eq!(
        ensure_all_writable(&updates, &vec![(None, dirty)]),
        Err(NotchError::DirtyFile("a/CHANGELOG.md".to_string()))
    );
    assert_eq!(ensure_all_writable(&updates, &vec![(None, None)]), Ok(()));
}

#[test]
fn exactly_the_written_files_are_committed() {
    let updates = release_plan().updates;
    assert_eq!(
        touched_files(vec!["a/Cargo.toml".to_string()], &updates, vec!["Cargo.lock".to_string()]),
        vec!["a/Cargo.toml", "a/CHANGELOG.md", "Cargo.lock"]
    );
    let bumps = bumps_of(&updates);
    assert_eq!(bumps.len(), 1);
    assert_eq!(bumps[0].0, package("a"));
    assert_eq!(bumps[0].1, Version::new(1, 1, 0));
}

#[test]
fn the_steps_of_a_release_come_in_order() {
    let mut step = ApplyStep::DropBumpCommits;
    let mut steps = vec![step];
    while step != ApplyStep::Done {
        step = step.next(2);
        steps.push(step);
    }
    assert_eq!(
        steps,
        vec![
            ApplyStep::DropBumpCommits,
            ApplyStep::CheckWritable(0),
            ApplyStep::CheckWritable(1),
            ApplyStep::SetVersions,
            ApplyStep::UpdateChangelog(0),
            ApplyStep::UpdateChangelog(1),
            ApplyStep::RefreshLock,
            ApplyStep::Commit,
            ApplyStep::Done,
        ]
    );
}

#[test]
fn the_changelog_is_prepended() {
    assert_eq!(
        changelog_command("1.1.0", "a", "origin/master..HEAD"),
        vec!["git", "cliff", "--tag", "1.1.0", "--prepend", "a/CHANGELOG.md", "origin/master..HEAD"]
    );
}

#[test]
fn a_command_is_a_program_and_its_arguments() {
    assert_eq!(run_command(&[]), Err(NotchError::EmptyCommand));
    assert_eq!(run_command(&["git", "status"]), Ok(("git", &["status"][..])));
    assert_eq!(command_outcome(Some(0)), Ok(()));
    assert_eq!(command_outcome(Some(1)), Err(NotchError::CommandFailed(Some(1))));
    assert_eq!(command_outcome(None), Err(NotchError::CommandFailed(None)));
    assert_eq!(generate_lockfile(), vec!["cargo", "generate-lockfile"]);
}

#[test]
fn credentials_depend_on_what_the_remote_offers() {
    assert_eq!(
        remote_credentials(None, true, true, true),
        Ok(Credential::Agent { username: "git".to_string() })
    );
    assert_eq!(
        remote_credentials(Some("me"), true, false, false),
        Ok(Credential::Agent { username: "me".to_string() })
    );
    assert_eq!(
        remote_credentials(Some("me"), false, true, true),
        Ok(Credential::Token { username: "x-access-token".to_string() })
    );
    assert_eq!(remote_credentials(None, false, true, false), Err(NotchError::TokenNeeded));
    assert_eq!(remote_credentials(None, false, false, true), Err(NotchError::NoAuthMethod));
}

#[test]
fn a_pushed_branch_follows_the_remote() {
    assert_eq!(push_refspec("refs/heads/a"), "refs/heads/a:refs/heads/a");
    assert_eq!(upstream_to_set(true, "origin", None), Ok(None));
    assert_eq!(upstream_to_set(false, "origin", Some("a")), Ok(Some("origin/a".to_string())));
    assert_eq!(upstream_to_set(false, "origin", None), Err(NotchError::NoBranchName));
}

#[test]
fn init_on_fresh_repo_works() {
    let files = cargo_notch::init::run("config".to_string(), false, false);
    assert_eq!(files.len(), 2);
    assert_eq!(files[0].path, "notch.toml");
    assert_eq!(files[0].contents, "config");
    assert_eq!(files[0].directory, None);
    assert_eq!(files[1].path, ".github/workflows/notch_tag.yaml");
    assert_eq!(files[1].directory.as_deref(), Some(".github/workflows"));
}

#[test]
fn does_not_overwrite_config_if_exists() {
    let files = cargo_notch::init::run("config".to_string(), true, false);
    assert_eq!(files.len(), 1);
    assert_eq!(files[0].path, ".github/workflows/notch_tag.yaml");
}

#[test]
fn does_not_overwrite_action_if_exists() {
    assert_eq!(NotchAction::default().write_to_default_file(true), None);
    let files = cargo_notch::init::run("config".to_string(), true, true);
    assert!(files.is_empty());
}

#[test]
fn action_matches_expected_default() {
    let file = NotchAction::default().write_to_default_file(false).unwrap();
    assert_eq!(file.contents, WORKFLOW);
    assert!(file.contents.starts_with("name: Tag crate versions\n"));
    assert!(file.contents.ends_with("          done < tags.txt\n"));
}
