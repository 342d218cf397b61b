//! The state machine that collects a package's commits.
use cargo_notch::auto::bump_for_commit;
use cargo_notch::bump::Bump;
use cargo_notch::commits::CommitInfo;
use cargo_notch::config::BumpsConfig;
use cargo_notch::fsm::NotchFsm;

#[test]
fn no_commits_returns_none() {
    let fsm = NotchFsm::new(BumpsConfig::default());
    assert_eq!(fsm.dump(), None);
}

#[test]
fn one_commit_returns_that_one() {
    let mut fsm = NotchFsm::new(BumpsConfig::default());
    let commits = vec![CommitInfo::new(
        "fix: fixing something".into(),
        "abcdef123456789".into(),
        false,
    )];
    fsm.handle_commits(&commits);
    assert_eq!(fsm.dump(), Some((Bump::Patch, commits)));
}

#[test]
fn second_commit_no_bump_required() {
    let mut fsm = NotchFsm::new(BumpsConfig::default());
    let commits = vec![
        CommitInfo::new(
            "fix: fixing something".into(),
            "abcdef123456789".into(),
            false,
        ),
        CommitInfo::new(
            "fix: fixing something new".into(),
            "abcdef123456788".into(),
            false,
        ),
    ];
    fsm.handle_commits(&commits);
    assert_eq!(fsm.dump(), Some((Bump::Patch, commits)));
}

#[test]
fn second_commit_bump_required() {
    let mut fsm = NotchFsm::new(BumpsConfig::default());
    let commits = vec![
        CommitInfo::new(
            "fix: fixing something".into(),
            "abcdef123456789".into(),
            false,
        ),
        CommitInfo::new(
            "feat: adding something new".into(),
            "abcdef123456788".into(),
            false,
        ),
    ];
    fsm.handle_commits(&commits);
    assert_eq!(fsm.dump(), Some((Bump::Minor, commits)));
}

fn commit(summary: &str) -> CommitInfo {
    CommitInfo::new(summary.to_string(), "abcdefg123456".to_string(), false)
}

#[test]
fn the_bump_is_the_biggest_of_the_commits() {
    let config = BumpsConfig::default();
    let commits = [commit("docs: a"), commit("feat(cli)!: b"), commit("feat: c"), commit("d")];
    let biggest = commits.iter().map(|c| bump_for_commit(c, &config)).max().flatten();
    let mut fsm = NotchFsm::new(BumpsConfig::default());
    fsm.handle_commits(&commits);
    assert_eq!(fsm.suggested_bump(), biggest);
    assert_eq!(fsm.suggested_bump(), Some(Bump::Major));
    assert_eq!(fsm.commits().len(), 4);
}

#[test]
fn commits_handed_over_in_pieces_add_up() {
    let mut whole = NotchFsm::new(BumpsConfig::default());
    whole.handle_commits(&[commit("fix: a"), commit("feat: b")]);
    let mut pieces = NotchFsm::new(BumpsConfig::default());
    pieces.handle_commits(&[commit("fix: a")]);
    pieces.handle_commits(&[]);
    pieces.handle_commits(&[commit("feat: b")]);
    assert_eq!(whole.dump(), pieces.dump());
}

#[test]
fn a_skipped_commit_leaves_no_bump() {
    let config = BumpsConfig { skip: vec!["wip".to_string()], ..BumpsConfig::default() };
    let mut fsm = NotchFsm::new(config);
    fsm.handle_commits(&[commit("wip: a")]);
    assert_eq!(fsm.suggested_bump(), None);
    assert_eq!(fsm.dump(), None);
}

#[test]
fn short_ids_have_seven_characters() {
    assert_eq!(commit("a").short_id(), "abcdefg");
}
