//! The branch's commits, the bump commits among them, and which packages changed.
use cargo_notch::assign::{
    assign_commits, assign_owned_commits, attribute_commits_to_packages, diff_base,
    get_changed_packages, DiffBase, Scope,
};
use cargo_notch::commits::CommitInfo;
use cargo_notch::config::ReleaseConfig;
use cargo_notch::history::{
    build_bump_trailer, changelog_range, commit_info, commit_message, count_notch_commits,
    find_last_notch_commit, is_notch_commit, CommitRecord, NOTCH_COMMITTER_EMAIL,
};
use cargo_notch::package::Package;
use cargo_notch::release::UpdatedCrate;
use cargo_notch::rewind::{packages_without_prior_notch_commit, tag_worktree, NotchDrop};
use cargo_notch::sections::{parse_bump_trailer, prior_bump_sections};
use cargo_notch::version::Version;

fn record(id: &str, email: &str, message: &str, parents: usize, files: &[&str]) -> CommitRecord {
    CommitRecord {
        id: id.to_string(),
        author_email: Some(email.to_string()),
        message: Some(message.to_string()),
        summary: message.lines().next().map(|l| l.to_string()),
        parents,
        files: files.iter().map(|f| f.to_string()).collect(),
    }
}

fn human(id: &str, message: &str, files: &[&str]) -> CommitRecord {
    record(id, "human@example.com", message, 1, files)
}

fn bump(id: &str, updated: &[UpdatedCrate]) -> CommitRecord {
    record(id, NOTCH_COMMITTER_EMAIL, &commit_message(updated), 1, &["foo/Cargo.toml"])
}

fn updated_crate(name: &str, from: (u64, u64, u64), to: Version) -> UpdatedCrate {
    UpdatedCrate {
        package: Package::new(
            name.to_string(),
            name.to_string(),
            Version::new(from.0, from.1, from.2),
            format!("{name}/Cargo.toml"),
        ),
        new_version: to,
        commits: vec![],
    }
}

fn foo() -> Vec<UpdatedCrate> {
    vec![updated_crate("foo", (1, 0, 0), Version::new(1, 1, 0))]
}

fn package(path: &str) -> Package {
    Package::new(
        path.to_string(),
        path.replace('/', "-"),
        Version::new(0, 1, 0),
        if path == "." { "Cargo.toml".to_string() } else { format!("{path}/Cargo.toml") },
    )
}

fn files(files: &[&str]) -> Vec<String> {
    files.iter().map(|f| f.to_string()).collect()
}

#[test]
fn git_build_bump_trailer_lists_every_crate_updated() {
    let updated = vec![
        updated_crate("foo", (1, 0, 0), Version::new(1, 1, 0)),
        updated_crate("bar", (0, 4, 0), Version::new(0, 5, 0)),
    ];

    assert_eq!(
        build_bump_trailer(&updated),
        "Notch-Bump: foo@1.0.0->1.1.0,bar@0.4.0->0.5.0"
    );
}

#[test]
fn git_notch_commit_is_identified_by_identity_and_trailer_together() {
    let commit = bump("1", &foo());
    assert_eq!(
        commit.message.as_deref(),
        Some("chore(notch): changelog + version bump\n\nNotch-Bump: foo@1.0.0->1.1.0")
    );
    assert!(is_notch_commit(&commit));
}

#[test]
fn git_human_commit_with_the_same_wording_is_not_mistaken_for_notchs() {
    assert!(!is_notch_commit(&human("1", &commit_message(&foo()), &[])));
}

#[test]
fn git_notch_identity_without_the_trailer_is_not_mistaken_for_a_bump_commit() {
    let commit = record("1", NOTCH_COMMITTER_EMAIL, "chore(notch): unrelated", 1, &[]);
    assert!(!is_notch_commit(&commit));
}

#[test]
fn a_commit_without_readable_text_is_not_a_bump_commit() {
    let mut commit = bump("1", &foo());
    commit.message = None;
    assert!(!is_notch_commit(&commit));
    let mut commit = bump("1", &foo());
    commit.author_email = None;
    assert!(!is_notch_commit(&commit));
}

#[test]
fn git_find_last_notch_commit_picks_the_one_closest_to_head() {
    let commits = [
        bump("1", &foo()),
        human("2", "feat: add a thing", &["file2.txt"]),
        bump("3", &foo()),
        human("4", "fix: a thing", &["file.txt"]),
    ];
    assert_eq!(find_last_notch_commit(&commits), Some(2));
    assert_eq!(count_notch_commits(&commits), 2);
    assert_eq!(find_last_notch_commit(&commits[1..2]), None);
}

#[test]
fn changelog_range_falls_back_to_upstream_range_without_a_marker() {
    let release = ReleaseConfig::default();
    assert_eq!(changelog_range(&release, None), "origin/master..HEAD");
}

#[test]
fn changelog_range_uses_the_marker_commit_when_present() {
    let release = ReleaseConfig::default();
    assert_eq!(changelog_range(&release, Some(&bump("abc", &foo()))), "abc..HEAD");
}

#[test]
fn a_breaking_change_is_read_from_a_footer() {
    let info = commit_info(&human("1", "fix: a\n\nBREAKING CHANGE: b", &[]));
    assert_eq!(info, CommitInfo::new("fix: a".to_string(), "1".to_string(), true));
    assert!(commit_info(&human("1", "fix: a\n\nBREAKING-CHANGE: b", &[])).breaking);
    assert!(!commit_info(&human("1", "fix: a BREAKING CHANGE: b", &[])).breaking);
    let mut nameless = human("1", "", &[]);
    nameless.summary = None;
    assert_eq!(commit_info(&nameless).summary, "<no summary>");
}

#[test]
fn only_packages_whose_path_changed_are_returned() {
    let changed = get_changed_packages(
        vec![package("crate-a"), package("crate-b")],
        &files(&["crate-a/src/lib.rs"]),
        Scope::Directory,
    );
    assert_eq!(changed, vec![package("crate-a")]);
}

#[test]
fn root_package_is_always_considered_changed() {
    let changed = get_changed_packages(vec![package(".")], &Vec::new(), Scope::Directory);
    assert_eq!(changed, vec![package(".")]);
    let changed = get_changed_packages(vec![package(".")], &Vec::new(), Scope::Owned);
    assert_eq!(changed, Vec::new());
}

#[test]
fn base_override_bypasses_upstream_ref_resolution() {
    let release = ReleaseConfig::default();
    let marker = bump("abc", &foo());
    assert!(matches!(diff_base(&release, Some(&marker)), DiffBase::Commit(id) if id == "abc"));
    assert!(matches!(
        diff_base(&release, None),
        DiffBase::MergeBase(upstream) if upstream == "origin/master"
    ));
}

#[test]
fn prior_bump_sections_recovers_bumps_from_trailers() {
    let commits = vec![
        human("human", "test commit", &["crate-a/src/lib.rs"]),
        record(
            "notch",
            NOTCH_COMMITTER_EMAIL,
            "chore(notch): changelog + version bump\n\nNotch-Bump: crate-a@0.1.0->0.2.0",
            1,
            &[],
        ),
        // belongs to the next run, not a prior section
        human("newer", "test commit", &["crate-a/src/more.rs"]),
    ];

    let sections = prior_bump_sections(&commits, &vec![package("crate-a")]);

    assert_eq!(sections.len(), 1);
    assert_eq!(sections[0].package.name, "crate-a");
    assert_eq!(sections[0].package.version, Version::new(0, 1, 0));
    assert_eq!(sections[0].new_version, Version::new(0, 2, 0));
    assert_eq!(sections[0].commits.len(), 1);
    assert_eq!(sections[0].commits[0].sha1, "human");
}

#[test]
fn a_trailer_reads_back_as_it_was_written() {
    let updated = vec![
        updated_crate("foo", (1, 0, 0), Version::parse("1.1.0-rc.1").unwrap()),
        updated_crate("bar", (0, 4, 0), Version::new(0, 5, 0)),
    ];
    let bumps = parse_bump_trailer(&bump("1", &updated));
    assert_eq!(bumps.len(), 2);
    assert_eq!(bumps[0].name, "foo");
    assert_eq!(bumps[0].old, Version::new(1, 0, 0));
    assert_eq!(bumps[0].new, Version::parse("1.1.0-rc.1").unwrap());
    assert_eq!(bumps[1].name, "bar");
}

#[test]
fn commits_are_attributed_to_the_package_whose_path_they_touch() {
    let commits = [
        human("2", "test commit", &["crate-a/src/lib.rs"]),
        human("3", "test commit", &["crate-b/src/lib.rs"]),
    ];
    let attributed = attribute_commits_to_packages(
        &commits,
        vec![package("crate-a"), package("crate-b")],
        Scope::Directory,
    );
    assert_eq!(attributed[0].1.len(), 1);
    assert_eq!(attributed[0].1[0].sha1, "2");
    assert_eq!(attributed[1].1.len(), 1);
}

#[test]
fn merge_commits_are_excluded_from_attribution() {
    let commits = [
        human("side", "test commit", &["crate-a/side.rs"]),
        record("merge", "test@example.com", "merge", 2, &["crate-a/side.rs"]),
    ];
    let attributed =
        attribute_commits_to_packages(&commits, vec![package("crate-a")], Scope::Directory);
    assert_eq!(attributed[0].1.len(), 1);
}

#[test]
fn root_package_gets_every_non_merge_commit() {
    let commits = [
        human("1", "test commit", &["unrelated-b.txt"]),
        human("2", "test commit", &["unrelated-c.txt"]),
    ];
    let attributed = attribute_commits_to_packages(&commits, vec![package(".")], Scope::Directory);
    assert_eq!(attributed[0].1.len(), 2);
}

#[test]
fn the_first_commit_of_a_branch_is_no_merge() {
    let commits = [
        record("first", "test@example.com", "feat: all", 0, &["crate-a/lib.rs"]),
        record("merge", "test@example.com", "merge", 2, &["crate-a/lib.rs"]),
    ];
    for scope in [Scope::Directory, Scope::Owned] {
        let attributed = attribute_commits_to_packages(
            &commits,
            vec![package("crate-a"), package("."), package("crate-b")],
            scope,
        );
        assert_eq!(attributed[0].1.len(), 1);
        assert_eq!(attributed[0].1[0].sha1, "first");
        assert_eq!(attributed[1].1.len(), 1);
        assert!(attributed[2].1.is_empty());
    }
}

#[test]
fn a_bump_commit_is_no_change_to_what_a_package_owns() {
    let commits = [human("1", "fix: a", &["foo/a.rs"]), bump("2", &foo())];
    let attributed = attribute_commits_to_packages(&commits, vec![package("foo")], Scope::Owned);
    assert_eq!(attributed[0].1.len(), 1);
    assert_eq!(attributed[0].1[0].sha1, "1");
}

#[test]
fn the_baseline_read_declines_when_there_is_no_prior_bump() {
    assert_eq!(packages_without_prior_notch_commit(&[human("1", "fix: a", &[])], "head"), None);
    assert_eq!(
        packages_without_prior_notch_commit(&[bump("1", &foo())], "abc").as_deref(),
        Some("notch-baseline-abc")
    );
    assert_eq!(tag_worktree("abc"), "notch-tag-abc");
}

#[test]
fn every_stacked_notch_commit_is_dropped_not_just_the_most_recent() {
    let mut branch = vec![
        bump("1", &foo()),
        human("2", "feat: a", &["a"]),
        bump("3", &foo()),
    ];
    let mut drop = NotchDrop::new(&branch);
    assert_eq!(
        drop.next_rebase(&branch),
        Some(vec![
            "git".to_string(),
            "rebase".to_string(),
            "--onto".to_string(),
            "3^".to_string(),
            "3".to_string(),
        ])
    );
    branch.remove(2);
    assert_eq!(drop.next_rebase(&branch).unwrap()[4], "1");
    branch.remove(0);
    assert_eq!(drop.next_rebase(&branch), None);
    assert_eq!(count_notch_commits(&branch), 0);
    assert_eq!(branch[0].id, "2");
}

#[test]
fn a_branch_with_no_notch_commit_is_left_exactly_as_it_was() {
    let branch = [human("1", "fix: something", &["b.txt"])];
    assert_eq!(NotchDrop::new(&branch).next_rebase(&branch), None);
}

#[test]
fn rebases_that_do_nothing_come_to_an_end() {
    let branch = [bump("1", &foo())];
    let mut drop = NotchDrop::new(&branch);
    assert!(drop.next_rebase(&branch).is_some());
    assert_eq!(drop.next_rebase(&branch), None);
}

#[test]
fn assigning_looks_only_at_what_came_after_the_last_bump() {
    let commits = vec![
        human("1", "feat: old", &["foo/a.rs"]),
        bump("2", &foo()),
        human("3", "fix: new", &["foo/b.rs"]),
    ];
    let release = ReleaseConfig::default();
    let assignment = assign_commits(
        &commits,
        vec![package("foo"), package("bar")],
        &files(&["foo/b.rs"]),
        &release,
    );
    assert_eq!(assignment.changelog_range, "2..HEAD");
    assert_eq!(assignment.packages.len(), 1);
    assert_eq!(assignment.packages[0].0, package("foo"));
    assert_eq!(assignment.packages[0].1.len(), 1);
    assert_eq!(assignment.packages[0].1[0].sha1, "3");
    let assignment =
        assign_commits(&vec![human("1", "fix: a", &["bar/a"])], vec![package("foo")], &Vec::new(), &release);
    assert_eq!(assignment.changelog_range, "origin/master..HEAD");
    assert!(assignment.packages.is_empty());
}

#[test]
fn what_a_package_owns_is_assigned_from_the_whole_branch() {
    let commits = vec![
        human("1", "feat: old", &["foo/a.rs"]),
        bump("2", &foo()),
        human("3", "fix: new", &["foo/b.rs", "foo/c.rs"]),
    ];
    let assignment = assign_owned_commits(
        &commits,
        vec![package("foo"), package("bar")],
        &files(&["foo/a.rs", "foo/b.rs"]),
        &ReleaseConfig::default(),
    );
    assert_eq!(assignment.changelog_range, "origin/master..HEAD");
    assert_eq!(assignment.packages.len(), 1);
    let ids: Vec<&str> = assignment.packages[0].1.iter().map(|c| c.sha1.as_str()).collect();
    assert_eq!(ids, vec!["1", "3"]);
}
