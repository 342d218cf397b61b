//! Crates of the workspace, and updating one of them at the prompt.
use cargo_notch::cargo::{MetadataPackage, WorkspaceMetadata};
use cargo_notch::commits::CommitInfo;
use cargo_notch::error::NotchError;
use cargo_notch::history::CommitRecord;
use cargo_notch::prompt::{
    answer, ask, parse_number, start_update, step, Action, Event, Stage,
};
use cargo_notch::version::Version;
use cargo_notch::workspace::{
    attribute_commits_to_crates, build_bump_trailer, get_changed_crates,
    get_changed_crates_with_commits, get_cleaned_members, CargoPackager, Crate, CrateUpdate,
    MyVersion, Tool,
};

fn krate(path: &str, version: Version) -> Crate {
    Crate {
        path: path.to_string(),
        name: path.to_string(),
        version: MyVersion { version },
    }
}

fn record(id: &str, parents: usize, files: &[&str]) -> CommitRecord {
    CommitRecord {
        id: id.to_string(),
        author_email: None,
        message: None,
        summary: Some(format!("commit {id}")),
        parents,
        files: files.iter().map(|f| f.to_string()).collect(),
    }
}

#[test]
fn mod_build_bump_trailer_lists_every_crate_updated() {
    let updated = vec![
        CrateUpdate {
            ccrate: krate("foo", Version::new(1, 0, 0)),
            new_version: Version::new(1, 1, 0),
        },
        CrateUpdate {
            ccrate: krate("bar", Version::new(0, 4, 0)),
            new_version: Version::new(0, 5, 0),
        },
    ];

    assert_eq!(build_bump_trailer(&updated), "Notch-Bump: foo@1.1.0,bar@0.5.0");
}

#[test]
fn workspace_root_crate_path_is_normalized_to_dot() {
    let metadata = WorkspaceMetadata {
        workspace_root: "/tmp/root".to_string(),
        members: vec!["path+file:///tmp/root#root-test-crate@0.1.0".to_string()],
        packages: vec![MetadataPackage {
            id: "path+file:///tmp/root#root-test-crate@0.1.0".to_string(),
            name: "root-test-crate".to_string(),
            version: Version::new(0, 1, 0),
        }],
    };
    let members = get_cleaned_members("/tmp/root", &metadata);
    assert_eq!(members.len(), 1);
    assert_eq!(members[0].path, ".");
    assert_eq!(members[0].name, "root-test-crate");

    let packages = CargoPackager::new("/tmp/root".to_string()).get(&metadata);
    assert_eq!(packages.len(), 1);
    assert_eq!(packages[0].path, ".");
    assert_eq!(packages[0].version, Version::new(0, 1, 0));
}

#[test]
fn a_version_is_bumped_without_touching_its_other_numbers() {
    let version = MyVersion { version: Version::new(1, 2, 3) };
    assert_eq!(version.bump_patch(), Version::new(1, 2, 4));
    assert_eq!(version.bump_minor(), Version::new(1, 3, 3));
    assert_eq!(version.bump_major(), Version::new(2, 2, 3));
}

#[test]
fn crates_are_changed_by_files_under_their_directory() {
    let crates = || vec![krate("a", Version::new(1, 0, 0)), krate("b", Version::new(1, 0, 0))];
    let commits = [record("1", 1, &["a/x", "a/y"]), record("2", 2, &["a/z", "c/x"])];
    let changed = get_changed_crates_with_commits(&commits, crates(), Tool::Notch).unwrap();
    assert_eq!(changed.len(), 1);
    assert_eq!(changed[0].0.path, "a");
    assert_eq!(changed[0].1.len(), 2);

    let changed = get_changed_crates(crates(), &vec!["b/x".to_string()]);
    assert_eq!(changed, vec![krate("b", Version::new(1, 0, 0))]);
    let changed = get_changed_crates(vec![krate(".", Version::new(1, 0, 0))], &Vec::new());
    assert_eq!(changed.len(), 1);

    let attributed = attribute_commits_to_crates(&commits, crates());
    assert_eq!(attributed[0].1.len(), 1);
    assert_eq!(attributed[0].1[0].summary, "commit 1");
    assert!(attributed[1].1.is_empty());

    let first = [record("1", 0, &["a/x"]), record("2", 3, &["a/x"])];
    let attributed = attribute_commits_to_crates(&first, crates());
    assert_eq!(attributed[0].1.len(), 1);
    assert_eq!(attributed[0].1[0].summary, "commit 1");
}

#[test]
fn the_builder_lists_a_commit_once_for_every_file() {
    let crates = || vec![krate("a", Version::new(1, 0, 0)), krate("b", Version::new(1, 0, 0))];
    let commits = [
        record("1", 1, &["a/x", "a/x", "a/y", "c/x"]),
        record("2", 2, &["a/z", "a//z", "ab/x"]),
        record("3", 1, &["c/x"]),
    ];
    let summaries = |tool: Tool| {
        let changed = get_changed_crates_with_commits(&commits, crates(), tool).unwrap();
        assert_eq!(changed.len(), 1);
        assert_eq!(changed[0].0.path, "a");
        changed[0].1.iter().map(|c| c.summary.clone()).collect::<Vec<String>>()
    };
    assert_eq!(summaries(Tool::Builder), vec!["commit 1", "commit 1", "commit 2"]);
    assert_eq!(summaries(Tool::Notch), vec!["commit 1", "commit 2"]);
}

#[test]
fn a_commit_without_a_parent_cannot_be_compared() {
    for tool in [Tool::Builder, Tool::Notch] {
        let commits = [record("1", 1, &[]), record("2", 0, &[])];
        assert_eq!(
            get_changed_crates_with_commits(&commits, Vec::new(), tool),
            Err(NotchError::NoParent("2".to_string()))
        );
    }
}

#[test]
fn the_question_offers_three_versions() {
    let commits = vec![CommitInfo::new("fix: a".to_string(), "0123456789".to_string(), false)];
    assert_eq!(
        ask(&krate("foo", Version::new(1, 2, 3)), &commits, Tool::Notch),
        "Commits that changed foo:\n  0123456 fix: a\nupdating foo\nselect one: \n\
         0) bump patch to 1.2.4\n1) bump minor to 1.3.3\n2) bump major to 2.2.3\n> "
    );
}

#[test]
fn the_builder_asks_without_listing_commits() {
    let commits = vec![CommitInfo::new("fix: a".to_string(), "0".to_string(), false)];
    let foo = Crate { path: "crates/foo".to_string(), ..krate("foo", Version::new(1, 2, 3)) };
    assert_eq!(
        ask(&foo, &commits, Tool::Builder),
        "updating crates/foo\nselect one: \n\
         0) bump patch to 1.2.4\n1) bump minor to 1.3.3\n2) bump major to 2.2.3\n> "
    );
}

#[test]
fn an_answer_is_one_of_the_numbers() {
    let foo = krate("foo", Version::new(1, 2, 3));
    assert_eq!(answer(&foo, "0\n"), Ok(Version::new(1, 2, 4)));
    assert_eq!(answer(&foo, "+1\n"), Ok(Version::new(1, 3, 3)));
    assert_eq!(answer(&foo, "002"), Ok(Version::new(2, 2, 3)));
    assert_eq!(answer(&foo, "3\n"), Err(NotchError::NotAnOption(3)));
    assert_eq!(answer(&foo, "\n"), Err(NotchError::NotANumber(String::new())));
    assert_eq!(answer(&foo, "-1\n"), Err(NotchError::NotANumber("-1".to_string())));
    assert_eq!(answer(&foo, "1 \n"), Err(NotchError::NotANumber("1 ".to_string())));
}

#[test]
fn numbers_are_read_as_the_standard_library_reads_them() {
    for text in ["", "+", "0", "+7", "++1", "12a", "18446744073709551615", "18446744073709551616"] {
        assert_eq!(parse_number(text), text.parse::<usize>().ok(), "{text}");
    }
}

#[test]
fn an_update_goes_through_its_steps() {
    for tool in [Tool::Builder, Tool::Notch] {
        update_goes_through(tool);
    }
}

fn update_goes_through(tool: Tool) {
    let foo = krate("foo", Version::new(1, 2, 3));
    let range = "origin/master..HEAD";
    let (stage, action) = start_update(&foo, Version::new(1, 2, 4));
    assert_eq!(
        action,
        Action::Copy { from: "foo/Cargo.toml".to_string(), to: "foo/Cargo.toml.bak".to_string() }
    );
    let (stage, action) = step(&foo, range, tool, stage, Event::BackedUp { success: true });
    assert_eq!(action, Action::Read { path: "foo/Cargo.toml".to_string() });
    let text = "[package]\nversion = \"1.2.3\"\n[dependencies]\na = { version = \"1.2.3\" }\n";
    let (stage, action) =
        step(&foo, range, tool, stage, Event::Contents { text: text.to_string() });
    assert_eq!(
        action,
        Action::Write {
            path: "foo/Cargo.toml".to_string(),
            contents: "[package]\nversion = \"1.2.4\"\n[dependencies]\na = { version = \"1.2.3\" }\n"
                .to_string(),
        }
    );
    let (stage, action) = step(&foo, range, tool, stage, Event::Written { success: true });
    assert_eq!(action, Action::Delete { path: "foo/Cargo.toml.bak".to_string() });
    let (stage, action) = step(&foo, range, tool, stage, Event::Deleted);
    match action {
        Action::Run { command } => assert_eq!(command[3], "1.2.4"),
        action => panic!("{action:?}"),
    }
    let (stage, action) = step(&foo, range, tool, stage, Event::Generated { code: Some(0) });
    assert_eq!((stage, action), (Stage::Over, Action::Finish));
}

#[test]
fn a_failed_update_is_undone() {
    let foo = krate("foo", Version::new(1, 2, 3));
    let selected = || Version::new(1, 2, 4);
    let (stage, action) = step(
        &foo,
        "",
        Tool::Notch,
        Stage::Writing { selected: selected() },
        Event::Written { success: false },
    );
    assert_eq!(
        action,
        Action::Move { from: "foo/Cargo.toml.bak".to_string(), to: "foo/Cargo.toml".to_string() }
    );
    assert_eq!(
        step(&foo, "", Tool::Notch, stage, Event::Restored),
        (Stage::Over, Action::Fail { error: NotchError::WriteFailed })
    );
    assert_eq!(
        step(
            &foo,
            "",
            Tool::Notch,
            Stage::BackingUp { selected: selected() },
            Event::BackedUp { success: false }
        ),
        (Stage::Over, Action::Fail { error: NotchError::BackupFailed })
    );
    assert_eq!(
        step(&foo, "", Tool::Notch, Stage::Generating, Event::Generated { code: None }),
        (Stage::Over, Action::Fail { error: NotchError::CommandFailed(None) })
    );
}

#[test]
fn the_builder_goes_on_without_a_changelog() {
    let foo = krate("foo", Version::new(1, 2, 3));
    for code in [None, Some(0), Some(1), Some(-1)] {
        assert_eq!(
            step(&foo, "", Tool::Builder, Stage::Generating, Event::Generated { code }),
            (Stage::Over, Action::Finish)
        );
    }
}
