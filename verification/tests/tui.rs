//! Picking bumps interactively.
use cargo_notch::bump::Bump;
use cargo_notch::commits::CommitInfo;
use cargo_notch::config::BumpsConfig;
use cargo_notch::fsm::NotchFsm;
use cargo_notch::package::Package;
use cargo_notch::tui::{App, Key, PackageItem, Signal};
use cargo_notch::version::Version;

fn package(name: &str, version: &str) -> PackageItem {
    let version = Version::parse(version).unwrap();
    PackageItem::new(
        Package::new(
            name.to_string(),
            name.to_string(),
            version.clone(),
            manifest(),
        ),
        Vec::new(),
        &version,
    )
}

fn manifest() -> String {
    "Cargo.toml".to_string()
}

fn app(names_and_versions: &[(&str, &str)]) -> App {
    App::new(
        names_and_versions
            .iter()
            .map(|(n, v)| package(n, v))
            .collect(),
    )
}

#[test]
fn navigation_clamps_at_bounds() {
    let mut app = app(&[("a", "0.1.0"), ("b", "0.1.0")]);
    assert_eq!(app.handle_key(Key::Char('k'), false), Signal::Continue);
    assert_eq!(app.focused, 0, "can't move above the first package");

    assert_eq!(app.handle_key(Key::Char('j'), false), Signal::Continue);
    assert_eq!(app.focused, 1);

    assert_eq!(app.handle_key(Key::Char('j'), false), Signal::Continue);
    assert_eq!(app.focused, 1, "can't move past the last package");
}

#[test]
fn selecting_a_bump_sets_the_right_version() {
    let mut app = app(&[("a", "0.1.0")]);
    app.handle_key(Key::Char('2'), false);
    assert_eq!(app.packages[0].selected, Some(Bump::Minor));
}

#[test]
fn reselecting_a_different_bump_overwrites_the_choice() {
    let mut app = app(&[("a", "0.1.0")]);
    app.handle_key(Key::Char('1'), false);
    app.handle_key(Key::Char('3'), false);
    assert_eq!(app.packages[0].selected, Some(Bump::Major));
}

#[test]
fn d_and_backspace_and_delete_all_clear_the_focused_selection() {
    for code in [Key::Char('d'), Key::Backspace, Key::Delete] {
        let mut app = app(&[("a", "0.1.0")]);
        app.handle_key(Key::Char('1'), false);
        app.handle_key(code, false);
        assert_eq!(app.packages[0].selected, None);
    }
}

#[test]
fn ctrl_d_and_ctrl_u_scroll_the_commit_list() {
    let mut app = app(&[("a", "0.1.0")]);
    app.handle_key(Key::Char('d'), true);
    assert_eq!(app.commit_scroll, App::SCROLL_STEP);

    app.handle_key(Key::Char('u'), true);
    assert_eq!(app.commit_scroll, 0);

    // clamps at zero rather than underflowing
    app.handle_key(Key::Char('u'), true);
    assert_eq!(app.commit_scroll, 0);
}

#[test]
fn plain_d_clears_rather_than_scrolling() {
    let mut app = app(&[("a", "0.1.0")]);
    app.handle_key(Key::Char('1'), false);
    app.handle_key(Key::Char('d'), false);
    assert_eq!(app.packages[0].selected, None);
    assert_eq!(app.commit_scroll, 0);
}

#[test]
fn confirm_requires_every_package_to_have_a_selection() {
    let mut app = app(&[("a", "0.1.0"), ("b", "0.1.0")]);
    assert_eq!(app.handle_key(Key::Char('c'), false), Signal::Continue);

    app.handle_key(Key::Char('1'), false);
    assert_eq!(app.handle_key(Key::Char('c'), false), Signal::Continue);

    app.handle_key(Key::Char('j'), false);
    app.handle_key(Key::Char('2'), false);
    assert_eq!(app.handle_key(Key::Char('c'), false), Signal::Confirm);
}

#[test]
fn quit_or_escape_always_cancels() {
    let mut app = app(&[("a", "0.1.0")]);
    assert_eq!(app.handle_key(Key::Char('q'), false), Signal::Cancel);
    assert_eq!(app.handle_key(Key::Esc, false), Signal::Cancel);
}

#[test]
fn into_updated_crates_uses_the_selected_version() {
    let mut app = app(&[("a", "0.1.0")]);
    app.handle_key(Key::Char('3'), false);
    let updated = app.into_updated_crates();
    assert_eq!(updated.len(), 1);
    assert_eq!(updated[0].new_version, Version::parse("1.0.0").unwrap());
}

#[test]
fn bump_options_are_computed_from_the_baseline_not_the_current_version() {
    // package currently sits at 1.3.0 (already staged by a prior, still-unmerged bump), but
    // its baseline — before that bump — was 1.2.5. The patch option should land back on 1.3.0
    // (the already-staged minor bump), letting the user "change their mind" and pick the
    // version that's already current, rather than always offering one past it.
    let current = Version::parse("1.3.0").unwrap();
    let baseline = Version::parse("1.2.5").unwrap();
    let item = PackageItem::new(
        Package::new(
            "a".to_string(),
            "a".to_string(),
            current.clone(),
            manifest(),
        ),
        Vec::new(),
        &baseline,
    );

    assert_eq!(*item.version_for(Bump::Patch), current);
    assert_eq!(*item.version_for(Bump::Minor), current);
    assert_eq!(
        *item.version_for(Bump::Major),
        Version::parse("2.0.0").unwrap()
    );
}

#[test]
fn a_package_with_something_already_staged_defaults_to_staying_at_the_current_version() {
    // baseline 1.2.5 -> current 1.3.0 (a minor bump already landed). `patch` comes
    // preselected — not because the staged bump was patch-level, but because it clamps to
    // exactly 1.3.0 here, so preselecting it means "stay at the current version". The
    // realistic choice is then "stay put" vs. "escalate", not picking from scratch.
    let item = PackageItem::new(
        Package::new(
            "a".to_string(),
            "a".to_string(),
            Version::parse("1.3.0").unwrap(),
            manifest(),
        ),
        Vec::new(),
        &Version::parse("1.2.5").unwrap(),
    );
    assert_eq!(item.selected, Some(Bump::Patch));
    assert_eq!(
        *item.version_for(Bump::Patch),
        Version::parse("1.3.0").unwrap()
    );
}

#[test]
fn a_package_with_several_stacked_legacy_bumps_still_defaults_to_the_current_version() {
    // baseline 1.2.5 -> current 1.2.7: two patch-level bumps stacked on top of each other from
    // before this baseline/poaching scheme existed, rather than one clean bump. `patch` must
    // still clamp to (and preselect) the real current version, 1.2.7, not the raw 1.2.6 a
    // single patch off the baseline would give.
    let item = PackageItem::new(
        Package::new(
            "a".to_string(),
            "a".to_string(),
            Version::parse("1.2.7").unwrap(),
            manifest(),
        ),
        Vec::new(),
        &Version::parse("1.2.5").unwrap(),
    );
    assert_eq!(item.selected, Some(Bump::Patch));
    assert_eq!(
        *item.version_for(Bump::Patch),
        Version::parse("1.2.7").unwrap()
    );
}

#[test]
fn a_package_with_no_prior_bump_starts_unselected() {
    // baseline == current: no tier is a no-op, so nothing already staged to preselect.
    let item = package("a", "0.1.0");
    assert_eq!(item.selected, None);
}

#[test]
fn preselection_lets_confirm_succeed_without_touching_an_unescalated_package() {
    let mut app = App::new(vec![PackageItem::new(
        Package::new(
            "a".to_string(),
            "a".to_string(),
            Version::parse("1.3.0").unwrap(),
            manifest(),
        ),
        Vec::new(),
        &Version::parse("1.2.5").unwrap(),
    )]);
    assert_eq!(app.handle_key(Key::Char('c'), false), Signal::Confirm);
}

#[test]
fn rows_come_sorted_by_name() {
    let app = App::sorted(vec![package("b", "0.1.0"), package("a", "0.2.0")]);
    assert_eq!(app.packages[0].package().name, "a");
    assert_eq!(app.packages[1].package().name, "b");
}

#[test]
fn a_suggested_row_has_the_bump_of_its_commits() {
    let mut fsm = NotchFsm::new(BumpsConfig::default());
    fsm.handle_commits(&[CommitInfo::new(
        "feat: x".to_string(),
        "0123456789".to_string(),
        false,
    )]);
    let row = PackageItem::suggested(
        Package::new("a".to_string(), "a".to_string(), Version::new(1, 0, 0), manifest()),
        &fsm,
    );
    assert_eq!(row.selected, Some(Bump::Minor));
    assert_eq!(row.row_label(), "a  1.0.0 -> 1.1.0");
    assert_eq!(row.option_line(Bump::Minor), "[x] minor -> 1.1.0");
    assert_eq!(row.option_line(Bump::Major), "[ ] major -> 2.0.0");
    assert_eq!(row.title_line(), "a  (current 1.0.0)");
    assert_eq!(row.commit_lines(), vec!["0123456 feat: x"]);
}

#[test]
fn an_unselected_row_says_so() {
    let row = package("a", "0.1.0");
    assert_eq!(row.row_label(), "a  0.1.0 -> ?");
    assert_eq!(row.commit_lines(), vec!["(no attributed commits)"]);
}

#[test]
fn a_prerelease_baseline_can_leave_the_patch_option_above_the_current_version() {
    let row = PackageItem::new(
        Package::new("a".to_string(), "a".to_string(), Version::new(1, 2, 5), manifest()),
        Vec::new(),
        &Version::parse("1.2.5-alpha").unwrap(),
    );
    assert_eq!(*row.version_for(Bump::Patch), Version::parse("1.2.6-alpha").unwrap());
}

#[test]
fn the_number_of_selections_is_counted() {
    let mut app = app(&[("a", "0.1.0"), ("b", "0.1.0")]);
    assert_eq!(app.selected_count(), 0);
    app.select(Bump::Patch);
    assert_eq!(app.selected_count(), 1);
    assert!(!app.all_selected());
    app.focus_down();
    app.select(Bump::Patch);
    assert!(app.all_selected());
    app.focus_up();
    app.clear_focused();
    assert_eq!(app.selected_count(), 1);
    assert_eq!(app.handle_key(Key::Other, false), Signal::Continue);
}
