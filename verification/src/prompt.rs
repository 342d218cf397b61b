//! Updating one crate by asking for its bump at a plain prompt. The steps that touch files are
//! carried out elsewhere; this decides what the next one is.
use crate::command::command_outcome;
use crate::commits::{can_shorten, commit_views, short, CommitInfo, CommitView};
use crate::error::{NotchError, Result};
use crate::release::{changelog_arguments, changelog_command};
use crate::text;
use crate::version::{Version, VersionView};
use crate::workspace::{Crate, CrateView, Tool};
use vstd::prelude::*;

verus! {

/// What the digit stands for.
pub open spec fn digit_value(c: char) -> nat {
    (c as int - '0' as int) as nat
}

/// The number that the digits stand for.
pub open spec fn value(digits: Seq<char>) -> nat
    decreases digits.len(),
{
    if digits.len() == 0 {
        0
    } else {
        value(digits.drop_last()) * 10 + digit_value(digits.last())
    }
}

/// The text without a plus sign in front.
pub open spec fn unsigned(s: Seq<char>) -> Seq<char> {
    if s.len() > 0 && s[0] == '+' {
        s.drop_first()
    } else {
        s
    }
}

/// Whether every character is a digit.
pub open spec fn all_digits(s: Seq<char>) -> bool {
    forall|i: int| 0 <= i < s.len() ==> text::is_digit(#[trigger] s[i])
}

/// The number that the text stands for: at least one digit, perhaps after a plus sign.
pub open spec fn number(s: Seq<char>) -> Option<nat> {
    if unsigned(s).len() > 0 && all_digits(unsigned(s)) {
        Some(value(unsigned(s)))
    } else {
        None
    }
}

/// The number that the text stands for, where there is one and it fits.
pub fn parse_number(s: &str) -> (r: Option<usize>)
    ensures
        match r {
            Some(n) => number(s@) == Some(n as nat),
            None => number(s@) is None || number(s@)->0 > usize::MAX,
        },
{
    let chars = text::chars_of(s);
    let start: usize = if chars.len() > 0 && chars[0] == '+' {
        1
    } else {
        0
    };
    let ghost digits = s@.skip(start as int);
    assert(start == 1 ==> digits =~= s@.drop_first());
    assert(start == 0 ==> digits =~= s@);
    if start == chars.len() {
        return None;
    }
    let mut total: Option<usize> = Some(0);
    let mut i: usize = start;
    assert(digits.take(0) =~= Seq::empty());
    while i < chars.len()
        invariant
            start <= i <= chars@.len(),
            chars@ == s@,
            digits == s@.skip(start as int),
            forall|j: int| 0 <= j < i - start ==> text::is_digit(#[trigger] digits[j]),
            match total {
                Some(n) => n == value(digits.take(i - start)),
                None => value(digits.take(i - start)) > usize::MAX,
            },
            digits == unsigned(s@),
            digits.len() > 0,
        decreases chars@.len() - i,
    {
        let c = chars[i];
        let ghost k = i - start;
        assert(digits[k] == c);
        if !('0' <= c && c <= '9') {
            assert(!text::is_digit(digits[k]));
            return None;
        }
        let d: usize = (c as u32 - '0' as u32) as usize;
        assert(digits.take(k + 1).drop_last() =~= digits.take(k));
        assert(digits.take(k + 1).last() == c);
        assert(value(digits.take(k + 1)) == value(digits.take(k)) * 10 + d);
        total = match total {
            Some(n) => match n.checked_mul(10) {
                Some(m) => m.checked_add(d),
                None => None,
            },
            None => None,
        };
        i += 1;
    }
    assert(digits.take(i - start) =~= digits);
    total
}

/// The three versions that are offered: in each, one number is incremented and the others stay.
pub open spec fn offered(version: VersionView) -> Seq<VersionView> {
    seq![
        VersionView { patch: (version.patch + 1) as u64, ..version },
        VersionView { minor: (version.minor + 1) as u64, ..version },
        VersionView { major: (version.major + 1) as u64, ..version },
    ]
}

/// Whether every number of the version can still grow.
pub open spec fn can_grow(version: VersionView) -> bool {
    version.major < u64::MAX && version.minor < u64::MAX && version.patch < u64::MAX
}

/// The lines for the commits.
pub open spec fn listed(commits: Seq<CommitView>) -> Seq<Seq<char>> {
    Seq::new(commits.len(), |i: int| "  "@ + short(commits[i].sha1) + " "@ + commits[i].summary + "\n"@)
}

/// What the tool calls the crate: the builder goes by its directory.
pub open spec fn called(ccrate: CrateView, tool: Tool) -> Seq<char> {
    match tool {
        Tool::Builder => ccrate.path,
        Tool::Notch => ccrate.name,
    }
}

/// The versions to pick from.
pub open spec fn choice(ccrate: CrateView, tool: Tool) -> Seq<char> {
    "updating "@ + called(ccrate, tool) + "\nselect one: \n0) bump patch to "@ + offered(
        ccrate.version,
    )[0].text() + "\n1) bump minor to "@ + offered(ccrate.version)[1].text()
        + "\n2) bump major to "@ + offered(ccrate.version)[2].text() + "\n> "@
}

/// The question: the commits that changed the crate, which the builder leaves out, and the versions
/// to pick from.
pub open spec fn question(ccrate: CrateView, commits: Seq<CommitView>, tool: Tool) -> Seq<char> {
    match tool {
        Tool::Builder => choice(ccrate, tool),
        Tool::Notch => "Commits that changed "@ + ccrate.name + ":\n"@ + text::joined(
            listed(commits),
            Seq::empty(),
        ) + choice(ccrate, tool),
    }
}

/// The lines for the commits, together.
fn list_commits(commits: &Vec<CommitInfo>) -> (r: String)
    requires
        forall|i: int| 0 <= i < commits@.len() ==> can_shorten((#[trigger] commits@[i]).sha1@),
    ensures
        r@ == text::joined(listed(commit_views(commits@)), Seq::empty()),
{
    let ghost all = listed(commit_views(commits@));
    let mut lines: Vec<String> = Vec::new();
    let mut i: usize = 0;
    while i < commits.len()
        invariant
            i <= commits@.len(),
            all == listed(commit_views(commits@)),
            forall|j: int| 0 <= j < commits@.len() ==> can_shorten((#[trigger] commits@[j]).sha1@),
            text::texts(lines@) == all.take(i as int),
        decreases commits@.len() - i,
    {
        assert(can_shorten(commits@[i as int].sha1@));
        let mut s = "  ".to_owned();
        s.append(commits[i].short_id());
        s.append(" ");
        s.append(commits[i].summary.as_str());
        s.append("\n");
        assert(s@ == all[i as int]);
        let ghost before = text::texts(lines@);
        lines.push(s);
        assert(text::texts(lines@) =~= before.push(all[i as int]));
        assert(all.take(i + 1) =~= all.take(i as int).push(all[i as int]));
        i += 1;
    }
    assert(all.take(i as int) =~= all);
    proof {
        reveal_strlit("");
        assert(""@ =~= Seq::<char>::empty());
    }
    text::join(&lines, "")
}

/// The versions to pick from.
fn offer(ccrate: &Crate, tool: Tool) -> (r: String)
    requires
        can_grow(ccrate@.version),
    ensures
        r@ == choice(ccrate@, tool),
{
    let mut s = "updating ".to_owned();
    s.append(
        match tool {
            Tool::Builder => ccrate.path.as_str(),
            Tool::Notch => ccrate.name.as_str(),
        },
    );
    s.append("\nselect one: \n0) bump patch to ");
    s.append(ccrate.version.bump_patch().to_string().as_str());
    s.append("\n1) bump minor to ");
    s.append(ccrate.version.bump_minor().to_string().as_str());
    s.append("\n2) bump major to ");
    s.append(ccrate.version.bump_major().to_string().as_str());
    s.append("\n> ");
    s
}

/// The question to ask.
pub fn ask(ccrate: &Crate, commits: &Vec<CommitInfo>, tool: Tool) -> (r: String)
    requires
        can_grow(ccrate@.version),
        tool == Tool::Notch ==> forall|i: int|
            0 <= i < commits@.len() ==> can_shorten((#[trigger] commits@[i]).sha1@),
    ensures
        r@ == question(ccrate@, commit_views(commits@), tool),
{
    match tool {
        Tool::Builder => offer(ccrate, tool),
        Tool::Notch => {
            let mut s = "Commits that changed ".to_owned();
            s.append(ccrate.name.as_str());
            s.append(":\n");
            s.append(list_commits(commits).as_str());
            s.append(offer(ccrate, tool).as_str());
            s
        },
    }
}

/// The version that an answer picks, without its line feeds: the one of the number that it is.
pub fn answer(ccrate: &Crate, line: &str) -> (r: Result<Version>)
    requires
        can_grow(ccrate@.version),
    ensures
        ({
            let stripped = text::replaced(line@, "\n"@, Seq::empty());
            let picked = number(stripped);
            if picked is None || picked->0 > usize::MAX {
                r matches Err(NotchError::NotANumber(s)) && s@ == stripped
            } else if picked->0 > 2 {
                r matches Err(NotchError::NotAnOption(n)) && n == picked->0
            } else {
                r matches Ok(v) && v@ == offered(ccrate@.version)[picked->0 as int]
            }
        }),
{
    proof {
        reveal_strlit("\n");
        reveal_strlit("");
        assert(""@ =~= Seq::<char>::empty());
    }
    let stripped = text::replace(line, "\n", "");
    match parse_number(stripped.as_str()) {
        None => Err(NotchError::NotANumber(stripped)),
        Some(0) => Ok(ccrate.version.bump_patch()),
        Some(1) => Ok(ccrate.version.bump_minor()),
        Some(2) => Ok(ccrate.version.bump_major()),
        Some(n) => Err(NotchError::NotAnOption(n)),
    }
}

/// What an update waits for.
#[derive(Debug, PartialEq, Eq)]
pub enum Stage {
    /// The backup of the manifest.
    BackingUp { selected: Version },
    /// The contents of the manifest.
    Reading { selected: Version },
    /// The new manifest to be written.
    Writing { selected: Version },
    /// The backup to be deleted.
    Deleting { selected: Version },
    /// The backup to be put back.
    Restoring,
    /// The changelog.
    Generating,
    /// Nothing: it is over.
    Over,
}

/// What came of the last step.
#[derive(Debug, PartialEq, Eq)]
pub enum Event {
    /// The copy was made, or not.
    BackedUp { success: bool },
    /// The manifest holds this.
    Contents { text: String },
    /// The manifest was written, or not.
    Written { success: bool },
    /// The backup was deleted.
    Deleted,
    /// The backup was moved back, as far as that went.
    Restored,
    /// The changelog command ended with this code, or without one.
    Generated { code: Option<i32> },
}

/// The next step.
#[derive(Debug, PartialEq, Eq)]
pub enum Action {
    Copy { from: String, to: String },
    Read { path: String },
    Write { path: String, contents: String },
    Delete { path: String },
    Move { from: String, to: String },
    Run { command: Vec<String> },
    Finish,
    Fail { error: NotchError },
}

/// Where the crate's manifest is.
pub open spec fn manifest_path(ccrate: CrateView) -> Seq<char> {
    ccrate.path + "/Cargo.toml"@
}

/// Where the backup of the crate's manifest is.
pub open spec fn backup_path(ccrate: CrateView) -> Seq<char> {
    ccrate.path + "/Cargo.toml.bak"@
}

/// How a manifest writes a version.
pub open spec fn version_line(version: VersionView) -> Seq<char> {
    "version = \""@ + version.text() + "\""@
}

/// The manifest with the first line that writes the old version writing the new one.
pub open spec fn rewritten(contents: Seq<char>, old: VersionView, new: VersionView) -> Seq<char> {
    text::replaced_once(contents, version_line(old), version_line(new))
}

/// Where the crate's manifest is.
fn manifest_of(ccrate: &Crate) -> (r: String)
    ensures
        r@ == manifest_path(ccrate@),
{
    let mut s = ccrate.path.clone();
    s.append("/Cargo.toml");
    s
}

/// Where the backup of the crate's manifest is.
fn backup_of(ccrate: &Crate) -> (r: String)
    ensures
        r@ == backup_path(ccrate@),
{
    let mut s = ccrate.path.clone();
    s.append("/Cargo.toml.bak");
    s
}

/// How a manifest writes a version.
fn write_version(version: &Version) -> (r: String)
    ensures
        r@ == version_line(version@),
{
    let mut s = "version = \"".to_owned();
    s.append(version.to_string().as_str());
    s.append("\"");
    s
}

/// Starts the update of a crate to the selected version: its manifest is backed up.
pub fn start_update(ccrate: &Crate, selected: Version) -> (r: (Stage, Action))
    ensures
        r.0 == (Stage::BackingUp { selected }),
        r.1 matches Action::Copy { from, to } && from@ == manifest_path(ccrate@) && to@
            == backup_path(ccrate@),
{
    (
        Stage::BackingUp { selected },
        Action::Copy { from: manifest_of(ccrate), to: backup_of(ccrate) },
    )
}

/// Whether the event is the outcome of the step that the stage waits for.
pub open spec fn concludes(event: Event, stage: Stage) -> bool {
    match stage {
        Stage::BackingUp { .. } => event is BackedUp,
        Stage::Reading { .. } => event is Contents,
        Stage::Writing { .. } => event is Written,
        Stage::Deleting { .. } => event is Deleted,
        Stage::Restoring => event is Restored,
        Stage::Generating => event is Generated,
        Stage::Over => false,
    }
}

/// What follows the outcome of a step: where the update then stands, and its next step. The builder
/// is done however the changelog command ended.
pub open spec fn follows(
    ccrate: CrateView,
    commit_range: Seq<char>,
    tool: Tool,
    stage: Stage,
    event: Event,
    next: Stage,
    action: Action,
) -> bool {
    match (stage, event) {
        (Stage::BackingUp { selected }, Event::BackedUp { success }) => if success {
            &&& next == (Stage::Reading { selected })
            &&& action matches Action::Read { path } && path@ == manifest_path(ccrate)
        } else {
            next is Over && action == (Action::Fail { error: NotchError::BackupFailed })
        },
        (Stage::Reading { selected }, Event::Contents { text }) => {
            &&& next == (Stage::Writing { selected })
            &&& action matches Action::Write { path, contents } && path@ == manifest_path(ccrate)
                && contents@ == rewritten(text@, ccrate.version, selected@)
        },
        (Stage::Writing { selected }, Event::Written { success }) => if success {
            &&& next == (Stage::Deleting { selected })
            &&& action matches Action::Delete { path } && path@ == backup_path(ccrate)
        } else {
            &&& next is Restoring
            &&& action matches Action::Move { from, to } && from@ == backup_path(ccrate) && to@
                == manifest_path(ccrate)
        },
        (Stage::Deleting { selected }, Event::Deleted) => {
            &&& next is Generating
            &&& action matches Action::Run { command } && text::texts(command@)
                == changelog_arguments(selected@.text(), ccrate.path, commit_range)
        },
        (Stage::Restoring, Event::Restored) => next is Over && action == (Action::Fail {
            error: NotchError::WriteFailed,
        }),
        (Stage::Generating, Event::Generated { code }) => next is Over && action == (if tool
            == Tool::Builder || code == Some(0i32) {
            Action::Finish
        } else {
            Action::Fail { error: NotchError::CommandFailed(code) }
        }),
        _ => false,
    }
}

/// The next step of an update, given what came of the last one.
pub fn step(
    ccrate: &Crate,
    commit_range: &str,
    tool: Tool,
    stage: Stage,
    event: Event,
) -> (r: (Stage, Action))
    requires
        concludes(event, stage),
    ensures
        follows(ccrate@, commit_range@, tool, stage, event, r.0, r.1),
{
    match (stage, event) {
        (Stage::BackingUp { selected }, Event::BackedUp { success }) => if success {
            (Stage::Reading { selected }, Action::Read { path: manifest_of(ccrate) })
        } else {
            (Stage::Over, Action::Fail { error: NotchError::BackupFailed })
        },
        (Stage::Reading { selected }, Event::Contents { text }) => {
            let from = write_version(&ccrate.version.version);
            let to = write_version(&selected);
            let contents = text::replace_once(text.as_str(), from.as_str(), to.as_str());
            (Stage::Writing { selected }, Action::Write { path: manifest_of(ccrate), contents })
        },
        (Stage::Writing { selected }, Event::Written { success }) => if success {
            (Stage::Deleting { selected }, Action::Delete { path: backup_of(ccrate) })
        } else {
            (
                Stage::Restoring,
                Action::Move { from: backup_of(ccrate), to: manifest_of(ccrate) },
            )
        },
        (Stage::Deleting { selected }, Event::Deleted) => {
            let command = changelog_command(
                selected.to_string().as_str(),
                ccrate.path.as_str(),
                commit_range,
            );
            (Stage::Generating, Action::Run { command })
        },
        (Stage::Generating, Event::Generated { code }) => if tool == Tool::Builder {
            (Stage::Over, Action::Finish)
        } else {
            match command_outcome(code) {
                Ok(()) => (Stage::Over, Action::Finish),
                Err(error) => (Stage::Over, Action::Fail { error }),
            }
        },
        _ => (Stage::Over, Action::Fail { error: NotchError::WriteFailed }),
    }
}

/// What a step does to the files, if it succeeds.
pub open spec fn carried_out(action: Action, files: Map<Seq<char>, Seq<char>>) -> Map<
    Seq<char>,
    Seq<char>,
> {
    match action {
        Action::Copy { from, to } => files.insert(to@, files[from@]),
        Action::Write { path, contents } => files.insert(path@, contents@),
        Action::Delete { path } => files.remove(path@),
        Action::Move { from, to } => files.insert(to@, files[from@]).remove(from@),
        _ => files,
    }
}

/// The backup is another file than the manifest.
proof fn lemma_backup_is_apart(ccrate: CrateView)
    ensures
        backup_path(ccrate) != manifest_path(ccrate),
{
    reveal_strlit("/Cargo.toml");
    reveal_strlit("/Cargo.toml.bak");
    assert(backup_path(ccrate).len() != manifest_path(ccrate).len());
}

/// A manifest whose write failed, whatever the attempt left in it, is put back as it was, and no
/// backup stays.
pub proof fn a_failed_write_is_undone(
    ccrate: CrateView,
    commit_range: Seq<char>,
    tool: Tool,
    files: Map<Seq<char>, Seq<char>>,
    copy: Action,
    stage: Stage,
    left: Seq<char>,
    undo: Action,
)
    requires
        files.dom().contains(manifest_path(ccrate)),
        !files.dom().contains(backup_path(ccrate)),
        copy matches Action::Copy { from, to } && from@ == manifest_path(ccrate) && to@
            == backup_path(ccrate),
        stage is Writing,
        follows(
            ccrate,
            commit_range,
            tool,
            stage,
            Event::Written { success: false },
            Stage::Restoring,
            undo,
        ),
    ensures
        carried_out(undo, carried_out(copy, files).insert(manifest_path(ccrate), left)) == files,
{
    lemma_backup_is_apart(ccrate);
    let attempted = carried_out(copy, files).insert(manifest_path(ccrate), left);
    assert(carried_out(undo, attempted) =~= files);
}

/// An update that goes through leaves the manifest rewritten, every other file as it was, and no
/// backup.
pub proof fn a_finished_update_rewrites_the_manifest(
    ccrate: CrateView,
    commit_range: Seq<char>,
    tool: Tool,
    files: Map<Seq<char>, Seq<char>>,
    copy: Action,
    selected: Version,
    text: String,
    write: Action,
    delete: Action,
)
    requires
        files.dom().contains(manifest_path(ccrate)),
        !files.dom().contains(backup_path(ccrate)),
        text@ == files[manifest_path(ccrate)],
        copy matches Action::Copy { from, to } && from@ == manifest_path(ccrate) && to@
            == backup_path(ccrate),
        follows(
            ccrate,
            commit_range,
            tool,
            Stage::Reading { selected },
            Event::Contents { text },
            Stage::Writing { selected },
            write,
        ),
        follows(
            ccrate,
            commit_range,
            tool,
            Stage::Writing { selected },
            Event::Written { success: true },
            Stage::Deleting { selected },
            delete,
        ),
    ensures
        carried_out(delete, carried_out(write, carried_out(copy, files))) == files.insert(
            manifest_path(ccrate),
            rewritten(files[manifest_path(ccrate)], ccrate.version, selected@),
        ),
{
    lemma_backup_is_apart(ccrate);
    assert(carried_out(delete, carried_out(write, carried_out(copy, files))) =~= files.insert(
        manifest_path(ccrate),
        rewritten(files[manifest_path(ccrate)], ccrate.version, selected@),
    ));
}

/// A number is read back from its digits, with a plus sign before it or without, and with zeros
/// before it.
pub proof fn numbers_are_read_back(n: nat)
    ensures
        number(text::decimal(n)) == Some(n),
        number(seq!['+'] + text::decimal(n)) == Some(n),
        number(seq!['0'] + text::decimal(n)) == Some(n),
{
    let d = text::decimal(n);
    text::lemma_decimal_digits(n);
    lemma_value(n);
    assert(text::is_digit(d[0]));
    assert(unsigned(d) == d);
    assert((seq!['+'] + d).drop_first() =~= d);
    let z = seq!['0'] + d;
    assert(unsigned(z) == z);
    assert forall|i: int| 0 <= i < z.len() implies text::is_digit(#[trigger] z[i]) by {
        if i > 0 {
            assert(z[i] == d[i - 1]);
        }
    }
    lemma_zero_in_front(d);
}

/// The digits of a number are worth the number.
proof fn lemma_value(n: nat)
    ensures
        value(text::decimal(n)) == n,
    decreases n,
{
    let d = text::decimal(n);
    if n < 10 {
        assert(d.drop_last() =~= Seq::empty());
        reveal_with_fuel(value, 2);
    } else {
        lemma_value(n / 10);
        assert(d.drop_last() =~= text::decimal(n / 10));
    }
}

/// A zero in front is worth nothing.
proof fn lemma_zero_in_front(digits: Seq<char>)
    ensures
        value(seq!['0'] + digits) == value(digits),
    decreases digits.len(),
{
    let longer = seq!['0'] + digits;
    if digits.len() == 0 {
        assert(longer.drop_last() =~= Seq::empty());
        assert(longer.last() == '0');
        reveal_with_fuel(value, 2);
    } else {
        lemma_zero_in_front(digits.drop_last());
        assert(longer.drop_last() =~= seq!['0'] + digits.drop_last());
        assert(longer.last() == digits.last());
    }
}

/// A number has nothing but digits, at least one, and at most a plus sign before them.
pub proof fn only_digits_are_numbers(s: Seq<char>)
    ensures
        number(s) is Some <==> {
            ||| s.len() > 0 && forall|i: int| 0 <= i < s.len() ==> '0' <= #[trigger] s[i] <= '9'
            ||| s.len() > 1 && s[0] == '+' && forall|i: int|
                1 <= i < s.len() ==> '0' <= #[trigger] s[i] <= '9'
        },
{
    let u = unsigned(s);
    if number(s) is Some {
        if s[0] == '+' {
            assert forall|i: int| 1 <= i < s.len() implies '0' <= #[trigger] s[i] <= '9' by {
                assert(s[i] == u[i - 1]);
                assert(text::is_digit(u[i - 1]));
            }
        } else {
            assert forall|i: int| 0 <= i < s.len() implies '0' <= #[trigger] s[i] <= '9' by {
                assert(text::is_digit(u[i]));
            }
        }
    }
    if s.len() > 0 && forall|i: int| 0 <= i < s.len() ==> '0' <= #[trigger] s[i] <= '9' {
        assert('0' <= s[0]);
        assert(u == s);
    }
    if s.len() > 1 && s[0] == '+' && forall|i: int|
        1 <= i < s.len() ==> '0' <= #[trigger] s[i] <= '9' {
        assert forall|i: int| 0 <= i < u.len() implies text::is_digit(#[trigger] u[i]) by {
            assert(u[i] == s[i + 1]);
        }
    }
}

/// Three versions are offered, each of which raises one number of the current one by one: the last,
/// the middle and the first, in this order. Everything else stays.
pub proof fn each_offer_raises_one_number(version: VersionView)
    requires
        can_grow(version),
    ensures
        offered(version).len() == 3,
        forall|i: int|
            0 <= i < 3 ==> {
                let v = #[trigger] offered(version)[i];
                &&& v.major == version.major + (if i == 2 {
                    1int
                } else {
                    0
                })
                &&& v.minor == version.minor + (if i == 1 {
                    1int
                } else {
                    0
                })
                &&& v.patch == version.patch + (if i == 0 {
                    1int
                } else {
                    0
                })
                &&& v.pre == version.pre
                &&& v.build == version.build
                &&& version.numbers_less(v)
            },
{
}

/// The question offers all three versions, each behind its number.
pub proof fn the_question_offers_every_version(
    ccrate: CrateView,
    commits: Seq<CommitView>,
    tool: Tool,
)
    ensures
        exists|a: Seq<char>, b: Seq<char>|
            question(ccrate, commits, tool) == #[trigger] (a + ("\n0) bump patch to "@ + offered(
                ccrate.version,
            )[0].text() + "\n1) bump minor to "@ + offered(ccrate.version)[1].text()
                + "\n2) bump major to "@ + offered(ccrate.version)[2].text()) + b),
{
    reveal_strlit("\nselect one: \n0) bump patch to ");
    reveal_strlit("\nselect one: ");
    reveal_strlit("\n0) bump patch to ");
    let (p, m, j) = (
        offered(ccrate.version)[0].text(),
        offered(ccrate.version)[1].text(),
        offered(ccrate.version)[2].text(),
    );
    let middle = "\n0) bump patch to "@ + p + "\n1) bump minor to "@ + m + "\n2) bump major to "@ + j;
    let front = "updating "@ + called(ccrate, tool) + "\nselect one: "@;
    assert("\nselect one: \n0) bump patch to "@ =~= "\nselect one: "@ + "\n0) bump patch to "@);
    assert(choice(ccrate, tool) =~= front + middle + "\n> "@);
    match tool {
        Tool::Builder => {},
        Tool::Notch => {
            let head = "Commits that changed "@ + ccrate.name + ":\n"@ + text::joined(
                listed(commits),
                Seq::empty(),
            );
            assert(question(ccrate, commits, tool) =~= (head + front) + middle + "\n> "@);
        },
    }
}

/// The question names the crate and lists every commit, each on a line of its own.
pub proof fn the_question_lists_every_commit(ccrate: CrateView, commits: Seq<CommitView>, i: int)
    requires
        0 <= i < commits.len(),
    ensures
        exists|a: Seq<char>, b: Seq<char>|
            question(ccrate, commits, Tool::Notch) == #[trigger] (a + ("  "@ + short(
                commits[i].sha1,
            ) + " "@ + commits[i].summary + "\n"@) + b),
{
    let lines = text::joined(listed(commits), Seq::empty());
    let head = "Commits that changed "@ + ccrate.name + ":\n"@;
    let asked = question(ccrate, commits, Tool::Notch);
    assert(asked =~= head + lines + choice(ccrate, Tool::Notch));
    text::every_part_is_joined(listed(commits), Seq::empty(), i);
    let wanted = "  "@ + short(commits[i].sha1) + " "@ + commits[i].summary + "\n"@;
    assert(listed(commits)[i] == wanted);
    text::lemma_inside(asked, lines, wanted);
}

/// Of a manifest, the first line that states the old version then states the new one, and nothing
/// else changes.
pub proof fn the_first_version_line_is_rewritten(
    a: Seq<char>,
    b: Seq<char>,
    old_version: VersionView,
    new_version: VersionView,
)
    requires
        forall|k: int|
            0 <= k < a.len() ==> !version_line(old_version).is_prefix_of(
                #[trigger] (a + version_line(old_version) + b).skip(k),
            ),
    ensures
        rewritten(a + version_line(old_version) + b, old_version, new_version) == a
            + "version = \""@ + new_version.text() + "\""@ + b,
{
    reveal_strlit("\"");
    assert(version_line(old_version).len() > 0);
    text::the_first_occurrence_is_replaced(
        a,
        version_line(old_version),
        b,
        version_line(new_version),
    );
    assert(a + version_line(new_version) + b =~= a + "version = \""@ + new_version.text() + "\""@
        + b);
}

/// The builder is done once the changelog generator has ended, whatever became of it; notch is done
/// if it ended with zero, and fails with its exit code otherwise.
pub proof fn a_failed_changelog_fails_notch_alone(
    ccrate: CrateView,
    commit_range: Seq<char>,
    tool: Tool,
    code: Option<i32>,
    next: Stage,
    action: Action,
)
    requires
        follows(
            ccrate,
            commit_range,
            tool,
            Stage::Generating,
            Event::Generated { code },
            next,
            action,
        ),
    ensures
        next is Over,
        action == Action::Finish <==> !(tool == Tool::Notch && code != Some(0i32)),
        tool == Tool::Notch && code != Some(0i32) ==> action == (Action::Fail {
            error: NotchError::CommandFailed(code),
        }),
{
}

} // verus!
