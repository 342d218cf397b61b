//! What a release run decides before it writes anything.
use crate::auto::{adjust_for_v0, changed_views, select, selected, ChangedView};
use crate::bump::Bump;
use crate::commits::{can_shorten, commit_views, short, CommitInfo, CommitView};
use crate::config::{BumpsConfig, BumpsView, Config, V0Style};
use crate::error::{NotchError, Result};
use crate::fsm::{biggest_bump, NotchFsm};
use crate::order::{in_order, keys, Keyed};
use crate::package::{joined_path, Package, PackageView};
use crate::pr::ids_can_shorten;
use crate::text;
use crate::tui::{
    at_least, picked_rows_are_updated_one_by_one, picked_updates, App, PackageItem,
};
use crate::version::{Version, VersionView};
use vstd::prelude::*;

verus! {

/// A package together with the version that it gets and the commits that call for it.
#[derive(Debug)]
pub struct UpdatedCrate {
    pub package: Package,
    pub new_version: Version,
    pub commits: Vec<CommitInfo>,
}

/// What an `UpdatedCrate` holds.
#[verifier::ext_equal]
pub struct UpdateView {
    pub package: PackageView,
    pub new_version: VersionView,
    pub commits: Seq<CommitView>,
}

impl View for UpdatedCrate {
    type V = UpdateView;

    open spec fn view(&self) -> UpdateView {
        UpdateView {
            package: self.package@,
            new_version: self.new_version@,
            commits: commit_views(self.commits@),
        }
    }
}

impl Keyed for UpdatedCrate {
    open spec fn key(&self) -> Seq<char> {
        self.package.name@
    }

    fn key_text(&self) -> (r: &str) {
        self.package.name.as_str()
    }
}

/// What the updates hold.
pub open spec fn update_views(updates: Seq<UpdatedCrate>) -> Seq<UpdateView> {
    Seq::new(updates.len(), |i: int| updates[i]@)
}

/// The changed packages, with their commits, under one configuration.
pub open spec fn changes(
    changed: Seq<(Package, Vec<CommitInfo>)>,
    rules: BumpsView,
) -> Seq<ChangedView> {
    Seq::new(
        changed.len(),
        |i: int|
            ChangedView {
                package: changed[i].0@,
                commits: commit_views(changed[i].1@),
                rules,
            },
    )
}

/// What a release run does after it has found the changed packages.
pub enum PlanStep {
    /// Nothing changed, or every commit is skipped: there is nothing to release.
    Nothing,
    /// Release these updates.
    Release(Vec<UpdatedCrate>),
    /// Let the user choose.
    Ask(App),
}

/// Whether every number of the version can still grow.
pub open spec fn can_grow(version: VersionView) -> bool {
    version.major < u64::MAX && version.minor < u64::MAX && version.patch < u64::MAX
}

/// Whether the versions that planning works out exist: without asking only the one that the commits
/// call for, otherwise all that are offered.
pub open spec fn can_be_planned(change: ChangedView, style: V0Style, auto: bool) -> bool {
    if auto {
        change.fits(style)
    } else {
        can_grow(change.package.version)
    }
}

/// Whether the number that the bump increments can still grow.
fn has_room(version: &Version, bump: Bump) -> (r: bool)
    ensures
        r == bump.fits(version@),
{
    match bump {
        Bump::Patch => version.patch() < u64::MAX,
        Bump::Minor => version.minor() < u64::MAX,
        Bump::Major => version.major() < u64::MAX,
    }
}

/// Whether the versions that planning works out for one package exist.
fn can_plan_package(
    package: &Package,
    commits: &Vec<CommitInfo>,
    bumps: &BumpsConfig,
    auto: bool,
) -> (r: bool)
    ensures
        r == can_be_planned(
            ChangedView { package: package@, commits: commit_views(commits@), rules: bumps@ },
            bumps.v0,
            auto,
        ),
{
    let version = &package.version;
    if !auto {
        return has_room(version, Bump::Major) && has_room(version, Bump::Minor) && has_room(
            version,
            Bump::Patch,
        );
    }
    let mut fsm = NotchFsm::new(bumps.clone());
    fsm.handle_commits(commits.as_slice());
    assert(Seq::<CommitView>::empty() + commit_views(commits@) =~= commit_views(commits@));
    match fsm.suggested_bump() {
        Some(raw) => has_room(version, adjust_for_v0(raw, version.major(), bumps.v0)),
        None => true,
    }
}

/// Whether the versions that planning works out exist, for all of the packages.
pub fn can_plan(
    changed: &Vec<(Package, Vec<CommitInfo>)>,
    bumps: &BumpsConfig,
    auto: bool,
) -> (r: bool)
    ensures
        r == forall|i: int|
            0 <= i < changed@.len() ==> can_be_planned(
                #[trigger] changes(changed@, bumps@)[i],
                bumps.v0,
                auto,
            ),
{
    let ghost all = changes(changed@, bumps@);
    let mut i: usize = 0;
    while i < changed.len()
        invariant
            i <= changed@.len(),
            all == changes(changed@, bumps@),
            forall|j: int|
                0 <= j < i ==> can_be_planned(#[trigger] all[j], bumps.v0, auto),
        decreases changed@.len() - i,
    {
        if !can_plan_package(&changed[i].0, &changed[i].1, bumps, auto) {
            assert(!can_be_planned(all[i as int], bumps.v0, auto));
            return false;
        }
        i += 1;
    }
    true
}

/// Whether the row is the one for a changed package: it offers the bumps of its version, and the
/// one that its commits call for is picked.
pub open spec fn is_row_for(row: PackageItem, change: ChangedView) -> bool {
    &&& row.package@ == change.package
    &&& commit_views(row.commits@) == change.commits
    &&& row.selected == biggest_bump(change.commits, change.rules)
    &&& forall|bump: Bump| #[trigger]
        row.version_at(bump) == at_least(
            bump.applied(change.package.version),
            change.package.version,
        )
}

/// Builds one state per changed package and decides from there: without asking the suggestions are
/// accepted, otherwise they are what the screen starts with.
pub fn plan(changed: Vec<(Package, Vec<CommitInfo>)>, bumps: &BumpsConfig, auto: bool) -> (r:
    PlanStep)
    requires
        forall|i: int|
            0 <= i < changed@.len() ==> can_be_planned(
                #[trigger] changes(changed@, bumps@)[i],
                bumps.v0,
                auto,
            ),
    ensures
        ({
            let all = changes(changed@, bumps@);
            let updates = selected(all, bumps.v0);
            match r {
                PlanStep::Nothing => all.len() == 0 || (auto && updates.len() == 0),
                PlanStep::Release(u) => {
                    &&& auto
                    &&& u@.len() > 0
                    &&& update_views(u@).to_multiset() == updates.to_multiset()
                    &&& in_order(keys(u@))
                },
                PlanStep::Ask(app) => {
                    &&& !auto
                    &&& all.len() > 0
                    &&& app.focused == 0
                    &&& app.commit_scroll == 0
                    &&& in_order(keys(app.packages@))
                    &&& exists|rows: Seq<PackageItem>|
                        {
                            &&& #[trigger] rows.to_multiset() == app.packages@.to_multiset()
                            &&& rows.len() == all.len()
                            &&& forall|i: int|
                                0 <= i < rows.len() ==> is_row_for(#[trigger] rows[i], all[i])
                        }
                },
            }
        }),
{
    let ghost pairs = changed@;
    let ghost all = changes(changed@, bumps@);
    if changed.len() == 0 {
        return PlanStep::Nothing;
    }
    let mut fsms: Vec<(Package, NotchFsm)> = Vec::new();
    for pair in it: changed
        invariant
            it.seq() == pairs,
            all == changes(pairs, bumps@),
            changed_views(fsms@) == all.take(it.index() as int),
    {
        let (package, commits) = pair;
        let ghost k = it.index() as int;
        let ghost before = changed_views(fsms@);
        let mut fsm = NotchFsm::new(bumps.clone());
        fsm.handle_commits(commits.as_slice());
        assert(Seq::<CommitView>::empty() + commit_views(commits@) =~= commit_views(commits@));
        fsms.push((package, fsm));
        assert(changed_views(fsms@) =~= before.push(all[k]));
        assert(all.take(k + 1) =~= all.take(k).push(all[k]));
    }
    assert(all.take(all.len() as int) =~= all);
    if auto {
        assert forall|i: int| 0 <= i < all.len() implies (#[trigger] changed_views(fsms@)[i]).fits(
            bumps.v0,
        ) by {
            assert(can_be_planned(all[i], bumps.v0, auto));
        }
        let updates = select(fsms, bumps);
        proof {
            vstd::seq_lib::to_multiset_len(update_views(updates@));
            vstd::seq_lib::to_multiset_len(selected(all, bumps.v0));
        }
        if updates.len() == 0 {
            PlanStep::Nothing
        } else {
            PlanStep::Release(updates)
        }
    } else {
        let ghost states = fsms@;
        let mut rows: Vec<PackageItem> = Vec::new();
        for pair in it: fsms
            invariant
                it.seq() == states,
                all == changed_views(states),
                forall|i: int|
                    0 <= i < all.len() ==> can_be_planned(#[trigger] all[i], bumps.v0, false),
                rows@.len() == it.index(),
                forall|i: int| 0 <= i < rows@.len() ==> is_row_for(#[trigger] rows@[i], all[i]),
        {
            let (package, fsm) = pair;
            assert(can_be_planned(all[it.index() as int], bumps.v0, false));
            rows.push(PackageItem::suggested(package, &fsm));
        }
        PlanStep::Ask(App::sorted(rows))
    }
}

/// How a file differs from what is committed, in the index and in the working tree.
#[derive(Debug, Clone, Copy)]
pub struct FileStatus {
    pub index_new: bool,
    pub index_modified: bool,
    pub index_deleted: bool,
    pub index_renamed: bool,
    pub index_typechange: bool,
    pub worktree_new: bool,
    pub worktree_modified: bool,
    pub worktree_deleted: bool,
    pub worktree_renamed: bool,
    pub worktree_typechange: bool,
}

impl FileStatus {
    /// Whether the file differs in any way.
    pub open spec fn differs(self) -> bool {
        ||| self.index_new
        ||| self.index_modified
        ||| self.index_deleted
        ||| self.index_renamed
        ||| self.index_typechange
        ||| self.worktree_new
        ||| self.worktree_modified
        ||| self.worktree_deleted
        ||| self.worktree_renamed
        ||| self.worktree_typechange
    }
}

/// Whether a file has changes that are not committed. One that does not exist has none.
pub open spec fn is_dirty(status: Option<FileStatus>) -> bool {
    status matches Some(s) && s.differs()
}

/// Whether a file has changes that are not committed.
pub fn is_file_dirty(status: Option<FileStatus>) -> (r: bool)
    ensures
        r == is_dirty(status),
{
    match status {
        Some(s) => s.index_new || s.index_modified || s.index_deleted || s.index_renamed
            || s.index_typechange || s.worktree_new || s.worktree_modified || s.worktree_deleted
            || s.worktree_renamed || s.worktree_typechange,
        None => false,
    }
}

/// The changelog of the package.
pub open spec fn changelog_path(package: PackageView) -> Seq<char> {
    joined_path(package.path, "CHANGELOG.md"@)
}

/// Refuses a package whose manifest or changelog has changes that are not committed.
pub fn ensure_writable(
    update: &UpdatedCrate,
    manifest: Option<FileStatus>,
    changelog: Option<FileStatus>,
) -> (r: Result<()>)
    ensures
        if is_dirty(manifest) {
            r matches Err(NotchError::DirtyFile(f)) && f@ == update.package.manifest@
        } else if is_dirty(changelog) {
            r matches Err(NotchError::DirtyFile(f)) && f@ == changelog_path(update.package@)
        } else {
            r is Ok
        },
{
    if is_file_dirty(manifest) {
        return Err(NotchError::DirtyFile(update.package.manifest.clone()));
    }
    if is_file_dirty(changelog) {
        return Err(NotchError::DirtyFile(update.package.join("CHANGELOG.md")));
    }
    Ok(())
}

/// Refuses the whole release if any package's manifest or changelog has changes that are not
/// committed, before any of them is written.
pub fn ensure_all_writable(
    updates: &Vec<UpdatedCrate>,
    statuses: &Vec<(Option<FileStatus>, Option<FileStatus>)>,
) -> (r: Result<()>)
    requires
        statuses@.len() == updates@.len(),
    ensures
        r is Ok <==> forall|i: int|
            0 <= i < statuses@.len() ==> !is_dirty((#[trigger] statuses@[i]).0) && !is_dirty(
                statuses@[i].1,
            ),
        r matches Err(e) ==> exists|i: int|
            {
                &&& 0 <= i < statuses@.len()
                &&& forall|j: int|
                    0 <= j < i ==> !is_dirty((#[trigger] statuses@[j]).0) && !is_dirty(
                        statuses@[j].1,
                    )
                &&& e matches NotchError::DirtyFile(f) && f@ == if is_dirty(
                    (#[trigger] statuses@[i]).0,
                ) {
                    updates@[i].package.manifest@
                } else {
                    changelog_path(updates@[i].package@)
                }
                &&& is_dirty(statuses@[i].0) || is_dirty(statuses@[i].1)
            },
{
    let mut i: usize = 0;
    while i < updates.len()
        invariant
            i <= updates@.len() == statuses@.len(),
            forall|j: int|
                0 <= j < i ==> !is_dirty((#[trigger] statuses@[j]).0) && !is_dirty(
                    statuses@[j].1,
                ),
        decreases updates@.len() - i,
    {
        match ensure_writable(&updates[i], statuses[i].0, statuses[i].1) {
            Ok(_) => {},
            Err(e) => {
                assert(is_dirty(statuses@[i as int].0) || is_dirty(statuses@[i as int].1));
                return Err(e);
            },
        }
        i += 1;
    }
    Ok(())
}

/// Everything that a release run decided before it wrote anything.
#[derive(Debug)]
pub struct ReleasePlan {
    pub updates: Vec<UpdatedCrate>,
    /// The commit range to build the changelog from.
    pub changelog_range: String,
}

/// What is said of a commit.
pub open spec fn commit_text(commit: CommitView) -> Seq<char> {
    "    "@ + short(commit.sha1) + " "@ + commit.summary + "\n"@
}

/// What is said of commits.
pub open spec fn commit_texts(commits: Seq<CommitView>) -> Seq<Seq<char>> {
    Seq::new(commits.len(), |i: int| commit_text(commits[i]))
}

/// What is said of an update: the package and its versions, its commits, and the files that would
/// be written.
pub open spec fn update_text(update: UpdateView) -> Seq<char> {
    "  "@ + update.package.name + " "@ + update.package.version.text() + " -> "@
        + update.new_version.text() + "\n"@ + text::joined(
        commit_texts(update.commits),
        Seq::empty(),
    ) + "    would write "@ + update.package.manifest + " and "@ + changelog_path(update.package)
        + "\n\n"@
}

/// What is said of updates.
pub open spec fn update_texts(updates: Seq<UpdateView>) -> Seq<Seq<char>> {
    Seq::new(updates.len(), |i: int| update_text(updates[i]))
}

/// What a dry run prints.
pub open spec fn plan_text(updates: Seq<UpdateView>) -> Seq<char> {
    "dry run — nothing written, nothing committed\n\n"@ + text::joined(
        update_texts(updates),
        Seq::empty(),
    )
}

/// What is said of an update.
fn describe_update(update: &UpdatedCrate) -> (r: String)
    requires
        forall|j: int|
            0 <= j < update.commits@.len() ==> can_shorten((#[trigger] update.commits@[j]).sha1@),
    ensures
        r@ == update_text(update@),
{
    let ghost all = commit_texts(commit_views(update.commits@));
    let mut lines: Vec<String> = Vec::new();
    let mut i: usize = 0;
    while i < update.commits.len()
        invariant
            i <= update.commits@.len(),
            all == commit_texts(commit_views(update.commits@)),
            forall|j: int|
                0 <= j < update.commits@.len() ==> can_shorten(
                    (#[trigger] update.commits@[j]).sha1@,
                ),
            text::texts(lines@) == all.take(i as int),
        decreases update.commits@.len() - i,
    {
        assert(can_shorten(update.commits@[i as int].sha1@));
        let mut s = "    ".to_owned();
        s.append(update.commits[i].short_id());
        s.append(" ");
        s.append(update.commits[i].summary.as_str());
        s.append("\n");
        let ghost before = text::texts(lines@);
        assert(s@ == all[i as int]);
        lines.push(s);
        assert(text::texts(lines@) =~= before.push(all[i as int]));
        assert(all.take(i + 1) =~= all.take(i as int).push(all[i as int]));
        i += 1;
    }
    assert(all.take(i as int) =~= all);
    proof {
        reveal_strlit("");
        assert(""@ =~= Seq::<char>::empty());
    }
    let mut s = "  ".to_owned();
    s.append(update.package.name.as_str());
    s.append(" ");
    s.append(update.package.version.to_string().as_str());
    s.append(" -> ");
    s.append(update.new_version.to_string().as_str());
    s.append("\n");
    s.append(text::join(&lines, "").as_str());
    s.append("    would write ");
    s.append(update.package.manifest.as_str());
    s.append(" and ");
    s.append(update.package.join("CHANGELOG.md").as_str());
    s.append("\n\n");
    s
}

/// What a dry run prints: what would be written, and because of which commits.
pub fn describe(plan: &ReleasePlan) -> (r: String)
    requires
        ids_can_shorten(plan.updates@),
    ensures
        r@ == plan_text(update_views(plan.updates@)),
{
    let ghost views = update_views(plan.updates@);
    let ghost all = update_texts(views);
    let mut parts: Vec<String> = Vec::new();
    let mut i: usize = 0;
    while i < plan.updates.len()
        invariant
            i <= plan.updates@.len(),
            ids_can_shorten(plan.updates@),
            views == update_views(plan.updates@),
            all == update_texts(views),
            text::texts(parts@) == all.take(i as int),
        decreases plan.updates@.len() - i,
    {
        assert forall|j: int| 0 <= j < plan.updates@[i as int].commits@.len() implies can_shorten(
            (#[trigger] plan.updates@[i as int].commits@[j]).sha1@,
        ) by {}
        let s = describe_update(&plan.updates[i]);
        let ghost before = text::texts(parts@);
        assert(s@ == all[i as int]);
        parts.push(s);
        assert(text::texts(parts@) =~= before.push(all[i as int]));
        assert(all.take(i + 1) =~= all.take(i as int).push(all[i as int]));
        i += 1;
    }
    assert(all.take(i as int) =~= all);
    proof {
        reveal_strlit("");
        assert(""@ =~= Seq::<char>::empty());
    }
    let mut s = "dry run — nothing written, nothing committed\n\n".to_owned();
    s.append(text::join(&parts, "").as_str());
    s
}

/// What a run does with its plan.
#[derive(Debug)]
pub enum RunStep {
    /// There is nothing to release.
    Stop,
    /// Print this, and write nothing.
    Print(String),
    /// Write the plan out.
    Apply(ReleasePlan),
}

/// A dry run stops at the plan and prints it; any other run writes it out.
pub fn run(plan: Option<ReleasePlan>, dry_run: bool) -> (r: RunStep)
    requires
        plan matches Some(p) ==> ids_can_shorten(p.updates@),
    ensures
        match plan {
            None => r == RunStep::Stop,
            Some(p) => if dry_run {
                r matches RunStep::Print(s) && s@ == plan_text(update_views(p.updates@))
            } else {
                r == RunStep::Apply(p)
            },
        },
{
    match plan {
        None => RunStep::Stop,
        Some(plan) => if dry_run {
            RunStep::Print(describe(&plan))
        } else {
            RunStep::Apply(plan)
        },
    }
}

/// What a run does with its plan when it also opens a pull request. The token is asked for first,
/// also by a dry run: a plan that could not be carried out is of no use.
pub fn run_with_pr(
    config: &Config,
    plan: Option<ReleasePlan>,
    dry_run: bool,
) -> (r: Result<RunStep>)
    requires
        plan matches Some(p) ==> ids_can_shorten(p.updates@),
    ensures
        if !config.repo.has_token {
            r == Err::<RunStep, NotchError>(NotchError::NoToken)
        } else {
            match plan {
                None => r == Ok::<RunStep, NotchError>(RunStep::Stop),
                Some(p) => if dry_run {
                    r matches Ok(RunStep::Print(s)) && s@ == plan_text(update_views(p.updates@))
                        + "would then push the current branch to "@ + config.release@.remote
                        + " and open a release PR against "@ + config.release@.default_branch
                        + "\n"@
                } else {
                    r == Ok::<RunStep, NotchError>(RunStep::Apply(p))
                },
            }
        },
{
    if !config.repo.has_token {
        return Err(NotchError::NoToken);
    }
    match run(plan, dry_run) {
        RunStep::Print(text) => {
            let mut s = text;
            s.append("would then push the current branch to ");
            s.append(config.release.remote.as_str());
            s.append(" and open a release PR against ");
            s.append(config.release.default_branch.as_str());
            s.append("\n");
            Ok(RunStep::Print(s))
        },
        step => Ok(step),
    }
}

/// The command that puts a release's entry in front of a package's changelog.
pub open spec fn changelog_arguments(
    tag: Seq<char>,
    package_path: Seq<char>,
    commit_range: Seq<char>,
) -> Seq<Seq<char>> {
    seq![
        "git"@,
        "cliff"@,
        "--tag"@,
        tag,
        "--prepend"@,
        package_path + "/CHANGELOG.md"@,
        commit_range,
    ]
}

/// The command that puts a release's entry in front of a package's changelog.
pub fn changelog_command(tag: &str, package_path: &str, commit_range: &str) -> (r: Vec<String>)
    ensures
        text::texts(r@) == changelog_arguments(tag@, package_path@, commit_range@),
{
    let mut changelog = package_path.to_owned();
    changelog.append("/CHANGELOG.md");
    let r = vec![
        "git".to_owned(),
        "cliff".to_owned(),
        "--tag".to_owned(),
        tag.to_owned(),
        "--prepend".to_owned(),
        changelog,
        commit_range.to_owned(),
    ];
    assert(text::texts(r@) =~= changelog_arguments(tag@, package_path@, commit_range@));
    r
}

/// Every changed package takes part in the plan, in its place, with all its commits and the rules.
pub proof fn every_changed_package_takes_part(
    changed: Seq<(Package, Vec<CommitInfo>)>,
    rules: BumpsView,
    i: int,
)
    requires
        0 <= i < changed.len(),
    ensures
        changes(changed, rules).len() == changed.len(),
        changes(changed, rules)[i].package == changed[i].0@,
        changes(changed, rules)[i].rules == rules,
        changes(changed, rules)[i].commits.len() == changed[i].1@.len(),
        forall|j: int|
            0 <= j < changed[i].1@.len() ==> #[trigger] changes(changed, rules)[i].commits[j]
                == changed[i].1@[j]@,
{
}

/// A package can be asked about exactly if every bump of it is still a version.
pub proof fn what_can_grow_can_take_every_bump(version: VersionView)
    ensures
        can_grow(version) <==> forall|bump: Bump| #[trigger] bump.fits(version),
{
    if forall|bump: Bump| #[trigger] bump.fits(version) {
        assert(Bump::Patch.fits(version) && Bump::Minor.fits(version) && Bump::Major.fits(version));
    }
}

/// A file is clean exactly if nothing about it differs, neither in the index nor in the worktree;
/// one that git does not know is clean.
pub proof fn clean_files_have_no_change(status: FileStatus)
    ensures
        is_dirty(Some(status)) <==> status != (FileStatus {
            index_new: false,
            index_modified: false,
            index_deleted: false,
            index_renamed: false,
            index_typechange: false,
            worktree_new: false,
            worktree_modified: false,
            worktree_deleted: false,
            worktree_renamed: false,
            worktree_typechange: false,
        }),
        !is_dirty(None),
{
}

/// A dry run tells of every update: the package, the version that it leaves, the version that it
/// comes to, and the files that would be written.
pub proof fn the_plan_tells_of_every_update(updates: Seq<UpdateView>, i: int)
    requires
        0 <= i < updates.len(),
    ensures
        exists|a: Seq<char>, b: Seq<char>|
            plan_text(updates) == #[trigger] (a + ("  "@ + updates[i].package.name + " "@
                + updates[i].package.version.text() + " -> "@ + updates[i].new_version.text()
                + "\n"@) + b),
        exists|a: Seq<char>, b: Seq<char>|
            plan_text(updates) == #[trigger] (a + ("    would write "@ + updates[i].package.manifest
                + " and "@ + joined_path(updates[i].package.path, "CHANGELOG.md"@)) + b),
{
    let update = updates[i];
    let own = update_text(update);
    lemma_part_of_plan(updates, i);
    let line = "  "@ + update.package.name + " "@ + update.package.version.text() + " -> "@
        + update.new_version.text() + "\n"@;
    let lines = text::joined(commit_texts(update.commits), Seq::empty());
    let files = "    would write "@ + update.package.manifest + " and "@ + joined_path(
        update.package.path,
        "CHANGELOG.md"@,
    );
    assert(own =~= Seq::<char>::empty() + line + (lines + files + "\n\n"@));
    assert(own =~= (line + lines) + files + "\n\n"@);
    text::lemma_inside(plan_text(updates), own, line);
    text::lemma_inside(plan_text(updates), own, files);
}

/// A dry run lists every commit of every update.
pub proof fn the_plan_lists_every_commit(updates: Seq<UpdateView>, i: int, j: int)
    requires
        0 <= i < updates.len(),
        0 <= j < updates[i].commits.len(),
    ensures
        exists|a: Seq<char>, b: Seq<char>|
            plan_text(updates) == #[trigger] (a + ("    "@ + short(updates[i].commits[j].sha1)
                + " "@ + updates[i].commits[j].summary + "\n"@) + b),
{
    let update = updates[i];
    let own = update_text(update);
    lemma_part_of_plan(updates, i);
    let line = "  "@ + update.package.name + " "@ + update.package.version.text() + " -> "@
        + update.new_version.text() + "\n"@;
    let lines = text::joined(commit_texts(update.commits), Seq::empty());
    let files = "    would write "@ + update.package.manifest + " and "@ + joined_path(
        update.package.path,
        "CHANGELOG.md"@,
    );
    let wanted = "    "@ + short(update.commits[j].sha1) + " "@ + update.commits[j].summary + "\n"@;
    assert(own =~= line + lines + (files + "\n\n"@));
    text::lemma_inside(plan_text(updates), own, lines);
    text::every_part_is_joined(commit_texts(update.commits), Seq::empty(), j);
    assert(commit_texts(update.commits)[j] == wanted);
    text::lemma_inside(plan_text(updates), lines, wanted);
}

/// The text for each update stands in the text for the plan.
proof fn lemma_part_of_plan(updates: Seq<UpdateView>, i: int)
    requires
        0 <= i < updates.len(),
    ensures
        exists|a: Seq<char>, b: Seq<char>|
            plan_text(updates) == #[trigger] (a + update_text(updates[i]) + b),
{
    let parts = update_texts(updates);
    let all = text::joined(parts, Seq::empty());
    text::every_part_is_joined(parts, Seq::empty(), i);
    let head = "dry run — nothing written, nothing committed\n\n"@;
    assert(plan_text(updates) =~= head + all + Seq::<char>::empty());
    text::lemma_inside(plan_text(updates), all, update_text(updates[i]));
}

/// A row left as it is suggested updates the package by the bump that its commits call for, with
/// all its commits; one without a suggestion updates nothing.
pub proof fn suggested_rows_update_by_their_commits(row: PackageItem, change: ChangedView)
    requires
        is_row_for(row, change),
    ensures
        picked_updates(seq![row]) == (match biggest_bump(change.commits, change.rules) {
            Some(bump) => seq![
                UpdateView {
                    package: change.package,
                    new_version: at_least(
                        bump.applied(change.package.version),
                        change.package.version,
                    ),
                    commits: change.commits,
                },
            ],
            None => Seq::empty(),
        }),
        forall|bump: Bump| #[trigger]
            row.version_at(bump) == at_least(
                bump.applied(change.package.version),
                change.package.version,
            ),
{
    picked_rows_are_updated_one_by_one(Seq::empty(), Seq::empty());
    match row.selected {
        Some(bump) => {
            assert(row.version_at(bump) == at_least(
                bump.applied(change.package.version),
                change.package.version,
            ));
        },
        None => {},
    }
}

} // verus!
