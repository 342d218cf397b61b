//! Writing a release out: in which order, what is bumped, and which files end up in the commit.
use crate::package::{joined_path, Package, PackageView};
use crate::release::{changelog_path, update_views, UpdateView, UpdatedCrate};
use crate::text;
use crate::version::{Version, VersionView};
use vstd::prelude::*;

verus! {

/// What the bumps are.
pub open spec fn bump_views(bumps: Seq<(Package, Version)>) -> Seq<(PackageView, VersionView)> {
    Seq::new(bumps.len(), |i: int| (bumps[i].0@, bumps[i].1@))
}

/// The bumps that the updates ask for.
pub open spec fn wanted_bumps(updates: Seq<UpdateView>) -> Seq<(PackageView, VersionView)> {
    Seq::new(updates.len(), |i: int| (updates[i].package, updates[i].new_version))
}

/// The bumps that the updates ask for.
pub fn bumps_of(updates: &Vec<UpdatedCrate>) -> (r: Vec<(Package, Version)>)
    ensures
        bump_views(r@) == wanted_bumps(update_views(updates@)),
{
    let ghost all = wanted_bumps(update_views(updates@));
    let mut bumps: Vec<(Package, Version)> = Vec::new();
    let mut i: usize = 0;
    while i < updates.len()
        invariant
            i <= updates@.len(),
            all == wanted_bumps(update_views(updates@)),
            bump_views(bumps@) == all.take(i as int),
        decreases updates@.len() - i,
    {
        let ghost before = bump_views(bumps@);
        bumps.push((updates[i].package.clone(), updates[i].new_version.clone()));
        assert(bump_views(bumps@) =~= before.push(all[i as int]));
        assert(all.take(i + 1) =~= all.take(i as int).push(all[i as int]));
        i += 1;
    }
    assert(all.take(i as int) =~= all);
    bumps
}

/// The changelogs of the updated packages.
pub open spec fn changelogs(updates: Seq<UpdateView>) -> Seq<Seq<char>> {
    Seq::new(updates.len(), |i: int| changelog_path(updates[i].package))
}

/// The files to commit, exactly those that were written: the manifests, the changelogs of the
/// updated packages, and the lockfile.
pub fn touched_files(
    manifests: Vec<String>,
    updates: &Vec<UpdatedCrate>,
    lock: Vec<String>,
) -> (r: Vec<String>)
    ensures
        text::texts(r@) == text::texts(manifests@) + changelogs(update_views(updates@))
            + text::texts(lock@),
{
    let ghost first = text::texts(manifests@);
    let ghost all = changelogs(update_views(updates@));
    let mut touched = manifests;
    let mut i: usize = 0;
    assert(first + all.take(0) =~= first);
    while i < updates.len()
        invariant
            i <= updates@.len(),
            all == changelogs(update_views(updates@)),
            text::texts(touched@) == first + all.take(i as int),
        decreases updates@.len() - i,
    {
        let ghost before = text::texts(touched@);
        touched.push(updates[i].package.join("CHANGELOG.md"));
        assert(text::texts(touched@) =~= before.push(all[i as int]));
        assert(first + all.take(i + 1) =~= (first + all.take(i as int)).push(all[i as int]));
        i += 1;
    }
    assert(all.take(i as int) =~= all);
    let ghost last = text::texts(lock@);
    let ghost files = lock@;
    assert(first + all + last.take(0) =~= first + all);
    for file in it: lock
        invariant
            it.seq() == files,
            last == text::texts(files),
            text::texts(touched@) == first + all + last.take(it.index() as int),
    {
        let ghost before = text::texts(touched@);
        let ghost k = it.index() as int;
        touched.push(file);
        assert(text::texts(touched@) =~= before.push(last[k]));
        assert(first + all + last.take(k + 1) =~= (first + all + last.take(k)).push(last[k]));
    }
    assert(last.take(last.len() as int) =~= last);
    touched
}

/// A step of writing a release out.
#[derive(Debug, Clone, Copy, PartialEq, Eq, Structural)]
pub enum ApplyStep {
    /// Rebase the bump commits of earlier runs away. This also brings the manifests back to the
    /// versions that the plan was made from.
    DropBumpCommits,
    /// Check that the files of the package with this number have no changes of their own.
    CheckWritable(usize),
    /// Write the manifests, all together.
    SetVersions,
    /// Write the changelog of the package with this number.
    UpdateChangelog(usize),
    /// Bring the lockfile up to date.
    RefreshLock,
    /// Commit what was written.
    Commit,
    /// It is done.
    Done,
}

impl ApplyStep {
    /// The place of the step among those for this many packages.
    pub open spec fn place(self, packages: nat) -> nat {
        match self {
            ApplyStep::DropBumpCommits => 0,
            ApplyStep::CheckWritable(i) => 1 + i as nat,
            ApplyStep::SetVersions => 1 + packages,
            ApplyStep::UpdateChangelog(i) => 2 + packages + i as nat,
            ApplyStep::RefreshLock => 2 + 2 * packages,
            ApplyStep::Commit => 3 + 2 * packages,
            ApplyStep::Done => 4 + 2 * packages,
        }
    }

    /// Whether the step is one of those for this many packages.
    pub open spec fn is_among(self, packages: nat) -> bool {
        match self {
            ApplyStep::CheckWritable(i) | ApplyStep::UpdateChangelog(i) => i < packages,
            _ => true,
        }
    }

    /// Whether the step changes a file of the working tree or makes a commit.
    pub open spec fn writes(self) -> bool {
        self is SetVersions || self is UpdateChangelog || self is RefreshLock || self is Commit
    }

    /// The step after this one, if this one succeeded; a step that fails is the last.
    pub fn next(self, packages: usize) -> (r: Self)
        requires
            self.is_among(packages as nat),
            self != ApplyStep::Done,
        ensures
            r.is_among(packages as nat),
            r.place(packages as nat) == self.place(packages as nat) + 1,
    {
        match self {
            ApplyStep::DropBumpCommits => if packages > 0 {
                ApplyStep::CheckWritable(0)
            } else {
                ApplyStep::SetVersions
            },
            ApplyStep::CheckWritable(i) => if i + 1 < packages {
                ApplyStep::CheckWritable(i + 1)
            } else {
                ApplyStep::SetVersions
            },
            ApplyStep::SetVersions => if packages > 0 {
                ApplyStep::UpdateChangelog(0)
            } else {
                ApplyStep::RefreshLock
            },
            ApplyStep::UpdateChangelog(i) => if i + 1 < packages {
                ApplyStep::UpdateChangelog(i + 1)
            } else {
                ApplyStep::RefreshLock
            },
            ApplyStep::RefreshLock => ApplyStep::Commit,
            ApplyStep::Commit | ApplyStep::Done => ApplyStep::Done,
        }
    }
}

/// The place of a step says which step it is, so that the order of the steps is fixed.
pub proof fn every_place_has_one_step(a: ApplyStep, b: ApplyStep, packages: nat)
    requires
        a.is_among(packages),
        b.is_among(packages),
        a.place(packages) == b.place(packages),
    ensures
        a == b,
{
}

/// Every package is checked before anything is written: a single file with changes of its own stops
/// the release with the working tree untouched.
pub proof fn checks_come_before_writes(check: usize, step: ApplyStep, packages: nat)
    requires
        check < packages,
        step.is_among(packages),
        step.writes(),
    ensures
        ApplyStep::CheckWritable(check).place(packages) < step.place(packages),
{
}

/// The commit comes after everything that is written, and after the earlier bump commits are gone.
pub proof fn the_commit_comes_last(step: ApplyStep, packages: nat)
    requires
        step.is_among(packages),
        step != ApplyStep::Commit,
        step != ApplyStep::Done,
    ensures
        step.place(packages) < ApplyStep::Commit.place(packages),
{
}

/// Every update is written out: its package is bumped to its new version, and its changelog is
/// among the files to commit.
pub proof fn every_update_is_written_out(updates: Seq<UpdateView>, i: int)
    requires
        0 <= i < updates.len(),
    ensures
        wanted_bumps(updates).len() == updates.len(),
        wanted_bumps(updates)[i] == (updates[i].package, updates[i].new_version),
        changelogs(updates).len() == updates.len(),
        changelogs(updates)[i] == joined_path(updates[i].package.path, "CHANGELOG.md"@),
{
}

/// The bump commits of earlier runs go first; then every package is checked, the manifests are
/// written, then the changelogs, one package after the other, and then the lockfile.
pub proof fn the_steps_have_their_order(i: usize, j: usize, packages: nat)
    requires
        i < j < packages,
    ensures
        ApplyStep::DropBumpCommits.place(packages) == 0,
        ApplyStep::DropBumpCommits.place(packages) < ApplyStep::CheckWritable(i).place(packages),
        ApplyStep::CheckWritable(i).place(packages) < ApplyStep::CheckWritable(j).place(packages),
        ApplyStep::CheckWritable(j).place(packages) < ApplyStep::SetVersions.place(packages),
        ApplyStep::SetVersions.place(packages) < ApplyStep::UpdateChangelog(i).place(packages),
        ApplyStep::UpdateChangelog(i).place(packages) < ApplyStep::UpdateChangelog(j).place(
            packages,
        ),
        ApplyStep::UpdateChangelog(j).place(packages) < ApplyStep::RefreshLock.place(packages),
        ApplyStep::RefreshLock.place(packages) < ApplyStep::Commit.place(packages),
        ApplyStep::Commit.place(packages) < ApplyStep::Done.place(packages),
{
}

/// Nothing is written before the manifests are, and from there on every step writes.
pub proof fn writing_starts_with_the_manifests(step: ApplyStep, packages: nat)
    requires
        step.is_among(packages),
        step != ApplyStep::Done,
    ensures
        step.writes() <==> ApplyStep::SetVersions.place(packages) <= step.place(packages),
{
}

} // verus!
