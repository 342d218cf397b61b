//! Which packages changed, and which commits changed them.
use crate::commits::{commit_views, CommitInfo, CommitView};
use crate::config::ReleaseConfig;
use crate::history::{
    changelog_range, commit_info, find_last_notch_commit, is_last_notch, is_notch_commit,
    record_views, CommitRecord, RecordView,
};
use crate::package::{is_under, lies_under, Package, PackageView};
use crate::text;
use vstd::prelude::*;

verus! {

/// What makes a file belong to a package.
#[derive(Debug, Clone, Copy, PartialEq, Eq, Structural)]
pub enum Scope {
    /// It lies under the package's directory; everything belongs to a package at the root.
    Directory,
    /// The package tracks it.
    Owned,
}

/// Whether a change to these files is a change to the package.
pub open spec fn touches(files: Seq<Seq<char>>, package: PackageView, scope: Scope) -> bool {
    match scope {
        Scope::Directory => package.path == "."@ || exists|i: int|
            0 <= i < files.len() && is_under(#[trigger] files[i], package.path),
        Scope::Owned => exists|i: int|
            0 <= i < files.len() && package.paths.covers(#[trigger] files[i]),
    }
}

/// Whether a change to these files is a change to the package.
pub fn is_touched(files: &Vec<String>, package: &Package, scope: Scope) -> (r: bool)
    ensures
        r == touches(text::texts(files@), package@, scope),
{
    let ghost all = text::texts(files@);
    if scope == Scope::Directory && text::same(package.path.as_str(), ".") {
        return true;
    }
    let mut i: usize = 0;
    while i < files.len()
        invariant
            i <= files@.len(),
            all == text::texts(files@),
            scope == Scope::Directory ==> package.path@ != "."@ && forall|j: int|
                0 <= j < i ==> !is_under(#[trigger] all[j], package.path@),
            scope == Scope::Owned ==> forall|j: int|
                0 <= j < i ==> !package.paths@.covers(#[trigger] all[j]),
        decreases files@.len() - i,
    {
        assert(all[i as int] == files@[i as int]@);
        let belongs = match scope {
            Scope::Directory => lies_under(files[i].as_str(), package.path.as_str()),
            Scope::Owned => package.tracks(files[i].as_str()),
        };
        if belongs {
            return true;
        }
        i += 1;
    }
    false
}

/// The packages among these that the files touch, in order.
pub open spec fn touched_packages(
    packages: Seq<Package>,
    files: Seq<Seq<char>>,
    scope: Scope,
) -> Seq<Package>
    decreases packages.len(),
{
    if packages.len() == 0 {
        Seq::empty()
    } else {
        let rest = touched_packages(packages.drop_last(), files, scope);
        if touches(files, packages.last()@, scope) {
            rest.push(packages.last())
        } else {
            rest
        }
    }
}

/// The packages that really differ between two states of the branch, given the files that do,
/// however the history got from one to the other. This decides which packages need a bump.
pub fn get_changed_packages(packages: Vec<Package>, files: &Vec<String>, scope: Scope) -> (r: Vec<
    Package,
>)
    ensures
        r@ == touched_packages(packages@, text::texts(files@), scope),
{
    let ghost all = packages@;
    let mut changed: Vec<Package> = Vec::new();
    assert(all.take(0) =~= Seq::empty());
    for package in it: packages
        invariant
            it.seq() == all,
            changed@ == touched_packages(all.take(it.index() as int), text::texts(files@), scope),
    {
        let ghost k = it.index() as int;
        assert(all.take(k + 1).drop_last() =~= all.take(k));
        assert(all.take(k + 1).last() == all[k]);
        if is_touched(files, &package, scope) {
            changed.push(package);
        }
    }
    assert(all.take(all.len() as int) =~= all);
    changed
}

/// Whether the commit is one of those that changed the package. A merge is not: its difference
/// from one parent does not say what the merge itself changed. Among the files that a package
/// owns, a bump commit does not count as a change.
pub open spec fn changes(commit: RecordView, package: PackageView, scope: Scope) -> bool {
    &&& commit.parents <= 1
    &&& touches(commit.files, package, scope)
    &&& scope == Scope::Owned ==> !commit.is_notch()
}

/// The commits that changed the package, in order.
pub open spec fn attributed(
    commits: Seq<RecordView>,
    package: PackageView,
    scope: Scope,
) -> Seq<CommitView>
    decreases commits.len(),
{
    if commits.len() == 0 {
        Seq::empty()
    } else {
        let rest = attributed(commits.drop_last(), package, scope);
        let commit = commits.last();
        if changes(commit, package, scope) {
            rest.push(commit.info())
        } else {
            rest
        }
    }
}

/// The commits that changed one package.
pub fn commits_of(commits: &[CommitRecord], package: &Package, scope: Scope) -> (r: Vec<CommitInfo>)
    ensures
        commit_views(r@) == attributed(record_views(commits@), package@, scope),
{
    let ghost views = record_views(commits@);
    let mut out: Vec<CommitInfo> = Vec::new();
    let mut i: usize = 0;
    assert(views.take(0) =~= Seq::empty());
    while i < commits.len()
        invariant
            i <= commits@.len(),
            views == record_views(commits@),
            commit_views(out@) == attributed(views.take(i as int), package@, scope),
        decreases commits@.len() - i,
    {
        assert(views.take(i + 1).drop_last() =~= views.take(i as int));
        assert(views.take(i + 1).last() == commits@[i as int]@);
        let ghost before = commit_views(out@);
        if commits[i].parents <= 1 && is_touched(&commits[i].files, package, scope) && (scope
            == Scope::Directory || !is_notch_commit(&commits[i])) {
            let info = commit_info(&commits[i]);
            let ghost view = info@;
            out.push(info);
            assert(commit_views(out@) =~= before.push(view));
        }
        i += 1;
    }
    assert(views.take(i as int) =~= views);
    out
}

/// Attributes to each changed package the commits that changed it.
pub fn attribute_commits_to_packages(
    commits: &[CommitRecord],
    changed: Vec<Package>,
    scope: Scope,
) -> (r: Vec<(Package, Vec<CommitInfo>)>)
    ensures
        r@.len() == changed@.len(),
        forall|i: int|
            0 <= i < r@.len() ==> {
                &&& (#[trigger] r@[i]).0 == changed@[i]
                &&& commit_views(r@[i].1@) == attributed(
                    record_views(commits@),
                    changed@[i]@,
                    scope,
                )
            },
{
    let ghost all = changed@;
    let mut out: Vec<(Package, Vec<CommitInfo>)> = Vec::new();
    for package in it: changed
        invariant
            it.seq() == all,
            out@.len() == it.index(),
            forall|i: int|
                0 <= i < out@.len() ==> {
                    &&& (#[trigger] out@[i]).0 == all[i]
                    &&& commit_views(out@[i].1@) == attributed(
                        record_views(commits@),
                        all[i]@,
                        scope,
                    )
                },
    {
        let own = commits_of(commits, &package, scope);
        out.push((package, own));
    }
    out
}

/// What the branch is compared with to find the files that changed.
#[derive(Debug, PartialEq, Eq)]
pub enum DiffBase {
    /// The commit with this id.
    Commit(String),
    /// The merge base of `HEAD` and this reference.
    MergeBase(String),
}

/// The branch is compared with its last bump commit if there is one, otherwise with where it left
/// the default branch of the remote.
pub fn diff_base(release: &ReleaseConfig, last_notch_commit: Option<&CommitRecord>) -> (r: DiffBase)
    ensures
        match last_notch_commit {
            Some(commit) => r matches DiffBase::Commit(id) && id@ == commit.id@,
            None => r matches DiffBase::MergeBase(upstream) && upstream@ == release@.remote + "/"@
                + release@.default_branch,
        },
{
    match last_notch_commit {
        Some(commit) => DiffBase::Commit(commit.id.clone()),
        None => {
            let mut upstream = release.remote.clone();
            upstream.append("/");
            upstream.append(release.default_branch.as_str());
            DiffBase::MergeBase(upstream)
        },
    }
}

/// The commits behind the last bump commit, or all of them where there is none.
pub open spec fn since_last_bump(commits: Seq<RecordView>) -> Seq<RecordView>
    decreases commits.len(),
{
    if commits.len() == 0 || commits.last().is_notch() {
        Seq::empty()
    } else {
        since_last_bump(commits.drop_last()).push(commits.last())
    }
}

/// What stands behind the last bump commit is what is new since it.
proof fn lemma_since_last_bump(commits: Seq<RecordView>, from: int)
    requires
        0 <= from <= commits.len(),
        from > 0 ==> commits[from - 1].is_notch(),
        forall|j: int| from <= j < commits.len() ==> !(#[trigger] commits[j]).is_notch(),
    ensures
        since_last_bump(commits) == commits.skip(from),
    decreases commits.len(),
{
    if from == commits.len() {
        assert(commits.skip(from) =~= Seq::empty());
    } else {
        let shorter = commits.drop_last();
        lemma_since_last_bump(shorter, from);
        assert(shorter.skip(from).push(commits.last()) =~= commits.skip(from));
    }
}

/// The commits of each changed package, and the range of commits for the changelog.
pub struct Assignment {
    pub packages: Vec<(Package, Vec<CommitInfo>)>,
    pub changelog_range: String,
}

/// Assigns the branch's commits, oldest first, to the packages that the files show as changed. If
/// an earlier run left a bump commit, only what is newer is assigned, and the changelog starts
/// there.
pub fn assign_commits(
    commits: &Vec<CommitRecord>,
    packages: Vec<Package>,
    files: &Vec<String>,
    release: &ReleaseConfig,
) -> (r: Assignment)
    ensures
        ({
            let views = record_views(commits@);
            let changed = touched_packages(packages@, text::texts(files@), Scope::Directory);
            &&& r.packages@.len() == changed.len()
            &&& forall|i: int|
                0 <= i < changed.len() ==> {
                    &&& (#[trigger] r.packages@[i]).0 == changed[i]
                    &&& commit_views(r.packages@[i].1@) == attributed(
                        since_last_bump(views),
                        changed[i]@,
                        Scope::Directory,
                    )
                }
            &&& (exists|i: int| #[trigger]
                is_last_notch(views, i) && r.changelog_range@ == commits@[i].id@ + "..HEAD"@) || (
            r.changelog_range@ == release@.range() && forall|i: int|
                0 <= i < views.len() ==> !(#[trigger] views[i]).is_notch())
        }),
{
    let ghost views = record_views(commits@);
    let n: usize = commits.len();
    let last = find_last_notch_commit(commits.as_slice());
    let from: usize = match last {
        Some(i) => i + 1,
        None => 0,
    };
    let range = match last {
        Some(i) => {
            assert(is_last_notch(views, i as int));
            changelog_range(release, Some(&commits[i]))
        },
        None => changelog_range(release, None),
    };
    let newer = vstd::slice::slice_subrange(commits.as_slice(), from, n);
    proof {
        lemma_since_last_bump(views, from as int);
        assert(record_views(newer@) =~= views.skip(from as int));
    }
    let changed = get_changed_packages(packages, files, Scope::Directory);
    let attributed = attribute_commits_to_packages(newer, changed, Scope::Directory);
    Assignment { packages: attributed, changelog_range: range }
}

/// Assigns the branch's commits to the packages that own a file which differs from the default
/// branch of the remote. Earlier bump commits do not narrow what is assigned, nor the range for the
/// changelog: they are gone by the time the release is written.
pub fn assign_owned_commits(
    commits: &Vec<CommitRecord>,
    packages: Vec<Package>,
    files: &Vec<String>,
    release: &ReleaseConfig,
) -> (r: Assignment)
    ensures
        ({
            let changed = touched_packages(packages@, text::texts(files@), Scope::Owned);
            &&& r.packages@.len() == changed.len()
            &&& forall|i: int|
                0 <= i < changed.len() ==> {
                    &&& (#[trigger] r.packages@[i]).0 == changed[i]
                    &&& commit_views(r.packages@[i].1@) == attributed(
                        record_views(commits@),
                        changed[i]@,
                        Scope::Owned,
                    )
                }
            &&& r.changelog_range@ == release@.range()
        }),
{
    let changed = get_changed_packages(packages, files, Scope::Owned);
    let attributed = attribute_commits_to_packages(commits.as_slice(), changed, Scope::Owned);
    Assignment { packages: attributed, changelog_range: release.commit_range() }
}

/// One file is enough to touch a package, whichever of the files it is: one under the package's
/// directory or, where ownership counts, one that the package covers. Everything touches a package
/// at the root, and nothing else touches a package.
pub proof fn any_own_file_touches_a_package(files: Seq<Seq<char>>, package: PackageView)
    ensures
        touches(files, package, Scope::Directory) <==> package.path == "."@ || exists|file: Seq<char>|
            files.contains(file) && #[trigger] is_under(file, package.path),
        touches(files, package, Scope::Owned) <==> exists|file: Seq<char>|
            files.contains(file) && #[trigger] package.paths.covers(file),
{
    if package.path != "."@ && touches(files, package, Scope::Directory) {
        let i = choose|i: int| 0 <= i < files.len() && is_under(#[trigger] files[i], package.path);
        assert(files.contains(files[i]) && is_under(files[i], package.path));
    }
    if exists|file: Seq<char>| files.contains(file) && #[trigger] is_under(file, package.path) {
        let file = choose|file: Seq<char>|
            files.contains(file) && #[trigger] is_under(file, package.path);
        let i = choose|i: int| 0 <= i < files.len() && files[i] == file;
        assert(is_under(files[i], package.path));
    }
    if touches(files, package, Scope::Owned) {
        let i = choose|i: int| 0 <= i < files.len() && package.paths.covers(#[trigger] files[i]);
        assert(files.contains(files[i]) && package.paths.covers(files[i]));
    }
    if exists|file: Seq<char>| files.contains(file) && #[trigger] package.paths.covers(file) {
        let file = choose|file: Seq<char>|
            files.contains(file) && #[trigger] package.paths.covers(file);
        let i = choose|i: int| 0 <= i < files.len() && files[i] == file;
        assert(package.paths.covers(files[i]));
    }
}

/// Packages are looked at one by one: each that the files touch comes out, no other does, and the
/// order stays.
pub proof fn touched_packages_come_out_one_by_one(
    a: Seq<Package>,
    b: Seq<Package>,
    files: Seq<Seq<char>>,
    scope: Scope,
)
    ensures
        touched_packages(a + b, files, scope) == touched_packages(a, files, scope)
            + touched_packages(b, files, scope),
        forall|p: Package| #[trigger]
            touched_packages(seq![p], files, scope) == (if touches(files, p@, scope) {
                seq![p]
            } else {
                Seq::empty()
            }),
        touched_packages(Seq::empty(), files, scope) == Seq::<Package>::empty(),
    decreases b.len(),
{
    assert forall|p: Package| #[trigger]
        touched_packages(seq![p], files, scope) == (if touches(files, p@, scope) {
            seq![p]
        } else {
            Seq::empty()
        }) by {
        assert(seq![p].drop_last() =~= Seq::empty());
        reveal_with_fuel(touched_packages, 2);
        assert(touched_packages(seq![p], files, scope) =~= (if touches(files, p@, scope) {
            seq![p]
        } else {
            Seq::empty()
        }));
    }
    if b.len() == 0 {
        assert(a + b =~= a);
    } else {
        touched_packages_come_out_one_by_one(a, b.drop_last(), files, scope);
        assert((a + b).drop_last() =~= a + b.drop_last());
        assert((a + b).last() == b.last());
    }
    assert(touched_packages(a + b, files, scope) =~= touched_packages(a, files, scope)
        + touched_packages(b, files, scope));
}

/// A package comes out exactly if it is one of those looked at and a file of its own changed.
pub proof fn changed_packages_are_those_with_a_changed_file(
    packages: Seq<Package>,
    files: Seq<Seq<char>>,
    package: Package,
)
    ensures
        touched_packages(packages, files, Scope::Directory).contains(package)
            <==> packages.contains(package) && (package@.path == "."@ || exists|file: Seq<char>|
            files.contains(file) && #[trigger] is_under(file, package@.path)),
        touched_packages(packages, files, Scope::Owned).contains(package) <==> packages.contains(
            package,
        ) && exists|file: Seq<char>|
            files.contains(file) && #[trigger] package@.paths.covers(file),
{
    any_own_file_touches_a_package(files, package@);
    lemma_touched_members(packages, files, Scope::Directory, package);
    lemma_touched_members(packages, files, Scope::Owned, package);
}

/// A package comes out exactly if it is one of those looked at and the files touch it.
proof fn lemma_touched_members(
    packages: Seq<Package>,
    files: Seq<Seq<char>>,
    scope: Scope,
    package: Package,
)
    ensures
        touched_packages(packages, files, scope).contains(package) <==> packages.contains(package)
            && touches(files, package@, scope),
    decreases packages.len(),
{
    broadcast use vstd::seq_lib::group_seq_properties;

    if packages.len() > 0 {
        let shorter = packages.drop_last();
        let last = packages.last();
        lemma_touched_members(shorter, files, scope, package);
        assert(packages =~= shorter.push(last));
        assert(packages.contains(package) <==> shorter.contains(package) || package == last);
        let rest = touched_packages(shorter, files, scope);
        assert(rest.push(last).contains(package) <==> rest.contains(package) || package == last);
    }
}

/// Commits are attributed one by one: each that is no merge, and that changed a file of the
/// package, is attributed to it, once; no other is; and the order stays. Among the files that a
/// package owns, bump commits are left out.
pub proof fn commits_are_attributed_one_by_one(
    a: Seq<RecordView>,
    b: Seq<RecordView>,
    package: PackageView,
    scope: Scope,
)
    ensures
        attributed(a + b, package, scope) == attributed(a, package, scope) + attributed(
            b,
            package,
            scope,
        ),
        forall|c: RecordView| #[trigger]
            attributed(seq![c], package, scope) == (if c.parents <= 1 && touches(
                c.files,
                package,
                scope,
            ) && (scope == Scope::Directory || !c.is_notch()) {
                seq![c.info()]
            } else {
                Seq::empty()
            }),
        attributed(Seq::empty(), package, scope) == Seq::<CommitView>::empty(),
    decreases b.len(),
{
    assert forall|c: RecordView| #[trigger]
        attributed(seq![c], package, scope) == (if c.parents <= 1 && touches(
            c.files,
            package,
            scope,
        ) && (scope == Scope::Directory || !c.is_notch()) {
            seq![c.info()]
        } else {
            Seq::empty()
        }) by {
        assert(seq![c].drop_last() =~= Seq::empty());
        reveal_with_fuel(attributed, 2);
        assert(attributed(seq![c], package, scope) =~= (if c.parents <= 1 && touches(
            c.files,
            package,
            scope,
        ) && (scope == Scope::Directory || !c.is_notch()) {
            seq![c.info()]
        } else {
            Seq::empty()
        }));
    }
    if b.len() == 0 {
        assert(a + b =~= a);
    } else {
        commits_are_attributed_one_by_one(a, b.drop_last(), package, scope);
        assert((a + b).drop_last() =~= a + b.drop_last());
        assert((a + b).last() == b.last());
    }
    assert(attributed(a + b, package, scope) =~= attributed(a, package, scope) + attributed(
        b,
        package,
        scope,
    ));
}

/// Every commit that is no merge and that changed a file under the package's directory is among
/// the package's commits, wherever in the history it stands, and each of them is such a commit.
pub proof fn a_package_gets_every_commit_to_its_files(
    commits: Seq<RecordView>,
    package: PackageView,
    commit: CommitView,
)
    requires
        package.path != "."@,
    ensures
        attributed(commits, package, Scope::Directory).contains(commit) <==> exists|
            i: int,
            file: Seq<char>,
        |
            {
                &&& 0 <= i < commits.len()
                &&& commits[i].parents <= 1
                &&& #[trigger] commits[i].files.contains(file)
                &&& #[trigger] is_under(file, package.path)
                &&& commits[i].info() == commit
            },
{
    lemma_attributed_members(commits, package, Scope::Directory, commit);
    let all = attributed(commits, package, Scope::Directory);
    if all.contains(commit) {
        let i = choose|i: int|
            0 <= i < commits.len() && changes(#[trigger] commits[i], package, Scope::Directory)
                && commits[i].info() == commit;
        any_own_file_touches_a_package(commits[i].files, package);
        let file = choose|file: Seq<char>|
            commits[i].files.contains(file) && #[trigger] is_under(file, package.path);
        assert(commits[i].files.contains(file) && is_under(file, package.path));
    }
    if exists|i: int, file: Seq<char>|
        {
            &&& 0 <= i < commits.len()
            &&& commits[i].parents <= 1
            &&& #[trigger] commits[i].files.contains(file)
            &&& #[trigger] is_under(file, package.path)
            &&& commits[i].info() == commit
        } {
        let (i, file) = choose|i: int, file: Seq<char>|
            {
                &&& 0 <= i < commits.len()
                &&& commits[i].parents <= 1
                &&& #[trigger] commits[i].files.contains(file)
                &&& #[trigger] is_under(file, package.path)
                &&& commits[i].info() == commit
            };
        any_own_file_touches_a_package(commits[i].files, package);
        assert(changes(commits[i], package, Scope::Directory));
    }
}

/// The commits of a package are what the commits that changed it look like.
proof fn lemma_attributed_members(
    commits: Seq<RecordView>,
    package: PackageView,
    scope: Scope,
    commit: CommitView,
)
    ensures
        attributed(commits, package, scope).contains(commit) <==> exists|i: int|
            0 <= i < commits.len() && changes(#[trigger] commits[i], package, scope)
                && commits[i].info() == commit,
    decreases commits.len(),
{
    broadcast use vstd::seq_lib::group_seq_properties;

    if commits.len() > 0 {
        let n = commits.len() - 1;
        let shorter = commits.drop_last();
        let rest = attributed(shorter, package, scope);
        lemma_attributed_members(shorter, package, scope, commit);
        assert(rest.push(commits.last().info()).contains(commit) <==> rest.contains(commit)
            || commit == commits.last().info());
        if rest.contains(commit) {
            let i = choose|i: int|
                0 <= i < shorter.len() && changes(#[trigger] shorter[i], package, scope)
                    && shorter[i].info() == commit;
            assert(commits[i] == shorter[i]);
        }
        if exists|i: int|
            0 <= i < commits.len() && changes(#[trigger] commits[i], package, scope)
                && commits[i].info() == commit {
            let i = choose|i: int|
                0 <= i < commits.len() && changes(#[trigger] commits[i], package, scope)
                    && commits[i].info() == commit;
            if i < n {
                assert(shorter[i] == commits[i]);
            }
        }
    }
}

/// What is new since the last bump commit is everything behind it, or everything where there is
/// none; nothing before the last bump commit is.
pub proof fn what_is_new_stands_behind_the_last_bump(a: Seq<RecordView>, b: Seq<RecordView>)
    requires
        a.len() > 0 ==> a.last().is_notch(),
        forall|i: int| 0 <= i < b.len() ==> !(#[trigger] b[i]).is_notch(),
    ensures
        since_last_bump(a + b) == b,
{
    let all = a + b;
    assert forall|j: int| a.len() <= j < all.len() implies !(#[trigger] all[j]).is_notch() by {
        assert(all[j] == b[j - a.len()]);
    }
    lemma_since_last_bump(all, a.len() as int);
    assert(all.skip(a.len() as int) =~= b);
}

} // verus!
