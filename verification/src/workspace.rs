//! Workspace members as plain crates: where each lies, what it is called, and its version.
use crate::cargo::{clean_member_path, find_by_id, member_path, package_with_id, WorkspaceMetadata};
use crate::commits::{commit_views, CommitInfo, CommitView};
use crate::error::{NotchError, Result};
use crate::history::{commit_info, record_views, CommitRecord, RecordView, NOTCH_TRAILER_KEY};
use crate::package::{
    components, is_under, join_path, lies_under, same_path, Package, PackageView, PathView,
};
use crate::text;
use crate::version::{Version, VersionView};
use vstd::prelude::*;

verus! {

/// The tool that asks for the bumps at a prompt. The builder is the plainer one: it calls a crate
/// by its directory, asks without listing the commits, counts a commit once for every file that it
/// changed, and goes on where the changelog could not be made.
#[derive(Debug, Clone, Copy, PartialEq, Eq, Structural)]
pub enum Tool {
    Builder,
    Notch,
}

/// The version of a crate.
#[derive(Debug, PartialEq, Eq)]
pub struct MyVersion {
    pub version: Version,
}

impl MyVersion {
    /// The version with its patch number incremented.
    pub fn bump_patch(&self) -> (r: Version)
        requires
            self.version@.patch < u64::MAX,
        ensures
            r@ == (VersionView { patch: (self.version@.patch + 1) as u64, ..self.version@ }),
    {
        let v = &self.version;
        v.with_numbers(v.major(), v.minor(), v.patch() + 1)
    }

    /// The version with its minor number incremented; the patch number stays.
    pub fn bump_minor(&self) -> (r: Version)
        requires
            self.version@.minor < u64::MAX,
        ensures
            r@ == (VersionView { minor: (self.version@.minor + 1) as u64, ..self.version@ }),
    {
        let v = &self.version;
        v.with_numbers(v.major(), v.minor() + 1, v.patch())
    }

    /// The version with its major number incremented; the others stay.
    pub fn bump_major(&self) -> (r: Version)
        requires
            self.version@.major < u64::MAX,
        ensures
            r@ == (VersionView { major: (self.version@.major + 1) as u64, ..self.version@ }),
    {
        let v = &self.version;
        v.with_numbers(v.major() + 1, v.minor(), v.patch())
    }
}

impl Clone for MyVersion {
    fn clone(&self) -> (r: Self)
        ensures
            r == *self,
    {
        MyVersion { version: self.version.clone() }
    }
}

/// A crate of the workspace.
#[derive(Debug, PartialEq, Eq)]
pub struct Crate {
    /// The directory that holds the crate's `Cargo.toml`, relative to the workspace.
    pub path: String,
    /// The `[package] name` of its `Cargo.toml`.
    pub name: String,
    pub version: MyVersion,
}

/// What a `Crate` holds.
#[verifier::ext_equal]
pub struct CrateView {
    pub path: Seq<char>,
    pub name: Seq<char>,
    pub version: VersionView,
}

impl View for Crate {
    type V = CrateView;

    open spec fn view(&self) -> CrateView {
        CrateView { path: self.path@, name: self.name@, version: self.version.version@ }
    }
}

impl Clone for Crate {
    fn clone(&self) -> (r: Self)
        ensures
            r == *self,
    {
        Crate {
            path: self.path.clone(),
            name: self.name.clone(),
            version: self.version.clone(),
        }
    }
}

/// The crate that a member of the workspace in `dir` is.
pub open spec fn member_crate(metadata: &WorkspaceMetadata, dir: Seq<char>, i: int) -> CrateView {
    let found = package_with_id(metadata.packages@, metadata.members@[i]@)->0;
    CrateView {
        path: member_path(metadata.members@[i]@, dir),
        name: found.name@,
        version: found.version@,
    }
}

/// The crates of the workspace in `dir`. One at the root lies in `"."`: an absolute path would
/// match no file of a difference.
pub fn get_cleaned_members(dir: &str, metadata: &WorkspaceMetadata) -> (r: Vec<Crate>)
    requires
        metadata.is_complete(),
    ensures
        r@.len() == metadata.members@.len(),
        forall|i: int| 0 <= i < r@.len() ==> (#[trigger] r@[i])@ == member_crate(metadata, dir@, i),
{
    let mut cleaned: Vec<Crate> = Vec::new();
    let mut i: usize = 0;
    while i < metadata.members.len()
        invariant
            i <= metadata.members@.len(),
            metadata.is_complete(),
            cleaned@.len() == i,
            forall|j: int|
                0 <= j < i ==> (#[trigger] cleaned@[j])@ == member_crate(metadata, dir@, j),
        decreases metadata.members@.len() - i,
    {
        let id = metadata.members[i].as_str();
        assert(package_with_id(metadata.packages@, metadata.members@[i as int]@) is Some);
        let found = &metadata.packages[find_by_id(&metadata.packages, id)];
        cleaned.push(
            Crate {
                path: clean_member_path(id, dir),
                name: found.name.clone(),
                version: MyVersion { version: found.version.clone() },
            },
        );
        i += 1;
    }
    cleaned
}

/// The packages of the cargo workspace in a directory.
#[derive(Debug)]
pub struct CargoPackager {
    dir: String,
}

impl CargoPackager {
    /// The directory.
    pub closed spec fn directory(&self) -> Seq<char> {
        self.dir@
    }

    /// The packager for the workspace in `dir`.
    pub fn new(dir: String) -> (r: Self)
        ensures
            r.directory() == dir@,
    {
        CargoPackager { dir }
    }

    /// The packages of the workspace, each tracking its directory.
    pub fn get(&self, metadata: &WorkspaceMetadata) -> (r: Vec<Package>)
        requires
            metadata.is_complete(),
        ensures
            r@.len() == metadata.members@.len(),
            forall|i: int|
                0 <= i < r@.len() ==> {
                    let member = member_crate(metadata, self.directory(), i);
                    (#[trigger] r@[i])@ == (PackageView {
                        path: member.path,
                        name: member.name,
                        version: member.version,
                        manifest: crate::package::joined_path(member.path, "Cargo.toml"@),
                        paths: PathView::of_directory(member.path),
                    })
                },
    {
        let members = get_cleaned_members(self.dir.as_str(), metadata);
        let ghost all = members@;
        let mut packages: Vec<Package> = Vec::new();
        for member in it: members
            invariant
                it.seq() == all,
                packages@.len() == it.index(),
                all.len() == metadata.members@.len(),
                forall|i: int|
                    0 <= i < all.len() ==> (#[trigger] all[i])@ == member_crate(
                        metadata,
                        self.directory(),
                        i,
                    ),
                forall|i: int|
                    0 <= i < packages@.len() ==> {
                        let member = member_crate(metadata, self.directory(), i);
                        (#[trigger] packages@[i])@ == (PackageView {
                            path: member.path,
                            name: member.name,
                            version: member.version,
                            manifest: crate::package::joined_path(member.path, "Cargo.toml"@),
                            paths: PathView::of_directory(member.path),
                        })
                    },
        {
            assert(member@ == member_crate(metadata, self.directory(), it.index() as int));
            let manifest = join_path(member.path.as_str(), "Cargo.toml");
            packages.push(Package::new(member.path, member.name, member.version.version, manifest));
        }
        packages
    }
}

/// Whether some of the files lies under the directory.
pub open spec fn any_under(files: Seq<Seq<char>>, dir: Seq<char>) -> bool {
    exists|i: int| 0 <= i < files.len() && is_under(#[trigger] files[i], dir)
}

/// Whether some of the files lies under the directory.
fn has_file_under(files: &Vec<String>, dir: &str) -> (r: bool)
    ensures
        r == any_under(text::texts(files@), dir@),
{
    let ghost all = text::texts(files@);
    let mut i: usize = 0;
    while i < files.len()
        invariant
            i <= files@.len(),
            all == text::texts(files@),
            forall|j: int| 0 <= j < i ==> !is_under(#[trigger] all[j], dir@),
        decreases files@.len() - i,
    {
        assert(all[i as int] == files@[i as int]@);
        if lies_under(files[i].as_str(), dir) {
            return true;
        }
        i += 1;
    }
    false
}

/// Whether the file is in the list, however its path is written.
pub open spec fn lists_file(files: Seq<Seq<char>>, file: Seq<char>) -> bool {
    exists|i: int| 0 <= i < files.len() && components(#[trigger] files[i]) == components(file)
}

/// How many different files of the list lie under the directory.
pub open spec fn files_under(files: Seq<Seq<char>>, dir: Seq<char>) -> nat
    decreases files.len(),
{
    if files.len() == 0 {
        0
    } else {
        let rest = files_under(files.drop_last(), dir);
        if is_under(files.last(), dir) && !lists_file(files.drop_last(), files.last()) {
            rest + 1
        } else {
            rest
        }
    }
}

/// Whether the file is among the first of the list.
fn is_listed(files: &Vec<String>, n: usize, file: &str) -> (r: bool)
    requires
        n <= files@.len(),
    ensures
        r == lists_file(text::texts(files@).take(n as int), file@),
{
    let ghost first = text::texts(files@).take(n as int);
    let mut i: usize = 0;
    while i < n
        invariant
            i <= n <= files@.len(),
            first == text::texts(files@).take(n as int),
            forall|j: int| 0 <= j < i ==> components(#[trigger] first[j]) != components(file@),
        decreases n - i,
    {
        assert(first[i as int] == files@[i as int]@);
        if same_path(files[i].as_str(), file) {
            return true;
        }
        i += 1;
    }
    false
}

/// How many different files of the list lie under the directory.
fn count_under(files: &Vec<String>, dir: &str) -> (r: usize)
    ensures
        r == files_under(text::texts(files@), dir@),
{
    let ghost all = text::texts(files@);
    let mut count: usize = 0;
    let mut i: usize = 0;
    assert(all.take(0) =~= Seq::empty());
    while i < files.len()
        invariant
            i <= files@.len(),
            all == text::texts(files@),
            count <= i,
            count == files_under(all.take(i as int), dir@),
        decreases files@.len() - i,
    {
        assert(all.take(i + 1).drop_last() =~= all.take(i as int));
        assert(all.take(i + 1).last() == files@[i as int]@);
        if lies_under(files[i].as_str(), dir) && !is_listed(files, i, files[i].as_str()) {
            count += 1;
        }
        i += 1;
    }
    assert(all.take(i as int) =~= all);
    count
}

/// How often a commit that changed the files is listed for a crate in the directory.
pub open spec fn times(files: Seq<Seq<char>>, dir: Seq<char>, tool: Tool) -> nat {
    match tool {
        Tool::Builder => files_under(files, dir),
        Tool::Notch => if any_under(files, dir) {
            1
        } else {
            0
        },
    }
}

/// The commits with a change under the directory, in order, each as often as the tool lists it.
pub open spec fn commits_under(commits: Seq<RecordView>, dir: Seq<char>, tool: Tool) -> Seq<
    CommitView,
>
    decreases commits.len(),
{
    if commits.len() == 0 {
        Seq::empty()
    } else {
        let last = commits.last();
        commits_under(commits.drop_last(), dir, tool) + Seq::new(
            times(last.files, dir, tool),
            |i: int| last.info(),
        )
    }
}

/// The crates with a change under their directory, in order, each with its commits.
pub open spec fn changed_crates(
    crates: Seq<Crate>,
    commits: Seq<RecordView>,
    tool: Tool,
) -> Seq<(Crate, Seq<CommitView>)>
    decreases crates.len(),
{
    if crates.len() == 0 {
        Seq::empty()
    } else {
        let rest = changed_crates(crates.drop_last(), commits, tool);
        let own = commits_under(commits, crates.last().path@, tool);
        if own.len() > 0 {
            rest.push((crates.last(), own))
        } else {
            rest
        }
    }
}

/// What the crates and their commits are.
pub open spec fn changed_views(changed: Seq<(Crate, Vec<CommitInfo>)>) -> Seq<
    (Crate, Seq<CommitView>),
> {
    Seq::new(changed.len(), |i: int| (changed[i].0, commit_views(changed[i].1@)))
}

/// The commits with a change under the directory, each as often as the tool lists it.
fn collect_under(commits: &[CommitRecord], dir: &str, tool: Tool) -> (r: Vec<CommitInfo>)
    ensures
        commit_views(r@) == commits_under(record_views(commits@), dir@, tool),
{
    let ghost views = record_views(commits@);
    let mut out: Vec<CommitInfo> = Vec::new();
    let mut i: usize = 0;
    assert(views.take(0) =~= Seq::empty());
    while i < commits.len()
        invariant
            i <= commits@.len(),
            views == record_views(commits@),
            commit_views(out@) == commits_under(views.take(i as int), dir@, tool),
        decreases commits@.len() - i,
    {
        assert(views.take(i + 1).drop_last() =~= views.take(i as int));
        assert(views.take(i + 1).last() == commits@[i as int]@);
        let ghost before = commit_views(out@);
        let ghost view = commits@[i as int]@.info();
        let times: usize = match tool {
            Tool::Builder => count_under(&commits[i].files, dir),
            Tool::Notch => if has_file_under(&commits[i].files, dir) {
                1
            } else {
                0
            },
        };
        let mut k: usize = 0;
        assert(before + Seq::new(0, |j: int| view) =~= before);
        while k < times
            invariant
                i < commits@.len(),
                k <= times,
                view == commits@[i as int]@.info(),
                commit_views(out@) == before + Seq::new(k as nat, |j: int| view),
            decreases times - k,
        {
            let ghost listed = commit_views(out@);
            out.push(commit_info(&commits[i]));
            assert(commit_views(out@) =~= listed.push(view));
            assert(commit_views(out@) =~= before + Seq::new((k + 1) as nat, |j: int| view));
            k += 1;
        }
        i += 1;
    }
    assert(views.take(i as int) =~= views);
    out
}

/// The crates that the commits changed, each with the commits that changed it, oldest first: each
/// commit once or, for the builder, once for every file. Every commit is compared with its first
/// parent, so one without a parent is an error.
pub fn get_changed_crates_with_commits(
    commits: &[CommitRecord],
    crates: Vec<Crate>,
    tool: Tool,
) -> (r: Result<Vec<(Crate, Vec<CommitInfo>)>>)
    ensures
        match r {
            Ok(changed) => {
                &&& forall|i: int|
                    0 <= i < commits@.len() ==> (#[trigger] record_views(commits@)[i]).parents > 0
                &&& changed_views(changed@) == changed_crates(crates@, record_views(commits@), tool)
            },
            Err(NotchError::NoParent(id)) => exists|i: int|
                0 <= i < commits@.len() && (#[trigger] record_views(commits@)[i]).parents == 0
                    && record_views(commits@)[i].id == id@ && forall|j: int|
                    0 <= j < i ==> (#[trigger] record_views(commits@)[j]).parents > 0,
            Err(_) => false,
        },
{
    let ghost views = record_views(commits@);
    let mut i: usize = 0;
    while i < commits.len()
        invariant
            i <= commits@.len(),
            views == record_views(commits@),
            forall|j: int| 0 <= j < i ==> (#[trigger] views[j]).parents > 0,
        decreases commits@.len() - i,
    {
        assert(views[i as int] == commits@[i as int]@);
        if commits[i].parents == 0 {
            return Err(NotchError::NoParent(commits[i].id.clone()));
        }
        i += 1;
    }
    let ghost all = crates@;
    let mut changed: Vec<(Crate, Vec<CommitInfo>)> = Vec::new();
    assert(all.take(0) =~= Seq::empty());
    for c in it: crates
        invariant
            it.seq() == all,
            views == record_views(commits@),
            changed_views(changed@) == changed_crates(all.take(it.index() as int), views, tool),
    {
        let ghost k = it.index() as int;
        assert(all.take(k + 1).drop_last() =~= all.take(k));
        assert(all.take(k + 1).last() == all[k]);
        let own = collect_under(commits, c.path.as_str(), tool);
        assert(commit_views(own@).len() == own@.len());
        if own.len() > 0 {
            let ghost before = changed_views(changed@);
            let ghost entry = (c, commit_views(own@));
            changed.push((c, own));
            assert(changed_views(changed@) =~= before.push(entry));
        }
    }
    assert(all.take(all.len() as int) =~= all);
    Ok(changed)
}

/// Some file lies under the directory exactly if there is one to count.
proof fn lemma_files_under(files: Seq<Seq<char>>, dir: Seq<char>)
    ensures
        files_under(files, dir) > 0 <==> any_under(files, dir),
    decreases files.len(),
{
    if files.len() > 0 {
        let shorter = files.drop_last();
        lemma_files_under(shorter, dir);
        if any_under(shorter, dir) {
            let i = choose|i: int| 0 <= i < shorter.len() && is_under(#[trigger] shorter[i], dir);
            assert(files[i] == shorter[i]);
        }
        if any_under(files, dir) && !any_under(shorter, dir) {
            let i = choose|i: int| 0 <= i < files.len() && is_under(#[trigger] files[i], dir);
            if i < shorter.len() {
                assert(shorter[i] == files[i]);
            }
            assert(i == shorter.len());
            if lists_file(shorter, files.last()) {
                let j = choose|j: int|
                    0 <= j < shorter.len() && components(#[trigger] shorter[j]) == components(
                        files.last(),
                    );
                assert(is_under(shorter[j], dir));
            }
        }
    }
}

/// A crate has commits for the one tool exactly if it has for the other.
proof fn lemma_same_change(commits: Seq<RecordView>, dir: Seq<char>)
    ensures
        commits_under(commits, dir, Tool::Builder).len() > 0 <==> commits_under(
            commits,
            dir,
            Tool::Notch,
        ).len() > 0,
    decreases commits.len(),
{
    if commits.len() > 0 {
        lemma_same_change(commits.drop_last(), dir);
        lemma_files_under(commits.last().files, dir);
    }
}

/// Both tools find the same crates changed, in the same order.
pub proof fn tools_find_the_same_changes(crates: Seq<Crate>, commits: Seq<RecordView>)
    ensures
        ({
            let builder = changed_crates(crates, commits, Tool::Builder);
            let notch = changed_crates(crates, commits, Tool::Notch);
            &&& builder.len() == notch.len()
            &&& forall|i: int| 0 <= i < builder.len() ==> (#[trigger] builder[i]).0 == notch[i].0
        }),
    decreases crates.len(),
{
    if crates.len() > 0 {
        tools_find_the_same_changes(crates.drop_last(), commits);
        lemma_same_change(commits, crates.last().path@);
    }
}

/// Whether a change to these files is a change to a crate in the directory: everything is one to a
/// crate at the root.
pub open spec fn is_changed(files: Seq<Seq<char>>, dir: Seq<char>) -> bool {
    dir == "."@ || any_under(files, dir)
}

/// Whether a change to these files is a change to a crate in the directory.
fn changes_crate(files: &Vec<String>, dir: &str) -> (r: bool)
    ensures
        r == is_changed(text::texts(files@), dir@),
{
    text::same(dir, ".") || has_file_under(files, dir)
}

/// The crates among these that a change to the files changes, in order.
pub open spec fn crates_changed(crates: Seq<Crate>, files: Seq<Seq<char>>) -> Seq<Crate>
    decreases crates.len(),
{
    if crates.len() == 0 {
        Seq::empty()
    } else {
        let rest = crates_changed(crates.drop_last(), files);
        if is_changed(files, crates.last().path@) {
            rest.push(crates.last())
        } else {
            rest
        }
    }
}

/// The crates that differ between two states of the branch, given the files that do. Going by what
/// differs, and not by what each commit did, leaves out what was reverted, and what a merge brought
/// in from the other side.
pub fn get_changed_crates(crates: Vec<Crate>, files: &Vec<String>) -> (r: Vec<Crate>)
    ensures
        r@ == crates_changed(crates@, text::texts(files@)),
{
    let ghost all = crates@;
    let mut changed: Vec<Crate> = Vec::new();
    assert(all.take(0) =~= Seq::empty());
    for c in it: crates
        invariant
            it.seq() == all,
            changed@ == crates_changed(all.take(it.index() as int), text::texts(files@)),
    {
        let ghost k = it.index() as int;
        assert(all.take(k + 1).drop_last() =~= all.take(k));
        assert(all.take(k + 1).last() == all[k]);
        if changes_crate(files, c.path.as_str()) {
            changed.push(c);
        }
    }
    assert(all.take(all.len() as int) =~= all);
    changed
}

/// The commits that are no merges and whose own change is one to a crate in the directory, in
/// order.
pub open spec fn commits_for(commits: Seq<RecordView>, dir: Seq<char>) -> Seq<CommitView>
    decreases commits.len(),
{
    if commits.len() == 0 {
        Seq::empty()
    } else {
        let rest = commits_for(commits.drop_last(), dir);
        if commits.last().parents <= 1 && is_changed(commits.last().files, dir) {
            rest.push(commits.last().info())
        } else {
            rest
        }
    }
}

/// The commits that changed a crate in the directory.
fn collect_for(commits: &[CommitRecord], dir: &str) -> (r: Vec<CommitInfo>)
    ensures
        commit_views(r@) == commits_for(record_views(commits@), dir@),
{
    let ghost views = record_views(commits@);
    let mut out: Vec<CommitInfo> = Vec::new();
    let mut i: usize = 0;
    assert(views.take(0) =~= Seq::empty());
    while i < commits.len()
        invariant
            i <= commits@.len(),
            views == record_views(commits@),
            commit_views(out@) == commits_for(views.take(i as int), dir@),
        decreases commits@.len() - i,
    {
        assert(views.take(i + 1).drop_last() =~= views.take(i as int));
        assert(views.take(i + 1).last() == commits@[i as int]@);
        let ghost before = commit_views(out@);
        if commits[i].parents <= 1 && changes_crate(&commits[i].files, dir) {
            let info = commit_info(&commits[i]);
            let ghost view = info@;
            out.push(info);
            assert(commit_views(out@) =~= before.push(view));
        }
        i += 1;
    }
    assert(views.take(i as int) =~= views);
    out
}

/// Attributes to each changed crate the commits that changed it, to show which ones are likely
/// responsible. Merges are left out: their difference from one parent does not say what they
/// themselves changed.
pub fn attribute_commits_to_crates(commits: &[CommitRecord], changed: Vec<Crate>) -> (r: Vec<
    (Crate, Vec<CommitInfo>),
>)
    ensures
        r@.len() == changed@.len(),
        forall|i: int|
            0 <= i < r@.len() ==> {
                &&& (#[trigger] r@[i]).0 == changed@[i]
                &&& commit_views(r@[i].1@) == commits_for(
                    record_views(commits@),
                    changed@[i].path@,
                )
            },
{
    let ghost all = changed@;
    let mut out: Vec<(Crate, Vec<CommitInfo>)> = Vec::new();
    for c in it: changed
        invariant
            it.seq() == all,
            out@.len() == it.index(),
            forall|i: int|
                0 <= i < out@.len() ==> {
                    &&& (#[trigger] out@[i]).0 == all[i]
                    &&& commit_views(out@[i].1@) == commits_for(
                        record_views(commits@),
                        all[i].path@,
                    )
                },
    {
        let own = collect_for(commits, c.path.as_str());
        out.push((c, own));
    }
    out
}

/// A crate and the version that it is bumped to.
#[derive(Debug)]
pub struct CrateUpdate {
    pub ccrate: Crate,
    pub new_version: Version,
}

/// What the trailer says of the updates: `name@new` for each.
pub open spec fn version_entries(updates: Seq<CrateUpdate>) -> Seq<Seq<char>> {
    Seq::new(
        updates.len(),
        |i: int| updates[i].ccrate.name@ + "@"@ + updates[i].new_version@.text(),
    )
}

/// A trailer that records the version that every crate was bumped to.
pub fn build_bump_trailer(updated: &[CrateUpdate]) -> (r: String)
    ensures
        r@ == NOTCH_TRAILER_KEY@ + ": "@ + text::joined(version_entries(updated@), ","@),
{
    let ghost all = version_entries(updated@);
    let mut pairs: Vec<String> = Vec::new();
    let mut i: usize = 0;
    while i < updated.len()
        invariant
            i <= updated@.len(),
            all == version_entries(updated@),
            text::texts(pairs@) == all.take(i as int),
        decreases updated@.len() - i,
    {
        let mut pair = updated[i].ccrate.name.clone();
        pair.append("@");
        pair.append(updated[i].new_version.to_string().as_str());
        assert(pair@ == all[i as int]);
        let ghost before = text::texts(pairs@);
        pairs.push(pair);
        assert(text::texts(pairs@) =~= before.push(all[i as int]));
        assert(all.take(i + 1) =~= all.take(i as int).push(all[i as int]));
        i += 1;
    }
    assert(all.take(i as int) =~= all);
    let mut s = NOTCH_TRAILER_KEY.to_owned();
    s.append(": ");
    s.append(text::join(&pairs, ",").as_str());
    s
}

/// The files under a directory are counted by path: each counts once, however often it is listed
/// and however it is written.
pub proof fn files_count_once_each(files: Seq<Seq<char>>, dir: Seq<char>)
    ensures
        files_under(files, dir) == files.map_values(
            |file: Seq<char>| components(file),
        ).to_set().filter(|path: Seq<Seq<char>>| components(dir).is_prefix_of(path)).len(),
        files_under(files, dir) <= files.len(),
    decreases files.len(),
{
    broadcast use vstd::seq_lib::group_seq_properties;
    broadcast use vstd::set::group_set_axioms;

    let path_of = |file: Seq<char>| components(file);
    let inside = |path: Seq<Seq<char>>| components(dir).is_prefix_of(path);
    let paths = files.map_values(path_of).to_set();
    files.map_values(path_of).lemma_cardinality_of_set();
    assert(paths.finite());
    if files.len() == 0 {
        assert(paths.filter(inside) =~= Set::empty());
    } else {
        let shorter = files.drop_last();
        let last = files.last();
        files_count_once_each(shorter, dir);
        let before = shorter.map_values(path_of).to_set();
        shorter.map_values(path_of).lemma_cardinality_of_set();
        assert(before.finite());
        assert(files.map_values(path_of) =~= shorter.map_values(path_of).push(path_of(last)));
        assert(paths =~= before.insert(components(last)));
        assert(before.contains(components(last)) <==> lists_file(shorter, last)) by {
            let mapped = shorter.map_values(path_of);
            if before.contains(components(last)) {
                let i = choose|i: int| 0 <= i < mapped.len() && mapped[i] == components(last);
                assert(components(shorter[i]) == components(last));
            }
            if lists_file(shorter, last) {
                let i = choose|i: int|
                    0 <= i < shorter.len() && components(#[trigger] shorter[i]) == components(last);
                assert(mapped[i] == components(last));
            }
        }
        if inside(components(last)) {
            assert(paths.filter(inside) =~= before.filter(inside).insert(components(last)));
        } else {
            assert(paths.filter(inside) =~= before.filter(inside));
        }
    }
}

/// Commits are looked at one by one: one that changes a file under the directory is listed, once
/// for notch, and for the builder once for each such file. No other is.
pub proof fn commits_under_come_one_by_one(
    a: Seq<RecordView>,
    b: Seq<RecordView>,
    dir: Seq<char>,
    tool: Tool,
)
    ensures
        commits_under(a + b, dir, tool) == commits_under(a, dir, tool) + commits_under(
            b,
            dir,
            tool,
        ),
        forall|c: RecordView| #[trigger]
            commits_under(seq![c], dir, Tool::Notch) == (if exists|i: int|
                0 <= i < c.files.len() && components(dir).is_prefix_of(
                    components(#[trigger] c.files[i]),
                ) {
                seq![c.info()]
            } else {
                Seq::empty()
            }),
        forall|c: RecordView| #[trigger]
            commits_under(seq![c], dir, Tool::Builder) == Seq::new(
                files_under(c.files, dir),
                |i: int| c.info(),
            ),
        commits_under(Seq::empty(), dir, tool).len() == 0,
    decreases b.len(),
{
    assert forall|c: RecordView| #[trigger]
        commits_under(seq![c], dir, Tool::Notch) == (if exists|i: int|
            0 <= i < c.files.len() && components(dir).is_prefix_of(
                components(#[trigger] c.files[i]),
            ) {
            seq![c.info()]
        } else {
            Seq::empty()
        }) by {
        assert(seq![c].drop_last() =~= Seq::empty());
        reveal_with_fuel(commits_under, 2);
        if any_under(c.files, dir) {
            let i = choose|i: int| 0 <= i < c.files.len() && is_under(#[trigger] c.files[i], dir);
            assert(components(dir).is_prefix_of(components(c.files[i])));
            assert(commits_under(seq![c], dir, Tool::Notch) =~= seq![c.info()]);
        } else {
            assert forall|i: int| 0 <= i < c.files.len() implies !components(dir).is_prefix_of(
                components(#[trigger] c.files[i]),
            ) by {
                assert(!is_under(c.files[i], dir));
            }
            assert(commits_under(seq![c], dir, Tool::Notch) =~= Seq::empty());
        }
    }
    assert forall|c: RecordView| #[trigger]
        commits_under(seq![c], dir, Tool::Builder) == Seq::new(
            files_under(c.files, dir),
            |i: int| c.info(),
        ) by {
        assert(seq![c].drop_last() =~= Seq::empty());
        reveal_with_fuel(commits_under, 2);
        assert(commits_under(seq![c], dir, Tool::Builder) =~= Seq::new(
            files_under(c.files, dir),
            |i: int| c.info(),
        ));
    }
    if b.len() == 0 {
        assert(a + b =~= a);
    } else {
        commits_under_come_one_by_one(a, b.drop_last(), dir, tool);
        assert((a + b).drop_last() =~= a + b.drop_last());
        assert((a + b).last() == b.last());
    }
    assert(commits_under(a + b, dir, tool) =~= commits_under(a, dir, tool) + commits_under(
        b,
        dir,
        tool,
    ));
}

/// Crates are looked at one by one: every crate that a commit changes comes out, with its commits,
/// and no other.
pub proof fn changed_crates_come_one_by_one(
    a: Seq<Crate>,
    b: Seq<Crate>,
    commits: Seq<RecordView>,
    tool: Tool,
)
    ensures
        changed_crates(a + b, commits, tool) == changed_crates(a, commits, tool) + changed_crates(
            b,
            commits,
            tool,
        ),
        forall|c: Crate| #[trigger]
            changed_crates(seq![c], commits, tool) == (if exists|i: int, j: int|
                0 <= i < commits.len() && 0 <= j < commits[i].files.len() && components(
                    c.path@,
                ).is_prefix_of(components(#[trigger] commits[i].files[j])) {
                seq![(c, commits_under(commits, c.path@, tool))]
            } else {
                Seq::empty()
            }),
        changed_crates(Seq::empty(), commits, tool).len() == 0,
    decreases b.len(),
{
    assert forall|c: Crate| #[trigger]
        changed_crates(seq![c], commits, tool) == (if exists|i: int, j: int|
            0 <= i < commits.len() && 0 <= j < commits[i].files.len() && components(
                c.path@,
            ).is_prefix_of(components(#[trigger] commits[i].files[j])) {
            seq![(c, commits_under(commits, c.path@, tool))]
        } else {
            Seq::empty()
        }) by {
        assert(seq![c].drop_last() =~= Seq::empty());
        reveal_with_fuel(changed_crates, 2);
        lemma_some_change(commits, c.path@, tool);
        if commits_under(commits, c.path@, tool).len() > 0 {
            assert(changed_crates(seq![c], commits, tool) =~= seq![
                (c, commits_under(commits, c.path@, tool)),
            ]);
        } else {
            assert(changed_crates(seq![c], commits, tool) =~= Seq::empty());
        }
    }
    if b.len() == 0 {
        assert(a + b =~= a);
    } else {
        changed_crates_come_one_by_one(a, b.drop_last(), commits, tool);
        assert((a + b).drop_last() =~= a + b.drop_last());
        assert((a + b).last() == b.last());
    }
    assert(changed_crates(a + b, commits, tool) =~= changed_crates(a, commits, tool)
        + changed_crates(b, commits, tool));
}

/// Commits are listed exactly if one of them changes a file under the directory.
proof fn lemma_some_change(commits: Seq<RecordView>, dir: Seq<char>, tool: Tool)
    ensures
        commits_under(commits, dir, tool).len() > 0 <==> exists|i: int, j: int|
            0 <= i < commits.len() && 0 <= j < commits[i].files.len() && components(
                dir,
            ).is_prefix_of(components(#[trigger] commits[i].files[j])),
    decreases commits.len(),
{
    if commits.len() > 0 {
        let shorter = commits.drop_last();
        let last = commits.last();
        lemma_some_change(shorter, dir, tool);
        lemma_files_under(last.files, dir);
        let k = commits.len() - 1;
        assert(commits[k] == last);
        if commits_under(shorter, dir, tool).len() > 0 {
            let (i, j) = choose|i: int, j: int|
                0 <= i < shorter.len() && 0 <= j < shorter[i].files.len() && components(
                    dir,
                ).is_prefix_of(components(#[trigger] shorter[i].files[j]));
            assert(commits[i] == shorter[i]);
            assert(components(dir).is_prefix_of(components(commits[i].files[j])));
        }
        if any_under(last.files, dir) {
            let j = choose|j: int| 0 <= j < last.files.len() && is_under(#[trigger] last.files[j], dir);
            assert(components(dir).is_prefix_of(components(commits[k].files[j])));
        }
        if exists|i: int, j: int|
            0 <= i < commits.len() && 0 <= j < commits[i].files.len() && components(
                dir,
            ).is_prefix_of(components(#[trigger] commits[i].files[j])) {
            let (i, j) = choose|i: int, j: int|
                0 <= i < commits.len() && 0 <= j < commits[i].files.len() && components(
                    dir,
                ).is_prefix_of(components(#[trigger] commits[i].files[j]));
            if i == k {
                assert(is_under(last.files[j], dir));
            } else {
                assert(shorter[i] == commits[i]);
                assert(components(dir).is_prefix_of(components(shorter[i].files[j])));
            }
        }
    }
}

/// A change changes each crate that has a file of it under its directory, and the crate at the root
/// in any case. The crates come out one by one.
pub proof fn changes_reach_crates_one_by_one(
    a: Seq<Crate>,
    b: Seq<Crate>,
    files: Seq<Seq<char>>,
)
    ensures
        crates_changed(a + b, files) == crates_changed(a, files) + crates_changed(b, files),
        forall|c: Crate| #[trigger]
            crates_changed(seq![c], files) == (if c.path@ == "."@ || exists|i: int|
                0 <= i < files.len() && components(c.path@).is_prefix_of(
                    components(#[trigger] files[i]),
                ) {
                seq![c]
            } else {
                Seq::empty()
            }),
        crates_changed(Seq::empty(), files).len() == 0,
    decreases b.len(),
{
    assert forall|c: Crate| #[trigger]
        crates_changed(seq![c], files) == (if c.path@ == "."@ || exists|i: int|
            0 <= i < files.len() && components(c.path@).is_prefix_of(
                components(#[trigger] files[i]),
            ) {
            seq![c]
        } else {
            Seq::empty()
        }) by {
        assert(seq![c].drop_last() =~= Seq::empty());
        reveal_with_fuel(crates_changed, 2);
        lemma_changed(files, c.path@);
        if is_changed(files, c.path@) {
            assert(crates_changed(seq![c], files) =~= seq![c]);
        } else {
            assert(crates_changed(seq![c], files) =~= Seq::empty());
        }
    }
    if b.len() == 0 {
        assert(a + b =~= a);
    } else {
        changes_reach_crates_one_by_one(a, b.drop_last(), files);
        assert((a + b).drop_last() =~= a + b.drop_last());
        assert((a + b).last() == b.last());
    }
    assert(crates_changed(a + b, files) =~= crates_changed(a, files) + crates_changed(b, files));
}

/// What it takes to be changed.
proof fn lemma_changed(files: Seq<Seq<char>>, dir: Seq<char>)
    ensures
        is_changed(files, dir) <==> dir == "."@ || exists|i: int|
            0 <= i < files.len() && components(dir).is_prefix_of(components(#[trigger] files[i])),
{
    if any_under(files, dir) {
        let i = choose|i: int| 0 <= i < files.len() && is_under(#[trigger] files[i], dir);
        assert(components(dir).is_prefix_of(components(files[i])));
    }
    if exists|i: int|
        0 <= i < files.len() && components(dir).is_prefix_of(components(#[trigger] files[i])) {
        let i = choose|i: int|
            0 <= i < files.len() && components(dir).is_prefix_of(components(#[trigger] files[i]));
        assert(is_under(files[i], dir));
    }
}

/// The commits for a crate come one by one: every commit that is no merge and changes a file under
/// the directory, every one at all that is no merge for the crate at the root, and no other.
pub proof fn commits_for_a_crate_come_one_by_one(
    a: Seq<RecordView>,
    b: Seq<RecordView>,
    dir: Seq<char>,
)
    ensures
        commits_for(a + b, dir) == commits_for(a, dir) + commits_for(b, dir),
        forall|c: RecordView| #[trigger]
            commits_for(seq![c], dir) == (if c.parents <= 1 && (dir == "."@ || exists|i: int|
                0 <= i < c.files.len() && components(dir).is_prefix_of(
                    components(#[trigger] c.files[i]),
                )) {
                seq![c.info()]
            } else {
                Seq::empty()
            }),
        commits_for(Seq::empty(), dir).len() == 0,
    decreases b.len(),
{
    assert forall|c: RecordView| #[trigger]
        commits_for(seq![c], dir) == (if c.parents <= 1 && (dir == "."@ || exists|i: int|
            0 <= i < c.files.len() && components(dir).is_prefix_of(
                components(#[trigger] c.files[i]),
            )) {
            seq![c.info()]
        } else {
            Seq::empty()
        }) by {
        assert(seq![c].drop_last() =~= Seq::empty());
        reveal_with_fuel(commits_for, 2);
        lemma_changed(c.files, dir);
        if c.parents <= 1 && is_changed(c.files, dir) {
            assert(commits_for(seq![c], dir) =~= seq![c.info()]);
        } else {
            assert(commits_for(seq![c], dir) =~= Seq::empty());
        }
    }
    if b.len() == 0 {
        assert(a + b =~= a);
    } else {
        commits_for_a_crate_come_one_by_one(a, b.drop_last(), dir);
        assert((a + b).drop_last() =~= a + b.drop_last());
        assert((a + b).last() == b.last());
    }
    assert(commits_for(a + b, dir) =~= commits_for(a, dir) + commits_for(b, dir));
}

/// The trailer names every crate of the release with its new version, and nothing else: read apart
/// at the commas, it gives back one entry for each, in order.
pub proof fn the_trailer_names_every_crate(updates: Seq<CrateUpdate>)
    requires
        updates.len() > 0,
        forall|i: int|
            0 <= i < updates.len() ==> text::lacks((#[trigger] updates[i]).ccrate.name@, ',')
                && text::lacks(updates[i].new_version@.text(), ','),
    ensures
        ({
            let entries = text::pieces(text::joined(version_entries(updates), ","@), ',');
            &&& entries.len() == updates.len()
            &&& forall|i: int|
                0 <= i < entries.len() ==> #[trigger] entries[i] == updates[i].ccrate.name@ + "@"@
                    + updates[i].new_version@.text()
        }),
{
    reveal_strlit(",");
    reveal_strlit("@");
    let all = version_entries(updates);
    assert(","@ =~= seq![',']);
    assert forall|i: int| 0 <= i < all.len() implies text::lacks(#[trigger] all[i], ',') by {
        let name = updates[i].ccrate.name@;
        let version = updates[i].new_version@.text();
        assert(text::lacks(name, ',') && text::lacks(version, ','));
        assert forall|k: int| 0 <= k < all[i].len() implies #[trigger] all[i][k] != ',' by {
            if k < name.len() {
                assert(all[i][k] == name[k]);
            } else if k > name.len() {
                assert(all[i][k] == version[k - name.len() - 1]);
            }
        }
    }
    text::split_undoes_join(all, ',');
}

} // verus!
