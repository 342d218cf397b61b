//! The cargo ecosystem: the packages of a workspace, and their versions in its manifests.
use crate::command::generate_lockfile;
use crate::document::{toml_entries, toml_layout, KeyPath, TomlEntry};
use crate::error::{NotchError, Result};
use crate::manifest::{
    admits_required, bump_manifest, bumped_entries, bumped_manifest_states_the_new_version,
    can_bump, edit_at, edits_admit, every_bumped_manifest_is_found, is_manifest_error,
    is_unaffected, only_stated_versions_are_bumped, own_bump, required_version, with_own_bump,
};
use crate::package::{
    a_root_package_covers_everything, components, depth, insert_path, is_ascending, is_under,
    join_path, joined_path, lies_under, names, parts_are_named_one_by_one, path_list, same_path,
    Package, PackageView, PathView,
};
use crate::text;
use crate::version::{requirement_admits, Version};
use vstd::prelude::*;

verus! {

/// A package as `cargo metadata` describes it.
#[derive(Debug)]
pub struct MetadataPackage {
    pub id: String,
    pub name: String,
    pub version: Version,
}

/// What `cargo metadata` says of a workspace.
#[derive(Debug)]
pub struct WorkspaceMetadata {
    /// The absolute path of the workspace root.
    pub workspace_root: String,
    /// The ids of the members.
    pub members: Vec<String>,
    pub packages: Vec<MetadataPackage>,
}

/// The directory that a package id names, relative to the workspace root: the id without its
/// scheme and its anchor, and without the root in front. The root itself is `"."`.
pub open spec fn member_path(id: Seq<char>, workspace_root: Seq<char>) -> Seq<char> {
    let raw = text::before(text::replaced(id, "path+file://"@, Seq::empty()), '#');
    let relative = if workspace_root.is_prefix_of(raw) {
        text::without_leading(raw.skip(workspace_root.len() as int), '/')
    } else {
        raw
    };
    if relative.len() == 0 {
        "."@
    } else {
        relative
    }
}

/// The directory that a package id names, relative to the workspace root.
pub fn clean_member_path(id: &str, workspace_root: &str) -> (r: String)
    ensures
        r@ == member_path(id@, workspace_root@),
{
    proof {
        reveal_strlit("path+file://");
        reveal_strlit("");
    }
    let bare = text::replace(id, "path+file://", "");
    assert(""@ =~= Seq::<char>::empty());
    let raw = match text::split_once(bare.as_str(), '#') {
        Some((head, _)) => head,
        None => bare.as_str(),
    };
    proof {
        text::lemma_first_index(bare@, '#');
        if text::first_index(bare@, '#') == bare@.len() {
            assert(text::before(bare@, '#') =~= bare@);
        }
    }
    let relative = match text::strip_prefix(raw, workspace_root) {
        Some(rest) => text::trim_leading(rest, '/'),
        None => raw,
    };
    if relative.is_empty() {
        ".".to_owned()
    } else {
        relative.to_owned()
    }
}

/// The first package with the id.
pub open spec fn package_with_id(packages: Seq<MetadataPackage>, id: Seq<char>) -> Option<
    MetadataPackage,
>
    decreases packages.len(),
{
    if packages.len() == 0 {
        None
    } else if packages[0].id@ == id {
        Some(packages[0])
    } else {
        package_with_id(packages.drop_first(), id)
    }
}

/// Where the first package with the id stands.
pub(crate) fn find_by_id(packages: &Vec<MetadataPackage>, id: &str) -> (r: usize)
    requires
        package_with_id(packages@, id@) is Some,
    ensures
        r < packages@.len(),
        package_with_id(packages@, id@) == Some(packages@[r as int]),
{
    let mut i: usize = 0;
    assert(packages@.skip(0) =~= packages@);
    while i < packages.len() && !text::same(packages[i].id.as_str(), id)
        invariant
            i <= packages@.len(),
            package_with_id(packages@, id@) is Some,
            package_with_id(packages@, id@) == package_with_id(packages@.skip(i as int), id@),
        decreases packages@.len() - i,
    {
        assert(packages@.skip(i as int)[0] == packages@[i as int]);
        assert(packages@.skip(i as int).drop_first() =~= packages@.skip(i + 1));
        i += 1;
    }
    assert(i < packages@.len() ==> packages@.skip(i as int)[0] == packages@[i as int]);
    i
}

/// Whether the package directory `outer` contains the package directory `inner`: the root contains
/// everything except itself.
pub open spec fn contains(outer: Seq<char>, inner: Seq<char>) -> bool {
    outer != inner && (outer == "."@ || is_under(inner, outer))
}

/// Whether the package directory `outer` contains the package directory `inner`.
pub fn contains_package(outer: &str, inner: &str) -> (r: bool)
    ensures
        r == contains(outer@, inner@),
{
    !text::same(outer, inner) && (text::same(outer, ".") || lies_under(inner, outer))
}

/// The paths of a package directory without the package directories inside it.
pub open spec fn without_nested(paths: PathView, dir: Seq<char>, dirs: Seq<Seq<char>>) -> PathView
    decreases dirs.len(),
{
    if dirs.len() == 0 {
        paths
    } else {
        let rest = without_nested(paths, dir, dirs.drop_last());
        if contains(dir, dirs.last()) {
            rest.excluding(dirs.last())
        } else {
            rest
        }
    }
}

impl WorkspaceMetadata {
    /// Every member is one of the packages.
    pub open spec fn is_complete(self) -> bool {
        forall|i: int|
            0 <= i < self.members@.len() ==> package_with_id(
                self.packages@,
                (#[trigger] self.members@[i])@,
            ) is Some
    }

    /// The directories of the members.
    pub open spec fn directories(self) -> Seq<Seq<char>> {
        Seq::new(
            self.members@.len(),
            |i: int| member_path(self.members@[i]@, self.workspace_root@),
        )
    }

    /// A member as a package: it owns its directory without the members inside it.
    pub open spec fn package(self, i: int) -> PackageView {
        let found = package_with_id(self.packages@, self.members@[i]@)->0;
        let path = self.directories()[i];
        PackageView {
            path,
            name: found.name@,
            version: found.version@,
            manifest: joined_path(path, "Cargo.toml"@),
            paths: without_nested(PathView::of_directory(path), path, self.directories()),
        }
    }
}

/// The cargo ecosystem: workspace members discovered via `cargo metadata`, versions written back
/// to their `Cargo.toml`, and a single `Cargo.lock` at the workspace root refreshed afterwards.
#[derive(Debug, Clone, Copy)]
pub struct CargoEcosystem;

impl CargoEcosystem {
    /// The packages of the workspace. Each member is subtracted from any member whose directory
    /// contains it: without that, a workspace root that is also a package would claim every file
    /// of its members.
    pub fn packages(&self, metadata: &WorkspaceMetadata) -> (r: Vec<Package>)
        requires
            metadata.is_complete(),
        ensures
            r@.len() == metadata.members@.len(),
            forall|i: int| 0 <= i < r@.len() ==> (#[trigger] r@[i])@ == metadata.package(i),
    {
        let ghost dirs = metadata.directories();
        let mut cleaned: Vec<Package> = Vec::new();
        let mut paths: Vec<String> = Vec::new();
        let mut i: usize = 0;
        while i < metadata.members.len()
            invariant
                i <= metadata.members@.len(),
                metadata.is_complete(),
                dirs == metadata.directories(),
                cleaned@.len() == i,
                text::texts(paths@) == dirs.take(i as int),
                forall|j: int|
                    0 <= j < i ==> (#[trigger] cleaned@[j])@ == (PackageView {
                        paths: PathView::of_directory(dirs[j]),
                        ..metadata.package(j)
                    }),
            decreases metadata.members@.len() - i,
        {
            let id = metadata.members[i].as_str();
            assert(package_with_id(metadata.packages@, metadata.members@[i as int]@) is Some);
            let path = clean_member_path(id, metadata.workspace_root.as_str());
            let found = &metadata.packages[find_by_id(&metadata.packages, id)];
            let manifest = join_path(path.as_str(), "Cargo.toml");
            let ghost before = text::texts(paths@);
            paths.push(path.clone());
            assert(text::texts(paths@) =~= before.push(dirs[i as int]));
            assert(dirs.take(i + 1) =~= dirs.take(i as int).push(dirs[i as int]));
            cleaned.push(Package::new(path, found.name.clone(), found.version.clone(), manifest));
            i += 1;
        }
        assert(dirs.take(i as int) =~= dirs);
        let mut k: usize = 0;
        while k < cleaned.len()
            invariant
                k <= cleaned@.len() == metadata.members@.len(),
                dirs == metadata.directories(),
                text::texts(paths@) == dirs,
                forall|j: int| 0 <= j < k ==> (#[trigger] cleaned@[j])@ == metadata.package(j),
                forall|j: int|
                    k <= j < cleaned@.len() ==> (#[trigger] cleaned@[j])@ == (PackageView {
                        paths: PathView::of_directory(dirs[j]),
                        ..metadata.package(j)
                    }),
            decreases cleaned@.len() - k,
        {
            exclude_nested(&mut cleaned[k], &paths);
            k += 1;
        }
        cleaned
    }

    /// Every manifest that could mention a bumped package, in order and each once: those of the
    /// packages, and the one at the workspace root, which is where the workspace keeps its shared
    /// dependencies.
    pub fn manifests(&self, packages: &Vec<Package>) -> (r: Vec<String>)
        ensures
            is_ascending(path_list(r@)),
            forall|p: Seq<Seq<char>>| #[trigger]
                path_list(r@).contains(p) <==> p == components("Cargo.toml"@) || exists|i: int|
                    0 <= i < packages@.len() && components((#[trigger] packages@[i]).manifest@)
                        == p,
    {
        let mut paths: Vec<String> = Vec::new();
        assert(path_list(paths@) =~= Seq::empty());
        let mut i: usize = 0;
        while i < packages.len()
            invariant
                i <= packages@.len(),
                is_ascending(path_list(paths@)),
                forall|p: Seq<Seq<char>>| #[trigger]
                    path_list(paths@).contains(p) <==> exists|j: int|
                        0 <= j < i && components((#[trigger] packages@[j]).manifest@) == p,
            decreases packages@.len() - i,
        {
            let ghost before = path_list(paths@);
            insert_path(&mut paths, packages[i].manifest.clone());
            assert forall|p: Seq<Seq<char>>| #[trigger]
                path_list(paths@).contains(p) <==> exists|j: int|
                    0 <= j < i + 1 && components((#[trigger] packages@[j]).manifest@) == p by {
                assert(before.contains(p) <==> exists|j: int|
                    0 <= j < i && components((#[trigger] packages@[j]).manifest@) == p);
                if p == components(packages@[i as int].manifest@) {
                    assert(components(packages@[i as int].manifest@) == p);
                }
            }
            i += 1;
        }
        insert_path(&mut paths, "Cargo.toml".to_owned());
        paths
    }

    /// Computes every manifest after the bumps, without writing any: either every package can be
    /// bumped, or none is. A package whose manifest is not among the files cannot. Manifests that
    /// stay as they are do not come out.
    pub fn set_versions(&self, files: Vec<ManifestFile>, bumps: &[(Package, Version)]) -> (r: Result<
        Vec<StagedManifest>,
    >)
        ensures
            match r {
                Ok(staged) => {
                    &&& has_every_manifest(files@, bumps@)
                    &&& forall|i: int| 0 <= i < files@.len() ==> (#[trigger] files@[i]).fits(bumps@)
                    &&& staged_files(staged@) == affected(files@, bumps@)
                    &&& forall|i: int|
                        0 <= i < staged@.len() ==> (#[trigger] staged@[i]).is_bumped(bumps@)
                },
                Err(e) => if has_every_manifest(files@, bumps@) {
                    exists|i: int| #[trigger] is_first_unfit(files@, bumps@, i)
                        && is_manifest_error(files@[i].contents@, files@[i].path@, bumps@, e)
                } else {
                    exists|i: int| #[trigger] is_first_missing(files@, bumps@, i)
                        && is_missing_error(bumps@[i].0.manifest@, e)
                },
            },
    {
        let ghost all = files@;
        let mut i: usize = 0;
        while i < bumps.len()
            invariant
                i <= bumps@.len(),
                has_every_manifest(files@, bumps@.take(i as int)),
            decreases bumps@.len() - i,
        {
            let manifest = bumps[i].0.manifest.as_str();
            if !among_files(&files, manifest) {
                proof {
                    assert(is_first_missing(files@, bumps@, i as int)) by {
                        assert forall|j: int| 0 <= j < i implies has_manifest(
                            files@,
                            (#[trigger] bumps@[j]).0.manifest@,
                        ) by {
                            assert(bumps@.take(i as int)[j] == bumps@[j]);
                        }
                    }
                }
                return Err(NotchError::MissingManifest(manifest.to_owned()));
            }
            assert forall|j: int| 0 <= j < i + 1 implies has_manifest(
                files@,
                (#[trigger] bumps@.take(i + 1)[j]).0.manifest@,
            ) by {
                if j < i {
                    assert(bumps@.take(i as int)[j] == bumps@[j]);
                }
            }
            i += 1;
        }
        assert(bumps@.take(i as int) =~= bumps@);
        let mut staged: Vec<StagedManifest> = Vec::new();
        assert(all.take(0) =~= Seq::empty());
        assert(staged_files(staged@) =~= affected(all.take(0), bumps@));
        for file in it: files
            invariant
                it.seq() == all,
                has_every_manifest(all, bumps@),
                forall|j: int| 0 <= j < it.index() ==> (#[trigger] all[j]).fits(bumps@),
                staged_files(staged@) == affected(all.take(it.index() as int), bumps@),
                forall|j: int|
                    0 <= j < staged@.len() ==> (#[trigger] staged@[j]).is_bumped(bumps@),
        {
            let ghost k = it.index() as int;
            assert(all.take(k + 1).drop_last() =~= all.take(k));
            assert(all.take(k + 1).last() == all[k]);
            match bump_manifest(file.path.as_str(), file.contents.as_str(), bumps) {
                Ok(Some(updated)) => {
                    let ghost before = staged_files(staged@);
                    staged.push(StagedManifest { file, updated });
                    assert(staged_files(staged@) =~= before.push(all[k]));
                },
                Ok(None) => {},
                Err(e) => {
                    assert(is_first_unfit(all, bumps@, k));
                    return Err(e);
                },
            }
        }
        assert(all.take(all.len() as int) =~= all);
        Ok(staged)
    }

    /// The command that refreshes the lockfile after the versions have changed.
    pub fn refresh_lock_command(&self) -> (r: Vec<&'static str>)
        ensures
            r@.len() == 2,
            r@[0]@ == "cargo"@,
            r@[1]@ == "generate-lockfile"@,
    {
        generate_lockfile()
    }

    /// The files that refreshing the lockfile touches: a workspace has one, at its root.
    pub fn refresh_lock_touches(&self) -> (r: Vec<String>)
        ensures
            text::texts(r@) == seq!["Cargo.lock"@],
    {
        let r = vec!["Cargo.lock".to_owned()];
        assert(text::texts(r@) =~= seq!["Cargo.lock"@]);
        r
    }
}

/// A manifest as it is on disk.
#[derive(Debug)]
pub struct ManifestFile {
    pub path: String,
    pub contents: String,
}

impl ManifestFile {
    /// Whether the bumps can be applied to the manifest.
    pub open spec fn fits(self, bumps: Seq<(Package, Version)>) -> bool {
        can_bump(self.contents@, self.path@, bumps)
    }

    /// Whether the bumps change the manifest.
    pub open spec fn is_affected(self, bumps: Seq<(Package, Version)>) -> bool {
        !is_unaffected(toml_entries(self.contents@)->0, self.path@, bumps)
    }
}

/// A manifest together with what it becomes.
#[derive(Debug)]
pub struct StagedManifest {
    pub file: ManifestFile,
    pub updated: String,
}

impl StagedManifest {
    /// Whether what it becomes is what the bumps make of it, laid out as it was, with every
    /// requirement that changed admitting the new version.
    pub open spec fn is_bumped(self, bumps: Seq<(Package, Version)>) -> bool {
        &&& toml_entries(self.updated@) == Some(
            bumped_entries(toml_entries(self.file.contents@)->0, self.file.path@, bumps),
        )
        &&& toml_layout(self.updated@) == toml_layout(self.file.contents@)
        &&& edits_admit(
            with_own_bump(toml_entries(self.file.contents@)->0, self.file.path@, bumps),
            bumps,
        )
    }
}

/// The manifests as they are on disk.
pub open spec fn staged_files(staged: Seq<StagedManifest>) -> Seq<ManifestFile> {
    Seq::new(staged.len(), |i: int| staged[i].file)
}

/// The manifests that the bumps change, in order.
pub open spec fn affected(
    files: Seq<ManifestFile>,
    bumps: Seq<(Package, Version)>,
) -> Seq<ManifestFile>
    decreases files.len(),
{
    if files.len() == 0 {
        Seq::empty()
    } else {
        let rest = affected(files.drop_last(), bumps);
        if files.last().is_affected(bumps) {
            rest.push(files.last())
        } else {
            rest
        }
    }
}

/// Whether the manifest is one of the files.
pub open spec fn has_manifest(files: Seq<ManifestFile>, manifest: Seq<char>) -> bool {
    exists|i: int|
        0 <= i < files.len() && components((#[trigger] files[i]).path@) == components(manifest)
}

/// Whether the manifest of every bumped package is one of the files.
pub open spec fn has_every_manifest(
    files: Seq<ManifestFile>,
    bumps: Seq<(Package, Version)>,
) -> bool {
    forall|i: int| 0 <= i < bumps.len() ==> has_manifest(files, (#[trigger] bumps[i]).0.manifest@)
}

/// Whether `i` is the first of the bumps whose manifest is none of the files.
pub open spec fn is_first_missing(
    files: Seq<ManifestFile>,
    bumps: Seq<(Package, Version)>,
    i: int,
) -> bool {
    &&& 0 <= i < bumps.len()
    &&& !has_manifest(files, bumps[i].0.manifest@)
    &&& forall|j: int| 0 <= j < i ==> has_manifest(files, (#[trigger] bumps[j]).0.manifest@)
}

/// Whether the error says that the manifest is missing.
pub open spec fn is_missing_error(manifest: Seq<char>, e: NotchError) -> bool {
    e matches NotchError::MissingManifest(m) && m@ == manifest
}

/// Whether the manifest is one of the files.
fn among_files(files: &Vec<ManifestFile>, manifest: &str) -> (r: bool)
    ensures
        r == has_manifest(files@, manifest@),
{
    let mut i: usize = 0;
    while i < files.len()
        invariant
            i <= files@.len(),
            forall|j: int|
                0 <= j < i ==> components((#[trigger] files@[j]).path@) != components(manifest@),
        decreases files@.len() - i,
    {
        if same_path(files[i].path.as_str(), manifest) {
            return true;
        }
        i += 1;
    }
    false
}

/// Whether `i` is the first of the manifests that the bumps cannot be applied to.
pub open spec fn is_first_unfit(
    files: Seq<ManifestFile>,
    bumps: Seq<(Package, Version)>,
    i: int,
) -> bool {
    &&& 0 <= i < files.len()
    &&& !files[i].fits(bumps)
    &&& forall|j: int| 0 <= j < i ==> (#[trigger] files[j]).fits(bumps)
}

/// What comes next in writing staged manifests.
#[derive(Debug)]
pub enum WriteStep {
    /// Write the manifest with this number.
    Write(usize),
    /// All are written; these are the files that were touched.
    Finished(Vec<String>),
    /// A write failed: put these files back to these contents, and report the failed one.
    RollBack { restore: Vec<(String, String)>, failed: String },
}

/// The paths of the staged manifests.
pub open spec fn staged_paths(staged: Seq<StagedManifest>) -> Seq<Seq<char>> {
    Seq::new(staged.len(), |i: int| staged[i].file.path@)
}

/// What to put back after the first manifests have been written to: the path and the old contents
/// of each.
pub open spec fn restores(list: Seq<(String, String)>, staged: Seq<StagedManifest>) -> bool {
    &&& list.len() <= staged.len()
    &&& forall|i: int|
        0 <= i < list.len() ==> (#[trigger] list[i]).0@ == staged[i].file.path@ && list[i].1@
            == staged[i].file.contents@
}

/// What comes next when `written` manifests have been written. After a failed write every one that
/// was written before it is put back, and the one that failed too, because the attempt may have
/// left part of it behind: the workspace is not left half bumped.
pub fn next_write(staged: &Vec<StagedManifest>, written: usize, failed: bool) -> (r: WriteStep)
    requires
        written <= staged@.len(),
        failed ==> written < staged@.len(),
    ensures
        if failed {
            r matches WriteStep::RollBack { restore, failed: f } && restore@.len() == written + 1
                && restores(restore@, staged@) && f@ == staged@[written as int].file.path@
        } else if written < staged@.len() {
            r == WriteStep::Write(written)
        } else {
            r matches WriteStep::Finished(touched) && text::texts(touched@) == staged_paths(staged@)
        },
{
    if failed {
        let total: usize = staged.len();
        let mut restore: Vec<(String, String)> = Vec::new();
        let mut i: usize = 0;
        while i <= written
            invariant
                i <= written + 1 <= total == staged@.len(),
                restore@.len() == i,
                restores(restore@, staged@),
            decreases written + 1 - i,
        {
            restore.push((staged[i].file.path.clone(), staged[i].file.contents.clone()));
            i += 1;
        }
        WriteStep::RollBack { restore, failed: staged[written].file.path.clone() }
    } else if written < staged.len() {
        WriteStep::Write(written)
    } else {
        let mut touched: Vec<String> = Vec::new();
        let mut i: usize = 0;
        while i < staged.len()
            invariant
                i <= staged@.len(),
                text::texts(touched@) == staged_paths(staged@).take(i as int),
            decreases staged@.len() - i,
        {
            let ghost before = text::texts(touched@);
            touched.push(staged[i].file.path.clone());
            assert(text::texts(touched@) =~= before.push(staged@[i as int].file.path@));
            assert(staged_paths(staged@).take(i + 1) =~= staged_paths(staged@).take(i as int).push(
                staged@[i as int].file.path@,
            ));
            i += 1;
        }
        assert(staged_paths(staged@).take(i as int) =~= staged_paths(staged@));
        WriteStep::Finished(touched)
    }
}

/// Takes the package directories inside a package out of what it owns.
fn exclude_nested(package: &mut Package, dirs: &Vec<String>)
    ensures
        final(package)@ == (PackageView {
            paths: without_nested(
                old(package)@.paths,
                old(package)@.path,
                text::texts(dirs@),
            ),
            ..old(package)@
        }),
{
    let ghost all = text::texts(dirs@);
    let ghost start = package@;
    let mut i: usize = 0;
    while i < dirs.len()
        invariant
            i <= dirs@.len(),
            all == text::texts(dirs@),
            package@ == (PackageView {
                paths: without_nested(start.paths, start.path, all.take(i as int)),
                ..start
            }),
        decreases dirs@.len() - i,
    {
        assert(all.take(i + 1).drop_last() =~= all.take(i as int));
        assert(all.take(i + 1).last() == dirs@[i as int]@);
        if contains_package(package.path.as_str(), dirs[i].as_str()) {
            package.paths.exclude(dirs[i].as_str());
        }
        i += 1;
    }
    assert(all.take(i as int) =~= all);
}

/// The files on disk after the first `n` staged manifests have been written.
pub open spec fn after_writes(
    disk: Map<Seq<char>, Seq<char>>,
    staged: Seq<StagedManifest>,
    n: nat,
) -> Map<Seq<char>, Seq<char>>
    decreases n,
{
    if n == 0 {
        disk
    } else {
        after_writes(disk, staged, (n - 1) as nat).insert(
            staged[n - 1].file.path@,
            staged[n - 1].updated@,
        )
    }
}

/// The files on disk after files have been put back.
pub open spec fn after_restores(
    disk: Map<Seq<char>, Seq<char>>,
    list: Seq<(String, String)>,
) -> Map<Seq<char>, Seq<char>>
    decreases list.len(),
{
    if list.len() == 0 {
        disk
    } else {
        after_restores(disk, list.drop_last()).insert(list.last().0@, list.last().1@)
    }
}

/// Rolling back after a failed write leaves every file as it was before the first write, whatever
/// the attempt left in the file that it failed on.
pub proof fn rolling_back_undoes_the_writes(
    disk: Map<Seq<char>, Seq<char>>,
    staged: Seq<StagedManifest>,
    list: Seq<(String, String)>,
    left: Seq<char>,
)
    requires
        restores(list, staged),
        list.len() > 0,
        forall|i: int|
            0 <= i < staged.len() ==> disk.contains_key((#[trigger] staged[i]).file.path@)
                && disk[staged[i].file.path@] == staged[i].file.contents@,
    ensures
        after_restores(
            after_writes(disk, staged, (list.len() - 1) as nat).insert(
                staged[list.len() - 1].file.path@,
                left,
            ),
            list,
        ) == disk,
{
    let before = after_writes(disk, staged, (list.len() - 1) as nat);
    let written = before.insert(staged[list.len() - 1].file.path@, left);
    lemma_writes_stay_inside(disk, staged, (list.len() - 1) as nat);
    assert(written.dom() =~= disk.dom()) by {
        assert(disk.contains_key(staged[list.len() - 1].file.path@));
    }
    lemma_restored(disk, written, staged, list);
    assert(after_restores(written, list) =~= disk) by {
        assert forall|p: Seq<char>| #[trigger] disk.contains_key(p) implies after_restores(
            written,
            list,
        )[p] == disk[p] by {
            if exists|i: int| 0 <= i < list.len() && (#[trigger] list[i]).0@ == p {
                let i = choose|i: int| 0 <= i < list.len() && (#[trigger] list[i]).0@ == p;
                assert(staged[i].file.path@ == p);
            } else {
                assert forall|i: int| 0 <= i < list.len() implies (
                #[trigger] staged[i]).file.path@ != p by {
                    assert(list[i].0@ == staged[i].file.path@);
                }
            }
        }
    }
}

/// Writes keep the set of files, and change only files that are written.
proof fn lemma_writes_stay_inside(
    disk: Map<Seq<char>, Seq<char>>,
    staged: Seq<StagedManifest>,
    n: nat,
)
    requires
        n <= staged.len(),
        forall|i: int|
            0 <= i < staged.len() ==> disk.contains_key((#[trigger] staged[i]).file.path@),
    ensures
        after_writes(disk, staged, n).dom() == disk.dom(),
        forall|p: Seq<char>|
            disk.contains_key(p) && (forall|i: int|
                0 <= i < n ==> (#[trigger] staged[i]).file.path@ != p) ==> #[trigger] after_writes(
                disk,
                staged,
                n,
            )[p] == disk[p],
    decreases n,
{
    if n > 0 {
        lemma_writes_stay_inside(disk, staged, (n - 1) as nat);
        assert(disk.contains_key(staged[n - 1].file.path@));
        assert(after_writes(disk, staged, n).dom() =~= disk.dom());
    }
}

/// What is put back is as it was, and nothing else changes.
proof fn lemma_restored(
    disk: Map<Seq<char>, Seq<char>>,
    written: Map<Seq<char>, Seq<char>>,
    staged: Seq<StagedManifest>,
    list: Seq<(String, String)>,
)
    requires
        restores(list, staged),
        written.dom() == disk.dom(),
        forall|i: int|
            0 <= i < staged.len() ==> disk.contains_key((#[trigger] staged[i]).file.path@)
                && disk[staged[i].file.path@] == staged[i].file.contents@,
    ensures
        after_restores(written, list).dom() == disk.dom(),
        forall|i: int|
            0 <= i < list.len() ==> after_restores(written, list)[(#[trigger] list[i]).0@]
                == disk[list[i].0@],
        forall|p: Seq<char>|
            (forall|i: int| 0 <= i < list.len() ==> (#[trigger] list[i]).0@ != p)
                ==> #[trigger] after_restores(written, list)[p] == written[p],
    decreases list.len(),
{
    if list.len() > 0 {
        let shorter = list.drop_last();
        assert forall|i: int| 0 <= i < shorter.len() implies (#[trigger] shorter[i]).0@
            == staged[i].file.path@ && shorter[i].1@ == staged[i].file.contents@ by {
            assert(shorter[i] == list[i]);
        }
        lemma_restored(disk, written, staged, shorter);
        let last = list[list.len() - 1];
        assert(last.0@ == staged[list.len() - 1].file.path@);
        assert(after_restores(written, list).dom() =~= disk.dom());
        assert forall|i: int| 0 <= i < list.len() implies after_restores(written, list)[(
        #[trigger] list[i]).0@] == disk[list[i].0@] by {
            if i < shorter.len() {
                assert(shorter[i] == list[i]);
            }
        }
        assert forall|p: Seq<char>|
            (forall|i: int| 0 <= i < list.len() ==> (#[trigger] list[i]).0@ != p) implies
            #[trigger] after_restores(written, list)[p] == written[p] by {
            assert forall|i: int| 0 <= i < shorter.len() implies (#[trigger] shorter[i]).0@
                != p by {
                assert(shorter[i] == list[i]);
            }
            assert(list[list.len() - 1].0@ != p);
        }
    }
}

/// A package is found by its id if there is one with that id, and the first of them is.
pub proof fn the_first_package_of_the_id_is_found(packages: Seq<MetadataPackage>, id: Seq<char>)
    ensures
        match package_with_id(packages, id) {
            Some(p) => exists|i: int|
                {
                    &&& 0 <= i < packages.len()
                    &&& #[trigger] packages[i] == p
                    &&& p.id@ == id
                    &&& forall|j: int| 0 <= j < i ==> (#[trigger] packages[j]).id@ != id
                },
            None => forall|i: int| 0 <= i < packages.len() ==> (#[trigger] packages[i]).id@ != id,
        },
    decreases packages.len(),
{
    if packages.len() > 0 {
        if packages[0].id@ == id {
            assert(packages[0] == packages[0]);
        } else {
            let rest = packages.drop_first();
            the_first_package_of_the_id_is_found(rest, id);
            match package_with_id(rest, id) {
                Some(p) => {
                    let i = choose|i: int|
                        {
                            &&& 0 <= i < rest.len()
                            &&& #[trigger] rest[i] == p
                            &&& p.id@ == id
                            &&& forall|j: int| 0 <= j < i ==> (#[trigger] rest[j]).id@ != id
                        };
                    assert(packages[i + 1] == p);
                    assert forall|j: int| 0 <= j < i + 1 implies (
                    #[trigger] packages[j]).id@ != id by {
                        if j > 0 {
                            assert(packages[j] == rest[j - 1]);
                        }
                    }
                },
                None => {
                    assert forall|i: int| 0 <= i < packages.len() implies (
                    #[trigger] packages[i]).id@ != id by {
                        if i > 0 {
                            assert(packages[i] == rest[i - 1]);
                        }
                    }
                },
            }
        }
    }
}

/// The id of a member leads to its directory below the workspace root, and the id of the root
/// package to `"."`.
pub proof fn member_ids_lead_to_their_directory(
    root: Seq<char>,
    dir: Seq<char>,
    anchor: Seq<char>,
)
    requires
        text::lacks(root, '#'),
        text::lacks(dir, '#'),
        dir.len() > 0,
        dir[0] != '/',
        forall|k: int|
            0 <= k < (root + "/"@ + dir + "#"@ + anchor).len() ==> !"path+file://"@.is_prefix_of(
                #[trigger] (root + "/"@ + dir + "#"@ + anchor).skip(k),
            ),
        forall|k: int|
            0 <= k < (root + "#"@ + anchor).len() ==> !"path+file://"@.is_prefix_of(
                #[trigger] (root + "#"@ + anchor).skip(k),
            ),
    ensures
        member_path("path+file://"@ + (root + "/"@ + dir + "#"@ + anchor), root) == dir,
        member_path("path+file://"@ + (root + "#"@ + anchor), root) == "."@,
{
    reveal_strlit("path+file://");
    reveal_strlit("/");
    reveal_strlit("#");
    let scheme = "path+file://"@;
    let none = Seq::<char>::empty();
    let inner = root + "/"@ + dir + "#"@ + anchor;
    text::lemma_replaced_front(inner, scheme, none);
    text::without_an_occurrence_nothing_is_replaced(inner, scheme, none);
    assert(none + inner =~= inner);
    let raw = root + "/"@ + dir;
    assert(text::lacks(raw, '#'));
    assert(inner =~= raw + seq!['#'] + anchor);
    text::the_first_separator_splits(raw, '#', anchor);
    assert(raw.take(root.len() as int) =~= root);
    assert(root.is_prefix_of(raw));
    let below = raw.skip(root.len() as int);
    assert(below =~= "/"@ + dir);
    let a = text::leading_characters_are_all_taken_off(below, '/');
    assert(below[0] == '/');
    assert(below[1] == dir[0]);
    assert(a == 1) by {
        if a > 1 {
            assert(below[1] == '/');
        }
    }
    assert(below.skip(1) =~= dir);
    let outer = root + "#"@ + anchor;
    text::lemma_replaced_front(outer, scheme, none);
    text::without_an_occurrence_nothing_is_replaced(outer, scheme, none);
    assert(none + outer =~= outer);
    assert(outer =~= root + seq!['#'] + anchor);
    text::the_first_separator_splits(root, '#', anchor);
    assert(root.take(root.len() as int) =~= root);
    assert(root.is_prefix_of(root));
    assert(root.skip(root.len() as int) =~= none);
}

/// A package owns exactly the files in its directory that are in no package directory inside it:
/// whichever member a nested directory is, its files belong to it and not to the outer package.
pub proof fn nested_members_own_their_files(
    dir: Seq<char>,
    dirs: Seq<Seq<char>>,
    file: Seq<char>,
)
    requires
        forall|k: int| 0 <= k < dirs.len() ==> (#[trigger] dirs[k]).len() > 0,
    ensures
        without_nested(PathView::of_directory(dir), dir, dirs).covers(file) <==> {
            &&& dir == "."@ || is_under(file, dir)
            &&& forall|k: int|
                0 <= k < dirs.len() && dirs[k] != dir && (dir == "."@ || is_under(dirs[k], dir))
                    ==> !is_under(file, #[trigger] dirs[k])
        },
{
    let start = PathView::of_directory(dir);
    let spec = without_nested(start, dir, dirs);
    lemma_nested_excluded(start, dir, dirs);
    let top = start.owned[0];
    assert(spec.owned == start.owned);
    if dir == "."@ {
        a_root_package_covers_everything(file);
        let t = choose|t: int|
            0 <= t < start.owned.len() && is_under(file, #[trigger] start.owned[t]) && (forall|
                e: int,
            |
                0 <= e < start.excluded.len() && is_under(file, #[trigger] start.excluded[e])
                    ==> depth(start.excluded[e]) < depth(start.owned[t]));
        assert(is_under(file, top));
        lemma_empty_path();
    }
    assert(is_under(file, top) <==> dir == "."@ || is_under(file, dir));
    assert forall|e: Seq<char>| spec.excluded.contains(e) implies depth(top) <= depth(e) by {
        let k = choose|k: int|
            0 <= k < dirs.len() && #[trigger] dirs[k] == e && contains(dir, dirs[k]);
        if dir != "."@ {
            assert(is_under(e, dir));
        }
    }
    if spec.covers(file) {
        let t = choose|t: int|
            0 <= t < spec.owned.len() && is_under(file, #[trigger] spec.owned[t]) && (forall|e: int|
                0 <= e < spec.excluded.len() && is_under(file, #[trigger] spec.excluded[e])
                    ==> depth(spec.excluded[e]) < depth(spec.owned[t]));
        assert(spec.owned[t] == top);
        assert forall|k: int|
            0 <= k < dirs.len() && dirs[k] != dir && (dir == "."@ || is_under(
                dirs[k],
                dir,
            )) implies !is_under(file, #[trigger] dirs[k]) by {
            assert(contains(dir, dirs[k]));
            assert(spec.excluded.contains(dirs[k]));
            let e = choose|e: int| 0 <= e < spec.excluded.len() && spec.excluded[e] == dirs[k];
            if is_under(file, dirs[k]) {
                assert(is_under(file, spec.excluded[e]));
            }
        }
    }
    if (dir == "."@ || is_under(file, dir)) && (forall|k: int|
        0 <= k < dirs.len() && dirs[k] != dir && (dir == "."@ || is_under(dirs[k], dir))
            ==> !is_under(file, #[trigger] dirs[k])) {
        assert(is_under(file, spec.owned[0]));
        assert forall|e: int|
            0 <= e < spec.excluded.len() && is_under(
                file,
                #[trigger] spec.excluded[e],
            ) implies depth(spec.excluded[e]) < depth(spec.owned[0]) by {
            assert(spec.excluded.contains(spec.excluded[e]));
            let k = choose|k: int|
                0 <= k < dirs.len() && #[trigger] dirs[k] == spec.excluded[e] && contains(
                    dir,
                    dirs[k],
                );
            assert(!is_under(file, dirs[k]));
        }
    }
}

/// The empty path has no components.
proof fn lemma_empty_path()
    ensures
        depth(Seq::<char>::empty()) == 0,
{
    let root = Seq::<char>::empty();
    text::lemma_pieces_single(root, '/');
    reveal_strlit(".");
    parts_are_named_one_by_one(seq![root], Seq::empty());
    assert(names(seq![root]) =~= Seq::empty());
    assert(components(root) =~= Seq::empty());
}

/// What is carved out of a package are the package directories inside it, all of them.
proof fn lemma_nested_excluded(paths: PathView, dir: Seq<char>, dirs: Seq<Seq<char>>)
    requires
        paths.excluded.len() == 0,
        forall|k: int| 0 <= k < dirs.len() ==> (#[trigger] dirs[k]).len() > 0,
    ensures
        without_nested(paths, dir, dirs).owned == paths.owned,
        forall|e: Seq<char>| #[trigger]
            without_nested(paths, dir, dirs).excluded.contains(e) <==> exists|k: int|
                0 <= k < dirs.len() && #[trigger] dirs[k] == e && contains(dir, dirs[k]),
    decreases dirs.len(),
{
    broadcast use vstd::seq_lib::group_seq_properties;

    if dirs.len() > 0 {
        let shorter = dirs.drop_last();
        assert forall|k: int| 0 <= k < shorter.len() implies (#[trigger] shorter[k]).len() > 0 by {
            assert(shorter[k] == dirs[k]);
        }
        lemma_nested_excluded(paths, dir, shorter);
        let rest = without_nested(paths, dir, shorter).excluded;
        let last = dirs[dirs.len() - 1];
        assert forall|e: Seq<char>| #[trigger]
            without_nested(paths, dir, dirs).excluded.contains(e) <==> exists|k: int|
                0 <= k < dirs.len() && #[trigger] dirs[k] == e && contains(dir, dirs[k]) by {
            assert(rest.push(last).contains(e) <==> rest.contains(e) || e == last);
            if rest.contains(e) {
                let k = choose|k: int|
                    0 <= k < shorter.len() && #[trigger] shorter[k] == e && contains(
                        dir,
                        shorter[k],
                    );
                assert(dirs[k] == e && contains(dir, dirs[k]));
            }
            if exists|k: int| 0 <= k < dirs.len() && #[trigger] dirs[k] == e && contains(dir, dirs[k]) {
                let k = choose|k: int|
                    0 <= k < dirs.len() && #[trigger] dirs[k] == e && contains(dir, dirs[k]);
                if k < shorter.len() {
                    assert(shorter[k] == e && contains(dir, shorter[k]));
                }
            }
        }
    }
}

/// Manifests are looked at one by one: each that the bumps change comes out, no other does, and the
/// order stays.
pub proof fn changed_manifests_come_out_one_by_one(
    a: Seq<ManifestFile>,
    b: Seq<ManifestFile>,
    bumps: Seq<(Package, Version)>,
)
    ensures
        affected(a + b, bumps) == affected(a, bumps) + affected(b, bumps),
        forall|f: ManifestFile| #[trigger]
            affected(seq![f], bumps) == (if is_unaffected(
                toml_entries(f.contents@)->0,
                f.path@,
                bumps,
            ) {
                Seq::empty()
            } else {
                seq![f]
            }),
        affected(Seq::empty(), bumps).len() == 0,
    decreases b.len(),
{
    assert forall|f: ManifestFile| #[trigger]
        affected(seq![f], bumps) == (if is_unaffected(
            toml_entries(f.contents@)->0,
            f.path@,
            bumps,
        ) {
            Seq::empty()
        } else {
            seq![f]
        }) by {
        assert(seq![f].drop_last() =~= Seq::empty());
        reveal_with_fuel(affected, 2);
        assert(affected(seq![f], bumps) =~= (if is_unaffected(
            toml_entries(f.contents@)->0,
            f.path@,
            bumps,
        ) {
            Seq::empty()
        } else {
            seq![f]
        }));
    }
    if b.len() == 0 {
        assert(a + b =~= a);
    } else {
        changed_manifests_come_out_one_by_one(a, b.drop_last(), bumps);
        assert((a + b).drop_last() =~= a + b.drop_last());
        assert((a + b).last() == b.last());
    }
    assert(affected(a + b, bumps) =~= affected(a, bumps) + affected(b, bumps));
}

/// A manifest stays as it is only where it declares none of the bumped packages and no requirement
/// in it has to change.
pub proof fn unaffected_manifests_have_nothing_to_change(
    entries: Map<KeyPath, TomlEntry>,
    manifest: Seq<char>,
    bumps: Seq<(Package, Version)>,
)
    requires
        is_unaffected(entries, manifest, bumps),
    ensures
        forall|i: int|
            0 <= i < bumps.len() ==> components((#[trigger] bumps[i]).0.manifest@) != components(
                manifest,
            ),
        forall|p: KeyPath|
            entries.contains_key(p) ==> #[trigger] bumped_entries(entries, manifest, bumps)[p]
                == entries[p],
{
    every_bumped_manifest_is_found(bumps, manifest);
    assert forall|p: KeyPath| entries.contains_key(p) implies
        #[trigger] bumped_entries(entries, manifest, bumps)[p] == entries[p] by {
        assert(edit_at(entries, bumps, p) is None);
    }
}

/// A release has every manifest that it bumps only if for each bumped package some file lies at its
/// manifest's path.
pub proof fn every_bumped_manifest_has_its_file(
    files: Seq<ManifestFile>,
    bumps: Seq<(Package, Version)>,
    i: int,
)
    requires
        has_every_manifest(files, bumps),
        0 <= i < bumps.len(),
    ensures
        exists|k: int|
            0 <= k < files.len() && components((#[trigger] files[k]).path@) == components(
                bumps[i].0.manifest@,
            ),
{
    assert(has_manifest(files, bumps[i].0.manifest@));
}

/// Where a manifest is missing, the first bumped package without a file at its manifest's path is
/// the one that is named, and every release that lacks a manifest has such a package.
pub proof fn the_first_missing_manifest_is_named(
    files: Seq<ManifestFile>,
    bumps: Seq<(Package, Version)>,
)
    ensures
        has_every_manifest(files, bumps) || exists|i: int| #[trigger]
            is_first_missing(files, bumps, i),
        forall|i: int| #[trigger]
            is_first_missing(files, bumps, i) ==> {
                &&& 0 <= i < bumps.len()
                &&& forall|k: int|
                    0 <= k < files.len() ==> components((#[trigger] files[k]).path@) != components(
                        bumps[i].0.manifest@,
                    )
                &&& has_every_manifest(files, bumps.take(i))
            },
    decreases bumps.len(),
{
    assert forall|i: int| #[trigger] is_first_missing(files, bumps, i) implies {
        &&& 0 <= i < bumps.len()
        &&& forall|k: int|
            0 <= k < files.len() ==> components((#[trigger] files[k]).path@) != components(
                bumps[i].0.manifest@,
            )
        &&& has_every_manifest(files, bumps.take(i))
    } by {
        assert forall|j: int| 0 <= j < i implies has_manifest(
            files,
            (#[trigger] bumps.take(i)[j]).0.manifest@,
        ) by {
            assert(has_manifest(files, bumps[j].0.manifest@));
        }
    }
    if bumps.len() > 0 {
        let n = bumps.len() - 1;
        let shorter = bumps.drop_last();
        the_first_missing_manifest_is_named(files, shorter);
        if has_every_manifest(files, shorter) {
            assert forall|j: int| 0 <= j < n implies has_manifest(
                files,
                (#[trigger] bumps[j]).0.manifest@,
            ) by {
                assert(has_manifest(files, shorter[j].0.manifest@));
            }
            if !has_manifest(files, bumps[n].0.manifest@) {
                assert(is_first_missing(files, bumps, n));
            }
        } else {
            let i = choose|i: int| #[trigger] is_first_missing(files, shorter, i);
            assert forall|j: int| 0 <= j < i implies has_manifest(
                files,
                (#[trigger] bumps[j]).0.manifest@,
            ) by {
                assert(has_manifest(files, shorter[j].0.manifest@));
            }
            assert(bumps[i] == shorter[i]);
            assert(is_first_missing(files, bumps, i));
        }
    }
}

/// What a staged manifest becomes states the new version of the package that it declares, and is
/// laid out as it was.
pub proof fn staged_manifests_state_the_new_version(
    staged: StagedManifest,
    bumps: Seq<(Package, Version)>,
    i: int,
)
    requires
        staged.is_bumped(bumps),
        staged.file.fits(bumps),
        0 <= i < bumps.len(),
        components(bumps[i].0.manifest@) == components(staged.file.path@),
        forall|j: int|
            i < j < bumps.len() ==> components((#[trigger] bumps[j]).0.manifest@) != components(
                staged.file.path@,
            ),
    ensures
        toml_entries(staged.updated@) is Some,
        toml_entries(staged.updated@)->0[seq!["package"@, "version"@]].string == Some(
            bumps[i].1@.text(),
        ),
        toml_layout(staged.updated@) == toml_layout(staged.file.contents@),
{
    let entries = toml_entries(staged.file.contents@)->0;
    let path = staged.file.path@;
    every_bumped_manifest_is_found(bumps, path);
    assert(own_bump(bumps, path) == Some((bumps[i].0.version@, bumps[i].1@))) by {
        match own_bump(bumps, path) {
            Some((current, new)) => {
                let k = choose|k: int|
                    {
                        &&& 0 <= k < bumps.len()
                        &&& components((#[trigger] bumps[k]).0.manifest@) == components(path)
                        &&& bumps[k].0.version@ == current
                        &&& bumps[k].1@ == new
                        &&& forall|j: int|
                            k < j < bumps.len() ==> components((#[trigger] bumps[j]).0.manifest@)
                                != components(path)
                    };
                if k < i {
                    assert(components(bumps[i].0.manifest@) != components(path));
                }
                if i < k {
                    assert(components(bumps[k].0.manifest@) != components(path));
                }
            },
            None => {
                assert(components(bumps[i].0.manifest@) != components(path));
            },
        }
    }
    bumped_manifest_states_the_new_version(
        entries,
        path,
        bumps,
        bumps[i].0.version@,
        bumps[i].1@,
    );
    only_stated_versions_are_bumped(toml_entries(staged.updated@)->0, path, bumps[i].1@);
}

/// Every requirement that a staged manifest changes admits the version that it has to.
pub proof fn staged_requirements_admit_the_new_versions(
    staged: StagedManifest,
    bumps: Seq<(Package, Version)>,
    at: KeyPath,
)
    requires
        staged.is_bumped(bumps),
    ensures
        ({
            let base = with_own_bump(
                toml_entries(staged.file.contents@)->0,
                staged.file.path@,
                bumps,
            );
            let after = toml_entries(staged.updated@)->0[at].string;
            base.contains_key(at) && edit_at(base, bumps, at) is Some ==> {
                &&& after is Some
                &&& required_version(base, bumps, at) matches Some(v) && requirement_admits(
                    after->0,
                    v,
                ) == Some(true)
            }
        }),
{
    let base = with_own_bump(toml_entries(staged.file.contents@)->0, staged.file.path@, bumps);
    if edit_at(base, bumps, at) is Some {
        assert(admits_required(base, bumps, at, edit_at(base, bumps, at)->0));
    }
}

/// There is one first manifest that the bumps cannot be applied to, if any: they can be applied to
/// all before it, and not to it.
pub proof fn one_manifest_is_the_first_unfit(
    files: Seq<ManifestFile>,
    bumps: Seq<(Package, Version)>,
    i: int,
    j: int,
)
    requires
        is_first_unfit(files, bumps, i),
    ensures
        0 <= i < files.len(),
        !can_bump(files[i].contents@, files[i].path@, bumps),
        0 <= j < i ==> can_bump(files[j].contents@, files[j].path@, bumps),
        is_first_unfit(files, bumps, j) ==> i == j,
{
    if 0 <= j < i {
        assert(files[j].fits(bumps));
    }
    if is_first_unfit(files, bumps, j) && i < j {
        assert(files[i].fits(bumps));
    }
}

} // verus!
