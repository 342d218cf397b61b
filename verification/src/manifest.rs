//! Version bumps in manifests: the package's own version, and what its dependents require.
use crate::document::{
    as_str, document_entries, document_layout, document_sound, here, is_root_table, is_table_like,
    is_value, item_entries, item_sound, keys, leads, lookup, parse_document, render_document, root,
    root_mut, set_string, toml_entries, toml_layout, under, KeyPath, TomlEntry,
};
use crate::error::{NotchError, Result};
use crate::package::{components, same_path, Package};
use crate::text;
use crate::version::{
    doubles_operator, is_operator, requirement_admits, restates, spells, Version, VersionView,
};
use toml_edit::{DocumentMut, Item};
use vstd::prelude::*;

verus! {

/// How many operators the text starts with.
pub open spec fn operator_len(s: Seq<char>) -> nat
    decreases s.len(),
{
    if s.len() > 0 && is_operator(s[0]) {
        1 + operator_len(s.drop_first())
    } else {
        0
    }
}

/// The requirement with the version in place of the one that it names, in the same shape: the same
/// operator, and as many numbers. `None` where there is no single obvious way.
pub open spec fn rewritten(existing: Seq<char>, new: VersionView) -> Option<Seq<char>> {
    let requirement = text::trimmed(existing);
    let n = operator_len(requirement) as int;
    let rest = requirement.skip(n);
    let numbers = text::pieces(text::trimmed(rest), '.').len();
    if rest.contains(',') || rest.contains('*') || (rest.len() > 0 && (rest[0] == '>' || rest[0]
        == '<')) {
        None
    } else if new.pre.len() == 0 && numbers == 1 {
        Some(requirement.take(n) + text::decimal(new.major as nat))
    } else if new.pre.len() == 0 && numbers == 2 {
        Some(
            requirement.take(n) + (text::decimal(new.major as nat) + seq!['.'] + text::decimal(
                new.minor as nat,
            )),
        )
    } else {
        Some(requirement.take(n) + new.text())
    }
}

/// What a requirement becomes for a version: nothing changes where it is no requirement, or admits
/// the version already.
pub open spec fn new_requirement(existing: Seq<char>, new: VersionView) -> Option<Seq<char>> {
    match requirement_admits(existing, new) {
        Some(false) => rewritten(existing, new),
        _ => None,
    }
}

/// How many operators the text starts with.
fn leading_operators(s: &str) -> (r: usize)
    ensures
        r == operator_len(s@),
        r <= s@.len(),
{
    let v = text::chars_of(s);
    let mut i: usize = 0;
    assert(s@.skip(0) == s@);
    while i < v.len() && (v[i] == '^' || v[i] == '~' || v[i] == '=')
        invariant
            i <= v@.len(),
            v@ == s@,
            operator_len(s@) == i + operator_len(s@.skip(i as int)),
        decreases v@.len() - i,
    {
        assert(s@.skip(i as int).drop_first() == s@.skip(i + 1));
        i += 1;
    }
    i
}

/// Whether the character occurs in the text.
fn holds(s: &str, c: char) -> (r: bool)
    ensures
        r == s@.contains(c),
{
    let found = text::find(s, c);
    proof {
        text::lemma_first_index(s@, c);
    }
    match found {
        Some(i) => {
            assert(s@[i as int] == c);
            true
        },
        None => false,
    }
}

/// A text in which no operator is doubled starts with one at most.
proof fn lemma_one_operator(existing: Seq<char>)
    requires
        !doubles_operator(existing),
    ensures
        operator_len(text::trimmed(existing)) <= 1,
        operator_len(text::trimmed(existing)) == 1 ==> text::trimmed(existing).len() > 0
            && is_operator(text::trimmed(existing)[0]),
{
    let s = text::trimmed(existing);
    if s.len() > 0 && is_operator(s[0]) {
        let rest = s.drop_first();
        if rest.len() > 0 {
            assert(rest[0] == s[1]);
        }
        assert(operator_len(rest) == 0);
    }
}

/// What cannot be rewritten, and doubles no operator, is one of those to leave alone.
proof fn lemma_left_alone(existing: Seq<char>, new: VersionView)
    requires
        !doubles_operator(existing),
        rewritten(existing, new) is None,
    ensures
        is_left_alone(existing),
{
    let s = text::trimmed(existing);
    let n = operator_len(s) as int;
    let rest = s.skip(n);
    lemma_one_operator(existing);
    if rest.contains(',') || rest.contains('*') {
        let c = if rest.contains(',') {
            ','
        } else {
            '*'
        };
        let i = choose|i: int| 0 <= i < rest.len() && rest[i] == c;
        assert(s[i + n] == c);
        text::lemma_trimmed_inside(existing, c);
    } else {
        assert(rest[0] == s[n]);
    }
}

/// Rewrites a requirement so that it admits the version, keeping the shape in which it was
/// written: the operator, and how many numbers are spelled out. Several comparators, wildcards and
/// bounds are left alone, because a guess could loosen what the author pinned. A pre-release is
/// always spelled out in full.
pub fn rewrite_requirement(existing: &str, admitted: Option<bool>, new: &Version) -> (r: Option<
    String,
>)
    ensures
        match admitted {
            Some(false) => match r {
                Some(s) => {
                    &&& rewritten(existing@, new@) == Some(s@)
                    &&& operator_len(text::trimmed(existing@)) <= 1 ==> restates(s@, new@)
                },
                None => rewritten(existing@, new@) is None,
            },
            _ => r is None,
        },
{
    match admitted {
        Some(false) => {},
        _ => return None,
    }
    let requirement = text::trim(existing);
    let n: usize = leading_operators(requirement);
    let len: usize = requirement.unicode_len();
    let operator = requirement.substring_char(0, n);
    let rest = requirement.substring_char(n, len);
    proof {
        assert(operator@ =~= requirement@.take(n as int));
        assert(rest@ =~= requirement@.skip(n as int));
    }
    let bound = len > n && (rest.get_char(0) == '>' || rest.get_char(0) == '<');
    if holds(rest, ',') || holds(rest, '*') || bound {
        return None;
    }
    let numbers: usize = text::split(text::trim(rest), '.').len();
    let bumped = if !new.is_prerelease() && numbers == 1 {
        text::decimal_of(new.major())
    } else if !new.is_prerelease() && numbers == 2 {
        let mut s = text::decimal_of(new.major());
        s.push('.');
        s.append(text::decimal_of(new.minor()).as_str());
        assert(s@ =~= text::decimal(new@.major as nat) + seq!['.'] + text::decimal(
            new@.minor as nat,
        ));
        s
    } else {
        new.to_string()
    };
    let mut s = operator.to_owned();
    s.append(bumped.as_str());
    proof {
        assert(spells(s@, operator@, new@));
        if operator_len(requirement@) == 1 {
            assert(requirement@.drop_first() == requirement@.skip(1));
            assert(operator@ =~= seq![requirement@[0]]);
        }
    }
    Some(s)
}

/// Whether a requirement has no single obvious rewrite: it has several comparators or a wildcard,
/// or it is a bound.
pub open spec fn is_left_alone(existing: Seq<char>) -> bool {
    let s = text::trimmed(existing);
    existing.contains(',') || existing.contains('*') || (s.len() > 0 && (s[0] == '>' || s[0]
        == '<'))
}

/// Rewrites a requirement so that it admits the version. `None` when there is nothing to do or
/// nothing safe to do.
///
/// A requirement that is rewritten did not admit the version, does so afterwards, and is not
/// rewritten again. One that is not rewritten is none at all, admits the version already, or is one
/// of those to leave alone.
pub fn bump_requirement(existing: &str, new: &Version) -> (r: Option<String>)
    ensures
        match r {
            Some(s) => {
                &&& new_requirement(existing@, new@) == Some(s@)
                &&& requirement_admits(existing@, new@) == Some(false)
                &&& restates(s@, new@)
                &&& requirement_admits(s@, new@) == Some(true)
                &&& new_requirement(s@, new@) is None
            },
            None => {
                &&& new_requirement(existing@, new@) is None
                &&& requirement_admits(existing@, new@) != Some(false) || is_left_alone(existing@)
            },
        },
{
    let admitted = new.admitted_by(existing);
    proof {
        if admitted == Some(false) {
            lemma_one_operator(existing@);
            if rewritten(existing@, new@) is None {
                lemma_left_alone(existing@, new@);
            }
        }
    }
    match rewrite_requirement(existing, admitted, new) {
        Some(s) => match new.admitted_by(s.as_str()) {
            Some(true) => Some(s),
            _ => None,
        },
        None => None,
    }
}

/// Where a manifest keeps the package's own version.
pub open spec fn version_path() -> KeyPath {
    seq!["package"@, "version"@]
}

/// Where a manifest says that the version is inherited.
pub open spec fn inherited_path() -> KeyPath {
    seq!["package"@, "version"@, "workspace"@]
}

/// Whether the manifest has a `[package]` table.
pub open spec fn has_package(entries: Map<KeyPath, TomlEntry>) -> bool {
    leads(entries, seq!["package"@]) && entries[seq!["package"@]].is_table
}

/// The manifest with another version for the package itself.
pub open spec fn with_version(
    entries: Map<KeyPath, TomlEntry>,
    version: VersionView,
) -> Map<KeyPath, TomlEntry> {
    entries.insert(
        version_path(),
        TomlEntry { string: Some(version.text()), ..entries[version_path()] },
    )
}

/// Whether the manifest states the package's version itself, as this one.
pub open spec fn is_at_version(entries: Map<KeyPath, TomlEntry>, version: VersionView) -> bool {
    &&& has_package(entries)
    &&& leads(entries, version_path())
    &&& !leads(entries, inherited_path())
    &&& entries[version_path()].is_value
    &&& entries[version_path()].string == Some(version.text())
}

/// Whether the error is the reason why the package's version cannot be bumped from this one.
pub open spec fn is_refusal(
    entries: Map<KeyPath, TomlEntry>,
    manifest: Seq<char>,
    current: VersionView,
    e: NotchError,
) -> bool {
    let entry = entries[version_path()];
    if !has_package(entries) {
        e matches NotchError::NoPackageTable(m) && m@ == manifest
    } else if !leads(entries, version_path()) {
        e matches NotchError::NoPackageVersion(m) && m@ == manifest
    } else if leads(entries, inherited_path()) {
        e matches NotchError::InheritedVersion(m) && m@ == manifest
    } else if !entry.is_value {
        e matches NotchError::VersionNotValue(m) && m@ == manifest
    } else if entry.string is None {
        e matches NotchError::VersionNotString(m) && m@ == manifest
    } else {
        &&& entry.string != Some(current.text())
        &&& e matches NotchError::OutOfSync { manifest: m, expected, found } && m@ == manifest
            && expected@ == current.text() && Some(found@) == entry.string
    }
}

/// Rewrites just the `[package] version` key and leaves the rest of the document as the author
/// wrote it. Refuses, and changes nothing, where the version is not there, is inherited from the
/// workspace, or is not the one that is bumped.
pub(crate) fn set_package_version(
    doc: &mut DocumentMut,
    manifest: &str,
    current: &Version,
    new: &Version,
) -> (r: Result<()>)
    requires
        document_sound(*old(doc)),
        is_root_table(document_entries(*old(doc))),
    ensures
        document_sound(*final(doc)),
        is_root_table(document_entries(*final(doc))),
        document_layout(*final(doc)) == document_layout(*old(doc)),
        match r {
            Ok(_) => {
                &&& is_at_version(document_entries(*old(doc)), current@)
                &&& document_entries(*final(doc)) == with_version(
                    document_entries(*old(doc)),
                    new@,
                )
            },
            Err(e) => {
                &&& is_refusal(document_entries(*old(doc)), manifest@, current@, e)
                &&& *final(doc) == *old(doc)
            },
        },
{
    let package_keys = vec!["package".to_owned()];
    let version_keys = vec!["package".to_owned(), "version".to_owned()];
    let inherited_keys = vec![
        "package".to_owned(),
        "version".to_owned(),
        "workspace".to_owned(),
    ];
    proof {
        assert(text::texts(package_keys@) =~= seq!["package"@]);
        assert(text::texts(version_keys@) =~= version_path());
        assert(text::texts(inherited_keys@) =~= inherited_path());
        assert(seq!["package"@] + here() =~= seq!["package"@]);
        assert(version_path() + here() =~= version_path());
    }
    let top = root(doc);
    match lookup(top, package_keys.as_slice()) {
        Some(package) => if !is_table_like(package) {
            return Err(NotchError::NoPackageTable(manifest.to_owned()));
        },
        None => return Err(NotchError::NoPackageTable(manifest.to_owned())),
    }
    let version = match lookup(top, version_keys.as_slice()) {
        Some(version) => version,
        None => return Err(NotchError::NoPackageVersion(manifest.to_owned())),
    };
    if lookup(top, inherited_keys.as_slice()).is_some() {
        return Err(NotchError::InheritedVersion(manifest.to_owned()));
    }
    if !is_value(version) {
        return Err(NotchError::VersionNotValue(manifest.to_owned()));
    }
    let on_disk = match as_str(version) {
        Some(s) => s,
        None => return Err(NotchError::VersionNotString(manifest.to_owned())),
    };
    let expected = current.to_string();
    if !text::same(on_disk, expected.as_str()) {
        return Err(
            NotchError::OutOfSync {
                manifest: manifest.to_owned(),
                expected,
                found: on_disk.to_owned(),
            },
        );
    }
    let written = new.to_string();
    set_string(root_mut(doc), version_keys.as_slice(), written.as_str());
    Ok(())
}

/// The names of the tables in which a package can list what it depends on.
pub open spec fn is_dependency_key(key: Seq<char>) -> bool {
    key == "dependencies"@ || key == "dev-dependencies"@ || key == "build-dependencies"@
}

/// Whether a table of dependencies stands at the path: one of the package's own, that of the
/// workspace, or one for a target.
pub open spec fn is_dependency_table(entries: Map<KeyPath, TomlEntry>, path: KeyPath) -> bool {
    &&& leads(entries, path)
    &&& entries[path].is_table
    &&& {
        ||| path.len() == 1 && is_dependency_key(path[0])
        ||| path == seq!["workspace"@, "dependencies"@]
        ||| path.len() == 3 && path[0] == "target"@ && is_dependency_key(path[2])
            && entries[seq!["target"@]].is_table
    }
}

/// Whether a dependency stands at the path.
pub open spec fn is_dependency(entries: Map<KeyPath, TomlEntry>, path: KeyPath) -> bool {
    path.len() > 0 && is_dependency_table(entries, path.drop_last()) && entries.contains_key(path)
}

/// The package that the dependency is on: its key, unless it is renamed.
pub open spec fn required_package(entries: Map<KeyPath, TomlEntry>, path: KeyPath) -> Seq<char> {
    let renamed = path.push("package"@);
    if entries[path].is_table && entries.contains_key(renamed) && entries[renamed].string is Some {
        entries[renamed].string->0
    } else {
        path.last()
    }
}

/// Where the dependency keeps its requirement: at its key, or under `version`. A dependency on a
/// path or a repository alone has none.
pub open spec fn requirement_path(entries: Map<KeyPath, TomlEntry>, path: KeyPath) -> Option<
    KeyPath,
> {
    let version = path.push("version"@);
    if entries[path].string is Some {
        Some(path)
    } else if entries[path].is_table && entries.contains_key(version) && entries[version].string
        is Some {
        Some(version)
    } else {
        None
    }
}

/// The version that a package is bumped to, where it is.
pub open spec fn bumped_version(bumps: Seq<(Package, Version)>, name: Seq<char>) -> Option<
    VersionView,
>
    decreases bumps.len(),
{
    if bumps.len() == 0 {
        None
    } else if bumps.last().0.name@ == name {
        Some(bumps.last().1@)
    } else {
        bumped_version(bumps.drop_last(), name)
    }
}

/// What the requirement of the dependency at the path becomes, where it has to change.
pub open spec fn dependency_edit(
    entries: Map<KeyPath, TomlEntry>,
    bumps: Seq<(Package, Version)>,
    path: KeyPath,
) -> Option<Seq<char>> {
    match (
        bumped_version(bumps, required_package(entries, path)),
        requirement_path(entries, path),
    ) {
        (Some(new), Some(p)) => new_requirement(entries[p].string->0, new),
        _ => None,
    }
}

/// What the string at the path becomes, where it is a requirement that has to change.
pub open spec fn edit_at(
    entries: Map<KeyPath, TomlEntry>,
    bumps: Seq<(Package, Version)>,
    path: KeyPath,
) -> Option<Seq<char>> {
    if is_dependency(entries, path) && requirement_path(entries, path) == Some(path) {
        dependency_edit(entries, bumps, path)
    } else if path.len() > 0 && path.last() == "version"@ && is_dependency(
        entries,
        path.drop_last(),
    ) && requirement_path(entries, path.drop_last()) == Some(path) {
        dependency_edit(entries, bumps, path.drop_last())
    } else {
        None
    }
}

/// The version that the requirement at the path has to admit, where it is on a bumped package.
pub open spec fn required_version(
    entries: Map<KeyPath, TomlEntry>,
    bumps: Seq<(Package, Version)>,
    path: KeyPath,
) -> Option<VersionView> {
    if is_dependency(entries, path) && requirement_path(entries, path) == Some(path) {
        bumped_version(bumps, required_package(entries, path))
    } else if path.len() > 0 && path.last() == "version"@ && is_dependency(
        entries,
        path.drop_last(),
    ) && requirement_path(entries, path.drop_last()) == Some(path) {
        bumped_version(bumps, required_package(entries, path.drop_last()))
    } else {
        None
    }
}

/// Whether every requirement that changes then admits the version of the package that it is on.
pub open spec fn edits_admit(
    entries: Map<KeyPath, TomlEntry>,
    bumps: Seq<(Package, Version)>,
) -> bool {
    forall|p: KeyPath| #[trigger]
        edit_at(entries, bumps, p) is Some ==> admits_required(
            entries,
            bumps,
            p,
            edit_at(entries, bumps, p)->0,
        )
}

/// Whether the text at the path would admit the version of the package that the requirement there
/// is on.
pub open spec fn admits_required(
    entries: Map<KeyPath, TomlEntry>,
    bumps: Seq<(Package, Version)>,
    path: KeyPath,
    requirement: Seq<char>,
) -> bool {
    match required_version(entries, bumps, path) {
        Some(v) => requirement_admits(requirement, v) == Some(true),
        None => false,
    }
}

/// The manifest with every requirement changed that has to, and nothing else.
pub open spec fn with_edits(
    entries: Map<KeyPath, TomlEntry>,
    bumps: Seq<(Package, Version)>,
) -> Map<KeyPath, TomlEntry> {
    Map::new(
        |p: KeyPath| entries.contains_key(p),
        |p: KeyPath|
            match edit_at(entries, bumps, p) {
                Some(s) => TomlEntry { string: Some(s), ..entries[p] },
                None => entries[p],
            },
    )
}

/// Whether some requirement of the manifest has to change.
pub open spec fn has_edit(
    entries: Map<KeyPath, TomlEntry>,
    bumps: Seq<(Package, Version)>,
) -> bool {
    exists|p: KeyPath| entries.contains_key(p) && #[trigger] edit_at(entries, bumps, p) is Some
}

/// The key paths that the lists of strings are.
pub open spec fn key_paths(paths: Seq<Vec<String>>) -> Seq<KeyPath> {
    Seq::new(paths.len(), |i: int| text::texts(paths[i]@))
}

/// Adds the path to the list if a table stands there.
fn push_if_table(top: &Item, path: Vec<String>, tables: &mut Vec<Vec<String>>)
    requires
        item_entries(*top).contains_key(here()),
    ensures
        ({
            let entries = item_entries(*top);
            let p = text::texts(path@);
            key_paths(final(tables)@) == if leads(entries, p) && entries[p].is_table {
                key_paths(old(tables)@).push(p)
            } else {
                key_paths(old(tables)@)
            }
        }),
{
    let ghost p = text::texts(path@);
    let ghost before = key_paths(tables@);
    assert(p + here() =~= p);
    match lookup(top, path.as_slice()) {
        Some(found) => if is_table_like(found) {
            tables.push(path);
            assert(key_paths(tables@) =~= before.push(p));
        },
        None => {},
    }
}

/// The three tables of dependencies under a prefix, as far as they are there.
fn push_dependency_tables(top: &Item, prefix: &Vec<String>, tables: &mut Vec<Vec<String>>)
    requires
        item_entries(*top).contains_key(here()),
    ensures
        forall|t: KeyPath| #[trigger]
            key_paths(final(tables)@).contains(t) <==> key_paths(old(tables)@).contains(t) || (
            exists|k: Seq<char>| #[trigger]
                is_dependency_key(k) && t == text::texts(prefix@).push(k) && leads(
                    item_entries(*top),
                    t,
                ) && item_entries(*top)[t].is_table),
{
    let mut a = prefix.clone();
    a.push("dependencies".to_owned());
    let mut b = prefix.clone();
    b.push("dev-dependencies".to_owned());
    let mut c = prefix.clone();
    c.push("build-dependencies".to_owned());
    let ghost p = text::texts(prefix@);
    proof {
        assert(text::texts(a@) =~= p.push("dependencies"@));
        assert(text::texts(b@) =~= p.push("dev-dependencies"@));
        assert(text::texts(c@) =~= p.push("build-dependencies"@));
    }
    let ghost t0 = key_paths(tables@);
    push_if_table(top, a, tables);
    let ghost t1 = key_paths(tables@);
    push_if_table(top, b, tables);
    let ghost t2 = key_paths(tables@);
    push_if_table(top, c, tables);
    let ghost t3 = key_paths(tables@);
    proof {
        broadcast use vstd::seq_lib::group_seq_properties;

        assert(is_dependency_key("dependencies"@));
        assert(is_dependency_key("dev-dependencies"@));
        assert(is_dependency_key("build-dependencies"@));
    }
}

/// Every table of dependencies in the manifest.
fn dependency_tables(top: &Item) -> (r: Vec<Vec<String>>)
    requires
        item_sound(*top),
        item_entries(*top).contains_key(here()),
    ensures
        forall|t: KeyPath| #[trigger]
            key_paths(r@).contains(t) <==> is_dependency_table(item_entries(*top), t),
{
    let ghost entries = item_entries(*top);
    let mut tables: Vec<Vec<String>> = Vec::new();
    let none: Vec<String> = Vec::new();
    assert(text::texts(none@) =~= here());
    push_dependency_tables(top, &none, &mut tables);
    let ghost own = key_paths(tables@);
    assert forall|t: KeyPath| #[trigger] own.contains(t) <==> is_dependency_table(entries, t)
        && t.len() == 1 by {
        if is_dependency_table(entries, t) && t.len() == 1 {
            assert(t =~= here().push(t[0]));
            assert(is_dependency_key(t[0]));
        }
        if own.contains(t) {
            let k = choose|k: Seq<char>| #[trigger]
                is_dependency_key(k) && t == here().push(k) && leads(entries, t)
                    && entries[t].is_table;
            assert(t[0] == k);
        }
    }
    let shared = vec!["workspace".to_owned(), "dependencies".to_owned()];
    assert(text::texts(shared@) =~= seq!["workspace"@, "dependencies"@]);
    push_if_table(top, shared, &mut tables);
    let ghost two = key_paths(tables@);
    assert forall|t: KeyPath| #[trigger] two.contains(t) <==> is_dependency_table(entries, t)
        && t.len() <= 2 by {
        broadcast use vstd::seq_lib::group_seq_properties;

        assert(own.contains(t) <==> is_dependency_table(entries, t) && t.len() == 1);
    }
    let target = vec!["target".to_owned()];
    assert(text::texts(target@) =~= seq!["target"@]);
    assert(seq!["target"@] + here() =~= seq!["target"@]);
    let targets = match lookup(top, target.as_slice()) {
        Some(item) => if is_table_like(item) {
            keys(item)
        } else {
            Vec::new()
        },
        None => Vec::new(),
    };
    let ghost names = text::texts(targets@);
    assert forall|t: KeyPath| is_dependency_table(entries, t) && t.len() == 3 implies names.contains(
        #[trigger] t[1],
    ) by {
        assert(entries.contains_key(t.take(0)));
        assert(entries.contains_key(t.take(1)));
        assert(t.take(1) =~= seq!["target"@]);
        assert(leads(entries, seq!["target"@])) by {
            assert forall|k: int| 0 <= k <= 1 implies entries.contains_key(
                #[trigger] seq!["target"@].take(k),
            ) by {
                assert(seq!["target"@].take(k) =~= t.take(k));
            }
        }
        assert(entries.contains_key(t.take(2)));
        assert(t.take(2) =~= seq!["target"@] + seq![t[1]]);
        let sub = under(entries, seq!["target"@]);
        assert(sub.contains_key(seq![t[1]]));
    }
    let mut i: usize = 0;
    while i < targets.len()
        invariant
            i <= targets@.len(),
            names == text::texts(targets@),
            entries == item_entries(*top),
            entries.contains_key(here()),
            i < targets@.len() ==> entries[seq!["target"@]].is_table,
            forall|t: KeyPath| #[trigger]
                key_paths(tables@).contains(t) <==> is_dependency_table(entries, t) && (t.len()
                    <= 2 || (t.len() == 3 && names.take(i as int).contains(t[1]))),
        decreases targets@.len() - i,
    {
        let prefix = vec!["target".to_owned(), targets[i].clone()];
        let ghost p = text::texts(prefix@);
        let ghost before = key_paths(tables@);
        assert(p =~= seq!["target"@, names[i as int]]);
        push_dependency_tables(top, &prefix, &mut tables);
        let ghost after = key_paths(tables@);
        assert forall|t: KeyPath| #[trigger] after.contains(t) <==> is_dependency_table(entries, t)
            && (t.len() <= 2 || (t.len() == 3 && names.take(i + 1).contains(t[1]))) by {
            let more = names.take(i + 1);
            let less = names.take(i as int);
            assert(more =~= less.push(names[i as int]));
            assert(before.contains(t) <==> is_dependency_table(entries, t) && (t.len() <= 2 || (
            t.len() == 3 && names.take(i as int).contains(t[1]))));
            if after.contains(t) && !before.contains(t) {
                let k = choose|k: Seq<char>| #[trigger]
                    is_dependency_key(k) && t == p.push(k) && leads(entries, t)
                        && entries[t].is_table;
                assert(t[0] == "target"@ && t[1] == names[i as int] && t[2] == k);
                assert(more[i as int] == t[1]);
            }
            if is_dependency_table(entries, t) && t.len() == 3 && names.take(i + 1).contains(t[1]) {
                if t[1] == names[i as int] {
                    assert(t =~= p.push(t[2]));
                    assert(is_dependency_key(t[2]));
                } else {
                    let j = choose|j: int| 0 <= j < more.len() && more[j] == t[1];
                    assert(less[j] == t[1]);
                }
            }
            if before.contains(t) && t.len() == 3 {
                let j = choose|j: int| 0 <= j < less.len() && less[j] == t[1];
                assert(more[j] == t[1]);
            }
        }
        i += 1;
    }
    assert(names.take(i as int) =~= names);
    tables
}

/// The last bump of the package with the name.
fn find_bump(bumps: &[(Package, Version)], name: &str) -> (r: Option<usize>)
    ensures
        match r {
            Some(i) => i < bumps@.len() && bumped_version(bumps@, name@) == Some(
                bumps@[i as int].1@,
            ),
            None => bumped_version(bumps@, name@) is None,
        },
{
    let mut i: usize = bumps.len();
    assert(bumps@.take(i as int) =~= bumps@);
    while i > 0
        invariant
            i <= bumps@.len(),
            bumped_version(bumps@, name@) == bumped_version(bumps@.take(i as int), name@),
        decreases i,
    {
        assert(bumps@.take(i as int).last() == bumps@[i - 1]);
        assert(bumps@.take(i as int).drop_last() =~= bumps@.take(i - 1));
        i -= 1;
        if text::same(bumps[i].0.name.as_str(), name) {
            return Some(i);
        }
    }
    None
}

/// A longer path leads on where it stands in the manifest and what is before it leads there.
proof fn lemma_leads_push(entries: Map<KeyPath, TomlEntry>, path: KeyPath, key: Seq<char>)
    requires
        leads(entries, path),
    ensures
        leads(entries, path.push(key)) <==> entries.contains_key(path.push(key)),
{
    let longer = path.push(key);
    assert(longer.take(longer.len() as int) =~= longer);
    if entries.contains_key(longer) {
        assert forall|k: int| 0 <= k <= longer.len() implies entries.contains_key(
            #[trigger] longer.take(k),
        ) by {
            if k <= path.len() {
                assert(longer.take(k) =~= path.take(k));
                assert(entries.contains_key(path.take(k)));
            }
        }
    }
}

/// Finds what the requirement of a dependency becomes, and where it stands.
fn find_edit(top: &Item, path: &Vec<String>, bumps: &[(Package, Version)]) -> (r: Option<
    (Vec<String>, String),
>)
    requires
        item_entries(*top).contains_key(here()),
        path@.len() > 0,
        leads(item_entries(*top), text::texts(path@)),
    ensures
        ({
            let entries = item_entries(*top);
            let p = text::texts(path@);
            match r {
                Some((at, s)) => {
                    &&& dependency_edit(entries, bumps@, p) == Some(s@)
                    &&& requirement_admits(
                        s@,
                        bumped_version(bumps@, required_package(entries, p))->0,
                    ) == Some(true)
                    &&& requirement_path(entries, p) == Some(text::texts(at@))
                    &&& leads(entries, text::texts(at@))
                },
                None => dependency_edit(entries, bumps@, p) is None,
            }
        }),
{
    let ghost entries = item_entries(*top);
    let ghost p = text::texts(path@);
    proof {
        assert(p + here() =~= p);
        assert(p.push("package"@) + here() =~= p.push("package"@));
        assert(p.push("version"@) + here() =~= p.push("version"@));
        lemma_leads_push(entries, p, "package"@);
        lemma_leads_push(entries, p, "version"@);
        assert(p.last() == path@.last()@);
    }
    let item = match lookup(top, path.as_slice()) {
        Some(item) => item,
        None => return None,
    };
    let table = is_table_like(item);
    let mut renamed_keys = path.clone();
    renamed_keys.push("package".to_owned());
    assert(text::texts(renamed_keys@) =~= p.push("package"@));
    let mut version_keys = path.clone();
    version_keys.push("version".to_owned());
    assert(text::texts(version_keys@) =~= p.push("version"@));
    let key = path[path.len() - 1].as_str();
    let name = if table {
        match lookup(top, renamed_keys.as_slice()) {
            Some(renamed) => match as_str(renamed) {
                Some(s) => s,
                None => key,
            },
            None => key,
        }
    } else {
        key
    };
    assert(name@ == required_package(entries, p));
    let new = match find_bump(bumps, name) {
        Some(i) => &bumps[i].1,
        None => return None,
    };
    match as_str(item) {
        Some(existing) => {
            let at = path.clone();
            assert(text::texts(at@) =~= p);
            match bump_requirement(existing, new) {
                Some(s) => Some((at, s)),
                None => None,
            }
        },
        None => if table {
            match lookup(top, version_keys.as_slice()) {
                Some(version) => match as_str(version) {
                    Some(existing) => match bump_requirement(existing, new) {
                        Some(s) => Some((version_keys, s)),
                        None => None,
                    },
                    None => None,
                },
                None => None,
            }
        } else {
            None
        },
    }
}

/// Whether the edits are of the manifest, and each changes a requirement that has to change.
spec fn are_edits(
    edits: Seq<(Vec<String>, String)>,
    entries: Map<KeyPath, TomlEntry>,
    bumps: Seq<(Package, Version)>,
) -> bool {
    forall|i: int|
        0 <= i < edits.len() ==> {
            let (at, s) = #[trigger] edits[i];
            &&& leads(entries, text::texts(at@))
            &&& entries[text::texts(at@)].string is Some
            &&& edit_at(entries, bumps, text::texts(at@)) == Some(s@)
            &&& admits_required(entries, bumps, text::texts(at@), s@)
        }
}

/// Whether the edits have one for the path.
spec fn edits_path(edits: Seq<(Vec<String>, String)>, path: KeyPath) -> bool {
    exists|i: int| 0 <= i < edits.len() && text::texts((#[trigger] edits[i]).0@) == path
}

/// The first edits have one for the path if those before the last have, or the last is one.
proof fn lemma_edits_path_step(edits: Seq<(Vec<String>, String)>, i: int, path: KeyPath)
    requires
        0 <= i < edits.len(),
    ensures
        edits_path(edits.take(i + 1), path) <==> edits_path(edits.take(i), path) || text::texts(
            edits[i].0@,
        ) == path,
{
    let done = edits.take(i);
    let more = edits.take(i + 1);
    if edits_path(done, path) {
        let k = choose|k: int| 0 <= k < done.len() && text::texts((#[trigger] done[k]).0@) == path;
        assert(more[k] == done[k]);
    }
    if edits_path(more, path) {
        let k = choose|k: int| 0 <= k < more.len() && text::texts((#[trigger] more[k]).0@) == path;
        if k < i {
            assert(done[k] == more[k]);
        }
    }
    if text::texts(edits[i].0@) == path {
        assert(more[i] == edits[i]);
    }
}

/// A dependency stands in no other dependency's place: the table it is in is not itself one.
proof fn lemma_dependencies_do_not_nest(entries: Map<KeyPath, TomlEntry>, path: KeyPath)
    requires
        path.len() > 0,
        is_dependency(entries, path),
    ensures
        !is_dependency(entries, path.drop_last()),
{
    reveal_strlit("workspace");
    reveal_strlit("dependencies");
    reveal_strlit("dev-dependencies");
    reveal_strlit("build-dependencies");
    reveal_strlit("target");
    let table = path.drop_last();
    if is_dependency(entries, table) {
        let outer = table.drop_last();
        assert("workspace"@.len() != "dependencies"@.len());
        assert("workspace"@.len() != "dev-dependencies"@.len());
        assert("workspace"@.len() != "build-dependencies"@.len());
        assert("workspace"@.len() != "target"@.len());
        assert("target"@.len() != "dependencies"@.len());
        assert("target"@.len() != "dev-dependencies"@.len());
        assert("target"@.len() != "build-dependencies"@.len());
        assert(outer.len() + 1 == table.len());
        assert(outer[0] == table[0]);
    }
}

/// The edit of a dependency is the edit at the place of its requirement.
proof fn lemma_edit_at(
    entries: Map<KeyPath, TomlEntry>,
    bumps: Seq<(Package, Version)>,
    path: KeyPath,
    at: KeyPath,
)
    requires
        is_dependency(entries, path),
        requirement_path(entries, path) == Some(at),
    ensures
        edit_at(entries, bumps, at) == dependency_edit(entries, bumps, path),
        required_version(entries, bumps, at) == bumped_version(
            bumps,
            required_package(entries, path),
        ),
{
    if at != path {
        assert(at.drop_last() =~= path);
        if is_dependency(entries, at) {
            lemma_dependencies_do_not_nest(entries, at);
        }
    }
}

/// Adds the edits in one table of dependencies to the list.
fn collect_table_edits(
    top: &Item,
    table: &Vec<String>,
    bumps: &[(Package, Version)],
    edits: &mut Vec<(Vec<String>, String)>,
)
    requires
        item_sound(*top),
        item_entries(*top).contains_key(here()),
        is_dependency_table(item_entries(*top), text::texts(table@)),
        are_edits(old(edits)@, item_entries(*top), bumps@),
    ensures
        are_edits(final(edits)@, item_entries(*top), bumps@),
        forall|p: KeyPath|
            edits_path(old(edits)@, p) ==> #[trigger] edits_path(final(edits)@, p),
        forall|d: KeyPath|
            is_dependency(item_entries(*top), d) && d.drop_last() == text::texts(table@)
                && #[trigger] dependency_edit(item_entries(*top), bumps@, d) is Some ==> edits_path(
                final(edits)@,
                requirement_path(item_entries(*top), d)->0,
            ),
{
    let ghost entries = item_entries(*top);
    let ghost t = text::texts(table@);
    let item = match lookup(top, table.as_slice()) {
        Some(item) => item,
        None => return,
    };
    assert(t + here() =~= t);
    let names = keys(item);
    let ghost all = text::texts(names@);
    let mut i: usize = 0;
    while i < names.len()
        invariant
            i <= names@.len(),
            all == text::texts(names@),
            entries == item_entries(*top),
            t == text::texts(table@),
            item_entries(*top).contains_key(here()),
            is_dependency_table(entries, t),
            forall|k: Seq<char>|
                all.contains(k) <==> #[trigger] under(entries, t).contains_key(seq![k]),
            are_edits(edits@, entries, bumps@),
            forall|p: KeyPath|
                edits_path(old(edits)@, p) ==> #[trigger] edits_path(edits@, p),
            forall|j: int|
                0 <= j < i && #[trigger] dependency_edit(entries, bumps@, t.push(all[j])) is Some
                    ==> edits_path(edits@, requirement_path(entries, t.push(all[j]))->0),
        decreases names@.len() - i,
    {
        let mut path = table.clone();
        path.push(names[i].clone());
        let ghost d = t.push(all[i as int]);
        proof {
            assert(text::texts(path@) =~= d);
            assert(all.contains(all[i as int]));
            assert(under(entries, t).contains_key(seq![all[i as int]]));
            assert(t + seq![all[i as int]] =~= d);
            assert(d.drop_last() =~= t);
            lemma_leads_push(entries, t, all[i as int]);
        }
        let ghost before = edits@;
        match find_edit(top, &path, bumps) {
            Some((at, s)) => {
                let ghost place = text::texts(at@);
                proof {
                    lemma_edit_at(entries, bumps@, d, place);
                }
                edits.push((at, s));
                proof {
                    assert forall|p: KeyPath| edits_path(before, p) implies #[trigger] edits_path(
                        edits@,
                        p,
                    ) by {
                        let k = choose|k: int|
                            0 <= k < before.len() && text::texts((#[trigger] before[k]).0@) == p;
                        assert(edits@[k] == before[k]);
                    }
                    assert(edits@[before.len() as int].0@ == at@);
                    assert(edits_path(edits@, place));
                }
            },
            None => {},
        }
        i += 1;
    }
    assert forall|d: KeyPath|
        is_dependency(entries, d) && d.drop_last() == t && #[trigger] dependency_edit(
            entries,
            bumps@,
            d,
        ) is Some implies edits_path(edits@, requirement_path(entries, d)->0) by {
        let k = d.last();
        assert(d =~= t.push(k));
        assert(t + seq![k] =~= d);
        assert(under(entries, t).contains_key(seq![k]));
        assert(all.contains(k));
        let j = choose|j: int| 0 <= j < all.len() && all[j] == k;
        assert(dependency_edit(entries, bumps@, t.push(all[j])) is Some);
    }
}

/// Every edit that the manifest needs.
fn collect_edits(top: &Item, bumps: &[(Package, Version)]) -> (r: Vec<(Vec<String>, String)>)
    requires
        item_sound(*top),
        item_entries(*top).contains_key(here()),
    ensures
        are_edits(r@, item_entries(*top), bumps@),
        forall|p: KeyPath|
            #[trigger] edits_path(r@, p) <==> edit_at(item_entries(*top), bumps@, p) is Some,
{
    let ghost entries = item_entries(*top);
    let tables = dependency_tables(top);
    let ghost all = key_paths(tables@);
    let mut edits: Vec<(Vec<String>, String)> = Vec::new();
    let mut i: usize = 0;
    while i < tables.len()
        invariant
            i <= tables@.len(),
            all == key_paths(tables@),
            entries == item_entries(*top),
            item_sound(*top),
            item_entries(*top).contains_key(here()),
            forall|t: KeyPath| #[trigger] all.contains(t) <==> is_dependency_table(entries, t),
            are_edits(edits@, entries, bumps@),
            forall|d: KeyPath, j: int|
                0 <= j < i && is_dependency(entries, d) && d.drop_last() == #[trigger] all[j]
                    && #[trigger] dependency_edit(entries, bumps@, d) is Some ==> edits_path(
                    edits@,
                    requirement_path(entries, d)->0,
                ),
        decreases tables@.len() - i,
    {
        assert(all.contains(all[i as int]));
        collect_table_edits(top, &tables[i], bumps, &mut edits);
        i += 1;
    }
    assert forall|p: KeyPath| #[trigger] edits_path(edits@, p) <==> edit_at(
        entries,
        bumps@,
        p,
    ) is Some by {
        if edits_path(edits@, p) {
            let k = choose|k: int|
                0 <= k < edits@.len() && text::texts((#[trigger] edits@[k]).0@) == p;
            assert(edit_at(entries, bumps@, text::texts(edits@[k].0@)) == Some(edits@[k].1@));
        }
        if edit_at(entries, bumps@, p) is Some {
            let d = if is_dependency(entries, p) && requirement_path(entries, p) == Some(p) {
                p
            } else {
                p.drop_last()
            };
            assert(all.contains(d.drop_last()));
            let j = choose|j: int| 0 <= j < all.len() && all[j] == d.drop_last();
            assert(dependency_edit(entries, bumps@, d) is Some);
            assert(d.drop_last() == all[j]);
        }
    }
    edits
}

/// Widens the manifest's requirements on every package that the same batch bumps, so that the
/// workspace is not left depending on a version that no longer exists. Only requirements that the
/// new version stops satisfying are touched, and those then admit it. Says whether there was one.
pub(crate) fn update_dependents(doc: &mut DocumentMut, bumps: &[(Package, Version)]) -> (r: bool)
    requires
        document_sound(*old(doc)),
        is_root_table(document_entries(*old(doc))),
    ensures
        document_sound(*final(doc)),
        is_root_table(document_entries(*final(doc))),
        document_layout(*final(doc)) == document_layout(*old(doc)),
        document_entries(*final(doc)) == with_edits(document_entries(*old(doc)), bumps@),
        edits_admit(document_entries(*old(doc)), bumps@),
        r == has_edit(document_entries(*old(doc)), bumps@),
{
    let ghost entries = document_entries(*doc);
    let edits = collect_edits(root(doc), bumps);
    let mut i: usize = 0;
    while i < edits.len()
        invariant
            i <= edits@.len(),
            document_sound(*doc),
            is_root_table(document_entries(*doc)),
            document_layout(*doc) == document_layout(*old(doc)),
            are_edits(edits@, entries, bumps@),
            document_entries(*doc).dom() == entries.dom(),
            forall|p: KeyPath|
                entries.contains_key(p) ==> #[trigger] document_entries(*doc)[p] == if edits_path(
                    edits@.take(i as int),
                    p,
                ) {
                    TomlEntry { string: edit_at(entries, bumps@, p), ..entries[p] }
                } else {
                    entries[p]
                },
        decreases edits@.len() - i,
    {
        let ghost current = document_entries(*doc);
        let ghost at = text::texts(edits@[i as int].0@);
        let ghost done = edits@.take(i as int);
        let ghost more = edits@.take(i + 1);
        proof {
            assert(leads(entries, at));
            assert(at.take(at.len() as int) =~= at);
            assert forall|k: int| 0 <= k <= at.len() implies current.contains_key(
                #[trigger] at.take(k),
            ) by {
                assert(entries.contains_key(at.take(k)));
            }
            assert(current[at].string is Some);
        }
        set_string(root_mut(doc), edits[i].0.as_slice(), edits[i].1.as_str());
        proof {
            assert forall|p: KeyPath| entries.contains_key(p) implies #[trigger] document_entries(
                *doc,
            )[p] == if edits_path(more, p) {
                TomlEntry { string: edit_at(entries, bumps@, p), ..entries[p] }
            } else {
                entries[p]
            } by {
                lemma_edits_path_step(edits@, i as int, p);
                assert(current[p] == if edits_path(done, p) {
                    TomlEntry { string: edit_at(entries, bumps@, p), ..entries[p] }
                } else {
                    entries[p]
                });
            }
        }
        i += 1;
    }
    proof {
        assert(edits@.take(i as int) =~= edits@);
        assert forall|p: KeyPath| entries.contains_key(p) implies #[trigger] document_entries(
            *doc,
        )[p] == with_edits(entries, bumps@)[p] by {
            assert(edits_path(edits@, p) <==> edit_at(entries, bumps@, p) is Some);
        }
        assert(document_entries(*doc) =~= with_edits(entries, bumps@));
        assert forall|p: KeyPath| #[trigger] edit_at(entries, bumps@, p) is Some implies
            admits_required(entries, bumps@, p, edit_at(entries, bumps@, p)->0) by {
            assert(edits_path(edits@, p));
            let k = choose|k: int|
                0 <= k < edits@.len() && text::texts((#[trigger] edits@[k]).0@) == p;
            assert(edit_at(entries, bumps@, text::texts(edits@[k].0@)) == Some(edits@[k].1@));
        }
        if edits@.len() > 0 {
            let at = text::texts(edits@[0].0@);
            assert(leads(entries, at));
            assert(at.take(at.len() as int) =~= at);
            assert(edit_at(entries, bumps@, at) is Some);
        }
        if has_edit(entries, bumps@) {
            let p = choose|p: KeyPath|
                entries.contains_key(p) && #[trigger] edit_at(entries, bumps@, p) is Some;
            assert(edits_path(edits@, p));
        }
    }
    edits.len() > 0
}

/// The bump of the package that a manifest declares, where there is one: the last in the list.
pub open spec fn own_bump(bumps: Seq<(Package, Version)>, manifest: Seq<char>) -> Option<
    (VersionView, VersionView),
>
    decreases bumps.len(),
{
    if bumps.len() == 0 {
        None
    } else {
        let (package, new) = bumps.last();
        if components(package.manifest@) == components(manifest) {
            Some((package.version@, new@))
        } else {
            own_bump(bumps.drop_last(), manifest)
        }
    }
}

/// Where the bump of the package that a manifest declares stands.
fn find_own_bump(bumps: &[(Package, Version)], manifest: &str) -> (r: Option<usize>)
    ensures
        match r {
            Some(i) => i < bumps@.len() && own_bump(bumps@, manifest@) == Some(
                (bumps@[i as int].0.version@, bumps@[i as int].1@),
            ),
            None => own_bump(bumps@, manifest@) is None,
        },
{
    let mut i: usize = bumps.len();
    assert(bumps@.take(i as int) =~= bumps@);
    while i > 0
        invariant
            i <= bumps@.len(),
            own_bump(bumps@, manifest@) == own_bump(bumps@.take(i as int), manifest@),
        decreases i,
    {
        assert(bumps@.take(i as int).last() == bumps@[i - 1]);
        assert(bumps@.take(i as int).drop_last() =~= bumps@.take(i - 1));
        i -= 1;
        if same_path(bumps[i].0.manifest.as_str(), manifest) {
            return Some(i);
        }
    }
    None
}

/// The manifest with the new version, where it declares a bumped package.
pub open spec fn with_own_bump(
    entries: Map<KeyPath, TomlEntry>,
    manifest: Seq<char>,
    bumps: Seq<(Package, Version)>,
) -> Map<KeyPath, TomlEntry> {
    match own_bump(bumps, manifest) {
        Some((_, new)) => with_version(entries, new),
        None => entries,
    }
}

/// The manifest after the bumps: with the new version, where it declares a bumped package, and
/// with the requirements on bumped packages.
pub open spec fn bumped_entries(
    entries: Map<KeyPath, TomlEntry>,
    manifest: Seq<char>,
    bumps: Seq<(Package, Version)>,
) -> Map<KeyPath, TomlEntry> {
    with_edits(with_own_bump(entries, manifest, bumps), bumps)
}

/// Whether the bumps leave the manifest as it is.
pub open spec fn is_unaffected(
    entries: Map<KeyPath, TomlEntry>,
    manifest: Seq<char>,
    bumps: Seq<(Package, Version)>,
) -> bool {
    own_bump(bumps, manifest) is None && !has_edit(entries, bumps)
}

/// Whether the error is the reason why the bumps cannot be applied to the manifest.
pub open spec fn is_manifest_error(
    original: Seq<char>,
    manifest: Seq<char>,
    bumps: Seq<(Package, Version)>,
    e: NotchError,
) -> bool {
    match toml_entries(original) {
        None => e matches NotchError::InvalidManifest(m) && m@ == manifest,
        Some(entries) => own_bump(bumps, manifest) matches Some((current, _)) && is_refusal(
            entries,
            manifest,
            current,
            e,
        ),
    }
}

/// Whether the bumps can be applied to the manifest.
pub open spec fn can_bump(
    original: Seq<char>,
    manifest: Seq<char>,
    bumps: Seq<(Package, Version)>,
) -> bool {
    &&& toml_entries(original) is Some
    &&& own_bump(bumps, manifest) matches Some((current, _)) ==> is_at_version(
        toml_entries(original)->0,
        current,
    )
}

/// Computes what a manifest becomes, without writing it: `None` where it stays as it is. Every
/// requirement that changes then admits the new version. The layout stays as the author made it:
/// the order of the keys, the whitespace and the comments.
pub fn bump_manifest(manifest: &str, original: &str, bumps: &[(Package, Version)]) -> (r: Result<
    Option<String>,
>)
    ensures
        match r {
            Ok(Some(updated)) => {
                &&& can_bump(original@, manifest@, bumps@)
                &&& !is_unaffected(toml_entries(original@)->0, manifest@, bumps@)
                &&& toml_entries(updated@) == Some(
                    bumped_entries(toml_entries(original@)->0, manifest@, bumps@),
                )
                &&& toml_layout(updated@) == toml_layout(original@)
                &&& edits_admit(
                    with_own_bump(toml_entries(original@)->0, manifest@, bumps@),
                    bumps@,
                )
            },
            Ok(None) => {
                &&& can_bump(original@, manifest@, bumps@)
                &&& is_unaffected(toml_entries(original@)->0, manifest@, bumps@)
            },
            Err(e) => {
                &&& !can_bump(original@, manifest@, bumps@)
                &&& is_manifest_error(original@, manifest@, bumps@, e)
            },
        },
{
    let mut doc = match parse_document(original) {
        Ok(doc) => doc,
        Err(_) => return Err(NotchError::InvalidManifest(manifest.to_owned())),
    };
    let bumped_itself = match find_own_bump(bumps, manifest) {
        Some(i) => {
            match set_package_version(&mut doc, manifest, &bumps[i].0.version, &bumps[i].1) {
                Ok(_) => {},
                Err(e) => return Err(e),
            }
            true
        },
        None => false,
    };
    let dependents = update_dependents(&mut doc, bumps);
    if dependents || bumped_itself {
        Ok(Some(render_document(&doc)))
    } else {
        Ok(None)
    }
}

/// The version of a package is not among the requirements.
proof fn lemma_version_is_no_requirement(
    entries: Map<KeyPath, TomlEntry>,
    bumps: Seq<(Package, Version)>,
)
    ensures
        edit_at(entries, bumps, version_path()) is None,
{
    reveal_strlit("package");
    reveal_strlit("dependencies");
    reveal_strlit("dev-dependencies");
    reveal_strlit("build-dependencies");
    let p = version_path();
    assert("package"@.len() != "dependencies"@.len());
    assert("package"@.len() != "dev-dependencies"@.len());
    assert("package"@.len() != "build-dependencies"@.len());
    assert(p.drop_last() =~= seq!["package"@]);
    assert(p.drop_last().drop_last() =~= here());
}

/// Entries at the same paths lead to the same places.
proof fn lemma_leads_by_paths(
    a: Map<KeyPath, TomlEntry>,
    b: Map<KeyPath, TomlEntry>,
    path: KeyPath,
)
    requires
        a.dom() == b.dom(),
    ensures
        leads(a, path) == leads(b, path),
{
    if leads(a, path) {
        assert forall|k: int| 0 <= k <= path.len() implies b.contains_key(
            #[trigger] path.take(k),
        ) by {
            assert(a.contains_key(path.take(k)));
        }
    }
    if leads(b, path) {
        assert forall|k: int| 0 <= k <= path.len() implies a.contains_key(
            #[trigger] path.take(k),
        ) by {
            assert(b.contains_key(path.take(k)));
        }
    }
}

/// Bumps add nothing to a manifest, take nothing out of it, and change nothing but what strings
/// say.
pub proof fn bumps_change_only_strings(
    entries: Map<KeyPath, TomlEntry>,
    manifest: Seq<char>,
    bumps: Seq<(Package, Version)>,
)
    requires
        own_bump(bumps, manifest) matches Some((current, _)) ==> is_at_version(entries, current),
    ensures
        bumped_entries(entries, manifest, bumps).dom() == entries.dom(),
        forall|p: KeyPath|
            entries.contains_key(p) ==> {
                let after = #[trigger] bumped_entries(entries, manifest, bumps)[p];
                &&& after.is_value == entries[p].is_value
                &&& after.is_table == entries[p].is_table
                &&& after.string != entries[p].string ==> p == version_path() || edit_at(
                    entries,
                    bumps,
                    p,
                ) is Some
            },
{
    assert(version_path().take(2) =~= version_path());
    match own_bump(bumps, manifest) {
        Some((current, new)) => {
            let moved = with_version(entries, new);
            assert(entries.contains_key(version_path().take(2)));
            assert(moved.dom() =~= entries.dom());
            assert(bumped_entries(entries, manifest, bumps).dom() =~= entries.dom());
            assert forall|p: KeyPath|
                entries.contains_key(p) && p != version_path() implies #[trigger] edit_at(
                moved,
                bumps,
                p,
            ) == edit_at(entries, bumps, p) by {
                lemma_edit_ignores_version(entries, bumps, new, p);
            }
        },
        None => {
            assert(bumped_entries(entries, manifest, bumps).dom() =~= entries.dom());
        },
    }
}

/// What becomes of a requirement does not depend on the package's own version.
proof fn lemma_edit_ignores_version(
    entries: Map<KeyPath, TomlEntry>,
    bumps: Seq<(Package, Version)>,
    new: VersionView,
    path: KeyPath,
)
    requires
        entries.contains_key(version_path()),
        path != version_path(),
    ensures
        edit_at(with_version(entries, new), bumps, path) == edit_at(entries, bumps, path),
{
    reveal_strlit("package");
    reveal_strlit("dependencies");
    reveal_strlit("dev-dependencies");
    reveal_strlit("build-dependencies");
    reveal_strlit("workspace");
    reveal_strlit("target");
    let moved = with_version(entries, new);
    assert("package"@.len() != "dependencies"@.len());
    assert("package"@.len() != "dev-dependencies"@.len());
    assert("package"@.len() != "build-dependencies"@.len());
    assert("package"@.len() != "workspace"@.len());
    assert("package"@.len() != "target"@.len());
    assert(moved.dom() =~= entries.dom());
    lemma_dependency_ignores_version(entries, new, path);
    if path.len() > 0 {
        lemma_dependency_ignores_version(entries, new, path.drop_last());
    }
}

/// Whether a dependency stands somewhere, and what it says, does not depend on the package's own
/// version.
proof fn lemma_dependency_ignores_version(
    entries: Map<KeyPath, TomlEntry>,
    new: VersionView,
    path: KeyPath,
)
    requires
        entries.contains_key(version_path()),
    ensures
        is_dependency(with_version(entries, new), path) == is_dependency(entries, path),
        is_dependency(entries, path) ==> required_package(with_version(entries, new), path)
            == required_package(entries, path) && requirement_path(with_version(entries, new), path)
            == requirement_path(entries, path),
        is_dependency(entries, path) ==> with_version(entries, new)[path] == entries[path]
            && with_version(entries, new)[path.push("version"@)] == entries[path.push("version"@)],
{
    reveal_strlit("package");
    reveal_strlit("dependencies");
    reveal_strlit("dev-dependencies");
    reveal_strlit("build-dependencies");
    reveal_strlit("workspace");
    reveal_strlit("target");
    assert("package"@.len() != "dependencies"@.len());
    assert("package"@.len() != "dev-dependencies"@.len());
    assert("package"@.len() != "build-dependencies"@.len());
    assert("package"@.len() != "workspace"@.len());
    assert("package"@.len() != "target"@.len());
    let moved = with_version(entries, new);
    assert(moved.dom() =~= entries.dom());
    if path.len() > 0 {
        let table = path.drop_last();
        lemma_leads_by_paths(entries, moved, table);
        if table.len() > 0 && table[0] != "package"@ {
            assert(path[0] == table[0]);
            assert(path.push("version"@)[0] == table[0]);
            assert(path.push("package"@)[0] == table[0]);
        }
    }
}

/// After the bumps, a manifest that declares a bumped package states the new version, and is ready
/// to be bumped from there.
pub proof fn bumped_manifest_states_the_new_version(
    entries: Map<KeyPath, TomlEntry>,
    manifest: Seq<char>,
    bumps: Seq<(Package, Version)>,
    current: VersionView,
    new: VersionView,
)
    requires
        own_bump(bumps, manifest) == Some((current, new)),
        is_at_version(entries, current),
    ensures
        is_at_version(bumped_entries(entries, manifest, bumps), new),
{
    let moved = with_version(entries, new);
    let after = bumped_entries(entries, manifest, bumps);
    assert(version_path().take(2) =~= version_path());
    assert(entries.contains_key(version_path().take(2)));
    assert(moved.dom() =~= entries.dom());
    assert(after.dom() =~= entries.dom());
    lemma_version_is_no_requirement(moved, bumps);
    lemma_leads_by_paths(entries, after, seq!["package"@]);
    lemma_leads_by_paths(entries, after, version_path());
    lemma_leads_by_paths(entries, after, inherited_path());
    bumps_change_only_strings(entries, manifest, bumps);
    assert(seq!["package"@].take(1) =~= seq!["package"@]);
    assert(entries.contains_key(seq!["package"@].take(1)));
}

/// A requirement changes only if it does not admit the version that the package is bumped to.
pub proof fn satisfied_requirements_stay(
    entries: Map<KeyPath, TomlEntry>,
    bumps: Seq<(Package, Version)>,
    path: KeyPath,
)
    requires
        edit_at(entries, bumps, path) is Some,
    ensures
        entries[path].string is Some,
        exists|name: Seq<char>| #[trigger]
            bumped_version(bumps, name) is Some && requirement_admits(
                entries[path].string->0,
                bumped_version(bumps, name)->0,
            ) == Some(false),
{
    let d = if is_dependency(entries, path) && requirement_path(entries, path) == Some(path) {
        path
    } else {
        path.drop_last()
    };
    assert(bumped_version(bumps, required_package(entries, d)) is Some);
}

/// A package has a new version exactly if some bump of the batch is of that name, whichever bump it
/// is; it is the version of the last such bump.
pub proof fn every_bump_of_the_batch_counts(bumps: Seq<(Package, Version)>, name: Seq<char>)
    ensures
        match bumped_version(bumps, name) {
            Some(v) => exists|i: int|
                {
                    &&& 0 <= i < bumps.len()
                    &&& (#[trigger] bumps[i]).0.name@ == name
                    &&& bumps[i].1@ == v
                    &&& forall|j: int| i < j < bumps.len() ==> (#[trigger] bumps[j]).0.name@ != name
                },
            None => forall|i: int| 0 <= i < bumps.len() ==> (#[trigger] bumps[i]).0.name@ != name,
        },
    decreases bumps.len(),
{
    if bumps.len() > 0 {
        let n = bumps.len() - 1;
        let shorter = bumps.drop_last();
        if bumps[n].0.name@ != name {
            every_bump_of_the_batch_counts(shorter, name);
            match bumped_version(shorter, name) {
                Some(v) => {
                    let i = choose|i: int|
                        {
                            &&& 0 <= i < shorter.len()
                            &&& (#[trigger] shorter[i]).0.name@ == name
                            &&& shorter[i].1@ == v
                            &&& forall|j: int|
                                i < j < shorter.len() ==> (#[trigger] shorter[j]).0.name@ != name
                        };
                    assert(bumps[i] == shorter[i]);
                    assert forall|j: int| i < j < bumps.len() implies (
                    #[trigger] bumps[j]).0.name@ != name by {
                        if j < n {
                            assert(bumps[j] == shorter[j]);
                        }
                    }
                },
                None => {
                    assert forall|i: int| 0 <= i < bumps.len() implies (
                    #[trigger] bumps[i]).0.name@ != name by {
                        if i < n {
                            assert(bumps[i] == shorter[i]);
                        }
                    }
                },
            }
        } else {
            assert(bumps[n].1@ == bumped_version(bumps, name)->0);
        }
    }
}

/// A manifest is bumped itself exactly if some bump of the batch is of the package that it
/// declares, whichever bump it is; from and to the versions of the last such bump.
pub proof fn every_bumped_manifest_is_found(bumps: Seq<(Package, Version)>, manifest: Seq<char>)
    ensures
        match own_bump(bumps, manifest) {
            Some((current, new)) => exists|i: int|
                {
                    &&& 0 <= i < bumps.len()
                    &&& components((#[trigger] bumps[i]).0.manifest@) == components(manifest)
                    &&& bumps[i].0.version@ == current
                    &&& bumps[i].1@ == new
                    &&& forall|j: int|
                        i < j < bumps.len() ==> components((#[trigger] bumps[j]).0.manifest@)
                            != components(manifest)
                },
            None => forall|i: int|
                0 <= i < bumps.len() ==> components((#[trigger] bumps[i]).0.manifest@)
                    != components(manifest),
        },
    decreases bumps.len(),
{
    if bumps.len() > 0 {
        let n = bumps.len() - 1;
        let shorter = bumps.drop_last();
        if components(bumps[n].0.manifest@) != components(manifest) {
            every_bumped_manifest_is_found(shorter, manifest);
            match own_bump(shorter, manifest) {
                Some((current, new)) => {
                    let i = choose|i: int|
                        {
                            &&& 0 <= i < shorter.len()
                            &&& components((#[trigger] shorter[i]).0.manifest@) == components(
                                manifest,
                            )
                            &&& shorter[i].0.version@ == current
                            &&& shorter[i].1@ == new
                            &&& forall|j: int|
                                i < j < shorter.len() ==> components(
                                    (#[trigger] shorter[j]).0.manifest@,
                                ) != components(manifest)
                        };
                    assert(bumps[i] == shorter[i]);
                    assert forall|j: int| i < j < bumps.len() implies components(
                        (#[trigger] bumps[j]).0.manifest@,
                    ) != components(manifest) by {
                        if j < n {
                            assert(bumps[j] == shorter[j]);
                        }
                    }
                },
                None => {
                    assert forall|i: int| 0 <= i < bumps.len() implies components(
                        (#[trigger] bumps[i]).0.manifest@,
                    ) != components(manifest) by {
                        if i < n {
                            assert(bumps[i] == shorter[i]);
                        }
                    }
                },
            }
        } else {
            assert(own_bump(bumps, manifest) == Some((bumps[n].0.version@, bumps[n].1@)));
        }
    }
}

/// Dependencies are looked for in every table that can hold them, and nowhere else: the three of
/// the package, that of the workspace, and the three of every target.
pub proof fn every_dependency_table_counts(entries: Map<KeyPath, TomlEntry>, path: KeyPath)
    ensures
        is_dependency(entries, path) <==> {
            let table = path.drop_last();
            &&& path.len() > 0
            &&& entries.contains_key(path)
            &&& forall|k: int| 0 <= k < path.len() ==> entries.contains_key(#[trigger] path.take(k))
            &&& entries[table].is_table
            &&& {
                ||| table == seq!["dependencies"@]
                ||| table == seq!["dev-dependencies"@]
                ||| table == seq!["build-dependencies"@]
                ||| table == seq!["workspace"@, "dependencies"@]
                ||| exists|target: Seq<char>|
                    {
                        &&& entries[seq!["target"@]].is_table
                        &&& {
                            ||| table == #[trigger] seq!["target"@, target, "dependencies"@]
                            ||| table == seq!["target"@, target, "dev-dependencies"@]
                            ||| table == seq!["target"@, target, "build-dependencies"@]
                        }
                    }
            }
        },
{
    let table = path.drop_last();
    if path.len() > 0 {
        assert forall|k: int| 0 <= k <= table.len() implies #[trigger] table.take(k)
            == path.take(k) by {
            assert(table.take(k) =~= path.take(k));
        }
        if leads(entries, table) {
            assert forall|k: int| 0 <= k < path.len() implies entries.contains_key(
                #[trigger] path.take(k),
            ) by {
                assert(entries.contains_key(table.take(k)));
            }
        }
        if forall|k: int|
            0 <= k < path.len() ==> entries.contains_key(#[trigger] path.take(k)) {
            assert forall|k: int| 0 <= k <= table.len() implies entries.contains_key(
                #[trigger] table.take(k),
            ) by {
                assert(entries.contains_key(path.take(k)));
            }
        }
        if table.len() == 1 {
            assert(table =~= seq![table[0]]);
        }
        if table.len() == 3 {
            assert(table =~= seq![table[0], table[1], table[2]]);
            let target = table[1];
            assert(seq!["target"@, target, "dependencies"@][2] == "dependencies"@);
        }
        if is_dependency(entries, path) && table.len() == 3 {
            let target = table[1];
            let other = seq!["target"@, target, "dependencies"@];
            assert(table == other || table == seq!["target"@, target, "dev-dependencies"@] || table
                == seq!["target"@, target, "build-dependencies"@]);
        }
    }
}

/// A dependency is on the package of its key, or on the one that `package` names; its requirement
/// is the string at its key, or the one under `version`.
pub proof fn dependencies_are_read_in_both_forms(
    entries: Map<KeyPath, TomlEntry>,
    path: KeyPath,
)
    requires
        path.len() > 0,
        entries[path].string is Some ==> !entries[path].is_table,
    ensures
        entries[path].string is Some ==> required_package(entries, path) == path.last()
            && requirement_path(entries, path) == Some(path),
        entries[path].is_table && entries.contains_key(path.push("package"@)) ==> (entries[path.push(
            "package"@,
        )].string matches Some(name) ==> required_package(entries, path) == name),
        entries[path].is_table && !entries.contains_key(path.push("package"@)) ==> required_package(
            entries,
            path,
        ) == path.last(),
        entries[path].is_table && entries.contains_key(path.push("version"@)) && entries[path.push(
            "version"@,
        )].string is Some ==> requirement_path(entries, path) == Some(path.push("version"@)),
        entries[path].is_table && !entries.contains_key(path.push("version"@))
            ==> requirement_path(entries, path) is None,
{
}

/// After the bumps, the requirement of every dependency on a package of the batch admits that
/// package's new version, unless it was no requirement in the first place or is one of those to
/// leave alone.
pub proof fn requirements_follow_the_bumps(
    entries: Map<KeyPath, TomlEntry>,
    manifest: Seq<char>,
    bumps: Seq<(Package, Version)>,
    dependency: KeyPath,
    at: KeyPath,
    i: int,
)
    requires
        edits_admit(with_own_bump(entries, manifest, bumps), bumps),
        0 <= i < bumps.len(),
        forall|j: int| i < j < bumps.len() ==> (#[trigger] bumps[j]).0.name@ != bumps[i].0.name@,
        is_dependency(with_own_bump(entries, manifest, bumps), dependency),
        requirement_path(with_own_bump(entries, manifest, bumps), dependency) == Some(at),
        required_package(with_own_bump(entries, manifest, bumps), dependency) == bumps[i].0.name@,
    ensures
        ({
            let before = with_own_bump(entries, manifest, bumps)[at].string->0;
            let after = bumped_entries(entries, manifest, bumps)[at].string;
            let new = bumps[i].1@;
            ||| after is Some && requirement_admits(after->0, new) == Some(true)
            ||| after == Some(before) && (requirement_admits(before, new) is None || is_left_alone(
                before,
            ) || doubles_operator(before))
        }),
{
    let base = with_own_bump(entries, manifest, bumps);
    let name = bumps[i].0.name@;
    let new = bumps[i].1@;
    every_bump_of_the_batch_counts(bumps, name);
    assert(bumped_version(bumps, name) == Some(new)) by {
        match bumped_version(bumps, name) {
            Some(v) => {
                let k = choose|k: int|
                    {
                        &&& 0 <= k < bumps.len()
                        &&& (#[trigger] bumps[k]).0.name@ == name
                        &&& bumps[k].1@ == v
                        &&& forall|j: int|
                            k < j < bumps.len() ==> (#[trigger] bumps[j]).0.name@ != name
                    };
                if k < i {
                    assert(bumps[i].0.name@ != name);
                }
                if i < k {
                    assert(bumps[k].0.name@ != name);
                }
            },
            None => {
                assert(bumps[i].0.name@ != name);
            },
        }
    }
    lemma_edit_at(base, bumps, dependency, at);
    assert(base.contains_key(at));
    let before = base[at].string->0;
    match edit_at(base, bumps, at) {
        Some(s) => {
            assert(admits_required(base, bumps, at, s));
        },
        None => {
            assert(new_requirement(before, new) is None);
            if requirement_admits(before, new) == Some(false) && !doubles_operator(before) {
                lemma_left_alone(before, new);
            }
        },
    }
}

/// What changes is a requirement of a dependency on a bumped package, or the package's own version:
/// no other string does.
pub proof fn only_requirements_on_bumped_packages_change(
    entries: Map<KeyPath, TomlEntry>,
    bumps: Seq<(Package, Version)>,
    path: KeyPath,
)
    requires
        edit_at(entries, bumps, path) is Some,
    ensures
        exists|dependency: KeyPath|
            {
                &&& dependency == path || dependency.push("version"@) == path
                &&& #[trigger] is_dependency(entries, dependency)
                &&& exists|i: int|
                    0 <= i < bumps.len() && (#[trigger] bumps[i]).0.name@ == required_package(
                        entries,
                        dependency,
                    )
            },
{
    let d = if is_dependency(entries, path) && requirement_path(entries, path) == Some(path) {
        path
    } else {
        path.drop_last()
    };
    if d != path {
        assert(d.push("version"@) =~= path);
    }
    assert(is_dependency(entries, d));
    every_bump_of_the_batch_counts(bumps, required_package(entries, d));
}

/// How many operators stand in front of a text that does not start with one.
proof fn lemma_operators_in_front(operator: Seq<char>, rest: Seq<char>)
    requires
        operator.len() <= 1,
        operator.len() == 1 ==> is_operator(operator[0]),
        rest.len() > 0,
        !is_operator(rest[0]),
    ensures
        operator_len(operator + rest) == operator.len(),
        (operator + rest).take(operator.len() as int) == operator,
        (operator + rest).skip(operator.len() as int) == rest,
{
    let all = operator + rest;
    assert(all.skip(operator.len() as int) =~= rest);
    assert(all.take(operator.len() as int) =~= operator);
    assert(operator_len(rest) == 0);
    if operator.len() == 1 {
        assert(all.drop_first() =~= rest);
    } else {
        assert(all =~= rest);
    }
}

/// A requirement keeps its shape: the same operator, and as many numbers as it had. A version that
/// is a pre-release is spelled out in full.
pub proof fn rewriting_keeps_the_shape(
    operator: Seq<char>,
    numbers: Seq<Seq<char>>,
    new: VersionView,
)
    requires
        operator.len() == 0 || operator == seq!['^'] || operator == seq!['~'] || operator == seq!['='],
        1 <= numbers.len() <= 3,
        forall|i: int, j: int|
            0 <= i < numbers.len() && 0 <= j < numbers[i].len() ==> text::is_digit(
                #[trigger] numbers[i][j],
            ),
        forall|i: int| 0 <= i < numbers.len() ==> (#[trigger] numbers[i]).len() > 0,
    ensures
        ({
            let existing = operator + text::joined(numbers, seq!['.']);
            &&& new.pre.len() > 0 ==> rewritten(existing, new) == Some(operator + new.text())
            &&& new.pre.len() == 0 && numbers.len() == 1 ==> rewritten(existing, new) == Some(
                operator + text::decimal(new.major as nat),
            )
            &&& new.pre.len() == 0 && numbers.len() == 2 ==> rewritten(existing, new) == Some(
                operator + (text::decimal(new.major as nat) + seq!['.'] + text::decimal(
                    new.minor as nat,
                )),
            )
            &&& numbers.len() == 3 ==> rewritten(existing, new) == Some(operator + new.text())
        }),
{
    let rest = text::joined(numbers, seq!['.']);
    let existing = operator + rest;
    assert forall|i: int| 0 <= i < numbers.len() implies text::lacks(#[trigger] numbers[i], '.')
        && text::lacks(numbers[i], ',') && text::lacks(numbers[i], '*') by {
        assert forall|j: int| 0 <= j < numbers[i].len() implies numbers[i][j] != '.'
            && numbers[i][j] != ',' && numbers[i][j] != '*' by {
            assert(text::is_digit(numbers[i][j]));
        }
    }
    assert(numbers[0].len() > 0);
    assert(numbers[numbers.len() - 1].len() > 0);
    text::lemma_joined_ends(numbers, seq!['.']);
    assert(text::is_digit(numbers[0][0]));
    let last = numbers[numbers.len() - 1];
    assert(text::is_digit(last[last.len() - 1]));
    text::split_undoes_join(numbers, '.');
    text::lemma_joined_lacks(numbers, seq!['.'], ',');
    text::lemma_joined_lacks(numbers, seq!['.'], '*');
    lemma_operators_in_front(operator, rest);
    let none = Seq::<char>::empty();
    text::lemma_trimmed_around(none, existing, none);
    assert(none + existing + none =~= existing);
    text::lemma_trimmed_around(none, rest, none);
    assert(none + rest + none =~= rest);
    assert(!rest.contains(','));
    assert(!rest.contains('*'));
}

/// Requirements with several comparators or a wildcard, and bounds, are never rewritten.
pub proof fn ambiguous_requirements_are_never_rewritten(existing: Seq<char>, new: VersionView)
    requires
        existing.contains(',') || existing.contains('*') || (text::trimmed(existing).len() > 0 && (
        text::trimmed(existing)[0] == '>' || text::trimmed(existing)[0] == '<')),
    ensures
        rewritten(existing, new) is None,
{
    let s = text::trimmed(existing);
    let n = operator_len(s) as int;
    lemma_operators_end(s);
    let rest = s.skip(n);
    if existing.contains(',') || existing.contains('*') {
        let c = if existing.contains(',') {
            ','
        } else {
            '*'
        };
        let k = choose|k: int| 0 <= k < existing.len() && existing[k] == c;
        text::trimming_takes_off_the_whitespace_around(existing);
        let (a, b) = choose|a: int, b: int|
            {
                &&& 0 <= a <= b <= existing.len()
                &&& text::trimmed(existing) == #[trigger] existing.subrange(a, b)
                &&& forall|k: int|
                    0 <= k < a || b <= k < existing.len() ==> text::is_whitespace(
                        #[trigger] existing[k],
                    )
                &&& a < b ==> !text::is_whitespace(existing[a]) && !text::is_whitespace(
                    existing[b - 1],
                )
            };
        assert(a <= k < b);
        assert(s[k - a] == c);
        assert(n <= k - a) by {
            if k - a < n {
                assert(is_operator(s[k - a]));
            }
        }
        assert(rest[k - a - n] == c);
    } else {
        assert(n == 0);
        assert(rest[0] == s[0]);
    }
}

/// What is counted as operators are operators.
proof fn lemma_operators_end(s: Seq<char>)
    ensures
        operator_len(s) <= s.len(),
        forall|i: int| 0 <= i < operator_len(s) ==> is_operator(#[trigger] s[i]),
    decreases s.len(),
{
    if s.len() > 0 && is_operator(s[0]) {
        let rest = s.drop_first();
        lemma_operators_end(rest);
        assert forall|i: int| 0 <= i < operator_len(s) implies is_operator(#[trigger] s[i]) by {
            if i > 0 {
                assert(s[i] == rest[i - 1]);
            }
        }
    }
}

/// Only a version that the manifest states itself can be bumped: one that is inherited, missing or
/// another than the expected one cannot.
pub proof fn only_stated_versions_are_bumped(
    entries: Map<KeyPath, TomlEntry>,
    manifest: Seq<char>,
    version: VersionView,
)
    ensures
        is_at_version(entries, version) ==> {
            &&& entries[seq!["package"@]].is_table
            &&& entries.contains_key(seq!["package"@, "version"@])
            &&& entries[seq!["package"@, "version"@]].string == Some(version.text())
            &&& !entries.contains_key(seq!["package"@, "version"@, "workspace"@])
            &&& forall|e: NotchError| !#[trigger] is_refusal(entries, manifest, version, e)
        },
{
    if is_at_version(entries, version) {
        assert(version_path().take(2) =~= version_path());
        assert(entries.contains_key(version_path().take(2)));
        if entries.contains_key(inherited_path()) {
            assert forall|k: int| 0 <= k <= inherited_path().len() implies entries.contains_key(
                #[trigger] inherited_path().take(k),
            ) by {
                if k == 3 {
                    assert(inherited_path().take(3) =~= inherited_path());
                } else {
                    assert(inherited_path().take(k) =~= version_path().take(k));
                }
            }
            assert(leads(entries, inherited_path()));
        }
    }
}

/// Every operator that the text starts with counts, and nothing behind them.
pub proof fn every_leading_operator_counts(s: Seq<char>)
    ensures
        operator_len(s) <= s.len(),
        forall|i: int|
            0 <= i < operator_len(s) ==> #[trigger] s[i] == '^' || s[i] == '~' || s[i] == '=',
        operator_len(s) < s.len() ==> {
            let c = s[operator_len(s) as int];
            c != '^' && c != '~' && c != '='
        },
    decreases s.len(),
{
    if s.len() > 0 && is_operator(s[0]) {
        let rest = s.drop_first();
        every_leading_operator_counts(rest);
        assert forall|i: int| 0 <= i < operator_len(s) implies #[trigger] s[i] == '^' || s[i] == '~'
            || s[i] == '=' by {
            if i > 0 {
                assert(s[i] == rest[i - 1]);
            }
        }
        if operator_len(s) < s.len() {
            assert(s[operator_len(s) as int] == rest[operator_len(rest) as int]);
        }
    }
}

/// What is to be left alone is exactly what holds several comparators, a wildcard or a bound, and
/// none of it is rewritten.
pub proof fn what_is_left_alone_is_never_rewritten(existing: Seq<char>, new: VersionView)
    requires
        is_left_alone(existing),
    ensures
        rewritten(existing, new) is None,
        new_requirement(existing, new) is None,
        existing.contains(',') || existing.contains('*') || text::trimmed(existing)[0] == '>'
            || text::trimmed(existing)[0] == '<',
{
    ambiguous_requirements_are_never_rewritten(existing, new);
}

/// The version that a requirement has to admit is the one that the package it is on is bumped to;
/// what is no requirement of a dependency has to admit none.
pub proof fn requirements_have_to_admit_the_bumped_version(
    entries: Map<KeyPath, TomlEntry>,
    bumps: Seq<(Package, Version)>,
    at: KeyPath,
)
    ensures
        forall|dependency: KeyPath| #[trigger]
            is_dependency(entries, dependency) && requirement_path(entries, dependency) == Some(at)
                ==> required_version(entries, bumps, at) == bumped_version(
                bumps,
                required_package(entries, dependency),
            ),
        required_version(entries, bumps, at) is Some ==> exists|dependency: KeyPath| #[trigger]
            is_dependency(entries, dependency) && requirement_path(entries, dependency) == Some(at),
        edit_at(entries, bumps, at) is Some ==> required_version(entries, bumps, at) is Some,
{
    assert forall|dependency: KeyPath| #[trigger]
        is_dependency(entries, dependency) && requirement_path(entries, dependency) == Some(
            at,
        ) implies required_version(entries, bumps, at) == bumped_version(
        bumps,
        required_package(entries, dependency),
    ) by {
        lemma_edit_at(entries, bumps, dependency, at);
    }
    if required_version(entries, bumps, at) is Some {
        let d = if is_dependency(entries, at) && requirement_path(entries, at) == Some(at) {
            at
        } else {
            at.drop_last()
        };
        assert(is_dependency(entries, d) && requirement_path(entries, d) == Some(at));
    }
}

/// Bumps are refused for a text that is no TOML document and for a manifest that does not state the
/// version that is bumped; where they can be applied, nothing is a reason against it.
pub proof fn bumps_apply_to_documents_at_the_version(
    original: Seq<char>,
    manifest: Seq<char>,
    bumps: Seq<(Package, Version)>,
)
    ensures
        toml_entries(original) is None ==> !can_bump(original, manifest, bumps),
        own_bump(bumps, manifest) matches Some((current, _)) ==> can_bump(original, manifest, bumps)
            ==> is_at_version(toml_entries(original)->0, current),
        own_bump(bumps, manifest) is None && toml_entries(original) is Some ==> can_bump(
            original,
            manifest,
            bumps,
        ),
        can_bump(original, manifest, bumps) ==> forall|e: NotchError| !#[trigger]
            is_manifest_error(original, manifest, bumps, e),
{
}

} // verus!
