//! The tags for the packages whose version went up between two commits.
use crate::bump::{bump_increases_version, Bump};
use crate::config::{ReleaseConfig, ReleaseView};
use crate::error::{NotchError, Result};
use crate::package::{Package, PackageView};
use crate::sections::package_views;
use crate::text;
use crate::version::{comes_before, version_of, Version};
use vstd::prelude::*;

verus! {

/// The version to tag, given the versions before and after.
pub fn tag(old: Option<Version>, new: Option<Version>) -> (r: Result<Option<Version>>)
    ensures
        match (old, new) {
            (None, Some(n)) => r == Ok::<Option<Version>, NotchError>(Some(n)),
            (Some(o), Some(n)) => if comes_before(o@, n@) {
                r == Ok::<Option<Version>, NotchError>(Some(n))
            } else if comes_before(n@, o@) {
                r == Err::<Option<Version>, NotchError>(NotchError::OlderVersion)
            } else {
                r == Ok::<Option<Version>, NotchError>(None)
            },
            (_, None) => r == Ok::<Option<Version>, NotchError>(None),
        },
{
    match (old, new) {
        (None, Some(n)) => Ok(Some(n)),
        (Some(o), Some(n)) => if o.less(&n) {
            Ok(Some(n))
        } else if n.less(&o) {
            Err(NotchError::OlderVersion)
        } else {
            Ok(None)
        },
        (_, None) => Ok(None),
    }
}

/// The last of the members at the path.
pub open spec fn member_at(members: Seq<PackageView>, path: Seq<char>) -> Option<PackageView>
    decreases members.len(),
{
    if members.len() == 0 {
        None
    } else if members.last().path == path {
        Some(members.last())
    } else {
        member_at(members.drop_last(), path)
    }
}

/// Whether the member at the path went back to an older version.
pub open spec fn went_back(
    old: Seq<PackageView>,
    new: Seq<PackageView>,
    path: Seq<char>,
) -> bool {
    match (member_at(old, path), member_at(new, path)) {
        (Some(o), Some(n)) => !comes_before(o.version, n.version) && comes_before(
            n.version,
            o.version,
        ),
        _ => false,
    }
}

/// The tag for the member at the path, where it is new or went up.
pub open spec fn tag_at(
    old: Seq<PackageView>,
    new: Seq<PackageView>,
    release: ReleaseView,
    path: Seq<char>,
) -> Option<Seq<char>> {
    match (member_at(old, path), member_at(new, path)) {
        (None, Some(n)) => Some(release.tag(n.name, n.version.text())),
        (Some(o), Some(n)) => if comes_before(o.version, n.version) {
            Some(release.tag(n.name, n.version.text()))
        } else {
            None
        },
        (_, None) => None,
    }
}

/// The paths of the members, each once, in the order in which they first occur.
pub open spec fn distinct_paths(members: Seq<PackageView>) -> Seq<Seq<char>>
    decreases members.len(),
{
    if members.len() == 0 {
        Seq::empty()
    } else {
        let rest = distinct_paths(members.drop_last());
        if rest.contains(members.last().path) {
            rest
        } else {
            rest.push(members.last().path)
        }
    }
}

/// The tags at the paths, in order.
pub open spec fn tags_at(
    old: Seq<PackageView>,
    new: Seq<PackageView>,
    release: ReleaseView,
    paths: Seq<Seq<char>>,
) -> Seq<Seq<char>>
    decreases paths.len(),
{
    if paths.len() == 0 {
        Seq::empty()
    } else {
        let rest = tags_at(old, new, release, paths.drop_last());
        match tag_at(old, new, release, paths.last()) {
            Some(t) => rest.push(t),
            None => rest,
        }
    }
}

/// Where the last of the members at the path stands.
fn find_member(members: &[Package], path: &str) -> (r: Option<usize>)
    ensures
        match r {
            Some(i) => i < members@.len() && member_at(package_views(members@), path@) == Some(
                members@[i as int]@,
            ),
            None => member_at(package_views(members@), path@) is None,
        },
{
    let ghost all = package_views(members@);
    let mut i: usize = members.len();
    assert(all.take(i as int) =~= all);
    while i > 0
        invariant
            i <= members@.len(),
            all == package_views(members@),
            member_at(all, path@) == member_at(all.take(i as int), path@),
        decreases i,
    {
        assert(all.take(i as int).last() == members@[i - 1]@);
        assert(all.take(i as int).drop_last() =~= all.take(i - 1));
        i -= 1;
        if text::same(members[i].path.as_str(), path) {
            return Some(i);
        }
    }
    None
}

/// Whether the text is one of the list.
fn is_listed(list: &Vec<String>, s: &str) -> (r: bool)
    ensures
        r == text::texts(list@).contains(s@),
{
    let ghost all = text::texts(list@);
    let mut i: usize = 0;
    while i < list.len()
        invariant
            i <= list@.len(),
            all == text::texts(list@),
            forall|j: int| 0 <= j < i ==> all[j] != s@,
        decreases list@.len() - i,
    {
        assert(all[i as int] == list@[i as int]@);
        if text::same(list[i].as_str(), s) {
            return true;
        }
        i += 1;
    }
    false
}

/// Adds the paths of the members that are not listed yet.
fn push_paths(members: &[Package], Ghost(earlier): Ghost<Seq<PackageView>>, paths: &mut Vec<String>)
    requires
        text::texts(old(paths)@) == distinct_paths(earlier),
    ensures
        text::texts(final(paths)@) == distinct_paths(earlier + package_views(members@)),
{
    let ghost all = package_views(members@);
    let mut i: usize = 0;
    assert(earlier + all.take(0) =~= earlier);
    while i < members.len()
        invariant
            i <= members@.len(),
            all == package_views(members@),
            text::texts(paths@) == distinct_paths(earlier + all.take(i as int)),
        decreases members@.len() - i,
    {
        let ghost so_far = earlier + all.take(i + 1);
        assert(so_far.drop_last() =~= earlier + all.take(i as int));
        assert(so_far.last() == members@[i as int]@);
        let ghost before = text::texts(paths@);
        if !is_listed(paths, members[i].path.as_str()) {
            paths.push(members[i].path.clone());
            assert(text::texts(paths@) =~= before.push(members@[i as int].path@));
        }
        i += 1;
    }
    assert(all.take(i as int) =~= all);
}

/// The tags for the members, which are told apart by their paths: a member that is new or went up
/// gets one, and a member that went back is an error.
pub fn compute_tags(
    old_members: &[Package],
    new_members: &[Package],
    release: &ReleaseConfig,
) -> (r: Result<Vec<String>>)
    ensures
        ({
            let old = package_views(old_members@);
            let new = package_views(new_members@);
            let paths = distinct_paths(old + new);
            match r {
                Ok(tags) => {
                    &&& forall|i: int|
                        0 <= i < paths.len() ==> !went_back(old, new, #[trigger] paths[i])
                    &&& text::texts(tags@) == tags_at(old, new, release@, paths)
                },
                Err(e) => {
                    &&& e == NotchError::OlderVersion
                    &&& exists|i: int|
                        0 <= i < paths.len() && went_back(old, new, #[trigger] paths[i])
                },
            }
        }),
{
    let ghost old = package_views(old_members@);
    let ghost new = package_views(new_members@);
    let mut paths: Vec<String> = Vec::new();
    assert(text::texts(paths@) =~= distinct_paths(Seq::empty()));
    push_paths(old_members, Ghost(Seq::empty()), &mut paths);
    assert(Seq::<PackageView>::empty() + old =~= old);
    push_paths(new_members, Ghost(old), &mut paths);
    let ghost all = text::texts(paths@);
    let mut tags: Vec<String> = Vec::new();
    let mut i: usize = 0;
    assert(text::texts(tags@) =~= tags_at(old, new, release@, all.take(0)));
    while i < paths.len()
        invariant
            i <= paths@.len(),
            old == package_views(old_members@),
            new == package_views(new_members@),
            all == text::texts(paths@),
            all == distinct_paths(old + new),
            forall|j: int| 0 <= j < i ==> !went_back(old, new, #[trigger] all[j]),
            text::texts(tags@) == tags_at(old, new, release@, all.take(i as int)),
        decreases paths@.len() - i,
    {
        let path = paths[i].as_str();
        assert(all[i as int] == path@);
        assert(all.take(i + 1).drop_last() =~= all.take(i as int));
        assert(all.take(i + 1).last() == all[i as int]);
        let old_version = match find_member(old_members, path) {
            Some(o) => Some(old_members[o].version.clone()),
            None => None,
        };
        let found = find_member(new_members, path);
        let new_version = match found {
            Some(n) => Some(new_members[n].version.clone()),
            None => None,
        };
        let ghost before = text::texts(tags@);
        match tag(old_version, new_version) {
            Ok(Some(version)) => match found {
                Some(n) => {
                    let written = version.to_string();
                    let name = release.format_tag(new_members[n].name.as_str(), written.as_str());
                    let ghost view = name@;
                    tags.push(name);
                    assert(text::texts(tags@) =~= before.push(view));
                },
                None => {},
            },
            Ok(None) => {},
            Err(e) => {
                assert(went_back(old, new, all[i as int]));
                return Err(e);
            },
        }
        i += 1;
    }
    assert(all.take(i as int) =~= all);
    Ok(tags)
}

/// Why a text is no TOML document, which is carried and never looked into.
#[verifier::external_type_specification]
#[verifier::external_body]
pub struct ExTomlDeError(toml::de::Error);

/// The string under a key at the top of a TOML document, as `toml` reads it: `None` where the text
/// is no document that `toml::from_str` can go through, and `Some(None)` where no string stands
/// there.
pub uninterp spec fn top_string(text: Seq<char>, key: Seq<char>) -> Option<Option<Seq<char>>>;

/// `toml::from_str` into `serde::de::IgnoredAny`, which goes through the document without keeping
/// what it holds, and `DeTable::parse`, `Map::get` and `DeValue::as_str` of `toml`: reads the text
/// as a document and gives the string under a key at its top. What the other values are does not
/// matter.
#[verifier::external_body]
fn read_top_string(text: &str, key: &str) -> (r: core::result::Result<
    Option<String>,
    toml::de::Error,
>)
    ensures
        match r {
            Ok(Some(s)) => top_string(text@, key@) == Some(Some(s@)),
            Ok(None) => top_string(text@, key@) == Some(None::<Seq<char>>),
            Err(_) => top_string(text@, key@) is None,
        },
{
    toml::from_str::<serde::de::IgnoredAny>(text)?;
    let table = toml::de::DeTable::parse(text)?;
    Ok(table.get_ref().get(key).and_then(|value| value.get_ref().as_str()).map(str::to_owned))
}

/// The version that a text names as the `version` at its top.
pub fn parse_version(v: &str) -> (r: Result<Version>)
    ensures
        match top_string(v@, "version"@) {
            Some(Some(s)) => match r {
                Ok(version) => version_of(s) == Some(version@),
                Err(e) => version_of(s) is None && (e matches NotchError::InvalidVersion(t) && t@
                    == s),
            },
            _ => r == Err::<Version, NotchError>(NotchError::NoVersion),
        },
{
    match read_top_string(v, "version") {
        Ok(Some(s)) => Version::parse(s.as_str()),
        _ => Err(NotchError::NoVersion),
    }
}

/// A member whose version did not go up gets no tag, and neither does one that is gone.
pub proof fn unchanged_members_get_no_tag(
    old: Seq<PackageView>,
    new: Seq<PackageView>,
    release: ReleaseView,
    path: Seq<char>,
)
    requires
        member_at(new, path) is None || (member_at(old, path) matches Some(o) && member_at(
            new,
            path,
        ) matches Some(n) && !comes_before(o.version, n.version)),
    ensures
        tag_at(old, new, release, path) is None,
{
}

/// A member whose version was bumped gets the tag for its new version.
pub proof fn bumped_members_get_a_tag(
    old: Seq<PackageView>,
    new: Seq<PackageView>,
    release: ReleaseView,
    path: Seq<char>,
    bump: Bump,
)
    requires
        member_at(old, path) is Some,
        member_at(new, path) is Some,
        bump.fits(member_at(old, path)->0.version),
        member_at(new, path)->0.version == bump.applied(member_at(old, path)->0.version),
    ensures
        tag_at(old, new, release, path) == Some(
            release.tag(
                member_at(new, path)->0.name,
                member_at(new, path)->0.version.text(),
            ),
        ),
        !went_back(old, new, path),
{
    bump_increases_version(bump, member_at(old, path)->0.version);
}

/// The member at a path is one of the members, the last of those at the path; there is none only
/// where no member is at the path.
pub proof fn the_last_member_at_a_path_is_found(members: Seq<PackageView>, path: Seq<char>)
    ensures
        match member_at(members, path) {
            Some(m) => exists|i: int|
                {
                    &&& 0 <= i < members.len()
                    &&& #[trigger] members[i] == m
                    &&& m.path == path
                    &&& forall|j: int| i < j < members.len() ==> (#[trigger] members[j]).path != path
                },
            None => forall|i: int| 0 <= i < members.len() ==> (#[trigger] members[i]).path != path,
        },
    decreases members.len(),
{
    if members.len() > 0 {
        let n = members.len() - 1;
        let shorter = members.drop_last();
        if members.last().path == path {
            assert(members[n] == members.last());
        } else {
            the_last_member_at_a_path_is_found(shorter, path);
            match member_at(shorter, path) {
                Some(m) => {
                    let i = choose|i: int|
                        {
                            &&& 0 <= i < shorter.len()
                            &&& #[trigger] shorter[i] == m
                            &&& m.path == path
                            &&& forall|j: int|
                                i < j < shorter.len() ==> (#[trigger] shorter[j]).path != path
                        };
                    assert(members[i] == m);
                    assert forall|j: int| i < j < members.len() implies (
                    #[trigger] members[j]).path != path by {
                        if j < n {
                            assert(members[j] == shorter[j]);
                        }
                    }
                },
                None => {
                    assert forall|i: int| 0 <= i < members.len() implies (
                    #[trigger] members[i]).path != path by {
                        if i < n {
                            assert(members[i] == shorter[i]);
                        }
                    }
                },
            }
        }
    }
}

/// Every path of a member is listed, once, and no other; the paths of the first members come first.
pub proof fn every_path_is_listed_once(a: Seq<PackageView>, b: Seq<PackageView>)
    ensures
        distinct_paths(a).no_duplicates(),
        forall|path: Seq<char>| #[trigger]
            distinct_paths(a).contains(path) <==> exists|i: int|
                0 <= i < a.len() && (#[trigger] a[i]).path == path,
        distinct_paths(a).is_prefix_of(distinct_paths(a + b)),
    decreases a.len() + b.len(),
{
    broadcast use vstd::seq_lib::group_seq_properties;

    if a.len() > 0 {
        let shorter = a.drop_last();
        let none = Seq::<PackageView>::empty();
        every_path_is_listed_once(shorter, none);
        let rest = distinct_paths(shorter);
        let last = a.last().path;
        assert forall|path: Seq<char>| #[trigger]
            distinct_paths(a).contains(path) <==> exists|i: int|
                0 <= i < a.len() && (#[trigger] a[i]).path == path by {
            assert(rest.push(last).contains(path) <==> rest.contains(path) || path == last);
            if rest.contains(path) {
                let i = choose|i: int| 0 <= i < shorter.len() && (#[trigger] shorter[i]).path == path;
                assert(a[i].path == path);
            }
            if exists|i: int| 0 <= i < a.len() && (#[trigger] a[i]).path == path {
                let i = choose|i: int| 0 <= i < a.len() && (#[trigger] a[i]).path == path;
                if i < shorter.len() {
                    assert(shorter[i].path == path);
                }
            }
            if path == last {
                assert(a[a.len() - 1].path == path);
            }
        }
    }
    if b.len() == 0 {
        assert(a + b =~= a);
        assert(distinct_paths(a).take(distinct_paths(a).len() as int) =~= distinct_paths(a));
    } else {
        every_path_is_listed_once(a, b.drop_last());
        assert((a + b).drop_last() =~= a + b.drop_last());
        let first = distinct_paths(a);
        let rest = distinct_paths(a + b.drop_last());
        let all = distinct_paths(a + b);
        assert(all.take(first.len() as int) =~= rest.take(first.len() as int));
    }
}

/// Paths are looked at one by one: each with a tag gives it, and the order stays.
pub proof fn tags_come_path_by_path(
    old: Seq<PackageView>,
    new: Seq<PackageView>,
    release: ReleaseView,
    a: Seq<Seq<char>>,
    b: Seq<Seq<char>>,
)
    ensures
        tags_at(old, new, release, a + b) == tags_at(old, new, release, a) + tags_at(
            old,
            new,
            release,
            b,
        ),
        forall|path: Seq<char>| #[trigger]
            tags_at(old, new, release, seq![path]) == (match tag_at(old, new, release, path) {
                Some(t) => seq![t],
                None => Seq::empty(),
            }),
        tags_at(old, new, release, Seq::empty()) == Seq::<Seq<char>>::empty(),
    decreases b.len(),
{
    assert forall|path: Seq<char>| #[trigger]
        tags_at(old, new, release, seq![path]) == (match tag_at(old, new, release, path) {
            Some(t) => seq![t],
            None => Seq::empty(),
        }) by {
        assert(seq![path].drop_last() =~= Seq::empty());
        reveal_with_fuel(tags_at, 2);
        assert(tags_at(old, new, release, seq![path]) =~= (match tag_at(old, new, release, path) {
            Some(t) => seq![t],
            None => Seq::empty(),
        }));
    }
    if b.len() == 0 {
        assert(a + b =~= a);
    } else {
        tags_come_path_by_path(old, new, release, a, b.drop_last());
        assert((a + b).drop_last() =~= a + b.drop_last());
        assert((a + b).last() == b.last());
    }
    assert(tags_at(old, new, release, a + b) =~= tags_at(old, new, release, a) + tags_at(
        old,
        new,
        release,
        b,
    ));
}

/// The tags at the paths are those of the paths.
proof fn lemma_tags_members(
    old: Seq<PackageView>,
    new: Seq<PackageView>,
    release: ReleaseView,
    paths: Seq<Seq<char>>,
    t: Seq<char>,
)
    ensures
        tags_at(old, new, release, paths).contains(t) <==> exists|path: Seq<char>|
            paths.contains(path) && #[trigger] tag_at(old, new, release, path) == Some(t),
    decreases paths.len(),
{
    broadcast use vstd::seq_lib::group_seq_properties;

    if paths.len() > 0 {
        let shorter = paths.drop_last();
        let last = paths.last();
        lemma_tags_members(old, new, release, shorter, t);
        assert(paths =~= shorter.push(last));
        let rest = tags_at(old, new, release, shorter);
        match tag_at(old, new, release, last) {
            Some(tag) => {
                assert(rest.push(tag).contains(t) <==> rest.contains(t) || t == tag);
            },
            None => {},
        }
        assert(forall|path: Seq<char>|
            paths.contains(path) <==> shorter.contains(path) || path == last);
        if tags_at(old, new, release, paths).contains(t) {
            if rest.contains(t) {
                let path = choose|path: Seq<char>|
                    shorter.contains(path) && #[trigger] tag_at(old, new, release, path) == Some(t);
                assert(paths.contains(path) && tag_at(old, new, release, path) == Some(t));
            } else {
                assert(paths.contains(last) && tag_at(old, new, release, last) == Some(t));
            }
        }
    }
}

/// Exactly the members that are new, or whose version went up, are tagged, all of them: a tag is
/// printed if and only if it is the tag of such a member, and what precedes it at its path was
/// older.
pub proof fn every_risen_member_is_tagged(
    old: Seq<PackageView>,
    new: Seq<PackageView>,
    release: ReleaseView,
    t: Seq<char>,
)
    ensures
        tags_at(old, new, release, distinct_paths(old + new)).contains(t) <==> exists|i: int|
            {
                &&& 0 <= i < new.len()
                &&& forall|j: int| i < j < new.len() ==> (#[trigger] new[j]).path != new[i].path
                &&& t == release.tag((#[trigger] new[i]).name, new[i].version.text())
                &&& forall|k: int|
                    {
                        &&& 0 <= k < old.len()
                        &&& (#[trigger] old[k]).path == new[i].path
                        &&& forall|j: int| k < j < old.len() ==> (#[trigger] old[j]).path != new[i].path
                    } ==> comes_before(old[k].version, new[i].version)
            },
{
    let all = old + new;
    let paths = distinct_paths(all);
    lemma_tags_members(old, new, release, paths, t);
    every_path_is_listed_once(all, Seq::empty());
    if tags_at(old, new, release, paths).contains(t) {
        let path = choose|path: Seq<char>|
            paths.contains(path) && #[trigger] tag_at(old, new, release, path) == Some(t);
        the_last_member_at_a_path_is_found(old, path);
        the_last_member_at_a_path_is_found(new, path);
        let n = member_at(new, path)->0;
        let i = choose|i: int|
            {
                &&& 0 <= i < new.len()
                &&& #[trigger] new[i] == n
                &&& n.path == path
                &&& forall|j: int| i < j < new.len() ==> (#[trigger] new[j]).path != path
            };
        assert forall|k: int|
            {
                &&& 0 <= k < old.len()
                &&& (#[trigger] old[k]).path == new[i].path
                &&& forall|j: int| k < j < old.len() ==> (#[trigger] old[j]).path != new[i].path
            } implies comes_before(old[k].version, new[i].version) by {
            lemma_last_is_unique(old, path, k);
        }
        assert(t == release.tag(new[i].name, new[i].version.text()));
    }
    if exists|i: int|
        {
            &&& 0 <= i < new.len()
            &&& forall|j: int| i < j < new.len() ==> (#[trigger] new[j]).path != new[i].path
            &&& t == release.tag((#[trigger] new[i]).name, new[i].version.text())
            &&& forall|k: int|
                {
                    &&& 0 <= k < old.len()
                    &&& (#[trigger] old[k]).path == new[i].path
                    &&& forall|j: int| k < j < old.len() ==> (#[trigger] old[j]).path != new[i].path
                } ==> comes_before(old[k].version, new[i].version)
        } {
        let i = choose|i: int|
            {
                &&& 0 <= i < new.len()
                &&& forall|j: int| i < j < new.len() ==> (#[trigger] new[j]).path != new[i].path
                &&& t == release.tag((#[trigger] new[i]).name, new[i].version.text())
                &&& forall|k: int|
                    {
                        &&& 0 <= k < old.len()
                        &&& (#[trigger] old[k]).path == new[i].path
                        &&& forall|j: int| k < j < old.len() ==> (#[trigger] old[j]).path != new[i].path
                    } ==> comes_before(old[k].version, new[i].version)
            };
        let path = new[i].path;
        lemma_last_is_unique(new, path, i);
        the_last_member_at_a_path_is_found(old, path);
        assert(all[old.len() + i].path == path);
        assert(paths.contains(path));
        if member_at(old, path) is Some {
            let o = member_at(old, path)->0;
            let k = choose|k: int|
                {
                    &&& 0 <= k < old.len()
                    &&& #[trigger] old[k] == o
                    &&& o.path == path
                    &&& forall|j: int| k < j < old.len() ==> (#[trigger] old[j]).path != path
                };
            assert(comes_before(old[k].version, new[i].version));
        }
        assert(tag_at(old, new, release, path) == Some(t));
    }
}

/// The last member at a path is the one that is found there.
proof fn lemma_last_is_unique(members: Seq<PackageView>, path: Seq<char>, i: int)
    requires
        0 <= i < members.len(),
        members[i].path == path,
        forall|j: int| i < j < members.len() ==> (#[trigger] members[j]).path != path,
    ensures
        member_at(members, path) == Some(members[i]),
{
    the_last_member_at_a_path_is_found(members, path);
    match member_at(members, path) {
        Some(m) => {
            let k = choose|k: int|
                {
                    &&& 0 <= k < members.len()
                    &&& #[trigger] members[k] == m
                    &&& m.path == path
                    &&& forall|j: int| k < j < members.len() ==> (#[trigger] members[j]).path != path
                };
            if k < i {
                assert(members[i].path != path);
            }
            if i < k {
                assert(members[k].path != path);
            }
        },
        None => {
            assert(members[i].path != path);
        },
    }
}

/// A member whose version went down is always reported, and only then.
pub proof fn going_back_is_noticed(old: Seq<PackageView>, new: Seq<PackageView>, path: Seq<char>)
    ensures
        went_back(old, new, path) <==> (member_at(old, path) matches Some(o) && member_at(
            new,
            path,
        ) matches Some(n) && comes_before(n.version, o.version) && !comes_before(
            o.version,
            n.version,
        )),
{
}

} // verus!
