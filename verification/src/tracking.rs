//! Which files the user wants to count as changes to a package.
use crate::config::{PackageTracking, TrackingConfig};
use crate::package::{joined_path, Package, PackageView, PathView};
use crate::text;
use vstd::prelude::*;

verus! {

/// What a pattern names, without whitespace and slashes around it; `None` where it names the whole
/// package.
pub open spec fn normalized(pattern: Seq<char>) -> Option<Seq<char>> {
    let bare = text::without_trailing(text::without_leading(text::trimmed(pattern), '/'), '/');
    if bare.len() == 0 || bare == "."@ {
        None
    } else {
        Some(bare)
    }
}

/// The paths that the patterns name in the package at `path`.
pub open spec fn resolved(patterns: Seq<Seq<char>>, path: Seq<char>) -> Seq<Seq<char>>
    decreases patterns.len(),
{
    if patterns.len() == 0 {
        Seq::empty()
    } else {
        let rest = resolved(patterns.drop_last(), path);
        match normalized(patterns.last()) {
            Some(bare) => rest.push(joined_path(path, bare)),
            None => rest,
        }
    }
}

/// The paths with each of these excluded.
pub open spec fn excluding_all(paths: PathView, list: Seq<Seq<char>>) -> PathView
    decreases list.len(),
{
    if list.len() == 0 {
        paths
    } else {
        excluding_all(paths, list.drop_last()).excluding(list.last())
    }
}

/// The paths with each of these put in.
pub open spec fn tracking_all(paths: PathView, list: Seq<Seq<char>>) -> PathView
    decreases list.len(),
{
    if list.len() == 0 {
        paths
    } else {
        tracking_all(paths, list.drop_last()).tracking(list.last())
    }
}

/// The setting for the package with the name, where there is one.
pub open spec fn setting_for(
    packages: Seq<(String, PackageTracking)>,
    name: Seq<char>,
) -> Option<PackageTracking>
    decreases packages.len(),
{
    if packages.len() == 0 {
        None
    } else if packages[0].0@ == name {
        Some(packages[0].1)
    } else {
        setting_for(packages.drop_first(), name)
    }
}

/// The patterns that exclude paths of the package: those for every package, then its own.
pub open spec fn exclude_patterns(tracking: TrackingConfig, name: Seq<char>) -> Seq<Seq<char>> {
    text::texts(tracking.exclude@) + match setting_for(tracking.packages@, name) {
        Some(own) => text::texts(own.exclude@),
        None => Seq::empty(),
    }
}

/// The patterns that put paths of the package back: those for every package, then its own.
pub open spec fn included_patterns(tracking: TrackingConfig, name: Seq<char>) -> Seq<Seq<char>> {
    text::texts(tracking.included@) + match setting_for(tracking.packages@, name) {
        Some(own) => text::texts(own.included@),
        None => Seq::empty(),
    }
}

/// The package with the user's patterns applied to its paths.
pub open spec fn narrowed(package: PackageView, tracking: TrackingConfig) -> PackageView {
    PackageView {
        paths: tracking_all(
            excluding_all(
                package.paths,
                resolved(exclude_patterns(tracking, package.name), package.path),
            ),
            resolved(included_patterns(tracking, package.name), package.path),
        ),
        ..package
    }
}

/// What a pattern names, without whitespace and slashes around it. A pattern that names the whole
/// package would freeze it as an exclude and does nothing as an include, so it is refused.
pub fn normalize(pattern: &str) -> (r: Option<&str>)
    ensures
        match r {
            Some(bare) => normalized(pattern@) == Some(bare@),
            None => normalized(pattern@) is None,
        },
{
    let bare = text::trim_trailing(text::trim_leading(text::trim(pattern), '/'), '/');
    if bare.is_empty() || text::same(bare, ".") {
        None
    } else {
        Some(bare)
    }
}

/// Resolves patterns of two lists against the package: the first list is a baseline that the
/// second adds to.
pub fn resolve(package: &Package, global: &Vec<String>, own: Option<&Vec<String>>) -> (r: Vec<
    String,
>)
    ensures
        text::texts(r@) == resolved(
            text::texts(global@) + match own {
                Some(list) => text::texts(list@),
                None => Seq::empty(),
            },
            package.path@,
        ),
{
    let mut out: Vec<String> = Vec::new();
    let ghost all = text::texts(global@);
    assert(text::texts(out@) =~= resolved(Seq::<Seq<char>>::empty(), package.path@));
    assert(Seq::<Seq<char>>::empty() + all.take(0) =~= Seq::empty());
    push_resolved(package, global, Ghost(Seq::empty()), &mut out);
    assert(Seq::<Seq<char>>::empty() + all =~= all);
    match own {
        Some(list) => push_resolved(package, list, Ghost(all), &mut out),
        None => {
            assert(all + Seq::<Seq<char>>::empty() =~= all);
        },
    }
    out
}

/// Adds what the patterns of the list name in the package.
fn push_resolved(
    package: &Package,
    patterns: &Vec<String>,
    Ghost(earlier): Ghost<Seq<Seq<char>>>,
    out: &mut Vec<String>,
)
    requires
        text::texts(old(out)@) == resolved(earlier, package.path@),
    ensures
        text::texts(final(out)@) == resolved(earlier + text::texts(patterns@), package.path@),
{
    let ghost all = text::texts(patterns@);
    let mut i: usize = 0;
    assert(earlier + all.take(0) =~= earlier);
    while i < patterns.len()
        invariant
            i <= patterns@.len(),
            all == text::texts(patterns@),
            text::texts(out@) == resolved(earlier + all.take(i as int), package.path@),
        decreases patterns@.len() - i,
    {
        let ghost so_far = earlier + all.take(i + 1);
        assert(so_far.drop_last() =~= earlier + all.take(i as int));
        assert(so_far.last() == patterns@[i as int]@);
        let ghost before = text::texts(out@);
        match normalize(patterns[i].as_str()) {
            Some(bare) => {
                let path = package.join(bare);
                let ghost view = path@;
                out.push(path);
                assert(text::texts(out@) =~= before.push(view));
            },
            None => {},
        }
        i += 1;
    }
    assert(all.take(i as int) =~= all);
}

/// Where the setting for the package with the name stands.
fn find_setting(packages: &Vec<(String, PackageTracking)>, name: &str) -> (r: Option<usize>)
    ensures
        match r {
            Some(i) => i < packages@.len() && setting_for(packages@, name@) == Some(
                packages@[i as int].1,
            ),
            None => setting_for(packages@, name@) is None,
        },
{
    let mut i: usize = 0;
    assert(packages@.skip(0) =~= packages@);
    while i < packages.len()
        invariant
            i <= packages@.len(),
            setting_for(packages@, name@) == setting_for(packages@.skip(i as int), name@),
        decreases packages@.len() - i,
    {
        assert(packages@.skip(i as int)[0] == packages@[i as int]);
        if text::same(packages[i].0.as_str(), name) {
            return Some(i);
        }
        assert(packages@.skip(i as int).drop_first() =~= packages@.skip(i + 1));
        i += 1;
    }
    None
}

/// Applies the user's patterns to one package.
fn narrow(package: &mut Package, tracking: &TrackingConfig)
    ensures
        final(package)@ == narrowed(old(package)@, *tracking),
{
    let own = match find_setting(&tracking.packages, package.name.as_str()) {
        Some(i) => Some(&tracking.packages[i].1),
        None => None,
    };
    let (own_exclude, own_included) = match own {
        Some(own) => (Some(&own.exclude), Some(&own.included)),
        None => (None, None),
    };
    let excluded = resolve(package, &tracking.exclude, own_exclude);
    let included = resolve(package, &tracking.included, own_included);
    let ghost start = package@;
    let ghost out = text::texts(excluded@);
    let ghost back = text::texts(included@);
    let mut i: usize = 0;
    while i < excluded.len()
        invariant
            i <= excluded@.len(),
            out == text::texts(excluded@),
            package@ == (PackageView {
                paths: excluding_all(start.paths, out.take(i as int)),
                ..start
            }),
        decreases excluded@.len() - i,
    {
        assert(out.take(i + 1).drop_last() =~= out.take(i as int));
        assert(out.take(i + 1).last() == excluded@[i as int]@);
        package.paths.exclude(excluded[i].as_str());
        i += 1;
    }
    assert(out.take(i as int) =~= out);
    let ghost middle = excluding_all(start.paths, out);
    let mut j: usize = 0;
    while j < included.len()
        invariant
            j <= included@.len(),
            back == text::texts(included@),
            package@ == (PackageView { paths: tracking_all(middle, back.take(j as int)), ..start }),
        decreases included@.len() - j,
    {
        assert(back.take(j + 1).drop_last() =~= back.take(j as int));
        assert(back.take(j + 1).last() == included@[j as int]@);
        package.paths.track(included[j].as_str());
        j += 1;
    }
    assert(back.take(j as int) =~= back);
}

/// Applies the user's patterns on top of what the workspace layout says. Patterns are relative to
/// each package's own directory, so a single `exclude = ["benches"]` narrows every package's own
/// `benches`.
pub fn narrow_to_tracked(packages: &mut Vec<Package>, tracking: &TrackingConfig)
    ensures
        final(packages)@.len() == old(packages)@.len(),
        forall|i: int|
            0 <= i < final(packages)@.len() ==> (#[trigger] final(packages)@[i])@ == narrowed(
                old(packages)@[i]@,
                *tracking,
            ),
{
    let mut i: usize = 0;
    while i < packages.len()
        invariant
            i <= packages@.len() == old(packages)@.len(),
            forall|j: int|
                0 <= j < i ==> (#[trigger] packages@[j])@ == narrowed(
                    old(packages)@[j]@,
                    *tracking,
                ),
            forall|j: int| i <= j < packages@.len() ==> #[trigger] packages@[j] == old(packages)@[j],
        decreases packages@.len() - i,
    {
        narrow(&mut packages[i], tracking);
        i += 1;
    }
}

/// A pattern names what stands between the whitespace and slashes around it, unless that is the
/// whole package.
pub proof fn patterns_lose_what_is_around_them(
    front: Seq<char>,
    opening: Seq<char>,
    bare: Seq<char>,
    closing: Seq<char>,
    behind: Seq<char>,
)
    requires
        forall|i: int| 0 <= i < front.len() ==> text::is_whitespace(#[trigger] front[i]),
        forall|i: int| 0 <= i < behind.len() ==> text::is_whitespace(#[trigger] behind[i]),
        forall|i: int| 0 <= i < opening.len() ==> #[trigger] opening[i] == '/',
        forall|i: int| 0 <= i < closing.len() ==> #[trigger] closing[i] == '/',
        bare.len() > 0,
        bare[0] != '/' && !text::is_whitespace(bare[0]),
        bare.last() != '/' && !text::is_whitespace(bare.last()),
    ensures
        normalized(front + (opening + bare + closing) + behind) == (if bare == "."@ {
            None
        } else {
            Some(bare)
        }),
{
    let inner = opening + bare + closing;
    assert(inner[0] == '/' || inner[0] == bare[0]) by {
        if opening.len() > 0 {
            assert(inner[0] == opening[0]);
        }
    }
    assert(inner.last() == '/' || inner.last() == bare.last()) by {
        if closing.len() > 0 {
            assert(inner.last() == closing[closing.len() - 1]);
        }
    }
    text::lemma_trimmed_around(front, inner, behind);
    let a = text::leading_characters_are_all_taken_off(inner, '/');
    let m = opening.len() as int;
    assert(inner[m] == bare[0]);
    assert(a == m) by {
        if m < a {
            assert(inner[m] == '/');
        }
        if a < m {
            assert(inner[a] == opening[a]);
        }
    }
    let rest = inner.skip(m);
    assert(rest =~= bare + closing);
    let n = text::trailing_characters_are_all_taken_off(rest, '/');
    let k = bare.len() as int;
    assert(rest[k - 1] == bare.last());
    assert(n == k) by {
        if n < k {
            assert(rest[k - 1] == '/');
        }
        if k < n {
            assert(rest[n - 1] == closing[n - 1 - k]);
        }
    }
    assert(rest.take(k) =~= bare);
}

/// Patterns are resolved one by one: each that names something inside the package gives its path
/// there, and the order stays.
pub proof fn patterns_are_resolved_one_by_one(
    a: Seq<Seq<char>>,
    b: Seq<Seq<char>>,
    path: Seq<char>,
)
    ensures
        resolved(a + b, path) == resolved(a, path) + resolved(b, path),
        forall|p: Seq<char>| #[trigger]
            resolved(seq![p], path) == (match normalized(p) {
                Some(bare) => seq![joined_path(path, bare)],
                None => Seq::empty(),
            }),
        resolved(Seq::empty(), path).len() == 0,
    decreases b.len(),
{
    assert forall|p: Seq<char>| #[trigger]
        resolved(seq![p], path) == (match normalized(p) {
            Some(bare) => seq![joined_path(path, bare)],
            None => Seq::empty(),
        }) by {
        assert(seq![p].drop_last() =~= Seq::empty());
        reveal_with_fuel(resolved, 2);
        assert(resolved(seq![p], path) =~= (match normalized(p) {
            Some(bare) => seq![joined_path(path, bare)],
            None => Seq::empty(),
        }));
    }
    if b.len() == 0 {
        assert(a + b =~= a);
    } else {
        patterns_are_resolved_one_by_one(a, b.drop_last(), path);
        assert((a + b).drop_last() =~= a + b.drop_last());
        assert((a + b).last() == b.last());
    }
    assert(resolved(a + b, path) =~= resolved(a, path) + resolved(b, path));
}

/// A path is resolved from the patterns exactly if one of them names it.
proof fn lemma_resolved_members(patterns: Seq<Seq<char>>, path: Seq<char>, at: Seq<char>)
    ensures
        resolved(patterns, path).contains(at) <==> exists|p: Seq<char>|
            patterns.contains(p) && #[trigger] normalized(p) is Some && joined_path(
                path,
                normalized(p)->0,
            ) == at,
    decreases patterns.len(),
{
    broadcast use vstd::seq_lib::group_seq_properties;

    if patterns.len() > 0 {
        let shorter = patterns.drop_last();
        let last = patterns.last();
        lemma_resolved_members(shorter, path, at);
        assert(patterns =~= shorter.push(last));
        assert(forall|p: Seq<char>|
            patterns.contains(p) <==> shorter.contains(p) || p == last);
        let rest = resolved(shorter, path);
        match normalized(last) {
            Some(bare) => {
                assert(rest.push(joined_path(path, bare)).contains(at) <==> rest.contains(at) || at
                    == joined_path(path, bare));
            },
            None => {},
        }
        if resolved(patterns, path).contains(at) {
            if rest.contains(at) {
                let p = choose|p: Seq<char>|
                    shorter.contains(p) && #[trigger] normalized(p) is Some && joined_path(
                        path,
                        normalized(p)->0,
                    ) == at;
                assert(patterns.contains(p) && normalized(p) is Some);
            } else {
                assert(patterns.contains(last) && normalized(last) is Some);
            }
        }
    }
}

/// Carving out a list carves out every path of it, and putting in a list puts in every path of it;
/// the rest stays. Only the empty path, which would mean everything, does nothing.
pub proof fn every_path_of_the_list_counts(paths: PathView, list: Seq<Seq<char>>)
    ensures
        excluding_all(paths, list).owned == paths.owned,
        tracking_all(paths, list).excluded == paths.excluded,
        forall|p: Seq<char>| #[trigger]
            excluding_all(paths, list).excluded.contains(p) <==> paths.excluded.contains(p) || (p.len()
                > 0 && list.contains(p)),
        forall|p: Seq<char>| #[trigger]
            tracking_all(paths, list).owned.contains(p) <==> paths.owned.contains(p) || (p.len() > 0
                && list.contains(p)),
    decreases list.len(),
{
    broadcast use vstd::seq_lib::group_seq_properties;

    if list.len() > 0 {
        let shorter = list.drop_last();
        let last = list.last();
        every_path_of_the_list_counts(paths, shorter);
        assert(list =~= shorter.push(last));
        let out = excluding_all(paths, shorter).excluded;
        let back = tracking_all(paths, shorter).owned;
        assert forall|p: Seq<char>| #[trigger]
            excluding_all(paths, list).excluded.contains(p) <==> paths.excluded.contains(p) || (p.len()
                > 0 && list.contains(p)) by {
            assert(list.contains(p) <==> shorter.contains(p) || p == last);
            assert(out.push(last).contains(p) <==> out.contains(p) || p == last);
            assert(out.contains(p) <==> paths.excluded.contains(p) || (p.len() > 0
                && shorter.contains(p)));
        }
        assert forall|p: Seq<char>| #[trigger]
            tracking_all(paths, list).owned.contains(p) <==> paths.owned.contains(p) || (p.len() > 0
                && list.contains(p)) by {
            assert(list.contains(p) <==> shorter.contains(p) || p == last);
            assert(back.push(last).contains(p) <==> back.contains(p) || p == last);
            assert(back.contains(p) <==> paths.owned.contains(p) || (p.len() > 0
                && shorter.contains(p)));
        }
    }
}

/// A package has a setting of its own exactly if one is listed under its name, wherever in the list
/// it stands; the first such is it.
pub proof fn the_setting_of_the_name_is_found(
    packages: Seq<(String, PackageTracking)>,
    name: Seq<char>,
)
    ensures
        match setting_for(packages, name) {
            Some(own) => exists|i: int|
                {
                    &&& 0 <= i < packages.len()
                    &&& (#[trigger] packages[i]).0@ == name
                    &&& packages[i].1 == own
                    &&& forall|j: int| 0 <= j < i ==> (#[trigger] packages[j]).0@ != name
                },
            None => forall|i: int| 0 <= i < packages.len() ==> (#[trigger] packages[i]).0@ != name,
        },
    decreases packages.len(),
{
    if packages.len() > 0 {
        if packages[0].0@ != name {
            let rest = packages.drop_first();
            the_setting_of_the_name_is_found(rest, name);
            match setting_for(rest, name) {
                Some(own) => {
                    let i = choose|i: int|
                        {
                            &&& 0 <= i < rest.len()
                            &&& (#[trigger] rest[i]).0@ == name
                            &&& rest[i].1 == own
                            &&& forall|j: int| 0 <= j < i ==> (#[trigger] rest[j]).0@ != name
                        };
                    assert(packages[i + 1] == rest[i]);
                    assert forall|j: int| 0 <= j < i + 1 implies (
                    #[trigger] packages[j]).0@ != name by {
                        if j > 0 {
                            assert(packages[j] == rest[j - 1]);
                        }
                    }
                },
                None => {
                    assert forall|i: int| 0 <= i < packages.len() implies (
                    #[trigger] packages[i]).0@ != name by {
                        if i > 0 {
                            assert(packages[i] == rest[i - 1]);
                        }
                    }
                },
            }
        } else {
            assert(packages[0].0@ == name);
        }
    }
}

/// Every pattern for all packages, and every pattern of a package's own setting, applies to the
/// package: what it names is carved out, or put in, and nothing else is. Nothing but the package's
/// paths changes.
pub proof fn every_pattern_applies(package: PackageView, tracking: TrackingConfig, at: Seq<char>)
    ensures
        ({
            let after = narrowed(package, tracking);
            let own = setting_for(tracking.packages@, package.name);
            &&& after == (PackageView { paths: after.paths, ..package })
            &&& after.paths.excluded.contains(at) <==> package.paths.excluded.contains(at) || (
            at.len() > 0 && exists|p: Seq<char>|
                {
                    &&& text::texts(tracking.exclude@).contains(p) || (own matches Some(o)
                        && text::texts(o.exclude@).contains(p))
                    &&& #[trigger] normalized(p) is Some
                    &&& joined_path(package.path, normalized(p)->0) == at
                })
            &&& after.paths.owned.contains(at) <==> package.paths.owned.contains(at) || (at.len() > 0
                && exists|p: Seq<char>|
                {
                    &&& text::texts(tracking.included@).contains(p) || (own matches Some(o)
                        && text::texts(o.included@).contains(p))
                    &&& #[trigger] normalized(p) is Some
                    &&& joined_path(package.path, normalized(p)->0) == at
                })
        }),
{
    broadcast use vstd::seq_lib::group_seq_properties;

    let out = exclude_patterns(tracking, package.name);
    let back = included_patterns(tracking, package.name);
    let own = setting_for(tracking.packages@, package.name);
    lemma_resolved_members(out, package.path, at);
    lemma_resolved_members(back, package.path, at);
    let carved = excluding_all(package.paths, resolved(out, package.path));
    every_path_of_the_list_counts(package.paths, resolved(out, package.path));
    every_path_of_the_list_counts(carved, resolved(back, package.path));
    assert forall|p: Seq<char>| #[trigger]
        out.contains(p) <==> text::texts(tracking.exclude@).contains(p) || (own matches Some(o)
            && text::texts(o.exclude@).contains(p)) by {
        lemma_in_either(text::texts(tracking.exclude@), out, p);
    }
    assert forall|p: Seq<char>| #[trigger]
        back.contains(p) <==> text::texts(tracking.included@).contains(p) || (own matches Some(o)
            && text::texts(o.included@).contains(p)) by {
        lemma_in_either(text::texts(tracking.included@), back, p);
    }
    let after = narrowed(package, tracking);
    assert(after.paths.excluded == carved.excluded);
    if resolved(out, package.path).contains(at) {
        let p = choose|p: Seq<char>|
            out.contains(p) && #[trigger] normalized(p) is Some && joined_path(
                package.path,
                normalized(p)->0,
            ) == at;
        assert(out.contains(p));
    }
    if resolved(back, package.path).contains(at) {
        let p = choose|p: Seq<char>|
            back.contains(p) && #[trigger] normalized(p) is Some && joined_path(
                package.path,
                normalized(p)->0,
            ) == at;
        assert(back.contains(p));
    }
}

/// What is in a list that starts with another is in that one or behind it.
proof fn lemma_in_either(first: Seq<Seq<char>>, all: Seq<Seq<char>>, p: Seq<char>)
    requires
        first.len() <= all.len(),
        all.take(first.len() as int) == first,
    ensures
        all.contains(p) <==> first.contains(p) || all.skip(first.len() as int).contains(p),
{
    let rest = all.skip(first.len() as int);
    if all.contains(p) {
        let i = choose|i: int| 0 <= i < all.len() && all[i] == p;
        if i < first.len() {
            assert(first[i] == p);
        } else {
            assert(rest[i - first.len()] == p);
        }
    }
    if first.contains(p) {
        let i = choose|i: int| 0 <= i < first.len() && first[i] == p;
        assert(all[i] == p);
    }
    if rest.contains(p) {
        let i = choose|i: int| 0 <= i < rest.len() && rest[i] == p;
        assert(all[i + first.len()] == p);
    }
}

} // verus!
