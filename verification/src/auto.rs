//! The bump that each commit calls for.
use crate::bump::{bump_increases_version, Bump};
use crate::commits::{CommitInfo, CommitView};
use crate::config::{BumpsConfig, BumpsView, V0Style};
use crate::fsm::{biggest_bump, NotchFsm};
use crate::order;
use crate::package::{Package, PackageView};
use crate::release::{update_views, UpdateView, UpdatedCrate};
use crate::text;
use crate::version::{comes_before, VersionView};
use vstd::prelude::*;

verus! {

/// What the header of a conventional commit says.
pub struct Header {
    pub ty: Seq<char>,
    pub scope: Option<Seq<char>>,
    pub breaking: bool,
}

/// A commit type: at least one character, all of them ASCII letters or digits.
pub open spec fn is_type(ty: Seq<char>) -> bool {
    ty.len() > 0 && forall|i: int| 0 <= i < ty.len() ==> text::is_alphanumeric(#[trigger] ty[i])
}

/// `type` or `type(scope)`, taken apart; `None` where a bracket opens and does not close at the
/// end.
pub open spec fn type_and_scope(s: Seq<char>) -> Option<(Seq<char>, Option<Seq<char>>)> {
    let rest = text::after(s, '(');
    if text::first_index(s, '(') >= s.len() {
        Some((s, None))
    } else if rest.len() > 0 && rest.last() == ')' {
        Some((text::before(s, '('), Some(rest.drop_last())))
    } else {
        None
    }
}

/// The header `type(scope)!` that stands before the first colon of a summary.
pub open spec fn header(summary: Seq<char>) -> Option<Header> {
    let marked = text::trimmed(text::before(summary, ':'));
    let breaking = marked.len() > 0 && marked.last() == '!';
    let plain = if breaking {
        marked.drop_last()
    } else {
        marked
    };
    if text::first_index(summary, ':') >= summary.len() {
        None
    } else {
        match type_and_scope(plain) {
            Some((ty, scope)) => if is_type(ty) {
                Some(Header { ty, scope, breaking })
            } else {
                None
            },
            None => None,
        }
    }
}

/// Whether the pattern is `type(scope)` for exactly this type and scope.
pub open spec fn matches_scope(pattern: Seq<char>, ty: Seq<char>, scope: Option<Seq<char>>) -> bool {
    scope is Some && type_and_scope(pattern) == Some((ty, scope))
}

/// Whether the pattern is this type, for any scope.
pub open spec fn matches_type(pattern: Seq<char>, ty: Seq<char>) -> bool {
    type_and_scope(pattern) == Some((ty, None::<Seq<char>>))
}

/// Whether some pattern of the list is `type(scope)` for exactly this type and scope.
pub open spec fn lists_scope(
    patterns: Seq<Seq<char>>,
    ty: Seq<char>,
    scope: Option<Seq<char>>,
) -> bool {
    exists|i: int| 0 <= i < patterns.len() && matches_scope(#[trigger] patterns[i], ty, scope)
}

/// Whether some pattern of the list is this type, for any scope.
pub open spec fn lists_type(patterns: Seq<Seq<char>>, ty: Seq<char>) -> bool {
    exists|i: int| 0 <= i < patterns.len() && matches_type(#[trigger] patterns[i], ty)
}

/// The most specific match wins; among equally specific ones the bigger bump wins, and `skip`
/// loses to everything. The outer `None` means that nothing matches, the inner one `skip`.
pub open spec fn match_in(ty: Seq<char>, scope: Option<Seq<char>>, config: BumpsView) -> Option<
    Option<Bump>,
> {
    if lists_scope(config.major, ty, scope) {
        Some(Some(Bump::Major))
    } else if lists_scope(config.minor, ty, scope) {
        Some(Some(Bump::Minor))
    } else if lists_scope(config.patch, ty, scope) {
        Some(Some(Bump::Patch))
    } else if lists_scope(config.skip, ty, scope) {
        Some(None)
    } else if lists_type(config.major, ty) {
        Some(Some(Bump::Major))
    } else if lists_type(config.minor, ty) {
        Some(Some(Bump::Minor))
    } else if lists_type(config.patch, ty) {
        Some(Some(Bump::Patch))
    } else if lists_type(config.skip, ty) {
        Some(None)
    } else {
        None
    }
}

/// The bump that a commit calls for: major where it breaks something, else what its type and
/// scope are listed under, else patch. `None` where it is listed under `skip`.
pub open spec fn commit_bump(commit: CommitView, config: BumpsView) -> Option<Bump> {
    match header(commit.summary) {
        Some(h) => if commit.breaking || h.breaking {
            Some(Bump::Major)
        } else {
            match match_in(h.ty, h.scope, config) {
                Some(bump) => bump,
                None => Some(Bump::Patch),
            }
        },
        None => if commit.breaking {
            Some(Bump::Major)
        } else {
            Some(Bump::Patch)
        },
    }
}

/// What the optional text holds.
pub open spec fn optional_text(s: Option<&str>) -> Option<Seq<char>> {
    match s {
        Some(t) => Some(t@),
        None => None,
    }
}

/// Takes `type` or `type(scope)` apart.
fn split_scope<'a>(s: &'a str) -> (r: Option<(&'a str, Option<&'a str>)>)
    ensures
        match r {
            Some((ty, scope)) => type_and_scope(s@) == Some((ty@, optional_text(scope))),
            None => type_and_scope(s@) is None,
        },
{
    match text::split_once(s, '(') {
        Some((ty, rest)) => match text::strip_last(rest, ')') {
            Some(scope) => Some((ty, Some(scope))),
            None => None,
        },
        None => Some((s, None)),
    }
}

/// Whether the text can be a commit type.
fn all_alphanumeric(s: &str) -> (r: bool)
    ensures
        r == is_type(s@),
{
    let v = text::chars_of(s);
    let mut i: usize = 0;
    while i < v.len()
        invariant
            i <= v@.len(),
            v@ == s@,
            forall|j: int| 0 <= j < i ==> text::is_alphanumeric(#[trigger] s@[j]),
        decreases v@.len() - i,
    {
        if !text::alphanumeric(v[i]) {
            assert(!text::is_alphanumeric(s@[i as int]));
            return false;
        }
        i += 1;
    }
    v.len() > 0
}

/// Parses the conventional-commit header out of a commit summary (`type(scope)!: description`),
/// returning the type, scope, and whether the `!` breaking marker is present. Returns `None` for
/// summaries that are not conventional.
pub fn parse_conventional<'a>(summary: &'a str) -> (r: Option<(&'a str, Option<&'a str>, bool)>)
    ensures
        match r {
            Some((ty, scope, breaking)) => header(summary@) == Some(
                Header { ty: ty@, scope: optional_text(scope), breaking },
            ),
            None => header(summary@) is None,
        },
{
    let marked = match text::split_once(summary, ':') {
        Some((head, _)) => text::trim(head),
        None => return None,
    };
    let (plain, breaking) = match text::strip_last(marked, '!') {
        Some(rest) => (rest, true),
        None => (marked, false),
    };
    match split_scope(plain) {
        Some((ty, scope)) => if all_alphanumeric(ty) {
            Some((ty, scope, breaking))
        } else {
            None
        },
        None => None,
    }
}

/// How well a configured pattern matches a commit's type and scope: `Some(2)` for an exact
/// `type(scope)` match, `Some(1)` for a bare `type` match (any scope), `None` for no match.
pub fn pattern_specificity(pattern: &str, ty: &str, scope: Option<&str>) -> (r: Option<u8>)
    ensures
        r == (if matches_scope(pattern@, ty@, optional_text(scope)) {
            Some(2u8)
        } else if matches_type(pattern@, ty@) {
            Some(1u8)
        } else {
            None
        }),
{
    match split_scope(pattern) {
        Some((pattern_ty, Some(pattern_scope))) => match scope {
            Some(scope) => if text::same(pattern_ty, ty) && text::same(pattern_scope, scope) {
                Some(2)
            } else {
                None
            },
            None => None,
        },
        Some((pattern_ty, None)) => if text::same(pattern_ty, ty) {
            Some(1)
        } else {
            None
        },
        None => None,
    }
}

/// How well the list matches at best: `2` for a scoped match, `1` for a bare one, `0` for none.
fn list_specificity(patterns: &Vec<String>, ty: &str, scope: Option<&str>) -> (r: u8)
    ensures
        r <= 2,
        r == 2 <==> lists_scope(text::texts(patterns@), ty@, optional_text(scope)),
        r == 1 ==> lists_type(text::texts(patterns@), ty@),
        r == 0 ==> !lists_type(text::texts(patterns@), ty@),
{
    let ghost all = text::texts(patterns@);
    let mut best: u8 = 0;
    let mut i: usize = 0;
    while i < patterns.len()
        invariant
            i <= patterns@.len(),
            all == text::texts(patterns@),
            best <= 2,
            best == 2 <==> exists|j: int|
                0 <= j < i && matches_scope(#[trigger] all[j], ty@, optional_text(scope)),
            best == 1 ==> lists_type(all, ty@),
            best == 0 ==> forall|j: int| 0 <= j < i ==> !matches_type(#[trigger] all[j], ty@),
        decreases patterns@.len() - i,
    {
        assert(all[i as int] == patterns@[i as int]@);
        match pattern_specificity(patterns[i].as_str(), ty, scope) {
            Some(s) => if s > best {
                best = s;
            },
            None => {},
        }
        i += 1;
    }
    best
}

/// Looks the commit's type and scope up across the configured lists.
pub fn best_match(ty: &str, scope: Option<&str>, config: &BumpsConfig) -> (r: Option<Option<Bump>>)
    ensures
        r == match_in(ty@, optional_text(scope), config@),
{
    let major = list_specificity(&config.major, ty, scope);
    let minor = list_specificity(&config.minor, ty, scope);
    let patch = list_specificity(&config.patch, ty, scope);
    let skip = list_specificity(&config.skip, ty, scope);
    if major == 2 {
        Some(Some(Bump::Major))
    } else if minor == 2 {
        Some(Some(Bump::Minor))
    } else if patch == 2 {
        Some(Some(Bump::Patch))
    } else if skip == 2 {
        Some(None)
    } else if major == 1 {
        Some(Some(Bump::Major))
    } else if minor == 1 {
        Some(Some(Bump::Minor))
    } else if patch == 1 {
        Some(Some(Bump::Patch))
    } else if skip == 1 {
        Some(None)
    } else {
        None
    }
}

/// Maps one commit to a bump level, or `None` if it matched the `skip` list. A breaking change
/// (`!` header marker or `BREAKING CHANGE:` footer) always means major, even for a type or scope
/// listed under `skip`. Commits matching nothing, and summaries that are not conventional, fall
/// back to patch: the package changed, so it needs at least that.
pub fn bump_for_commit(commit: &CommitInfo, config: &BumpsConfig) -> (r: Option<Bump>)
    ensures
        r == commit_bump(commit@, config@),
{
    match parse_conventional(commit.summary.as_str()) {
        Some((ty, scope, breaking)) => {
            if commit.breaking || breaking {
                return Some(Bump::Major);
            }
            match best_match(ty, scope, config) {
                Some(bump) => bump,
                None => Some(Bump::Patch),
            }
        },
        None => if commit.breaking {
            Some(Bump::Major)
        } else {
            Some(Bump::Patch)
        },
    }
}

/// The bump for a package at this major version.
pub open spec fn policy(bump: Bump, version_major: u64, style: V0Style) -> Bump {
    if version_major > 0 || style == V0Style::Semver {
        bump
    } else if bump == Bump::Major {
        Bump::Minor
    } else {
        Bump::Patch
    }
}

/// Below 1.0 the cargo style gives a minor bump to a breaking change and a patch bump to anything
/// else, so that the package never leaves 0.x by itself.
pub proof fn cargo_style_never_leaves_zero(bump: Bump, version: VersionView)
    requires
        version.major == 0,
    ensures
        policy(bump, version.major, V0Style::Cargo) == (if bump == Bump::Major {
            Bump::Minor
        } else {
            Bump::Patch
        }),
        policy(bump, version.major, V0Style::Cargo).applied(version).major == 0,
{
}

/// Applies the policy for versions below 1.0: under the cargo style a 0.x package maps breaking
/// changes to a minor bump and everything else to a patch bump, mirroring how cargo treats 0.x
/// versions as `0.MAJOR.MINOR`.
pub fn adjust_for_v0(bump: Bump, version_major: u64, style: V0Style) -> (r: Bump)
    ensures
        r == policy(bump, version_major, style),
{
    if version_major > 0 || style == V0Style::Semver {
        return bump;
    }
    match bump {
        Bump::Major => Bump::Minor,
        Bump::Minor | Bump::Patch => Bump::Patch,
    }
}

/// A changed package, its commits, and the lists that map them to bumps.
#[verifier::ext_equal]
pub struct ChangedView {
    pub package: PackageView,
    pub commits: Seq<CommitView>,
    pub rules: BumpsView,
}

impl ChangedView {
    /// The bump of the package, where its commits call for one.
    pub open spec fn bump(self, style: V0Style) -> Option<Bump> {
        match biggest_bump(self.commits, self.rules) {
            Some(raw) => Some(policy(raw, self.package.version.major, style)),
            None => None,
        }
    }

    /// Whether the package's commits call for a bump, and the update is the one that it leads to.
    pub open spec fn gives(self, style: V0Style, update: UpdateView) -> bool {
        &&& self.bump(style) is Some
        &&& update.package == self.package
        &&& update.commits == self.commits
        &&& update.new_version == self.bump(style)->0.applied(self.package.version)
    }

    /// Whether the bump can be applied to the package's version.
    pub open spec fn fits(self, style: V0Style) -> bool {
        self.bump(style) matches Some(bump) ==> bump.fits(self.package.version)
    }
}

/// What the changed packages are.
pub open spec fn changed_views(changed: Seq<(Package, NotchFsm)>) -> Seq<ChangedView> {
    Seq::new(
        changed.len(),
        |i: int|
            ChangedView {
                package: changed[i].0@,
                commits: changed[i].1.handled(),
                rules: changed[i].1.rules(),
            },
    )
}

/// The updates of the changed packages whose commits call for one, in the order of the packages.
pub open spec fn selected(changed: Seq<ChangedView>, style: V0Style) -> Seq<UpdateView>
    decreases changed.len(),
{
    if changed.len() == 0 {
        Seq::empty()
    } else {
        let last = changed.last();
        let rest = selected(changed.drop_last(), style);
        match last.bump(style) {
            Some(bump) => rest.push(
                UpdateView {
                    package: last.package,
                    new_version: bump.applied(last.package.version),
                    commits: last.commits,
                },
            ),
            None => rest,
        }
    }
}

/// Picks each changed package's version bump from its state's suggestion, without asking. A
/// package without a suggestion, because every commit matched the `skip` list, is dropped from the
/// release entirely. The updates come in the order of the packages' names.
pub fn select(changed: Vec<(Package, NotchFsm)>, config: &BumpsConfig) -> (r: Vec<UpdatedCrate>)
    requires
        forall|i: int|
            0 <= i < changed@.len() ==> (#[trigger] changed_views(changed@)[i]).fits(config.v0),
    ensures
        update_views(r@).to_multiset() == selected(
            changed_views(changed@),
            config.v0,
        ).to_multiset(),
        order::in_order(order::keys(r@)),
{
    let mut updated: Vec<UpdatedCrate> = Vec::new();
    let ghost pairs = changed@;
    let ghost all = changed_views(pairs);
    assert(update_views(updated@) =~= selected(all.take(0), config.v0));
    for pair in it: changed
        invariant
            it.seq() == pairs,
            all == changed_views(pairs),
            forall|i: int| 0 <= i < all.len() ==> (#[trigger] all[i]).fits(config.v0),
            update_views(updated@).to_multiset() == selected(
                all.take(it.index() as int),
                config.v0,
            ).to_multiset(),
            order::in_order(order::keys(updated@)),
    {
        let (package, fsm) = pair;
        let ghost k = it.index() as int;
        assert(all.take(k + 1).drop_last() =~= all.take(k));
        assert(all.take(k + 1).last() == all[k]);
        assert(all[k].fits(config.v0));
        match fsm.dump() {
            Some((raw, commits)) => {
                let bump = adjust_for_v0(raw, package.version.major(), config.v0);
                let new_version = bump.apply_to(&package.version);
                let update = UpdatedCrate { package, new_version, commits };
                let ghost before = update_views(updated@);
                let ghost view = update@;
                let at = order::insert_in_order(&mut updated, update);
                proof {
                    let chosen = selected(all.take(k), config.v0);
                    assert(update_views(updated@) =~= before.insert(at as int, view));
                    vstd::seq_lib::to_multiset_insert(before, at as int, view);
                    assert(selected(all.take(k + 1), config.v0) =~= chosen.push(view));
                    vstd::seq_lib::to_multiset_build(chosen, view);
                }
            },
            None => {},
        }
    }
    assert(all.take(all.len() as int) =~= all);
    updated
}

/// A package comes out of the selection exactly if its commits call for a bump, and then with the
/// version that the bump leads to.
pub proof fn selection_is_exact(changed: Seq<ChangedView>, style: V0Style, update: UpdateView)
    ensures
        selected(changed, style).contains(update) <==> exists|i: int|
            0 <= i < changed.len() && (#[trigger] changed[i]).gives(style, update),
    decreases changed.len(),
{
    if changed.len() > 0 {
        let n = changed.len() - 1;
        let shorter = changed.drop_last();
        let rest = selected(shorter, style);
        let all = selected(changed, style);
        selection_is_exact(shorter, style, update);
        if all.contains(update) {
            let j = choose|j: int| 0 <= j < all.len() && all[j] == update;
            if j < rest.len() {
                assert(rest[j] == update);
                let i = choose|i: int|
                    0 <= i < shorter.len() && (#[trigger] shorter[i]).gives(style, update);
                assert(changed[i].gives(style, update));
            } else {
                assert(changed[n].gives(style, update));
            }
        }
        if exists|i: int| 0 <= i < changed.len() && (#[trigger] changed[i]).gives(style, update) {
            let i = choose|i: int|
                0 <= i < changed.len() && (#[trigger] changed[i]).gives(style, update);
            if i < n {
                assert(shorter[i].gives(style, update));
                let j = choose|j: int| 0 <= j < rest.len() && rest[j] == update;
                assert(all[j] == update);
            } else {
                assert(all[rest.len() as int] =~= update);
            }
        }
    }
}

/// Every update that is selected moves its package's version up.
pub proof fn selected_versions_go_up(changed: Seq<ChangedView>, style: V0Style, update: UpdateView)
    requires
        forall|i: int| 0 <= i < changed.len() ==> (#[trigger] changed[i]).fits(style),
        selected(changed, style).contains(update),
    ensures
        comes_before(update.package.version, update.new_version),
{
    selection_is_exact(changed, style, update);
    let i = choose|i: int| 0 <= i < changed.len() && (#[trigger] changed[i]).gives(style, update);
    assert(changed[i].fits(style));
    bump_increases_version(changed[i].bump(style)->0, update.package.version);
}

/// A breaking change is always major, whatever the lists say.
pub proof fn breaking_is_always_major(commit: CommitView, config: BumpsView)
    requires
        commit.breaking || (header(commit.summary) is Some && header(
            commit.summary,
        )->0.breaking),
    ensures
        commit_bump(commit, config) == Some(Bump::Major),
{
}

/// Once some list names the commit's type and scope together, what the lists say of the bare type
/// no longer matters: two configurations that agree on the former give the same bump.
pub proof fn scoped_patterns_decide_alone(commit: CommitView, h: Header, a: BumpsView, b: BumpsView)
    requires
        header(commit.summary) == Some(h),
        lists_scope(a.major, h.ty, h.scope) == lists_scope(b.major, h.ty, h.scope),
        lists_scope(a.minor, h.ty, h.scope) == lists_scope(b.minor, h.ty, h.scope),
        lists_scope(a.patch, h.ty, h.scope) == lists_scope(b.patch, h.ty, h.scope),
        lists_scope(a.skip, h.ty, h.scope) == lists_scope(b.skip, h.ty, h.scope),
        lists_scope(a.major, h.ty, h.scope) || lists_scope(a.minor, h.ty, h.scope) || lists_scope(
            a.patch,
            h.ty,
            h.scope,
        ) || lists_scope(a.skip, h.ty, h.scope),
    ensures
        commit_bump(commit, a) == commit_bump(commit, b),
{
}

/// A commit that does not break anything and that no list names calls for a patch bump.
pub proof fn unlisted_commits_fall_back_to_patch(commit: CommitView, config: BumpsView)
    requires
        !commit.breaking,
        header(commit.summary) is Some ==> {
            let h = header(commit.summary)->0;
            !h.breaking && match_in(h.ty, h.scope, config) is None
        },
    ensures
        commit_bump(commit, config) == Some(Bump::Patch),
{
}

/// A commit contributes no bump only where it is not breaking and `skip` lists it.
pub proof fn only_listed_commits_are_skipped(commit: CommitView, config: BumpsView)
    requires
        commit_bump(commit, config) is None,
    ensures
        !commit.breaking,
        header(commit.summary) matches Some(h) && !h.breaking && (lists_scope(
            config.skip,
            h.ty,
            h.scope,
        ) || lists_type(config.skip, h.ty)),
{
}

/// On equal specificity the bigger bump wins, and `skip` loses to everything: a bare type that is
/// listed twice gets the bigger of its bumps.
pub proof fn bigger_bump_wins_among_bare_types(commit: CommitView, h: Header, config: BumpsView)
    requires
        header(commit.summary) == Some(h),
        !commit.breaking,
        !h.breaking,
        !lists_scope(config.major, h.ty, h.scope),
        !lists_scope(config.minor, h.ty, h.scope),
        !lists_scope(config.patch, h.ty, h.scope),
        !lists_scope(config.skip, h.ty, h.scope),
    ensures
        lists_type(config.major, h.ty) ==> commit_bump(commit, config) == Some(Bump::Major),
        !lists_type(config.major, h.ty) && lists_type(config.minor, h.ty) ==> commit_bump(
            commit,
            config,
        ) == Some(Bump::Minor),
        !lists_type(config.major, h.ty) && !lists_type(config.minor, h.ty) && lists_type(
            config.patch,
            h.ty,
        ) ==> commit_bump(commit, config) == Some(Bump::Patch),
{
}

/// A conventional header is read as it is written: for any type of letters and digits, any scope
/// without a colon, and any description, with or without the mark of a breaking change, and
/// whatever whitespace stands around the header.
pub proof fn headers_read_back(
    front: Seq<char>,
    ty: Seq<char>,
    scope: Option<Seq<char>>,
    breaking: bool,
    behind: Seq<char>,
    description: Seq<char>,
)
    requires
        ty.len() > 0,
        forall|i: int| 0 <= i < ty.len() ==> text::is_alphanumeric(#[trigger] ty[i]),
        scope matches Some(s) ==> !s.contains(':'),
        forall|i: int| 0 <= i < front.len() ==> text::is_whitespace(#[trigger] front[i]),
        forall|i: int| 0 <= i < behind.len() ==> text::is_whitespace(#[trigger] behind[i]),
    ensures
        header(
            front + (ty + (match scope {
                Some(s) => "("@ + s + ")"@,
                None => ""@,
            }) + (if breaking {
                "!"@
            } else {
                ""@
            })) + behind + ":"@ + description,
        ) == Some(Header { ty, scope, breaking }),
{
    reveal_strlit("(");
    reveal_strlit(")");
    reveal_strlit("!");
    reveal_strlit("");
    reveal_strlit(":");
    let bracketed = match scope {
        Some(s) => "("@ + s + ")"@,
        None => ""@,
    };
    let mark = if breaking {
        "!"@
    } else {
        ""@
    };
    let plain = ty + bracketed;
    let head = plain + mark;
    let around = front + head + behind;
    let summary = around + ":"@ + description;
    assert(head =~= ty + bracketed + mark);
    text::letters_and_digits_by_code(ty[0]);
    text::letters_and_digits_by_code(ty[ty.len() - 1]);
    assert(head[0] == ty[0]);
    assert(!text::is_whitespace(head.last())) by {
        if breaking {
            assert(head.last() == '!');
        } else {
            assert(head =~= plain);
            match scope {
                Some(s) => {
                    assert(head.last() == ')');
                },
                None => {
                    assert(plain =~= ty);
                },
            }
        }
    }
    assert(text::lacks(around, ':')) by {
        assert forall|i: int| 0 <= i < around.len() implies around[i] != ':' by {
            let (m, n, o) = (front.len() as int, (front.len() + ty.len()) as int, (front.len()
                + plain.len()) as int);
            if i < m {
                assert(around[i] == front[i]);
            } else if i < n {
                assert(around[i] == ty[i - m]);
            } else if i < o {
                assert(around[i] == bracketed[i - n]);
                match scope {
                    Some(s) => {
                        if 0 < i - n < bracketed.len() - 1 {
                            assert(bracketed[i - n] == s[i - n - 1]);
                            assert(s.contains(s[i - n - 1]));
                        }
                    },
                    None => {},
                }
            } else if i < front.len() + head.len() {
                assert(around[i] == mark[i - o]);
            } else {
                assert(around[i] == behind[i - front.len() - head.len()]);
            }
        }
    }
    assert(summary =~= around + seq![':'] + description);
    text::the_first_separator_splits(around, ':', description);
    text::lemma_trimmed_around(front, head, behind);
    if breaking {
        assert(head.drop_last() =~= plain);
    } else {
        assert(head =~= plain);
        match scope {
            Some(s) => {
                assert(head.last() == ')');
            },
            None => {
                assert(head =~= ty);
            },
        }
    }
    lemma_pattern_reads_back(ty, scope);
    assert(is_type(ty));
}

/// A pattern, or a header without its mark, is taken apart as it is put together.
proof fn lemma_pattern_reads_back(ty: Seq<char>, scope: Option<Seq<char>>)
    requires
        text::lacks(ty, '('),
    ensures
        type_and_scope(ty + match scope {
            Some(s) => "("@ + s + ")"@,
            None => ""@,
        }) == Some((ty, scope)),
{
    reveal_strlit("(");
    reveal_strlit(")");
    reveal_strlit("");
    match scope {
        Some(s) => {
            let rest = s + seq![')'];
            assert(ty + ("("@ + s + ")"@) =~= ty + seq!['('] + rest);
            text::the_first_separator_splits(ty, '(', rest);
            assert(rest.drop_last() =~= s);
        },
        None => {
            assert(ty + ""@ =~= ty);
            text::lemma_first_index_unique(ty, '(', ty.len() as int);
        },
    }
}

/// Only what is written as a conventional header is taken for one: a type of letters and digits,
/// perhaps a scope in brackets, perhaps the mark, and a colon.
pub proof fn only_conventional_headers_are_read(summary: Seq<char>)
    requires
        header(summary) is Some,
    ensures
        ({
            let h = header(summary)->0;
            &&& h.ty.len() > 0
            &&& forall|i: int| 0 <= i < h.ty.len() ==> text::is_alphanumeric(#[trigger] h.ty[i])
            &&& exists|head: Seq<char>, description: Seq<char>|
                {
                    &&& summary == #[trigger] (head + ":"@ + description)
                    &&& !head.contains(':')
                    &&& text::trimmed(head) == h.ty + (match h.scope {
                        Some(s) => "("@ + s + ")"@,
                        None => ""@,
                    }) + (if h.breaking {
                        "!"@
                    } else {
                        ""@
                    })
                }
        }),
{
    reveal_strlit("(");
    reveal_strlit(")");
    reveal_strlit("!");
    reveal_strlit("");
    reveal_strlit(":");
    let h = header(summary)->0;
    let head = text::before(summary, ':');
    let description = text::after(summary, ':');
    text::lemma_first_index(summary, ':');
    assert(summary =~= head + ":"@ + description);
    assert(!head.contains(':'));
    let marked = text::trimmed(head);
    let plain = if h.breaking {
        marked.drop_last()
    } else {
        marked
    };
    text::lemma_first_index(plain, '(');
    let bracketed = match h.scope {
        Some(s) => "("@ + s + ")"@,
        None => ""@,
    };
    assert(plain =~= h.ty + bracketed) by {
        match h.scope {
            Some(s) => {
                let rest = text::after(plain, '(');
                assert(rest =~= s + seq![')']);
                assert(plain =~= h.ty + seq!['('] + rest);
            },
            None => {},
        }
    }
    assert(marked =~= h.ty + bracketed + (if h.breaking {
        "!"@
    } else {
        ""@
    }));
}

/// A list names a type and a scope together if `type(scope)` is one of its patterns, and a bare
/// type if the type is: whichever of the patterns it is.
pub proof fn patterns_are_compared_as_written(
    patterns: Seq<Seq<char>>,
    ty: Seq<char>,
    scope: Seq<char>,
)
    requires
        !ty.contains('('),
    ensures
        lists_scope(patterns, ty, Some(scope)) <==> patterns.contains(ty + "("@ + scope + ")"@),
        lists_type(patterns, ty) <==> patterns.contains(ty),
        !lists_scope(patterns, ty, None),
{
    reveal_strlit("(");
    reveal_strlit(")");
    reveal_strlit("");
    assert(text::lacks(ty, '(')) by {
        assert forall|i: int| 0 <= i < ty.len() implies ty[i] != '(' by {
            assert(ty.contains(ty[i]));
        }
    }
    let full = ty + "("@ + scope + ")"@;
    assert(full =~= ty + ("("@ + scope + ")"@));
    assert(ty + ""@ =~= ty);
    lemma_pattern_reads_back(ty, Some(scope));
    lemma_pattern_reads_back(ty, None);
    assert forall|i: int| 0 <= i < patterns.len() implies (matches_scope(
        #[trigger] patterns[i],
        ty,
        Some(scope),
    ) <==> patterns[i] == full) && (matches_type(patterns[i], ty) <==> patterns[i] == ty) by {
        let p = patterns[i];
        text::lemma_first_index(p, '(');
        if matches_scope(p, ty, Some(scope)) {
            let rest = text::after(p, '(');
            assert(rest =~= scope + seq![')']);
            assert(p =~= ty + seq!['('] + rest);
            assert(p =~= full);
        }
    }
    if lists_scope(patterns, ty, Some(scope)) {
        let i = choose|i: int|
            0 <= i < patterns.len() && matches_scope(#[trigger] patterns[i], ty, Some(scope));
        assert(patterns[i] == full);
    }
    if patterns.contains(full) {
        let i = choose|i: int| 0 <= i < patterns.len() && patterns[i] == full;
        assert(matches_scope(patterns[i], ty, Some(scope)));
    }
    if lists_type(patterns, ty) {
        let i = choose|i: int| 0 <= i < patterns.len() && matches_type(#[trigger] patterns[i], ty);
        assert(patterns[i] == ty);
    }
    if patterns.contains(ty) {
        let i = choose|i: int| 0 <= i < patterns.len() && patterns[i] == ty;
        assert(matches_type(patterns[i], ty));
    }
}

/// A commit that breaks nothing gets the bump of the list that holds its pattern. One list is
/// enough, wherever in it the pattern stands: `type(scope)` counts before the bare type, the bigger
/// bump before the smaller, and `skip` only where no other list says anything as specific.
pub proof fn the_lists_decide(commit: CommitView, h: Header, config: BumpsView)
    requires
        header(commit.summary) == Some(h),
        !commit.breaking,
        !h.breaking,
    ensures
        ({
            let bump = commit_bump(commit, config);
            let bare = h.ty;
            let unscoped = h.scope matches Some(s) ==> {
                let full = bare + "("@ + s + ")"@;
                !config.major.contains(full) && !config.minor.contains(full)
                    && !config.patch.contains(full) && !config.skip.contains(full)
            };
            &&& h.scope matches Some(s) ==> {
                let full = bare + "("@ + s + ")"@;
                &&& config.major.contains(full) ==> bump == Some(Bump::Major)
                &&& !config.major.contains(full) && config.minor.contains(full) ==> bump == Some(
                    Bump::Minor,
                )
                &&& !config.major.contains(full) && !config.minor.contains(full)
                    && config.patch.contains(full) ==> bump == Some(Bump::Patch)
                &&& !config.major.contains(full) && !config.minor.contains(full)
                    && !config.patch.contains(full) && config.skip.contains(full) ==> bump is None
            }
            &&& unscoped && config.major.contains(bare) ==> bump == Some(Bump::Major)
            &&& unscoped && !config.major.contains(bare) && config.minor.contains(bare) ==> bump
                == Some(Bump::Minor)
            &&& unscoped && !config.major.contains(bare) && !config.minor.contains(bare)
                && config.patch.contains(bare) ==> bump == Some(Bump::Patch)
            &&& unscoped && !config.major.contains(bare) && !config.minor.contains(bare)
                && !config.patch.contains(bare) && config.skip.contains(bare) ==> bump is None
            &&& unscoped && !config.major.contains(bare) && !config.minor.contains(bare)
                && !config.patch.contains(bare) && !config.skip.contains(bare) ==> bump == Some(
                Bump::Patch,
            )
        }),
{
    only_conventional_headers_are_read(commit.summary);
    assert(!h.ty.contains('(')) by {
        if h.ty.contains('(') {
            let i = choose|i: int| 0 <= i < h.ty.len() && h.ty[i] == '(';
            assert(text::is_alphanumeric(h.ty[i]));
        }
    }
    let s = match h.scope {
        Some(s) => s,
        None => Seq::empty(),
    };
    patterns_are_compared_as_written(config.major, h.ty, s);
    patterns_are_compared_as_written(config.minor, h.ty, s);
    patterns_are_compared_as_written(config.patch, h.ty, s);
    patterns_are_compared_as_written(config.skip, h.ty, s);
}

/// A commit that breaks something calls for a major bump, and one without a conventional header
/// that breaks nothing for a patch bump, whatever is configured.
pub proof fn other_commits_need_no_list(commit: CommitView, config: BumpsView)
    ensures
        commit.breaking ==> commit_bump(commit, config) == Some(Bump::Major),
        header(commit.summary) matches Some(h) && h.breaking ==> commit_bump(commit, config) == Some(
            Bump::Major,
        ),
        !commit.breaking && header(commit.summary) is None ==> commit_bump(commit, config) == Some(
            Bump::Patch,
        ),
{
}

/// From 1.0 on, and under the semver style everywhere, the bump that the commits call for is the
/// one that is made.
pub proof fn bumps_are_kept_outside_of_zero(bump: Bump, version_major: u64, style: V0Style)
    requires
        version_major > 0 || style == V0Style::Semver,
    ensures
        policy(bump, version_major, style) == bump,
{
}

/// Packages are selected one by one: each whose commits call for a bump gives one update, with its
/// own commits and the version that the bump leads to, and the order stays.
pub proof fn packages_are_selected_one_by_one(
    a: Seq<ChangedView>,
    b: Seq<ChangedView>,
    style: V0Style,
)
    ensures
        selected(a + b, style) == selected(a, style) + selected(b, style),
        forall|c: ChangedView| #[trigger]
            selected(seq![c], style) == (match biggest_bump(c.commits, c.rules) {
                Some(raw) => seq![
                    UpdateView {
                        package: c.package,
                        new_version: policy(raw, c.package.version.major, style).applied(
                            c.package.version,
                        ),
                        commits: c.commits,
                    },
                ],
                None => Seq::empty(),
            }),
        selected(Seq::empty(), style) == Seq::<UpdateView>::empty(),
    decreases b.len(),
{
    assert forall|c: ChangedView| #[trigger]
        selected(seq![c], style) == (match biggest_bump(c.commits, c.rules) {
            Some(raw) => seq![
                UpdateView {
                    package: c.package,
                    new_version: policy(raw, c.package.version.major, style).applied(
                        c.package.version,
                    ),
                    commits: c.commits,
                },
            ],
            None => Seq::empty(),
        }) by {
        assert(seq![c].drop_last() =~= Seq::empty());
        assert(selected(seq![c].drop_last(), style) =~= Seq::empty());
        reveal_with_fuel(selected, 2);
        assert(selected(seq![c], style) =~= (match biggest_bump(c.commits, c.rules) {
            Some(raw) => seq![
                UpdateView {
                    package: c.package,
                    new_version: policy(raw, c.package.version.major, style).applied(
                        c.package.version,
                    ),
                    commits: c.commits,
                },
            ],
            None => Seq::empty(),
        }));
    }
    if b.len() == 0 {
        assert(a + b =~= a);
        assert(selected(a + b, style) =~= selected(a, style) + selected(b, style));
    } else {
        packages_are_selected_one_by_one(a, b.drop_last(), style);
        assert((a + b).drop_last() =~= a + b.drop_last());
        assert((a + b).last() == b.last());
        assert(selected(a + b, style) =~= selected(a, style) + selected(b, style));
    }
}

} // verus!
