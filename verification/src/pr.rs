//! The pull request for a release: its title, its body, and whether it is opened or updated.
use crate::auto::{bump_for_commit, commit_bump};
use crate::commits::{can_shorten, short, CommitInfo, CommitView};
use crate::config::{BumpsConfig, BumpsView, ReleaseConfig};
use crate::error::{NotchError, Result};
use crate::fsm::weight;
use crate::release::{update_views, UpdateView, UpdatedCrate};
use crate::text;
use crate::version::{Version, VersionView};
use vstd::prelude::*;

verus! {

/// What a bump is announced with.
pub open spec fn bump_text(name: Seq<char>, old: VersionView, new: VersionView) -> Seq<char> {
    "chore: bumping "@ + name + " from "@ + old.text() + " to "@ + new.text()
}

/// The line that announces an update.
pub open spec fn bump_line(update: UpdateView) -> Seq<char> {
    bump_text(update.package.name, update.package.version, update.new_version)
}

/// The line for a commit.
pub open spec fn commit_line(commit: CommitView) -> Seq<char> {
    "- "@ + short(commit.sha1) + " "@ + commit.summary
}

/// The lines for the commits.
pub open spec fn commit_lines(commits: Seq<CommitView>) -> Seq<Seq<char>> {
    Seq::new(commits.len(), |i: int| commit_line(commits[i]))
}

/// The section for an update: its line and the lines for its commits.
pub open spec fn section(update: UpdateView) -> Seq<char> {
    bump_line(update) + "\n"@ + text::joined(commit_lines(update.commits), "\n"@) + "\n"@
}

/// The sections for the updates.
pub open spec fn sections(updates: Seq<UpdateView>) -> Seq<Seq<char>> {
    Seq::new(updates.len(), |i: int| section(updates[i]))
}

/// The commits of all updates, one update after the other.
pub open spec fn all_commits(updates: Seq<UpdateView>) -> Seq<CommitView>
    decreases updates.len(),
{
    if updates.len() == 0 {
        Seq::empty()
    } else {
        all_commits(updates.drop_last()) + updates.last().commits
    }
}

/// How much a commit weighs: as much as the bump that it asks for.
#[verifier::opaque]
pub open spec fn heft(commit: CommitView, config: BumpsView) -> nat {
    weight(commit_bump(commit, config))
}

/// The first of the commits that no other outweighs.
pub open spec fn heaviest(commits: Seq<CommitView>, config: BumpsView) -> Option<CommitView>
    decreases commits.len(),
{
    if commits.len() == 0 {
        None
    } else {
        match heaviest(commits.drop_last(), config) {
            Some(best) => if heft(best, config) < heft(commits.last(), config) {
                Some(commits.last())
            } else {
                Some(best)
            },
            None => Some(commits.last()),
        }
    }
}

/// Whether all updates are of packages with one name.
pub open spec fn same_name(updates: Seq<UpdateView>) -> bool {
    forall|i: int|
        0 <= i < updates.len() ==> (#[trigger] updates[i]).package.name == updates[0].package.name
}

/// The title: the summary of the heaviest commit, so that a squash merge keeps what the release is
/// about. Without commits, the bump of the one package, or a general line.
pub open spec fn title(updates: Seq<UpdateView>, config: BumpsView) -> Seq<char> {
    match heaviest(all_commits(updates), config) {
        Some(commit) => commit.summary,
        None => if updates.len() == 1 {
            bump_line(updates[0])
        } else if same_name(updates) {
            bump_text(
                updates[0].package.name,
                updates[0].package.version,
                updates.last().new_version,
            )
        } else {
            "chore: bumping package versions"@
        },
    }
}

/// The line that announces a bump.
fn announce(name: &str, old: &Version, new: &Version) -> (r: String)
    ensures
        r@ == bump_text(name@, old@, new@),
{
    let mut s = "chore: bumping ".to_owned();
    s.append(name);
    s.append(" from ");
    s.append(old.to_string().as_str());
    s.append(" to ");
    s.append(new.to_string().as_str());
    s
}

/// The lines for the commits, joined.
fn list_commits(commits: &Vec<CommitInfo>) -> (r: String)
    requires
        forall|i: int| 0 <= i < commits@.len() ==> can_shorten((#[trigger] commits@[i]).sha1@),
    ensures
        r@ == text::joined(
            commit_lines(crate::commits::commit_views(commits@)),
            "\n"@,
        ),
{
    let ghost all = commit_lines(crate::commits::commit_views(commits@));
    let mut lines: Vec<String> = Vec::new();
    let mut i: usize = 0;
    while i < commits.len()
        invariant
            i <= commits@.len(),
            all == commit_lines(crate::commits::commit_views(commits@)),
            forall|j: int| 0 <= j < commits@.len() ==> can_shorten((#[trigger] commits@[j]).sha1@),
            text::texts(lines@) == all.take(i as int),
        decreases commits@.len() - i,
    {
        assert(can_shorten(commits@[i as int].sha1@));
        let mut s = "- ".to_owned();
        s.append(commits[i].short_id());
        s.append(" ");
        s.append(commits[i].summary.as_str());
        let ghost before = text::texts(lines@);
        assert(s@ == all[i as int]);
        lines.push(s);
        assert(text::texts(lines@) =~= before.push(all[i as int]));
        assert(all.take(i + 1) =~= all.take(i as int).push(all[i as int]));
        i += 1;
    }
    assert(all.take(i as int) =~= all);
    text::join(&lines, "\n")
}

/// Whether every commit of the updates has an id that can be shortened.
pub open spec fn ids_can_shorten(updates: Seq<UpdatedCrate>) -> bool {
    forall|i: int, j: int|
        0 <= i < updates.len() && 0 <= j < updates[i].commits@.len() ==> can_shorten(
            (#[trigger] updates[i].commits@[j]).sha1@,
        )
}

/// The commit across every update whose own bump is biggest, the first one where there are
/// several. `None` when there are no commits at all.
pub fn highest_severity_commit<'a>(updated: &'a [UpdatedCrate], bumps: &BumpsConfig) -> (r: Option<
    &'a CommitInfo,
>)
    ensures
        match r {
            Some(commit) => heaviest(all_commits(update_views(updated@)), bumps@) == Some(commit@),
            None => heaviest(all_commits(update_views(updated@)), bumps@) is None,
        },
{
    let ghost views = update_views(updated@);
    let mut best: Option<&'a CommitInfo> = None;
    let mut i: usize = 0;
    assert(views.take(0) =~= Seq::empty());
    while i < updated.len()
        invariant
            i <= updated@.len(),
            views == update_views(updated@),
            match best {
                Some(commit) => heaviest(all_commits(views.take(i as int)), bumps@) == Some(
                    commit@,
                ),
                None => heaviest(all_commits(views.take(i as int)), bumps@) is None,
            },
        decreases updated@.len() - i,
    {
        let ghost earlier = all_commits(views.take(i as int));
        let ghost own = views[i as int].commits;
        assert(views.take(i + 1).drop_last() =~= views.take(i as int));
        assert(views.take(i + 1).last() == views[i as int]);
        let mut j: usize = 0;
        assert(earlier + own.take(0) =~= earlier);
        while j < updated[i].commits.len()
            invariant
                i < updated@.len(),
                views == update_views(updated@),
                own == views[i as int].commits,
                j <= own.len() == updated@[i as int].commits@.len(),
                match best {
                    Some(commit) => heaviest(earlier + own.take(j as int), bumps@) == Some(
                        commit@,
                    ),
                    None => heaviest(earlier + own.take(j as int), bumps@) is None,
                },
            decreases own.len() - j,
        {
            let ghost longer = earlier + own.take(j + 1);
            assert(longer.drop_last() =~= earlier + own.take(j as int));
            assert(longer.last() == updated@[i as int].commits@[j as int]@);
            let commit = &updated[i].commits[j];
            let better = match best {
                Some(b) => outweighs(commit, b, bumps),
                None => true,
            };
            if better {
                best = Some(commit);
            }
            j += 1;
        }
        assert(own.take(j as int) =~= own);
        i += 1;
    }
    assert(views.take(i as int) =~= views);
    best
}

/// Whether one commit calls for a bigger bump than another.
fn outweighs(a: &CommitInfo, b: &CommitInfo, bumps: &BumpsConfig) -> (r: bool)
    ensures
        r == (heft(b@, bumps@) < heft(a@, bumps@)),
{
    proof {
        reveal(heft);
    }
    match (bump_for_commit(a, bumps), bump_for_commit(b, bumps)) {
        (Some(x), Some(y)) => y.rank() < x.rank(),
        (Some(_), None) => true,
        (None, _) => false,
    }
}

/// Whether all updates are of packages with one name.
fn have_same_name(updated: &[UpdatedCrate]) -> (r: bool)
    requires
        updated@.len() > 0,
    ensures
        r == same_name(update_views(updated@)),
{
    let ghost views = update_views(updated@);
    let mut i: usize = 0;
    while i < updated.len()
        invariant
            i <= updated@.len(),
            updated@.len() > 0,
            views == update_views(updated@),
            forall|j: int|
                0 <= j < i ==> (#[trigger] views[j]).package.name == views[0].package.name,
        decreases updated@.len() - i,
    {
        assert(views[i as int] == updated@[i as int]@);
        if !text::same(updated[i].package.name.as_str(), updated[0].package.name.as_str()) {
            assert(views[i as int].package.name != views[0].package.name);
            return false;
        }
        i += 1;
    }
    true
}

/// The title and the body of the pull request for the updates.
pub fn get_pr_title_and_description(updated: &[UpdatedCrate], bumps: &BumpsConfig) -> (r: Result<
    (String, String),
>)
    requires
        ids_can_shorten(updated@),
    ensures
        if updated@.len() == 0 {
            r == Err::<(String, String), NotchError>(NotchError::NothingUpdated)
        } else {
            &&& r is Ok
            &&& r->Ok_0.0@ == title(update_views(updated@), bumps@)
            &&& r->Ok_0.1@ == text::joined(sections(update_views(updated@)), "\n"@)
        },
{
    let ghost views = update_views(updated@);
    if updated.len() == 0 {
        return Err(NotchError::NothingUpdated);
    }
    let heading = match highest_severity_commit(updated, bumps) {
        Some(commit) => commit.summary.clone(),
        None => {
            let first = &updated[0];
            let last = &updated[updated.len() - 1];
            assert(views[0] == first@);
            assert(views.last() == last@);
            if updated.len() == 1 {
                announce(first.package.name.as_str(), &first.package.version, &first.new_version)
            } else if have_same_name(updated) {
                announce(first.package.name.as_str(), &first.package.version, &last.new_version)
            } else {
                "chore: bumping package versions".to_owned()
            }
        },
    };
    let mut parts: Vec<String> = Vec::new();
    let ghost all = sections(views);
    let mut i: usize = 0;
    while i < updated.len()
        invariant
            i <= updated@.len(),
            views == update_views(updated@),
            all == sections(views),
            ids_can_shorten(updated@),
            text::texts(parts@) == all.take(i as int),
        decreases updated@.len() - i,
    {
        let c = &updated[i];
        assert(views[i as int] == c@);
        assert forall|j: int| 0 <= j < c.commits@.len() implies can_shorten(
            (#[trigger] c.commits@[j]).sha1@,
        ) by {
            assert(can_shorten(updated@[i as int].commits@[j].sha1@));
        }
        let mut s = announce(c.package.name.as_str(), &c.package.version, &c.new_version);
        s.append("\n");
        s.append(list_commits(&c.commits).as_str());
        s.append("\n");
        let ghost before = text::texts(parts@);
        assert(s@ == all[i as int]);
        parts.push(s);
        assert(text::texts(parts@) =~= before.push(all[i as int]));
        assert(all.take(i + 1) =~= all.take(i as int).push(all[i as int]));
        i += 1;
    }
    assert(all.take(i as int) =~= all);
    Ok((heading, text::join(&parts, "\n")))
}

/// What to ask the host for.
#[derive(Debug, PartialEq, Eq)]
pub enum PrAction {
    /// Refresh the title and the body of the open pull request with this number.
    Update { number: u64 },
    /// Open a pull request from the branch into the base.
    Create { branch: String, base: String },
}

/// A rerun on a branch that already has an open pull request refreshes it: a second one for the
/// same branch would be rejected.
pub fn pr_action(existing: Option<u64>, branch: &str, release: &ReleaseConfig) -> (r: PrAction)
    ensures
        match existing {
            Some(number) => r == (PrAction::Update { number }),
            None => r matches PrAction::Create { branch: b, base } && b@ == branch@ && base@
                == release@.default_branch,
        },
{
    match existing {
        Some(number) => PrAction::Update { number },
        None => PrAction::Create {
            branch: branch.to_owned(),
            base: release.default_branch.clone(),
        },
    }
}

/// What an open pull request of the branch is found by: `owner:branch`.
pub fn head_filter(owner: &str, branch: &str) -> (r: String)
    ensures
        r@ == owner@ + ":"@ + branch@,
{
    let mut s = owner.to_owned();
    s.append(":");
    s.append(branch);
    s
}

/// Whether no commit outweighs the one at `i`, and every one before it weighs less.
pub open spec fn is_first_heaviest(commits: Seq<CommitView>, config: BumpsView, i: int) -> bool {
    &&& 0 <= i < commits.len()
    &&& forall|j: int|
        0 <= j < commits.len() ==> heft(#[trigger] commits[j], config) <= heft(commits[i], config)
    &&& forall|j: int|
        0 <= j < i ==> heft(#[trigger] commits[j], config) < heft(commits[i], config)
}

/// The commit that the title is taken from is one that no other outweighs, and the first such.
pub proof fn title_commit_is_the_first_heaviest(commits: Seq<CommitView>, config: BumpsView)
    requires
        commits.len() > 0,
    ensures
        exists|i: int| #[trigger]
            is_first_heaviest(commits, config, i) && heaviest(commits, config) == Some(commits[i]),
    decreases commits.len(),
{
    let n = commits.len() - 1;
    let shorter = commits.drop_last();
    if n == 0 {
        assert(heaviest(shorter, config) is None);
        assert(is_first_heaviest(commits, config, 0));
    } else {
        title_commit_is_the_first_heaviest(shorter, config);
        let i = choose|i: int| #[trigger]
            is_first_heaviest(shorter, config, i) && heaviest(shorter, config) == Some(shorter[i]);
        assert forall|j: int| 0 <= j < n implies #[trigger] commits[j] == shorter[j] by {}
        let k = if heft(shorter[i], config) < heft(commits[n], config) {
            n
        } else {
            i
        };
        assert forall|j: int| 0 <= j < commits.len() implies heft(#[trigger] commits[j], config)
            <= heft(commits[k], config) by {
            if j < n {
                assert(commits[j] == shorter[j]);
            }
        }
        assert forall|j: int| 0 <= j < k implies heft(#[trigger] commits[j], config) < heft(
            commits[k],
            config,
        ) by {
            assert(commits[j] == shorter[j]);
        }
        assert(is_first_heaviest(commits, config, k));
    }
}

/// The commits of the updates are those of the first and then those of the others.
pub proof fn commits_are_gathered_update_by_update(a: Seq<UpdateView>, b: Seq<UpdateView>)
    ensures
        all_commits(a + b) == all_commits(a) + all_commits(b),
        forall|u: UpdateView| #[trigger] all_commits(seq![u]) == u.commits,
        all_commits(Seq::empty()) == Seq::<CommitView>::empty(),
    decreases b.len(),
{
    assert forall|u: UpdateView| #[trigger] all_commits(seq![u]) == u.commits by {
        assert(seq![u].drop_last() =~= Seq::empty());
        reveal_with_fuel(all_commits, 2);
        assert(all_commits(seq![u]) =~= u.commits);
    }
    if b.len() == 0 {
        assert(a + b =~= a);
    } else {
        commits_are_gathered_update_by_update(a, b.drop_last());
        assert((a + b).drop_last() =~= a + b.drop_last());
        assert((a + b).last() == b.last());
    }
    assert(all_commits(a + b) =~= all_commits(a) + all_commits(b));
}

/// Where the commits of an update start among those of all.
spec fn offset(updates: Seq<UpdateView>, i: int) -> int {
    all_commits(updates.take(i)).len() as int
}

/// A commit of an update stands among those of all, behind those of the earlier updates.
proof fn lemma_commit_place(updates: Seq<UpdateView>, i: int, j: int)
    requires
        0 <= i < updates.len(),
        0 <= j < updates[i].commits.len(),
    ensures
        0 <= offset(updates, i) + j < all_commits(updates).len(),
        all_commits(updates)[offset(updates, i) + j] == updates[i].commits[j],
        offset(updates, i + 1) == offset(updates, i) + updates[i].commits.len(),
{
    let head = updates.take(i);
    let one = seq![updates[i]];
    let tail = updates.skip(i + 1);
    commits_are_gathered_update_by_update(head, one + tail);
    commits_are_gathered_update_by_update(one, tail);
    commits_are_gathered_update_by_update(head, one);
    assert(updates =~= head + (one + tail));
    assert(updates.take(i + 1) =~= head + one);
    assert(all_commits(one) == updates[i].commits);
}

/// The commits of later updates stand behind those of earlier ones.
proof fn lemma_offsets_ascend(updates: Seq<UpdateView>, i: int, k: int)
    requires
        0 <= i <= k <= updates.len(),
    ensures
        offset(updates, i) <= offset(updates, k),
{
    let head = updates.take(i);
    let more = updates.subrange(i, k);
    commits_are_gathered_update_by_update(head, more);
    assert(updates.take(k) =~= head + more);
}

/// Every commit of all is one of some update.
proof fn lemma_commit_source(updates: Seq<UpdateView>, p: int) -> (r: (int, int))
    requires
        0 <= p < all_commits(updates).len(),
    ensures
        0 <= r.0 < updates.len(),
        0 <= r.1 < updates[r.0].commits.len(),
        offset(updates, r.0) + r.1 == p,
    decreases updates.len(),
{
    let n = updates.len() - 1;
    let shorter = updates.drop_last();
    let rest = all_commits(shorter);
    assert(updates.take(n) =~= shorter);
    if p < rest.len() {
        let (i, j) = lemma_commit_source(shorter, p);
        assert(shorter.take(i) =~= updates.take(i));
        (i, j)
    } else {
        (n, p - rest.len())
    }
}

/// Every commit of every update takes part, and nothing else does.
pub proof fn every_commit_takes_part(updates: Seq<UpdateView>, commit: CommitView)
    ensures
        all_commits(updates).contains(commit) <==> exists|i: int, j: int|
            0 <= i < updates.len() && 0 <= j < updates[i].commits.len()
                && #[trigger] updates[i].commits[j] == commit,
{
    let all = all_commits(updates);
    if all.contains(commit) {
        let p = choose|p: int| 0 <= p < all.len() && all[p] == commit;
        let (i, j) = lemma_commit_source(updates, p);
        lemma_commit_place(updates, i, j);
        assert(updates[i].commits[j] == commit);
    }
    if exists|i: int, j: int|
        0 <= i < updates.len() && 0 <= j < updates[i].commits.len()
            && #[trigger] updates[i].commits[j] == commit {
        let (i, j) = choose|i: int, j: int|
            0 <= i < updates.len() && 0 <= j < updates[i].commits.len()
                && #[trigger] updates[i].commits[j] == commit;
        lemma_commit_place(updates, i, j);
    }
}

/// The title is the summary of a commit of some update. No commit of any update calls for a bigger
/// bump, and every one that stands before it calls for a smaller one.
pub proof fn the_title_is_the_first_biggest_change(updates: Seq<UpdateView>, config: BumpsView)
    requires
        exists|i: int| 0 <= i < updates.len() && (#[trigger] updates[i]).commits.len() > 0,
    ensures
        exists|i: int, j: int|
            {
                &&& 0 <= i < updates.len()
                &&& 0 <= j < updates[i].commits.len()
                &&& title(updates, config) == (#[trigger] updates[i].commits[j]).summary
                &&& forall|k: int, l: int|
                    0 <= k < updates.len() && 0 <= l < updates[k].commits.len() ==> weight(
                        commit_bump(#[trigger] updates[k].commits[l], config),
                    ) <= weight(commit_bump(updates[i].commits[j], config))
                &&& forall|k: int, l: int|
                    0 <= k < updates.len() && 0 <= l < updates[k].commits.len() && (k < i || (k
                        == i && l < j)) ==> weight(
                        commit_bump(#[trigger] updates[k].commits[l], config),
                    ) < weight(commit_bump(updates[i].commits[j], config))
            },
{
    reveal(heft);
    let all = all_commits(updates);
    let some = choose|i: int| 0 <= i < updates.len() && (#[trigger] updates[i]).commits.len() > 0;
    lemma_commit_place(updates, some, 0);
    title_commit_is_the_first_heaviest(all, config);
    let p = choose|p: int| #[trigger]
        is_first_heaviest(all, config, p) && heaviest(all, config) == Some(all[p]);
    let (i, j) = lemma_commit_source(updates, p);
    lemma_commit_place(updates, i, j);
    assert(updates[i].commits[j] == all[p]);
    assert forall|k: int, l: int|
        0 <= k < updates.len() && 0 <= l < updates[k].commits.len() implies weight(
        commit_bump(#[trigger] updates[k].commits[l], config),
    ) <= weight(commit_bump(updates[i].commits[j], config)) by {
        lemma_commit_place(updates, k, l);
        assert(heft(all[offset(updates, k) + l], config) <= heft(all[p], config));
    }
    assert forall|k: int, l: int|
        0 <= k < updates.len() && 0 <= l < updates[k].commits.len() && (k < i || (k == i && l
            < j)) implies weight(commit_bump(#[trigger] updates[k].commits[l], config)) < weight(
        commit_bump(updates[i].commits[j], config),
    ) by {
        lemma_commit_place(updates, k, l);
        if k < i {
            lemma_offsets_ascend(updates, k + 1, i);
        }
        assert(heft(all[offset(updates, k) + l], config) < heft(all[p], config));
    }
}

/// Without commits the title says what is bumped: the one package and its versions, the first and
/// the last version of a package that is bumped several times, or that there are several packages.
pub proof fn without_commits_the_title_names_the_bump(updates: Seq<UpdateView>, config: BumpsView)
    requires
        updates.len() > 0,
        forall|i: int| 0 <= i < updates.len() ==> (#[trigger] updates[i]).commits.len() == 0,
    ensures
        (forall|i: int|
            0 <= i < updates.len() ==> (#[trigger] updates[i]).package.name
                == updates[0].package.name) ==> title(updates, config) == "chore: bumping "@
            + updates[0].package.name + " from "@ + updates[0].package.version.text() + " to "@
            + updates.last().new_version.text(),
        (exists|i: int|
            0 <= i < updates.len() && (#[trigger] updates[i]).package.name
                != updates[0].package.name) ==> title(updates, config)
            == "chore: bumping package versions"@,
{
    let all = all_commits(updates);
    if all.len() > 0 {
        let (i, j) = lemma_commit_source(updates, 0);
        assert(updates[i].commits.len() == 0);
    }
    assert(heaviest(all, config) is None);
    if updates.len() == 1 {
        assert(updates.last() == updates[0]);
    }
}

/// The body of the pull request tells of every update: the package and the versions that it leaves
/// and reaches.
pub proof fn the_body_tells_of_every_update(updates: Seq<UpdateView>, i: int)
    requires
        0 <= i < updates.len(),
    ensures
        exists|a: Seq<char>, b: Seq<char>|
            text::joined(sections(updates), "\n"@) == #[trigger] (a + ("chore: bumping "@
                + updates[i].package.name + " from "@ + updates[i].package.version.text() + " to "@
                + updates[i].new_version.text() + "\n"@) + b),
        sections(updates).len() == updates.len(),
{
    let update = updates[i];
    let body = text::joined(sections(updates), "\n"@);
    let own = section(update);
    text::every_part_is_joined(sections(updates), "\n"@, i);
    let line = "chore: bumping "@ + update.package.name + " from "@ + update.package.version.text()
        + " to "@ + update.new_version.text() + "\n"@;
    let lines = text::joined(commit_lines(update.commits), "\n"@);
    assert(own =~= Seq::<char>::empty() + line + (lines + "\n"@));
    text::lemma_inside(body, own, line);
}

/// The body of the pull request lists every commit of every update, with its short id and its
/// summary.
pub proof fn the_body_lists_every_commit(updates: Seq<UpdateView>, i: int, j: int)
    requires
        0 <= i < updates.len(),
        0 <= j < updates[i].commits.len(),
    ensures
        exists|a: Seq<char>, b: Seq<char>|
            text::joined(sections(updates), "\n"@) == #[trigger] (a + ("- "@ + short(
                updates[i].commits[j].sha1,
            ) + " "@ + updates[i].commits[j].summary) + b),
{
    let update = updates[i];
    let body = text::joined(sections(updates), "\n"@);
    let own = section(update);
    let lines = text::joined(commit_lines(update.commits), "\n"@);
    let wanted = "- "@ + short(update.commits[j].sha1) + " "@ + update.commits[j].summary;
    text::every_part_is_joined(sections(updates), "\n"@, i);
    assert(own =~= (bump_line(update) + "\n"@) + lines + "\n"@);
    text::lemma_inside(body, own, lines);
    text::every_part_is_joined(commit_lines(update.commits), "\n"@, j);
    assert(commit_lines(update.commits)[j] == wanted);
    text::lemma_inside(body, lines, wanted);
}

} // verus!
