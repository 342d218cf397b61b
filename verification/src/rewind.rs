//! Getting back to the branch as it was before earlier release runs: their bump commits are rebased
//! away, one after the other.
use crate::history::{
    count_notch_commits, find_last_notch_commit, is_last_notch, notch_count, record_views,
    CommitRecord, RecordView,
};
use crate::text;
use vstd::prelude::*;

verus! {

/// The command that rebases one commit away: what follows it is put onto its parent.
pub open spec fn rebase_command(target: Seq<char>) -> Seq<Seq<char>> {
    seq!["git"@, "rebase"@, "--onto"@, target + "^"@, target]
}

/// The rebases that take the bump commits off a branch.
#[derive(Debug, PartialEq, Eq)]
pub struct NotchDrop {
    /// How many rebases may still be made.
    pub passes: usize,
}

impl NotchDrop {
    /// As many rebases as the branch has bump commits: each should remove one, so the bound only
    /// matters when a rebase does nothing, which must not go on for ever.
    pub fn new(commits: &[CommitRecord]) -> (r: Self)
        ensures
            r.passes == notch_count(record_views(commits@)),
    {
        NotchDrop { passes: count_notch_commits(commits) }
    }

    /// The next rebase, for the branch as it now is; none if no rebase is left or no bump commit.
    /// Every bump commit goes, not only the last: a run interrupted between two of them leaves
    /// both, and the first one's bump would then be counted again.
    pub fn next_rebase(&mut self, commits: &[CommitRecord]) -> (r: Option<Vec<String>>)
        ensures
            match r {
                Some(command) => {
                    &&& old(self).passes > 0
                    &&& final(self).passes == old(self).passes - 1
                    &&& exists|i: int| #[trigger]
                        is_last_notch(record_views(commits@), i) && text::texts(command@)
                            == rebase_command(record_views(commits@)[i].id)
                },
                None => {
                    &&& *final(self) == *old(self)
                    &&& old(self).passes == 0 || forall|i: int|
                        0 <= i < commits@.len() ==> !(#[trigger] record_views(
                            commits@,
                        )[i]).is_notch()
                },
            },
    {
        if self.passes == 0 {
            return None;
        }
        match find_last_notch_commit(commits) {
            None => None,
            Some(i) => {
                self.passes = self.passes - 1;
                let target = &commits[i].id;
                assert(target@ == record_views(commits@)[i as int].id);
                let mut onto = target.clone();
                onto.append("^");
                let command = vec![
                    "git".to_owned(),
                    "rebase".to_owned(),
                    "--onto".to_owned(),
                    onto,
                    target.clone(),
                ];
                assert(text::texts(command@) =~= rebase_command(target@));
                Some(command)
            },
        }
    }
}

/// Where the packages are to be read from as they would be without the branch's bump commits: the
/// name of a worktree to rebase in. None where the branch has no bump commit, because the working
/// tree then is what to read. The name holds the head, so that runs do not collide.
pub fn packages_without_prior_notch_commit(commits: &[CommitRecord], head: &str) -> (r: Option<
    String,
>)
    ensures
        match r {
            Some(name) => notch_count(record_views(commits@)) > 0 && name@ == "notch-baseline-"@
                + head@,
            None => notch_count(record_views(commits@)) == 0,
        },
{
    if count_notch_commits(commits) == 0 {
        return None;
    }
    let mut name = "notch-baseline-".to_owned();
    name.append(head);
    Some(name)
}

/// The worktree that a commit's packages are read in when tags are computed.
pub fn tag_worktree(commit: &str) -> (r: String)
    ensures
        r@ == "notch-tag-"@ + commit@,
{
    let mut name = "notch-tag-".to_owned();
    name.append(commit);
    name
}

/// Whether two commits say the same, though a rebase gave them different ids.
pub open spec fn same_change(a: RecordView, b: RecordView) -> bool {
    a.author_email == b.author_email && a.message == b.message && a.summary == b.summary
}

/// Whether the one branch is the other without its commit at `i`, the rest replayed.
pub open spec fn is_without(before: Seq<RecordView>, after: Seq<RecordView>, i: int) -> bool {
    &&& 0 <= i < before.len()
    &&& after.len() == before.len() - 1
    &&& forall|j: int| 0 <= j < i ==> same_change(before[j], #[trigger] after[j])
    &&& forall|j: int| i <= j < after.len() ==> same_change(before[j + 1], #[trigger] after[j])
}

/// What the commits that no release run made say, in order.
pub open spec fn kept(commits: Seq<RecordView>) -> Seq<
    (Option<Seq<char>>, Option<Seq<char>>, Option<Seq<char>>),
>
    decreases commits.len(),
{
    if commits.len() == 0 {
        Seq::empty()
    } else if commits.last().is_notch() {
        kept(commits.drop_last())
    } else {
        kept(commits.drop_last()).push(
            (
                commits.last().author_email,
                commits.last().message,
                commits.last().summary,
            ),
        )
    }
}

/// A replayed branch keeps its bump commits and its other commits.
proof fn lemma_replay(before: Seq<RecordView>, after: Seq<RecordView>)
    requires
        before.len() == after.len(),
        forall|j: int| 0 <= j < after.len() ==> same_change(before[j], #[trigger] after[j]),
    ensures
        notch_count(before) == notch_count(after),
        kept(before) == kept(after),
    decreases before.len(),
{
    if before.len() > 0 {
        let n = before.len() - 1;
        assert(same_change(before[n], after[n]));
        assert forall|j: int| 0 <= j < n implies same_change(
            before.drop_last()[j],
            #[trigger] after.drop_last()[j],
        ) by {
            assert(same_change(before[j], after[j]));
        }
        lemma_replay(before.drop_last(), after.drop_last());
    }
}

/// Taking one bump commit off a branch leaves one bump commit less, and every other commit.
pub proof fn a_rebase_removes_one_bump_commit(
    before: Seq<RecordView>,
    after: Seq<RecordView>,
    i: int,
)
    requires
        is_without(before, after, i),
        before[i].is_notch(),
    ensures
        notch_count(before) == notch_count(after) + 1,
        kept(before) == kept(after),
    decreases before.len(),
{
    let n = before.len() - 1;
    let shorter = before.drop_last();
    if i == n {
        assert forall|j: int| 0 <= j < after.len() implies same_change(
            shorter[j],
            #[trigger] after[j],
        ) by {}
        lemma_replay(shorter, after);
    } else {
        let rest = after.drop_last();
        assert(same_change(before[n - 1 + 1], after[n - 1]));
        assert forall|j: int| 0 <= j < i implies same_change(shorter[j], #[trigger] rest[j]) by {
            assert(same_change(before[j], after[j]));
        }
        assert forall|j: int| i <= j < rest.len() implies same_change(
            shorter[j + 1],
            #[trigger] rest[j],
        ) by {
            assert(same_change(before[j + 1], after[j]));
        }
        a_rebase_removes_one_bump_commit(shorter, rest, i);
    }
}

/// Whether the one branch is the other after the rebase that is made next.
pub open spec fn is_rebased(before: Seq<RecordView>, after: Seq<RecordView>) -> bool {
    exists|i: int| #[trigger] is_last_notch(before, i) && is_without(before, after, i)
}

/// After as many rebases as the branch had bump commits, it has none left, and every other commit
/// is still there, in order.
pub proof fn every_bump_commit_is_dropped(branches: Seq<Seq<RecordView>>)
    requires
        branches.len() == notch_count(branches[0]) + 1,
        forall|k: int|
            0 <= k < branches.len() - 1 ==> is_rebased(#[trigger] branches[k], branches[k + 1]),
    ensures
        forall|i: int| 0 <= i < branches.last().len() ==> !(#[trigger] branches.last()[i]).is_notch(),
        kept(branches.last()) == kept(branches[0]),
{
    lemma_rebases(branches, branches.len() - 1);
    lemma_no_bump_commit(branches.last());
}

/// Each rebase takes one bump commit.
proof fn lemma_rebases(branches: Seq<Seq<RecordView>>, k: int)
    requires
        0 <= k < branches.len(),
        forall|j: int|
            0 <= j < branches.len() - 1 ==> is_rebased(#[trigger] branches[j], branches[j + 1]),
    ensures
        notch_count(branches[k]) == notch_count(branches[0]) - k,
        kept(branches[k]) == kept(branches[0]),
    decreases k,
{
    if k > 0 {
        lemma_rebases(branches, k - 1);
        let before = branches[k - 1];
        let after = branches[k - 1 + 1];
        assert(is_rebased(before, after));
        let i = choose|i: int| #[trigger] is_last_notch(before, i) && is_without(before, after, i);
        a_rebase_removes_one_bump_commit(before, after, i);
    }
}

/// A count of zero means that there is none.
proof fn lemma_no_bump_commit(commits: Seq<RecordView>)
    requires
        notch_count(commits) == 0,
    ensures
        forall|i: int| 0 <= i < commits.len() ==> !(#[trigger] commits[i]).is_notch(),
    decreases commits.len(),
{
    if commits.len() > 0 {
        lemma_no_bump_commit(commits.drop_last());
        assert forall|i: int| 0 <= i < commits.len() implies !(#[trigger] commits[i]).is_notch() by {
            if i < commits.len() - 1 {
                assert(commits[i] == commits.drop_last()[i]);
            }
        }
    }
}

/// Every commit that no release run made is kept, in order and as it was, and no other is.
pub proof fn other_commits_are_kept_one_by_one(a: Seq<RecordView>, b: Seq<RecordView>)
    ensures
        kept(a + b) == kept(a) + kept(b),
        forall|c: RecordView| #[trigger]
            kept(seq![c]) == (if c.is_notch() {
                Seq::empty()
            } else {
                seq![(c.author_email, c.message, c.summary)]
            }),
        kept(Seq::empty()).len() == 0,
    decreases b.len(),
{
    assert forall|c: RecordView| #[trigger]
        kept(seq![c]) == (if c.is_notch() {
            Seq::empty()
        } else {
            seq![(c.author_email, c.message, c.summary)]
        }) by {
        assert(seq![c].drop_last() =~= Seq::empty());
        reveal_with_fuel(kept, 2);
        assert(kept(seq![c]) =~= (if c.is_notch() {
            Seq::empty()
        } else {
            seq![(c.author_email, c.message, c.summary)]
        }));
    }
    if b.len() == 0 {
        assert(a + b =~= a);
    } else {
        other_commits_are_kept_one_by_one(a, b.drop_last());
        assert((a + b).drop_last() =~= a + b.drop_last());
        assert((a + b).last() == b.last());
    }
    assert(kept(a + b) =~= kept(a) + kept(b));
}

} // verus!
