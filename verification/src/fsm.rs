//! The state of one package's release: its commits, and the bump that they call for together.
use crate::auto::{bump_for_commit, commit_bump};
use crate::bump::Bump;
use crate::commits::{commit_views, CommitInfo, CommitView};
use crate::config::{BumpsConfig, BumpsView};
use vstd::prelude::*;

verus! {

/// How much a bump weighs, with none at all the least.
pub open spec fn weight(bump: Option<Bump>) -> nat {
    match bump {
        Some(b) => b.severity(),
        None => 0,
    }
}

/// The bigger of two bumps.
pub open spec fn bigger(a: Option<Bump>, b: Option<Bump>) -> Option<Bump> {
    if weight(a) < weight(b) {
        b
    } else {
        a
    }
}

/// The biggest bump that any of the commits calls for.
pub open spec fn biggest_bump(commits: Seq<CommitView>, config: BumpsView) -> Option<Bump>
    decreases commits.len(),
{
    if commits.len() == 0 {
        None
    } else {
        bigger(biggest_bump(commits.drop_last(), config), commit_bump(commits.last(), config))
    }
}

/// Tracks the commits and the version bump of a single package.
pub struct NotchFsm {
    bump_config: BumpsConfig,
    current_bump: Option<Bump>,
    commits: Vec<CommitInfo>,
}

impl NotchFsm {
    /// The bump is the biggest that the commits call for.
    #[verifier::type_invariant]
    spec fn well_formed(self) -> bool {
        self.current_bump == biggest_bump(commit_views(self.commits@), self.bump_config@)
    }

    /// The commits handled so far, oldest call first.
    pub closed spec fn handled(&self) -> Seq<CommitView> {
        commit_views(self.commits@)
    }

    /// The lists that map a commit to a bump.
    pub closed spec fn rules(&self) -> BumpsView {
        self.bump_config@
    }

    /// A state with no commits.
    pub fn new(bump_config: BumpsConfig) -> (r: Self)
        ensures
            r.handled() == Seq::<CommitView>::empty(),
            r.rules() == bump_config@,
    {
        NotchFsm { bump_config, current_bump: None, commits: Vec::new() }
    }

    /// Takes in commits of the package.
    pub fn handle_commits(&mut self, commits: &[CommitInfo])
        ensures
            final(self).handled() == old(self).handled() + commit_views(commits@),
            final(self).rules() == old(self).rules(),
    {
        let mut before = NotchFsm::new(BumpsConfig::default());
        std::mem::swap(self, &mut before);
        proof {
            use_type_invariant(&before);
        }
        let NotchFsm { bump_config, current_bump: mut bump, commits: mut all } = before;
        let ghost known = all@;
        let mut i: usize = 0;
        assert(known + commits@.take(0) == known);
        assert(commit_views(known + commits@.take(0)) == commit_views(known));
        while i < commits.len()
            invariant
                i <= commits@.len(),
                all@ == known + commits@.take(i as int),
                bump == biggest_bump(commit_views(all@), bump_config@),
            decreases commits@.len() - i,
        {
            let ghost previous = all@;
            match bump_for_commit(&commits[i], &bump_config) {
                Some(next) => {
                    let enough = match bump {
                        Some(current) => next.rank() <= current.rank(),
                        None => false,
                    };
                    if !enough {
                        bump = Some(next);
                    }
                },
                None => {},
            }
            all.push(commits[i].clone());
            assert(commit_views(all@).drop_last() == commit_views(previous));
            assert(commits@.take(i + 1) == commits@.take(i as int).push(commits@[i as int]));
            assert(all@ == known + commits@.take(i + 1));
            i += 1;
        }
        assert(commits@.take(i as int) == commits@);
        assert(commit_views(all@) == commit_views(known) + commit_views(commits@));
        *self = NotchFsm { bump_config, current_bump: bump, commits: all };
    }

    /// The package's commits, whether or not any of them contributes a bump. Unlike `dump`, which
    /// drops them where there is no bump, this is what shows everything that is attributed to the
    /// package.
    pub fn commits(&self) -> (r: &[CommitInfo])
        ensures
            commit_views(r@) == self.handled(),
    {
        self.commits.as_slice()
    }

    /// The bump that the commits call for, if any.
    pub fn suggested_bump(&self) -> (r: Option<Bump>)
        ensures
            r == biggest_bump(self.handled(), self.rules()),
    {
        proof {
            use_type_invariant(self);
        }
        self.current_bump
    }

    /// The bump and the commits; `None` where no commit contributes a bump.
    pub fn dump(&self) -> (r: Option<(Bump, Vec<CommitInfo>)>)
        ensures
            match r {
                Some((bump, commits)) => {
                    &&& biggest_bump(self.handled(), self.rules()) == Some(bump)
                    &&& commit_views(commits@) == self.handled()
                },
                None => biggest_bump(self.handled(), self.rules()) is None,
            },
    {
        proof {
            use_type_invariant(self);
        }
        match self.current_bump {
            Some(bump) => {
                let commits = self.commits.clone();
                assert(commits@ =~= self.commits@);
                Some((bump, commits))
            },
            None => None,
        }
    }
}

/// The suggested bump is the maximum over the commits: none of them calls for more, and one of
/// them calls for exactly it, unless there is no bump at all.
pub proof fn suggestion_is_the_maximum(commits: Seq<CommitView>, config: BumpsView)
    ensures
        forall|i: int|
            0 <= i < commits.len() ==> weight(#[trigger] commit_bump(commits[i], config)) <= weight(
                biggest_bump(commits, config),
            ),
        biggest_bump(commits, config) is Some ==> exists|i: int|
            0 <= i < commits.len() && #[trigger] commit_bump(commits[i], config) == biggest_bump(
                commits,
                config,
            ),
    decreases commits.len(),
{
    if commits.len() > 0 {
        let shorter = commits.drop_last();
        suggestion_is_the_maximum(shorter, config);
        assert forall|i: int| 0 <= i < commits.len() implies weight(
            #[trigger] commit_bump(commits[i], config),
        ) <= weight(biggest_bump(commits, config)) by {
            if i < shorter.len() {
                assert(shorter[i] == commits[i]);
                assert(weight(commit_bump(shorter[i], config)) <= weight(
                    biggest_bump(shorter, config),
                ));
            }
        }
        if biggest_bump(commits, config) is Some {
            if weight(biggest_bump(shorter, config)) < weight(commit_bump(commits.last(), config)) {
                assert(commit_bump(commits[commits.len() - 1], config) == biggest_bump(
                    commits,
                    config,
                ));
            } else {
                let i = choose|i: int|
                    0 <= i < shorter.len() && #[trigger] commit_bump(shorter[i], config)
                        == biggest_bump(shorter, config);
                assert(commit_bump(commits[i], config) == biggest_bump(commits, config));
            }
        }
    }
}

/// Commits can be handled in pieces: the bump is the bigger one of the pieces'.
pub proof fn bumps_of_pieces_combine(a: Seq<CommitView>, b: Seq<CommitView>, config: BumpsView)
    ensures
        biggest_bump(a + b, config) == bigger(biggest_bump(a, config), biggest_bump(b, config)),
    decreases b.len(),
{
    if b.len() == 0 {
        assert(a + b == a);
    } else {
        bumps_of_pieces_combine(a, b.drop_last(), config);
        assert((a + b).drop_last() == a + b.drop_last());
    }
}

/// More commits never lower the bump.
pub proof fn more_commits_never_lower_the_bump(
    a: Seq<CommitView>,
    b: Seq<CommitView>,
    config: BumpsView,
)
    ensures
        weight(biggest_bump(a, config)) <= weight(biggest_bump(a + b, config)),
{
    bumps_of_pieces_combine(a, b, config);
}

} // verus!
