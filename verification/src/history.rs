//! The branch's commits as git has them, and the ones among them that a release run made itself.
use crate::commits::{CommitInfo, CommitView};
use crate::config::ReleaseConfig;
use crate::release::{UpdateView, UpdatedCrate};
use crate::text;
use vstd::prelude::*;

verus! {

/// The first line of the message of a bump commit.
pub const NOTCH_COMMIT_MESSAGE: &'static str = "chore(notch): changelog + version bump";

/// The name that bump commits are signed with.
pub const NOTCH_COMMITTER_NAME: &'static str = "notch";

/// The address that bump commits are signed with.
pub const NOTCH_COMMITTER_EMAIL: &'static str = "notch@noreply.notch-release";

/// What the trailer of a bump commit starts with.
pub const NOTCH_TRAILER_KEY: &'static str = "Notch-Bump";

/// A commit of the branch.
#[derive(Debug)]
pub struct CommitRecord {
    pub id: String,
    /// The author's address, where it is valid UTF-8.
    pub author_email: Option<String>,
    /// The whole message, where it is valid UTF-8.
    pub message: Option<String>,
    /// The first line of the message, where there is one and it is valid UTF-8.
    pub summary: Option<String>,
    /// How many parents the commit has.
    pub parents: usize,
    /// The files that differ from the first parent, under their old and their new paths; every file
    /// of the commit where there is no parent.
    pub files: Vec<String>,
}

/// What a `CommitRecord` holds.
#[verifier::ext_equal]
pub struct RecordView {
    pub id: Seq<char>,
    pub author_email: Option<Seq<char>>,
    pub message: Option<Seq<char>>,
    pub summary: Option<Seq<char>>,
    pub parents: nat,
    pub files: Seq<Seq<char>>,
}

/// What the optional string holds.
pub open spec fn optional(s: Option<String>) -> Option<Seq<char>> {
    match s {
        Some(t) => Some(t@),
        None => None,
    }
}

impl View for CommitRecord {
    type V = RecordView;

    open spec fn view(&self) -> RecordView {
        RecordView {
            id: self.id@,
            author_email: optional(self.author_email),
            message: optional(self.message),
            summary: optional(self.summary),
            parents: self.parents as nat,
            files: text::texts(self.files@),
        }
    }
}

/// What the commits hold.
pub open spec fn record_views(records: Seq<CommitRecord>) -> Seq<RecordView> {
    Seq::new(records.len(), |i: int| records[i]@)
}

/// Whether some line of the message starts with the prefix.
pub open spec fn has_line(message: Seq<char>, prefix: Seq<char>) -> bool {
    exists|i: int|
        0 <= i < text::pieces(message, '\n').len() && prefix.is_prefix_of(
            #[trigger] text::pieces(message, '\n')[i],
        )
}

/// Whether some line of the message starts with the prefix.
pub fn any_line_starts_with(message: &str, prefix: &str) -> (r: bool)
    ensures
        r == has_line(message@, prefix@),
{
    let lines = text::split(message, '\n');
    let ghost all = text::pieces(message@, '\n');
    let mut i: usize = 0;
    while i < lines.len()
        invariant
            i <= lines@.len() == all.len(),
            all == text::pieces(message@, '\n'),
            forall|j: int| 0 <= j < lines@.len() ==> (#[trigger] lines@[j])@ == all[j],
            forall|j: int| 0 <= j < i ==> !prefix@.is_prefix_of(#[trigger] all[j]),
        decreases lines@.len() - i,
    {
        if text::starts_with(lines[i], prefix) {
            assert(prefix@.is_prefix_of(all[i as int]));
            return true;
        }
        assert(!prefix@.is_prefix_of(all[i as int]));
        i += 1;
    }
    false
}

/// What the trailer line of a bump commit starts with.
pub open spec fn trailer_start() -> Seq<char> {
    NOTCH_TRAILER_KEY@ + ":"@
}

impl RecordView {
    /// Whether the commit is one that a release run made: its author and its trailer both say so.
    pub open spec fn is_notch(self) -> bool {
        &&& self.author_email == Some(NOTCH_COMMITTER_EMAIL@)
        &&& self.message is Some
        &&& has_line(self.message->0, trailer_start())
    }

    /// Whether a footer of the message announces a breaking change.
    pub open spec fn is_breaking(self) -> bool {
        self.message is Some && (has_line(self.message->0, "BREAKING CHANGE:"@) || has_line(
            self.message->0,
            "BREAKING-CHANGE:"@,
        ))
    }

    /// The commit as a release shows it.
    pub open spec fn info(self) -> CommitView {
        CommitView {
            summary: match self.summary {
                Some(s) => s,
                None => "<no summary>"@,
            },
            sha1: self.id,
            breaking: self.is_breaking(),
        }
    }
}

/// A commit is the release run's own only if both its identity and the trailer match: either alone
/// could be forged or coincidental. The author is checked, not the committer, because a rebase, a
/// cherry-pick or an amend stamps a new committer and keeps the author.
pub fn is_notch_commit(commit: &CommitRecord) -> (r: bool)
    ensures
        r == commit@.is_notch(),
{
    let author_matches = match &commit.author_email {
        Some(email) => text::same(email.as_str(), NOTCH_COMMITTER_EMAIL),
        None => false,
    };
    let has_trailer = match &commit.message {
        Some(message) => {
            let mut start = NOTCH_TRAILER_KEY.to_owned();
            start.append(":");
            any_line_starts_with(message.as_str(), start.as_str())
        },
        None => false,
    };
    author_matches && has_trailer
}

/// The commit as a release shows it. A breaking change can be declared in a footer of the message
/// rather than by the `!` marker of the header.
pub fn commit_info(commit: &CommitRecord) -> (r: CommitInfo)
    ensures
        r@ == commit@.info(),
{
    let summary = match &commit.summary {
        Some(s) => s.clone(),
        None => "<no summary>".to_owned(),
    };
    let breaking = match &commit.message {
        Some(message) => any_line_starts_with(message.as_str(), "BREAKING CHANGE:")
            || any_line_starts_with(message.as_str(), "BREAKING-CHANGE:"),
        None => false,
    };
    CommitInfo { summary, sha1: commit.id.clone(), breaking }
}

/// How many of the commits a release run made.
pub open spec fn notch_count(commits: Seq<RecordView>) -> nat
    decreases commits.len(),
{
    if commits.len() == 0 {
        0
    } else {
        notch_count(commits.drop_last()) + (if commits.last().is_notch() {
            1nat
        } else {
            0nat
        })
    }
}

/// Whether `i` is the last of the commits that a release run made.
pub open spec fn is_last_notch(commits: Seq<RecordView>, i: int) -> bool {
    &&& 0 <= i < commits.len()
    &&& commits[i].is_notch()
    &&& forall|j: int| i < j < commits.len() ==> !(#[trigger] commits[j]).is_notch()
}

/// Where the most recent bump commit stands among the commits, which are oldest first.
pub fn find_last_notch_commit(commits: &[CommitRecord]) -> (r: Option<usize>)
    ensures
        match r {
            Some(i) => is_last_notch(record_views(commits@), i as int),
            None => forall|i: int|
                0 <= i < commits@.len() ==> !(#[trigger] record_views(commits@)[i]).is_notch(),
        },
{
    let ghost views = record_views(commits@);
    let mut i: usize = commits.len();
    while i > 0
        invariant
            i <= commits@.len(),
            views == record_views(commits@),
            forall|j: int| i <= j < views.len() ==> !(#[trigger] views[j]).is_notch(),
        decreases i,
    {
        i -= 1;
        assert(views[i as int] == commits@[i as int]@);
        if is_notch_commit(&commits[i]) {
            return Some(i);
        }
    }
    None
}

/// How many of the commits a release run made.
pub fn count_notch_commits(commits: &[CommitRecord]) -> (r: usize)
    ensures
        r == notch_count(record_views(commits@)),
{
    let ghost views = record_views(commits@);
    let mut n: usize = 0;
    let mut i: usize = 0;
    while i < commits.len()
        invariant
            n <= i <= commits@.len(),
            views == record_views(commits@),
            n == notch_count(views.take(i as int)),
        decreases commits@.len() - i,
    {
        assert(views.take(i + 1).drop_last() == views.take(i as int));
        assert(views.take(i + 1).last() == commits@[i as int]@);
        if is_notch_commit(&commits[i]) {
            n += 1;
        }
        i += 1;
    }
    assert(views.take(i as int) == views);
    n
}

/// The range that the changelog is generated from: since the last bump commit if there is one,
/// otherwise since the default branch of the remote.
pub fn changelog_range(release: &ReleaseConfig, last_notch_commit: Option<&CommitRecord>) -> (r:
    String)
    ensures
        r@ == (match last_notch_commit {
            Some(commit) => commit.id@ + "..HEAD"@,
            None => release@.range(),
        }),
{
    match last_notch_commit {
        Some(commit) => {
            let mut s = commit.id.clone();
            s.append("..HEAD");
            s
        },
        None => release.commit_range(),
    }
}

/// What the trailer says of one update: `name@old->new`.
pub open spec fn trailer_entry(update: UpdateView) -> Seq<char> {
    update.package.name + "@"@ + update.package.version.text() + "->"@ + update.new_version.text()
}

/// What the trailer says of the updates.
pub open spec fn trailer_entries(updates: Seq<UpdateView>) -> Seq<Seq<char>> {
    Seq::new(updates.len(), |i: int| trailer_entry(updates[i]))
}

/// The trailer for the updates.
pub open spec fn bump_trailer(updates: Seq<UpdateView>) -> Seq<char> {
    NOTCH_TRAILER_KEY@ + ": "@ + text::joined(trailer_entries(updates), ","@)
}

/// `name@old->new` for every package that the run bumped, recorded as a trailer so that the commit
/// describes itself and, together with its author, is recognizable.
pub fn build_bump_trailer(updated: &[UpdatedCrate]) -> (r: String)
    ensures
        r@ == bump_trailer(crate::release::update_views(updated@)),
{
    let ghost views = crate::release::update_views(updated@);
    let mut pairs: Vec<String> = Vec::new();
    let mut i: usize = 0;
    while i < updated.len()
        invariant
            i <= updated@.len(),
            views == crate::release::update_views(updated@),
            text::texts(pairs@) == trailer_entries(views.take(i as int)),
        decreases updated@.len() - i,
    {
        let c = &updated[i];
        let mut pair = c.package.name.clone();
        pair.append("@");
        pair.append(c.package.version.to_string().as_str());
        pair.append("->");
        pair.append(c.new_version.to_string().as_str());
        assert(pair@ == trailer_entry(views[i as int]));
        let ghost before = text::texts(pairs@);
        pairs.push(pair);
        assert(text::texts(pairs@) == before.push(pair@));
        assert(views.take(i + 1) == views.take(i as int).push(views[i as int]));
        assert(trailer_entries(views.take(i + 1)) == trailer_entries(views.take(i as int)).push(
            pair@,
        ));
        i += 1;
    }
    assert(views.take(i as int) == views);
    let mut s = NOTCH_TRAILER_KEY.to_owned();
    s.append(": ");
    s.append(text::join(&pairs, ",").as_str());
    s
}

/// The message of the commit that records the updates.
pub open spec fn bump_message(updates: Seq<UpdateView>) -> Seq<char> {
    NOTCH_COMMIT_MESSAGE@ + "\n\n"@ + bump_trailer(updates)
}

/// The message of the commit that records the updates.
pub fn commit_message(updated: &[UpdatedCrate]) -> (r: String)
    ensures
        r@ == bump_message(crate::release::update_views(updated@)),
{
    let mut s = NOTCH_COMMIT_MESSAGE.to_owned();
    s.append("\n\n");
    s.append(build_bump_trailer(updated).as_str());
    s
}

/// The commit that a release run makes, signed as it signs, is recognized as its own.
pub proof fn bump_commits_are_recognized(commit: RecordView, updates: Seq<UpdateView>)
    requires
        commit.author_email == Some(NOTCH_COMMITTER_EMAIL@),
        commit.message == Some(bump_message(updates)),
    ensures
        commit.is_notch(),
{
    reveal_strlit("chore(notch): changelog + version bump");
    reveal_strlit("\n\n");
    reveal_strlit("Notch-Bump");
    reveal_strlit(":");
    reveal_strlit(": ");
    let title = NOTCH_COMMIT_MESSAGE@;
    let trailer = bump_trailer(updates);
    let message = bump_message(updates);
    let empty = Seq::<char>::empty();
    assert(text::lacks(title, '\n'));
    assert(message =~= title + seq!['\n'] + (empty + seq!['\n'] + trailer));
    text::lemma_pieces_front(title, '\n', empty + seq!['\n'] + trailer);
    text::lemma_pieces_front(empty, '\n', trailer);
    let start = trailer_start();
    assert(text::lacks(start, '\n'));
    assert(trailer.take(start.len() as int) =~= start);
    text::lemma_prefix_of_first_piece(trailer, '\n', start);
    let lines = text::pieces(message, '\n');
    assert(lines =~= seq![title, empty] + text::pieces(trailer, '\n'));
    assert(lines[2] == text::pieces(trailer, '\n')[0]);
}

/// A line starts with something if the message does, or if it stands right behind a line break:
/// every line of the message counts.
pub proof fn every_line_counts(message: Seq<char>, prefix: Seq<char>)
    requires
        !prefix.contains('\n'),
    ensures
        has_line(message, prefix) <==> prefix.is_prefix_of(message) || exists|k: int|
            0 <= k < message.len() && message[k] == '\n' && prefix.is_prefix_of(
                #[trigger] message.skip(k + 1),
            ),
    decreases message.len(),
{
    assert(text::lacks(prefix, '\n')) by {
        assert forall|i: int| 0 <= i < prefix.len() implies prefix[i] != '\n' by {
            assert(prefix.contains(prefix[i]));
        }
    }
    text::lemma_first_index(message, '\n');
    let lines = text::pieces(message, '\n');
    let k0 = text::first_index(message, '\n') as int;
    if k0 >= message.len() {
        assert(lines[0] == message);
        assert(has_line(message, prefix) == prefix.is_prefix_of(lines[0]));
    } else {
        let head = text::before(message, '\n');
        let tail = text::after(message, '\n');
        let rest = text::pieces(tail, '\n');
        every_line_counts(tail, prefix);
        assert(lines[0] == head);
        assert(prefix.is_prefix_of(head) <==> prefix.is_prefix_of(message)) by {
            if prefix.is_prefix_of(message) {
                text::lemma_prefix_of_first_piece(message, '\n', prefix);
            }
            if prefix.is_prefix_of(head) {
                assert(message.take(prefix.len() as int) =~= head.take(prefix.len() as int));
            }
        }
        assert(has_line(message, prefix) <==> prefix.is_prefix_of(head) || has_line(tail, prefix))
            by {
            if has_line(message, prefix) {
                let i = choose|i: int|
                    0 <= i < lines.len() && prefix.is_prefix_of(#[trigger] lines[i]);
                if i > 0 {
                    assert(rest[i - 1] == lines[i]);
                }
            }
            if prefix.is_prefix_of(head) {
                assert(prefix.is_prefix_of(lines[0]));
            }
            if has_line(tail, prefix) {
                let i = choose|i: int|
                    0 <= i < rest.len() && prefix.is_prefix_of(#[trigger] rest[i]);
                assert(lines[i + 1] == rest[i]);
            }
        }
        assert(message.skip(k0 + 1) =~= tail);
        if exists|k: int|
            0 <= k < tail.len() && tail[k] == '\n' && prefix.is_prefix_of(
                #[trigger] tail.skip(k + 1),
            ) {
            let k = choose|k: int|
                0 <= k < tail.len() && tail[k] == '\n' && prefix.is_prefix_of(
                    #[trigger] tail.skip(k + 1),
                );
            assert(message.skip(k0 + 1 + k + 1) =~= tail.skip(k + 1));
            assert(message[k0 + 1 + k] == '\n');
        }
        if exists|k: int|
            0 <= k < message.len() && message[k] == '\n' && prefix.is_prefix_of(
                #[trigger] message.skip(k + 1),
            ) {
            let k = choose|k: int|
                0 <= k < message.len() && message[k] == '\n' && prefix.is_prefix_of(
                    #[trigger] message.skip(k + 1),
                );
            if k > k0 {
                assert(tail.skip(k - k0 - 1 + 1) =~= message.skip(k + 1));
                assert(tail[k - k0 - 1] == '\n');
            }
        }
    }
}

/// A footer announces a breaking change on any line of the message, in either spelling, and nothing
/// else in the message does. The rest of the commit is shown as it is.
pub proof fn footers_announce_breaking_changes(commit: RecordView)
    ensures
        commit.info().breaking <==> (commit.message matches Some(m) && (has_line(
            m,
            "BREAKING CHANGE:"@,
        ) || has_line(m, "BREAKING-CHANGE:"@))),
        commit.info().sha1 == commit.id,
        commit.summary matches Some(s) ==> commit.info().summary == s,
        commit.summary is None ==> commit.info().summary == "<no summary>"@,
{
}

/// A commit counts as a release run's own only if its author and a line of its message both say so.
pub proof fn author_and_trailer_make_a_bump_commit(commit: RecordView)
    ensures
        commit.is_notch() <==> (commit.author_email == Some("notch@noreply.notch-release"@) && (
        commit.message matches Some(m) && has_line(m, "Notch-Bump:"@))),
{
    reveal_strlit("Notch-Bump");
    reveal_strlit(":");
    reveal_strlit("Notch-Bump:");
    assert(trailer_start() =~= "Notch-Bump:"@);
}

/// Bump commits are counted one by one.
pub proof fn bump_commits_are_counted_one_by_one(a: Seq<RecordView>, b: Seq<RecordView>)
    ensures
        notch_count(a + b) == notch_count(a) + notch_count(b),
        forall|c: RecordView| #[trigger]
            notch_count(seq![c]) == (if c.is_notch() {
                1nat
            } else {
                0nat
            }),
        notch_count(Seq::empty()) == 0,
    decreases b.len(),
{
    assert forall|c: RecordView| #[trigger]
        notch_count(seq![c]) == (if c.is_notch() {
            1nat
        } else {
            0nat
        }) by {
        assert(seq![c].drop_last() =~= Seq::empty());
        reveal_with_fuel(notch_count, 2);
    }
    if b.len() == 0 {
        assert(a + b =~= a);
    } else {
        bump_commits_are_counted_one_by_one(a, b.drop_last());
        assert((a + b).drop_last() =~= a + b.drop_last());
        assert((a + b).last() == b.last());
    }
}

/// Behind the last bump commit there is no other: of any two bump commits, the last is not before
/// the other.
pub proof fn no_bump_commit_follows_the_last(commits: Seq<RecordView>, last: int, other: int)
    requires
        is_last_notch(commits, last),
        0 <= other < commits.len(),
        commits[other].is_notch(),
    ensures
        other <= last < commits.len(),
        commits[last].is_notch(),
{
}

/// The message of a bump commit starts with its fixed title, and says of every update the name, the
/// old and the new version.
pub proof fn the_message_records_every_update(updates: Seq<UpdateView>, i: int)
    requires
        0 <= i < updates.len(),
    ensures
        "chore(notch): changelog + version bump\n\nNotch-Bump: "@.is_prefix_of(
            bump_message(updates),
        ),
        exists|a: Seq<char>, b: Seq<char>|
            bump_message(updates) == #[trigger] (a + (updates[i].package.name + "@"@
                + updates[i].package.version.text() + "->"@ + updates[i].new_version.text()) + b),
{
    reveal_strlit("chore(notch): changelog + version bump");
    reveal_strlit("\n\n");
    reveal_strlit("Notch-Bump");
    reveal_strlit(": ");
    reveal_strlit("chore(notch): changelog + version bump\n\nNotch-Bump: ");
    let entries = trailer_entries(updates);
    let list = text::joined(entries, ","@);
    let start = "chore(notch): changelog + version bump\n\nNotch-Bump: "@;
    let message = bump_message(updates);
    assert(start =~= NOTCH_COMMIT_MESSAGE@ + "\n\n"@ + NOTCH_TRAILER_KEY@ + ": "@);
    assert(message =~= start + list);
    assert(message.take(start.len() as int) =~= start);
    text::every_part_is_joined(entries, ","@, i);
    let entry = updates[i].package.name + "@"@ + updates[i].package.version.text() + "->"@
        + updates[i].new_version.text();
    assert(entries[i] == entry);
    let (a, b) = choose|a: Seq<char>, b: Seq<char>| list == #[trigger] (a + entry + b);
    assert(message =~= (start + a) + entry + b);
}

/// A release shows every commit with its own id and its own summary, or says that there is none.
pub proof fn commits_are_shown_as_they_are(commit: RecordView)
    ensures
        commit.info().sha1 == commit.id,
        commit.summary matches Some(s) ==> commit.info().summary == s,
        commit.summary is None ==> commit.info().summary == "<no summary>"@,
        commit.info().breaking <==> commit.is_breaking(),
{
}

} // verus!
