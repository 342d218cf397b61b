//! Commits, as far as a release looks at them.
use vstd::prelude::*;
use vstd::string::*;
use vstd::utf8::*;

verus! {

/// A commit that is attributed to a package.
#[derive(Debug, PartialEq, Eq)]
pub struct CommitInfo {
    pub summary: String,
    /// The SHA1 of the commit, in hexadecimal, of whatever length.
    pub sha1: String,
    /// Whether the commit body carries a `BREAKING CHANGE:` / `BREAKING-CHANGE:` footer. The
    /// header's `!` marker is not reflected here: it stays visible in `summary` and is parsed
    /// from there.
    pub breaking: bool,
}

/// What a `CommitInfo` holds.
#[verifier::ext_equal]
pub struct CommitView {
    pub summary: Seq<char>,
    pub sha1: Seq<char>,
    pub breaking: bool,
}

impl View for CommitInfo {
    type V = CommitView;

    open spec fn view(&self) -> CommitView {
        CommitView { summary: self.summary@, sha1: self.sha1@, breaking: self.breaking }
    }
}

/// What the commits hold.
pub open spec fn commit_views(commits: Seq<CommitInfo>) -> Seq<CommitView> {
    Seq::new(commits.len(), |i: int| commits[i]@)
}

impl Clone for CommitInfo {
    fn clone(&self) -> (r: Self)
        ensures
            r == *self,
    {
        CommitInfo {
            summary: self.summary.clone(),
            sha1: self.sha1.clone(),
            breaking: self.breaking,
        }
    }
}

/// Whether the first seven bytes of an id are whole characters.
pub open spec fn can_shorten(id: Seq<char>) -> bool {
    is_char_boundary(encode_utf8(id), 7)
}

/// The first seven bytes of an id.
pub open spec fn short(id: Seq<char>) -> Seq<char> {
    decode_utf8(encode_utf8(id).subrange(0, 7))
}

impl CommitInfo {
    /// A commit with this summary and id.
    pub fn new(summary: String, sha1: String, breaking: bool) -> (r: Self)
        ensures
            r == (CommitInfo { summary, sha1, breaking }),
    {
        CommitInfo { summary, sha1, breaking }
    }

    /// The id, shortened to seven bytes.
    pub fn short_id(&self) -> (r: &str)
        requires
            can_shorten(self.sha1@),
        ensures
            r@ == short(self.sha1@),
    {
        let (head, _) = self.sha1.as_str().split_at(7);
        proof {
            encode_utf8_decode_utf8(head@);
        }
        head
    }
}

/// An id of at least seven ASCII characters, as git's are, is shortened to its first seven.
pub proof fn ascii_id_is_cut_after_seven(id: Seq<char>)
    requires
        id.len() >= 7,
        is_ascii_chars(id),
    ensures
        can_shorten(id),
        short(id) == id.take(7),
{
    is_ascii_chars_encode_utf8(id);
    assert(is_ascii_chars(id.take(7)));
    is_ascii_chars_encode_utf8(id.take(7));
    assert(encode_utf8(id).subrange(0, 7) =~= encode_utf8(id.take(7)));
    encode_utf8_decode_utf8(id.take(7));
    encode_utf8_valid_utf8(id);
    let bytes = encode_utf8(id);
    if id.len() > 7 {
        is_char_boundary_iff_not_is_continuation_byte(bytes, 7);
        assert(bytes[7] == id[7] as u8);
    } else {
        is_char_boundary_start_end_of_seq(bytes);
    }
}

} // verus!
