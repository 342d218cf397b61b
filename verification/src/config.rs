//! The configuration, and what is read off it.
use crate::error::{NotchError, Result};
use crate::text;
use vstd::prelude::*;

verus! {

/// Everything that `notch.toml` can set.
#[derive(Debug)]
pub struct Config {
    pub repo: RepoConfig,
    pub release: ReleaseConfig,
    pub bumps: BumpsConfig,
    pub tracking: TrackingConfig,
}

impl Default for Config {
    fn default() -> (r: Self)
        ensures
            r.repo.owner is None,
            r.repo.name is None,
            !r.repo.has_token,
            r.release@ == ReleaseView::standard(),
            r.bumps@ == BumpsView::standard(),
            text::texts(r.tracking.exclude@) == seq!["CHANGELOG.md"@],
            r.tracking.included@.len() == 0,
            r.tracking.packages@.len() == 0,
    {
        Config {
            repo: RepoConfig::default(),
            release: ReleaseConfig::default(),
            bumps: BumpsConfig::default(),
            tracking: TrackingConfig::default(),
        }
    }
}

/// Where the repository is hosted.
#[derive(Debug)]
pub struct RepoConfig {
    /// Overrides the owner detected from the `origin` remote.
    pub owner: Option<String>,
    /// Overrides the repo name detected from the `origin` remote.
    pub name: Option<String>,
    /// Whether a GitHub token is configured. The token itself stays with whoever talks to GitHub.
    pub has_token: bool,
}

impl Default for RepoConfig {
    fn default() -> (r: Self)
        ensures
            r.owner is None,
            r.name is None,
            !r.has_token,
    {
        RepoConfig { owner: None, name: None, has_token: false }
    }
}

/// What a `ReleaseConfig` holds.
#[verifier::ext_equal]
pub struct ReleaseView {
    pub default_branch: Seq<char>,
    pub remote: Seq<char>,
    pub tag_format: Seq<char>,
}

impl ReleaseView {
    /// The setting where nothing is configured.
    pub open spec fn standard() -> ReleaseView {
        ReleaseView {
            default_branch: "master"@,
            remote: "origin"@,
            tag_format: "{name}-v{version}"@,
        }
    }

    /// The tag for a version of a package.
    pub open spec fn tag(self, name: Seq<char>, version: Seq<char>) -> Seq<char> {
        text::replaced(text::replaced(self.tag_format, "{name}"@, name), "{version}"@, version)
    }

    /// What is in `HEAD` and not in the default branch of the remote.
    pub open spec fn range(self) -> Seq<char> {
        self.remote + "/"@ + self.default_branch + "..HEAD"@
    }
}

/// How releases are cut.
#[derive(Debug)]
pub struct ReleaseConfig {
    pub default_branch: String,
    pub remote: String,
    pub tag_format: String,
}

impl View for ReleaseConfig {
    type V = ReleaseView;

    open spec fn view(&self) -> ReleaseView {
        ReleaseView {
            default_branch: self.default_branch@,
            remote: self.remote@,
            tag_format: self.tag_format@,
        }
    }
}

impl Default for ReleaseConfig {
    fn default() -> (r: Self)
        ensures
            r@ == ReleaseView::standard(),
    {
        ReleaseConfig {
            default_branch: "master".to_owned(),
            remote: "origin".to_owned(),
            tag_format: "{name}-v{version}".to_owned(),
        }
    }
}

impl ReleaseConfig {
    /// The tag for a version of a package.
    #[must_use]
    pub fn format_tag(&self, name: &str, version: &str) -> (r: String)
        ensures
            r@ == self@.tag(name@, version@),
    {
        proof {
            reveal_strlit("{name}");
            reveal_strlit("{version}");
        }
        let named = text::replace(self.tag_format.as_str(), "{name}", name);
        text::replace(named.as_str(), "{version}", version)
    }

    /// What is in `HEAD` and not in the default branch of the remote, as git writes a range.
    #[must_use]
    pub fn commit_range(&self) -> (r: String)
        ensures
            r@ == self@.range(),
    {
        let mut s = self.remote.clone();
        s.append("/");
        s.append(self.default_branch.as_str());
        s.append("..HEAD");
        s
    }
}

/// Where nothing is configured, a tag is the package's name and the version: `name-vversion`.
pub proof fn standard_tags_hold_name_and_version(name: Seq<char>, version: Seq<char>)
    requires
        text::lacks(name, '{'),
    ensures
        ReleaseView::standard().tag(name, version) == name + "-v"@ + version,
{
    reveal_strlit("{name}-v{version}");
    reveal_strlit("{name}");
    reveal_strlit("{version}");
    reveal_strlit("-v");
    let none = Seq::<char>::empty();
    let format = ReleaseView::standard().tag_format;
    let name_slot = "{name}"@;
    let version_slot = "{version}"@;
    let tail = version_slot.drop_first();
    let rest = "-v"@ + version_slot;
    assert(format =~= name_slot + rest);
    text::lemma_replaced_front(rest, name_slot, name);
    text::lemma_replaced_behind("-v"@, version_slot, name_slot, name);
    assert(version_slot[1] != name_slot[1]);
    assert(!name_slot.is_prefix_of(version_slot));
    assert(tail =~= tail + none);
    text::lemma_replaced_behind(tail, none, name_slot, name);
    assert(seq![version_slot[0]] + (tail + none) =~= version_slot);
    assert(text::replaced(version_slot, name_slot, name) =~= version_slot);
    let named = name + rest;
    assert(text::replaced(format, name_slot, name) =~= named);
    assert(named =~= (name + "-v"@) + (version_slot + none));
    text::lemma_replaced_behind(name + "-v"@, version_slot + none, version_slot, version);
    text::lemma_replaced_front(none, version_slot, version);
    assert(version + none =~= version);
    assert((name + "-v"@) + version =~= name + "-v"@ + version);
}

/// How packages still below 1.0.0 are versioned without asking.
#[derive(Debug, Clone, Copy, PartialEq, Eq, Structural)]
pub enum V0Style {
    /// Cargo's reading of 0.x versions: a breaking change bumps minor, everything else patch.
    Cargo,
    /// Apply the mapped bump as it is, like for any package past 1.0.
    Semver,
}

impl Default for V0Style {
    fn default() -> (r: Self)
        ensures
            r == V0Style::Cargo,
    {
        V0Style::Cargo
    }
}

/// What a `BumpsConfig` holds.
#[verifier::ext_equal]
pub struct BumpsView {
    pub v0: V0Style,
    pub major: Seq<Seq<char>>,
    pub minor: Seq<Seq<char>>,
    pub patch: Seq<Seq<char>>,
    pub skip: Seq<Seq<char>>,
}

impl BumpsView {
    /// The setting where nothing is configured.
    pub open spec fn standard() -> BumpsView {
        BumpsView {
            v0: V0Style::Cargo,
            major: Seq::empty(),
            minor: seq!["feat"@],
            patch: seq!["fix"@, "chore"@, "refactor"@, "docs"@],
            skip: Seq::empty(),
        }
    }
}

/// Maps conventional commits to bump levels. Each list holds patterns of the form `type` (any
/// scope) or `type(scope)` (that scope only); a scoped pattern beats a bare one. A breaking change
/// (`!` header marker or `BREAKING CHANGE:` footer) always means a major bump, commits matching
/// `skip` contribute no bump at all, and commits matching nothing fall back to patch.
#[derive(Debug)]
pub struct BumpsConfig {
    pub v0: V0Style,
    pub major: Vec<String>,
    pub minor: Vec<String>,
    pub patch: Vec<String>,
    pub skip: Vec<String>,
}

impl View for BumpsConfig {
    type V = BumpsView;

    open spec fn view(&self) -> BumpsView {
        BumpsView {
            v0: self.v0,
            major: text::texts(self.major@),
            minor: text::texts(self.minor@),
            patch: text::texts(self.patch@),
            skip: text::texts(self.skip@),
        }
    }
}

impl Clone for BumpsConfig {
    fn clone(&self) -> (r: Self)
        ensures
            r@ == self@,
    {
        let r = BumpsConfig {
            v0: self.v0,
            major: self.major.clone(),
            minor: self.minor.clone(),
            patch: self.patch.clone(),
            skip: self.skip.clone(),
        };
        assert(r.major@ =~= self.major@);
        assert(r.minor@ =~= self.minor@);
        assert(r.patch@ =~= self.patch@);
        assert(r.skip@ =~= self.skip@);
        r
    }
}

impl Default for BumpsConfig {
    fn default() -> (r: Self)
        ensures
            r@ == BumpsView::standard(),
    {
        let r = BumpsConfig {
            v0: V0Style::default(),
            major: Vec::new(),
            minor: vec!["feat".to_owned()],
            patch: vec![
                "fix".to_owned(),
                "chore".to_owned(),
                "refactor".to_owned(),
                "docs".to_owned(),
            ],
            skip: Vec::new(),
        };
        assert(r@ =~= BumpsView::standard());
        r
    }
}

/// Narrows which files count as a change to a package, on top of what the workspace layout says.
///
/// Every pattern is a path relative to the package's own directory, not to the repository. That is
/// what lets `exclude = ["benches"]` mean "each package's own benches directory".
#[derive(Debug)]
pub struct TrackingConfig {
    /// Applied to every package.
    pub exclude: Vec<String>,
    /// Puts a path back that a broader `exclude` covers. Not an allowlist: a package tracks its
    /// own directory by default, so listing paths here narrows nothing on its own.
    pub included: Vec<String>,
    /// Applied to one package, keyed by the name that its manifest declares. Adds to the lists
    /// above rather than replacing them. No name occurs twice.
    pub packages: Vec<(String, PackageTracking)>,
}

impl Default for TrackingConfig {
    fn default() -> (r: Self)
        ensures
            text::texts(r.exclude@) == seq!["CHANGELOG.md"@],
            r.included@.len() == 0,
            r.packages@.len() == 0,
    {
        let exclude = vec!["CHANGELOG.md".to_owned()];
        assert(text::texts(exclude@) =~= seq!["CHANGELOG.md"@]);
        TrackingConfig { exclude, included: Vec::new(), packages: Vec::new() }
    }
}

/// What one package adds to the lists of `TrackingConfig`.
#[derive(Debug)]
pub struct PackageTracking {
    pub exclude: Vec<String>,
    pub included: Vec<String>,
}

impl Default for PackageTracking {
    fn default() -> (r: Self)
        ensures
            r.exclude@.len() == 0,
            r.included@.len() == 0,
    {
        PackageTracking { exclude: Vec::new(), included: Vec::new() }
    }
}

/// The forms in which a GitHub remote is written, up to the owner.
pub open spec fn github_prefixes() -> Seq<Seq<char>> {
    seq![
        "git@github.com:"@,
        "ssh://git@github.com/"@,
        "https://github.com/"@,
        "http://github.com/"@,
    ]
}

/// What follows the first of the prefixes that `s` starts with.
pub open spec fn behind_prefix(s: Seq<char>, prefixes: Seq<Seq<char>>) -> Option<Seq<char>>
    decreases prefixes.len(),
{
    if prefixes.len() == 0 {
        None
    } else if prefixes[0].is_prefix_of(s) {
        Some(s.skip(prefixes[0].len() as int))
    } else {
        behind_prefix(s, prefixes.drop_first())
    }
}

/// The owner and the name in the URL of a GitHub remote.
pub open spec fn github_owner_repo(url: Seq<char>) -> Option<(Seq<char>, Seq<char>)> {
    match behind_prefix(text::without_suffixes(url, ".git"@), github_prefixes()) {
        Some(path) => {
            let owner = text::before(path, '/');
            let name = text::after(path, '/');
            if text::first_index(path, '/') < path.len() && owner.len() > 0 && name.len() > 0 {
                Some((owner, name))
            } else {
                None
            }
        },
        None => None,
    }
}

/// Parses `owner/repo` out of a GitHub remote URL, handling both the SSH
/// (`git@github.com:owner/repo.git`) and HTTPS forms.
pub fn parse_github_owner_repo(url: &str) -> (r: Option<(String, String)>)
    ensures
        match r {
            Some((owner, name)) => github_owner_repo(url@) == Some((owner@, name@)),
            None => github_owner_repo(url@) is None,
        },
{
    proof {
        reveal_strlit(".git");
        reveal_with_fuel(behind_prefix, 5);
        let p = github_prefixes();
        assert(p.drop_first()[0] == p[1]);
        assert(p.drop_first().drop_first()[0] == p[2]);
        assert(p.drop_first().drop_first().drop_first()[0] == p[3]);
    }
    let trimmed = text::trim_suffixes(url, ".git");
    let path = match text::strip_prefix(trimmed, "git@github.com:") {
        Some(p) => p,
        None => match text::strip_prefix(trimmed, "ssh://git@github.com/") {
            Some(p) => p,
            None => match text::strip_prefix(trimmed, "https://github.com/") {
                Some(p) => p,
                None => match text::strip_prefix(trimmed, "http://github.com/") {
                    Some(p) => p,
                    None => return None,
                },
            },
        },
    };
    match text::split_once(path, '/') {
        Some((owner, name)) => if owner.is_empty() || name.is_empty() {
            None
        } else {
            Some((owner.to_owned(), name.to_owned()))
        },
        None => None,
    }
}

/// Resolves the GitHub owner and repository name, preferring what is configured and falling back
/// to the URL of the `origin` remote, where there is one.
pub fn resolve_owner_repo(origin: Option<&str>, config: &RepoConfig) -> (r: Result<
    (String, String),
>)
    ensures
        match (config.owner, config.name) {
            (Some(owner), Some(name)) => r is Ok && r->Ok_0.0@ == owner@ && r->Ok_0.1@ == name@,
            _ => match origin {
                None => r matches Err(NotchError::NoOriginUrl),
                Some(url) => match github_owner_repo(url@) {
                    None => r matches Err(NotchError::UnknownRemote(u)) && u@ == url@,
                    Some((owner, name)) => {
                        &&& r is Ok
                        &&& r->Ok_0.0@ == (match config.owner {
                            Some(o) => o@,
                            None => owner,
                        })
                        &&& r->Ok_0.1@ == (match config.name {
                            Some(n) => n@,
                            None => name,
                        })
                    },
                },
            },
        },
{
    match (&config.owner, &config.name) {
        (Some(owner), Some(name)) => {
            return Ok((owner.clone(), name.clone()));
        },
        _ => {},
    }
    let url = match origin {
        Some(url) => url,
        None => return Err(NotchError::NoOriginUrl),
    };
    let (detected_owner, detected_name) = match parse_github_owner_repo(url) {
        Some(pair) => pair,
        None => return Err(NotchError::UnknownRemote(url.to_owned())),
    };
    let owner = match &config.owner {
        Some(owner) => owner.clone(),
        None => detected_owner,
    };
    let name = match &config.name {
        Some(name) => name.clone(),
        None => detected_name,
    };
    Ok((owner, name))
}

/// A slot that is another than the one to replace stays, and replacing goes on behind it.
proof fn lemma_other_slot_stays(
    slot: Seq<char>,
    rest: Seq<char>,
    from: Seq<char>,
    to: Seq<char>,
)
    requires
        slot.len() > 1,
        from.len() > 1,
        slot[1] != from[1],
        text::lacks(slot.drop_first(), from[0]),
    ensures
        text::replaced(slot + rest, from, to) == slot + text::replaced(rest, from, to),
{
    let s = slot + rest;
    assert(s[1] == slot[1]);
    assert(!from.is_prefix_of(s));
    assert(s.drop_first() =~= slot.drop_first() + rest);
    text::lemma_replaced_behind(slot.drop_first(), rest, from, to);
    assert(text::replaced(s, from, to) =~= slot + text::replaced(rest, from, to));
}

/// In a tag, the name and the version stand where the format has their slots, in whatever order and
/// with whatever around them, and everything else stands as in the format.
pub proof fn tags_follow_their_format(
    release: ReleaseView,
    a: Seq<char>,
    b: Seq<char>,
    c: Seq<char>,
    name: Seq<char>,
    version: Seq<char>,
)
    requires
        text::lacks(a, '{'),
        text::lacks(b, '{'),
        text::lacks(c, '{'),
        text::lacks(name, '{'),
    ensures
        release.tag_format == a + "{name}"@ + b + "{version}"@ + c ==> release.tag(name, version)
            == a + name + b + version + c,
        release.tag_format == a + "{version}"@ + b + "{name}"@ + c ==> release.tag(name, version)
            == a + version + b + name + c,
        release.tag_format == a + "{version}"@ + c ==> release.tag(name, version) == a + version + c,
        release.tag_format == a + "{name}"@ + c ==> release.tag(name, version) == a + name + c,
        release.tag_format == a ==> release.tag(name, version) == a,
{
    reveal_strlit("{name}");
    reveal_strlit("{version}");
    let n = "{name}"@;
    let v = "{version}"@;
    lemma_without_slots(a, n, name);
    lemma_without_slots(a, v, version);
    lemma_without_slots(c, n, name);
    lemma_without_slots(c, v, version);
    // the name first
    let named = a + name + b;
    text::lemma_replaced_front(b + (v + c), n, name);
    text::lemma_replaced_behind(a, n + (b + (v + c)), n, name);
    text::lemma_replaced_behind(b, v + c, n, name);
    lemma_other_slot_stays(v, c, n, name);
    assert(a + n + b + v + c =~= a + (n + (b + (v + c))));
    assert(text::replaced(a + n + b + v + c, n, name) =~= named + (v + c));
    text::lemma_replaced_behind(named, v + c, v, version);
    text::lemma_replaced_front(c, v, version);
    assert(named + (version + c) =~= a + name + b + version + c);
    // the version first
    let behind = b + name + c;
    text::lemma_replaced_behind(a, v + (b + (n + c)), n, name);
    lemma_other_slot_stays(v, b + (n + c), n, name);
    text::lemma_replaced_behind(b, n + c, n, name);
    text::lemma_replaced_front(c, n, name);
    assert(a + v + b + n + c =~= a + (v + (b + (n + c))));
    assert(text::replaced(a + v + b + n + c, n, name) =~= a + (v + behind));
    text::lemma_replaced_behind(a, v + behind, v, version);
    text::lemma_replaced_front(behind, v, version);
    lemma_without_slots(behind, v, version);
    assert(a + (version + behind) =~= a + version + b + name + c);
    // one of them
    text::lemma_replaced_behind(a, v + c, n, name);
    assert(a + v + c =~= a + (v + c));
    text::lemma_replaced_behind(a, v + c, v, version);
    assert(a + (version + c) =~= a + version + c);
    text::lemma_replaced_behind(a, n + c, n, name);
    assert(a + n + c =~= a + (n + c));
    assert(a + (name + c) =~= a + name + c);
    lemma_without_slots(a + name + c, v, version);
}

/// Nothing is replaced where no slot starts.
proof fn lemma_without_slots(s: Seq<char>, from: Seq<char>, to: Seq<char>)
    requires
        from.len() > 0,
        text::lacks(s, from[0]),
    ensures
        text::replaced(s, from, to) == s,
{
    let none = Seq::<char>::empty();
    text::lemma_replaced_behind(s, none, from, to);
    assert(s + none =~= s);
}

/// What the four forms of a GitHub remote are told apart by.
proof fn lemma_forms()
    ensures
        "git@github.com:"@.len() > 4 && "git@github.com:"@[0] == 'g',
        "ssh://git@github.com/"@.len() > 4 && "ssh://git@github.com/"@[0] == 's',
        "https://github.com/"@.len() > 4 && "https://github.com/"@[0] == 'h'
            && "https://github.com/"@[4] == 's',
        "http://github.com/"@.len() > 4 && "http://github.com/"@[0] == 'h' && "http://github.com/"@[4]
            == ':',
{
    reveal_strlit("git@github.com:");
    reveal_strlit("ssh://git@github.com/");
    reveal_strlit("https://github.com/");
    reveal_strlit("http://github.com/");
}

/// The owner and the repository are read from every form of a GitHub remote, with and without the
/// `.git` at its end.
pub proof fn github_remotes_name_owner_and_repository(
    form: Seq<char>,
    owner: Seq<char>,
    name: Seq<char>,
)
    requires
        form == "git@github.com:"@ || form == "ssh://git@github.com/"@ || form
            == "https://github.com/"@ || form == "http://github.com/"@,
        owner.len() > 0,
        text::lacks(owner, '/'),
        name.len() > 0,
        !".git"@.is_suffix_of(name),
    ensures
        github_owner_repo(form + owner + "/"@ + name) == Some((owner, name)),
        github_owner_repo(form + owner + "/"@ + name + ".git"@) == Some((owner, name)),
{
    reveal_strlit(".git");
    reveal_strlit("/");
    lemma_forms();
    let path = owner + "/"@ + name;
    let s = form + owner + "/"@ + name;
    let git = ".git"@;
    assert(!git.is_suffix_of(s)) by {
        if git.is_suffix_of(s) {
            let at = s.len() - name.len() - 1;
            assert(s[at] == '/');
            if name.len() >= 4 {
                assert(s.skip(s.len() - 4) =~= name.skip(name.len() - 4));
                assert(git.is_suffix_of(name));
            } else {
                assert(s.skip(s.len() - 4)[at - (s.len() - 4)] == '/');
            }
        }
    }
    text::suffixes_are_all_taken_off(s, git);
    assert(s =~= form + path);
    assert(s.take(form.len() as int) =~= form);
    assert(form.is_prefix_of(s));
    assert(s[0] == form[0] && s[4] == form[4]);
    let p = github_prefixes();
    reveal_with_fuel(behind_prefix, 5);
    assert(p.drop_first()[0] == p[1]);
    assert(p.drop_first().drop_first()[0] == p[2]);
    assert(p.drop_first().drop_first().drop_first()[0] == p[3]);
    assert forall|q: Seq<char>| q.len() > 4 && #[trigger] q.is_prefix_of(s) implies q[0] == s[0]
        && q[4] == s[4] by {
        assert(s.take(q.len() as int)[0] == s[0]);
        assert(s.take(q.len() as int)[4] == s[4]);
    }
    assert(behind_prefix(s, p) == Some(s.skip(form.len() as int)));
    assert(s.skip(form.len() as int) =~= path);
    assert("/"@ =~= seq!['/']);
    text::the_first_separator_splits(owner, '/', name);
}

/// Nothing but a GitHub remote names an owner and a repository: what is read from a URL is what the
/// URL holds behind one of the four forms, up to a `.git` at its end.
pub proof fn only_github_remotes_are_read(url: Seq<char>)
    ensures
        github_owner_repo(url) matches Some((owner, name)) ==> {
            let rest = owner + "/"@ + name;
            &&& owner.len() > 0 && text::lacks(owner, '/')
            &&& name.len() > 0 && !".git"@.is_suffix_of(rest)
            &&& {
                ||| ("git@github.com:"@ + rest).is_prefix_of(url)
                ||| ("ssh://git@github.com/"@ + rest).is_prefix_of(url)
                ||| ("https://github.com/"@ + rest).is_prefix_of(url)
                ||| ("http://github.com/"@ + rest).is_prefix_of(url)
            }
        },
{
    reveal_strlit(".git");
    reveal_strlit("/");
    let s = text::without_suffixes(url, ".git"@);
    text::suffixes_are_all_taken_off(url, ".git"@);
    let p = github_prefixes();
    reveal_with_fuel(behind_prefix, 5);
    assert(p.drop_first()[0] == p[1]);
    assert(p.drop_first().drop_first()[0] == p[2]);
    assert(p.drop_first().drop_first().drop_first()[0] == p[3]);
    match github_owner_repo(url) {
        Some((owner, name)) => {
            let path = behind_prefix(s, p)->0;
            text::lemma_first_index(path, '/');
            assert(path =~= owner + "/"@ + name);
            let i = if p[0].is_prefix_of(s) {
                0int
            } else if p[1].is_prefix_of(s) {
                1int
            } else if p[2].is_prefix_of(s) {
                2int
            } else {
                3int
            };
            assert(p[i].is_prefix_of(s));
            assert(path == s.skip(p[i].len() as int));
            assert(s =~= p[i] + path);
            if ".git"@.is_suffix_of(path) {
                assert(s.skip(s.len() - 4) =~= path.skip(path.len() - 4));
                assert(".git"@.is_suffix_of(s));
            }
        },
        None => {},
    }
}

} // verus!
