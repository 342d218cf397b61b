//! What can go wrong.
use crate::text;
use vstd::prelude::*;

verus! {

/// The errors of this library.
#[derive(Debug, PartialEq, Eq)]
pub enum NotchError {
    /// The text is not a version.
    InvalidVersion(String),
    /// There is no `origin` remote, or it has no URL that is valid UTF-8.
    NoOriginUrl,
    /// The owner and the repository name cannot be read off the URL of the remote.
    UnknownRemote(String),
    /// A command without a program to run.
    EmptyCommand,
    /// A command ended with this exit code, or without one.
    CommandFailed(Option<i32>),
    /// No GitHub token is configured.
    NoToken,
    /// There are no updated packages to open a pull request for.
    NothingUpdated,
    /// An HTTPS remote needs the GitHub token, and none is configured.
    TokenNeeded,
    /// The remote offers no way to authenticate that is supported.
    NoAuthMethod,
    /// The branch has no name that is valid UTF-8.
    NoBranchName,
    /// The answer is not a number.
    NotANumber(String),
    /// The number is none of those offered.
    NotAnOption(usize),
    /// The manifest could not be backed up.
    BackupFailed,
    /// The manifest could not be written, and was put back.
    WriteFailed,
    /// A commit has no parent to compare it with.
    NoParent(String),
    /// The file has changes that are not committed.
    DirtyFile(String),
    /// A package is at an older version than before.
    OlderVersion,
    /// The text is no TOML document with a `version` at its top.
    NoVersion,
    /// The manifest of a package that is to be bumped is not there.
    MissingManifest(String),
    /// The manifest is no TOML document.
    InvalidManifest(String),
    /// The manifest has no `[package]` table.
    NoPackageTable(String),
    /// The manifest declares no `[package] version`.
    NoPackageVersion(String),
    /// The manifest inherits its version from `[workspace.package]`.
    InheritedVersion(String),
    /// The manifest's version is not a value.
    VersionNotValue(String),
    /// The manifest's version is not a string.
    VersionNotString(String),
    /// The manifest is at another version than the one that is bumped.
    OutOfSync { manifest: String, expected: String, found: String },
}

/// An exit code, as far as there was one.
pub open spec fn exit_code(code: Option<i32>) -> Seq<char> {
    match code {
        None => "None"@,
        Some(n) => if n < 0 {
            "Some(-"@ + text::decimal((-n) as nat) + ")"@
        } else {
            "Some("@ + text::decimal(n as nat) + ")"@
        },
    }
}

/// An exit code, as far as there was one.
fn write_exit_code(code: Option<i32>) -> (r: String)
    ensures
        r@ == exit_code(code),
{
    match code {
        None => "None".to_owned(),
        Some(n) => {
            let mut s = (if n < 0 {
                "Some(-"
            } else {
                "Some("
            }).to_owned();
            let size: i64 = if n < 0 {
                -(n as i64)
            } else {
                n as i64
            };
            s.append(text::decimal_of(size as u64).as_str());
            s.append(")");
            s
        },
    }
}

impl NotchError {
    /// What is said of the error.
    pub open spec fn said(self) -> Seq<char> {
        match self {
            NotchError::InvalidVersion(v) => "not a version: "@ + v@,
            NotchError::NoOriginUrl => "there is no origin remote with a url"@,
            NotchError::UnknownRemote(url) => "could not parse owner/repo from remote url: "@ + url@,
            NotchError::EmptyCommand => "Command is empty"@,
            NotchError::CommandFailed(code) => "Command did not succeed: "@ + exit_code(code),
            NotchError::NoToken => "No token provided"@,
            NotchError::NothingUpdated => "No updated crates, shouldn't be creating a PR!"@,
            NotchError::TokenNeeded => "authenticating to an https remote needs the github token (NOTCH__REPO__TOKEN)"@,
            NotchError::NoAuthMethod => "remote offered no supported auth method (ssh-agent for ssh remotes, token for https)"@,
            NotchError::NoBranchName => "branch name is not valid utf-8"@,
            NotchError::NotANumber(answer) => "not a number: "@ + answer@,
            NotchError::NotAnOption(_) => "Not a valid selection"@,
            NotchError::BackupFailed => "Copy cargo.toml did not succeed"@,
            NotchError::WriteFailed => "write updated back"@,
            NotchError::NoParent(id) => "no parent of commit "@ + id@,
            NotchError::DirtyFile(path) => path@ + " is dirty, please commit the changes and try again"@,
            NotchError::OlderVersion => "New version is older than the old version"@,
            NotchError::NoVersion => "no version in the manifest"@,
            NotchError::MissingManifest(path) => "there is no manifest to bump at "@ + path@,
            NotchError::InvalidManifest(path) => "could not parse "@ + path@,
            NotchError::NoPackageTable(path) => path@ + " has no [package] table"@,
            NotchError::NoPackageVersion(path) => path@ + " declares no `[package] version` to bump"@,
            NotchError::InheritedVersion(path) => path@ + " inherits its version from `[workspace.package]`; notch can't bump a single member of a workspace that shares one version across all of them"@,
            NotchError::VersionNotValue(path) => path@ + "'s version is not a value"@,
            NotchError::VersionNotString(path) => path@ + "'s `[package] version` is not a string"@,
            NotchError::OutOfSync { manifest, expected, found } => "expected "@ + manifest@ + " to be at version `"@ + expected@ + "`, but it's `"@ + found@ + "` on disk — the version notch is bumping from is out of sync with what's actually there"@,
        }
    }

    /// What is said of the error.
    pub fn message(&self) -> (r: String)
        ensures
            r@ == self.said(),
    {
        match self {
            NotchError::InvalidVersion(v) => {
                let mut s = "not a version: ".to_owned();
                s.append(v.as_str());
                s
            },
            NotchError::NoOriginUrl => "there is no origin remote with a url".to_owned(),
            NotchError::UnknownRemote(url) => {
                let mut s = "could not parse owner/repo from remote url: ".to_owned();
                s.append(url.as_str());
                s
            },
            NotchError::EmptyCommand => "Command is empty".to_owned(),
            NotchError::CommandFailed(code) => {
                let mut s = "Command did not succeed: ".to_owned();
                s.append(write_exit_code(*code).as_str());
                s
            },
            NotchError::NoToken => "No token provided".to_owned(),
            NotchError::NothingUpdated => "No updated crates, shouldn't be creating a PR!".to_owned(),
            NotchError::TokenNeeded => "authenticating to an https remote needs the github token (NOTCH__REPO__TOKEN)".to_owned(),
            NotchError::NoAuthMethod => "remote offered no supported auth method (ssh-agent for ssh remotes, token for https)".to_owned(),
            NotchError::NoBranchName => "branch name is not valid utf-8".to_owned(),
            NotchError::NotANumber(answer) => {
                let mut s = "not a number: ".to_owned();
                s.append(answer.as_str());
                s
            },
            NotchError::NotAnOption(_) => "Not a valid selection".to_owned(),
            NotchError::BackupFailed => "Copy cargo.toml did not succeed".to_owned(),
            NotchError::WriteFailed => "write updated back".to_owned(),
            NotchError::NoParent(id) => {
                let mut s = "no parent of commit ".to_owned();
                s.append(id.as_str());
                s
            },
            NotchError::DirtyFile(path) => {
                let mut s = path.clone();
                s.append(" is dirty, please commit the changes and try again");
                s
            },
            NotchError::OlderVersion => "New version is older than the old version".to_owned(),
            NotchError::NoVersion => "no version in the manifest".to_owned(),
            NotchError::MissingManifest(path) => {
                let mut s = "there is no manifest to bump at ".to_owned();
                s.append(path.as_str());
                s
            },
            NotchError::InvalidManifest(path) => {
                let mut s = "could not parse ".to_owned();
                s.append(path.as_str());
                s
            },
            NotchError::NoPackageTable(path) => {
                let mut s = path.clone();
                s.append(" has no [package] table");
                s
            },
            NotchError::NoPackageVersion(path) => {
                let mut s = path.clone();
                s.append(" declares no `[package] version` to bump");
                s
            },
            NotchError::InheritedVersion(path) => {
                let mut s = path.clone();
                s.append(" inherits its version from `[workspace.package]`; notch can't bump a single member of a workspace that shares one version across all of them");
                s
            },
            NotchError::VersionNotValue(path) => {
                let mut s = path.clone();
                s.append("'s version is not a value");
                s
            },
            NotchError::VersionNotString(path) => {
                let mut s = path.clone();
                s.append("'s `[package] version` is not a string");
                s
            },
            NotchError::OutOfSync { manifest, expected, found } => {
                let mut s = "expected ".to_owned();
                s.append(manifest.as_str());
                s.append(" to be at version `");
                s.append(expected.as_str());
                s.append("`, but it's `");
                s.append(found.as_str());
                s.append("` on disk — the version notch is bumping from is out of sync with what's actually there");
                s
            },
        }
    }
}

/// The result of an operation that can fail.
pub type Result<T> = core::result::Result<T, NotchError>;

/// What is said of an error names everything that the error holds, but for a number that is no
/// option.
pub proof fn errors_name_what_they_are_about(error: NotchError)
    ensures
        match error {
            NotchError::InvalidVersion(t)
            | NotchError::UnknownRemote(t)
            | NotchError::NotANumber(t)
            | NotchError::NoParent(t)
            | NotchError::MissingManifest(t)
            | NotchError::InvalidManifest(t) => t@.is_suffix_of(error.said()),
            NotchError::DirtyFile(t)
            | NotchError::NoPackageTable(t)
            | NotchError::NoPackageVersion(t)
            | NotchError::InheritedVersion(t)
            | NotchError::VersionNotValue(t)
            | NotchError::VersionNotString(t) => t@.is_prefix_of(error.said()),
            NotchError::CommandFailed(code) => exit_code(code).is_suffix_of(error.said()),
            NotchError::OutOfSync { manifest, expected, found } => exists|
                a: Seq<char>,
                b: Seq<char>,
                c: Seq<char>,
                d: Seq<char>,
            |
                error.said() == #[trigger] (a + manifest@ + b + expected@ + c + found@ + d),
            _ => true,
        },
{
    let said = error.said();
    match error {
        NotchError::InvalidVersion(t)
        | NotchError::UnknownRemote(t)
        | NotchError::NotANumber(t)
        | NotchError::NoParent(t)
        | NotchError::MissingManifest(t)
        | NotchError::InvalidManifest(t) => {
            assert(said.skip(said.len() - t@.len()) =~= t@);
        },
        NotchError::DirtyFile(t)
        | NotchError::NoPackageTable(t)
        | NotchError::NoPackageVersion(t)
        | NotchError::InheritedVersion(t)
        | NotchError::VersionNotValue(t)
        | NotchError::VersionNotString(t) => {
            assert(said.take(t@.len() as int) =~= t@);
        },
        NotchError::CommandFailed(code) => {
            assert(said.skip(said.len() - exit_code(code).len()) =~= exit_code(code));
        },
        _ => {},
    }
}

/// Different exit codes are written differently.
pub proof fn exit_codes_are_told_apart(a: Option<i32>, b: Option<i32>)
    requires
        exit_code(a) == exit_code(b),
    ensures
        a == b,
{
    reveal_strlit("None");
    reveal_strlit("Some(-");
    reveal_strlit("Some(");
    reveal_strlit(")");
    let size = |n: i32|
        if n < 0 {
            (-n) as nat
        } else {
            n as nat
        };
    let (s, t) = (exit_code(a), exit_code(b));
    match (a, b) {
        (Some(m), Some(n)) => {
            let (p, q) = (text::decimal(size(m)), text::decimal(size(n)));
            text::lemma_decimal_digits(size(m));
            text::lemma_decimal_digits(size(n));
            assert(text::is_digit(p[0]) && text::is_digit(q[0]));
            let at = if m < 0 {
                6int
            } else {
                5int
            };
            assert(s[5] == t[5]);
            assert(m < 0 <==> n < 0);
            assert(p =~= s.subrange(at, s.len() - 1));
            assert(q =~= t.subrange(at, t.len() - 1));
            text::lemma_decimal_injective(size(m), size(n));
        },
        (None, Some(_)) | (Some(_), None) => {
            assert(s[0] == t[0]);
        },
        (None, None) => {},
    }
}

} // verus!
