//! Semantic versions: what they hold, how they are written and read, and how they compare.
use crate::error::{NotchError, Result};
use crate::text;
use cargo_metadata::semver;
use vstd::prelude::*;

verus! {

/// What a version holds.
#[verifier::ext_equal]
pub struct VersionView {
    pub major: u64,
    pub minor: u64,
    pub patch: u64,
    pub pre: Seq<char>,
    pub build: Seq<char>,
}

/// A character that an identifier can hold.
pub open spec fn is_identifier_char(c: char) -> bool {
    text::is_alphanumeric(c) || c == '-'
}

/// A number of more than one digit that starts with a zero.
pub open spec fn has_leading_zero(part: Seq<char>) -> bool {
    part.len() > 1 && part[0] == '0' && forall|i: int|
        0 <= i < part.len() ==> text::is_digit(#[trigger] part[i])
}

/// Empty, or identifiers with dots between them.
pub open spec fn are_identifiers(s: Seq<char>) -> bool {
    s.len() == 0 || forall|i: int|
        0 <= i < text::pieces(s, '.').len() ==> is_identifier(#[trigger] text::pieces(s, '.')[i])
}

/// One identifier: at least one character, all of them letters, digits or hyphens.
pub open spec fn is_identifier(part: Seq<char>) -> bool {
    part.len() > 0 && forall|i: int| 0 <= i < part.len() ==> is_identifier_char(#[trigger] part[i])
}

/// Identifiers of which none is a number with a leading zero.
pub open spec fn is_prerelease(s: Seq<char>) -> bool {
    &&& are_identifiers(s)
    &&& s.len() > 0 ==> forall|i: int|
        0 <= i < text::pieces(s, '.').len() ==> !has_leading_zero(#[trigger] text::pieces(s, '.')[i])
}

impl VersionView {
    /// The pre-release and the build metadata are ones that a version can have.
    pub open spec fn valid(self) -> bool {
        is_prerelease(self.pre) && are_identifiers(self.build)
    }

    /// How the version is written.
    pub open spec fn text(self) -> Seq<char> {
        self.numbers_text() + (if self.pre.len() > 0 {
            seq!['-'] + self.pre
        } else {
            Seq::empty()
        }) + (if self.build.len() > 0 {
            seq!['+'] + self.build
        } else {
            Seq::empty()
        })
    }

    /// How the three numbers are written.
    pub open spec fn numbers_text(self) -> Seq<char> {
        text::decimal(self.major as nat) + seq!['.'] + text::decimal(self.minor as nat) + seq!['.']
            + text::decimal(self.patch as nat)
    }

    /// Whether two versions have the same three numbers.
    pub open spec fn same_numbers(self, other: VersionView) -> bool {
        self.major == other.major && self.minor == other.minor && self.patch == other.patch
    }

    /// The order of the three numbers, from left to right.
    pub open spec fn numbers_less(self, other: VersionView) -> bool {
        if self.major != other.major {
            self.major < other.major
        } else if self.minor != other.minor {
            self.minor < other.minor
        } else {
            self.patch < other.patch
        }
    }
}

/// The version that is written as the text, where there is one.
pub open spec fn version_of(text: Seq<char>) -> Option<VersionView> {
    if exists|v: VersionView| v.valid() && #[trigger] v.text() == text {
        Some(choose|v: VersionView| v.valid() && #[trigger] v.text() == text)
    } else {
        None
    }
}

/// A version is what its text is read as.
pub proof fn versions_read_back(version: VersionView)
    requires
        version.valid(),
    ensures
        version_of(version.text()) == Some(version),
{
    let text = version.text();
    assert(version.valid() && version.text() == text);
    let read = choose|v: VersionView| v.valid() && #[trigger] v.text() == text;
    written_versions_are_unambiguous(read, version);
}

/// The order of versions that `cargo_metadata::semver::Version` has.
pub uninterp spec fn version_less(a: VersionView, b: VersionView) -> bool;

/// Whether a version comes before another: by the numbers, from left to right; among equal numbers
/// a pre-release comes before the release; and among pre-releases, or where the build metadata
/// alone differs, by the order that `cargo_metadata::semver` has.
pub open spec fn comes_before(a: VersionView, b: VersionView) -> bool {
    if !a.same_numbers(b) {
        a.numbers_less(b)
    } else if (a.pre.len() == 0) != (b.pre.len() == 0) {
        a.pre.len() > 0
    } else {
        a != b && version_less(a, b)
    }
}

/// Whether the text, read by `cargo_metadata::semver::VersionReq::parse`, is a requirement that
/// the version matches; `None` where the text is no requirement.
pub uninterp spec fn requirement_admits(requirement: Seq<char>, version: VersionView) -> Option<
    bool,
>;

/// A character that can stand before a version in a requirement that is easy to rewrite.
pub open spec fn is_operator(c: char) -> bool {
    c == '^' || c == '~' || c == '='
}

/// Whether the text starts with an operator and has another, or a bound, right behind it.
pub open spec fn doubles_operator(requirement: Seq<char>) -> bool {
    let s = text::trimmed(requirement);
    s.len() > 1 && is_operator(s[0]) && (is_operator(s[1]) || s[1] == '>' || s[1] == '<')
}

/// Whether the text is a requirement that spells the version out: an operator of at most one
/// character, and the whole version or, where it is no pre-release, its first one or two numbers.
pub open spec fn restates(requirement: Seq<char>, version: VersionView) -> bool {
    exists|operator: Seq<char>|
        {
            &&& operator.len() == 0 || operator.len() == 1 && is_operator(operator[0])
            &&& #[trigger] spells(requirement, operator, version)
        }
}

/// Whether the text is the operator and the whole version or, where it is no pre-release, its
/// first one or two numbers.
pub open spec fn spells(
    requirement: Seq<char>,
    operator: Seq<char>,
    version: VersionView,
) -> bool {
    ||| requirement == operator + version.text()
    ||| version.pre.len() == 0 && requirement == operator + text::decimal(version.major as nat)
    ||| version.pre.len() == 0 && requirement == operator + (text::decimal(version.major as nat)
        + seq!['.'] + text::decimal(version.minor as nat))
}

/// A semantic version.
#[derive(Debug, PartialEq, Eq)]
pub struct Version {
    major: u64,
    minor: u64,
    patch: u64,
    pre: String,
    build: String,
}

impl View for Version {
    type V = VersionView;

    closed spec fn view(&self) -> VersionView {
        VersionView {
            major: self.major,
            minor: self.minor,
            patch: self.patch,
            pre: self.pre@,
            build: self.build@,
        }
    }
}

impl Clone for Version {
    fn clone(&self) -> (r: Self)
        ensures
            r == *self,
    {
        proof {
            use_type_invariant(self);
        }
        Version {
            major: self.major,
            minor: self.minor,
            patch: self.patch,
            pre: self.pre.clone(),
            build: self.build.clone(),
        }
    }
}

/// The error of `cargo_metadata::semver`, which is carried and never looked into.
#[verifier::external_type_specification]
#[verifier::external_body]
pub struct ExSemverError(cargo_metadata::semver::Error);

/// `cargo_metadata::semver::Version::parse`: reads a version, and succeeds exactly on the texts
/// that some version is written as. (It gives up on an identifier of more than 2^56 bytes, which
/// no process can hold.)
#[verifier::external_body]
fn parse_semver(text: &str) -> (r: core::result::Result<Version, semver::Error>)
    ensures
        match r {
            Ok(version) => version@.valid() && version@.text() == text@,
            Err(_) => forall|v: VersionView| v.valid() ==> #[trigger] v.text() != text@,
        },
{
    let v = semver::Version::parse(text)?;
    Ok(
        Version {
            major: v.major,
            minor: v.minor,
            patch: v.patch,
            pre: v.pre.as_str().to_owned(),
            build: v.build.as_str().to_owned(),
        },
    )
}

/// `<` of `cargo_metadata::semver::Version`: compares the numbers from left to right, then the
/// pre-releases, of which none is greatest, then the build metadata. Of two versions that differ
/// exactly one is less than the other, and none is less than itself.
#[verifier::external_body]
fn semver_less(a: &Version, b: &Version) -> (r: bool)
    requires
        a@.valid(),
        b@.valid(),
    ensures
        r == version_less(a@, b@),
        !a@.same_numbers(b@) ==> r == a@.numbers_less(b@),
        a@.same_numbers(b@) && a@.pre.len() > 0 && b@.pre.len() == 0 ==> r,
        a@.same_numbers(b@) && a@.pre.len() == 0 && b@.pre.len() > 0 ==> !r,
        r ==> a@ != b@ && !version_less(b@, a@),
        !r && a@ != b@ ==> version_less(b@, a@),
{
    let left = semver::Version {
        pre: semver::Prerelease::new(a.pre.as_str()).unwrap(),
        build: semver::BuildMetadata::new(a.build.as_str()).unwrap(),
        ..semver::Version::new(a.major, a.minor, a.patch)
    };
    let right = semver::Version {
        pre: semver::Prerelease::new(b.pre.as_str()).unwrap(),
        build: semver::BuildMetadata::new(b.build.as_str()).unwrap(),
        ..semver::Version::new(b.major, b.minor, b.patch)
    };
    left < right
}

/// `cargo_metadata::semver::VersionReq::parse` and `VersionReq::matches`: reads the text as a
/// requirement and tells whether the version matches it, or `None` where the text is no
/// requirement. A version matches the requirements that spell it out. After one operator comes a
/// number, so a text with two in a row is no requirement.
#[verifier::external_body]
fn semver_admits(requirement: &str, version: &Version) -> (r: Option<bool>)
    requires
        version@.valid(),
    ensures
        r == requirement_admits(requirement@, version@),
        restates(requirement@, version@) ==> r == Some(true),
        doubles_operator(requirement@) ==> r is None,
{
    let v = semver::Version {
        pre: semver::Prerelease::new(version.pre.as_str()).unwrap(),
        build: semver::BuildMetadata::new(version.build.as_str()).unwrap(),
        ..semver::Version::new(version.major, version.minor, version.patch)
    };
    match semver::VersionReq::parse(requirement) {
        Ok(r) => Some(r.matches(&v)),
        Err(_) => None,
    }
}

impl Version {
    #[verifier::type_invariant]
    spec fn well_formed(self) -> bool {
        self@.valid()
    }

    /// Reads a version.
    pub fn parse(text: &str) -> (r: Result<Version>)
        ensures
            match r {
                Ok(version) => {
                    &&& version_of(text@) == Some(version@)
                    &&& version@.valid()
                    &&& version@.text() == text@
                },
                Err(e) => {
                    &&& version_of(text@) is None
                    &&& e matches NotchError::InvalidVersion(t) && t@ == text@
                },
            },
    {
        match parse_semver(text) {
            Ok(version) => {
                proof {
                    versions_read_back(version@);
                }
                Ok(version)
            },
            Err(_) => Err(NotchError::InvalidVersion(text.to_owned())),
        }
    }

    /// The version with these numbers and nothing else.
    pub fn new(major: u64, minor: u64, patch: u64) -> (r: Version)
        ensures
            r@ == (VersionView { major, minor, patch, pre: Seq::empty(), build: Seq::empty() }),
    {
        Version { major, minor, patch, pre: String::new(), build: String::new() }
    }

    /// The first number.
    pub fn major(&self) -> (r: u64)
        ensures
            r == self@.major,
    {
        self.major
    }

    /// The second number.
    pub fn minor(&self) -> (r: u64)
        ensures
            r == self@.minor,
    {
        self.minor
    }

    /// The third number.
    pub fn patch(&self) -> (r: u64)
        ensures
            r == self@.patch,
    {
        self.patch
    }

    /// Whether the version is a pre-release.
    pub fn is_prerelease(&self) -> (r: bool)
        ensures
            r == (self@.pre.len() > 0),
    {
        !self.pre.as_str().is_empty()
    }

    /// The version with other numbers and the same pre-release and build metadata.
    pub(crate) fn with_numbers(&self, major: u64, minor: u64, patch: u64) -> (r: Version)
        ensures
            r@ == (VersionView { major, minor, patch, ..self@ }),
    {
        proof {
            use_type_invariant(self);
        }
        Version { major, minor, patch, pre: self.pre.clone(), build: self.build.clone() }
    }

    /// How the version is written.
    pub fn to_string(&self) -> (r: String)
        ensures
            r@ == self@.text(),
    {
        let mut s = text::decimal_of(self.major);
        s.push('.');
        s.append(text::decimal_of(self.minor).as_str());
        s.push('.');
        s.append(text::decimal_of(self.patch).as_str());
        if !self.pre.as_str().is_empty() {
            s.push('-');
            s.append(self.pre.as_str());
        }
        if !self.build.as_str().is_empty() {
            s.push('+');
            s.append(self.build.as_str());
        }
        assert(s@ == self@.text());
        s
    }

    /// Whether this version comes before the other.
    pub fn less(&self, other: &Version) -> (r: bool)
        ensures
            r == comes_before(self@, other@),
            r ==> self@ != other@ && !comes_before(other@, self@),
            !r && self@ != other@ ==> comes_before(other@, self@),
    {
        proof {
            use_type_invariant(self);
            use_type_invariant(other);
        }
        semver_less(self, other)
    }

    /// Whether the version matches a requirement; `None` where the text is no requirement.
    pub fn admitted_by(&self, requirement: &str) -> (r: Option<bool>)
        ensures
            r == requirement_admits(requirement@, self@),
            restates(requirement@, self@) ==> r == Some(true),
            doubles_operator(requirement@) ==> r is None,
    {
        proof {
            use_type_invariant(self);
        }
        semver_admits(requirement, self)
    }
}

/// Digits that are followed by something else, or by nothing, end in one place only.
proof fn lemma_digits_end(p: Seq<char>, s: Seq<char>, q: Seq<char>, t: Seq<char>)
    requires
        p + s == q + t,
        forall|i: int| 0 <= i < p.len() ==> text::is_digit(#[trigger] p[i]),
        forall|i: int| 0 <= i < q.len() ==> text::is_digit(#[trigger] q[i]),
        s.len() > 0 ==> !text::is_digit(s[0]),
        t.len() > 0 ==> !text::is_digit(t[0]),
    ensures
        p == q,
        s == t,
{
    assert((p + s).len() == p.len() + s.len());
    assert((q + t).len() == q.len() + t.len());
    if p.len() < q.len() {
        let k = p.len() as int;
        assert(s[0] == (p + s)[k]);
        assert(text::is_digit(q[k]));
    } else if q.len() < p.len() {
        let k = q.len() as int;
        assert(t[0] == (q + t)[k]);
        assert(text::is_digit(p[k]));
    } else {
        assert(p =~= (p + s).take(p.len() as int));
        assert(q =~= (q + t).take(q.len() as int));
        assert(s =~= (p + s).skip(p.len() as int));
        assert(t =~= (q + t).skip(q.len() as int));
    }
}

/// Identifiers hold letters, digits, hyphens and dots only.
proof fn lemma_identifier_chars(s: Seq<char>)
    requires
        are_identifiers(s),
    ensures
        forall|i: int| 0 <= i < s.len() ==> is_identifier_char(#[trigger] s[i]) || s[i] == '.',
{
    if s.len() > 0 {
        let parts = text::pieces(s, '.');
        assert forall|i: int, j: int| 0 <= i < parts.len() && 0 <= j < parts[i].len() implies (|c|
            is_identifier_char(c))(#[trigger] parts[i][j]) by {
            assert(is_identifier(parts[i]));
        }
        text::lemma_all_by_pieces(s, '.', |c| is_identifier_char(c));
        assert forall|i: int| 0 <= i < s.len() implies is_identifier_char(#[trigger] s[i]) || s[i]
            == '.' by {
            assert(s[i] == '.' || (|c| is_identifier_char(c))(s[i]));
        }
    }
}

/// A character that a version can be written with.
pub open spec fn is_version_char(c: char) -> bool {
    is_identifier_char(c) || c == '.' || c == '+'
}

/// A version is written with letters, digits, hyphens, dots and plus signs only.
pub proof fn lemma_version_chars(v: VersionView)
    requires
        v.valid(),
    ensures
        v.text().len() > 0,
        forall|i: int| 0 <= i < v.text().len() ==> is_version_char(#[trigger] v.text()[i]),
{
    text::lemma_decimal_digits(v.major as nat);
    text::lemma_decimal_digits(v.minor as nat);
    text::lemma_decimal_digits(v.patch as nat);
    lemma_identifier_chars(v.pre);
    lemma_identifier_chars(v.build);
    let t = v.numbers_text();
    assert(t.len() > 0);
    assert forall|i: int| 0 <= i < t.len() implies is_version_char(#[trigger] t[i]) by {
        let (x, y, z) = (
            text::decimal(v.major as nat),
            text::decimal(v.minor as nat),
            text::decimal(v.patch as nat),
        );
        let (m, n) = (x.len() as int, y.len() as int);
        if i < m {
            assert(t[i] == x[i]);
        } else if m < i < m + 1 + n {
            assert(t[i] == y[i - m - 1]);
        } else if i > m + 1 + n {
            assert(t[i] == z[i - m - n - 2]);
        }
    }
    let p = v.pre_text();
    let b = v.build_text();
    assert(v.text() == t + p + b);
    assert forall|i: int| 0 <= i < v.text().len() implies is_version_char(
        #[trigger] v.text()[i],
    ) by {
        if i < t.len() {
            assert(v.text()[i] == t[i]);
        } else if i < t.len() + p.len() {
            assert(v.text()[i] == p[i - t.len()]);
            if i > t.len() {
                assert(p[i - t.len()] == v.pre[i - t.len() - 1]);
            }
        } else {
            let k = i - t.len() - p.len();
            assert(v.text()[i] == b[k]);
            if k > 0 {
                assert(b[k] == v.build[k - 1]);
            }
        }
    }
}

impl VersionView {
    /// What is written behind the numbers.
    spec fn suffix(self) -> Seq<char> {
        self.pre_text() + self.build_text()
    }

    spec fn pre_text(self) -> Seq<char> {
        if self.pre.len() > 0 {
            seq!['-'] + self.pre
        } else {
            Seq::empty()
        }
    }

    spec fn build_text(self) -> Seq<char> {
        if self.build.len() > 0 {
            seq!['+'] + self.build
        } else {
            Seq::empty()
        }
    }
}

/// What is written behind the numbers says which pre-release and build metadata the version has.
proof fn lemma_suffix_injective(a: VersionView, b: VersionView)
    requires
        a.valid(),
        b.valid(),
        a.suffix() == b.suffix(),
    ensures
        a.pre == b.pre,
        a.build == b.build,
{
    lemma_identifier_chars(a.pre);
    lemma_identifier_chars(b.pre);
    let s = a.suffix();
    text::lemma_first_index_unique(s, '+', a.pre_text().len() as int);
    text::lemma_first_index_unique(s, '+', b.pre_text().len() as int);
    assert(a.pre_text() =~= s.take(a.pre_text().len() as int));
    assert(b.pre_text() =~= s.take(b.pre_text().len() as int));
    assert(a.build_text() =~= s.skip(a.pre_text().len() as int));
    assert(b.build_text() =~= s.skip(b.pre_text().len() as int));
    if a.pre.len() > 0 {
        assert(a.pre =~= a.pre_text().drop_first());
        assert(b.pre =~= b.pre_text().drop_first());
    } else {
        assert(a.pre =~= b.pre);
    }
    if a.build.len() > 0 {
        assert(a.build =~= a.build_text().drop_first());
        assert(b.build =~= b.build_text().drop_first());
    } else {
        assert(a.build =~= b.build);
    }
}

/// A version is written as its numbers, from left to right, and the suffix.
proof fn lemma_text_shape(v: VersionView)
    ensures
        v.text() == text::decimal(v.major as nat) + (seq!['.'] + (text::decimal(v.minor as nat) + (
        seq!['.'] + (text::decimal(v.patch as nat) + v.suffix())))),
{
    assert(v.text() == v.numbers_text() + v.pre_text() + v.build_text());
    let (x, y, z) = (
        text::decimal(v.major as nat),
        text::decimal(v.minor as nat),
        text::decimal(v.patch as nat),
    );
    let dot = seq!['.'];
    let (p, b) = (v.pre_text(), v.build_text());
    assert(x + dot + y + dot + z + p + b =~= x + (dot + (y + (dot + (z + (p + b))))));
}

/// Two numbers that are each followed by a dot and something more, and are written alike, are the
/// same, and so is what follows.
proof fn lemma_number_before_dot(m: nat, s: Seq<char>, n: nat, t: Seq<char>)
    requires
        text::decimal(m) + (seq!['.'] + s) == text::decimal(n) + (seq!['.'] + t),
    ensures
        m == n,
        s == t,
{
    text::lemma_decimal_digits(m);
    text::lemma_decimal_digits(n);
    lemma_digits_end(text::decimal(m), seq!['.'] + s, text::decimal(n), seq!['.'] + t);
    text::lemma_decimal_injective(m, n);
    assert((seq!['.'] + s).drop_first() =~= s);
    assert((seq!['.'] + t).drop_first() =~= t);
}

/// A version is written in a way that no other version is: what is written reads back as itself.
pub proof fn written_versions_are_unambiguous(a: VersionView, b: VersionView)
    requires
        a.valid(),
        b.valid(),
        a.text() == b.text(),
    ensures
        a == b,
{
    lemma_text_shape(a);
    lemma_text_shape(b);
    let (y, z) = (text::decimal(a.minor as nat), text::decimal(a.patch as nat));
    let (v, w) = (text::decimal(b.minor as nat), text::decimal(b.patch as nat));
    let (a3, b3) = (z + a.suffix(), w + b.suffix());
    lemma_number_before_dot(
        a.major as nat,
        y + (seq!['.'] + a3),
        b.major as nat,
        v + (seq!['.'] + b3),
    );
    lemma_number_before_dot(a.minor as nat, a3, b.minor as nat, b3);
    text::lemma_decimal_digits(a.patch as nat);
    text::lemma_decimal_digits(b.patch as nat);
    lemma_digits_end(z, a.suffix(), w, b.suffix());
    text::lemma_decimal_injective(a.patch as nat, b.patch as nat);
    lemma_suffix_injective(a, b);
}

/// The first number in which two versions differ decides which comes before; where the numbers are
/// the same, a pre-release comes before the release.
pub proof fn the_first_different_number_decides(a: VersionView, b: VersionView)
    ensures
        a.major < b.major ==> comes_before(a, b) && !comes_before(b, a),
        a.major == b.major && a.minor < b.minor ==> comes_before(a, b) && !comes_before(b, a),
        a.major == b.major && a.minor == b.minor && a.patch < b.patch ==> comes_before(a, b)
            && !comes_before(b, a),
        a.major == b.major && a.minor == b.minor && a.patch == b.patch && a.pre.len() > 0
            && b.pre.len() == 0 ==> comes_before(a, b) && !comes_before(b, a),
        !comes_before(a, a),
{
}

/// A version is written as its three numbers with dots between them, then the pre-release behind a
/// hyphen and the build metadata behind a plus sign, where it has them.
pub proof fn versions_are_written_in_full(v: VersionView)
    ensures
        v.pre.len() == 0 && v.build.len() == 0 ==> v.text() == v.numbers_text(),
        v.pre.len() > 0 && v.build.len() == 0 ==> v.text() == v.numbers_text() + seq!['-'] + v.pre,
        v.pre.len() == 0 && v.build.len() > 0 ==> v.text() == v.numbers_text() + seq!['+']
            + v.build,
        v.pre.len() > 0 && v.build.len() > 0 ==> v.text() == v.numbers_text() + seq!['-'] + v.pre
            + seq!['+'] + v.build,
        text::pieces(v.numbers_text(), '.') == seq![
            text::decimal(v.major as nat),
            text::decimal(v.minor as nat),
            text::decimal(v.patch as nat),
        ],
{
    let none = Seq::<char>::empty();
    assert(v.numbers_text() + none + none =~= v.numbers_text());
    assert(v.numbers_text() + (seq!['-'] + v.pre) + none =~= v.numbers_text() + seq!['-'] + v.pre);
    assert(v.numbers_text() + none + (seq!['+'] + v.build) =~= v.numbers_text() + seq!['+']
        + v.build);
    assert(v.numbers_text() + (seq!['-'] + v.pre) + (seq!['+'] + v.build) =~= v.numbers_text()
        + seq!['-'] + v.pre + seq!['+'] + v.build);
    let numbers = seq![
        text::decimal(v.major as nat),
        text::decimal(v.minor as nat),
        text::decimal(v.patch as nat),
    ];
    text::lemma_decimal_digits(v.major as nat);
    text::lemma_decimal_digits(v.minor as nat);
    text::lemma_decimal_digits(v.patch as nat);
    assert forall|i: int| 0 <= i < numbers.len() implies text::lacks(#[trigger] numbers[i], '.') by {
        assert forall|k: int| 0 <= k < numbers[i].len() implies #[trigger] numbers[i][k] != '.' by {
            assert(text::is_digit(numbers[i][k]));
        }
    }
    text::split_undoes_join(numbers, '.');
    reveal_with_fuel(text::joined, 3);
    assert(numbers.drop_last() =~= seq![numbers[0], numbers[1]]);
    assert(numbers.drop_last().drop_last() =~= seq![numbers[0]]);
    assert(text::joined(numbers, seq!['.']) =~= v.numbers_text());
}

/// What a version can have as its pre-release or build metadata: identifiers of letters, digits and
/// hyphens with dots between them, none of them empty.
pub proof fn identifiers_hold_letters_digits_and_hyphens(parts: Seq<Seq<char>>)
    requires
        parts.len() > 0,
        forall|i: int| 0 <= i < parts.len() ==> text::lacks(#[trigger] parts[i], '.'),
        parts.len() > 1 || parts[0].len() > 0,
    ensures
        are_identifiers(text::joined(parts, seq!['.'])) <==> forall|i: int|
            0 <= i < parts.len() ==> {
                &&& (#[trigger] parts[i]).len() > 0
                &&& forall|k: int|
                    0 <= k < parts[i].len() ==> {
                        let c = #[trigger] parts[i][k];
                        '0' <= c <= '9' || 'a' <= c <= 'z' || 'A' <= c <= 'Z' || c == '-'
                    }
            },
{
    let s = text::joined(parts, seq!['.']);
    text::split_undoes_join(parts, '.');
    assert(s.len() > 0) by {
        if parts.len() > 1 {
            text::joining_goes_part_by_part(parts.drop_last(), seq![parts.last()], seq!['.']);
            assert(parts.drop_last() + seq![parts.last()] =~= parts);
        }
    }
    assert forall|i: int| 0 <= i < parts.len() implies is_identifier(#[trigger] parts[i]) == ({
        &&& parts[i].len() > 0
        &&& forall|k: int|
            0 <= k < parts[i].len() ==> {
                let c = #[trigger] parts[i][k];
                '0' <= c <= '9' || 'a' <= c <= 'z' || 'A' <= c <= 'Z' || c == '-'
            }
    }) by {
        if is_identifier(parts[i]) {
            assert forall|k: int| 0 <= k < parts[i].len() implies ({
                let c = #[trigger] parts[i][k];
                '0' <= c <= '9' || 'a' <= c <= 'z' || 'A' <= c <= 'Z' || c == '-'
            }) by {
                assert(is_identifier_char(parts[i][k]));
            }
        }
    }
}

/// A version is restated by its whole text and, unless it is a pre-release, by its first number or
/// its first two; with a caret, a tilde or an equals sign before it, or nothing.
pub proof fn versions_restate_themselves(version: VersionView, operator: Seq<char>)
    requires
        operator.len() == 0 || operator == seq!['^'] || operator == seq!['~'] || operator == seq![
            '=',
        ],
    ensures
        restates(operator + version.text(), version),
        version.pre.len() == 0 ==> restates(
            operator + text::decimal(version.major as nat),
            version,
        ),
        version.pre.len() == 0 ==> restates(
            operator + (text::decimal(version.major as nat) + seq!['.'] + text::decimal(
                version.minor as nat,
            )),
            version,
        ),
{
    let major = text::decimal(version.major as nat);
    let both = major + seq!['.'] + text::decimal(version.minor as nat);
    assert(spells(operator + version.text(), operator, version));
    if version.pre.len() == 0 {
        assert(spells(operator + major, operator, version));
        assert(spells(operator + both, operator, version));
    }
}

/// Nothing but that restates a version.
pub proof fn nothing_else_restates_a_version(requirement: Seq<char>, version: VersionView)
    requires
        restates(requirement, version),
    ensures
        exists|n: int|
            {
                let rest = #[trigger] requirement.skip(n);
                &&& n == 0 || n == 1 && (requirement[0] == '^' || requirement[0] == '~'
                    || requirement[0] == '=')
                &&& {
                    ||| rest == version.text()
                    ||| version.pre.len() == 0 && rest == text::decimal(version.major as nat)
                    ||| version.pre.len() == 0 && rest == text::decimal(version.major as nat)
                        + seq!['.'] + text::decimal(version.minor as nat)
                }
            },
{
    let operator = choose|operator: Seq<char>|
        {
            &&& operator.len() == 0 || operator.len() == 1 && is_operator(operator[0])
            &&& #[trigger] spells(requirement, operator, version)
        };
    let n = operator.len() as int;
    let rest = requirement.skip(n);
    let major = text::decimal(version.major as nat);
    let both = major + seq!['.'] + text::decimal(version.minor as nat);
    if requirement == operator + version.text() {
        assert(rest =~= version.text());
    } else if requirement == operator + major {
        assert(rest =~= major);
    } else {
        assert(rest =~= both);
    }
    if n == 1 {
        text::lemma_decimal_digits(version.major as nat);
        assert(requirement[0] == operator[0]);
    }
}

/// Two operators in a row, or an operator and a bound, are told apart from one, whatever whitespace
/// stands around the requirement.
pub proof fn doubled_operators_are_noticed(
    first: char,
    second: char,
    rest: Seq<char>,
    before: Seq<char>,
    behind: Seq<char>,
)
    requires
        forall|i: int| 0 <= i < before.len() ==> text::is_whitespace(#[trigger] before[i]),
        forall|i: int| 0 <= i < behind.len() ==> text::is_whitespace(#[trigger] behind[i]),
        !text::is_whitespace(first),
        rest.len() > 0,
        !text::is_whitespace(rest.last()),
    ensures
        doubles_operator(before + (seq![first, second] + rest) + behind) <==> {
            &&& first == '^' || first == '~' || first == '='
            &&& second == '^' || second == '~' || second == '=' || second == '>' || second == '<'
        },
{
    let s = seq![first, second] + rest;
    assert(s.last() == rest.last());
    text::lemma_trimmed_around(before, s, behind);
}

/// A text is read as a version exactly if a valid version is written as it, and then as that one.
pub proof fn only_written_versions_are_read(text: Seq<char>)
    ensures
        version_of(text) matches Some(v) ==> v.valid() && v.text() == text,
        version_of(text) is None ==> forall|v: VersionView| v.valid() ==> #[trigger] v.text()
            != text,
{
    if version_of(text) is Some {
        let v = choose|v: VersionView| v.valid() && #[trigger] v.text() == text;
        assert(v.valid() && v.text() == text);
    }
}

/// A pre-release is made of identifiers of which none is a number with a zero in front; a zero
/// alone, or one in front of a letter, is fine.
pub proof fn prerelease_numbers_have_no_leading_zero(parts: Seq<Seq<char>>)
    requires
        parts.len() > 0,
        forall|i: int| 0 <= i < parts.len() ==> text::lacks(#[trigger] parts[i], '.'),
        are_identifiers(text::joined(parts, seq!['.'])),
        parts.len() > 1 || parts[0].len() > 0,
    ensures
        is_prerelease(text::joined(parts, seq!['.'])) <==> forall|i: int|
            0 <= i < parts.len() ==> {
                ||| (#[trigger] parts[i]).len() == 1
                ||| parts[i][0] != '0'
                ||| exists|k: int| 0 <= k < parts[i].len() && !text::is_digit(#[trigger] parts[i][k])
            },
{
    let s = text::joined(parts, seq!['.']);
    text::split_undoes_join(parts, '.');
    identifiers_hold_letters_digits_and_hyphens(parts);
    assert(s.len() > 0) by {
        if parts.len() > 1 {
            text::joining_goes_part_by_part(parts.drop_last(), seq![parts.last()], seq!['.']);
            assert(parts.drop_last() + seq![parts.last()] =~= parts);
        }
    }
    assert forall|i: int| 0 <= i < parts.len() implies has_leading_zero(#[trigger] parts[i]) == !({
        ||| parts[i].len() == 1
        ||| parts[i][0] != '0'
        ||| exists|k: int| 0 <= k < parts[i].len() && !text::is_digit(#[trigger] parts[i][k])
    }) by {
        assert(parts[i].len() > 0);
    }
}

} // verus!
