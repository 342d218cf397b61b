//! Packages, and which files count as changes to them.
use crate::text;
use crate::version::{Version, VersionView};
use vstd::prelude::*;

verus! {

/// A part of a path that names something: neither empty nor the current directory.
pub open spec fn is_name(part: Seq<char>) -> bool {
    part.len() > 0 && part != "."@
}

/// The parts that name something, in order.
pub open spec fn names(parts: Seq<Seq<char>>) -> Seq<Seq<char>>
    decreases parts.len(),
{
    if parts.len() == 0 {
        Seq::empty()
    } else if is_name(parts.last()) {
        names(parts.drop_last()).push(parts.last())
    } else {
        names(parts.drop_last())
    }
}

/// The components of a path: what stands between the slashes, without repeated slashes and
/// without `.`, except for a `.` at the front. A path from the root starts with the component `/`.
pub open spec fn components(path: Seq<char>) -> Seq<Seq<char>> {
    let parts = text::pieces(path, '/');
    let front = if path.len() > 0 && path[0] == '/' {
        seq!["/"@]
    } else if parts[0] == "."@ {
        seq!["."@]
    } else {
        Seq::empty()
    };
    front + names(parts)
}

/// Whether a path lies under a prefix, compared by whole components.
pub open spec fn is_under(path: Seq<char>, prefix: Seq<char>) -> bool {
    components(prefix).is_prefix_of(components(path))
}

/// How many components a path has.
pub open spec fn depth(path: Seq<char>) -> nat {
    components(path).len()
}

/// The strings that the slices hold.
pub open spec fn slices(v: Seq<&str>) -> Seq<Seq<char>> {
    Seq::new(v.len(), |i: int| v[i]@)
}

/// The components of a path.
pub fn path_components<'a>(path: &'a str) -> (r: Vec<&'a str>)
    ensures
        slices(r@) == components(path@),
{
    let parts = text::split(path, '/');
    let ghost all = text::pieces(path@, '/');
    let mut out: Vec<&'a str> = Vec::new();
    let n: usize = path.unicode_len();
    if n > 0 && path.get_char(0) == '/' {
        out.push("/");
    } else if text::same(parts[0], ".") {
        out.push(".");
    }
    let ghost front = slices(out@);
    let mut i: usize = 0;
    assert(names(all.take(0)) == Seq::<Seq<char>>::empty());
    while i < parts.len()
        invariant
            i <= parts@.len() == all.len(),
            forall|j: int| 0 <= j < parts@.len() ==> (#[trigger] parts@[j])@ == all[j],
            slices(out@) == front + names(all.take(i as int)),
        decreases parts@.len() - i,
    {
        assert(all.take(i + 1).drop_last() == all.take(i as int));
        assert(all.take(i + 1).last() == parts@[i as int]@);
        let ghost so_far = slices(out@);
        if !parts[i].is_empty() && !text::same(parts[i], ".") {
            out.push(parts[i]);
            assert(slices(out@) == so_far.push(parts@[i as int]@));
        }
        i += 1;
    }
    assert(all.take(i as int) == all);
    out
}

/// Whether the components of a path start with those of a prefix.
fn starts_with_components(path: &Vec<&str>, prefix: &Vec<&str>) -> (r: bool)
    ensures
        r == slices(prefix@).is_prefix_of(slices(path@)),
{
    if prefix.len() > path.len() {
        return false;
    }
    let ghost long = slices(path@);
    let ghost short = slices(prefix@);
    let mut i: usize = 0;
    while i < prefix.len()
        invariant
            i <= prefix@.len() <= path@.len(),
            long == slices(path@),
            short == slices(prefix@),
            forall|j: int| 0 <= j < i ==> short[j] == #[trigger] long[j],
        decreases prefix@.len() - i,
    {
        if !text::same(path[i], prefix[i]) {
            assert(short[i as int] != long[i as int]);
            return false;
        }
        assert(short[i as int] == long[i as int]);
        i += 1;
    }
    assert(long.take(short.len() as int) =~= short);
    true
}

/// Whether two paths have the same components.
pub fn same_path(a: &str, b: &str) -> (r: bool)
    ensures
        r == (components(a@) == components(b@)),
{
    let x = path_components(a);
    let y = path_components(b);
    let r = x.len() == y.len() && starts_with_components(&x, &y);
    proof {
        assert(slices(x@).len() == x@.len());
        assert(slices(y@).len() == y@.len());
        if x@.len() == y@.len() {
            assert(slices(x@).take(slices(y@).len() as int) =~= slices(x@));
            assert(slices(y@).is_prefix_of(slices(x@)) == (slices(y@) == slices(x@)));
        }
    }
    r
}

/// Whether a path lies under a prefix.
pub fn lies_under(path: &str, prefix: &str) -> (r: bool)
    ensures
        r == is_under(path@, prefix@),
{
    starts_with_components(&path_components(path), &path_components(prefix))
}

/// The repository-relative paths that a package considers its own: everything under `owned`,
/// minus anything under `excluded`.
///
/// Both lists are matched as prefixes by whole path components: `crates/ab` does not lie under
/// `crates/a`. Where the two lists overlap, the more specific prefix wins.
#[derive(Debug)]
pub struct PathSpec {
    owned: Vec<String>,
    excluded: Vec<String>,
}

/// What a `PathSpec` holds.
#[verifier::ext_equal]
pub struct PathView {
    pub owned: Seq<Seq<char>>,
    pub excluded: Seq<Seq<char>>,
}

impl PathView {
    /// Whether the file lies under an owned prefix that is deeper than every excluded prefix
    /// which the file lies under.
    pub open spec fn covers(self, file: Seq<char>) -> bool {
        exists|t: int|
            0 <= t < self.owned.len() && is_under(file, #[trigger] self.owned[t]) && (forall|
                e: int,
            |
                0 <= e < self.excluded.len() && is_under(file, #[trigger] self.excluded[e])
                    ==> depth(self.excluded[e]) < depth(self.owned[t]))
    }

    /// Everything under a directory, where `.` is the whole repository.
    pub open spec fn of_directory(dir: Seq<char>) -> PathView {
        PathView {
            owned: seq![
                if dir == "."@ {
                    Seq::empty()
                } else {
                    dir
                },
            ],
            excluded: Seq::empty(),
        }
    }

    /// With a path carved out; the empty path, which would take everything, changes nothing.
    pub open spec fn excluding(self, path: Seq<char>) -> PathView {
        if path.len() == 0 {
            self
        } else {
            PathView { excluded: self.excluded.push(path), ..self }
        }
    }

    /// With a path put in; the empty path, which would put in everything, changes nothing.
    pub open spec fn tracking(self, path: Seq<char>) -> PathView {
        if path.len() == 0 {
            self
        } else {
            PathView { owned: self.owned.push(path), ..self }
        }
    }
}

impl View for PathSpec {
    type V = PathView;

    closed spec fn view(&self) -> PathView {
        PathView { owned: text::texts(self.owned@), excluded: text::texts(self.excluded@) }
    }
}

impl Clone for PathSpec {
    fn clone(&self) -> (r: Self)
        ensures
            r@ == self@,
    {
        let r = PathSpec { owned: self.owned.clone(), excluded: self.excluded.clone() };
        assert(r.owned@ =~= self.owned@);
        assert(r.excluded@ =~= self.excluded@);
        r
    }
}

impl Default for PathSpec {
    fn default() -> (r: Self)
        ensures
            r@ == (PathView { owned: Seq::empty(), excluded: Seq::empty() }),
    {
        let r = PathSpec { owned: Vec::new(), excluded: Vec::new() };
        assert(r@ =~= (PathView { owned: Seq::empty(), excluded: Seq::empty() }));
        r
    }
}

/// The greatest number of components among the prefixes that the file lies under.
fn most_specific(prefixes: &Vec<String>, file: &str) -> (r: Option<usize>)
    ensures
        match r {
            Some(n) => {
                let all = text::texts(prefixes@);
                &&& exists|i: int|
                    0 <= i < all.len() && is_under(file@, #[trigger] all[i]) && depth(all[i]) == n
                &&& forall|i: int|
                    0 <= i < all.len() && is_under(file@, #[trigger] all[i]) ==> depth(all[i]) <= n
            },
            None => forall|i: int|
                0 <= i < prefixes@.len() ==> !is_under(
                    file@,
                    #[trigger] text::texts(prefixes@)[i],
                ),
        },
{
    let ghost all = text::texts(prefixes@);
    let parts = path_components(file);
    let mut best: Option<usize> = None;
    let mut i: usize = 0;
    while i < prefixes.len()
        invariant
            i <= prefixes@.len(),
            all == text::texts(prefixes@),
            slices(parts@) == components(file@),
            match best {
                Some(n) => {
                    &&& exists|j: int|
                        0 <= j < i && is_under(file@, #[trigger] all[j]) && depth(all[j]) == n
                    &&& forall|j: int|
                        0 <= j < i && is_under(file@, #[trigger] all[j]) ==> depth(all[j]) <= n
                },
                None => forall|j: int| 0 <= j < i ==> !is_under(file@, #[trigger] all[j]),
            },
        decreases prefixes@.len() - i,
    {
        let prefix = path_components(prefixes[i].as_str());
        assert(all[i as int] == prefixes@[i as int]@);
        assert(slices(prefix@).len() == prefix@.len());
        if starts_with_components(&parts, &prefix) {
            let deeper = match best {
                Some(n) => n < prefix.len(),
                None => true,
            };
            if deeper {
                best = Some(prefix.len());
            }
        }
        i += 1;
    }
    best
}

impl PathSpec {
    /// Everything under `dir`, with nothing excluded yet.
    ///
    /// The repository root is spelled `"."` by `Package::path` but becomes the empty path here,
    /// which every relative path lies under.
    pub fn rooted_at(dir: &str) -> (r: Self)
        ensures
            r@ == PathView::of_directory(dir@),
    {
        let root = if text::same(dir, ".") {
            String::new()
        } else {
            dir.to_owned()
        };
        let r = PathSpec { owned: vec![root], excluded: Vec::new() };
        assert(r@ =~= PathView::of_directory(dir@));
        r
    }

    /// Carves `path` out of what the package tracks.
    pub fn exclude(&mut self, path: &str)
        ensures
            final(self)@ == old(self)@.excluding(path@),
    {
        if !path.is_empty() {
            self.excluded.push(path.to_owned());
            assert(text::texts(self.excluded@) =~= old(self)@.excluded.push(path@));
        }
    }

    /// Carves `path` back into what the package tracks, out from under any exclude covering it.
    pub fn track(&mut self, path: &str)
        ensures
            final(self)@ == old(self)@.tracking(path@),
    {
        if !path.is_empty() {
            self.owned.push(path.to_owned());
            assert(text::texts(self.owned@) =~= old(self)@.owned.push(path@));
        }
    }

    /// Whether a change to `file` counts as a change to the package: the most specific prefix
    /// wins, whichever list it came from, and the same path in both lists is excluded.
    pub fn matches(&self, file: &str) -> (r: bool)
        ensures
            r == self@.covers(file@),
    {
        let owned = most_specific(&self.owned, file);
        let excluded = most_specific(&self.excluded, file);
        let ghost spec = self@;
        match (owned, excluded) {
            (Some(o), Some(e)) => {
                proof {
                    if o > e {
                        let t = choose|i: int|
                            0 <= i < spec.owned.len() && is_under(file@, #[trigger] spec.owned[i])
                                && depth(spec.owned[i]) == o;
                        assert(is_under(file@, spec.owned[t]));
                    } else {
                        let x = choose|i: int|
                            0 <= i < spec.excluded.len() && is_under(
                                file@,
                                #[trigger] spec.excluded[i],
                            ) && depth(spec.excluded[i]) == e;
                        assert(is_under(file@, spec.excluded[x]));
                    }
                }
                o > e
            },
            (Some(o), None) => {
                proof {
                    let t = choose|i: int|
                        0 <= i < spec.owned.len() && is_under(file@, #[trigger] spec.owned[i])
                            && depth(spec.owned[i]) == o;
                    assert(is_under(file@, spec.owned[t]));
                    assert(spec.excluded == text::texts(self.excluded@));
                }
                true
            },
            (None, _) => {
                assert(spec.owned == text::texts(self.owned@));
                false
            },
        }
    }
}

/// A package of the workspace.
#[derive(Debug)]
pub struct Package {
    /// Repository-relative directory containing the package's manifest.
    pub path: String,
    /// The package's actual name, as its manifest declares it.
    pub name: String,
    pub version: Version,
    /// Repository-relative path to the manifest file that the version lives in.
    pub manifest: String,
    /// Which files count as changes to the package.
    pub paths: PathSpec,
}

/// What a `Package` holds.
#[verifier::ext_equal]
pub struct PackageView {
    pub path: Seq<char>,
    pub name: Seq<char>,
    pub version: VersionView,
    pub manifest: Seq<char>,
    pub paths: PathView,
}

impl View for Package {
    type V = PackageView;

    open spec fn view(&self) -> PackageView {
        PackageView {
            path: self.path@,
            name: self.name@,
            version: self.version@,
            manifest: self.manifest@,
            paths: self.paths@,
        }
    }
}

impl Clone for Package {
    fn clone(&self) -> (r: Self)
        ensures
            r@ == self@,
    {
        Package {
            path: self.path.clone(),
            name: self.name.clone(),
            version: self.version.clone(),
            manifest: self.manifest.clone(),
            paths: self.paths.clone(),
        }
    }
}

impl PartialEq for Package {
    /// A package is identified by its manifest, and nothing else: exactly one package is defined
    /// per manifest file, and unlike the version it does not change in a run.
    fn eq(&self, other: &Self) -> (r: bool) {
        same_path(self.manifest.as_str(), other.manifest.as_str())
    }
}

impl vstd::std_specs::cmp::PartialEqSpecImpl for Package {
    open spec fn obeys_eq_spec() -> bool {
        true
    }

    open spec fn eq_spec(&self, other: &Self) -> bool {
        components(self.manifest@) == components(other.manifest@)
    }
}

impl Eq for Package {

}

impl std::hash::Hash for Package {
    fn hash<H: std::hash::Hasher>(&self, state: &mut H) {
        let parts = path_components(self.manifest.as_str());
        let mut i: usize = 0;
        while i < parts.len()
            decreases parts.len() - i,
        {
            hash_part(parts[i], state);
            i += 1;
        }
    }
}

/// `str::hash`: feeds the text to the hasher.
#[verifier::external_body]
fn hash_part<H: std::hash::Hasher>(part: &str, state: &mut H) {
    std::hash::Hash::hash(part, state)
}

/// A file of the package at `path`, relative to the repository root.
pub open spec fn joined_path(path: Seq<char>, file: Seq<char>) -> Seq<char> {
    if path == "."@ {
        file
    } else {
        path + "/"@ + file
    }
}

/// A file of the package at `path`, relative to the repository root. The root itself is `"."`,
/// and a leading `./` is not a path that git takes.
pub fn join_path(path: &str, file: &str) -> (r: String)
    ensures
        r@ == joined_path(path@, file@),
{
    if text::same(path, ".") {
        file.to_owned()
    } else {
        let mut s = path.to_owned();
        s.append("/");
        s.append(file);
        s
    }
}

impl Package {
    /// A package tracking everything under `path`.
    pub fn new(path: String, name: String, version: Version, manifest: String) -> (r: Self)
        ensures
            r@ == (PackageView {
                path: path@,
                name: name@,
                version: version@,
                manifest: manifest@,
                paths: PathView::of_directory(path@),
            }),
    {
        let paths = PathSpec::rooted_at(path.as_str());
        Package { path, name, version, manifest, paths }
    }

    /// A file of the package, relative to the repository root.
    pub fn join(&self, file: &str) -> (r: String)
        ensures
            r@ == joined_path(self.path@, file@),
    {
        join_path(self.path.as_str(), file)
    }

    /// Whether a change to `file` counts as a change to the package.
    pub fn tracks(&self, file: &str) -> (r: bool)
        ensures
            r == self.paths@.covers(file@),
    {
        self.paths.matches(file)
    }
}

/// The place of a component among the kinds: the root, `.`, `..`, and names.
pub open spec fn component_rank(c: Seq<char>) -> nat {
    if c == "/"@ {
        0
    } else if c == "."@ {
        1
    } else if c == ".."@ {
        2
    } else {
        3
    }
}

/// Whether one component comes before another.
pub open spec fn component_less(a: Seq<char>, b: Seq<char>) -> bool {
    if component_rank(a) != component_rank(b) {
        component_rank(a) < component_rank(b)
    } else {
        text::text_less(a, b)
    }
}

/// Whether one path comes before another, component by component.
pub open spec fn path_less(a: Seq<Seq<char>>, b: Seq<Seq<char>>) -> bool
    decreases a.len(),
{
    if b.len() == 0 {
        false
    } else if a.len() == 0 {
        true
    } else if a[0] != b[0] {
        component_less(a[0], b[0])
    } else {
        path_less(a.drop_first(), b.drop_first())
    }
}

/// Of two different paths exactly one comes before the other, and none comes before itself.
pub proof fn path_order_is_total(a: Seq<Seq<char>>, b: Seq<Seq<char>>)
    ensures
        path_less(a, b) ==> a != b && !path_less(b, a),
        !path_less(a, b) && !path_less(b, a) ==> a == b,
    decreases a.len(),
{
    if a.len() > 0 && b.len() > 0 {
        text::text_order_is_total(a[0], b[0]);
        path_order_is_total(a.drop_first(), b.drop_first());
        if a[0] == b[0] && a.drop_first() == b.drop_first() {
            assert(a =~= seq![a[0]] + a.drop_first());
            assert(b =~= seq![b[0]] + b.drop_first());
        }
    } else if a.len() == 0 && b.len() == 0 {
        assert(a =~= b);
    }
}

/// The order of paths is transitive.
pub proof fn path_order_is_transitive(a: Seq<Seq<char>>, b: Seq<Seq<char>>, c: Seq<Seq<char>>)
    requires
        path_less(a, b),
        path_less(b, c),
    ensures
        path_less(a, c),
    decreases a.len(),
{
    if a.len() > 0 {
        text::text_order_is_total(a[0], b[0]);
        text::text_order_is_total(b[0], c[0]);
        if a[0] == b[0] && b[0] == c[0] {
            path_order_is_transitive(a.drop_first(), b.drop_first(), c.drop_first());
        } else if a[0] != b[0] && b[0] != c[0] {
            if component_rank(a[0]) == component_rank(b[0]) && component_rank(b[0])
                == component_rank(c[0]) {
                text::text_order_is_transitive(a[0], b[0], c[0]);
            }
            text::text_order_is_total(a[0], c[0]);
        }
    }
}

/// The place of a component among the kinds.
fn rank_of(c: &str) -> (r: u8)
    ensures
        r == component_rank(c@),
{
    if text::same(c, "/") {
        0
    } else if text::same(c, ".") {
        1
    } else if text::same(c, "..") {
        2
    } else {
        3
    }
}

/// Whether one path comes before another, component by component.
pub fn path_before(a: &str, b: &str) -> (r: bool)
    ensures
        r == path_less(components(a@), components(b@)),
{
    let x = path_components(a);
    let y = path_components(b);
    let ghost p = slices(x@);
    let ghost q = slices(y@);
    let mut i: usize = 0;
    assert(p.skip(0) =~= p);
    assert(q.skip(0) =~= q);
    while i < x.len() && i < y.len() && text::same(x[i], y[i])
        invariant
            i <= x@.len(),
            i <= y@.len(),
            p == slices(x@),
            q == slices(y@),
            path_less(p, q) == path_less(p.skip(i as int), q.skip(i as int)),
        decreases x@.len() - i,
    {
        assert(p.skip(i as int)[0] == x@[i as int]@);
        assert(q.skip(i as int)[0] == y@[i as int]@);
        assert(p.skip(i as int).drop_first() =~= p.skip(i + 1));
        assert(q.skip(i as int).drop_first() =~= q.skip(i + 1));
        i += 1;
    }
    if i == y.len() {
        false
    } else if i == x.len() {
        true
    } else {
        assert(p.skip(i as int)[0] == x@[i as int]@);
        assert(q.skip(i as int)[0] == y@[i as int]@);
        let (m, n) = (rank_of(x[i]), rank_of(y[i]));
        if m != n {
            m < n
        } else {
            text::less(x[i], y[i])
        }
    }
}

/// What the paths are, by their components.
pub open spec fn path_list(paths: Seq<String>) -> Seq<Seq<Seq<char>>> {
    Seq::new(paths.len(), |i: int| components(paths[i]@))
}

/// The paths are in order, and none occurs twice.
pub open spec fn is_ascending(paths: Seq<Seq<Seq<char>>>) -> bool {
    forall|i: int, j: int|
        0 <= i < j < paths.len() ==> path_less(#[trigger] paths[i], #[trigger] paths[j])
}

/// Puts a path into an ordered list, unless it is there already.
pub fn insert_path(paths: &mut Vec<String>, path: String)
    requires
        is_ascending(path_list(old(paths)@)),
    ensures
        is_ascending(path_list(final(paths)@)),
        forall|p: Seq<Seq<char>>| #[trigger]
            path_list(final(paths)@).contains(p) <==> path_list(old(paths)@).contains(p) || p
                == components(path@),
{
    let ghost before = path_list(paths@);
    let ghost k = components(path@);
    let mut at: usize = paths.len();
    while at > 0 && path_before(path.as_str(), paths[at - 1].as_str())
        invariant
            at <= paths@.len(),
            before == path_list(paths@),
            k == components(path@),
            forall|j: int| at <= j < paths@.len() ==> path_less(k, #[trigger] before[j]),
        decreases at,
    {
        assert(before[at - 1] == components(paths@[at - 1]@));
        at -= 1;
    }
    if at > 0 && same_path(path.as_str(), paths[at - 1].as_str()) {
        assert(before[at - 1] == k);
        return;
    }
    proof {
        let after = before.insert(at as int, k);
        before.insert_ensures(at as int, k);
        assert(path_list(paths@.insert(at as int, path)) =~= after);
        if at > 0 {
            assert(before[at - 1] == components(paths@[at - 1]@));
            path_order_is_total(before[at - 1], k);
        }
        assert forall|i: int, j: int| 0 <= i < j < after.len() implies path_less(
            #[trigger] after[i],
            #[trigger] after[j],
        ) by {
            if j == at {
                assert(after[i] == before[i]);
                if i < at - 1 {
                    path_order_is_transitive(before[i], before[at - 1], k);
                }
            } else if i == at {
                assert(after[j] == before[j - 1]);
            } else if j < at {
                assert(after[i] == before[i] && after[j] == before[j]);
            } else {
                assert(after[j] == before[j - 1]);
                if i < at {
                    assert(after[i] == before[i]);
                } else {
                    assert(after[i] == before[i - 1]);
                }
            }
        }
        assert forall|p: Seq<Seq<char>>| #[trigger] after.contains(p) <==> before.contains(p) || p
            == k by {
            if before.contains(p) {
                let i = choose|i: int| 0 <= i < before.len() && before[i] == p;
                if i < at {
                    assert(after[i] == p);
                } else {
                    assert(after[i + 1] == p);
                }
            }
            if p == k {
                assert(after[at as int] == p);
            }
            if after.contains(p) && p != k {
                let i = choose|i: int| 0 <= i < after.len() && after[i] == p;
                if i < at {
                    assert(before[i] == p);
                } else {
                    assert(before[i - 1] == p);
                }
            }
        }
    }
    paths.insert(at, path);
}

/// Of two prefixes of one file, the deeper lies under the other: which of them is more specific is
/// never in doubt.
pub proof fn prefixes_of_one_file_are_nested(file: Seq<char>, a: Seq<char>, b: Seq<char>)
    requires
        is_under(file, a),
        is_under(file, b),
        depth(a) <= depth(b),
    ensures
        is_under(b, a),
        depth(a) == depth(b) ==> components(a) == components(b),
{
    let parts = components(file);
    assert(components(a) =~= parts.take(depth(a) as int));
    assert(components(b) =~= parts.take(depth(b) as int));
    assert(components(b).take(depth(a) as int) =~= components(a));
}

/// The order in which paths were put in or carved out does not matter.
pub proof fn pattern_order_does_not_matter(a: PathView, b: PathView, file: Seq<char>)
    requires
        forall|p: Seq<char>| a.owned.contains(p) == b.owned.contains(p),
        forall|p: Seq<char>| a.excluded.contains(p) == b.excluded.contains(p),
    ensures
        a.covers(file) == b.covers(file),
{
    if a.covers(file) {
        lemma_covers_by_members(a, b, file);
    }
    if b.covers(file) {
        lemma_covers_by_members(b, a, file);
    }
}

/// What one list of paths covers, another with the same members covers too.
proof fn lemma_covers_by_members(a: PathView, b: PathView, file: Seq<char>)
    requires
        forall|p: Seq<char>| a.owned.contains(p) == b.owned.contains(p),
        forall|p: Seq<char>| a.excluded.contains(p) == b.excluded.contains(p),
        a.covers(file),
    ensures
        b.covers(file),
{
    let t = choose|t: int|
        0 <= t < a.owned.len() && is_under(file, #[trigger] a.owned[t]) && (forall|e: int|
            0 <= e < a.excluded.len() && is_under(file, #[trigger] a.excluded[e]) ==> depth(
                a.excluded[e],
            ) < depth(a.owned[t]));
    assert(a.owned.contains(a.owned[t]));
    let u = choose|u: int| 0 <= u < b.owned.len() && b.owned[u] == a.owned[t];
    assert(is_under(file, b.owned[u]));
    assert forall|e: int|
        0 <= e < b.excluded.len() && is_under(file, #[trigger] b.excluded[e]) implies depth(
        b.excluded[e],
    ) < depth(b.owned[u]) by {
        assert(b.excluded.contains(b.excluded[e]));
        let d = choose|d: int| 0 <= d < a.excluded.len() && a.excluded[d] == b.excluded[e];
        assert(is_under(file, a.excluded[d]));
    }
}

/// A package at the root tracks every file.
pub proof fn a_root_package_covers_everything(file: Seq<char>)
    ensures
        PathView::of_directory("."@).covers(file),
{
    let spec = PathView::of_directory("."@);
    let root = Seq::<char>::empty();
    assert(text::pieces(root, '/') =~= seq![root]) by {
        text::lemma_pieces_single(root, '/');
    }
    reveal_strlit(".");
    reveal_with_fuel(names, 2);
    assert(components(root) =~= Seq::empty());
    assert(is_under(file, spec.owned[0]));
}

/// A package tracks exactly the files under its own directory, as long as nothing is carved out.
pub proof fn a_package_covers_its_own_directory(dir: Seq<char>, file: Seq<char>)
    requires
        dir != "."@,
    ensures
        PathView::of_directory(dir).covers(file) == is_under(file, dir),
{
    let spec = PathView::of_directory(dir);
    assert(spec.owned[0] == dir);
}

/// Carving a path out never brings a file in, and takes out every file under it that no deeper
/// path keeps in.
pub proof fn excluding_takes_out(spec: PathView, path: Seq<char>, file: Seq<char>)
    ensures
        spec.excluding(path).covers(file) ==> spec.covers(file),
        path.len() > 0 && is_under(file, path) && (forall|t: int|
            0 <= t < spec.owned.len() && is_under(file, #[trigger] spec.owned[t]) ==> depth(
                spec.owned[t],
            ) <= depth(path)) ==> !spec.excluding(path).covers(file),
{
    let after = spec.excluding(path);
    if path.len() > 0 {
        let n = spec.excluded.len() as int;
        assert(after.excluded[n] == path);
        if after.covers(file) {
            let t = choose|t: int|
                0 <= t < after.owned.len() && is_under(file, #[trigger] after.owned[t]) && (forall|
                    e: int,
                |
                    0 <= e < after.excluded.len() && is_under(file, #[trigger] after.excluded[e])
                        ==> depth(after.excluded[e]) < depth(after.owned[t]));
            assert(is_under(file, spec.owned[t]));
            assert forall|e: int|
                0 <= e < spec.excluded.len() && is_under(file, #[trigger] spec.excluded[e]) implies
                depth(spec.excluded[e]) < depth(spec.owned[t]) by {
                assert(after.excluded[e] == spec.excluded[e]);
            }
        }
    }
}

/// Putting a path in never loses a file, and brings in every file under it that no path as deep or
/// deeper keeps out.
pub proof fn tracking_brings_in(spec: PathView, path: Seq<char>, file: Seq<char>)
    ensures
        spec.covers(file) ==> spec.tracking(path).covers(file),
        path.len() > 0 && is_under(file, path) && (forall|e: int|
            0 <= e < spec.excluded.len() && is_under(file, #[trigger] spec.excluded[e]) ==> depth(
                spec.excluded[e],
            ) < depth(path)) ==> spec.tracking(path).covers(file),
{
    let after = spec.tracking(path);
    if path.len() > 0 {
        let n = spec.owned.len() as int;
        assert(after.owned[n] == path);
        if spec.covers(file) {
            let t = choose|t: int|
                0 <= t < spec.owned.len() && is_under(file, #[trigger] spec.owned[t]) && (forall|
                    e: int,
                |
                    0 <= e < spec.excluded.len() && is_under(file, #[trigger] spec.excluded[e])
                        ==> depth(spec.excluded[e]) < depth(spec.owned[t]));
            assert(after.owned[t] == spec.owned[t]);
            assert(is_under(file, after.owned[t]));
        }
    }
}

/// The same path put in and carved out is carved out, with everything under it that no deeper path
/// keeps in.
pub proof fn a_path_in_both_lists_is_excluded(spec: PathView, path: Seq<char>, file: Seq<char>)
    requires
        path.len() > 0,
        is_under(file, path),
        forall|t: int|
            0 <= t < spec.owned.len() && is_under(file, #[trigger] spec.owned[t]) ==> depth(
                spec.owned[t],
            ) <= depth(path),
    ensures
        !spec.tracking(path).excluding(path).covers(file),
        !spec.excluding(path).tracking(path).covers(file),
{
    let both = spec.tracking(path);
    assert forall|t: int|
        0 <= t < both.owned.len() && is_under(file, #[trigger] both.owned[t]) implies depth(
        both.owned[t],
    ) <= depth(path) by {
        if t < spec.owned.len() {
            assert(both.owned[t] == spec.owned[t]);
        }
    }
    excluding_takes_out(both, path, file);
    assert(spec.excluding(path).tracking(path) =~= both.excluding(path));
}

/// Parts are looked at one by one: each that is neither empty nor `.` counts, and the order stays.
pub proof fn parts_are_named_one_by_one(a: Seq<Seq<char>>, b: Seq<Seq<char>>)
    ensures
        names(a + b) == names(a) + names(b),
        forall|part: Seq<char>| #[trigger]
            names(seq![part]) == (if part.len() == 0 || part == "."@ {
                Seq::empty()
            } else {
                seq![part]
            }),
        names(Seq::empty()).len() == 0,
    decreases b.len(),
{
    assert forall|part: Seq<char>| #[trigger]
        names(seq![part]) == (if part.len() == 0 || part == "."@ {
            Seq::empty()
        } else {
            seq![part]
        }) by {
        assert(seq![part].drop_last() =~= Seq::empty());
        reveal_with_fuel(names, 2);
        assert(names(seq![part]) =~= (if part.len() == 0 || part == "."@ {
            Seq::empty()
        } else {
            seq![part]
        }));
    }
    if b.len() == 0 {
        assert(a + b =~= a);
    } else {
        parts_are_named_one_by_one(a, b.drop_last());
        assert((a + b).drop_last() =~= a + b.drop_last());
        assert((a + b).last() == b.last());
    }
    assert(names(a + b) =~= names(a) + names(b));
}

/// The pieces of two texts with a separator between them are those of the one and of the other.
proof fn lemma_pieces_of_two(a: Seq<char>, c: char, b: Seq<char>)
    ensures
        text::pieces(a + seq![c] + b, c) == text::pieces(a, c) + text::pieces(b, c),
    decreases a.len(),
{
    text::lemma_first_index(a, c);
    if text::first_index(a, c) >= a.len() {
        assert(text::lacks(a, c));
        text::lemma_pieces_front(a, c, b);
    } else {
        let head = text::before(a, c);
        let tail = text::after(a, c);
        assert(a =~= head + seq![c] + tail);
        assert(a + seq![c] + b =~= head + seq![c] + (tail + seq![c] + b));
        text::lemma_pieces_front(head, c, tail + seq![c] + b);
        lemma_pieces_of_two(tail, c, b);
        assert(text::pieces(a + seq![c] + b, c) =~= text::pieces(a, c) + text::pieces(b, c));
    }
}

/// What stands behind a slash adds its parts to the components of what stands before it.
pub proof fn components_go_slash_by_slash(a: Seq<char>, b: Seq<char>)
    requires
        a.len() > 0,
    ensures
        components(a + "/"@ + b) == components(a) + names(text::pieces(b, '/')),
{
    reveal_strlit("/");
    let all = a + "/"@ + b;
    assert(all =~= a + seq!['/'] + b);
    lemma_pieces_of_two(a, '/', b);
    parts_are_named_one_by_one(text::pieces(a, '/'), text::pieces(b, '/'));
    text::join_undoes_split(a, '/');
    assert(all[0] == a[0]);
    assert(text::pieces(all, '/')[0] == text::pieces(a, '/')[0]);
    assert(components(all) =~= components(a) + names(text::pieces(b, '/')));
}

/// A path of plain names has these names as its components, in order: none is lost. From the root,
/// or from `.`, that comes first.
pub proof fn a_path_has_its_names_as_components(parts: Seq<Seq<char>>)
    requires
        parts.len() > 0,
        forall|i: int|
            0 <= i < parts.len() ==> (#[trigger] parts[i]).len() > 0 && parts[i] != "."@
                && text::lacks(parts[i], '/'),
    ensures
        components(text::joined(parts, seq!['/'])) == parts,
        components("/"@ + text::joined(parts, seq!['/'])) == seq!["/"@] + parts,
        components("./"@ + text::joined(parts, seq!['/'])) == seq!["."@] + parts,
        components(text::joined(parts, seq!['/']) + "/"@) == parts,
{
    reveal_strlit("/");
    reveal_strlit(".");
    reveal_strlit("./");
    let path = text::joined(parts, seq!['/']);
    let none = Seq::<char>::empty();
    assert forall|i: int| 0 <= i < parts.len() implies text::lacks(#[trigger] parts[i], '/') by {}
    text::split_undoes_join(parts, '/');
    lemma_plain_names(parts);
    assert(parts[0].len() > 0);
    lemma_joined_first(parts);
    assert(path[0] == parts[0][0]);
    assert(components(path) =~= parts);
    let rooted = "/"@ + path;
    assert(rooted =~= none + seq!['/'] + path);
    lemma_pieces_of_two(none, '/', path);
    text::lemma_pieces_single(none, '/');
    parts_are_named_one_by_one(seq![none], parts);
    assert(names(seq![none]) =~= Seq::empty());
    assert(components(rooted) =~= seq!["/"@] + parts);
    let dotted = "./"@ + path;
    assert(dotted =~= "."@ + seq!['/'] + path);
    lemma_pieces_of_two("."@, '/', path);
    text::lemma_pieces_single("."@, '/');
    parts_are_named_one_by_one(seq!["."@], parts);
    assert(names(seq!["."@]) =~= Seq::empty());
    assert(text::pieces(dotted, '/')[0] == "."@);
    assert(components(dotted) =~= seq!["."@] + parts);
    components_go_slash_by_slash(path, none);
    assert(path + "/"@ + none =~= path + "/"@);
    assert(names(text::pieces(none, '/')) =~= Seq::empty());
    assert(components(path + "/"@) =~= parts);
}

/// Joined parts start as the first part does.
proof fn lemma_joined_first(parts: Seq<Seq<char>>)
    requires
        parts.len() > 0,
        parts[0].len() > 0,
    ensures
        text::joined(parts, seq!['/']).len() > 0,
        text::joined(parts, seq!['/'])[0] == parts[0][0],
{
    let tail = parts.skip(1);
    text::joining_goes_part_by_part(seq![parts[0]], tail, seq!['/']);
    assert(text::joined(seq![parts[0]], seq!['/']) == parts[0]);
    if tail.len() > 0 {
        assert(parts =~= seq![parts[0]] + tail);
    } else {
        assert(parts =~= seq![parts[0]]);
    }
}

/// Plain names are all names.
proof fn lemma_plain_names(parts: Seq<Seq<char>>)
    requires
        forall|i: int| 0 <= i < parts.len() ==> (#[trigger] parts[i]).len() > 0 && parts[i] != "."@,
    ensures
        names(parts) == parts,
    decreases parts.len(),
{
    if parts.len() > 0 {
        let shorter = parts.drop_last();
        assert forall|i: int| 0 <= i < shorter.len() implies (#[trigger] shorter[i]).len() > 0
            && shorter[i] != "."@ by {
            assert(shorter[i] == parts[i]);
        }
        lemma_plain_names(shorter);
        assert(parts[parts.len() - 1].len() > 0);
        assert(shorter.push(parts.last()) =~= parts);
    } else {
        assert(names(parts) =~= parts);
    }
}

/// A path of plain names lies under another exactly if it starts with the other's names, whole
/// names and in order.
pub proof fn paths_lie_under_by_whole_names(file: Seq<Seq<char>>, dir: Seq<Seq<char>>)
    requires
        file.len() > 0,
        dir.len() > 0,
        forall|i: int|
            0 <= i < file.len() ==> (#[trigger] file[i]).len() > 0 && file[i] != "."@
                && text::lacks(file[i], '/'),
        forall|i: int|
            0 <= i < dir.len() ==> (#[trigger] dir[i]).len() > 0 && dir[i] != "."@ && text::lacks(
                dir[i],
                '/',
            ),
    ensures
        is_under(text::joined(file, seq!['/']), text::joined(dir, seq!['/'])) <==> dir.is_prefix_of(
            file,
        ),
{
    a_path_has_its_names_as_components(file);
    a_path_has_its_names_as_components(dir);
}

/// A file of a package lies in the package's directory.
pub proof fn files_lie_in_their_package(dir: Seq<char>, file: Seq<char>)
    requires
        dir.len() > 0,
        dir != "."@,
    ensures
        is_under(joined_path(dir, file), dir),
        joined_path("."@, file) == file,
{
    components_go_slash_by_slash(dir, file);
    let whole = components(joined_path(dir, file));
    assert(whole.take(components(dir).len() as int) =~= components(dir));
}

/// One path comes before another exactly if it is a shorter start of it, or has the smaller
/// component at the first place where they differ. Names are compared as texts.
pub proof fn the_first_different_component_decides(a: Seq<Seq<char>>, b: Seq<Seq<char>>)
    ensures
        path_less(a, b) <==> (a.len() < b.len() && a.is_prefix_of(b)) || exists|k: int|
            {
                &&& 0 <= k < a.len()
                &&& k < b.len()
                &&& #[trigger] a.take(k) == b.take(k)
                &&& a[k] != b[k]
                &&& component_less(a[k], b[k])
            },
    decreases a.len(),
{
    if a.len() == 0 {
        assert(b.take(0) =~= a);
    } else if b.len() > 0 {
        let (x, y) = (a.drop_first(), b.drop_first());
        the_first_different_component_decides(x, y);
        if a[0] == b[0] {
            assert forall|k: int| 0 <= k <= x.len() && k <= y.len() implies (#[trigger] x.take(k)
                == y.take(k) <==> a.take(k + 1) == b.take(k + 1)) by {
                assert(a.take(k + 1) =~= seq![a[0]] + x.take(k));
                assert(b.take(k + 1) =~= seq![b[0]] + y.take(k));
                assert(a.take(k + 1).drop_first() =~= x.take(k));
                assert(b.take(k + 1).drop_first() =~= y.take(k));
            }
            if x.len() < y.len() {
                assert(x.take(x.len() as int) =~= x);
                assert(a.take(a.len() as int) =~= a);
            }
            if exists|k: int|
                0 <= k < x.len() && k < y.len() && #[trigger] x.take(k) == y.take(k) && x[k] != y[k]
                    && component_less(x[k], y[k]) {
                let k = choose|k: int|
                    0 <= k < x.len() && k < y.len() && #[trigger] x.take(k) == y.take(k) && x[k]
                        != y[k] && component_less(x[k], y[k]);
                assert(a.take(k + 1) == b.take(k + 1));
                assert(a[k + 1] == x[k] && b[k + 1] == y[k]);
            }
            if exists|k: int|
                0 <= k < a.len() && k < b.len() && #[trigger] a.take(k) == b.take(k) && a[k] != b[k]
                    && component_less(a[k], b[k]) {
                let k = choose|k: int|
                    0 <= k < a.len() && k < b.len() && #[trigger] a.take(k) == b.take(k) && a[k]
                        != b[k] && component_less(a[k], b[k]);
                assert(k > 0);
                assert(x.take(k - 1) == y.take(k - 1));
                assert(a[k] == x[k - 1] && b[k] == y[k - 1]);
            }
        } else {
            if a.is_prefix_of(b) {
                assert(b.take(a.len() as int)[0] == a[0]);
            }
            assert(a.take(0) =~= b.take(0));
            assert forall|k: int|
                0 < k < a.len() && k < b.len() implies #[trigger] a.take(k) != b.take(k) by {
                assert(a.take(k)[0] != b.take(k)[0]);
            }
        }
    }
}

/// Names are ordered as texts, and come behind the root, `.` and `..`, which come in that order.
pub proof fn components_are_ordered_by_kind(a: Seq<char>, b: Seq<char>)
    requires
        a != "/"@ && a != "."@ && a != ".."@,
        b != "/"@ && b != "."@ && b != ".."@,
    ensures
        component_less(a, b) == text::text_less(a, b),
        component_less("/"@, "."@),
        component_less("."@, ".."@),
        component_less(".."@, a),
        component_less("/"@, ".."@) && component_less("/"@, a) && component_less("."@, a),
{
    reveal_strlit("/");
    reveal_strlit(".");
    reveal_strlit("..");
    assert("/"@[0] != "."@[0]);
    assert("/"@[0] != ".."@[0]);
    assert("."@.len() != ".."@.len());
}

/// The most specific path decides: a file is covered exactly if some path that is put in, and that
/// it lies under, is deeper than every carved-out path that it lies under.
pub proof fn the_deepest_path_decides(
    spec: PathView,
    owned: Seq<char>,
    excluded: Seq<char>,
    file: Seq<char>,
)
    requires
        spec.owned.contains(owned),
        is_under(file, owned),
        forall|p: Seq<char>|
            spec.owned.contains(p) && #[trigger] is_under(file, p) ==> depth(p) <= depth(owned),
        spec.excluded.contains(excluded),
        is_under(file, excluded),
        forall|p: Seq<char>|
            spec.excluded.contains(p) && #[trigger] is_under(file, p) ==> depth(p) <= depth(
                excluded,
            ),
    ensures
        spec.covers(file) <==> depth(excluded) < depth(owned),
{
    let t = choose|t: int| 0 <= t < spec.owned.len() && spec.owned[t] == owned;
    let x = choose|x: int| 0 <= x < spec.excluded.len() && spec.excluded[x] == excluded;
    if depth(excluded) < depth(owned) {
        assert(is_under(file, spec.owned[t]));
        assert forall|e: int|
            0 <= e < spec.excluded.len() && is_under(file, #[trigger] spec.excluded[e]) implies depth(
            spec.excluded[e],
        ) < depth(spec.owned[t]) by {
            assert(spec.excluded.contains(spec.excluded[e]));
        }
    } else if spec.covers(file) {
        let u = choose|t: int|
            0 <= t < spec.owned.len() && is_under(file, #[trigger] spec.owned[t]) && (forall|e: int|
                0 <= e < spec.excluded.len() && is_under(file, #[trigger] spec.excluded[e])
                    ==> depth(spec.excluded[e]) < depth(spec.owned[t]));
        assert(spec.owned.contains(spec.owned[u]));
        assert(is_under(file, spec.excluded[x]));
    }
}

} // verus!
