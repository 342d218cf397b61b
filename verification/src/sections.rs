//! What earlier runs on the branch released, read back from their bump commits.
use crate::assign::{attributed, commits_of, since_last_bump, Scope};
use crate::commits::{commit_views, CommitInfo, CommitView};
use crate::history::{
    bump_message, bump_trailer, is_notch_commit, record_views, trailer_entries, trailer_entry,
    trailer_start, CommitRecord, RecordView, NOTCH_COMMIT_MESSAGE, NOTCH_TRAILER_KEY,
};
use crate::package::{components, same_path, Package, PackageView};
use crate::release::{update_views, UpdateView, UpdatedCrate};
use crate::text;
use crate::version::{
    lemma_version_chars, version_of, versions_read_back, Version, VersionView,
};
use vstd::prelude::*;

verus! {

/// One bump that a trailer records.
#[derive(Debug)]
pub struct BumpRecord {
    pub name: String,
    pub old: Version,
    pub new: Version,
}

/// What a `BumpRecord` holds.
#[verifier::ext_equal]
pub struct BumpView {
    pub name: Seq<char>,
    pub old: VersionView,
    pub new: VersionView,
}

impl View for BumpRecord {
    type V = BumpView;

    open spec fn view(&self) -> BumpView {
        BumpView { name: self.name@, old: self.old@, new: self.new@ }
    }
}

/// What the records hold.
pub open spec fn bump_views(records: Seq<BumpRecord>) -> Seq<BumpView> {
    Seq::new(records.len(), |i: int| records[i]@)
}

/// What an entry `name@old->new` records, where it is one.
pub open spec fn entry_record(entry: Seq<char>) -> Option<BumpView> {
    let versions = text::after(entry, '@');
    let left = text::before(versions, '>');
    let old = version_of(left.drop_last());
    let new = version_of(text::after(versions, '>'));
    if text::first_index(entry, '@') < entry.len() && text::first_index(versions, '>')
        < versions.len() && left.len() > 0 && left.last() == '-' && old is Some && new is Some {
        Some(BumpView { name: text::before(entry, '@'), old: old->0, new: new->0 })
    } else {
        None
    }
}

/// What the entries record; those that record nothing are skipped.
pub open spec fn entry_records(entries: Seq<Seq<char>>) -> Seq<BumpView>
    decreases entries.len(),
{
    if entries.len() == 0 {
        Seq::empty()
    } else {
        let rest = entry_records(entries.drop_last());
        match entry_record(entries.last()) {
            Some(record) => rest.push(record),
            None => rest,
        }
    }
}

/// The first of the lines that starts with the prefix, without it.
pub open spec fn behind_first(lines: Seq<Seq<char>>, prefix: Seq<char>) -> Option<Seq<char>>
    decreases lines.len(),
{
    if lines.len() == 0 {
        None
    } else if prefix.is_prefix_of(lines[0]) {
        Some(lines[0].skip(prefix.len() as int))
    } else {
        behind_first(lines.drop_first(), prefix)
    }
}

/// The bumps that a message's trailer records.
pub open spec fn trailer_records(message: Seq<char>) -> Seq<BumpView> {
    match behind_first(text::pieces(message, '\n'), trailer_start()) {
        Some(list) => entry_records(text::pieces(text::trimmed(list), ',')),
        None => Seq::empty(),
    }
}

/// What an entry `name@old->new` records.
fn parse_entry(entry: &str) -> (r: Option<BumpRecord>)
    ensures
        match r {
            Some(record) => entry_record(entry@) == Some(record@),
            None => entry_record(entry@) is None,
        },
{
    let (name, versions) = match text::split_once(entry, '@') {
        Some(pair) => pair,
        None => return None,
    };
    let (left, new) = match text::split_once(versions, '>') {
        Some(pair) => pair,
        None => return None,
    };
    let old = match text::strip_last(left, '-') {
        Some(old) => old,
        None => return None,
    };
    match (Version::parse(old), Version::parse(new)) {
        (Ok(old), Ok(new)) => Some(BumpRecord { name: name.to_owned(), old, new }),
        _ => None,
    }
}

/// The bumps that the trailer of a commit records.
pub fn parse_bump_trailer(commit: &CommitRecord) -> (r: Vec<BumpRecord>)
    ensures
        bump_views(r@) == (match commit@.message {
            Some(message) => trailer_records(message),
            None => Seq::empty(),
        }),
{
    let mut out: Vec<BumpRecord> = Vec::new();
    assert(bump_views(out@) =~= Seq::empty());
    let message = match &commit.message {
        Some(message) => message,
        None => return out,
    };
    let mut start = NOTCH_TRAILER_KEY.to_owned();
    start.append(":");
    let lines = text::split(message.as_str(), '\n');
    let ghost all = text::pieces(message@, '\n');
    let mut i: usize = 0;
    assert(all.skip(0) =~= all);
    while i < lines.len() && !text::starts_with(lines[i], start.as_str())
        invariant
            i <= lines@.len() == all.len(),
            start@ == trailer_start(),
            forall|j: int| 0 <= j < lines@.len() ==> (#[trigger] lines@[j])@ == all[j],
            behind_first(all, trailer_start()) == behind_first(
                all.skip(i as int),
                trailer_start(),
            ),
        decreases lines@.len() - i,
    {
        assert(all.skip(i as int)[0] == lines@[i as int]@);
        assert(all.skip(i as int).drop_first() =~= all.skip(i + 1));
        i += 1;
    }
    if i == lines.len() {
        return out;
    }
    assert(all.skip(i as int)[0] == lines@[i as int]@);
    let list = match text::strip_prefix(lines[i], start.as_str()) {
        Some(list) => text::trim(list),
        None => return out,
    };
    let entries = text::split(list, ',');
    let ghost parts = text::pieces(list@, ',');
    let mut j: usize = 0;
    assert(parts.take(0) =~= Seq::empty());
    while j < entries.len()
        invariant
            j <= entries@.len() == parts.len(),
            forall|k: int| 0 <= k < entries@.len() ==> (#[trigger] entries@[k])@ == parts[k],
            bump_views(out@) == entry_records(parts.take(j as int)),
        decreases entries@.len() - j,
    {
        assert(parts.take(j + 1).drop_last() =~= parts.take(j as int));
        assert(parts.take(j + 1).last() == entries@[j as int]@);
        match parse_entry(entries[j]) {
            Some(record) => {
                let ghost before = bump_views(out@);
                let ghost view = record@;
                out.push(record);
                assert(bump_views(out@) =~= before.push(view));
            },
            None => {},
        }
        j += 1;
    }
    assert(parts.take(j as int) =~= parts);
    out
}

/// What the packages hold.
pub open spec fn package_views(packages: Seq<Package>) -> Seq<PackageView> {
    Seq::new(packages.len(), |i: int| packages[i]@)
}

/// The first of the packages that has the name.
pub open spec fn package_named(packages: Seq<PackageView>, name: Seq<char>) -> Option<PackageView>
    decreases packages.len(),
{
    if packages.len() == 0 {
        None
    } else if packages[0].name == name {
        Some(packages[0])
    } else {
        package_named(packages.drop_first(), name)
    }
}

/// Where the first package with the name stands.
fn find_package(packages: &Vec<Package>, name: &str) -> (r: Option<usize>)
    ensures
        match r {
            Some(i) => i < packages@.len() && package_named(package_views(packages@), name@)
                == Some(packages@[i as int]@),
            None => package_named(package_views(packages@), name@) is None,
        },
{
    let ghost all = package_views(packages@);
    let mut i: usize = 0;
    assert(all.skip(0) =~= all);
    while i < packages.len()
        invariant
            i <= packages@.len(),
            all == package_views(packages@),
            package_named(all, name@) == package_named(all.skip(i as int), name@),
        decreases packages@.len() - i,
    {
        assert(all.skip(i as int)[0] == packages@[i as int]@);
        if text::same(packages[i].name.as_str(), name) {
            return Some(i);
        }
        assert(all.skip(i as int).drop_first() =~= all.skip(i + 1));
        i += 1;
    }
    None
}

/// Whether an earlier section is of the same package.
pub open spec fn listed(sections: Seq<UpdateView>, package: PackageView) -> bool {
    exists|i: int|
        0 <= i < sections.len() && components((#[trigger] sections[i]).package.manifest)
            == components(package.manifest)
}

/// The sections for one bump commit: the packages that its trailer names and that still exist,
/// each with the version that it had before the bump, and with the commits that the bump covers.
pub open spec fn bump_sections(
    records: Seq<BumpView>,
    pending: Seq<RecordView>,
    packages: Seq<PackageView>,
) -> Seq<UpdateView>
    decreases records.len(),
{
    if records.len() == 0 {
        Seq::empty()
    } else {
        let rest = bump_sections(records.drop_last(), pending, packages);
        let record = records.last();
        match package_named(packages, record.name) {
            Some(found) => {
                let package = PackageView { version: record.old, ..found };
                rest.push(
                    UpdateView {
                        package,
                        new_version: record.new,
                        commits: if listed(rest, package) {
                            Seq::empty()
                        } else {
                            attributed(pending, package, Scope::Directory)
                        },
                    },
                )
            },
            None => rest,
        }
    }
}

/// The sections for all the bump commits of the branch, whose commits are oldest first.
pub open spec fn prior_sections(
    commits: Seq<RecordView>,
    packages: Seq<PackageView>,
) -> Seq<UpdateView>
    decreases commits.len(),
{
    if commits.len() == 0 {
        Seq::empty()
    } else {
        let earlier = commits.drop_last();
        let rest = prior_sections(earlier, packages);
        let commit = commits.last();
        if commit.is_notch() {
            rest + bump_sections(
                trailer_records(commit.message->0),
                since_last_bump(earlier),
                packages,
            )
        } else {
            rest
        }
    }
}

/// Whether a section of the list is of the same package.
fn is_listed(sections: &Vec<UpdatedCrate>, from: usize, package: &Package) -> (r: bool)
    requires
        from <= sections@.len(),
    ensures
        r == listed(update_views(sections@).skip(from as int), package@),
{
    let ghost all = update_views(sections@);
    let mut i: usize = from;
    while i < sections.len()
        invariant
            from <= i <= sections@.len(),
            all == update_views(sections@),
            forall|j: int|
                from <= j < i ==> components((#[trigger] all[j]).package.manifest) != components(
                    package@.manifest,
                ),
        decreases sections@.len() - i,
    {
        assert(all[i as int] == sections@[i as int]@);
        if same_path(sections[i].package.manifest.as_str(), package.manifest.as_str()) {
            assert(all.skip(from as int)[i - from] == all[i as int]);
            return true;
        }
        i += 1;
    }
    proof {
        let tail = all.skip(from as int);
        assert forall|j: int| 0 <= j < tail.len() implies components(
            (#[trigger] tail[j]).package.manifest,
        ) != components(package@.manifest) by {
            assert(tail[j] == all[from + j]);
        }
    }
    false
}

/// Adds the sections for one bump commit to the list.
fn push_bump_sections(
    sections: &mut Vec<UpdatedCrate>,
    records: Vec<BumpRecord>,
    pending: &[CommitRecord],
    packages: &Vec<Package>,
)
    ensures
        update_views(final(sections)@) == update_views(old(sections)@) + bump_sections(
            bump_views(records@),
            record_views(pending@),
            package_views(packages@),
        ),
{
    let from: usize = sections.len();
    let ghost earlier = update_views(sections@);
    let ghost all = records@;
    let ghost views = bump_views(records@);
    let ghost known = package_views(packages@);
    let ghost open = record_views(pending@);
    assert(views.take(0) =~= Seq::empty());
    assert(earlier + Seq::empty() =~= earlier);
    for record in it: records
        invariant
            it.seq() == all,
            views == bump_views(all),
            known == package_views(packages@),
            open == record_views(pending@),
            from == earlier.len(),
            update_views(sections@) == earlier + bump_sections(
                views.take(it.index() as int),
                open,
                known,
            ),
    {
        let ghost k = it.index() as int;
        let ghost before = bump_sections(views.take(k), open, known);
        let ghost view = record@;
        assert(views.take(k + 1).drop_last() =~= views.take(k));
        assert(views.take(k + 1).last() == view);
        match find_package(packages, record.name.as_str()) {
            Some(i) => {
                let mut package = packages[i].clone();
                package.version = record.old;
                assert(update_views(sections@).len() == sections@.len());
                assert(update_views(sections@).skip(from as int) =~= before);
                let commits = if is_listed(sections, from, &package) {
                    let none: Vec<CommitInfo> = Vec::new();
                    assert(commit_views(none@) =~= Seq::<CommitView>::empty());
                    none
                } else {
                    commits_of(pending, &package, Scope::Directory)
                };
                let section = UpdatedCrate { package, new_version: record.new, commits };
                let ghost section_view = section@;
                let ghost previous = update_views(sections@);
                sections.push(section);
                proof {
                    assert(update_views(sections@) =~= previous.push(section_view));
                    let grown = bump_sections(views.take(k + 1), open, known);
                    assert(grown =~= before.push(section_view));
                    assert(update_views(sections@) =~= earlier + grown);
                }
            },
            None => {},
        }
    }
    assert(views.take(all.len() as int) =~= views);
}

/// Rebuilds an update for each bump that earlier runs left on the branch, so that a rerun can
/// describe the whole branch. The versions come from each bump commit's trailer; the commits are
/// the ones that landed since the bump before, attributed by path. Trailer entries that do not
/// parse, or that name a package that no longer exists, are skipped.
pub fn prior_bump_sections(commits: &Vec<CommitRecord>, packages: &Vec<Package>) -> (r: Vec<
    UpdatedCrate,
>)
    ensures
        update_views(r@) == prior_sections(record_views(commits@), package_views(packages@)),
{
    let ghost views = record_views(commits@);
    let ghost known = package_views(packages@);
    let mut sections: Vec<UpdatedCrate> = Vec::new();
    let mut from: usize = 0;
    let mut i: usize = 0;
    assert(update_views(sections@) =~= Seq::empty());
    assert(views.take(0) =~= Seq::empty());
    assert(views.subrange(0, 0) =~= Seq::empty());
    while i < commits.len()
        invariant
            from <= i <= commits@.len(),
            views == record_views(commits@),
            known == package_views(packages@),
            update_views(sections@) == prior_sections(views.take(i as int), known),
            since_last_bump(views.take(i as int)) == views.subrange(from as int, i as int),
        decreases commits@.len() - i,
    {
        let ghost earlier = views.take(i as int);
        let ghost view = commits@[i as int]@;
        assert(views.take(i + 1).drop_last() =~= earlier);
        assert(views.take(i + 1).last() == view);
        if is_notch_commit(&commits[i]) {
            let pending = vstd::slice::slice_subrange(commits.as_slice(), from, i);
            assert(record_views(pending@) =~= views.subrange(from as int, i as int));
            let records = parse_bump_trailer(&commits[i]);
            push_bump_sections(&mut sections, records, pending, packages);
            from = i + 1;
            assert(views.subrange(from as int, i + 1) =~= Seq::empty());
        } else {
            assert(views.subrange(from as int, i + 1) =~= views.subrange(
                from as int,
                i as int,
            ).push(view));
        }
        i += 1;
    }
    assert(views.take(i as int) =~= views);
    sections
}

/// A name that can stand in a trailer: no comma, no at sign, no whitespace.
pub open spec fn is_plain_name(name: Seq<char>) -> bool {
    forall|i: int|
        0 <= i < name.len() ==> {
            let c = #[trigger] name[i];
            c != ',' && c != '@' && !text::is_whitespace(c)
        }
}

/// What a trailer records of the updates.
pub open spec fn update_records(updates: Seq<UpdateView>) -> Seq<BumpView> {
    Seq::new(
        updates.len(),
        |i: int|
            BumpView {
                name: updates[i].package.name,
                old: updates[i].package.version,
                new: updates[i].new_version,
            },
    )
}

/// The entry of an update reads back as what it records, and holds no comma and no line break.
proof fn lemma_entry_reads_back(update: UpdateView)
    requires
        is_plain_name(update.package.name),
        update.package.version.valid(),
        update.new_version.valid(),
    ensures
        entry_record(trailer_entry(update)) == Some(
            BumpView {
                name: update.package.name,
                old: update.package.version,
                new: update.new_version,
            },
        ),
        text::lacks(trailer_entry(update), ','),
        text::lacks(trailer_entry(update), '\n'),
        trailer_entry(update).len() > 0,
        !text::is_whitespace(trailer_entry(update)[0]),
        !text::is_whitespace(trailer_entry(update).last()),
{
    reveal_strlit("@");
    reveal_strlit("->");
    let name = update.package.name;
    let old = update.package.version.text();
    let new = update.new_version.text();
    let entry = trailer_entry(update);
    lemma_version_chars(update.package.version);
    lemma_version_chars(update.new_version);
    versions_read_back(update.package.version);
    versions_read_back(update.new_version);
    let versions = old + "->"@ + new;
    assert(entry =~= name + seq!['@'] + versions);
    text::lemma_first_index_unique(entry, '@', name.len() as int);
    assert(text::before(entry, '@') =~= name);
    assert(text::after(entry, '@') =~= versions);
    assert(versions[old.len() as int] == '-');
    assert(versions[old.len() as int + 1] == '>');
    assert forall|i: int| 0 <= i < old.len() + 1 implies versions[i] != '>' by {
        if i < old.len() {
            assert(versions[i] == old[i]);
        }
    }
    text::lemma_first_index_unique(versions, '>', old.len() as int + 1);
    assert(text::before(versions, '>') =~= old.push('-'));
    assert(old.push('-').drop_last() =~= old);
    assert(text::after(versions, '>') =~= new);
    assert forall|i: int| 0 <= i < entry.len() implies {
        let c = #[trigger] entry[i];
        c != ',' && !text::is_whitespace(c)
    } by {
        let m = name.len() as int;
        let n = old.len() as int;
        if i < m {
            assert(entry[i] == name[i]);
        } else if m < i < m + 1 + n {
            assert(entry[i] == old[i - m - 1]);
        } else if i >= m + n + 3 {
            assert(entry[i] == new[i - m - n - 3]);
        }
    }
}

/// The entries of updates read back as what they record.
proof fn lemma_entries_read_back(updates: Seq<UpdateView>)
    requires
        forall|i: int|
            0 <= i < updates.len() ==> {
                let u = #[trigger] updates[i];
                is_plain_name(u.package.name) && u.package.version.valid() && u.new_version.valid()
            },
    ensures
        entry_records(trailer_entries(updates)) == update_records(updates),
    decreases updates.len(),
{
    let entries = trailer_entries(updates);
    if updates.len() == 0 {
        assert(entry_records(entries) =~= update_records(updates));
    } else {
        let shorter = updates.drop_last();
        assert forall|i: int| 0 <= i < shorter.len() implies {
            let u = #[trigger] shorter[i];
            is_plain_name(u.package.name) && u.package.version.valid() && u.new_version.valid()
        } by {
            assert(shorter[i] == updates[i]);
        }
        lemma_entries_read_back(shorter);
        assert(entries.drop_last() =~= trailer_entries(shorter));
        let last = updates[updates.len() - 1];
        let record = BumpView {
            name: last.package.name,
            old: last.package.version,
            new: last.new_version,
        };
        assert(entries.last() == trailer_entry(last));
        assert(entry_record(trailer_entry(last)) == Some(record)) by {
            lemma_entry_reads_back(last);
        }
        assert(entry_records(entries) == update_records(shorter).push(record));
        assert(update_records(updates) =~= update_records(shorter).push(record));
    }
}

/// A later run recovers exactly what a bump commit did: its message reads back as the names and
/// the old and new versions of the updates. (A name with a comma, an at sign or whitespace, which
/// no package name holds, would not come back.)
pub proof fn trailers_read_back(updates: Seq<UpdateView>)
    requires
        forall|i: int|
            0 <= i < updates.len() ==> {
                let u = #[trigger] updates[i];
                is_plain_name(u.package.name) && u.package.version.valid() && u.new_version.valid()
            },
    ensures
        trailer_records(bump_message(updates)) == update_records(updates),
{
    reveal_strlit("chore(notch): changelog + version bump");
    reveal_strlit("\n\n");
    reveal_strlit("Notch-Bump");
    reveal_strlit(":");
    reveal_strlit(": ");
    reveal_strlit(",");
    let title = NOTCH_COMMIT_MESSAGE@;
    let entries = trailer_entries(updates);
    let list = text::joined(entries, ","@);
    let trailer = bump_trailer(updates);
    let message = bump_message(updates);
    let start = trailer_start();
    let empty = Seq::<char>::empty();
    assert forall|i: int| 0 <= i < entries.len() implies text::lacks(#[trigger] entries[i], ',')
        && text::lacks(entries[i], '\n') by {
        lemma_entry_reads_back(updates[i]);
    }
    text::lemma_joined_lacks(entries, ","@, '\n');
    assert(","@ =~= seq![',']);
    // The message has three lines, of which the last is the trailer.
    assert(text::lacks(title, '\n'));
    assert(text::lacks(trailer, '\n'));
    assert(message =~= title + seq!['\n'] + (empty + seq!['\n'] + trailer));
    text::lemma_pieces_front(title, '\n', empty + seq!['\n'] + trailer);
    text::lemma_pieces_front(empty, '\n', trailer);
    text::lemma_pieces_single(trailer, '\n');
    let lines = text::pieces(message, '\n');
    assert(lines =~= seq![title, empty, trailer]);
    assert(!start.is_prefix_of(title)) by {
        if start.is_prefix_of(title) {
            assert(title[0] == start[0]);
        }
    }
    assert(!start.is_prefix_of(empty));
    assert(trailer.take(start.len() as int) =~= start);
    assert(start.is_prefix_of(trailer));
    reveal_with_fuel(behind_first, 4);
    assert(lines.drop_first()[0] == empty);
    assert(lines.drop_first().drop_first()[0] == trailer);
    let behind = trailer.skip(start.len() as int);
    assert(behind_first(lines, start) == Some(behind));
    assert(behind =~= seq![' '] + list);
    lemma_entries_read_back(updates);
    if updates.len() > 0 {
        lemma_entry_reads_back(updates[0]);
        lemma_entry_reads_back(updates[updates.len() - 1]);
        text::lemma_joined_ends(entries, ","@);
        text::lemma_trim_one_space(list);
        text::split_undoes_join(entries, ',');
    } else {
        assert(behind =~= seq![' ']);
        assert(behind.drop_first() =~= empty);
        reveal_with_fuel(text::trim_start, 2);
        assert(text::trimmed(behind) =~= empty);
        text::lemma_pieces_single(empty, ',');
        let parts = text::pieces(empty, ',');
        assert(parts.drop_last() =~= Seq::empty());
        reveal_with_fuel(entry_records, 2);
        assert(entry_records(parts) =~= update_records(updates));
    }
}

/// Entries are read one by one: each that records a bump gives it, and the order stays.
pub proof fn entries_are_read_one_by_one(a: Seq<Seq<char>>, b: Seq<Seq<char>>)
    ensures
        entry_records(a + b) == entry_records(a) + entry_records(b),
        forall|e: Seq<char>| #[trigger]
            entry_records(seq![e]) == (match entry_record(e) {
                Some(record) => seq![record],
                None => Seq::empty(),
            }),
        entry_records(Seq::empty()).len() == 0,
    decreases b.len(),
{
    assert forall|e: Seq<char>| #[trigger]
        entry_records(seq![e]) == (match entry_record(e) {
            Some(record) => seq![record],
            None => Seq::empty(),
        }) by {
        assert(seq![e].drop_last() =~= Seq::empty());
        reveal_with_fuel(entry_records, 2);
        assert(entry_records(seq![e]) =~= (match entry_record(e) {
            Some(record) => seq![record],
            None => Seq::empty(),
        }));
    }
    if b.len() == 0 {
        assert(a + b =~= a);
    } else {
        entries_are_read_one_by_one(a, b.drop_last());
        assert((a + b).drop_last() =~= a + b.drop_last());
        assert((a + b).last() == b.last());
    }
    assert(entry_records(a + b) =~= entry_records(a) + entry_records(b));
}

/// An entry that records a bump is written as `name@old->new`, with two versions.
pub proof fn only_bumps_are_recorded(entry: Seq<char>)
    requires
        entry_record(entry) is Some,
    ensures
        ({
            let r = entry_record(entry)->0;
            &&& entry == r.name + "@"@ + r.old.text() + "->"@ + r.new.text()
            &&& r.old.valid()
            &&& r.new.valid()
        }),
{
    reveal_strlit("@");
    reveal_strlit("->");
    let r = entry_record(entry)->0;
    let versions = text::after(entry, '@');
    let left = text::before(versions, '>');
    text::lemma_first_index(entry, '@');
    text::lemma_first_index(versions, '>');
    assert(entry =~= r.name + "@"@ + versions);
    assert(left =~= left.drop_last().push('-'));
    assert(versions =~= left + seq!['>'] + text::after(versions, '>'));
    lemma_version_of(left.drop_last());
    lemma_version_of(text::after(versions, '>'));
    assert(entry =~= r.name + "@"@ + r.old.text() + "->"@ + r.new.text());
}

/// A version that a text is read as is written as the text.
proof fn lemma_version_of(text: Seq<char>)
    requires
        version_of(text) is Some,
    ensures
        version_of(text)->0.valid(),
        version_of(text)->0.text() == text,
{
    let v = choose|v: VersionView| v.valid() && #[trigger] v.text() == text;
    assert(v.valid() && v.text() == text);
}

/// The first line with the prefix is the one that counts, wherever it stands.
pub proof fn the_first_such_line_counts(
    a: Seq<Seq<char>>,
    rest: Seq<char>,
    b: Seq<Seq<char>>,
    prefix: Seq<char>,
)
    requires
        forall|i: int| 0 <= i < a.len() ==> !prefix.is_prefix_of(#[trigger] a[i]),
    ensures
        behind_first(a, prefix) is None,
        behind_first(a + seq![prefix + rest] + b, prefix) == Some(rest),
    decreases a.len(),
{
    let all = a + seq![prefix + rest] + b;
    if a.len() == 0 {
        assert(all[0] == prefix + rest);
        assert((prefix + rest).take(prefix.len() as int) =~= prefix);
        assert(prefix.is_prefix_of(all[0]));
        assert((prefix + rest).skip(prefix.len() as int) =~= rest);
    } else {
        let tail = a.drop_first();
        assert forall|i: int| 0 <= i < tail.len() implies !prefix.is_prefix_of(
            #[trigger] tail[i],
        ) by {
            assert(tail[i] == a[i + 1]);
        }
        the_first_such_line_counts(tail, rest, b, prefix);
        assert(all[0] == a[0]);
        assert(all.drop_first() =~= tail + seq![prefix + rest] + b);
    }
}

/// A package is found by its name if there is one of that name, and the first of them is.
pub proof fn the_first_package_of_the_name_is_found(packages: Seq<PackageView>, name: Seq<char>)
    ensures
        match package_named(packages, name) {
            Some(p) => exists|i: int|
                {
                    &&& 0 <= i < packages.len()
                    &&& #[trigger] packages[i] == p
                    &&& p.name == name
                    &&& forall|j: int| 0 <= j < i ==> (#[trigger] packages[j]).name != name
                },
            None => forall|i: int| 0 <= i < packages.len() ==> (#[trigger] packages[i]).name != name,
        },
    decreases packages.len(),
{
    if packages.len() > 0 {
        if packages[0].name == name {
            assert(packages[0] == packages[0]);
        } else {
            let rest = packages.drop_first();
            the_first_package_of_the_name_is_found(rest, name);
            match package_named(rest, name) {
                Some(p) => {
                    let i = choose|i: int|
                        {
                            &&& 0 <= i < rest.len()
                            &&& #[trigger] rest[i] == p
                            &&& p.name == name
                            &&& forall|j: int| 0 <= j < i ==> (#[trigger] rest[j]).name != name
                        };
                    assert(packages[i + 1] == p);
                    assert forall|j: int| 0 <= j < i + 1 implies (
                    #[trigger] packages[j]).name != name by {
                        if j > 0 {
                            assert(packages[j] == rest[j - 1]);
                        }
                    }
                },
                None => {
                    assert forall|i: int| 0 <= i < packages.len() implies (
                    #[trigger] packages[i]).name != name by {
                        if i > 0 {
                            assert(packages[i] == rest[i - 1]);
                        }
                    }
                },
            }
        }
    }
}

/// Every record of a package that still exists gives a section of its own, in order: with the
/// versions that the record names, and with the commits that the bump covers unless an earlier
/// record was of the same package. Records of packages that are gone give none.
pub proof fn every_record_gives_its_section(
    records: Seq<BumpView>,
    i: int,
    pending: Seq<RecordView>,
    packages: Seq<PackageView>,
)
    requires
        0 <= i < records.len(),
    ensures
        ({
            let before = bump_sections(records.take(i), pending, packages);
            let all = bump_sections(records, pending, packages);
            match package_named(packages, records[i].name) {
                Some(found) => {
                    &&& before.len() < all.len()
                    &&& before.is_prefix_of(all)
                    &&& ({
                        let own = all[before.len() as int];
                        &&& own.package == (PackageView { version: records[i].old, ..found })
                        &&& own.new_version == records[i].new
                        &&& own.commits == (if exists|k: int|
                            0 <= k < before.len() && components(
                                (#[trigger] before[k]).package.manifest,
                            ) == components(found.manifest) {
                            Seq::empty()
                        } else {
                            attributed(pending, own.package, Scope::Directory)
                        })
                    })
                },
                None => bump_sections(records.take(i + 1), pending, packages) == before,
            }
        }),
{
    let before = bump_sections(records.take(i), pending, packages);
    let next = records.take(i + 1);
    assert(next.drop_last() =~= records.take(i));
    assert(next.last() == records[i]);
    let grown = bump_sections(next, pending, packages);
    lemma_sections_grow(next, records.skip(i + 1), pending, packages);
    assert(next + records.skip(i + 1) =~= records);
    let all = bump_sections(records, pending, packages);
    match package_named(packages, records[i].name) {
        Some(found) => {
            assert(grown.len() == before.len() + 1);
            assert(all.take(grown.len() as int) =~= grown);
            assert(all[before.len() as int] == grown[before.len() as int]);
            assert(all.take(before.len() as int) =~= before) by {
                assert forall|k: int| 0 <= k < before.len() implies all[k] == before[k] by {
                    assert(grown[k] == before[k]);
                    assert(all[k] == grown[k]);
                }
            }
        },
        None => {},
    }
}

/// More records only add sections.
proof fn lemma_sections_grow(
    a: Seq<BumpView>,
    b: Seq<BumpView>,
    pending: Seq<RecordView>,
    packages: Seq<PackageView>,
)
    ensures
        bump_sections(a, pending, packages).is_prefix_of(bump_sections(a + b, pending, packages)),
    decreases b.len(),
{
    let first = bump_sections(a, pending, packages);
    if b.len() == 0 {
        assert(a + b =~= a);
        assert(first.take(first.len() as int) =~= first);
    } else {
        lemma_sections_grow(a, b.drop_last(), pending, packages);
        assert((a + b).drop_last() =~= a + b.drop_last());
        let rest = bump_sections(a + b.drop_last(), pending, packages);
        let all = bump_sections(a + b, pending, packages);
        assert(all.take(first.len() as int) =~= rest.take(first.len() as int));
    }
}

/// Every bump commit of the branch gives its sections, behind those of the bump commits before it,
/// and from the commits since the one before; other commits give none.
pub proof fn every_bump_commit_gives_its_sections(
    earlier: Seq<RecordView>,
    bump: RecordView,
    later: Seq<RecordView>,
    packages: Seq<PackageView>,
)
    requires
        bump.is_notch(),
        forall|i: int| 0 <= i < later.len() ==> !(#[trigger] later[i]).is_notch(),
    ensures
        prior_sections(later, packages).len() == 0,
        prior_sections(earlier + seq![bump] + later, packages) == prior_sections(earlier, packages)
            + bump_sections(
            trailer_records(bump.message->0),
            since_last_bump(earlier),
            packages,
        ),
    decreases later.len(),
{
    let all = earlier + seq![bump] + later;
    if later.len() == 0 {
        assert(all.drop_last() =~= earlier);
        assert(all.last() == bump);
    } else {
        let shorter = later.drop_last();
        assert forall|i: int| 0 <= i < shorter.len() implies !(#[trigger] shorter[i]).is_notch() by {
            assert(shorter[i] == later[i]);
        }
        every_bump_commit_gives_its_sections(earlier, bump, shorter, packages);
        assert(all.drop_last() =~= earlier + seq![bump] + shorter);
        assert(all.last() == later[later.len() - 1]);
    }
}

/// What an earlier run released is described again: its bump commit, found among the commits of the
/// branch, gives back the bumps that it was made for, with the commits since the bump before.
pub proof fn an_earlier_release_is_described_again(
    earlier: Seq<RecordView>,
    bump: RecordView,
    updates: Seq<UpdateView>,
    packages: Seq<PackageView>,
)
    requires
        bump.is_notch(),
        bump.message == Some(bump_message(updates)),
        forall|i: int|
            0 <= i < updates.len() ==> {
                let u = #[trigger] updates[i];
                is_plain_name(u.package.name) && u.package.version.valid() && u.new_version.valid()
            },
    ensures
        prior_sections(earlier.push(bump), packages) == prior_sections(earlier, packages)
            + bump_sections(update_records(updates), since_last_bump(earlier), packages),
        update_records(updates).len() == updates.len(),
        forall|i: int|
            0 <= i < updates.len() ==> (#[trigger] update_records(updates)[i]).name
                == updates[i].package.name && update_records(updates)[i].old
                == updates[i].package.version && update_records(updates)[i].new
                == updates[i].new_version,
{
    trailers_read_back(updates);
    every_bump_commit_gives_its_sections(earlier, bump, Seq::empty(), packages);
    assert(earlier + seq![bump] + Seq::<RecordView>::empty() =~= earlier.push(bump));
}

} // verus!
