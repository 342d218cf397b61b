//! The interactive choice of version bumps: its state, what each key does to it, and what it shows.
use crate::bump::Bump;
use crate::commits::{can_shorten, commit_views, short, CommitInfo};
use crate::fsm::{biggest_bump, NotchFsm};
use crate::order::{in_order, insert_in_order, keys, Keyed};
use crate::package::Package;
use crate::release::{update_views, UpdateView, UpdatedCrate};
use crate::text;
use crate::version::{comes_before, Version, VersionView};
use vstd::prelude::*;

verus! {

/// What a key press means for the screen.
#[derive(Debug, Clone, Copy, PartialEq, Eq, Structural)]
pub enum Signal {
    Continue,
    Confirm,
    Cancel,
}

/// A key, as far as the screen tells keys apart.
#[derive(Debug, Clone, Copy, PartialEq, Eq, Structural)]
pub enum Key {
    Char(char),
    Backspace,
    Delete,
    Esc,
    Other,
}

/// A changed package and the version bumps to choose from, as one row of the list.
#[derive(Debug)]
pub struct PackageItem {
    pub package: Package,
    pub commits: Vec<CommitInfo>,
    pub patch: Version,
    pub minor: Version,
    pub major: Version,
    pub selected: Option<Bump>,
}

/// The greater of two versions.
pub open spec fn at_least(version: VersionView, current: VersionView) -> VersionView {
    if comes_before(current, version) {
        version
    } else {
        current
    }
}

/// The greater of a version and the current one.
fn clamp(version: Version, current: &Version) -> (r: Version)
    ensures
        r@ == at_least(version@, current@),
        !comes_before(r@, current@),
{
    if current.less(&version) {
        version
    } else {
        current.clone()
    }
}

/// Whether patching the baseline leads to more than the current version although something is
/// already staged: only where the two versions differ in nothing but their pre-release or build
/// metadata, or where the current version has the patched numbers and still comes before the
/// patched baseline on account of these.
pub open spec fn patch_overtakes(baseline: VersionView, current: VersionView) -> bool {
    let patched = Bump::Patch.applied(baseline);
    baseline.same_numbers(current) || (patched.same_numbers(current) && comes_before(
        current,
        patched,
    ))
}

impl PackageItem {
    /// The version that a bump leads to.
    pub open spec fn version_at(self, bump: Bump) -> VersionView {
        match bump {
            Bump::Patch => self.patch@,
            Bump::Minor => self.minor@,
            Bump::Major => self.major@,
        }
    }

    /// A row. `baseline` is the version before the branch's first bump that is not merged yet, or
    /// the package's own version if there is none: the options are computed from there. Each
    /// option is at least the current version, so that none is a downgrade. Where something is
    /// staged already, `patch` is preselected, which then means to stay at the current version.
    pub fn new(package: Package, commits: Vec<CommitInfo>, baseline: &Version) -> (r: Self)
        requires
            Bump::Patch.fits(baseline@),
            Bump::Minor.fits(baseline@),
            Bump::Major.fits(baseline@),
        ensures
            r.package == package,
            r.commits == commits,
            forall|bump: Bump| #[trigger]
                r.version_at(bump) == at_least(bump.applied(baseline@), package.version@),
            forall|bump: Bump| !comes_before(#[trigger] r.version_at(bump), package.version@),
            r.selected == (if comes_before(baseline@, package.version@) {
                Some(Bump::Patch)
            } else {
                None
            }),
            r.selected is Some && !patch_overtakes(baseline@, package.version@) ==> r.patch@
                == package.version@,
    {
        let current = package.version.clone();
        let patch = clamp(Bump::Patch.apply_to(baseline), &current);
        let minor = clamp(Bump::Minor.apply_to(baseline), &current);
        let major = clamp(Bump::Major.apply_to(baseline), &current);
        let selected = if baseline.less(&current) {
            Some(Bump::Patch)
        } else {
            None
        };
        let item = PackageItem { package, commits, patch, minor, major, selected };
        assert forall|bump: Bump| #[trigger]
            item.version_at(bump) == at_least(bump.applied(baseline@), current@) && !comes_before(
                item.version_at(bump),
                current@,
            ) by {
            match bump {
                Bump::Patch => {},
                Bump::Minor => {},
                Bump::Major => {},
            }
        }
        item
    }

    /// A row with the bump preselected that the package's commits call for.
    pub fn suggested(package: Package, fsm: &NotchFsm) -> (r: Self)
        requires
            Bump::Patch.fits(package.version@),
            Bump::Minor.fits(package.version@),
            Bump::Major.fits(package.version@),
        ensures
            r.package == package,
            commit_views(r.commits@) == fsm.handled(),
            forall|bump: Bump| #[trigger]
                r.version_at(bump) == at_least(bump.applied(package.version@), package.version@),
            r.selected == biggest_bump(fsm.handled(), fsm.rules()),
    {
        let mut commits: Vec<CommitInfo> = Vec::new();
        let handled = fsm.commits();
        let mut i: usize = 0;
        while i < handled.len()
            invariant
                i <= handled@.len(),
                commits@ == handled@.take(i as int),
            decreases handled@.len() - i,
        {
            commits.push(handled[i].clone());
            assert(handled@.take(i + 1) =~= handled@.take(i as int).push(handled@[i as int]));
            i += 1;
        }
        assert(handled@.take(i as int) =~= handled@);
        let baseline = package.version.clone();
        let mut item = PackageItem::new(package, commits, &baseline);
        let ghost before = item;
        item.selected = fsm.suggested_bump();
        assert forall|bump: Bump| #[trigger] item.version_at(bump) == at_least(
            bump.applied(baseline@),
            baseline@,
        ) by {
            assert(item.version_at(bump) == before.version_at(bump));
        }
        item
    }

    /// The package of the row.
    pub fn package(&self) -> (r: &Package)
        ensures
            *r == self.package,
    {
        &self.package
    }

    /// The version that a bump leads to.
    pub fn version_for(&self, bump: Bump) -> (r: &Version)
        ensures
            r@ == self.version_at(bump),
    {
        match bump {
            Bump::Patch => &self.patch,
            Bump::Minor => &self.minor,
            Bump::Major => &self.major,
        }
    }

    /// `name  old -> new` once a bump is picked, else `name  old -> ?`.
    pub fn row_label(&self) -> (r: String)
        ensures
            r@ == self.package.name@ + "  "@ + self.package.version@.text() + " -> "@ + (
            match self.selected {
                Some(bump) => self.version_at(bump).text(),
                None => "?"@,
            }),
    {
        let mut s = self.package.name.clone();
        s.append("  ");
        s.append(self.package.version.to_string().as_str());
        s.append(" -> ");
        match self.selected {
            Some(bump) => s.append(self.version_for(bump).to_string().as_str()),
            None => s.append("?"),
        }
        s
    }

    /// The line for a bump: whether it is the one picked, what it is called, and where it leads.
    pub fn option_line(&self, bump: Bump) -> (r: String)
        ensures
            r@ == (if self.selected == Some(bump) {
                "[x]"@
            } else {
                "[ ]"@
            }) + " "@ + bump.spec_label() + " -> "@ + self.version_at(bump).text(),
    {
        let picked = match self.selected {
            Some(b) => b == bump,
            None => false,
        };
        let mut s = if picked {
            "[x]".to_owned()
        } else {
            "[ ]".to_owned()
        };
        s.append(" ");
        s.append(bump.label());
        s.append(" -> ");
        s.append(self.version_for(bump).to_string().as_str());
        s
    }

    /// The line above the bumps: the package and its current version.
    pub fn title_line(&self) -> (r: String)
        ensures
            r@ == self.package.name@ + "  (current "@ + self.package.version@.text() + ")"@,
    {
        let mut s = self.package.name.clone();
        s.append("  (current ");
        s.append(self.package.version.to_string().as_str());
        s.append(")");
        s
    }

    /// The lines for the commits: the short id and the summary of each.
    pub fn commit_lines(&self) -> (r: Vec<String>)
        requires
            forall|i: int|
                0 <= i < self.commits@.len() ==> can_shorten((#[trigger] self.commits@[i]).sha1@),
        ensures
            text::texts(r@) == (if self.commits@.len() == 0 {
                seq!["(no attributed commits)"@]
            } else {
                Seq::new(
                    self.commits@.len(),
                    |i: int| short(self.commits@[i].sha1@) + " "@ + self.commits@[i].summary@,
                )
            }),
    {
        let mut lines: Vec<String> = Vec::new();
        if self.commits.len() == 0 {
            lines.push("(no attributed commits)".to_owned());
            assert(text::texts(lines@) =~= seq!["(no attributed commits)"@]);
            return lines;
        }
        let ghost all = Seq::new(
            self.commits@.len(),
            |i: int| short(self.commits@[i].sha1@) + " "@ + self.commits@[i].summary@,
        );
        let mut i: usize = 0;
        while i < self.commits.len()
            invariant
                i <= self.commits@.len(),
                all == Seq::new(
                    self.commits@.len(),
                    |i: int| short(self.commits@[i].sha1@) + " "@ + self.commits@[i].summary@,
                ),
                forall|i: int|
                    0 <= i < self.commits@.len() ==> can_shorten(
                        (#[trigger] self.commits@[i]).sha1@,
                    ),
                text::texts(lines@) == all.take(i as int),
            decreases self.commits@.len() - i,
        {
            assert(can_shorten(self.commits@[i as int].sha1@));
            let mut s = self.commits[i].short_id().to_owned();
            s.append(" ");
            s.append(self.commits[i].summary.as_str());
            let ghost before = text::texts(lines@);
            let ghost view = s@;
            lines.push(s);
            assert(text::texts(lines@) =~= before.push(view));
            assert(all.take(i + 1) =~= all.take(i as int).push(all[i as int]));
            i += 1;
        }
        assert(all.take(i as int) =~= all);
        lines
    }
}

impl Keyed for PackageItem {
    open spec fn key(&self) -> Seq<char> {
        self.package.name@
    }

    fn key_text(&self) -> (r: &str) {
        self.package.name.as_str()
    }
}

/// The screen: the rows, the one in focus, and how far its commits are scrolled.
#[derive(Debug)]
pub struct App {
    pub packages: Vec<PackageItem>,
    pub focused: usize,
    pub commit_scroll: u16,
}

/// Whether every row has a bump picked.
pub open spec fn all_picked(packages: Seq<PackageItem>) -> bool {
    forall|i: int| 0 <= i < packages.len() ==> (#[trigger] packages[i]).selected is Some
}

/// How many rows have a bump picked.
pub open spec fn picked_count(packages: Seq<PackageItem>) -> nat
    decreases packages.len(),
{
    if packages.len() == 0 {
        0
    } else {
        picked_count(packages.drop_last()) + (if packages.last().selected is Some {
            1nat
        } else {
            0nat
        })
    }
}

/// The rows with another bump picked, or none, in the row in focus.
pub open spec fn picked(packages: Seq<PackageItem>, focused: int, bump: Option<Bump>) -> Seq<
    PackageItem,
> {
    if focused < packages.len() {
        packages.update(focused, PackageItem { selected: bump, ..packages[focused] })
    } else {
        packages
    }
}

/// The updates for the rows that have a bump picked, in order.
pub open spec fn picked_updates(packages: Seq<PackageItem>) -> Seq<UpdateView>
    decreases packages.len(),
{
    if packages.len() == 0 {
        Seq::empty()
    } else {
        let rest = picked_updates(packages.drop_last());
        let item = packages.last();
        match item.selected {
            Some(bump) => rest.push(
                UpdateView {
                    package: item.package@,
                    new_version: item.version_at(bump),
                    commits: commit_views(item.commits@),
                },
            ),
            None => rest,
        }
    }
}

impl App {
    /// How far one key press scrolls the commits.
    pub const SCROLL_STEP: u16 = 10;

    /// The screen with the first row in focus.
    pub fn new(packages: Vec<PackageItem>) -> (r: Self)
        ensures
            r.packages == packages,
            r.focused == 0,
            r.commit_scroll == 0,
    {
        App { packages, focused: 0, commit_scroll: 0 }
    }

    /// The screen with the rows in the order of the packages' names.
    pub fn sorted(rows: Vec<PackageItem>) -> (r: Self)
        ensures
            r.packages@.to_multiset() == rows@.to_multiset(),
            in_order(keys(r.packages@)),
            r.focused == 0,
            r.commit_scroll == 0,
    {
        let ghost all = rows@;
        let mut packages: Vec<PackageItem> = Vec::new();
        assert(all.take(0) =~= packages@);
        for row in it: rows
            invariant
                it.seq() == all,
                packages@.to_multiset() == all.take(it.index() as int).to_multiset(),
                in_order(keys(packages@)),
        {
            let ghost k = it.index() as int;
            let ghost before = packages@;
            let at = insert_in_order(&mut packages, row);
            proof {
                vstd::seq_lib::to_multiset_insert(before, at as int, row);
                vstd::seq_lib::to_multiset_build(all.take(k), row);
                assert(all.take(k + 1) =~= all.take(k).push(row));
            }
        }
        assert(all.take(all.len() as int) =~= all);
        App::new(packages)
    }

    /// Moves the focus up, if there is a row above.
    pub fn focus_up(&mut self)
        ensures
            final(self).packages == old(self).packages,
            final(self).focused == (if old(self).focused > 0 {
                old(self).focused - 1
            } else {
                0
            }),
            final(self).commit_scroll == 0,
    {
        if self.focused > 0 {
            self.focused -= 1;
        }
        self.commit_scroll = 0;
    }

    /// Moves the focus down, if there is a row below.
    pub fn focus_down(&mut self)
        ensures
            final(self).packages == old(self).packages,
            final(self).focused == (if old(self).focused + 1 < old(self).packages@.len() {
                old(self).focused + 1
            } else {
                old(self).focused as int
            }),
            final(self).commit_scroll == 0,
    {
        if self.packages.len() > 0 && self.focused < self.packages.len() - 1 {
            self.focused += 1;
        }
        self.commit_scroll = 0;
    }

    /// Picks a bump, or none, in the row in focus.
    fn pick(&mut self, bump: Option<Bump>)
        ensures
            final(self).packages@ == picked(old(self).packages@, old(self).focused as int, bump),
            final(self).focused == old(self).focused,
            final(self).commit_scroll == old(self).commit_scroll,
    {
        if self.focused < self.packages.len() {
            let i: usize = self.focused;
            self.packages[i].selected = bump;
        }
    }

    /// Picks a bump in the row in focus.
    pub fn select(&mut self, bump: Bump)
        ensures
            final(self).packages@ == picked(
                old(self).packages@,
                old(self).focused as int,
                Some(bump),
            ),
            final(self).focused == old(self).focused,
            final(self).commit_scroll == old(self).commit_scroll,
    {
        self.pick(Some(bump));
    }

    /// Takes back what is picked in the row in focus.
    pub fn clear_focused(&mut self)
        ensures
            final(self).packages@ == picked(old(self).packages@, old(self).focused as int, None),
            final(self).focused == old(self).focused,
            final(self).commit_scroll == old(self).commit_scroll,
    {
        self.pick(None);
    }

    /// Whether every row has a bump picked.
    pub fn all_selected(&self) -> (r: bool)
        ensures
            r == all_picked(self.packages@),
    {
        let mut i: usize = 0;
        while i < self.packages.len()
            invariant
                i <= self.packages@.len(),
                forall|j: int| 0 <= j < i ==> (#[trigger] self.packages@[j]).selected is Some,
            decreases self.packages@.len() - i,
        {
            if self.packages[i].selected.is_none() {
                assert(self.packages@[i as int].selected is None);
                return false;
            }
            i += 1;
        }
        true
    }

    /// How many rows have a bump picked.
    pub fn selected_count(&self) -> (r: usize)
        ensures
            r == picked_count(self.packages@),
    {
        let mut n: usize = 0;
        let mut i: usize = 0;
        while i < self.packages.len()
            invariant
                n <= i <= self.packages@.len(),
                n == picked_count(self.packages@.take(i as int)),
            decreases self.packages@.len() - i,
        {
            assert(self.packages@.take(i + 1).drop_last() =~= self.packages@.take(i as int));
            assert(self.packages@.take(i + 1).last() == self.packages@[i as int]);
            if self.packages[i].selected.is_some() {
                n += 1;
            }
            i += 1;
        }
        assert(self.packages@.take(i as int) =~= self.packages@);
        n
    }

    /// What a key does. `j` and `k` move the focus; `1`, `2` and `3` pick a bump; `d`, backspace and
    /// delete take it back; `d` and `u` with control scroll the commits; `c` confirms once every
    /// row has a bump; `q` and escape cancel.
    pub fn handle_key(&mut self, key: Key, ctrl: bool) -> (r: Signal)
        ensures
            final(self).packages@.len() == old(self).packages@.len(),
            old(self).focused < old(self).packages@.len() ==> final(self).focused
                < final(self).packages@.len(),
            ({
                let before = *old(self);
                let after = *final(self);
                let rows = before.packages@;
                let at = before.focused as int;
                match key {
                    Key::Char('k') => r == Signal::Continue && after.packages@ == rows
                        && after.focused == (if at > 0 {
                        at - 1
                    } else {
                        0
                    }) && after.commit_scroll == 0,
                    Key::Char('j') => r == Signal::Continue && after.packages@ == rows
                        && after.focused == (if at + 1 < rows.len() {
                        at + 1
                    } else {
                        at
                    }) && after.commit_scroll == 0,
                    Key::Char('u') if ctrl => r == Signal::Continue && after.packages@ == rows
                        && after.focused == at && after.commit_scroll == (if before.commit_scroll
                        > 10 {
                        before.commit_scroll - 10
                    } else {
                        0
                    }),
                    Key::Char('d') if ctrl => r == Signal::Continue && after.packages@ == rows
                        && after.focused == at && after.commit_scroll == (if before.commit_scroll
                        < u16::MAX - 10 {
                        before.commit_scroll + 10
                    } else {
                        u16::MAX as int
                    }),
                    _ => {
                        &&& after.focused == at
                        &&& after.commit_scroll == before.commit_scroll
                        &&& match key {
                            Key::Char('1') => r == Signal::Continue && after.packages@ == picked(
                                rows,
                                at,
                                Some(Bump::Patch),
                            ),
                            Key::Char('2') => r == Signal::Continue && after.packages@ == picked(
                                rows,
                                at,
                                Some(Bump::Minor),
                            ),
                            Key::Char('3') => r == Signal::Continue && after.packages@ == picked(
                                rows,
                                at,
                                Some(Bump::Major),
                            ),
                            Key::Char('d') | Key::Backspace | Key::Delete => r == Signal::Continue
                                && after.packages@ == picked(rows, at, None),
                            Key::Char('c') => after.packages@ == rows && r == (if all_picked(rows) {
                                Signal::Confirm
                            } else {
                                Signal::Continue
                            }),
                            Key::Char('q') | Key::Esc => after.packages@ == rows && r
                                == Signal::Cancel,
                            _ => after.packages@ == rows && r == Signal::Continue,
                        }
                    },
                }
            }),
    {
        match key {
            Key::Char('k') => self.focus_up(),
            Key::Char('j') => self.focus_down(),
            Key::Char('1') => self.select(Bump::Patch),
            Key::Char('2') => self.select(Bump::Minor),
            Key::Char('3') => self.select(Bump::Major),
            Key::Char('u') if ctrl => {
                self.commit_scroll = if self.commit_scroll > Self::SCROLL_STEP {
                    self.commit_scroll - Self::SCROLL_STEP
                } else {
                    0
                };
            },
            Key::Char('d') if ctrl => {
                self.commit_scroll = if self.commit_scroll < u16::MAX - Self::SCROLL_STEP {
                    self.commit_scroll + Self::SCROLL_STEP
                } else {
                    u16::MAX
                };
            },
            Key::Char('d') | Key::Backspace | Key::Delete => self.clear_focused(),
            Key::Char('c') => if self.all_selected() {
                return Signal::Confirm;
            },
            Key::Char('q') | Key::Esc => return Signal::Cancel,
            _ => {},
        }
        Signal::Continue
    }

    /// The updates for the rows that have a bump picked.
    pub fn into_updated_crates(self) -> (r: Vec<UpdatedCrate>)
        ensures
            update_views(r@) == picked_updates(self.packages@),
    {
        let ghost all = self.packages@;
        let mut out: Vec<UpdatedCrate> = Vec::new();
        assert(update_views(out@) =~= picked_updates(all.take(0)));
        for item in it: self.packages
            invariant
                it.seq() == all,
                update_views(out@) == picked_updates(all.take(it.index() as int)),
        {
            let ghost k = it.index() as int;
            assert(all.take(k + 1).drop_last() =~= all.take(k));
            assert(all.take(k + 1).last() == all[k]);
            match item.selected {
                Some(bump) => {
                    let new_version = item.version_for(bump).clone();
                    let update = UpdatedCrate {
                        package: item.package,
                        new_version,
                        commits: item.commits,
                    };
                    let ghost before = update_views(out@);
                    let ghost view = update@;
                    out.push(update);
                    assert(update_views(out@) =~= before.push(view));
                },
                None => {},
            }
        }
        assert(all.take(all.len() as int) =~= all);
        out
    }

    /// The line that says how many rows have a bump picked.
    pub fn status_line(&self) -> (r: String)
        ensures
            r@ == text::decimal(picked_count(self.packages@)) + "/"@ + text::decimal(
                self.packages@.len(),
            ) + " selected "@,
    {
        let mut s = text::decimal_of(self.selected_count() as u64);
        s.append("/");
        s.append(text::decimal_of(self.packages.len() as u64).as_str());
        s.append(" selected ");
        s
    }
}

/// Once every row has a bump picked, which is what confirming takes, no row is left out of the
/// updates.
pub proof fn confirmed_rows_are_all_updated(rows: Seq<PackageItem>)
    requires
        all_picked(rows),
    ensures
        picked_updates(rows).len() == rows.len(),
        picked_count(rows) == rows.len(),
        forall|i: int|
            0 <= i < rows.len() ==> (#[trigger] picked_updates(rows)[i]).package
                == rows[i].package@ && picked_updates(rows)[i].new_version == rows[i].version_at(
                rows[i].selected->0,
            ),
    decreases rows.len(),
{
    if rows.len() > 0 {
        let shorter = rows.drop_last();
        assert forall|i: int| 0 <= i < shorter.len() implies (
        #[trigger] shorter[i]).selected is Some by {
            assert(shorter[i] == rows[i]);
        }
        confirmed_rows_are_all_updated(shorter);
        assert(rows[rows.len() - 1].selected is Some);
        assert forall|i: int| 0 <= i < rows.len() implies (
        #[trigger] picked_updates(rows)[i]).package == rows[i].package@ && picked_updates(
            rows,
        )[i].new_version == rows[i].version_at(rows[i].selected->0) by {
            if i < shorter.len() {
                assert(picked_updates(rows)[i] == picked_updates(shorter)[i]);
                assert(shorter[i] == rows[i]);
            }
        }
    }
}

/// A version is raised to the current one where it would fall behind it, and stays otherwise.
pub proof fn versions_never_go_back(version: VersionView, current: VersionView)
    ensures
        comes_before(current, version) ==> at_least(version, current) == version,
        !comes_before(current, version) ==> at_least(version, current) == current,
        version.numbers_less(current) ==> at_least(version, current) == current,
        current.numbers_less(version) ==> at_least(version, current) == version,
{
}

/// Rows are counted one by one: those with a bump picked.
pub proof fn picked_rows_are_counted_one_by_one(a: Seq<PackageItem>, b: Seq<PackageItem>)
    ensures
        picked_count(a + b) == picked_count(a) + picked_count(b),
        forall|row: PackageItem| #[trigger]
            picked_count(seq![row]) == (if row.selected is Some {
                1nat
            } else {
                0nat
            }),
        picked_count(Seq::empty()) == 0,
    decreases b.len(),
{
    assert forall|row: PackageItem| #[trigger]
        picked_count(seq![row]) == (if row.selected is Some {
            1nat
        } else {
            0nat
        }) by {
        assert(seq![row].drop_last() =~= Seq::empty());
        reveal_with_fuel(picked_count, 2);
    }
    if b.len() == 0 {
        assert(a + b =~= a);
    } else {
        picked_rows_are_counted_one_by_one(a, b.drop_last());
        assert((a + b).drop_last() =~= a + b.drop_last());
        assert((a + b).last() == b.last());
    }
}

/// Rows are updated one by one: each with a bump picked gives an update of its package to the
/// version that the row shows for that bump, with all its commits; the others give none.
pub proof fn picked_rows_are_updated_one_by_one(a: Seq<PackageItem>, b: Seq<PackageItem>)
    ensures
        picked_updates(a + b) == picked_updates(a) + picked_updates(b),
        forall|row: PackageItem| #[trigger]
            picked_updates(seq![row]) == (match row.selected {
                Some(Bump::Patch) => seq![
                    UpdateView {
                        package: row.package@,
                        new_version: row.patch@,
                        commits: commit_views(row.commits@),
                    },
                ],
                Some(Bump::Minor) => seq![
                    UpdateView {
                        package: row.package@,
                        new_version: row.minor@,
                        commits: commit_views(row.commits@),
                    },
                ],
                Some(Bump::Major) => seq![
                    UpdateView {
                        package: row.package@,
                        new_version: row.major@,
                        commits: commit_views(row.commits@),
                    },
                ],
                None => Seq::empty(),
            }),
        picked_updates(Seq::empty()).len() == 0,
    decreases b.len(),
{
    assert forall|row: PackageItem| #[trigger]
        picked_updates(seq![row]) == (match row.selected {
            Some(Bump::Patch) => seq![
                UpdateView {
                    package: row.package@,
                    new_version: row.patch@,
                    commits: commit_views(row.commits@),
                },
            ],
            Some(Bump::Minor) => seq![
                UpdateView {
                    package: row.package@,
                    new_version: row.minor@,
                    commits: commit_views(row.commits@),
                },
            ],
            Some(Bump::Major) => seq![
                UpdateView {
                    package: row.package@,
                    new_version: row.major@,
                    commits: commit_views(row.commits@),
                },
            ],
            None => Seq::empty(),
        }) by {
        assert(seq![row].drop_last() =~= Seq::empty());
        reveal_with_fuel(picked_updates, 2);
        match row.selected {
            Some(bump) => {
                assert(picked_updates(seq![row]) =~= seq![
                    UpdateView {
                        package: row.package@,
                        new_version: row.version_at(bump),
                        commits: commit_views(row.commits@),
                    },
                ]);
            },
            None => {
                assert(picked_updates(seq![row]) =~= Seq::empty());
            },
        }
    }
    if b.len() == 0 {
        assert(a + b =~= a);
    } else {
        picked_rows_are_updated_one_by_one(a, b.drop_last());
        assert((a + b).drop_last() =~= a + b.drop_last());
        assert((a + b).last() == b.last());
    }
    assert(picked_updates(a + b) =~= picked_updates(a) + picked_updates(b));
}

/// Picking changes the row in focus, and of it only what is picked; a second pick replaces the
/// first.
pub proof fn picking_concerns_the_row_in_focus(
    rows: Seq<PackageItem>,
    focused: int,
    first: Option<Bump>,
    second: Option<Bump>,
)
    requires
        0 <= focused < rows.len(),
    ensures
        picked(rows, focused, first).len() == rows.len(),
        picked(rows, focused, first)[focused].selected == first,
        picked(rows, focused, first)[focused].package == rows[focused].package,
        picked(rows, focused, first)[focused].commits == rows[focused].commits,
        forall|bump: Bump| #[trigger]
            picked(rows, focused, first)[focused].version_at(bump) == rows[focused].version_at(bump),
        forall|i: int|
            0 <= i < rows.len() && i != focused ==> #[trigger] picked(rows, focused, first)[i]
                == rows[i],
        picked(picked(rows, focused, first), focused, second) == picked(rows, focused, second),
{
    assert(picked(picked(rows, focused, first), focused, second) =~= picked(rows, focused, second));
}

/// Where something is staged, a patch leads beyond it exactly if it overtakes it; in every other
/// case the patch that is offered is what is staged.
pub proof fn staged_versions_are_offered_again(baseline: VersionView, current: VersionView)
    requires
        Bump::Patch.fits(baseline),
        comes_before(baseline, current),
    ensures
        patch_overtakes(baseline, current) <==> comes_before(
            current,
            VersionView { patch: (baseline.patch + 1) as u64, ..baseline },
        ),
        !patch_overtakes(baseline, current) ==> at_least(Bump::Patch.applied(baseline), current)
            == current,
{
}

} // verus!
