//! Security-relevant journald signals (user and package changes), and changed
//! files of a directory.

use vstd::prelude::*;

use crate::agent::journald;
use crate::agent::journald::JournalLine;
use crate::seqs;
use crate::table;
use crate::table::Table;
use crate::text;

verus! {

/// One classified security signal, with the message behind it.
#[derive(Debug, Clone, PartialEq)]
pub enum SecSignal {
    NewUser(String),
    PackageInstalled(String),
}

/// What a security signal says.
#[verifier::ext_equal]
pub enum SecView {
    NewUser(Seq<char>),
    PackageInstalled(Seq<char>),
}

impl View for SecSignal {
    type V = SecView;

    open spec fn view(&self) -> SecView {
        match self {
            SecSignal::NewUser(m) => SecView::NewUser(m@),
            SecSignal::PackageInstalled(m) => SecView::PackageInstalled(m@),
        }
    }
}

/// Whether a line speaks of a change of users.
pub open spec fn changes_users(l: journald::LineView) -> bool {
    ||| l.ident == "useradd"@
    ||| l.ident == "usermod"@
    ||| l.ident == "userdel"@
    ||| text::holds(l.message, "new user"@)
}

/// Whether a line speaks of a change of packages.
pub open spec fn changes_packages(l: journald::LineView) -> bool {
    &&& l.ident == "dpkg"@ || l.ident == "apt"@ || l.ident == "dnf"@ || l.ident == "yum"@
    &&& text::holds(l.message, "install"@) || text::holds(l.message, "Install:"@) || text::holds(
        l.message,
        "upgrade"@,
    ) || text::holds(l.message, "remove"@)
}

/// The security signal of a journal line.
pub open spec fn signal_of(l: journald::LineView) -> Option<SecView> {
    if changes_users(l) {
        Some(SecView::NewUser(l.message))
    } else if changes_packages(l) {
        Some(SecView::PackageInstalled(l.message))
    } else {
        None
    }
}

/// Classify a journal line into a security signal, or None.
pub fn classify(line: &JournalLine) -> (r: Option<SecSignal>)
    ensures
        match r {
            Some(s) => signal_of(line@) == Some(s@),
            None => signal_of(line@) is None,
        },
{
    let msg = line.message.as_str();
    let ident = line.ident.as_str();
    if text::same(ident, "useradd") || text::same(ident, "usermod") || text::same(ident, "userdel")
        || text::contains_text(msg, "new user") {
        Some(SecSignal::NewUser(text::owned(msg)))
    } else if (text::same(ident, "dpkg") || text::same(ident, "apt") || text::same(ident, "dnf")
        || text::same(ident, "yum")) && (text::contains_text(msg, "install")
        || text::contains_text(msg, "Install:") || text::contains_text(msg, "upgrade")
        || text::contains_text(msg, "remove")) {
        Some(SecSignal::PackageInstalled(text::owned(msg)))
    } else {
        None
    }
}

/// A directory's files: modification time in seconds and size, by name.
pub type SnapshotView = Seq<(Seq<char>, (i64, u64))>;

/// The names that are new or have changed since `before`.
pub open spec fn new_or_changed(before: SnapshotView, after: SnapshotView) -> Seq<Seq<char>> {
    seqs::picked(
        after,
        |e: (Seq<char>, (i64, u64))|
            if table::lookup(before, e.0) == Some(e.1) {
                None
            } else {
                Some(e.0)
            },
    )
}

/// The names that are gone since `before`.
pub open spec fn gone(before: SnapshotView, after: SnapshotView) -> Seq<Seq<char>> {
    seqs::picked(
        before,
        |e: (Seq<char>, (i64, u64))|
            if table::lookup(after, e.0) is None {
                Some(e.0)
            } else {
                None
            },
    )
}

/// Changed/added/removed paths between two snapshots.
pub fn diff_snapshots(
    before: &Table<String, (i64, u64)>,
    after: &Table<String, (i64, u64)>,
) -> (r: Vec<String>)
    ensures
        text::views(r@) == new_or_changed(before@, after@) + gone(before@, after@),
{
    let ghost f = |e: (Seq<char>, (i64, u64))|
        if table::lookup(before@, e.0) == Some(e.1) {
            None
        } else {
            Some(e.0)
        };
    let ghost g = |e: (Seq<char>, (i64, u64))|
        if table::lookup(after@, e.0) is None {
            Some(e.0)
        } else {
            None
        };
    let mut changed: Vec<String> = Vec::new();
    let mut i: usize = 0;
    assert(text::views(changed@) == seqs::picked(after@.take(0), f));
    while i < after.entries.len()
        invariant
            i <= after.entries@.len(),
            after@.len() == after.entries@.len(),
            f == (|e: (Seq<char>, (i64, u64))|
                if table::lookup(before@, e.0) == Some(e.1) {
                    None
                } else {
                    Some(e.0)
                }),
            text::views(changed@) == seqs::picked(after@.take(i as int), f),
        decreases after.entries@.len() - i,
    {
        proof {
            seqs::lemma_take_step(after@, i as int);
        }
        let path = &after.entries[i].0;
        let meta = &after.entries[i].1;
        assert(after@[i as int] == (path@, *meta));
        let same = match before.get(path) {
            Some(prev) => prev.0 == meta.0 && prev.1 == meta.1,
            None => false,
        };
        if !same {
            let ghost old_list = changed@;
            changed.push(path.clone());
            assert(text::views(changed@) == text::views(old_list).push(path@));
        }
        i = i + 1;
    }
    assert(after@.take(after@.len() as int) == after@);
    let ghost first = text::views(changed@);
    let mut j: usize = 0;
    assert(text::views(changed@) == first + seqs::picked(before@.take(0), g));
    while j < before.entries.len()
        invariant
            j <= before.entries@.len(),
            before@.len() == before.entries@.len(),
            g == (|e: (Seq<char>, (i64, u64))|
                if table::lookup(after@, e.0) is None {
                    Some(e.0)
                } else {
                    None
                }),
            text::views(changed@) == first + seqs::picked(before@.take(j as int), g),
        decreases before.entries@.len() - j,
    {
        proof {
            seqs::lemma_take_step(before@, j as int);
        }
        let path = &before.entries[j].0;
        assert(before@[j as int] == (path@, before.entries@[j as int].1));
        if after.get(path).is_none() {
            let ghost old_list = changed@;
            changed.push(path.clone());
            assert(text::views(changed@) == text::views(old_list).push(path@));
            assert(first + seqs::picked(before@.take(j as int), g).push(path@) == (first
                + seqs::picked(before@.take(j as int), g)).push(path@));
        }
        j = j + 1;
    }
    assert(before@.take(before@.len() as int) == before@);
    changed
}

/// A path is reported exactly when the two snapshots tell different things of
/// it: it was added, removed or changed.
pub proof fn law_diff_reports_differences(
    before: SnapshotView,
    after: SnapshotView,
    path: Seq<char>,
)
    requires
        table::distinct(before),
        table::distinct(after),
    ensures
        (new_or_changed(before, after) + gone(before, after)).contains(path) <==> table::lookup(
            before,
            path,
        ) != table::lookup(after, path),
{
    let f = |e: (Seq<char>, (i64, u64))|
        if table::lookup(before, e.0) == Some(e.1) {
            None
        } else {
            Some(e.0)
        };
    let g = |e: (Seq<char>, (i64, u64))|
        if table::lookup(after, e.0) is None {
            Some(e.0)
        } else {
            None
        };
    let a = new_or_changed(before, after);
    let b = gone(before, after);
    seqs::lemma_picked(after, f, path);
    seqs::lemma_picked(before, g, path);
    assert((a + b).contains(path) <==> a.contains(path) || b.contains(path)) by {
        if a.contains(path) {
            let i = choose|i: int| 0 <= i < a.len() && a[i] == path;
            assert((a + b)[i] == path);
        }
        if b.contains(path) {
            let i = choose|i: int| 0 <= i < b.len() && b[i] == path;
            assert((a + b)[a.len() + i] == path);
        }
    }
    if a.contains(path) {
        let i = choose|i: int| 0 <= i < after.len() && f(#[trigger] after[i]) == Some(path);
        table::lemma_distinct_lookup(after, i);
    }
    if b.contains(path) {
        let i = choose|i: int| 0 <= i < before.len() && g(#[trigger] before[i]) == Some(path);
        table::lemma_distinct_lookup(before, i);
    }
    if table::lookup(before, path) != table::lookup(after, path) {
        if table::lookup(after, path) is Some {
            let i = table::lemma_lookup_index(after, path);
            assert(f(after[i]) == Some(path));
        } else {
            let i = table::lemma_lookup_index(before, path);
            assert(g(before[i]) == Some(path));
        }
    }
}

/// Two snapshots of an unchanged directory have no differences.
pub proof fn law_unchanged_has_no_differences(before: SnapshotView)
    requires
        table::distinct(before),
    ensures
        (new_or_changed(before, before) + gone(before, before)).len() == 0,
{
    let d = new_or_changed(before, before) + gone(before, before);
    if d.len() > 0 {
        assert(d.contains(d[0]));
        law_diff_reports_differences(before, before, d[0]);
    }
}

/// Picking names out of a table whose keys differ gives each name once.
proof fn lemma_names_differ(
    s: SnapshotView,
    f: spec_fn((Seq<char>, (i64, u64))) -> Option<Seq<char>>,
)
    requires
        table::distinct(s),
        forall|e: (Seq<char>, (i64, u64))| #[trigger] f(e) matches Some(n) ==> n == e.0,
    ensures
        seqs::picked(s, f).no_duplicates(),
    decreases s.len(),
{
    if s.len() > 0 {
        let t = s.drop_last();
        assert forall|a: int, b: int| 0 <= a < b < t.len() implies (#[trigger] t[a]).0 != (
        #[trigger] t[b]).0 by {
            assert(t[a] == s[a] && t[b] == s[b]);
        }
        lemma_names_differ(t, f);
        if f(s.last()) is Some {
            let name = s.last().0;
            let k = seqs::picked(t, f);
            seqs::lemma_picked(t, f, name);
            if k.contains(name) {
                let i = choose|i: int| 0 <= i < t.len() && f(#[trigger] t[i]) == Some(name);
                assert(t[i] == s[i]);
                assert(s[i].0 != s[s.len() - 1].0);
            }
            let r = k.push(name);
            assert forall|a: int, b: int|
                0 <= a < r.len() && 0 <= b < r.len() && a != b implies r[a] != r[b] by {
                if a < k.len() && b == k.len() {
                    assert(k.contains(k[a]));
                }
                if b < k.len() && a == k.len() {
                    assert(k.contains(k[b]));
                }
            }
        }
    }
}

/// No path is reported twice.
pub proof fn law_diff_reports_each_path_once(before: SnapshotView, after: SnapshotView)
    requires
        table::distinct(before),
        table::distinct(after),
    ensures
        (new_or_changed(before, after) + gone(before, after)).no_duplicates(),
{
    let f = |e: (Seq<char>, (i64, u64))|
        if table::lookup(before, e.0) == Some(e.1) {
            None
        } else {
            Some(e.0)
        };
    let g = |e: (Seq<char>, (i64, u64))|
        if table::lookup(after, e.0) is None {
            Some(e.0)
        } else {
            None
        };
    let a = new_or_changed(before, after);
    let b = gone(before, after);
    lemma_names_differ(after, f);
    lemma_names_differ(before, g);
    let r = a + b;
    assert forall|x: int, y: int| 0 <= x < a.len() && 0 <= y < b.len() implies #[trigger] a[x]
        != #[trigger] b[y] by {
        assert(a.contains(a[x]) && b.contains(b[y]));
        seqs::lemma_picked(after, f, a[x]);
        seqs::lemma_picked(before, g, b[y]);
        let i = choose|i: int| 0 <= i < after.len() && f(#[trigger] after[i]) == Some(a[x]);
        table::lemma_distinct_lookup(after, i);
    }
    assert forall|x: int, y: int|
        0 <= x < r.len() && 0 <= y < r.len() && x != y implies r[x] != r[y] by {
        if x < a.len() && y >= a.len() {
            assert(a[x] != b[y - a.len()]);
        }
        if y < a.len() && x >= a.len() {
            assert(a[y] != b[x - a.len()]);
        }
    }
}

/// The differences of two snapshots are the same both ways round, but for
/// their order.
pub proof fn law_diff_is_symmetric(before: SnapshotView, after: SnapshotView)
    requires
        table::distinct(before),
        table::distinct(after),
    ensures
        (new_or_changed(before, after) + gone(before, after)).to_multiset() == (new_or_changed(
            after,
            before,
        ) + gone(after, before)).to_multiset(),
{
    broadcast use vstd::seq_lib::group_to_multiset_ensures;

    let r = new_or_changed(before, after) + gone(before, after);
    let q = new_or_changed(after, before) + gone(after, before);
    law_diff_reports_each_path_once(before, after);
    law_diff_reports_each_path_once(after, before);
    r.lemma_multiset_has_no_duplicates();
    q.lemma_multiset_has_no_duplicates();
    assert forall|path: Seq<char>| #[trigger] r.to_multiset().count(path)
        == q.to_multiset().count(path) by {
        law_diff_reports_differences(before, after, path);
        law_diff_reports_differences(after, before, path);
        assert(r.contains(path) <==> q.contains(path));
        assert(r.to_multiset().contains(path) <==> r.contains(path));
        assert(q.to_multiset().contains(path) <==> q.contains(path));
    }
    assert(r.to_multiset() =~= q.to_multiset());
}

/// Which lines of the journal tell of a change of users, and which of a change
/// of packages; the users come first, and other lines tell nothing.
pub proof fn law_signals_of_the_journal(l: journald::LineView)
    ensures
        ({
            let users = l.ident == "useradd"@ || l.ident == "usermod"@ || l.ident == "userdel"@
                || text::holds(l.message, "new user"@);
            let tool = l.ident == "dpkg"@ || l.ident == "apt"@ || l.ident == "dnf"@ || l.ident
                == "yum"@;
            let packages = tool && (text::holds(l.message, "install"@) || text::holds(
                l.message,
                "Install:"@,
            ) || text::holds(l.message, "upgrade"@) || text::holds(l.message, "remove"@));
            &&& users ==> signal_of(l) == Some(SecView::NewUser(l.message))
            &&& !users && packages ==> signal_of(l) == Some(SecView::PackageInstalled(l.message))
            &&& !users && !packages ==> signal_of(l) is None
        }),
{
}

} // verus!
