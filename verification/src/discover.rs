//! Finding the projects among the entries of the root directory.
//!
//! The caller lists the directory and looks for a manifest below each entry;
//! this module decides which entries are projects and collects them.

use crate::manifest::{manifest_project, parse_cargo_toml};
use crate::project::{
    all_named, find, has_name, inserted, lemma_find_has_name, lemma_inserted_find,
    lemma_inserted_len, lemma_inserted_named, lemma_inserted_ordered, lemma_names_unique,
    lemma_ordered_equal, ordered, ProjectCollection, ProjectInfo, ProjectView,
};
use crate::text::{join, joined};
use vstd::prelude::*;

verus! {

/// What a look for the manifest of one directory entry gave.
#[derive(Clone, Debug, PartialEq, Eq)]
pub enum ManifestFile {
    /// No manifest is there.
    Missing,
    /// A manifest is there, but it could not be read as text.
    Unreadable,
    /// The text of the manifest.
    Text(String),
}

/// One entry of the root directory: its path, whether it is a directory, and
/// what a look for `manifest_path(path)` gave.
#[derive(Clone, Debug, PartialEq, Eq)]
pub struct Entry {
    pub path: String,
    pub is_dir: bool,
    pub manifest: ManifestFile,
}

/// The outcome of a search: the projects, and the complaint to put on the
/// error stream where the root directory could not be listed.
#[derive(Debug)]
pub struct Discovery {
    pub projects: ProjectCollection,
    pub diagnostic: Option<String>,
}

/// The root directory of the projects of the user whose home directory is
/// `home`: the directory `rust` below it.
pub open spec fn projects_root_of(home: Seq<char>) -> Seq<char> {
    joined(home, "rust"@)
}

/// The root directory of the projects of the user whose home directory is
/// `home`.
pub fn projects_root(home: &str) -> (r: String)
    ensures
        r@ == projects_root_of(home@),
{
    join(home, "rust")
}

/// The path at which the manifest of the directory `dir` is expected.
pub open spec fn manifest_path_of(dir: Seq<char>) -> Seq<char> {
    joined(dir, "Cargo.toml"@)
}

/// The path at which the manifest of the directory `dir` is expected.
pub fn manifest_path(dir: &str) -> (r: String)
    ensures
        r@ == manifest_path_of(dir@),
{
    join(dir, "Cargo.toml")
}

/// The project that the entry `e` holds: it must be a directory whose
/// manifest could be read and describes a project, which then has a name.
pub open spec fn project_in(e: Entry) -> Option<ProjectView> {
    if e.is_dir {
        match e.manifest {
            ManifestFile::Text(t) => manifest_project(t@, e.path@),
            _ => None,
        }
    } else {
        None
    }
}

/// The projects among `entries`, in the order of their names. Where two
/// entries hold projects of one name, the later entry stands.
pub open spec fn discovered(entries: Seq<Entry>) -> Seq<ProjectView>
    decreases entries.len(),
{
    if entries.len() == 0 {
        Seq::empty()
    } else {
        let before = discovered(entries.drop_last());
        match project_in(entries.last()) {
            Some(p) => inserted(before, p),
            None => before,
        }
    }
}

/// The text of the complaint about a root directory that cannot be listed.
pub open spec fn unreadable_root(root: Seq<char>) -> Seq<char> {
    "Could not read directory: "@ + root
}

/// Reads the project of one directory entry, if it holds one.
pub fn project_of_entry(e: &Entry) -> (r: Option<ProjectInfo>)
    ensures
        r.deep_view() == project_in(*e),
        r matches Some(info) ==> info@.name.len() > 0,
{
    if e.is_dir {
        match &e.manifest {
            ManifestFile::Text(t) => parse_cargo_toml(e.path.as_str(), t.as_str()),
            _ => None,
        }
    } else {
        None
    }
}

/// Collects the projects of the root directory `root`. `listing` holds the
/// entries of the directory, or `None` where it could not be listed: then no
/// project is found and a complaint is returned for the error stream.
pub fn find_projects(root: &str, listing: Option<Vec<Entry>>) -> (r: Discovery)
    ensures
        ordered(r.projects@),
        all_named(r.projects@),
        r.projects@ == match listing {
            Some(entries) => discovered(entries@),
            None => Seq::empty(),
        },
        r.diagnostic.deep_view() == match listing {
            Some(_) => None,
            None => Some(unreadable_root(root@)),
        },
{
    let mut projects = ProjectCollection::new();
    match listing {
        Some(entries) => {
            let mut i: usize = 0;
            while i < entries.len()
                invariant
                    i <= entries.len(),
                    projects@ == discovered(entries@.take(i as int)),
                decreases entries.len() - i,
            {
                proof {
                    assert(entries@.take(i + 1).drop_last() =~= entries@.take(i as int));
                }
                match project_of_entry(&entries[i]) {
                    Some(info) => {
                        projects.insert(info);
                    },
                    None => {},
                }
                i += 1;
            }
            proof {
                assert(entries@.take(i as int) =~= entries@);
                lemma_discovered_named(entries@);
            }
            projects.order_holds();
            Discovery { projects, diagnostic: None }
        },
        None => {
            let mut d = String::from_str("Could not read directory: ");
            d.append(root);
            projects.order_holds();
            Discovery { projects, diagnostic: Some(d) }
        },
    }
}

/// Whether the entry `e` holds a project of the name `name`.
pub open spec fn holds_name(e: Entry, name: Seq<char>) -> bool {
    project_in(e) matches Some(p) && p.name == name
}

/// The project of the name `name` that the latest entry of `entries` with
/// such a project holds.
pub open spec fn latest(entries: Seq<Entry>, name: Seq<char>) -> Option<ProjectView>
    decreases entries.len(),
{
    if entries.len() == 0 {
        None
    } else if holds_name(entries.last(), name) {
        project_in(entries.last())
    } else {
        latest(entries.drop_last(), name)
    }
}

/// How many of `entries` hold a project.
pub open spec fn project_count(entries: Seq<Entry>) -> nat
    decreases entries.len(),
{
    if entries.len() == 0 {
        0
    } else {
        project_count(entries.drop_last()) + if project_in(entries.last()) is Some {
            1nat
        } else {
            0nat
        }
    }
}

/// No two of `entries` hold projects of one name.
pub open spec fn distinct_names(entries: Seq<Entry>) -> bool {
    forall|i: int, j: int, name: Seq<char>|
        0 <= i < j < entries.len() && #[trigger] holds_name(entries[i], name)
            ==> !#[trigger] holds_name(entries[j], name)
}

/// The two entries say the same: the same path, the same kind of entry, and
/// the same outcome of the look for a manifest, text for text.
pub open spec fn same_text(x: Entry, y: Entry) -> bool {
    &&& x.path@ == y.path@
    &&& x.is_dir == y.is_dir
    &&& match (x.manifest, y.manifest) {
        (ManifestFile::Missing, ManifestFile::Missing) => true,
        (ManifestFile::Unreadable, ManifestFile::Unreadable) => true,
        (ManifestFile::Text(s), ManifestFile::Text(t)) => s@ == t@,
        _ => false,
    }
}

/// Every project that is found has a name that is not empty.
pub proof fn lemma_discovered_named(entries: Seq<Entry>)
    ensures
        all_named(discovered(entries)),
    decreases entries.len(),
{
    if entries.len() > 0 {
        lemma_discovered_named(entries.drop_last());
        if let Some(p) = project_in(entries.last()) {
            lemma_inserted_named(discovered(entries.drop_last()), p);
        }
    }
}

/// The projects that are found stand in the strict order of their names,
/// whatever the order of the entries.
pub proof fn lemma_discovered_ordered(entries: Seq<Entry>)
    ensures
        ordered(discovered(entries)),
    decreases entries.len(),
{
    if entries.len() > 0 {
        lemma_discovered_ordered(entries.drop_last());
        if let Some(p) = project_in(entries.last()) {
            lemma_inserted_ordered(discovered(entries.drop_last()), p);
        }
    }
}

/// A name finds, among the projects that are found, the project of the
/// latest entry that holds one of that name; it finds none where no entry
/// does.
pub proof fn lemma_discovered_find(entries: Seq<Entry>, name: Seq<char>)
    ensures
        find(discovered(entries), name) == latest(entries, name),
    decreases entries.len(),
{
    if entries.len() > 0 {
        let before = entries.drop_last();
        lemma_discovered_find(before, name);
        lemma_discovered_ordered(before);
        if let Some(p) = project_in(entries.last()) {
            lemma_inserted_find(discovered(before), p, name);
        }
    }
}

/// `latest` finds a project exactly where some entry holds one of that name.
pub proof fn lemma_latest_holds(entries: Seq<Entry>, name: Seq<char>)
    ensures
        latest(entries, name) is Some <==> exists|i: int|
            0 <= i < entries.len() && #[trigger] holds_name(entries[i], name),
        latest(entries, name) matches Some(p) ==> p.name == name,
    decreases entries.len(),
{
    if entries.len() > 0 {
        let before = entries.drop_last();
        lemma_latest_holds(before, name);
        if holds_name(entries.last(), name) {
            assert(holds_name(entries[entries.len() - 1], name));
        } else {
            if latest(before, name) is Some {
                let i = choose|i: int|
                    0 <= i < before.len() && #[trigger] holds_name(before[i], name);
                assert(holds_name(entries[i], name));
            }
            if exists|i: int| 0 <= i < entries.len() && #[trigger] holds_name(entries[i], name) {
                let i = choose|i: int|
                    0 <= i < entries.len() && #[trigger] holds_name(entries[i], name);
                assert(holds_name(before[i], name));
            }
        }
    }
}

/// The names of the projects that are found are the names of the projects
/// that the entries hold.
pub proof fn lemma_discovered_names(entries: Seq<Entry>, name: Seq<char>)
    ensures
        has_name(discovered(entries), name) <==> exists|i: int|
            0 <= i < entries.len() && #[trigger] holds_name(entries[i], name),
{
    lemma_discovered_find(entries, name);
    lemma_discovered_ordered(entries);
    lemma_find_has_name(discovered(entries), name);
    lemma_latest_holds(entries, name);
}

/// Where two or more entries hold projects of one name, exactly one project
/// of that name is found.
pub proof fn lemma_one_project_per_name(entries: Seq<Entry>, name: Seq<char>)
    requires
        exists|i: int| 0 <= i < entries.len() && #[trigger] holds_name(entries[i], name),
    ensures
        exists|k: int|
            {
                &&& 0 <= k < discovered(entries).len()
                &&& #[trigger] discovered(entries)[k].name == name
                &&& forall|j: int|
                    0 <= j < discovered(entries).len() && #[trigger] discovered(entries)[j].name
                        == name ==> j == k
            },
{
    let found = discovered(entries);
    lemma_discovered_names(entries, name);
    lemma_discovered_ordered(entries);
    lemma_names_unique(found);
    let k = choose|k: int| 0 <= k < found.len() && #[trigger] found[k].name == name;
    assert(forall|j: int| 0 <= j < found.len() && #[trigger] found[j].name == name ==> j == k);
}

/// There are never more projects than entries that hold one.
pub proof fn lemma_discovered_len_bound(entries: Seq<Entry>)
    ensures
        discovered(entries).len() <= project_count(entries),
    decreases entries.len(),
{
    if entries.len() > 0 {
        let before = entries.drop_last();
        lemma_discovered_len_bound(before);
        lemma_discovered_ordered(before);
        if let Some(p) = project_in(entries.last()) {
            lemma_inserted_len(discovered(before), p);
        }
    }
}

/// Where the entries hold projects of different names, as many projects are
/// found as there are entries that hold one.
pub proof fn lemma_discovered_len(entries: Seq<Entry>)
    requires
        distinct_names(entries),
    ensures
        discovered(entries).len() == project_count(entries),
    decreases entries.len(),
{
    if entries.len() > 0 {
        let before = entries.drop_last();
        assert forall|i: int, j: int, name: Seq<char>|
            0 <= i < j < before.len() && #[trigger] holds_name(
                before[i],
                name,
            ) implies !#[trigger] holds_name(before[j], name) by {
            assert(before[i] == entries[i] && before[j] == entries[j]);
        }
        lemma_discovered_len(before);
        lemma_discovered_ordered(before);
        if let Some(p) = project_in(entries.last()) {
            lemma_inserted_len(discovered(before), p);
            lemma_discovered_names(before, p.name);
            if has_name(discovered(before), p.name) {
                let i = choose|i: int|
                    0 <= i < before.len() && #[trigger] holds_name(before[i], p.name);
                assert(holds_name(entries[i], p.name));
                assert(holds_name(entries[entries.len() - 1], p.name));
            }
        }
    }
}

/// An entry that holds no project contributes nothing: without it the same
/// projects are found.
pub proof fn lemma_entry_without_project(entries: Seq<Entry>, i: int)
    requires
        0 <= i < entries.len(),
        project_in(entries[i]) is None,
    ensures
        discovered(entries.remove(i)) == discovered(entries),
    decreases entries.len(),
{
    if i == entries.len() - 1 {
        assert(entries.remove(i) =~= entries.drop_last());
    } else {
        assert(entries.remove(i).drop_last() =~= entries.drop_last().remove(i));
        assert(entries.remove(i).last() == entries.last());
        lemma_entry_without_project(entries.drop_last(), i);
    }
}

/// Entries that say the same give the same projects: a second search of an
/// unchanged directory finds what the first one found.
pub proof fn lemma_same_entries_same_projects(a: Seq<Entry>, b: Seq<Entry>)
    requires
        a.len() == b.len(),
        forall|i: int| 0 <= i < a.len() ==> same_text(#[trigger] a[i], b[i]),
    ensures
        discovered(a) == discovered(b),
    decreases a.len(),
{
    if a.len() > 0 {
        let x = a.drop_last();
        let y = b.drop_last();
        assert(same_text(a[a.len() - 1], b[a.len() - 1]));
        assert forall|i: int| 0 <= i < x.len() implies same_text(#[trigger] x[i], y[i]) by {
            assert(same_text(a[i], b[i]));
        }
        lemma_same_entries_same_projects(x, y);
    }
}

/// A root directory without entries, or with none that is a directory,
/// holds no project.
pub proof fn lemma_no_directory_no_project(entries: Seq<Entry>)
    requires
        forall|i: int| 0 <= i < entries.len() ==> !(#[trigger] entries[i]).is_dir,
    ensures
        discovered(entries).len() == 0,
    decreases entries.len(),
{
    if entries.len() > 0 {
        let before = entries.drop_last();
        assert(!entries[entries.len() - 1].is_dir);
        assert forall|i: int| 0 <= i < before.len() implies !(#[trigger] before[i]).is_dir by {
            assert(!entries[i].is_dir);
        }
        lemma_no_directory_no_project(before);
    }
}

/// Whether `entries` holds an entry that says the same as `e`.
pub open spec fn occurs_in(e: Entry, entries: Seq<Entry>) -> bool {
    exists|j: int| 0 <= j < entries.len() && same_text(e, #[trigger] entries[j])
}

/// Among entries that hold projects of different names, a name finds the
/// project of the one entry that holds it.
pub proof fn lemma_latest_of_holder(entries: Seq<Entry>, i: int, name: Seq<char>)
    requires
        distinct_names(entries),
        0 <= i < entries.len(),
        holds_name(entries[i], name),
    ensures
        latest(entries, name) == project_in(entries[i]),
    decreases entries.len(),
{
    let before = entries.drop_last();
    if i < entries.len() - 1 {
        assert(!holds_name(entries[entries.len() - 1], name));
        assert forall|x: int, y: int, other: Seq<char>|
            0 <= x < y < before.len() && #[trigger] holds_name(
                before[x],
                other,
            ) implies !#[trigger] holds_name(before[y], other) by {
            assert(before[x] == entries[x] && before[y] == entries[y]);
        }
        assert(before[i] == entries[i]);
        lemma_latest_of_holder(before, i, name);
    }
}

/// The order in which the entries come does not matter: two listings that
/// hold the same entries, each with projects of different names, give the
/// same projects in the same order.
pub proof fn lemma_order_of_entries_irrelevant(a: Seq<Entry>, b: Seq<Entry>)
    requires
        distinct_names(a),
        distinct_names(b),
        forall|i: int| 0 <= i < a.len() ==> occurs_in(#[trigger] a[i], b),
        forall|j: int| 0 <= j < b.len() ==> occurs_in(#[trigger] b[j], a),
    ensures
        discovered(a) == discovered(b),
{
    lemma_discovered_ordered(a);
    lemma_discovered_ordered(b);
    assert forall|name: Seq<char>| find(discovered(a), name) == find(discovered(b), name) by {
        lemma_discovered_find(a, name);
        lemma_discovered_find(b, name);
        lemma_latest_holds(a, name);
        lemma_latest_holds(b, name);
        if latest(a, name) is Some {
            let i = choose|i: int| 0 <= i < a.len() && #[trigger] holds_name(a[i], name);
            assert(occurs_in(a[i], b));
            let j = choose|j: int| 0 <= j < b.len() && same_text(a[i], #[trigger] b[j]);
            assert(holds_name(b[j], name));
            lemma_latest_of_holder(a, i, name);
            lemma_latest_of_holder(b, j, name);
        } else if latest(b, name) is Some {
            let j = choose|j: int| 0 <= j < b.len() && #[trigger] holds_name(b[j], name);
            assert(occurs_in(b[j], a));
            let i = choose|i: int| 0 <= i < a.len() && same_text(b[j], #[trigger] a[i]);
            assert(holds_name(a[i], name));
        }
    }
    lemma_ordered_equal(discovered(a), discovered(b));
}

} // verus!
