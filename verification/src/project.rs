//! A project and the collection of projects, kept in the order of their names.

use crate::text::{
    compare, lemma_precedes_asymmetric, lemma_precedes_irreflexive, lemma_precedes_total,
    lemma_precedes_transitive, precedes, Order,
};
use vstd::prelude::*;

verus! {

/// What is known of one project: the name and description that its manifest
/// gives, and the directory that holds the manifest. The name of a project
/// that was read from a manifest is never empty.
#[derive(Clone, Debug, PartialEq, Eq)]
pub struct ProjectInfo {
    pub name: String,
    pub description: Option<String>,
    pub path: String,
}

/// A project as plain text values.
pub struct ProjectView {
    pub name: Seq<char>,
    pub description: Option<Seq<char>>,
    pub path: Seq<char>,
}

impl View for ProjectInfo {
    type V = ProjectView;

    open spec fn view(&self) -> ProjectView {
        ProjectView {
            name: self.name@,
            description: match self.description {
                Some(d) => Some(d@),
                None => None,
            },
            path: self.path@,
        }
    }
}

impl DeepView for ProjectInfo {
    type V = ProjectView;

    open spec fn deep_view(&self) -> ProjectView {
        self@
    }
}

/// Every project of `s` comes before each later one in the order of names.
pub open spec fn ordered(s: Seq<ProjectView>) -> bool {
    forall|i: int, j: int|
        0 <= i < j < s.len() ==> precedes(#[trigger] s[i].name, #[trigger] s[j].name)
}

/// How many projects of `s` have a name that comes before `name`.
pub open spec fn rank(s: Seq<ProjectView>, name: Seq<char>) -> nat
    decreases s.len(),
{
    if s.len() == 0 {
        0
    } else {
        rank(s.drop_last(), name) + if precedes(s.last().name, name) {
            1nat
        } else {
            0nat
        }
    }
}

/// `s` with the project `p` put in its place: where a project of that name
/// is present, `p` takes its place; otherwise `p` goes in behind the projects
/// whose names come before its own.
pub open spec fn inserted(s: Seq<ProjectView>, p: ProjectView) -> Seq<ProjectView> {
    let k = rank(s, p.name) as int;
    if k < s.len() && s[k].name == p.name {
        s.update(k, p)
    } else {
        s.insert(k, p)
    }
}

/// Whether some project of `s` has the name `name`.
pub open spec fn has_name(s: Seq<ProjectView>, name: Seq<char>) -> bool {
    exists|i: int| 0 <= i < s.len() && #[trigger] s[i].name == name
}

/// In an ordered sequence, a position `k` that has only names before `name`
/// in front of it, and no such name at it, is the rank of `name`.
pub proof fn lemma_rank_is_position(s: Seq<ProjectView>, name: Seq<char>, k: int)
    requires
        ordered(s),
        0 <= k <= s.len(),
        forall|i: int| 0 <= i < k ==> precedes(#[trigger] s[i].name, name),
        k < s.len() ==> !precedes(s[k].name, name),
    ensures
        rank(s, name) == k,
{
    lemma_rank_splits(s, name);
    let r = rank(s, name) as int;
    if r < k {
        assert(precedes(s[r].name, name));
    } else if k < r {
        assert(!precedes(s[k].name, name));
    }
}

/// The rank of a name is a position of the sequence, or its length.
pub proof fn lemma_rank_bound(s: Seq<ProjectView>, name: Seq<char>)
    ensures
        rank(s, name) <= s.len(),
    decreases s.len(),
{
    if s.len() > 0 {
        lemma_rank_bound(s.drop_last(), name);
    }
}

/// Dropping the last project of an ordered sequence leaves it ordered.
pub proof fn lemma_ordered_drop_last(s: Seq<ProjectView>)
    requires
        ordered(s),
        s.len() > 0,
    ensures
        ordered(s.drop_last()),
{
    let t = s.drop_last();
    assert forall|i: int, j: int| 0 <= i < j < t.len() implies precedes(
        #[trigger] t[i].name,
        #[trigger] t[j].name,
    ) by {
        assert(t[i] == s[i] && t[j] == s[j]);
    }
}

/// In an ordered sequence the rank of a name splits it: the projects before
/// that position have names that come before `name`, the others do not.
pub proof fn lemma_rank_splits(s: Seq<ProjectView>, name: Seq<char>)
    requires
        ordered(s),
    ensures
        rank(s, name) <= s.len(),
        forall|i: int| 0 <= i < rank(s, name) ==> precedes(#[trigger] s[i].name, name),
        forall|i: int| rank(s, name) <= i < s.len() ==> !precedes(#[trigger] s[i].name, name),
    decreases s.len(),
{
    if s.len() > 0 {
        let t = s.drop_last();
        let last = s.last();
        lemma_ordered_drop_last(s);
        lemma_rank_splits(t, name);
        let k = rank(t, name) as int;
        assert(forall|i: int| 0 <= i < t.len() ==> t[i] == s[i]);
        if precedes(last.name, name) {
            assert forall|i: int| 0 <= i < t.len() implies precedes(
                #[trigger] s[i].name,
                name,
            ) by {
                assert(precedes(s[i].name, s[s.len() - 1].name));
                lemma_precedes_transitive(s[i].name, last.name, name);
            }
            if k < t.len() {
                assert(!precedes(t[k].name, name));
                assert(precedes(s[k].name, name));
            }
        }
    }
}

/// Putting a project into an ordered sequence leaves it ordered.
pub proof fn lemma_inserted_ordered(s: Seq<ProjectView>, p: ProjectView)
    requires
        ordered(s),
    ensures
        ordered(inserted(s, p)),
{
    lemma_rank_splits(s, p.name);
    let k = rank(s, p.name) as int;
    let r = inserted(s, p);
    if k < s.len() && s[k].name == p.name {
        assert forall|i: int, j: int| 0 <= i < j < r.len() implies precedes(
            #[trigger] r[i].name,
            #[trigger] r[j].name,
        ) by {
            assert(r[i].name == s[i].name);
            assert(r[j].name == s[j].name);
        }
    } else {
        assert forall|i: int, j: int| 0 <= i < j < r.len() implies precedes(
            #[trigger] r[i].name,
            #[trigger] r[j].name,
        ) by {
            if i < k {
                assert(r[i] == s[i]);
            } else if i > k {
                assert(r[i] == s[i - 1]);
            }
            if j < k {
                assert(r[j] == s[j]);
            } else if j > k {
                assert(r[j] == s[j - 1]);
            }
            if i == k {
                // the projects from `k` on have other names that do not come before `p`
                let q = s[j - 1];
                assert(!precedes(q.name, p.name));
                lemma_precedes_total(p.name, q.name);
                if q.name == p.name {
                    assert(precedes(s[k].name, q.name));
                    assert(!precedes(s[k].name, p.name));
                }
            }
        }
    }
}

/// The project of the ordered sequence `s` that has the name `name`.
pub open spec fn find(s: Seq<ProjectView>, name: Seq<char>) -> Option<ProjectView>
    recommends
        ordered(s),
{
    let k = rank(s, name) as int;
    if k < s.len() && s[k].name == name {
        Some(s[k])
    } else {
        None
    }
}

/// In an ordered sequence a name occurs at its rank or not at all, so no
/// name occurs twice.
pub proof fn lemma_name_only_at_rank(s: Seq<ProjectView>, name: Seq<char>)
    requires
        ordered(s),
    ensures
        forall|i: int| 0 <= i < s.len() && #[trigger] s[i].name == name ==> i == rank(s, name),
{
    lemma_rank_splits(s, name);
    let k = rank(s, name) as int;
    assert forall|i: int| 0 <= i < s.len() && #[trigger] s[i].name == name implies i == k by {
        lemma_precedes_irreflexive(name);
        if i > k {
            assert(precedes(s[k].name, s[i].name));
        }
    }
}

/// No two projects of an ordered sequence share a name.
pub proof fn lemma_names_unique(s: Seq<ProjectView>)
    requires
        ordered(s),
    ensures
        forall|i: int, j: int|
            0 <= i < s.len() && 0 <= j < s.len() && i != j ==> #[trigger] s[i].name
                != #[trigger] s[j].name,
{
    assert forall|i: int, j: int|
        0 <= i < s.len() && 0 <= j < s.len() && i != j implies #[trigger] s[i].name
        != #[trigger] s[j].name by {
        lemma_precedes_irreflexive(s[i].name);
        if i < j {
            assert(precedes(s[i].name, s[j].name));
        } else {
            assert(precedes(s[j].name, s[i].name));
        }
    }
}

/// `find` gives a project exactly for the names that occur.
pub proof fn lemma_find_has_name(s: Seq<ProjectView>, name: Seq<char>)
    requires
        ordered(s),
    ensures
        find(s, name) is Some <==> has_name(s, name),
        find(s, name) matches Some(p) ==> p.name == name,
{
    lemma_name_only_at_rank(s, name);
    lemma_rank_bound(s, name);
    if find(s, name) is Some {
        assert(s[rank(s, name) as int].name == name);
    }
}

/// After `p` was put in, its name finds `p`, and every other name finds what
/// it found before.
pub proof fn lemma_inserted_find(s: Seq<ProjectView>, p: ProjectView, name: Seq<char>)
    requires
        ordered(s),
    ensures
        find(inserted(s, p), name) == if name == p.name {
            Some(p)
        } else {
            find(s, name)
        },
{
    let r = inserted(s, p);
    let k = rank(s, p.name) as int;
    lemma_rank_bound(s, p.name);
    lemma_inserted_ordered(s, p);
    lemma_find_has_name(r, name);
    lemma_find_has_name(s, name);
    lemma_name_only_at_rank(r, name);
    lemma_name_only_at_rank(s, name);
    lemma_rank_bound(r, name);
    lemma_rank_bound(s, name);
    assert(r[k] == p);
    if name == p.name {
        assert(has_name(r, name));
    } else if k < s.len() && s[k].name == p.name {
        assert(forall|i: int| 0 <= i < s.len() ==> (#[trigger] r[i]).name == s[i].name);
        if has_name(s, name) {
            let i = rank(s, name) as int;
            assert(r[i] == s[i]);
            assert(has_name(r, name));
        }
        if has_name(r, name) {
            let i = rank(r, name) as int;
            assert(r[i] == s[i]);
            assert(has_name(s, name));
        }
    } else {
        if has_name(s, name) {
            let i = rank(s, name) as int;
            if i < k {
                assert(r[i] == s[i]);
            } else {
                assert(r[i + 1] == s[i]);
            }
            assert(has_name(r, name));
        }
        if has_name(r, name) {
            let i = rank(r, name) as int;
            if i < k {
                assert(r[i] == s[i]);
            } else {
                assert(r[i] == s[i - 1]);
            }
            assert(has_name(s, name));
        }
    }
}

/// Putting a project in adds one to the length, unless its name was there.
pub proof fn lemma_inserted_len(s: Seq<ProjectView>, p: ProjectView)
    requires
        ordered(s),
    ensures
        inserted(s, p).len() == if has_name(s, p.name) {
            s.len()
        } else {
            s.len() + 1
        },
{
    lemma_rank_bound(s, p.name);
    lemma_find_has_name(s, p.name);
}

/// Every project of `s` has a name that is not empty.
pub open spec fn all_named(s: Seq<ProjectView>) -> bool {
    forall|i: int| 0 <= i < s.len() ==> (#[trigger] s[i]).name.len() > 0
}

/// Putting a project with a name among projects with names leaves none
/// without.
pub proof fn lemma_inserted_named(s: Seq<ProjectView>, p: ProjectView)
    requires
        all_named(s),
        p.name.len() > 0,
    ensures
        all_named(inserted(s, p)),
{
    lemma_rank_bound(s, p.name);
    let k = rank(s, p.name) as int;
    let r = inserted(s, p);
    assert forall|i: int| 0 <= i < r.len() implies (#[trigger] r[i]).name.len() > 0 by {
        if k < s.len() && s[k].name == p.name {
            if i != k {
                assert(r[i] == s[i]);
            }
        } else if i < k {
            assert(r[i] == s[i]);
        } else if i > k {
            assert(r[i] == s[i - 1]);
        }
    }
}

/// The name of each project of an ordered sequence finds that project.
pub proof fn lemma_find_at(s: Seq<ProjectView>, i: int)
    requires
        ordered(s),
        0 <= i < s.len(),
    ensures
        find(s, s[i].name) == Some(s[i]),
{
    lemma_name_only_at_rank(s, s[i].name);
}

/// Without its last project, an ordered sequence finds what it found before,
/// but for the name of that project.
pub proof fn lemma_find_drop_last(s: Seq<ProjectView>, name: Seq<char>)
    requires
        ordered(s),
        s.len() > 0,
    ensures
        find(s.drop_last(), name) == if name == s.last().name {
            None
        } else {
            find(s, name)
        },
{
    let t = s.drop_last();
    lemma_ordered_drop_last(s);
    lemma_find_has_name(s, name);
    lemma_find_has_name(t, name);
    lemma_name_only_at_rank(s, name);
    lemma_name_only_at_rank(t, name);
    lemma_rank_bound(s, name);
    lemma_rank_bound(t, name);
    if has_name(t, name) {
        let i = rank(t, name) as int;
        assert(t[i] == s[i]);
        assert(s[i].name == name);
        lemma_names_unique(s);
    } else if has_name(s, name) {
        let i = rank(s, name) as int;
        if i < t.len() {
            assert(t[i].name == name);
        }
    }
}

/// Two ordered sequences in which every name finds the same are equal: the
/// projects and their names determine the order.
pub proof fn lemma_ordered_equal(s: Seq<ProjectView>, t: Seq<ProjectView>)
    requires
        ordered(s),
        ordered(t),
        forall|name: Seq<char>| find(s, name) == find(t, name),
    ensures
        s == t,
    decreases s.len(),
{
    if s.len() == 0 {
        if t.len() > 0 {
            lemma_find_at(t, 0);
            assert(find(s, t[0].name) is None);
        }
        assert(s =~= t);
    } else {
        if t.len() == 0 {
            lemma_find_at(s, 0);
            assert(find(t, s[0].name) is None);
        }
        let a = s.last();
        let b = t.last();
        lemma_find_at(s, s.len() - 1);
        lemma_find_at(t, t.len() - 1);
        lemma_name_only_at_rank(s, b.name);
        lemma_name_only_at_rank(t, a.name);
        let j = rank(t, a.name) as int;
        let i = rank(s, b.name) as int;
        assert(find(t, a.name) == Some(a));
        assert(find(s, b.name) == Some(b));
        assert(t[j] == a && s[i] == b);
        if j < t.len() - 1 && i < s.len() - 1 {
            assert(precedes(t[j].name, t[t.len() - 1].name));
            assert(precedes(s[i].name, s[s.len() - 1].name));
            lemma_precedes_asymmetric(a.name, b.name);
        }
        lemma_precedes_irreflexive(a.name);
        assert(a == b);
        lemma_ordered_drop_last(s);
        lemma_ordered_drop_last(t);
        assert forall|name: Seq<char>| find(s.drop_last(), name) == find(t.drop_last(), name) by {
            lemma_find_drop_last(s, name);
            lemma_find_drop_last(t, name);
        }
        lemma_ordered_equal(s.drop_last(), t.drop_last());
        assert(s =~= s.drop_last().push(a));
        assert(t =~= t.drop_last().push(b));
    }
}

/// The projects that were found: each name once, in the order of the names.
#[derive(Debug)]
pub struct ProjectCollection {
    items: Vec<ProjectInfo>,
}

impl View for ProjectCollection {
    type V = Seq<ProjectView>;

    /// The projects in the order in which they are shown.
    closed spec fn view(&self) -> Seq<ProjectView> {
        self.items.deep_view()
    }
}

impl ProjectCollection {
    #[verifier::type_invariant]
    spec fn well_formed(&self) -> bool {
        ordered(self.items.deep_view())
    }

    /// A collection without projects.
    pub fn new() -> (r: Self)
        ensures
            r@ == Seq::<ProjectView>::empty(),
    {
        let r = ProjectCollection { items: Vec::new() };
        assert(r@ =~= Seq::<ProjectView>::empty());
        r
    }

    /// The number of projects.
    pub fn len(&self) -> (n: usize)
        ensures
            n == self@.len(),
    {
        self.items.len()
    }

    /// Whether the collection holds no project.
    pub fn is_empty(&self) -> (b: bool)
        ensures
            b == (self@.len() == 0),
    {
        self.items.len() == 0
    }

    /// The project at position `index` in the order of names, counted from 0.
    pub fn get(&self, index: usize) -> (r: Option<&ProjectInfo>)
        ensures
            r is Some == (index < self@.len()),
            r matches Some(p) ==> p@ == self@[index as int],
    {
        if index < self.items.len() {
            Some(&self.items[index])
        } else {
            None
        }
    }

    /// The project at position `index`, which the collection must have.
    pub fn at(&self, index: usize) -> (r: &ProjectInfo)
        requires
            index < self@.len(),
        ensures
            r@ == self@[index as int],
    {
        &self.items[index]
    }

    /// States the order of the projects for a verified caller; it does
    /// nothing at run time.
    pub fn order_holds(&self)
        ensures
            ordered(self@),
    {
        proof {
            use_type_invariant(self);
        }
    }

    /// Puts `info` into the collection under its name. A project that was
    /// there under the same name is replaced.
    pub fn insert(&mut self, info: ProjectInfo)
        ensures
            final(self)@ == inserted(old(self)@, info@),
            ordered(final(self)@),
    {
        proof {
            use_type_invariant(&*self);
        }
        let mut i: usize = 0;
        let mut found = false;
        while i < self.items.len()
            invariant_except_break
                !found,
            invariant
                self.items == old(self).items,
                i <= self.items.len(),
                forall|j: int| 0 <= j < i ==> precedes(#[trigger] self@[j].name, info@.name),
            ensures
                i < self.items.len() ==> !precedes(self@[i as int].name, info@.name),
                found == (i < self.items.len() && self@[i as int].name == info@.name),
            decreases self.items.len() - i,
        {
            let r = compare(self.items[i].name.as_str(), info.name.as_str());
            proof {
                lemma_precedes_irreflexive(info@.name);
                if r == Order::After {
                    lemma_precedes_asymmetric(info@.name, self@[i as int].name);
                }
            }
            match r {
                Order::Before => {
                    i += 1;
                },
                Order::Same => {
                    found = true;
                    break ;
                },
                Order::After => {
                    break ;
                },
            }
        }
        proof {
            lemma_rank_is_position(self@, info@.name, i as int);
            lemma_inserted_ordered(self@, info@);
        }
        let ghost before = self@;
        let mut items: Vec<ProjectInfo> = Vec::new();
        assert(items.deep_view() =~= Seq::<ProjectView>::empty());
        std::mem::swap(&mut self.items, &mut items);
        if found {
            items.set(i, info);
            assert(items.deep_view() =~= inserted(before, info@));
        } else {
            items.insert(i, info);
            assert(items.deep_view() =~= inserted(before, info@));
        }
        std::mem::swap(&mut self.items, &mut items);
    }
}

} // verus!
