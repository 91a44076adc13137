use crate::bikey::{index_wf, BiKeyedIndex, KeyConflict};
use vstd::prelude::*;

verus! {

/// A row of the crate table: a crate's id and name, and every field of the
/// row under its column's name, carried along unread.
pub struct Kiste {
    pub id: u32,
    pub name: String,
    pub metadata: Vec<(String, String)>,
}

/// The view of a row's fields.
pub open spec fn metadata_view(m: Seq<(String, String)>) -> Seq<(Seq<char>, Seq<char>)> {
    m.map_values(|f: (String, String)| (f.0@, f.1@))
}

/// A copy of a row's fields.
pub fn clone_metadata(m: &Vec<(String, String)>) -> (r: Vec<(String, String)>)
    ensures
        metadata_view(r@) == metadata_view(m@),
{
    let mut r: Vec<(String, String)> = Vec::new();
    let mut i: usize = 0;
    while i < m.len()
        invariant
            i <= m@.len(),
            metadata_view(r@) == metadata_view(m@).take(i as int),
        decreases m@.len() - i,
    {
        let ghost before = r@;
        let pair = (m[i].0.clone(), m[i].1.clone());
        assert(pair.0@ == m@[i as int].0@ && pair.1@ == m@[i as int].1@);
        r.push(pair);
        assert(metadata_view(r@) =~= metadata_view(before).push((pair.0@, pair.1@)));
        assert(metadata_view(r@) =~= metadata_view(m@).take(i + 1));
        i = i + 1;
    }
    assert(metadata_view(m@).take(m@.len() as int) =~= metadata_view(m@));
    r
}

/// A row of the version table: a version id and the crate it belongs to.
pub struct Lesart {
    pub id: u32,
    pub crate_id: Option<u32>,
}

/// A row of the dependency table: the depending crate, the version it
/// requires, and the requirement as written, where the table gives one.
pub struct Depencil {
    pub crate_id: u32,
    pub version_id: u32,
    pub req: Option<String>,
}

/// An edge: the crate depended on, and the version requirement.
pub struct Skid {
    pub dependency: u32,
    pub version: Option<String>,
}

/// The view of an optional string.
pub open spec fn opt_view(s: Option<String>) -> Option<Seq<char>> {
    match s {
        Some(t) => Some(t@),
        None => None,
    }
}

impl View for Skid {
    type V = (u32, Option<Seq<char>>);

    open spec fn view(&self) -> (u32, Option<Seq<char>>) {
        (self.dependency, opt_view(self.version))
    }
}

impl Skid {
    pub fn new(dependency: u32, version: String) -> (r: Self)
        ensures
            r@ == (dependency, Some(version@)),
    {
        Skid { dependency, version: Some(version) }
    }

    pub fn new_with_dependency(dependency: u32) -> (r: Self)
        ensures
            r@ == (dependency, None::<Seq<char>>),
    {
        Skid { dependency, version: None }
    }
}

/// A crate of the registry with its outgoing edges, keyed by the name and id
/// of the crate each one points to.
pub struct Crate {
    pub krate: Kiste,
    pub dependencies: BiKeyedIndex<Skid>,
}

impl Crate {
    /// A crate whose edges each point to the crate their keys name.
    pub open spec fn wf(&self) -> bool {
        &&& self.dependencies.wf()
        &&& forall|i: int| 0 <= i < self.dependencies@.len()
            ==> (#[trigger] self.dependencies@[i]).2.dependency == self.dependencies@[i].1
    }

    pub fn new(krate: Kiste) -> (r: Self)
        ensures
            r.krate == krate,
            r.dependencies@.len() == 0,
            r.wf(),
    {
        Crate { krate, dependencies: BiKeyedIndex::new() }
    }

    /// Adds the edge to crate `(krate_name, key)`; a second edge to the same
    /// crate replaces the first.
    pub fn add_dependency(&mut self, key: u32, krate_name: String, version: Option<String>) -> (r: Result<(), KeyConflict>)
        requires
            old(self).wf(),
        ensures
            final(self).wf(),
            final(self).krate == old(self).krate,
            r is Ok <==> !((holds_key(old(self).dependencies@, key) && !holds_edge(old(self).dependencies@, krate_name@, key))
                || (!holds_key(old(self).dependencies@, key) && holds_name(old(self).dependencies@, krate_name@))),
            r is Err ==> final(self).dependencies@ == old(self).dependencies@,
            r is Ok ==> holds_edge(final(self).dependencies@, krate_name@, key),
            r is Ok ==> final(self).dependencies@.len() == old(self).dependencies@.len() + if holds_key(old(self).dependencies@, key) { 0int } else { 1int },
            r is Ok ==> forall|i: int| 0 <= i < final(self).dependencies@.len() ==> ({
                let e = #[trigger] final(self).dependencies@[i];
                (e.0 == krate_name@ && e.1 == key && e.2@ == (key, opt_view(version)))
                    || exists|j: int| 0 <= j < old(self).dependencies@.len() && old(self).dependencies@[j] == e
            }),
            r is Ok ==> forall|j: int| 0 <= j < old(self).dependencies@.len() && (#[trigger] old(self).dependencies@[j]).1 != key
                ==> exists|i: int| 0 <= i < final(self).dependencies@.len() && final(self).dependencies@[i] == old(self).dependencies@[j],
    {
        let ghost before = self.dependencies@;
        let ghost ver = opt_view(version);
        let skid = Skid { dependency: key, version };
        let ghost sk = skid;
        let ghost name = krate_name@;
        let r = self.dependencies.insert_with_both_keys(krate_name, key, skid);
        proof {
            let after = self.dependencies@;
            if r is Ok {
                if holds_key(before, key) {
                    let i = choose|i: int| 0 <= i < before.len() && before[i].1 == key && after == before.update(i, (name, key, sk));
                    assert(after[i].0 == krate_name@ && after[i].1 == key);
                    assert forall|j: int| 0 <= j < before.len() && (#[trigger] before[j]).1 != key
                        implies exists|m: int| 0 <= m < after.len() && after[m] == before[j] by {
                        assert(j != i);
                        assert(after[j] == before[j]);
                    }
                    assert forall|m: int| 0 <= m < after.len() implies ({
                        let e = #[trigger] after[m];
                        (e.0 == krate_name@ && e.1 == key && e.2@ == (key, ver))
                            || exists|j: int| 0 <= j < before.len() && before[j] == e
                    }) by {
                        if m != i {
                            assert(after[m] == before[m]);
                        }
                    }
                } else {
                    let n = choose|n: int| 0 <= n <= before.len() && after == before.insert(n, (name, key, sk));
                    assert(after[n].0 == krate_name@ && after[n].1 == key);
                    assert forall|j: int| 0 <= j < before.len() && (#[trigger] before[j]).1 != key
                        implies exists|m: int| 0 <= m < after.len() && after[m] == before[j] by {
                        if j < n {
                            assert(after[j] == before[j]);
                        } else {
                            assert(after[j + 1] == before[j]);
                        }
                    }
                    assert forall|m: int| 0 <= m < after.len() implies ({
                        let e = #[trigger] after[m];
                        (e.0 == krate_name@ && e.1 == key && e.2@ == (key, ver))
                            || exists|j: int| 0 <= j < before.len() && before[j] == e
                    }) by {
                        if m < n {
                            assert(after[m] == before[m]);
                        } else if m > n {
                            assert(after[m] == before[m - 1]);
                        }
                    }
                }
            }
        }
        r
    }
}

pub open spec fn holds_key(s: Seq<(Seq<char>, u32, Skid)>, k: u32) -> bool {
    exists|i: int| 0 <= i < s.len() && s[i].1 == k
}

pub open spec fn holds_name(s: Seq<(Seq<char>, u32, Skid)>, n: Seq<char>) -> bool {
    exists|i: int| 0 <= i < s.len() && s[i].0 == n
}

pub open spec fn holds_edge(s: Seq<(Seq<char>, u32, Skid)>, n: Seq<char>, k: u32) -> bool {
    exists|i: int| 0 <= i < s.len() && s[i].0 == n && s[i].1 == k
}

/// What a result tree holds: a crate, and the trees of the crates it reaches.
pub struct TreeView {
    pub id: u32,
    pub name: Seq<char>,
    pub children: Seq<TreeView>,
}

/// A node of a result tree: a crate and, where it was expanded, the crates
/// it reaches through its edges.
pub struct UnrolledCrate {
    pub crate_id: u32,
    pub name: String,
    pub dependents: Vec<UnrolledCrate>,
}

pub open spec fn tree_view(t: UnrolledCrate) -> TreeView
    decreases t,
{
    TreeView {
        id: t.crate_id,
        name: t.name@,
        children: Seq::new(
            t.dependents@.len(),
            |i: int|
                if 0 <= i < t.dependents@.len() {
                    tree_view(t.dependents@[i])
                } else {
                    TreeView { id: 0, name: Seq::empty(), children: Seq::empty() }
                },
        ),
    }
}

impl UnrolledCrate {
    pub fn new(crate_id: u32, name: String, dependents: Vec<UnrolledCrate>) -> (r: Self)
        ensures
            r.crate_id == crate_id,
            r.name == name,
            r.dependents == dependents,
    {
        UnrolledCrate { crate_id, name, dependents }
    }
}

} // verus!
