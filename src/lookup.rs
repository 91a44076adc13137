use std::collections::BTreeMap;
use vstd::prelude::*;

verus! {

/// The lookups that live only while the export is read: crate id to crate
/// name, version id to crate id, and crate id to a crate it depends on.
pub struct Lookup {
    dependency: BTreeMap<u32, u32>,
    krate: BTreeMap<u32, String>,
    dependency_version: BTreeMap<u32, u32>,
}

/// The view of a name table.
pub open spec fn names_view(m: Map<u32, String>) -> Map<u32, Seq<char>> {
    m.map_values(|s: String| s@)
}

impl Lookup {
    /// Crate id to crate name.
    pub closed spec fn names(&self) -> Map<u32, Seq<char>> {
        names_view(self.krate@)
    }

    /// Version id to the id of the crate it belongs to.
    pub closed spec fn versions(&self) -> Map<u32, u32> {
        self.dependency_version@
    }

    /// Crate id to the id of a crate it depends on.
    pub closed spec fn dependencies(&self) -> Map<u32, u32> {
        self.dependency@
    }

    pub fn with_krate(krate: BTreeMap<u32, String>) -> (r: Self)
        ensures
            r.names() == names_view(krate@),
            r.versions() == Map::<u32, u32>::empty(),
            r.dependencies() == Map::<u32, u32>::empty(),
    {
        Lookup { dependency: BTreeMap::new(), krate, dependency_version: BTreeMap::new() }
    }

    pub fn insert_crate_name(&mut self, crate_id: u32, name: String)
        ensures
            final(self).names() == old(self).names().insert(crate_id, name@),
            final(self).versions() == old(self).versions(),
            final(self).dependencies() == old(self).dependencies(),
    {
        let ghost n = name@;
        self.krate.insert(crate_id, name);
        assert(names_view(self.krate@) =~= old(self).names().insert(crate_id, n));
    }

    pub fn insert_dependency(&mut self, crate_id: u32, dependency: u32)
        ensures
            final(self).dependencies() == old(self).dependencies().insert(crate_id, dependency),
            final(self).names() == old(self).names(),
            final(self).versions() == old(self).versions(),
    {
        self.dependency.insert(crate_id, dependency);
    }

    pub fn get_dependency(&self, crate_id: u32) -> (r: Option<&u32>)
        ensures
            match r {
                Some(d) => self.dependencies().contains_key(crate_id) && self.dependencies()[crate_id] == *d,
                None => !self.dependencies().contains_key(crate_id),
            },
    {
        self.dependency.get(&crate_id)
    }

    pub fn get_crate_name(&self, crate_id: u32) -> (r: Option<&str>)
        ensures
            match r {
                Some(n) => self.names().contains_key(crate_id) && self.names()[crate_id] == n@,
                None => !self.names().contains_key(crate_id),
            },
    {
        match self.krate.get(&crate_id) {
            Some(n) => Some(n.as_str()),
            None => None,
        }
    }

    /// Records that version `version_id` belongs to crate `crate_id`.
    pub fn insert_dependency_relation(&mut self, crate_id: u32, version_id: u32)
        ensures
            final(self).versions() == old(self).versions().insert(version_id, crate_id),
            final(self).names() == old(self).names(),
            final(self).dependencies() == old(self).dependencies(),
    {
        self.dependency_version.insert(version_id, crate_id);
    }

    pub fn get_dependency_relation_for_version(&self, version_id: u32) -> (r: Option<&u32>)
        ensures
            match r {
                Some(c) => self.versions().contains_key(version_id) && self.versions()[version_id] == *c,
                None => !self.versions().contains_key(version_id),
            },
    {
        self.dependency_version.get(&version_id)
    }
}

} // verus!
