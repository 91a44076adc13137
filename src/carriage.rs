use crate::bikey::{holds_both, holds_primary, holds_secondary, index_wf, BiKeyedIndex, KeyConflict};
use crate::lookup::Lookup;
use crate::store::{metadata_view, holds_edge, holds_key, holds_name, opt_view, Crate, Depencil, Kiste, Lesart, Skid};
use vstd::prelude::*;

verus! {

/// What stops the ingestion of an export.
#[derive(Clone, Copy, Debug, PartialEq, Eq, Structural)]
pub enum IngestError {
    /// The archive is not a readable gzip-compressed tar archive.
    ArchiveUnreadable,
    /// One of the three tables is missing from the archive.
    MissingTableMember,
    /// More rows could not be read than the threshold allows.
    TooManyMalformedRows,
    /// Keys contradict what the registry already holds.
    InconsistentKey,
}

/// The registry: every crate under its name and id. An edge goes from a
/// crate to a crate it depends on: a row of the dependency table, "crate A
/// requires a version of crate B", is stored on A and points to B.
pub struct Carriage {
    pub map: BiKeyedIndex<Crate>,
}

pub type Registry = Seq<(Seq<char>, u32, Crate)>;

/// Each node is stored under its own name and id, and its edges are sound.
pub open spec fn registry_wf(s: Registry) -> bool {
    &&& index_wf(s)
    &&& forall|i: int| 0 <= i < s.len() ==> {
        &&& (#[trigger] s[i]).2.wf()
        &&& s[i].2.krate.id == s[i].1
        &&& s[i].2.krate.name@ == s[i].0
    }
}

/// Both registries hold the same crates at the same positions.
pub open spec fn same_keys(a: Registry, b: Registry) -> bool {
    &&& a.len() == b.len()
    &&& forall|i: int| 0 <= i < a.len() ==> {
        &&& (#[trigger] a[i]).0 == b[i].0
        &&& a[i].1 == b[i].1
        &&& a[i].2.krate == b[i].2.krate
    }
}

/// Crate `(name, id)` has an edge to crate `(target_name, target)`.
pub open spec fn has_edge(s: Registry, name: Seq<char>, id: u32, target_name: Seq<char>, target: u32) -> bool {
    exists|i: int| 0 <= i < s.len() && s[i].0 == name && s[i].1 == id
        && holds_edge(s[i].2.dependencies@, target_name, target)
}

/// One of the first `n` rows names crate `(name, id)` with the fields `meta`.
pub open spec fn named_in_rows(rows: Seq<Kiste>, n: int, name: Seq<char>, id: u32, meta: Seq<(Seq<char>, Seq<char>)>) -> bool {
    exists|m: int| 0 <= m < n && rows[m].name@ == name && rows[m].id == id && metadata_view(rows[m].metadata@) == meta
}

/// The name lookup the crate table builds: each row maps its id to its
/// name, later rows winning.
pub open spec fn crate_names(rows: Seq<Kiste>) -> Map<u32, Seq<char>>
    decreases rows.len(),
{
    if rows.len() == 0 {
        Map::empty()
    } else {
        crate_names(rows.drop_last()).insert(rows.last().id, rows.last().name@)
    }
}

/// Two rows of the crate table contradict each other: one id under two
/// names, or one name under two ids.
pub open spec fn crate_rows_conflict(rows: Seq<Kiste>) -> bool {
    exists|i: int, j: int| 0 <= i < rows.len() && 0 <= j < rows.len()
        && ((rows[i].id == rows[j].id) != (rows[i].name@ == rows[j].name@))
}

/// The crates a dependency row names can all be resolved.
pub open spec fn row_resolves(names: Map<u32, Seq<char>>, versions: Map<u32, u32>, row: Depencil) -> bool {
    &&& versions.contains_key(row.version_id)
    &&& names.contains_key(row.crate_id)
    &&& names.contains_key(versions[row.version_id])
}

/// A row resolves and its depending crate is in the registry.
pub open spec fn row_lands(s: Registry, names: Map<u32, Seq<char>>, versions: Map<u32, u32>, row: Depencil) -> bool {
    row_resolves(names, versions, row) && holds_both(s, names[row.crate_id], row.crate_id)
}

/// The number of rows without a resolvable edge in the registry.
pub open spec fn count_unresolved(s: Registry, names: Map<u32, Seq<char>>, versions: Map<u32, u32>, rows: Seq<Depencil>) -> nat
    decreases rows.len(),
{
    if rows.len() == 0 {
        0
    } else {
        count_unresolved(s, names, versions, rows.drop_last())
            + if row_lands(s, names, versions, rows.last()) { 0nat } else { 1nat }
    }
}

/// The version lookup after the rows of the version table: each row with a
/// crate maps its version to that crate, later rows winning.
pub open spec fn versions_after(m: Map<u32, u32>, rows: Seq<Lesart>) -> Map<u32, u32>
    decreases rows.len(),
{
    if rows.len() == 0 {
        m
    } else {
        let before = versions_after(m, rows.drop_last());
        match rows.last().crate_id {
            Some(c) => before.insert(rows.last().id, c),
            None => before,
        }
    }
}

/// The number of version rows without a crate.
pub open spec fn count_orphans(rows: Seq<Lesart>) -> nat
    decreases rows.len(),
{
    if rows.len() == 0 {
        0
    } else {
        count_orphans(rows.drop_last()) + if rows.last().crate_id is None { 1nat } else { 0nat }
    }
}

/// Names are the names of distinct crates.
pub open spec fn names_injective(names: Map<u32, Seq<char>>) -> bool {
    forall|a: u32, b: u32| names.contains_key(a) && names.contains_key(b) && a != b ==> names[a] != names[b]
}

/// Every edge of the registry points to the crate the name table gives.
pub open spec fn edges_follow(s: Registry, names: Map<u32, Seq<char>>) -> bool {
    forall|i: int, j: int| 0 <= i < s.len() && 0 <= j < s[i].2.dependencies@.len()
        ==> names.contains_key(#[trigger] s[i].2.dependencies@[j].1)
            && names[s[i].2.dependencies@[j].1] == s[i].2.dependencies@[j].0
}

/// No two entries of a well-formed index share either key.
pub proof fn lemma_unique_keys<V>(s: Seq<(Seq<char>, u32, V)>)
    requires
        index_wf(s),
    ensures
        forall|a: int, b: int| 0 <= a < s.len() && 0 <= b < s.len() && a != b ==> s[a].0 != s[b].0 && s[a].1 != s[b].1,
{
    assert forall|a: int, b: int| 0 <= a < s.len() && 0 <= b < s.len() && a != b implies s[a].0 != s[b].0 by {
        crate::order::lemma_name_before_strict(s[a].0, s[b].0);
        if a < b {
            assert(crate::order::name_before(s[a].0, s[b].0));
        } else {
            assert(crate::order::name_before(s[b].0, s[a].0));
        }
    }
}

/// Crate `(name, id)` of the registry holds an edge that contradicts an edge
/// to `(target_name, target)`: the same target under another name, or the
/// same name for another target.
pub open spec fn edge_conflict(s: Registry, name: Seq<char>, id: u32, target_name: Seq<char>, target: u32) -> bool {
    exists|i: int| 0 <= i < s.len() && s[i].0 == name && s[i].1 == id && {
        let d = s[i].2.dependencies@;
        (holds_key(d, target) && !holds_edge(d, target_name, target)) || (!holds_key(d, target) && holds_name(d, target_name))
    }
}

/// `e` is one of the edges `d`.
pub open spec fn edge_in(d: Seq<(Seq<char>, u32, Skid)>, e: (Seq<char>, u32, Skid)) -> bool {
    exists|k: int| 0 <= k < d.len() && d[k] == e
}

/// One of the first `n` dependency rows gives crate `id` the edge `e`.
pub open spec fn edge_from_rows(
    rows: Seq<Depencil>,
    n: int,
    names: Map<u32, Seq<char>>,
    versions: Map<u32, u32>,
    id: u32,
    e: (Seq<char>, u32, Skid),
) -> bool {
    exists|j: int| 0 <= j < n && rows[j].crate_id == id && row_resolves(names, versions, rows[j])
        && versions[rows[j].version_id] == e.1 && names[e.1] == e.0 && e.2@ == (e.1, opt_view(rows[j].req))
}

/// One of the first `n` rows lands on crate `id` with an edge to `target`,
/// which then replaces any edge the crate had to `target`.
pub open spec fn replaced_by_rows(
    s: Registry,
    rows: Seq<Depencil>,
    n: int,
    names: Map<u32, Seq<char>>,
    versions: Map<u32, u32>,
    id: u32,
    target: u32,
) -> bool {
    exists|m: int| 0 <= m < n && row_lands(s, names, versions, #[trigger] rows[m]) && rows[m].crate_id == id
        && versions[rows[m].version_id] == target
}

/// The target of a resolvable dependency row.
pub open spec fn row_target(versions: Map<u32, u32>, row: Depencil) -> u32 {
    versions[row.version_id]
}

pub proof fn lemma_same_keys(a: Registry, b: Registry, c: Registry)
    requires
        same_keys(a, b),
        same_keys(b, c),
    ensures
        same_keys(a, c),
        forall|n: Seq<char>, k: u32| holds_both(a, n, k) <==> holds_both(c, n, k),
{
    assert forall|n: Seq<char>, k: u32| holds_both(a, n, k) <==> holds_both(c, n, k) by {
        if holds_both(a, n, k) {
            let i = choose|i: int| 0 <= i < a.len() && a[i].0 == n && a[i].1 == k;
            assert(c[i].0 == n && c[i].1 == k);
        }
        if holds_both(c, n, k) {
            let i = choose|i: int| 0 <= i < c.len() && c[i].0 == n && c[i].1 == k;
            assert(a[i].0 == n && a[i].1 == k);
        }
    }
}

pub proof fn lemma_same_keys_refl(a: Registry)
    ensures
        same_keys(a, a),
{
}

impl Carriage {
    pub open spec fn wf(&self) -> bool {
        registry_wf(self.map@)
    }

    pub fn new() -> (r: Self)
        ensures
            r.map@.len() == 0,
            r.wf(),
    {
        Carriage { map: BiKeyedIndex::new() }
    }

    /// Builds the registry and the name lookup from the rows of the crate
    /// table. Fails exactly where two rows contradict each other.
    pub fn process_crates(rows: &Vec<Kiste>) -> (r: Result<(Carriage, Lookup), IngestError>)
        ensures
            r is Err <==> crate_rows_conflict(rows@),
            r is Err ==> r == Err::<(Carriage, Lookup), IngestError>(IngestError::InconsistentKey),
            r matches Ok((c, lk)) ==> {
                &&& c.wf()
                &&& forall|j: int| 0 <= j < rows@.len() ==> holds_both(c.map@, #[trigger] rows@[j].name@, rows@[j].id)
                &&& forall|i: int| 0 <= i < c.map@.len() ==> named_in_rows(rows@, rows@.len() as int, (#[trigger] c.map@[i]).0, c.map@[i].1, metadata_view(c.map@[i].2.krate.metadata@))
                &&& forall|i: int| 0 <= i < c.map@.len() ==> (#[trigger] c.map@[i]).2.dependencies@.len() == 0
                &&& forall|k: u32| lk.names().contains_key(k) <==> holds_secondary(c.map@, k)
                &&& forall|i: int| 0 <= i < c.map@.len() ==> lk.names()[(#[trigger] c.map@[i]).1] == c.map@[i].0
                &&& lk.versions() == Map::<u32, u32>::empty()
                &&& lk.names() == crate_names(rows@)
            },
    {
        let mut carriage = Carriage::new();
        let mut lookup = Lookup::with_krate(std::collections::BTreeMap::new());
        let mut j: usize = 0;
        while j < rows.len()
            invariant
                j <= rows@.len(),
                carriage.wf(),
                forall|m: int| 0 <= m < j ==> holds_both(carriage.map@, #[trigger] rows@[m].name@, rows@[m].id),
                forall|i: int| 0 <= i < carriage.map@.len() ==> named_in_rows(rows@, j as int, (#[trigger] carriage.map@[i]).0, carriage.map@[i].1, metadata_view(carriage.map@[i].2.krate.metadata@)),
                forall|i: int| 0 <= i < carriage.map@.len() ==> (#[trigger] carriage.map@[i]).2.dependencies@.len() == 0,
                forall|k: u32| lookup.names().contains_key(k) <==> holds_secondary(carriage.map@, k),
                forall|i: int| 0 <= i < carriage.map@.len() ==> lookup.names()[(#[trigger] carriage.map@[i]).1] == carriage.map@[i].0,
                lookup.versions() == Map::<u32, u32>::empty(),
                lookup.names() == crate_names(rows@.take(j as int)),
                !crate_rows_conflict(rows@.take(j as int)),
            decreases rows@.len() - j,
        {
            let row = &rows[j];
            let ghost before = carriage.map@;
            let node = Crate::new(Kiste { id: row.id, name: row.name.clone(), metadata: crate::store::clone_metadata(&row.metadata) });
            let ghost nd = node;
            match carriage.map.insert_with_both_keys(row.name.clone(), row.id, node) {
                Ok(()) => {}
                Err(_) => {
                    proof {
                        if holds_secondary(before, row.id) {
                            let i = choose|i: int| 0 <= i < before.len() && before[i].1 == row.id;
                            assert(named_in_rows(rows@, j as int, before[i].0, before[i].1, metadata_view(before[i].2.krate.metadata@)));
                            let m = choose|m: int| 0 <= m < j && rows@[m].name@ == before[i].0 && rows@[m].id == before[i].1;
                            assert(!holds_both(before, row.name@, row.id));
                            assert(rows@[m].name@ != rows@[j as int].name@);
                        } else {
                            let i = choose|i: int| 0 <= i < before.len() && before[i].0 == row.name@;
                            assert(named_in_rows(rows@, j as int, before[i].0, before[i].1, metadata_view(before[i].2.krate.metadata@)));
                            let m = choose|m: int| 0 <= m < j && rows@[m].name@ == before[i].0 && rows@[m].id == before[i].1;
                            assert(rows@[m].id != rows@[j as int].id);
                        }
                        assert(crate_rows_conflict(rows@));
                    }
                    return Err(IngestError::InconsistentKey);
                }
            }
            lookup.insert_crate_name(row.id, row.name.clone());
            assert(rows@.take(j + 1).drop_last() =~= rows@.take(j as int));
            proof {
                let after = carriage.map@;
                let row_j = rows@[j as int];
                let entry = (row_j.name@, row_j.id, nd);
                lemma_unique_keys(before);
                // where the row stands now
                let p: int = if holds_secondary(before, row_j.id) {
                    let i = choose|i: int| 0 <= i < before.len() && before[i].1 == row_j.id
                        && after == before.update(i, entry);
                    i
                } else {
                    let n = choose|n: int| 0 <= n <= before.len() && after == before.insert(n, entry);
                    n
                };
                // the old position of each entry
                let old_pos = |k: int| if holds_secondary(before, row_j.id) { k } else if k < p { k } else { k - 1 };
                assert(after[p] == entry);
                assert forall|k: int| 0 <= k < after.len() && k != p implies #[trigger] after[k] == before[old_pos(k)] && 0 <= old_pos(k) < before.len() by {}
                assert forall|k: int| 0 <= k < before.len() implies exists|q: int| 0 <= q < after.len() && after[q].0 == (#[trigger] before[k]).0 && after[q].1 == before[k].1 by {
                    if holds_secondary(before, row_j.id) {
                        assert(after[k].0 == before[k].0 && after[k].1 == before[k].1) by {
                            if k == p {
                                assert(holds_both(before, row_j.name@, row_j.id));
                            }
                        }
                    } else if k < p {
                        assert(after[k] == before[k]);
                    } else {
                        assert(after[k + 1] == before[k]);
                    }
                }
                assert forall|m: int| 0 <= m < j + 1 implies holds_both(after, #[trigger] rows@[m].name@, rows@[m].id) by {
                    if m < j {
                        let k = choose|k: int| 0 <= k < before.len() && before[k].0 == rows@[m].name@ && before[k].1 == rows@[m].id;
                    } else {
                        assert(after[p].0 == rows@[m].name@);
                    }
                }
                assert forall|i: int| 0 <= i < after.len() implies named_in_rows(rows@, j + 1, (#[trigger] after[i]).0, after[i].1, metadata_view(after[i].2.krate.metadata@)) by {
                    if i != p {
                        assert(after[i] == before[old_pos(i)]);
                        let q = old_pos(i);
                        assert(named_in_rows(rows@, j as int, before[q].0, before[q].1, metadata_view(before[q].2.krate.metadata@)));
                    }
                }
                assert forall|k: u32| lookup.names().contains_key(k) <==> holds_secondary(after, k) by {
                    if holds_secondary(after, k) {
                        let i = choose|i: int| 0 <= i < after.len() && after[i].1 == k;
                        if i != p {
                            assert(before[old_pos(i)].1 == k);
                        }
                    }
                    if holds_secondary(before, k) {
                        let i = choose|i: int| 0 <= i < before.len() && before[i].1 == k;
                        let q = choose|q: int| 0 <= q < after.len() && after[q].0 == before[i].0 && after[q].1 == before[i].1;
                    }
                }
                assert forall|i: int| 0 <= i < after.len() implies lookup.names()[(#[trigger] after[i]).1] == after[i].0 by {
                    if i != p {
                        let q = old_pos(i);
                        assert(after[i] == before[q]);
                        if before[q].1 == row_j.id {
                            assert(holds_secondary(before, row_j.id));
                            assert(q == p);
                            assert(holds_both(before, row_j.name@, row_j.id));
                        }
                    }
                }
                assert forall|a: int, b: int| 0 <= a < j + 1 && 0 <= b < j + 1 implies
                    !((#[trigger] rows@.take(j + 1)[a].id == #[trigger] rows@.take(j + 1)[b].id) != (rows@.take(j + 1)[a].name@ == rows@.take(j + 1)[b].name@)) by {
                    if a < j && b < j {
                        assert(rows@.take(j as int)[a] == rows@[a]);
                        assert(rows@.take(j as int)[b] == rows@[b]);
                    } else if a != b {
                        let m = if a < j { a } else { b };
                        let k = choose|k: int| 0 <= k < before.len() && before[k].0 == rows@[m].name@ && before[k].1 == rows@[m].id;
                        if holds_secondary(before, row_j.id) {
                            assert(holds_both(before, row_j.name@, row_j.id));
                            let w = choose|w: int| 0 <= w < before.len() && before[w].0 == row_j.name@ && before[w].1 == row_j.id;
                            assert((k == w) == (rows@[m].id == row_j.id));
                            assert((k == w) == (rows@[m].name@ == row_j.name@));
                        } else {
                            assert(!holds_primary(before, row_j.name@));
                        }
                    }
                }
                assert(!crate_rows_conflict(rows@.take(j + 1)));
                assert(registry_wf(after)) by {
                    assert forall|i: int| 0 <= i < after.len() implies {
                        &&& (#[trigger] after[i]).2.wf()
                        &&& after[i].2.krate.id == after[i].1
                        &&& after[i].2.krate.name@ == after[i].0
                    } by {
                        if i != p {
                            assert(after[i] == before[old_pos(i)]);
                        }
                    }
                }
            }
            j = j + 1;
        }
        proof {
            assert(rows@.take(rows@.len() as int) =~= rows@);
        }
        Ok((carriage, lookup))
    }
    /// Records the version table: each version with a crate is mapped to it.
    /// Returns the number of rows without a crate, which are skipped.
    pub fn process_versions(rows: &Vec<Lesart>, lookup: &mut Lookup) -> (r: usize)
        ensures
            final(lookup).versions() == versions_after(old(lookup).versions(), rows@),
            final(lookup).names() == old(lookup).names(),
            r == count_orphans(rows@),
    {
        let mut skipped: usize = 0;
        let mut j: usize = 0;
        while j < rows.len()
            invariant
                j <= rows@.len(),
                lookup.versions() == versions_after(old(lookup).versions(), rows@.take(j as int)),
                lookup.names() == old(lookup).names(),
                skipped == count_orphans(rows@.take(j as int)),
                skipped <= j,
            decreases rows@.len() - j,
        {
            assert(rows@.take(j + 1).drop_last() =~= rows@.take(j as int));
            match rows[j].crate_id {
                Some(c) => {
                    lookup.insert_dependency_relation(c, rows[j].id);
                }
                None => {
                    skipped = skipped + 1;
                }
            }
            j = j + 1;
        }
        assert(rows@.take(rows@.len() as int) =~= rows@);
        skipped
    }

    /// Adds to crate `(krate_name, krate)` the edge to crate
    /// `(dependency_name, dependency)`. Returns whether that crate is in the
    /// registry; an edge that contradicts one the crate has is refused.
    pub fn add_dependency(
        &mut self,
        krate: u32,
        krate_name: &str,
        dependency: u32,
        dependency_name: String,
        version: Option<String>,
    ) -> (r: Result<bool, IngestError>)
        requires
            old(self).wf(),
        ensures
            final(self).wf(),
            same_keys(old(self).map@, final(self).map@),
            r is Err <==> edge_conflict(old(self).map@, krate_name@, krate, dependency_name@, dependency),
            r is Err ==> r == Err::<bool, IngestError>(IngestError::InconsistentKey),
            r is Err ==> forall|i: int| 0 <= i < final(self).map@.len()
                ==> (#[trigger] final(self).map@[i]).2.dependencies@ == old(self).map@[i].2.dependencies@,
            r is Ok ==> (r == Ok::<bool, IngestError>(true) <==> holds_both(old(self).map@, krate_name@, krate)),
            r == Ok::<bool, IngestError>(false) ==> final(self).map@ == old(self).map@,
            r == Ok::<bool, IngestError>(true) ==> has_edge(final(self).map@, krate_name@, krate, dependency_name@, dependency),
            r is Ok ==> forall|i: int, k: int| 0 <= i < old(self).map@.len() && 0 <= k < old(self).map@[i].2.dependencies@.len()
                && !(old(self).map@[i].1 == krate && old(self).map@[i].0 == krate_name@ && old(self).map@[i].2.dependencies@[k].1 == dependency)
                ==> edge_in(final(self).map@[i].2.dependencies@, #[trigger] old(self).map@[i].2.dependencies@[k]),
            r is Ok ==> forall|i: int, k: int| 0 <= i < final(self).map@.len() && 0 <= k < final(self).map@[i].2.dependencies@.len()
                ==> edge_in(old(self).map@[i].2.dependencies@, #[trigger] final(self).map@[i].2.dependencies@[k]) || ({
                    let e = final(self).map@[i].2.dependencies@[k];
                    final(self).map@[i].1 == krate && e.0 == dependency_name@ && e.1 == dependency && e.2@ == (dependency, opt_view(version))
                }),
    {
        proof {
            lemma_unique_keys(self.map@);
        }
        let ghost before = self.map@;
        let ghost ver = opt_view(version);
        match self.map.position_of_both(krate_name, krate) {
            None => Ok(false),
            Some(i) => {
                let ghost dname = dependency_name@;
                let node = self.map.value_mut_at(i);
                let added = node.add_dependency(dependency, dependency_name, version);
                proof {
                    let after = self.map@;
                    assert(after == before.update(i as int, (before[i as int].0, before[i as int].1, after[i as int].2)));
                    assert(registry_wf(after)) by {
                        assert forall|a: int, b: int| 0 <= a < b < after.len() implies #[trigger] crate::order::name_before(after[a].0, after[b].0) by {
                            assert(crate::order::name_before(before[a].0, before[b].0));
                        }
                        assert forall|a: int| 0 <= a < after.len() implies {
                            &&& (#[trigger] after[a]).2.wf()
                            &&& after[a].2.krate.id == after[a].1
                            &&& after[a].2.krate.name@ == after[a].0
                        } by {
                            if a != i {
                                assert(after[a] == before[a]);
                            }
                        }
                    }
                    if added is Ok {
                        assert(holds_edge(after[i as int].2.dependencies@, dname, dependency));
                    } else {
                        assert forall|a: int| 0 <= a < after.len()
                            implies (#[trigger] after[a]).2.dependencies@ == before[a].2.dependencies@ by {
                            if a != i {
                                assert(after[a] == before[a]);
                            }
                        }
                    }
                    assert forall|a: int, k: int| 0 <= a < after.len() && 0 <= k < after[a].2.dependencies@.len()
                        implies edge_in(before[a].2.dependencies@, #[trigger] after[a].2.dependencies@[k]) || ({
                            let e = after[a].2.dependencies@[k];
                            after[a].1 == krate && e.0 == dname && e.1 == dependency && e.2@ == (dependency, ver)
                        }) by {
                        if a != i {
                            assert(after[a] == before[a]);
                        } else if added is Err {
                        }
                    }
                    assert forall|a: int, k: int| 0 <= a < before.len() && 0 <= k < before[a].2.dependencies@.len()
                        && !(before[a].1 == krate && before[a].0 == krate_name@ && before[a].2.dependencies@[k].1 == dependency)
                        implies edge_in(after[a].2.dependencies@, #[trigger] before[a].2.dependencies@[k]) by {
                        if a != i {
                            assert(after[a] == before[a]);
                        } else if added is Err {
                            assert(after[a].2.dependencies@[k] == before[a].2.dependencies@[k]);
                        }
                    }
                    if edge_conflict(before, krate_name@, krate, dname, dependency) {
                        let w = choose|w: int| 0 <= w < before.len() && before[w].0 == krate_name@ && before[w].1 == krate && {
                            let d = before[w].2.dependencies@;
                            (holds_key(d, dependency) && !holds_edge(d, dname, dependency)) || (!holds_key(d, dependency) && holds_name(d, dname))
                        };
                        assert(w == i);
                    }
                }
                match added {
                    Ok(()) => Ok(true),
                    Err(_) => Err(IngestError::InconsistentKey),
                }
            }
        }
    }
    /// Adds the edges of the dependency table. A row whose crates cannot all
    /// be resolved, or whose depending crate is not in the registry, adds
    /// nothing and is counted; the count is returned.
    pub fn process_dependencies(&mut self, rows: &Vec<Depencil>, lookup: &Lookup) -> (r: usize)
        requires
            old(self).wf(),
            names_injective(lookup.names()),
            edges_follow(old(self).map@, lookup.names()),
        ensures
            final(self).wf(),
            same_keys(old(self).map@, final(self).map@),
            edges_follow(final(self).map@, lookup.names()),
            r == count_unresolved(old(self).map@, lookup.names(), lookup.versions(), rows@),
            forall|m: int| 0 <= m < rows@.len() && row_lands(old(self).map@, lookup.names(), lookup.versions(), #[trigger] rows@[m])
                ==> has_edge(
                    final(self).map@,
                    lookup.names()[rows@[m].crate_id],
                    rows@[m].crate_id,
                    lookup.names()[row_target(lookup.versions(), rows@[m])],
                    row_target(lookup.versions(), rows@[m]),
                ),
            forall|i: int, k: int| 0 <= i < final(self).map@.len() && 0 <= k < final(self).map@[i].2.dependencies@.len()
                ==> edge_in(old(self).map@[i].2.dependencies@, #[trigger] final(self).map@[i].2.dependencies@[k])
                    || edge_from_rows(rows@, rows@.len() as int, lookup.names(), lookup.versions(), final(self).map@[i].1, final(self).map@[i].2.dependencies@[k]),
            forall|i: int, k: int| 0 <= i < old(self).map@.len() && 0 <= k < old(self).map@[i].2.dependencies@.len()
                && !replaced_by_rows(old(self).map@, rows@, rows@.len() as int, lookup.names(), lookup.versions(),
                    old(self).map@[i].1, old(self).map@[i].2.dependencies@[k].1)
                ==> edge_in(final(self).map@[i].2.dependencies@, #[trigger] old(self).map@[i].2.dependencies@[k]),
    {
        let ghost names = lookup.names();
        let ghost versions = lookup.versions();
        let ghost start = self.map@;
        let mut unresolved: usize = 0;
        let mut j: usize = 0;
        while j < rows.len()
            invariant
                j <= rows@.len(),
                unresolved <= j,
                names == lookup.names(),
                versions == lookup.versions(),
                names_injective(names),
                self.wf(),
                same_keys(start, self.map@),
                edges_follow(self.map@, names),
                unresolved == count_unresolved(start, names, versions, rows@.take(j as int)),
                forall|m: int| 0 <= m < j && row_lands(start, names, versions, #[trigger] rows@[m])
                    ==> has_edge(self.map@, names[rows@[m].crate_id], rows@[m].crate_id,
                        names[row_target(versions, rows@[m])], row_target(versions, rows@[m])),
                forall|i: int, k: int| 0 <= i < self.map@.len() && 0 <= k < self.map@[i].2.dependencies@.len()
                    ==> edge_in(start[i].2.dependencies@, #[trigger] self.map@[i].2.dependencies@[k])
                        || edge_from_rows(rows@, j as int, names, versions, self.map@[i].1, self.map@[i].2.dependencies@[k]),
                forall|i: int, k: int| 0 <= i < start.len() && 0 <= k < start[i].2.dependencies@.len()
                    && !replaced_by_rows(start, rows@, j as int, names, versions, start[i].1, start[i].2.dependencies@[k].1)
                    ==> edge_in(self.map@[i].2.dependencies@, #[trigger] start[i].2.dependencies@[k]),
            decreases rows@.len() - j,
        {
            let row = &rows[j];
            let ghost cur = self.map@;
            proof {
                assert(rows@.take(j + 1).drop_last() =~= rows@.take(j as int));
                lemma_same_keys_refl(cur);
                lemma_same_keys(start, cur, cur);
            }
            let krate_name = lookup.get_crate_name(row.crate_id);
            let target = lookup.get_dependency_relation_for_version(row.version_id);
            let mut landed = false;
            if let (Some(krate_name), Some(target)) = (krate_name, target) {
                let target = *target;
                if let Some(target_name) = lookup.get_crate_name(target) {
                    let version = match &row.req {
                        Some(v) => Some(v.clone()),
                        None => None,
                    };
                    let ghost tname = target_name@;
                    proof {
                        // the new edge cannot contradict an edge the crate has
                        if edge_conflict(cur, krate_name@, row.crate_id, tname, target) {
                            let w = choose|w: int| 0 <= w < cur.len() && cur[w].0 == krate_name@ && cur[w].1 == row.crate_id && {
                                let d = cur[w].2.dependencies@;
                                (holds_key(d, target) && !holds_edge(d, tname, target)) || (!holds_key(d, target) && holds_name(d, tname))
                            };
                            let d = cur[w].2.dependencies@;
                            if holds_key(d, target) {
                                let k = choose|k: int| 0 <= k < d.len() && d[k].1 == target;
                                assert(names[d[k].1] == d[k].0);
                            } else {
                                let k = choose|k: int| 0 <= k < d.len() && d[k].0 == tname;
                                assert(names[d[k].1] == d[k].0);
                                assert(d[k].1 != target);
                            }
                        }
                    }
                    let added = self.add_dependency(row.crate_id, krate_name, target, target_name.to_string(), version);
                    match added {
                        Ok(found) => {
                            landed = found;
                        }
                        Err(_) => {}
                    }
                    proof {
                        let new = self.map@;
                        lemma_same_keys(start, cur, new);
                        assert(edges_follow(new, names)) by {
                            assert forall|i: int, k: int| 0 <= i < new.len() && 0 <= k < new[i].2.dependencies@.len()
                                implies names.contains_key(#[trigger] new[i].2.dependencies@[k].1)
                                    && names[new[i].2.dependencies@[k].1] == new[i].2.dependencies@[k].0 by {
                                if edge_in(cur[i].2.dependencies@, new[i].2.dependencies@[k]) {
                                    let q = choose|q: int| 0 <= q < cur[i].2.dependencies@.len() && cur[i].2.dependencies@[q] == new[i].2.dependencies@[k];
                                    assert(names.contains_key(cur[i].2.dependencies@[q].1));
                                }
                            }
                        }
                        assert forall|m: int| 0 <= m < j + 1 && row_lands(start, names, versions, #[trigger] rows@[m])
                            implies has_edge(new, names[rows@[m].crate_id], rows@[m].crate_id,
                                names[row_target(versions, rows@[m])], row_target(versions, rows@[m])) by {
                            let t = row_target(versions, rows@[m]);
                            if m < j {
                                let i = choose|i: int| 0 <= i < cur.len() && cur[i].0 == names[rows@[m].crate_id] && cur[i].1 == rows@[m].crate_id
                                    && holds_edge(cur[i].2.dependencies@, names[t], t);
                                let k = choose|k: int| 0 <= k < cur[i].2.dependencies@.len() && cur[i].2.dependencies@[k].0 == names[t]
                                    && cur[i].2.dependencies@[k].1 == t;
                                if !(cur[i].1 == row.crate_id && cur[i].0 == krate_name@ && cur[i].2.dependencies@[k].1 == target) {
                                    assert(edge_in(new[i].2.dependencies@, cur[i].2.dependencies@[k]));
                                    assert(new[i].0 == cur[i].0 && new[i].1 == cur[i].1);
                                }
                            }
                        }
                        assert forall|i: int, k: int| 0 <= i < new.len() && 0 <= k < new[i].2.dependencies@.len()
                            implies edge_in(start[i].2.dependencies@, #[trigger] new[i].2.dependencies@[k])
                                || edge_from_rows(rows@, j + 1, names, versions, new[i].1, new[i].2.dependencies@[k]) by {
                            let e = new[i].2.dependencies@[k];
                            if edge_in(cur[i].2.dependencies@, e) {
                                let q = choose|q: int| 0 <= q < cur[i].2.dependencies@.len() && cur[i].2.dependencies@[q] == e;
                                if !edge_in(start[i].2.dependencies@, cur[i].2.dependencies@[q]) {
                                    let w = choose|w: int| 0 <= w < j && rows@[w].crate_id == cur[i].1 && row_resolves(names, versions, rows@[w])
                                        && versions[rows@[w].version_id] == e.1 && names[e.1] == e.0 && e.2@ == (e.1, opt_view(rows@[w].req));
                                }
                            } else {
                                assert(rows@[j as int] == *row);
                            }
                        }
                        assert forall|i: int, k: int| 0 <= i < start.len() && 0 <= k < start[i].2.dependencies@.len()
                            && !replaced_by_rows(start, rows@, j + 1, names, versions, start[i].1, start[i].2.dependencies@[k].1)
                            implies edge_in(new[i].2.dependencies@, #[trigger] start[i].2.dependencies@[k]) by {
                            let e = start[i].2.dependencies@[k];
                            assert forall|m: int| 0 <= m < j && row_lands(start, names, versions, #[trigger] rows@[m])
                                && rows@[m].crate_id == start[i].1 implies versions[rows@[m].version_id] != e.1 by {
                                assert(!replaced_by_rows(start, rows@, j + 1, names, versions, start[i].1, e.1) ==> !(0 <= m < j + 1
                                    && row_lands(start, names, versions, rows@[m]) && rows@[m].crate_id == start[i].1
                                    && versions[rows@[m].version_id] == e.1));
                            }
                            assert(!replaced_by_rows(start, rows@, j as int, names, versions, start[i].1, e.1));
                            let q = choose|q: int| 0 <= q < cur[i].2.dependencies@.len() && cur[i].2.dependencies@[q] == e;
                            if cur[i].1 == row.crate_id && cur[i].0 == krate_name@ && e.1 == target {
                                assert(rows@[j as int] == *row);
                                assert(crate::bikey::holds_both(start, names[row.crate_id], row.crate_id));
                                assert(row_lands(start, names, versions, rows@[j as int]));
                                assert(replaced_by_rows(start, rows@, j + 1, names, versions, start[i].1, e.1));
                            }
                            assert(edge_in(new[i].2.dependencies@, cur[i].2.dependencies@[q]));
                        }
                    }
                }
            }
            if !landed {
                unresolved = unresolved + 1;
            }
            j = j + 1;
        }
        assert(rows@.take(rows@.len() as int) =~= rows@);
        unresolved
    }
    /// However many dependency rows name the same pair of crates, the
    /// depending crate holds exactly one edge to the other: where crate
    /// `(name, id)` has an edge to `(target_name, target)`, that crate is at
    /// one position, and one edge of it points to `target`.
    pub proof fn lemma_one_edge_per_pair(s: Registry, name: Seq<char>, id: u32, target_name: Seq<char>, target: u32)
        requires
            registry_wf(s),
            has_edge(s, name, id, target_name, target),
        ensures
            exists|i: int, k: int| 0 <= i < s.len() && 0 <= k < s[i].2.dependencies@.len() && {
                &&& s[i].0 == name && s[i].1 == id
                &&& s[i].2.dependencies@[k].0 == target_name && s[i].2.dependencies@[k].1 == target
                &&& forall|i2: int, k2: int| 0 <= i2 < s.len() && 0 <= k2 < s[i2].2.dependencies@.len()
                    && s[i2].1 == id && #[trigger] s[i2].2.dependencies@[k2].1 == target ==> i2 == i && k2 == k
            },
    {
        lemma_unique_keys(s);
        let i = choose|i: int| 0 <= i < s.len() && s[i].0 == name && s[i].1 == id
            && holds_edge(s[i].2.dependencies@, target_name, target);
        let d = s[i].2.dependencies@;
        let k = choose|k: int| 0 <= k < d.len() && d[k].0 == target_name && d[k].1 == target;
        assert(s[i].2.wf());
        lemma_unique_keys(d);
        assert forall|i2: int, k2: int| 0 <= i2 < s.len() && 0 <= k2 < s[i2].2.dependencies@.len()
            && s[i2].1 == id && #[trigger] s[i2].2.dependencies@[k2].1 == target implies i2 == i && k2 == k by {
            assert(i2 == i);
        }
    }
}

} // verus!
