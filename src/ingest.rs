use crate::carriage::{crate_rows_conflict, Carriage, IngestError};
use crate::conditions::str_eq;
use crate::lookup::Lookup;
use crate::tables::{
    depencil_view, dependency_rows, lesart_view, version_rows, bad_crate_rows, bad_dependency_rows, bad_version_rows, crate_rows, csv_records, data_of, decode_crates,
    decode_dependencies, decode_versions, header_of, kiste_view, read_records, CrateRow,
};
use crate::store::{Depencil, Kiste, Lesart};
use std::io::Read;
use vstd::prelude::*;
use vstd::string::StrSliceExecFns;

verus! {

/// The bytes a gzip stream decompresses to; `None` where it is not one.
pub uninterp spec fn gunzipped(b: Seq<u8>) -> Option<Seq<u8>>;

/// Relies on `flate2::read::GzDecoder`: the decompressed bytes of a gzip
/// stream, `None` where decompression fails.
#[verifier::external_body]
fn gunzip(b: &[u8]) -> (r: Option<Vec<u8>>)
    ensures
        match r {
            Some(v) => gunzipped(b@) == Some(v@),
            None => gunzipped(b@) is None,
        },
{
    let mut out = Vec::new();
    match flate2::read::GzDecoder::new(b).read_to_end(&mut out) {
        Ok(_) => Some(out),
        Err(_) => None,
    }
}

/// The members of a tar archive, in archive order: each path and contents;
/// `None` where the archive cannot be read.
pub uninterp spec fn tar_members(b: Seq<u8>) -> Option<Seq<(Seq<char>, Seq<u8>)>>;

pub open spec fn members_view(m: Seq<(String, Vec<u8>)>) -> Seq<(Seq<char>, Seq<u8>)> {
    m.map_values(|e: (String, Vec<u8>)| (e.0@, e.1@))
}

/// Relies on `tar::Archive::entries`, `Entry::path_bytes` (read as UTF-8,
/// with bad bytes replaced) and reading each entry: the path and contents of
/// every member, `None` where an entry cannot be read.
#[verifier::external_body]
fn untar(b: &[u8]) -> (r: Option<Vec<(String, Vec<u8>)>>)
    ensures
        match r {
            Some(m) => tar_members(b@) == Some(members_view(m@)),
            None => tar_members(b@) is None,
        },
{
    let mut archive = tar::Archive::new(b);
    let mut members = Vec::new();
    for entry in archive.entries().ok()? {
        let mut entry = entry.ok()?;
        let path = String::from_utf8_lossy(&entry.path_bytes()).into_owned();
        let mut data = Vec::new();
        entry.read_to_end(&mut data).ok()?;
        members.push((path, data));
    }
    Some(members)
}

/// The member at `path` is the file `name`: its last path component is `name`.
pub open spec fn names_member(path: Seq<char>, name: Seq<char>) -> bool {
    path == name || (path.len() > name.len() && path[path.len() - name.len() - 1] == '/'
        && path.skip(path.len() - name.len()) == name)
}

/// Whether the last component of `path` is `name`.
pub fn is_member(path: &str, name: &str) -> (r: bool)
    ensures
        r == names_member(path@, name@),
{
    let n = path.unicode_len();
    let k = name.unicode_len();
    if str_eq(path, name) {
        return true;
    }
    if n <= k {
        return false;
    }
    let sep = path.get_char(n - k - 1);
    let tail = path.substring_char(n - k, n);
    assert(tail@ == path@.skip(n - k));
    sep == '/' && str_eq(tail, name)
}

/// Member `i` is the first of the archive that is the file `name`.
pub open spec fn first_member(ms: Seq<(Seq<char>, Seq<u8>)>, name: Seq<char>, i: int) -> bool {
    0 <= i < ms.len() && names_member(ms[i].0, name) && forall|j: int| 0 <= j < i ==> !names_member(#[trigger] ms[j].0, name)
}

/// The contents of the first member that is the file `name`.
pub open spec fn member_contents(ms: Seq<(Seq<char>, Seq<u8>)>, name: Seq<char>) -> Option<Seq<u8>> {
    if exists|i: int| first_member(ms, name, i) {
        Some(ms[choose|i: int| first_member(ms, name, i)].1)
    } else {
        None
    }
}

fn find_member<'a>(members: &'a Vec<(String, Vec<u8>)>, name: &str) -> (r: Option<&'a Vec<u8>>)
    ensures
        match r {
            Some(c) => member_contents(members_view(members@), name@) == Some(c@),
            None => member_contents(members_view(members@), name@) is None,
        },
{
    let ghost ms = members_view(members@);
    let mut i: usize = 0;
    while i < members.len()
        invariant
            i <= members@.len(),
            ms == members_view(members@),
            forall|j: int| 0 <= j < i ==> !names_member(#[trigger] ms[j].0, name@),
        decreases members@.len() - i,
    {
        if is_member(members[i].0.as_str(), name) {
            assert(first_member(ms, name@, i as int));
            assert forall|c: int| first_member(ms, name@, c) implies c == i by {
                if c > i {
                    assert(names_member(ms[i as int].0, name@));
                }
            }
            return Some(&members[i].1);
        }
        i = i + 1;
    }
    None
}

/// The counts that an ingestion reports beside its registry.
#[derive(Clone, Copy, Debug, PartialEq, Eq, Structural)]
pub struct IngestSummary {
    /// Rows of the three tables that could not be read.
    pub malformed: usize,
    /// Versions without a crate, skipped.
    pub orphan_versions: usize,
    /// Dependency rows whose crates could not be resolved.
    pub unresolved: usize,
}

/// The number of rows of the three tables that cannot be read.
pub open spec fn malformed_rows(c: Seq<u8>, v: Seq<u8>, d: Seq<u8>) -> int {
    let rc = csv_records(c);
    let rv = csv_records(v);
    let rd = csv_records(d);
    bad_crate_rows(header_of(rc), data_of(rc)) as int + bad_version_rows(header_of(rv), data_of(rv)) as int
        + bad_dependency_rows(header_of(rd), data_of(rd)) as int
}

/// The crates the crate table gives.
pub open spec fn crates_of(c: Seq<u8>) -> Seq<CrateRow> {
    let rc = csv_records(c);
    crate_rows(header_of(rc), data_of(rc))
}

/// Two crates of the table contradict each other.
pub open spec fn crate_views_conflict(rows: Seq<CrateRow>) -> bool {
    exists|i: int, j: int| 0 <= i < rows.len() && 0 <= j < rows.len()
        && ((rows[i].0 == rows[j].0) != (rows[i].1 == rows[j].1))
}

/// The name lookup of the crates of a table: id to name, later rows winning.
pub open spec fn names_of(rows: Seq<CrateRow>) -> Map<u32, Seq<char>>
    decreases rows.len(),
{
    if rows.len() == 0 {
        Map::empty()
    } else {
        names_of(rows.drop_last()).insert(rows.last().0, rows.last().1)
    }
}

/// The version lookup of the versions of a table: version id to crate id,
/// for versions with a crate, later rows winning.
pub open spec fn versions_of(rows: Seq<(u32, Option<u32>)>) -> Map<u32, u32>
    decreases rows.len(),
{
    if rows.len() == 0 {
        Map::empty()
    } else {
        match rows.last().1 {
            Some(c) => versions_of(rows.drop_last()).insert(rows.last().0, c),
            None => versions_of(rows.drop_last()),
        }
    }
}

/// The version table's versions.
pub open spec fn versions_in(v: Seq<u8>) -> Seq<(u32, Option<u32>)> {
    let rv = csv_records(v);
    version_rows(header_of(rv), data_of(rv))
}

/// The dependency table's dependencies.
pub open spec fn dependencies_in(d: Seq<u8>) -> Seq<(u32, u32, Option<Seq<char>>)> {
    let rd = csv_records(d);
    dependency_rows(header_of(rd), data_of(rd))
}

/// Both crates of a dependency resolve: its version, the depending crate and
/// the crate of that version.
pub open spec fn resolves(names: Map<u32, Seq<char>>, versions: Map<u32, u32>, d: (u32, u32, Option<Seq<char>>)) -> bool {
    &&& versions.contains_key(d.1)
    &&& names.contains_key(d.0)
    &&& names.contains_key(versions[d.1])
}

/// The number of dependencies that do not resolve.
pub open spec fn unresolved_count(names: Map<u32, Seq<char>>, versions: Map<u32, u32>, ds: Seq<(u32, u32, Option<Seq<char>>)>) -> nat
    decreases ds.len(),
{
    if ds.len() == 0 {
        0
    } else {
        unresolved_count(names, versions, ds.drop_last()) + if resolves(names, versions, ds.last()) { 0nat } else { 1nat }
    }
}

/// The registry holds, for each dependency that resolves, the edge from
/// the depending crate to the crate of the version, and no other edge.
pub open spec fn edges_match(s: crate::carriage::Registry, names: Map<u32, Seq<char>>, versions: Map<u32, u32>, ds: Seq<(u32, u32, Option<Seq<char>>)>) -> bool {
    &&& forall|j: int| 0 <= j < ds.len() && resolves(names, versions, #[trigger] ds[j])
        ==> crate::carriage::has_edge(s, names[ds[j].0], ds[j].0, names[versions[ds[j].1]], versions[ds[j].1])
    &&& forall|i: int, k: int| 0 <= i < s.len() && 0 <= k < s[i].2.dependencies@.len()
        ==> edge_of_dependencies(names, versions, ds, s[i].1, #[trigger] s[i].2.dependencies@[k])
}

/// A dependency of crate `id` that resolves gives the edge `e`.
pub open spec fn edge_of_dependencies(
    names: Map<u32, Seq<char>>,
    versions: Map<u32, u32>,
    ds: Seq<(u32, u32, Option<Seq<char>>)>,
    id: u32,
    e: (Seq<char>, u32, crate::store::Skid),
) -> bool {
    exists|j: int| 0 <= j < ds.len() && (#[trigger] ds[j]).0 == id && resolves(names, versions, ds[j])
        && versions[ds[j].1] == e.1 && names[e.1] == e.0 && e.2@ == (e.1, ds[j].2)
}

/// What stops an ingestion of the three tables, if anything: too many rows
/// that cannot be read, or crates that contradict each other.
pub open spec fn tables_outcome(c: Seq<u8>, v: Seq<u8>, d: Seq<u8>, max_malformed: usize) -> Option<IngestError> {
    if malformed_rows(c, v, d) > max_malformed {
        Some(IngestError::TooManyMalformedRows)
    } else if crate_views_conflict(crates_of(c)) {
        Some(IngestError::InconsistentKey)
    } else {
        None
    }
}

proof fn lemma_names_of(ks: Seq<Kiste>)
    ensures
        crate::carriage::crate_names(ks) == names_of(ks.map_values(|k: Kiste| kiste_view(k))),
    decreases ks.len(),
{
    if ks.len() > 0 {
        lemma_names_of(ks.drop_last());
        assert(ks.drop_last().map_values(|k: Kiste| kiste_view(k)) =~= ks.map_values(|k: Kiste| kiste_view(k)).drop_last());
    }
}

proof fn lemma_versions_of(ls: Seq<Lesart>)
    ensures
        crate::carriage::versions_after(Map::empty(), ls) == versions_of(ls.map_values(|l: Lesart| lesart_view(l))),
    decreases ls.len(),
{
    if ls.len() > 0 {
        lemma_versions_of(ls.drop_last());
        assert(ls.drop_last().map_values(|l: Lesart| lesart_view(l)) =~= ls.map_values(|l: Lesart| lesart_view(l)).drop_last());
    }
}

proof fn lemma_unresolved(s: crate::carriage::Registry, names: Map<u32, Seq<char>>, versions: Map<u32, u32>, ds: Seq<Depencil>)
    requires
        forall|k: u32| names.contains_key(k) ==> crate::bikey::holds_both(s, names[k], k),
    ensures
        crate::carriage::count_unresolved(s, names, versions, ds)
            == unresolved_count(names, versions, ds.map_values(|d: Depencil| depencil_view(d))),
    decreases ds.len(),
{
    if ds.len() > 0 {
        lemma_unresolved(s, names, versions, ds.drop_last());
        assert(ds.drop_last().map_values(|d: Depencil| depencil_view(d)) =~= ds.map_values(|d: Depencil| depencil_view(d)).drop_last());
    }
}

/// Builds the registry from the crate, version and dependency tables, in
/// that order. Rows that cannot be read are counted and skipped, unless
/// there are more than `max_malformed` of them.
pub fn ingest_tables(crates: &[u8], versions: &[u8], dependencies: &[u8], max_malformed: usize) -> (r: Result<(Carriage, IngestSummary), IngestError>)
    ensures
        match tables_outcome(crates@, versions@, dependencies@, max_malformed) {
            Some(e) => r == Err::<(Carriage, IngestSummary), IngestError>(e),
            None => r is Ok,
        },
        r matches Ok((c, sm)) ==> {
            &&& c.wf()
            &&& sm.malformed == malformed_rows(crates@, versions@, dependencies@)
            &&& forall|j: int| 0 <= j < crates_of(crates@).len()
                ==> crate::bikey::holds_both(c.map@, (#[trigger] crates_of(crates@)[j]).1, crates_of(crates@)[j].0)
            &&& edges_match(c.map@, names_of(crates_of(crates@)), versions_of(versions_in(versions@)), dependencies_in(dependencies@))
            &&& sm.unresolved == unresolved_count(names_of(crates_of(crates@)), versions_of(versions_in(versions@)), dependencies_in(dependencies@))
        },
{
    let crate_records = read_records(crates);
    let version_records = read_records(versions);
    let dependency_records = read_records(dependencies);
    let (crate_rows, bad_crates) = decode_crates(&crate_records);
    let (version_rows, bad_versions) = decode_versions(&version_records);
    let (dependency_rows, bad_dependencies) = decode_dependencies(&dependency_records);
    if bad_crates > max_malformed || bad_versions > max_malformed - bad_crates
        || bad_dependencies > max_malformed - bad_crates - bad_versions {
        return Err(IngestError::TooManyMalformedRows);
    }
    let malformed = bad_crates + bad_versions + bad_dependencies;
    let ghost kv = crate_rows@.map_values(|k: Kiste| kiste_view(k));
    proof {
        assert(crate_rows_conflict(crate_rows@) == crate_views_conflict(kv)) by {
            if crate_rows_conflict(crate_rows@) {
                let (i, j) = choose|i: int, j: int| 0 <= i < crate_rows@.len() && 0 <= j < crate_rows@.len()
                    && ((crate_rows@[i].id == crate_rows@[j].id) != (crate_rows@[i].name@ == crate_rows@[j].name@));
                assert(kv[i] == kiste_view(crate_rows@[i]) && kv[j] == kiste_view(crate_rows@[j]));
            }
            if crate_views_conflict(kv) {
                let (i, j) = choose|i: int, j: int| 0 <= i < kv.len() && 0 <= j < kv.len()
                    && ((kv[i].0 == kv[j].0) != (kv[i].1 == kv[j].1));
                assert(kv[i] == kiste_view(crate_rows@[i]) && kv[j] == kiste_view(crate_rows@[j]));
            }
        }
    }
    let (mut carriage, mut lookup) = match Carriage::process_crates(&crate_rows) {
        Ok(built) => built,
        Err(e) => {
            return Err(e);
        }
    };
    let orphan_versions = Carriage::process_versions(&version_rows, &mut lookup);
    proof {
        let s = carriage.map@;
        crate::carriage::lemma_unique_keys(s);
        assert forall|a: u32, b: u32| lookup.names().contains_key(a) && lookup.names().contains_key(b) && a != b
            implies lookup.names()[a] != lookup.names()[b] by {
            let i = choose|i: int| 0 <= i < s.len() && s[i].1 == a;
            let j = choose|j: int| 0 <= j < s.len() && s[j].1 == b;
            assert(lookup.names()[s[i].1] == s[i].0);
            assert(lookup.names()[s[j].1] == s[j].0);
        }
        assert forall|j: int| 0 <= j < crate_rows@.len() implies
            crate::bikey::holds_both(s, (#[trigger] kv[j]).1, kv[j].0) by {
            assert(kv[j] == kiste_view(crate_rows@[j]));
            assert(crate::bikey::holds_both(s, crate_rows@[j].name@, crate_rows@[j].id));
        }
    }
    let ghost s0 = carriage.map@;
    let ghost names = lookup.names();
    let ghost versions = lookup.versions();
    let ghost dv = dependency_rows@.map_values(|d: Depencil| depencil_view(d));
    proof {
        lemma_names_of(crate_rows@);
        lemma_versions_of(version_rows@);
        assert(versions == crate::carriage::versions_after(Map::empty(), version_rows@));
        assert forall|k: u32| names.contains_key(k) implies crate::bikey::holds_both(s0, names[k], k) by {
            let i = choose|i: int| 0 <= i < s0.len() && s0[i].1 == k;
            assert(names[s0[i].1] == s0[i].0);
        }
        lemma_unresolved(s0, names, versions, dependency_rows@);
    }
    let unresolved = carriage.process_dependencies(&dependency_rows, &lookup);
    proof {
        let s1 = carriage.map@;
        crate::carriage::lemma_same_keys_refl(s0);
        crate::carriage::lemma_same_keys(s0, s0, s1);
        assert forall|j: int| 0 <= j < dv.len() && resolves(names, versions, #[trigger] dv[j])
            implies crate::carriage::has_edge(s1, names[dv[j].0], dv[j].0, names[versions[dv[j].1]], versions[dv[j].1]) by {
            let row = dependency_rows@[j];
            assert(dv[j] == depencil_view(row));
            assert(crate::bikey::holds_both(s0, names[row.crate_id], row.crate_id));
            assert(crate::carriage::row_lands(s0, names, versions, row));
        }
        assert forall|i: int, k: int| 0 <= i < s1.len() && 0 <= k < s1[i].2.dependencies@.len()
            implies edge_of_dependencies(names, versions, dv, s1[i].1, #[trigger] s1[i].2.dependencies@[k]) by {
            let e = s1[i].2.dependencies@[k];
            assert(s0[i].2.dependencies@.len() == 0);
            if crate::carriage::edge_in(s0[i].2.dependencies@, e) {
                let q = choose|q: int| 0 <= q < s0[i].2.dependencies@.len() && s0[i].2.dependencies@[q] == e;
            }
            assert(crate::carriage::edge_from_rows(dependency_rows@, dependency_rows@.len() as int, names, versions, s1[i].1, e));
            let j = choose|j: int| 0 <= j < dependency_rows@.len() && dependency_rows@[j].crate_id == s1[i].1
                && crate::carriage::row_resolves(names, versions, dependency_rows@[j])
                && versions[dependency_rows@[j].version_id] == e.1 && names[e.1] == e.0
                && e.2@ == (e.1, crate::store::opt_view(dependency_rows@[j].req));
            assert(dv[j] == depencil_view(dependency_rows@[j]));
        }
    }
    Ok((carriage, IngestSummary { malformed, orphan_versions, unresolved }))
}

/// The three tables of an export: the contents of its members `crates.csv`,
/// `versions.csv` and `dependencies.csv`, wherever they stand.
pub open spec fn export_tables(archive: Seq<u8>) -> Option<Option<(Seq<u8>, Seq<u8>, Seq<u8>)>> {
    match gunzipped(archive) {
        None => None,
        Some(t) => match tar_members(t) {
            None => None,
            Some(ms) => match (
                member_contents(ms, "crates.csv"@),
                member_contents(ms, "versions.csv"@),
                member_contents(ms, "dependencies.csv"@),
            ) {
                (Some(c), Some(v), Some(d)) => Some(Some((c, v, d))),
                _ => Some(None),
            },
        },
    }
}

/// Builds the registry from an export: a gzip-compressed tar archive that
/// holds the three tables, in any order.
pub fn ingest_export(archive: &[u8], max_malformed: usize) -> (r: Result<(Carriage, IngestSummary), IngestError>)
    ensures
        match export_tables(archive@) {
            None => r == Err::<(Carriage, IngestSummary), IngestError>(IngestError::ArchiveUnreadable),
            Some(None) => r == Err::<(Carriage, IngestSummary), IngestError>(IngestError::MissingTableMember),
            Some(Some((c, v, d))) => {
                &&& match tables_outcome(c, v, d, max_malformed) {
                    Some(e) => r == Err::<(Carriage, IngestSummary), IngestError>(e),
                    None => r is Ok,
                }
                &&& r matches Ok((g, sm)) ==> {
                    &&& g.wf()
                    &&& sm.malformed == malformed_rows(c, v, d)
                    &&& forall|j: int| 0 <= j < crates_of(c).len()
                        ==> crate::bikey::holds_both(g.map@, (#[trigger] crates_of(c)[j]).1, crates_of(c)[j].0)
                    &&& edges_match(g.map@, names_of(crates_of(c)), versions_of(versions_in(v)), dependencies_in(d))
                    &&& sm.unresolved == unresolved_count(names_of(crates_of(c)), versions_of(versions_in(v)), dependencies_in(d))
                }
            },
        },
{
    let tar = match gunzip(archive) {
        Some(t) => t,
        None => {
            return Err(IngestError::ArchiveUnreadable);
        }
    };
    let members = match untar(tar.as_slice()) {
        Some(m) => m,
        None => {
            return Err(IngestError::ArchiveUnreadable);
        }
    };
    let crates = find_member(&members, "crates.csv");
    let versions = find_member(&members, "versions.csv");
    let dependencies = find_member(&members, "dependencies.csv");
    match (crates, versions, dependencies) {
        (Some(c), Some(v), Some(d)) => ingest_tables(c.as_slice(), v.as_slice(), d.as_slice(), max_malformed),
        _ => Err(IngestError::MissingTableMember),
    }
}

} // verus!
