use crate_graph::carriage::{Carriage, IngestError};
use crate_graph::ingest::{ingest_export, ingest_tables};
use crate_graph::joystick::Query;
use crate_graph::store::UnrolledCrate;
use flate2::write::GzEncoder;
use flate2::Compression;
use std::io::Write;

const CRATES: &str = "id,name\n1,A\n2,B\n";
const VERSIONS: &str = "id,crate_id\n10,2\n";

fn build(crates: &str, versions: &str, deps: &str) -> (Carriage, crate_graph::ingest::IngestSummary) {
    ingest_tables(crates.as_bytes(), versions.as_bytes(), deps.as_bytes(), 10).unwrap()
}

fn edges_of(c: &Carriage, name: &str) -> Vec<(String, u32, Option<String>)> {
    let node = c.map.get_with_primary_key(name).unwrap();
    let d = &node.dependencies;
    (0..d.len())
        .map(|i| {
            let s = d.slot_at(i);
            (s.primary.clone(), s.secondary, s.value.version.clone())
        })
        .collect()
}

fn shape(t: &UnrolledCrate) -> String {
    if t.dependents.is_empty() {
        t.name.clone()
    } else {
        let kids: Vec<String> = t.dependents.iter().map(shape).collect();
        format!("{}({})", t.name, kids.join(","))
    }
}

fn archive(members: &[(&str, &str)]) -> Vec<u8> {
    let mut builder = tar::Builder::new(Vec::new());
    for (path, text) in members {
        let mut header = tar::Header::new_gnu();
        header.set_size(text.len() as u64);
        header.set_mode(0o644);
        header.set_cksum();
        builder.append_data(&mut header, path, text.as_bytes()).unwrap();
    }
    let tar_bytes = builder.into_inner().unwrap();
    let mut gz = GzEncoder::new(Vec::new(), Compression::default());
    gz.write_all(&tar_bytes).unwrap();
    gz.finish().unwrap()
}

#[test]
fn export_single_edge() {
    let (c, summary) = build(CRATES, VERSIONS, "crate_id,version_id\n1,10\n");
    assert_eq!(summary.unresolved, 0);
    assert_eq!(edges_of(&c, "A"), vec![("B".to_string(), 2, None)]);
    let q = Query { package: "A".to_string(), conditions: None };
    let tree = c.query(&q).unwrap();
    assert_eq!(tree.crate_id, 1);
    assert_eq!(tree.name, "A");
    assert_eq!(tree.dependents.len(), 1);
    assert_eq!(tree.dependents[0].crate_id, 2);
    assert_eq!(tree.dependents[0].name, "B");
    assert!(tree.dependents[0].dependents.is_empty());
}

#[test]
fn unresolved_version_is_counted() {
    let (c, summary) = build(CRATES, VERSIONS, "crate_id,version_id\n1,99\n");
    assert_eq!(summary.unresolved, 1);
    assert_eq!(summary.malformed, 0);
    assert!(edges_of(&c, "A").is_empty());
    assert!(edges_of(&c, "B").is_empty());
}

#[test]
fn duplicate_rows_give_one_edge() {
    let (c, summary) = build(CRATES, "id,crate_id\n10,2\n11,2\n", "crate_id,version_id\n1,10\n1,11\n1,10\n");
    assert_eq!(summary.unresolved, 0);
    assert_eq!(edges_of(&c, "A"), vec![("B".to_string(), 2, None)]);
}

#[test]
fn requirement_column_is_kept() {
    let (c, _) = build(CRATES, VERSIONS, "crate_id,req,version_id\n1,^2.0,10\n");
    assert_eq!(edges_of(&c, "A"), vec![("B".to_string(), 2, Some("^2.0".to_string()))]);
}

#[test]
fn versions_without_crate_are_skipped() {
    let (c, summary) = build(CRATES, "id,crate_id\n10,2\n12,\n", "crate_id,version_id\n1,12\n");
    assert_eq!(summary.orphan_versions, 1);
    assert_eq!(summary.unresolved, 1);
    assert!(edges_of(&c, "A").is_empty());
}

#[test]
fn missing_depending_crate_is_unresolved() {
    let (_, summary) = build(CRATES, VERSIONS, "crate_id,version_id\n7,10\n");
    assert_eq!(summary.unresolved, 1);
}

#[test]
fn malformed_rows_are_counted() {
    let (c, summary) = build("id,name\n1,A\nx,B\n2,C\n", "id,crate_id\n10,2\n", "crate_id,version_id\n1,10\n1\n");
    assert_eq!(summary.malformed, 2);
    assert_eq!(c.map.len(), 2);
    assert_eq!(edges_of(&c, "A"), vec![("C".to_string(), 2, None)]);
}

#[test]
fn too_many_malformed_rows_abort() {
    let r = ingest_tables(b"id,name\nx,A\n", VERSIONS.as_bytes(), b"crate_id,version_id\n", 0);
    assert_eq!(r.err(), Some(IngestError::TooManyMalformedRows));
    let r = ingest_tables(b"id,name\nx,A\n", VERSIONS.as_bytes(), b"crate_id,version_id\n", 1);
    assert!(r.is_ok());
}

#[test]
fn contradicting_crates_abort() {
    let r = ingest_tables(b"id,name\n1,A\n1,B\n", VERSIONS.as_bytes(), b"crate_id,version_id\n", 10);
    assert_eq!(r.err(), Some(IngestError::InconsistentKey));
    let r = ingest_tables(b"id,name\n1,A\n2,A\n", VERSIONS.as_bytes(), b"crate_id,version_id\n", 10);
    assert_eq!(r.err(), Some(IngestError::InconsistentKey));
    let r = ingest_tables(b"id,name\n1,A\n1,A\n", VERSIONS.as_bytes(), b"crate_id,version_id\n", 10);
    assert!(r.is_ok());
}

#[test]
fn quoted_csv_fields_are_read() {
    let (c, _) = build("id,name\n1,\"A,1\"\n", VERSIONS, "crate_id,version_id\n");
    assert!(c.map.get_with_primary_key("A,1").is_some());
}

#[test]
fn export_members_in_any_order() {
    let bytes = archive(&[
        ("dump/data/dependencies.csv", "crate_id,version_id\n1,10\n"),
        ("dump/data/versions.csv", VERSIONS),
        ("dump/data/crates.csv", CRATES),
    ]);
    let (c, summary) = ingest_export(&bytes, 0).unwrap();
    assert_eq!(summary.unresolved, 0);
    assert_eq!(edges_of(&c, "A"), vec![("B".to_string(), 2, None)]);
}

#[test]
fn export_without_table_is_refused() {
    let bytes = archive(&[("dump/data/crates.csv", CRATES), ("dump/data/versions.csv", VERSIONS)]);
    assert_eq!(ingest_export(&bytes, 0).err(), Some(IngestError::MissingTableMember));
    let bytes = archive(&[
        ("dump/data/old_crates.csv", CRATES),
        ("dump/data/versions.csv", VERSIONS),
        ("dump/data/dependencies.csv", "crate_id,version_id\n"),
    ]);
    assert_eq!(ingest_export(&bytes, 0).err(), Some(IngestError::MissingTableMember));
}

#[test]
fn unreadable_export_is_refused() {
    assert_eq!(ingest_export(b"not an archive", 0).err(), Some(IngestError::ArchiveUnreadable));
}

#[test]
fn cycle_yields_stub() {
    let (c, _) = build(CRATES, "id,crate_id\n10,2\n20,1\n", "crate_id,version_id\n1,10\n2,20\n");
    let tree = c.search("A", None).unwrap();
    assert_eq!(shape(&tree), "A(B(A))");
    let back = &tree.dependents[0].dependents[0];
    assert_eq!(back.crate_id, 1);
    assert!(back.dependents.is_empty());
}

#[test]
fn diamond_expands_shared_crate_once() {
    let crates = "id,name\n1,A\n2,B\n3,C\n4,D\n";
    let versions = "id,crate_id\n20,2\n30,3\n40,4\n";
    let deps = "crate_id,version_id\n1,20\n1,30\n2,40\n3,40\n4,30\n";
    let (c, _) = build(crates, versions, deps);
    let tree = c.search("A", None).unwrap();
    assert_eq!(shape(&tree), "A(B(D(C(D))),C)");
}

#[test]
fn children_follow_name_order() {
    let crates = "id,name\n1,root\n2,zeta\n3,alpha\n4,mid\n";
    let versions = "id,crate_id\n2,2\n3,3\n4,4\n";
    let (c, _) = build(crates, versions, "crate_id,version_id\n1,2\n1,3\n1,4\n");
    let tree = c.search("root", None).unwrap();
    let names: Vec<&str> = tree.dependents.iter().map(|t| t.name.as_str()).collect();
    assert_eq!(names, vec!["alpha", "mid", "zeta"]);
}

#[test]
fn unknown_crate_is_not_found() {
    let (c, _) = build(CRATES, VERSIONS, "crate_id,version_id\n");
    let q = Query { package: "Z".to_string(), conditions: None };
    assert_eq!(c.query(&q).err(), Some(crate_graph::joystick::QueryError::CrateNotFound));
    assert!(c.search("Z", None).is_none());
}

#[test]
fn crate_fields_are_carried() {
    let (c, _) = build("id,name,homepage\n1,A,https://a.example\n2,B\n", VERSIONS, "crate_id,version_id\n");
    let a = c.map.get_with_primary_key("A").unwrap();
    let fields: Vec<(&str, &str)> = a.krate.metadata.iter().map(|(k, v)| (k.as_str(), v.as_str())).collect();
    assert_eq!(fields, vec![("id", "1"), ("name", "A"), ("homepage", "https://a.example")]);
    let b = c.map.get_with_primary_key("B").unwrap();
    assert_eq!(b.krate.metadata.len(), 2);
}

#[test]
fn member_path_with_bad_bytes_is_read() {
    let mut builder = tar::Builder::new(Vec::new());
    let members: [(&[u8], &str); 3] = [
        (b"d\xff/crates.csv", CRATES),
        (b"d/versions.csv", VERSIONS),
        (b"d/dependencies.csv", "crate_id,version_id\n1,10\n"),
    ];
    for (path, text) in members {
        let mut header = tar::Header::new_old();
        header.as_old_mut().name[..path.len()].copy_from_slice(path);
        header.set_size(text.len() as u64);
        header.set_mode(0o644);
        header.set_cksum();
        builder.append(&header, text.as_bytes()).unwrap();
    }
    let mut gz = GzEncoder::new(Vec::new(), Compression::default());
    gz.write_all(&builder.into_inner().unwrap()).unwrap();
    let (c, _) = ingest_export(&gz.finish().unwrap(), 0).unwrap();
    assert_eq!(edges_of(&c, "A"), vec![("B".to_string(), 2, None)]);
}
