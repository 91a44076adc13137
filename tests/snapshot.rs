use crate_graph::cache::{Config, Crusher, Mast};
use crate_graph::carriage::Carriage;
use crate_graph::ingest::ingest_tables;
use crate_graph::snapshot::SnapshotError;

fn sample() -> Carriage {
    let crates = "id,name,homepage\n1,A,https://a.example\n2,B,\n3,\u{e9}t\u{e9},x\n";
    let versions = "id,crate_id\n10,2\n30,3\n";
    let deps = "crate_id,req,version_id\n1,^1.2,10\n1,,30\n2,=3.0.0,30\n";
    ingest_tables(crates.as_bytes(), versions.as_bytes(), deps.as_bytes(), 0).unwrap().0
}

type Dump = Vec<(String, u32, Vec<(String, String)>, Vec<(String, u32, Option<String>)>)>;

fn dump(c: &Carriage) -> Dump {
    (0..c.map.len())
        .map(|i| {
            let s = c.map.slot_at(i);
            let d = &s.value.dependencies;
            let edges = (0..d.len())
                .map(|k| {
                    let e = d.slot_at(k);
                    (e.primary.clone(), e.secondary, e.value.version.clone())
                })
                .collect();
            (s.primary.clone(), s.secondary, s.value.krate.metadata.clone(), edges)
        })
        .collect()
}

#[test]
fn snapshot_round_trip() {
    let c = sample();
    let bytes = c.store();
    assert_eq!(&bytes[0..4], b"FORK");
    let back = Carriage::load(&bytes).unwrap();
    assert_eq!(dump(&back), dump(&c));
    assert_eq!(dump(&back)[0].2[2], ("homepage".to_string(), "https://a.example".to_string()));
    assert_eq!(back.store(), bytes);
}

#[test]
fn empty_registry_round_trip() {
    let c = Carriage::new();
    let bytes = c.store();
    assert_eq!(bytes.len(), 12);
    let back = Carriage::load(&bytes).unwrap();
    assert_eq!(back.map.len(), 0);
}

#[test]
fn corrupt_snapshot_is_reported() {
    let bytes = sample().store();
    assert_eq!(Carriage::load(&bytes[..bytes.len() - 1]).err(), Some(SnapshotError::CacheCorrupt));
    let mut longer = bytes.clone();
    longer.push(0);
    assert_eq!(Carriage::load(&longer).err(), Some(SnapshotError::CacheCorrupt));
    let mut wrong = bytes.clone();
    wrong[0] = b'X';
    assert_eq!(Carriage::load(&wrong).err(), Some(SnapshotError::CacheCorrupt));
    assert_eq!(Carriage::load(b"").err(), Some(SnapshotError::CacheCorrupt));
}

#[test]
fn snapshot_out_of_order_is_refused() {
    // a snapshot listing one crate twice is refused
    let mut twice = Vec::new();
    twice.extend_from_slice(b"FORK");
    twice.extend_from_slice(&2u64.to_le_bytes());
    for _ in 0..2 {
        twice.extend_from_slice(&1u32.to_le_bytes());
        twice.extend_from_slice(&1u64.to_le_bytes());
        twice.push(b'A');
        twice.extend_from_slice(&0u64.to_le_bytes());
        twice.extend_from_slice(&0u64.to_le_bytes());
    }
    assert_eq!(Carriage::load(&twice).err(), Some(SnapshotError::CacheCorrupt));
    twice.truncate(12 + 29);
    twice[4] = 1;
    assert!(Carriage::load(&twice).is_ok());
}

#[test]
fn fresh_never_reads_snapshot() {
    let bytes = sample().store();
    let mut mast = Mast::path("db-dump.tar.gz");
    mast.config(Config::fresh());
    assert!(!mast.consults_snapshot());
    assert!(matches!(mast.load(Some(&bytes)), Ok(None)));
    assert!(matches!(mast.load(Some(b"garbage")), Ok(None)));
}

#[test]
fn snapshot_is_used_when_not_fresh() {
    let bytes = sample().store();
    let mast = Mast::path("db-dump.tar.gz");
    assert!(mast.consults_snapshot());
    let c = mast.load(Some(&bytes)).unwrap().unwrap();
    assert_eq!(c.map.len(), 3);
    assert!(matches!(mast.load(None), Ok(None)));
    assert_eq!(mast.load(Some(b"garbage")).err(), Some(SnapshotError::CacheCorrupt));
}

#[test]
fn snapshot_bytes_uncrush() {
    let bytes = sample().store();
    let c = Mast::uncrush(bytes.clone()).unwrap();
    assert_eq!(dump(&c), dump(&sample()));
    assert_eq!(Mast::uncrush(bytes[..5].to_vec()).err(), Some(SnapshotError::CacheCorrupt));
}
