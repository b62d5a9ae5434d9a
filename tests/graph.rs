use indradb::datastore::{RocksdbDatastore, RocksdbTransaction};
use indradb::models::{Edge, Error, Vertex};

const T1: i64 = 1_000;
const T2: i64 = 2_000;

fn likes() -> String {
    "likes".to_string()
}

fn w(x: f32) -> u32 {
    x.to_bits()
}

/// A datastore with one account owning two vertices.
fn setup() -> (RocksdbDatastore, RocksdbTransaction, Vec<u8>, Vec<u8>) {
    let mut ds = RocksdbDatastore::new();
    let account = ds.create_account(&"a@example.com".to_string(), &"salt".to_string(), &"digest".to_string()).ok().unwrap();
    let txn = ds.transaction(&account);
    let v1 = txn.create_vertex(&mut ds, &"user".to_string()).ok().unwrap();
    let v2 = txn.create_vertex(&mut ds, &"user".to_string()).ok().unwrap();
    (ds, txn, v1, v2)
}

fn range_key(a: &[u8], t: &str, ts: i64, b: &[u8]) -> Vec<u8> {
    let mut k = a.to_vec();
    k.push(t.len() as u8);
    k.extend_from_slice(t.as_bytes());
    k.extend_from_slice(&ts.to_be_bytes());
    k.extend_from_slice(b);
    k
}

fn same(a: &Edge, b: &Edge) -> bool {
    a.outbound_id == b.outbound_id && a.t == b.t && a.inbound_id == b.inbound_id && a.weight == b.weight
}

#[test]
fn set_edge_then_count_and_ranges() {
    let (mut ds, txn, v1, v2) = setup();
    let e = Edge::new(v1.clone(), likes(), v2.clone(), w(0.5));
    assert!(txn.set_edge_at(&mut ds, &e, T1).is_ok());
    assert_eq!(txn.get_edge_count(&ds, &v1, &likes()), 1);
    let fwd = txn.get_edge_range(&ds, &v1, &likes(), 0, 10).ok().unwrap();
    assert_eq!(fwd.len(), 1);
    assert!(same(&fwd[0], &e));
    let rev = txn.get_reversed_edge_range(&ds, &v2, &likes(), 0, 10).ok().unwrap();
    assert_eq!(rev.len(), 1);
    assert!(same(&rev[0], &e));
    assert_eq!(txn.get_reversed_edge_count(&ds, &v2, &likes()), 1);
    let got = txn.get_edge(&ds, &v1, &likes(), &v2).ok().unwrap();
    assert!(same(&got, &e));
}

#[test]
fn set_edge_with_the_clock() {
    let (mut ds, txn, v1, v2) = setup();
    let e = Edge::new(v1.clone(), likes(), v2.clone(), w(-1.0));
    assert!(txn.set_edge(&mut ds, &e).is_ok());
    assert_eq!(txn.get_edge_count(&ds, &v1, &likes()), 1);
    assert_eq!(txn.get_edge(&ds, &v1, &likes(), &v2).ok().unwrap().weight, w(-1.0));
}

#[test]
fn edge_range_is_newest_first_and_skips() {
    let (mut ds, txn, v1, v2) = setup();
    let v3 = txn.create_vertex(&mut ds, &"user".to_string()).ok().unwrap();
    let older = Edge::new(v1.clone(), likes(), v2.clone(), w(0.1));
    let newer = Edge::new(v1.clone(), likes(), v3.clone(), w(0.2));
    assert!(txn.set_edge_at(&mut ds, &older, T1).is_ok());
    assert!(txn.set_edge_at(&mut ds, &newer, T2).is_ok());
    let all = txn.get_edge_range(&ds, &v1, &likes(), 0, 10).ok().unwrap();
    assert_eq!(all.len(), 2);
    assert!(same(&all[0], &newer));
    assert!(same(&all[1], &older));
    let skipped = txn.get_edge_range(&ds, &v1, &likes(), 1, 10).ok().unwrap();
    assert_eq!(skipped.len(), 1);
    assert!(same(&skipped[0], &older));
    let limited = txn.get_edge_range(&ds, &v1, &likes(), 0, 1).ok().unwrap();
    assert_eq!(limited.len(), 1);
    assert!(same(&limited[0], &newer));
    assert!(txn.get_edge_range(&ds, &v1, &likes(), 5, 10).ok().unwrap().is_empty());
}

#[test]
fn edge_time_range_bounds() {
    let (mut ds, txn, v1, v2) = setup();
    let v3 = txn.create_vertex(&mut ds, &"user".to_string()).ok().unwrap();
    let older = Edge::new(v1.clone(), likes(), v2.clone(), w(0.1));
    let newer = Edge::new(v1.clone(), likes(), v3.clone(), w(0.2));
    assert!(txn.set_edge_at(&mut ds, &older, T1).is_ok());
    assert!(txn.set_edge_at(&mut ds, &newer, T2).is_ok());
    let r = txn.get_edge_time_range(&ds, &v1, &likes(), Some(T2), Some(T1 + 1), 10).ok().unwrap();
    assert_eq!(r.len(), 1);
    assert!(same(&r[0], &newer));
    let r = txn.get_edge_time_range(&ds, &v1, &likes(), Some(T2 - 1), None, 10).ok().unwrap();
    assert_eq!(r.len(), 1);
    assert!(same(&r[0], &older));
    let r = txn.get_edge_time_range(&ds, &v1, &likes(), None, None, 10).ok().unwrap();
    assert_eq!(r.len(), 2);
    let r = txn.get_reversed_edge_time_range(&ds, &v3, &likes(), None, Some(T2), 10).ok().unwrap();
    assert_eq!(r.len(), 1);
    assert!(same(&r[0], &newer));
}

#[test]
fn overwrite_then_delete_leaves_no_index_entries() {
    let (mut ds, txn, v1, v2) = setup();
    let e1 = Edge::new(v1.clone(), likes(), v2.clone(), w(0.5));
    let e2 = Edge::new(v1.clone(), likes(), v2.clone(), w(0.7));
    assert!(txn.set_edge_at(&mut ds, &e1, T1).is_ok());
    assert!(txn.set_edge_at(&mut ds, &e2, T2).is_ok());
    assert!(!ds.edge_ranges.contains(&range_key(&v1, "likes", T1, &v2)));
    assert!(!ds.reversed_edge_ranges.contains(&range_key(&v2, "likes", T1, &v1)));
    assert!(ds.edge_ranges.contains(&range_key(&v1, "likes", T2, &v2)));
    assert_eq!(txn.get_edge_count(&ds, &v1, &likes()), 1);
    assert_eq!(txn.get_edge(&ds, &v1, &likes(), &v2).ok().unwrap().weight, w(0.7));
    assert!(txn.delete_edge(&mut ds, &v1, &likes(), &v2).is_ok());
    assert_eq!(txn.get_edge_count(&ds, &v1, &likes()), 0);
    assert_eq!(txn.get_reversed_edge_count(&ds, &v2, &likes()), 0);
    for ts in [T1, T2] {
        assert!(!ds.edge_ranges.contains(&range_key(&v1, "likes", ts, &v2)));
        assert!(!ds.reversed_edge_ranges.contains(&range_key(&v2, "likes", ts, &v1)));
    }
    assert!(matches!(txn.get_edge(&ds, &v1, &likes(), &v2), Err(Error::EdgeNotFound)));
    assert!(matches!(txn.delete_edge(&mut ds, &v1, &likes(), &v2), Err(Error::EdgeNotFound)));
}

#[test]
fn index_entries_carry_the_weight() {
    let (mut ds, txn, v1, v2) = setup();
    let e = Edge::new(v1.clone(), likes(), v2.clone(), w(0.25));
    assert!(txn.set_edge_at(&mut ds, &e, T1).is_ok());
    let wb = w(0.25).to_be_bytes().to_vec();
    assert_eq!(ds.edge_ranges.get(&range_key(&v1, "likes", T1, &v2)), Some(wb.clone()));
    assert_eq!(ds.reversed_edge_ranges.get(&range_key(&v2, "likes", T1, &v1)), Some(wb));
}

#[test]
fn global_metadata_absence_and_presence() {
    let (mut ds, txn, _, _) = setup();
    let k = "k".to_string();
    assert!(matches!(txn.get_global_metadata_bytes(&ds, &k), Err(Error::MetadataNotFound)));
    assert!(txn.set_global_metadata_bytes(&mut ds, &k, &b"true".to_vec()).is_ok());
    assert_eq!(txn.get_global_metadata_bytes(&ds, &k).ok(), Some(b"true".to_vec()));
    assert!(txn.delete_global_metadata_bytes(&mut ds, &k).is_ok());
    assert!(matches!(txn.get_global_metadata_bytes(&ds, &k), Err(Error::MetadataNotFound)));
}

#[test]
fn scoped_metadata_round_trip() {
    let (mut ds, txn, v1, v2) = setup();
    let k = "k".to_string();
    let json = br#"{"a":[1,2.5,null]}"#.to_vec();
    let account = txn.account_id.clone();
    assert!(txn.set_account_metadata_bytes(&mut ds, &account, &k, &json).is_ok());
    assert_eq!(txn.get_account_metadata_bytes(&ds, &account, &k).ok(), Some(json.clone()));
    assert!(txn.set_vertex_metadata_bytes(&mut ds, &v1, &k, &json).is_ok());
    assert_eq!(txn.get_vertex_metadata_bytes(&ds, &v1, &k).ok(), Some(json.clone()));
    assert!(matches!(txn.set_edge_metadata_bytes(&mut ds, &v1, &likes(), &v2, &k, &json), Err(Error::EdgeNotFound)));
    assert!(txn.set_edge_at(&mut ds, &Edge::new(v1.clone(), likes(), v2.clone(), w(0.5)), T1).is_ok());
    assert!(txn.set_edge_metadata_bytes(&mut ds, &v1, &likes(), &v2, &k, &json).is_ok());
    assert_eq!(txn.get_edge_metadata_bytes(&ds, &v1, &likes(), &v2, &k).ok(), Some(json.clone()));
    assert!(txn.delete_edge_metadata_bytes(&mut ds, &v1, &likes(), &v2, &k).is_ok());
    assert!(matches!(txn.get_edge_metadata_bytes(&ds, &v1, &likes(), &v2, &k), Err(Error::MetadataNotFound)));
    assert!(txn.delete_vertex_metadata_bytes(&mut ds, &v1, &k).is_ok());
    assert!(txn.delete_account_metadata_bytes(&mut ds, &account, &k).is_ok());
    assert!(matches!(txn.get_vertex_metadata_bytes(&ds, &v1, &k), Err(Error::MetadataNotFound)));
    assert!(matches!(txn.set_account_metadata_bytes(&mut ds, &vec![9; 16], &k, &json), Err(Error::AccountNotFound)));
    assert!(matches!(txn.set_vertex_metadata_bytes(&mut ds, &vec![9; 16], &k, &json), Err(Error::VertexNotFound)));
}

#[test]
fn rollback_fails_and_keeps_earlier_work() {
    let (mut ds, txn, v1, v2) = setup();
    assert!(txn.set_edge_at(&mut ds, &Edge::new(v1.clone(), likes(), v2.clone(), w(0.5)), T1).is_ok());
    let account = txn.account_id.clone();
    assert!(matches!(txn.rollback(), Err(Error::Unexpected(_))));
    let txn = ds.transaction(&account);
    assert_eq!(txn.get_edge_count(&ds, &v1, &likes()), 1);
    assert!(txn.commit().is_ok());
}

#[test]
fn foreign_vertices_cannot_be_mutated() {
    let (mut ds, txn, v1, v2) = setup();
    let other = ds.create_account(&"b@example.com".to_string(), &"s".to_string(), &"d".to_string()).ok().unwrap();
    let intruder = ds.transaction(&other);
    let before = txn.get_vertex(&ds, &v1).ok().unwrap().t;
    let r = intruder.set_vertex(&mut ds, &Vertex::new(v1.clone(), "admin".to_string()));
    assert!(matches!(r, Err(Error::VertexNotFound)));
    assert!(matches!(intruder.delete_vertex(&mut ds, &v1), Err(Error::VertexNotFound)));
    let e = Edge::new(v1.clone(), likes(), v2.clone(), w(0.5));
    assert!(matches!(intruder.set_edge_at(&mut ds, &e, T1), Err(Error::VertexNotFound)));
    assert_eq!(txn.get_vertex(&ds, &v1).ok().unwrap().t, before);
    assert_eq!(txn.get_edge_count(&ds, &v1, &likes()), 0);
    // The intruder may point an edge at a vertex it does not own.
    let mine = intruder.create_vertex(&mut ds, &"bot".to_string()).ok().unwrap();
    let e = Edge::new(mine.clone(), likes(), v1.clone(), w(0.5));
    assert!(intruder.set_edge_at(&mut ds, &e, T1).is_ok());
    // The owner may write the vertex, but its type stays what it was.
    assert!(txn.set_vertex(&mut ds, &Vertex::new(v1.clone(), "user".to_string())).is_ok());
    assert!(txn.set_vertex(&mut ds, &Vertex::new(v1.clone(), "admin".to_string())).is_ok());
    assert_eq!(txn.get_vertex(&ds, &v1).ok().unwrap().t, "user".to_string());
}

#[test]
fn missing_vertices_and_edges() {
    let (mut ds, txn, v1, _) = setup();
    let ghost = vec![42u8; 16];
    assert!(matches!(txn.get_vertex(&ds, &ghost), Err(Error::VertexNotFound)));
    let e = Edge::new(v1.clone(), likes(), ghost.clone(), w(0.5));
    assert!(matches!(txn.set_edge_at(&mut ds, &e, T1), Err(Error::VertexNotFound)));
    assert!(matches!(txn.get_edge(&ds, &v1, &likes(), &ghost), Err(Error::EdgeNotFound)));
}

#[test]
fn deleting_an_account_cascades() {
    let (mut ds, txn, v1, v2) = setup();
    let account = txn.account_id.clone();
    let other = ds.create_account(&"b@example.com".to_string(), &"s".to_string(), &"d".to_string()).ok().unwrap();
    let txn_b = ds.transaction(&other);
    let vb = txn_b.create_vertex(&mut ds, &"user".to_string()).ok().unwrap();
    let k = "k".to_string();
    assert!(txn.set_edge_at(&mut ds, &Edge::new(v1.clone(), likes(), v2.clone(), w(0.5)), T1).is_ok());
    assert!(txn_b.set_edge_at(&mut ds, &Edge::new(vb.clone(), likes(), v1.clone(), w(0.5)), T2).is_ok());
    assert!(txn.set_edge_metadata_bytes(&mut ds, &v1, &likes(), &v2, &k, &b"1".to_vec()).is_ok());
    assert!(txn.set_vertex_metadata_bytes(&mut ds, &v2, &k, &b"2".to_vec()).is_ok());
    assert!(txn.set_account_metadata_bytes(&mut ds, &account, &k, &b"3".to_vec()).is_ok());
    let vb2 = txn_b.create_vertex(&mut ds, &"user".to_string()).ok().unwrap();
    assert!(txn_b.set_edge_at(&mut ds, &Edge::new(vb.clone(), "knows".to_string(), vb2.clone(), w(0.5)), T1).is_ok());
    assert!(txn_b.set_edge_metadata_bytes(&mut ds, &vb, &"knows".to_string(), &vb2, &k, &b"4".to_vec()).is_ok());
    assert!(ds.delete_account(&account).is_ok());
    assert_eq!(txn_b.get_edge_count(&ds, &vb, &"knows".to_string()), 1);
    assert!(txn_b.get_edge_metadata_bytes(&ds, &vb, &"knows".to_string(), &vb2, &k).is_ok());
    assert!(!ds.has_account(&account));
    assert!(ds.has_account(&other));
    assert!(matches!(txn.get_vertex(&ds, &v1), Err(Error::VertexNotFound)));
    assert!(matches!(txn.get_vertex(&ds, &v2), Err(Error::VertexNotFound)));
    assert!(txn_b.get_vertex(&ds, &vb).is_ok());
    assert_eq!(txn_b.get_edge_count(&ds, &vb, &likes()), 0);
    assert_eq!(txn.get_reversed_edge_count(&ds, &v2, &likes()), 0);
    assert!(matches!(txn.get_edge(&ds, &vb, &likes(), &v1), Err(Error::EdgeNotFound)));
    assert!(matches!(txn.get_edge_metadata_bytes(&ds, &v1, &likes(), &v2, &k), Err(Error::MetadataNotFound)));
    assert!(matches!(txn.get_vertex_metadata_bytes(&ds, &v2, &k), Err(Error::MetadataNotFound)));
    assert!(matches!(txn.get_account_metadata_bytes(&ds, &account, &k), Err(Error::MetadataNotFound)));
    assert!(matches!(ds.delete_account(&account), Err(Error::AccountNotFound)));
}

#[test]
fn authentication_checks_the_digest() {
    let mut ds = RocksdbDatastore::new();
    let a = ds.create_account(&"a@example.com".to_string(), &"pepper".to_string(), &"abc123".to_string()).ok().unwrap();
    let b = ds.create_account(&"b@example.com".to_string(), &"pepper".to_string(), &"abc123".to_string()).ok().unwrap();
    assert_eq!(a.len(), 16);
    assert_ne!(a, b);
    assert!(ds.auth(&a, &"abc123".to_string()));
    assert!(!ds.auth(&a, &"abc124".to_string()));
    assert!(!ds.auth(&vec![0; 16], &"abc123".to_string()));
    assert_eq!(ds.account_salt(&a), Some("pepper".to_string()));
    assert_eq!(ds.account_salt(&vec![0; 16]), None);
}

#[test]
fn clock_stamps_edges_with_the_present() {
    let (mut ds, txn, v1, v2) = setup();
    assert!(txn.set_edge(&mut ds, &Edge::new(v1.clone(), likes(), v2.clone(), w(0.5))).is_ok());
    let mut ek = v1.clone();
    ek.push(5);
    ek.extend_from_slice(b"likes");
    ek.extend_from_slice(&v2);
    let row = ds.edges.get(&ek).unwrap();
    assert_eq!(row.len(), 12);
    let mut ts = [0u8; 8];
    ts.copy_from_slice(&row[..8]);
    assert!(i64::from_be_bytes(ts) > 1_600_000_000);
}

#[test]
fn malformed_vertex_rows_are_unexpected() {
    let (mut ds, txn, _, _) = setup();
    let id = vec![5u8; 16];
    ds.vertices.put(id.clone(), vec![1, 2, 3]);
    assert!(matches!(txn.get_vertex(&ds, &id), Err(Error::Unexpected(_))));
}

#[test]
fn json_metadata_absent_set_deleted() {
    let (mut ds, txn, v1, _) = setup();
    let k = "k".to_string();
    assert!(matches!(txn.get_global_metadata(&ds, &k), Err(Error::MetadataNotFound)));
    assert!(txn.set_global_metadata(&mut ds, &k, &serde_json::Value::Bool(true)).is_ok());
    assert_eq!(txn.get_global_metadata(&ds, &k).ok(), Some(serde_json::Value::Bool(true)));
    assert_eq!(txn.get_global_metadata_bytes(&ds, &k).ok(), Some(b"true".to_vec()));
    assert!(txn.delete_global_metadata(&mut ds, &k).is_ok());
    assert!(matches!(txn.get_global_metadata(&ds, &k), Err(Error::MetadataNotFound)));
    let value = serde_json::from_str::<serde_json::Value>(r#"{"n":1,"x":1.5,"s":"a","l":[null,false]}"#).unwrap();
    assert!(txn.set_vertex_metadata(&mut ds, &v1, &k, &value).is_ok());
    assert_eq!(txn.get_vertex_metadata(&ds, &v1, &k).ok(), Some(value.clone()));
    assert!(matches!(txn.set_vertex_metadata(&mut ds, &vec![7; 16], &k, &value), Err(Error::VertexNotFound)));
    let account = txn.account_id.clone();
    assert!(txn.set_account_metadata(&mut ds, &account, &k, &value).is_ok());
    assert_eq!(txn.get_account_metadata(&ds, &account, &k).ok(), Some(value));
}

#[test]
fn stored_bytes_that_are_not_json_are_unexpected() {
    let (mut ds, txn, _, _) = setup();
    let k = "k".to_string();
    assert!(txn.set_global_metadata_bytes(&mut ds, &k, &b"{not json".to_vec()).is_ok());
    assert!(matches!(txn.get_global_metadata(&ds, &k), Err(Error::Unexpected(_))));
}

#[test]
fn edges_after_2038_are_listed() {
    let (mut ds, txn, v1, v2) = setup();
    let e = Edge::new(v1.clone(), likes(), v2.clone(), w(0.5));
    assert!(txn.set_edge_at(&mut ds, &e, 2_147_483_648).is_ok());
    assert_eq!(txn.get_edge_count(&ds, &v1, &likes()), 1);
    assert_eq!(txn.get_edge_range(&ds, &v1, &likes(), 0, 10).ok().unwrap().len(), 1);
    assert_eq!(txn.get_reversed_edge_range(&ds, &v2, &likes(), 0, 10).ok().unwrap().len(), 1);
    assert_eq!(txn.get_edge_time_range(&ds, &v1, &likes(), None, None, 10).ok().unwrap().len(), 1);
    assert!(txn.get_edge_time_range(&ds, &v1, &likes(), Some(2_147_483_647), None, 10).ok().unwrap().is_empty());
}

#[test]
fn taken_identifiers_are_refused() {
    let (mut ds, txn, v1, _) = setup();
    assert!(matches!(txn.create_vertex_with_id(&mut ds, &v1, &"user".to_string()), Err(Error::Unexpected(_))));
    let fresh = vec![77u8; 16];
    assert!(txn.create_vertex_with_id(&mut ds, &fresh, &"user".to_string()).is_ok());
    assert!(txn.get_vertex(&ds, &fresh).is_ok());
    let account = txn.account_id.clone();
    let r = ds.create_account_with_id(&account, &"x".to_string(), &"s".to_string(), &"d".to_string());
    assert!(matches!(r, Err(Error::Unexpected(_))));
}
