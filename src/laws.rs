//! Properties that hold across operations of the datastore.
use vstd::prelude::*;
use crate::datastore::{
    edge_written, lemma_range_key_ts, owned_by, remove_opt, stale_ts, vertex_gone,
    RocksdbDatastore,
};
use crate::family::has_prefix;
use crate::keys::valid_type;
use crate::managers::{
    edge_key, edge_value, lemma_edge_key_injective, lemma_edge_value_injective,
    lemma_edge_value_reads, lemma_range_key_injective, range_key, valid_id,
    vertex_value, weight_value,
};

verus! {

/// A vertex stored as owned by account `owner` is not owned by any other
/// account `account`: every ownership check on it fails for `account`, so
/// its mutations by `account` return `VertexNotFound` and change nothing.
pub proof fn law_foreign_vertex_not_owned(
    vertices: Map<Seq<u8>, Seq<u8>>,
    v: Seq<u8>,
    owner: Seq<u8>,
    t: Seq<char>,
    account: Seq<u8>,
)
    requires
        vertices.contains_key(v),
        vertices[v] == vertex_value(owner, t),
        valid_id(owner),
        valid_id(account),
        owner != account,
    ensures
        !owned_by(vertices, v, account),
{
    if has_prefix(vertices[v], account) {
        assert(vertices[v].subrange(0, 16) =~= owner);
    }
}

/// What a metadata write stores under a key is what a later read of that key
/// returns, byte for byte, in every scope: a write is an insert into the
/// scope's family and a read returns that family's value.
pub proof fn law_metadata_round_trip(m: Map<Seq<u8>, Seq<u8>>, key: Seq<u8>, value: Seq<u8>)
    ensures
        m.insert(key, value).contains_key(key),
        m.insert(key, value)[key] == value,
{
}

/// After a metadata delete, a read of the key finds nothing.
pub proof fn law_metadata_delete(m: Map<Seq<u8>, Seq<u8>>, key: Seq<u8>)
    ensures
        !m.remove(key).contains_key(key),
{
}

/// A well-formed edge: 16-byte identifiers, a valid type, a non-negative
/// update timestamp.
pub open spec fn wf_edge(o: Seq<u8>, t: Seq<char>, ts: i64, i: Seq<u8>) -> bool {
    valid_id(o) && valid_id(i) && valid_type(t) && ts >= 0
}

/// The `edges` family holds edge `(o, t, i)` with timestamp `ts` and weight `w`.
pub open spec fn edge_row(ds: RocksdbDatastore, o: Seq<u8>, t: Seq<char>, i: Seq<u8>, ts: i64, w: u32) -> bool {
    ds.edges@.contains_key(edge_key(o, t, i)) && ds.edges@[edge_key(o, t, i)] == edge_value(ts, w)
}

/// Index family `m` maps `k` to weight `w`.
pub open spec fn index_entry(m: Map<Seq<u8>, Seq<u8>>, k: Seq<u8>, w: u32) -> bool {
    m.contains_key(k) && m[k] == weight_value(w)
}

/// Edge rows and adjacency index entries correspond one to one: every edge
/// `(o, t, i) -> (ts, w)` has the forward entry `(o, t, ts, i) -> w` and the
/// reverse entry `(i, t, ts, o) -> w`, and every index entry is one of these
/// for a stored edge.
#[verifier::opaque]
pub open spec fn edges_indexed(ds: RocksdbDatastore) -> bool {
    &&& rows_wf(ds)
    &&& rows_indexed(ds)
    &&& forward_backed(ds)
    &&& reverse_backed(ds)
}

/// Every edge row is a well-formed edge.
pub open spec fn rows_wf(ds: RocksdbDatastore) -> bool {
    forall|k: Seq<u8>| #[trigger] ds.edges@.contains_key(k) ==> exists|o: Seq<u8>, t: Seq<char>, ts: i64, i: Seq<u8>, w: u32|
        wf_edge(o, t, ts, i) && k == edge_key(o, t, i) && ds.edges@[k] == edge_value(ts, w)
}

/// Every edge row has its forward and reverse index entries.
pub open spec fn rows_indexed(ds: RocksdbDatastore) -> bool {
    forall|o: Seq<u8>, t: Seq<char>, ts: i64, i: Seq<u8>, w: u32|
        wf_edge(o, t, ts, i) && #[trigger] edge_row(ds, o, t, i, ts, w) ==> index_entry(ds.edge_ranges@, range_key(o, t, ts, i), w)
            && index_entry(ds.reversed_edge_ranges@, range_key(i, t, ts, o), w)
}

/// Every forward index entry belongs to a stored edge.
pub open spec fn forward_backed(ds: RocksdbDatastore) -> bool {
    forall|k: Seq<u8>| #[trigger] ds.edge_ranges@.contains_key(k) ==> exists|o: Seq<u8>, t: Seq<char>, ts: i64, i: Seq<u8>, w: u32|
        wf_edge(o, t, ts, i) && k == range_key(o, t, ts, i) && edge_row(ds, o, t, i, ts, w) && ds.edge_ranges@[k] == weight_value(w)
}

/// Every reverse index entry belongs to a stored edge.
pub open spec fn reverse_backed(ds: RocksdbDatastore) -> bool {
    forall|k: Seq<u8>| #[trigger] ds.reversed_edge_ranges@.contains_key(k) ==> exists|o: Seq<u8>, t: Seq<char>, ts: i64, i: Seq<u8>, w: u32|
        wf_edge(o, t, ts, i) && k == range_key(i, t, ts, o) && edge_row(ds, o, t, i, ts, w) && ds.reversed_edge_ranges@[k] == weight_value(w)
}

/// An empty datastore is consistent.
pub proof fn law_empty_is_indexed(ds: RocksdbDatastore)
    requires
        ds.edges@.is_empty(),
        ds.edge_ranges@.is_empty(),
        ds.reversed_edge_ranges@.is_empty(),
    ensures
        edges_indexed(ds),
{
    reveal(edges_indexed);
    assert forall|o: Seq<u8>, t: Seq<char>, ts: i64, i: Seq<u8>, w: u32|
        wf_edge(o, t, ts, i) && #[trigger] edge_row(ds, o, t, i, ts, w) implies false by {
        assert(ds.edges@.dom().contains(edge_key(o, t, i)));
    }
    assert forall|k: Seq<u8>| #[trigger] ds.edges@.contains_key(k) implies false by {
        assert(ds.edges@.dom().contains(k));
    }
    assert forall|k: Seq<u8>| #[trigger] ds.edge_ranges@.contains_key(k) implies false by {
        assert(ds.edge_ranges@.dom().contains(k));
    }
    assert forall|k: Seq<u8>| #[trigger] ds.reversed_edge_ranges@.contains_key(k) implies false by {
        assert(ds.reversed_edge_ranges@.dom().contains(k));
    }
}

/// In a consistent datastore the stored timestamp of an edge is the one its
/// index entries are filed under.
proof fn lemma_prior(a: RocksdbDatastore, o: Seq<u8>, t: Seq<char>, i: Seq<u8>)
    requires
        edges_indexed(a),
        valid_id(o),
        valid_id(i),
        valid_type(t),
    ensures
        a.edges@.contains_key(edge_key(o, t, i)) ==> exists|p: i64, pw: u32|
            stale_ts(a.edges@, edge_key(o, t, i)) == Some(p) && wf_edge(o, t, p, i) && #[trigger] edge_row(a, o, t, i, p, pw),
        !a.edges@.contains_key(edge_key(o, t, i)) ==> stale_ts(a.edges@, edge_key(o, t, i)) is None,
{
    reveal(edges_indexed);
    let ek = edge_key(o, t, i);
    if a.edges@.contains_key(ek) {
        let (o2, t2, p, i2, pw) = choose|o2: Seq<u8>, t2: Seq<char>, p: i64, i2: Seq<u8>, pw: u32|
            wf_edge(o2, t2, p, i2) && ek == edge_key(o2, t2, i2) && a.edges@[ek] == edge_value(p, pw);
        lemma_edge_key_injective(o, t, i, o2, t2, i2);
        lemma_edge_value_reads(p, pw);
        assert(edge_row(a, o, t, i, p, pw));
    }
}

/// What writing edge `(o, t, i)` with weight `w` at `ts` does to the three
/// edge families, with `prior` the timestamp it had.
pub open spec fn edge_write_step(
    a: RocksdbDatastore,
    b: RocksdbDatastore,
    o: Seq<u8>,
    t: Seq<char>,
    i: Seq<u8>,
    w: u32,
    ts: i64,
    prior: Option<i64>,
) -> bool {
    &&& b.edges@ == a.edges@.insert(edge_key(o, t, i), edge_value(ts, w))
    &&& b.edge_ranges@ == remove_opt(
        a.edge_ranges@,
        match prior { Some(p) => Some(range_key(o, t, p, i)), None => None },
    ).insert(range_key(o, t, ts, i), weight_value(w))
    &&& b.reversed_edge_ranges@ == remove_opt(
        a.reversed_edge_ranges@,
        match prior { Some(p) => Some(range_key(i, t, p, o)), None => None },
    ).insert(range_key(i, t, ts, o), weight_value(w))
    &&& (a.edges@.contains_key(edge_key(o, t, i)) ==> exists|p: i64, pw: u32|
        prior == Some(p) && wf_edge(o, t, p, i) && #[trigger] edge_row(a, o, t, i, p, pw))
    &&& (!a.edges@.contains_key(edge_key(o, t, i)) ==> prior is None)
}

#[verifier::rlimit(50)]
proof fn lemma_write_rows(a: RocksdbDatastore, b: RocksdbDatastore, o: Seq<u8>, t: Seq<char>, i: Seq<u8>, w: u32, ts: i64, prior: Option<i64>)
    requires
        rows_wf(a),
        wf_edge(o, t, ts, i),
        edge_write_step(a, b, o, t, i, w, ts, prior),
    ensures
        rows_wf(b),
{
    let ek = edge_key(o, t, i);
    assert forall|k: Seq<u8>| #[trigger] b.edges@.contains_key(k) implies exists|o2: Seq<u8>, t2: Seq<char>, ts2: i64, i2: Seq<u8>, w2: u32|
        wf_edge(o2, t2, ts2, i2) && k == edge_key(o2, t2, i2) && b.edges@[k] == edge_value(ts2, w2) by {
        if k == ek {
            assert(wf_edge(o, t, ts, i) && k == edge_key(o, t, i) && b.edges@[k] == edge_value(ts, w));
        } else {
            assert(a.edges@.contains_key(k));
        }
    }
}

#[verifier::rlimit(50)]
proof fn lemma_write_entries(a: RocksdbDatastore, b: RocksdbDatastore, o: Seq<u8>, t: Seq<char>, i: Seq<u8>, w: u32, ts: i64, prior: Option<i64>)
    requires
        rows_indexed(a),
        wf_edge(o, t, ts, i),
        edge_write_step(a, b, o, t, i, w, ts, prior),
    ensures
        rows_indexed(b),
{
    let ek = edge_key(o, t, i);
    assert forall|o2: Seq<u8>, t2: Seq<char>, ts2: i64, i2: Seq<u8>, w2: u32|
        wf_edge(o2, t2, ts2, i2) && #[trigger] edge_row(b, o2, t2, i2, ts2, w2) implies index_entry(b.edge_ranges@, range_key(o2, t2, ts2, i2), w2)
            && index_entry(b.reversed_edge_ranges@, range_key(i2, t2, ts2, o2), w2) by {
        if edge_key(o2, t2, i2) == ek {
            lemma_edge_key_injective(o, t, i, o2, t2, i2);
            lemma_edge_value_injective(ts, w, ts2, w2);
        } else {
            assert(edge_row(a, o2, t2, i2, ts2, w2));
            let k1 = range_key(o2, t2, ts2, i2);
            let k2 = range_key(i2, t2, ts2, o2);
            if k1 == range_key(o, t, ts, i) {
                lemma_range_key_injective(o, t, ts, i, o2, t2, ts2, i2);
            }
            if k2 == range_key(i, t, ts, o) {
                lemma_range_key_injective(i, t, ts, o, i2, t2, ts2, o2);
            }
            if prior is Some {
                let p = prior->Some_0;
                let (pts, pw) = choose|pts: i64, pw: u32| prior == Some(pts) && wf_edge(o, t, pts, i) && #[trigger] edge_row(a, o, t, i, pts, pw);
                if k1 == range_key(o, t, p, i) {
                    lemma_range_key_injective(o, t, p, i, o2, t2, ts2, i2);
                }
                if k2 == range_key(i, t, p, o) {
                    lemma_range_key_injective(i, t, p, o, i2, t2, ts2, o2);
                }
            }
        }
    }
}

#[verifier::rlimit(50)]
proof fn lemma_write_forward(a: RocksdbDatastore, b: RocksdbDatastore, o: Seq<u8>, t: Seq<char>, i: Seq<u8>, w: u32, ts: i64, prior: Option<i64>)
    requires
        forward_backed(a),
        wf_edge(o, t, ts, i),
        edge_write_step(a, b, o, t, i, w, ts, prior),
    ensures
        forward_backed(b),
{
    let ek = edge_key(o, t, i);
    let fk = range_key(o, t, ts, i);
    assert(edge_row(b, o, t, i, ts, w));
    assert forall|k: Seq<u8>| #[trigger] b.edge_ranges@.contains_key(k) implies exists|o2: Seq<u8>, t2: Seq<char>, ts2: i64, i2: Seq<u8>, w2: u32|
        wf_edge(o2, t2, ts2, i2) && k == range_key(o2, t2, ts2, i2) && edge_row(b, o2, t2, i2, ts2, w2) && b.edge_ranges@[k] == weight_value(w2) by {
        if k == fk {
            assert(wf_edge(o, t, ts, i) && k == range_key(o, t, ts, i) && edge_row(b, o, t, i, ts, w));
        } else {
            assert(a.edge_ranges@.contains_key(k));
            let (o2, t2, ts2, i2, w2) = choose|o2: Seq<u8>, t2: Seq<char>, ts2: i64, i2: Seq<u8>, w2: u32|
                wf_edge(o2, t2, ts2, i2) && k == range_key(o2, t2, ts2, i2) && edge_row(a, o2, t2, i2, ts2, w2) && a.edge_ranges@[k] == weight_value(w2);
            if edge_key(o2, t2, i2) == ek {
                lemma_edge_key_injective(o, t, i, o2, t2, i2);
                let (pts, pw) = choose|pts: i64, pw: u32| prior == Some(pts) && wf_edge(o, t, pts, i) && #[trigger] edge_row(a, o, t, i, pts, pw);
                lemma_edge_value_injective(pts, pw, ts2, w2);
                assert(false);
            }
            assert(edge_row(b, o2, t2, i2, ts2, w2));
        }
    }
}

#[verifier::rlimit(50)]
proof fn lemma_write_reverse(a: RocksdbDatastore, b: RocksdbDatastore, o: Seq<u8>, t: Seq<char>, i: Seq<u8>, w: u32, ts: i64, prior: Option<i64>)
    requires
        reverse_backed(a),
        wf_edge(o, t, ts, i),
        edge_write_step(a, b, o, t, i, w, ts, prior),
    ensures
        reverse_backed(b),
{
    let ek = edge_key(o, t, i);
    let rk = range_key(i, t, ts, o);
    assert(edge_row(b, o, t, i, ts, w));
    assert forall|k: Seq<u8>| #[trigger] b.reversed_edge_ranges@.contains_key(k) implies exists|o2: Seq<u8>, t2: Seq<char>, ts2: i64, i2: Seq<u8>, w2: u32|
        wf_edge(o2, t2, ts2, i2) && k == range_key(i2, t2, ts2, o2) && edge_row(b, o2, t2, i2, ts2, w2) && b.reversed_edge_ranges@[k] == weight_value(w2) by {
        if k == rk {
            assert(wf_edge(o, t, ts, i) && k == range_key(i, t, ts, o) && edge_row(b, o, t, i, ts, w));
        } else {
            assert(a.reversed_edge_ranges@.contains_key(k));
            let (o2, t2, ts2, i2, w2) = choose|o2: Seq<u8>, t2: Seq<char>, ts2: i64, i2: Seq<u8>, w2: u32|
                wf_edge(o2, t2, ts2, i2) && k == range_key(i2, t2, ts2, o2) && edge_row(a, o2, t2, i2, ts2, w2) && a.reversed_edge_ranges@[k] == weight_value(w2);
            if edge_key(o2, t2, i2) == ek {
                lemma_edge_key_injective(o, t, i, o2, t2, i2);
                let (pts, pw) = choose|pts: i64, pw: u32| prior == Some(pts) && wf_edge(o, t, pts, i) && #[trigger] edge_row(a, o, t, i, pts, pw);
                lemma_edge_value_injective(pts, pw, ts2, w2);
                assert(false);
            }
            assert(edge_row(b, o2, t2, i2, ts2, w2));
        }
    }
}

/// Writing an edge keeps edge rows and index entries in correspondence.
pub proof fn law_set_edge_keeps_index(a: RocksdbDatastore, b: RocksdbDatastore, o: Seq<u8>, t: Seq<char>, i: Seq<u8>, w: u32, ts: i64)
    requires
        edges_indexed(a),
        wf_edge(o, t, ts, i),
        edge_written(b, a, (o, t, i, w), ts),
    ensures
        edges_indexed(b),
{
    reveal(edges_indexed);
    let prior = stale_ts(a.edges@, edge_key(o, t, i));
    lemma_prior(a, o, t, i);
    assert(edge_write_step(a, b, o, t, i, w, ts, prior));
    lemma_write_rows(a, b, o, t, i, w, ts, prior);
    lemma_write_entries(a, b, o, t, i, w, ts, prior);
    lemma_write_forward(a, b, o, t, i, w, ts, prior);
    lemma_write_reverse(a, b, o, t, i, w, ts, prior);
}

/// What deleting edge `(o, t, i)` does to the three edge families, with
/// `prior` the timestamp it had.
pub open spec fn edge_delete_step(
    a: RocksdbDatastore,
    b: RocksdbDatastore,
    o: Seq<u8>,
    t: Seq<char>,
    i: Seq<u8>,
    prior: Option<i64>,
) -> bool {
    &&& b.edges@ == a.edges@.remove(edge_key(o, t, i))
    &&& b.edge_ranges@ == remove_opt(
        a.edge_ranges@,
        match prior { Some(p) => Some(range_key(o, t, p, i)), None => None },
    )
    &&& b.reversed_edge_ranges@ == remove_opt(
        a.reversed_edge_ranges@,
        match prior { Some(p) => Some(range_key(i, t, p, o)), None => None },
    )
    &&& (a.edges@.contains_key(edge_key(o, t, i)) ==> exists|p: i64, pw: u32|
        prior == Some(p) && wf_edge(o, t, p, i) && #[trigger] edge_row(a, o, t, i, p, pw))
    &&& (!a.edges@.contains_key(edge_key(o, t, i)) ==> prior is None)
}

#[verifier::rlimit(50)]
proof fn lemma_delete_entries(a: RocksdbDatastore, b: RocksdbDatastore, o: Seq<u8>, t: Seq<char>, i: Seq<u8>, prior: Option<i64>)
    requires
        rows_indexed(a),
        valid_id(o),
        valid_id(i),
        valid_type(t),
        edge_delete_step(a, b, o, t, i, prior),
    ensures
        rows_indexed(b),
{
    assert forall|o2: Seq<u8>, t2: Seq<char>, ts2: i64, i2: Seq<u8>, w2: u32|
        wf_edge(o2, t2, ts2, i2) && #[trigger] edge_row(b, o2, t2, i2, ts2, w2) implies index_entry(b.edge_ranges@, range_key(o2, t2, ts2, i2), w2)
            && index_entry(b.reversed_edge_ranges@, range_key(i2, t2, ts2, o2), w2) by {
        assert(edge_key(o2, t2, i2) != edge_key(o, t, i));
        assert(edge_row(a, o2, t2, i2, ts2, w2));
        if prior is Some {
            let p = prior->Some_0;
            let (pts, pw) = choose|pts: i64, pw: u32| prior == Some(pts) && wf_edge(o, t, pts, i) && #[trigger] edge_row(a, o, t, i, pts, pw);
            if range_key(o2, t2, ts2, i2) == range_key(o, t, p, i) {
                lemma_range_key_injective(o, t, p, i, o2, t2, ts2, i2);
            }
            if range_key(i2, t2, ts2, o2) == range_key(i, t, p, o) {
                lemma_range_key_injective(i, t, p, o, i2, t2, ts2, o2);
            }
        }
    }
}

#[verifier::rlimit(50)]
proof fn lemma_delete_forward(a: RocksdbDatastore, b: RocksdbDatastore, o: Seq<u8>, t: Seq<char>, i: Seq<u8>, prior: Option<i64>)
    requires
        forward_backed(a),
        valid_id(o),
        valid_id(i),
        valid_type(t),
        edge_delete_step(a, b, o, t, i, prior),
    ensures
        forward_backed(b),
{
    let ek = edge_key(o, t, i);
    assert forall|k: Seq<u8>| #[trigger] b.edge_ranges@.contains_key(k) implies exists|o2: Seq<u8>, t2: Seq<char>, ts2: i64, i2: Seq<u8>, w2: u32|
        wf_edge(o2, t2, ts2, i2) && k == range_key(o2, t2, ts2, i2) && edge_row(b, o2, t2, i2, ts2, w2) && b.edge_ranges@[k] == weight_value(w2) by {
        assert(a.edge_ranges@.contains_key(k));
        let (o2, t2, ts2, i2, w2) = choose|o2: Seq<u8>, t2: Seq<char>, ts2: i64, i2: Seq<u8>, w2: u32|
            wf_edge(o2, t2, ts2, i2) && k == range_key(o2, t2, ts2, i2) && edge_row(a, o2, t2, i2, ts2, w2) && a.edge_ranges@[k] == weight_value(w2);
        if edge_key(o2, t2, i2) == ek {
            lemma_edge_key_injective(o, t, i, o2, t2, i2);
            let (pts, pw) = choose|pts: i64, pw: u32| prior == Some(pts) && wf_edge(o, t, pts, i) && #[trigger] edge_row(a, o, t, i, pts, pw);
            lemma_edge_value_injective(pts, pw, ts2, w2);
            assert(false);
        }
        assert(edge_row(b, o2, t2, i2, ts2, w2));
    }
}

#[verifier::rlimit(50)]
proof fn lemma_delete_reverse(a: RocksdbDatastore, b: RocksdbDatastore, o: Seq<u8>, t: Seq<char>, i: Seq<u8>, prior: Option<i64>)
    requires
        reverse_backed(a),
        valid_id(o),
        valid_id(i),
        valid_type(t),
        edge_delete_step(a, b, o, t, i, prior),
    ensures
        reverse_backed(b),
{
    let ek = edge_key(o, t, i);
    assert forall|k: Seq<u8>| #[trigger] b.reversed_edge_ranges@.contains_key(k) implies exists|o2: Seq<u8>, t2: Seq<char>, ts2: i64, i2: Seq<u8>, w2: u32|
        wf_edge(o2, t2, ts2, i2) && k == range_key(i2, t2, ts2, o2) && edge_row(b, o2, t2, i2, ts2, w2) && b.reversed_edge_ranges@[k] == weight_value(w2) by {
        assert(a.reversed_edge_ranges@.contains_key(k));
        let (o2, t2, ts2, i2, w2) = choose|o2: Seq<u8>, t2: Seq<char>, ts2: i64, i2: Seq<u8>, w2: u32|
            wf_edge(o2, t2, ts2, i2) && k == range_key(i2, t2, ts2, o2) && edge_row(a, o2, t2, i2, ts2, w2) && a.reversed_edge_ranges@[k] == weight_value(w2);
        if edge_key(o2, t2, i2) == ek {
            lemma_edge_key_injective(o, t, i, o2, t2, i2);
            let (pts, pw) = choose|pts: i64, pw: u32| prior == Some(pts) && wf_edge(o, t, pts, i) && #[trigger] edge_row(a, o, t, i, pts, pw);
            lemma_edge_value_injective(pts, pw, ts2, w2);
            assert(false);
        }
        assert(edge_row(b, o2, t2, i2, ts2, w2));
    }
}

/// Deleting an edge keeps edge rows and index entries in correspondence.
pub proof fn law_delete_edge_keeps_index(a: RocksdbDatastore, b: RocksdbDatastore, o: Seq<u8>, t: Seq<char>, i: Seq<u8>)
    requires
        edges_indexed(a),
        valid_id(o),
        valid_id(i),
        valid_type(t),
        b.edges@ == a.edges@.remove(edge_key(o, t, i)),
        b.edge_ranges@ == remove_opt(
            a.edge_ranges@,
            match stale_ts(a.edges@, edge_key(o, t, i)) { Some(p) => Some(range_key(o, t, p, i)), None => None },
        ),
        b.reversed_edge_ranges@ == remove_opt(
            a.reversed_edge_ranges@,
            match stale_ts(a.edges@, edge_key(o, t, i)) { Some(p) => Some(range_key(i, t, p, o)), None => None },
        ),
    ensures
        edges_indexed(b),
{
    reveal(edges_indexed);
    let prior = stale_ts(a.edges@, edge_key(o, t, i));
    lemma_prior(a, o, t, i);
    assert(edge_delete_step(a, b, o, t, i, prior));
    assert forall|k: Seq<u8>| #[trigger] b.edges@.contains_key(k) implies exists|o2: Seq<u8>, t2: Seq<char>, ts2: i64, i2: Seq<u8>, w2: u32|
        wf_edge(o2, t2, ts2, i2) && k == edge_key(o2, t2, i2) && b.edges@[k] == edge_value(ts2, w2) by {
        assert(a.edges@.contains_key(k));
    }
    lemma_delete_entries(a, b, o, t, i, prior);
    lemma_delete_forward(a, b, o, t, i, prior);
    lemma_delete_reverse(a, b, o, t, i, prior);
}

/// Once an edge is stored with timestamp `ts`, no index entry of it filed
/// under any other timestamp remains, in either direction: overwriting an
/// edge purges the entries of its earlier timestamp.
pub proof fn law_single_timestamp(b: RocksdbDatastore, o: Seq<u8>, t: Seq<char>, i: Seq<u8>, ts: i64, w: u32, ts1: i64)
    requires
        edges_indexed(b),
        wf_edge(o, t, ts, i),
        edge_row(b, o, t, i, ts, w),
        ts1 >= 0,
        ts1 != ts,
    ensures
        !b.edge_ranges@.contains_key(range_key(o, t, ts1, i)),
        !b.reversed_edge_ranges@.contains_key(range_key(i, t, ts1, o)),
{
    reveal(edges_indexed);
    lemma_single_timestamp(b, o, t, i, ts, w, ts1);
}

#[verifier::rlimit(50)]
proof fn lemma_single_timestamp(b: RocksdbDatastore, o: Seq<u8>, t: Seq<char>, i: Seq<u8>, ts: i64, w: u32, ts1: i64)
    requires
        forward_backed(b),
        reverse_backed(b),
        wf_edge(o, t, ts, i),
        edge_row(b, o, t, i, ts, w),
        ts1 >= 0,
        ts1 != ts,
    ensures
        !b.edge_ranges@.contains_key(range_key(o, t, ts1, i)),
        !b.reversed_edge_ranges@.contains_key(range_key(i, t, ts1, o)),
{
    let k = range_key(o, t, ts1, i);
    if b.edge_ranges@.contains_key(k) {
        let (o2, t2, ts2, i2, w2) = choose|o2: Seq<u8>, t2: Seq<char>, ts2: i64, i2: Seq<u8>, w2: u32|
            wf_edge(o2, t2, ts2, i2) && k == range_key(o2, t2, ts2, i2) && edge_row(b, o2, t2, i2, ts2, w2) && b.edge_ranges@[k] == weight_value(w2);
        lemma_range_key_injective(o, t, ts1, i, o2, t2, ts2, i2);
        lemma_edge_value_injective(ts, w, ts2, w2);
    }
    let k = range_key(i, t, ts1, o);
    if b.reversed_edge_ranges@.contains_key(k) {
        let (o2, t2, ts2, i2, w2) = choose|o2: Seq<u8>, t2: Seq<char>, ts2: i64, i2: Seq<u8>, w2: u32|
            wf_edge(o2, t2, ts2, i2) && k == range_key(i2, t2, ts2, o2) && edge_row(b, o2, t2, i2, ts2, w2) && b.reversed_edge_ranges@[k] == weight_value(w2);
        lemma_range_key_injective(i, t, ts1, o, i2, t2, ts2, o2);
        lemma_edge_value_injective(ts, w, ts2, w2);
    }
}

/// A forward index entry of a consistent datastore belongs to a stored edge.
pub proof fn lemma_forward_entry(ds: RocksdbDatastore, k: Seq<u8>)
    requires
        edges_indexed(ds),
        ds.edge_ranges@.contains_key(k),
    ensures
        exists|o: Seq<u8>, t: Seq<char>, ts: i64, i: Seq<u8>, w: u32|
            wf_edge(o, t, ts, i) && k == range_key(o, t, ts, i) && edge_row(ds, o, t, i, ts, w),
{
    reveal(edges_indexed);
}

/// A reverse index entry of a consistent datastore belongs to a stored edge.
pub proof fn lemma_reverse_entry(ds: RocksdbDatastore, k: Seq<u8>)
    requires
        edges_indexed(ds),
        ds.reversed_edge_ranges@.contains_key(k),
    ensures
        exists|o: Seq<u8>, t: Seq<char>, ts: i64, i: Seq<u8>, w: u32|
            wf_edge(o, t, ts, i) && k == range_key(i, t, ts, o) && edge_row(ds, o, t, i, ts, w),
{
    reveal(edges_indexed);
}

/// Consistency depends on the three edge families alone, so every operation
/// that leaves `edges`, `edge_ranges` and `reversed_edge_ranges` as they were
/// (vertex and account writes, metadata writes) keeps it.
pub proof fn lemma_indexed_frame(a: RocksdbDatastore, b: RocksdbDatastore)
    requires
        edges_indexed(a),
        b.edges == a.edges,
        b.edge_ranges == a.edge_ranges,
        b.reversed_edge_ranges == a.reversed_edge_ranges,
    ensures
        edges_indexed(b),
{
    reveal(edges_indexed);
    assert forall|o: Seq<u8>, t: Seq<char>, ts: i64, i: Seq<u8>, w: u32|
        #[trigger] edge_row(b, o, t, i, ts, w) implies edge_row(a, o, t, i, ts, w) by {}
    assert forall|o: Seq<u8>, t: Seq<char>, ts: i64, i: Seq<u8>, w: u32|
        #[trigger] edge_row(a, o, t, i, ts, w) implies edge_row(b, o, t, i, ts, w) by {}
}

/// In a consistent datastore, once a vertex is gone no edge starts or ends
/// at it: together with the contracts of `delete_vertex` and
/// `delete_account`, nothing that referenced a deleted vertex remains.
pub proof fn law_gone_vertex_has_no_edges(ds: RocksdbDatastore, v: Seq<u8>, o: Seq<u8>, t: Seq<char>, i: Seq<u8>)
    requires
        edges_indexed(ds),
        vertex_gone(ds, v),
        valid_id(v),
        valid_id(o),
        valid_id(i),
        valid_type(t),
    ensures
        !ds.edges@.contains_key(edge_key(v, t, i)),
        !ds.edges@.contains_key(edge_key(o, t, v)),
{
    reveal(edges_indexed);
    if ds.edges@.contains_key(edge_key(v, t, i)) {
        let k = edge_key(v, t, i);
        let (o2, t2, ts2, i2, w2) = choose|o2: Seq<u8>, t2: Seq<char>, ts2: i64, i2: Seq<u8>, w2: u32|
            wf_edge(o2, t2, ts2, i2) && k == edge_key(o2, t2, i2) && ds.edges@[k] == edge_value(ts2, w2);
        lemma_edge_key_injective(v, t, i, o2, t2, i2);
        assert(edge_row(ds, v, t, i, ts2, w2));
        lemma_range_key_ts(v, t, ts2, i);
        assert(range_key(v, t, ts2, i).subrange(0, 16) =~= v);
        assert(ds.edge_ranges@.contains_key(range_key(v, t, ts2, i)));
    }
    if ds.edges@.contains_key(edge_key(o, t, v)) {
        let k = edge_key(o, t, v);
        let (o2, t2, ts2, i2, w2) = choose|o2: Seq<u8>, t2: Seq<char>, ts2: i64, i2: Seq<u8>, w2: u32|
            wf_edge(o2, t2, ts2, i2) && k == edge_key(o2, t2, i2) && ds.edges@[k] == edge_value(ts2, w2);
        lemma_edge_key_injective(o, t, v, o2, t2, i2);
        assert(edge_row(ds, o, t, v, ts2, w2));
        lemma_range_key_ts(v, t, ts2, o);
        assert(range_key(v, t, ts2, o).subrange(0, 16) =~= v);
        assert(ds.reversed_edge_ranges@.contains_key(range_key(v, t, ts2, o)));
    }
}

/// A stored edge of a consistent datastore has both its index entries.
pub proof fn lemma_row_entries(ds: RocksdbDatastore, o: Seq<u8>, t: Seq<char>, ts: i64, i: Seq<u8>, w: u32)
    requires
        edges_indexed(ds),
        wf_edge(o, t, ts, i),
        edge_row(ds, o, t, i, ts, w),
    ensures
        ds.edge_ranges@.contains_key(range_key(o, t, ts, i)),
        ds.reversed_edge_ranges@.contains_key(range_key(i, t, ts, o)),
{
    reveal(edges_indexed);
}

} // verus!
