//! The datastore: nine column families, account lifecycle, and transactions
//! bound to an account that compose them into graph operations.
use vstd::prelude::*;
use crate::family::{
    has_prefix, none_with_prefix, pairs_of, shrunk, starts_with, without_prefix, Family,
};
use crate::keys::{
    be_u64, lemma_short_bytes_injective, lemma_short_prefix, read_datetime, short_string_at,
    read_short_sized_string, read_type, read_unsized_string, read_uuid, short_bytes, str_bytes, ts_bytes, valid_type,
    build_key, key_bytes, Cursor, KeyComponent, ID_LEN, MAX_TIMESTAMP,
};
use crate::managers::{
    be_u32, decode_edge_value, decode_weight, edge_key, edge_key_of, edge_meta_key,
    edge_meta_key_of, edge_value, edge_value_of, meta_key, meta_key_of, range_key,
    range_key_of, range_prefix, range_prefix_of, short_str, valid_id, vertex_value, account_value,
    weight_value, weight_value_of,
};
use crate::models::{edges_view, Edge, EdgeView, Error, Vertex};
use crate::external::{
    json_from_slice, json_parses, json_text_of, json_to_vec, json_value_of, new_id, now_timestamp,
};
use crate::laws::{
    edge_row, edges_indexed, law_delete_edge_keeps_index, law_set_edge_keeps_index,
    lemma_forward_entry, lemma_indexed_frame, lemma_reverse_entry, wf_edge,
};

verus! {

/// The nine column families of the graph.
pub struct RocksdbDatastore {
    pub accounts: Family,
    pub vertices: Family,
    pub edges: Family,
    pub edge_ranges: Family,
    pub reversed_edge_ranges: Family,
    pub global_metadata: Family,
    pub account_metadata: Family,
    pub vertex_metadata: Family,
    pub edge_metadata: Family,
}

/// A transaction: graph operations performed on behalf of one account.
pub struct RocksdbTransaction {
    pub account_id: Vec<u8>,
}

/// An adjacency index entry is well formed for a slice whose prefix has `n`
/// bytes: a timestamp and a peer identifier follow the prefix, and the value
/// is a weight.
pub open spec fn entry_ok(e: (Seq<u8>, Seq<u8>), n: int) -> bool {
    e.0.len() == n + 24 && e.1.len() == 4
}

/// Timestamp of an adjacency index entry whose prefix has `n` bytes.
pub open spec fn entry_ts(e: (Seq<u8>, Seq<u8>), n: int) -> i64 {
    be_u64(e.0.subrange(n, n + 8)) as i64
}

/// Peer identifier of an adjacency index entry whose prefix has `n` bytes.
pub open spec fn entry_peer(e: (Seq<u8>, Seq<u8>), n: int) -> Seq<u8> {
    e.0.subrange(n + 8, n + 24)
}

/// The timestamp and edge that an index entry of slice `(a, t)` stands for:
/// `a` is the outbound vertex in the forward index, the inbound one in the
/// reversed index.
pub open spec fn entry_item(e: (Seq<u8>, Seq<u8>), a: Seq<u8>, t: Seq<char>, reversed: bool) -> (
    i64,
    EdgeView,
) {
    let n = range_prefix(a, t).len() as int;
    if reversed {
        (entry_ts(e, n), (entry_peer(e, n), t, a, be_u32(e.1)))
    } else {
        (entry_ts(e, n), (a, t, entry_peer(e, n), be_u32(e.1)))
    }
}

/// The well-formed entries of the adjacency slice `(a, t)` of family `f`, as
/// timestamped edges in ascending key order.
pub open spec fn slice_items(f: Family, a: Seq<u8>, t: Seq<char>, reversed: bool) -> Seq<
    (i64, EdgeView),
> {
    let n = range_prefix(a, t).len() as int;
    f.pairs().filter(|e: (Seq<u8>, Seq<u8>)| has_prefix(e.0, range_prefix(a, t))).filter(
        |e: (Seq<u8>, Seq<u8>)| entry_ok(e, n),
    ).map_values(|e: (Seq<u8>, Seq<u8>)| entry_item(e, a, t, reversed))
}

/// `s` in descending order.
pub open spec fn descending<A>(s: Seq<A>) -> Seq<A> {
    Seq::new(s.len(), |k: int| s[s.len() - 1 - k])
}

/// Edges of a descending scan `d` that skips `offset` items and takes up to
/// `limit`.
pub open spec fn window(d: Seq<(i64, EdgeView)>, offset: int, limit: int) -> Seq<EdgeView> {
    let n = if offset >= d.len() {
        0
    } else if d.len() - offset < limit {
        d.len() - offset
    } else {
        limit
    };
    Seq::new(n as nat, |k: int| d[offset + k].1)
}

/// Items of a descending scan that starts at timestamp `high`.
pub open spec fn from_high(s: Seq<(i64, EdgeView)>, high: i64) -> Seq<(i64, EdgeView)> {
    descending(s).filter(|x: (i64, EdgeView)| x.0 <= high)
}

/// Views of timestamped edges.
pub open spec fn items_view(v: Seq<(i64, Edge)>) -> Seq<(i64, EdgeView)> {
    v.map_values(|x: (i64, Edge)| (x.0, x.1@))
}

/// The vertex stored under `v` is owned by account `a`.
pub open spec fn owned_by(vertices: Map<Seq<u8>, Seq<u8>>, v: Seq<u8>, a: Seq<u8>) -> bool {
    vertices.contains_key(v) && has_prefix(vertices[v], a)
}

impl RocksdbDatastore {
    /// All families well formed.
    pub open spec fn wf(&self) -> bool {
        &&& self.accounts.wf()
        &&& self.vertices.wf()
        &&& self.edges.wf()
        &&& self.edge_ranges.wf()
        &&& self.reversed_edge_ranges.wf()
        &&& self.global_metadata.wf()
        &&& self.account_metadata.wf()
        &&& self.vertex_metadata.wf()
        &&& self.edge_metadata.wf()
        &&& forall|k: Seq<u8>| #[trigger] self.accounts@.contains_key(k) ==> valid_id(k)
        &&& forall|k: Seq<u8>| #[trigger] self.vertices@.contains_key(k) ==> valid_id(k)
    }

    /// An empty datastore.
    pub fn new() -> (r: RocksdbDatastore)
        ensures
            r.wf(),
            r.accounts@.is_empty(),
            r.vertices@.is_empty(),
            r.edges@.is_empty(),
            r.edge_ranges@.is_empty(),
            r.reversed_edge_ranges@.is_empty(),
            r.global_metadata@.is_empty(),
            r.account_metadata@.is_empty(),
            r.vertex_metadata@.is_empty(),
            r.edge_metadata@.is_empty(),
            edges_indexed(r),
    {
        let r = RocksdbDatastore {
            accounts: Family::new(),
            vertices: Family::new(),
            edges: Family::new(),
            edge_ranges: Family::new(),
            reversed_edge_ranges: Family::new(),
            global_metadata: Family::new(),
            account_metadata: Family::new(),
            vertex_metadata: Family::new(),
            edge_metadata: Family::new(),
        };
        proof {
            crate::laws::law_empty_is_indexed(r);
        }
        r
    }

    /// Whether the account exists.
    pub fn has_account(&self, account_id: &Vec<u8>) -> (r: bool)
        requires
            self.wf(),
        ensures
            r == self.accounts@.contains_key(account_id@),
    {
        self.accounts.contains(account_id.as_slice())
    }

    /// A transaction on behalf of `account_id`.
    pub fn transaction(&self, account_id: &Vec<u8>) -> (r: RocksdbTransaction)
        ensures
            r.account_id@ == account_id@,
    {
        RocksdbTransaction::new(account_id.clone())
    }
}

/// Collects the well-formed entries of an adjacency slice as timestamped
/// edges, in ascending key order.
fn slice_items_of(f: &Family, a: &Vec<u8>, t: &String, reversed: bool) -> (r: Vec<(i64, Edge)>)
    requires
        f.wf(),
        valid_id(a@),
        short_str(t@),
    ensures
        items_view(r@) == slice_items(*f, a@, t@, reversed),
{
    let prefix = range_prefix_of(a, t);
    let found = f.scan_prefix(prefix.as_slice());
    let n = prefix.len();
    let ghost ok = |e: (Seq<u8>, Seq<u8>)| entry_ok(e, n as int);
    let ghost item = |e: (Seq<u8>, Seq<u8>)| entry_item(e, a@, t@, reversed);
    let ghost s = pairs_of(found@);
    proof {
        reveal(Seq::filter);
        assert(s.subrange(0, 0) =~= Seq::<(Seq<u8>, Seq<u8>)>::empty());
    }
    let mut r: Vec<(i64, Edge)> = Vec::new();
    let mut j: usize = 0;
    while j < found.len()
        invariant
            0 <= j <= found@.len(),
            s == pairs_of(found@),
            n == range_prefix(a@, t@).len(),
            valid_id(a@),
            ok == (|e: (Seq<u8>, Seq<u8>)| entry_ok(e, n as int)),
            item == (|e: (Seq<u8>, Seq<u8>)| entry_item(e, a@, t@, reversed)),
            items_view(r@) == s.subrange(0, j as int).filter(ok).map_values(item),
        decreases found@.len() - j,
    {
        let k = &found[j].0;
        let v = &found[j].1;
        let ghost e = s[j as int];
        assert(e == (k@, v@));
        assert(s.subrange(0, j + 1).drop_last() =~= s.subrange(0, j as int));
        assert(s.subrange(0, j + 1).last() == e);
        if n <= k.len() && k.len() - n == 24 && v.len() == 4 {
            let mut cursor = Cursor::new(k.clone());
            cursor.pos = n;
            let ts = read_datetime(&mut cursor);
            let peer = read_uuid(&mut cursor);
            let w = decode_weight(v);
            assert(cursor.buf@ == k@);
            match (ts, peer, w) {
                (Some(ts), Some(peer), Some(w)) => {
                    assert(k@.subrange(n as int, k@.len() as int).subrange(0, 8) =~= k@.subrange(
                        n as int,
                        n + 8,
                    ));
                    assert(k@.subrange(n + 8, k@.len() as int).subrange(0, 16) =~= k@.subrange(
                        n + 8,
                        n + 24,
                    ));
                    let ghost before = r@;
                    let edge = if reversed {
                        Edge::new(peer, t.clone(), a.clone(), w)
                    } else {
                        Edge::new(a.clone(), t.clone(), peer, w)
                    };
                    r.push((ts, edge));
                    proof {
                        reveal(Seq::filter);
                        assert(ok(e));
                        assert(s.subrange(0, j + 1).filter(ok) == s.subrange(0, j as int).filter(
                            ok,
                        ).push(e));
                        assert(items_view(r@) =~= items_view(before).push(item(e)));
                        assert(s.subrange(0, j + 1).filter(ok).map_values(item) =~= s.subrange(
                            0,
                            j as int,
                        ).filter(ok).map_values(item).push(item(e)));
                    }
                },
                _ => {
                    assert(false);
                },
            }
        } else {
            proof {
                reveal(Seq::filter);
                assert(!ok(e));
            }
        }
        j = j + 1;
    }
    proof {
        assert(s.subrange(0, s.len() as int) =~= s);
        assert(f.pairs().filter(|e: (Seq<u8>, Seq<u8>)| has_prefix(e.0, range_prefix(a@, t@)))
            == s);
    }
    r
}

/// A copy of `e`.
fn clone_edge(e: &Edge) -> (r: Edge)
    ensures
        r@ == e@,
{
    Edge::new(e.outbound_id.clone(), e.t.clone(), e.inbound_id.clone(), e.weight)
}

/// The items of `items` in descending order with a timestamp at most `high`.
fn descending_from(items: &Vec<(i64, Edge)>, high: i64) -> (r: Vec<(i64, Edge)>)
    ensures
        items_view(r@) == from_high(items_view(items@), high),
{
    let ghost s = items_view(items@);
    let ghost pred = |x: (i64, EdgeView)| x.0 <= high;
    let ghost g = |q: int| s[s.len() - 1 - q];
    let len = items.len();
    let mut r: Vec<(i64, Edge)> = Vec::new();
    let mut k: usize = 0;
    proof {
        reveal(Seq::filter);
        assert(Seq::new(0, g) =~= Seq::<(i64, EdgeView)>::empty());
    }
    while k < len
        invariant
            len == items@.len(),
            s == items_view(items@),
            pred == (|x: (i64, EdgeView)| x.0 <= high),
            g == (|q: int| s[s.len() - 1 - q]),
            0 <= k <= len,
            items_view(r@) == Seq::new(k as nat, g).filter(pred),
        decreases len - k,
    {
        let x = &items[len - 1 - k];
        let ghost before = r@;
        proof {
            reveal(Seq::filter);
            assert(Seq::new((k + 1) as nat, g).drop_last() =~= Seq::new(k as nat, g));
            assert(Seq::new((k + 1) as nat, g).last() == (x.0, x.1@));
        }
        if x.0 <= high {
            r.push((x.0, clone_edge(&x.1)));
            assert(items_view(r@) =~= items_view(before).push((x.0, x.1@)));
        }
        k = k + 1;
    }
    assert(Seq::new(len as nat, g) =~= descending(s));
    r
}

impl RocksdbTransaction {
    /// A transaction bound to `account_id`.
    pub fn new(account_id: Vec<u8>) -> (r: RocksdbTransaction)
        ensures
            r.account_id@ == account_id@,
    {
        RocksdbTransaction { account_id }
    }

    fn handle_get_edge_count(&self, f: &Family, first_id: &Vec<u8>, t: &String, reversed: bool) -> (r: u64)
        requires
            f.wf(),
            valid_id(first_id@),
            valid_type(t@),
        ensures
            r == slice_items(*f, first_id@, t@, reversed).len(),
    {
        let items = slice_items_of(f, first_id, t, reversed);
        items.len() as u64
    }

    fn handle_get_edge_range(
        &self,
        f: &Family,
        first_id: &Vec<u8>,
        t: &String,
        offset: u64,
        limit: u16,
        reversed: bool,
    ) -> (r: Result<Vec<Edge>, Error>)
        requires
            f.wf(),
            valid_id(first_id@),
            valid_type(t@),
        ensures
            r is Err <==> offset > usize::MAX,
            r is Err ==> (r matches Err(Error::Unexpected(_))),
            r matches Ok(v) ==> edges_view(v@) == window(
                from_high(slice_items(*f, first_id@, t@, reversed), MAX_TIMESTAMP),
                offset as int,
                limit as int,
            ),
    {
        if offset > usize::MAX as u64 {
            return Err(Error::Unexpected("Offset out of range".to_string()));
        }
        let items = slice_items_of(f, first_id, t, reversed);
        let d = descending_from(&items, MAX_TIMESTAMP);
        let ghost s = items_view(d@);
        let len = d.len();
        let off = offset as usize;
        let cnt: usize = if off >= len {
            0
        } else if len - off < limit as usize {
            len - off
        } else {
            limit as usize
        };
        let mut r: Vec<Edge> = Vec::new();
        let mut k: usize = 0;
        while k < cnt
            invariant
                len == d@.len(),
                s == items_view(d@),
                cnt <= len,
                cnt > 0 ==> off + cnt <= len,
                0 <= k <= cnt,
                edges_view(r@) == Seq::new(k as nat, |q: int| s[off + q].1),
            decreases cnt - k,
        {
            let e = clone_edge(&d[off + k].1);
            let ghost before = r@;
            r.push(e);
            assert(edges_view(r@) =~= edges_view(before).push(e@));
            k = k + 1;
            assert(edges_view(r@) =~= Seq::new(k as nat, |q: int| s[off + q].1));
        }
        assert(edges_view(r@) =~= window(s, offset as int, limit as int));
        Ok(r)
    }

    fn handle_get_edge_time_range(
        &self,
        f: &Family,
        first_id: &Vec<u8>,
        t: &String,
        high: Option<i64>,
        low: Option<i64>,
        limit: u16,
        reversed: bool,
    ) -> (r: Result<Vec<Edge>, Error>)
        requires
            f.wf(),
            valid_id(first_id@),
            valid_type(t@),
        ensures
            r matches Ok(v) && time_range_result(
                edges_view(v@),
                from_high(
                    slice_items(*f, first_id@, t@, reversed),
                    match high {
                        Some(h) => h,
                        None => MAX_TIMESTAMP,
                    },
                ),
                low,
                limit as int,
            ),
    {
        let hi = match high {
            Some(h) => h,
            None => MAX_TIMESTAMP,
        };
        let items = slice_items_of(f, first_id, t, reversed);
        let d = descending_from(&items, hi);
        let ghost s = items_view(d@);
        let m: usize = if d.len() < limit as usize {
            d.len()
        } else {
            limit as usize
        };
        let mut r: Vec<Edge> = Vec::new();
        let mut k: usize = 0;
        let mut done = false;
        while k < m && !done
            invariant
                s == items_view(d@),
                done ==> k < m && low is Some && !at_least(s[k as int].0, low),
                m <= d@.len(),
                m as int == (if s.len() < limit as int { s.len() as int } else { limit as int }),
                0 <= k <= m,
                r@.len() == k,
                forall|q: int| 0 <= q < k ==> #[trigger] edges_view(r@)[q] == s[q].1,
                forall|q: int| 0 <= q < k ==> at_least(#[trigger] s[q].0, low),
            decreases m - k + (if done { 0int } else { 1int }),
        {
            let x = &d[k];
            assert(s[k as int] == (x.0, x.1@));
            let below = match low {
                Some(l) => x.0 < l,
                None => false,
            };
            if below {
                done = true;
            } else {
                let ghost before = r@;
                r.push(clone_edge(&x.1));
                assert(edges_view(r@) =~= edges_view(before).push(x.1@));
                assert(at_least(s[k as int].0, low));
                k = k + 1;
                assert forall|q: int| 0 <= q < k implies #[trigger] edges_view(r@)[q] == s[q].1 by {
                    if q < k - 1 {
                        assert(edges_view(r@)[q] == edges_view(before)[q]);
                    }
                }
            }
        }
        Ok(r)
    }
}

/// `ts` is not below the lower bound `low`, if there is one.
pub open spec fn at_least(ts: i64, low: Option<i64>) -> bool {
    match low {
        Some(l) => ts >= l,
        None => true,
    }
}

/// `v` is what a descending time-range scan over `s` returns: up to `limit`
/// items from the start of `s`, stopping before the first timestamp below
/// `low`.
pub open spec fn time_range_result(
    v: Seq<EdgeView>,
    s: Seq<(i64, EdgeView)>,
    low: Option<i64>,
    limit: int,
) -> bool {
    let m = if s.len() < limit { s.len() as int } else { limit };
    &&& v.len() <= m
    &&& forall|q: int| 0 <= q < v.len() ==> #[trigger] v[q] == s[q].1
    &&& forall|q: int| 0 <= q < v.len() ==> at_least(#[trigger] s[q].0, low)
    &&& v.len() < m ==> (low is Some && !at_least(s[v.len() as int].0, low))
}

/// The update timestamp stored for the edge under key `ek`, when there is a
/// well-formed one: the timestamp its index entries are filed under.
pub open spec fn stale_ts(edges: Map<Seq<u8>, Seq<u8>>, ek: Seq<u8>) -> Option<i64> {
    if edges.contains_key(ek) && edges[ek].len() == 12 && be_u64(edges[ek]) as i64 >= 0 {
        Some(be_u64(edges[ek]) as i64)
    } else {
        None
    }
}

/// `m` without the key `k`, when there is one.
pub open spec fn remove_opt(m: Map<Seq<u8>, Seq<u8>>, k: Option<Seq<u8>>) -> Map<Seq<u8>, Seq<u8>> {
    match k {
        Some(k) => m.remove(k),
        None => m,
    }
}

/// The stored bytes `v` are a vertex value of a valid type; the type, if so.
pub open spec fn vertex_type_of(v: Seq<u8>, t: Seq<char>) -> bool {
    v.len() >= ID_LEN && v == vertex_value(v.subrange(0, ID_LEN as int), t) && valid_type(t)
}

/// Reads the type out of a stored vertex value.
fn decode_vertex_value(v: &Vec<u8>) -> (r: Option<String>)
    ensures
        r matches Some(t) ==> vertex_type_of(v@, t@),
        (exists|t: Seq<char>| vertex_type_of(v@, t)) ==> r is Some,
{
    if v.len() < ID_LEN {
        return None;
    }
    let mut cursor = Cursor::new(v.clone());
    cursor.pos = ID_LEN;
    let ghost rest = v@.subrange(ID_LEN as int, v@.len() as int);
    assert(cursor.rest() =~= rest);
    let t = read_type(&mut cursor);
    proof {
        if exists|t: Seq<char>| vertex_type_of(v@, t) {
            let t0 = choose|t: Seq<char>| vertex_type_of(v@, t);
            lemma_short_prefix(t0, Seq::empty());
            assert(rest =~= short_bytes(t0) + Seq::empty());
            assert(short_bytes(t0) + Seq::<u8>::empty() =~= short_bytes(t0));
        }
    }
    match t {
        Some(t) => {
            if cursor.pos == cursor.buf.len() {
                proof {
                    assert(rest.subrange(0, 1 + rest[0]) =~= rest);
                    assert(v@ =~= v@.subrange(0, ID_LEN as int) + short_bytes(t@));
                }
                Some(t)
            } else {
                proof {
                    if exists|t2: Seq<char>| vertex_type_of(v@, t2) {
                        let t0 = choose|t2: Seq<char>| vertex_type_of(v@, t2);
                        lemma_short_prefix(t0, Seq::empty());
                        assert(short_bytes(t0) + Seq::<u8>::empty() =~= short_bytes(t0));
                        assert(rest =~= short_bytes(t0));
                        lemma_short_bytes_injective(t0, t@);
                    }
                }
                None
            }
        },
        None => None,
    }
}

impl RocksdbTransaction {
    /// Succeeds when the vertex exists and this transaction's account owns
    /// it; fails with `err` otherwise.
    fn check_write_permissions(&self, ds: &RocksdbDatastore, id: &Vec<u8>, err: Error) -> (r: Result<(), Error>)
        requires
            ds.wf(),
        ensures
            r is Ok <==> owned_by(ds.vertices@, id@, self.account_id@),
            r matches Err(e) ==> e == err,
    {
        match ds.vertices.get(id.as_slice()) {
            Some(value) => {
                if starts_with(value.as_slice(), self.account_id.as_slice()) {
                    Ok(())
                } else {
                    Err(err)
                }
            },
            None => Err(err),
        }
    }

    /// The vertex stored under `id`.
    pub fn get_vertex(&self, ds: &RocksdbDatastore, id: &Vec<u8>) -> (r: Result<Vertex, Error>)
        requires
            ds.wf(),
        ensures
            !ds.vertices@.contains_key(id@) ==> r == Err::<Vertex, Error>(Error::VertexNotFound),
            r matches Ok(v) ==> v.id@ == id@ && ds.vertices@.contains_key(id@) && vertex_type_of(
                ds.vertices@[id@],
                v.t@,
            ),
            ds.vertices@.contains_key(id@) && (exists|t: Seq<char>|
                vertex_type_of(ds.vertices@[id@], t)) ==> r is Ok,
    {
        match ds.vertices.get(id.as_slice()) {
            Some(value) => match decode_vertex_value(&value) {
                Some(t) => Ok(Vertex::new(id.clone(), t)),
                None => Err(Error::Unexpected("Malformed vertex value".to_string())),
            },
            None => Err(Error::VertexNotFound),
        }
    }

    /// Stores a vertex of type `t` under `id`, owned by this transaction's
    /// account.
    /// Fails with `Unexpected`, changing nothing, when `id` is taken.
    pub fn create_vertex_with_id(&self, ds: &mut RocksdbDatastore, id: &Vec<u8>, t: &String) -> (r: Result<(), Error>)
        requires
            old(ds).wf(),
            valid_id(self.account_id@),
            valid_id(id@),
            valid_type(t@),
        ensures
            final(ds).wf(),
            r is Err <==> old(ds).vertices@.contains_key(id@),
            r is Err ==> *final(ds) == *old(ds) && (r matches Err(Error::Unexpected(_))),
            r is Ok ==> final(ds).vertices@ == old(ds).vertices@.insert(id@, vertex_value(self.account_id@, t@)),
            final(ds).accounts == old(ds).accounts,
            final(ds).edges == old(ds).edges,
            final(ds).edge_ranges == old(ds).edge_ranges,
            final(ds).reversed_edge_ranges == old(ds).reversed_edge_ranges,
            metadata_unchanged(*final(ds), *old(ds)),
    {
        if ds.vertices.contains(id.as_slice()) {
            return Err(Error::Unexpected("Identifier already taken".to_string()));
        }
        let value = range_prefix_of(&self.account_id, t);
        ds.vertices.put(id.clone(), value);
        Ok(())
    }

    /// Writes a vertex this transaction's account owns. A vertex's type is
    /// fixed when it is created, so the stored vertex is kept as it is,
    /// whatever type `vertex` carries.
    pub fn set_vertex(&self, ds: &mut RocksdbDatastore, vertex: &Vertex) -> (r: Result<(), Error>)
        requires
            old(ds).wf(),
            valid_id(self.account_id@),
            valid_type(vertex.t@),
        ensures
            *final(ds) == *old(ds),
            !owned_by(old(ds).vertices@, vertex.id@, self.account_id@) ==> r == Err::<(), Error>(Error::VertexNotFound),
            owned_by(old(ds).vertices@, vertex.id@, self.account_id@) ==> r is Ok,
    {
        self.check_write_permissions(ds, &vertex.id, Error::VertexNotFound)
    }

    /// The edge stored under `(outbound_id, t, inbound_id)`.
    pub fn get_edge(&self, ds: &RocksdbDatastore, outbound_id: &Vec<u8>, t: &String, inbound_id: &Vec<u8>) -> (r: Result<Edge, Error>)
        requires
            ds.wf(),
            valid_id(outbound_id@),
            valid_id(inbound_id@),
            valid_type(t@),
        ensures
            ({
                let ek = edge_key(outbound_id@, t@, inbound_id@);
                &&& !ds.edges@.contains_key(ek) ==> r == Err::<Edge, Error>(Error::EdgeNotFound)
                &&& ds.edges@.contains_key(ek) && ds.edges@[ek].len() == 12 ==> (r matches Ok(e)
                    && e@ == (outbound_id@, t@, inbound_id@, be_u32(ds.edges@[ek].subrange(8, 12))))
                &&& ds.edges@.contains_key(ek) && ds.edges@[ek].len() != 12 ==> (r matches Err(
                    Error::Unexpected(_),
                ))
            }),
    {
        let ek = edge_key_of(outbound_id, t, inbound_id);
        match ds.edges.get(ek.as_slice()) {
            Some(value) => match decode_edge_value(&value) {
                Some((_, w)) => Ok(Edge::new(outbound_id.clone(), t.clone(), inbound_id.clone(), w)),
                None => Err(Error::Unexpected("Malformed edge value".to_string())),
            },
            None => Err(Error::EdgeNotFound),
        }
    }

    /// Writes the edge with update timestamp `ts`: the `edges` row, and a
    /// forward and a reverse index entry; index entries filed under the
    /// edge's previous timestamp are removed first.
    pub fn set_edge_at(&self, ds: &mut RocksdbDatastore, edge: &Edge, ts: i64) -> (r: Result<(), Error>)
        requires
            old(ds).wf(),
            valid_id(self.account_id@),
            valid_id(edge.outbound_id@),
            valid_id(edge.inbound_id@),
            valid_type(edge.t@),
            ts >= 0,
        ensures
            final(ds).wf(),
            r is Ok <==> owned_by(old(ds).vertices@, edge.outbound_id@, self.account_id@)
                && old(ds).vertices@.contains_key(edge.inbound_id@),
            r is Err ==> r == Err::<(), Error>(Error::VertexNotFound) && *final(ds) == *old(ds),
            r is Ok ==> edge_written(*final(ds), *old(ds), edge@, ts),
            edges_indexed(*old(ds)) ==> edges_indexed(*final(ds)),
            final(ds).accounts == old(ds).accounts,
            final(ds).vertices == old(ds).vertices,
            metadata_unchanged(*final(ds), *old(ds)),
    {
        match self.check_write_permissions(ds, &edge.outbound_id, Error::VertexNotFound) {
            Ok(()) => {},
            Err(e) => return Err(e),
        }
        if !ds.vertices.contains(edge.inbound_id.as_slice()) {
            return Err(Error::VertexNotFound);
        }
        let o = &edge.outbound_id;
        let t = &edge.t;
        let i = &edge.inbound_id;
        let ek = edge_key_of(o, t, i);
        let ghost prior = stale_ts(old(ds).edges@, ek@);
        if let Some(value) = ds.edges.get(ek.as_slice()) {
            if let Some((p, _)) = decode_edge_value(&value) {
                if p >= 0 {
                    let fk = range_key_of(o, t, p, i);
                    let rk = range_key_of(i, t, p, o);
                    ds.edge_ranges.delete(fk.as_slice());
                    ds.reversed_edge_ranges.delete(rk.as_slice());
                }
            }
        }
        ds.edges.put(ek, edge_value_of(ts, edge.weight));
        ds.edge_ranges.put(range_key_of(o, t, ts, i), weight_value_of(edge.weight));
        ds.reversed_edge_ranges.put(range_key_of(i, t, ts, o), weight_value_of(edge.weight));
        proof {
            if edges_indexed(*old(ds)) {
                assert(edge_written(*ds, *old(ds), edge@, ts)) by {
                    if let Some(p) = prior {
                        if p != ts {
                            lemma_range_key_ts(o@, t@, p, i@);
                            lemma_range_key_ts(o@, t@, ts, i@);
                            lemma_range_key_ts(i@, t@, p, o@);
                            lemma_range_key_ts(i@, t@, ts, o@);
                        }
                    }
                }
                law_set_edge_keeps_index(*old(ds), *ds, o@, t@, i@, edge.weight, ts);
            }
            if let Some(p) = prior {
                if p != ts {
                    lemma_range_key_ts(o@, t@, p, i@);
                    lemma_range_key_ts(o@, t@, ts, i@);
                    lemma_range_key_ts(i@, t@, p, o@);
                    lemma_range_key_ts(i@, t@, ts, o@);
                }
            }
        }
        Ok(())
    }

    /// Removes the edge, its index entries and its metadata; the edge must
    /// exist and its outbound vertex be owned by this transaction's account.
    pub fn delete_edge(&self, ds: &mut RocksdbDatastore, outbound_id: &Vec<u8>, t: &String, inbound_id: &Vec<u8>) -> (r: Result<(), Error>)
        requires
            old(ds).wf(),
            valid_id(self.account_id@),
            valid_id(outbound_id@),
            valid_id(inbound_id@),
            valid_type(t@),
        ensures
            final(ds).wf(),
            ({
                let (o, i) = (outbound_id@, inbound_id@);
                let ek = edge_key(o, t@, i);
                let prior = stale_ts(old(ds).edges@, ek);
                &&& r is Ok <==> old(ds).edges@.contains_key(ek) && owned_by(old(ds).vertices@, o, self.account_id@)
                &&& r is Err ==> r == Err::<(), Error>(Error::EdgeNotFound) && *final(ds) == *old(ds)
                &&& r is Ok ==> {
                    &&& final(ds).edges@ == old(ds).edges@.remove(ek)
                    &&& final(ds).edge_ranges@ == remove_opt(
                        old(ds).edge_ranges@,
                        match prior { Some(p) => Some(range_key(o, t@, p, i)), None => None },
                    )
                    &&& final(ds).reversed_edge_ranges@ == remove_opt(
                        old(ds).reversed_edge_ranges@,
                        match prior { Some(p) => Some(range_key(i, t@, p, o)), None => None },
                    )
                    &&& without_prefix(final(ds).edge_metadata@, old(ds).edge_metadata@, ek)
                }
            }),
            edges_indexed(*old(ds)) ==> edges_indexed(*final(ds)),
            final(ds).accounts == old(ds).accounts,
            final(ds).vertices == old(ds).vertices,
            final(ds).global_metadata == old(ds).global_metadata,
            final(ds).account_metadata == old(ds).account_metadata,
            final(ds).vertex_metadata == old(ds).vertex_metadata,
    {
        let ek = edge_key_of(outbound_id, t, inbound_id);
        let value = match ds.edges.get(ek.as_slice()) {
            Some(v) => v,
            None => return Err(Error::EdgeNotFound),
        };
        match self.check_write_permissions(ds, outbound_id, Error::EdgeNotFound) {
            Ok(()) => {},
            Err(e) => return Err(e),
        }
        if let Some((p, _)) = decode_edge_value(&value) {
            if p >= 0 {
                let fk = range_key_of(outbound_id, t, p, inbound_id);
                let rk = range_key_of(inbound_id, t, p, outbound_id);
                ds.edge_ranges.delete(fk.as_slice());
                ds.reversed_edge_ranges.delete(rk.as_slice());
            }
        }
        ds.edges.delete(ek.as_slice());
        ds.edge_metadata.delete_prefix(ek.as_slice());
        proof {
            if edges_indexed(*old(ds)) {
                law_delete_edge_keeps_index(*old(ds), *ds, outbound_id@, t@, inbound_id@);
            }
        }
        Ok(())
    }

    /// Number of edges of type `t` going out of `outbound_id`.
    pub fn get_edge_count(&self, ds: &RocksdbDatastore, outbound_id: &Vec<u8>, t: &String) -> (r: u64)
        requires
            ds.wf(),
            valid_id(outbound_id@),
            valid_type(t@),
        ensures
            r == slice_items(ds.edge_ranges, outbound_id@, t@, false).len(),
    {
        self.handle_get_edge_count(&ds.edge_ranges, outbound_id, t, false)
    }

    /// Edges of type `t` going out of `outbound_id`, newest first, skipping
    /// `offset` and taking up to `limit`.
    pub fn get_edge_range(&self, ds: &RocksdbDatastore, outbound_id: &Vec<u8>, t: &String, offset: u64, limit: u16) -> (r: Result<Vec<Edge>, Error>)
        requires
            ds.wf(),
            valid_id(outbound_id@),
            valid_type(t@),
        ensures
            r is Err <==> offset > usize::MAX,
            r is Err ==> (r matches Err(Error::Unexpected(_))),
            r matches Ok(v) ==> edges_view(v@) == window(
                from_high(slice_items(ds.edge_ranges, outbound_id@, t@, false), MAX_TIMESTAMP),
                offset as int,
                limit as int,
            ),
    {
        self.handle_get_edge_range(&ds.edge_ranges, outbound_id, t, offset, limit, false)
    }

    /// Edges of type `t` going out of `outbound_id`, newest first, from
    /// timestamp `high` (or the end of time) down, stopping before the first
    /// one older than `low`, at most `limit`.
    pub fn get_edge_time_range(&self, ds: &RocksdbDatastore, outbound_id: &Vec<u8>, t: &String, high: Option<i64>, low: Option<i64>, limit: u16) -> (r: Result<Vec<Edge>, Error>)
        requires
            ds.wf(),
            valid_id(outbound_id@),
            valid_type(t@),
        ensures
            r matches Ok(v) && time_range_result(
                edges_view(v@),
                from_high(
                    slice_items(ds.edge_ranges, outbound_id@, t@, false),
                    match high { Some(h) => h, None => MAX_TIMESTAMP },
                ),
                low,
                limit as int,
            ),
    {
        self.handle_get_edge_time_range(&ds.edge_ranges, outbound_id, t, high, low, limit, false)
    }

    /// Number of edges of type `t` coming into `inbound_id`.
    pub fn get_reversed_edge_count(&self, ds: &RocksdbDatastore, inbound_id: &Vec<u8>, t: &String) -> (r: u64)
        requires
            ds.wf(),
            valid_id(inbound_id@),
            valid_type(t@),
        ensures
            r == slice_items(ds.reversed_edge_ranges, inbound_id@, t@, true).len(),
    {
        self.handle_get_edge_count(&ds.reversed_edge_ranges, inbound_id, t, true)
    }

    /// Edges of type `t` coming into `inbound_id`, newest first, skipping
    /// `offset` and taking up to `limit`.
    pub fn get_reversed_edge_range(&self, ds: &RocksdbDatastore, inbound_id: &Vec<u8>, t: &String, offset: u64, limit: u16) -> (r: Result<Vec<Edge>, Error>)
        requires
            ds.wf(),
            valid_id(inbound_id@),
            valid_type(t@),
        ensures
            r is Err <==> offset > usize::MAX,
            r is Err ==> (r matches Err(Error::Unexpected(_))),
            r matches Ok(v) ==> edges_view(v@) == window(
                from_high(slice_items(ds.reversed_edge_ranges, inbound_id@, t@, true), MAX_TIMESTAMP),
                offset as int,
                limit as int,
            ),
    {
        self.handle_get_edge_range(&ds.reversed_edge_ranges, inbound_id, t, offset, limit, true)
    }

    /// Edges of type `t` coming into `inbound_id`, newest first, from
    /// timestamp `high` (or the end of time) down, stopping before the first
    /// one older than `low`, at most `limit`.
    pub fn get_reversed_edge_time_range(&self, ds: &RocksdbDatastore, inbound_id: &Vec<u8>, t: &String, high: Option<i64>, low: Option<i64>, limit: u16) -> (r: Result<Vec<Edge>, Error>)
        requires
            ds.wf(),
            valid_id(inbound_id@),
            valid_type(t@),
        ensures
            r matches Ok(v) && time_range_result(
                edges_view(v@),
                from_high(
                    slice_items(ds.reversed_edge_ranges, inbound_id@, t@, true),
                    match high { Some(h) => h, None => MAX_TIMESTAMP },
                ),
                low,
                limit as int,
            ),
    {
        self.handle_get_edge_time_range(&ds.reversed_edge_ranges, inbound_id, t, high, low, limit, true)
    }

    /// Ends the transaction; every operation was already applied.
    pub fn commit(self) -> (r: Result<(), Error>)
        ensures
            r is Ok,
    {
        Ok(())
    }

    /// Always fails: operations are applied as they are made and cannot be
    /// undone.
    pub fn rollback(self) -> (r: Result<(), Error>)
        ensures
            r matches Err(Error::Unexpected(_)),
    {
        Err(Error::Unexpected("Transactions cannot be rolled back".to_string()))
    }
}

/// `b` is `a` after writing edge `e` with update timestamp `ts`: the edge row
/// holds the new timestamp and weight, the index entries under the previous
/// timestamp are gone, and new ones are filed under `ts`.
pub open spec fn edge_written(b: RocksdbDatastore, a: RocksdbDatastore, e: EdgeView, ts: i64) -> bool {
    let (o, t, i, w) = e;
    let prior = stale_ts(a.edges@, edge_key(o, t, i));
    &&& b.edges@ == a.edges@.insert(edge_key(o, t, i), edge_value(ts, w))
    &&& b.edge_ranges@ == remove_opt(
        a.edge_ranges@,
        match prior { Some(p) => Some(range_key(o, t, p, i)), None => None },
    ).insert(range_key(o, t, ts, i), weight_value(w))
    &&& b.reversed_edge_ranges@ == remove_opt(
        a.reversed_edge_ranges@,
        match prior { Some(p) => Some(range_key(i, t, p, o)), None => None },
    ).insert(range_key(i, t, ts, o), weight_value(w))
    &&& forall|p: i64| prior == Some(p) && p != ts ==> !b.edge_ranges@.contains_key(
        #[trigger] range_key(o, t, p, i),
    ) && !b.reversed_edge_ranges@.contains_key(range_key(i, t, p, o))
    &&& b.accounts == a.accounts
    &&& b.vertices == a.vertices
    &&& metadata_unchanged(b, a)
}

/// The four metadata families are the same in `a` and `b`.
pub open spec fn metadata_unchanged(a: RocksdbDatastore, b: RocksdbDatastore) -> bool {
    &&& a.global_metadata == b.global_metadata
    &&& a.account_metadata == b.account_metadata
    &&& a.vertex_metadata == b.vertex_metadata
    &&& a.edge_metadata == b.edge_metadata
}

/// The parts of an index key read back: its timestamp and its peer.
pub proof fn lemma_range_key_ts(a: Seq<u8>, t: Seq<char>, ts: i64, b: Seq<u8>)
    requires
        ts >= 0,
        valid_id(b),
    ensures
        ({
            let k = range_key(a, t, ts, b);
            let n = range_prefix(a, t).len() as int;
            &&& k.len() == n + 24
            &&& has_prefix(k, range_prefix(a, t))
            &&& entry_ts((k, Seq::empty()), n) == ts
            &&& entry_peer((k, Seq::empty()), n) == b
        }),
{
    let k = range_key(a, t, ts, b);
    let n = range_prefix(a, t).len() as int;
    crate::keys::lemma_be_round_trip(ts as u64);
    assert(k.subrange(n, n + 8) =~= ts_bytes(ts));
    assert(k.subrange(n + 8, n + 24) =~= b);
    assert(k.subrange(0, n) =~= range_prefix(a, t));
}

/// Every entry of `fam` under prefix `p` is among the scanned entries.
proof fn lemma_scan_covers(fam: Family, p: Seq<u8>, found: Seq<(Vec<u8>, Vec<u8>)>, k: Seq<u8>)
    requires
        fam.wf(),
        pairs_of(found) == fam.pairs().filter(|e: (Seq<u8>, Seq<u8>)| has_prefix(e.0, p)),
        fam@.contains_key(k),
        has_prefix(k, p),
    ensures
        exists|q: int| 0 <= q < found.len() && (#[trigger] found[q]).0@ == k,
{
    let f = |e: (Seq<u8>, Seq<u8>)| has_prefix(e.0, p);
    let s = fam.pairs();
    fam.lemma_pairs();
    let i = choose|i: int| 0 <= i < s.len() && s[i].0 == k;
    assert(f(s[i]));
    s.lemma_filter_contains(f, i);
    let q = choose|q: int| 0 <= q < s.filter(f).len() && s.filter(f)[q] == s[i];
    assert(pairs_of(found)[q] == (found[q].0@, found[q].1@));
}

/// A scanned entry is an entry of the family.
proof fn lemma_scan_entry(fam: Family, p: Seq<u8>, found: Seq<(Vec<u8>, Vec<u8>)>, q: int)
    requires
        fam.wf(),
        pairs_of(found) == fam.pairs().filter(|e: (Seq<u8>, Seq<u8>)| has_prefix(e.0, p)),
        0 <= q < found.len(),
    ensures
        fam@.contains_key(found[q].0@),
        fam@[found[q].0@] == found[q].1@,
        has_prefix(found[q].0@, p),
{
    let f = |e: (Seq<u8>, Seq<u8>)| has_prefix(e.0, p);
    let s = fam.pairs();
    fam.lemma_pairs();
    assert(pairs_of(found)[q] == (found[q].0@, found[q].1@));
    s.lemma_filter_pred(f, q);
    assert(s.filter(f).contains(s.filter(f)[q]));
    s.lemma_filter_contains_rev(f, s.filter(f)[q]);
    let i = choose|i: int| 0 <= i < s.len() && s[i] == s.filter(f)[q];
    crate::family::lemma_map_of_index(s, i);
}

/// `v` and everything filed under it are gone: the vertex row, its metadata,
/// and its entries in both adjacency indices.
pub open spec fn vertex_gone(ds: RocksdbDatastore, v: Seq<u8>) -> bool {
    &&& !ds.vertices@.contains_key(v)
    &&& none_with_prefix(ds.edge_ranges@, v)
    &&& none_with_prefix(ds.reversed_edge_ranges@, v)
    &&& none_with_prefix(ds.vertex_metadata@, v)
}

/// `b` is `a` with entries removed from the graph families only.
pub open spec fn graph_shrunk(b: RocksdbDatastore, a: RocksdbDatastore) -> bool {
    &&& shrunk(b.vertices@, a.vertices@)
    &&& shrunk(b.edges@, a.edges@)
    &&& shrunk(b.edge_ranges@, a.edge_ranges@)
    &&& shrunk(b.reversed_edge_ranges@, a.reversed_edge_ranges@)
    &&& shrunk(b.vertex_metadata@, a.vertex_metadata@)
    &&& shrunk(b.edge_metadata@, a.edge_metadata@)
    &&& b.accounts == a.accounts
    &&& b.global_metadata == a.global_metadata
    &&& b.account_metadata == a.account_metadata
}

/// A well-formed edge key's parts: 16-byte identifiers and a valid type.
pub open spec fn wf_key(o: Seq<u8>, t: Seq<char>, i: Seq<u8>) -> bool {
    valid_id(o) && valid_id(i) && valid_type(t)
}

/// Every edge with neither endpoint at `v` is in `b` as it was in `a`: its
/// row, its two index entries and its metadata.
pub open spec fn keeps_unrelated(b: RocksdbDatastore, a: RocksdbDatastore, v: Seq<u8>) -> bool {
    &&& forall|o: Seq<u8>, t: Seq<char>, i: Seq<u8>|
        wf_key(o, t, i) && o != v && i != v && #[trigger] a.edges@.contains_key(edge_key(o, t, i))
            ==> b.edges@.contains_key(edge_key(o, t, i)) && b.edges@[edge_key(o, t, i)] == a.edges@[edge_key(o, t, i)]
    &&& forall|o: Seq<u8>, t: Seq<char>, ts: i64, i: Seq<u8>|
        wf_key(o, t, i) && ts >= 0 && o != v && i != v && #[trigger] a.edge_ranges@.contains_key(range_key(o, t, ts, i))
            ==> b.edge_ranges@.contains_key(range_key(o, t, ts, i)) && b.edge_ranges@[range_key(o, t, ts, i)] == a.edge_ranges@[range_key(o, t, ts, i)]
    &&& forall|o: Seq<u8>, t: Seq<char>, ts: i64, i: Seq<u8>|
        wf_key(o, t, i) && ts >= 0 && o != v && i != v && #[trigger] a.reversed_edge_ranges@.contains_key(range_key(i, t, ts, o))
            ==> b.reversed_edge_ranges@.contains_key(range_key(i, t, ts, o)) && b.reversed_edge_ranges@[range_key(i, t, ts, o)] == a.reversed_edge_ranges@[range_key(i, t, ts, o)]
    &&& forall|k: Seq<u8>, o: Seq<u8>, t: Seq<char>, i: Seq<u8>|
        wf_key(o, t, i) && o != v && i != v && a.edge_metadata@.contains_key(k) && #[trigger] has_prefix(k, edge_key(o, t, i))
            ==> b.edge_metadata@.contains_key(k) && b.edge_metadata@[k] == a.edge_metadata@[k]
}

proof fn lemma_keeps_trans(c: RocksdbDatastore, b: RocksdbDatastore, a: RocksdbDatastore, v: Seq<u8>)
    requires
        keeps_unrelated(c, b, v),
        keeps_unrelated(b, a, v),
    ensures
        keeps_unrelated(c, a, v),
{
}

/// No metadata remains of the edges that `a` stored at vertex `v`, in either
/// direction.
pub open spec fn removed_edges_metadata_gone(b: RocksdbDatastore, a: RocksdbDatastore, v: Seq<u8>) -> bool {
    &&& forall|t: Seq<char>, ts: i64, i: Seq<u8>, w: u32|
        wf_edge(v, t, ts, i) && #[trigger] edge_row(a, v, t, i, ts, w) ==> none_with_prefix(b.edge_metadata@, edge_key(v, t, i))
    &&& forall|o: Seq<u8>, t: Seq<char>, ts: i64, w: u32|
        wf_edge(o, t, ts, v) && #[trigger] edge_row(a, o, t, v, ts, w) ==> none_with_prefix(b.edge_metadata@, edge_key(o, t, v))
}

/// Every edge with neither endpoint among the vertices that account `acct`
/// owns in `vs` is in `b` as it was in `a`: row, index entries, metadata.
pub open spec fn keeps_outside(b: RocksdbDatastore, a: RocksdbDatastore, vs: Map<Seq<u8>, Seq<u8>>, acct: Seq<u8>) -> bool {
    &&& forall|o: Seq<u8>, t: Seq<char>, i: Seq<u8>|
        wf_key(o, t, i) && !owned_by(vs, o, acct) && !owned_by(vs, i, acct) && #[trigger] a.edges@.contains_key(edge_key(o, t, i))
            ==> b.edges@.contains_key(edge_key(o, t, i)) && b.edges@[edge_key(o, t, i)] == a.edges@[edge_key(o, t, i)]
    &&& forall|o: Seq<u8>, t: Seq<char>, ts: i64, i: Seq<u8>|
        wf_key(o, t, i) && ts >= 0 && !owned_by(vs, o, acct) && !owned_by(vs, i, acct) && #[trigger] a.edge_ranges@.contains_key(range_key(o, t, ts, i))
            ==> b.edge_ranges@.contains_key(range_key(o, t, ts, i)) && b.edge_ranges@[range_key(o, t, ts, i)] == a.edge_ranges@[range_key(o, t, ts, i)]
    &&& forall|o: Seq<u8>, t: Seq<char>, ts: i64, i: Seq<u8>|
        wf_key(o, t, i) && ts >= 0 && !owned_by(vs, o, acct) && !owned_by(vs, i, acct) && #[trigger] a.reversed_edge_ranges@.contains_key(range_key(i, t, ts, o))
            ==> b.reversed_edge_ranges@.contains_key(range_key(i, t, ts, o)) && b.reversed_edge_ranges@[range_key(i, t, ts, o)] == a.reversed_edge_ranges@[range_key(i, t, ts, o)]
    &&& forall|k: Seq<u8>, o: Seq<u8>, t: Seq<char>, i: Seq<u8>|
        wf_key(o, t, i) && !owned_by(vs, o, acct) && !owned_by(vs, i, acct) && a.edge_metadata@.contains_key(k) && #[trigger] has_prefix(k, edge_key(o, t, i))
            ==> b.edge_metadata@.contains_key(k) && b.edge_metadata@[k] == a.edge_metadata@[k]
}

proof fn lemma_keeps_outside_step(
    c: RocksdbDatastore,
    b: RocksdbDatastore,
    a: RocksdbDatastore,
    vs: Map<Seq<u8>, Seq<u8>>,
    acct: Seq<u8>,
    v: Seq<u8>,
)
    requires
        keeps_unrelated(c, b, v),
        keeps_outside(b, a, vs, acct),
        owned_by(vs, v, acct),
    ensures
        keeps_outside(c, a, vs, acct),
{
}

/// Removing an index entry filed under `v` keeps every edge unrelated to `v`.
proof fn lemma_index_drop_keeps(a: RocksdbDatastore, b: RocksdbDatastore, v: Seq<u8>, k: Seq<u8>, inbound: bool)
    requires
        valid_id(v),
        has_prefix(k, v),
        b.edges == a.edges,
        b.edge_metadata == a.edge_metadata,
        !inbound ==> b.edge_ranges@ == a.edge_ranges@.remove(k) && b.reversed_edge_ranges == a.reversed_edge_ranges,
        inbound ==> b.reversed_edge_ranges@ == a.reversed_edge_ranges@.remove(k) && b.edge_ranges == a.edge_ranges,
    ensures
        keeps_unrelated(b, a, v),
{
    assert forall|o: Seq<u8>, t: Seq<char>, ts: i64, i: Seq<u8>|
        wf_key(o, t, i) && ts >= 0 && o != v && i != v && #[trigger] a.edge_ranges@.contains_key(range_key(o, t, ts, i))
        implies b.edge_ranges@.contains_key(range_key(o, t, ts, i)) && b.edge_ranges@[range_key(o, t, ts, i)] == a.edge_ranges@[range_key(o, t, ts, i)] by {
        if range_key(o, t, ts, i) == k {
            lemma_index_key_reads(k, o, t, ts, i);
            assert(k.subrange(0, 16) =~= o);
        }
    }
    assert forall|o: Seq<u8>, t: Seq<char>, ts: i64, i: Seq<u8>|
        wf_key(o, t, i) && ts >= 0 && o != v && i != v && #[trigger] a.reversed_edge_ranges@.contains_key(range_key(i, t, ts, o))
        implies b.reversed_edge_ranges@.contains_key(range_key(i, t, ts, o)) && b.reversed_edge_ranges@[range_key(i, t, ts, o)] == a.reversed_edge_ranges@[range_key(i, t, ts, o)] by {
        if range_key(i, t, ts, o) == k {
            lemma_index_key_reads(k, i, t, ts, o);
            assert(k.subrange(0, 16) =~= i);
        }
    }
}

/// Removing edge `(o2, t2, i2)` (row, the two index entries filed under
/// `ts2`, and its metadata), where one endpoint is `v`, keeps every edge
/// unrelated to `v`.
proof fn lemma_edge_drop_keeps(
    a: RocksdbDatastore,
    b: RocksdbDatastore,
    v: Seq<u8>,
    o2: Seq<u8>,
    t2: Seq<char>,
    ts2: i64,
    i2: Seq<u8>,
)
    requires
        wf_key(o2, t2, i2),
        ts2 >= 0,
        o2 == v || i2 == v,
        b.edges@ == a.edges@.remove(edge_key(o2, t2, i2)),
        b.edge_ranges@ == a.edge_ranges@.remove(range_key(o2, t2, ts2, i2)) || b.edge_ranges == a.edge_ranges,
        b.reversed_edge_ranges@ == a.reversed_edge_ranges@.remove(range_key(i2, t2, ts2, o2))
            || b.reversed_edge_ranges == a.reversed_edge_ranges,
        without_prefix(b.edge_metadata@, a.edge_metadata@, edge_key(o2, t2, i2)),
    ensures
        keeps_unrelated(b, a, v),
{
    assert forall|o: Seq<u8>, t: Seq<char>, i: Seq<u8>|
        wf_key(o, t, i) && o != v && i != v && #[trigger] a.edges@.contains_key(edge_key(o, t, i))
        implies b.edges@.contains_key(edge_key(o, t, i)) && b.edges@[edge_key(o, t, i)] == a.edges@[edge_key(o, t, i)] by {
        if edge_key(o, t, i) == edge_key(o2, t2, i2) {
            crate::managers::lemma_edge_key_injective(o, t, i, o2, t2, i2);
        }
    }
    assert forall|o: Seq<u8>, t: Seq<char>, ts: i64, i: Seq<u8>|
        wf_key(o, t, i) && ts >= 0 && o != v && i != v && #[trigger] a.edge_ranges@.contains_key(range_key(o, t, ts, i))
        implies b.edge_ranges@.contains_key(range_key(o, t, ts, i)) && b.edge_ranges@[range_key(o, t, ts, i)] == a.edge_ranges@[range_key(o, t, ts, i)] by {
        if range_key(o, t, ts, i) == range_key(o2, t2, ts2, i2) {
            crate::managers::lemma_range_key_injective(o, t, ts, i, o2, t2, ts2, i2);
        }
    }
    assert forall|o: Seq<u8>, t: Seq<char>, ts: i64, i: Seq<u8>|
        wf_key(o, t, i) && ts >= 0 && o != v && i != v && #[trigger] a.reversed_edge_ranges@.contains_key(range_key(i, t, ts, o))
        implies b.reversed_edge_ranges@.contains_key(range_key(i, t, ts, o)) && b.reversed_edge_ranges@[range_key(i, t, ts, o)] == a.reversed_edge_ranges@[range_key(i, t, ts, o)] by {
        if range_key(i, t, ts, o) == range_key(i2, t2, ts2, o2) {
            crate::managers::lemma_range_key_injective(i, t, ts, o, i2, t2, ts2, o2);
        }
    }
    assert forall|k: Seq<u8>, o: Seq<u8>, t: Seq<char>, i: Seq<u8>|
        wf_key(o, t, i) && o != v && i != v && a.edge_metadata@.contains_key(k) && #[trigger] has_prefix(k, edge_key(o, t, i))
        implies b.edge_metadata@.contains_key(k) && b.edge_metadata@[k] == a.edge_metadata@[k] by {
        if has_prefix(k, edge_key(o2, t2, i2)) {
            crate::managers::lemma_edge_prefixes(k, o, t, i, o2, t2, i2);
        }
        assert(!has_prefix(k, edge_key(o2, t2, i2)));
        assert(b.edge_metadata@.contains_key(k));
    }
}

/// An adjacency index key reads back as its parts: past the 16-byte first
/// identifier come the type, the timestamp and the peer.
proof fn lemma_index_key_reads(k: Seq<u8>, a: Seq<u8>, t: Seq<char>, ts: i64, b: Seq<u8>)
    requires
        k == range_key(a, t, ts, b),
        valid_id(a),
        valid_id(b),
        valid_type(t),
        ts >= 0,
    ensures
        ({
            let n = str_bytes(t).len() as int;
            let rest = k.subrange(ID_LEN as int, k.len() as int);
            &&& has_prefix(k, a)
            &&& short_string_at(rest)
            &&& rest[0] == n
            &&& rest.subrange(0, 1 + rest[0]) == short_bytes(t)
            &&& k.subrange(17 + n, k.len() as int).len() >= 8
            &&& be_u64(k.subrange(17 + n, k.len() as int)) as i64 == ts
            &&& k.subrange(25 + n, k.len() as int) == b
        }),
{
    let n = str_bytes(t).len() as int;
    let rest = k.subrange(ID_LEN as int, k.len() as int);
    assert(rest =~= short_bytes(t) + (ts_bytes(ts) + b));
    lemma_short_prefix(t, ts_bytes(ts) + b);
    assert(k.subrange(0, ID_LEN as int) =~= a);
    assert(k.subrange(17 + n, k.len() as int) =~= ts_bytes(ts) + b);
    assert(k.subrange(25 + n, k.len() as int) =~= b);
    crate::keys::lemma_be_round_trip(ts as u64);
    assert(be_u64(ts_bytes(ts) + b) == be_u64(ts_bytes(ts)));
}

/// Reads type, timestamp and peer out of an adjacency index key whose first
/// identifier has 16 bytes.
fn parse_index_key(k: &Vec<u8>) -> (r: Option<(String, i64, Vec<u8>)>)
    ensures
        forall|a: Seq<u8>, t: Seq<char>, ts: i64, b: Seq<u8>|
            #![trigger range_key(a, t, ts, b)]
            k@ == range_key(a, t, ts, b) && valid_id(a) && valid_id(b) && valid_type(t) && ts >= 0
                ==> (r matches Some(p) && p.0@ == t && p.1 == ts && p.2@ == b),
        r matches Some(p) ==> valid_type(p.0@) && p.1 >= 0 && valid_id(p.2@),
{
    if k.len() < ID_LEN {
        proof {
            assert forall|a: Seq<u8>, t: Seq<char>, ts: i64, b: Seq<u8>|
                k@ == range_key(a, t, ts, b) && valid_id(a) && valid_id(b) && valid_type(t) && ts >= 0 implies false by {
                lemma_index_key_reads(k@, a, t, ts, b);
            }
        }
        return None;
    }
    let mut cursor = Cursor::new(k.clone());
    cursor.pos = ID_LEN;
    let ghost rest = cursor.rest();
    let t = read_type(&mut cursor);
    let ghost at_ts = cursor.pos;
    let ts = read_datetime(&mut cursor);
    let ghost at_peer = cursor.pos;
    let peer = read_uuid(&mut cursor);
    proof {
        assert forall|a: Seq<u8>, t0: Seq<char>, ts0: i64, b: Seq<u8>|
            #![trigger range_key(a, t0, ts0, b)]
            k@ == range_key(a, t0, ts0, b) && valid_id(a) && valid_id(b) && valid_type(t0) && ts0 >= 0
                implies (t matches Some(tt) && tt@ == t0) && ts == Some(ts0) && (peer matches Some(pp) && pp@ == b) by {
            lemma_index_key_reads(k@, a, t0, ts0, b);
            let n = str_bytes(t0).len() as int;
            assert(rest == k@.subrange(ID_LEN as int, k@.len() as int));
            let tt = t->Some_0;
            crate::keys::lemma_short_bytes_injective(tt@, t0);
            assert(at_ts == 17 + n);
            assert(cursor.buf@.subrange(at_ts as int, cursor.buf@.len() as int) == k@.subrange(17 + n, k@.len() as int));
            assert(at_peer == 25 + n);
            assert(k@.subrange(25 + n, k@.len() as int).subrange(0, 16) =~= b);
        }
    }
    match (t, ts, peer) {
        (Some(t), Some(ts), Some(peer)) => {
            if ts >= 0 {
                Some((t, ts, peer))
            } else {
                None
            }
        },
        _ => None,
    }
}

/// Removes a vertex, every edge its index entries point to in either
/// direction, those edges' metadata, and the vertex's metadata. Edge rows
/// and index entries stay in correspondence.
#[verifier::rlimit(50)]
fn cascade_vertex(ds: &mut RocksdbDatastore, id: &Vec<u8>)
    requires
        old(ds).wf(),
        valid_id(id@),
    ensures
        edges_indexed(*old(ds)) ==> removed_edges_metadata_gone(*final(ds), *old(ds), id@),
        keeps_unrelated(*final(ds), *old(ds), id@),
        final(ds).wf(),
        final(ds).vertices@ == old(ds).vertices@.remove(id@),
        without_prefix(final(ds).vertex_metadata@, old(ds).vertex_metadata@, id@),
        vertex_gone(*final(ds), id@),
        graph_shrunk(*final(ds), *old(ds)),
        edges_indexed(*old(ds)) && valid_id(id@) ==> edges_indexed(*final(ds)),
{
    let found = ds.edge_ranges.scan_prefix(id.as_slice());
    let ghost inv = edges_indexed(*old(ds)) && valid_id(id@);
    let mut j: usize = 0;
    while j < found.len()
        invariant
            ds.wf(),
            0 <= j <= found@.len(),
            pairs_of(found@) == old(ds).edge_ranges.pairs().filter(
                |e: (Seq<u8>, Seq<u8>)| has_prefix(e.0, id@),
            ),
            graph_shrunk(*ds, *old(ds)),
            ds.vertices == old(ds).vertices,
            ds.vertex_metadata == old(ds).vertex_metadata,
            forall|q: int| 0 <= q < j ==> !ds.edge_ranges@.contains_key(#[trigger] found@[q].0@),
            inv == (edges_indexed(*old(ds)) && valid_id(id@)),
            inv ==> edges_indexed(*ds),
            old(ds).wf(),
            valid_id(id@),
            keeps_unrelated(*ds, *old(ds), id@),
            inv ==> forall|t: Seq<char>, ts: i64, i: Seq<u8>|
                wf_key(id@, t, i) && ts >= 0 && #[trigger] old(ds).edge_ranges@.contains_key(range_key(id@, t, ts, i))
                    && !ds.edge_ranges@.contains_key(range_key(id@, t, ts, i)) ==> none_with_prefix(ds.edge_metadata@, edge_key(id@, t, i)),
            forall|o: Seq<u8>, t: Seq<char>, i: Seq<u8>|
                wf_key(o, t, i) && o != id@ && #[trigger] old(ds).edges@.contains_key(edge_key(o, t, i))
                    ==> ds.edges@.contains_key(edge_key(o, t, i)) && ds.edges@[edge_key(o, t, i)] == old(ds).edges@[edge_key(o, t, i)],
        decreases found@.len() - j,
    {
        let k = &found[j].0;
        if ds.edge_ranges.contains(k.as_slice()) {
            let ghost before = *ds;
            let parsed = if id.len() == ID_LEN && starts_with(k.as_slice(), id.as_slice()) {
                parse_index_key(k)
            } else {
                None
            };
            let ghost mut parts: (Seq<char>, i64, Seq<u8>, u32) = arbitrary();
            proof {
                if inv {
                    lemma_forward_entry(before, k@);
                    let (o2, t2, ts2, i2, w2) = choose|o2: Seq<u8>, t2: Seq<char>, ts2: i64, i2: Seq<u8>, w2: u32|
                        wf_edge(o2, t2, ts2, i2) && k@ == range_key(o2, t2, ts2, i2) && edge_row(before, o2, t2, i2, ts2, w2);
                    lemma_index_key_reads(k@, o2, t2, ts2, i2);
                    lemma_scan_entry(old(ds).edge_ranges, id@, found@, j as int);
                    assert(k@.subrange(0, 16) =~= o2);
                    assert(k@.subrange(0, 16) =~= id@);
                    parts = (t2, ts2, i2, w2);
                }
            }
            match parsed {
                Some((t, ts, peer)) => {
                    let ek = edge_key_of(id, &t, &peer);
                    ds.edges.delete(ek.as_slice());
                    ds.edge_metadata.delete_prefix(ek.as_slice());
                    let rk = range_key_of(&peer, &t, ts, id);
                    ds.reversed_edge_ranges.delete(rk.as_slice());
                    proof {
                        lemma_edge_drop_keeps(before, *ds, id@, id@, t@, ts, peer@);
                        assert forall|o: Seq<u8>, t0: Seq<char>, i0: Seq<u8>|
                            wf_key(o, t0, i0) && o != id@ && #[trigger] old(ds).edges@.contains_key(edge_key(o, t0, i0))
                            implies ds.edges@.contains_key(edge_key(o, t0, i0)) && ds.edges@[edge_key(o, t0, i0)] == old(ds).edges@[edge_key(o, t0, i0)] by {
                            if edge_key(o, t0, i0) == edge_key(id@, t@, peer@) {
                                crate::managers::lemma_edge_key_injective(o, t0, i0, id@, t@, peer@);
                            }
                        }
                        if inv {
                            assert(t@ == parts.0 && peer@ == parts.2 && ts == parts.1);
                            assert(none_with_prefix(ds.edge_metadata@, edge_key(id@, parts.0, parts.2)));
                        }
                    }
                },
                None => {},
            }
            let ghost step = *ds;
            ds.edge_ranges.delete(k.as_slice());
            proof {
                lemma_scan_entry(old(ds).edge_ranges, id@, found@, j as int);
                lemma_index_drop_keeps(step, *ds, id@, k@, false);
                lemma_keeps_trans(*ds, step, before, id@);
                lemma_keeps_trans(*ds, before, *old(ds), id@);
                if inv {
                    let (t2, ts2, i2, w2) = parts;
                    assert(shrunk(ds.edge_metadata@, before.edge_metadata@));
                    assert forall|t: Seq<char>, ts: i64, i: Seq<u8>|
                        wf_key(id@, t, i) && ts >= 0 && #[trigger] old(ds).edge_ranges@.contains_key(range_key(id@, t, ts, i))
                            && !ds.edge_ranges@.contains_key(range_key(id@, t, ts, i)) implies none_with_prefix(ds.edge_metadata@, edge_key(id@, t, i)) by {
                        if range_key(id@, t, ts, i) == k@ {
                            crate::managers::lemma_range_key_injective(id@, t, ts, i, id@, t2, ts2, i2);
                        } else {
                            assert(!before.edge_ranges@.contains_key(range_key(id@, t, ts, i)));
                        }
                    }
                }
            }
            proof {
                if inv {
                    let (t2, ts2, i2, w2) = parts;
                    crate::managers::lemma_edge_value_reads(ts2, w2);
                    assert(stale_ts(before.edges@, edge_key(id@, t2, i2)) == Some(ts2));
                    law_delete_edge_keeps_index(before, *ds, id@, t2, i2);
                }
            }
        }
        j = j + 1;
    }
    proof {
        assert forall|k: Seq<u8>| #[trigger] ds.edge_ranges@.contains_key(k) implies !has_prefix(k, id@) by {
            if has_prefix(k, id@) {
                lemma_scan_covers(old(ds).edge_ranges, id@, found@, k);
            }
        }
    }
    let ghost mid = *ds;
    proof {
        if inv {
            assert forall|t: Seq<char>, ts: i64, i: Seq<u8>, w: u32|
                wf_edge(id@, t, ts, i) && #[trigger] edge_row(*old(ds), id@, t, i, ts, w)
                implies none_with_prefix(mid.edge_metadata@, edge_key(id@, t, i)) by {
                crate::laws::lemma_row_entries(*old(ds), id@, t, ts, i, w);
                lemma_index_key_reads(range_key(id@, t, ts, i), id@, t, ts, i);
            }
        }
    }
    let found = ds.reversed_edge_ranges.scan_prefix(id.as_slice());
    let mut j: usize = 0;
    while j < found.len()
        invariant
            ds.wf(),
            0 <= j <= found@.len(),
            pairs_of(found@) == mid.reversed_edge_ranges.pairs().filter(
                |e: (Seq<u8>, Seq<u8>)| has_prefix(e.0, id@),
            ),
            graph_shrunk(*ds, mid),
            graph_shrunk(mid, *old(ds)),
            ds.vertices == old(ds).vertices,
            ds.vertex_metadata == old(ds).vertex_metadata,
            none_with_prefix(mid.edge_ranges@, id@),
            forall|q: int| 0 <= q < j ==> !ds.reversed_edge_ranges@.contains_key(#[trigger] found@[q].0@),
            inv == (edges_indexed(*old(ds)) && valid_id(id@)),
            inv ==> edges_indexed(*ds),
            mid.wf(),
            valid_id(id@),
            keeps_unrelated(*ds, mid, id@),
            keeps_unrelated(mid, *old(ds), id@),
            inv ==> forall|o: Seq<u8>, t: Seq<char>, ts: i64|
                wf_key(o, t, id@) && ts >= 0 && #[trigger] mid.reversed_edge_ranges@.contains_key(range_key(id@, t, ts, o))
                    && !ds.reversed_edge_ranges@.contains_key(range_key(id@, t, ts, o)) ==> none_with_prefix(ds.edge_metadata@, edge_key(o, t, id@)),
        decreases found@.len() - j,
    {
        let k = &found[j].0;
        if ds.reversed_edge_ranges.contains(k.as_slice()) {
            let ghost before = *ds;
            let parsed = if id.len() == ID_LEN && starts_with(k.as_slice(), id.as_slice()) {
                parse_index_key(k)
            } else {
                None
            };
            let ghost mut parts: (Seq<u8>, Seq<char>, i64, u32) = arbitrary();
            proof {
                if inv {
                    lemma_reverse_entry(before, k@);
                    let (o2, t2, ts2, i2, w2) = choose|o2: Seq<u8>, t2: Seq<char>, ts2: i64, i2: Seq<u8>, w2: u32|
                        wf_edge(o2, t2, ts2, i2) && k@ == range_key(i2, t2, ts2, o2) && edge_row(before, o2, t2, i2, ts2, w2);
                    lemma_index_key_reads(k@, i2, t2, ts2, o2);
                    lemma_scan_entry(mid.reversed_edge_ranges, id@, found@, j as int);
                    assert(k@.subrange(0, 16) =~= i2);
                    assert(k@.subrange(0, 16) =~= id@);
                    parts = (o2, t2, ts2, w2);
                }
            }
            match parsed {
                Some((t, ts, peer)) => {
                    let ek = edge_key_of(&peer, &t, id);
                    ds.edges.delete(ek.as_slice());
                    ds.edge_metadata.delete_prefix(ek.as_slice());
                    let fk = range_key_of(&peer, &t, ts, id);
                    ds.edge_ranges.delete(fk.as_slice());
                    proof {
                        lemma_edge_drop_keeps(before, *ds, id@, peer@, t@, ts, id@);
                        if inv {
                            assert(t@ == parts.1 && peer@ == parts.0 && ts == parts.2);
                            assert(none_with_prefix(ds.edge_metadata@, edge_key(parts.0, parts.1, id@)));
                        }
                    }
                },
                None => {},
            }
            let ghost step = *ds;
            ds.reversed_edge_ranges.delete(k.as_slice());
            proof {
                lemma_scan_entry(mid.reversed_edge_ranges, id@, found@, j as int);
                lemma_index_drop_keeps(step, *ds, id@, k@, true);
                lemma_keeps_trans(*ds, step, before, id@);
                lemma_keeps_trans(*ds, before, mid, id@);
                if inv {
                    let (o2, t2, ts2, w2) = parts;
                    assert(shrunk(ds.edge_metadata@, before.edge_metadata@));
                    assert forall|o: Seq<u8>, t: Seq<char>, ts: i64|
                        wf_key(o, t, id@) && ts >= 0 && #[trigger] mid.reversed_edge_ranges@.contains_key(range_key(id@, t, ts, o))
                            && !ds.reversed_edge_ranges@.contains_key(range_key(id@, t, ts, o)) implies none_with_prefix(ds.edge_metadata@, edge_key(o, t, id@)) by {
                        if range_key(id@, t, ts, o) == k@ {
                            crate::managers::lemma_range_key_injective(id@, t, ts, o, id@, t2, ts2, o2);
                        } else {
                            assert(!before.reversed_edge_ranges@.contains_key(range_key(id@, t, ts, o)));
                        }
                    }
                }
            }
            proof {
                if inv {
                    let (o2, t2, ts2, w2) = parts;
                    crate::managers::lemma_edge_value_reads(ts2, w2);
                    assert(stale_ts(before.edges@, edge_key(o2, t2, id@)) == Some(ts2));
                    law_delete_edge_keeps_index(before, *ds, o2, t2, id@);
                }
            }
        }
        j = j + 1;
    }
    proof {
        assert forall|k: Seq<u8>| #[trigger] ds.reversed_edge_ranges@.contains_key(k) implies !has_prefix(k, id@) by {
            if has_prefix(k, id@) {
                lemma_scan_covers(mid.reversed_edge_ranges, id@, found@, k);
            }
        }
    }
    proof {
        if inv {
            assert forall|o: Seq<u8>, t: Seq<char>, ts: i64, w: u32|
                wf_edge(o, t, ts, id@) && #[trigger] edge_row(*old(ds), o, t, id@, ts, w)
                implies none_with_prefix(ds.edge_metadata@, edge_key(o, t, id@)) by {
                if o == id@ {
                    assert(edge_row(*old(ds), id@, t, id@, ts, w));
                    assert(none_with_prefix(mid.edge_metadata@, edge_key(id@, t, id@)));
                } else {
                    assert(old(ds).edges@.contains_key(edge_key(o, t, id@)));
                    assert(edge_row(mid, o, t, id@, ts, w));
                    crate::laws::lemma_row_entries(mid, o, t, ts, id@, w);
                    lemma_index_key_reads(range_key(id@, t, ts, o), id@, t, ts, o);
                }
            }
        }
    }
    let ghost edges_done = *ds;
    ds.vertex_metadata.delete_prefix(id.as_slice());
    ds.vertices.delete(id.as_slice());
    proof {
        if inv {
            lemma_indexed_frame(edges_done, *ds);
        }
        lemma_keeps_trans(edges_done, mid, *old(ds), id@);
    }
}

impl RocksdbTransaction {
    /// Removes a vertex this transaction's account owns, with its edges in
    /// both directions and all their metadata.
    pub fn delete_vertex(&self, ds: &mut RocksdbDatastore, id: &Vec<u8>) -> (r: Result<(), Error>)
        requires
            old(ds).wf(),
            valid_id(self.account_id@),
        ensures
            final(ds).wf(),
            r is Ok <==> owned_by(old(ds).vertices@, id@, self.account_id@),
            r is Err ==> r == Err::<(), Error>(Error::VertexNotFound) && *final(ds) == *old(ds),
            r is Ok ==> final(ds).vertices@ == old(ds).vertices@.remove(id@) && without_prefix(
                final(ds).vertex_metadata@,
                old(ds).vertex_metadata@,
                id@,
            ) && vertex_gone(*final(ds), id@) && graph_shrunk(*final(ds), *old(ds))
                && keeps_unrelated(*final(ds), *old(ds), id@),
            edges_indexed(*old(ds)) ==> edges_indexed(*final(ds)),
            r is Ok && edges_indexed(*old(ds)) ==> no_edge_touches(*final(ds), id@),
            r is Ok && edges_indexed(*old(ds)) ==> removed_edges_metadata_gone(*final(ds), *old(ds), id@),
    {
        match self.check_write_permissions(ds, id, Error::VertexNotFound) {
            Ok(()) => {},
            Err(e) => return Err(e),
        }
        cascade_vertex(ds, id);
        proof {
            if edges_indexed(*old(ds)) && valid_id(id@) {
                lemma_no_edge_touches(*ds, id@);
            }
        }
        Ok(())
    }
}

impl RocksdbDatastore {
    /// Removes an account, every vertex it owns (with their edges and
    /// metadata), and its account metadata.
    pub fn delete_account(&mut self, account_id: &Vec<u8>) -> (r: Result<(), Error>)
        requires
            old(self).wf(),
            valid_id(account_id@),
        ensures
            final(self).wf(),
            r is Ok <==> old(self).accounts@.contains_key(account_id@),
            r is Err ==> r == Err::<(), Error>(Error::AccountNotFound) && *final(self) == *old(self),
            r is Ok ==> {
                &&& final(self).accounts@ == old(self).accounts@.remove(account_id@)
                &&& without_prefix(final(self).account_metadata@, old(self).account_metadata@, account_id@)
                &&& forall|v: Seq<u8>| #[trigger] owned_by(old(self).vertices@, v, account_id@) ==> vertex_gone(*final(self), v)
                &&& final(self).global_metadata == old(self).global_metadata
                &&& shrunk(final(self).vertices@, old(self).vertices@)
                &&& shrunk(final(self).edges@, old(self).edges@)
                &&& shrunk(final(self).edge_ranges@, old(self).edge_ranges@)
                &&& shrunk(final(self).reversed_edge_ranges@, old(self).reversed_edge_ranges@)
                &&& shrunk(final(self).vertex_metadata@, old(self).vertex_metadata@)
                &&& shrunk(final(self).edge_metadata@, old(self).edge_metadata@)
                &&& forall|v: Seq<u8>| #[trigger] old(self).vertices@.contains_key(v) && !owned_by(old(self).vertices@, v, account_id@)
                    ==> final(self).vertices@.contains_key(v) && final(self).vertices@[v] == old(self).vertices@[v]
                &&& keeps_outside(*final(self), *old(self), old(self).vertices@, account_id@)
                &&& forall|k: Seq<u8>| #[trigger] old(self).vertex_metadata@.contains_key(k) && !under_owned(old(self).vertices@, account_id@, k)
                    ==> final(self).vertex_metadata@.contains_key(k) && final(self).vertex_metadata@[k] == old(self).vertex_metadata@[k]
            },
            edges_indexed(*old(self)) ==> edges_indexed(*final(self)),
            r is Ok && edges_indexed(*old(self)) ==> forall|v: Seq<u8>| #[trigger] owned_by(old(self).vertices@, v, account_id@)
                ==> removed_edges_metadata_gone(*final(self), *old(self), v),
            r is Ok && edges_indexed(*old(self)) ==> forall|v: Seq<u8>| #[trigger] owned_by(old(self).vertices@, v, account_id@) ==> no_edge_touches(*final(self), v),
    {
        if !self.accounts.contains(account_id.as_slice()) {
            return Err(Error::AccountNotFound);
        }
        let everything: Vec<u8> = Vec::new();
        let found = self.vertices.scan_prefix(everything.as_slice());
        let ghost inv = edges_indexed(*old(self)) && (forall|v: Seq<u8>| #[trigger] old(self).vertices@.contains_key(v) ==> valid_id(v));
        let mut j: usize = 0;
        while j < found.len()
            invariant
                self.wf(),
                0 <= j <= found@.len(),
                everything@ == Seq::<u8>::empty(),
                pairs_of(found@) == old(self).vertices.pairs().filter(
                    |e: (Seq<u8>, Seq<u8>)| has_prefix(e.0, everything@),
                ),
                graph_shrunk(*self, *old(self)),
                forall|q: int| 0 <= q < j && has_prefix(#[trigger] found@[q].1@, account_id@) ==> vertex_gone(*self, found@[q].0@),
                old(self).wf(),
                inv == (edges_indexed(*old(self)) && (forall|v: Seq<u8>| #[trigger] old(self).vertices@.contains_key(v) ==> valid_id(v))),
                inv ==> edges_indexed(*self),
                forall|v: Seq<u8>| #[trigger] old(self).vertices@.contains_key(v) && !owned_by(old(self).vertices@, v, account_id@)
                    ==> self.vertices@.contains_key(v) && self.vertices@[v] == old(self).vertices@[v],
                keeps_outside(*self, *old(self), old(self).vertices@, account_id@),
                inv ==> forall|o: Seq<u8>, t: Seq<char>, ts: i64, i: Seq<u8>, w: u32|
                    wf_edge(o, t, ts, i) && #[trigger] edge_row(*old(self), o, t, i, ts, w)
                        ==> edge_row(*self, o, t, i, ts, w) || none_with_prefix(self.edge_metadata@, edge_key(o, t, i)),
                forall|k: Seq<u8>| #[trigger] old(self).vertex_metadata@.contains_key(k) && !under_owned(old(self).vertices@, account_id@, k)
                    ==> self.vertex_metadata@.contains_key(k) && self.vertex_metadata@[k] == old(self).vertex_metadata@[k],
            decreases found@.len() - j,
        {
            proof {
                lemma_scan_entry(old(self).vertices, everything@, found@, j as int);
            }
            if starts_with(found[j].1.as_slice(), account_id.as_slice()) {
                let ghost before = *self;
                cascade_vertex(self, &found[j].0);
                proof {
                    assert forall|q: int| 0 <= q < j && has_prefix(#[trigger] found@[q].1@, account_id@) implies vertex_gone(*self, found@[q].0@) by {
                        assert(vertex_gone(before, found@[q].0@));
                    }
                    assert(owned_by(old(self).vertices@, found@[j as int].0@, account_id@));
                    lemma_keeps_outside_step(*self, before, *old(self), old(self).vertices@, account_id@, found@[j as int].0@);
                    if inv {
                        let v = found@[j as int].0@;
                        assert forall|o: Seq<u8>, t: Seq<char>, ts: i64, i: Seq<u8>, w: u32|
                            wf_edge(o, t, ts, i) && #[trigger] edge_row(*old(self), o, t, i, ts, w)
                            implies edge_row(*self, o, t, i, ts, w) || none_with_prefix(self.edge_metadata@, edge_key(o, t, i)) by {
                            if edge_row(before, o, t, i, ts, w) {
                                if o == v {
                                    assert(edge_row(before, v, t, i, ts, w));
                                } else if i == v {
                                    assert(edge_row(before, o, t, v, ts, w));
                                } else {
                                    assert(before.edges@.contains_key(edge_key(o, t, i)));
                                }
                            } else {
                                assert(none_with_prefix(before.edge_metadata@, edge_key(o, t, i)));
                            }
                        }
                    }
                    assert forall|k: Seq<u8>| #[trigger] old(self).vertex_metadata@.contains_key(k) && !under_owned(old(self).vertices@, account_id@, k)
                        implies self.vertex_metadata@.contains_key(k) && self.vertex_metadata@[k] == old(self).vertex_metadata@[k] by {
                        if has_prefix(k, found@[j as int].0@) {
                            assert(owned_by(old(self).vertices@, found@[j as int].0@, account_id@) && has_prefix(k, found@[j as int].0@));
                            assert(under_owned(old(self).vertices@, account_id@, k));
                        }
                        assert(before.vertex_metadata@.contains_key(k));
                    }
                }
            }
            j = j + 1;
        }
        proof {
            assert forall|v: Seq<u8>| #[trigger] owned_by(old(self).vertices@, v, account_id@) implies vertex_gone(*self, v) by {
                assert(has_prefix(v, everything@)) by {
                    assert(v.subrange(0, 0) =~= everything@);
                }
                lemma_scan_covers(old(self).vertices, everything@, found@, v);
                let q = choose|q: int| 0 <= q < found@.len() && (#[trigger] found@[q]).0@ == v;
                lemma_scan_entry(old(self).vertices, everything@, found@, q);
            }
        }
        let ghost edges_done = *self;
        self.account_metadata.delete_prefix(account_id.as_slice());
        self.accounts.delete(account_id.as_slice());
        proof {
            if inv {
                lemma_indexed_frame(edges_done, *self);
                assert forall|v: Seq<u8>| #[trigger] owned_by(old(self).vertices@, v, account_id@) implies no_edge_touches(*self, v) by {
                    lemma_no_edge_touches(*self, v);
                }
                assert forall|v: Seq<u8>| #[trigger] owned_by(old(self).vertices@, v, account_id@) implies removed_edges_metadata_gone(*self, *old(self), v) by {
                    lemma_no_edge_touches(*self, v);
                    assert forall|t: Seq<char>, ts: i64, i: Seq<u8>, w: u32|
                        wf_edge(v, t, ts, i) && #[trigger] edge_row(*old(self), v, t, i, ts, w)
                        implies none_with_prefix(self.edge_metadata@, edge_key(v, t, i)) by {
                        assert(edge_row(edges_done, v, t, i, ts, w) || none_with_prefix(edges_done.edge_metadata@, edge_key(v, t, i)));
                    }
                    assert forall|o: Seq<u8>, t: Seq<char>, ts: i64, w: u32|
                        wf_edge(o, t, ts, v) && #[trigger] edge_row(*old(self), o, t, v, ts, w)
                        implies none_with_prefix(self.edge_metadata@, edge_key(o, t, v)) by {
                        assert(edge_row(edges_done, o, t, v, ts, w) || none_with_prefix(edges_done.edge_metadata@, edge_key(o, t, v)));
                    }
                }
            }
        }
        Ok(())
    }
}

/// No edge row starts or ends at vertex `v`.
pub open spec fn no_edge_touches(ds: RocksdbDatastore, v: Seq<u8>) -> bool {
    &&& forall|t: Seq<char>, i: Seq<u8>| valid_id(i) && valid_type(t) ==> !ds.edges@.contains_key(#[trigger] edge_key(v, t, i))
    &&& forall|o: Seq<u8>, t: Seq<char>| valid_id(o) && valid_type(t) ==> !ds.edges@.contains_key(#[trigger] edge_key(o, t, v))
}

proof fn lemma_no_edge_touches(ds: RocksdbDatastore, v: Seq<u8>)
    requires
        edges_indexed(ds),
        vertex_gone(ds, v),
        valid_id(v),
    ensures
        no_edge_touches(ds, v),
{
    assert forall|t: Seq<char>, i: Seq<u8>| valid_id(i) && valid_type(t) implies !ds.edges@.contains_key(#[trigger] edge_key(v, t, i)) by {
        crate::laws::law_gone_vertex_has_no_edges(ds, v, v, t, i);
    }
    assert forall|o: Seq<u8>, t: Seq<char>| valid_id(o) && valid_type(t) implies !ds.edges@.contains_key(#[trigger] edge_key(o, t, v)) by {
        crate::laws::law_gone_vertex_has_no_edges(ds, v, o, t, v);
    }
}

/// Key `k` lies under a vertex that account `a` owns.
pub open spec fn under_owned(vertices: Map<Seq<u8>, Seq<u8>>, a: Seq<u8>, k: Seq<u8>) -> bool {
    exists|v: Seq<u8>| owned_by(vertices, v, a) && has_prefix(k, v)
}

/// The graph families are the same in `a` and `b`.
pub open spec fn graph_unchanged(a: RocksdbDatastore, b: RocksdbDatastore) -> bool {
    &&& a.accounts == b.accounts
    &&& a.vertices == b.vertices
    &&& a.edges == b.edges
    &&& a.edge_ranges == b.edge_ranges
    &&& a.reversed_edge_ranges == b.reversed_edge_ranges
}

/// Of the metadata families only `which` (0 global, 1 account, 2 vertex,
/// 3 edge) may differ between `a` and `b`.
pub open spec fn other_metadata_unchanged(a: RocksdbDatastore, b: RocksdbDatastore, which: int) -> bool {
    &&& which != 0 ==> a.global_metadata == b.global_metadata
    &&& which != 1 ==> a.account_metadata == b.account_metadata
    &&& which != 2 ==> a.vertex_metadata == b.vertex_metadata
    &&& which != 3 ==> a.edge_metadata == b.edge_metadata
}

/// The metadata value under `key` of a family, or `MetadataNotFound`.
fn get_metadata(fam: &Family, key: &Vec<u8>) -> (r: Result<Vec<u8>, Error>)
    requires
        fam.wf(),
    ensures
        r is Ok <==> fam@.contains_key(key@),
        r matches Ok(v) ==> v@ == fam@[key@],
        r is Err ==> r == Err::<Vec<u8>, Error>(Error::MetadataNotFound),
{
    match fam.get(key.as_slice()) {
        Some(v) => Ok(v),
        None => Err(Error::MetadataNotFound),
    }
}

impl RocksdbTransaction {
    /// The global metadata value under `key`; values are serialized JSON.
    pub fn get_global_metadata_bytes(&self, ds: &RocksdbDatastore, key: &String) -> (r: Result<Vec<u8>, Error>)
        requires
            ds.wf(),
        ensures
            r is Ok <==> ds.global_metadata@.contains_key(str_bytes(key@)),
            r matches Ok(v) ==> v@ == ds.global_metadata@[str_bytes(key@)],
            r is Err ==> r == Err::<Vec<u8>, Error>(Error::MetadataNotFound),
    {
        let k = meta_key_of(&Vec::new(), key);
        assert(k@ =~= str_bytes(key@));
        get_metadata(&ds.global_metadata, &k)
    }

    /// Stores `value` as the global metadata under `key`.
    pub fn set_global_metadata_bytes(&self, ds: &mut RocksdbDatastore, key: &String, value: &Vec<u8>) -> (r: Result<(), Error>)
        requires
            old(ds).wf(),
        ensures
            final(ds).wf(),
            r is Ok,
            final(ds).global_metadata@ == old(ds).global_metadata@.insert(str_bytes(key@), value@),
            graph_unchanged(*final(ds), *old(ds)),
            other_metadata_unchanged(*final(ds), *old(ds), 0),
    {
        let k = meta_key_of(&Vec::new(), key);
        assert(k@ =~= str_bytes(key@));
        ds.global_metadata.put(k, value.clone());
        Ok(())
    }

    /// Removes the global metadata under `key`.
    pub fn delete_global_metadata_bytes(&self, ds: &mut RocksdbDatastore, key: &String) -> (r: Result<(), Error>)
        requires
            old(ds).wf(),
        ensures
            final(ds).wf(),
            r is Ok,
            final(ds).global_metadata@ == old(ds).global_metadata@.remove(str_bytes(key@)),
            graph_unchanged(*final(ds), *old(ds)),
            other_metadata_unchanged(*final(ds), *old(ds), 0),
    {
        let k = meta_key_of(&Vec::new(), key);
        assert(k@ =~= str_bytes(key@));
        ds.global_metadata.delete(k.as_slice());
        Ok(())
    }

    /// The metadata value under `key` of account `owner_id`.
    pub fn get_account_metadata_bytes(&self, ds: &RocksdbDatastore, owner_id: &Vec<u8>, key: &String) -> (r: Result<Vec<u8>, Error>)
        requires
            ds.wf(),
        ensures
            r is Ok <==> ds.account_metadata@.contains_key(meta_key(owner_id@, key@)),
            r matches Ok(v) ==> v@ == ds.account_metadata@[meta_key(owner_id@, key@)],
            r is Err ==> r == Err::<Vec<u8>, Error>(Error::MetadataNotFound),
    {
        get_metadata(&ds.account_metadata, &meta_key_of(owner_id, key))
    }

    /// Stores `value` under `key` for account `owner_id`, which must exist.
    pub fn set_account_metadata_bytes(&self, ds: &mut RocksdbDatastore, owner_id: &Vec<u8>, key: &String, value: &Vec<u8>) -> (r: Result<(), Error>)
        requires
            old(ds).wf(),
        ensures
            final(ds).wf(),
            r is Ok <==> old(ds).accounts@.contains_key(owner_id@),
            r is Err ==> r == Err::<(), Error>(Error::AccountNotFound) && *final(ds) == *old(ds),
            r is Ok ==> final(ds).account_metadata@ == old(ds).account_metadata@.insert(
                meta_key(owner_id@, key@),
                value@,
            ),
            graph_unchanged(*final(ds), *old(ds)),
            other_metadata_unchanged(*final(ds), *old(ds), 1),
    {
        if !ds.accounts.contains(owner_id.as_slice()) {
            return Err(Error::AccountNotFound);
        }
        ds.account_metadata.put(meta_key_of(owner_id, key), value.clone());
        Ok(())
    }

    /// Removes the metadata under `key` of account `owner_id`.
    pub fn delete_account_metadata_bytes(&self, ds: &mut RocksdbDatastore, owner_id: &Vec<u8>, key: &String) -> (r: Result<(), Error>)
        requires
            old(ds).wf(),
        ensures
            final(ds).wf(),
            r is Ok,
            final(ds).account_metadata@ == old(ds).account_metadata@.remove(meta_key(owner_id@, key@)),
            graph_unchanged(*final(ds), *old(ds)),
            other_metadata_unchanged(*final(ds), *old(ds), 1),
    {
        ds.account_metadata.delete(meta_key_of(owner_id, key).as_slice());
        Ok(())
    }

    /// The metadata value under `key` of vertex `owner_id`.
    pub fn get_vertex_metadata_bytes(&self, ds: &RocksdbDatastore, owner_id: &Vec<u8>, key: &String) -> (r: Result<Vec<u8>, Error>)
        requires
            ds.wf(),
        ensures
            r is Ok <==> ds.vertex_metadata@.contains_key(meta_key(owner_id@, key@)),
            r matches Ok(v) ==> v@ == ds.vertex_metadata@[meta_key(owner_id@, key@)],
            r is Err ==> r == Err::<Vec<u8>, Error>(Error::MetadataNotFound),
    {
        get_metadata(&ds.vertex_metadata, &meta_key_of(owner_id, key))
    }

    /// Stores `value` under `key` for vertex `owner_id`, which must exist.
    pub fn set_vertex_metadata_bytes(&self, ds: &mut RocksdbDatastore, owner_id: &Vec<u8>, key: &String, value: &Vec<u8>) -> (r: Result<(), Error>)
        requires
            old(ds).wf(),
        ensures
            final(ds).wf(),
            r is Ok <==> old(ds).vertices@.contains_key(owner_id@),
            r is Err ==> r == Err::<(), Error>(Error::VertexNotFound) && *final(ds) == *old(ds),
            r is Ok ==> final(ds).vertex_metadata@ == old(ds).vertex_metadata@.insert(
                meta_key(owner_id@, key@),
                value@,
            ),
            graph_unchanged(*final(ds), *old(ds)),
            other_metadata_unchanged(*final(ds), *old(ds), 2),
    {
        if !ds.vertices.contains(owner_id.as_slice()) {
            return Err(Error::VertexNotFound);
        }
        ds.vertex_metadata.put(meta_key_of(owner_id, key), value.clone());
        Ok(())
    }

    /// Removes the metadata under `key` of vertex `owner_id`.
    pub fn delete_vertex_metadata_bytes(&self, ds: &mut RocksdbDatastore, owner_id: &Vec<u8>, key: &String) -> (r: Result<(), Error>)
        requires
            old(ds).wf(),
        ensures
            final(ds).wf(),
            r is Ok,
            final(ds).vertex_metadata@ == old(ds).vertex_metadata@.remove(meta_key(owner_id@, key@)),
            graph_unchanged(*final(ds), *old(ds)),
            other_metadata_unchanged(*final(ds), *old(ds), 2),
    {
        ds.vertex_metadata.delete(meta_key_of(owner_id, key).as_slice());
        Ok(())
    }

    /// The metadata value under `key` of edge `(outbound_id, t, inbound_id)`.
    pub fn get_edge_metadata_bytes(&self, ds: &RocksdbDatastore, outbound_id: &Vec<u8>, t: &String, inbound_id: &Vec<u8>, key: &String) -> (r: Result<Vec<u8>, Error>)
        requires
            ds.wf(),
            valid_id(outbound_id@),
            valid_id(inbound_id@),
            valid_type(t@),
        ensures
            ({
                let k = edge_meta_key(outbound_id@, t@, inbound_id@, key@);
                &&& r is Ok <==> ds.edge_metadata@.contains_key(k)
                &&& r matches Ok(v) ==> v@ == ds.edge_metadata@[k]
                &&& r is Err ==> r == Err::<Vec<u8>, Error>(Error::MetadataNotFound)
            }),
    {
        get_metadata(&ds.edge_metadata, &edge_meta_key_of(outbound_id, t, inbound_id, key))
    }

    /// Stores `value` under `key` for the edge, which must exist.
    pub fn set_edge_metadata_bytes(&self, ds: &mut RocksdbDatastore, outbound_id: &Vec<u8>, t: &String, inbound_id: &Vec<u8>, key: &String, value: &Vec<u8>) -> (r: Result<(), Error>)
        requires
            old(ds).wf(),
            valid_id(outbound_id@),
            valid_id(inbound_id@),
            valid_type(t@),
        ensures
            final(ds).wf(),
            r is Ok <==> old(ds).edges@.contains_key(edge_key(outbound_id@, t@, inbound_id@)),
            r is Err ==> r == Err::<(), Error>(Error::EdgeNotFound) && *final(ds) == *old(ds),
            r is Ok ==> final(ds).edge_metadata@ == old(ds).edge_metadata@.insert(
                edge_meta_key(outbound_id@, t@, inbound_id@, key@),
                value@,
            ),
            graph_unchanged(*final(ds), *old(ds)),
            other_metadata_unchanged(*final(ds), *old(ds), 3),
    {
        if !ds.edges.contains(edge_key_of(outbound_id, t, inbound_id).as_slice()) {
            return Err(Error::EdgeNotFound);
        }
        ds.edge_metadata.put(edge_meta_key_of(outbound_id, t, inbound_id, key), value.clone());
        Ok(())
    }

    /// Removes the metadata under `key` of the edge.
    pub fn delete_edge_metadata_bytes(&self, ds: &mut RocksdbDatastore, outbound_id: &Vec<u8>, t: &String, inbound_id: &Vec<u8>, key: &String) -> (r: Result<(), Error>)
        requires
            old(ds).wf(),
            valid_id(outbound_id@),
            valid_id(inbound_id@),
            valid_type(t@),
        ensures
            final(ds).wf(),
            r is Ok,
            final(ds).edge_metadata@ == old(ds).edge_metadata@.remove(
                edge_meta_key(outbound_id@, t@, inbound_id@, key@),
            ),
            graph_unchanged(*final(ds), *old(ds)),
            other_metadata_unchanged(*final(ds), *old(ds), 3),
    {
        ds.edge_metadata.delete(edge_meta_key_of(outbound_id, t, inbound_id, key).as_slice());
        Ok(())
    }
}

/// The stored account value `v` carries digest `d`.
pub open spec fn has_digest(v: Seq<u8>, d: Seq<char>) -> bool {
    exists|salt: Seq<char>, email: Seq<char>|
        short_str(salt) && short_str(d) && v == account_value(salt, d, email)
}

impl RocksdbDatastore {
    /// Stores an account under `id` with its salt, secret digest and email.
    /// Fails with `Unexpected`, changing nothing, when `id` is taken.
    pub fn create_account_with_id(&mut self, id: &Vec<u8>, email: &String, salt: &String, digest: &String) -> (r: Result<(), Error>)
        requires
            old(self).wf(),
            valid_id(id@),
            short_str(salt@),
            short_str(digest@),
        ensures
            final(self).wf(),
            r is Err <==> old(self).accounts@.contains_key(id@),
            r is Err ==> *final(self) == *old(self) && (r matches Err(Error::Unexpected(_))),
            r is Ok ==> final(self).accounts@ == old(self).accounts@.insert(id@, account_value(salt@, digest@, email@)),
            final(self).vertices == old(self).vertices,
            final(self).edges == old(self).edges,
            final(self).edge_ranges == old(self).edge_ranges,
            final(self).reversed_edge_ranges == old(self).reversed_edge_ranges,
            metadata_unchanged(*final(self), *old(self)),
    {
        if self.accounts.contains(id.as_slice()) {
            return Err(Error::Unexpected("Identifier already taken".to_string()));
        }
        let cs = vec![
            KeyComponent::ShortSizedString(salt.clone()),
            KeyComponent::ShortSizedString(digest.clone()),
            KeyComponent::UnsizedString(email.clone()),
        ];
        let value = build_key(cs);
        proof {
            reveal_with_fuel(key_bytes, 4);
            assert(cs@.drop_last().drop_last().drop_last() =~= Seq::<KeyComponent>::empty());
        }
        assert(value@ =~= account_value(salt@, digest@, email@));
        self.accounts.put(id.clone(), value);
        Ok(())
    }

    /// Creates an account under a fresh random identifier, returned.
    /// Fails with `Unexpected`, changing nothing, in the unlikely case that
    /// the random identifier is already taken.
    pub fn create_account(&mut self, email: &String, salt: &String, digest: &String) -> (r: Result<Vec<u8>, Error>)
        requires
            old(self).wf(),
            short_str(salt@),
            short_str(digest@),
        ensures
            final(self).wf(),
            r is Err ==> *final(self) == *old(self) && (r matches Err(Error::Unexpected(_))),
            r is Err ==> exists|id: Seq<u8>| valid_id(id) && old(self).accounts@.contains_key(id),
            r matches Ok(id) ==> valid_id(id@) && !old(self).accounts@.contains_key(id@)
                && final(self).accounts@ == old(self).accounts@.insert(id@, account_value(salt@, digest@, email@)),
            final(self).vertices == old(self).vertices,
            final(self).edges == old(self).edges,
            final(self).edge_ranges == old(self).edge_ranges,
            final(self).reversed_edge_ranges == old(self).reversed_edge_ranges,
            metadata_unchanged(*final(self), *old(self)),
    {
        let id = new_id();
        match self.create_account_with_id(&id, email, salt, digest) {
            Ok(()) => Ok(id),
            Err(e) => Err(e),
        }
    }

    /// Whether the account exists and its stored secret digest is `digest`.
    #[verifier::rlimit(50)]
    pub fn auth(&self, account_id: &Vec<u8>, digest: &String) -> (r: bool)
        requires
            self.wf(),
        ensures
            r <==> self.accounts@.contains_key(account_id@) && has_digest(
                self.accounts@[account_id@],
                digest@,
            ),
    {
        let value = match self.accounts.get(account_id.as_slice()) {
            Some(v) => v,
            None => return false,
        };
        let ghost v = value@;
        let mut cursor = Cursor::new(value);
        assert(cursor.rest() =~= v);
        let salt = read_short_sized_string(&mut cursor);
        let ghost after_salt = cursor.pos as int;
        let stored = read_short_sized_string(&mut cursor);
        let ghost after_digest = cursor.pos as int;
        let email = read_unsized_string(&mut cursor);
        proof {
            if has_digest(v, digest@) {
                let (s0, e0) = choose|s0: Seq<char>, e0: Seq<char>|
                    short_str(s0) && short_str(digest@) && v == account_value(s0, digest@, e0);
                let rest1 = short_bytes(digest@) + str_bytes(e0);
                assert(v =~= short_bytes(s0) + rest1);
                lemma_short_prefix(s0, rest1);
                lemma_short_prefix(digest@, str_bytes(e0));
                vstd::utf8::encode_utf8_valid_utf8(e0);
                if salt is Some {
                    lemma_short_bytes_injective(salt->Some_0@, s0);
                    assert(v.subrange(after_salt, v.len() as int) =~= rest1);
                    if stored is Some {
                        lemma_short_bytes_injective(stored->Some_0@, digest@);
                        assert(v.subrange(after_digest, v.len() as int) =~= str_bytes(e0));
                    }
                }
            }
        }
        match (salt, stored, email) {
            (Some(salt), Some(stored), Some(email)) => {
                let same = stored == *digest;
                proof {
                    if same {
                        assert(v =~= v.subrange(0, after_salt) + v.subrange(after_salt, after_digest) + v.subrange(after_digest, v.len() as int));
                        assert(v.subrange(after_salt, after_digest) =~= v.subrange(after_salt, v.len() as int).subrange(0, after_digest - after_salt));
                        assert(v =~= account_value(salt@, digest@, email@));
                        assert(short_str(salt@));
                        assert(short_str(digest@));
                    }
                }
                same
            },
            _ => false,
        }
    }
}

/// `v` is an account value with salt `salt`.
pub open spec fn has_salt(v: Seq<u8>, salt: Seq<char>) -> bool {
    exists|d: Seq<char>, email: Seq<char>| short_str(salt) && short_str(d) && v == account_value(salt, d, email)
}

impl RocksdbDatastore {
    /// The salt stored with the account, which the secret's digest is salted
    /// with; `None` for an unknown account.
    #[verifier::rlimit(50)]
    pub fn account_salt(&self, account_id: &Vec<u8>) -> (r: Option<String>)
        requires
            self.wf(),
        ensures
            r matches Some(s) ==> self.accounts@.contains_key(account_id@) && has_salt(self.accounts@[account_id@], s@),
            forall|s: Seq<char>| self.accounts@.contains_key(account_id@) && #[trigger] has_salt(self.accounts@[account_id@], s)
                ==> (r matches Some(x) && x@ == s),
    {
        let value = match self.accounts.get(account_id.as_slice()) {
            Some(v) => v,
            None => return None,
        };
        let ghost v = value@;
        let mut cursor = Cursor::new(value);
        assert(cursor.rest() =~= v);
        let salt = read_short_sized_string(&mut cursor);
        let ghost after_salt = cursor.pos as int;
        let stored = read_short_sized_string(&mut cursor);
        let ghost after_digest = cursor.pos as int;
        let email = read_unsized_string(&mut cursor);
        proof {
            assert forall|s0: Seq<char>| #[trigger] has_salt(v, s0) implies (salt matches Some(x) && x@ == s0)
                && stored is Some && email is Some by {
                let (d0, e0) = choose|d0: Seq<char>, e0: Seq<char>|
                    short_str(s0) && short_str(d0) && v == account_value(s0, d0, e0);
                let rest1 = short_bytes(d0) + str_bytes(e0);
                assert(v =~= short_bytes(s0) + rest1);
                lemma_short_prefix(s0, rest1);
                lemma_short_prefix(d0, str_bytes(e0));
                vstd::utf8::encode_utf8_valid_utf8(e0);
                lemma_short_bytes_injective(salt->Some_0@, s0);
                assert(v.subrange(after_salt, v.len() as int) =~= rest1);
                lemma_short_bytes_injective(stored->Some_0@, d0);
                assert(v.subrange(after_digest, v.len() as int) =~= str_bytes(e0));
            }
        }
        match (salt, stored, email) {
            (Some(salt), Some(stored), Some(email)) => {
                proof {
                    assert(v =~= v.subrange(0, after_salt) + v.subrange(after_salt, after_digest) + v.subrange(after_digest, v.len() as int));
                    assert(v.subrange(after_salt, after_digest) =~= v.subrange(after_salt, v.len() as int).subrange(0, after_digest - after_salt));
                    assert(v =~= account_value(salt@, stored@, email@));
                    assert(has_salt(v, salt@));
                }
                Some(salt)
            },
            _ => None,
        }
    }
}

impl RocksdbTransaction {
    /// Creates a vertex of type `t` under a fresh random identifier, owned by
    /// this transaction's account.
    pub fn create_vertex(&self, ds: &mut RocksdbDatastore, t: &String) -> (r: Result<Vec<u8>, Error>)
        requires
            old(ds).wf(),
            valid_id(self.account_id@),
            valid_type(t@),
        ensures
            final(ds).wf(),
            r is Err ==> *final(ds) == *old(ds) && (r matches Err(Error::Unexpected(_))),
            r is Err ==> exists|id: Seq<u8>| valid_id(id) && old(ds).vertices@.contains_key(id),
            r matches Ok(id) ==> valid_id(id@) && !old(ds).vertices@.contains_key(id@)
                && final(ds).vertices@ == old(ds).vertices@.insert(id@, vertex_value(self.account_id@, t@)),
            final(ds).accounts == old(ds).accounts,
            final(ds).edges == old(ds).edges,
            final(ds).edge_ranges == old(ds).edge_ranges,
            final(ds).reversed_edge_ranges == old(ds).reversed_edge_ranges,
            metadata_unchanged(*final(ds), *old(ds)),
    {
        let id = new_id();
        match self.create_vertex_with_id(ds, &id, t) {
            Ok(()) => Ok(id),
            Err(e) => Err(e),
        }
    }

    /// Writes the edge stamped with the current time; see `set_edge_at`.
    pub fn set_edge(&self, ds: &mut RocksdbDatastore, edge: &Edge) -> (r: Result<(), Error>)
        requires
            old(ds).wf(),
            valid_id(self.account_id@),
            valid_id(edge.outbound_id@),
            valid_id(edge.inbound_id@),
            valid_type(edge.t@),
        ensures
            final(ds).wf(),
            !(owned_by(old(ds).vertices@, edge.outbound_id@, self.account_id@)
                && old(ds).vertices@.contains_key(edge.inbound_id@)) ==> r == Err::<(), Error>(
                Error::VertexNotFound,
            ),
            r is Err ==> *final(ds) == *old(ds),
            r is Ok ==> exists|ts: i64| ts >= 0 && edge_written(*final(ds), *old(ds), edge@, ts),
            owned_by(old(ds).vertices@, edge.outbound_id@, self.account_id@)
                && old(ds).vertices@.contains_key(edge.inbound_id@) ==> (r is Ok || (r matches Err(Error::Unexpected(_)))),
    {
        let now = now_timestamp();
        if now.is_none() {
            match self.check_write_permissions(ds, &edge.outbound_id, Error::VertexNotFound) {
                Ok(()) => {},
                Err(e) => return Err(e),
            }
            if !ds.vertices.contains(edge.inbound_id.as_slice()) {
                return Err(Error::VertexNotFound);
            }
            return Err(Error::Unexpected("Clock is before the epoch".to_string()));
        }
        let ts = now.unwrap();
        self.set_edge_at(ds, edge, ts)
    }
}

/// Parses stored metadata bytes as JSON.
fn decode_metadata(r: Result<Vec<u8>, Error>) -> (out: Result<serde_json::Value, Error>)
    ensures
        r is Err ==> out == match r { Err(e) => Err::<serde_json::Value, Error>(e), Ok(_) => out },
        r is Ok && out is Err ==> out matches Err(Error::Unexpected(_)),
        r matches Ok(b) ==> (out is Ok <==> json_parses(b@)),
        r is Ok && out is Ok ==> out->Ok_0 == json_value_of(r->Ok_0@),
{
    match r {
        Ok(bytes) => match json_from_slice(bytes.as_slice()) {
            Some(v) => Ok(v),
            None => Err(Error::Unexpected("Stored metadata is not JSON".to_string())),
        },
        Err(e) => Err(e),
    }
}

/// Serializes a metadata value as JSON text.
fn encode_metadata(value: &serde_json::Value) -> (out: Result<Vec<u8>, Error>)
    ensures
        out is Ok,
        out->Ok_0@ == json_text_of(*value),
{
    match json_to_vec(value) {
        Some(bytes) => Ok(bytes),
        None => Err(Error::Unexpected("Metadata cannot be written as JSON".to_string())),
    }
}

impl RocksdbTransaction {
    /// The global metadata value under `key`.
    pub fn get_global_metadata(&self, ds: &RocksdbDatastore, key: &String) -> (r: Result<serde_json::Value, Error>)
        requires
            ds.wf(),
        ensures
            !ds.global_metadata@.contains_key(str_bytes(key@)) ==> r == Err::<serde_json::Value, Error>(Error::MetadataNotFound),
            ds.global_metadata@.contains_key(str_bytes(key@)) && r is Err ==> r matches Err(Error::Unexpected(_)),
            ds.global_metadata@.contains_key(str_bytes(key@)) ==> (r is Ok <==> json_parses(ds.global_metadata@[str_bytes(key@)])),
            r is Ok ==> r->Ok_0 == json_value_of(ds.global_metadata@[str_bytes(key@)]),
    {
        decode_metadata(self.get_global_metadata_bytes(ds, key))
    }

    /// Stores `value`, as JSON text, as the global metadata under `key`.
    pub fn set_global_metadata(&self, ds: &mut RocksdbDatastore, key: &String, value: &serde_json::Value) -> (r: Result<(), Error>)
        requires
            old(ds).wf(),
        ensures
            final(ds).wf(),
            r is Ok,
            r is Ok ==> final(ds).global_metadata@ == old(ds).global_metadata@.insert(str_bytes(key@), json_text_of(*value)),
            graph_unchanged(*final(ds), *old(ds)),
            other_metadata_unchanged(*final(ds), *old(ds), 0),
    {
        let bytes = match encode_metadata(value) {
            Ok(b) => b,
            Err(e) => return Err(e),
        };
        self.set_global_metadata_bytes(ds, key, &bytes)
    }

    /// Removes the global metadata under `key`.
    pub fn delete_global_metadata(&self, ds: &mut RocksdbDatastore, key: &String) -> (r: Result<(), Error>)
        requires
            old(ds).wf(),
        ensures
            final(ds).wf(),
            r is Ok,
            final(ds).global_metadata@ == old(ds).global_metadata@.remove(str_bytes(key@)),
            graph_unchanged(*final(ds), *old(ds)),
            other_metadata_unchanged(*final(ds), *old(ds), 0),
    {
        self.delete_global_metadata_bytes(ds, key)
    }

    /// The metadata value under `key` of account `owner_id`.
    pub fn get_account_metadata(&self, ds: &RocksdbDatastore, owner_id: &Vec<u8>, key: &String) -> (r: Result<serde_json::Value, Error>)
        requires
            ds.wf(),
        ensures
            !ds.account_metadata@.contains_key(meta_key(owner_id@, key@)) ==> r == Err::<serde_json::Value, Error>(Error::MetadataNotFound),
            ds.account_metadata@.contains_key(meta_key(owner_id@, key@)) && r is Err ==> r matches Err(Error::Unexpected(_)),
            ds.account_metadata@.contains_key(meta_key(owner_id@, key@)) ==> (r is Ok <==> json_parses(ds.account_metadata@[meta_key(owner_id@, key@)])),
            r is Ok ==> r->Ok_0 == json_value_of(ds.account_metadata@[meta_key(owner_id@, key@)]),
    {
        decode_metadata(self.get_account_metadata_bytes(ds, owner_id, key))
    }

    /// Stores `value`, as JSON text, under `key` for account `owner_id`,
    /// which must exist.
    pub fn set_account_metadata(&self, ds: &mut RocksdbDatastore, owner_id: &Vec<u8>, key: &String, value: &serde_json::Value) -> (r: Result<(), Error>)
        requires
            old(ds).wf(),
        ensures
            final(ds).wf(),
            r is Ok <==> old(ds).accounts@.contains_key(owner_id@),
            r is Err ==> *final(ds) == *old(ds) && r == Err::<(), Error>(Error::AccountNotFound),
            r is Ok ==> final(ds).account_metadata@ == old(ds).account_metadata@.insert(meta_key(owner_id@, key@), json_text_of(*value)),
            graph_unchanged(*final(ds), *old(ds)),
            other_metadata_unchanged(*final(ds), *old(ds), 1),
    {
        let bytes = match encode_metadata(value) {
            Ok(b) => b,
            Err(e) => return Err(e),
        };
        self.set_account_metadata_bytes(ds, owner_id, key, &bytes)
    }

    /// Removes the metadata under `key` of account `owner_id`.
    pub fn delete_account_metadata(&self, ds: &mut RocksdbDatastore, owner_id: &Vec<u8>, key: &String) -> (r: Result<(), Error>)
        requires
            old(ds).wf(),
        ensures
            final(ds).wf(),
            r is Ok,
            final(ds).account_metadata@ == old(ds).account_metadata@.remove(meta_key(owner_id@, key@)),
            graph_unchanged(*final(ds), *old(ds)),
            other_metadata_unchanged(*final(ds), *old(ds), 1),
    {
        self.delete_account_metadata_bytes(ds, owner_id, key)
    }

    /// The metadata value under `key` of vertex `owner_id`.
    pub fn get_vertex_metadata(&self, ds: &RocksdbDatastore, owner_id: &Vec<u8>, key: &String) -> (r: Result<serde_json::Value, Error>)
        requires
            ds.wf(),
        ensures
            !ds.vertex_metadata@.contains_key(meta_key(owner_id@, key@)) ==> r == Err::<serde_json::Value, Error>(Error::MetadataNotFound),
            ds.vertex_metadata@.contains_key(meta_key(owner_id@, key@)) && r is Err ==> r matches Err(Error::Unexpected(_)),
            ds.vertex_metadata@.contains_key(meta_key(owner_id@, key@)) ==> (r is Ok <==> json_parses(ds.vertex_metadata@[meta_key(owner_id@, key@)])),
            r is Ok ==> r->Ok_0 == json_value_of(ds.vertex_metadata@[meta_key(owner_id@, key@)]),
    {
        decode_metadata(self.get_vertex_metadata_bytes(ds, owner_id, key))
    }

    /// Stores `value`, as JSON text, under `key` for vertex `owner_id`, which
    /// must exist.
    pub fn set_vertex_metadata(&self, ds: &mut RocksdbDatastore, owner_id: &Vec<u8>, key: &String, value: &serde_json::Value) -> (r: Result<(), Error>)
        requires
            old(ds).wf(),
        ensures
            final(ds).wf(),
            r is Ok <==> old(ds).vertices@.contains_key(owner_id@),
            r is Err ==> *final(ds) == *old(ds) && r == Err::<(), Error>(Error::VertexNotFound),
            r is Ok ==> final(ds).vertex_metadata@ == old(ds).vertex_metadata@.insert(meta_key(owner_id@, key@), json_text_of(*value)),
            graph_unchanged(*final(ds), *old(ds)),
            other_metadata_unchanged(*final(ds), *old(ds), 2),
    {
        let bytes = match encode_metadata(value) {
            Ok(b) => b,
            Err(e) => return Err(e),
        };
        self.set_vertex_metadata_bytes(ds, owner_id, key, &bytes)
    }

    /// Removes the metadata under `key` of vertex `owner_id`.
    pub fn delete_vertex_metadata(&self, ds: &mut RocksdbDatastore, owner_id: &Vec<u8>, key: &String) -> (r: Result<(), Error>)
        requires
            old(ds).wf(),
        ensures
            final(ds).wf(),
            r is Ok,
            final(ds).vertex_metadata@ == old(ds).vertex_metadata@.remove(meta_key(owner_id@, key@)),
            graph_unchanged(*final(ds), *old(ds)),
            other_metadata_unchanged(*final(ds), *old(ds), 2),
    {
        self.delete_vertex_metadata_bytes(ds, owner_id, key)
    }

    /// The metadata value under `key` of edge `(outbound_id, t, inbound_id)`.
    pub fn get_edge_metadata(&self, ds: &RocksdbDatastore, outbound_id: &Vec<u8>, t: &String, inbound_id: &Vec<u8>, key: &String) -> (r: Result<serde_json::Value, Error>)
        requires
            ds.wf(),
            valid_id(outbound_id@),
            valid_id(inbound_id@),
            valid_type(t@),
        ensures
            ({
                let k = edge_meta_key(outbound_id@, t@, inbound_id@, key@);
                &&& !ds.edge_metadata@.contains_key(k) ==> r == Err::<serde_json::Value, Error>(Error::MetadataNotFound)
                &&& ds.edge_metadata@.contains_key(k) && r is Err ==> (r matches Err(Error::Unexpected(_)))
                &&& ds.edge_metadata@.contains_key(k) ==> (r is Ok <==> json_parses(ds.edge_metadata@[k]))
                &&& r is Ok ==> r->Ok_0 == json_value_of(ds.edge_metadata@[k])
            }),
    {
        decode_metadata(self.get_edge_metadata_bytes(ds, outbound_id, t, inbound_id, key))
    }

    /// Stores `value`, as JSON text, under `key` for the edge, which must
    /// exist.
    pub fn set_edge_metadata(&self, ds: &mut RocksdbDatastore, outbound_id: &Vec<u8>, t: &String, inbound_id: &Vec<u8>, key: &String, value: &serde_json::Value) -> (r: Result<(), Error>)
        requires
            old(ds).wf(),
            valid_id(outbound_id@),
            valid_id(inbound_id@),
            valid_type(t@),
        ensures
            final(ds).wf(),
            r is Ok <==> old(ds).edges@.contains_key(edge_key(outbound_id@, t@, inbound_id@)),
            r is Err ==> *final(ds) == *old(ds) && r == Err::<(), Error>(Error::EdgeNotFound),
            r is Ok ==> final(ds).edge_metadata@ == old(ds).edge_metadata@.insert(
                edge_meta_key(outbound_id@, t@, inbound_id@, key@),
                json_text_of(*value),
            ),
            graph_unchanged(*final(ds), *old(ds)),
            other_metadata_unchanged(*final(ds), *old(ds), 3),
    {
        let bytes = match encode_metadata(value) {
            Ok(b) => b,
            Err(e) => return Err(e),
        };
        self.set_edge_metadata_bytes(ds, outbound_id, t, inbound_id, key, &bytes)
    }

    /// Removes the metadata under `key` of the edge.
    pub fn delete_edge_metadata(&self, ds: &mut RocksdbDatastore, outbound_id: &Vec<u8>, t: &String, inbound_id: &Vec<u8>, key: &String) -> (r: Result<(), Error>)
        requires
            old(ds).wf(),
            valid_id(outbound_id@),
            valid_id(inbound_id@),
            valid_type(t@),
        ensures
            final(ds).wf(),
            r is Ok,
            final(ds).edge_metadata@ == old(ds).edge_metadata@.remove(
                edge_meta_key(outbound_id@, t@, inbound_id@, key@),
            ),
            graph_unchanged(*final(ds), *old(ds)),
            other_metadata_unchanged(*final(ds), *old(ds), 3),
    {
        self.delete_edge_metadata_bytes(ds, outbound_id, t, inbound_id, key)
    }
}

} // verus!
