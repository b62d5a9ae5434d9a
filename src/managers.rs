//! Key layouts and value encodings of the nine column families.
use vstd::prelude::*;
use crate::keys::{
    append_bytes, be_u64, build_key, key_bytes, lemma_be_round_trip, read_datetime, short_bytes,
    str_bytes, ts_bytes, u64_be, Cursor, KeyComponent, ID_LEN,
};

verus! {

/// A 16-byte identifier.
pub open spec fn valid_id(id: Seq<u8>) -> bool {
    id.len() == ID_LEN
}

/// `edges` key: outbound identifier, type, inbound identifier.
pub open spec fn edge_key(o: Seq<u8>, t: Seq<char>, i: Seq<u8>) -> Seq<u8> {
    o + short_bytes(t) + i
}

/// Prefix of an adjacency slice: the first identifier and the type.
pub open spec fn range_prefix(a: Seq<u8>, t: Seq<char>) -> Seq<u8> {
    a + short_bytes(t)
}

/// Adjacency index key: first identifier, type, timestamp, peer identifier.
pub open spec fn range_key(a: Seq<u8>, t: Seq<char>, ts: i64, b: Seq<u8>) -> Seq<u8> {
    range_prefix(a, t) + ts_bytes(ts) + b
}

/// Key of account or vertex metadata: owner identifier, then the name.
pub open spec fn meta_key(owner: Seq<u8>, name: Seq<char>) -> Seq<u8> {
    owner + str_bytes(name)
}

/// Key of edge metadata: the edge's key, then the name.
pub open spec fn edge_meta_key(o: Seq<u8>, t: Seq<char>, i: Seq<u8>, name: Seq<char>) -> Seq<u8> {
    edge_key(o, t, i) + str_bytes(name)
}

/// Big-endian bytes of a 32-bit word.
pub open spec fn u32_be(x: u32) -> Seq<u8> {
    seq![(x >> 24u32) as u8, (x >> 16u32) as u8, (x >> 8u32) as u8, x as u8]
}

/// The 32-bit word whose big-endian bytes are the first four of `b`.
pub open spec fn be_u32(b: Seq<u8>) -> u32 {
    ((b[0] as u32) << 24u32) | ((b[1] as u32) << 16u32) | ((b[2] as u32) << 8u32) | (b[3] as u32)
}

pub proof fn lemma_be32_round_trip(x: u32)
    ensures
        u32_be(x).len() == 4,
        be_u32(u32_be(x)) == x,
{
    assert(((((x >> 24u32) as u8) as u32) << 24u32) | ((((x >> 16u32) as u8) as u32) << 16u32)
        | ((((x >> 8u32) as u8) as u32) << 8u32) | ((x as u8) as u32) == x) by (bit_vector);
}

/// `edges` value: update timestamp, then weight.
pub open spec fn edge_value(ts: i64, w: u32) -> Seq<u8> {
    ts_bytes(ts) + u32_be(w)
}

/// Adjacency index value: the weight.
pub open spec fn weight_value(w: u32) -> Seq<u8> {
    u32_be(w)
}

/// `vertices` value: owner identifier, then type.
pub open spec fn vertex_value(owner: Seq<u8>, t: Seq<char>) -> Seq<u8> {
    owner + short_bytes(t)
}

/// `accounts` value: salt, digest, email.
pub open spec fn account_value(salt: Seq<char>, digest: Seq<char>, email: Seq<char>) -> Seq<u8> {
    short_bytes(salt) + short_bytes(digest) + str_bytes(email)
}

/// A string short enough to be written with a length byte.
pub open spec fn short_str(s: Seq<char>) -> bool {
    str_bytes(s).len() <= 255
}

pub fn edge_key_of(o: &Vec<u8>, t: &String, i: &Vec<u8>) -> (r: Vec<u8>)
    requires
        valid_id(o@),
        valid_id(i@),
        short_str(t@),
    ensures
        r@ == edge_key(o@, t@, i@),
{
    let cs = vec![
        KeyComponent::Uuid(o.clone()),
        KeyComponent::ShortSizedString(t.clone()),
        KeyComponent::Uuid(i.clone()),
    ];
    let r = build_key(cs);
    proof {
        reveal_with_fuel(key_bytes, 4);
        assert(cs@.drop_last().drop_last().drop_last() =~= Seq::<KeyComponent>::empty());
    }
    assert(r@ =~= edge_key(o@, t@, i@));
    r
}

pub fn range_prefix_of(a: &Vec<u8>, t: &String) -> (r: Vec<u8>)
    requires
        valid_id(a@),
        short_str(t@),
    ensures
        r@ == range_prefix(a@, t@),
{
    let cs = vec![KeyComponent::Uuid(a.clone()), KeyComponent::ShortSizedString(t.clone())];
    let r = build_key(cs);
    proof {
        reveal_with_fuel(key_bytes, 3);
        assert(cs@.drop_last().drop_last() =~= Seq::<KeyComponent>::empty());
    }
    assert(r@ =~= range_prefix(a@, t@));
    r
}

pub fn range_key_of(a: &Vec<u8>, t: &String, ts: i64, b: &Vec<u8>) -> (r: Vec<u8>)
    requires
        valid_id(a@),
        valid_id(b@),
        short_str(t@),
        ts >= 0,
    ensures
        r@ == range_key(a@, t@, ts, b@),
{
    let cs = vec![
        KeyComponent::Uuid(a.clone()),
        KeyComponent::ShortSizedString(t.clone()),
        KeyComponent::NaiveDateTime(ts),
        KeyComponent::Uuid(b.clone()),
    ];
    let r = build_key(cs);
    proof {
        reveal_with_fuel(key_bytes, 5);
        assert(cs@.drop_last().drop_last().drop_last().drop_last() =~= Seq::<KeyComponent>::empty());
    }
    assert(r@ =~= range_key(a@, t@, ts, b@));
    r
}

pub fn meta_key_of(owner: &Vec<u8>, name: &String) -> (r: Vec<u8>)
    ensures
        r@ == meta_key(owner@, name@),
{
    let mut r = owner.clone();
    append_bytes(&mut r, name.as_str().as_bytes());
    r
}

pub fn edge_meta_key_of(o: &Vec<u8>, t: &String, i: &Vec<u8>, name: &String) -> (r: Vec<u8>)
    requires
        valid_id(o@),
        valid_id(i@),
        short_str(t@),
    ensures
        r@ == edge_meta_key(o@, t@, i@, name@),
{
    let mut r = edge_key_of(o, t, i);
    append_bytes(&mut r, name.as_str().as_bytes());
    r
}

/// Appends the big-endian bytes of `x`.
fn push_u32(out: &mut Vec<u8>, x: u32)
    ensures
        final(out)@ == old(out)@ + u32_be(x),
{
    out.push((x >> 24u32) as u8);
    out.push((x >> 16u32) as u8);
    out.push((x >> 8u32) as u8);
    out.push(x as u8);
    assert(final(out)@ =~= old(out)@ + u32_be(x));
}

pub fn weight_value_of(w: u32) -> (r: Vec<u8>)
    ensures
        r@ == weight_value(w),
{
    let mut r: Vec<u8> = Vec::new();
    push_u32(&mut r, w);
    assert(r@ =~= weight_value(w));
    r
}

pub fn edge_value_of(ts: i64, w: u32) -> (r: Vec<u8>)
    requires
        ts >= 0,
    ensures
        r@ == edge_value(ts, w),
{
    let cs = vec![KeyComponent::NaiveDateTime(ts)];
    let mut r = build_key(cs);
    proof {
        reveal_with_fuel(key_bytes, 2);
        assert(cs@.drop_last() =~= Seq::<KeyComponent>::empty());
    }
    push_u32(&mut r, w);
    assert(r@ =~= edge_value(ts, w));
    r
}

/// The 32-bit word written big-endian at `at` in `b`.
fn read_u32_at(b: &Vec<u8>, at: usize) -> (r: u32)
    requires
        at + 4 <= b.len(),
    ensures
        r == be_u32(b@.subrange(at as int, at + 4)),
{
    ((b[at] as u32) << 24u32) | ((b[at + 1] as u32) << 16u32) | ((b[at + 2] as u32) << 8u32) | (
    b[at + 3] as u32)
}

/// Reads a weight value.
pub fn decode_weight(v: &Vec<u8>) -> (r: Option<u32>)
    ensures
        v@.len() == 4 ==> r == Some(be_u32(v@)),
        v@.len() != 4 ==> r is None,
        forall|w: u32| v@ == weight_value(w) ==> r == Some(w),
{
    proof {
        assert forall|w: u32| v@ == weight_value(w) implies be_u32(v@) == w by {
            lemma_be32_round_trip(w);
        }
    }
    if v.len() != 4 {
        return None;
    }
    let r = read_u32_at(v, 0);
    assert(v@.subrange(0, 4) =~= v@);
    Some(r)
}

/// Reads an `edges` value: update timestamp and weight.
pub fn decode_edge_value(v: &Vec<u8>) -> (r: Option<(i64, u32)>)
    ensures
        forall|ts: i64, w: u32| ts >= 0 && v@ == edge_value(ts, w) ==> r == Some((ts, w)),
        r is Some <==> v@.len() == 12,
        v@.len() == 12 ==> r == Some((be_u64(v@) as i64, be_u32(v@.subrange(8, 12)))),
{
    if v.len() != 12 {
        proof {
            assert forall|ts: i64, w: u32| ts >= 0 && v@ == edge_value(ts, w) implies false by {
                lemma_be_round_trip(ts as u64);
                lemma_be32_round_trip(w);
            }
        }
        return None;
    }
    let mut cursor = Cursor::new(v.clone());
    let ts = read_datetime(&mut cursor);
    let w = read_u32_at(v, 8);
    assert(cursor.buf@.subrange(0, cursor.buf@.len() as int) =~= v@);
    proof {
        assert forall|t2: i64, w2: u32| t2 >= 0 && v@ == edge_value(t2, w2) implies ts == Some(t2)
            && w == w2 by {
            lemma_be_round_trip(t2 as u64);
            lemma_be32_round_trip(w2);
            assert(cursor.buf@.subrange(0, cursor.buf@.len() as int) =~= v@);
            assert(v@.subrange(8, 12) =~= u32_be(w2));
            assert(be_u64(v@) == be_u64(u64_be(t2 as u64)));
        }
    }
    match ts {
        Some(ts) => Some((ts, w)),
        None => None,
    }
}

/// Splits a short sized string off the front of `k`: its length byte and
/// its bytes are the `1 + n` bytes that follow `at`.
proof fn lemma_short_at(k: Seq<u8>, at: int, t: Seq<char>, rest: Seq<u8>)
    requires
        short_str(t),
        0 <= at <= k.len(),
        k.subrange(at, k.len() as int) == short_bytes(t) + rest,
    ensures
        k[at] == str_bytes(t).len(),
        k.subrange(at, at + 1 + str_bytes(t).len()) == short_bytes(t),
        k.subrange(at + 1 + str_bytes(t).len(), k.len() as int) == rest,
{
    let n = str_bytes(t).len() as int;
    crate::keys::lemma_short_prefix(t, rest);
    assert(k.subrange(at, k.len() as int).len() == 1 + n + rest.len());
    assert(k[at] == k.subrange(at, k.len() as int)[0]);
    assert(k.subrange(at, at + 1 + n) =~= k.subrange(at, k.len() as int).subrange(0, 1 + n));
    assert(k.subrange(at + 1 + n, k.len() as int) =~= k.subrange(at, k.len() as int).subrange(
        1 + n,
        k.len() - at,
    ));
}

/// Edge keys of well-formed edges determine the edge.
pub proof fn lemma_edge_key_injective(
    o: Seq<u8>,
    t: Seq<char>,
    i: Seq<u8>,
    o2: Seq<u8>,
    t2: Seq<char>,
    i2: Seq<u8>,
)
    requires
        valid_id(o),
        valid_id(i),
        valid_id(o2),
        valid_id(i2),
        short_str(t),
        short_str(t2),
        edge_key(o, t, i) == edge_key(o2, t2, i2),
    ensures
        o == o2,
        t == t2,
        i == i2,
{
    let k = edge_key(o, t, i);
    assert(k.subrange(0, 16) =~= o);
    assert(k.subrange(0, 16) =~= o2);
    assert(k.subrange(16, k.len() as int) =~= short_bytes(t) + i);
    assert(edge_key(o2, t2, i2).subrange(16, k.len() as int) =~= short_bytes(t2) + i2);
    lemma_short_at(k, 16, t, i);
    lemma_short_at(k, 16, t2, i2);
    crate::keys::lemma_short_bytes_injective(t, t2);
}

/// Index keys of well-formed edges determine the first identifier, the
/// type, the timestamp and the peer.
pub proof fn lemma_range_key_injective(
    a: Seq<u8>,
    t: Seq<char>,
    ts: i64,
    b: Seq<u8>,
    a2: Seq<u8>,
    t2: Seq<char>,
    ts2: i64,
    b2: Seq<u8>,
)
    requires
        valid_id(a),
        valid_id(b),
        valid_id(a2),
        valid_id(b2),
        short_str(t),
        short_str(t2),
        ts >= 0,
        ts2 >= 0,
        range_key(a, t, ts, b) == range_key(a2, t2, ts2, b2),
    ensures
        a == a2,
        t == t2,
        ts == ts2,
        b == b2,
{
    let k = range_key(a, t, ts, b);
    assert(k.subrange(0, 16) =~= a);
    assert(k.subrange(0, 16) =~= a2);
    assert(k.subrange(16, k.len() as int) =~= short_bytes(t) + (ts_bytes(ts) + b));
    assert(range_key(a2, t2, ts2, b2).subrange(16, k.len() as int) =~= short_bytes(t2) + (
    ts_bytes(ts2) + b2));
    lemma_short_at(k, 16, t, ts_bytes(ts) + b);
    lemma_short_at(k, 16, t2, ts_bytes(ts2) + b2);
    crate::keys::lemma_short_bytes_injective(t, t2);
    let n = 17 + str_bytes(t).len() as int;
    assert(k.subrange(n, k.len() as int) =~= ts_bytes(ts) + b);
    lemma_be_round_trip(ts as u64);
    lemma_be_round_trip(ts2 as u64);
    assert((ts_bytes(ts) + b).subrange(0, 8) =~= ts_bytes(ts));
    assert((ts_bytes(ts2) + b2).subrange(0, 8) =~= ts_bytes(ts2));
    assert((ts_bytes(ts) + b).subrange(8, 24) =~= b);
    assert((ts_bytes(ts2) + b2).subrange(8, 24) =~= b2);
}

/// An `edges` value determines its timestamp and weight.
pub proof fn lemma_edge_value_injective(ts: i64, w: u32, ts2: i64, w2: u32)
    requires
        ts >= 0,
        ts2 >= 0,
        edge_value(ts, w) == edge_value(ts2, w2),
    ensures
        ts == ts2,
        w == w2,
{
    lemma_edge_value_reads(ts, w);
    lemma_edge_value_reads(ts2, w2);
}

/// An `edges` value reads back as its timestamp and weight.
pub proof fn lemma_edge_value_reads(ts: i64, w: u32)
    requires
        ts >= 0,
    ensures
        edge_value(ts, w).len() == 12,
        be_u64(edge_value(ts, w)) as i64 == ts,
        be_u32(edge_value(ts, w).subrange(8, 12)) == w,
{
    lemma_be_round_trip(ts as u64);
    lemma_be32_round_trip(w);
    assert(edge_value(ts, w).subrange(8, 12) =~= u32_be(w));
    assert(be_u64(edge_value(ts, w)) == be_u64(u64_be(ts as u64)));
}

/// Two edge keys that are both prefixes of one key are the same edge key.
pub proof fn lemma_edge_prefixes(
    k: Seq<u8>,
    o: Seq<u8>,
    t: Seq<char>,
    i: Seq<u8>,
    o2: Seq<u8>,
    t2: Seq<char>,
    i2: Seq<u8>,
)
    requires
        valid_id(o),
        valid_id(i),
        valid_id(o2),
        valid_id(i2),
        short_str(t),
        short_str(t2),
        crate::family::has_prefix(k, edge_key(o, t, i)),
        crate::family::has_prefix(k, edge_key(o2, t2, i2)),
    ensures
        o == o2,
        t == t2,
        i == i2,
{
    let e1 = edge_key(o, t, i);
    let e2 = edge_key(o2, t2, i2);
    crate::keys::lemma_short_prefix(t, i);
    crate::keys::lemma_short_prefix(t2, i2);
    assert(e1[16] == k[16]);
    assert(e2[16] == k[16]);
    assert(e1[16] == (short_bytes(t) + i)[0]);
    assert(e2[16] == (short_bytes(t2) + i2)[0]);
    assert(e1.len() == e2.len());
    assert(e1 =~= k.subrange(0, e1.len() as int));
    assert(e2 =~= k.subrange(0, e2.len() as int));
    lemma_edge_key_injective(o, t, i, o2, t2, i2);
}

} // verus!
