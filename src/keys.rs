//! Composite keys: the byte layout that makes lexicographic order of keys
//! match the order the graph queries rely on.
use vstd::prelude::*;
use vstd::utf8::{encode_utf8, valid_utf8};
use crate::external::utf8_string;

verus! {

/// Number of bytes of a vertex or account identifier.
pub const ID_LEN: usize = 16;

/// Largest timestamp, in seconds, used as "end of time" when scanning
/// adjacency slices downwards: the largest value the signed 64-bit key
/// component holds, so no non-negative timestamp lies beyond it.
pub const MAX_TIMESTAMP: i64 = 9223372036854775807;

/// Big-endian bytes of a 64-bit word.
pub open spec fn u64_be(x: u64) -> Seq<u8> {
    seq![
        (x >> 56u64) as u8, (x >> 48u64) as u8, (x >> 40u64) as u8, (x >> 32u64) as u8,
        (x >> 24u64) as u8, (x >> 16u64) as u8, (x >> 8u64) as u8, x as u8,
    ]
}

/// The 64-bit word whose big-endian bytes are the first eight of `b`.
pub open spec fn be_u64(b: Seq<u8>) -> u64 {
    ((b[0] as u64) << 56u64) | ((b[1] as u64) << 48u64) | ((b[2] as u64) << 40u64)
        | ((b[3] as u64) << 32u64) | ((b[4] as u64) << 24u64) | ((b[5] as u64) << 16u64)
        | ((b[6] as u64) << 8u64) | (b[7] as u64)
}

/// Bytes of a timestamp component: the seconds as a big-endian signed word.
pub open spec fn ts_bytes(ts: i64) -> Seq<u8> {
    u64_be(ts as u64)
}

/// UTF-8 bytes of a string.
pub open spec fn str_bytes(s: Seq<char>) -> Seq<u8> {
    encode_utf8(s)
}

/// Bytes of a short sized string: one length byte, then the string.
pub open spec fn short_bytes(s: Seq<char>) -> Seq<u8> {
    seq![str_bytes(s).len() as u8] + str_bytes(s)
}

pub proof fn lemma_be_round_trip(x: u64)
    ensures
        u64_be(x).len() == 8,
        be_u64(u64_be(x)) == x,
{
    let b = u64_be(x);
    assert(((((x >> 56u64) as u8) as u64) << 56u64) | ((((x >> 48u64) as u8) as u64) << 48u64)
        | ((((x >> 40u64) as u8) as u64) << 40u64) | ((((x >> 32u64) as u8) as u64) << 32u64)
        | ((((x >> 24u64) as u8) as u64) << 24u64) | ((((x >> 16u64) as u8) as u64) << 16u64)
        | ((((x >> 8u64) as u8) as u64) << 8u64) | ((x as u8) as u64) == x) by (bit_vector);
}

/// One typed piece of a composite key.
pub enum KeyComponent {
    /// A 16-byte identifier, written raw.
    Uuid(Vec<u8>),
    /// A string that runs to the end of the key, written raw.
    UnsizedString(String),
    /// A string of at most 255 bytes, written after its length byte.
    ShortSizedString(String),
    /// Seconds since the epoch, written as 8 big-endian bytes.
    NaiveDateTime(i64),
}

impl KeyComponent {
    /// The component can be written: identifiers have 16 bytes, short
    /// strings at most 255, timestamps are non-negative.
    pub open spec fn valid(&self) -> bool {
        match self {
            KeyComponent::Uuid(id) => id@.len() == ID_LEN,
            KeyComponent::UnsizedString(_) => true,
            KeyComponent::ShortSizedString(s) => str_bytes(s@).len() <= 255,
            KeyComponent::NaiveDateTime(ts) => *ts >= 0,
        }
    }

    /// The bytes the component is written as.
    pub open spec fn spec_bytes(&self) -> Seq<u8> {
        match self {
            KeyComponent::Uuid(id) => id@,
            KeyComponent::UnsizedString(s) => str_bytes(s@),
            KeyComponent::ShortSizedString(s) => short_bytes(s@),
            KeyComponent::NaiveDateTime(ts) => ts_bytes(*ts),
        }
    }

    /// Number of bytes the component is written as.
    fn len(&self) -> (r: usize)
        requires
            self.valid(),
        ensures
            r == self.spec_bytes().len(),
    {
        match self {
            KeyComponent::Uuid(_) => ID_LEN,
            KeyComponent::UnsizedString(s) => s.as_str().as_bytes().len(),
            KeyComponent::ShortSizedString(s) => 1 + s.as_str().as_bytes().len(),
            KeyComponent::NaiveDateTime(_) => 8,
        }
    }

    /// Appends the component's bytes to `out`.
    fn write(&self, out: &mut Vec<u8>)
        requires
            self.valid(),
        ensures
            final(out)@ == old(out)@ + self.spec_bytes(),
    {
        match self {
            KeyComponent::Uuid(id) => {
                append_bytes(out, id.as_slice());
            },
            KeyComponent::UnsizedString(s) => {
                append_bytes(out, s.as_str().as_bytes());
            },
            KeyComponent::ShortSizedString(s) => {
                let b = s.as_str().as_bytes();
                out.push(b.len() as u8);
                append_bytes(out, b);
                assert(final(out)@ =~= old(out)@ + self.spec_bytes());
            },
            KeyComponent::NaiveDateTime(ts) => {
                let x = *ts as u64;
                out.push((x >> 56u64) as u8);
                out.push((x >> 48u64) as u8);
                out.push((x >> 40u64) as u8);
                out.push((x >> 32u64) as u8);
                out.push((x >> 24u64) as u8);
                out.push((x >> 16u64) as u8);
                out.push((x >> 8u64) as u8);
                out.push(x as u8);
                assert(final(out)@ =~= old(out)@ + self.spec_bytes());
            },
        }
    }
}

/// Appends `b` to `out`.
pub fn append_bytes(out: &mut Vec<u8>, b: &[u8])
    ensures
        final(out)@ == old(out)@ + b@,
{
    let mut i: usize = 0;
    while i < b.len()
        invariant
            0 <= i <= b@.len(),
            out@ == old(out)@ + b@.subrange(0, i as int),
        decreases b@.len() - i,
    {
        out.push(b[i]);
        i = i + 1;
        assert(out@ =~= old(out)@ + b@.subrange(0, i as int));
    }
    assert(b@.subrange(0, b@.len() as int) =~= b@);
}

/// Concatenation of the components' bytes.
pub open spec fn key_bytes(cs: Seq<KeyComponent>) -> Seq<u8>
    decreases cs.len(),
{
    if cs.len() == 0 {
        Seq::empty()
    } else {
        key_bytes(cs.drop_last()) + cs.last().spec_bytes()
    }
}

/// Encodes a composite key: the components' bytes, one after the other.
pub fn build_key(components: Vec<KeyComponent>) -> (r: Vec<u8>)
    requires
        forall|i: int| 0 <= i < components@.len() ==> (#[trigger] components@[i]).valid(),
    ensures
        r@ == key_bytes(components@),
{
    let mut capacity: usize = 0;
    let mut j: usize = 0;
    while j < components.len()
        invariant
            0 <= j <= components@.len(),
            forall|i: int| 0 <= i < components@.len() ==> (#[trigger] components@[i]).valid(),
        decreases components@.len() - j,
    {
        capacity = capacity.saturating_add(components[j].len());
        j = j + 1;
    }
    let mut out: Vec<u8> = Vec::with_capacity(capacity);
    let mut i: usize = 0;
    while i < components.len()
        invariant
            0 <= i <= components@.len(),
            forall|k: int| 0 <= k < components@.len() ==> (#[trigger] components@[k]).valid(),
            out@ == key_bytes(components@.subrange(0, i as int)),
        decreases components@.len() - i,
    {
        components[i].write(&mut out);
        assert(components@.subrange(0, i + 1).drop_last() =~= components@.subrange(0, i as int));
        i = i + 1;
    }
    assert(components@.subrange(0, components@.len() as int) =~= components@);
    out
}

/// A read position in an encoded key.
pub struct Cursor {
    pub buf: Vec<u8>,
    pub pos: usize,
}

impl Cursor {
    /// A cursor at the start of `buf`.
    pub fn new(buf: Vec<u8>) -> (r: Cursor)
        ensures
            r.buf@ == buf@,
            r.pos == 0,
    {
        Cursor { buf, pos: 0 }
    }

    /// The bytes not read yet.
    pub open spec fn rest(&self) -> Seq<u8> {
        self.buf@.subrange(self.pos as int, self.buf@.len() as int)
    }

    pub open spec fn wf(&self) -> bool {
        self.pos <= self.buf@.len()
    }

    /// Takes the next `n` bytes, if that many are left.
    fn take(&mut self, n: usize) -> (r: Option<Vec<u8>>)
        requires
            old(self).wf(),
        ensures
            final(self).wf(),
            final(self).buf@ == old(self).buf@,
            n <= old(self).rest().len() ==> (r matches Some(v) && v@ == old(self).rest().subrange(
                0,
                n as int,
            )) && final(self).pos == old(self).pos + n,
            n > old(self).rest().len() ==> r is None && final(self).pos == old(self).pos,
    {
        if n > self.buf.len() - self.pos {
            return None;
        }
        let start = self.pos;
        let end = start + n;
        let mut v: Vec<u8> = Vec::with_capacity(n);
        let mut j: usize = start;
        while j < end
            invariant
                self.wf(),
                end <= self.buf@.len(),
                self.buf@ == old(self).buf@,
                self.pos == old(self).pos,
                start == self.pos,
                start <= j <= end,
                v@ == self.buf@.subrange(start as int, j as int),
            decreases end - j,
        {
            v.push(self.buf[j]);
            j = j + 1;
            assert(v@ =~= self.buf@.subrange(start as int, j as int));
        }
        assert(v@ =~= old(self).rest().subrange(0, n as int));
        self.pos = self.pos + n;
        Some(v)
    }
}

/// Reads a 16-byte identifier; `None`, and nothing consumed, if fewer are left.
pub fn read_uuid(cursor: &mut Cursor) -> (r: Option<Vec<u8>>)
    requires
        old(cursor).wf(),
    ensures
        final(cursor).wf(),
        final(cursor).buf@ == old(cursor).buf@,
        old(cursor).rest().len() >= ID_LEN ==> (r matches Some(id) && id@ == old(
            cursor,
        ).rest().subrange(0, ID_LEN as int)) && final(cursor).pos == old(cursor).pos + ID_LEN,
        old(cursor).rest().len() < ID_LEN ==> r is None && final(cursor).pos == old(cursor).pos,
{
    cursor.take(ID_LEN)
}

/// Decodes a key made of one identifier.
pub fn parse_uuid_key(key: Vec<u8>) -> (r: Option<Vec<u8>>)
    ensures
        r is Some <==> key@.len() == ID_LEN,
        r matches Some(id) ==> id@ == key@,
{
    let mut cursor = Cursor::new(key);
    let r = read_uuid(&mut cursor);
    if cursor.pos != cursor.buf.len() {
        return None;
    }
    proof {
        if r is Some {
            assert(cursor.buf@.subrange(0, ID_LEN as int) =~= cursor.buf@);
        }
    }
    r
}

/// A short sized string at the start of `b`: its length byte, then that
/// many bytes of valid UTF-8.
pub open spec fn short_string_at(b: Seq<u8>) -> bool {
    b.len() >= 1 && b.len() >= 1 + b[0] && valid_utf8(b.subrange(1, 1 + b[0]))
}

/// Reads a short sized string; `None`, and nothing consumed, if the bytes
/// are truncated or not UTF-8.
pub fn read_short_sized_string(cursor: &mut Cursor) -> (r: Option<String>)
    requires
        old(cursor).wf(),
    ensures
        final(cursor).wf(),
        final(cursor).buf@ == old(cursor).buf@,
        r is Some <==> short_string_at(old(cursor).rest()),
        r matches Some(s) ==> short_bytes(s@) == old(cursor).rest().subrange(
            0,
            1 + old(cursor).rest()[0],
        ) && final(cursor).pos == old(cursor).pos + 1 + old(cursor).rest()[0],
        r is None ==> final(cursor).pos == old(cursor).pos,
{
    let start = cursor.pos;
    let len = match cursor.take(1) {
        Some(b) => b[0],
        None => return None,
    };
    let bytes = match cursor.take(len as usize) {
        Some(b) => b,
        None => {
            cursor.pos = start;
            return None;
        },
    };
    let ghost rest = old(cursor).rest();
    assert(bytes@ =~= rest.subrange(1, 1 + rest[0]));
    match utf8_string(bytes.as_slice()) {
        Some(s) => {
            assert(short_bytes(s@) =~= rest.subrange(0, 1 + rest[0]));
            Some(s)
        },
        None => {
            cursor.pos = start;
            None
        },
    }
}

/// Reads the rest of the key as a string; `None`, and nothing consumed, if
/// it is not UTF-8.
pub fn read_unsized_string(cursor: &mut Cursor) -> (r: Option<String>)
    requires
        old(cursor).wf(),
    ensures
        final(cursor).wf(),
        final(cursor).buf@ == old(cursor).buf@,
        r is Some <==> valid_utf8(old(cursor).rest()),
        r matches Some(s) ==> str_bytes(s@) == old(cursor).rest() && final(cursor).pos
            == final(cursor).buf@.len(),
        r is None ==> final(cursor).pos == old(cursor).pos,
{
    let start = cursor.pos;
    let n = cursor.buf.len() - cursor.pos;
    let bytes = match cursor.take(n) {
        Some(b) => b,
        None => return None,
    };
    assert(bytes@ =~= old(cursor).rest());
    match utf8_string(bytes.as_slice()) {
        Some(s) => Some(s),
        None => {
            cursor.pos = start;
            None
        },
    }
}

/// Reads an 8-byte big-endian timestamp; `None`, and nothing consumed, if
/// fewer are left.
pub fn read_datetime(cursor: &mut Cursor) -> (r: Option<i64>)
    requires
        old(cursor).wf(),
    ensures
        final(cursor).wf(),
        final(cursor).buf@ == old(cursor).buf@,
        old(cursor).rest().len() >= 8 ==> r == Some(be_u64(old(cursor).rest()) as i64)
            && final(cursor).pos == old(cursor).pos + 8,
        old(cursor).rest().len() < 8 ==> r is None && final(cursor).pos == old(cursor).pos,
{
    match cursor.take(8) {
        Some(b) => {
            let x: u64 = ((b[0] as u64) << 56u64) | ((b[1] as u64) << 48u64) | ((b[2] as u64)
                << 40u64) | ((b[3] as u64) << 32u64) | ((b[4] as u64) << 24u64) | ((b[5] as u64)
                << 16u64) | ((b[6] as u64) << 8u64) | (b[7] as u64);
            Some(x as i64)
        },
        None => None,
    }
}

/// A byte allowed in a vertex or edge type: an ASCII letter or digit, `-`
/// or `_`.
pub open spec fn type_byte(c: u8) -> bool {
    (48 <= c <= 57) || (65 <= c <= 90) || (97 <= c <= 122) || c == 45 || c == 95
}

/// A valid vertex or edge type: 1 to 255 bytes, each allowed.
pub open spec fn valid_type(t: Seq<char>) -> bool {
    1 <= str_bytes(t).len() <= 255 && forall|i: int|
        0 <= i < str_bytes(t).len() ==> type_byte(#[trigger] str_bytes(t)[i])
}

/// Whether `t` is a valid vertex or edge type.
pub fn is_valid_type(t: &String) -> (r: bool)
    ensures
        r == valid_type(t@),
{
    let b = t.as_str().as_bytes();
    if b.len() < 1 || b.len() > 255 {
        return false;
    }
    let mut i: usize = 0;
    while i < b.len()
        invariant
            b@ == str_bytes(t@),
            0 <= i <= b@.len(),
            forall|k: int| 0 <= k < i ==> type_byte(#[trigger] b@[k]),
        decreases b@.len() - i,
    {
        let c = b[i];
        if !((48 <= c && c <= 57) || (65 <= c && c <= 90) || (97 <= c && c <= 122) || c == 45
            || c == 95) {
            return false;
        }
        i = i + 1;
    }
    true
}

/// Reads a short sized string that is a valid type; `None`, and nothing
/// consumed, otherwise.
pub fn read_type(cursor: &mut Cursor) -> (r: Option<String>)
    requires
        old(cursor).wf(),
    ensures
        final(cursor).wf(),
        final(cursor).buf@ == old(cursor).buf@,
        r is Some <==> short_string_at(old(cursor).rest()) && exists|s: Seq<char>|
            short_bytes(s) == old(cursor).rest().subrange(0, 1 + old(cursor).rest()[0])
                && valid_type(s),
        r matches Some(s) ==> valid_type(s@) && short_bytes(s@) == old(cursor).rest().subrange(
            0,
            1 + old(cursor).rest()[0],
        ) && final(cursor).pos == old(cursor).pos + 1 + old(cursor).rest()[0],
        r is None ==> final(cursor).pos == old(cursor).pos,
{
    let start = cursor.pos;
    match read_short_sized_string(cursor) {
        Some(s) => {
            if is_valid_type(&s) {
                Some(s)
            } else {
                proof {
                    assert forall|s2: Seq<char>|
                        short_bytes(s2) == old(cursor).rest().subrange(
                            0,
                            1 + old(cursor).rest()[0],
                        ) implies !valid_type(s2) by {
                        lemma_short_bytes_injective(s2, s@);
                    }
                }
                cursor.pos = start;
                None
            }
        },
        None => None,
    }
}

/// UTF-8 encoding is injective, so a short sized string's bytes determine it.
pub proof fn lemma_short_bytes_injective(a: Seq<char>, b: Seq<char>)
    requires
        short_bytes(a) == short_bytes(b),
    ensures
        a == b,
{
    let ba = short_bytes(a);
    assert(str_bytes(a) =~= ba.subrange(1, ba.len() as int));
    assert(str_bytes(b) =~= ba.subrange(1, ba.len() as int));
    vstd::utf8::encode_utf8_decode_utf8(a);
    vstd::utf8::encode_utf8_decode_utf8(b);
}

/// The largest identifier, all bytes `0xFF`.
pub fn max_uuid() -> (r: Vec<u8>)
    ensures
        r@ == Seq::new(ID_LEN as nat, |i: int| 0xFFu8),
{
    let mut r: Vec<u8> = Vec::with_capacity(ID_LEN);
    let mut i: usize = 0;
    while i < ID_LEN
        invariant
            0 <= i <= ID_LEN,
            r@ == Seq::new(i as nat, |k: int| 0xFFu8),
        decreases ID_LEN - i,
    {
        r.push(0xFFu8);
        i = i + 1;
        assert(r@ =~= Seq::new(i as nat, |k: int| 0xFFu8));
    }
    r
}

/// The "end of time" timestamp.
pub fn max_datetime() -> (r: i64)
    ensures
        r == MAX_TIMESTAMP,
{
    MAX_TIMESTAMP
}

/// A short sized string followed by more bytes reads back as itself.
pub proof fn lemma_short_prefix(s: Seq<char>, rest: Seq<u8>)
    requires
        str_bytes(s).len() <= 255,
    ensures
        short_string_at(short_bytes(s) + rest),
        (short_bytes(s) + rest)[0] == str_bytes(s).len(),
        (short_bytes(s) + rest).subrange(0, 1 + str_bytes(s).len() as int) == short_bytes(s),
        (short_bytes(s) + rest).subrange(
            1 + str_bytes(s).len() as int,
            (short_bytes(s) + rest).len() as int,
        ) == rest,
{
    let b = short_bytes(s) + rest;
    let n = str_bytes(s).len() as int;
    vstd::utf8::encode_utf8_valid_utf8(s);
    assert(b.subrange(1, 1 + n) =~= str_bytes(s));
    assert(b.subrange(0, 1 + n) =~= short_bytes(s));
    assert(b.subrange(1 + n, b.len() as int) =~= rest);
}

} // verus!
