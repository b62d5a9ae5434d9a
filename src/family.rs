//! A column family: an independently ordered keyspace of byte keys and byte
//! values, kept in ascending lexicographic key order.
use vstd::prelude::*;

verus! {

/// `a` and `b` agree on their first `i` bytes.
pub open spec fn agree_upto(a: Seq<u8>, b: Seq<u8>, i: int) -> bool {
    forall|k: int| 0 <= k < i ==> a[k] == b[k]
}

/// `i` is where `a` and `b` first differ, and there `a` is smaller (or ends).
pub open spec fn lex_lt_at(a: Seq<u8>, b: Seq<u8>, i: int) -> bool {
    0 <= i <= a.len() && i <= b.len() && agree_upto(a, b, i) && ((i == a.len() && i < b.len())
        || (i < a.len() && i < b.len() && a[i] < b[i]))
}

/// `a` sorts strictly before `b` in lexicographic byte order: at the first
/// position where they differ `a` has the smaller byte, or `a` is a proper
/// prefix of `b`.
pub open spec fn lex_lt(a: Seq<u8>, b: Seq<u8>) -> bool {
    exists|i: int| lex_lt_at(a, b, i)
}

pub proof fn lemma_lex_lt_irreflexive(a: Seq<u8>)
    ensures
        !lex_lt(a, a),
{
}

pub proof fn lemma_lex_lt_transitive(a: Seq<u8>, b: Seq<u8>, c: Seq<u8>)
    requires
        lex_lt(a, b),
        lex_lt(b, c),
    ensures
        lex_lt(a, c),
{
    let i = choose|i: int| lex_lt_at(a, b, i);
    let j = choose|j: int| lex_lt_at(b, c, j);
    let m = if i < j { i } else { j };
    assert forall|k: int| 0 <= k < m implies a[k] == c[k] by {
        assert(a[k] == b[k]);
        assert(b[k] == c[k]);
    }
    if i < j {
        assert(b[i] == c[i]);
        assert(lex_lt_at(a, c, i));
    } else if j < i {
        assert(a[j] == b[j]);
        assert(lex_lt_at(a, c, j));
    } else {
        assert(lex_lt_at(a, c, i));
    }
}

/// `p` is a prefix of `k`.
pub open spec fn has_prefix(k: Seq<u8>, p: Seq<u8>) -> bool {
    p.len() <= k.len() && k.subrange(0, p.len() as int) == p
}

/// Keys strictly ascending.
pub open spec fn sorted(s: Seq<(Seq<u8>, Seq<u8>)>) -> bool {
    forall|i: int, j: int| 0 <= i < j < s.len() ==> lex_lt(#[trigger] s[i].0, #[trigger] s[j].0)
}

/// The map that a sorted sequence of entries stands for.
pub open spec fn map_of(s: Seq<(Seq<u8>, Seq<u8>)>) -> Map<Seq<u8>, Seq<u8>> {
    Map::new(
        |k: Seq<u8>| exists|i: int| 0 <= i < s.len() && s[i].0 == k,
        |k: Seq<u8>| s[choose|i: int| 0 <= i < s.len() && s[i].0 == k].1,
    )
}

pub proof fn lemma_map_of_index(s: Seq<(Seq<u8>, Seq<u8>)>, i: int)
    requires
        sorted(s),
        0 <= i < s.len(),
    ensures
        map_of(s).contains_key(s[i].0),
        map_of(s)[s[i].0] == s[i].1,
{
    let j = choose|j: int| 0 <= j < s.len() && s[j].0 == s[i].0;
    if j < i {
        lemma_lex_lt_irreflexive(s[i].0);
        assert(lex_lt(s[j].0, s[i].0));
    } else if i < j {
        lemma_lex_lt_irreflexive(s[i].0);
        assert(lex_lt(s[i].0, s[j].0));
    }
}

/// Views of key-value pairs.
pub open spec fn pairs_of(v: Seq<(Vec<u8>, Vec<u8>)>) -> Seq<(Seq<u8>, Seq<u8>)> {
    v.map_values(|e: (Vec<u8>, Vec<u8>)| (e.0@, e.1@))
}

/// Whether `k` starts with `p`.
pub fn starts_with(k: &[u8], p: &[u8]) -> (r: bool)
    ensures
        r == has_prefix(k@, p@),
{
    if p.len() > k.len() {
        return false;
    }
    let mut i: usize = 0;
    while i < p.len()
        invariant
            p@.len() <= k@.len(),
            0 <= i <= p@.len(),
            forall|j: int| 0 <= j < i ==> k@[j] == p@[j],
        decreases p@.len() - i,
    {
        if k[i] != p[i] {
            assert(k@.subrange(0, p@.len() as int)[i as int] != p@[i as int]);
            return false;
        }
        i = i + 1;
    }
    assert(k@.subrange(0, p@.len() as int) =~= p@);
    true
}

/// Three-way comparison of byte strings: negative, zero or positive.
pub fn compare_bytes(a: &[u8], b: &[u8]) -> (r: i8)
    ensures
        r < 0 <==> lex_lt(a@, b@),
        r == 0 <==> a@ == b@,
        r > 0 <==> lex_lt(b@, a@),
{
    let mut i: usize = 0;
    while i < a.len() && i < b.len()
        invariant
            0 <= i <= a@.len(),
            i <= b@.len(),
            forall|k: int| 0 <= k < i ==> a@[k] == b@[k],
        decreases a@.len() - i,
    {
        if a[i] != b[i] {
            proof {
                lemma_lex_lt_irreflexive(a@);
                if a@ == b@ {
                    assert(a@[i as int] == b@[i as int]);
                }
                if lex_lt(a@, b@) && lex_lt(b@, a@) {
                    lemma_lex_lt_transitive(a@, b@, a@);
                }
            }
            if a[i] < b[i] {
                assert(lex_lt_at(a@, b@, i as int));
                return -1;
            } else {
                assert(lex_lt_at(b@, a@, i as int));
                return 1;
            }
        }
        i = i + 1;
    }
    proof {
        lemma_lex_lt_irreflexive(a@);
        if lex_lt(a@, b@) && lex_lt(b@, a@) {
            lemma_lex_lt_transitive(a@, b@, a@);
        }
    }
    if a.len() < b.len() {
        assert(lex_lt_at(a@, b@, i as int));
        -1
    } else if a.len() > b.len() {
        assert(lex_lt_at(b@, a@, i as int));
        1
    } else {
        assert(a@ =~= b@);
        0
    }
}

/// An ordered keyspace of byte keys and byte values.
pub struct Family {
    entries: Vec<(Vec<u8>, Vec<u8>)>,
}

impl Family {
    /// The entries in ascending key order.
    pub closed spec fn pairs(&self) -> Seq<(Seq<u8>, Seq<u8>)> {
        pairs_of(self.entries@)
    }

    /// What the family maps each present key to.
    pub open spec fn view(&self) -> Map<Seq<u8>, Seq<u8>> {
        map_of(self.pairs())
    }

    pub open spec fn wf(&self) -> bool {
        sorted(self.pairs())
    }

    /// An empty family.
    pub fn new() -> (r: Family)
        ensures
            r.wf(),
            r.pairs().len() == 0,
            r@ == Map::<Seq<u8>, Seq<u8>>::empty(),
    {
        let r = Family { entries: Vec::new() };
        assert(r@ =~= Map::<Seq<u8>, Seq<u8>>::empty());
        r
    }

    /// The first position whose key does not sort before `key`, and whether
    /// the key there is `key`.
    fn position(&self, key: &[u8]) -> (r: (usize, bool))
        requires
            self.wf(),
        ensures
            r.0 <= self.pairs().len(),
            forall|j: int| 0 <= j < r.0 ==> lex_lt(#[trigger] self.pairs()[j].0, key@),
            r.1 ==> r.0 < self.pairs().len() && self.pairs()[r.0 as int].0 == key@,
            !r.1 ==> forall|j: int|
                r.0 <= j < self.pairs().len() ==> lex_lt(key@, #[trigger] self.pairs()[j].0),
    {
        let ghost s = self.pairs();
        let mut i: usize = 0;
        while i < self.entries.len()
            invariant
                self.wf(),
                s == self.pairs(),
                s.len() == self.entries@.len(),
                0 <= i <= s.len(),
                forall|j: int| 0 <= j < i ==> lex_lt(#[trigger] s[j].0, key@),
            decreases s.len() - i,
        {
            let c = compare_bytes(self.entries[i].0.as_slice(), key);
            assert(s[i as int].0 == self.entries@[i as int].0@);
            if c == 0 {
                return (i, true);
            }
            if c > 0 {
                proof {
                    assert forall|j: int| i <= j < s.len() implies lex_lt(key@, #[trigger] s[j].0) by {
                        if j > i {
                            lemma_lex_lt_transitive(key@, s[i as int].0, s[j].0);
                        }
                    }
                }
                return (i, false);
            }
            i = i + 1;
        }
        (i, false)
    }

    /// The value under `key`, if any.
    pub fn get(&self, key: &[u8]) -> (r: Option<Vec<u8>>)
        requires
            self.wf(),
        ensures
            r is Some <==> self@.contains_key(key@),
            r matches Some(v) ==> v@ == self@[key@],
    {
        let (i, found) = self.position(key);
        if found {
            proof {
                lemma_map_of_index(self.pairs(), i as int);
            }
            assert(self.pairs()[i as int].1 == self.entries@[i as int].1@);
            Some(self.entries[i].1.clone())
        } else {
            proof {
                if self@.contains_key(key@) {
                    let j = choose|j: int|
                        0 <= j < self.pairs().len() && self.pairs()[j].0 == key@;
                    lemma_lex_lt_irreflexive(key@);
                    if j < i {
                        assert(lex_lt(self.pairs()[j].0, key@));
                    } else {
                        assert(lex_lt(key@, self.pairs()[j].0));
                    }
                }
            }
            None
        }
    }

    /// Whether some value is stored under `key`.
    pub fn contains(&self, key: &[u8]) -> (r: bool)
        requires
            self.wf(),
        ensures
            r == self@.contains_key(key@),
    {
        self.get(key).is_some()
    }

    /// Stores `value` under `key`, replacing any earlier value.
    pub fn put(&mut self, key: Vec<u8>, value: Vec<u8>)
        requires
            old(self).wf(),
        ensures
            final(self).wf(),
            final(self)@ == old(self)@.insert(key@, value@),
    {
        let ghost s = self.pairs();
        let ghost kv = (key@, value@);
        let (i, found) = self.position(key.as_slice());
        if found {
            self.entries.set(i, (key, value));
            let ghost t = self.pairs();
            assert(t =~= s.update(i as int, kv));
            assert(self@ =~= old(self)@.insert(kv.0, kv.1)) by {
                lemma_map_of_index(t, i as int);
                assert forall|j: int| 0 <= j < t.len() && j != i implies t[j] == s[j] by {}
                assert forall|k: Seq<u8>| #[trigger] map_of(t).contains_key(k) && k != kv.0 implies map_of(t)[k] == map_of(s)[k] by {
                    let j = choose|j: int| 0 <= j < t.len() && t[j].0 == k;
                    lemma_map_of_index(t, j);
                    lemma_map_of_index(s, j);
                }
                assert forall|k: Seq<u8>| #[trigger] map_of(s).contains_key(k) implies map_of(t).contains_key(k) by {
                    let j = choose|j: int| 0 <= j < s.len() && s[j].0 == k;
                    assert(t[j].0 == k);
                }
            }
        } else {
            self.entries.insert(i, (key, value));
            let ghost t = self.pairs();
            assert(t =~= s.insert(i as int, kv));
            assert(sorted(t)) by {
                assert forall|a: int, b: int| 0 <= a < b < t.len() implies lex_lt(#[trigger] t[a].0, #[trigger] t[b].0) by {
                    if a < i && b > i {
                        lemma_lex_lt_transitive(s[a].0, kv.0, s[b - 1].0);
                    } else if b > i && a > i {
                        assert(t[a] == s[a - 1] && t[b] == s[b - 1]);
                    }
                }
            }
            assert(self@ =~= old(self)@.insert(kv.0, kv.1)) by {
                lemma_map_of_index(t, i as int);
                assert forall|k: Seq<u8>| #[trigger] map_of(t).contains_key(k) && k != kv.0 implies map_of(s).contains_key(k) && map_of(t)[k] == map_of(s)[k] by {
                    let j = choose|j: int| 0 <= j < t.len() && t[j].0 == k;
                    lemma_map_of_index(t, j);
                    if j < i {
                        lemma_map_of_index(s, j);
                    } else {
                        lemma_map_of_index(s, j - 1);
                    }
                }
                assert forall|k: Seq<u8>| #[trigger] map_of(s).contains_key(k) implies map_of(t).contains_key(k) by {
                    let j = choose|j: int| 0 <= j < s.len() && s[j].0 == k;
                    if j < i {
                        assert(t[j].0 == k);
                    } else {
                        assert(t[j + 1].0 == k);
                    }
                }
            }
        }
    }

    /// Removes any value stored under `key`.
    pub fn delete(&mut self, key: &[u8])
        requires
            old(self).wf(),
        ensures
            final(self).wf(),
            final(self)@ == old(self)@.remove(key@),
    {
        let ghost s = self.pairs();
        let (i, found) = self.position(key);
        if found {
            self.entries.remove(i);
            let ghost t = self.pairs();
            assert(t =~= s.remove(i as int));
            assert(sorted(t)) by {
                assert forall|a: int, b: int| 0 <= a < b < t.len() implies lex_lt(#[trigger] t[a].0, #[trigger] t[b].0) by {
                    if a >= i {
                        assert(t[a] == s[a + 1] && t[b] == s[b + 1]);
                    } else if b >= i {
                        assert(t[b] == s[b + 1]);
                    }
                }
            }
            assert(self@ =~= old(self)@.remove(key@)) by {
                lemma_map_of_index(s, i as int);
                lemma_lex_lt_irreflexive(key@);
                assert forall|k: Seq<u8>| #[trigger] map_of(t).contains_key(k) implies k != key@ && map_of(s).contains_key(k) && map_of(t)[k] == map_of(s)[k] by {
                    let j = choose|j: int| 0 <= j < t.len() && t[j].0 == k;
                    lemma_map_of_index(t, j);
                    if j < i {
                        lemma_map_of_index(s, j);
                        assert(lex_lt(s[j].0, s[i as int].0));
                    } else {
                        lemma_map_of_index(s, j + 1);
                        assert(lex_lt(s[i as int].0, s[j + 1].0));
                    }
                }
                assert forall|k: Seq<u8>| #[trigger] map_of(s).contains_key(k) && k != key@ implies map_of(t).contains_key(k) by {
                    let j = choose|j: int| 0 <= j < s.len() && s[j].0 == k;
                    if j < i {
                        assert(t[j].0 == k);
                    } else {
                        assert(j != i);
                        assert(t[j - 1].0 == k);
                    }
                }
            }
        } else {
            proof {
                if old(self)@.contains_key(key@) {
                    let j = choose|j: int| 0 <= j < s.len() && s[j].0 == key@;
                    lemma_lex_lt_irreflexive(key@);
                    if j < i {
                        assert(lex_lt(s[j].0, key@));
                    } else {
                        assert(lex_lt(key@, s[j].0));
                    }
                }
            }
            assert(self@ =~= old(self)@.remove(key@));
        }
    }

    /// The entries whose key starts with `prefix`, in ascending key order.
    pub fn scan_prefix(&self, prefix: &[u8]) -> (r: Vec<(Vec<u8>, Vec<u8>)>)
        requires
            self.wf(),
        ensures
            pairs_of(r@) == self.pairs().filter(|e: (Seq<u8>, Seq<u8>)| has_prefix(e.0, prefix@)),
    {
        let ghost s = self.pairs();
        proof {
            reveal(Seq::filter);
        }
        let ghost f = |e: (Seq<u8>, Seq<u8>)| has_prefix(e.0, prefix@);
        let mut r: Vec<(Vec<u8>, Vec<u8>)> = Vec::new();
        let mut i: usize = 0;
        while i < self.entries.len()
            invariant
                s == self.pairs(),
                s.len() == self.entries@.len(),
                0 <= i <= s.len(),
                f == (|e: (Seq<u8>, Seq<u8>)| has_prefix(e.0, prefix@)),
                pairs_of(r@) == s.subrange(0, i as int).filter(f),
            decreases s.len() - i,
        {
            let k = &self.entries[i].0;
            assert(s.subrange(0, i + 1).drop_last() =~= s.subrange(0, i as int));
            assert(s[i as int] == (self.entries@[i as int].0@, self.entries@[i as int].1@));
            let ghost before = r@;
            assert(f(s[i as int]) == has_prefix(k@, prefix@));
            proof {
                reveal(Seq::filter);
                assert(s.subrange(0, i + 1).last() == s[i as int]);
            }
            if starts_with(k.as_slice(), prefix) {
                r.push((k.clone(), self.entries[i].1.clone()));
                assert(pairs_of(r@) =~= pairs_of(before).push(s[i as int]));
            }
            assert(pairs_of(r@) == s.subrange(0, i + 1).filter(f));
            i = i + 1;
        }
        assert(s.subrange(0, s.len() as int) =~= s);
        r
    }

    /// The entries form a sorted sequence that stands for the family's map.
    pub proof fn lemma_pairs(&self)
        requires
            self.wf(),
        ensures
            sorted(self.pairs()),
            map_of(self.pairs()) == self@,
    {
    }
}

/// `m2` is `m` without the keys that start with `p`.
pub open spec fn without_prefix(
    m2: Map<Seq<u8>, Seq<u8>>,
    m: Map<Seq<u8>, Seq<u8>>,
    p: Seq<u8>,
) -> bool {
    &&& forall|k: Seq<u8>| #[trigger] m2.contains_key(k) <==> m.contains_key(k) && !has_prefix(k, p)
    &&& forall|k: Seq<u8>| #[trigger] m2.contains_key(k) ==> m2[k] == m[k]
}

/// `m2` holds some of the entries of `m`, unchanged.
pub open spec fn shrunk(m2: Map<Seq<u8>, Seq<u8>>, m: Map<Seq<u8>, Seq<u8>>) -> bool {
    forall|k: Seq<u8>| #[trigger] m2.contains_key(k) ==> m.contains_key(k) && m2[k] == m[k]
}

/// No key of `m` starts with `p`.
pub open spec fn none_with_prefix(m: Map<Seq<u8>, Seq<u8>>, p: Seq<u8>) -> bool {
    forall|k: Seq<u8>| #[trigger] m.contains_key(k) ==> !has_prefix(k, p)
}

impl Family {
    /// Removes every entry whose key starts with `prefix`.
    pub fn delete_prefix(&mut self, prefix: &[u8])
        requires
            old(self).wf(),
        ensures
            final(self).wf(),
            without_prefix(final(self)@, old(self)@, prefix@),
    {
        let found = self.scan_prefix(prefix);
        let ghost f = |e: (Seq<u8>, Seq<u8>)| has_prefix(e.0, prefix@);
        proof {
            old(self).lemma_pairs();
        }
        let mut j: usize = 0;
        while j < found.len()
            invariant
                self.wf(),
                0 <= j <= found@.len(),
                pairs_of(found@) == old(self).pairs().filter(f),
                f == (|e: (Seq<u8>, Seq<u8>)| has_prefix(e.0, prefix@)),
                forall|k: Seq<u8>| #[trigger]
                    self@.contains_key(k) <==> old(self)@.contains_key(k) && !(exists|q: int|
                        0 <= q < j && found@[q].0@ == k),
                shrunk(self@, old(self)@),
            decreases found@.len() - j,
        {
            self.delete(found[j].0.as_slice());
            j = j + 1;
        }
        proof {
            let s = old(self).pairs();
            assert forall|k: Seq<u8>| #[trigger]
                self@.contains_key(k) <==> old(self)@.contains_key(k) && !has_prefix(k, prefix@) by {
                if old(self)@.contains_key(k) && has_prefix(k, prefix@) {
                    let i = choose|i: int| 0 <= i < s.len() && s[i].0 == k;
                    assert(f(s[i]));
                    s.lemma_filter_contains(f, i);
                    let q = choose|q: int| 0 <= q < s.filter(f).len() && s.filter(f)[q] == s[i];
                    assert(found@[q].0@ == pairs_of(found@)[q].0);
                }
                if exists|q: int| 0 <= q < found@.len() && found@[q].0@ == k {
                    let q = choose|q: int| 0 <= q < found@.len() && found@[q].0@ == k;
                    assert(pairs_of(found@)[q].0 == k);
                    s.lemma_filter_pred(f, q);
                    assert(f(s.filter(f)[q]));
                }
            }
        }
    }
}

} // verus!
