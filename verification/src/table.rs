//! The shared value table: an ordered map from a position key to a visit
//! count and a value word, with the little-endian record format it is
//! persisted in.  Workers wrap one table in a lock; every operation here is
//! the sequential core.
use vstd::prelude::*;

verus! {

/// One table entry.  `value_bits` carries the value estimate as a raw
/// 64-bit word; the table itself never interprets it.
pub struct TableEntry {
    pub key: Vec<u8>,
    pub visits: u64,
    pub value_bits: u64,
}

/// Lexicographic order on byte strings.
pub open spec fn lex_lt(a: Seq<u8>, b: Seq<u8>) -> bool
    decreases b.len(),
{
    if b.len() == 0 {
        false
    } else if a.len() == 0 {
        true
    } else if a[0] < b[0] {
        true
    } else if a[0] > b[0] {
        false
    } else {
        lex_lt(a.drop_first(), b.drop_first())
    }
}

/// Lexicographic comparison of two byte vectors: less, equal or greater.
fn lex_cmp(a: &Vec<u8>, b: &Vec<u8>) -> (r: i8)
    ensures
        r == -1 ==> lex_lt(a@, b@),
        r == 1 ==> lex_lt(b@, a@),
        r == 0 ==> a@ == b@,
        r == -1 || r == 0 || r == 1,
{
    let mut i: usize = 0;
    proof {
        assert(a@.skip(0) =~= a@);
        assert(b@.skip(0) =~= b@);
    }
    loop
        invariant
            i <= a@.len(),
            i <= b@.len(),
            a@.take(i as int) =~= b@.take(i as int),
            lex_lt(a@, b@) == lex_lt(a@.skip(i as int), b@.skip(i as int)),
            lex_lt(b@, a@) == lex_lt(b@.skip(i as int), a@.skip(i as int)),
        decreases a@.len() - i,
    {
        if i >= a.len() && i >= b.len() {
            proof {
                assert(a@.take(i as int) =~= a@);
                assert(b@.take(i as int) =~= b@);
            }
            return 0;
        }
        if i >= a.len() {
            proof {
                assert(lex_lt(a@.skip(i as int), b@.skip(i as int)));
                assert(!lex_lt(b@.skip(i as int), a@.skip(i as int)));
            }
            return -1;
        }
        if i >= b.len() {
            proof {
                assert(lex_lt(b@.skip(i as int), a@.skip(i as int)));
            }
            return 1;
        }
        let x = a[i];
        let y = b[i];
        proof {
            assert(a@.skip(i as int)[0] == x);
            assert(b@.skip(i as int)[0] == y);
            assert(a@.skip(i as int).drop_first() =~= a@.skip(i + 1));
            assert(b@.skip(i as int).drop_first() =~= b@.skip(i + 1));
        }
        if x < y {
            return -1;
        }
        if x > y {
            return 1;
        }
        proof {
            assert(a@.take(i + 1) =~= b@.take(i + 1));
        }
        i = i + 1;
    }
}

proof fn lemma_lex_irrefl(a: Seq<u8>)
    ensures
        !lex_lt(a, a),
    decreases a.len(),
{
    if a.len() > 0 {
        lemma_lex_irrefl(a.drop_first());
    }
}

/// The table as a run of entries with strictly increasing keys.
pub struct ValueTable {
    pub key_len: usize,
    pub entries: Vec<TableEntry>,
}

impl ValueTable {
    /// Entries come in strictly increasing key order, every key of the
    /// fixed length.
    pub open spec fn wf(self) -> bool {
        &&& forall|i: int| 0 <= i < self.entries@.len()
            ==> (#[trigger] self.entries@[i]).key@.len() == self.key_len
        &&& forall|i: int, j: int| 0 <= i < j < self.entries@.len()
            ==> lex_lt(self.entries@[i].key@, self.entries@[j].key@)
    }

    /// Whether some entry carries this key.
    pub open spec fn has_key(self, k: Seq<u8>) -> bool {
        exists|i: int| 0 <= i < self.entries@.len()
            && (#[trigger] self.entries@[i]).key@ == k
    }

    /// The index of the entry carrying this key.
    pub open spec fn key_index(self, k: Seq<u8>) -> int {
        choose|i: int| 0 <= i < self.entries@.len()
            && (#[trigger] self.entries@[i]).key@ == k
    }

    /// An empty table for keys of the given length.
    pub fn new(key_len: usize) -> (r: ValueTable)
        ensures
            r.wf(),
            r.entries@.len() == 0,
            r.key_len == key_len,
    {
        ValueTable { key_len, entries: Vec::new() }
    }


    /// A read-only lookup: the pair stored under `key`, if any.
    pub fn get(&self, key: &Vec<u8>) -> (r: Option<(u64, u64)>)
        requires
            self.wf(),
        ensures
            r.is_some() == self.has_key(key@),
            r matches Some(p) ==> {
                let i = self.key_index(key@);
                p == (self.entries@[i].visits, self.entries@[i].value_bits)
            },
    {
        let n = self.entries.len();
        let mut i: usize = 0;
        while i < n
            invariant
                self.wf(),
                n == self.entries@.len(),
                i <= n,
                forall|j: int| 0 <= j < i
                    ==> (#[trigger] self.entries@[j]).key@ != key@,
            decreases n - i,
        {
            let c = lex_cmp(&self.entries[i].key, key);
            if c == 0 {
                proof {
                    assert(self.entries@[i as int].key@ == key@);
                    let w = self.key_index(key@);
                    if w != i {
                        lemma_lex_irrefl(key@);
                        if w < i {
                            assert(lex_lt(self.entries@[w].key@,
                                self.entries@[i as int].key@));
                        } else {
                            assert(lex_lt(self.entries@[i as int].key@,
                                self.entries@[w].key@));
                        }
                    }
                }
                return Some((self.entries[i].visits, self.entries[i].value_bits));
            }
            proof {
                lemma_lex_irrefl(key@);
                if self.entries@[i as int].key@ == key@ {
                    assert(c as int == 0);
                }
            }
            i = i + 1;
        }
        proof {
            if self.has_key(key@) {
                let w = choose|w: int| 0 <= w < self.entries@.len()
                    && (#[trigger] self.entries@[w]).key@ == key@;
                assert(false);
            }
        }
        None
    }

    /// Looks the key up; when absent, first inserts `(0, default_bits)` at
    /// its sorted place.  Returns the pair now stored under the key.
    pub fn query(&mut self, key: &Vec<u8>, default_bits: u64) -> (r: (u64, u64))
        requires
            old(self).wf(),
            key@.len() == old(self).key_len,
        ensures
            final(self).wf(),
            final(self).key_len == old(self).key_len,
            final(self).has_key(key@),
            old(self).has_key(key@) ==> *final(self) == *old(self)
                && r == (old(self).entries@[old(self).key_index(key@)].visits,
                    old(self).entries@[old(self).key_index(key@)].value_bits),
            !old(self).has_key(key@) ==> r == (0u64, default_bits)
                && final(self).entries@.len() == old(self).entries@.len() + 1
                && (exists|i: int| 0 <= i <= old(self).entries@.len()
                    && final(self).entries@
                        == old(self).entries@.insert(i, final(self).entries@[i])
                    && (#[trigger] final(self).entries@[i]).key@ == key@
                    && final(self).entries@[i].visits == 0
                    && final(self).entries@[i].value_bits == default_bits),
    {
        let n = self.entries.len();
        let mut i: usize = 0;
        while i < n
            invariant
                self.wf(),
                *self == *old(self),
                n == self.entries@.len(),
                i <= n,
                key@.len() == self.key_len,
                forall|j: int| 0 <= j < i
                    ==> lex_lt((#[trigger] self.entries@[j]).key@, key@),
            decreases n - i,
        {
            let c = lex_cmp(&self.entries[i].key, key);
            if c == 0 {
                proof {
                    assert(self.entries@[i as int].key@ == key@);
                    assert(old(self).has_key(key@));
                    let w = old(self).key_index(key@);
                    if w != i {
                        lemma_lex_irrefl(key@);
                        if w < i {
                            assert(lex_lt(self.entries@[w].key@,
                                self.entries@[i as int].key@));
                        } else {
                            assert(lex_lt(self.entries@[i as int].key@,
                                self.entries@[w].key@));
                        }
                    }
                }
                return (self.entries[i].visits, self.entries[i].value_bits);
            }
            if c == 1 {
                proof {
                    assert(lex_lt(key@, self.entries@[i as int].key@));
                    assert forall|j: int| 0 <= j < self.entries@.len()
                        implies (#[trigger] self.entries@[j]).key@ != key@ by {
                        if j < i {
                            lemma_lex_irrefl(key@);
                            if self.entries@[j].key@ == key@ {
                                assert(lex_lt(key@, key@));
                            }
                        } else if j == i {
                            lemma_lex_irrefl(key@);
                            if self.entries@[j].key@ == key@ {
                                assert(lex_lt(key@, key@));
                            }
                        } else {
                            lemma_lex_trans(key@, self.entries@[i as int].key@,
                                self.entries@[j].key@);
                            lemma_lex_irrefl(key@);
                            if self.entries@[j].key@ == key@ {
                                assert(lex_lt(key@, key@));
                            }
                        }
                    };
                    assert forall|j: int| i <= j < self.entries@.len()
                        implies lex_lt(key@, (#[trigger] self.entries@[j]).key@) by {
                        if j > i {
                            lemma_lex_trans(key@, self.entries@[i as int].key@,
                                self.entries@[j].key@);
                        }
                    };
                }
                let entry = TableEntry {
                    key: copy_key(key),
                    visits: 0,
                    value_bits: default_bits,
                };
                let ghost pre = self.entries@;
                self.entries.insert(i, entry);
                proof {
                    lemma_insert_keeps_sorted(pre, i as int, self.entries@[i as int],
                        self.key_len as int);
                    assert(final(self).entries@[i as int].key@ == key@);
                }
                return (0, default_bits);
            }
            i = i + 1;
        }
        proof {
            assert forall|j: int| 0 <= j < self.entries@.len()
                implies (#[trigger] self.entries@[j]).key@ != key@ by {
                lemma_lex_irrefl(key@);
                if self.entries@[j].key@ == key@ {
                    assert(lex_lt(key@, key@));
                }
            };
        }
        let entry = TableEntry { key: copy_key(key), visits: 0, value_bits: default_bits };
        let ghost pre = self.entries@;
        self.entries.push(entry);
        proof {
            assert(self.entries@ =~= pre.insert(pre.len() as int,
                self.entries@[pre.len() as int]));
            lemma_insert_keeps_sorted(pre, pre.len() as int,
                self.entries@[pre.len() as int], self.key_len as int);
            assert(final(self).entries@[pre.len() as int].key@ == key@);
        }
        (0, default_bits)
    }

    /// One learning step on an existing key: the visit count rises by
    /// exactly one and the value word is replaced by `new_bits`.
    pub fn update(&mut self, key: &Vec<u8>, new_bits: u64) -> (ok: bool)
        requires
            old(self).wf(),
        ensures
            final(self).wf(),
            final(self).key_len == old(self).key_len,
            ok == old(self).has_key(key@),
            !ok ==> *final(self) == *old(self),
            ok ==> {
                let i = old(self).key_index(key@);
                &&& final(self).entries@.len() == old(self).entries@.len()
                &&& (forall|j: int| 0 <= j < old(self).entries@.len() && j != i
                    ==> #[trigger] final(self).entries@[j] == old(self).entries@[j])
                &&& final(self).entries@[i].key@ == key@
                &&& final(self).entries@[i].visits
                    == old(self).entries@[i].visits.wrapping_add(1)
                &&& final(self).entries@[i].value_bits == new_bits
            },
    {
        let n = self.entries.len();
        let mut i: usize = 0;
        while i < n
            invariant
                self.wf(),
                *self == *old(self),
                n == self.entries@.len(),
                i <= n,
                forall|j: int| 0 <= j < i
                    ==> (#[trigger] self.entries@[j]).key@ != key@,
            decreases n - i,
        {
            let c = lex_cmp(&self.entries[i].key, key);
            if c == 0 {
                proof {
                    assert(self.entries@[i as int].key@ == key@);
                    assert(old(self).has_key(key@));
                    let w = old(self).key_index(key@);
                    if w != i {
                        lemma_lex_irrefl(key@);
                        if w < i {
                            assert(lex_lt(self.entries@[w].key@,
                                self.entries@[i as int].key@));
                        } else {
                            assert(lex_lt(self.entries@[i as int].key@,
                                self.entries@[w].key@));
                        }
                    }
                }
                let visits = self.entries[i].visits;
                let kcopy = copy_key(&self.entries[i].key);
                let entry = TableEntry {
                    key: kcopy,
                    visits: visits.wrapping_add(1),
                    value_bits: new_bits,
                };
                let ghost pre = self.entries@;
                self.entries.set(i, entry);
                proof {
                    assert forall|p: int, q: int| 0 <= p < q < self.entries@.len()
                        implies lex_lt(self.entries@[p].key@, self.entries@[q].key@) by {
                        assert(self.entries@[p].key@ == pre[p].key@);
                        assert(self.entries@[q].key@ == pre[q].key@);
                    };
                }
                return true;
            }
            proof {
                lemma_lex_irrefl(key@);
                if self.entries@[i as int].key@ == key@ {
                    assert(c as int == 0);
                }
            }
            i = i + 1;
        }
        false
    }

    /// Records a finished game on an existing key: the visit count rises
    /// by one, the value word stays.
    pub fn record_ending(&mut self, key: &Vec<u8>) -> (ok: bool)
        requires
            old(self).wf(),
        ensures
            final(self).wf(),
            final(self).key_len == old(self).key_len,
            ok == old(self).has_key(key@),
            !ok ==> *final(self) == *old(self),
            ok ==> {
                let i = old(self).key_index(key@);
                &&& final(self).entries@.len() == old(self).entries@.len()
                &&& (forall|j: int| 0 <= j < old(self).entries@.len() && j != i
                    ==> #[trigger] final(self).entries@[j] == old(self).entries@[j])
                &&& final(self).entries@[i].key@ == key@
                &&& final(self).entries@[i].visits
                    == old(self).entries@[i].visits.wrapping_add(1)
                &&& final(self).entries@[i].value_bits
                    == old(self).entries@[i].value_bits
            },
    {
        let n = self.entries.len();
        let mut i: usize = 0;
        while i < n
            invariant
                self.wf(),
                *self == *old(self),
                n == self.entries@.len(),
                i <= n,
                forall|j: int| 0 <= j < i
                    ==> (#[trigger] self.entries@[j]).key@ != key@,
            decreases n - i,
        {
            let c = lex_cmp(&self.entries[i].key, key);
            if c == 0 {
                proof {
                    assert(self.entries@[i as int].key@ == key@);
                    let w = old(self).key_index(key@);
                    if w != i {
                        lemma_lex_irrefl(key@);
                        if w < i {
                            assert(lex_lt(self.entries@[w].key@,
                                self.entries@[i as int].key@));
                        } else {
                            assert(lex_lt(self.entries@[i as int].key@,
                                self.entries@[w].key@));
                        }
                    }
                }
                let visits = self.entries[i].visits;
                let bits = self.entries[i].value_bits;
                let kcopy = copy_key(&self.entries[i].key);
                let entry = TableEntry {
                    key: kcopy,
                    visits: visits.wrapping_add(1),
                    value_bits: bits,
                };
                let ghost pre = self.entries@;
                self.entries.set(i, entry);
                proof {
                    assert forall|p: int, q: int| 0 <= p < q < self.entries@.len()
                        implies lex_lt(self.entries@[p].key@, self.entries@[q].key@) by {
                        assert(self.entries@[p].key@ == pre[p].key@);
                        assert(self.entries@[q].key@ == pre[q].key@);
                    };
                }
                return true;
            }
            proof {
                lemma_lex_irrefl(key@);
                if self.entries@[i as int].key@ == key@ {
                    assert(c as int == 0);
                }
            }
            i = i + 1;
        }
        false
    }
}

/// Byte-for-byte copy of a key.
fn copy_key(v: &Vec<u8>) -> (r: Vec<u8>)
    ensures
        r@ == v@,
{
    let mut r: Vec<u8> = Vec::new();
    let mut i: usize = 0;
    while i < v.len()
        invariant
            i <= v@.len(),
            r@ == v@.take(i as int),
        decreases v@.len() - i,
    {
        r.push(v[i]);
        assert(r@ =~= v@.take(i + 1));
        i = i + 1;
    }
    assert(v@.take(i as int) =~= v@);
    r
}

/// Lexicographic order is transitive.
pub proof fn lemma_lex_trans(a: Seq<u8>, b: Seq<u8>, c: Seq<u8>)
    requires
        lex_lt(a, b),
        lex_lt(b, c),
    ensures
        lex_lt(a, c),
    decreases c.len(),
{
    if a.len() > 0 && b.len() > 0 && c.len() > 0 && a[0] == b[0] && b[0] == c[0] {
        lemma_lex_trans(a.drop_first(), b.drop_first(), c.drop_first());
    }
}

/// Inserting an entry whose key fits strictly between its neighbours keeps
/// the entries sorted.
proof fn lemma_insert_keeps_sorted(s: Seq<TableEntry>, at: int, e: TableEntry, key_len: int)
    requires
        0 <= at <= s.len(),
        forall|i: int| 0 <= i < s.len() ==> (#[trigger] s[i]).key@.len() == key_len,
        forall|i: int, j: int| 0 <= i < j < s.len()
            ==> lex_lt(s[i].key@, s[j].key@),
        e.key@.len() == key_len,
        forall|i: int| 0 <= i < at ==> lex_lt((#[trigger] s[i]).key@, e.key@),
        forall|i: int| at <= i < s.len() ==> lex_lt(e.key@, (#[trigger] s[i]).key@),
    ensures
        forall|i: int| 0 <= i < s.insert(at, e).len()
            ==> (#[trigger] s.insert(at, e)[i]).key@.len() == key_len,
        forall|i: int, j: int| 0 <= i < j < s.insert(at, e).len()
            ==> lex_lt(s.insert(at, e)[i].key@, s.insert(at, e)[j].key@),
{
    let t = s.insert(at, e);
    assert forall|i: int, j: int| 0 <= i < j < t.len()
        implies lex_lt(t[i].key@, t[j].key@) by {
        assert(t[i] == if i < at { s[i] } else if i == at { e } else { s[i - 1] });
        assert(t[j] == if j < at { s[j] } else if j == at { e } else { s[j - 1] });
    };
    assert forall|i: int| 0 <= i < t.len()
        implies (#[trigger] t[i]).key@.len() == key_len by {
        assert(t[i] == if i < at { s[i] } else if i == at { e } else { s[i - 1] });
    };
}


/// `n` little-endian bytes of `x`.
pub open spec fn le_bytes(x: int, n: nat) -> Seq<u8>
    decreases n,
{
    if n == 0 {
        Seq::empty()
    } else {
        seq![(x % 256) as u8] + le_bytes(x / 256, (n - 1) as nat)
    }
}

/// The number a little-endian byte run denotes.
pub open spec fn from_le(s: Seq<u8>) -> int
    decreases s.len(),
{
    if s.len() == 0 {
        0
    } else {
        s[0] + 256 * from_le(s.drop_first())
    }
}

/// 256 to the `n`.
pub open spec fn pow256(n: nat) -> int
    decreases n,
{
    if n == 0 {
        1
    } else {
        256 * pow256((n - 1) as nat)
    }
}

pub proof fn lemma_le_bytes_len(x: int, n: nat)
    ensures
        le_bytes(x, n).len() == n,
    decreases n,
{
    if n > 0 {
        lemma_le_bytes_len(x / 256, (n - 1) as nat);
    }
}

/// Reading back the little-endian bytes of `x` yields `x`.
pub proof fn lemma_le_roundtrip(x: int, n: nat)
    requires
        0 <= x < pow256(n),
    ensures
        from_le(le_bytes(x, n)) == x,
    decreases n,
{
    if n > 0 {
        assert(x / 256 < pow256((n - 1) as nat)) by {
            assert(x < 256 * pow256((n - 1) as nat));
        }
        lemma_le_roundtrip(x / 256, (n - 1) as nat);
        let s = le_bytes(x, n);
        assert(s.drop_first() =~= le_bytes(x / 256, (n - 1) as nat));
        assert(s[0] == (x % 256) as u8);
        assert(from_le(s) == x % 256 + 256 * (x / 256));
    }
}

/// The bytes one entry contributes to a dump.
pub open spec fn encode_record(e: TableEntry) -> Seq<u8> {
    e.key@ + le_bytes(e.visits as int, 8) + le_bytes(e.value_bits as int, 8)
}

/// The dump of a run of entries: the records of those entries whose visit
/// count reaches the threshold, in table order.
pub open spec fn encode_entries(s: Seq<TableEntry>, threshold: u64) -> Seq<u8>
    decreases s.len(),
{
    if s.len() == 0 {
        Seq::empty()
    } else {
        (if s[0].visits >= threshold {
            encode_record(s[0])
        } else {
            Seq::empty()
        }) + encode_entries(s.drop_first(), threshold)
    }
}

/// The triples a byte run decodes to: full records until the first short
/// remainder, which is dropped.
pub open spec fn decode_records(bytes: Seq<u8>, key_len: nat) -> Seq<(Seq<u8>, u64, u64)>
    decreases bytes.len(),
{
    if bytes.len() < key_len + 16 {
        Seq::empty()
    } else {
        seq![(
            bytes.take(key_len as int),
            from_le(bytes.subrange(key_len as int, key_len + 8 as int)) as u64,
            from_le(bytes.subrange(key_len + 8 as int, key_len + 16 as int)) as u64,
        )] + decode_records(bytes.skip(key_len + 16 as int), key_len)
    }
}

/// The entries that pass the threshold, as plain triples.
pub open spec fn kept_triples(s: Seq<TableEntry>, threshold: u64) -> Seq<(Seq<u8>, u64, u64)>
    decreases s.len(),
{
    if s.len() == 0 {
        Seq::empty()
    } else {
        (if s[0].visits >= threshold {
            seq![(s[0].key@, s[0].visits, s[0].value_bits)]
        } else {
            Seq::empty()
        }) + kept_triples(s.drop_first(), threshold)
    }
}

/// The entries of a table, as plain triples.
pub open spec fn triples(s: Seq<TableEntry>) -> Seq<(Seq<u8>, u64, u64)> {
    s.map_values(|e: TableEntry| (e.key@, e.visits, e.value_bits))
}

/// Loading a dump recovers exactly the entries that passed the threshold.
pub proof fn lemma_decode_encode(s: Seq<TableEntry>, threshold: u64, key_len: nat)
    requires
        forall|i: int| 0 <= i < s.len() ==> (#[trigger] s[i]).key@.len() == key_len,
    ensures
        decode_records(encode_entries(s, threshold), key_len)
            == kept_triples(s, threshold),
    decreases s.len(),
{
    if s.len() == 0 {
        assert(encode_entries(s, threshold).len() == 0);
        assert(decode_records(encode_entries(s, threshold), key_len) =~= Seq::empty());
        assert(kept_triples(s, threshold) =~= Seq::empty());
    } else {
        let rest = s.drop_first();
        assert(forall|i: int| 0 <= i < rest.len()
            ==> (#[trigger] rest[i]).key@.len() == key_len);
        lemma_decode_encode(rest, threshold, key_len);
        let enc = encode_entries(s, threshold);
        if s[0].visits >= threshold {
            let rec = encode_record(s[0]);
            lemma_le_bytes_len(s[0].visits as int, 8);
            lemma_le_bytes_len(s[0].value_bits as int, 8);
            assert(rec.len() == key_len + 16);
            assert(enc == rec + encode_entries(rest, threshold));
            assert(enc.len() >= key_len + 16);
            assert(enc.take(key_len as int) =~= s[0].key@);
            assert(enc.subrange(key_len as int, key_len + 8 as int)
                =~= le_bytes(s[0].visits as int, 8));
            assert(enc.subrange(key_len + 8 as int, key_len + 16 as int)
                =~= le_bytes(s[0].value_bits as int, 8));
            assert(enc.skip(key_len + 16 as int) =~= encode_entries(rest, threshold));
            lemma_pow256_u64();
            lemma_le_roundtrip(s[0].visits as int, 8);
            lemma_le_roundtrip(s[0].value_bits as int, 8);
            assert(decode_records(enc, key_len)
                =~= kept_triples(s, threshold));
        } else {
            assert(enc =~= encode_entries(rest, threshold));
            assert(kept_triples(s, threshold) =~= kept_triples(rest, threshold));
        }
    }
}

/// Every `u64` is below 256 to the 8.
pub proof fn lemma_pow256_u64()
    ensures
        pow256(8) > u64::MAX,
{
    assert(pow256(8) == 0x1_0000_0000_0000_0000) by {
        reveal_with_fuel(pow256, 9);
    }
}

/// A dump depends only on the triples of the entries.
pub proof fn lemma_encode_by_triples(s1: Seq<TableEntry>, s2: Seq<TableEntry>, threshold: u64)
    requires
        triples(s1) == triples(s2),
    ensures
        encode_entries(s1, threshold) == encode_entries(s2, threshold),
    decreases s1.len(),
{
    assert(triples(s1).len() == s1.len());
    assert(triples(s2).len() == s2.len());
    assert(s1.len() == s2.len());
    if s1.len() > 0 {
        assert(triples(s1)[0] == (s1[0].key@, s1[0].visits, s1[0].value_bits));
        assert(triples(s2)[0] == (s2[0].key@, s2[0].visits, s2[0].value_bits));
        assert(triples(s1.drop_first()) =~= triples(s2.drop_first())) by {
            assert(forall|i: int| 0 <= i < s1.len() - 1
                ==> triples(s1.drop_first())[i] == triples(s1)[i + 1]
                    && triples(s2.drop_first())[i] == triples(s2)[i + 1]);
        }
        lemma_encode_by_triples(s1.drop_first(), s2.drop_first(), threshold);
        assert(s1[0].key@ == s2[0].key@ && s1[0].visits == s2[0].visits
            && s1[0].value_bits == s2[0].value_bits);
    } else {
        assert(encode_entries(s1, threshold) =~= encode_entries(s2, threshold));
    }
}

/// Dumping, loading, and dumping again yields the first dump byte for
/// byte: a table whose triples are exactly the kept triples of `s` dumps
/// to the same bytes as `s` itself.
pub proof fn lemma_dump_idempotent(s: Seq<TableEntry>, s2: Seq<TableEntry>, threshold: u64)
    requires
        triples(s2) == kept_triples(s, threshold),
    ensures
        encode_entries(s2, threshold) == encode_entries(s, threshold),
    decreases s.len(),
{
    if s.len() == 0 {
        assert(kept_triples(s, threshold) =~= Seq::empty());
        assert(s2.len() == 0);
        assert(encode_entries(s2, threshold) =~= encode_entries(s, threshold));
    } else {
        let rest = s.drop_first();
        if s[0].visits >= threshold {
            assert(kept_triples(s, threshold)
                == seq![(s[0].key@, s[0].visits, s[0].value_bits)]
                    + kept_triples(rest, threshold));
            assert(triples(s2).len() == s2.len());
            assert(s2.len() >= 1);
            assert(triples(s2)[0] == (s2[0].key@, s2[0].visits, s2[0].value_bits));
            assert(kept_triples(s, threshold)[0]
                == (s[0].key@, s[0].visits, s[0].value_bits));
            assert(triples(s2.drop_first()) =~= kept_triples(rest, threshold)) by {
                assert(forall|i: int| 0 <= i < s2.len() - 1
                    ==> triples(s2.drop_first())[i] == triples(s2)[i + 1]);
                assert(forall|i: int| 0 <= i < s2.len() - 1
                    ==> kept_triples(s, threshold)[i + 1]
                        == kept_triples(rest, threshold)[i]);
            }
            lemma_dump_idempotent(rest, s2.drop_first(), threshold);
            assert(s2[0].key@ == s[0].key@ && s2[0].visits == s[0].visits
                && s2[0].value_bits == s[0].value_bits);
            assert(s2[0].visits >= threshold);
            assert(encode_record(s2[0]) == encode_record(s[0]));
        } else {
            assert(kept_triples(s, threshold) =~= kept_triples(rest, threshold));
            lemma_dump_idempotent(rest, s2, threshold);
        }
    }
}


/// Appending one entry extends a dump by that entry's record, when kept.
pub proof fn lemma_encode_snoc(s: Seq<TableEntry>, e: TableEntry, threshold: u64)
    ensures
        encode_entries(s.push(e), threshold) == encode_entries(s, threshold)
            + if e.visits >= threshold { encode_record(e) } else { Seq::empty() },
    decreases s.len(),
{
    let tail = if e.visits >= threshold { encode_record(e) } else { Seq::<u8>::empty() };
    if s.len() == 0 {
        assert(s.push(e)[0] == e);
        assert(s.push(e).drop_first() =~= Seq::<TableEntry>::empty());
        assert(encode_entries(s.push(e).drop_first(), threshold) == Seq::<u8>::empty());
        assert(encode_entries(s.push(e), threshold) == tail + Seq::<u8>::empty());
        assert(encode_entries(s, threshold) == Seq::<u8>::empty());
        assert(tail + Seq::<u8>::empty() =~= tail);
        assert(Seq::<u8>::empty() + tail =~= tail);
    } else {
        assert(s.push(e)[0] == s[0]);
        assert(s.push(e).drop_first() =~= s.drop_first().push(e));
        lemma_encode_snoc(s.drop_first(), e, threshold);
        let head = if s[0].visits >= threshold {
            encode_record(s[0])
        } else {
            Seq::<u8>::empty()
        };
        assert(encode_entries(s.push(e), threshold)
            == head + encode_entries(s.drop_first().push(e), threshold));
        assert(encode_entries(s.drop_first().push(e), threshold)
            == encode_entries(s.drop_first(), threshold) + tail);
        assert(encode_entries(s, threshold)
            == head + encode_entries(s.drop_first(), threshold));
        assert(head + (encode_entries(s.drop_first(), threshold) + tail)
            =~= (head + encode_entries(s.drop_first(), threshold)) + tail);
    }
}

/// The keys of decoded records come in strictly increasing order.
pub open spec fn records_increasing(q: Seq<(Seq<u8>, u64, u64)>) -> bool {
    forall|i: int, j: int| 0 <= i < j < q.len() ==> lex_lt(q[i].0, q[j].0)
}

/// A little-endian number is below 256 to the length.
pub proof fn lemma_from_le_bound(s: Seq<u8>)
    ensures
        0 <= from_le(s) < pow256(s.len() as nat),
    decreases s.len(),
{
    if s.len() > 0 {
        lemma_from_le_bound(s.drop_first());
    }
}

/// Appends the eight little-endian bytes of `x`.
fn push_le(out: &mut Vec<u8>, x: u64)
    ensures
        final(out)@ == old(out)@ + le_bytes(x as int, 8),
{
    let mut cur = x;
    let mut i: usize = 0;
    while i < 8
        invariant
            i <= 8,
            old(out)@ + le_bytes(x as int, 8)
                == out@ + le_bytes(cur as int, (8 - i) as nat),
        decreases 8 - i,
    {
        let byte = (cur % 256) as u8;
        proof {
            assert(le_bytes(cur as int, (8 - i) as nat)
                == seq![byte] + le_bytes(cur as int / 256, (8 - (i + 1)) as nat));
            assert(out@ + le_bytes(cur as int, (8 - i) as nat)
                =~= out@.push(byte) + le_bytes(cur as int / 256, (8 - (i + 1)) as nat));
        }
        out.push(byte);
        cur = cur / 256;
        i = i + 1;
    }
    proof {
        assert(le_bytes(cur as int, 0) =~= Seq::<u8>::empty());
        assert(out@ + Seq::<u8>::empty() =~= out@);
        assert(old(out)@ + le_bytes(x as int, 8) =~= final(out)@);
    }
}

/// Reads the eight little-endian bytes at `off`.
fn read_le(bytes: &Vec<u8>, off: usize) -> (r: u64)
    requires
        off + 8 <= bytes@.len(),
    ensures
        r == from_le(bytes@.subrange(off as int, off + 8)),
{
    let ghost s = bytes@.subrange(off as int, off + 8);
    let blen = bytes.len();
    let mut x: u64 = 0;
    let mut i: usize = 8;
    proof {
        assert(s.skip(8) =~= Seq::<u8>::empty());
    }
    while i > 0
        invariant
            i <= 8,
            off + 8 <= blen,
            blen == bytes@.len(),
            s == bytes@.subrange(off as int, off + 8),
            x == from_le(s.skip(i as int)),
            0 <= from_le(s.skip(i as int)) < pow256((8 - i) as nat),
        decreases i,
    {
        proof {
            lemma_from_le_bound(s.skip(i - 1));
            lemma_pow256_u64();
            assert(pow256((8 - (i - 1)) as nat) <= pow256(8)) by {
                lemma_pow256_monotone((8 - (i - 1)) as nat, 8);
            }
            assert(s.skip(i - 1)[0] == s[i - 1]);
            assert(s.skip(i - 1).drop_first() =~= s.skip(i as int));
            assert(from_le(s.skip(i - 1)) == s[i - 1] + 256 * from_le(s.skip(i as int)));
        }
        let byte = bytes[off + i - 1];
        proof {
            assert(s[i - 1] == bytes@[off + i - 1]);
            lemma_pow256_monotone((8 - i + 1) as nat, 8);
            assert((x as int) * 256 + (byte as int) == from_le(s.skip(i - 1)));
            assert(from_le(s.skip(i - 1)) < pow256(8));
            assert(pow256(8) == u64::MAX + 1) by {
                lemma_pow256_u64();
                reveal_with_fuel(pow256, 9);
            }
        }
        x = x * 256 + (byte as u64);
        i = i - 1;
    }
    proof {
        assert(s.skip(0) =~= s);
    }
    x
}

pub proof fn lemma_pow256_monotone(a: nat, b: nat)
    requires
        a <= b,
    ensures
        pow256(a) <= pow256(b),
        pow256(a) >= 1,
    decreases b,
{
    if b > 0 {
        if a == b {
            lemma_pow256_monotone((a - 1) as nat, (b - 1) as nat);
        } else {
            lemma_pow256_monotone(a, (b - 1) as nat);
        }
    }
}

/// Copies `v[lo..hi]`.
fn copy_range(v: &Vec<u8>, lo: usize, hi: usize) -> (r: Vec<u8>)
    requires
        lo <= hi <= v@.len(),
    ensures
        r@ == v@.subrange(lo as int, hi as int),
{
    let mut r: Vec<u8> = Vec::new();
    let mut i: usize = lo;
    while i < hi
        invariant
            lo <= i <= hi <= v@.len(),
            r@ == v@.subrange(lo as int, i as int),
        decreases hi - i,
    {
        r.push(v[i]);
        assert(r@ =~= v@.subrange(lo as int, i + 1));
        i = i + 1;
    }
    r
}

impl ValueTable {
    /// The persisted form of the table: the record of every entry whose
    /// visit count reaches `threshold`, in key order.
    pub fn dump_bytes(&self, threshold: u64) -> (r: Vec<u8>)
        ensures
            r@ == encode_entries(self.entries@, threshold),
    {
        let mut out: Vec<u8> = Vec::new();
        let mut i: usize = 0;
        while i < self.entries.len()
            invariant
                i <= self.entries@.len(),
                out@ == encode_entries(self.entries@.take(i as int), threshold),
            decreases self.entries@.len() - i,
        {
            let ghost pre = out@;
            proof {
                assert(self.entries@.take(i + 1)
                    =~= self.entries@.take(i as int).push(self.entries@[i as int]));
                lemma_encode_snoc(self.entries@.take(i as int),
                    self.entries@[i as int], threshold);
            }
            if self.entries[i].visits >= threshold {
                let key_part = copy_range(&self.entries[i].key, 0, self.entries[i].key.len());
                let mut kj: usize = 0;
                while kj < key_part.len()
                    invariant
                        kj <= key_part@.len(),
                        key_part@ == self.entries@[i as int].key@,
                        i < self.entries@.len(),
                        out@ == pre + key_part@.take(kj as int),
                    decreases key_part@.len() - kj,
                {
                    out.push(key_part[kj]);
                    assert(out@ =~= pre + key_part@.take(kj + 1));
                    kj = kj + 1;
                }
                proof {
                    assert(key_part@.take(key_part@.len() as int) =~= key_part@);
                }
                push_le(&mut out, self.entries[i].visits);
                push_le(&mut out, self.entries[i].value_bits);
                proof {
                    assert(out@ =~= pre + encode_record(self.entries@[i as int]));
                }
            } else {
                proof {
                    assert(pre + Seq::<u8>::empty() =~= pre);
                }
            }
            i = i + 1;
        }
        proof {
            assert(self.entries@.take(self.entries@.len() as int) =~= self.entries@);
        }
        out
    }

    /// Stores `(visits, value_bits)` under `key`, replacing any entry
    /// already there, inserting at the sorted place otherwise.
    pub fn put(&mut self, key: Vec<u8>, visits: u64, value_bits: u64)
        requires
            old(self).wf(),
            key@.len() == old(self).key_len,
        ensures
            final(self).wf(),
            final(self).key_len == old(self).key_len,
            old(self).has_key(key@) ==> {
                let i = old(self).key_index(key@);
                &&& final(self).entries@.len() == old(self).entries@.len()
                &&& (forall|j: int| 0 <= j < old(self).entries@.len() && j != i
                    ==> #[trigger] final(self).entries@[j] == old(self).entries@[j])
                &&& final(self).entries@[i].key@ == key@
                &&& final(self).entries@[i].visits == visits
                &&& final(self).entries@[i].value_bits == value_bits
            },
            !old(self).has_key(key@)
                ==> final(self).entries@.len() == old(self).entries@.len() + 1
                && (exists|i: int| 0 <= i <= old(self).entries@.len()
                    && final(self).entries@
                        == old(self).entries@.insert(i, final(self).entries@[i])
                    && (#[trigger] final(self).entries@[i]).key@ == key@
                    && final(self).entries@[i].visits == visits
                    && final(self).entries@[i].value_bits == value_bits),
    {
        let n = self.entries.len();
        let mut i: usize = 0;
        while i < n
            invariant
                self.wf(),
                *self == *old(self),
                n == self.entries@.len(),
                i <= n,
                key@.len() == self.key_len,
                forall|j: int| 0 <= j < i
                    ==> lex_lt((#[trigger] self.entries@[j]).key@, key@),
            decreases n - i,
        {
            let c = lex_cmp(&self.entries[i].key, &key);
            if c == 0 {
                proof {
                    assert(self.entries@[i as int].key@ == key@);
                    assert(old(self).has_key(key@));
                    let w = old(self).key_index(key@);
                    if w != i {
                        lemma_lex_irrefl(key@);
                        if w < i {
                            assert(lex_lt(self.entries@[w].key@,
                                self.entries@[i as int].key@));
                        } else {
                            assert(lex_lt(self.entries@[i as int].key@,
                                self.entries@[w].key@));
                        }
                    }
                }
                let entry = TableEntry { key, visits, value_bits };
                let ghost pre = self.entries@;
                self.entries.set(i, entry);
                proof {
                    assert forall|p: int, q: int| 0 <= p < q < self.entries@.len()
                        implies lex_lt(self.entries@[p].key@, self.entries@[q].key@) by {
                        assert(self.entries@[p].key@ == pre[p].key@);
                        assert(self.entries@[q].key@ == pre[q].key@);
                    };
                }
                return;
            }
            if c == 1 {
                proof {
                    assert(lex_lt(key@, self.entries@[i as int].key@));
                    assert forall|j: int| 0 <= j < self.entries@.len()
                        implies (#[trigger] self.entries@[j]).key@ != key@ by {
                        lemma_lex_irrefl(key@);
                        if j > i {
                            lemma_lex_trans(key@, self.entries@[i as int].key@,
                                self.entries@[j].key@);
                        }
                        if self.entries@[j].key@ == key@ {
                            assert(lex_lt(key@, key@));
                        }
                    };
                    assert forall|j: int| i <= j < self.entries@.len()
                        implies lex_lt(key@, (#[trigger] self.entries@[j]).key@) by {
                        if j > i {
                            lemma_lex_trans(key@, self.entries@[i as int].key@,
                                self.entries@[j].key@);
                        }
                    };
                }
                let entry = TableEntry { key, visits, value_bits };
                let ghost pre = self.entries@;
                self.entries.insert(i, entry);
                proof {
                    lemma_insert_keeps_sorted(pre, i as int, self.entries@[i as int],
                        self.key_len as int);
                    assert(final(self).entries@[i as int].key@ == key@);
                }
                return;
            }
            i = i + 1;
        }
        proof {
            assert forall|j: int| 0 <= j < self.entries@.len()
                implies (#[trigger] self.entries@[j]).key@ != key@ by {
                lemma_lex_irrefl(key@);
                if self.entries@[j].key@ == key@ {
                    assert(lex_lt(key@, key@));
                }
            };
        }
        let entry = TableEntry { key, visits, value_bits };
        let ghost pre = self.entries@;
        self.entries.push(entry);
        proof {
            assert(self.entries@ =~= pre.insert(pre.len() as int,
                self.entries@[pre.len() as int]));
            lemma_insert_keeps_sorted(pre, pre.len() as int,
                self.entries@[pre.len() as int], self.key_len as int);
            assert(final(self).entries@[pre.len() as int].key@ == key@);
        }
    }

    /// Rebuilds a table from a dump: reads whole records until the bytes
    /// run short, storing each.  A dump's own records come sorted, and
    /// then the loaded table holds exactly them, in the same order.  Keys
    /// are at most a thousand bytes, far above any board's piece count.
    pub fn load_bytes(key_len: usize, bytes: &Vec<u8>) -> (r: ValueTable)
        requires
            key_len <= 1000,
        ensures
            r.wf(),
            r.key_len == key_len,
            records_increasing(decode_records(bytes@, key_len as nat))
                ==> triples(r.entries@) == decode_records(bytes@, key_len as nat),
    {
        let ghost full = decode_records(bytes@, key_len as nat);
        let rec_size = key_len + 16;
        let mut table = ValueTable::new(key_len);
        let blen = bytes.len();
        let mut off: usize = 0;
        let ghost mut count: int = 0;
        proof {
            assert(bytes@.skip(0) =~= bytes@);
            assert(full.skip(0) =~= full);
        }
        while blen - off >= rec_size
            invariant
                rec_size == key_len + 16,
                key_len <= 1000,
                blen == bytes@.len(),
                off <= blen,
                table.wf(),
                table.key_len == key_len,
                full == decode_records(bytes@, key_len as nat),
                0 <= count <= full.len(),
                decode_records(bytes@.skip(off as int), key_len as nat)
                    == full.skip(count),
                table.entries@.len() <= count,
                records_increasing(full)
                    ==> triples(table.entries@) == full.take(count),
            decreases bytes@.len() - off,
        {
            let ghost rem = bytes@.skip(off as int);
            proof {
                assert(rem.len() >= key_len + 16);
                assert(full.skip(count).len() >= 1);
                assert(count < full.len());
                assert(rem.take(key_len as int)
                    =~= bytes@.subrange(off as int, off + key_len));
                assert(rem.subrange(key_len as int, key_len + 8 as int)
                    =~= bytes@.subrange(off + key_len, off + key_len + 8));
                assert(rem.subrange(key_len + 8 as int, key_len + 16 as int)
                    =~= bytes@.subrange(off + key_len + 8, off + key_len + 16));
                assert(rem.skip(key_len + 16 as int)
                    =~= bytes@.skip(off + rec_size));
                assert(full.skip(count)[0] == full[count]);
                assert(full.skip(count).drop_first() =~= full.skip(count + 1));
            }
            let key = copy_range(bytes, off, off + key_len);
            let visits = read_le(bytes, off + key_len);
            let value_bits = read_le(bytes, off + key_len + 8);
            proof {
                assert(full[count]
                    == (key@, visits, value_bits));
            }
            let ghost pre_table = *&table;
            table.put(key, visits, value_bits);
            proof {
                if records_increasing(full) {
                    assert(triples(pre_table.entries@) == full.take(count));
                    assert forall|j: int| 0 <= j < pre_table.entries@.len()
                        implies lex_lt((#[trigger] pre_table.entries@[j]).key@,
                            full[count].0) by {
                        assert(triples(pre_table.entries@)[j] == full.take(count)[j]);
                        assert(full.take(count)[j] == full[j]);
                        assert(pre_table.entries@[j].key@ == full[j].0);
                    };
                    if pre_table.has_key(full[count].0) {
                        let w = pre_table.key_index(full[count].0);
                        lemma_lex_irrefl(full[count].0);
                        assert(false);
                    }
                    let iw = choose|iw: int| 0 <= iw <= pre_table.entries@.len()
                        && table.entries@
                            == pre_table.entries@.insert(iw, table.entries@[iw])
                        && (#[trigger] table.entries@[iw]).key@ == full[count].0
                        && table.entries@[iw].visits == full[count].1
                        && table.entries@[iw].value_bits == full[count].2;
                    if iw < pre_table.entries@.len() {
                        assert(table.entries@[iw + 1] == pre_table.entries@[iw]);
                        assert(lex_lt(table.entries@[iw].key@,
                            table.entries@[iw + 1].key@));
                        assert(lex_lt(pre_table.entries@[iw].key@, full[count].0));
                        lemma_lex_trans(full[count].0, pre_table.entries@[iw].key@,
                            full[count].0);
                        lemma_lex_irrefl(full[count].0);
                        assert(false);
                    }
                    assert(iw == pre_table.entries@.len());
                    assert(triples(table.entries@) =~= full.take(count + 1)) by {
                        assert(table.entries@
                            == pre_table.entries@.insert(iw, table.entries@[iw]));
                        assert(forall|j: int| 0 <= j < iw
                            ==> #[trigger] table.entries@[j] == pre_table.entries@[j]);
                        assert(forall|j: int| 0 <= j < iw
                            ==> #[trigger] triples(table.entries@)[j]
                                == triples(pre_table.entries@)[j]);
                        assert(triples(table.entries@)[iw as int] == full[count]);
                    }
                }
            }
            off = off + rec_size;
            proof {
                count = count + 1;
            }
        }
        proof {
            assert(decode_records(bytes@.skip(off as int), key_len as nat).len() == 0);
            assert(full.skip(count).len() == 0);
            assert(count == full.len());
            if records_increasing(full) {
                assert(full.take(count) =~= full);
            }
        }
        table
    }
}

} // verus!
