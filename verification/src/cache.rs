//! Capacity-bounded, recency-ordered sample cache.
//!
//! The cache maps a 64-bit key to a byte payload, keeps entries ordered from
//! least- to most-recently used, and never lets the sum of payload sizes
//! exceed its fixed capacity. Inserting evicts least-recently-used entries
//! until the new payload fits; a payload larger than the whole capacity is
//! rejected without touching the store.

use vstd::prelude::*;

verus! {

use vstd::string::StringSliceAdditionalSpecFns;

/// Abstract contents of the cache: `(key, payload)` pairs ordered from
/// least-recently used (front) to most-recently used (back).
pub type CacheModel = Seq<(u64, Seq<u8>)>;

/// Sum of the payload sizes of all entries.
pub open spec fn sum_sizes(s: CacheModel) -> int
    decreases s.len(),
{
    if s.len() == 0 {
        0
    } else {
        s[0].1.len() + sum_sizes(s.drop_first())
    }
}

/// Index of the first entry with the given key, or -1 when absent.
pub open spec fn find_key(s: CacheModel, key: u64) -> int
    decreases s.len(),
{
    if s.len() == 0 {
        -1
    } else if s[0].0 == key {
        0
    } else if find_key(s.drop_first(), key) < 0 {
        -1
    } else {
        find_key(s.drop_first(), key) + 1
    }
}

pub open spec fn has_key(s: CacheModel, key: u64) -> bool {
    find_key(s, key) >= 0
}

/// No key occurs twice.
pub open spec fn distinct_keys(s: CacheModel) -> bool {
    forall|i: int, j: int| 0 <= i < j < s.len() ==> s[i].0 != s[j].0
}

/// The store with the first entry for `key` dropped, or unchanged when absent.
pub open spec fn remove_key(s: CacheModel, key: u64) -> CacheModel {
    if has_key(s, key) {
        s.remove(find_key(s, key))
    } else {
        s
    }
}

/// Evict from the least-recently-used end until `need` more bytes fit in
/// `cap`, or nothing is left.
pub open spec fn evict_until_fits(s: CacheModel, need: int, cap: int) -> CacheModel
    decreases s.len(),
{
    if s.len() == 0 || sum_sizes(s) + need <= cap {
        s
    } else {
        evict_until_fits(s.drop_first(), need, cap)
    }
}

/// What `put` does to the store: an oversize payload is rejected outright;
/// otherwise any old entry under the same key is dropped, least-recently-used
/// entries are evicted until the payload fits, and the payload is appended as
/// most-recently used.
pub open spec fn spec_put(s: CacheModel, key: u64, data: Seq<u8>, cap: int) -> CacheModel {
    if data.len() > cap {
        s
    } else {
        evict_until_fits(remove_key(s, key), data.len() as int, cap).push((key, data))
    }
}

/// 64-bit FNV-1a offset basis.
pub const FNV_OFFSET: u64 = 0xcbf2_9ce4_8422_2325;

/// 64-bit FNV-1a prime.
pub const FNV_PRIME: u64 = 0x100_0000_01b3;

/// One FNV-1a round: fold a byte into the running hash.
pub open spec fn fnv1a_step(h: u64, b: u8) -> u64 {
    vstd::wrapping::u64_specs::wrapping_mul(h ^ (b as u64), FNV_PRIME)
}

/// FNV-1a over a byte sequence, folded left to right onto `h`.
pub open spec fn fnv1a(bytes: Seq<u8>, h: u64) -> u64
    decreases bytes.len(),
{
    if bytes.len() == 0 {
        h
    } else {
        fnv1a(bytes.drop_first(), fnv1a_step(h, bytes[0]))
    }
}

/// Fold the eight little-endian bytes of `n` into the running hash.
pub open spec fn fnv1a_u64_le(h: u64, n: u64) -> u64 {
    fnv1a_step(
        fnv1a_step(
            fnv1a_step(
                fnv1a_step(
                    fnv1a_step(
                        fnv1a_step(
                            fnv1a_step(fnv1a_step(h, n as u8), (n >> 8) as u8),
                            (n >> 16) as u8,
                        ),
                        (n >> 24) as u8,
                    ),
                    (n >> 32) as u8,
                ),
                (n >> 40) as u8,
            ),
            (n >> 48) as u8,
        ),
        (n >> 56) as u8,
    )
}

/// The cache key of a request: FNV-1a over the file identifier's UTF-8 bytes
/// followed by the eight little-endian bytes of the target size. Equal
/// `(file id, target size)` pairs always give the same key; distinct pairs
/// may collide, a risk inherent to 64-bit hashed keys.
pub open spec fn spec_cache_key(id_bytes: Seq<u8>, size: u64) -> u64 {
    fnv1a_u64_le(fnv1a(id_bytes, FNV_OFFSET), size)
}

struct Entry {
    key: u64,
    data: Vec<u8>,
}

/// Capacity-bounded LRU store from 64-bit keys to byte payloads.
pub struct Cache {
    capacity: usize,
    entries: Vec<Entry>,
    total_size: usize,
}

/// Read-only snapshot of the cache's occupancy.
#[derive(Debug, Clone)]
pub struct CacheStats {
    pub entries: usize,
    pub total_size: usize,
    pub capacity: usize,
}

proof fn lemma_sum_sizes_push(s: CacheModel, p: (u64, Seq<u8>))
    ensures
        sum_sizes(s.push(p)) == sum_sizes(s) + p.1.len(),
    decreases s.len(),
{
    if s.len() == 0 {
        assert(s.push(p).drop_first() =~= Seq::<(u64, Seq<u8>)>::empty());
        assert(s.push(p)[0] == p);
        assert(sum_sizes(s.push(p)) == p.1.len() + sum_sizes(s.push(p).drop_first()));
    } else {
        assert(s.push(p).drop_first() =~= s.drop_first().push(p));
        lemma_sum_sizes_push(s.drop_first(), p);
        assert(s.push(p)[0] == s[0]);
        assert(sum_sizes(s.push(p)) == s[0].1.len() + sum_sizes(s.push(p).drop_first()));
    }
}

proof fn lemma_sum_sizes_remove(s: CacheModel, i: int)
    requires
        0 <= i < s.len(),
    ensures
        sum_sizes(s.remove(i)) == sum_sizes(s) - s[i].1.len(),
    decreases s.len(),
{
    if i == 0 {
        assert(s.remove(0) =~= s.drop_first());
    } else {
        assert(s.remove(i).drop_first() =~= s.drop_first().remove(i - 1));
        lemma_sum_sizes_remove(s.drop_first(), i - 1);
    }
}

proof fn lemma_sum_sizes_nonneg(s: CacheModel)
    ensures
        sum_sizes(s) >= 0,
    decreases s.len(),
{
    if s.len() > 0 {
        lemma_sum_sizes_nonneg(s.drop_first());
    }
}

/// `find_key` returns the first index holding `key`: it is in bounds, holds
/// `key`, and nothing before it does; and it is -1 exactly when no index
/// holds `key`.
pub proof fn lemma_find_key(s: CacheModel, key: u64)
    ensures
        has_key(s, key) ==> {
            let i = find_key(s, key);
            &&& 0 <= i < s.len()
            &&& s[i].0 == key
            &&& forall|j: int| 0 <= j < i ==> s[j].0 != key
        },
        !has_key(s, key) ==> forall|j: int| 0 <= j < s.len() ==> s[j].0 != key,
    decreases s.len(),
{
    if s.len() == 0 {
    } else if s[0].0 == key {
    } else {
        lemma_find_key(s.drop_first(), key);
        if !has_key(s, key) {
            assert forall|j: int| 0 <= j < s.len() implies s[j].0 != key by {
                if j > 0 {
                    assert(s.drop_first()[j - 1] == s[j]);
                }
            }
        } else {
            let i = find_key(s, key);
            assert(s.drop_first()[i - 1] == s[i]);
            assert forall|j: int| 0 <= j < i implies s[j].0 != key by {
                if j > 0 {
                    assert(s.drop_first()[j - 1] == s[j]);
                }
            }
        }
    }
}

/// The converse: the first index that holds `key` is what `find_key` returns.
proof fn lemma_find_key_at(s: CacheModel, key: u64, i: int)
    requires
        0 <= i < s.len(),
        s[i].0 == key,
        forall|j: int| 0 <= j < i ==> s[j].0 != key,
    ensures
        find_key(s, key) == i,
    decreases s.len(),
{
    if i == 0 {
    } else {
        assert(s.drop_first()[i - 1] == s[i]);
        assert forall|j: int| 0 <= j < i - 1 implies s.drop_first()[j].0 != key by {
            assert(s.drop_first()[j] == s[j + 1]);
        }
        lemma_find_key_at(s.drop_first(), key, i - 1);
    }
}

/// Dropping the entry at `i` (the one holding `key`) from a store with
/// distinct keys leaves distinct keys and no occurrence of `key`.
proof fn lemma_remove_entry(s: CacheModel, key: u64, i: int)
    requires
        distinct_keys(s),
        0 <= i < s.len(),
        s[i].0 == key,
    ensures
        distinct_keys(s.remove(i)),
        !has_key(s.remove(i), key),
{
    let r = s.remove(i);
    assert forall|a: int, b: int| 0 <= a < b < r.len() implies r[a].0 != r[b].0 by {
        assert(r[a] == if a < i { s[a] } else { s[a + 1] });
        assert(r[b] == if b < i { s[b] } else { s[b + 1] });
    }
    lemma_find_key(r, key);
    if has_key(r, key) {
        let j = find_key(r, key);
        assert(r[j] == if j < i { s[j] } else { s[j + 1] });
    }
}

/// Appending a fresh key to a store with distinct keys keeps them distinct.
proof fn lemma_push_fresh(s: CacheModel, key: u64, data: Seq<u8>)
    requires
        distinct_keys(s),
        !has_key(s, key),
    ensures
        distinct_keys(s.push((key, data))),
{
    lemma_find_key(s, key);
    let r = s.push((key, data));
    assert forall|a: int, b: int| 0 <= a < b < r.len() implies r[a].0 != r[b].0 by {
        if b < s.len() {
        } else {
            assert(r[b] == (key, data));
            assert(r[a] == s[a]);
        }
    }
}

/// Eviction drops a prefix: distinctness and the absence of a key carry over.
proof fn lemma_evict_preserves(s: CacheModel, need: int, cap: int, key: u64)
    requires
        distinct_keys(s),
        !has_key(s, key),
    ensures
        distinct_keys(evict_until_fits(s, need, cap)),
        !has_key(evict_until_fits(s, need, cap), key),
    decreases s.len(),
{
    lemma_find_key(s, key);
    if !(s.len() == 0 || sum_sizes(s) + need <= cap) {
        let t = s.drop_first();
        assert forall|a: int, b: int| 0 <= a < b < t.len() implies t[a].0 != t[b].0 by {
            assert(t[a] == s[a + 1]);
            assert(t[b] == s[b + 1]);
        }
        lemma_find_key(t, key);
        if has_key(t, key) {
            let i = find_key(t, key);
            assert(t[i] == s[i + 1]);
        }
        lemma_evict_preserves(t, need, cap, key);
    }
}

/// Oversize rejection: a payload larger than the whole capacity leaves the
/// store completely unchanged — no insert, no removal, no eviction.
pub proof fn lemma_put_oversize(s: CacheModel, key: u64, data: Seq<u8>, cap: int)
    requires
        data.len() > cap,
    ensures
        spec_put(s, key, data, cap) == s,
{
}

/// Strict LRU eviction: inserting a fresh entry that fits the capacity but
/// needs room, where evicting one entry suffices, drops exactly the
/// least-recently-used entry (the front of the order) and appends the new
/// entry as most-recently used. Nothing else moves.
pub proof fn lemma_put_evicts_lru(s: CacheModel, key: u64, data: Seq<u8>, cap: int)
    requires
        !has_key(s, key),
        s.len() > 0,
        data.len() <= cap,
        sum_sizes(s) + data.len() > cap,
        sum_sizes(s) - s[0].1.len() + data.len() <= cap,
    ensures
        spec_put(s, key, data, cap) == s.drop_first().push((key, data)),
{
    assert(remove_key(s, key) == s);
    assert(sum_sizes(s) == s[0].1.len() + sum_sizes(s.drop_first()));
    assert(evict_until_fits(s, data.len() as int, cap) == evict_until_fits(
        s.drop_first(),
        data.len() as int,
        cap,
    ));
    assert(evict_until_fits(s.drop_first(), data.len() as int, cap) == s.drop_first());
}

/// A freshly touched entry is protected from the next eviction: with the
/// touched entry at the most-recently-used end (where `get` and `put` place
/// it) and at least one other entry present, inserting a fresh payload that
/// needs exactly one eviction drops the front entry and keeps the touched
/// key in the store.
pub proof fn lemma_recent_entry_survives(
    s: CacheModel,
    touched: u64,
    key: u64,
    data: Seq<u8>,
    cap: int,
)
    requires
        distinct_keys(s),
        s.len() > 1,
        s.last().0 == touched,
        !has_key(s, key),
        data.len() <= cap,
        sum_sizes(s) + data.len() > cap,
        sum_sizes(s) - s[0].1.len() + data.len() <= cap,
    ensures
        has_key(spec_put(s, key, data, cap), touched),
{
    lemma_put_evicts_lru(s, key, data, cap);
    let t = s.drop_first().push((key, data));
    let w = s.len() - 2;
    assert(t[w] == s.drop_first()[w]);
    assert(s.drop_first()[w] == s[s.len() - 1]);
    lemma_find_key(t, touched);
    if !has_key(t, touched) {
        assert(t[w].0 != touched);
    }
}

/// An insertion that already fits evicts nothing: the new entry is simply
/// appended as most-recently used (after any old entry under the same key is
/// dropped).
pub proof fn lemma_put_fits(s: CacheModel, key: u64, data: Seq<u8>, cap: int)
    requires
        data.len() <= cap,
        sum_sizes(remove_key(s, key)) + data.len() <= cap,
    ensures
        spec_put(s, key, data, cap) == remove_key(s, key).push((key, data)),
{
    assert(evict_until_fits(remove_key(s, key), data.len() as int, cap) == remove_key(s, key));
}

impl Cache {
    /// The cache's contents as ordered `(key, payload)` pairs.
    pub closed spec fn model(&self) -> CacheModel {
        self.entries@.map_values(|e: Entry| (e.key, e.data@))
    }

    pub closed spec fn spec_capacity(&self) -> int {
        self.capacity as int
    }

    /// The private running size matches the model.
    pub closed spec fn total_matches(&self) -> bool {
        self.total_size as int == sum_sizes(self.model())
    }

    /// Well-formedness: the store fits in its capacity, keys are unique, and
    /// the running size is the sum of the stored payload sizes. Constructors
    /// establish it and every method preserves it.
    pub open spec fn inv(&self) -> bool {
        &&& self.total_matches()
        &&& sum_sizes(self.model()) <= self.spec_capacity()
        &&& distinct_keys(self.model())
    }

    /// The stable cache key of a `(file identifier, target size)` request:
    /// FNV-1a over the identifier's UTF-8 bytes and the size's eight
    /// little-endian bytes. Deterministic; collisions between distinct pairs
    /// are accepted as a documented risk of 64-bit hashed keys.
    pub fn make_key(file_id: &str, sample_size: usize) -> (k: u64)
        ensures
            k == spec_cache_key(file_id.spec_bytes(), sample_size as u64),
    {
        let bytes = file_id.as_bytes();
        let n = bytes.len();
        let mut h: u64 = FNV_OFFSET;
        let mut i: usize = 0;
        proof {
            assert(bytes@.subrange(0, n as int) =~= bytes@);
        }
        while i < n
            invariant
                n == bytes@.len(),
                0 <= i <= n,
                fnv1a(bytes@.subrange(i as int, n as int), h) == fnv1a(bytes@, FNV_OFFSET),
            decreases n - i,
        {
            let b = *vstd::slice::slice_index_get(bytes, i);
            proof {
                let pre = bytes@.subrange(i as int, n as int);
                assert(pre[0] == bytes@[i as int]);
                assert(pre.drop_first() =~= bytes@.subrange(i as int + 1, n as int));
            }
            h = (h ^ (b as u64)).wrapping_mul(FNV_PRIME);
            i = i + 1;
        }
        proof {
            assert(bytes@.subrange(n as int, n as int) =~= Seq::<u8>::empty());
        }
        let s = sample_size as u64;
        proof {
            assert(s & 0xff == (s as u8) as u64) by (bit_vector);
            assert((s >> 8) & 0xff == ((s >> 8) as u8) as u64) by (bit_vector);
            assert((s >> 16) & 0xff == ((s >> 16) as u8) as u64) by (bit_vector);
            assert((s >> 24) & 0xff == ((s >> 24) as u8) as u64) by (bit_vector);
            assert((s >> 32) & 0xff == ((s >> 32) as u8) as u64) by (bit_vector);
            assert((s >> 40) & 0xff == ((s >> 40) as u8) as u64) by (bit_vector);
            assert((s >> 48) & 0xff == ((s >> 48) as u8) as u64) by (bit_vector);
            assert((s >> 56) & 0xff == ((s >> 56) as u8) as u64) by (bit_vector);
        }
        h = (h ^ (s & 0xff)).wrapping_mul(FNV_PRIME);
        h = (h ^ ((s >> 8) & 0xff)).wrapping_mul(FNV_PRIME);
        h = (h ^ ((s >> 16) & 0xff)).wrapping_mul(FNV_PRIME);
        h = (h ^ ((s >> 24) & 0xff)).wrapping_mul(FNV_PRIME);
        h = (h ^ ((s >> 32) & 0xff)).wrapping_mul(FNV_PRIME);
        h = (h ^ ((s >> 40) & 0xff)).wrapping_mul(FNV_PRIME);
        h = (h ^ ((s >> 48) & 0xff)).wrapping_mul(FNV_PRIME);
        h = (h ^ ((s >> 56) & 0xff)).wrapping_mul(FNV_PRIME);
        h
    }

    /// A fresh, empty cache with the given byte capacity.
    pub fn new(capacity: usize) -> (c: Cache)
        ensures
            c.inv(),
            c.model() == Seq::<(u64, Seq<u8>)>::empty(),
            c.spec_capacity() == capacity as int,
    {
        let c = Cache { capacity, entries: Vec::new(), total_size: 0 };
        proof {
            assert(c.model() =~= Seq::<(u64, Seq<u8>)>::empty());
        }
        c
    }

    /// Position of `key` in the store, front to back.
    fn find_index(&self, key: u64) -> (r: Option<usize>)
        ensures
            match r {
                Some(i) => has_key(self.model(), key) && i == find_key(self.model(), key),
                None => !has_key(self.model(), key),
            },
    {
        let ghost s = self.model();
        let n = self.entries.len();
        let mut i: usize = 0;
        while i < n
            invariant
                n == self.entries.len(),
                s == self.model(),
                0 <= i <= n,
                forall|j: int| 0 <= j < i ==> s[j].0 != key,
            decreases n - i,
        {
            if self.entries[i].key == key {
                proof {
                    assert(s[i as int].0 == key);
                    lemma_find_key_at(s, key, i as int);
                }
                return Some(i);
            }
            proof {
                assert(s[i as int].0 != key);
            }
            i = i + 1;
        }
        proof {
            lemma_find_key(s, key);
            if has_key(s, key) {
                let j = find_key(s, key);
                assert(s[j].0 == key);
            }
        }
        None
    }

    /// Look up `key`. On a hit the entry becomes most-recently used and a
    /// copy of its payload is returned; on a miss nothing changes.
    pub fn get(&mut self, key: u64) -> (r: Option<Vec<u8>>)
        requires
            old(self).inv(),
        ensures
            final(self).inv(),
            final(self).spec_capacity() == old(self).spec_capacity(),
            match r {
                Some(d) => {
                    let i = find_key(old(self).model(), key);
                    &&& has_key(old(self).model(), key)
                    &&& d@ == old(self).model()[i].1
                    &&& final(self).model() == old(self).model().remove(i).push((key, d@))
                },
                None => {
                    &&& !has_key(old(self).model(), key)
                    &&& final(self).model() == old(self).model()
                },
            },
    {
        let ghost s0 = self.model();
        match self.find_index(key) {
            Some(i) => {
                proof {
                    lemma_find_key(s0, key);
                }
                let data = vstd::slice::slice_to_vec(self.entries[i].data.as_slice());
                let e = self.entries.remove(i);
                self.entries.push(Entry { key, data: e.data });
                proof {
                    let gi = i as int;
                    assert(self.model() =~= s0.remove(gi).push((key, data@)));
                    lemma_sum_sizes_remove(s0, gi);
                    lemma_sum_sizes_push(s0.remove(gi), (key, data@));
                    lemma_remove_entry(s0, key, gi);
                    lemma_push_fresh(s0.remove(gi), key, data@);
                }
                Some(data)
            },
            None => None,
        }
    }

    /// Insert `data` under `key` as described by [`spec_put`]: reject an
    /// oversize payload, otherwise drop any old entry under `key`, evict
    /// least-recently-used entries until the payload fits, and append it as
    /// most-recently used.
    pub fn put(&mut self, key: u64, data: Vec<u8>)
        requires
            old(self).inv(),
        ensures
            final(self).inv(),
            final(self).spec_capacity() == old(self).spec_capacity(),
            final(self).model() == spec_put(
                old(self).model(),
                key,
                data@,
                old(self).spec_capacity(),
            ),
    {
        let size = data.len();
        if size > self.capacity {
            return;
        }
        let ghost s0 = self.model();
        // Drop any entry already stored under this key.
        match self.find_index(key) {
            Some(i) => {
                proof {
                    lemma_find_key(s0, key);
                    lemma_sum_sizes_remove(s0, i as int);
                    lemma_sum_sizes_nonneg(s0.remove(i as int));
                    lemma_remove_entry(s0, key, i as int);
                }
                let e = self.entries.remove(i);
                self.total_size = self.total_size - e.data.len();
                proof {
                    assert(self.model() =~= s0.remove(i as int));
                }
            },
            None => {},
        }
        let ghost s1 = self.model();
        proof {
            assert(s1 == remove_key(s0, key));
            assert(self.total_size as int == sum_sizes(s1));
            assert(distinct_keys(s1) && !has_key(s1, key)) by {
                if has_key(s0, key) {
                    lemma_remove_entry(s0, key, find_key(s0, key));
                    lemma_find_key(s0, key);
                } else {
                    lemma_find_key(s0, key);
                }
            }
            assert(sum_sizes(s1) <= self.spec_capacity()) by {
                if has_key(s0, key) {
                    lemma_find_key(s0, key);
                    lemma_sum_sizes_remove(s0, find_key(s0, key));
                }
            }
        }
        // Evict from the least-recently-used end until the payload fits.
        while self.capacity - self.total_size < size && self.entries.len() > 0
            invariant
                self.capacity == old(self).capacity,
                size == data.len(),
                size <= self.capacity,
                self.total_size as int == sum_sizes(self.model()),
                sum_sizes(self.model()) <= self.capacity as int,
                distinct_keys(self.model()),
                !has_key(self.model(), key),
                evict_until_fits(self.model(), size as int, self.capacity as int)
                    == evict_until_fits(s1, size as int, self.capacity as int),
            decreases self.entries.len(),
        {
            let ghost sc = self.model();
            proof {
                lemma_sum_sizes_nonneg(sc.drop_first());
                lemma_evict_preserves(sc, size as int, self.capacity as int, key);
                let t = sc.drop_first();
                assert forall|a: int, b: int| 0 <= a < b < t.len() implies t[a].0 != t[b].0 by {
                    assert(t[a] == sc[a + 1]);
                    assert(t[b] == sc[b + 1]);
                }
                lemma_find_key(t, key);
                if has_key(t, key) {
                    let i = find_key(t, key);
                    assert(t[i] == sc[i + 1]);
                    lemma_find_key(sc, key);
                }
            }
            let e = self.entries.remove(0);
            self.total_size = self.total_size - e.data.len();
            proof {
                assert(self.model() =~= sc.drop_first());
            }
        }
        let ghost s2 = self.model();
        proof {
            assert(s2 == evict_until_fits(s1, size as int, self.capacity as int));
            lemma_sum_sizes_nonneg(s2);
        }
        // The payload now fits: either enough was evicted or the store is empty.
        self.entries.push(Entry { key, data });
        self.total_size = self.total_size + size;
        proof {
            assert(self.model() =~= s2.push((key, data@)));
            lemma_sum_sizes_push(s2, (key, data@));
            lemma_push_fresh(s2, key, data@);
        }
    }

    /// Drop every entry and reset the running size to zero.
    pub fn clear(&mut self)
        requires
            old(self).inv(),
        ensures
            final(self).inv(),
            final(self).spec_capacity() == old(self).spec_capacity(),
            final(self).model() == Seq::<(u64, Seq<u8>)>::empty(),
    {
        self.entries.clear();
        self.total_size = 0;
        proof {
            assert(self.model() =~= Seq::<(u64, Seq<u8>)>::empty());
        }
    }

    /// Occupancy snapshot: entry count, total payload bytes, capacity.
    pub fn stats(&self) -> (r: CacheStats)
        requires
            self.inv(),
        ensures
            r.entries == self.model().len(),
            r.total_size == sum_sizes(self.model()),
            r.capacity == self.spec_capacity(),
    {
        CacheStats {
            entries: self.entries.len(),
            total_size: self.total_size,
            capacity: self.capacity,
        }
    }
}

} // verus!
