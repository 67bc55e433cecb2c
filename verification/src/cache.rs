//! The per-thread evaluation cache: one slot per hash value, deeper
//! evaluations preferred.
use vstd::prelude::*;
use vstd::wrapping::u64_specs::wrapping_mul;
use crate::moves::equal_keys;
use crate::transposition::{next_pow2, next_power_of_two};
use crate::types::PositionKey;

verus! {

/// Default number of cache slots.
pub const DEFAULT_CACHE_ENTRIES: usize = 524288;

/// Below this many candidate moves the root is evaluated on one thread.
pub const ROOT_PARALLEL_THRESHOLD: usize = 4;

/// Counters of an evaluation cache.
#[derive(Clone, Copy, Debug, PartialEq, Eq, Structural)]
pub struct CacheStats {
    pub entries: usize,
    pub lookups: u64,
    pub hits: u64,
    pub inserts: u64,
}

/// FNV-1a over the first `n` bytes of `k`.
pub open spec fn fnv_state(k: Seq<u8>, n: nat) -> u64
    decreases n,
{
    if n == 0 {
        0xcbf29ce484222325u64
    } else {
        wrapping_mul(fnv_state(k, (n - 1) as nat) ^ (k[n - 1] as u64), 0x100000001b3u64)
    }
}

/// The cache hash of a key: FNV-1a over its bytes, then a MurmurHash3
/// finaliser round.
pub open spec fn spec_cache_hash(k: Seq<u8>) -> u64 {
    let h = fnv_state(k, 10);
    let h = h ^ (h >> 33u64);
    let h = wrapping_mul(h, 0xff51afd7ed558ccdu64);
    h ^ (h >> 33u64)
}

/// The cache hash of a position key.
pub fn hash_position_key(key: &PositionKey) -> (h: u64)
    ensures
        h == spec_cache_hash(key.0@),
{
    let mut hash: u64 = 0xcbf29ce484222325;
    let mut i: usize = 0;
    while i < 10
        invariant
            i <= 10,
            hash == fnv_state(key.0@, i as nat),
        decreases 10 - i,
    {
        hash = (hash ^ (key.0[i] as u64)).wrapping_mul(0x100000001b3);
        i = i + 1;
    }
    hash = hash ^ (hash >> 33);
    hash = hash.wrapping_mul(0xff51afd7ed558ccd);
    hash ^ (hash >> 33)
}

/// One slot of the cache: a key, its evaluation and the depth it was made at.
#[derive(Clone, Copy, Debug)]
pub struct CacheEntry<V> {
    pub key: PositionKey,
    pub eval: V,
    pub depth: u8,
}

/// The slot of a key: the low bits of its hash.
pub open spec fn cache_slot(k: Seq<u8>, mask: usize) -> int {
    ((spec_cache_hash(k) as usize) & mask) as int
}

proof fn lemma_slot_bound(hash: u64, mask: usize)
    by (bit_vector)
    ensures
        (hash as usize) & mask <= mask,
{
}

/// What a lookup of `key` at `depth` finds in a slot: the evaluation of the
/// same key made at least that deep.
pub open spec fn cache_probe<V>(e: Option<CacheEntry<V>>, key: PositionKey, depth: u8) -> Option<V> {
    match e {
        Some(x) => if x.key.0@ == key.0@ && x.depth >= depth {
            Some(x.eval)
        } else {
            None
        },
        None => None,
    }
}

/// An evaluation made at `depth` replaces what a slot holds: the slot is
/// empty or holds one made no deeper.
pub open spec fn cache_replaces<V>(e: Option<CacheEntry<V>>, depth: u8) -> bool {
    e is None || depth >= e.unwrap().depth
}

/// The slots after inserting `n` into slot `i`.
pub open spec fn cache_stored<V>(slots: Seq<Option<CacheEntry<V>>>, i: int, n: CacheEntry<V>) -> Seq<
    Option<CacheEntry<V>>,
> {
    if cache_replaces(slots[i], n.depth) {
        slots.update(i, Some(n))
    } else {
        slots
    }
}

/// An inserted evaluation is found again: looking its key up at no greater
/// depth gives it back, unless its slot held a deeper one, which stays.
pub proof fn lemma_insert_then_probe<V>(
    slots: Seq<Option<CacheEntry<V>>>,
    i: int,
    n: CacheEntry<V>,
    depth: u8,
)
    requires
        0 <= i < slots.len(),
        depth <= n.depth,
    ensures
        cache_replaces(slots[i], n.depth) ==> cache_probe(cache_stored(slots, i, n)[i], n.key, depth)
            == Some(n.eval),
        !cache_replaces(slots[i], n.depth) ==> cache_stored(slots, i, n) == slots,
        forall|j: int| 0 <= j < slots.len() && j != i ==> cache_stored(slots, i, n)[j] == slots[j],
{
}

/// A direct-mapped cache of evaluations `V` keyed by position.
pub struct EvalCache<V> {
    entries: Vec<Option<CacheEntry<V>>>,
    mask: usize,
    lookups: u64,
    hits: u64,
    inserts: u64,
}

impl<V: Copy> EvalCache<V> {
    /// The slots of the cache.
    pub closed spec fn slots(&self) -> Seq<Option<CacheEntry<V>>> {
        self.entries@
    }

    /// The slot a key goes to.
    pub closed spec fn slot(&self, k: PositionKey) -> int {
        cache_slot(k.0@, self.mask)
    }

    /// The counters of the cache.
    pub closed spec fn counters(&self) -> (u64, u64, u64) {
        (self.lookups, self.hits, self.inserts)
    }

    /// The cache is well formed: one slot per mask value.
    pub closed spec fn wf(&self) -> bool {
        self.entries@.len() == self.mask + 1
    }

    /// Every key goes to one of the cache's slots.
    pub proof fn lemma_slot_in_range(&self, k: PositionKey)
        requires
            self.wf(),
        ensures
            0 <= self.slot(k) < self.slots().len(),
    {
        lemma_slot_bound(spec_cache_hash(k.0@), self.mask);
    }

    /// An empty cache with `capacity` rounded up to a power of two, at
    /// least 2, slots.
    pub fn new(capacity: usize) -> (c: Self)
        requires
            capacity <= usize::MAX / 2 + 1,
        ensures
            c.wf(),
            c.slots().len() == if next_pow2(capacity as nat) >= 2 {
                next_pow2(capacity as nat)
            } else {
                2
            },
            forall|i: int| 0 <= i < c.slots().len() ==> c.slots()[i] is None,
            c.counters() == (0u64, 0u64, 0u64),
    {
        let p = next_power_of_two(capacity);
        let n = if p >= 2 {
            p
        } else {
            2
        };
        let mut entries: Vec<Option<CacheEntry<V>>> = Vec::with_capacity(n);
        while entries.len() < n
            invariant
                entries@.len() <= n,
                forall|i: int| 0 <= i < entries@.len() ==> entries@[i] is None,
            decreases n - entries@.len(),
        {
            entries.push(None);
        }
        EvalCache { entries, mask: n - 1, lookups: 0, hits: 0, inserts: 0 }
    }

    fn index(&self, key: &PositionKey) -> (i: usize)
        requires
            self.wf(),
        ensures
            i == self.slot(*key),
            i < self.entries@.len(),
    {
        let h = hash_position_key(key);
        proof {
            lemma_slot_bound(h, self.mask);
        }
        (h as usize) & self.mask
    }

    /// Look a key up: a hit is a slot holding the same key evaluated at
    /// least `depth` deep.
    pub fn lookup(&mut self, key: &PositionKey, depth: u8) -> (r: Option<V>)
        requires
            old(self).wf(),
            old(self).counters().0 < u64::MAX,
            old(self).counters().1 < u64::MAX,
        ensures
            final(self).wf(),
            final(self).slots() == old(self).slots(),
            forall|k: PositionKey| #[trigger] final(self).slot(k) == old(self).slot(k),
            r == cache_probe(old(self).slots()[old(self).slot(*key)], *key, depth),
            final(self).counters() == (
                (old(self).counters().0 + 1) as u64,
                (old(self).counters().1 + if r is Some { 1int } else { 0int }) as u64,
                old(self).counters().2,
            ),
    {
        self.lookups = self.lookups + 1;
        let index = self.index(key);
        match self.entries[index] {
            Some(entry) => {
                if equal_keys(&entry.key, key) && entry.depth >= depth {
                    self.hits = self.hits + 1;
                    Some(entry.eval)
                } else {
                    None
                }
            },
            None => None,
        }
    }

    /// Store an evaluation, unless its slot holds one made deeper.
    pub fn insert(&mut self, key: PositionKey, depth: u8, eval: V)
        requires
            old(self).wf(),
            old(self).counters().2 < u64::MAX,
        ensures
            final(self).wf(),
            forall|k: PositionKey| #[trigger] final(self).slot(k) == old(self).slot(k),
            final(self).slots() == cache_stored(old(self).slots(), old(self).slot(key), CacheEntry { key, eval, depth }),
            final(self).counters() == (
                old(self).counters().0,
                old(self).counters().1,
                (old(self).counters().2 + if cache_replaces(old(self).slots()[old(self).slot(key)], depth) {
                    1int
                } else {
                    0int
                }) as u64,
            ),
    {
        let index = self.index(&key);
        let replace = match self.entries[index] {
            Some(entry) => depth >= entry.depth,
            None => true,
        };
        if replace {
            self.entries.set(index, Some(CacheEntry { key, eval, depth }));
            self.inserts = self.inserts + 1;
        }
    }

    /// The cache's size and counters.
    pub fn stats(&self) -> (s: CacheStats)
        ensures
            s == (CacheStats {
                entries: self.slots().len() as usize,
                lookups: self.counters().0,
                hits: self.counters().1,
                inserts: self.counters().2,
            }),
    {
        CacheStats {
            entries: self.entries.len(),
            lookups: self.lookups,
            hits: self.hits,
            inserts: self.inserts,
        }
    }
}

} // verus!
