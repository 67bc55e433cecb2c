//! The transposition table of the search and the position hash it is keyed by.
use vstd::prelude::*;
use vstd::wrapping::u64_specs::{wrapping_add, wrapping_mul};
use crate::types::PositionKey;

verus! {

/// One step of the SplitMix64 generator: a bijective mix of a 64-bit value.
pub open spec fn spec_splitmix64(value: u64) -> u64 {
    let v = wrapping_add(value, 0x9e37_79b9_7f4a_7c15u64);
    let v = wrapping_mul(v ^ (v >> 30u64), 0xbf58_476d_1ce4_e5b9u64);
    let v = wrapping_mul(v ^ (v >> 27u64), 0x94d0_49bb_1331_11ebu64);
    v ^ (v >> 31u64)
}

/// Mix a 64-bit value as SplitMix64 does.
pub fn splitmix64(value: u64) -> (r: u64)
    ensures
        r == spec_splitmix64(value),
{
    let v = value.wrapping_add(0x9e37_79b9_7f4a_7c15);
    let v = (v ^ (v >> 30)).wrapping_mul(0xbf58_476d_1ce4_e5b9);
    let v = (v ^ (v >> 27)).wrapping_mul(0x94d0_49bb_1331_11eb);
    v ^ (v >> 31)
}

/// `h` rotated left by 7 bits.
pub open spec fn rotl7(h: u64) -> u64 {
    (h << 7u64) | (h >> 57u64)
}

/// The value mixed in for byte `b` at index `idx` of a key.
pub open spec fn zobrist_seed(b: u8, idx: u64) -> u64 {
    wrapping_add(((b as u64) << 8u64) ^ idx ^ 0xa5a5_a5a5_a5a5_a5a5u64, idx << 32u64)
}

/// The running hash after the first `n` bytes of `k`.
pub open spec fn zobrist_state(k: Seq<u8>, n: nat) -> u64
    decreases n,
{
    if n == 0 {
        0x9e37_79b9_7f4a_7c15u64
    } else {
        let h = zobrist_state(k, (n - 1) as nat) ^ spec_splitmix64(
            zobrist_seed(k[n - 1], (n - 1) as u64),
        );
        wrapping_mul(rotl7(h), 0x9e37_79b9_7f4a_7c15u64)
    }
}

/// The Zobrist-style hash of a position key.
pub open spec fn spec_zobrist(k: Seq<u8>) -> u64 {
    let h = zobrist_state(k, 10);
    h ^ (h >> 32u64)
}

/// Zobrist-style hash of a position key: a SplitMix64 expansion over every
/// byte and index, independent of the evaluation cache's hash.
pub fn zobrist_hash(key: &PositionKey) -> (h: u64)
    ensures
        h == spec_zobrist(key.0@),
{
    let mut hash: u64 = 0x9e37_79b9_7f4a_7c15;
    let mut idx: usize = 0;
    while idx < 10
        invariant
            idx <= 10,
            hash == zobrist_state(key.0@, idx as nat),
        decreases 10 - idx,
    {
        let byte = key.0[idx];
        let i = idx as u64;
        let seed = ((byte as u64) << 8) ^ i ^ 0xa5a5_a5a5_a5a5_a5a5;
        hash = hash ^ splitmix64(seed.wrapping_add(i << 32));
        hash = ((hash << 7) | (hash >> 57)).wrapping_mul(0x9e37_79b9_7f4a_7c15);
        idx = idx + 1;
    }
    hash ^ (hash >> 32)
}

/// How a stored score bounds the true value of a position.
#[derive(Clone, Copy, Debug, PartialEq, Eq, Structural)]
pub enum TTFlag {
    Exact,
    LowerBound,
    UpperBound,
}

/// One slot of the transposition table; `E` is the score type.
#[derive(Clone, Copy, Debug, PartialEq)]
pub struct TTEntry<E> {
    pub key_hash: u64,
    pub depth: u8,
    pub flag: TTFlag,
    pub eval: E,
    pub best_move_idx: u16,
    pub age: u8,
}

/// The smallest power of two that is at least `p` times a power of two
/// and at least `n`, doubling from `p`.
pub open spec fn pow2_from(n: nat, p: nat) -> nat
    decreases (if p >= n { 0 } else { n - p }),
    when p >= 1
{
    if p >= n {
        p
    } else {
        pow2_from(n, 2 * p)
    }
}

/// The smallest power of two that is at least `n` (1 for 0).
pub open spec fn next_pow2(n: nat) -> nat {
    pow2_from(n, 1)
}

proof fn lemma_pow2_from_bounds(n: nat, p: nat)
    requires
        p >= 1,
    ensures
        pow2_from(n, p) >= n,
        pow2_from(n, p) >= p,
        p < n ==> pow2_from(n, p) < 2 * n,
    decreases (if p >= n { 0 } else { n - p }),
{
    if p < n {
        lemma_pow2_from_bounds(n, 2 * p);
    }
}

/// The smallest power of two that is at least `n` (1 for 0), as std's
/// `next_power_of_two` computes it.
pub fn next_power_of_two(n: usize) -> (p: usize)
    requires
        n <= usize::MAX / 2 + 1,
    ensures
        p == next_pow2(n as nat),
        p >= n,
        p >= 1,
{
    let mut p: usize = 1;
    proof {
        lemma_pow2_from_bounds(n as nat, 1);
    }
    while p < n
        invariant
            p >= 1,
            n <= usize::MAX / 2 + 1,
            pow2_from(n as nat, p as nat) == next_pow2(n as nat),
            p < n ==> p <= usize::MAX / 2,
        decreases (if p >= n { 0 } else { n - p }),
    {
        proof {
            lemma_pow2_from_bounds(n as nat, p as nat);
        }
        p = p * 2;
        proof {
            assert(p < n ==> p <= usize::MAX / 2);
        }
    }
    proof {
        lemma_pow2_from_bounds(n as nat, p as nat);
    }
    p
}

/// The slot of a hash: its low bits under the mask.
pub open spec fn slot_of(hash: u64, mask: usize) -> int {
    ((hash as usize) & mask) as int
}

proof fn lemma_slot_bound(hash: u64, mask: usize)
    by (bit_vector)
    ensures
        (hash as usize) & mask <= mask,
{
}

/// What a lookup of `hash` at `depth` finds in a slot: the score, flag and
/// best move of an entry for the same hash searched at least as deep.
pub open spec fn tt_probe<E>(e: Option<TTEntry<E>>, hash: u64, depth: u8) -> Option<(E, TTFlag, u16)> {
    match e {
        Some(x) => if x.key_hash == hash && x.depth >= depth {
            Some((x.eval, x.flag, x.best_move_idx))
        } else {
            None
        },
        None => None,
    }
}

/// The slots after a lookup: a hit re-stamps its entry with the age.
pub open spec fn tt_touch<E>(slots: Seq<Option<TTEntry<E>>>, i: int, hash: u64, depth: u8, age: u8) -> Seq<
    Option<TTEntry<E>>,
> {
    if tt_probe(slots[i], hash, depth) is Some {
        slots.update(i, Some(TTEntry { age, ..slots[i].unwrap() }))
    } else {
        slots
    }
}

/// The slots after storing `n` in slot `i`: a deeper entry there stays,
/// re-stamped with the new entry's age; otherwise `n` takes the slot.
pub open spec fn tt_stored<E>(slots: Seq<Option<TTEntry<E>>>, i: int, n: TTEntry<E>) -> Seq<
    Option<TTEntry<E>>,
> {
    match slots[i] {
        Some(x) => if n.depth < x.depth {
            slots.update(i, Some(TTEntry { age: n.age, ..x }))
        } else {
            slots.update(i, Some(n))
        },
        None => slots.update(i, Some(n)),
    }
}

/// A stored result is found again: looking its hash up at no greater depth
/// than it was stored with gives back its score, flag and best move, unless
/// its slot held a deeper entry, which then stays and answers for it when
/// it has the same hash.
pub proof fn lemma_store_then_probe<E>(slots: Seq<Option<TTEntry<E>>>, i: int, n: TTEntry<E>, depth: u8)
    requires
        0 <= i < slots.len(),
        depth <= n.depth,
    ensures
        (slots[i] is None || n.depth >= slots[i].unwrap().depth) ==> tt_probe(
            tt_stored(slots, i, n)[i],
            n.key_hash,
            depth,
        ) == Some((n.eval, n.flag, n.best_move_idx)),
        (slots[i] is Some && n.depth < slots[i].unwrap().depth) ==> tt_probe(
            tt_stored(slots, i, n)[i],
            n.key_hash,
            depth,
        ) == tt_probe(slots[i], n.key_hash, depth),
        forall|j: int| 0 <= j < slots.len() && j != i ==> tt_stored(slots, i, n)[j] == slots[j],
{
}

/// A fixed-size, depth-preferred transposition table with ageing.
pub struct TranspositionTable<E> {
    entries: Vec<Option<TTEntry<E>>>,
    age: u8,
    mask: usize,
    hits: u64,
    lookups: u64,
}

impl<E: Copy> TranspositionTable<E> {
    /// The slots of the table.
    pub closed spec fn slots(&self) -> Seq<Option<TTEntry<E>>> {
        self.entries@
    }

    /// The age that stores and hits stamp on entries.
    pub closed spec fn spec_age(&self) -> u8 {
        self.age
    }

    /// The slot a hash goes to.
    pub closed spec fn slot(&self, hash: u64) -> int {
        slot_of(hash, self.mask)
    }

    /// Number of successful lookups since the last clear.
    pub closed spec fn spec_hits(&self) -> u64 {
        self.hits
    }

    /// Number of lookups since the last clear.
    pub closed spec fn spec_lookups(&self) -> u64 {
        self.lookups
    }

    /// The table is well formed: one slot per mask value.
    pub closed spec fn wf(&self) -> bool {
        self.entries@.len() == self.mask + 1
    }

    /// Every hash goes to one of the table's slots.
    pub proof fn lemma_slot_in_range(&self, hash: u64)
        requires
            self.wf(),
        ensures
            0 <= self.slot(hash) < self.slots().len(),
    {
        lemma_slot_bound(hash, self.mask);
    }

    /// An empty table with `capacity` rounded up to a power of two, at
    /// least 2, slots.
    pub fn new(capacity: usize) -> (t: Self)
        requires
            capacity <= usize::MAX / 2 + 1,
        ensures
            t.wf(),
            t.slots().len() == if next_pow2(capacity as nat) >= 2 {
                next_pow2(capacity as nat)
            } else {
                2
            },
            forall|i: int| 0 <= i < t.slots().len() ==> t.slots()[i] is None,
            t.spec_age() == 0,
            t.spec_hits() == 0,
            t.spec_lookups() == 0,
    {
        let p = next_power_of_two(capacity);
        let capacity = if p >= 2 {
            p
        } else {
            2
        };
        let mut entries: Vec<Option<TTEntry<E>>> = Vec::with_capacity(capacity);
        while entries.len() < capacity
            invariant
                entries@.len() <= capacity,
                forall|i: int| 0 <= i < entries@.len() ==> entries@[i] is None,
            decreases capacity - entries@.len(),
        {
            entries.push(None);
        }
        TranspositionTable { entries, age: 0, mask: capacity - 1, hits: 0, lookups: 0 }
    }

    fn index(&self, hash: u64) -> (i: usize)
        requires
            self.wf(),
        ensures
            i == self.slot(hash),
            i < self.entries@.len(),
    {
        proof {
            lemma_slot_bound(hash, self.mask);
        }
        (hash as usize) & self.mask
    }

    /// Look a hash up: on a hit (the slot holds the same hash, searched at
    /// least `depth` deep) the entry is re-stamped with the current age and
    /// its score, flag and best move come back.
    pub fn lookup(&mut self, hash: u64, depth: u8, _ply: u8) -> (r: Option<(E, TTFlag, u16)>)
        requires
            old(self).wf(),
            old(self).spec_lookups() < u64::MAX,
            old(self).spec_hits() < u64::MAX,
        ensures
            final(self).wf(),
            final(self).spec_age() == old(self).spec_age(),
            final(self).spec_lookups() == old(self).spec_lookups() + 1,
            forall|h: u64| #[trigger] final(self).slot(h) == old(self).slot(h),
            r == tt_probe(old(self).slots()[old(self).slot(hash)], hash, depth),
            final(self).slots() == tt_touch(old(self).slots(), old(self).slot(hash), hash, depth, old(self).spec_age()),
            final(self).spec_hits() == old(self).spec_hits() + if r is Some { 1int } else { 0int },
    {
        self.lookups = self.lookups + 1;
        let index = self.index(hash);
        match self.entries[index] {
            Some(entry) => {
                if entry.key_hash == hash && entry.depth >= depth {
                    let updated = TTEntry { age: self.age, ..entry };
                    self.entries.set(index, Some(updated));
                    self.hits = self.hits + 1;
                    Some((entry.eval, entry.flag, entry.best_move_idx))
                } else {
                    None
                }
            },
            None => None,
        }
    }

    /// Store a search result. A shallower result never replaces a deeper
    /// entry in its slot (that entry is only re-stamped with the current
    /// age); otherwise the slot gets the new entry.
    pub fn store(&mut self, hash: u64, depth: u8, flag: TTFlag, eval: E, best_move_idx: u16, _ply: u8)
        requires
            old(self).wf(),
        ensures
            final(self).wf(),
            final(self).spec_age() == old(self).spec_age(),
            final(self).spec_hits() == old(self).spec_hits(),
            final(self).spec_lookups() == old(self).spec_lookups(),
            forall|h: u64| #[trigger] final(self).slot(h) == old(self).slot(h),
            final(self).slots() == tt_stored(
                old(self).slots(),
                old(self).slot(hash),
                TTEntry { key_hash: hash, depth, flag, eval, best_move_idx, age: old(self).spec_age() },
            ),
    {
        let index = self.index(hash);
        match self.entries[index] {
            Some(entry) if depth < entry.depth => {
                let updated = TTEntry { age: self.age, ..entry };
                self.entries.set(index, Some(updated));
            },
            _ => {
                self.entries.set(
                    index,
                    Some(TTEntry { key_hash: hash, depth, flag, eval, best_move_idx, age: self.age }),
                );
            },
        }
    }

    /// Empty every slot and reset the hit and lookup counts.
    pub fn clear(&mut self)
        requires
            old(self).wf(),
        ensures
            final(self).wf(),
            final(self).slots().len() == old(self).slots().len(),
            forall|i: int| 0 <= i < final(self).slots().len() ==> final(self).slots()[i] is None,
            forall|h: u64| #[trigger] final(self).slot(h) == old(self).slot(h),
            final(self).spec_age() == old(self).spec_age(),
            final(self).spec_hits() == 0,
            final(self).spec_lookups() == 0,
    {
        let mut i: usize = 0;
        while i < self.entries.len()
            invariant
                self.wf(),
                self.mask == old(self).mask,
                self.age == old(self).age,
                self.entries@.len() == old(self).entries@.len(),
                i <= self.entries@.len(),
                forall|j: int| 0 <= j < i ==> self.entries@[j] is None,
            decreases self.entries@.len() - i,
        {
            self.entries.set(i, None);
            i = i + 1;
        }
        self.hits = 0;
        self.lookups = 0;
    }

    /// Start a new search: the age moves on by one, wrapping.
    pub fn new_search(&mut self)
        requires
            old(self).wf(),
        ensures
            final(self).wf(),
            final(self).slots() == old(self).slots(),
            forall|h: u64| #[trigger] final(self).slot(h) == old(self).slot(h),
            final(self).spec_age() == vstd::wrapping::u8_specs::wrapping_add(old(self).spec_age(), 1),
            final(self).spec_hits() == old(self).spec_hits(),
            final(self).spec_lookups() == old(self).spec_lookups(),
    {
        self.age = self.age.wrapping_add(1);
    }

    /// The hit and lookup counts.
    pub fn stats(&self) -> (s: (u64, u64))
        ensures
            s == (self.spec_hits(), self.spec_lookups()),
    {
        (self.hits, self.lookups)
    }
}

} // verus!
