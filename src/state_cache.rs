//! A bounded least-recently-used cache of each guild's corpus flag.

use lru_cache::LruCache;
use std::collections::hash_map::RandomState;
use std::hash::{BuildHasher, Hash};
use vstd::prelude::*;

verus! {

#[verifier::external_type_specification]
#[verifier::external_body]
#[verifier::reject_recursive_types(K)]
#[verifier::reject_recursive_types(V)]
#[verifier::reject_recursive_types(S)]
pub struct ExLruCache<K: Eq + Hash, V, S: BuildHasher = RandomState>(LruCache<K, V, S>);

/// The entries that an LRU cache of guild flags holds.
pub uninterp spec fn lru_entries(c: LruCache<u64, bool>) -> Map<u64, bool>;

/// The capacity that an LRU cache of guild flags was made with.
pub uninterp spec fn lru_capacity(c: LruCache<u64, bool>) -> nat;

/// Relies on lru_cache's `LruCache::new`: an empty cache bounded by `capacity`.
#[verifier::external_body]
fn lru_new(capacity: usize) -> (r: LruCache<u64, bool>)
    ensures
        lru_entries(r).dom() == Set::<u64>::empty(),
        lru_capacity(r) == capacity as nat,
{
    LruCache::new(capacity)
}

/// Relies on lru_cache's `LruCache::get_mut`: the value stored under `g`, if
/// any; it only refreshes the entry's recency.
#[verifier::external_body]
fn lru_get(c: &mut LruCache<u64, bool>, g: u64) -> (r: Option<bool>)
    ensures
        lru_entries(*final(c)) == lru_entries(*old(c)),
        lru_capacity(*final(c)) == lru_capacity(*old(c)),
        r == (if lru_entries(*old(c)).contains_key(g) {
            Some(lru_entries(*old(c))[g])
        } else {
            None
        }),
{
    c.get_mut(&g).copied()
}

/// Relies on lru_cache's `LruCache::insert`: the pair is stored, and when the
/// cache then holds more than its capacity, the least recently used entry
/// leaves; with a non-zero capacity that is never the entry just stored.
#[verifier::external_body]
fn lru_insert(c: &mut LruCache<u64, bool>, g: u64, v: bool)
    ensures
        lru_capacity(*final(c)) == lru_capacity(*old(c)),
        lru_entries(*old(c)).dom().finite() ==> lru_entries(*final(c)).dom().finite(),
        lru_entries(*old(c)).contains_key(g) || lru_entries(*old(c)).len() < lru_capacity(*old(c))
            ==> lru_entries(*final(c)) == lru_entries(*old(c)).insert(g, v),
        !lru_entries(*old(c)).contains_key(g) && lru_entries(*old(c)).len() == lru_capacity(*old(c))
            ==> exists|e: u64|
            {
                &&& #[trigger] lru_entries(*old(c)).insert(g, v).contains_key(e)
                &&& (lru_capacity(*old(c)) > 0 ==> e != g)
                &&& lru_entries(*final(c)) == lru_entries(*old(c)).insert(g, v).remove(e)
            },
{
    c.insert(g, v);
}

/// What a cache holding `m` answers for guild `g`: the stored flag, or
/// `None` when the durable record has to be read.
pub open spec fn cached_state(m: Map<u64, bool>, g: u64) -> Option<bool> {
    if m.contains_key(g) {
        Some(m[g])
    } else {
        None
    }
}

/// The entries after a write of flag `on` for guild `g`: an entry that is
/// present is overwritten in place, an absent one is not created.
pub open spec fn written_through(m: Map<u64, bool>, g: u64, on: bool) -> Map<u64, bool> {
    if m.contains_key(g) {
        m.insert(g, on)
    } else {
        m
    }
}

/// The guild state cache: guild id to corpus-enabled flag, bounded, with
/// least-recently-used eviction.
pub struct MarkovStateCache {
    cache: LruCache<u64, bool>,
}

impl MarkovStateCache {
    /// The entries the cache holds.
    pub closed spec fn view(&self) -> Map<u64, bool> {
        lru_entries(self.cache)
    }

    /// The number of entries the cache may hold.
    pub closed spec fn capacity(&self) -> nat {
        lru_capacity(self.cache)
    }

    pub open spec fn wf(&self) -> bool {
        &&& self@.dom().finite()
        &&& self@.len() <= self.capacity()
    }

    /// An empty cache for at most `capacity` guilds.
    pub fn new(capacity: usize) -> (r: Self)
        ensures
            r.wf(),
            r@.dom() == Set::<u64>::empty(),
            r.capacity() == capacity as nat,
    {
        MarkovStateCache { cache: lru_new(capacity) }
    }

    /// The cached flag of guild `g`, or `None` on a miss, when the caller
    /// reads the durable record and hands it to `record`.
    pub fn lookup(&mut self, g: u64) -> (r: Option<bool>)
        requires
            old(self).wf(),
        ensures
            final(self).wf(),
            final(self)@ == old(self)@,
            final(self).capacity() == old(self).capacity(),
            r == cached_state(old(self)@, g),
    {
        lru_get(&mut self.cache, g)
    }

    /// Stores the flag read from the durable record of `g` after a miss;
    /// another entry may be evicted to make room.
    pub fn record(&mut self, g: u64, on: bool)
        requires
            old(self).wf(),
        ensures
            final(self).wf(),
            final(self).capacity() == old(self).capacity(),
            old(self).capacity() > 0 ==> cached_state(final(self)@, g) == Some(on),
            forall|h: u64|
                h != g && #[trigger] final(self)@.contains_key(h) ==> old(self)@.contains_key(h)
                    && final(self)@[h] == old(self)@[h],
    {
        let ghost m = self@;
        lru_insert(&mut self.cache, g, on);
        proof {
            if m.contains_key(g) || m.len() < self.capacity() {
                assert(self@ == m.insert(g, on));
                if !m.contains_key(g) {
                    assert(m.insert(g, on).dom() == m.dom().insert(g));
                }
            } else {
                let e = choose|e: u64|
                    {
                        &&& #[trigger] m.insert(g, on).contains_key(e)
                        &&& (self.capacity() > 0 ==> e != g)
                        &&& self@ == m.insert(g, on).remove(e)
                    };
                assert(m.insert(g, on).dom() == m.dom().insert(g));
                assert(self@.dom() == m.dom().insert(g).remove(e));
            }
        }
    }

    /// The write-through step of a state change: an entry already cached
    /// for `g` takes the new flag; no entry is created for an absent guild.
    pub fn write_through(&mut self, g: u64, on: bool)
        requires
            old(self).wf(),
        ensures
            final(self).wf(),
            final(self).capacity() == old(self).capacity(),
            final(self)@ == written_through(old(self)@, g, on),
    {
        if self.lookup(g).is_some() {
            lru_insert(&mut self.cache, g, on);
            proof {
                assert(self@.dom() == old(self)@.dom());
            }
        }
    }
}

/// A flag written through to a cached guild is what the next lookup of that
/// guild answers, without reading the durable record.
pub proof fn lemma_write_through_coherent(m: Map<u64, bool>, g: u64, on: bool)
    requires
        m.contains_key(g),
    ensures
        cached_state(written_through(m, g, on), g) == Some(on),
{
}

} // verus!
