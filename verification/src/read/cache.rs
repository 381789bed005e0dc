//! Bounded LRU cache of fixed-size data blocks, keyed by block id.
//!
//! The recency order is modelled as a sequence of `(key, bytes)` pairs:
//! index 0 is the least recently used entry, the last index the most
//! recently used one.

use vstd::prelude::*;
use linked_hash_map::LinkedHashMap;
use crate::BLOCK_SIZE;

verus! {

/// Identifier of one backup entry: (path id, snapshot number).
pub type EntryId = (usize, usize);

/// Identifier of one cached block: (entry id, block index).
pub type BlockId = (EntryId, usize);

#[verifier::external_type_specification]
#[verifier::external_body]
#[verifier::reject_recursive_types(K)]
#[verifier::reject_recursive_types(V)]
#[verifier::reject_recursive_types(S)]
pub struct ExLinkedHashMap<K, V, S>(LinkedHashMap<K, V, S>);

/// The entries of the ordered map, from least recently used (index 0) to
/// most recently used (last index).
pub uninterp spec fn lru_entries(m: &LinkedHashMap<BlockId, Vec<u8>>) -> Seq<(BlockId, Seq<u8>)>;

/// No key occurs twice in the entry sequence.
pub open spec fn lru_keys_distinct(s: Seq<(BlockId, Seq<u8>)>) -> bool {
    forall|i: int, j: int| 0 <= i < j < s.len() ==> s[i].0 != s[j].0
}

/// Some entry has the given key.
pub open spec fn lru_contains(s: Seq<(BlockId, Seq<u8>)>, k: BlockId) -> bool {
    exists|i: int| 0 <= i < s.len() && s[i].0 == k
}

/// The bytes stored under the first entry with the given key.
pub open spec fn lru_find(s: Seq<(BlockId, Seq<u8>)>, k: BlockId) -> Option<Seq<u8>>
    decreases s.len(),
{
    if s.len() == 0 {
        None
    } else if s[0].0 == k {
        Some(s[0].1)
    } else {
        lru_find(s.drop_first(), k)
    }
}

/// Index of the first entry with the given key.
pub open spec fn lru_first_index(s: Seq<(BlockId, Seq<u8>)>, k: BlockId) -> int
    decreases s.len(),
{
    if s.len() == 0 {
        0
    } else if s[0].0 == k {
        0
    } else {
        1 + lru_first_index(s.drop_first(), k)
    }
}

/// The entry sequence after the entry with key `k` moved to the
/// most-recently-used end; unchanged if `k` is absent.
pub open spec fn lru_promote(s: Seq<(BlockId, Seq<u8>)>, k: BlockId) -> Seq<(BlockId, Seq<u8>)> {
    if lru_contains(s, k) {
        s.remove(lru_first_index(s, k)).push(s[lru_first_index(s, k)])
    } else {
        s
    }
}

proof fn lemma_lru_find_at(s: Seq<(BlockId, Seq<u8>)>, k: BlockId, i: int)
    requires
        lru_keys_distinct(s),
        0 <= i < s.len(),
        s[i].0 == k,
    ensures
        lru_first_index(s, k) == i,
        lru_find(s, k) == Some(s[i].1),
        lru_contains(s, k),
    decreases s.len(),
{
    if i == 0 {
    } else {
        assert(s[0].0 != k);
        assert(s.drop_first()[i - 1] == s[i]);
        assert(lru_keys_distinct(s.drop_first())) by {
            assert(forall|a: int, b: int|
                0 <= a < b < s.drop_first().len() ==> s.drop_first()[a] == s[a + 1]
                    && s.drop_first()[b] == s[b + 1]);
        }
        lemma_lru_find_at(s.drop_first(), k, i - 1);
    }
}

proof fn lemma_lru_absent(s: Seq<(BlockId, Seq<u8>)>, k: BlockId)
    requires
        !lru_contains(s, k),
    ensures
        lru_find(s, k) is None,
    decreases s.len(),
{
    if s.len() > 0 {
        assert(s[0].0 != k);
        assert(forall|i: int|
            0 <= i < s.drop_first().len() ==> s.drop_first()[i] == s[i + 1]);
        lemma_lru_absent(s.drop_first(), k);
    }
}

/// Relies on linked_hash_map::LinkedHashMap::new: creates an empty map.
#[verifier::external_body]
fn lru_new() -> (r: LinkedHashMap<BlockId, Vec<u8>>)
    ensures
        lru_entries(&r) == Seq::<(BlockId, Seq<u8>)>::empty(),
{
    LinkedHashMap::new()
}

/// Relies on linked_hash_map::LinkedHashMap::len: the number of entries.
#[verifier::external_body]
fn lru_len(m: &LinkedHashMap<BlockId, Vec<u8>>) -> (r: usize)
    ensures
        r == lru_entries(m).len(),
{
    m.len()
}

/// Relies on linked_hash_map::LinkedHashMap::contains_key.
#[verifier::external_body]
fn lru_contains_key(m: &LinkedHashMap<BlockId, Vec<u8>>, k: BlockId) -> (r: bool)
    ensures
        r == lru_contains(lru_entries(m), k),
{
    m.contains_key(&k)
}

/// Relies on linked_hash_map::LinkedHashMap::get_refresh: on a hit the entry
/// moves to the most-recently-used end and its value is returned (cloned
/// here); on a miss nothing changes.
#[verifier::external_body]
fn lru_get_refresh(m: &mut LinkedHashMap<BlockId, Vec<u8>>, k: BlockId) -> (r: Option<Vec<u8>>)
    ensures
        match r {
            Some(v) => exists|i: int|
                0 <= i < lru_entries(old(m)).len() && lru_entries(old(m))[i] == (k, v@)
                    && lru_entries(final(m)) == lru_entries(old(m)).remove(i).push((k, v@)),
            None => !lru_contains(lru_entries(old(m)), k) && lru_entries(final(m))
                == lru_entries(old(m)),
        },
{
    m.get_refresh(&k).map(|v| v.clone())
}

/// Relies on linked_hash_map::LinkedHashMap::insert: a new key is appended at
/// the most-recently-used end; an existing key has its value replaced and its
/// entry moved to the most-recently-used end, and the old value is returned.
#[verifier::external_body]
fn lru_insert(m: &mut LinkedHashMap<BlockId, Vec<u8>>, k: BlockId, v: Vec<u8>) -> (r: Option<
    Vec<u8>,
>)
    ensures
        r is Some <==> lru_contains(lru_entries(old(m)), k),
        r is None ==> lru_entries(final(m)) == lru_entries(old(m)).push((k, v@)),
        r matches Some(ov) ==> exists|i: int|
            0 <= i < lru_entries(old(m)).len() && lru_entries(old(m))[i] == (k, ov@)
                && lru_entries(final(m)) == lru_entries(old(m)).remove(i).push((k, v@)),
{
    m.insert(k, v)
}

/// Relies on linked_hash_map::LinkedHashMap::pop_front: removes and returns
/// the least-recently-used entry.
#[verifier::external_body]
fn lru_pop_front(m: &mut LinkedHashMap<BlockId, Vec<u8>>) -> (r: Option<(BlockId, Vec<u8>)>)
    ensures
        lru_entries(old(m)).len() == 0 ==> r is None && lru_entries(final(m)) == lru_entries(
            old(m),
        ),
        lru_entries(old(m)).len() > 0 ==> (r matches Some(p) && (p.0, p.1@) == lru_entries(
            old(m),
        )[0] && lru_entries(final(m)) == lru_entries(old(m)).drop_first()),
{
    m.pop_front()
}

/// Relies on linked_hash_map::LinkedHashMap::clear: removes every entry.
#[verifier::external_body]
fn lru_clear(m: &mut LinkedHashMap<BlockId, Vec<u8>>)
    ensures
        lru_entries(final(m)) == Seq::<(BlockId, Seq<u8>)>::empty(),
{
    m.clear()
}

/// One data block: an owned byte buffer of at most `BLOCK_SIZE` bytes.
pub struct Block {
    bytes: Vec<u8>,
}

impl View for Block {
    type V = Seq<u8>;

    closed spec fn view(&self) -> Seq<u8> {
        self.bytes@
    }
}

impl Block {
    /// An empty block.
    pub fn new() -> (r: Block)
        ensures
            r@ == Seq::<u8>::empty(),
    {
        Block { bytes: Vec::new() }
    }

    /// The stored bytes.
    pub fn as_slice(&self) -> (r: &[u8])
        ensures
            r@ == self@,
    {
        self.bytes.as_slice()
    }

    /// Replaces the contents with the first `BLOCK_SIZE` bytes (at most) of
    /// `buffer`, and returns how many bytes were stored.
    pub fn write_max_block(&mut self, buffer: &[u8]) -> (r: usize)
        ensures
            r == if buffer@.len() <= BLOCK_SIZE {
                buffer@.len() as int
            } else {
                BLOCK_SIZE as int
            },
            final(self)@ == buffer@.take(r as int),
    {
        let n: usize = if buffer.len() <= BLOCK_SIZE {
            buffer.len()
        } else {
            BLOCK_SIZE
        };
        self.bytes.clear();
        let mut i: usize = 0;
        while i < n
            invariant
                i <= n,
                n <= buffer@.len(),
                self.bytes@ == buffer@.take(i as int),
            decreases n - i,
        {
            self.bytes.push(buffer[i]);
            proof {
                assert(self.bytes@ =~= buffer@.take(i + 1));
            }
            i = i + 1;
        }
        n
    }

    fn into_bytes(self) -> (r: Vec<u8>)
        ensures
            r@ == self@,
    {
        self.bytes
    }
}

/// Bounded LRU cache from block ids to blocks.
pub struct BlockCache {
    index: LinkedHashMap<BlockId, Vec<u8>>,
    max_blocks: usize,
}

impl BlockCache {
    /// The cached entries, from least to most recently used.
    pub closed spec fn entries(&self) -> Seq<(BlockId, Seq<u8>)> {
        lru_entries(&self.index)
    }

    /// The bound on the number of cached blocks.
    pub closed spec fn max(&self) -> usize {
        self.max_blocks
    }

    /// Whether a block with the given id is cached.
    pub open spec fn contains(&self, id: BlockId) -> bool {
        lru_contains(self.entries(), id)
    }

    /// The bytes cached under the given id.
    pub open spec fn bytes_of(&self, id: BlockId) -> Seq<u8> {
        lru_find(self.entries(), id).unwrap()
    }

    /// The cache never holds more entries than its bound, holds each id at
    /// most once, and every stored block is at most `BLOCK_SIZE` bytes long.
    pub open spec fn wf(&self) -> bool {
        &&& self.entries().len() <= self.max()
        &&& lru_keys_distinct(self.entries())
        &&& forall|i: int| 0 <= i < self.entries().len() ==> #[trigger] self.entries()[i].1.len()
            <= BLOCK_SIZE
    }

    /// An empty cache holding at most `max_blocks` blocks.
    pub fn new(max_blocks: usize) -> (r: BlockCache)
        ensures
            r.wf(),
            r.entries() == Seq::<(BlockId, Seq<u8>)>::empty(),
            r.max() == max_blocks,
    {
        BlockCache { index: lru_new(), max_blocks }
    }

    /// Copies the cached block for `id` into the front of `buffer` and
    /// promotes the entry to most recently used; a miss changes nothing.
    pub fn read(&mut self, id: BlockId, buffer: &mut Vec<u8>) -> (r: Option<usize>)
        requires
            old(self).wf(),
        ensures
            final(self).wf(),
            final(self).max() == old(self).max(),
            r is Some <==> old(self).contains(id),
            match r {
                None => final(self).entries() == old(self).entries() && *final(buffer)
                    == *old(buffer),
                Some(n) => {
                    let bytes = old(self).bytes_of(id);
                    &&& n == if bytes.len() <= old(buffer)@.len() {
                        bytes.len() as int
                    } else {
                        old(buffer)@.len() as int
                    }
                    &&& final(buffer)@.len() == old(buffer)@.len()
                    &&& final(buffer)@.take(n as int) == bytes.take(n as int)
                    &&& final(buffer)@.skip(n as int) == old(buffer)@.skip(n as int)
                    &&& final(self).entries() == lru_promote(old(self).entries(), id)
                },
            },
    {
        let got = lru_get_refresh(&mut self.index, id);
        match got {
            None => {
                proof {
                    lemma_lru_absent(old(self).entries(), id);
                }
                None
            },
            Some(v) => {
                proof {
                    let i = choose|i: int|
                        0 <= i < old(self).entries().len() && old(self).entries()[i] == (
                        id,
                        v@,
                        ) && self.entries() == old(self).entries().remove(i).push((id, v@));
                    lemma_lru_find_at(old(self).entries(), id, i);
                    assert(old(self).entries()[i].1 == v@);
                    assert(old(self).entries()[i] == (id, old(self).entries()[i].1));
                    assert(self.entries() =~= lru_promote(old(self).entries(), id));
                    // well-formedness of the promoted sequence
                    let p = self.entries();
                    let s = old(self).entries();
                    assert forall|a: int, b: int| 0 <= a < b < p.len() implies p[a].0 != p[b].0 by {
                        lemma_remove_push_distinct(s, i, a, b);
                    }
                    assert forall|a: int| 0 <= a < p.len() implies #[trigger] p[a].1.len()
                        <= BLOCK_SIZE by {
                        if a < p.len() - 1 {
                            assert(p[a] == if a < i {
                                s[a]
                            } else {
                                s[a + 1]
                            });
                        } else {
                            assert(p[a] == s[i]);
                        }
                    }
                }
                let n: usize = if v.len() <= buffer.len() {
                    v.len()
                } else {
                    buffer.len()
                };
                let mut i: usize = 0;
                while i < n
                    invariant
                        i <= n,
                        n <= v@.len(),
                        n <= buffer@.len(),
                        buffer@.len() == old(buffer)@.len(),
                        buffer@.take(i as int) == v@.take(i as int),
                        buffer@.skip(n as int) == old(buffer)@.skip(n as int),
                    decreases n - i,
                {
                    buffer[i] = v[i];
                    proof {
                        assert(buffer@.take(i + 1) =~= v@.take(i + 1));
                        assert(buffer@.skip(n as int) =~= old(buffer)@.skip(n as int));
                    }
                    i = i + 1;
                }
                Some(n)
            },
        }
    }

    /// Stores a new block for `id`, evicting the least recently used entry if
    /// the cache is full; an id already present, or a bound of zero, leaves
    /// the cache unchanged.
    pub fn write(&mut self, id: BlockId, buffer: &[u8]) -> (r: Option<usize>)
        requires
            old(self).wf(),
        ensures
            final(self).wf(),
            final(self).max() == old(self).max(),
            old(self).contains(id) || old(self).max() == 0 ==> r is None && final(self).entries()
                == old(self).entries(),
            !old(self).contains(id) && old(self).max() > 0 ==> {
                let stored = if buffer@.len() <= BLOCK_SIZE {
                    buffer@.len() as int
                } else {
                    BLOCK_SIZE as int
                };
                &&& r == Some(stored as usize)
                &&& final(self).entries() == (if old(self).entries().len() == old(self).max() {
                    old(self).entries().drop_first()
                } else {
                    old(self).entries()
                }).push((id, buffer@.take(stored)))
            },
    {
        if lru_contains_key(&self.index, id) {
            return None;
        }
        if self.max_blocks == 0 {
            return None;
        }
        if lru_len(&self.index) >= self.max_blocks {
            let _evicted = lru_pop_front(&mut self.index);
            proof {
                let s = old(self).entries();
                assert(forall|i: int|
                    0 <= i < s.drop_first().len() ==> s.drop_first()[i] == s[i + 1]);
            }
        }
        let mut block = Block::new();
        let stored = block.write_max_block(buffer);
        let _prev = lru_insert(&mut self.index, id, block.into_bytes());
        proof {
            let base = if old(self).entries().len() == old(self).max() {
                old(self).entries().drop_first()
            } else {
                old(self).entries()
            };
            assert(self.entries() =~= base.push((id, buffer@.take(stored as int))));
        }
        Some(stored)
    }

    /// Empties the cache.
    pub fn clear(&mut self)
        ensures
            final(self).wf(),
            final(self).max() == old(self).max(),
            final(self).entries() == Seq::<(BlockId, Seq<u8>)>::empty(),
    {
        lru_clear(&mut self.index);
    }
}

proof fn lemma_remove_push_distinct(s: Seq<(BlockId, Seq<u8>)>, i: int, a: int, b: int)
    requires
        lru_keys_distinct(s),
        0 <= i < s.len(),
        0 <= a < b < s.remove(i).push(s[i]).len(),
    ensures
        s.remove(i).push(s[i])[a].0 != s.remove(i).push(s[i])[b].0,
{
    let p = s.remove(i).push(s[i]);
    assert(p.len() == s.len());
    if b < p.len() - 1 {
        assert(p[a] == if a < i {
            s[a]
        } else {
            s[a + 1]
        });
        assert(p[b] == if b < i {
            s[b]
        } else {
            s[b + 1]
        });
    } else {
        assert(p[b] == s[i]);
        assert(p[a] == if a < i {
            s[a]
        } else {
            s[a + 1]
        });
    }
}


/// Promoting an entry reorders the cache but changes no membership and no
/// stored bytes.
pub proof fn lemma_promote_preserves_lookup(s: Seq<(BlockId, Seq<u8>)>, k: BlockId)
    requires
        lru_keys_distinct(s),
    ensures
        lru_keys_distinct(lru_promote(s, k)),
        forall|q: BlockId| lru_contains(lru_promote(s, k), q) == lru_contains(s, q),
        forall|q: BlockId| lru_contains(s, q) ==> lru_find(lru_promote(s, k), q) == lru_find(
            s,
            q,
        ),
{
    if lru_contains(s, k) {
        let j0 = choose|j: int| 0 <= j < s.len() && s[j].0 == k;
        lemma_lru_find_at(s, k, j0);
        let i = lru_first_index(s, k);
        let p = s.remove(i).push(s[i]);
        assert(lru_promote(s, k) == p);
        assert(p.len() == s.len());
        assert forall|a: int| 0 <= a < p.len() implies p[a] == (if a < i {
            s[a]
        } else if a < p.len() - 1 {
            s[a + 1]
        } else {
            s[i]
        }) by {}
        assert forall|a: int, b: int| 0 <= a < b < p.len() implies p[a].0 != p[b].0 by {
            lemma_remove_push_distinct(s, i, a, b);
        }
        assert forall|q: BlockId| lru_contains(p, q) == lru_contains(s, q) by {
            if lru_contains(s, q) {
                let j = choose|j: int| 0 <= j < s.len() && s[j].0 == q;
                let a = if j < i {
                    j
                } else if j == i {
                    p.len() - 1
                } else {
                    j - 1
                };
                assert(p[a].0 == q);
            }
            if lru_contains(p, q) {
                let a = choose|a: int| 0 <= a < p.len() && p[a].0 == q;
                let j = if a < i {
                    a
                } else if a == p.len() - 1 {
                    i
                } else {
                    a + 1
                };
                assert(s[j].0 == q);
            }
        }
        assert forall|q: BlockId| lru_contains(s, q) implies lru_find(p, q) == lru_find(s, q) by {
            let j = choose|j: int| 0 <= j < s.len() && s[j].0 == q;
            lemma_lru_find_at(s, q, j);
            let a = if j < i {
                j
            } else if j == i {
                p.len() - 1
            } else {
                j - 1
            };
            assert(p[a] == s[j]);
            lemma_lru_find_at(p, q, a);
        }
    }
}

/// With distinct keys, a lookup returns the bytes of the one entry holding
/// the key.
pub proof fn lemma_find_is_at(s: Seq<(BlockId, Seq<u8>)>, k: BlockId, j: int)
    requires
        lru_keys_distinct(s),
        0 <= j < s.len(),
        s[j].0 == k,
    ensures
        lru_find(s, k) == Some(s[j].1),
        lru_contains(s, k),
{
    lemma_lru_find_at(s, k, j);
}
} // verus!
