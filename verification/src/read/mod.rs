//! Read-side access to backup entries: block cache, block provider and
//! entry streams.

pub mod cache;

use vstd::prelude::*;
use crate::BLOCK_SIZE;
use crate::collections::{BackupChain, BackupSet, find_vol};
use crate::manifest::{Manifest, ManifestChain};
use crate::rawpath::RawPath;
use crate::read::cache::{
    lru_contains, lru_find, lru_promote, lemma_promote_preserves_lookup, BlockCache, BlockId,
    EntryId,
};

verus! {

/// How an entry's bytes are stored within a snapshot.
#[derive(Clone, Copy, PartialEq, Eq, Structural, Debug)]
pub enum DiffType {
    Snapshot,
    Signature,
    Deleted,
}

/// One entry of the signature chain: its id, how its bytes are stored, and
/// its path within the snapshot.
pub struct ChainEntry {
    pub id: EntryId,
    pub diff_type: DiffType,
    pub path: RawPath,
}

impl ChainEntry {
    /// How the entry's bytes are stored.
    pub fn diff_type(&self) -> (r: DiffType)
        ensures
            r == self.diff_type,
    {
        self.diff_type
    }

    /// The entry's path bytes.
    pub fn path_bytes(&self) -> (r: &[u8])
        ensures
            r@ == self.path@,
    {
        self.path.as_bytes()
    }
}

/// First entry of the chain with the given id.
pub open spec fn chain_find(es: Seq<(EntryId, DiffType, Seq<u8>)>, id: EntryId) -> Option<
    (EntryId, DiffType, Seq<u8>),
>
    decreases es.len(),
{
    if es.len() == 0 {
        None
    } else if es[0].0 == id {
        Some(es[0])
    } else {
        chain_find(es.drop_first(), id)
    }
}

/// The signature chain, reduced to what the read side asks of it: an oracle
/// from entry ids to their diff type and path.
pub struct Chain {
    entries: Vec<ChainEntry>,
}

impl Chain {
    /// The recorded entries.
    pub closed spec fn spec_entries(&self) -> Seq<(EntryId, DiffType, Seq<u8>)> {
        self.entries@.map_values(|e: ChainEntry| (e.id, e.diff_type, e.path@))
    }

    /// An empty chain.
    pub fn new() -> (r: Chain)
        ensures
            r.spec_entries().len() == 0,
    {
        Chain { entries: Vec::new() }
    }

    /// Records one more entry.
    pub fn add(&mut self, e: ChainEntry)
        ensures
            final(self).spec_entries() == old(self).spec_entries().push(
                (e.id, e.diff_type, e.path@),
            ),
    {
        let ghost v = (e.id, e.diff_type, e.path@);
        self.entries.push(e);
        proof {
            assert(self.spec_entries() =~= old(self).spec_entries().push(v));
        }
    }

    /// The entry with the given id, if the chain knows it.
    pub fn entry(&self, id: EntryId) -> (r: Option<&ChainEntry>)
        ensures
            match r {
                Some(e) => chain_find(self.spec_entries(), id) matches Some(t) && t == (
                    e.id,
                    e.diff_type,
                    e.path@,
                ),
                None => chain_find(self.spec_entries(), id) is None,
            },
    {
        let n = self.entries.len();
        let mut i: usize = 0;
        while i < n
            invariant
                0 <= i <= n,
                n == self.entries@.len(),
                forall|j: int| 0 <= j < i ==> (#[trigger] self.entries@[j]).id != id,
            decreases n - i,
        {
            let e = &self.entries[i];
            if e.id.0 == id.0 && e.id.1 == id.1 {
                proof {
                    assert(e.id == id);
                    lemma_chain_find_at(self.spec_entries(), id, i as int);
                }
                return Some(e);
            }
            i = i + 1;
        }
        proof {
            lemma_chain_find_none(self.spec_entries(), id);
        }
        None
    }
}

proof fn lemma_chain_find_at(es: Seq<(EntryId, DiffType, Seq<u8>)>, id: EntryId, i: int)
    requires
        0 <= i < es.len(),
        es[i].0 == id,
        forall|j: int| 0 <= j < i ==> (#[trigger] es[j]).0 != id,
    ensures
        chain_find(es, id) == Some(es[i]),
    decreases es.len(),
{
    if es[0].0 == id {
        assert(i == 0);
    } else {
        assert(es.drop_first()[i - 1] == es[i]);
        assert(forall|j: int| 0 <= j < i - 1 ==> es.drop_first()[j] == es[j + 1]);
        lemma_chain_find_at(es.drop_first(), id, i - 1);
    }
}

proof fn lemma_chain_find_none(es: Seq<(EntryId, DiffType, Seq<u8>)>, id: EntryId)
    requires
        forall|j: int| 0 <= j < es.len() ==> (#[trigger] es[j]).0 != id,
    ensures
        chain_find(es, id) is None,
    decreases es.len(),
{
    if es.len() > 0 {
        assert(forall|j: int| 0 <= j < es.drop_first().len() ==> es.drop_first()[j] == es[j + 1]);
        lemma_chain_find_none(es.drop_first(), id);
    }
}

/// Why a volume could not be located.
#[derive(Debug)]
pub enum ProviderError {
    /// No backup set with that snapshot number.
    SetNotFound(usize),
    /// The set has no file for that volume number.
    VolumeNotFound(usize),
    /// The volume is encrypted, which reading does not support.
    Encrypted,
}

/// What one read step does, relating the entry, the cache and the output
/// buffer before (`e0`, `c0`, `out0`) and after (`e1`, `c1`, `out1`):
/// buffered bytes are served first; with an empty buffer the next cached
/// block is copied out and promoted; a cache miss reads as end of stream.
pub open spec fn read_step(
    e0: Entry,
    c0: BlockCache,
    out0: Seq<u8>,
    e1: Entry,
    c1: BlockCache,
    out1: Seq<u8>,
    n: usize,
) -> bool {
    &&& e1.wf()
    &&& c1.wf()
    &&& c1.max() == c0.max()
    &&& e1.spec_type() == e0.spec_type()
    &&& out1.len() == out0.len()
    &&& if e0.buffered().len() > 0 {
        &&& n == if e0.buffered().len() <= out0.len() {
            e0.buffered().len() as int
        } else {
            out0.len() as int
        }
        &&& out1.take(n as int) == e0.buffered().take(n as int)
        &&& out1.skip(n as int) == out0.skip(n as int)
        &&& e1.buffered() == e0.buffered().skip(n as int)
        &&& e1.spec_id() == e0.spec_id()
        &&& c1.entries() == c0.entries()
    } else if c0.contains(e0.spec_id()) {
        let b = c0.bytes_of(e0.spec_id());
        &&& n == if b.len() <= out0.len() {
            b.len() as int
        } else {
            out0.len() as int
        }
        &&& out1.take(n as int) == b.take(n as int)
        &&& out1.skip(n as int) == out0.skip(n as int)
        &&& e1.buffered() == b.skip(n as int)
        &&& e1.spec_id() == (e0.spec_id().0, (e0.spec_id().1 + 1) as usize)
        &&& c1.entries() == lru_promote(c0.entries(), e0.spec_id())
    } else {
        &&& n == 0
        &&& out1 == out0
        &&& e1.buffered().len() == 0
        &&& e1.spec_id() == (e0.spec_id().0, (e0.spec_id().1 + 1) as usize)
        &&& c1.entries() == c0.entries()
    }
}

/// A readable byte stream over one backup entry, buffered one block at a
/// time; blocks come from a block cache.
pub struct Entry {
    entry_type: DiffType,
    buf: Vec<u8>,
    pos: usize,
    len: usize,
    id: BlockId,
}

impl Entry {
    /// How the entry's bytes are stored.
    pub closed spec fn spec_type(&self) -> DiffType {
        self.entry_type
    }

    /// The id of the next block to fetch.
    pub closed spec fn spec_id(&self) -> BlockId {
        self.id
    }

    /// The bytes buffered and not yet delivered.
    pub closed spec fn buffered(&self) -> Seq<u8> {
        self.buf@.subrange(self.pos as int, self.pos + self.len)
    }

    /// The scratch buffer holds one block and the window lies within it.
    pub closed spec fn wf(&self) -> bool {
        self.pos + self.len <= self.buf@.len() && self.buf@.len() == BLOCK_SIZE
    }

    /// Copies buffered bytes into the front of `out`.
    fn copy_out(&mut self, out: &mut Vec<u8>) -> (n: usize)
        requires
            old(self).wf(),
        ensures
            final(self).wf(),
            n == if old(self).buffered().len() <= old(out)@.len() {
                old(self).buffered().len() as int
            } else {
                old(out)@.len() as int
            },
            final(out)@.len() == old(out)@.len(),
            final(out)@.take(n as int) == old(self).buffered().take(n as int),
            final(out)@.skip(n as int) == old(out)@.skip(n as int),
            final(self).buffered() == old(self).buffered().skip(n as int),
            final(self).spec_id() == old(self).spec_id(),
            final(self).spec_type() == old(self).spec_type(),
    {
        let n: usize = if self.len <= out.len() {
            self.len
        } else {
            out.len()
        };
        let mut i: usize = 0;
        while i < n
            invariant
                0 <= i <= n,
                self.wf(),
                *self == *old(self),
                n <= self.len,
                n <= out@.len(),
                out@.len() == old(out)@.len(),
                out@.take(i as int) == self.buffered().take(i as int),
                out@.skip(n as int) == old(out)@.skip(n as int),
            decreases n - i,
        {
            out[i] = self.buf[self.pos + i];
            proof {
                assert(out@.take(i + 1) =~= self.buffered().take(i + 1));
                assert(out@.skip(n as int) =~= old(out)@.skip(n as int));
            }
            i = i + 1;
        }
        self.pos = self.pos + n;
        self.len = self.len - n;
        proof {
            assert(self.buffered() =~= old(self).buffered().skip(n as int));
            assert(final(out)@.take(n as int) =~= old(self).buffered().take(n as int));
        }
        n
    }

    /// Fills the buffer with the next block if the cache holds it; a miss
    /// leaves the buffer empty. Mirrors a stream-less block source: block
    /// data beyond the cache is handed in through `accept_block`.
    fn fill_block(&mut self, cache: &mut BlockCache)
        requires
            old(self).wf(),
            old(cache).wf(),
        ensures
            final(self).wf(),
            final(cache).wf(),
            final(cache).max() == old(cache).max(),
            final(self).spec_id() == old(self).spec_id(),
            final(self).spec_type() == old(self).spec_type(),
            if old(cache).contains(old(self).spec_id()) {
                &&& final(self).buffered() == old(cache).bytes_of(old(self).spec_id())
                &&& final(cache).entries() == lru_promote(
                    old(cache).entries(),
                    old(self).spec_id(),
                )
            } else {
                &&& final(self).buffered().len() == 0
                &&& final(cache).entries() == old(cache).entries()
            },
    {
        let got = cache.read(self.id, &mut self.buf);
        match got {
            Some(n) => {
                self.pos = 0;
                self.len = n;
                proof {
                    let b = old(cache).bytes_of(old(self).spec_id());
                    assert(b.len() <= BLOCK_SIZE) by {
                        let s = old(cache).entries();
                        let j = choose|j: int| 0 <= j < s.len() && s[j].0 == old(self).spec_id();
                        crate::read::cache::lemma_find_is_at(s, old(self).spec_id(), j);
                    }
                    assert(self.buffered() =~= b);
                }
            },
            None => {
                self.pos = 0;
                self.len = 0;
                proof {
                    assert(self.buffered() =~= Seq::<u8>::empty());
                }
            },
        }
    }

    /// Hands the entry the bytes of its next block, as a stream would.
    pub fn accept_block(&mut self, data: &[u8])
        requires
            old(self).wf(),
            old(self).buffered().len() == 0,
            data@.len() <= BLOCK_SIZE,
            old(self).spec_id().1 < usize::MAX,
        ensures
            final(self).wf(),
            final(self).buffered() == data@,
            final(self).spec_id() == (old(self).spec_id().0, (old(self).spec_id().1 + 1) as usize),
            final(self).spec_type() == old(self).spec_type(),
    {
        self.buf.clear();
        let mut i: usize = 0;
        while i < data.len()
            invariant
                0 <= i <= data@.len(),
                self.buf@ == data@.take(i as int),
                self.id == old(self).id,
                self.entry_type == old(self).entry_type,
            decreases data@.len() - i,
        {
            self.buf.push(data[i]);
            proof {
                assert(self.buf@ =~= data@.take(i + 1));
            }
            i = i + 1;
        }
        proof {
            assert(self.buf@ =~= data@);
        }
        let mut j: usize = self.buf.len();
        while j < BLOCK_SIZE
            invariant
                data@.len() <= j <= BLOCK_SIZE,
                j == self.buf@.len(),
                self.buf@.take(data@.len() as int) == data@,
                self.id == old(self).id,
                self.entry_type == old(self).entry_type,
            decreases BLOCK_SIZE - j,
        {
            self.buf.push(0);
            proof {
                assert(self.buf@.take(data@.len() as int) =~= data@);
            }
            j = j + 1;
        }
        self.pos = 0;
        self.len = data.len();
        self.id = (self.id.0, self.id.1 + 1);
        proof {
            assert(self.buffered() =~= data@);
        }
    }

    /// Gives the buffered bytes, filling the buffer from the cache first if
    /// it is empty.
    pub fn fill_buf<'a>(&'a mut self, cache: &mut BlockCache) -> (r: &'a [u8])
        requires
            old(self).wf(),
            old(cache).wf(),
        ensures
            final(self).wf(),
            final(cache).wf(),
            final(cache).max() == old(cache).max(),
            r@ == final(self).buffered(),
            final(self).spec_id() == old(self).spec_id(),
            old(self).buffered().len() > 0 ==> final(self).buffered() == old(self).buffered()
                && final(cache).entries() == old(cache).entries(),
            (old(self).buffered().len() == 0 && old(cache).contains(old(self).spec_id()))
                ==> (final(self).buffered() == old(cache).bytes_of(old(self).spec_id())
                && final(cache).entries() == lru_promote(
                    old(cache).entries(),
                    old(self).spec_id(),
                )),
            (old(self).buffered().len() == 0 && !old(cache).contains(old(self).spec_id()))
                ==> (final(self).buffered().len() == 0 && final(cache).entries() == old(
                    cache,
                ).entries()),
    {
        if self.len == 0 {
            self.fill_block(cache);
        }
        &self.buf[self.pos..self.pos + self.len]
    }

    /// Drops up to `amt` bytes from the front of the buffer.
    pub fn consume(&mut self, amt: usize)
        requires
            old(self).wf(),
        ensures
            final(self).wf(),
            final(self).spec_id() == old(self).spec_id(),
            final(self).spec_type() == old(self).spec_type(),
            final(self).buffered() == old(self).buffered().skip(
                if amt <= old(self).buffered().len() {
                    amt as int
                } else {
                    old(self).buffered().len() as int
                },
            ),
    {
        let n: usize = if amt <= self.len {
            amt
        } else {
            self.len
        };
        self.pos = self.pos + n;
        self.len = self.len - n;
        proof {
            assert(self.buffered() =~= old(self).buffered().skip(n as int));
        }
    }

    /// Reads up to `out.len()` bytes into the front of `out`: buffered bytes
    /// first; with an empty buffer, the next block is taken from the cache
    /// (and promoted); a cache miss reads as end of stream.
    pub fn read(&mut self, cache: &mut BlockCache, out: &mut Vec<u8>) -> (n: usize)
        requires
            old(self).wf(),
            old(cache).wf(),
            old(self).spec_id().1 < usize::MAX,
        ensures
            read_step(*old(self), *old(cache), old(out)@, *final(self), *final(cache), final(out)@, n),
    {
        if self.len > 0 {
            let n = self.copy_out(out);
            proof {
                assert(read_step(*old(self), *old(cache), old(out)@, *self, *cache, out@, n));
            }
            return n;
        }
        self.fill_block(cache);
        self.id = (self.id.0, self.id.1 + 1);
        if self.len > 0 {
            let n = self.copy_out(out);
            proof {
                assert(read_step(*old(self), *old(cache), old(out)@, *self, *cache, out@, n));
            }
            n
        } else {
            proof {
                assert(*out == *old(out));
                assert(out@.skip(0) =~= old(out)@.skip(0));
                if old(cache).contains(old(self).spec_id()) {
                    // the cached block was empty
                    let b = old(cache).bytes_of(old(self).spec_id());
                    assert(self.buffered() =~= b);
                    assert(b.len() == 0);
                    assert(out@.take(0) =~= b.take(0));
                    assert(self.buffered() =~= b.skip(0));
                }
                assert(read_step(*old(self), *old(cache), old(out)@, *self, *cache, out@, 0));
            }
            0
        }
    }
}

/// The entry's blocks 0 up to `m` are all cached and non-empty, and block
/// `m` is not cached: the cache holds the entry whole.
pub open spec fn entry_complete(c: BlockCache, eid: EntryId, m: int) -> bool {
    &&& 0 <= m < usize::MAX
    &&& forall|j: usize| j < m ==> #[trigger] c.contains((eid, j)) && c.bytes_of(
        (eid, j),
    ).len() > 0
    &&& !c.contains((eid, m as usize))
}

/// The entry's bytes: its first `m` cached blocks, in order.
pub open spec fn blocks_concat(c: BlockCache, eid: EntryId, m: int) -> Seq<u8>
    decreases m,
{
    if m <= 0 {
        Seq::empty()
    } else {
        blocks_concat(c, eid, m - 1) + c.bytes_of((eid, (m - 1) as usize))
    }
}

/// Two caches agree on every lookup.
pub open spec fn same_content(a: BlockCache, b: BlockCache) -> bool {
    forall|q: BlockId| (#[trigger] b.contains(q)) == a.contains(q) && (a.contains(q)
        ==> b.bytes_of(q) == a.bytes_of(q))
}

proof fn lemma_same_content_concat(a: BlockCache, b: BlockCache, eid: EntryId, m: int)
    requires
        same_content(a, b),
        forall|j: int| 0 <= j < m ==> #[trigger] a.contains((eid, j as usize)),
        0 <= m < usize::MAX,
    ensures
        blocks_concat(b, eid, m) == blocks_concat(a, eid, m),
    decreases m,
{
    if m > 0 {
        lemma_same_content_concat(a, b, eid, m - 1);
        assert(b.contains((eid, (m - 1) as usize)) == a.contains((eid, (m - 1) as usize)));
        assert(b.bytes_of((eid, (m - 1) as usize)) == a.bytes_of((eid, (m - 1) as usize)));
    }
}

impl Entry {
    /// Reading an entry to completion yields exactly the entry's bytes, in
    /// block order.
    #[verifier::loop_isolation(false)]
    pub fn read_to_end(&mut self, cache: &mut BlockCache) -> (r: Vec<u8>)
        requires
            old(self).wf(),
            old(cache).wf(),
            old(self).buffered().len() == 0,
            old(self).spec_id().1 == 0,
            exists|m: int| entry_complete(*old(cache), old(self).spec_id().0, m),
        ensures
            final(self).wf(),
            final(cache).wf(),
            forall|m: int| entry_complete(*old(cache), old(self).spec_id().0, m) ==> r@
                == blocks_concat(*old(cache), old(self).spec_id().0, m),
    {
        let ghost eid = self.spec_id().0;
        let ghost m = choose|m: int| entry_complete(*old(cache), eid, m);
        let mut out: Vec<u8> = Vec::new();
        let mut i0: usize = 0;
        while i0 < BLOCK_SIZE
            invariant
                out@.len() == i0,
                i0 <= BLOCK_SIZE,
            decreases BLOCK_SIZE - i0,
        {
            out.push(0);
            i0 = i0 + 1;
        }
        let mut acc: Vec<u8> = Vec::new();
        loop
            invariant
                self.wf(),
                cache.wf(),
                out@.len() == BLOCK_SIZE,
                entry_complete(*old(cache), eid, m),
                same_content(*old(cache), *cache),
                self.buffered().len() == 0,
                self.spec_id().0 == eid,
                0 <= self.spec_id().1 <= m,
                acc@ == blocks_concat(*old(cache), eid, self.spec_id().1 as int),
            decreases m - self.spec_id().1,
        {
            let ghost pre_cache = *cache;
            let ghost k = self.spec_id().1 as int;
            proof {
                if k < m {
                    let ku: usize = self.spec_id().1;
                    assert(old(cache).contains((eid, ku)));
                    assert(old(cache).bytes_of((eid, ku)).len() > 0);
                    assert(cache.contains((eid, k as usize)) == old(cache).contains(
                        (eid, k as usize),
                    ));
                } else {
                    assert(!old(cache).contains((eid, m as usize)));
                    assert(cache.contains((eid, m as usize)) == old(cache).contains(
                        (eid, m as usize),
                    ));
                }
            }
            let n = self.read(cache, &mut out);
            if n == 0 {
                proof {
                    assert(k == m) by {
                        if k < m {
                            assert(old(cache).contains((eid, k as usize)));
                            assert(old(cache).bytes_of((eid, k as usize)).len() > 0);
                            assert(pre_cache.contains((eid, k as usize)));
                            assert(pre_cache.bytes_of((eid, k as usize)) == old(cache).bytes_of(
                                (eid, k as usize),
                            ));
                        }
                    }
                    assert forall|m2: int|
                        entry_complete(*old(cache), old(self).spec_id().0, m2) implies acc@
                        == blocks_concat(*old(cache), old(self).spec_id().0, m2) by {
                        lemma_entry_complete_unique(*old(cache), eid, m, m2);
                    }
                }
                return acc;
            }
            proof {
                assert(k < m) by {
                    if k == m {
                        assert(!pre_cache.contains((eid, k as usize)));
                    }
                }
                assert(old(cache).contains((eid, k as usize)));
                assert(old(cache).bytes_of((eid, k as usize)).len() > 0);
                assert(pre_cache.contains((eid, k as usize)));
                let b = pre_cache.bytes_of((eid, k as usize));
                assert(b.len() <= BLOCK_SIZE) by {
                    let s = pre_cache.entries();
                    let j = choose|j: int| 0 <= j < s.len() && s[j].0 == (eid, k as usize);
                    crate::read::cache::lemma_find_is_at(s, (eid, k as usize), j);
                }
                assert(n == b.len());
                assert(self.buffered() =~= Seq::<u8>::empty());
            }
            let ghost prev = acc@;
            let mut i: usize = 0;
            while i < n
                invariant
                    0 <= i <= n,
                    n <= out@.len(),
                    acc@ == prev + out@.take(i as int),
                decreases n - i,
            {
                acc.push(out[i]);
                proof {
                    assert(acc@ =~= prev + out@.take(i + 1));
                }
                i = i + 1;
            }
            proof {
                let b = pre_cache.bytes_of((eid, k as usize));
                assert(out@.take(n as int) == b.take(n as int));
                assert(b.take(n as int) =~= b);
                assert(b == old(cache).bytes_of((eid, k as usize)));
                assert(acc@ =~= blocks_concat(*old(cache), eid, k + 1));
                // the promotion reordered the cache but changed no lookup
                lemma_promote_preserves_lookup(pre_cache.entries(), (eid, k as usize));
                assert forall|q: BlockId| (#[trigger] cache.contains(q)) == old(cache).contains(q)
                    && (old(cache).contains(q) ==> cache.bytes_of(q) == old(cache).bytes_of(
                    q,
                )) by {
                    assert(lru_contains(
                        lru_promote(pre_cache.entries(), (eid, k as usize)),
                        q,
                    ) == lru_contains(pre_cache.entries(), q));
                    assert(pre_cache.contains(q) == old(cache).contains(q));
                    if pre_cache.contains(q) {
                        assert(lru_find(
                            lru_promote(pre_cache.entries(), (eid, k as usize)),
                            q,
                        ) == lru_find(pre_cache.entries(), q));
                        assert(pre_cache.bytes_of(q) == old(cache).bytes_of(q));
                    }
                }
            }
        }
    }
}

proof fn lemma_entry_complete_unique(c: BlockCache, eid: EntryId, m1: int, m2: int)
    requires
        entry_complete(c, eid, m1),
        entry_complete(c, eid, m2),
    ensures
        m1 == m2,
{
    if m1 < m2 {
        assert(c.contains((eid, m1 as usize)));
    }
    if m2 < m1 {
        assert(c.contains((eid, m2 as usize)));
    }
}

/// Serves entries of a backup archive as readable streams, backed by two
/// block caches and, through the caller, by the archive's volumes.
pub struct BlockProvider<B> {
    manifests: ManifestChain,
    back: BackupChain,
    sig: Chain,
    backend: B,
    dcache: BlockCache,
    scache: BlockCache,
}

impl<B> BlockProvider<B> {
    /// The signature-chain oracle.
    pub closed spec fn spec_sig(&self) -> Seq<(EntryId, DiffType, Seq<u8>)> {
        self.sig.spec_entries()
    }

    /// The manifests, by snapshot number.
    pub closed spec fn spec_manifests(&self) -> Seq<crate::manifest::ManifestV> {
        self.manifests.spec_manifests()
    }

    /// The backup sets, by snapshot number.
    pub closed spec fn spec_sets(&self) -> Seq<BackupSet> {
        self.back.spec_sets()
    }

    /// The snapshot-data cache.
    pub closed spec fn snap_cache(&self) -> BlockCache {
        self.dcache
    }

    /// The signature-data cache.
    pub closed spec fn sig_cache(&self) -> BlockCache {
        self.scache
    }

    /// Both caches are well formed.
    pub open spec fn wf(&self) -> bool {
        self.snap_cache().wf() && self.sig_cache().wf()
    }

    /// A provider over the given chains and backend. The snapshot-data cache
    /// gets 0.4 of the cache budget, rounded, the signature cache 0.6.
    pub fn new(
        manifests: ManifestChain,
        bchain: BackupChain,
        sigchain: Chain,
        backend: B,
        cache_size: usize,
    ) -> (r: BlockProvider<B>)
        requires
            cache_size <= usize::MAX / 7,
        ensures
            r.wf(),
            r.spec_sig() == sigchain.spec_entries(),
            r.spec_manifests() == manifests.spec_manifests(),
            r.spec_sets() == bchain.spec_sets(),
            r.snap_cache().entries().len() == 0,
            r.sig_cache().entries().len() == 0,
            r.snap_cache().max() == ((4 * cache_size + 5) / 10) as usize,
            r.sig_cache().max() == ((6 * cache_size + 5) / 10) as usize,
    {
        BlockProvider {
            manifests,
            back: bchain,
            sig: sigchain,
            backend,
            dcache: BlockCache::new((4 * cache_size + 5) / 10),
            scache: BlockCache::new((6 * cache_size + 5) / 10),
        }
    }

    /// The signature chain.
    pub fn signature_chain(&self) -> (r: &Chain)
        ensures
            r.spec_entries() == self.spec_sig(),
    {
        &self.sig
    }

    /// A readable stream over the entry's bytes, if the signature chain
    /// knows the entry.
    pub fn read(&self, entry: EntryId) -> (r: Option<Entry>)
        ensures
            match r {
                Some(e) => chain_find(self.spec_sig(), entry) matches Some(t) && e.wf()
                    && e.spec_type() == t.1 && e.spec_id() == (entry, 0usize) && e.buffered().len()
                    == 0,
                None => chain_find(self.spec_sig(), entry) is None,
            },
    {
        let ce = match self.sig.entry(entry) {
            Some(ce) => ce,
            None => {
                return None;
            },
        };
        let dt = ce.diff_type();
        let mut buf: Vec<u8> = Vec::new();
        let mut i: usize = 0;
        while i < BLOCK_SIZE
            invariant
                buf@.len() == i,
                i <= BLOCK_SIZE,
            decreases BLOCK_SIZE - i,
        {
            buf.push(0);
            i = i + 1;
        }
        let e = Entry { entry_type: dt, buf, pos: 0, len: 0, id: (entry, 0) };
        proof {
            assert(e.buffered() =~= Seq::<u8>::empty());
        }
        Some(e)
    }

    /// Reads from the entry, serving blocks out of the snapshot-data cache.
    pub fn read_block(&mut self, e: &mut Entry, out: &mut Vec<u8>) -> (n: usize)
        requires
            old(self).wf(),
            old(e).wf(),
            old(e).spec_id().1 < usize::MAX,
        ensures
            final(self).wf(),
            read_step(
                *old(e),
                old(self).snap_cache(),
                old(out)@,
                *final(e),
                final(self).snap_cache(),
                final(out)@,
                n,
            ),
            final(self).sig_cache() == old(self).sig_cache(),
            final(self).spec_sig() == old(self).spec_sig(),
            final(self).spec_manifests() == old(self).spec_manifests(),
            final(self).spec_sets() == old(self).spec_sets(),
    {
        e.read(&mut self.dcache, out)
    }

    /// Stores a block freshly read from a volume in the snapshot-data cache:
    /// a new id is cached (evicting the least recently used block when the
    /// cache is full), an id already present or a zero-capacity cache leaves
    /// everything unchanged.
    pub fn store_block(&mut self, id: BlockId, data: &[u8]) -> (r: Option<usize>)
        requires
            old(self).wf(),
        ensures
            final(self).wf(),
            final(self).sig_cache() == old(self).sig_cache(),
            final(self).spec_sig() == old(self).spec_sig(),
            final(self).spec_manifests() == old(self).spec_manifests(),
            final(self).spec_sets() == old(self).spec_sets(),
            final(self).snap_cache().max() == old(self).snap_cache().max(),
            old(self).snap_cache().contains(id) || old(self).snap_cache().max() == 0 ==> r is None
                && final(self).snap_cache().entries() == old(self).snap_cache().entries(),
            !old(self).snap_cache().contains(id) && old(self).snap_cache().max() > 0 ==> {
                let stored = if data@.len() <= BLOCK_SIZE {
                    data@.len() as int
                } else {
                    BLOCK_SIZE as int
                };
                &&& r == Some(stored as usize)
                &&& final(self).snap_cache().entries() == (
                if old(self).snap_cache().entries().len() == old(self).snap_cache().max() {
                    old(self).snap_cache().entries().drop_first()
                } else {
                    old(self).snap_cache().entries()
                }).push((id, data@.take(stored)))
            },
    {
        self.dcache.write(id, data)
    }

    /// The smallest volume number of the snapshot's manifest that holds the
    /// given block of the entry; nothing when the entry or the snapshot's
    /// manifest is unknown.
    pub fn volume_of_block(&self, id: BlockId) -> (r: Option<usize>)
        ensures
            match chain_find(self.spec_sig(), id.0) {
                None => r is None,
                Some(t) => {
                    if id.0.1 >= self.spec_manifests().len() {
                        r is None
                    } else {
                        let m = self.spec_manifests()[id.0.1 as int];
                        match r {
                            Some(k) => 1 <= k <= m.volumes.len() && Manifest::spec_contains_block(
                                m.volumes[k - 1],
                                t.2,
                                id.1 as int,
                            ) && forall|j: int|
                                0 <= j < k - 1 ==> !Manifest::spec_contains_block(
                                    #[trigger] m.volumes[j],
                                    t.2,
                                    id.1 as int,
                                ),
                            None => forall|j: int|
                                0 <= j < m.volumes.len() ==> !Manifest::spec_contains_block(
                                    #[trigger] m.volumes[j],
                                    t.2,
                                    id.1 as int,
                                ),
                        }
                    }
                },
            },
    {
        let snapnum = id.0.1;
        let e = match self.sig.entry(id.0) {
            Some(e) => e,
            None => {
                return None;
            },
        };
        let m = match self.manifests.get(snapnum) {
            Some(m) => m,
            None => {
                return None;
            },
        };
        m.volume_of_block(e.path_bytes(), id.1)
    }

    /// Where the given volume's bytes live: the volume file's name and
    /// whether it must be gunzipped; the caller does the opening.
    pub fn volume_location(&self, snapnum: usize, volnum: usize) -> (r: Result<
        (String, bool),
        ProviderError,
    >)
        ensures
            match r {
                Ok(t) => snapnum < self.spec_sets().len() && (find_vol(
                    self.spec_sets()[snapnum as int].volumes@,
                    volnum as int,
                ) matches Some(i) && t.0@ == self.spec_sets()[snapnum as int].volumes@[i].1@)
                    && !self.spec_sets()[snapnum as int].encrypted && t.1 == self.spec_sets()[
                    snapnum as int
                ].compressed,
                Err(e) => match e {
                    ProviderError::SetNotFound(n) => n == snapnum && snapnum
                        >= self.spec_sets().len(),
                    ProviderError::VolumeNotFound(n) => n == volnum && snapnum
                        < self.spec_sets().len() && find_vol(
                        self.spec_sets()[snapnum as int].volumes@,
                        volnum as int,
                    ) is None,
                    ProviderError::Encrypted => snapnum < self.spec_sets().len() && find_vol(
                        self.spec_sets()[snapnum as int].volumes@,
                        volnum as int,
                    ) is Some && self.spec_sets()[snapnum as int].encrypted,
                },
            },
    {
        let set = match self.back.nth_set(snapnum) {
            Some(s) => s,
            None => {
                return Err(ProviderError::SetNotFound(snapnum));
            },
        };
        let path = match set.volume_path(volnum) {
            Some(p) => p,
            None => {
                return Err(ProviderError::VolumeNotFound(volnum));
            },
        };
        if set.is_encrypted() {
            return Err(ProviderError::Encrypted);
        }
        Ok((path.clone(), set.is_compressed()))
    }
}

} // verus!
