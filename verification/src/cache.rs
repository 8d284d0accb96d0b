use vstd::prelude::*;

use crate::KVPair;
use crate::block::LSMBlockMeta;
use crate::chars::{KeyOrder, cmp_chars, chars_of};
use crate::codec::parse_pairs;
use crate::model::{PairData, dview, pmap, lemma_pmap_dom, lemma_pmap_last_occurrence};
use crate::storage::{FileId, FileStore};

verus! {

#[verifier::external_type_specification]
#[verifier::external_body]
#[verifier::reject_recursive_types(K)]
#[verifier::reject_recursive_types(V)]
#[verifier::reject_recursive_types(S)]
pub struct ExLruCache<K, V, S>(lru::LruCache<K, V, S>);

/// The entries an LRU cache currently holds, keyed by the packed block
/// identity, each valued by the cached run of pairs.
pub type BlockLru = lru::LruCache<u64, LSMBlockCache>;

pub uninterp spec fn lru_contents(c: BlockLru) -> Map<u64, Seq<PairData>>;

/// The content map of a cache that holds nothing.
pub open spec fn no_entries() -> Map<u64, Seq<PairData>> {
    Map::empty()
}

/// The capacity an LRU cache was created with.
pub uninterp spec fn lru_cap(c: BlockLru) -> usize;

/// Relies on `lru::LruCache::new`: a fresh cache with the given capacity
/// holds nothing.
#[verifier::external_body]
fn lru_new(cap: usize) -> (fresh: BlockLru)
    requires
        cap >= 1,
    ensures
        lru_contents(fresh) == no_entries(),
        lru_cap(fresh) == cap,
{
    lru::LruCache::new(std::num::NonZeroUsize::new(cap).unwrap())
}

/// Relies on `lru::LruCache::contains`: membership without touching
/// recency or contents.
#[verifier::external_body]
fn lru_contains(c: &BlockLru, k: u64) -> (r: bool)
    ensures
        r == lru_contents(*c).contains_key(k),
{
    c.contains(&k)
}

/// Relies on `lru::LruCache::len`: the number of entries held.
#[verifier::external_body]
fn lru_len(c: &BlockLru) -> (r: usize)
    ensures
        r == lru_contents(*c).dom().len(),
{
    c.len()
}

/// Relies on `lru::LruCache::get`: returns the entry under `k` if present,
/// marking it most recently used; the set of entries is unchanged.
#[verifier::external_body]
fn lru_get<'a>(c: &'a mut BlockLru, k: u64) -> (r: Option<&'a LSMBlockCache>)
    ensures
        lru_contents(*final(c)) == lru_contents(*old(c)),
        lru_cap(*final(c)) == lru_cap(*old(c)),
        match r {
            Some(e) => lru_contents(*old(c)).contains_key(k) && e@ == lru_contents(*old(c))[k],
            None => !lru_contents(*old(c)).contains_key(k),
        },
{
    c.get(&k)
}

/// Relies on `lru::LruCache::put`: inserts or replaces the entry under `k`;
/// when a new key would exceed the capacity, the least recently used entry
/// is evicted first, so the cache never outgrows its capacity.
#[verifier::external_body]
fn lru_put(c: &mut BlockLru, k: u64, v: LSMBlockCache)
    ensures
        lru_cap(*final(c)) == lru_cap(*old(c)),
        lru_contents(*final(c)).dom().finite(),
        lru_contents(*final(c)).contains_key(k),
        lru_contents(*final(c))[k] == v@,
        forall|j: u64|
            #[trigger] lru_contents(*final(c)).contains_key(j) && j != k ==> lru_contents(
                *old(c),
            ).contains_key(j) && lru_contents(*final(c))[j] == lru_contents(*old(c))[j],
        lru_contents(*old(c)).dom().finite() ==> lru_contents(*final(c)).dom().len()
            <= lru_contents(*old(c)).dom().len() + 1,
        lru_contents(*old(c)).dom().finite() && lru_contents(*old(c)).dom().len() <= lru_cap(
            *old(c),
        ) ==> lru_contents(*final(c)).dom().len() <= lru_cap(*old(c)),
{
    let _ = c.put(k, v);
}

/// Relies on `lru::LruCache::pop`: removes the entry under `k` if present.
#[verifier::external_body]
fn lru_pop(c: &mut BlockLru, k: u64)
    ensures
        lru_cap(*final(c)) == lru_cap(*old(c)),
        lru_contents(*final(c)) == lru_contents(*old(c)).remove(k),
{
    let _ = c.pop(&k);
}

/// The packed cache key of a block identity.
pub open spec fn meta_key(origin_level: u32, block_file_id: u32) -> u64 {
    ((origin_level as int) * 0x1_0000_0000 + (block_file_id as int)) as u64
}

pub proof fn lemma_meta_key_injective(o1: u32, i1: u32, o2: u32, i2: u32)
    requires
        meta_key(o1, i1) == meta_key(o2, i2),
    ensures
        o1 == o2 && i1 == i2,
{
    assert((o1 as int) * 0x1_0000_0000 + (i1 as int) < 0x1_0000_0000_0000_0000) by (nonlinear_arith)
        requires
            o1 <= u32::MAX && i1 <= u32::MAX,
    ;
    assert((o2 as int) * 0x1_0000_0000 + (i2 as int) < 0x1_0000_0000_0000_0000) by (nonlinear_arith)
        requires
            o2 <= u32::MAX && i2 <= u32::MAX,
    ;
    assert(o1 == o2 && i1 == i2) by (nonlinear_arith)
        requires
            (o1 as int) * 0x1_0000_0000 + (i1 as int) == (o2 as int) * 0x1_0000_0000 + (
            i2 as int),
            o1 <= u32::MAX,
            o2 <= u32::MAX,
            i1 <= u32::MAX,
            i2 <= u32::MAX,
    ;
}

fn meta_key_exec(meta: LSMBlockMeta) -> (r: u64)
    ensures
        r == meta_key(meta.origin_level, meta.block_file_id),
{
    (meta.origin_level as u64) * 0x1_0000_0000u64 + (meta.block_file_id as u64)
}

/// Every cached entry reflects what its block file currently holds.
pub open spec fn cache_coherent(m: Map<u64, Seq<PairData>>, fs: Map<FileId, Seq<char>>) -> bool {
    forall|o: u32, id: u32|
        m.contains_key(#[trigger] meta_key(o, id)) ==> {
            let fid = FileId::Block { origin_level: o, block_file_id: id };
            &&& fs.contains_key(fid)
            &&& parse_pairs(fs[fid]) == Some(m[meta_key(o, id)])
        }
}

/// A fully materialized block: the run of pairs read once from its file.
pub struct LSMBlockCache {
    block_file_meta: LSMBlockMeta,
    data: Vec<KVPair>,
}

impl View for LSMBlockCache {
    type V = Seq<PairData>;

    closed spec fn view(&self) -> Seq<PairData> {
        dview(self.data@)
    }
}

impl LSMBlockCache {
    pub closed spec fn meta(&self) -> LSMBlockMeta {
        self.block_file_meta
    }

    /// Materialize the block under `block_file_meta` from its file.
    pub fn new(block_file_meta: LSMBlockMeta, fs: &FileStore) -> (c: LSMBlockCache)
        requires
            fs.wf(),
            fs@.contains_key(block_file_meta.fid()),
            parse_pairs(fs@[block_file_meta.fid()]) is Some,
        ensures
            c@ == parse_pairs(fs@[block_file_meta.fid()])->Some_0,
            c.meta() == block_file_meta,
    {
        let fid = FileId::Block {
            origin_level: block_file_meta.origin_level,
            block_file_id: block_file_meta.block_file_id,
        };
        let data = match fs.read(fid) {
            Some(d) => match crate::codec::parse_pairs_exec(d) {
                Some(ps) => ps,
                None => {
                    proof {
                        assert(false);
                    }
                    Vec::new()
                },
            },
            None => {
                proof {
                    assert(false);
                }
                Vec::new()
            },
        };
        LSMBlockCache { block_file_meta, data }
    }

    /// The value stored under `key` in this block, if any; the latest
    /// record wins if the file held a key twice.
    pub fn lookup(&self, key: &str) -> (r: Option<&String>)
        ensures
            match r {
                Some(v) => pmap(self@).contains_key(key@) && v@ == pmap(self@)[key@],
                None => !pmap(self@).contains_key(key@),
            },
    {
        let kc = chars_of(key);
        let n = self.data.len();
        let mut i: usize = n;
        while i > 0
            invariant
                i <= n,
                n == self.data@.len(),
                kc@ == key@,
                forall|j: int| i <= j < n ==> (#[trigger] dview(self.data@)[j]).0 != key@,
            decreases i,
        {
            i = i - 1;
            let ec = chars_of(self.data[i].0.as_str());
            if matches!(cmp_chars(&ec, &kc), KeyOrder::Equal) {
                proof {
                    assert(dview(self.data@)[i as int].0 == key@);
                    lemma_pmap_last_occurrence(dview(self.data@), i as int);
                }
                return Some(&self.data[i].1);
            }
            proof {
                assert((dview(self.data@)[i as int]).0 == self.data@[i as int].0@);
            }
        }
        proof {
            lemma_pmap_dom(dview(self.data@));
        }
        None
    }
}

/// The shared block cache: at most `max_cache_count` materialized blocks,
/// evicted least-recently-used first.
pub struct LSMCacheManager {
    lru: BlockLru,
    max_cache_count: usize,
}

impl LSMCacheManager {
    /// The materialized runs currently held, by packed block identity.
    pub closed spec fn contents(&self) -> Map<u64, Seq<PairData>> {
        lru_contents(self.lru)
    }

    pub closed spec fn cap(&self) -> usize {
        self.max_cache_count
    }

    pub closed spec fn wf(&self) -> bool {
        &&& lru_cap(self.lru) == self.max_cache_count
        &&& self.max_cache_count >= 1
        &&& self.contents().dom().finite()
        &&& self.contents().dom().len() <= self.max_cache_count
    }

    pub fn new(max_cache_count: usize) -> (c: LSMCacheManager)
        requires
            max_cache_count >= 1,
        ensures
            c.wf(),
            c.cap() == max_cache_count,
            c.contents() == no_entries(),
    {
        let lru = lru_new(max_cache_count);
        proof {
            assert(lru_contents(lru).dom() =~= Set::<u64>::empty());
        }
        LSMCacheManager { lru, max_cache_count }
    }

    pub fn max_cache_count(&self) -> (r: usize)
        ensures
            r == self.cap(),
    {
        self.max_cache_count
    }

    /// How many blocks are cached right now: never more than the capacity.
    pub fn cached_count(&self) -> (r: usize)
        requires
            self.wf(),
        ensures
            r == self.contents().dom().len(),
            r <= self.cap(),
    {
        lru_len(&self.lru)
    }

    /// Whether the block under `meta` is cached, without touching recency.
    pub fn is_cached(&self, meta: LSMBlockMeta) -> (r: bool)
        ensures
            r == self.contents().contains_key(meta_key(meta.origin_level, meta.block_file_id)),
    {
        lru_contains(&self.lru, meta_key_exec(meta))
    }

    /// The materialized block under `meta`: served from the cache when
    /// present, loaded from its file otherwise, evicting the least recently
    /// used entry if the cache is full.
    pub fn get_cache(&mut self, meta: LSMBlockMeta, fs: &FileStore) -> (r: &LSMBlockCache)
        requires
            old(self).wf(),
            fs.wf(),
            cache_coherent(old(self).contents(), fs@),
            fs@.contains_key(meta.fid()),
            parse_pairs(fs@[meta.fid()]) is Some,
        ensures
            final(self).wf(),
            final(self).cap() == old(self).cap(),
            cache_coherent(final(self).contents(), fs@),
            r@ == parse_pairs(fs@[meta.fid()])->Some_0,
            final(self).contents().contains_key(meta_key(meta.origin_level, meta.block_file_id)),
            old(self).contents().contains_key(meta_key(meta.origin_level, meta.block_file_id))
                ==> final(self).contents() == old(self).contents(),
            forall|j: u64|
                final(self).contents().contains_key(j) && j != meta_key(
                    meta.origin_level,
                    meta.block_file_id,
                ) ==> old(self).contents().contains_key(j) && final(self).contents()[j] == old(
                    self,
                ).contents()[j],
    {
        let k = meta_key_exec(meta);
        let ghost key = meta_key(meta.origin_level, meta.block_file_id);
        if lru_contains(&self.lru, k) {
            proof {
                assert(old(self).contents().contains_key(meta_key(
                    meta.origin_level,
                    meta.block_file_id,
                )));
            }
            match lru_get(&mut self.lru, k) {
                Some(e) => e,
                None => {
                    proof {
                        assert(false);
                    }
                    vstd::pervasive::unreached()
                },
            }
        } else {
            let entry = LSMBlockCache::new(meta, fs);
            lru_put(&mut self.lru, k, entry);
            proof {
                assert forall|o: u32, id: u32|
                    self.contents().contains_key(#[trigger] meta_key(o, id)) implies {
                    let fid = FileId::Block { origin_level: o, block_file_id: id };
                    &&& fs@.contains_key(fid)
                    &&& parse_pairs(fs@[fid]) == Some(self.contents()[meta_key(o, id)])
                } by {
                    let j = meta_key(o, id);
                    if j == key {
                        lemma_meta_key_injective(o, id, meta.origin_level, meta.block_file_id);
                        assert(self.contents()[j] == parse_pairs(fs@[meta.fid()])->Some_0);
                    } else {
                        assert(old(self).contents().contains_key(j) && self.contents()[j] == old(
                            self,
                        ).contents()[j]);
                    }
                }
            }
            match lru_get(&mut self.lru, k) {
                Some(e) => e,
                None => {
                    proof {
                        assert(false);
                    }
                    vstd::pervasive::unreached()
                },
            }
        }
    }

    /// Forget the entry for `meta`, if any: called after its block file is
    /// unlinked by a merge.
    pub fn invalidate(&mut self, meta: LSMBlockMeta)
        requires
            old(self).wf(),
        ensures
            final(self).wf(),
            final(self).cap() == old(self).cap(),
            final(self).contents() == old(self).contents().remove(
                meta_key(meta.origin_level, meta.block_file_id),
            ),
    {
        let k = meta_key_exec(meta);
        proof {
            vstd::set_lib::lemma_len_subset(
                old(self).contents().dom().remove(k),
                old(self).contents().dom(),
            );
        }
        lru_pop(&mut self.lru, k);
    }
}

} // verus!
