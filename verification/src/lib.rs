#![allow(unused_imports)]

use vstd::prelude::*;

mod chars;
mod model;
mod storage;
mod codec;
mod block;
mod cache;
mod merge;
mod metadata;
mod level;

pub use block::{LSMBlock, LSMBlockMeta, block_fid, block_pairs, block_wf, overlaps, lex_le, block_file_name_spec};
pub use cache::{LSMBlockCache, LSMCacheManager, cache_coherent, meta_key};
pub use codec::{BlockInfo, encode_pairs, parse_pairs, encode_manifest, parse_manifest, encode_pairs_exec, parse_pairs_exec, lemma_parse_encode_pairs};
pub use level::{LSMLevel, FileIdManager, blocks_v, block_runs, blocks_wf, level_view, manifest_file_name_spec, fids_distinct, fresh_block_ids, fs_extends, additions_are_blocks};
pub use merge::{merge_runs, runs_view, runs_total};
pub use metadata::ManifestUpdate;
pub use model::{PairData, dview, pmap, pmap_all, sorted_strict, pairs_wf, pair_wf, valid_text, key_set};
pub use storage::{FileId, FileStore};

verus! {

/// An ordered key/value pair; the key decides ordering and identity, the
/// value is payload.
#[derive(Debug, Clone)]
pub struct KVPair(pub String, pub String);

impl View for KVPair {
    type V = (Seq<char>, Seq<char>);

    open spec fn view(&self) -> (Seq<char>, Seq<char>) {
        (self.0@, self.1@)
    }
}

/// The tuning parameters of a store.
#[derive(Debug, Clone)]
pub struct LSMConfig {
    pub db_name: String,
    pub level1_size: usize,
    pub level2_size: usize,
    pub size_scale: usize,
    pub block_size: usize,
    pub merge_step_size: usize,
    pub max_cache_size: usize,
}

/// The parameter constraints fatal at construction.
pub open spec fn config_wf(c: LSMConfig) -> bool {
    &&& c.size_scale >= 2
    &&& c.merge_step_size <= c.level2_size
    &&& c.block_size >= 1
    &&& c.merge_step_size >= 1
    &&& c.level1_size >= 1
    &&& c.level2_size >= 1
    &&& c.max_cache_size >= 1
}

/// The block capacity of a level: `level1_size` for the first level, then
/// `level2_size` grown geometrically.
pub open spec fn level_size_max_spec(c: LSMConfig, level: int) -> int
    decreases level,
{
    if level <= 1 {
        c.level1_size as int
    } else if level == 2 {
        (c.level2_size * c.size_scale) as int
    } else {
        level_size_max_spec(c, level - 1) * c.size_scale
    }
}

impl LSMConfig {
    /// Build a configuration.  Out-of-range parameters are contract
    /// errors, fatal at construction: the growth factor must be at least
    /// two, a merge step can never exceed the base capacity of the second
    /// level, and the remaining bounds keep every quantity meaningful —
    /// blocks are never empty, a cascade step always moves at least one
    /// block, and every level and the cache can hold something.
    pub fn new(
        db_name: String,
        level1_size: usize,
        level2_size: usize,
        size_scale: usize,
        block_size: usize,
        merge_step_size: usize,
        max_cache_size: usize,
    ) -> (c: LSMConfig)
        requires
            size_scale >= 2,
            merge_step_size <= level2_size,
            block_size >= 1,
            merge_step_size >= 1,
            level1_size >= 1,
            level2_size >= 1,
            max_cache_size >= 1,
        ensures
            config_wf(c),
            c.db_name@ == db_name@,
            c.level1_size == level1_size,
            c.level2_size == level2_size,
            c.size_scale == size_scale,
            c.block_size == block_size,
            c.merge_step_size == merge_step_size,
            c.max_cache_size == max_cache_size,
    {
        LSMConfig {
            db_name,
            level1_size,
            level2_size,
            size_scale,
            block_size,
            merge_step_size,
            max_cache_size,
        }
    }

    /// The small geometry the concrete scenarios run on.
    pub fn testing(db_name: String) -> (c: LSMConfig)
        ensures
            config_wf(c),
            c.db_name@ == db_name@,
            c.level1_size == 2 && c.level2_size == 4 && c.size_scale == 2 && c.block_size == 8
                && c.merge_step_size == 2 && c.max_cache_size == 16,
    {
        LSMConfig::new(db_name, 2, 4, 2, 8, 2, 16)
    }

    /// The block capacity of a level, saturating at the machine limit.
    pub fn level_size_max(&self, level: usize) -> (r: usize)
        requires
            config_wf(*self),
            level >= 1,
        ensures
            (r == level_size_max_spec(*self, level as int) && level_size_max_spec(
                *self,
                level as int,
            ) <= usize::MAX) || (r == usize::MAX && level_size_max_spec(*self, level as int)
                >= usize::MAX),
    {
        if level == 1 {
            return self.level1_size;
        }
        let mut cap: usize = self.mul_sat(self.level2_size, self.size_scale);
        let mut l: usize = 2;
        while l < level
            invariant
                2 <= l <= level,
                config_wf(*self),
                (cap == level_size_max_spec(*self, l as int) && level_size_max_spec(*self, l as int)
                    <= usize::MAX) || (cap == usize::MAX && level_size_max_spec(*self, l as int)
                    >= usize::MAX),
            decreases level - l,
        {
            proof {
                lemma_level_size_max_pos(*self, l as int);
                if cap == usize::MAX && level_size_max_spec(*self, l as int) >= usize::MAX {
                    vstd::arithmetic::mul::lemma_mul_inequality(
                        usize::MAX as int,
                        level_size_max_spec(*self, l as int),
                        self.size_scale as int,
                    );
                    vstd::arithmetic::mul::lemma_mul_inequality(
                        1,
                        self.size_scale as int,
                        usize::MAX as int,
                    );
                    vstd::arithmetic::mul::lemma_mul_is_commutative(
                        self.size_scale as int,
                        usize::MAX as int,
                    );
                }
            }
            cap = self.mul_sat(cap, self.size_scale);
            l = l + 1;
        }
        cap
    }

    /// `a * b`, saturating at the machine limit.
    fn mul_sat(&self, a: usize, b: usize) -> (r: usize)
        requires
            b >= 1,
        ensures
            (r == a * b && a * b <= usize::MAX) || (r == usize::MAX && a * b >= usize::MAX),
    {
        let q = usize::MAX / b;
        proof {
            vstd::arithmetic::div_mod::lemma_fundamental_div_mod(usize::MAX as int, b as int);
            vstd::arithmetic::div_mod::lemma_mod_division_less_than_divisor(
                usize::MAX as int,
                b as int,
            );
            vstd::arithmetic::mul::lemma_mul_is_commutative(q as int, b as int);
            assert(usize::MAX as int == q * b + (usize::MAX as int) % (b as int));
            if a > q {
                vstd::arithmetic::mul::lemma_mul_inequality(q + 1, a as int, b as int);
                vstd::arithmetic::mul::lemma_mul_is_distributive_add_other_way(
                    b as int,
                    q as int,
                    1,
                );
                assert((q + 1) * b == q * b + b);
                assert(a * b >= usize::MAX);
            } else {
                vstd::arithmetic::mul::lemma_mul_inequality(a as int, q as int, b as int);
                assert(a * b <= q * b);
                assert(q * b <= usize::MAX);
            }
        }
        if a > q {
            usize::MAX
        } else {
            a * b
        }
    }
}

pub proof fn lemma_level_size_max_pos(c: LSMConfig, level: int)
    requires
        config_wf(c),
    ensures
        level_size_max_spec(c, level) >= 1,
    decreases level,
{
    if level <= 1 {
    } else if level == 2 {
        vstd::arithmetic::mul::lemma_mul_inequality(1, c.level2_size as int, c.size_scale as int);
    } else {
        lemma_level_size_max_pos(c, level - 1);
        vstd::arithmetic::mul::lemma_mul_inequality(
            1,
            level_size_max_spec(c, level - 1),
            c.size_scale as int,
        );
    }
}

/// Each level's capacity at least doubles from the second level on.
pub proof fn lemma_level_size_max_grows(c: LSMConfig, level: int)
    requires
        config_wf(c),
        level >= 2,
    ensures
        level_size_max_spec(c, level + 1) >= 2 * level_size_max_spec(c, level),
        level_size_max_spec(c, level + 1) > level_size_max_spec(c, level),
{
    lemma_level_size_max_pos(c, level);
    vstd::arithmetic::mul::lemma_mul_inequality(2, c.size_scale as int, level_size_max_spec(
        c,
        level,
    ));
    assert(level_size_max_spec(c, level + 1) == level_size_max_spec(c, level) * c.size_scale);
    vstd::arithmetic::mul::lemma_mul_is_commutative(level_size_max_spec(c, level), c.size_scale as int);
}


/// What a run of writes leaves in a view: each write inserts its pair,
/// later writes shadowing earlier ones.
pub open spec fn apply_puts(
    m: Map<Seq<char>, Seq<char>>,
    ops: Seq<crate::model::PairData>,
) -> Map<Seq<char>, Seq<char>>
    decreases ops.len(),
{
    if ops.len() == 0 {
        m
    } else {
        apply_puts(m, ops.drop_last()).insert(ops.last().0, ops.last().1)
    }
}

/// Read-your-writes over any run of writes: since `put` turns the store's
/// view into `view.insert(key, value)` and `get` answers exactly from the
/// view, a key reads back as its latest write, whatever was written in
/// between and however many flushes and merges ran.
pub proof fn lemma_read_your_writes(
    m: Map<Seq<char>, Seq<char>>,
    ops: Seq<crate::model::PairData>,
    i: int,
)
    requires
        0 <= i < ops.len(),
        forall|j: int| i < j < ops.len() ==> (#[trigger] ops[j]).0 != ops[i].0,
    ensures
        apply_puts(m, ops).contains_key(ops[i].0),
        apply_puts(m, ops)[ops[i].0] == ops[i].1,
    decreases ops.len(),
{
    if i == ops.len() - 1 {
    } else {
        assert(ops.drop_last()[i] == ops[i]);
        assert forall|j: int| i < j < ops.drop_last().len() implies (
        #[trigger] ops.drop_last()[j]).0 != ops.drop_last()[i].0 by {
            assert(ops.drop_last()[j] == ops[j]);
        }
        lemma_read_your_writes(m, ops.drop_last(), i);
        assert(ops.last().0 != ops[i].0);
    }
}

/// A key never written keeps whatever the view held before the run.
pub proof fn lemma_read_unwritten(
    m: Map<Seq<char>, Seq<char>>,
    ops: Seq<crate::model::PairData>,
    k: Seq<char>,
)
    requires
        forall|j: int| 0 <= j < ops.len() ==> (#[trigger] ops[j]).0 != k,
    ensures
        apply_puts(m, ops).contains_key(k) == m.contains_key(k),
        m.contains_key(k) ==> apply_puts(m, ops)[k] == m[k],
    decreases ops.len(),
{
    if ops.len() > 0 {
        assert(forall|j: int|
            0 <= j < ops.drop_last().len() ==> (#[trigger] ops.drop_last()[j]) == ops[j]);
        lemma_read_unwritten(m, ops.drop_last(), k);
        assert(ops.last().0 != k);
    }
}

/// The overlay of the levels from index `i` down: a level with a smaller
/// index holds newer data and shadows the deeper ones.
pub open spec fn levels_view_from(
    levels: Seq<LSMLevel>,
    fs: Map<FileId, Seq<char>>,
    i: int,
) -> Map<Seq<char>, Seq<char>>
    decreases levels.len() - i,
{
    if i < 0 || i >= levels.len() {
        Map::empty()
    } else {
        levels_view_from(levels, fs, i + 1).union_prefer_right(levels[i].view_on(fs))
    }
}


/// The total number of records held in block files, over all levels.
pub open spec fn store_pairs(levels: Seq<LSMLevel>, fs: Map<FileId, Seq<char>>) -> int
    decreases levels.len(),
{
    if levels.len() == 0 {
        0
    } else {
        store_pairs(levels.drop_last(), fs) + crate::merge::runs_total(
            block_runs(levels.last().infos(), fs),
        )
    }
}

/// Levels are numbered from one, in order.
pub open spec fn levels_numbered(levels: Seq<LSMLevel>) -> bool {
    forall|i: int| 0 <= i < levels.len() ==> (#[trigger] levels[i]).level_no() == i + 1
}

/// Every level's blocks are sound against the directory.
pub open spec fn levels_wf(levels: Seq<LSMLevel>, fs: Map<FileId, Seq<char>>) -> bool {
    forall|i: int| 0 <= i < levels.len() ==> (#[trigger] levels[i]).wf(fs)
}

/// No block file exists at or past any level's id allocator.
pub open spec fn levels_fresh(levels: Seq<LSMLevel>, fs: Map<FileId, Seq<char>>) -> bool {
    forall|i: int|
        0 <= i < levels.len() ==> fresh_block_ids(
            fs,
            (#[trigger] levels[i]).level_no(),
            levels[i].alloc_current(),
        )
}

/// Every block's origin is an existing level, with an id its allocator has
/// already passed.
pub open spec fn levels_dominated(levels: Seq<LSMLevel>) -> bool {
    forall|i: int, j: int|
        0 <= i < levels.len() && 0 <= j < (#[trigger] levels[i]).infos().len() ==> {
            let b = #[trigger] levels[i].infos()[j];
            &&& 1 <= b.origin_level <= levels.len()
            &&& b.block_file_id < levels[b.origin_level - 1].alloc_current()
        }
}

/// No block file claims an origin deeper than the deepest level: ids of
/// levels yet to be created are free.
pub open spec fn no_stray_files(levels: Seq<LSMLevel>, fs: Map<FileId, Seq<char>>) -> bool {
    forall|o: u32, id: u32|
        #[trigger] fs.contains_key(FileId::Block { origin_level: o, block_file_id: id }) ==> 1 <= o
            <= levels.len()
}

/// No two blocks anywhere in the store share an identity.
pub open spec fn store_distinct(levels: Seq<LSMLevel>) -> bool {
    forall|i1: int, j1: int, i2: int, j2: int|
        0 <= i1 < levels.len() && 0 <= j1 < levels[i1].infos().len() && 0 <= i2 < levels.len() && 0
            <= j2 < levels[i2].infos().len() && (i1 != i2 || j1 != j2) ==> block_fid(
            #[trigger] levels[i1].infos()[j1],
        ) != block_fid(#[trigger] levels[i2].infos()[j2])
}

/// Each level's manifest file records exactly the level's allocator and
/// blocks.
pub open spec fn manifests_ok(levels: Seq<LSMLevel>, fs: Map<FileId, Seq<char>>) -> bool {
    forall|i: int|
        0 <= i < levels.len() ==> {
            let l = #[trigger] levels[i];
            &&& fs.contains_key(FileId::Manifest { level: l.level_no() })
            &&& fs[FileId::Manifest { level: l.level_no() }] == crate::codec::encode_manifest(
                l.alloc_current(),
                l.infos(),
            )
        }
}

/// Every level's allocator has room for what one more write could demand.
pub open spec fn id_headroom(levels: Seq<LSMLevel>, pair_count: usize) -> bool {
    forall|i: int|
        0 <= i < levels.len() ==> (#[trigger] levels[i]).alloc_current() + pair_count + 3
            <= u32::MAX
}

/// Lexicographic "less than" on character sequences: the order of keys
/// throughout the store.
pub open spec fn lex_lt(a: Seq<char>, b: Seq<char>) -> bool
    decreases a.len(),
{
    if b.len() == 0 {
        false
    } else if a.len() == 0 {
        true
    } else if a[0] != b[0] {
        a[0] < b[0]
    } else {
        lex_lt(a.drop_first(), b.drop_first())
    }
}

/// The store: the mutable table, the levels, their files, and the shared
/// block cache.
pub struct LSM {
    config: LSMConfig,
    cache_manager: LSMCacheManager,
    mut_table: Vec<KVPair>,
    levels: Vec<LSMLevel>,
    files: FileStore,
    pair_count: usize,
}

impl LSM {
    pub closed spec fn config_spec(&self) -> LSMConfig {
        self.config
    }

    pub closed spec fn mem_pairs(&self) -> Seq<crate::model::PairData> {
        dview(self.mut_table@)
    }

    pub closed spec fn levels_spec(&self) -> Seq<LSMLevel> {
        self.levels@
    }

    pub closed spec fn files_spec(&self) -> Map<FileId, Seq<char>> {
        self.files@
    }

    pub closed spec fn cache_spec(&self) -> Map<u64, Seq<crate::model::PairData>> {
        self.cache_manager.contents()
    }

    pub closed spec fn pair_count_spec(&self) -> usize {
        self.pair_count
    }

    /// What the store holds: the levels, deepest first, overlaid by the
    /// mutable table.
    pub closed spec fn view_spec(&self) -> Map<Seq<char>, Seq<char>> {
        levels_view_from(self.levels@, self.files@, 0).union_prefer_right(pmap(dview(
            self.mut_table@,
        )))
    }

    pub closed spec fn wf(&self) -> bool {
        &&& config_wf(self.config)
        &&& self.files.wf()
        &&& self.cache_manager.wf()
        &&& self.cache_manager.cap() == self.config.max_cache_size
        &&& cache_coherent(self.cache_manager.contents(), self.files@)
        &&& sorted_strict(dview(self.mut_table@))
        &&& pairs_wf(dview(self.mut_table@))
        &&& self.mut_table@.len() <= self.config.block_size
        &&& levels_numbered(self.levels@)
        &&& levels_wf(self.levels@, self.files@)
        &&& levels_fresh(self.levels@, self.files@)
        &&& levels_dominated(self.levels@)
        &&& no_stray_files(self.levels@, self.files@)
        &&& manifests_ok(self.levels@, self.files@)
        &&& store_distinct(self.levels@)
        &&& store_pairs(self.levels@, self.files@) + self.mut_table@.len()
            <= self.pair_count
        &&& self.levels@.len() <= u32::MAX
    }

    pub fn new(config: LSMConfig) -> (s: LSM)
        requires
            config_wf(config),
        ensures
            s.wf(),
            s.config_spec() == config,
            s.view_spec() == Map::<Seq<char>, Seq<char>>::empty(),
            s.pair_count_spec() == 0,
            s.files_spec() == Map::<FileId, Seq<char>>::empty(),
            s.levels_spec().len() == 0,
            s.cache_spec() == crate::cache::no_entries(),
            s.mem_pairs().len() == 0,
    {
        let cache_manager = LSMCacheManager::new(config.max_cache_size);
        let s = LSM {
            config,
            cache_manager,
            mut_table: Vec::new(),
            levels: Vec::new(),
            files: FileStore::new(),
            pair_count: 0,
        };
        proof {
            assert(pmap(dview(s.mut_table@)) =~= Map::<Seq<char>, Seq<char>>::empty());
            assert(s.view_spec() =~= Map::<Seq<char>, Seq<char>>::empty());
        }
        s
    }

    pub fn self_config(&self) -> (c: &LSMConfig)
        ensures
            *c == self.config_spec(),
    {
        &self.config
    }

    /// How many put operations the store still accepts before its counters
    /// could run out.
    pub fn has_headroom(&self) -> (r: bool)
        ensures
            r == (self.pair_count_spec() + 3 <= u32::MAX && id_headroom(
                self.levels_spec(),
                self.pair_count_spec(),
            )),
    {
        if !(self.pair_count as u64 <= u32::MAX as u64 - 3) {
            return false;
        }
        let n = self.levels.len();
        let mut i: usize = 0;
        while i < n
            invariant
                i <= n,
                n == self.levels@.len(),
                self.pair_count + 3 <= u32::MAX,
                forall|j: int|
                    0 <= j < i ==> (#[trigger] self.levels@[j]).alloc_current() + self.pair_count
                        + 3 <= u32::MAX,
            decreases n - i,
        {
            let cur = self.levels[i].current_file_id();
            if !(cur as u64 + self.pair_count as u64 + 3 <= u32::MAX as u64) {
                return false;
            }
            i = i + 1;
        }
        true
    }

    /// The value most recently written under `key`, if any.
    pub fn get(&mut self, key: &str) -> (r: Option<String>)
        requires
            old(self).wf(),
        ensures
            final(self).wf(),
            final(self).view_spec() == old(self).view_spec(),
            final(self).config_spec() == old(self).config_spec(),
            final(self).levels_spec() == old(self).levels_spec(),
            final(self).files_spec() == old(self).files_spec(),
            final(self).mem_pairs() == old(self).mem_pairs(),
            final(self).pair_count_spec() == old(self).pair_count_spec(),
            match r {
                Some(v) => old(self).view_spec().contains_key(key@) && v@ == old(
                    self,
                ).view_spec()[key@],
                None => !old(self).view_spec().contains_key(key@),
            },
    {
        let ghost mem = dview(self.mut_table@);
        if let Some(v) = lookup_pairs(&self.mut_table, key) {
            proof {
                assert(self.view_spec()[key@] == pmap(mem)[key@]);
            }
            return Some(v);
        }
        proof {
            assert(!pmap(mem).dom().contains(key@));
        }
        let n = self.levels.len();
        let mut i: usize = 0;
        while i < n
            invariant
                old(self).wf(),
                i <= n,
                n == self.levels@.len(),
                self.files.wf(),
                self.cache_manager.wf(),
                self.cache_manager.cap() == old(self).cache_spec_cap(),
                cache_coherent(self.cache_manager.contents(), self.files@),
                levels_wf(self.levels@, self.files@),
                self.config == old(self).config_spec(),
                self.levels@ == old(self).levels_spec(),
                self.files@ == old(self).files_spec(),
                self.mut_table@ == old(self).mut_table@,
                self.pair_count == old(self).pair_count_spec(),
                !pmap(dview(self.mut_table@)).dom().contains(key@),
                forall|j: int|
                    0 <= j < i ==> !(#[trigger] self.levels@[j]).view_on(
                        self.files@,
                    ).dom().contains(key@),
            decreases n - i,
        {
            proof {
                assert(self.levels@[i as int].wf(self.files@));
            }
            let (lvl, cm, filesr) = (&self.levels, &mut self.cache_manager, &self.files);
            let found = lvl[i].get(key, cm, filesr);
            if let Some(v) = found {
                proof {
                    lemma_view_from_found(self.levels@, self.files@, i as int, key@);
                    assert(self.view_spec()[key@] == levels_view_from(
                        self.levels@,
                        self.files@,
                        0,
                    )[key@]);
                }
                return Some(v);
            }
            i = i + 1;
        }
        proof {
            lemma_view_from_none(self.levels@, self.files@, key@);
        }
        None
    }

    pub closed spec fn cache_spec_cap(&self) -> usize {
        self.cache_manager.cap()
    }

    /// The store's files, for a host that mirrors them to disk.
    pub fn files(&self) -> (r: &FileStore)
        requires
            self.wf(),
        ensures
            r@ == self.files_spec(),
            r.wf(),
    {
        &self.files
    }

    /// How many blocks the store's cache holds right now.
    pub fn cached_blocks(&self) -> (r: usize)
        requires
            self.wf(),
        ensures
            r == self.cache_spec().dom().len(),
            r <= self.config_spec().max_cache_size,
    {
        proof {
            assert(self.cache_manager.wf());
            assert(self.cache_manager.cap() == self.config.max_cache_size);
        }
        self.cache_manager.cached_count()
    }

    /// Make sure the level below the cascade source exists: a missing one
    /// is created empty, with a fresh allocator and its own manifest.
    fn ensure_next_level(&mut self, src: usize)
        requires
            old(self).wf(),
            old(self).mem_pairs().len() == 0,
            old(self).pair_count_spec() + 1 <= u32::MAX,
            (src as int) < old(self).levels_spec().len(),
            (src as int) + 2 <= u32::MAX,
            alloc_room_from(old(self).levels_spec(), old(self).files_spec(), src as int + 1),
        ensures
            final(self).wf(),
            final(self).mem_pairs().len() == 0,
            final(self).config_spec() == old(self).config_spec(),
            final(self).pair_count_spec() == old(self).pair_count_spec(),
            final(self).view_spec() == old(self).view_spec(),
            (src as int) + 1 < final(self).levels_spec().len(),
            forall|i: int|
                0 <= i < old(self).levels_spec().len() ==> #[trigger] final(self).levels_spec()[i]
                    == old(self).levels_spec()[i],
            alloc_room_from(final(self).levels_spec(), final(self).files_spec(), src as int + 1),
    {
        if self.levels.len() > src + 1 {
            return;
        }
        let newno = (src as u32) + 2;
        let ghost grown = self.levels@;
        let ghost g_fs = self.files@;
        self.levels.push(LSMLevel::new(newno, FileIdManager::new(0)));
        proof {
            let lv = self.levels@;
            let nl = lv[lv.len() - 1];
            assert(forall|i: int| 0 <= i < grown.len() ==> (#[trigger] lv[i]) == grown[i]);
            assert(nl.view_on(g_fs) =~= Map::<Seq<char>, Seq<char>>::empty()) by {
                assert(block_runs(nl.infos(), g_fs) =~= Seq::<
                    Seq<crate::model::PairData>,
                >::empty());
            }
            lemma_lvf_append_empty(grown, nl, g_fs, 0);
            lemma_store_pairs_push(grown, nl, g_fs);
            assert(crate::merge::runs_total(block_runs(nl.infos(), g_fs)) == 0) by {
                assert(block_runs(nl.infos(), g_fs) =~= Seq::<
                    Seq<crate::model::PairData>,
                >::empty());
            }
            assert(levels_fresh(lv, g_fs)) by {
                assert forall|i: int|
                    0 <= i < lv.len() implies fresh_block_ids(
                    g_fs,
                    (#[trigger] lv[i]).level_no(),
                    lv[i].alloc_current(),
                ) by {
                    if i < grown.len() {
                        assert(fresh_block_ids(
                            g_fs,
                            grown[i].level_no(),
                            grown[i].alloc_current(),
                        ));
                    } else {
                        assert forall|id: u32| id >= 0 implies !(#[trigger] g_fs.contains_key(
                            FileId::Block { origin_level: newno, block_file_id: id },
                        )) by {
                            if g_fs.contains_key(
                                FileId::Block { origin_level: newno, block_file_id: id },
                            ) {
                                assert(no_stray_files(grown, g_fs));
                                assert(newno <= grown.len());
                            }
                        }
                    }
                }
            }
        }
        let last = self.levels.len() - 1;
        self.levels[last].update_meta_file(&mut self.files);
        proof {
            let lv = self.levels@;
            let nl = lv[lv.len() - 1];
            let f2 = self.files@;
            // the new manifest does not touch any block file
            assert(old_blocks_kept(f2, g_fs));
            lemma_cache_coherent_frame(self.cache_manager.contents(), g_fs, f2);
            lemma_levels_frame(lv, g_fs, f2);
            lemma_lvf_pointwise(lv, g_fs, lv, f2, 0);
            assert(levels_view_from(lv, f2, 0) == levels_view_from(grown, g_fs, 0));
            assert(self.view_spec() =~= old(self).view_spec());
            lemma_store_pairs_pointwise(lv, g_fs, lv, f2);
            assert(store_pairs(lv, f2) == store_pairs(lv, g_fs));
            assert(manifests_ok(lv, f2)) by {
                assert forall|i: int| 0 <= i < lv.len() implies {
                    let l = #[trigger] lv[i];
                    &&& f2.contains_key(FileId::Manifest { level: l.level_no() })
                    &&& f2[FileId::Manifest { level: l.level_no() }]
                        == crate::codec::encode_manifest(l.alloc_current(), l.infos())
                } by {
                    if i < grown.len() {
                        assert(manifests_ok(grown, g_fs));
                        assert(lv[i] == grown[i]);
                        assert(lv[i].level_no() == i + 1);
                        assert(lv[i].level_no() != newno);
                    } else {
                        assert(lv[i] == nl);
                        assert(nl.infos() =~= Seq::<BlockInfo>::empty());
                    }
                }
            }
            assert(levels_fresh(lv, f2)) by {
                assert forall|i: int|
                    0 <= i < lv.len() implies fresh_block_ids(
                    f2,
                    (#[trigger] lv[i]).level_no(),
                    lv[i].alloc_current(),
                ) by {
                    let ln = lv[i].level_no();
                    let ac = lv[i].alloc_current();
                    assert forall|id: u32| id >= ac implies !(#[trigger] f2.contains_key(
                        FileId::Block { origin_level: ln, block_file_id: id },
                    )) by {
                        if f2.contains_key(FileId::Block { origin_level: ln, block_file_id: id }) {
                            assert(g_fs.contains_key(
                                FileId::Block { origin_level: ln, block_file_id: id },
                            ));
                            assert(fresh_block_ids(g_fs, ln, ac));
                        }
                    }
                }
            }
            assert(no_stray_files(lv, f2)) by {
                assert forall|o: u32, id: u32| #[trigger] f2.contains_key(
                    FileId::Block { origin_level: o, block_file_id: id },
                ) implies 1 <= o <= lv.len() by {
                    assert(g_fs.contains_key(
                        FileId::Block { origin_level: o, block_file_id: id },
                    ));
                    assert(no_stray_files(grown, g_fs));
                }
            }
            assert(levels_dominated(lv)) by {
                assert forall|i: int, j: int|
                    0 <= i < lv.len() && 0 <= j < (#[trigger] lv[i]).infos().len() implies {
                    let b = #[trigger] lv[i].infos()[j];
                    &&& 1 <= b.origin_level <= lv.len()
                    &&& b.block_file_id < lv[b.origin_level - 1].alloc_current()
                } by {
                    assert(i < grown.len());
                    assert(lv[i].infos()[j] == grown[i].infos()[j]);
                    assert(levels_dominated(grown));
                    assert(lv[grown[i].infos()[j].origin_level - 1] == grown[grown[i].infos()[j].origin_level
                        - 1]);
                }
            }
            assert(store_distinct(lv)) by {
                assert forall|i1: int, j1: int, i2: int, j2: int|
                    0 <= i1 < lv.len() && 0 <= j1 < lv[i1].infos().len() && 0 <= i2 < lv.len() && 0
                        <= j2 < lv[i2].infos().len() && (i1 != i2 || j1 != j2) implies block_fid(
                    #[trigger] lv[i1].infos()[j1],
                ) != block_fid(#[trigger] lv[i2].infos()[j2]) by {
                    assert(i1 < grown.len() && i2 < grown.len());
                    assert(lv[i1].infos()[j1] == grown[i1].infos()[j1]);
                    assert(lv[i2].infos()[j2] == grown[i2].infos()[j2]);
                    assert(store_distinct(grown));
                }
            }
            assert(alloc_room_from(lv, f2, src as int + 1)) by {
                assert forall|i: int|
                    src + 1 <= i < lv.len() implies (#[trigger] lv[i]).alloc_current()
                    + store_pairs(lv, f2) + 1 <= u32::MAX by {
                    assert(i == grown.len());
                    assert(lv[i].alloc_current() == 0);
                    assert(store_pairs(lv, f2) <= self.pair_count);
                }
            }
        }
    }

    /// One step of the cascade: remove the oldest blocks of the source
    /// level, fold them into the level below, rewrite both manifests, and
    /// only then unlink the files the merge replaced.
    #[verifier::rlimit(100)]
    fn cascade_round(&mut self, src: usize) -> (next: bool)
        requires
            old(self).wf(),
            old(self).mem_pairs().len() == 0,
            old(self).pair_count_spec() + 1 <= u32::MAX,
            (src as int) + 1 < old(self).levels_spec().len(),
            alloc_room_from(old(self).levels_spec(), old(self).files_spec(), src as int + 1),
        ensures
            final(self).wf(),
            final(self).mem_pairs().len() == 0,
            final(self).config_spec() == old(self).config_spec(),
            final(self).pair_count_spec() == old(self).pair_count_spec(),
            final(self).view_spec() == old(self).view_spec(),
            final(self).levels_spec().len() == old(self).levels_spec().len(),
            alloc_room_from(final(self).levels_spec(), final(self).files_spec(), src as int + 2),
            next ==> level_size_max_spec(final(self).config_spec(), src as int + 2)
                <= final(self).levels_spec()[src as int + 1].infos().len(),
    {
        let ghost p_levels = self.levels@;
        let ghost p_fs = self.files@;
        let step = self.config.merge_step_size;
        let moved = self.levels[src].blocks_to_merge(step);
        let ghost moved_infos = blocks_v(moved@);
        let ghost kept_src = self.levels@[src as int];
        proof {
            // both halves of the split are sound, distinct, and small
            // enough for the target level's allocator
            assert(p_levels[src as int].infos() =~= moved_infos + kept_src.infos());
            assert(p_levels[src as int].wf(p_fs));
            assert(blocks_wf(moved_infos, p_fs)) by {
                assert forall|j: int| 0 <= j < moved_infos.len() implies block_wf(
                    #[trigger] moved_infos[j],
                    p_fs,
                ) by {
                    assert(moved_infos[j] == p_levels[src as int].infos()[j]);
                }
            }
            assert(kept_src.wf(p_fs)) by {
                assert forall|j: int| 0 <= j < kept_src.infos().len() implies block_wf(
                    #[trigger] kept_src.infos()[j],
                    p_fs,
                ) by {
                    assert(kept_src.infos()[j] == p_levels[src as int].infos()[moved_infos.len()
                        + j]);
                }
            }
            let dst = p_levels[src + 1];
            let both = dst.infos() + moved_infos;
            assert(fids_distinct(both)) by {
                assert forall|x: int, y: int|
                    0 <= x < y < both.len() implies block_fid(#[trigger] both[x]) != block_fid(
                    #[trigger] both[y],
                ) by {
                    let dl = dst.infos().len() as int;
                    if x < dl && y < dl {
                        assert(both[x] == p_levels[src + 1].infos()[x]);
                        assert(both[y] == p_levels[src + 1].infos()[y]);
                        assert(store_distinct(p_levels));
                    } else if x < dl {
                        assert(both[x] == p_levels[src + 1].infos()[x]);
                        assert(both[y] == p_levels[src as int].infos()[y - dl]);
                        assert(store_distinct(p_levels));
                    } else {
                        assert(both[x] == p_levels[src as int].infos()[x - dl]);
                        assert(both[y] == p_levels[src as int].infos()[y - dl]);
                        assert(store_distinct(p_levels));
                    }
                }
            }
            assert(blocks_wf(both, p_fs)) by {
                assert forall|j: int| 0 <= j < both.len() implies block_wf(
                    #[trigger] both[j],
                    p_fs,
                ) by {
                    if j < dst.infos().len() {
                        assert(both[j] == dst.infos()[j]);
                        assert(dst.wf(p_fs));
                    } else {
                        assert(both[j] == moved_infos[j - dst.infos().len()]);
                    }
                }
            }
            assert(block_runs(both, p_fs) =~= block_runs(dst.infos(), p_fs) + block_runs(
                moved_infos,
                p_fs,
            ));
            crate::merge::lemma_runs_total_concat(
                block_runs(dst.infos(), p_fs),
                block_runs(moved_infos, p_fs),
            );
            assert(block_runs(p_levels[src as int].infos(), p_fs) =~= block_runs(
                moved_infos,
                p_fs,
            ) + block_runs(kept_src.infos(), p_fs));
            crate::merge::lemma_runs_total_concat(
                block_runs(moved_infos, p_fs),
                block_runs(kept_src.infos(), p_fs),
            );
            crate::merge::lemma_runs_total_nonneg(block_runs(kept_src.infos(), p_fs));
            lemma_store_pairs_two(p_levels, p_fs, src + 1, src as int);
            assert(crate::merge::runs_total(block_runs(both, p_fs)) <= store_pairs(
                p_levels,
                p_fs,
            ));
            assert(alloc_room_from(p_levels, p_fs, src as int + 1));
            assert(dst.alloc_current() + store_pairs(p_levels, p_fs) + 1 <= u32::MAX);
            assert(dst.alloc_current() + crate::merge::runs_total(block_runs(both, p_fs)) + 1
                <= u32::MAX);
        }
        let cfg = &self.config;
        let (update, require_next) = {
            let (levels_part, files_part) = (&mut self.levels, &mut self.files);
            levels_part[src + 1].merge_blocks(moved, files_part, cfg)
        };
        let ghost m_levels = self.levels@;
        let ghost m_fs = self.files@;
        self.levels[src].update_meta_file(&mut self.files);
        self.levels[src + 1].update_meta_file(&mut self.files);
        let ghost n_fs = self.files@;
        let ghost n_levels = self.levels@;
        proof {
            assert(n_levels =~= m_levels);
            // nothing before the unlinks touches an existing block file
            assert(old_blocks_kept(m_fs, p_fs)) by {
                assert(fs_extends(m_fs, p_fs));
            }
            lemma_cache_coherent_frame(self.cache_manager.contents(), p_fs, m_fs);
            lemma_levels_frame(p_levels, p_fs, m_fs);
            assert forall|j: int|
                0 <= j < kept_src.infos().len() implies m_fs.contains_key(block_fid(
                #[trigger] kept_src.infos()[j],
            )) && m_fs[block_fid(kept_src.infos()[j])] == p_fs[block_fid(
                kept_src.infos()[j],
            )] by {
                assert(block_wf(kept_src.infos()[j], p_fs));
            }
            crate::level::lemma_blocks_frame(kept_src.infos(), p_fs, m_fs);
            assert(levels_wf(m_levels, m_fs)) by {
                assert forall|i: int| 0 <= i < m_levels.len() implies (#[trigger] m_levels[i]).wf(
                    m_fs,
                ) by {
                    if i == src as int {
                    } else if i == src + 1 {
                    } else {
                        assert(m_levels[i] == p_levels[i]);
                        assert(p_levels[i].wf(m_fs));
                    }
                }
            }
            assert(old_blocks_kept(n_fs, m_fs));
            lemma_cache_coherent_frame(self.cache_manager.contents(), m_fs, n_fs);
            lemma_levels_frame(m_levels, m_fs, n_fs);
            assert forall|j: int|
                0 <= j < kept_src.infos().len() implies n_fs.contains_key(block_fid(
                #[trigger] kept_src.infos()[j],
            )) && n_fs[block_fid(kept_src.infos()[j])] == m_fs[block_fid(
                kept_src.infos()[j],
            )] by {
                assert(block_wf(kept_src.infos()[j], m_fs));
            }
            crate::level::lemma_blocks_frame(kept_src.infos(), m_fs, n_fs);
            // the removed identities belong to no surviving block
            assert forall|q: int|
                0 <= q < update.removed_files@.len() implies (exists|y: int|
                0 <= y < (p_levels[src + 1].infos() + moved_infos).len() && block_fid(
                    #[trigger] (p_levels[src + 1].infos() + moved_infos)[y],
                ) == (#[trigger] update.removed_files@[q]).fid()) by {}
            lemma_metas_clear(
                p_levels,
                n_levels,
                moved_infos,
                kept_src,
                src as int,
                update.removed_files@,
            );
            lemma_cascade_dir(
                p_levels,
                n_levels,
                p_fs,
                m_fs,
                n_fs,
                moved_infos,
                kept_src,
                src as int,
            );
            lemma_cascade_fresh(
                p_levels,
                n_levels,
                p_fs,
                m_fs,
                n_fs,
                moved_infos,
                kept_src,
                src as int,
            );
        }
        // drop the merged blocks from the cache and unlink their files,
        // after both manifests are safely rewritten
        let removed_list = update.removed_files;
        let mut q: usize = 0;
        while q < removed_list.len()
            invariant
                q <= removed_list@.len(),
                self.levels@ == n_levels,
                n_levels.len() >= 1,
                self.mut_table@.len() == 0,
                self.pair_count == old(self).pair_count_spec(),
                self.config == old(self).config_spec(),
                self.files.wf(),
                self.cache_manager.wf(),
                self.cache_manager.cap() == self.config.max_cache_size,
                cache_coherent(self.cache_manager.contents(), self.files@),
                metas_clear_of_levels(removed_list@, n_levels),
                levels_wf(n_levels, self.files@),
                views_match(n_levels, self.files@, n_fs),
                manifests_ok(n_levels, self.files@),
                levels_fresh(n_levels, self.files@),
                no_stray_files(n_levels, self.files@),
            decreases removed_list@.len() - q,
        {
            let m = removed_list[q];
            let ghost before_fs = self.files@;
            let ghost before_cache = self.cache_manager.contents();
            self.cache_manager.invalidate(m);
            let fid = FileId::Block {
                origin_level: m.origin_level,
                block_file_id: m.block_file_id,
            };
            self.files.remove(fid);
            proof {
                assert(self.files@ == before_fs.remove(fid));
                assert forall|i: int, j: int|
                    0 <= i < n_levels.len() && 0 <= j < n_levels[i].infos().len() implies
                    block_fid(#[trigger] n_levels[i].infos()[j]) != fid by {
                    assert(removed_list@[q as int].fid() == fid);
                }
                lemma_levels_remove_file(n_levels, before_fs, fid);
                assert(views_match(n_levels, self.files@, n_fs)) by {
                    assert forall|i: int|
                        0 <= i < n_levels.len() implies (#[trigger] n_levels[i]).view_on(
                        self.files@,
                    ) == n_levels[i].view_on(n_fs) && block_runs(
                        n_levels[i].infos(),
                        self.files@,
                    ) == block_runs(n_levels[i].infos(), n_fs) by {
                        assert(n_levels[i].view_on(before_fs) == n_levels[i].view_on(n_fs));
                    }
                }
                // the unlinked block left the cache first; every other
                // cached block's file is untouched
                assert(cache_coherent(self.cache_manager.contents(), self.files@)) by {
                    assert forall|o: u32, id: u32|
                        self.cache_manager.contents().contains_key(
                            #[trigger] crate::cache::meta_key(o, id),
                        ) implies {
                        let f2 = FileId::Block { origin_level: o, block_file_id: id };
                        &&& self.files@.contains_key(f2)
                        &&& parse_pairs(self.files@[f2]) == Some(
                            self.cache_manager.contents()[crate::cache::meta_key(o, id)],
                        )
                    } by {
                        let f2 = FileId::Block { origin_level: o, block_file_id: id };
                        assert(before_cache.contains_key(crate::cache::meta_key(o, id)));
                        if crate::cache::meta_key(o, id) == crate::cache::meta_key(
                            m.origin_level,
                            m.block_file_id,
                        ) {
                            assert(false);
                        } else {
                            if f2 == fid {
                                assert(o == m.origin_level && id == m.block_file_id);
                                assert(false);
                            }
                            assert(f2 != fid);
                        }
                    }
                }
                assert(manifests_ok(n_levels, self.files@)) by {
                    assert forall|i: int| 0 <= i < n_levels.len() implies {
                        let l = #[trigger] n_levels[i];
                        &&& self.files@.contains_key(FileId::Manifest { level: l.level_no() })
                        &&& self.files@[FileId::Manifest { level: l.level_no() }]
                            == crate::codec::encode_manifest(l.alloc_current(), l.infos())
                    } by {
                        assert(before_fs.contains_key(
                            FileId::Manifest { level: n_levels[i].level_no() },
                        ));
                    }
                }
                assert(levels_fresh(n_levels, self.files@)) by {
                    assert forall|i: int|
                        0 <= i < n_levels.len() implies fresh_block_ids(
                        self.files@,
                        (#[trigger] n_levels[i]).level_no(),
                        n_levels[i].alloc_current(),
                    ) by {
                        assert(fresh_block_ids(
                            before_fs,
                            n_levels[i].level_no(),
                            n_levels[i].alloc_current(),
                        ));
                    }
                }
                assert(no_stray_files(n_levels, self.files@)) by {
                    assert forall|o: u32, id: u32| #[trigger] self.files@.contains_key(
                        FileId::Block { origin_level: o, block_file_id: id },
                    ) implies 1 <= o <= n_levels.len() by {
                        assert(before_fs.contains_key(
                            FileId::Block { origin_level: o, block_file_id: id },
                        ));
                    }
                }
            }
            q = q + 1;
        }
        proof {
            let e_fs = self.files@;
            // the store reads the same, and shrank or stayed
            assert(views_match(p_levels, m_fs, p_fs));
            assert(views_match(n_levels, n_fs, m_fs));
            lemma_cascade_view(
                p_levels,
                n_levels,
                p_fs,
                m_fs,
                n_fs,
                e_fs,
                moved_infos,
                kept_src,
                src as int,
            );
            lemma_cascade_distinct(p_levels, n_levels, p_fs, moved_infos, kept_src, src as int);
            lemma_cascade_dominated(p_levels, n_levels, moved_infos, kept_src, src as int);
            assert(levels_numbered(n_levels)) by {
                assert forall|i: int|
                    0 <= i < n_levels.len() implies (#[trigger] n_levels[i]).level_no() == i
                    + 1 by {
                    if i != src as int && i != src + 1 {
                        assert(n_levels[i] == p_levels[i]);
                    }
                }
            }
            assert(pmap(dview(self.mut_table@)) =~= Map::<Seq<char>, Seq<char>>::empty());
            assert(self.view_spec() =~= old(self).view_spec());
            assert(alloc_room_from(n_levels, e_fs, src as int + 2)) by {
                assert forall|i: int|
                    src + 2 <= i < n_levels.len() implies (#[trigger] n_levels[i]).alloc_current()
                    + store_pairs(n_levels, e_fs) + 1 <= u32::MAX by {
                    assert(n_levels[i] == p_levels[i]);
                    assert(p_levels[i].alloc_current() + store_pairs(p_levels, p_fs) + 1
                        <= u32::MAX);
                }
            }
            if require_next {
                assert(level_size_max_spec(self.config, src as int + 2) <= n_levels[src
                    + 1].infos().len()) by {
                    assert(n_levels[src + 1].wf(e_fs));
                    lemma_level_len_le_total(n_levels[src + 1].infos(), e_fs);
                    lemma_store_pairs_one(n_levels, e_fs, src + 1);
                    if level_size_max_spec(self.config, src as int + 2) > usize::MAX {
                        assert(n_levels[src + 1].infos().len() >= usize::MAX);
                        assert(store_pairs(n_levels, e_fs) <= self.pair_count);
                        assert(false);
                    }
                }
            }
        }
        require_next
    }

    /// Write `value` under `key`.  When the mutable table overflows it is
    /// drained into a new first-level block, and any level that overflows
    /// in turn cascades into the next one.
    #[verifier::rlimit(100)]
    pub fn put(&mut self, key: String, value: String)
        requires
            old(self).wf(),
            valid_text(key@),
            valid_text(value@),
            old(self).pair_count_spec() + 3 <= u32::MAX,
            id_headroom(old(self).levels_spec(), old(self).pair_count_spec()),
        ensures
            final(self).wf(),
            final(self).config_spec() == old(self).config_spec(),
            final(self).view_spec() == old(self).view_spec().insert(key@, value@),
            final(self).pair_count_spec() == old(self).pair_count_spec() + 1,
            ({
                let grown = old(self).mem_pairs().len() + (if pmap(
                    old(self).mem_pairs(),
                ).dom().contains(key@) {
                    0int
                } else {
                    1int
                });
                &&& (grown <= old(self).config_spec().block_size ==> final(self).files_spec()
                    == old(self).files_spec() && final(self).levels_spec()
                    == old(self).levels_spec() && final(self).cache_spec()
                    == old(self).cache_spec() && final(self).mem_pairs().len() == grown)
                &&& (grown > old(self).config_spec().block_size ==> final(self).mem_pairs().len()
                    == 0)
            }),
    {
        let ghost key_v = key@;
        let ghost val_v = value@;
        let ghost view0 = self.view_spec();
        proof {
            lemma_store_pairs_nonneg(self.levels@, self.files@);
        }
        mem_insert(&mut self.mut_table, key, value);
        self.pair_count = self.pair_count + 1;
        proof {
            assert(self.view_spec() =~= view0.insert(key_v, val_v));
        }
        if self.mut_table.len() <= self.config.block_size {
            return;
        }
        // drain the mutable table into one new first-level block
        let ghost view1 = self.view_spec();
        let ghost mem1 = dview(self.mut_table@);
        let ghost premem = self.mut_table@;
        let data = self.mut_table.split_off(0);
        proof {
            assert(data@ =~= premem);
            assert(dview(data@) == mem1);
        }
        if self.levels.len() == 0 {
            self.levels.push(LSMLevel::new(1, FileIdManager::new(0)));
            proof {
                let lv = self.levels@;
                assert(lv[0].infos().len() == 0);
                assert(fresh_block_ids(self.files@, 1, 0)) by {
                    assert forall|id: u32| id >= 0 implies !(#[trigger] self.files@.contains_key(
                        FileId::Block { origin_level: 1, block_file_id: id },
                    )) by {
                        assert(no_stray_files(old(self).levels_spec(), self.files@));
                        if self.files@.contains_key(
                            FileId::Block { origin_level: 1, block_file_id: id },
                        ) {
                            assert(1 <= old(self).levels_spec().len());
                        }
                    }
                }
                assert(lv[0].view_on(self.files@) =~= Map::<Seq<char>, Seq<char>>::empty()) by {
                    assert(block_runs(lv[0].infos(), self.files@) =~= Seq::<
                        Seq<crate::model::PairData>,
                    >::empty());
                }
                assert(levels_view_from(lv, self.files@, 1) == Map::<Seq<char>, Seq<char>>::empty());
                assert(levels_view_from(lv, self.files@, 0) == levels_view_from(
                    lv,
                    self.files@,
                    1,
                ).union_prefer_right(lv[0].view_on(self.files@)));
                assert(levels_view_from(old(self).levels_spec(), self.files@, 0) == Map::<
                    Seq<char>,
                    Seq<char>,
                >::empty());
                assert(levels_view_from(lv, self.files@, 0) =~= levels_view_from(
                    old(self).levels_spec(),
                    self.files@,
                    0,
                ));
                lemma_store_pairs_push(old(self).levels_spec(), lv[0], self.files@);
                assert(crate::merge::runs_total(block_runs(lv[0].infos(), self.files@)) == 0) by {
                    assert(block_runs(lv[0].infos(), self.files@) =~= Seq::<
                        Seq<crate::model::PairData>,
                    >::empty());
                }
            }
        }
        let ghost pre_levels = self.levels@;
        let ghost pre_fs = self.files@;
        proof {
            // the first level accepts the flush
            assert(pre_levels[0].level_no() == 1);
            if old(self).levels_spec().len() > 0 {
                assert(old(self).levels_spec()[0].alloc_current() + old(self).pair_count_spec() + 2
                    <= u32::MAX);
            }
            assert(fresh_block_ids(pre_fs, 1, pre_levels[0].alloc_current()));
        }
        let l1size = self.config.level1_size;
        let require_merge = self.levels[0].create_block(&data, &mut self.files, l1size);
        proof {
            let mid_fs = self.files@;
            let l0 = self.levels@[0];
            assert(old_blocks_kept(mid_fs, pre_fs)) by {
                assert(!pre_fs.contains_key(
                    FileId::Block { origin_level: 1, block_file_id: pre_levels[0].alloc_current() },
                ));
            }
            lemma_cache_coherent_frame(self.cache_manager.contents(), pre_fs, mid_fs);
            lemma_levels_frame(pre_levels, pre_fs, mid_fs);
        }
        self.levels[0].update_meta_file(&mut self.files);
        proof {
            let l0 = self.levels@[0];
            let fs2 = self.files@;
            let mid_fs = pre_fs.insert(
                FileId::Block { origin_level: 1, block_file_id: pre_levels[0].alloc_current() },
                crate::codec::encode_pairs(dview(data@)),
            );
            assert(old_blocks_kept(fs2, mid_fs));
            assert(old_blocks_kept(fs2, pre_fs)) by {
                assert(old_blocks_kept(mid_fs, pre_fs));
            }
            lemma_cache_coherent_frame(self.cache_manager.contents(), mid_fs, fs2);
            lemma_levels_frame(pre_levels, pre_fs, fs2);
            // the new block sits atop the first level; deeper levels are
            // untouched
            assert(self.levels@ =~= pre_levels.update(0, l0));
            assert(l0.wf(mid_fs));
            assert forall|j: int|
                0 <= j < l0.infos().len() implies fs2.contains_key(block_fid(
                #[trigger] l0.infos()[j],
            )) && fs2[block_fid(l0.infos()[j])] == mid_fs[block_fid(l0.infos()[j])] by {
                assert(block_wf(l0.infos()[j], mid_fs));
            }
            crate::level::lemma_blocks_frame(l0.infos(), mid_fs, fs2);
            assert(l0.view_on(fs2) == l0.view_on(mid_fs));
            assert(levels_wf(self.levels@, fs2));
            assert(forall|j: int|
                1 <= j < self.levels@.len() ==> (#[trigger] self.levels@[j]).view_on(fs2)
                    == pre_levels[j].view_on(pre_fs));
            lemma_lvf_pointwise(pre_levels, pre_fs, self.levels@, fs2, 1);
            assert(levels_view_from(self.levels@, fs2, 0) == levels_view_from(
                self.levels@,
                fs2,
                1,
            ).union_prefer_right(l0.view_on(fs2)));
            assert(l0.view_on(fs2) == pre_levels[0].view_on(pre_fs).union_prefer_right(
                pmap(dview(data@)),
            ));
            crate::model::lemma_union_prefer_right_assoc(
                levels_view_from(self.levels@, fs2, 1),
                pre_levels[0].view_on(pre_fs),
                pmap(dview(data@)),
            );
            assert(levels_view_from(self.levels@, fs2, 0) == levels_view_from(
                pre_levels,
                pre_fs,
                0,
            ).union_prefer_right(pmap(mem1)));
            assert(pmap(dview(self.mut_table@)) =~= Map::<Seq<char>, Seq<char>>::empty());
            assert(self.view_spec() =~= view1);
            // bookkeeping invariants
            assert(levels_numbered(self.levels@));
            assert(levels_fresh(self.levels@, fs2)) by {
                assert forall|i: int|
                    0 <= i < self.levels@.len() implies fresh_block_ids(
                    fs2,
                    (#[trigger] self.levels@[i]).level_no(),
                    self.levels@[i].alloc_current(),
                ) by {
                    let ln = self.levels@[i].level_no();
                    let ac = self.levels@[i].alloc_current();
                    assert forall|id: u32| id >= ac implies !(#[trigger] fs2.contains_key(
                        FileId::Block { origin_level: ln, block_file_id: id },
                    )) by {
                        let f = FileId::Block { origin_level: ln, block_file_id: id };
                        if i == 0 {
                            assert(fresh_block_ids(pre_fs, 1, pre_levels[0].alloc_current()));
                            assert(ac == pre_levels[0].alloc_current() + 1);
                            assert(!pre_fs.contains_key(f));
                        } else {
                            assert(fresh_block_ids(pre_fs, ln, ac));
                            assert(!pre_fs.contains_key(f));
                            assert(ln != 1);
                        }
                    }
                }
            }
            assert(levels_dominated(self.levels@)) by {
                assert forall|i: int, j: int|
                    0 <= i < self.levels@.len() && 0 <= j < (#[trigger] self.levels@[i]).infos().len()
                    implies {
                    let b = #[trigger] self.levels@[i].infos()[j];
                    &&& 1 <= b.origin_level <= self.levels@.len()
                    &&& b.block_file_id < self.levels@[b.origin_level - 1].alloc_current()
                } by {
                    if i == 0 && j == l0.infos().len() - 1 {
                        assert(l0.infos()[j].origin_level == 1);
                        assert(l0.infos()[j].block_file_id == pre_levels[0].alloc_current());
                    } else {
                        if i == 0 {
                            assert(l0.infos()[j] == pre_levels[0].infos()[j]);
                        }
                        assert(self.levels@[i].infos()[j] == pre_levels[i].infos()[j]);
                        assert(levels_dominated(pre_levels));
                    }
                }
            }
            assert(store_distinct(self.levels@)) by {
                assert forall|i1: int, j1: int, i2: int, j2: int|
                    0 <= i1 < self.levels@.len() && 0 <= j1 < self.levels@[i1].infos().len() && 0
                        <= i2 < self.levels@.len() && 0 <= j2 < self.levels@[i2].infos().len() && (
                    i1 != i2 || j1 != j2) implies block_fid(
                    #[trigger] self.levels@[i1].infos()[j1],
                ) != block_fid(#[trigger] self.levels@[i2].infos()[j2]) by {
                    let newj = l0.infos().len() - 1;
                    if i1 == 0 && j1 == newj {
                        // a brand new identity: its file was absent before
                        if !(i2 == 0 && j2 == newj) {
                            assert(self.levels@[i2].infos()[j2] == pre_levels[i2].infos()[j2]);
                            assert(block_wf(pre_levels[i2].infos()[j2], pre_fs));
                            assert(!pre_fs.contains_key(block_fid(self.levels@[i1].infos()[j1])));
                        }
                    } else if i2 == 0 && j2 == newj {
                        assert(self.levels@[i1].infos()[j1] == pre_levels[i1].infos()[j1]);
                        assert(block_wf(pre_levels[i1].infos()[j1], pre_fs));
                        assert(!pre_fs.contains_key(block_fid(self.levels@[i2].infos()[j2])));
                    } else {
                        assert(self.levels@[i1].infos()[j1] == pre_levels[i1].infos()[j1]);
                        assert(self.levels@[i2].infos()[j2] == pre_levels[i2].infos()[j2]);
                        assert(store_distinct(pre_levels));
                    }
                }
            }
            assert(no_stray_files(self.levels@, fs2)) by {
                assert forall|o: u32, id: u32| #[trigger] fs2.contains_key(
                    FileId::Block { origin_level: o, block_file_id: id },
                ) implies 1 <= o <= self.levels@.len() by {
                    let f = FileId::Block { origin_level: o, block_file_id: id };
                    let newfid = FileId::Block {
                        origin_level: 1,
                        block_file_id: pre_levels[0].alloc_current(),
                    };
                    if f != newfid {
                        assert(pre_fs.contains_key(f));
                        assert(no_stray_files(pre_levels, pre_fs));
                    }
                }
            }
            assert(manifests_ok(self.levels@, fs2)) by {
                assert forall|i: int| 0 <= i < self.levels@.len() implies {
                    let l = #[trigger] self.levels@[i];
                    &&& fs2.contains_key(FileId::Manifest { level: l.level_no() })
                    &&& fs2[FileId::Manifest { level: l.level_no() }]
                        == crate::codec::encode_manifest(l.alloc_current(), l.infos())
                } by {
                    if i != 0 {
                        assert(manifests_ok(pre_levels, pre_fs));
                        assert(self.levels@[i] == pre_levels[i]);
                        assert(self.levels@[i].level_no() == i + 1);
                        assert(l0.level_no() == 1);
                    }
                }
            }
            // the record count moved from the table into the new block
            lemma_store_pairs_update(pre_levels, pre_fs, 0, l0, fs2);
            assert(block_runs(l0.infos(), fs2) =~= block_runs(pre_levels[0].infos(), fs2).push(
                block_pairs(l0.infos().last(), fs2),
            ));
            crate::merge::lemma_runs_total_concat(
                block_runs(pre_levels[0].infos(), fs2),
                seq![block_pairs(l0.infos().last(), fs2)],
            );
            assert(block_runs(pre_levels[0].infos(), fs2) + seq![
                block_pairs(l0.infos().last(), fs2),
            ] =~= block_runs(l0.infos(), fs2));
            crate::merge::lemma_runs_total_singleton(block_pairs(l0.infos().last(), fs2));
            assert(block_pairs(l0.infos().last(), fs2).len() == data@.len());
            assert(store_pairs(self.levels@, fs2) + self.mut_table@.len() <= self.pair_count);
        }
        proof {
            // allocator room below the first level at the start of the
            // cascade
            assert(alloc_room_from(self.levels@, self.files@, 1)) by {
                let fsv = self.files@;
                assert forall|i: int|
                    1 <= i < self.levels@.len() implies (#[trigger] self.levels@[i]).alloc_current()
                    + store_pairs(self.levels@, fsv) + 1 <= u32::MAX by {
                    assert(old(self).levels_spec()[i].alloc_current() + old(self).pair_count_spec()
                        + 3 <= u32::MAX);
                    assert(self.levels@[i].alloc_current() == old(
                        self,
                    ).levels_spec()[i].alloc_current());
                    assert(store_pairs(self.levels@, fsv) <= self.pair_count);
                }
            }
        }
        // the cascade: while a level has overflowed, move its oldest
        // blocks one level down
        let ghost view_goal = self.view_spec();
        let ghost tp_bound = self.pair_count as int;
        let mut require_merge = require_merge;
        let mut src: usize = 0;
        while require_merge
            invariant
                self.wf(),
                self.mut_table@.len() == 0,
                self.config == old(self).config_spec(),
                self.pair_count == old(self).pair_count_spec() + 1,
                self.pair_count + 2 <= u32::MAX,
                tp_bound == self.pair_count as int,
                self.view_spec() == view_goal,
                alloc_room_from(self.levels@, self.files@, src as int + 1),
                require_merge ==> (src as int) < self.levels@.len() && level_size_max_spec(
                    self.config,
                    src as int + 1,
                ) <= self.levels@[src as int].infos().len(),
            decreases (if require_merge {
                tp_bound + 2 - (if src == 0 {
                    0int
                } else {
                    level_size_max_spec(self.config, src as int + 1)
                })
            } else {
                0int
            }),
        {
            proof {
                // the overfull level bounds the cascade's depth
                assert(self.levels@[src as int].wf(self.files@));
                lemma_level_len_le_total(self.levels@[src as int].infos(), self.files@);
                lemma_store_pairs_one(self.levels@, self.files@, src as int);
                lemma_level_size_max_ge_level(self.config, src as int + 1);
                assert((src as int) + 2 <= u32::MAX);
            }
            self.ensure_next_level(src);
            let require_next = self.cascade_round(src);
            proof {
                if require_next {
                    assert(self.levels@[src + 1].wf(self.files@));
                    lemma_level_len_le_total(self.levels@[src + 1].infos(), self.files@);
                    lemma_store_pairs_one(self.levels@, self.files@, src + 1);
                }
                if src >= 1 {
                    lemma_level_size_max_grows(self.config, src as int + 1);
                }
                lemma_level_size_max_pos(self.config, src as int + 1);
                lemma_level_size_max_pos(self.config, src as int + 2);
            }
            require_merge = require_next;
            src = src + 1;
        }
    }
}

/// When a key misses every level before `i` and hits level `i`, the levels'
/// overlay answers with level `i`'s value.
proof fn lemma_view_from_found(
    levels: Seq<LSMLevel>,
    fs: Map<FileId, Seq<char>>,
    i: int,
    k: Seq<char>,
)
    requires
        0 <= i < levels.len(),
        levels[i].view_on(fs).contains_key(k),
        forall|j: int| 0 <= j < i ==> !(#[trigger] levels[j]).view_on(fs).dom().contains(k),
    ensures
        levels_view_from(levels, fs, 0).contains_key(k),
        levels_view_from(levels, fs, 0)[k] == levels[i].view_on(fs)[k],
    decreases i,
{
    if i == 0 {
    } else {
        lemma_view_from_shift(levels, fs, 1, i, k);
    }
}

proof fn lemma_view_from_shift(
    levels: Seq<LSMLevel>,
    fs: Map<FileId, Seq<char>>,
    lo: int,
    i: int,
    k: Seq<char>,
)
    requires
        0 < lo <= i < levels.len(),
        levels[i].view_on(fs).contains_key(k),
        forall|j: int| 0 <= j < i ==> !(#[trigger] levels[j]).view_on(fs).dom().contains(k),
    ensures
        levels_view_from(levels, fs, lo - 1).contains_key(k),
        levels_view_from(levels, fs, lo - 1)[k] == levels[i].view_on(fs)[k],
    decreases i - lo,
{
    if lo == i {
        lemma_view_from_tail_contains(levels, fs, i, k);
    } else {
        lemma_view_from_shift(levels, fs, lo + 1, i, k);
    }
}

/// A key held by level `i` is in the overlay from `i` on.
proof fn lemma_view_from_tail_contains(
    levels: Seq<LSMLevel>,
    fs: Map<FileId, Seq<char>>,
    i: int,
    k: Seq<char>,
)
    requires
        0 <= i < levels.len(),
        levels[i].view_on(fs).contains_key(k),
    ensures
        levels_view_from(levels, fs, i).contains_key(k),
        levels_view_from(levels, fs, i)[k] == levels[i].view_on(fs)[k],
{
}

/// A key absent from every level is absent from the levels' overlay.
proof fn lemma_view_from_none(levels: Seq<LSMLevel>, fs: Map<FileId, Seq<char>>, k: Seq<char>)
    requires
        forall|j: int|
            0 <= j < levels.len() ==> !(#[trigger] levels[j]).view_on(fs).dom().contains(k),
    ensures
        !levels_view_from(levels, fs, 0).dom().contains(k),
{
    lemma_view_from_none_from(levels, fs, 0, k);
}

proof fn lemma_view_from_none_from(
    levels: Seq<LSMLevel>,
    fs: Map<FileId, Seq<char>>,
    i: int,
    k: Seq<char>,
)
    requires
        0 <= i,
        forall|j: int|
            0 <= j < levels.len() ==> !(#[trigger] levels[j]).view_on(fs).dom().contains(k),
    ensures
        !levels_view_from(levels, fs, i).dom().contains(k),
    decreases levels.len() - i,
{
    if i < levels.len() {
        lemma_view_from_none_from(levels, fs, i + 1, k);
    }
}

/// Every block file of `fs1` is still in `fs2`, unchanged; other files may
/// come or go.
pub open spec fn old_blocks_kept(fs2: Map<FileId, Seq<char>>, fs1: Map<FileId, Seq<char>>) -> bool {
    forall|o: u32, id: u32|
        #[trigger] fs1.contains_key(FileId::Block { origin_level: o, block_file_id: id })
            ==> fs2.contains_key(FileId::Block { origin_level: o, block_file_id: id })
            && fs2[FileId::Block { origin_level: o, block_file_id: id }] == fs1[FileId::Block {
            origin_level: o,
            block_file_id: id,
        }]
}

/// Cached blocks stay coherent while their files stay put.
proof fn lemma_cache_coherent_frame(
    m: Map<u64, Seq<crate::model::PairData>>,
    fs1: Map<FileId, Seq<char>>,
    fs2: Map<FileId, Seq<char>>,
)
    requires
        cache_coherent(m, fs1),
        old_blocks_kept(fs2, fs1),
    ensures
        cache_coherent(m, fs2),
{
    assert forall|o: u32, id: u32| m.contains_key(#[trigger] meta_key(o, id)) implies {
        let fid = FileId::Block { origin_level: o, block_file_id: id };
        &&& fs2.contains_key(fid)
        &&& parse_pairs(fs2[fid]) == Some(m[meta_key(o, id)])
    } by {
        let fid = FileId::Block { origin_level: o, block_file_id: id };
        assert(fs1.contains_key(fid));
    }
}

/// A directory change that leaves every level's files in place changes no
/// level's content.
proof fn lemma_levels_frame(
    levels: Seq<LSMLevel>,
    fs1: Map<FileId, Seq<char>>,
    fs2: Map<FileId, Seq<char>>,
)
    requires
        levels_wf(levels, fs1),
        old_blocks_kept(fs2, fs1),
    ensures
        levels_wf(levels, fs2),
        forall|i: int|
            0 <= i < levels.len() ==> (#[trigger] levels[i]).view_on(fs2) == levels[i].view_on(
                fs1,
            ),
        forall|i: int|
            0 <= i < levels.len() ==> block_runs((#[trigger] levels[i]).infos(), fs2) == block_runs(
                levels[i].infos(),
                fs1,
            ),
{
    assert forall|i: int| 0 <= i < levels.len() implies (#[trigger] levels[i]).wf(fs2)
        && block_runs(levels[i].infos(), fs2) == block_runs(levels[i].infos(), fs1) by {
        assert(levels[i].wf(fs1));
        assert forall|j: int|
            0 <= j < levels[i].infos().len() implies fs2.contains_key(block_fid(
            #[trigger] levels[i].infos()[j],
        )) && fs2[block_fid(levels[i].infos()[j])] == fs1[block_fid(levels[i].infos()[j])] by {
            let b = levels[i].infos()[j];
            assert(block_wf(b, fs1));
            assert(fs1.contains_key(
                FileId::Block { origin_level: b.origin_level, block_file_id: b.block_file_id },
            ));
        }
        crate::level::lemma_blocks_frame(levels[i].infos(), fs1, fs2);
    }
}

/// Levels with the same content, level for level, overlay to the same map.
proof fn lemma_lvf_pointwise(
    a: Seq<LSMLevel>,
    fsa: Map<FileId, Seq<char>>,
    b: Seq<LSMLevel>,
    fsb: Map<FileId, Seq<char>>,
    i: int,
)
    requires
        a.len() == b.len(),
        0 <= i,
        forall|j: int|
            i <= j < a.len() ==> (#[trigger] b[j]).view_on(fsb) == a[j].view_on(fsa),
    ensures
        levels_view_from(b, fsb, i) == levels_view_from(a, fsa, i),
    decreases a.len() - i,
{
    if i < a.len() {
        lemma_lvf_pointwise(a, fsa, b, fsb, i + 1);
    }
}

/// Sums agree level for level, so they agree in total.
proof fn lemma_store_pairs_pointwise(
    a: Seq<LSMLevel>,
    fsa: Map<FileId, Seq<char>>,
    b: Seq<LSMLevel>,
    fsb: Map<FileId, Seq<char>>,
)
    requires
        a.len() == b.len(),
        forall|j: int|
            0 <= j < a.len() ==> crate::merge::runs_total(
                block_runs((#[trigger] b[j]).infos(), fsb),
            ) == crate::merge::runs_total(block_runs(a[j].infos(), fsa)),
    ensures
        store_pairs(b, fsb) == store_pairs(a, fsa),
    decreases a.len(),
{
    if a.len() > 0 {
        assert(forall|j: int| 0 <= j < a.len() - 1 ==> (#[trigger] a.drop_last()[j]) == a[j]);
        assert(forall|j: int| 0 <= j < b.len() - 1 ==> (#[trigger] b.drop_last()[j]) == b[j]);
        lemma_store_pairs_pointwise(a.drop_last(), fsa, b.drop_last(), fsb);
        assert(a.last() == a[a.len() - 1] && b.last() == b[b.len() - 1]);
    }
}

proof fn lemma_store_pairs_nonneg(levels: Seq<LSMLevel>, fs: Map<FileId, Seq<char>>)
    ensures
        store_pairs(levels, fs) >= 0,
    decreases levels.len(),
{
    if levels.len() > 0 {
        lemma_store_pairs_nonneg(levels.drop_last(), fs);
        crate::merge::lemma_runs_total_nonneg(block_runs(levels.last().infos(), fs));
    }
}

/// Replacing one level changes the total by that level's difference.
proof fn lemma_store_pairs_update(
    levels: Seq<LSMLevel>,
    fs: Map<FileId, Seq<char>>,
    i: int,
    l2: LSMLevel,
    fs2: Map<FileId, Seq<char>>,
)
    requires
        0 <= i < levels.len(),
        forall|j: int|
            0 <= j < levels.len() && j != i ==> crate::merge::runs_total(
                block_runs((#[trigger] levels[j]).infos(), fs2),
            ) == crate::merge::runs_total(block_runs(levels[j].infos(), fs)),
    ensures
        store_pairs(levels.update(i, l2), fs2) == store_pairs(levels, fs) - crate::merge::runs_total(
            block_runs(levels[i].infos(), fs),
        ) + crate::merge::runs_total(block_runs(l2.infos(), fs2)),
    decreases levels.len(),
{
    let up = levels.update(i, l2);
    if i == levels.len() - 1 {
        assert(up.drop_last() =~= levels.drop_last());
        assert(forall|j: int|
            0 <= j < levels.len() - 1 ==> (#[trigger] levels.drop_last()[j]) == levels[j]);
        lemma_store_pairs_pointwise(levels.drop_last(), fs, up.drop_last(), fs2);
        assert(up.last() == l2);
    } else {
        assert(up.drop_last() =~= levels.drop_last().update(i, l2));
        assert(forall|j: int|
            0 <= j < levels.len() - 1 ==> (#[trigger] levels.drop_last()[j]) == levels[j]);
        lemma_store_pairs_update(levels.drop_last(), fs, i, l2, fs2);
        assert(up.last() == levels.last());
    }
}

proof fn lemma_store_pairs_push(levels: Seq<LSMLevel>, l: LSMLevel, fs: Map<FileId, Seq<char>>)
    ensures
        store_pairs(levels.push(l), fs) == store_pairs(levels, fs) + crate::merge::runs_total(
            block_runs(l.infos(), fs),
        ),
{
    assert(levels.push(l).drop_last() =~= levels);
}



/// Every allocator from level index `lo` on can still number every record
/// the store holds.
pub open spec fn alloc_room_from(
    levels: Seq<LSMLevel>,
    fs: Map<FileId, Seq<char>>,
    lo: int,
) -> bool {
    forall|i: int|
        lo <= i < levels.len() ==> (#[trigger] levels[i]).alloc_current() + store_pairs(levels, fs)
            + 1 <= u32::MAX
}

/// The levels read the same under both directories.
pub open spec fn views_match(
    levels: Seq<LSMLevel>,
    fs2: Map<FileId, Seq<char>>,
    fs1: Map<FileId, Seq<char>>,
) -> bool {
    forall|i: int|
        0 <= i < levels.len() ==> (#[trigger] levels[i]).view_on(fs2) == levels[i].view_on(fs1)
            && block_runs(levels[i].infos(), fs2) == block_runs(levels[i].infos(), fs1)
}

/// None of the listed identities is a block any level still holds.
pub open spec fn metas_clear_of_levels(ms: Seq<LSMBlockMeta>, levels: Seq<LSMLevel>) -> bool {
    forall|q: int, i: int, j: int|
        0 <= q < ms.len() && 0 <= i < levels.len() && 0 <= j < levels[i].infos().len() ==> (
        #[trigger] ms[q]).fid() != block_fid(#[trigger] levels[i].infos()[j])
}

/// Removing a file no level references leaves every level as it was.
proof fn lemma_levels_remove_file(
    levels: Seq<LSMLevel>,
    fs: Map<FileId, Seq<char>>,
    fid: FileId,
)
    requires
        levels_wf(levels, fs),
        forall|i: int, j: int|
            0 <= i < levels.len() && 0 <= j < levels[i].infos().len() ==> block_fid(
                #[trigger] levels[i].infos()[j],
            ) != fid,
    ensures
        levels_wf(levels, fs.remove(fid)),
        views_match(levels, fs.remove(fid), fs),
{
    let fs2 = fs.remove(fid);
    assert forall|i: int| 0 <= i < levels.len() implies (#[trigger] levels[i]).wf(fs2) && levels[i].view_on(
        fs2,
    ) == levels[i].view_on(fs) && block_runs(levels[i].infos(), fs2) == block_runs(
        levels[i].infos(),
        fs,
    ) by {
        assert(levels[i].wf(fs));
        assert forall|j: int|
            0 <= j < levels[i].infos().len() implies fs2.contains_key(block_fid(
            #[trigger] levels[i].infos()[j],
        )) && fs2[block_fid(levels[i].infos()[j])] == fs[block_fid(levels[i].infos()[j])] by {
            assert(block_wf(levels[i].infos()[j], fs));
            assert(block_fid(levels[i].infos()[j]) != fid);
        }
        crate::level::lemma_blocks_frame(levels[i].infos(), fs, fs2);
    }
}

/// A level that holds nothing adds nothing to the overlay.
proof fn lemma_lvf_append_empty(
    levels: Seq<LSMLevel>,
    l: LSMLevel,
    fs: Map<FileId, Seq<char>>,
    i: int,
)
    requires
        0 <= i,
        l.view_on(fs) == Map::<Seq<char>, Seq<char>>::empty(),
    ensures
        levels_view_from(levels.push(l), fs, i) == levels_view_from(levels, fs, i),
    decreases levels.len() + 1 - i,
{
    let up = levels.push(l);
    if i >= up.len() {
    } else if i == up.len() - 1 {
        assert(levels_view_from(up, fs, i) == levels_view_from(up, fs, i + 1).union_prefer_right(
            l.view_on(fs),
        ));
        assert(Map::<Seq<char>, Seq<char>>::empty().union_prefer_right(l.view_on(fs))
            =~= Map::<Seq<char>, Seq<char>>::empty());
        assert(levels_view_from(levels, fs, i) == Map::<Seq<char>, Seq<char>>::empty());
    } else {
        lemma_lvf_append_empty(levels, l, fs, i + 1);
        assert(up[i] == levels[i]);
    }
}

/// Moving content from one level to the next leaves the overlay as it was.
proof fn lemma_lvf_two_level_step(
    a: Seq<LSMLevel>,
    fsa: Map<FileId, Seq<char>>,
    b: Seq<LSMLevel>,
    fsb: Map<FileId, Seq<char>>,
    s: int,
    kk: Map<Seq<char>, Seq<char>>,
    mm: Map<Seq<char>, Seq<char>>,
)
    requires
        a.len() == b.len(),
        0 <= s,
        s + 1 < a.len(),
        forall|j: int|
            0 <= j < a.len() && j != s && j != s + 1 ==> (#[trigger] b[j]).view_on(fsb)
                == a[j].view_on(fsa),
        a[s].view_on(fsa) == mm.union_prefer_right(kk),
        b[s].view_on(fsb) == kk,
        b[s + 1].view_on(fsb) == a[s + 1].view_on(fsa).union_prefer_right(mm),
    ensures
        levels_view_from(b, fsb, 0) == levels_view_from(a, fsa, 0),
{
    lemma_lvf_two_level_at(a, fsa, b, fsb, s, kk, mm, 0);
}

proof fn lemma_lvf_two_level_at(
    a: Seq<LSMLevel>,
    fsa: Map<FileId, Seq<char>>,
    b: Seq<LSMLevel>,
    fsb: Map<FileId, Seq<char>>,
    s: int,
    kk: Map<Seq<char>, Seq<char>>,
    mm: Map<Seq<char>, Seq<char>>,
    i: int,
)
    requires
        a.len() == b.len(),
        0 <= i <= s,
        s + 1 < a.len(),
        forall|j: int|
            0 <= j < a.len() && j != s && j != s + 1 ==> (#[trigger] b[j]).view_on(fsb)
                == a[j].view_on(fsa),
        a[s].view_on(fsa) == mm.union_prefer_right(kk),
        b[s].view_on(fsb) == kk,
        b[s + 1].view_on(fsb) == a[s + 1].view_on(fsa).union_prefer_right(mm),
    ensures
        levels_view_from(b, fsb, i) == levels_view_from(a, fsa, i),
    decreases s - i,
{
    if i == s {
        lemma_lvf_pointwise(a, fsa, b, fsb, s + 2);
        let tail = levels_view_from(a, fsa, s + 2);
        let v1 = a[s + 1].view_on(fsa);
        assert(levels_view_from(b, fsb, s + 2) == tail);
        assert(levels_view_from(b, fsb, s + 1) == levels_view_from(
            b,
            fsb,
            s + 2,
        ).union_prefer_right(b[s + 1].view_on(fsb)));
        assert(levels_view_from(b, fsb, s) == levels_view_from(b, fsb, s + 1).union_prefer_right(
            b[s].view_on(fsb),
        ));
        assert(levels_view_from(a, fsa, s + 1) == levels_view_from(
            a,
            fsa,
            s + 2,
        ).union_prefer_right(v1));
        assert(levels_view_from(a, fsa, s) == levels_view_from(a, fsa, s + 1).union_prefer_right(
            a[s].view_on(fsa),
        ));
        assert(levels_view_from(b, fsb, s) == tail.union_prefer_right(
            v1.union_prefer_right(mm),
        ).union_prefer_right(kk));
        assert(levels_view_from(a, fsa, s) == tail.union_prefer_right(v1).union_prefer_right(
            mm.union_prefer_right(kk),
        ));
        assert(tail.union_prefer_right(v1.union_prefer_right(mm)).union_prefer_right(kk)
            =~= tail.union_prefer_right(v1).union_prefer_right(mm.union_prefer_right(kk)));
    } else {
        lemma_lvf_two_level_at(a, fsa, b, fsb, s, kk, mm, i + 1);
    }
}

/// Two distinct levels' records both count toward the store's total.
proof fn lemma_store_pairs_two(
    levels: Seq<LSMLevel>,
    fs: Map<FileId, Seq<char>>,
    a: int,
    b: int,
)
    requires
        0 <= a < levels.len(),
        0 <= b < levels.len(),
        a != b,
    ensures
        crate::merge::runs_total(block_runs(levels[a].infos(), fs)) + crate::merge::runs_total(
            block_runs(levels[b].infos(), fs),
        ) <= store_pairs(levels, fs),
    decreases levels.len(),
{
    let n = levels.len() as int;
    assert(forall|j: int| 0 <= j < n - 1 ==> (#[trigger] levels.drop_last()[j]) == levels[j]);
    if a == n - 1 {
        lemma_store_pairs_one(levels.drop_last(), fs, b);
    } else if b == n - 1 {
        lemma_store_pairs_one(levels.drop_last(), fs, a);
    } else {
        lemma_store_pairs_two(levels.drop_last(), fs, a, b);
        crate::merge::lemma_runs_total_nonneg(block_runs(levels.last().infos(), fs));
    }
}

proof fn lemma_store_pairs_one(levels: Seq<LSMLevel>, fs: Map<FileId, Seq<char>>, a: int)
    requires
        0 <= a < levels.len(),
    ensures
        crate::merge::runs_total(block_runs(levels[a].infos(), fs)) <= store_pairs(levels, fs),
    decreases levels.len(),
{
    assert(forall|j: int|
        0 <= j < levels.len() - 1 ==> (#[trigger] levels.drop_last()[j]) == levels[j]);
    if a == levels.len() - 1 {
        lemma_store_pairs_nonneg(levels.drop_last(), fs);
    } else {
        lemma_store_pairs_one(levels.drop_last(), fs, a);
        crate::merge::lemma_runs_total_nonneg(block_runs(levels.last().infos(), fs));
    }
}

/// Blocks are never empty, so a level has at least as many records as
/// blocks.
proof fn lemma_level_len_le_total(infos: Seq<BlockInfo>, fs: Map<FileId, Seq<char>>)
    requires
        blocks_wf(infos, fs),
    ensures
        infos.len() <= crate::merge::runs_total(block_runs(infos, fs)),
    decreases infos.len(),
{
    if infos.len() > 0 {
        assert(forall|j: int|
            0 <= j < infos.len() - 1 ==> (#[trigger] infos.drop_last()[j]) == infos[j]);
        lemma_level_len_le_total(infos.drop_last(), fs);
        assert(block_runs(infos, fs).drop_last() =~= block_runs(infos.drop_last(), fs));
        assert(block_runs(infos, fs).last() == block_pairs(infos.last(), fs));
        assert(block_wf(infos.last(), fs));
        assert(block_pairs(infos.last(), fs).len() > 0);
    }
}

/// A level's capacity is never below its depth.
proof fn lemma_level_size_max_ge_level(c: LSMConfig, level: int)
    requires
        config_wf(c),
        level >= 1,
    ensures
        level_size_max_spec(c, level) >= level - 1,
    decreases level,
{
    if level <= 2 {
        lemma_level_size_max_pos(c, level);
    } else {
        lemma_level_size_max_ge_level(c, level - 1);
        lemma_level_size_max_grows(c, level - 1);
        lemma_level_size_max_pos(c, level - 1);
    }
}


/// A block outside the two levels a cascade step touched sat at the same
/// position before the step.
proof fn lemma_cascade_old_position(
    p_levels: Seq<LSMLevel>,
    n_levels: Seq<LSMLevel>,
    moved_infos: Seq<BlockInfo>,
    kept_src: LSMLevel,
    src: int,
    i: int,
    j: int,
)
    requires
        p_levels.len() == n_levels.len(),
        0 <= src,
        src + 1 < p_levels.len(),
        n_levels[src] == kept_src,
        p_levels[src].infos() == moved_infos + kept_src.infos(),
        forall|x: int|
            0 <= x < n_levels.len() && x != src && x != src + 1 ==> (#[trigger] n_levels[x])
                == p_levels[x],
        0 <= i < n_levels.len(),
        i != src + 1,
        0 <= j < n_levels[i].infos().len(),
    ensures
        exists|a: int, c: int|
            0 <= a < p_levels.len() && 0 <= c < p_levels[a].infos().len() && (
            #[trigger] p_levels[a].infos()[c]) == n_levels[i].infos()[j] && a == i && (i != src || c
                == j + moved_infos.len()),
{
    if i == src {
        assert(p_levels[src].infos()[moved_infos.len() + j] == n_levels[i].infos()[j]);
    } else {
        assert(p_levels[i].infos()[j] == n_levels[i].infos()[j]);
    }
}

/// A block of the merged level never collides with a block elsewhere.
proof fn lemma_cascade_cross_distinct(
    p_levels: Seq<LSMLevel>,
    n_levels: Seq<LSMLevel>,
    p_fs: Map<FileId, Seq<char>>,
    moved_infos: Seq<BlockInfo>,
    kept_src: LSMLevel,
    src: int,
    io: int,
    jo: int,
    jm: int,
)
    requires
        p_levels.len() == n_levels.len(),
        0 <= src,
        src + 1 < p_levels.len(),
        n_levels[src] == kept_src,
        p_levels[src].infos() == moved_infos + kept_src.infos(),
        forall|x: int|
            0 <= x < n_levels.len() && x != src && x != src + 1 ==> (#[trigger] n_levels[x])
                == p_levels[x],
        levels_numbered(p_levels),
        levels_wf(p_levels, p_fs),
        blocks_wf(moved_infos, p_fs),
        levels_dominated(p_levels),
        store_distinct(p_levels),
        fresh_block_ids(p_fs, p_levels[src + 1].level_no(), p_levels[src + 1].alloc_current()),
        forall|x: int|
            0 <= x < n_levels[src + 1].infos().len() ==> ((exists|y: int|
                0 <= y < (p_levels[src + 1].infos() + moved_infos).len() && (#[trigger] (p_levels[
                    src + 1
                ].infos() + moved_infos)[y]) == n_levels[src + 1].infos()[x]) || ((
            #[trigger] n_levels[src + 1].infos()[x]).origin_level == p_levels[src + 1].level_no()
                && p_levels[src + 1].alloc_current() <= n_levels[src + 1].infos()[x].block_file_id
                < n_levels[src + 1].alloc_current())),
        0 <= io < n_levels.len(),
        io != src + 1,
        0 <= jo < n_levels[io].infos().len(),
        0 <= jm < n_levels[src + 1].infos().len(),
    ensures
        block_fid(n_levels[io].infos()[jo]) != block_fid(n_levels[src + 1].infos()[jm]),
{
    let bo = n_levels[io].infos()[jo];
    let bm = n_levels[src + 1].infos()[jm];
    lemma_cascade_old_position(p_levels, n_levels, moved_infos, kept_src, src, io, jo);
    let (a, c) = choose|a: int, c: int|
        0 <= a < p_levels.len() && 0 <= c < p_levels[a].infos().len() && (
        #[trigger] p_levels[a].infos()[c]) == bo && a == io && (io != src || c == jo
            + moved_infos.len());
    let both = p_levels[src + 1].infos() + moved_infos;
    if exists|y: int| 0 <= y < both.len() && (#[trigger] both[y]) == bm {
        let y = choose|y: int| 0 <= y < both.len() && (#[trigger] both[y]) == bm;
        if y < p_levels[src + 1].infos().len() {
            assert(p_levels[src + 1].infos()[y] == bm);
            assert(store_distinct(p_levels));
            assert(a != src + 1);
        } else {
            let c2 = y - p_levels[src + 1].infos().len();
            assert(p_levels[src].infos()[c2] == bm);
            assert(c2 < moved_infos.len());
            assert(store_distinct(p_levels));
            if a == src {
                assert(c >= moved_infos.len());
                assert(c != c2);
            }
        }
    } else {
        // a freshly numbered block of the merged level: no old block of
        // that origin reaches its id
        assert(bm.origin_level == src + 2);
        assert(p_levels[src + 1].alloc_current() <= bm.block_file_id);
        if block_fid(bo) == block_fid(bm) {
            assert(bo.origin_level == bm.origin_level && bo.block_file_id == bm.block_file_id);
            assert(levels_dominated(p_levels));
            assert(bo.block_file_id < p_levels[bo.origin_level - 1].alloc_current());
            assert(bo.origin_level - 1 == src + 1);
            assert(false);
        }
    }
}

/// After one cascade step no block file exists at or past any level's
/// allocator.
proof fn lemma_cascade_fresh(
    p_levels: Seq<LSMLevel>,
    n_levels: Seq<LSMLevel>,
    p_fs: Map<FileId, Seq<char>>,
    m_fs: Map<FileId, Seq<char>>,
    n_fs: Map<FileId, Seq<char>>,
    moved_infos: Seq<BlockInfo>,
    kept_src: LSMLevel,
    src: int,
)
    requires
        p_levels.len() == n_levels.len(),
        0 <= src,
        src + 1 < p_levels.len(),
        n_levels[src] == kept_src,
        kept_src.level_no() == p_levels[src].level_no(),
        kept_src.alloc_current() == p_levels[src].alloc_current(),
        p_levels[src].infos() == moved_infos + kept_src.infos(),
        forall|x: int|
            0 <= x < n_levels.len() && x != src && x != src + 1 ==> (#[trigger] n_levels[x])
                == p_levels[x],
        n_levels[src + 1].level_no() == p_levels[src + 1].level_no(),
        n_levels[src + 1].alloc_current() >= p_levels[src + 1].alloc_current(),
        levels_numbered(p_levels),
        levels_fresh(p_levels, p_fs),
        levels_dominated(p_levels),
        old_blocks_kept(n_fs, m_fs),
        forall|o: u32, id: u32|
            #[trigger] n_fs.contains_key(FileId::Block { origin_level: o, block_file_id: id })
                ==> m_fs.contains_key(FileId::Block { origin_level: o, block_file_id: id }),
        fs_extends(m_fs, p_fs),
        additions_are_blocks(m_fs, p_fs, n_levels[src + 1].infos()),
        forall|x: int|
            0 <= x < n_levels[src + 1].infos().len() ==> ((exists|y: int|
                0 <= y < (p_levels[src + 1].infos() + moved_infos).len() && (#[trigger] (p_levels[
                    src + 1
                ].infos() + moved_infos)[y]) == n_levels[src + 1].infos()[x]) || ((
            #[trigger] n_levels[src + 1].infos()[x]).origin_level == p_levels[src + 1].level_no()
                && p_levels[src + 1].alloc_current() <= n_levels[src + 1].infos()[x].block_file_id
                < n_levels[src + 1].alloc_current())),
    ensures
        levels_fresh(n_levels, n_fs),
{
    assert forall|i: int|
        0 <= i < n_levels.len() implies fresh_block_ids(
        n_fs,
        (#[trigger] n_levels[i]).level_no(),
        n_levels[i].alloc_current(),
    ) by {
        let ln = n_levels[i].level_no();
        let ac = n_levels[i].alloc_current();
        assert forall|id: u32| id >= ac implies !(#[trigger] n_fs.contains_key(
            FileId::Block { origin_level: ln, block_file_id: id },
        )) by {
            let f = FileId::Block { origin_level: ln, block_file_id: id };
            if n_fs.contains_key(f) {
                assert(m_fs.contains_key(f));
                if p_fs.contains_key(f) {
                    // an old file: it sat below every old allocator
                    assert(levels_fresh(p_levels, p_fs));
                    if i == src + 1 {
                        assert(p_levels[i].level_no() == ln);
                        assert(ac >= p_levels[i].alloc_current());
                        assert(!p_fs.contains_key(f));
                    } else {
                        assert(n_levels[i].alloc_current() == p_levels[i].alloc_current());
                        assert(!p_fs.contains_key(f));
                    }
                    assert(false);
                } else {
                    // a file the merge wrote: its block is a resident of
                    // the merged level, below that level's allocator
                    assert(additions_are_blocks(m_fs, p_fs, n_levels[src + 1].infos()));
                    let jb = choose|jb: int|
                        0 <= jb < n_levels[src + 1].infos().len() && f == block_fid(
                            #[trigger] n_levels[src + 1].infos()[jb],
                        );
                    let b = n_levels[src + 1].infos()[jb];
                    assert(b.origin_level == ln && b.block_file_id == id);
                    let both = p_levels[src + 1].infos() + moved_infos;
                    if exists|jj: int| 0 <= jj < both.len() && (#[trigger] both[jj]) == b {
                        let jj = choose|jj: int|
                            0 <= jj < both.len() && (#[trigger] both[jj]) == b;
                        if jj < p_levels[src + 1].infos().len() {
                            assert(b == p_levels[src + 1].infos()[jj]);
                            assert(levels_dominated(p_levels));
                            assert(b.block_file_id < p_levels[b.origin_level
                                - 1].alloc_current());
                        } else {
                            assert(b == p_levels[src].infos()[jj - p_levels[src
                                + 1].infos().len()]);
                            assert(levels_dominated(p_levels));
                            assert(b.block_file_id < p_levels[b.origin_level
                                - 1].alloc_current());
                        }
                        if b.origin_level - 1 == src + 1 {
                            assert(n_levels[src + 1].alloc_current() >= p_levels[src
                                + 1].alloc_current());
                        } else {
                            assert(n_levels[b.origin_level - 1].alloc_current() == p_levels[
                                b.origin_level - 1
                            ].alloc_current());
                        }
                        assert(i == b.origin_level - 1);
                        assert(false);
                    } else {
                        assert(b.origin_level == src + 2 && p_levels[src + 1].alloc_current()
                            <= b.block_file_id < n_levels[src + 1].alloc_current());
                        assert(i == src + 1);
                        assert(false);
                    }
                }
            }
        }
    }
}


/// After the merge and the two manifest rewrites, the manifests are exact
/// again and no file claims a level that does not exist.
proof fn lemma_cascade_dir(
    p_levels: Seq<LSMLevel>,
    n_levels: Seq<LSMLevel>,
    p_fs: Map<FileId, Seq<char>>,
    m_fs: Map<FileId, Seq<char>>,
    n_fs: Map<FileId, Seq<char>>,
    moved_infos: Seq<BlockInfo>,
    kept_src: LSMLevel,
    src: int,
)
    requires
        p_levels.len() == n_levels.len(),
        0 <= src,
        src + 1 < p_levels.len(),
        n_levels[src] == kept_src,
        kept_src.level_no() == p_levels[src].level_no(),
        kept_src.alloc_current() == p_levels[src].alloc_current(),
        p_levels[src].infos() == moved_infos + kept_src.infos(),
        forall|x: int|
            0 <= x < n_levels.len() && x != src && x != src + 1 ==> (#[trigger] n_levels[x])
                == p_levels[x],
        n_levels[src + 1].level_no() == p_levels[src + 1].level_no(),
        n_levels[src + 1].alloc_current() >= p_levels[src + 1].alloc_current(),
        levels_numbered(p_levels),
        levels_dominated(p_levels),
        no_stray_files(p_levels, p_fs),
        manifests_ok(p_levels, p_fs),
        fs_extends(m_fs, p_fs),
        additions_are_blocks(m_fs, p_fs, n_levels[src + 1].infos()),
        forall|x: int|
            0 <= x < n_levels[src + 1].infos().len() ==> ((exists|y: int|
                0 <= y < (p_levels[src + 1].infos() + moved_infos).len() && (#[trigger] (p_levels[
                    src + 1
                ].infos() + moved_infos)[y]) == n_levels[src + 1].infos()[x]) || ((
            #[trigger] n_levels[src + 1].infos()[x]).origin_level == p_levels[src + 1].level_no()
                && p_levels[src + 1].alloc_current() <= n_levels[src + 1].infos()[x].block_file_id
                < n_levels[src + 1].alloc_current())),
        n_fs == m_fs.insert(
            FileId::Manifest { level: kept_src.level_no() },
            crate::codec::encode_manifest(kept_src.alloc_current(), kept_src.infos()),
        ).insert(
            FileId::Manifest { level: n_levels[src + 1].level_no() },
            crate::codec::encode_manifest(
                n_levels[src + 1].alloc_current(),
                n_levels[src + 1].infos(),
            ),
        ),
    ensures
        manifests_ok(n_levels, n_fs),
        no_stray_files(n_levels, n_fs),
{
    assert(manifests_ok(n_levels, n_fs)) by {
        assert forall|i: int| 0 <= i < n_levels.len() implies {
            let l = #[trigger] n_levels[i];
            &&& n_fs.contains_key(FileId::Manifest { level: l.level_no() })
            &&& n_fs[FileId::Manifest { level: l.level_no() }] == crate::codec::encode_manifest(
                l.alloc_current(),
                l.infos(),
            )
        } by {
            let l = n_levels[i];
            if i == src {
                assert(l.level_no() == src + 1);
            } else if i == src + 1 {
                assert(l.level_no() == src + 2);
            } else {
                assert(manifests_ok(p_levels, p_fs));
                assert(l == p_levels[i]);
                assert(fs_extends(m_fs, p_fs));
                assert(l.level_no() != src + 1 && l.level_no() != src + 2);
            }
        }
    }
    assert(no_stray_files(n_levels, n_fs)) by {
        assert forall|o: u32, id: u32| #[trigger] n_fs.contains_key(
            FileId::Block { origin_level: o, block_file_id: id },
        ) implies 1 <= o <= n_levels.len() by {
            let f = FileId::Block { origin_level: o, block_file_id: id };
            assert(m_fs.contains_key(f));
            if p_fs.contains_key(f) {
                assert(no_stray_files(p_levels, p_fs));
            } else {
                assert(additions_are_blocks(m_fs, p_fs, n_levels[src + 1].infos()));
                let jb = choose|jb: int|
                    0 <= jb < n_levels[src + 1].infos().len() && f == block_fid(
                        #[trigger] n_levels[src + 1].infos()[jb],
                    );
                let b = n_levels[src + 1].infos()[jb];
                let both = p_levels[src + 1].infos() + moved_infos;
                if exists|jj: int| 0 <= jj < both.len() && (#[trigger] both[jj]) == b {
                    let jj = choose|jj: int| 0 <= jj < both.len() && (#[trigger] both[jj]) == b;
                    if jj < p_levels[src + 1].infos().len() {
                        assert(b == p_levels[src + 1].infos()[jj]);
                        assert(levels_dominated(p_levels));
                    } else {
                        assert(b == p_levels[src].infos()[jj - p_levels[src + 1].infos().len()]);
                        assert(levels_dominated(p_levels));
                    }
                } else {
                    assert(b.origin_level == src + 2);
                }
            }
        }
    }
}

/// One cascade step moves content between two adjacent levels without
/// changing what the store holds, and without growing the record count.
proof fn lemma_cascade_view(
    p_levels: Seq<LSMLevel>,
    n_levels: Seq<LSMLevel>,
    p_fs: Map<FileId, Seq<char>>,
    m_fs: Map<FileId, Seq<char>>,
    n_fs: Map<FileId, Seq<char>>,
    e_fs: Map<FileId, Seq<char>>,
    moved_infos: Seq<BlockInfo>,
    kept_src: LSMLevel,
    src: int,
)
    requires
        p_levels.len() == n_levels.len(),
        0 <= src,
        src + 1 < p_levels.len(),
        n_levels[src] == kept_src,
        p_levels[src].infos() == moved_infos + kept_src.infos(),
        forall|x: int|
            0 <= x < n_levels.len() && x != src && x != src + 1 ==> (#[trigger] n_levels[x])
                == p_levels[x],
        views_match(n_levels, e_fs, n_fs),
        views_match(p_levels, m_fs, p_fs),
        views_match(n_levels, n_fs, m_fs),
        block_runs(kept_src.infos(), m_fs) == block_runs(kept_src.infos(), p_fs),
        block_runs(kept_src.infos(), n_fs) == block_runs(kept_src.infos(), m_fs),
        n_levels[src + 1].view_on(m_fs) == p_levels[src + 1].view_on(p_fs).union_prefer_right(
            level_view(moved_infos, p_fs),
        ),
        crate::merge::runs_total(block_runs(n_levels[src + 1].infos(), m_fs))
            <= crate::merge::runs_total(
            block_runs(p_levels[src + 1].infos() + moved_infos, p_fs),
        ),
    ensures
        levels_view_from(n_levels, e_fs, 0) == levels_view_from(p_levels, p_fs, 0),
        store_pairs(n_levels, e_fs) <= store_pairs(p_levels, p_fs),
{
    let dst_old = p_levels[src + 1];
    let dst_new = n_levels[src + 1];
    let kk = pmap_all(block_runs(kept_src.infos(), p_fs));
    let mm = pmap_all(block_runs(moved_infos, p_fs));
    assert(block_runs(p_levels[src].infos(), p_fs) =~= block_runs(moved_infos, p_fs) + block_runs(
        kept_src.infos(),
        p_fs,
    ));
    crate::merge::lemma_runs_total_concat(
        block_runs(moved_infos, p_fs),
        block_runs(kept_src.infos(), p_fs),
    );
    assert(p_levels[src].view_on(p_fs) == mm.union_prefer_right(kk)) by {
        crate::model::lemma_pmap_all_concat(
            block_runs(moved_infos, p_fs),
            block_runs(kept_src.infos(), p_fs),
        );
    }
    assert(kept_src.view_on(e_fs) == kk) by {
        assert(n_levels[src] == kept_src);
        assert(kept_src.view_on(e_fs) == kept_src.view_on(n_fs));
    }
    assert(dst_new.view_on(e_fs) == dst_old.view_on(p_fs).union_prefer_right(mm)) by {
        assert(dst_new.view_on(e_fs) == dst_new.view_on(n_fs));
        assert(dst_new.view_on(n_fs) == dst_new.view_on(m_fs));
    }
    assert forall|j: int|
        0 <= j < n_levels.len() && j != src && j != src + 1 implies (
    #[trigger] n_levels[j]).view_on(e_fs) == p_levels[j].view_on(p_fs) by {
        assert(n_levels[j] == p_levels[j]);
        assert(n_levels[j].view_on(e_fs) == n_levels[j].view_on(n_fs));
        assert(n_levels[j].view_on(n_fs) == n_levels[j].view_on(m_fs));
        assert(n_levels[j].view_on(m_fs) == n_levels[j].view_on(p_fs));
    }
    lemma_lvf_two_level_step(p_levels, p_fs, n_levels, e_fs, src, kk, mm);
    // totals: the merged region was rewritten without duplicates
    assert forall|j: int|
        0 <= j < n_levels.len() && j != src && j != src + 1 implies crate::merge::runs_total(
        block_runs((#[trigger] n_levels[j]).infos(), e_fs),
    ) == crate::merge::runs_total(block_runs(p_levels[j].infos(), p_fs)) by {
        assert(n_levels[j] == p_levels[j]);
        assert(block_runs(n_levels[j].infos(), e_fs) == block_runs(n_levels[j].infos(), n_fs));
        assert(block_runs(n_levels[j].infos(), n_fs) == block_runs(n_levels[j].infos(), m_fs));
        assert(block_runs(n_levels[j].infos(), m_fs) == block_runs(n_levels[j].infos(), p_fs));
    }
    let kept_total = crate::merge::runs_total(block_runs(kept_src.infos(), p_fs));
    let moved_total = crate::merge::runs_total(block_runs(moved_infos, p_fs));
    let dst_total = crate::merge::runs_total(block_runs(dst_old.infos(), p_fs));
    let dst_new_total = crate::merge::runs_total(block_runs(dst_new.infos(), e_fs));
    assert(crate::merge::runs_total(block_runs(kept_src.infos(), e_fs)) == kept_total) by {
        assert(n_levels[src] == kept_src);
        assert(block_runs(kept_src.infos(), e_fs) == block_runs(kept_src.infos(), n_fs));
    }
    assert(dst_new_total <= dst_total + moved_total) by {
        assert(n_levels[src + 1] == dst_new);
        assert(block_runs(dst_new.infos(), e_fs) == block_runs(dst_new.infos(), n_fs));
        assert(block_runs(dst_new.infos(), n_fs) == block_runs(dst_new.infos(), m_fs));
        assert(block_runs(dst_old.infos() + moved_infos, p_fs) =~= block_runs(
            dst_old.infos(),
            p_fs,
        ) + block_runs(moved_infos, p_fs));
        crate::merge::lemma_runs_total_concat(
            block_runs(dst_old.infos(), p_fs),
            block_runs(moved_infos, p_fs),
        );
    }
    let mid = p_levels.update(src, kept_src);
    lemma_store_pairs_update(p_levels, p_fs, src, kept_src, p_fs);
    assert(forall|j: int|
        0 <= j < mid.len() && j != src + 1 ==> (#[trigger] mid[j]).infos()
            == n_levels[j].infos());
    assert(forall|j: int|
        0 <= j < mid.len() && j != src + 1 ==> crate::merge::runs_total(
            block_runs((#[trigger] mid[j]).infos(), e_fs),
        ) == crate::merge::runs_total(block_runs(mid[j].infos(), p_fs)));
    lemma_store_pairs_update(mid, p_fs, src + 1, dst_new, e_fs);
    assert(mid.update(src + 1, dst_new) =~= n_levels);
    assert(mid[src + 1] == dst_old);
    assert(store_pairs(n_levels, e_fs) <= store_pairs(p_levels, p_fs));
}

/// The identities the merge listed as removed belong to no surviving
/// block of any level.
proof fn lemma_metas_clear(
    p_levels: Seq<LSMLevel>,
    n_levels: Seq<LSMLevel>,
    moved_infos: Seq<BlockInfo>,
    kept_src: LSMLevel,
    src: int,
    removed: Seq<LSMBlockMeta>,
)
    requires
        p_levels.len() == n_levels.len(),
        0 <= src,
        src + 1 < p_levels.len(),
        n_levels[src] == kept_src,
        p_levels[src].infos() == moved_infos + kept_src.infos(),
        forall|x: int|
            0 <= x < n_levels.len() && x != src && x != src + 1 ==> (#[trigger] n_levels[x])
                == p_levels[x],
        store_distinct(p_levels),
        forall|q: int|
            0 <= q < removed.len() ==> (exists|y: int|
                0 <= y < (p_levels[src + 1].infos() + moved_infos).len() && block_fid(
                    #[trigger] (p_levels[src + 1].infos() + moved_infos)[y],
                ) == (#[trigger] removed[q]).fid()),
        forall|q: int, x: int|
            0 <= q < removed.len() && 0 <= x < n_levels[src + 1].infos().len() ==> block_fid(
                #[trigger] n_levels[src + 1].infos()[x],
            ) != (#[trigger] removed[q]).fid(),
    ensures
        metas_clear_of_levels(removed, n_levels),
{
    let both = p_levels[src + 1].infos() + moved_infos;
    assert forall|q: int, i: int, j: int|
        0 <= q < removed.len() && 0 <= i < n_levels.len() && 0 <= j < n_levels[i].infos().len()
        implies (#[trigger] removed[q]).fid() != block_fid(#[trigger] n_levels[i].infos()[j]) by {
        let m = removed[q];
        let jj = choose|jj: int| 0 <= jj < both.len() && block_fid(#[trigger] both[jj]) == m.fid();
        let dl = p_levels[src + 1].infos().len() as int;
        if i == src + 1 {
            // the merge itself promises this
        } else if i == src {
            // a kept source block, distinct from every merged one
            assert(n_levels[i].infos()[j] == p_levels[src].infos()[moved_infos.len() + j]);
            if jj < dl {
                assert(both[jj] == p_levels[src + 1].infos()[jj]);
                assert(store_distinct(p_levels));
            } else {
                assert(both[jj] == p_levels[src].infos()[jj - dl]);
                assert(jj - dl < moved_infos.len());
                assert(store_distinct(p_levels));
            }
        } else {
            assert(n_levels[i].infos() == p_levels[i].infos());
            if jj < dl {
                assert(both[jj] == p_levels[src + 1].infos()[jj]);
                assert(store_distinct(p_levels));
            } else {
                assert(both[jj] == p_levels[src].infos()[jj - dl]);
                assert(store_distinct(p_levels));
            }
        }
    }
}

/// After a cascade step every block's origin still names an existing
/// level, below that level's allocator.
proof fn lemma_cascade_dominated(
    p_levels: Seq<LSMLevel>,
    n_levels: Seq<LSMLevel>,
    moved_infos: Seq<BlockInfo>,
    kept_src: LSMLevel,
    src: int,
)
    requires
        p_levels.len() == n_levels.len(),
        0 <= src,
        src + 1 < p_levels.len(),
        n_levels[src] == kept_src,
        kept_src.alloc_current() == p_levels[src].alloc_current(),
        p_levels[src].infos() == moved_infos + kept_src.infos(),
        forall|x: int|
            0 <= x < n_levels.len() && x != src && x != src + 1 ==> (#[trigger] n_levels[x])
                == p_levels[x],
        n_levels[src + 1].level_no() == p_levels[src + 1].level_no(),
        n_levels[src + 1].alloc_current() >= p_levels[src + 1].alloc_current(),
        levels_numbered(p_levels),
        levels_dominated(p_levels),
        forall|x: int|
            0 <= x < n_levels[src + 1].infos().len() ==> ((exists|y: int|
                0 <= y < (p_levels[src + 1].infos() + moved_infos).len() && (#[trigger] (p_levels[
                    src + 1
                ].infos() + moved_infos)[y]) == n_levels[src + 1].infos()[x]) || ((
            #[trigger] n_levels[src + 1].infos()[x]).origin_level == p_levels[src + 1].level_no()
                && p_levels[src + 1].alloc_current() <= n_levels[src + 1].infos()[x].block_file_id
                < n_levels[src + 1].alloc_current())),
    ensures
        levels_dominated(n_levels),
{
    assert forall|i: int, j: int|
        0 <= i < n_levels.len() && 0 <= j < (#[trigger] n_levels[i]).infos().len() implies {
        let b = #[trigger] n_levels[i].infos()[j];
        &&& 1 <= b.origin_level <= n_levels.len()
        &&& b.block_file_id < n_levels[b.origin_level - 1].alloc_current()
    } by {
        let b = n_levels[i].infos()[j];
        if i == src {
            assert(b == p_levels[src].infos()[moved_infos.len() + j]);
            assert(levels_dominated(p_levels));
            if b.origin_level - 1 == src + 1 {
                assert(n_levels[src + 1].alloc_current() >= p_levels[src + 1].alloc_current());
            } else {
                assert(n_levels[b.origin_level - 1].alloc_current() == p_levels[b.origin_level
                    - 1].alloc_current());
            }
        } else if i == src + 1 {
            let both = p_levels[src + 1].infos() + moved_infos;
            if exists|jj: int| 0 <= jj < both.len() && (#[trigger] both[jj]) == b {
                let jj = choose|jj: int| 0 <= jj < both.len() && (#[trigger] both[jj]) == b;
                if jj < p_levels[src + 1].infos().len() {
                    assert(b == p_levels[src + 1].infos()[jj]);
                    assert(levels_dominated(p_levels));
                } else {
                    assert(b == p_levels[src].infos()[jj - p_levels[src + 1].infos().len()]);
                    assert(levels_dominated(p_levels));
                }
                if b.origin_level - 1 == src + 1 {
                    assert(n_levels[src + 1].alloc_current() >= p_levels[src
                        + 1].alloc_current());
                } else {
                    assert(n_levels[b.origin_level - 1].alloc_current() == p_levels[
                        b.origin_level - 1
                    ].alloc_current());
                }
            } else {
                assert(b.origin_level == p_levels[src + 1].level_no());
                assert(b.block_file_id < n_levels[src + 1].alloc_current());
                assert(b.origin_level == src + 2);
            }
        } else {
            assert(n_levels[i].infos() == p_levels[i].infos());
            assert(levels_dominated(p_levels));
            if b.origin_level - 1 == src + 1 {
                assert(n_levels[src + 1].alloc_current() >= p_levels[src + 1].alloc_current());
            } else {
                assert(n_levels[b.origin_level - 1].alloc_current() == p_levels[b.origin_level
                    - 1].alloc_current());
            }
        }
    }
}

/// After a cascade step no two blocks anywhere share an identity.
proof fn lemma_cascade_distinct(
    p_levels: Seq<LSMLevel>,
    n_levels: Seq<LSMLevel>,
    p_fs: Map<FileId, Seq<char>>,
    moved_infos: Seq<BlockInfo>,
    kept_src: LSMLevel,
    src: int,
)
    requires
        p_levels.len() == n_levels.len(),
        0 <= src,
        src + 1 < p_levels.len(),
        n_levels[src] == kept_src,
        p_levels[src].infos() == moved_infos + kept_src.infos(),
        forall|x: int|
            0 <= x < n_levels.len() && x != src && x != src + 1 ==> (#[trigger] n_levels[x])
                == p_levels[x],
        levels_numbered(p_levels),
        levels_wf(p_levels, p_fs),
        blocks_wf(moved_infos, p_fs),
        levels_dominated(p_levels),
        store_distinct(p_levels),
        fids_distinct(n_levels[src + 1].infos()),
        fresh_block_ids(p_fs, p_levels[src + 1].level_no(), p_levels[src + 1].alloc_current()),
        forall|x: int|
            0 <= x < n_levels[src + 1].infos().len() ==> ((exists|y: int|
                0 <= y < (p_levels[src + 1].infos() + moved_infos).len() && (#[trigger] (p_levels[
                    src + 1
                ].infos() + moved_infos)[y]) == n_levels[src + 1].infos()[x]) || ((
            #[trigger] n_levels[src + 1].infos()[x]).origin_level == p_levels[src + 1].level_no()
                && p_levels[src + 1].alloc_current() <= n_levels[src + 1].infos()[x].block_file_id
                < n_levels[src + 1].alloc_current())),
    ensures
        store_distinct(n_levels),
{
    assert forall|i1: int, j1: int, i2: int, j2: int|
        0 <= i1 < n_levels.len() && 0 <= j1 < n_levels[i1].infos().len() && 0 <= i2
            < n_levels.len() && 0 <= j2 < n_levels[i2].infos().len() && (i1 != i2 || j1 != j2)
        implies block_fid(#[trigger] n_levels[i1].infos()[j1]) != block_fid(
        #[trigger] n_levels[i2].infos()[j2],
    ) by {
        if i1 == src + 1 && i2 == src + 1 {
            assert(fids_distinct(n_levels[src + 1].infos()));
        } else if i1 == src + 1 {
            lemma_cascade_cross_distinct(
                p_levels,
                n_levels,
                p_fs,
                moved_infos,
                kept_src,
                src,
                i2,
                j2,
                j1,
            );
        } else if i2 == src + 1 {
            lemma_cascade_cross_distinct(
                p_levels,
                n_levels,
                p_fs,
                moved_infos,
                kept_src,
                src,
                i1,
                j1,
                j2,
            );
        } else {
            lemma_cascade_old_position(p_levels, n_levels, moved_infos, kept_src, src, i1, j1);
            lemma_cascade_old_position(p_levels, n_levels, moved_infos, kept_src, src, i2, j2);
            let (a1, c1) = choose|a1: int, c1: int|
                0 <= a1 < p_levels.len() && 0 <= c1 < p_levels[a1].infos().len() && (
                #[trigger] p_levels[a1].infos()[c1]) == n_levels[i1].infos()[j1] && a1 == i1 && (
                i1 != src || c1 == j1 + moved_infos.len());
            let (a2, c2) = choose|a2: int, c2: int|
                0 <= a2 < p_levels.len() && 0 <= c2 < p_levels[a2].infos().len() && (
                #[trigger] p_levels[a2].infos()[c2]) == n_levels[i2].infos()[j2] && a2 == i2 && (
                i2 != src || c2 == j2 + moved_infos.len());
            assert(store_distinct(p_levels));
            assert(a1 != a2 || c1 != c2);
        }
    }
}

/// Insert one pair into the sorted mutable table, overwriting the key's
/// previous value if there is one.
#[verifier::rlimit(100)]
fn mem_insert(table: &mut Vec<KVPair>, key: String, value: String)
    requires
        sorted_strict(dview(old(table)@)),
        pairs_wf(dview(old(table)@)),
        valid_text(key@),
        valid_text(value@),
        old(table)@.len() < usize::MAX,
    ensures
        sorted_strict(dview(final(table)@)),
        pairs_wf(dview(final(table)@)),
        pmap(dview(final(table)@)) == pmap(dview(old(table)@)).insert(key@, value@),
        old(table)@.len() <= final(table)@.len() <= old(table)@.len() + 1,
        final(table)@.len() == old(table)@.len() + (if pmap(dview(old(table)@)).dom().contains(
            key@,
        ) {
            0int
        } else {
            1int
        }),
{
    let ghost key_v = key@;
    let ghost val_v = value@;
    let ghost oldv = dview(table@);
    let kc = crate::chars::chars_of(key.as_str());
    let n = table.len();
    let mut i: usize = 0;
    let mut replace = false;
    while i < n
        invariant_except_break
            !replace,
        invariant
            i <= n,
            n == table@.len(),
            kc@ == key_v,
            table@ == old(table)@,
            forall|j: int| 0 <= j < i ==> lex_lt((#[trigger] dview(table@)[j]).0, key_v),
        ensures
            i <= n,
            n == table@.len(),
            table@ == old(table)@,
            forall|j: int| 0 <= j < i ==> lex_lt((#[trigger] dview(table@)[j]).0, key_v),
            replace ==> i < n && dview(table@)[i as int].0 == key_v,
            !replace && i < n ==> lex_lt(key_v, dview(table@)[i as int].0),
        decreases n - i,
    {
        let ec = crate::chars::chars_of(table[i].0.as_str());
        match crate::chars::cmp_chars(&ec, &kc) {
            crate::chars::KeyOrder::Less => {
                proof {
                    assert(dview(table@)[i as int].0 == table@[i as int].0@);
                }
                i = i + 1;
            },
            crate::chars::KeyOrder::Equal => {
                proof {
                    assert(dview(table@)[i as int].0 == table@[i as int].0@);
                }
                replace = true;
                break ;
            },
            crate::chars::KeyOrder::Greater => {
                proof {
                    assert(dview(table@)[i as int].0 == table@[i as int].0@);
                }
                break ;
            },
        }
    }
    let ghost aa = oldv.take(i as int);
    let ghost bb = if replace {
        oldv.skip(i + 1)
    } else {
        oldv.skip(i as int)
    };
    proof {
        // keys before the spot are below `key`, keys after are above it
        assert forall|j: int| 0 <= j < bb.len() implies lex_lt(key_v, (#[trigger] bb[j]).0) by {
            if replace {
                assert(bb[j] == oldv[i + 1 + j]);
                assert(lex_lt(oldv[i as int].0, oldv[i + 1 + j].0));
            } else {
                assert(bb[j] == oldv[i + j]);
                if j > 0 {
                    assert(lex_lt(oldv[i as int].0, oldv[i + j].0));
                    crate::chars::lemma_lex_lt_trans(key_v, oldv[i as int].0, oldv[i + j].0);
                }
            }
        }
        crate::model::lemma_pmap_dom(bb);
        assert forall|k2: Seq<char>| #[trigger] pmap(bb).dom().contains(k2) implies k2 != key_v by {
            let j = choose|j: int| 0 <= j < bb.len() && (#[trigger] bb[j]).0 == k2;
            if k2 == key_v {
                crate::chars::lemma_lex_lt_irrefl(key_v);
            }
        }
    }
    if replace {
        table[i] = KVPair(key, value);
    } else {
        table.insert(i, KVPair(key, value));
    }
    proof {
        let newv = dview(table@);
        assert(newv =~= aa + seq![(key_v, val_v)] + bb);
        assert(oldv =~= (if replace {
            aa + seq![oldv[i as int]] + bb
        } else {
            aa + bb
        }));
        crate::model::lemma_pmap_concat(aa + seq![(key_v, val_v)], bb);
        crate::model::lemma_pmap_concat(aa, seq![(key_v, val_v)]);
        if replace {
            crate::model::lemma_pmap_concat(aa + seq![oldv[i as int]], bb);
            crate::model::lemma_pmap_concat(aa, seq![oldv[i as int]]);
            crate::model::lemma_pmap_singleton(oldv[i as int]);
            assert(oldv[i as int].0 == key_v);
        } else {
            crate::model::lemma_pmap_concat(aa, bb);
        }
        crate::model::lemma_pmap_singleton((key_v, val_v));
        assert(pmap(newv) =~= pmap(oldv).insert(key_v, val_v));
        // sortedness of the new table
        assert forall|a2: int, b2: int| 0 <= a2 < b2 < newv.len() implies lex_lt(
            (#[trigger] newv[a2]).0,
            (#[trigger] newv[b2]).0,
        ) by {
            let il = i as int;
            if b2 < il {
                assert(newv[a2] == oldv[a2] && newv[b2] == oldv[b2]);
            } else if a2 < il && b2 == il {
                assert(newv[a2] == oldv[a2]);
                assert(lex_lt(newv[a2].0, key_v));
            } else if a2 < il {
                assert(newv[a2] == oldv[a2]);
                assert(newv[b2] == bb[b2 - il - 1]);
                assert(lex_lt(newv[a2].0, key_v));
                assert(lex_lt(key_v, newv[b2].0));
                crate::chars::lemma_lex_lt_trans(newv[a2].0, key_v, newv[b2].0);
            } else if a2 == il {
                assert(newv[b2] == bb[b2 - il - 1]);
                assert(lex_lt(key_v, newv[b2].0));
            } else {
                assert(newv[a2] == bb[a2 - il - 1] && newv[b2] == bb[b2 - il - 1]);
                if replace {
                    assert(newv[a2] == oldv[a2] && newv[b2] == oldv[b2]);
                } else {
                    assert(newv[a2] == oldv[a2 - 1] && newv[b2] == oldv[b2 - 1]);
                }
            }
        }
        assert forall|j: int| 0 <= j < newv.len() implies crate::model::pair_wf(
            #[trigger] newv[j],
        ) by {
            let il = i as int;
            if j < il {
                assert(newv[j] == oldv[j]);
            } else if j > il {
                if replace {
                    assert(newv[j] == oldv[j]);
                } else {
                    assert(newv[j] == oldv[j - 1]);
                }
            }
        }
        // the table grows exactly when the key was absent
        crate::model::lemma_pmap_dom(oldv);
        if replace {
            assert(oldv[i as int].0 == key_v);
            assert(pmap(oldv).dom().contains(key_v));
        } else {
            assert forall|j: int| 0 <= j < oldv.len() implies (#[trigger] oldv[j]).0 != key_v by {
                if j < i {
                    assert(lex_lt(oldv[j].0, key_v));
                    if oldv[j].0 == key_v {
                        crate::chars::lemma_lex_lt_irrefl(key_v);
                    }
                } else {
                    assert(lex_lt(key_v, oldv[i as int].0));
                    if j > i {
                        assert(lex_lt(oldv[i as int].0, oldv[j].0));
                        crate::chars::lemma_lex_lt_trans(key_v, oldv[i as int].0, oldv[j].0);
                    }
                    if oldv[j].0 == key_v {
                        crate::chars::lemma_lex_lt_irrefl(key_v);
                    }
                }
            }
            assert(!pmap(oldv).dom().contains(key_v));
        }
    }
}

/// The value stored under `key` in a run of pairs, if any; a later record
/// wins.
pub fn lookup_pairs(table: &Vec<KVPair>, key: &str) -> (r: Option<String>)
    ensures
        match r {
            Some(v) => pmap(dview(table@)).contains_key(key@) && v@ == pmap(dview(table@))[key@],
            None => !pmap(dview(table@)).dom().contains(key@),
        },
{
    let kc = crate::chars::chars_of(key);
    let n = table.len();
    let mut i: usize = n;
    while i > 0
        invariant
            i <= n,
            n == table@.len(),
            kc@ == key@,
            forall|j: int| i <= j < n ==> (#[trigger] dview(table@)[j]).0 != key@,
        decreases i,
    {
        i = i - 1;
        let ec = crate::chars::chars_of(table[i].0.as_str());
        if matches!(crate::chars::cmp_chars(&ec, &kc), crate::chars::KeyOrder::Equal) {
            proof {
                assert(dview(table@)[i as int].0 == key@);
                crate::model::lemma_pmap_last_occurrence(dview(table@), i as int);
            }
            return Some(table[i].1.clone());
        }
        proof {
            assert((dview(table@)[i as int]).0 == table@[i as int].0@);
        }
    }
    proof {
        crate::model::lemma_pmap_dom(dview(table@));
    }
    None
}

} // verus!
