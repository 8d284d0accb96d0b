use vstd::prelude::*;

use crate::KVPair;
use crate::lex_lt;
use crate::chars::{KeyOrder, cmp_chars, chars_of, string_of, u32_dec, dec_rep};
use crate::codec::{BlockInfo, encode_pairs, parse_pairs, encode_pairs_exec, lemma_parse_encode_pairs, parse_pairs_exec};
use crate::model::{PairData, dview, pairs_wf, sorted_strict, valid_text};
use crate::storage::{FileId, FileStore};
use crate::cache::{LSMCacheManager, cache_coherent};
use crate::model::{pmap, lemma_pmap_dom};

verus! {

/// `a == b || lex_lt(a, b)`: at or before `b` in key order.
pub open spec fn lex_le(a: Seq<char>, b: Seq<char>) -> bool {
    a == b || lex_lt(a, b)
}

/// The closed key ranges of two blocks share at least one point.
pub open spec fn overlaps(a: BlockInfo, b: BlockInfo) -> bool {
    lex_le(a.lo, b.hi) && lex_le(b.lo, a.hi)
}

/// The file a block's records live in.
pub open spec fn block_fid(b: BlockInfo) -> FileId {
    FileId::Block { origin_level: b.origin_level, block_file_id: b.block_file_id }
}

/// The records of a block, as read back from its file.
pub open spec fn block_pairs(b: BlockInfo, fs: Map<FileId, Seq<char>>) -> Seq<PairData> {
    parse_pairs(fs[block_fid(b)])->Some_0
}

/// A block is sound against the directory: its file is present and parses
/// to a non-empty, strictly sorted, well-formed run whose first and last
/// keys are the recorded bounds.
pub open spec fn block_wf(b: BlockInfo, fs: Map<FileId, Seq<char>>) -> bool {
    &&& fs.contains_key(block_fid(b))
    &&& parse_pairs(fs[block_fid(b)]) is Some
    &&& block_pairs(b, fs).len() > 0
    &&& sorted_strict(block_pairs(b, fs))
    &&& pairs_wf(block_pairs(b, fs))
    &&& b.lo == block_pairs(b, fs).first().0
    &&& b.hi == block_pairs(b, fs).last().0
}

/// Every key of a sound block lies within its recorded bounds.
pub proof fn lemma_block_keys_in_range(b: BlockInfo, fs: Map<FileId, Seq<char>>, i: int)
    requires
        block_wf(b, fs),
        0 <= i < block_pairs(b, fs).len(),
    ensures
        lex_le(b.lo, block_pairs(b, fs)[i].0),
        lex_le(block_pairs(b, fs)[i].0, b.hi),
{
    let ps = block_pairs(b, fs);
    if i > 0 {
        assert(lex_lt(ps[0].0, ps[i].0));
    }
    if i < ps.len() - 1 {
        assert(lex_lt(ps[i].0, ps[ps.len() - 1].0));
    }
}

/// The name of a block file.
pub open spec fn block_file_name_spec(level: u32, id: u32) -> Seq<char> {
    seq!['l', 'v'] + dec_rep(level as int) + seq!['_'] + dec_rep(id as int) + seq![
        '.',
        'm',
        's',
        's',
        't',
    ]
}

/// A block's stable identity: the level it was born at and its id there.
#[derive(Eq, PartialEq, Structural, Debug, Hash, Clone, Copy)]
pub struct LSMBlockMeta {
    pub origin_level: u32,
    pub block_file_id: u32,
}

impl LSMBlockMeta {
    pub open spec fn fid(self) -> FileId {
        FileId::Block { origin_level: self.origin_level, block_file_id: self.block_file_id }
    }

    pub fn block_file_name(&self) -> (r: String)
        ensures
            r@ == block_file_name_spec(self.origin_level, self.block_file_id),
    {
        LSMBlock::block_file_name_int(self.origin_level, self.block_file_id)
    }
}

/// An immutable sorted run persisted as one file; in memory only its
/// identity and key range are kept.
pub struct LSMBlock {
    origin_level: u32,
    block_file_id: u32,
    lower_bound: String,
    upper_bound: String,
}

impl View for LSMBlock {
    type V = BlockInfo;

    closed spec fn view(&self) -> BlockInfo {
        BlockInfo {
            origin_level: self.origin_level,
            block_file_id: self.block_file_id,
            lo: self.lower_bound@,
            hi: self.upper_bound@,
        }
    }
}

impl LSMBlock {
    pub fn new(origin_level: u32, block_file_id: u32, lower_bound: String, upper_bound: String) -> (b:
        LSMBlock)
        ensures
            b@ == (BlockInfo {
                origin_level,
                block_file_id,
                lo: lower_bound@,
                hi: upper_bound@,
            }),
    {
        LSMBlock { origin_level, block_file_id, lower_bound, upper_bound }
    }

    /// Persist a new block holding `data`, which must be a non-empty run
    /// sorted strictly by key.  The block file is created or truncated.
    pub fn create(origin_level: u32, block_file_id: u32, data: &Vec<KVPair>, fs: &mut FileStore) -> (b:
        LSMBlock)
        requires
            old(fs).wf(),
            data@.len() > 0,
            sorted_strict(dview(data@)),
            pairs_wf(dview(data@)),
        ensures
            final(fs).wf(),
            final(fs)@ == old(fs)@.insert(
                FileId::Block { origin_level, block_file_id },
                encode_pairs(dview(data@)),
            ),
            b@.origin_level == origin_level,
            b@.block_file_id == block_file_id,
            block_wf(b@, final(fs)@),
            block_pairs(b@, final(fs)@) == dview(data@),

    {
        let lower = data[0].0.clone();
        let upper = data[data.len() - 1].0.clone();
        let contents = encode_pairs_exec(data);
        let fid = FileId::Block { origin_level, block_file_id };
        fs.write(fid, contents);
        let b = LSMBlock { origin_level, block_file_id, lower_bound: lower, upper_bound: upper };
        proof {
            lemma_parse_encode_pairs(dview(data@));
            assert(block_fid(b@) == fid);
            assert(block_pairs(b@, fs@) == dview(data@));
            assert(dview(data@)[0] == (data@[0].0@, data@[0].1@));
            assert(dview(data@).last() == (data@[data@.len() - 1].0@, data@[data@.len() - 1].1@));
        }
        b
    }

    pub fn block_file_name(&self) -> (r: String)
        ensures
            r@ == block_file_name_spec(self@.origin_level, self@.block_file_id),
    {
        LSMBlock::block_file_name_int(self.origin_level, self.block_file_id)
    }

    pub fn metadata(&self) -> (m: LSMBlockMeta)
        ensures
            m.origin_level == self@.origin_level,
            m.block_file_id == self@.block_file_id,
            m.fid() == block_fid(self@),
    {
        LSMBlockMeta { origin_level: self.origin_level, block_file_id: self.block_file_id }
    }

    pub fn block_file_name_int(origin_level: u32, block_file_id: u32) -> (r: String)
        ensures
            r@ == block_file_name_spec(origin_level, block_file_id),
    {
        let mut v: Vec<char> = Vec::new();
        v.push('l');
        v.push('v');
        let mut lv = u32_dec(origin_level);
        v.append(&mut lv);
        v.push('_');
        let mut id = u32_dec(block_file_id);
        v.append(&mut id);
        v.push('.');
        v.push('m');
        v.push('s');
        v.push('s');
        v.push('t');
        proof {
            assert(v@ =~= block_file_name_spec(origin_level, block_file_id));
        }
        string_of(&v)
    }

    pub fn lower_bound(&self) -> (r: &str)
        ensures
            r@ == self@.lo,
    {
        self.lower_bound.as_str()
    }

    pub fn upper_bound(&self) -> (r: &str)
        ensures
            r@ == self@.hi,
    {
        self.upper_bound.as_str()
    }

    /// The block's records, re-read from its file in order.
    pub fn pairs(&self, fs: &FileStore) -> (r: Vec<KVPair>)
        requires
            fs.wf(),
            block_wf(self@, fs@),
        ensures
            dview(r@) == block_pairs(self@, fs@),
    {
        let fid = FileId::Block {
            origin_level: self.origin_level,
            block_file_id: self.block_file_id,
        };
        let data = fs.read(fid);
        match data {
            Some(d) => {
                match parse_pairs_exec(d) {
                    Some(ps) => ps,
                    None => {
                        // unreachable under `block_wf`
                        proof {
                            assert(false);
                        }
                        Vec::new()
                    },
                }
            },
            None => {
                proof {
                    assert(false);
                }
                Vec::new()
            },
        }
    }

    /// The value this block holds for `key`, if any.  A key outside the
    /// block's range is answered without touching the cache; otherwise the
    /// materialized block is consulted through the cache.
    pub fn get<'a>(
        &self,
        key: &str,
        cache_manager: &'a mut LSMCacheManager,
        fs: &FileStore,
    ) -> (r: Option<&'a String>)
        requires
            fs.wf(),
            old(cache_manager).wf(),
            cache_coherent(old(cache_manager).contents(), fs@),
            block_wf(self@, fs@),
        ensures
            final(cache_manager).wf(),
            final(cache_manager).cap() == old(cache_manager).cap(),
            cache_coherent(final(cache_manager).contents(), fs@),
            match r {
                Some(v) => pmap(block_pairs(self@, fs@)).contains_key(key@) && v@ == pmap(
                    block_pairs(self@, fs@),
                )[key@],
                None => !pmap(block_pairs(self@, fs@)).contains_key(key@),
            },
            !(lex_le(self@.lo, key@) && lex_le(key@, self@.hi))
                ==> final(cache_manager).contents() == old(cache_manager).contents(),
    {
        let kc = chars_of(key);
        let lc = chars_of(self.lower_bound.as_str());
        let uc = chars_of(self.upper_bound.as_str());
        let below = matches!(cmp_chars(&kc, &lc), KeyOrder::Less);
        let above = matches!(cmp_chars(&uc, &kc), KeyOrder::Less);
        if below || above {
            proof {
                let ps = block_pairs(self@, fs@);
                lemma_pmap_dom(ps);
                if pmap(ps).contains_key(key@) {
                    let i = choose|i: int| 0 <= i < ps.len() && (#[trigger] ps[i]).0 == key@;
                    lemma_block_keys_in_range(self@, fs@, i);
                    if below {
                        // key < lo <= ps[i].0 == key: impossible
                        if lex_lt(self@.lo, key@) {
                            crate::chars::lemma_lex_lt_asym(key@, self@.lo);
                        }
                    } else {
                        if lex_lt(key@, self@.hi) {
                            crate::chars::lemma_lex_lt_asym(self@.hi, key@);
                        }
                    }
                }
            }
            None
        } else {
            let entry = cache_manager.get_cache(self.metadata(), fs);
            let r = entry.lookup(key);
            proof {
                assert(entry@ == block_pairs(self@, fs@));
            }
            r
        }
    }

    /// The key-range interleave test used by compaction: closed intervals
    /// that share a point.
    pub fn interleave(b1: &LSMBlock, b2: &LSMBlock) -> (r: bool)
        ensures
            r == overlaps(b1@, b2@),
    {
        let l1 = chars_of(b1.lower_bound.as_str());
        let u1 = chars_of(b1.upper_bound.as_str());
        let l2 = chars_of(b2.lower_bound.as_str());
        let u2 = chars_of(b2.upper_bound.as_str());
        let c1 = cmp_chars(&l1, &u2);
        let c2 = cmp_chars(&l2, &u1);
        (matches!(c1, KeyOrder::Less | KeyOrder::Equal)) && (matches!(
            c2,
            KeyOrder::Less | KeyOrder::Equal,
        ))
    }
}

} // verus!
