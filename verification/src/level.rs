use vstd::prelude::*;

use crate::KVPair;
use crate::lex_lt;
use crate::LSMConfig;
use crate::config_wf;
use crate::level_size_max_spec;
use crate::block::{
    LSMBlock, LSMBlockMeta, block_fid, block_pairs, block_wf, overlaps, lex_le,
};
use crate::cache::{LSMCacheManager, cache_coherent};
use crate::chars::{chars_of, string_of, string_of_range, u32_dec, dec_rep, parse_u32};
use crate::codec::{
    BlockInfo, encode_info, encode_infos, encode_manifest, lemma_encode_infos_singleton,
    lemma_encode_infos_concat, parse_manifest, parse_infos_from, parse_info_line_at, find_char,
    find_from, lemma_find_from_bounds,
};
use crate::metadata::ManifestUpdate;
use crate::model::{
    PairData, dview, pairs_wf, sorted_strict, pmap, pmap_all, lemma_pmap_all_push,
    lemma_pmap_all_concat, lemma_pmap_dom, lemma_pmap_all_dom, lemma_pmap_all_last,
    lemma_union_commute_disjoint, lemma_pmap_concat,
};
use crate::storage::{FileId, FileStore};

verus! {

/// Allocates block ids within one level, monotonically.
pub struct FileIdManager {
    current: u32,
}

impl FileIdManager {
    pub closed spec fn current_spec(&self) -> u32 {
        self.current
    }

    pub fn new(start_with: u32) -> (m: FileIdManager)
        ensures
            m.current_spec() == start_with,
    {
        FileIdManager { current: start_with }
    }

    pub fn allocate(&mut self) -> (id: u32)
        requires
            old(self).current_spec() < u32::MAX,
        ensures
            id == old(self).current_spec(),
            final(self).current_spec() == old(self).current_spec() + 1,
    {
        let ret = self.current;
        self.current = self.current + 1;
        ret
    }

    pub fn current(&self) -> (r: u32)
        ensures
            r == self.current_spec(),
    {
        self.current
    }
}

impl Default for FileIdManager {
    fn default() -> (m: FileIdManager)
        ensures
            m.current_spec() == 0,
    {
        FileIdManager::new(0)
    }
}

/// The identities and ranges of a list of blocks.
pub open spec fn blocks_v(blocks: Seq<LSMBlock>) -> Seq<BlockInfo> {
    blocks.map_values(|b: LSMBlock| b@)
}

/// The runs the blocks hold on disk, in list order.
pub open spec fn block_runs(infos: Seq<BlockInfo>, fs: Map<FileId, Seq<char>>) -> Seq<
    Seq<PairData>,
> {
    infos.map_values(|b: BlockInfo| block_pairs(b, fs))
}

pub open spec fn blocks_wf(infos: Seq<BlockInfo>, fs: Map<FileId, Seq<char>>) -> bool {
    forall|i: int| 0 <= i < infos.len() ==> block_wf(#[trigger] infos[i], fs)
}

/// What a list of blocks says about each key: a later block shadows an
/// earlier one.
pub open spec fn level_view(infos: Seq<BlockInfo>, fs: Map<FileId, Seq<char>>) -> Map<
    Seq<char>,
    Seq<char>,
> {
    pmap_all(block_runs(infos, fs))
}

/// Blocks are untouched by a directory change that leaves their files as
/// they were.
pub proof fn lemma_blocks_frame(
    infos: Seq<BlockInfo>,
    fs1: Map<FileId, Seq<char>>,
    fs2: Map<FileId, Seq<char>>,
)
    requires
        blocks_wf(infos, fs1),
        forall|i: int|
            0 <= i < infos.len() ==> fs2.contains_key(block_fid(#[trigger] infos[i]))
                && fs2[block_fid(infos[i])] == fs1[block_fid(infos[i])],
    ensures
        blocks_wf(infos, fs2),
        block_runs(infos, fs2) == block_runs(infos, fs1),
{
    assert forall|i: int| 0 <= i < infos.len() implies block_wf(#[trigger] infos[i], fs2)
        && block_pairs(infos[i], fs2) == block_pairs(infos[i], fs1) by {
        assert(block_wf(infos[i], fs1));
    }
    assert(block_runs(infos, fs2) =~= block_runs(infos, fs1));
}

pub proof fn lemma_lex_le_trans(a: Seq<char>, b: Seq<char>, c: Seq<char>)
    requires
        lex_le(a, b),
        lex_le(b, c),
    ensures
        lex_le(a, c),
{
    if a != b && b != c {
        crate::chars::lemma_lex_lt_trans(a, b, c);
    }
}

/// Two sound blocks whose ranges do not meet hold no key in common.
pub proof fn lemma_nonoverlap_disjoint_keys(
    b1: BlockInfo,
    b2: BlockInfo,
    fs: Map<FileId, Seq<char>>,
    k: Seq<char>,
)
    requires
        block_wf(b1, fs),
        block_wf(b2, fs),
        !overlaps(b1, b2),
        pmap(block_pairs(b1, fs)).dom().contains(k),
    ensures
        !pmap(block_pairs(b2, fs)).dom().contains(k),
{
    lemma_pmap_dom(block_pairs(b1, fs));
    lemma_pmap_dom(block_pairs(b2, fs));
    if pmap(block_pairs(b2, fs)).dom().contains(k) {
        let i = choose|i: int|
            0 <= i < block_pairs(b1, fs).len() && (#[trigger] block_pairs(b1, fs)[i]).0 == k;
        let j = choose|j: int|
            0 <= j < block_pairs(b2, fs).len() && (#[trigger] block_pairs(b2, fs)[j]).0 == k;
        crate::block::lemma_block_keys_in_range(b1, fs, i);
        crate::block::lemma_block_keys_in_range(b2, fs, j);
        lemma_lex_le_trans(b1.lo, k, b2.hi);
        lemma_lex_le_trans(b2.lo, k, b1.hi);
    }
}

/// The elements of a sequence whose mask entry matches `want`, in order.
pub open spec fn masked_seq<T>(s: Seq<T>, mask: Seq<bool>, want: bool) -> Seq<T>
    decreases s.len(),
{
    if s.len() == 0 {
        Seq::empty()
    } else {
        let rest = masked_seq(s.drop_last(), mask.drop_last(), want);
        if mask[s.len() - 1] == want {
            rest.push(s.last())
        } else {
            rest
        }
    }
}

pub proof fn lemma_masked_elements<T>(s: Seq<T>, mask: Seq<bool>, want: bool)
    requires
        mask.len() == s.len(),
    ensures
        forall|q: int|
            0 <= q < masked_seq(s, mask, want).len() ==> exists|i: int|
                0 <= i < s.len() && mask[i] == want && #[trigger] masked_seq(s, mask, want)[q]
                    == s[i],
    decreases s.len(),
{
    if s.len() > 0 {
        lemma_masked_elements(s.drop_last(), mask.drop_last(), want);
        let m = masked_seq(s, mask, want);
        let mp = masked_seq(s.drop_last(), mask.drop_last(), want);
        assert forall|q: int| 0 <= q < m.len() implies exists|i: int|
            0 <= i < s.len() && mask[i] == want && #[trigger] m[q] == s[i] by {
            if q < mp.len() {
                let i = choose|i: int|
                    0 <= i < s.drop_last().len() && mask.drop_last()[i] == want
                        && #[trigger] mp[q] == s.drop_last()[i];
                assert(m[q] == mp[q]);
                assert(0 <= i < s.len() && mask[i] == want && m[q] == s[i]);
            } else {
                assert(mask[s.len() - 1] == want && m[q] == s[s.len() - 1]);
            }
        }
    }
}

pub proof fn lemma_masked_map(
    infos: Seq<BlockInfo>,
    mask: Seq<bool>,
    want: bool,
    fs: Map<FileId, Seq<char>>,
)
    requires
        mask.len() == infos.len(),
    ensures
        block_runs(masked_seq(infos, mask, want), fs) == masked_seq(
            block_runs(infos, fs),
            mask,
            want,
        ),
    decreases infos.len(),
{
    if infos.len() == 0 {
        assert(block_runs(masked_seq(infos, mask, want), fs) =~= masked_seq(
            block_runs(infos, fs),
            mask,
            want,
        ));
    } else {
        lemma_masked_map(infos.drop_last(), mask.drop_last(), want, fs);
        assert(block_runs(infos, fs).drop_last() =~= block_runs(infos.drop_last(), fs));
        if mask[infos.len() - 1] == want {
            assert(block_runs(masked_seq(infos, mask, want), fs) =~= block_runs(
                masked_seq(infos.drop_last(), mask.drop_last(), want),
                fs,
            ).push(block_pairs(infos.last(), fs)));
            assert(masked_seq(block_runs(infos, fs), mask, want) == masked_seq(
                block_runs(infos.drop_last(), fs),
                mask.drop_last(),
                want,
            ).push(block_runs(infos, fs).last()));
            assert(block_runs(infos, fs).last() == block_pairs(infos.last(), fs));
        } else {
            assert(block_runs(masked_seq(infos, mask, want), fs) == block_runs(
                masked_seq(infos.drop_last(), mask.drop_last(), want),
                fs,
            ));
        }
    }
}

pub proof fn lemma_masked_total(runs: Seq<Seq<PairData>>, mask: Seq<bool>)
    requires
        mask.len() == runs.len(),
    ensures
        crate::merge::runs_total(masked_seq(runs, mask, false)) + crate::merge::runs_total(
            masked_seq(runs, mask, true),
        ) == crate::merge::runs_total(runs),
    decreases runs.len(),
{
    if runs.len() > 0 {
        lemma_masked_total(runs.drop_last(), mask.drop_last());
        if mask[runs.len() - 1] {
            assert(masked_seq(runs, mask, true) == masked_seq(
                runs.drop_last(),
                mask.drop_last(),
                true,
            ).push(runs.last()));
            assert(masked_seq(runs, mask, true).drop_last() =~= masked_seq(
                runs.drop_last(),
                mask.drop_last(),
                true,
            ));
        } else {
            assert(masked_seq(runs, mask, false) == masked_seq(
                runs.drop_last(),
                mask.drop_last(),
                false,
            ).push(runs.last()));
            assert(masked_seq(runs, mask, false).drop_last() =~= masked_seq(
                runs.drop_last(),
                mask.drop_last(),
                false,
            ));
        }
    }
}

/// No key is held on both sides.
pub open spec fn key_disjoint(a: Seq<PairData>, b: Seq<PairData>) -> bool {
    forall|k: Seq<char>| !((#[trigger] pmap(a).dom().contains(k)) && pmap(b).dom().contains(k))
}

/// When the two groups of a partition share no key, the overlay of all the
/// runs is the kept group's overlay under the merged group's overlay.
pub proof fn lemma_pmap_all_partition(runs: Seq<Seq<PairData>>, mask: Seq<bool>)
    requires
        mask.len() == runs.len(),
        forall|i: int, j: int|
            0 <= i < runs.len() && 0 <= j < runs.len() && mask[i] && !mask[j] ==> key_disjoint(
                #[trigger] runs[i],
                #[trigger] runs[j],
            ),
    ensures
        pmap_all(runs) == pmap_all(masked_seq(runs, mask, false)).union_prefer_right(
            pmap_all(masked_seq(runs, mask, true)),
        ),
    decreases runs.len(),
{
    if runs.len() == 0 {
        assert(pmap_all(masked_seq(runs, mask, false)).union_prefer_right(
            pmap_all(masked_seq(runs, mask, true)),
        ) =~= pmap_all(runs));
    } else {
        let pre = runs.drop_last();
        let mpre = mask.drop_last();
        assert(forall|i: int| 0 <= i < pre.len() ==> (#[trigger] pre[i]) == runs[i]);
        lemma_pmap_all_partition(pre, mpre);
        let kk = pmap_all(masked_seq(pre, mpre, false));
        let mm = pmap_all(masked_seq(pre, mpre, true));
        let y = pmap(runs.last());
        assert(pmap_all(runs) == pmap_all(pre).union_prefer_right(y));
        if mask[runs.len() - 1] {
            assert(masked_seq(runs, mask, true) == masked_seq(pre, mpre, true).push(runs.last()));
            assert(masked_seq(runs, mask, false) == masked_seq(pre, mpre, false));
            lemma_pmap_all_push(masked_seq(pre, mpre, true), runs.last());
            assert(kk.union_prefer_right(mm).union_prefer_right(y) =~= kk.union_prefer_right(
                mm.union_prefer_right(y),
            ));
        } else {
            assert(masked_seq(runs, mask, false) == masked_seq(pre, mpre, false).push(runs.last()));
            assert(masked_seq(runs, mask, true) == masked_seq(pre, mpre, true));
            lemma_pmap_all_push(masked_seq(pre, mpre, false), runs.last());
            // the merged group's keys avoid the kept run being appended
            assert forall|k: Seq<char>| !(mm.dom().contains(k) && y.dom().contains(k)) by {
                if mm.dom().contains(k) {
                    lemma_pmap_all_dom(masked_seq(pre, mpre, true));
                    let q = choose|q: int|
                        0 <= q < masked_seq(pre, mpre, true).len() && (#[trigger] pmap(
                            masked_seq(pre, mpre, true)[q],
                        )).dom().contains(k);
                    lemma_masked_elements(pre, mpre, true);
                    let i = choose|i: int|
                        0 <= i < pre.len() && mpre[i] == true && masked_seq(pre, mpre, true)[q]
                            == pre[i];
                    assert(mask[i] && !mask[runs.len() - 1]);
                    assert(key_disjoint(runs[i], runs[runs.len() - 1]));
                }
            }
            lemma_union_commute_disjoint(kk, mm, y);
        }
    }
}

/// `fs2` holds everything `fs1` held, unchanged.
pub open spec fn fs_extends(fs2: Map<FileId, Seq<char>>, fs1: Map<FileId, Seq<char>>) -> bool {
    forall|fid: FileId|
        fs1.contains_key(fid) ==> #[trigger] fs2.contains_key(fid) && fs2[fid] == fs1[fid]
}

/// Whatever `fs2` holds beyond `fs1` is a file of one of the given blocks.
pub open spec fn additions_are_blocks(
    fs2: Map<FileId, Seq<char>>,
    fs1: Map<FileId, Seq<char>>,
    nb: Seq<BlockInfo>,
) -> bool {
    forall|fid: FileId|
        fs2.contains_key(fid) && !fs1.contains_key(fid) ==> exists|j: int|
            0 <= j < nb.len() && fid == block_fid(#[trigger] nb[j])
}

/// No file for this level with an id at or past `from` exists yet.
pub open spec fn fresh_block_ids(fs: Map<FileId, Seq<char>>, level_no: u32, from: u32) -> bool {
    forall|id: u32|
        id >= from ==> !(#[trigger] fs.contains_key(
            FileId::Block { origin_level: level_no, block_file_id: id },
        ))
}

pub proof fn lemma_fs_extends_trans(
    a: Map<FileId, Seq<char>>,
    b: Map<FileId, Seq<char>>,
    c: Map<FileId, Seq<char>>,
)
    requires
        fs_extends(a, b),
        fs_extends(b, c),
    ensures
        fs_extends(a, c),
{
}

/// The name of a level's manifest file.
pub open spec fn manifest_file_name_spec(level: u32) -> Seq<char> {
    seq!['l', 'v'] + dec_rep(level as int) + seq!['_', 'm', 'e', 't', 'a', '.', 'm', 'f', 's', 't']
}

/// The update's added list names exactly the blocks standing at the end
/// of the level: freshly numbered from `old_alloc` on, holding between one
/// and `block_size` records with only the last allowed short, and mutually
/// non-interleaving.
pub open spec fn fresh_suffix_ok(
    added: Seq<LSMBlockMeta>,
    infos: Seq<BlockInfo>,
    fs: Map<FileId, Seq<char>>,
    level_no: u32,
    old_alloc: u32,
    block_size: usize,
) -> bool {
    &&& added.len() <= infos.len()
    &&& (forall|q: int|
        0 <= q < added.len() ==> {
            let b = infos[infos.len() - added.len() + q];
            &&& (#[trigger] added[q]).origin_level == b.origin_level
            &&& added[q].block_file_id == b.block_file_id
            &&& b.origin_level == level_no
            &&& b.block_file_id == old_alloc + q
            &&& 0 < block_pairs(b, fs).len() <= block_size
            &&& (q < added.len() - 1 ==> block_pairs(b, fs).len() == block_size)
        })
    &&& (forall|q1: int, q2: int|
        0 <= q1 < q2 < added.len() ==> !overlaps(
            #[trigger] infos[infos.len() - added.len() + q1],
            #[trigger] infos[infos.len() - added.len() + q2],
        ))
}

/// The block at position `j` interleaves with no other block of the list.
pub open spec fn untouched_at(all: Seq<BlockInfo>, j: int) -> bool {
    forall|y: int| 0 <= y < all.len() && y != j ==> !overlaps(all[j], #[trigger] all[y])
}

/// Whether the block at position `x` interleaves with some arrival — a
/// position at or past `boundary` — other than itself.
pub open spec fn meets_arrival(all: Seq<BlockInfo>, boundary: int, x: int) -> bool {
    exists|jj: int| boundary <= jj < all.len() && jj != x && overlaps(all[x], #[trigger] all[jj])
}

/// Ranges in strict key order do not interleave.
proof fn lemma_ranges_disjoint(a: BlockInfo, b: BlockInfo)
    requires
        lex_lt(a.hi, b.lo),
    ensures
        !overlaps(a, b),
        !overlaps(b, a),
{
    if lex_le(b.lo, a.hi) {
        if b.lo == a.hi {
            crate::chars::lemma_lex_lt_irrefl(a.hi);
        } else {
            crate::chars::lemma_lex_lt_asym(b.lo, a.hi);
        }
    }
}

/// Every element whose mask entry matches appears among the selected.
pub proof fn lemma_masked_elements_converse<T>(s: Seq<T>, mask: Seq<bool>, want: bool, i: int)
    requires
        mask.len() == s.len(),
        0 <= i < s.len(),
        mask[i] == want,
    ensures
        exists|q: int|
            0 <= q < masked_seq(s, mask, want).len() && #[trigger] masked_seq(s, mask, want)[q]
                == s[i],
    decreases s.len(),
{
    let m = masked_seq(s, mask, want);
    if i == s.len() - 1 {
        assert(m[m.len() - 1] == s[i]);
    } else {
        lemma_masked_elements_converse(s.drop_last(), mask.drop_last(), want, i);
        let mp = masked_seq(s.drop_last(), mask.drop_last(), want);
        let q = choose|q: int| 0 <= q < mp.len() && #[trigger] mp[q] == s.drop_last()[i];
        assert(m[q] == mp[q]);
        assert(s.drop_last()[i] == s[i]);
    }
}

spec fn count_marked(s: Seq<bool>) -> int
    decreases s.len(),
{
    if s.len() == 0 {
        0
    } else {
        count_marked(s.drop_last()) + (if s.last() {
            1int
        } else {
            0int
        })
    }
}

proof fn lemma_count_marked_le(s: Seq<bool>)
    ensures
        0 <= count_marked(s) <= s.len(),
    decreases s.len(),
{
    if s.len() > 0 {
        lemma_count_marked_le(s.drop_last());
    }
}

proof fn lemma_count_marked_update(s: Seq<bool>, i: int)
    requires
        0 <= i < s.len(),
        !s[i],
    ensures
        count_marked(s.update(i, true)) == count_marked(s) + 1,
    decreases s.len(),
{
    let s2 = s.update(i, true);
    if i == s.len() - 1 {
        assert(s2.drop_last() =~= s.drop_last());
        assert(s2.last());
    } else {
        assert(s2.drop_last() =~= s.drop_last().update(i, true));
        lemma_count_marked_update(s.drop_last(), i);
        assert(s2.last() == s.last());
    }
}

/// All block identities in the list are pairwise distinct.
pub open spec fn fids_distinct(infos: Seq<BlockInfo>) -> bool {
    forall|a: int, b: int|
        0 <= a < b < infos.len() ==> block_fid(#[trigger] infos[a]) != block_fid(
            #[trigger] infos[b],
        )
}

/// Moving the head of the third list onto the end of the first keeps the
/// combined identities distinct.
proof fn lemma_fids_move(k: Seq<BlockInfo>, m: Seq<BlockInfo>, b: BlockInfo, c: Seq<BlockInfo>)
    requires
        fids_distinct(k + m + (seq![b] + c)),
    ensures
        fids_distinct(k.push(b) + m + c),
        fids_distinct(k + m.push(b) + c),
{
    let d = k + m + (seq![b] + c);
    let e1 = k.push(b) + m + c;
    let e2 = k + m.push(b) + c;
    let kl = k.len() as int;
    let ml = m.len() as int;
    // index of each element of the rearranged lists within the original
    let f1 = |x: int|
        if x < kl {
            x
        } else if x == kl {
            kl + ml
        } else if x <= kl + ml {
            x - 1
        } else {
            x
        };
    let f2 = |x: int|
        if x < kl + ml {
            x
        } else if x == kl + ml {
            kl + ml
        } else {
            x
        };
    assert forall|x: int| 0 <= x < e1.len() implies e1[x] == d[f1(x)] by {}
    assert forall|x: int| 0 <= x < e2.len() implies e2[x] == d[f2(x)] by {}
    assert forall|a: int, bb: int| 0 <= a < bb < e1.len() implies block_fid(#[trigger] e1[a])
        != block_fid(#[trigger] e1[bb]) by {
        assert(e1[a] == d[f1(a)] && e1[bb] == d[f1(bb)]);
        assert(f1(a) != f1(bb));
        if f1(a) < f1(bb) {
            assert(block_fid(d[f1(a)]) != block_fid(d[f1(bb)]));
        } else {
            assert(block_fid(d[f1(bb)]) != block_fid(d[f1(a)]));
        }
    }
    assert forall|a: int, bb: int| 0 <= a < bb < e2.len() implies block_fid(#[trigger] e2[a])
        != block_fid(#[trigger] e2[bb]) by {
        assert(e2[a] == d[f2(a)] && e2[bb] == d[f2(bb)]);
        assert(f2(a) != f2(bb));
        if f2(a) < f2(bb) {
            assert(block_fid(d[f2(a)]) != block_fid(d[f2(bb)]));
        } else {
            assert(block_fid(d[f2(bb)]) != block_fid(d[f2(a)]));
        }
    }
}


/// The structural outcome of one merge: the fresh blocks stand at the end
/// of the level under consecutive new ids and disjoint ranges, untouched
/// blocks survive under their own identity off the removed list, and kept
/// blocks still do not interleave when the old level did not.
proof fn lemma_merge_structure(
    cv: Seq<BlockInfo>,
    fixmark: Seq<bool>,
    keep_infos: Seq<BlockInfo>,
    nb_infos: Seq<BlockInfo>,
    merged_infos: Seq<BlockInfo>,
    mid_fsv: Map<FileId, Seq<char>>,
    added: Seq<LSMBlockMeta>,
    removed: Seq<LSMBlockMeta>,
    old_infos: Seq<BlockInfo>,
    inc_infos: Seq<BlockInfo>,
    level_no: u32,
    old_alloc: u32,
    block_size: usize,
)
    requires
        fixmark.len() == cv.len(),
        cv == old_infos + inc_infos,
        keep_infos == masked_seq(cv, fixmark, false),
        merged_infos == masked_seq(cv, fixmark, true),
        forall|xx: int| 0 <= xx < cv.len() && untouched_at(cv, xx) ==> !(#[trigger] fixmark[xx]),
        forall|xx: int|
            0 <= xx < cv.len() && !(#[trigger] fixmark[xx]) ==> !meets_arrival(
                cv,
                old_infos.len() as int,
                xx,
            ),
        fids_distinct(keep_infos + nb_infos),
        forall|tt: int, i: int|
            0 <= tt < merged_infos.len() && 0 <= i < (keep_infos + nb_infos).len() ==> block_fid(
                #[trigger] (keep_infos + nb_infos)[i],
            ) != block_fid(#[trigger] merged_infos[tt]),
        added.len() == nb_infos.len(),
        removed.len() == merged_infos.len(),
        forall|tt: int|
            0 <= tt < added.len() ==> (#[trigger] added[tt]).origin_level
                == nb_infos[tt].origin_level && added[tt].block_file_id
                == nb_infos[tt].block_file_id,
        forall|tt: int|
            0 <= tt < removed.len() ==> (#[trigger] removed[tt]).origin_level
                == merged_infos[tt].origin_level && removed[tt].block_file_id
                == merged_infos[tt].block_file_id,
        forall|q: int|
            0 <= q < nb_infos.len() ==> ((#[trigger] nb_infos[q]).origin_level == level_no
                && nb_infos[q].block_file_id == old_alloc + q),
        forall|q: int|
            0 <= q < nb_infos.len() ==> 0 < (#[trigger] block_runs(nb_infos, mid_fsv)[q]).len()
                <= block_size,
        forall|q: int|
            0 <= q < nb_infos.len() - 1 ==> (#[trigger] block_runs(nb_infos, mid_fsv)[q]).len()
                == block_size,
        forall|q1: int, q2: int|
            0 <= q1 < q2 < nb_infos.len() ==> lex_lt(
                (#[trigger] nb_infos[q1]).hi,
                (#[trigger] nb_infos[q2]).lo,
            ),
    ensures
        fresh_suffix_ok(added, keep_infos + nb_infos, mid_fsv, level_no, old_alloc, block_size),
        forall|j: int|
            0 <= j < cv.len() && #[trigger] untouched_at(cv, j) ==> (exists|i: int|
                0 <= i < (keep_infos + nb_infos).len() && #[trigger] (keep_infos + nb_infos)[i]
                    == cv[j]) && (forall|q: int|
                0 <= q < removed.len() ==> (#[trigger] removed[q]).fid() != block_fid(cv[j])),
        (forall|a: int, b: int|
            0 <= a < b < old_infos.len() ==> !overlaps(
                #[trigger] old_infos[a],
                #[trigger] old_infos[b],
            )) ==> (forall|i1: int, i2: int|
            0 <= i1 < i2 < (keep_infos + nb_infos).len() - added.len() ==> !overlaps(
                #[trigger] (keep_infos + nb_infos)[i1],
                #[trigger] (keep_infos + nb_infos)[i2],
            )),
{
    let fin = keep_infos + nb_infos;
    let al = added.len() as int;
    assert forall|q: int| 0 <= q < al implies {
        let b = fin[fin.len() - al + q];
        &&& (#[trigger] added[q]).origin_level == b.origin_level
        &&& added[q].block_file_id == b.block_file_id
        &&& b.origin_level == level_no
        &&& b.block_file_id == old_alloc + q
        &&& 0 < block_pairs(b, mid_fsv).len() <= block_size
        &&& (q < al - 1 ==> block_pairs(b, mid_fsv).len() == block_size)
    } by {
        assert(fin[fin.len() - al + q] == nb_infos[q]);
        assert(block_runs(nb_infos, mid_fsv)[q] == block_pairs(nb_infos[q], mid_fsv));
    }
    assert forall|q1: int, q2: int| 0 <= q1 < q2 < al implies !overlaps(
        #[trigger] fin[fin.len() - al + q1],
        #[trigger] fin[fin.len() - al + q2],
    ) by {
        assert(fin[fin.len() - al + q1] == nb_infos[q1]);
        assert(fin[fin.len() - al + q2] == nb_infos[q2]);
        assert(lex_lt(nb_infos[q1].hi, nb_infos[q2].lo));
        lemma_ranges_disjoint(nb_infos[q1], nb_infos[q2]);
    }
    assert(added.len() <= fin.len());
    assert(fresh_suffix_ok(added, fin, mid_fsv, level_no, old_alloc, block_size));
    assert forall|j: int|
        0 <= j < cv.len() && #[trigger] untouched_at(cv, j) implies (exists|i: int|
        0 <= i < fin.len() && #[trigger] fin[i] == cv[j]) && (forall|q: int|
        0 <= q < removed.len() ==> (#[trigger] removed[q]).fid() != block_fid(cv[j])) by {
        assert(!fixmark[j]);
        lemma_masked_elements_converse(cv, fixmark, false, j);
        let q0 = choose|q0: int|
            0 <= q0 < masked_seq(cv, fixmark, false).len() && #[trigger] masked_seq(
                cv,
                fixmark,
                false,
            )[q0] == cv[j];
        assert(fin[q0] == cv[j]);
        assert forall|q: int|
            0 <= q < removed.len() implies (#[trigger] removed[q]).fid() != block_fid(
            cv[j],
        ) by {
            assert(removed[q].fid() == block_fid(merged_infos[q]));
            assert(block_fid(fin[q0]) != block_fid(merged_infos[q]));
        }
    }
    if forall|a: int, b: int|
        0 <= a < b < old_infos.len() ==> !overlaps(
            #[trigger] old_infos[a],
            #[trigger] old_infos[b],
        ) {
        lemma_masked_elements(cv, fixmark, false);
        assert forall|i1: int, i2: int| 0 <= i1 < i2 < fin.len() - al implies !overlaps(
            #[trigger] fin[i1],
            #[trigger] fin[i2],
        ) by {
            assert(fin[i1] == keep_infos[i1]);
            assert(fin[i2] == keep_infos[i2]);
            let a = choose|a: int|
                0 <= a < cv.len() && fixmark[a] == false && #[trigger] keep_infos[i1] == cv[a];
            let b = choose|b: int|
                0 <= b < cv.len() && fixmark[b] == false && #[trigger] keep_infos[i2] == cv[b];
            assert(block_fid(fin[i1]) != block_fid(fin[i2]));
            assert(cv[a] != cv[b]);
            assert(a != b);
            let bd = old_infos.len() as int;
            if a < bd && b < bd {
                assert(cv[a] == old_infos[a]);
                assert(cv[b] == old_infos[b]);
                if a < b {
                    assert(!overlaps(old_infos[a], old_infos[b]));
                } else {
                    assert(!overlaps(old_infos[b], old_infos[a]));
                }
            } else if b >= bd {
                // `b` stands among the arrivals, and the kept `a` meets
                // none of them
                assert(!meets_arrival(cv, bd, a));
                assert(!overlaps(cv[a], cv[b]));
            } else {
                assert(a >= bd);
                assert(!meets_arrival(cv, bd, b));
                assert(!overlaps(cv[b], cv[a]));
            }
        }
    }
}


/// The value-level outcome of one merge: the rebuilt level is sound, reads
/// as the old level overlaid by the arrivals, keeps identities distinct
/// and fresh, and did not grow the record count.
#[verifier::rlimit(100)]
proof fn lemma_merge_endgame(
    cv: Seq<BlockInfo>,
    fixmark: Seq<bool>,
    keep_infos: Seq<BlockInfo>,
    merged_infos: Seq<BlockInfo>,
    nb_infos: Seq<BlockInfo>,
    old_fsv: Map<FileId, Seq<char>>,
    mid_fsv: Map<FileId, Seq<char>>,
    self_infos: Seq<BlockInfo>,
    inc_infos: Seq<BlockInfo>,
    level_no: u32,
    old_alloc: u32,
)
    requires
        fixmark.len() == cv.len(),
        cv == self_infos + inc_infos,
        keep_infos == masked_seq(cv, fixmark, false),
        merged_infos == masked_seq(cv, fixmark, true),
        blocks_wf(cv, old_fsv),
        blocks_wf(keep_infos, old_fsv),
        blocks_wf(merged_infos, old_fsv),
        blocks_wf(nb_infos, mid_fsv),
        fids_distinct(cv),
        fids_distinct(keep_infos + merged_infos),
        fresh_block_ids(old_fsv, level_no, old_alloc),
        fs_extends(mid_fsv, old_fsv),
        additions_are_blocks(mid_fsv, old_fsv, nb_infos),
        forall|a: int, b: int|
            0 <= a < cv.len() && 0 <= b < cv.len() && !fixmark[a] && fixmark[b] ==> !overlaps(
                cv[a],
                cv[b],
            ),
        forall|j: int|
            0 <= j < nb_infos.len() ==> ((#[trigger] nb_infos[j]).origin_level == level_no
                && nb_infos[j].block_file_id == old_alloc + j),
        pmap_all(block_runs(nb_infos, mid_fsv)) == pmap_all(block_runs(merged_infos, old_fsv)),
        crate::merge::runs_total(block_runs(nb_infos, mid_fsv)) <= crate::merge::runs_total(
            block_runs(merged_infos, old_fsv),
        ),
    ensures
        blocks_wf(keep_infos + nb_infos, mid_fsv),
        level_view(keep_infos + nb_infos, mid_fsv) == level_view(self_infos, old_fsv)
            .union_prefer_right(level_view(inc_infos, old_fsv)),
        fids_distinct(keep_infos + nb_infos),
        forall|i: int|
            0 <= i < (keep_infos + nb_infos).len() ==> ((exists|j: int|
                0 <= j < cv.len() && cv[j] == #[trigger] (keep_infos + nb_infos)[i]) || ((keep_infos
                + nb_infos)[i].origin_level == level_no && old_alloc <= (keep_infos
                + nb_infos)[i].block_file_id < old_alloc + nb_infos.len())),
        forall|tt: int, i: int|
            0 <= tt < merged_infos.len() && 0 <= i < (keep_infos + nb_infos).len() ==> block_fid(
                #[trigger] (keep_infos + nb_infos)[i],
            ) != block_fid(#[trigger] merged_infos[tt]),
        forall|fid: FileId|
            mid_fsv.contains_key(fid) && !old_fsv.contains_key(fid) ==> exists|j: int|
                0 <= j < (keep_infos + nb_infos).len() && fid == block_fid(
                    #[trigger] (keep_infos + nb_infos)[j],
                ),
        crate::merge::runs_total(block_runs(keep_infos + nb_infos, mid_fsv))
            <= crate::merge::runs_total(block_runs(cv, old_fsv)),
{
    // the kept and merged blocks still read the same after the new
    // files were written
    assert(fs_extends(mid_fsv, old_fsv));
    assert forall|i: int| 0 <= i < keep_infos.len() implies mid_fsv.contains_key(block_fid(
        #[trigger] keep_infos[i],
    )) && mid_fsv[block_fid(keep_infos[i])] == old_fsv[block_fid(keep_infos[i])] by {
        assert(block_wf(keep_infos[i], old_fsv));
        assert(old_fsv.contains_key(block_fid(keep_infos[i])));
    }
    lemma_blocks_frame(keep_infos, old_fsv, mid_fsv);
    assert forall|i: int| 0 <= i < merged_infos.len() implies mid_fsv.contains_key(
        block_fid(#[trigger] merged_infos[i]),
    ) && mid_fsv[block_fid(merged_infos[i])] == old_fsv[block_fid(merged_infos[i])] by {
        assert(block_wf(merged_infos[i], old_fsv));
        assert(old_fsv.contains_key(block_fid(merged_infos[i])));
    }
    lemma_blocks_frame(merged_infos, old_fsv, mid_fsv);
    // soundness of the final block list
    assert forall|i: int| 0 <= i < (keep_infos + nb_infos).len() implies block_wf(
        #[trigger] (keep_infos + nb_infos)[i],
        mid_fsv,
    ) by {
        if i < keep_infos.len() {
            assert((keep_infos + nb_infos)[i] == keep_infos[i]);
        } else {
            assert((keep_infos + nb_infos)[i] == nb_infos[i - keep_infos.len()]);
        }
    }
    // the level's content is unchanged by the rewrite of the merged
    // region
    assert(block_runs(keep_infos + nb_infos, mid_fsv) =~= block_runs(keep_infos, mid_fsv)
        + block_runs(nb_infos, mid_fsv));
    lemma_pmap_all_concat(block_runs(keep_infos, mid_fsv), block_runs(nb_infos, mid_fsv));
    let all_runs = block_runs(cv, old_fsv);
    assert forall|i: int, j: int|
        0 <= i < all_runs.len() && 0 <= j < all_runs.len() && fixmark[i] && !fixmark[j]
        implies key_disjoint(#[trigger] all_runs[i], #[trigger] all_runs[j]) by {
        assert(!overlaps(cv[j], cv[i]));
        assert forall|k: Seq<char>|
            !((#[trigger] pmap(all_runs[i]).dom().contains(k)) && pmap(
                all_runs[j],
            ).dom().contains(k)) by {
            if pmap(all_runs[i]).dom().contains(k) {
                assert(all_runs[i] == block_pairs(cv[i], old_fsv));
                assert(all_runs[j] == block_pairs(cv[j], old_fsv));
                assert(block_wf(cv[i], old_fsv) && block_wf(cv[j], old_fsv));
                assert(overlaps(cv[i], cv[j]) == overlaps(cv[j], cv[i]));
                lemma_nonoverlap_disjoint_keys(cv[i], cv[j], old_fsv, k);
            }
        }
    }
    lemma_pmap_all_partition(all_runs, fixmark);
    lemma_masked_map(cv, fixmark, true, old_fsv);
    lemma_masked_map(cv, fixmark, false, old_fsv);
    assert(pmap_all(all_runs) == pmap_all(block_runs(keep_infos, old_fsv)
    ).union_prefer_right(pmap_all(block_runs(merged_infos, old_fsv))));
    assert(pmap_all(block_runs(nb_infos, mid_fsv)) == pmap_all(
        block_runs(merged_infos, old_fsv),
    ));
    assert(level_view(keep_infos + nb_infos, mid_fsv) == pmap_all(all_runs));
    assert(block_runs(cv, old_fsv) =~= block_runs(self_infos, old_fsv) + block_runs(
        inc_infos,
        old_fsv,
    ));
    lemma_pmap_all_concat(block_runs(self_infos, old_fsv), block_runs(inc_infos, old_fsv));
    // identities: kept blocks are old ones, new blocks are fresh
    lemma_masked_elements(cv, fixmark, false);
    lemma_masked_elements(cv, fixmark, true);
    assert forall|a: int, b: int|
        0 <= a < b < (keep_infos + nb_infos).len() implies block_fid(
        #[trigger] (keep_infos + nb_infos)[a],
    ) != block_fid(#[trigger] (keep_infos + nb_infos)[b]) by {
        let kl = keep_infos.len() as int;
        if b < kl {
            assert((keep_infos + merged_infos)[a] == keep_infos[a]);
            assert((keep_infos + merged_infos)[b] == keep_infos[b]);
        } else if a < kl {
            // an old file against a freshly written one
            assert((keep_infos + nb_infos)[a] == keep_infos[a]);
            assert((keep_infos + nb_infos)[b] == nb_infos[b - kl]);
            assert(block_wf(keep_infos[a], old_fsv));
            assert(nb_infos[b - kl].block_file_id >= old_alloc);
            assert(!old_fsv.contains_key(block_fid(nb_infos[b - kl])));
        } else {
            assert((keep_infos + nb_infos)[a] == nb_infos[a - kl]);
            assert((keep_infos + nb_infos)[b] == nb_infos[b - kl]);
        }
    }
    // every removed identity stems from the merged set and clashes
    // with no block that remains
    assert forall|t: int, i: int|
        0 <= t < merged_infos.len() && 0 <= i < (keep_infos + nb_infos).len() implies
        block_fid(#[trigger] (keep_infos + nb_infos)[i]) != block_fid(
        #[trigger] merged_infos[t],
    ) by {
        let kl = keep_infos.len() as int;
        let jm = choose|jm: int|
            0 <= jm < cv.len() && fixmark[jm] == true && merged_infos[t] == cv[jm];
        if i < kl {
            assert((keep_infos + nb_infos)[i] == keep_infos[i]);
            let jk = choose|jk: int|
                0 <= jk < cv.len() && fixmark[jk] == false && keep_infos[i] == cv[jk];
            assert(jk != jm);
            if jk < jm {
                assert(block_fid(cv[jk]) != block_fid(cv[jm]));
            } else {
                assert(block_fid(cv[jm]) != block_fid(cv[jk]));
            }
        } else {
            assert((keep_infos + nb_infos)[i] == nb_infos[i - kl]);
            assert(block_wf(merged_infos[t], old_fsv));
            assert(nb_infos[i - kl].block_file_id >= old_alloc);
            assert(!old_fsv.contains_key(block_fid(nb_infos[i - kl])));
        }
    }
    // additions to the directory are files of the new generation,
    // which now stands in the level
    assert forall|fid: FileId|
        mid_fsv.contains_key(fid) && !old_fsv.contains_key(fid) implies exists|j: int|
        0 <= j < (keep_infos + nb_infos).len() && fid == block_fid(
            #[trigger] (keep_infos + nb_infos)[j],
        ) by {
        let j0 = choose|j0: int|
            0 <= j0 < nb_infos.len() && fid == block_fid(#[trigger] nb_infos[j0]);
        assert((keep_infos + nb_infos)[keep_infos.len() + j0] == nb_infos[j0]);
    }
    // the level shrank or stayed: the merged region was rewritten
    // without duplicates
    crate::merge::lemma_runs_total_concat(
        block_runs(keep_infos, mid_fsv),
        block_runs(nb_infos, mid_fsv),
    );
    lemma_masked_total(all_runs, fixmark);
    crate::merge::lemma_runs_total_nonneg(block_runs(merged_infos, old_fsv));
}

/// Cut a merged run into blocks of exactly `block_size` records, the last
/// possibly shorter, each persisted under a freshly allocated id.
fn build_blocks(
    pairs: &Vec<KVPair>,
    level_no: u32,
    block_size: usize,
    alloc: &mut FileIdManager,
    fs: &mut FileStore,
) -> (nb: Vec<LSMBlock>)
    requires
        block_size >= 1,
        old(fs).wf(),
        sorted_strict(dview(pairs@)),
        pairs_wf(dview(pairs@)),
        old(alloc).current_spec() + pairs@.len() + 1 <= u32::MAX,
        fresh_block_ids(old(fs)@, level_no, old(alloc).current_spec()),
    ensures
        final(fs).wf(),
        final(alloc).current_spec() == old(alloc).current_spec() + nb@.len(),
        nb@.len() <= pairs@.len(),
        fs_extends(final(fs)@, old(fs)@),
        additions_are_blocks(final(fs)@, old(fs)@, blocks_v(nb@)),
        blocks_wf(blocks_v(nb@), final(fs)@),
        forall|j: int|
            0 <= j < nb@.len() ==> ((#[trigger] nb@[j])@.origin_level == level_no && nb@[j]@.block_file_id
                == old(alloc).current_spec() + j),
        pmap_all(block_runs(blocks_v(nb@), final(fs)@)) == pmap(dview(pairs@)),
        crate::merge::runs_total(block_runs(blocks_v(nb@), final(fs)@)) == pairs@.len(),
        forall|j: int|
            0 <= j < nb@.len() ==> 0 < (#[trigger] block_runs(blocks_v(nb@), final(fs)@)[j]).len()
                <= block_size,
        forall|j: int|
            0 <= j < nb@.len() - 1 ==> (#[trigger] block_runs(blocks_v(nb@), final(fs)@)[j]).len()
                == block_size,
        forall|j1: int, j2: int|
            0 <= j1 < j2 < nb@.len() ==> lex_lt((#[trigger] nb@[j1])@.hi, (#[trigger] nb@[j2])@.lo),
{
    let ghost pv = dview(pairs@);
    let mut nb: Vec<LSMBlock> = Vec::new();
    let mut start: usize = 0;
    let total = pairs.len();
    while start < total
        invariant
            start <= total,
            total == pairs@.len(),
            pv == dview(pairs@),
            sorted_strict(pv),
            pairs_wf(pv),
            block_size >= 1,
            fs.wf(),
            nb@.len() <= start,
            alloc.current_spec() == old(alloc).current_spec() + nb@.len(),
            old(alloc).current_spec() + pairs@.len() + 1 <= u32::MAX,
            fresh_block_ids(fs@, level_no, alloc.current_spec()),
            fs_extends(fs@, old(fs)@),
            additions_are_blocks(fs@, old(fs)@, blocks_v(nb@)),
            blocks_wf(blocks_v(nb@), fs@),
            forall|j: int|
                0 <= j < nb@.len() ==> ((#[trigger] nb@[j])@.origin_level == level_no
                    && nb@[j]@.block_file_id == old(alloc).current_spec() + j),
            pmap_all(block_runs(blocks_v(nb@), fs@)) == pmap(pv.take(start as int)),
            crate::merge::runs_total(block_runs(blocks_v(nb@), fs@)) == start,
            forall|j: int|
                0 <= j < nb@.len() ==> 0 < (#[trigger] block_runs(blocks_v(nb@), fs@)[j]).len()
                    <= block_size,
            forall|j: int|
                0 <= j < nb@.len() - 1 || (0 <= j < nb@.len() && start < total) ==> (
                #[trigger] block_runs(blocks_v(nb@), fs@)[j]).len() == block_size,
            forall|j1: int, j2: int|
                0 <= j1 < j2 < nb@.len() ==> lex_lt(
                    (#[trigger] nb@[j1])@.hi,
                    (#[trigger] nb@[j2])@.lo,
                ),
            forall|j: int|
                0 <= j < nb@.len() && start < total ==> lex_lt(
                    (#[trigger] nb@[j])@.hi,
                    pv[start as int].0,
                ),
        decreases total - start,
    {
        let end = if total - start >= block_size {
            start + block_size
        } else {
            total
        };
        let mut chunk: Vec<KVPair> = Vec::new();
        let mut t: usize = start;
        while t < end
            invariant
                start <= t <= end <= total,
                total == pairs@.len(),
                pv == dview(pairs@),
                dview(chunk@) == pv.subrange(start as int, t as int),
                chunk@.len() == t - start,
            decreases end - t,
        {
            let ghost prev = dview(chunk@);
            chunk.push(KVPair(pairs[t].0.clone(), pairs[t].1.clone()));
            proof {
                assert(dview(chunk@) =~= prev.push(pv[t as int]));
                assert(pv.subrange(start as int, t + 1) =~= pv.subrange(start as int, t as int).push(
                    pv[t as int],
                ));
            }
            t = t + 1;
        }
        let ghost cview = dview(chunk@);
        proof {
            assert(cview == pv.subrange(start as int, end as int));
            assert forall|a: int, b: int| 0 <= a < b < cview.len() implies lex_lt(
                (#[trigger] cview[a]).0,
                (#[trigger] cview[b]).0,
            ) by {
                assert(cview[a] == pv[start + a]);
                assert(cview[b] == pv[start + b]);
            }
            assert forall|a: int| 0 <= a < cview.len() implies crate::model::pair_wf(
                #[trigger] cview[a],
            ) by {
                assert(cview[a] == pv[start + a]);
            }
        }
        let id = alloc.allocate();
        let ghost old_nb = nb@;
        let ghost old_fsv = fs@;
        let b = LSMBlock::create(level_no, id, &chunk, fs);
        nb.push(b);
        proof {
            let fid = FileId::Block { origin_level: level_no, block_file_id: id };
            assert(!old_fsv.contains_key(fid));
            assert(fs@ == old_fsv.insert(fid, crate::codec::encode_pairs(cview)));
            assert(fs_extends(fs@, old_fsv));
            lemma_fs_extends_trans(fs@, old_fsv, old(fs)@);
            assert(fresh_block_ids(fs@, level_no, alloc.current_spec()));
            assert forall|f2: FileId|
                fs@.contains_key(f2) && !old(fs)@.contains_key(f2) implies exists|j: int|
                0 <= j < blocks_v(nb@).len() && f2 == block_fid(#[trigger] blocks_v(nb@)[j]) by {
                if f2 == fid {
                    assert(blocks_v(nb@)[nb@.len() - 1] == b@);
                    assert(f2 == block_fid(blocks_v(nb@)[nb@.len() - 1]));
                } else {
                    assert(old_fsv.contains_key(f2));
                    assert(additions_are_blocks(old_fsv, old(fs)@, blocks_v(old_nb)));
                    let j = choose|j: int|
                        0 <= j < blocks_v(old_nb).len() && f2 == block_fid(
                            #[trigger] blocks_v(old_nb)[j],
                        );
                    assert(blocks_v(nb@)[j] == blocks_v(old_nb)[j]);
                    assert(f2 == block_fid(blocks_v(nb@)[j]));
                }
            }
            assert(additions_are_blocks(fs@, old(fs)@, blocks_v(nb@)));
            assert(blocks_v(nb@) =~= blocks_v(old_nb).push(b@));
            assert(blocks_v(nb@).drop_last() =~= blocks_v(old_nb));
            // earlier blocks have smaller ids, so their files are untouched
            assert forall|i: int| 0 <= i < old_nb.len() implies fs@.contains_key(block_fid(
                #[trigger] blocks_v(old_nb)[i],
            )) && fs@[block_fid(blocks_v(old_nb)[i])] == old_fsv[block_fid(blocks_v(old_nb)[i])] by {
                assert(blocks_v(old_nb)[i] == old_nb[i]@);
                assert(old_nb[i]@.block_file_id < id);
                assert(block_fid(old_nb[i]@) != fid);
                assert(block_wf(old_nb[i]@, old_fsv));
            }
            lemma_blocks_frame(blocks_v(old_nb), old_fsv, fs@);
            assert(block_runs(blocks_v(nb@), fs@) =~= block_runs(blocks_v(old_nb), fs@).push(
                block_pairs(b@, fs@),
            ));
            lemma_pmap_all_push(block_runs(blocks_v(old_nb), fs@), block_pairs(b@, fs@));
            crate::model::lemma_pmap_concat(pv.take(start as int), cview);
            assert(pv.take(start as int) + cview =~= pv.take(end as int));
            assert(block_runs(blocks_v(nb@), fs@).drop_last() =~= block_runs(
                blocks_v(old_nb),
                fs@,
            ));
            // the new block's bounds sit beyond every earlier block
            assert(b@.lo == cview.first().0);
            assert(b@.hi == cview.last().0);
            assert(cview.first() == pv[start as int]);
            assert(cview.last() == pv[end - 1]);
            assert forall|j: int| 0 <= j < old_nb.len() implies lex_lt(
                (#[trigger] nb@[j])@.hi,
                b@.lo,
            ) by {
                assert(nb@[j] == old_nb[j]);
            }
            if end < total {
                assert(lex_lt(pv[end - 1].0, pv[end as int].0));
                assert forall|j: int| 0 <= j < nb@.len() implies lex_lt(
                    (#[trigger] nb@[j])@.hi,
                    pv[end as int].0,
                ) by {
                    if j < old_nb.len() {
                        assert(lex_lt(nb@[j]@.hi, pv[start as int].0));
                        if start < end - 1 {
                            assert(lex_lt(pv[start as int].0, pv[end - 1].0));
                            crate::chars::lemma_lex_lt_trans(
                                nb@[j]@.hi,
                                pv[start as int].0,
                                pv[end - 1].0,
                            );
                        }
                        crate::chars::lemma_lex_lt_trans(nb@[j]@.hi, pv[end - 1].0, pv[end as int].0);
                    }
                }
            }
        }
        start = end;
    }
    proof {
        assert(pv.take(total as int) =~= pv);
    }
    nb
}

/// One level of the tree: its blocks, oldest first, and its id allocator.
pub struct LSMLevel {
    level: u32,
    blocks: Vec<LSMBlock>,
    file_id_manager: FileIdManager,
}

impl LSMLevel {
    pub closed spec fn level_no(&self) -> u32 {
        self.level
    }

    pub closed spec fn infos(&self) -> Seq<BlockInfo> {
        blocks_v(self.blocks@)
    }

    pub closed spec fn alloc_current(&self) -> u32 {
        self.file_id_manager.current_spec()
    }

    pub open spec fn wf(&self, fs: Map<FileId, Seq<char>>) -> bool {
        blocks_wf(self.infos(), fs)
    }

    /// What this level holds, on the given directory.
    pub open spec fn view_on(&self, fs: Map<FileId, Seq<char>>) -> Map<Seq<char>, Seq<char>> {
        level_view(self.infos(), fs)
    }

    pub fn new(level: u32, file_id_manager: FileIdManager) -> (l: LSMLevel)
        ensures
            l.level_no() == level,
            l.infos() == Seq::<BlockInfo>::empty(),
            l.alloc_current() == file_id_manager.current_spec(),
    {
        let l = LSMLevel { level, blocks: Vec::new(), file_id_manager };
        proof {
            assert(l.infos() =~= Seq::<BlockInfo>::empty());
        }
        l
    }

    pub fn with_blocks(level: u32, blocks: Vec<LSMBlock>, file_id_manager: FileIdManager) -> (l:
        LSMLevel)
        ensures
            l.level_no() == level,
            l.infos() == blocks_v(blocks@),
            l.alloc_current() == file_id_manager.current_spec(),
    {
        LSMLevel { level, blocks, file_id_manager }
    }

    pub fn current_file_id(&self) -> (r: u32)
        ensures
            r == self.alloc_current(),
    {
        self.file_id_manager.current()
    }

    pub fn block_count(&self) -> (r: usize)
        ensures
            r == self.infos().len(),
    {
        self.blocks.len()
    }

    /// The block at position `i` of this level's list, oldest first.
    pub fn block_at(&self, i: usize) -> (b: &LSMBlock)
        requires
            (i as int) < self.infos().len(),
        ensures
            b@ == self.infos()[i as int],
    {
        &self.blocks[i]
    }

    pub fn meta_file_name(&self) -> (r: String)
        ensures
            r@ == manifest_file_name_spec(self.level_no()),
    {
        LSMLevel::meta_file_name_int(self.level)
    }

    pub fn meta_file_name_int(level: u32) -> (r: String)
        ensures
            r@ == manifest_file_name_spec(level),
    {
        let mut v: Vec<char> = Vec::new();
        v.push('l');
        v.push('v');
        let mut lv = u32_dec(level);
        v.append(&mut lv);
        v.push('_');
        v.push('m');
        v.push('e');
        v.push('t');
        v.push('a');
        v.push('.');
        v.push('m');
        v.push('f');
        v.push('s');
        v.push('t');
        proof {
            assert(v@ =~= manifest_file_name_spec(level));
        }
        string_of(&v)
    }

    /// Look `key` up in this level: blocks are probed newest first, and the
    /// first block that holds the key answers.
    pub fn get(&self, key: &str, cache_manager: &mut LSMCacheManager, fs: &FileStore) -> (r:
        Option<String>)
        requires
            fs.wf(),
            old(cache_manager).wf(),
            cache_coherent(old(cache_manager).contents(), fs@),
            self.wf(fs@),
        ensures
            final(cache_manager).wf(),
            final(cache_manager).cap() == old(cache_manager).cap(),
            cache_coherent(final(cache_manager).contents(), fs@),
            match r {
                Some(v) => self.view_on(fs@).contains_key(key@) && v@ == self.view_on(fs@)[key@],
                None => !self.view_on(fs@).contains_key(key@),
            },
    {
        let ghost runs = block_runs(self.infos(), fs@);
        let n = self.blocks.len();
        let mut i: usize = n;
        while i > 0
            invariant
                i <= n,
                n == self.blocks@.len(),
                runs == block_runs(self.infos(), fs@),
                fs.wf(),
                self.wf(fs@),
                cache_manager.wf(),
                cache_manager.cap() == old(cache_manager).cap(),
                cache_coherent(cache_manager.contents(), fs@),
                forall|j: int|
                    i <= j < n ==> !(#[trigger] pmap(runs[j])).dom().contains(key@),
            decreases i,
        {
            i = i - 1;
            proof {
                assert(block_wf(self.infos()[i as int], fs@));
            }
            let found = self.blocks[i].get(key, cache_manager, fs);
            match found {
                Some(v) => {
                    let out = v.clone();
                    proof {
                        assert(runs[i as int] == block_pairs(self.infos()[i as int], fs@));
                        lemma_pmap_all_last(runs, i as int, key@);
                    }
                    return Some(out);
                },
                None => {
                    proof {
                        assert(runs[i as int] == block_pairs(self.infos()[i as int], fs@));
                    }
                },
            }
        }
        proof {
            lemma_pmap_all_dom(runs);
        }
        None
    }

    /// Persist the run flushed from the mutable table as one new block of
    /// this first level, and say whether the level has overflowed.
    pub fn create_block(&mut self, data: &Vec<KVPair>, fs: &mut FileStore, level1_size: usize) -> (b:
        bool)
        requires
            old(self).level_no() == 1,
            old(fs).wf(),
            old(self).wf(old(fs)@),
            data@.len() > 0,
            sorted_strict(dview(data@)),
            pairs_wf(dview(data@)),
            old(self).alloc_current() < u32::MAX,
            !old(fs)@.contains_key(
                FileId::Block {
                    origin_level: 1,
                    block_file_id: old(self).alloc_current(),
                },
            ),
        ensures
            final(fs).wf(),
            final(self).wf(final(fs)@),
            final(self).level_no() == 1,
            final(self).alloc_current() == old(self).alloc_current() + 1,
            final(fs)@ == old(fs)@.insert(
                FileId::Block {
                    origin_level: 1,
                    block_file_id: old(self).alloc_current(),
                },
                crate::codec::encode_pairs(dview(data@)),
            ),
            final(self).infos().len() == old(self).infos().len() + 1,
            final(self).infos().drop_last() == old(self).infos(),
            final(self).infos().last().origin_level == 1,
            final(self).infos().last().block_file_id == old(self).alloc_current(),
            block_pairs(final(self).infos().last(), final(fs)@) == dview(data@),
            final(self).view_on(final(fs)@) == old(self).view_on(old(fs)@).union_prefer_right(
                pmap(dview(data@)),
            ),
            b == (final(self).infos().len() > level1_size),
    {
        let id = self.file_id_manager.allocate();
        let ghost old_infos = self.infos();
        let ghost old_fs = fs@;
        let nb = LSMBlock::create(1, id, data, fs);
        self.blocks.push(nb);
        proof {
            let fid = FileId::Block { origin_level: 1, block_file_id: id };
            assert(self.infos() =~= old_infos.push(nb@));
            assert(self.infos().drop_last() =~= old_infos);
            assert forall|i: int| 0 <= i < old_infos.len() implies fs@.contains_key(block_fid(
                #[trigger] old_infos[i],
            )) && fs@[block_fid(old_infos[i])] == old_fs[block_fid(old_infos[i])] by {
                assert(block_wf(old_infos[i], old_fs));
                assert(block_fid(old_infos[i]) != fid);
            }
            lemma_blocks_frame(old_infos, old_fs, fs@);
            assert(blocks_wf(self.infos(), fs@));
            assert(block_runs(self.infos(), fs@) =~= block_runs(old_infos, fs@).push(
                block_pairs(nb@, fs@),
            ));
            lemma_pmap_all_push(block_runs(old_infos, fs@), block_pairs(nb@, fs@));
        }
        self.blocks.len() > level1_size
    }

    /// Remove and hand back the oldest blocks of this level, up to
    /// `merge_step_size` of them, for the cascade into the next level.
    pub fn blocks_to_merge(&mut self, merge_step_size: usize) -> (removed: Vec<LSMBlock>)
        ensures
            final(self).level_no() == old(self).level_no(),
            final(self).alloc_current() == old(self).alloc_current(),
            removed@.len() == (if merge_step_size <= old(self).infos().len() {
                merge_step_size as int
            } else {
                old(self).infos().len() as int
            }),
            old(self).infos() == blocks_v(removed@) + final(self).infos(),
    {
        let k = if merge_step_size <= self.blocks.len() {
            merge_step_size
        } else {
            self.blocks.len()
        };
        let mut removed: Vec<LSMBlock> = Vec::new();
        let mut i: usize = 0;
        while i < k
            invariant
                i <= k,
                k <= old(self).infos().len(),
                self.level == old(self).level_no(),
                self.file_id_manager.current_spec() == old(self).alloc_current(),
                removed@.len() == i,
                old(self).infos() == blocks_v(removed@) + self.infos(),
            decreases k - i,
        {
            let ghost old_rm = removed@;
            let ghost old_blocks = self.blocks@;
            let b = self.blocks.remove(0);
            removed.push(b);
            proof {
                assert(blocks_v(removed@) =~= blocks_v(old_rm).push(b@));
                assert(blocks_v(old_blocks) =~= seq![b@] + blocks_v(self.blocks@));
                assert(blocks_v(old_rm).push(b@) + blocks_v(self.blocks@) =~= blocks_v(old_rm) + (
                seq![b@] + blocks_v(self.blocks@)));
            }
            i = i + 1;
        }
        removed
    }

    /// Fold blocks arriving from the level above into this level.  On the
    /// first level the arrivals are appended in order.  On deeper levels,
    /// every resident or arriving block whose range interleaves —
    /// transitively — with an arrival is merged into fresh blocks; the rest
    /// stay untouched.  Files of merged blocks are not unlinked here.
    #[verifier::rlimit(100)]
    pub fn merge_blocks(&mut self, blocks: Vec<LSMBlock>, fs: &mut FileStore, config: &LSMConfig) -> (r:
        (ManifestUpdate, bool))
        requires
            config_wf(*config),
            old(fs).wf(),
            old(self).wf(old(fs)@),
            old(self).level_no() >= 1,
            blocks_wf(blocks_v(blocks@), old(fs)@),
            fresh_block_ids(old(fs)@, old(self).level_no(), old(self).alloc_current()),
            fids_distinct(old(self).infos() + blocks_v(blocks@)),
            old(self).alloc_current() + crate::merge::runs_total(
                block_runs(old(self).infos() + blocks_v(blocks@), old(fs)@),
            ) + 1 <= u32::MAX,
        ensures
            final(fs).wf(),
            final(self).wf(final(fs)@),
            final(self).level_no() == old(self).level_no(),
            final(self).alloc_current() >= old(self).alloc_current(),
            fs_extends(final(fs)@, old(fs)@),
            additions_are_blocks(final(fs)@, old(fs)@, final(self).infos()),
            final(self).view_on(final(fs)@) == old(self).view_on(old(fs)@).union_prefer_right(
                level_view(blocks_v(blocks@), old(fs)@),
            ),
            fids_distinct(final(self).infos()),
            forall|i: int|
                0 <= i < final(self).infos().len() ==> ((exists|j: int|
                    0 <= j < (old(self).infos() + blocks_v(blocks@)).len() && (old(self).infos()
                        + blocks_v(blocks@))[j] == #[trigger] final(self).infos()[i])
                    || (final(self).infos()[i].origin_level == old(self).level_no()
                    && old(self).alloc_current() <= final(self).infos()[i].block_file_id
                    < final(self).alloc_current())),
            forall|q: int|
                0 <= q < r.0.removed_files@.len() ==> {
                    let m = #[trigger] r.0.removed_files@[q];
                    &&& final(fs)@.contains_key(m.fid())
                    &&& (exists|j: int|
                        0 <= j < (old(self).infos() + blocks_v(blocks@)).len() && block_fid(
                            #[trigger] (old(self).infos() + blocks_v(blocks@))[j],
                        ) == m.fid())
                    &&& (forall|i: int|
                        0 <= i < final(self).infos().len() ==> block_fid(
                            #[trigger] final(self).infos()[i],
                        ) != m.fid())
                },
            crate::merge::runs_total(block_runs(final(self).infos(), final(fs)@))
                <= crate::merge::runs_total(
                block_runs(old(self).infos() + blocks_v(blocks@), old(fs)@),
            ),
            final(self).alloc_current() == old(self).alloc_current() + r.0.added_files@.len(),
            fresh_suffix_ok(
                r.0.added_files@,
                final(self).infos(),
                final(fs)@,
                old(self).level_no(),
                old(self).alloc_current(),
                config.block_size,
            ),
            forall|j: int|
                0 <= j < (old(self).infos() + blocks_v(blocks@)).len() && #[trigger] untouched_at(
                    old(self).infos() + blocks_v(blocks@),
                    j,
                ) ==> (exists|i: int|
                    0 <= i < final(self).infos().len() && #[trigger] final(self).infos()[i] == (old(
                        self,
                    ).infos() + blocks_v(blocks@))[j]) && (forall|q: int|
                    0 <= q < r.0.removed_files@.len() ==> (#[trigger] r.0.removed_files@[q]).fid()
                        != block_fid((old(self).infos() + blocks_v(blocks@))[j])),
            (old(self).level_no() >= 2 && (forall|a: int, b: int|
                0 <= a < b < old(self).infos().len() ==> !overlaps(
                    #[trigger] old(self).infos()[a],
                    #[trigger] old(self).infos()[b],
                ))) ==> (forall|i1: int, i2: int|
                0 <= i1 < i2 < final(self).infos().len() - r.0.added_files@.len() ==> !overlaps(
                    #[trigger] final(self).infos()[i1],
                    #[trigger] final(self).infos()[i2],
                )),
            old(self).level_no() == 1 ==> (final(self).infos() == old(self).infos() + blocks_v(
                blocks@,
            ) && r.0.added_files@.len() == 0 && r.0.removed_files@.len() == 0 && final(fs)@ == old(
                fs,
            )@),
            old(self).level_no() == 1 ==> r.1 == (final(self).infos().len()
                > config.level1_size),
            old(self).level_no() >= 2 ==> ((level_size_max_spec(
                *config,
                old(self).level_no() as int,
            ) <= usize::MAX ==> r.1 == (final(self).infos().len() >= level_size_max_spec(
                *config,
                old(self).level_no() as int,
            ))) && (level_size_max_spec(*config, old(self).level_no() as int) > usize::MAX
                ==> r.1 == (final(self).infos().len() >= usize::MAX))),
    {
        let ghost all = old(self).infos() + blocks_v(blocks@);
        let ghost old_fsv = old(fs)@;
        if self.level == 1 {
            let mut incoming = blocks;
            let ghost inc_infos = blocks_v(incoming@);
            self.blocks.append(&mut incoming);
            proof {
                assert(self.infos() =~= all);
                assert(block_runs(all, fs@) =~= block_runs(old(self).infos(), fs@) + block_runs(
                    inc_infos,
                    fs@,
                ));
                lemma_pmap_all_concat(
                    block_runs(old(self).infos(), fs@),
                    block_runs(inc_infos, fs@),
                );
                assert forall|i: int| 0 <= i < all.len() implies block_wf(#[trigger] all[i], fs@) by {
                    if i < old(self).infos().len() {
                        assert(all[i] == old(self).infos()[i]);
                    } else {
                        assert(all[i] == inc_infos[i - old(self).infos().len()]);
                    }
                }
                assert(crate::merge::runs_total(block_runs(self.infos(), fs@))
                    <= crate::merge::runs_total(block_runs(all, fs@)));
                assert forall|j: int| 0 <= j < all.len() implies exists|i: int|
                    0 <= i < self.infos().len() && (#[trigger] self.infos()[i]) == (
                    #[trigger] all[j]) by {
                    assert(self.infos()[j] == all[j]);
                }
            }
            let needs = self.blocks.len() > config.level1_size;
            let empty_update = ManifestUpdate::default();
            proof {
                assert(fresh_suffix_ok(
                    empty_update.added_files@,
                    self.infos(),
                    fs@,
                    old(self).level_no(),
                    old(self).alloc_current(),
                    config.block_size,
                ));
            }
            return (empty_update, needs);
        }
        // move every block, resident and arriving, into one working list
        let mut combined = self.blocks.split_off(0);
        let mut incoming = blocks;
        let self_len = combined.len();
        combined.append(&mut incoming);
        let n = combined.len();
        proof {
            assert(self_len <= n);
        }
        let ghost cv = blocks_v(combined@);
        proof {
            assert(cv =~= all);
            assert forall|i: int| 0 <= i < n implies block_wf(#[trigger] cv[i], fs@) by {
                if i < old(self).infos().len() {
                    assert(cv[i] == old(self).infos()[i]);
                } else {
                    assert(cv[i] == blocks_v(blocks@)[i - old(self).infos().len()]);
                }
            }
        }
        // a block joins the merge set if its range interleaves with an
        // arrival, or, transitively, with a block already in the set
        let mut mark: Vec<bool> = Vec::new();
        let mut marked_count: usize = 0;
        let mut x: usize = 0;
        while x < n
            invariant
                x <= n,
                n == combined@.len(),
                cv == blocks_v(combined@),
                self_len <= n,
                mark@.len() == x,
                marked_count == count_marked(mark@),
                marked_count <= x,
                forall|xx: int|
                    0 <= xx < x ==> #[trigger] mark@[xx] == meets_arrival(
                        cv,
                        self_len as int,
                        xx,
                    ),
            decreases n - x,
        {
            let mut m = false;
            let mut j: usize = self_len;
            while j < n
                invariant
                    self_len <= j <= n,
                    x < n,
                    n == combined@.len(),
                    cv == blocks_v(combined@),
                    m == (exists|jj: int|
                        self_len <= jj < j && jj != x && overlaps(
                            cv[x as int],
                            #[trigger] cv[jj],
                        )),
                decreases n - j,
            {
                let ghost had = m;
                if j != x && LSMBlock::interleave(&combined[x], &combined[j]) {
                    m = true;
                }
                proof {
                    if m && !had {
                        assert(self_len <= j < j + 1 && j != x && overlaps(
                            cv[x as int],
                            cv[j as int],
                        ));
                    }
                }
                j = j + 1;
            }
            proof {
                assert(m == meets_arrival(cv, self_len as int, x as int));
            }
            let ghost old_mark = mark@;
            mark.push(m);
            if m {
                marked_count = marked_count + 1;
            }
            proof {
                assert(mark@.drop_last() =~= old_mark);
                lemma_count_marked_le(old_mark);
            }
            x = x + 1;
        }
        proof {
            // a block that interleaves with nothing was not marked
            assert forall|xx: int| 0 <= xx < n && untouched_at(cv, xx) implies !(
            #[trigger] mark@[xx]) by {
                if mark@[xx] {
                    assert(meets_arrival(cv, self_len as int, xx));
                    let jj = choose|jj: int|
                        self_len <= jj < cv.len() && jj != xx && overlaps(
                            cv[xx],
                            #[trigger] cv[jj],
                        );
                    assert(!overlaps(cv[xx], cv[jj]));
                }
            }
        }
        // grow the merge set to a fixpoint
        loop
            invariant
                n == combined@.len(),
                cv == blocks_v(combined@),
                mark@.len() == n,
                marked_count == count_marked(mark@),
                marked_count <= n,
                self_len <= n,
                forall|xx: int|
                    0 <= xx < n && !(#[trigger] mark@[xx]) ==> !meets_arrival(
                        cv,
                        self_len as int,
                        xx,
                    ),
                forall|xx: int| 0 <= xx < n && untouched_at(cv, xx) ==> !(#[trigger] mark@[xx]),
            ensures
                mark@.len() == n,
                cv == blocks_v(combined@),
                n == combined@.len(),
                forall|a: int, b: int|
                    0 <= a < n && 0 <= b < n && !mark@[a] && mark@[b] ==> !overlaps(cv[a], cv[b]),
                forall|xx: int|
                    0 <= xx < n && !(#[trigger] mark@[xx]) ==> !meets_arrival(
                        cv,
                        self_len as int,
                        xx,
                    ),
                forall|xx: int| 0 <= xx < n && untouched_at(cv, xx) ==> !(#[trigger] mark@[xx]),
            decreases n - marked_count,
        {
            let mut changed = false;
            let ghost start_mark = mark@;
            let ghost start_count = marked_count as int;
            let mut x2: usize = 0;
            while x2 < n
                invariant
                    x2 <= n,
                    n == combined@.len(),
                    cv == blocks_v(combined@),
                    mark@.len() == n,
                    marked_count == count_marked(mark@),
                    marked_count <= n,
                    start_count <= marked_count,
                    self_len <= n,
                    changed ==> marked_count > start_count,
                    !changed ==> mark@ == start_mark && marked_count == start_count,
                    !changed ==> forall|a: int, b: int|
                        0 <= a < x2 && 0 <= b < n && !mark@[a] && mark@[b] ==> !overlaps(
                            cv[a],
                            cv[b],
                        ),
                    forall|xx: int|
                        0 <= xx < n && !(#[trigger] mark@[xx]) ==> !meets_arrival(
                            cv,
                            self_len as int,
                            xx,
                        ),
                    forall|xx: int|
                        0 <= xx < n && untouched_at(cv, xx) ==> !(#[trigger] mark@[xx]),
                decreases n - x2,
            {
                if !mark[x2] {
                    let mut hit = false;
                    let mut y: usize = 0;
                    while y < n
                        invariant
                            y <= n,
                            x2 < n,
                            n == combined@.len(),
                            cv == blocks_v(combined@),
                            mark@.len() == n,
                            hit == exists|b: int|
                                0 <= b < y && mark@[b] && overlaps(cv[x2 as int], #[trigger] cv[b]),
                        decreases n - y,
                    {
                        if mark[y] && LSMBlock::interleave(&combined[x2], &combined[y]) {
                            hit = true;
                        }
                        proof {
                            if hit && !(exists|b: int|
                                0 <= b < y && mark@[b] && overlaps(cv[x2 as int], #[trigger] cv[b])) {
                                assert(mark@[y as int] && overlaps(cv[x2 as int], cv[y as int]));
                            }
                        }
                        y = y + 1;
                    }
                    if hit {
                        proof {
                            lemma_count_marked_update(mark@, x2 as int);
                            lemma_count_marked_le(mark@.update(x2 as int, true));
                            // only a block in contact with the merge set is
                            // pulled in, never an isolated one
                            if untouched_at(cv, x2 as int) {
                                let yy = choose|yy: int|
                                    0 <= yy < n && mark@[yy] && overlaps(
                                        cv[x2 as int],
                                        #[trigger] cv[yy],
                                    );
                                assert(yy != x2);
                                assert(!overlaps(cv[x2 as int], cv[yy]));
                            }
                        }
                        mark[x2] = true;
                        marked_count = marked_count + 1;
                        changed = true;
                    }
                }
                x2 = x2 + 1;
            }
            if !changed {
                break ;
            }
        }
        let ghost fixmark = mark@;
        // partition, preserving order on both sides
        let mut keeps: Vec<LSMBlock> = Vec::new();
        let mut merged: Vec<LSMBlock> = Vec::new();
        let mut idx: usize = 0;
        while idx < n
            invariant
                idx <= n,
                n == cv.len(),
                mark@ == fixmark,
                fixmark.len() == n,
                combined@.len() == n - idx,
                blocks_v(combined@) == cv.skip(idx as int),
                blocks_v(keeps@) == masked_seq(cv.take(idx as int), fixmark.take(idx as int), false),
                blocks_v(merged@) == masked_seq(cv.take(idx as int), fixmark.take(idx as int), true),
                fids_distinct(blocks_v(keeps@) + blocks_v(merged@) + blocks_v(combined@)),
            decreases n - idx,
        {
            let ghost old_k = blocks_v(keeps@);
            let ghost old_m = blocks_v(merged@);
            let ghost old_c = blocks_v(combined@);
            let b = combined.remove(0);
            proof {
                assert(blocks_v(combined@) =~= old_c.skip(1));
                assert(b@ == old_c[0]);
                assert(old_c[0] == cv[idx as int]);
                assert(old_c.skip(1) =~= cv.skip(idx + 1));
                assert(cv.take(idx + 1).drop_last() =~= cv.take(idx as int));
                assert(fixmark.take(idx + 1).drop_last() =~= fixmark.take(idx as int));
                assert(cv.take(idx + 1).last() == cv[idx as int]);
                assert(fixmark.take(idx + 1).last() == fixmark[idx as int]);
                assert(old_k + old_m + (seq![b@] + blocks_v(combined@)) =~= old_k + old_m + old_c);
                lemma_fids_move(old_k, old_m, b@, blocks_v(combined@));
            }
            if mark[idx] {
                merged.push(b);
                proof {
                    assert(blocks_v(merged@) =~= old_m.push(b@));
                    assert(masked_seq(cv.take(idx + 1), fixmark.take(idx + 1), true) == old_m.push(
                        b@,
                    ));
                    assert(masked_seq(cv.take(idx + 1), fixmark.take(idx + 1), false) == old_k);
                    assert(blocks_v(keeps@) + blocks_v(merged@) + blocks_v(combined@) =~= old_k
                        + old_m.push(b@) + blocks_v(combined@));
                }
            } else {
                keeps.push(b);
                proof {
                    assert(blocks_v(keeps@) =~= old_k.push(b@));
                    assert(masked_seq(cv.take(idx + 1), fixmark.take(idx + 1), false)
                        == old_k.push(b@));
                    assert(masked_seq(cv.take(idx + 1), fixmark.take(idx + 1), true) == old_m);
                    assert(blocks_v(keeps@) + blocks_v(merged@) + blocks_v(combined@)
                        =~= old_k.push(b@) + old_m + blocks_v(combined@));
                }
            }
            idx = idx + 1;
        }
        let ghost keep_infos = blocks_v(keeps@);
        let ghost merged_infos = blocks_v(merged@);
        proof {
            assert(cv.take(n as int) =~= cv);
            assert(fixmark.take(n as int) =~= fixmark);
            assert(keep_infos == masked_seq(cv, fixmark, false));
            assert(merged_infos == masked_seq(cv, fixmark, true));
            assert(blocks_v(combined@) =~= Seq::<BlockInfo>::empty());
            assert(keep_infos + merged_infos + blocks_v(combined@) =~= keep_infos + merged_infos);
            lemma_masked_elements(cv, fixmark, false);
            lemma_masked_elements(cv, fixmark, true);
            assert forall|i: int| 0 <= i < keep_infos.len() implies block_wf(
                #[trigger] keep_infos[i],
                fs@,
            ) by {
                let j = choose|j: int|
                    0 <= j < cv.len() && fixmark[j] == false && keep_infos[i] == cv[j];
            }
            assert forall|i: int| 0 <= i < merged_infos.len() implies block_wf(
                #[trigger] merged_infos[i],
                fs@,
            ) by {
                let j = choose|j: int|
                    0 <= j < cv.len() && fixmark[j] == true && merged_infos[i] == cv[j];
            }
        }
        // materialize the merge inputs, oldest first
        let mut runsv: Vec<Vec<KVPair>> = Vec::new();
        let mut q: usize = 0;
        while q < merged.len()
            invariant
                q <= merged@.len(),
                merged_infos == blocks_v(merged@),
                fs.wf(),
                blocks_wf(merged_infos, fs@),
                runsv@.len() == q,
                crate::merge::runs_view(runsv@) == block_runs(merged_infos, fs@).take(q as int),
            decreases merged@.len() - q,
        {
            let ghost old_runs = crate::merge::runs_view(runsv@);
            proof {
                assert(block_wf(blocks_v(merged@)[q as int], fs@));
                assert(merged@[q as int]@ == blocks_v(merged@)[q as int]);
            }
            let run = merged[q].pairs(fs);
            runsv.push(run);
            proof {
                assert(crate::merge::runs_view(runsv@) =~= old_runs.push(dview(run@)));
                assert(dview(run@) == block_runs(merged_infos, fs@)[q as int]);
                assert(block_runs(merged_infos, fs@).take(q + 1) =~= block_runs(
                    merged_infos,
                    fs@,
                ).take(q as int).push(block_runs(merged_infos, fs@)[q as int]));
            }
            q = q + 1;
        }
        proof {
            assert(block_runs(merged_infos, fs@).take(merged@.len() as int) =~= block_runs(
                merged_infos,
                fs@,
            ));
            assert forall|i: int|
                0 <= i < runsv@.len() implies sorted_strict(
                #[trigger] crate::merge::runs_view(runsv@)[i],
            ) && pairs_wf(crate::merge::runs_view(runsv@)[i]) by {
                assert(crate::merge::runs_view(runsv@)[i] == block_pairs(merged_infos[i], fs@));
                assert(block_wf(merged_infos[i], fs@));
            }
        }
        let out = crate::merge::merge_runs(&runsv);
        proof {
            // the merged output is no larger than all the inputs together
            lemma_masked_map(cv, fixmark, true, fs@);
            lemma_masked_map(cv, fixmark, false, fs@);
            lemma_masked_total(block_runs(cv, fs@), fixmark);
            crate::merge::lemma_runs_total_nonneg(block_runs(keep_infos, fs@));
            assert(crate::merge::runs_view(runsv@) == block_runs(merged_infos, fs@));
            assert(dview(out@).len() <= crate::merge::runs_total(block_runs(cv, fs@)));
        }
        let mut nb = build_blocks(&out, self.level, config.block_size, &mut self.file_id_manager, fs);
        let ghost nb_infos = blocks_v(nb@);
        let ghost mid_fsv = fs@;
        proof {
            assert forall|q1: int, q2: int|
                0 <= q1 < q2 < nb_infos.len() implies lex_lt(
                (#[trigger] nb_infos[q1]).hi,
                (#[trigger] nb_infos[q2]).lo,
            ) by {
                assert(nb_infos[q1] == nb@[q1]@);
                assert(nb_infos[q2] == nb@[q2]@);
            }
        }
        // the new generation replaces the merged region
        let mut update_removed: Vec<LSMBlockMeta> = Vec::new();
        let mut qq: usize = 0;
        while qq < merged.len()
            invariant
                qq <= merged@.len(),
                merged_infos == blocks_v(merged@),
                update_removed@.len() == qq,
                forall|t: int|
                    0 <= t < qq ==> (#[trigger] update_removed@[t]).origin_level
                        == merged_infos[t].origin_level && update_removed@[t].block_file_id
                        == merged_infos[t].block_file_id,
            decreases merged@.len() - qq,
        {
            update_removed.push(merged[qq].metadata());
            qq = qq + 1;
        }
        let mut update_added: Vec<LSMBlockMeta> = Vec::new();
        let mut qa: usize = 0;
        while qa < nb.len()
            invariant
                qa <= nb@.len(),
                nb_infos == blocks_v(nb@),
                update_added@.len() == qa,
                forall|t: int|
                    0 <= t < qa ==> (#[trigger] update_added@[t]).origin_level
                        == nb_infos[t].origin_level && update_added@[t].block_file_id
                        == nb_infos[t].block_file_id,
            decreases nb@.len() - qa,
        {
            update_added.push(nb[qa].metadata());
            qa = qa + 1;
        }
        self.blocks = keeps;
        self.blocks.append(&mut nb);
        let count = self.blocks.len();
        let needs = if self.level == 1 {
            count > config.level1_size
        } else {
            let cap = config.level_size_max(self.level as usize);
            count >= cap
        };
        proof {
            assert(keep_infos + merged_infos + Seq::<BlockInfo>::empty() =~= keep_infos
                + merged_infos);
            assert(fids_distinct(keep_infos + merged_infos));
            lemma_merge_endgame(
                cv,
                fixmark,
                keep_infos,
                merged_infos,
                nb_infos,
                old_fsv,
                mid_fsv,
                old(self).infos(),
                blocks_v(blocks@),
                old(self).level_no(),
                old(self).alloc_current(),
            );
            assert(self.infos() =~= keep_infos + nb_infos);
            // the structural half of the contract: the fresh suffix, the
            // retention of untouched blocks, and the kept blocks' ranges
            lemma_merge_structure(
                cv,
                fixmark,
                keep_infos,
                nb_infos,
                merged_infos,
                mid_fsv,
                update_added@,
                update_removed@,
                old(self).infos(),
                blocks_v(blocks@),
                old(self).level_no(),
                old(self).alloc_current(),
                config.block_size,
            );
            assert(update_added@.len() == nb_infos.len());
            assert(update_removed@.len() == merged_infos.len());
            assert(self.infos() == keep_infos + nb_infos);
            assert(fs@ == mid_fsv);
        }
        let ghost ua = update_added@;
        let update_ret = ManifestUpdate::new(update_added, update_removed);
        proof {
            assert(update_ret.added_files@ == ua);
            assert(fresh_suffix_ok(
                ua,
                keep_infos + nb_infos,
                mid_fsv,
                old(self).level_no(),
                old(self).alloc_current(),
                config.block_size,
            ));
            assert(self.infos() == keep_infos + nb_infos);
            assert(fs@ == mid_fsv);
            assert(fresh_suffix_ok(
                update_ret.added_files@,
                self.infos(),
                fs@,
                old(self).level_no(),
                old(self).alloc_current(),
                config.block_size,
            ));
        }
        (update_ret, needs)
    }


    /// Rebuild a level from the text of its manifest: the id-allocator
    /// value on the first line, then one `origin:id:lo:hi` line per block.
    /// `None` means the text is corrupt: a malformed counter, a line
    /// without exactly four fields, or a numeric field that does not fit.
    pub fn from_manifest(level: u32, text: &Vec<char>) -> (r: Option<LSMLevel>)
        ensures
            match r {
                Some(l) => {
                    &&& parse_manifest(text@) is Some
                    &&& l.level_no() == level
                    &&& l.alloc_current() == parse_manifest(text@)->Some_0.0
                    &&& l.infos() == parse_manifest(text@)->Some_0.1
                },
                None => parse_manifest(text@) is None,
            },
    {
        let n = text.len();
        let e = find_char(text, 0, '\n');
        proof {
            lemma_find_from_bounds(text@, 0, '\n');
        }
        let counter = match parse_u32(text, 0, e) {
            Some(c) => c,
            None => {
                return None;
            },
        };
        let mut blocks: Vec<LSMBlock> = Vec::new();
        if e == n {
            let l = LSMLevel::with_blocks(level, blocks, FileIdManager::new(counter));
            proof {
                assert(blocks_v(Seq::<LSMBlock>::empty()) =~= Seq::<BlockInfo>::empty());
            }
            return Some(l);
        }
        let ghost start = e + 1;
        let mut pos: usize = e + 1;
        while pos < n
            invariant
                pos <= n,
                n == text@.len(),
                0 <= start <= n,
                parse_infos_from(text@, start as int) == match parse_infos_from(
                    text@,
                    pos as int,
                ) {
                    None => None::<Seq<BlockInfo>>,
                    Some(bs) => Some(blocks_v(blocks@) + bs),
                },
                match parse_infos_from(text@, start as int) {
                    None => parse_manifest(text@) is None,
                    Some(bs0) => parse_manifest(text@) == Some((counter, bs0)),
                },
            decreases n - pos,
        {
            let le = find_char(text, pos, '\n');
            proof {
                lemma_find_from_bounds(text@, pos as int, '\n');
            }
            let c1 = find_char(text, pos, ':');
            proof {
                lemma_find_from_bounds(text@, pos as int, ':');
            }
            if c1 >= le {
                return None;
            }
            let c2 = find_char(text, c1 + 1, ':');
            proof {
                lemma_find_from_bounds(text@, c1 + 1, ':');
            }
            if c2 >= le {
                return None;
            }
            let c3 = find_char(text, c2 + 1, ':');
            proof {
                lemma_find_from_bounds(text@, c2 + 1, ':');
            }
            if c3 >= le {
                return None;
            }
            let c4 = find_char(text, c3 + 1, ':');
            if c4 < le {
                return None;
            }
            let origin = match parse_u32(text, pos, c1) {
                Some(v) => v,
                None => {
                    return None;
                },
            };
            let idv = match parse_u32(text, c1 + 1, c2) {
                Some(v) => v,
                None => {
                    return None;
                },
            };
            let lo = string_of_range(text, c2 + 1, c3);
            let hi = string_of_range(text, c3 + 1, le);
            let ghost b = parse_info_line_at(text@, pos as int, le as int)->Some_0;
            let ghost old_blocks = blocks@;
            blocks.push(LSMBlock::new(origin, idv, lo, hi));
            proof {
                assert(parse_info_line_at(text@, pos as int, le as int) == Some(b));
                assert(blocks@[blocks@.len() - 1]@ == b);
                assert(blocks_v(blocks@) =~= blocks_v(old_blocks) + seq![b]);
                let rest = if le == text@.len() {
                    Some(Seq::<BlockInfo>::empty())
                } else {
                    parse_infos_from(text@, le + 1)
                };
                assert(parse_infos_from(text@, pos as int) == match rest {
                    None => None::<Seq<BlockInfo>>,
                    Some(bs) => Some(seq![b] + bs),
                });
                if rest is Some {
                    assert((blocks_v(old_blocks) + seq![b]) + rest->Some_0 =~= blocks_v(
                        old_blocks,
                    ) + (seq![b] + rest->Some_0));
                }
            }
            if le == n {
                pos = n;
            } else {
                pos = le + 1;
            }
        }
        proof {
            assert(parse_infos_from(text@, pos as int) == Some(Seq::<BlockInfo>::empty()));
            assert(blocks_v(blocks@) + Seq::<BlockInfo>::empty() =~= blocks_v(blocks@));
        }
        Some(LSMLevel::with_blocks(level, blocks, FileIdManager::new(counter)))
    }

    /// Rewrite this level's manifest in full: the id-allocator value, then
    /// one line per block in list order.
    pub fn update_meta_file(&self, fs: &mut FileStore)
        requires
            old(fs).wf(),
        ensures
            final(fs).wf(),
            final(fs)@ == old(fs)@.insert(
                FileId::Manifest { level: self.level_no() },
                encode_manifest(self.alloc_current(), self.infos()),
            ),
    {
        let mut v = u32_dec(self.file_id_manager.current());
        v.push('\n');
        let n = self.blocks.len();
        let mut i: usize = 0;
        proof {
            assert(self.infos().take(0) =~= Seq::<BlockInfo>::empty());
            assert(v@ =~= dec_rep(self.alloc_current() as int) + seq!['\n'] + encode_infos(
                self.infos().take(0),
            ));
        }
        while i < n
            invariant
                i <= n,
                n == self.blocks@.len(),
                v@ == dec_rep(self.alloc_current() as int) + seq!['\n'] + encode_infos(
                    self.infos().take(i as int),
                ),
            decreases n - i,
        {
            let ghost prefix = self.infos().take(i as int);
            let ghost b = self.infos()[i as int];
            let mut ol = u32_dec(self.blocks[i].metadata().origin_level);
            v.append(&mut ol);
            v.push(':');
            let mut id = u32_dec(self.blocks[i].metadata().block_file_id);
            v.append(&mut id);
            v.push(':');
            let mut lo = chars_of(self.blocks[i].lower_bound());
            v.append(&mut lo);
            v.push(':');
            let mut hi = chars_of(self.blocks[i].upper_bound());
            v.append(&mut hi);
            v.push('\n');
            proof {
                assert(v@ =~= dec_rep(self.alloc_current() as int) + seq!['\n'] + (encode_infos(
                    prefix,
                ) + encode_info(b)));
                lemma_encode_infos_concat(prefix, seq![b]);
                lemma_encode_infos_singleton(b);
                assert(self.infos().take(i + 1) =~= prefix + seq![b]);
            }
            i = i + 1;
        }
        proof {
            assert(self.infos().take(n as int) =~= self.infos());
        }
        fs.write(FileId::Manifest { level: self.level }, v);
    }
}

} // verus!
