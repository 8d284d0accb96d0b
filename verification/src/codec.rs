use vstd::prelude::*;

use crate::KVPair;
use crate::chars::{chars_of, string_of_range};
use crate::model::{PairData, pair_wf, pairs_wf, dview, valid_text};
use crate::chars::{dec_rep, dec_val, all_digits, is_digit, lemma_dec_rep_digits};

verus! {

/// Index of the first occurrence of `c` at or after `from`, or `s.len()`.
pub open spec fn find_from(s: Seq<char>, from: int, c: char) -> int
    decreases s.len() - from,
{
    if from < 0 || from >= s.len() {
        s.len() as int
    } else if s[from] == c {
        from
    } else {
        find_from(s, from + 1, c)
    }
}

pub proof fn lemma_find_from_bounds(s: Seq<char>, from: int, c: char)
    requires
        0 <= from <= s.len(),
    ensures
        from <= find_from(s, from, c) <= s.len(),
        find_from(s, from, c) < s.len() ==> s[find_from(s, from, c)] == c,
        forall|i: int| from <= i < find_from(s, from, c) ==> s[i] != c,
    decreases s.len() - from,
{
    if from < s.len() && s[from] != c {
        lemma_find_from_bounds(s, from + 1, c);
    }
}

/// `find_from` lands exactly on a known first occurrence.
pub proof fn lemma_find_from_is(s: Seq<char>, from: int, k: int, c: char)
    requires
        0 <= from <= k <= s.len(),
        forall|i: int| from <= i < k ==> s[i] != c,
        k < s.len() ==> s[k] == c,
    ensures
        find_from(s, from, c) == k,
    decreases k - from,
{
    if from < k {
        lemma_find_from_is(s, from + 1, k, c);
    }
}

pub proof fn lemma_find_from_shift(s: Seq<char>, pos: int, k: int, c: char)
    requires
        0 <= pos <= s.len(),
        0 <= k,
    ensures
        find_from(s, pos + k, c) - pos == find_from(s.skip(pos), k, c),
    decreases s.len() - (pos + k),
{
    if pos + k < s.len() {
        assert(s.skip(pos)[k] == s[pos + k]);
        if s[pos + k] != c {
            lemma_find_from_shift(s, pos, k + 1, c);
        }
    }
}

/// One record on disk: `key:value` terminated by a newline.
pub open spec fn encode_pair(p: PairData) -> Seq<char> {
    p.0 + seq![':'] + p.1 + seq!['\n']
}

/// A block file: the records in order.
pub open spec fn encode_pairs(ps: Seq<PairData>) -> Seq<char>
    decreases ps.len(),
{
    if ps.len() == 0 {
        Seq::empty()
    } else {
        encode_pair(ps.first()) + encode_pairs(ps.drop_first())
    }
}

pub proof fn lemma_encode_pairs_singleton(p: PairData)
    ensures
        encode_pairs(seq![p]) == encode_pair(p),
{
    let s = seq![p];
    assert(s.len() == 1);
    assert(s.first() == p);
    assert(s.drop_first() =~= Seq::<PairData>::empty());
    assert(encode_pairs(s.drop_first()) =~= Seq::<char>::empty());
    assert(encode_pair(p) + Seq::<char>::empty() =~= encode_pair(p));
}

pub proof fn lemma_encode_pairs_concat(a: Seq<PairData>, b: Seq<PairData>)
    ensures
        encode_pairs(a + b) == encode_pairs(a) + encode_pairs(b),
    decreases a.len(),
{
    if a.len() == 0 {
        assert(a + b =~= b);
        assert(encode_pairs(a) + encode_pairs(b) =~= encode_pairs(b));
    } else {
        assert((a + b).first() == a.first());
        assert((a + b).drop_first() =~= a.drop_first() + b);
        lemma_encode_pairs_concat(a.drop_first(), b);
        assert(encode_pair(a.first()) + (encode_pairs(a.drop_first()) + encode_pairs(b))
            =~= (encode_pair(a.first()) + encode_pairs(a.drop_first())) + encode_pairs(b));
    }
}

/// One line of a block file, between `pos` and the line end `e`: exactly one
/// field separator, splitting the line into key and value.
pub open spec fn parse_line_at(s: Seq<char>, pos: int, e: int) -> Option<PairData> {
    let c = find_from(s, pos, ':');
    if c >= e {
        None
    } else if find_from(s, c + 1, ':') < e {
        None
    } else {
        Some((s.subrange(pos, c), s.subrange(c + 1, e)))
    }
}

/// The records of a block file from position `pos` on.  A final line without
/// a terminating newline is read like a terminated one.
pub open spec fn parse_pairs_from(s: Seq<char>, pos: int) -> Option<Seq<PairData>>
    decreases s.len() - pos,
    when 0 <= pos
    via parse_pairs_from_dec
{
    if pos >= s.len() {
        Some(Seq::empty())
    } else {
        let e = find_from(s, pos, '\n');
        match parse_line_at(s, pos, e) {
            None => None,
            Some(p) => {
                let rest = if e == s.len() {
                    Some(Seq::<PairData>::empty())
                } else {
                    parse_pairs_from(s, e + 1)
                };
                match rest {
                    None => None,
                    Some(ps) => Some(seq![p] + ps),
                }
            },
        }
    }
}

#[via_fn]
proof fn parse_pairs_from_dec(s: Seq<char>, pos: int) {
    if 0 <= pos && pos < s.len() {
        lemma_find_from_bounds(s, pos, '\n');
    }
}

/// The content of a block file.
pub open spec fn parse_pairs(s: Seq<char>) -> Option<Seq<PairData>> {
    parse_pairs_from(s, 0)
}

/// Parsing from a position reads only the suffix there.
pub proof fn lemma_parse_pairs_shift(s: Seq<char>, pos: int)
    requires
        0 <= pos <= s.len(),
    ensures
        parse_pairs_from(s, pos) == parse_pairs_from(s.skip(pos), 0),
    decreases s.len() - pos,
{
    let t = s.skip(pos);
    if pos >= s.len() {
        assert(t.len() == 0);
    } else {
        let e = find_from(s, pos, '\n');
        lemma_find_from_bounds(s, pos, '\n');
        lemma_find_from_shift(s, pos, 0, '\n');
        let et = find_from(t, 0, '\n');
        assert(et == e - pos);
        // the line splits agree
        let c = find_from(s, pos, ':');
        lemma_find_from_bounds(s, pos, ':');
        lemma_find_from_shift(s, pos, 0, ':');
        let ct = find_from(t, 0, ':');
        assert(ct == c - pos);
        if c < e {
            lemma_find_from_shift(s, pos, c + 1 - pos, ':');
            assert(find_from(t, ct + 1, ':') == find_from(s, c + 1, ':') - pos);
            if find_from(s, c + 1, ':') >= e {
                assert(s.subrange(pos, c) =~= t.subrange(0, ct));
                assert(s.subrange(c + 1, e) =~= t.subrange(ct + 1, et));
                assert(parse_line_at(s, pos, e) == parse_line_at(t, 0, et));
                if e < s.len() {
                    assert(et < t.len());
                    lemma_parse_pairs_shift(s, e + 1);
                    lemma_parse_pairs_shift(t, et + 1);
                    assert(t.skip(et + 1) =~= s.skip(e + 1));
                } else {
                    assert(et == t.len());
                }
            }
        }
    }
}

/// Index of the first occurrence of `c` at or after `from`, executably.
pub fn find_char(s: &Vec<char>, from: usize, c: char) -> (r: usize)
    requires
        from <= s@.len(),
    ensures
        r == find_from(s@, from as int, c),
{
    let n = s.len();
    let mut i: usize = from;
    while i < n
        invariant
            from <= i <= n,
            n == s@.len(),
            forall|j: int| from <= j < i ==> s@[j] != c,
        decreases n - i,
    {
        if s[i] == c {
            proof {
                lemma_find_from_is(s@, from as int, i as int, c);
            }
            return i;
        }
        i = i + 1;
    }
    proof {
        lemma_find_from_is(s@, from as int, n as int, c);
    }
    n
}

/// Write a run of pairs in the block file format.
pub fn encode_pairs_exec(ps: &Vec<KVPair>) -> (r: Vec<char>)
    ensures
        r@ == encode_pairs(dview(ps@)),
{
    let n = ps.len();
    let mut out: Vec<char> = Vec::new();
    let mut i: usize = 0;
    while i < n
        invariant
            i <= n,
            n == ps@.len(),
            out@ == encode_pairs(dview(ps@).take(i as int)),
        decreases n - i,
    {
        let ghost prefix = dview(ps@).take(i as int);
        let ghost p = dview(ps@)[i as int];
        let mut kc = chars_of(ps[i].0.as_str());
        out.append(&mut kc);
        out.push(':');
        let mut vc = chars_of(ps[i].1.as_str());
        out.append(&mut vc);
        out.push('\n');
        proof {
            assert(out@ =~= encode_pairs(prefix) + encode_pair(p));
            lemma_encode_pairs_concat(prefix, seq![p]);
            lemma_encode_pairs_singleton(p);
            assert(dview(ps@).take(i + 1) =~= prefix + seq![p]);
        }
        i = i + 1;
    }
    proof {
        assert(dview(ps@).take(n as int) =~= dview(ps@));
    }
    out
}

/// Read a block file.  `None` means the text is corrupt: some line does not
/// split into exactly two fields.
pub fn parse_pairs_exec(s: &Vec<char>) -> (r: Option<Vec<KVPair>>)
    ensures
        match r {
            Some(ps) => parse_pairs(s@) == Some(dview(ps@)),
            None => parse_pairs(s@) is None,
        },
{
    let n = s.len();
    let mut out: Vec<KVPair> = Vec::new();
    let mut pos: usize = 0;
    while pos < n
        invariant
            pos <= n,
            n == s@.len(),
            parse_pairs(s@) == match parse_pairs_from(s@, pos as int) {
                None => None::<Seq<PairData>>,
                Some(ps) => Some(dview(out@) + ps),
            },
        decreases n - pos,
    {
        let e = find_char(s, pos, '\n');
        proof {
            lemma_find_from_bounds(s@, pos as int, '\n');
        }
        let c = find_char(s, pos, ':');
        proof {
            lemma_find_from_bounds(s@, pos as int, ':');
        }
        if c >= e {
            return None;
        }
        let c2 = find_char(s, c + 1, ':');
        if c2 < e {
            return None;
        }
        let key = string_of_range(s, pos, c);
        let value = string_of_range(s, c + 1, e);
        let ghost p = (s@.subrange(pos as int, c as int), s@.subrange(c + 1, e as int));
        let ghost old_out = out@;
        out.push(KVPair(key, value));
        proof {
            assert(parse_line_at(s@, pos as int, e as int) == Some(p));
            assert(dview(out@) =~= dview(old_out) + seq![p]);
            let rest = if e == s@.len() {
                Some(Seq::<PairData>::empty())
            } else {
                parse_pairs_from(s@, e + 1)
            };
            assert(parse_pairs_from(s@, pos as int) == match rest {
                None => None::<Seq<PairData>>,
                Some(ps) => Some(seq![p] + ps),
            });
            if rest is Some {
                assert((dview(old_out) + seq![p]) + rest->Some_0 =~= dview(old_out) + (seq![p]
                    + rest->Some_0));
            }
        }
        if e == n {
            pos = n;
        } else {
            pos = e + 1;
        }
    }
    proof {
        assert(parse_pairs_from(s@, pos as int) == Some(Seq::<PairData>::empty()));
        assert(dview(out@) + Seq::<PairData>::empty() =~= dview(out@));
    }
    Some(out)
}

/// What a manifest records of one block: its stable identity and its key
/// range.
pub ghost struct BlockInfo {
    pub origin_level: u32,
    pub block_file_id: u32,
    pub lo: Seq<char>,
    pub hi: Seq<char>,
}

pub open spec fn info_wf(b: BlockInfo) -> bool {
    valid_text(b.lo) && valid_text(b.hi)
}

pub open spec fn infos_wf(bs: Seq<BlockInfo>) -> bool {
    forall|i: int| 0 <= i < bs.len() ==> info_wf(#[trigger] bs[i])
}

/// One manifest line: origin level, block id, and the key range.
pub open spec fn encode_info(b: BlockInfo) -> Seq<char> {
    dec_rep(b.origin_level as int) + seq![':'] + dec_rep(b.block_file_id as int) + seq![':'] + b.lo
        + seq![':'] + b.hi + seq!['\n']
}

pub open spec fn encode_infos(bs: Seq<BlockInfo>) -> Seq<char>
    decreases bs.len(),
{
    if bs.len() == 0 {
        Seq::empty()
    } else {
        encode_info(bs.first()) + encode_infos(bs.drop_first())
    }
}

/// A level's manifest file: the id-allocator value, then one line per block.
pub open spec fn encode_manifest(counter: u32, bs: Seq<BlockInfo>) -> Seq<char> {
    dec_rep(counter as int) + seq!['\n'] + encode_infos(bs)
}

pub proof fn lemma_encode_infos_singleton(b: BlockInfo)
    ensures
        encode_infos(seq![b]) == encode_info(b),
{
    let s = seq![b];
    assert(s.len() == 1);
    assert(s.first() == b);
    assert(s.drop_first() =~= Seq::<BlockInfo>::empty());
    assert(encode_infos(s.drop_first()) =~= Seq::<char>::empty());
    assert(encode_info(b) + Seq::<char>::empty() =~= encode_info(b));
}

pub proof fn lemma_encode_infos_concat(a: Seq<BlockInfo>, b: Seq<BlockInfo>)
    ensures
        encode_infos(a + b) == encode_infos(a) + encode_infos(b),
    decreases a.len(),
{
    if a.len() == 0 {
        assert(a + b =~= b);
        assert(encode_infos(a) + encode_infos(b) =~= encode_infos(b));
    } else {
        assert((a + b).first() == a.first());
        assert((a + b).drop_first() =~= a.drop_first() + b);
        lemma_encode_infos_concat(a.drop_first(), b);
        assert(encode_info(a.first()) + (encode_infos(a.drop_first()) + encode_infos(b))
            =~= (encode_info(a.first()) + encode_infos(a.drop_first())) + encode_infos(b));
    }
}

pub open spec fn parse_info_line_at(s: Seq<char>, pos: int, e: int) -> Option<BlockInfo> {
    let c1 = find_from(s, pos, ':');
    let c2 = find_from(s, c1 + 1, ':');
    let c3 = find_from(s, c2 + 1, ':');
    if c1 >= e || c2 >= e || c3 >= e {
        None
    } else if find_from(s, c3 + 1, ':') < e {
        None
    } else {
        let f0 = s.subrange(pos, c1);
        let f1 = s.subrange(c1 + 1, c2);
        if f0.len() == 0 || !all_digits(f0) || dec_val(f0) > u32::MAX || f1.len() == 0
            || !all_digits(f1) || dec_val(f1) > u32::MAX {
            None
        } else {
            Some(
                BlockInfo {
                    origin_level: dec_val(f0) as u32,
                    block_file_id: dec_val(f1) as u32,
                    lo: s.subrange(c2 + 1, c3),
                    hi: s.subrange(c3 + 1, e),
                },
            )
        }
    }
}

pub open spec fn parse_infos_from(s: Seq<char>, pos: int) -> Option<Seq<BlockInfo>>
    decreases s.len() - pos,
    when 0 <= pos
    via parse_infos_from_dec
{
    if pos >= s.len() {
        Some(Seq::empty())
    } else {
        let e = find_from(s, pos, '\n');
        match parse_info_line_at(s, pos, e) {
            None => None,
            Some(b) => {
                let rest = if e == s.len() {
                    Some(Seq::<BlockInfo>::empty())
                } else {
                    parse_infos_from(s, e + 1)
                };
                match rest {
                    None => None,
                    Some(bs) => Some(seq![b] + bs),
                }
            },
        }
    }
}

#[via_fn]
proof fn parse_infos_from_dec(s: Seq<char>, pos: int) {
    if 0 <= pos && pos < s.len() {
        lemma_find_from_bounds(s, pos, '\n');
    }
}

/// A manifest file's content: the id-allocator value and the blocks listed.
pub open spec fn parse_manifest(s: Seq<char>) -> Option<(u32, Seq<BlockInfo>)> {
    let e = find_from(s, 0, '\n');
    let head = s.subrange(0, e);
    if head.len() == 0 || !all_digits(head) || dec_val(head) > u32::MAX {
        None
    } else {
        let rest = if e == s.len() {
            Some(Seq::<BlockInfo>::empty())
        } else {
            parse_infos_from(s, e + 1)
        };
        match rest {
            None => None,
            Some(bs) => Some((dec_val(head) as u32, bs)),
        }
    }
}


/// Parsing manifest lines from a position reads only the suffix there.
pub proof fn lemma_parse_infos_shift(s: Seq<char>, pos: int)
    requires
        0 <= pos <= s.len(),
    ensures
        parse_infos_from(s, pos) == parse_infos_from(s.skip(pos), 0),
    decreases s.len() - pos,
{
    let t = s.skip(pos);
    if pos >= s.len() {
        assert(t.len() == 0);
    } else {
        let e = find_from(s, pos, '\n');
        lemma_find_from_bounds(s, pos, '\n');
        lemma_find_from_shift(s, pos, 0, '\n');
        let et = find_from(t, 0, '\n');
        assert(et == e - pos);
        let c1 = find_from(s, pos, ':');
        lemma_find_from_bounds(s, pos, ':');
        lemma_find_from_shift(s, pos, 0, ':');
        assert(find_from(t, 0, ':') == c1 - pos);
        if c1 < e {
            let c2 = find_from(s, c1 + 1, ':');
            lemma_find_from_bounds(s, c1 + 1, ':');
            lemma_find_from_shift(s, pos, c1 + 1 - pos, ':');
            assert(find_from(t, c1 + 1 - pos, ':') == c2 - pos);
            if c2 < e {
                let c3 = find_from(s, c2 + 1, ':');
                lemma_find_from_bounds(s, c2 + 1, ':');
                lemma_find_from_shift(s, pos, c2 + 1 - pos, ':');
                assert(find_from(t, c2 + 1 - pos, ':') == c3 - pos);
                if c3 < e {
                    lemma_find_from_bounds(s, c3 + 1, ':');
                    lemma_find_from_shift(s, pos, c3 + 1 - pos, ':');
                    assert(find_from(t, c3 + 1 - pos, ':') == find_from(s, c3 + 1, ':') - pos);
                    assert(s.subrange(pos, c1) =~= t.subrange(0, c1 - pos));
                    assert(s.subrange(c1 + 1, c2) =~= t.subrange(c1 + 1 - pos, c2 - pos));
                    assert(s.subrange(c2 + 1, c3) =~= t.subrange(c2 + 1 - pos, c3 - pos));
                    assert(s.subrange(c3 + 1, e) =~= t.subrange(c3 + 1 - pos, e - pos));
                    assert(parse_info_line_at(s, pos, e) == parse_info_line_at(t, 0, et));
                    if parse_info_line_at(s, pos, e) is Some {
                        if e < s.len() {
                            assert(et < t.len());
                            lemma_parse_infos_shift(s, e + 1);
                            lemma_parse_infos_shift(t, et + 1);
                            assert(t.skip(et + 1) =~= s.skip(e + 1));
                        } else {
                            assert(et == t.len());
                        }
                    }
                } else {
                    assert(parse_info_line_at(s, pos, e) is None);
                    assert(parse_info_line_at(t, 0, et) is None);
                }
            } else {
                assert(parse_info_line_at(s, pos, e) is None);
                assert(parse_info_line_at(t, 0, et) is None);
            }
        } else {
            assert(parse_info_line_at(s, pos, e) is None);
            assert(parse_info_line_at(t, 0, et) is None);
        }
    }
}

/// Encoding then parsing a well-formed list of block lines gives the list
/// back.
pub proof fn lemma_parse_encode_infos(bs: Seq<BlockInfo>)
    requires
        infos_wf(bs),
    ensures
        parse_infos_from(encode_infos(bs), 0) == Some(bs),
    decreases bs.len(),
{
    if bs.len() == 0 {
    } else {
        let b = bs.first();
        let rest = bs.drop_first();
        let s = encode_infos(bs);
        assert(info_wf(b));
        lemma_dec_rep_digits(b.origin_level as int);
        lemma_dec_rep_digits(b.block_file_id as int);
        let od = dec_rep(b.origin_level as int);
        let id = dec_rep(b.block_file_id as int);
        let ol = od.len() as int;
        let il = id.len() as int;
        let lol = b.lo.len() as int;
        let hil = b.hi.len() as int;
        let ll = ol + 1 + il + 1 + lol + 1 + hil + 1;
        assert(encode_info(b).len() == ll);
        assert(s == encode_info(b) + encode_infos(rest));
        assert forall|i: int| 0 <= i < ll implies s[i] == encode_info(b)[i] by {}
        // where each character of the first line sits
        assert forall|i: int| 0 <= i < ol implies s[i] == od[i] by {
            assert(encode_info(b)[i] == od[i]);
        }
        assert(s[ol] == ':');
        assert forall|i: int| ol + 1 <= i < ol + 1 + il implies s[i] == id[i - (ol + 1)] by {
            assert(encode_info(b)[i] == id[i - (ol + 1)]);
        }
        assert(s[ol + 1 + il] == ':');
        assert forall|i: int|
            ol + 1 + il + 1 <= i < ol + 1 + il + 1 + lol implies s[i] == b.lo[i - (ol + 1 + il
                + 1)] by {
            assert(encode_info(b)[i] == b.lo[i - (ol + 1 + il + 1)]);
        }
        assert(s[ol + 1 + il + 1 + lol] == ':');
        assert forall|i: int|
            ol + 1 + il + 1 + lol + 1 <= i < ll - 1 implies s[i] == b.hi[i - (ol + 1 + il + 1
                + lol + 1)] by {
            assert(encode_info(b)[i] == b.hi[i - (ol + 1 + il + 1 + lol + 1)]);
        }
        assert(s[ll - 1] == '\n');
        // the first newline ends the first line
        assert forall|i: int| 0 <= i < ll - 1 implies s[i] != '\n' by {
            if i < ol {
                assert(is_digit(s[i]));
            } else if i == ol {
            } else if i < ol + 1 + il {
                assert(is_digit(s[i]));
            } else if i == ol + 1 + il {
            } else if i < ol + 1 + il + 1 + lol {
                assert(s[i] == b.lo[i - (ol + 1 + il + 1)]);
            } else if i == ol + 1 + il + 1 + lol {
            } else {
                assert(s[i] == b.hi[i - (ol + 1 + il + 1 + lol + 1)]);
            }
        }
        lemma_find_from_is(s, 0, ll - 1, '\n');
        let e = find_from(s, 0, '\n');
        assert(e == ll - 1);
        // the three separators of the line
        assert forall|i: int| 0 <= i < ol implies s[i] != ':' by {
            assert(is_digit(s[i]));
        }
        lemma_find_from_is(s, 0, ol, ':');
        assert forall|i: int| ol + 1 <= i < ol + 1 + il implies s[i] != ':' by {
            assert(is_digit(s[i]));
        }
        lemma_find_from_is(s, ol + 1, ol + 1 + il, ':');
        assert forall|i: int|
            ol + 1 + il + 1 <= i < ol + 1 + il + 1 + lol implies s[i] != ':' by {
            assert(s[i] == b.lo[i - (ol + 1 + il + 1)]);
        }
        lemma_find_from_is(s, ol + 1 + il + 1, ol + 1 + il + 1 + lol, ':');
        // and no fourth one before the line end
        lemma_find_from_bounds(s, ol + 1 + il + 1 + lol + 1, ':');
        assert forall|i: int|
            ol + 1 + il + 1 + lol + 1 <= i < ll - 1 implies s[i] != ':' by {
            assert(s[i] == b.hi[i - (ol + 1 + il + 1 + lol + 1)]);
        }
        assert(find_from(s, ol + 1 + il + 1 + lol + 1, ':') >= e);
        // the four fields read back exactly
        assert(s.subrange(0, ol) =~= od);
        assert(s.subrange(ol + 1, ol + 1 + il) =~= id);
        assert(s.subrange(ol + 1 + il + 1, ol + 1 + il + 1 + lol) =~= b.lo);
        assert(s.subrange(ol + 1 + il + 1 + lol + 1, e) =~= b.hi);
        assert(parse_info_line_at(s, 0, e) == Some(b));
        lemma_parse_encode_infos(rest);
        if rest.len() == 0 {
            assert(encode_infos(rest).len() == 0);
            assert(e == s.len() - 1);
            assert(seq![b] + Seq::<BlockInfo>::empty() =~= bs);
        } else {
            assert(encode_infos(rest).len() > 0) by {
                assert(encode_infos(rest) == encode_info(rest.first()) + encode_infos(
                    rest.drop_first(),
                ));
            }
            assert(e < s.len());
            lemma_parse_infos_shift(s, e + 1);
            assert(s.skip(e + 1) =~= encode_infos(rest));
            assert(seq![b] + rest =~= bs);
        }
    }
}

/// Encoding then parsing a well-formed manifest gives back exactly the
/// allocator value and the blocks: a level's manifest loses nothing.
pub proof fn lemma_parse_encode_manifest(counter: u32, bs: Seq<BlockInfo>)
    requires
        infos_wf(bs),
    ensures
        parse_manifest(encode_manifest(counter, bs)) == Some((counter, bs)),
{
    let s = encode_manifest(counter, bs);
    lemma_dec_rep_digits(counter as int);
    let cd = dec_rep(counter as int);
    let cl = cd.len() as int;
    assert forall|i: int| 0 <= i < cl implies s[i] == cd[i] by {}
    assert forall|i: int| 0 <= i < cl implies s[i] != '\n' by {
        assert(is_digit(s[i]));
    }
    assert(s[cl] == '\n');
    lemma_find_from_is(s, 0, cl, '\n');
    let e = find_from(s, 0, '\n');
    assert(e == cl);
    assert(s.subrange(0, e) =~= cd);
    assert(e < s.len());
    lemma_parse_infos_shift(s, e + 1);
    assert(s.skip(e + 1) =~= encode_infos(bs));
    lemma_parse_encode_infos(bs);
}

/// Encoding then parsing a well-formed run of pairs gives the run back:
/// the block file format is lossless.
pub proof fn lemma_parse_encode_pairs(ps: Seq<PairData>)
    requires
        pairs_wf(ps),
    ensures
        parse_pairs(encode_pairs(ps)) == Some(ps),
    decreases ps.len(),
{
    if ps.len() == 0 {
    } else {
        let p = ps.first();
        let rest = ps.drop_first();
        let s = encode_pairs(ps);
        let kl = p.0.len() as int;
        let vl = p.1.len() as int;
        let ll = kl + 1 + vl + 1;
        assert(pair_wf(p));
        assert(encode_pair(p).len() == ll);
        assert(s == encode_pair(p) + encode_pairs(rest));
        assert forall|i: int| 0 <= i < ll implies s[i] == encode_pair(p)[i] by {}
        assert forall|i: int| 0 <= i < kl implies s[i] == p.0[i] by {
            assert(encode_pair(p)[i] == p.0[i]);
        }
        assert(s[kl] == ':');
        assert forall|i: int| kl + 1 <= i < kl + 1 + vl implies s[i] == p.1[i - (kl + 1)] by {
            assert(encode_pair(p)[i] == p.1[i - (kl + 1)]);
        }
        assert(s[ll - 1] == '\n');
        // the first newline ends the first record
        assert forall|i: int| 0 <= i < ll - 1 implies s[i] != '\n' by {
            if i < kl {
                assert(s[i] == p.0[i]);
            } else if i == kl {
            } else {
                assert(s[i] == p.1[i - (kl + 1)]);
            }
        }
        lemma_find_from_is(s, 0, ll - 1, '\n');
        let e = find_from(s, 0, '\n');
        assert(e == ll - 1);
        // the first separator splits key from value
        assert forall|i: int| 0 <= i < kl implies s[i] != ':' by {
            assert(s[i] == p.0[i]);
        }
        lemma_find_from_is(s, 0, kl, ':');
        let c = find_from(s, 0, ':');
        assert(c == kl);
        assert(c < e);
        // and no second separator before the line end
        lemma_find_from_bounds(s, c + 1, ':');
        let c2 = find_from(s, c + 1, ':');
        assert forall|i: int| kl + 1 <= i < ll - 1 implies s[i] != ':' by {
            assert(s[i] == p.1[i - (kl + 1)]);
        }
        assert(c2 >= e);
        assert(s.subrange(0, c) =~= p.0);
        assert(s.subrange(c + 1, e) =~= p.1);
        assert(parse_line_at(s, 0, e) == Some(p));
        // the rest of the file is the encoding of the remaining pairs
        lemma_parse_encode_pairs(rest);
        if rest.len() == 0 {
            assert(e == s.len() - 1);
            assert(encode_pairs(rest).len() == 0);
            assert(s.len() == ll);
            assert(parse_pairs_from(s, e + 1) == Some(Seq::<PairData>::empty()));
            assert(seq![p] + Seq::<PairData>::empty() =~= ps);
        } else {
            assert(encode_pairs(rest).len() > 0) by {
                assert(encode_pairs(rest) == encode_pair(rest.first()) + encode_pairs(
                    rest.drop_first(),
                ));
            }
            assert(e < s.len());
            lemma_parse_pairs_shift(s, e + 1);
            assert(s.skip(e + 1) =~= encode_pairs(rest));
            assert(parse_pairs_from(s, e + 1) == Some(rest));
            assert(seq![p] + rest =~= ps);
        }
    }
}

} // verus!
