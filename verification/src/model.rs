use vstd::prelude::*;

use crate::KVPair;
use crate::lex_lt;
use crate::chars::{lemma_lex_lt_irrefl, lemma_lex_lt_asym, lemma_lex_lt_trans};

verus! {

/// A key/value pair at the specification level.
pub type PairData = (Seq<char>, Seq<char>);

/// The pairs held in a vector of `KVPair`, as specification values.
pub open spec fn dview(ps: Seq<KVPair>) -> Seq<PairData> {
    ps.map_values(|p: KVPair| (p.0@, p.1@))
}

/// A key or value accepted by the store: non-empty, and free of the field
/// separator and the line terminator used on disk.
pub open spec fn valid_text(s: Seq<char>) -> bool {
    &&& s.len() > 0
    &&& forall|i: int| 0 <= i < s.len() ==> #[trigger] s[i] != ':' && s[i] != '\n'
}

pub open spec fn pair_wf(p: PairData) -> bool {
    valid_text(p.0) && valid_text(p.1)
}

pub open spec fn pairs_wf(ps: Seq<PairData>) -> bool {
    forall|i: int| 0 <= i < ps.len() ==> pair_wf(#[trigger] ps[i])
}

/// Strictly increasing by key.
pub open spec fn sorted_strict(ps: Seq<PairData>) -> bool {
    forall|i: int, j: int| 0 <= i < j < ps.len() ==> lex_lt((#[trigger] ps[i]).0, (#[trigger] ps[j]).0)
}

/// The logical content of a run of pairs: a later pair shadows an earlier
/// one with the same key.
pub open spec fn pmap(ps: Seq<PairData>) -> Map<Seq<char>, Seq<char>>
    decreases ps.len(),
{
    if ps.len() == 0 {
        Map::empty()
    } else {
        pmap(ps.drop_last()).insert(ps.last().0, ps.last().1)
    }
}

pub open spec fn key_set(ps: Seq<PairData>) -> Set<Seq<char>> {
    pmap(ps).dom()
}

pub proof fn lemma_pmap_singleton(p: PairData)
    ensures
        pmap(seq![p]) == Map::<Seq<char>, Seq<char>>::empty().insert(p.0, p.1),
{
    let s = seq![p];
    assert(s.len() == 1);
    assert(s.last() == p);
    assert(s.drop_last() =~= Seq::<PairData>::empty());
    assert(pmap(s.drop_last()) == Map::<Seq<char>, Seq<char>>::empty());
}

pub proof fn lemma_pmap_dom(ps: Seq<PairData>)
    ensures
        forall|k: Seq<char>| #[trigger] pmap(ps).dom().contains(k)
            <==> exists|i: int| 0 <= i < ps.len() && (#[trigger] ps[i]).0 == k,
    decreases ps.len(),
{
    if ps.len() > 0 {
        lemma_pmap_dom(ps.drop_last());
        assert forall|k: Seq<char>| #[trigger] pmap(ps).dom().contains(k)
            implies exists|i: int| 0 <= i < ps.len() && (#[trigger] ps[i]).0 == k by {
            if k == ps.last().0 {
                assert(0 <= ps.len() - 1 < ps.len() && ps[ps.len() - 1].0 == k);
            } else {
                assert(pmap(ps.drop_last()).dom().contains(k));
                let i = choose|i: int| 0 <= i < ps.drop_last().len() && (#[trigger] ps.drop_last()[i]).0 == k;
                assert(ps.drop_last()[i] == ps[i]);
                assert(ps[i].0 == k);
            }
        }
        assert forall|k: Seq<char>| (exists|i: int| 0 <= i < ps.len() && (#[trigger] ps[i]).0 == k)
            implies #[trigger] pmap(ps).dom().contains(k) by {
            let i = choose|i: int| 0 <= i < ps.len() && (#[trigger] ps[i]).0 == k;
            if i < ps.len() - 1 {
                assert(ps.drop_last()[i].0 == k);
                assert(pmap(ps.drop_last()).dom().contains(k));
            } else {
                assert(ps.last().0 == k);
            }
        }
    }
}

/// When an index holds the last occurrence of its key, that pair gives the
/// key's value in the content map.
pub proof fn lemma_pmap_last_occurrence(ps: Seq<PairData>, i: int)
    requires
        0 <= i < ps.len(),
        forall|j: int| i < j < ps.len() ==> (#[trigger] ps[j]).0 != ps[i].0,
    ensures
        pmap(ps).dom().contains(ps[i].0),
        pmap(ps)[ps[i].0] == ps[i].1,
    decreases ps.len(),
{
    if i == ps.len() - 1 {
    } else {
        assert(ps.drop_last()[i] == ps[i]);
        assert forall|j: int| i < j < ps.drop_last().len()
            implies (#[trigger] ps.drop_last()[j]).0 != ps.drop_last()[i].0 by {
            assert(ps.drop_last()[j] == ps[j]);
        }
        lemma_pmap_last_occurrence(ps.drop_last(), i);
        assert(ps.last().0 != ps[i].0);
    }
}


/// Concatenation overlays the right-hand content over the left.
pub proof fn lemma_pmap_concat(a: Seq<PairData>, b: Seq<PairData>)
    ensures
        pmap(a + b) == pmap(a).union_prefer_right(pmap(b)),
    decreases b.len(),
{
    if b.len() == 0 {
        assert(a + b =~= a);
        assert(pmap(a).union_prefer_right(pmap(b)) =~= pmap(a));
    } else {
        lemma_pmap_concat(a, b.drop_last());
        assert((a + b).drop_last() =~= a + b.drop_last());
        assert((a + b).last() == b.last());
        assert(pmap(a + b) == pmap(a + b.drop_last()).insert(b.last().0, b.last().1));
        assert(pmap(a).union_prefer_right(pmap(b.drop_last())).insert(b.last().0, b.last().1)
            =~= pmap(a).union_prefer_right(pmap(b)));
    }
}

/// The overlay of several runs of pairs, where a later run shadows an
/// earlier one.
pub open spec fn pmap_all(srcs: Seq<Seq<PairData>>) -> Map<Seq<char>, Seq<char>>
    decreases srcs.len(),
{
    if srcs.len() == 0 {
        Map::empty()
    } else {
        pmap_all(srcs.drop_last()).union_prefer_right(pmap(srcs.last()))
    }
}

pub proof fn lemma_pmap_all_push(srcs: Seq<Seq<PairData>>, s: Seq<PairData>)
    ensures
        pmap_all(srcs.push(s)) == pmap_all(srcs).union_prefer_right(pmap(s)),
{
    assert(srcs.push(s).drop_last() =~= srcs);
    assert(srcs.push(s).last() == s);
}

pub proof fn lemma_union_prefer_right_assoc(
    a: Map<Seq<char>, Seq<char>>,
    b: Map<Seq<char>, Seq<char>>,
    c: Map<Seq<char>, Seq<char>>,
)
    ensures
        a.union_prefer_right(b).union_prefer_right(c)
            == a.union_prefer_right(b.union_prefer_right(c)),
{
    assert(a.union_prefer_right(b).union_prefer_right(c)
        =~= a.union_prefer_right(b.union_prefer_right(c)));
}

pub proof fn lemma_pmap_all_dom(srcs: Seq<Seq<PairData>>)
    ensures
        forall|k: Seq<char>| #[trigger] pmap_all(srcs).dom().contains(k)
            <==> exists|i: int| 0 <= i < srcs.len() && (#[trigger] pmap(srcs[i])).dom().contains(k),
    decreases srcs.len(),
{
    if srcs.len() > 0 {
        lemma_pmap_all_dom(srcs.drop_last());
        assert forall|k: Seq<char>| #[trigger] pmap_all(srcs).dom().contains(k)
            implies exists|i: int|
            0 <= i < srcs.len() && (#[trigger] pmap(srcs[i])).dom().contains(k) by {
            if pmap(srcs.last()).dom().contains(k) {
                assert(pmap(srcs[srcs.len() - 1]).dom().contains(k));
            } else {
                assert(pmap_all(srcs.drop_last()).dom().contains(k));
                let i = choose|i: int|
                    0 <= i < srcs.drop_last().len() && (#[trigger] pmap(
                        srcs.drop_last()[i],
                    )).dom().contains(k);
                assert(srcs.drop_last()[i] == srcs[i]);
                assert(pmap(srcs[i]).dom().contains(k));
            }
        }
        assert forall|k: Seq<char>|
            (exists|i: int| 0 <= i < srcs.len() && (#[trigger] pmap(srcs[i])).dom().contains(k))
            implies #[trigger] pmap_all(srcs).dom().contains(k) by {
            let i = choose|i: int|
                0 <= i < srcs.len() && (#[trigger] pmap(srcs[i])).dom().contains(k);
            if i < srcs.len() - 1 {
                assert(pmap(srcs.drop_last()[i]).dom().contains(k));
                assert(pmap_all(srcs.drop_last()).dom().contains(k));
            }
        }
    }
}

/// When a key's latest holder among several runs is run `i`, the overlay
/// answers with run `i`'s value.
pub proof fn lemma_pmap_all_last(srcs: Seq<Seq<PairData>>, i: int, k: Seq<char>)
    requires
        0 <= i < srcs.len(),
        pmap(srcs[i]).dom().contains(k),
        forall|j: int| i < j < srcs.len() ==> !(#[trigger] pmap(srcs[j])).dom().contains(k),
    ensures
        pmap_all(srcs).dom().contains(k),
        pmap_all(srcs)[k] == pmap(srcs[i])[k],
    decreases srcs.len(),
{
    if i == srcs.len() - 1 {
    } else {
        assert(srcs.drop_last()[i] == srcs[i]);
        assert forall|j: int| i < j < srcs.drop_last().len()
            implies !(#[trigger] pmap(srcs.drop_last()[j])).dom().contains(k) by {
            assert(srcs.drop_last()[j] == srcs[j]);
        }
        lemma_pmap_all_last(srcs.drop_last(), i, k);
        assert(!pmap(srcs.last()).dom().contains(k));
    }
}

/// Overlays reorder across each other when their keys do not meet.
pub proof fn lemma_union_commute_disjoint(
    a: Map<Seq<char>, Seq<char>>,
    b: Map<Seq<char>, Seq<char>>,
    c: Map<Seq<char>, Seq<char>>,
)
    requires
        forall|k: Seq<char>| !(b.dom().contains(k) && c.dom().contains(k)),
    ensures
        a.union_prefer_right(b).union_prefer_right(c) == a.union_prefer_right(
            c,
        ).union_prefer_right(b),
{
    assert(a.union_prefer_right(b).union_prefer_right(c) =~= a.union_prefer_right(
        c,
    ).union_prefer_right(b));
}

pub proof fn lemma_pmap_all_concat(a: Seq<Seq<PairData>>, b: Seq<Seq<PairData>>)
    ensures
        pmap_all(a + b) == pmap_all(a).union_prefer_right(pmap_all(b)),
    decreases b.len(),
{
    if b.len() == 0 {
        assert(a + b =~= a);
        assert(pmap_all(a).union_prefer_right(pmap_all(b)) =~= pmap_all(a));
    } else {
        lemma_pmap_all_concat(a, b.drop_last());
        assert((a + b).drop_last() =~= a + b.drop_last());
        assert((a + b).last() == b.last());
        lemma_union_prefer_right_assoc(pmap_all(a), pmap_all(b.drop_last()), pmap(b.last()));
    }
}

} // verus!
