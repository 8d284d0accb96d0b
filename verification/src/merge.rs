use vstd::prelude::*;

use crate::KVPair;
use crate::lex_lt;
use crate::chars::{
    KeyOrder, cmp_chars, chars_of, lemma_lex_lt_irrefl, lemma_lex_lt_asym, lemma_lex_lt_trans,
};
use crate::model::{
    PairData, dview, pairs_wf, pair_wf, sorted_strict, pmap, pmap_all, lemma_pmap_dom,
};

verus! {

/// The runs held in a vector of runs, as specification values.
pub open spec fn runs_view(rs: Seq<Vec<KVPair>>) -> Seq<Seq<PairData>> {
    rs.map_values(|v: Vec<KVPair>| dview(v@))
}

/// The prefix of each run that the merge has consumed so far.
spec fn prefixes(runs: Seq<Seq<PairData>>, pos: Seq<usize>) -> Seq<Seq<PairData>> {
    Seq::new(runs.len(), |i: int| runs[i].take(pos[i] as int))
}

/// Every unconsumed record is strictly beyond everything emitted.
spec fn frontier_ok(runs: Seq<Seq<PairData>>, pos: Seq<usize>, out: Seq<PairData>) -> bool {
    forall|i: int, p: int|
        0 <= i < runs.len() && pos[i] <= p < runs[i].len() && out.len() > 0 ==> lex_lt(
            out.last().0,
            (#[trigger] runs[i][p]).0,
        )
}

/// Every consumed record is at or before the last emitted key.
spec fn consumed_ok(runs: Seq<Seq<PairData>>, pos: Seq<usize>, out: Seq<PairData>) -> bool {
    forall|i: int, p: int|
        0 <= i < runs.len() && 0 <= p < pos[i] ==> out.len() > 0 && !lex_lt(
            out.last().0,
            (#[trigger] runs[i][p]).0,
        )
}

/// The total number of records over all runs.
pub open spec fn runs_total(runs: Seq<Seq<PairData>>) -> int
    decreases runs.len(),
{
    if runs.len() == 0 {
        0
    } else {
        runs_total(runs.drop_last()) + runs.last().len()
    }
}

pub proof fn lemma_runs_total_nonneg(runs: Seq<Seq<PairData>>)
    ensures
        runs_total(runs) >= 0,
    decreases runs.len(),
{
    if runs.len() > 0 {
        lemma_runs_total_nonneg(runs.drop_last());
    }
}

pub proof fn lemma_runs_total_singleton(r: Seq<PairData>)
    ensures
        runs_total(seq![r]) == r.len(),
{
    assert(seq![r].drop_last() =~= Seq::<Seq<PairData>>::empty());
    assert(seq![r].last() == r);
    assert(runs_total(Seq::<Seq<PairData>>::empty()) == 0);
}

pub proof fn lemma_runs_total_concat(a: Seq<Seq<PairData>>, b: Seq<Seq<PairData>>)
    ensures
        runs_total(a + b) == runs_total(a) + runs_total(b),
    decreases b.len(),
{
    if b.len() == 0 {
        assert(a + b =~= a);
    } else {
        lemma_runs_total_concat(a, b.drop_last());
        assert((a + b).drop_last() =~= a + b.drop_last());
        assert((a + b).last() == b.last());
    }
}

proof fn lemma_total_rem_zero(runs: Seq<Seq<PairData>>, pos: Seq<usize>)
    requires
        pos.len() == runs.len(),
        forall|i: int| 0 <= i < pos.len() ==> pos[i] == 0,
    ensures
        total_rem(runs, pos) == runs_total(runs),
    decreases runs.len(),
{
    if runs.len() > 0 {
        assert(forall|i: int|
            0 <= i < pos.drop_last().len() ==> (#[trigger] pos.drop_last()[i]) == pos[i]);
        lemma_total_rem_zero(runs.drop_last(), pos.drop_last());
    }
}

/// How many records remain unconsumed over all runs.
spec fn total_rem(runs: Seq<Seq<PairData>>, pos: Seq<usize>) -> int
    decreases runs.len(),
{
    if runs.len() == 0 {
        0
    } else {
        total_rem(runs.drop_last(), pos.drop_last()) + (runs.last().len() - pos.last())
    }
}

proof fn lemma_total_rem_bounds(runs: Seq<Seq<PairData>>, pos: Seq<usize>)
    requires
        pos.len() == runs.len(),
        forall|i: int| 0 <= i < runs.len() ==> pos[i] <= (#[trigger] runs[i]).len(),
    ensures
        total_rem(runs, pos) >= 0,
    decreases runs.len(),
{
    if runs.len() > 0 {
        assert(forall|i: int|
            0 <= i < runs.drop_last().len() ==> (#[trigger] runs.drop_last()[i]) == runs[i]);
        lemma_total_rem_bounds(runs.drop_last(), pos.drop_last());
    }
}

proof fn lemma_total_rem_advance(runs: Seq<Seq<PairData>>, p1: Seq<usize>, p2: Seq<usize>, b: int)
    requires
        p1.len() == runs.len(),
        p2.len() == runs.len(),
        0 <= b < runs.len(),
        forall|i: int| 0 <= i < runs.len() ==> #[trigger] p2[i] == p1[i] || p2[i] == p1[i] + 1,
        p2[b] == p1[b] + 1,
        forall|i: int| 0 <= i < runs.len() ==> #[trigger] p2[i] <= runs[i].len(),
    ensures
        total_rem(runs, p2) < total_rem(runs, p1),
    decreases runs.len(),
{
    assert(forall|i: int|
        0 <= i < runs.drop_last().len() ==> (#[trigger] runs.drop_last()[i]) == runs[i]);
    assert(forall|i: int|
        0 <= i < p1.drop_last().len() ==> (#[trigger] p1.drop_last()[i]) == p1[i]);
    assert(forall|i: int|
        0 <= i < p2.drop_last().len() ==> (#[trigger] p2.drop_last()[i]) == p2[i]);
    if b == runs.len() - 1 {
        lemma_total_rem_ge(runs.drop_last(), p1.drop_last(), p2.drop_last());
    } else {
        lemma_total_rem_advance(runs.drop_last(), p1.drop_last(), p2.drop_last(), b);
        assert(runs.last().len() - p2.last() <= runs.last().len() - p1.last());
    }
}

proof fn lemma_total_rem_ge(runs: Seq<Seq<PairData>>, p1: Seq<usize>, p2: Seq<usize>)
    requires
        p1.len() == runs.len(),
        p2.len() == runs.len(),
        forall|i: int| 0 <= i < runs.len() ==> p1[i] <= #[trigger] p2[i],
    ensures
        total_rem(runs, p2) <= total_rem(runs, p1),
    decreases runs.len(),
{
    if runs.len() > 0 {
        assert(forall|i: int|
            0 <= i < p1.drop_last().len() ==> (#[trigger] p1.drop_last()[i]) == p1[i]);
        assert(forall|i: int|
            0 <= i < p2.drop_last().len() ==> (#[trigger] p2.drop_last()[i]) == p2[i]);
        lemma_total_rem_ge(runs.drop_last(), p1.drop_last(), p2.drop_last());
    }
}

/// Among several runs, some run is the last one that changed.
proof fn lemma_exists_last_push(a: Seq<Seq<PairData>>, a2: Seq<Seq<PairData>>)
    requires
        a.len() == a2.len(),
        exists|i: int| 0 <= i < a.len() && a2[i] != a[i],
    ensures
        exists|b: int|
            0 <= b < a.len() && a2[b] != a[b] && (forall|i: int| b < i < a.len() ==> a2[i] == a[i]),
    decreases a.len(),
{
    let n = a.len();
    if a2[n - 1] != a[n - 1] {
        assert(0 <= n - 1 < a.len() && a2[n - 1] != a[n - 1] && (forall|i: int|
            n - 1 < i < a.len() ==> a2[i] == a[i]));
    } else {
        let j = choose|i: int| 0 <= i < a.len() && a2[i] != a[i];
        assert(a.drop_last()[j] == a[j]);
        assert(a2.drop_last()[j] == a2[j]);
        lemma_exists_last_push(a.drop_last(), a2.drop_last());
        let b = choose|b: int|
            0 <= b < a.drop_last().len() && a2.drop_last()[b] != a.drop_last()[b] && (forall|i: int|
                b < i < a.drop_last().len() ==> a2.drop_last()[i] == a.drop_last()[i]);
        assert(a2[b] != a[b]);
        assert forall|i: int| b < i < a.len() implies a2[i] == a[i] by {
            if i < n - 1 {
                assert(a2.drop_last()[i] == a.drop_last()[i]);
            }
        }
    }
}

/// Consuming one key's head from every run that carries it moves the
/// overlay by exactly one insertion, valued from the newest such run.
proof fn lemma_pmap_all_step(a: Seq<Seq<PairData>>, a2: Seq<Seq<PairData>>, k: Seq<char>)
    requires
        a.len() == a2.len(),
        forall|i: int|
            0 <= i < a.len() ==> ((#[trigger] a2[i]) == a[i] || (a2[i].len() == a[i].len() + 1
                && a2[i].drop_last() == a[i] && a2[i].last().0 == k)),
        forall|i: int| 0 <= i < a.len() ==> !(#[trigger] pmap(a[i])).dom().contains(k),
    ensures
        (forall|i: int| 0 <= i < a.len() ==> a2[i] == a[i]) ==> pmap_all(a2) == pmap_all(a),
        forall|b: int|
            0 <= b < a.len() && a2[b] != a[b] && (forall|i: int| b < i < a.len() ==> a2[i] == a[i])
                ==> pmap_all(a2) == pmap_all(a).insert(k, a2[b].last().1),
    decreases a.len(),
{
    let n = a.len();
    if n == 0 {
        assert(a2 =~= a);
    } else {
        assert(forall|i: int|
            0 <= i < n - 1 ==> (#[trigger] a.drop_last()[i]) == a[i] && a2.drop_last()[i] == a2[i]);
        lemma_pmap_all_step(a.drop_last(), a2.drop_last(), k);
        let x = pmap_all(a.drop_last());
        let x2 = pmap_all(a2.drop_last());
        let y = pmap(a.last());
        let y2 = pmap(a2.last());
        assert(pmap_all(a) == x.union_prefer_right(y));
        assert(pmap_all(a2) == x2.union_prefer_right(y2));
        if a2[n - 1] == a[n - 1] {
            // frame on the last run
            if forall|i: int| 0 <= i < n ==> a2[i] == a[i] {
                assert(x2 == x);
            }
            assert forall|b: int|
                0 <= b < n && a2[b] != a[b] && (forall|i: int| b < i < n ==> a2[i] == a[i]) implies
                pmap_all(a2) == pmap_all(a).insert(k, a2[b].last().1) by {
                assert(b < n - 1);
                assert(a2.drop_last()[b] != a.drop_last()[b]);
                assert(forall|i: int|
                    b < i < n - 1 ==> a2.drop_last()[i] == a.drop_last()[i]);
                assert(x2 == x.insert(k, a2[b].last().1));
                assert(!y.dom().contains(k));
                assert(x.insert(k, a2[b].last().1).union_prefer_right(y) =~= x.union_prefer_right(
                    y,
                ).insert(k, a2[b].last().1));
            }
        } else {
            // the last run consumed (k, v): its content gains that pair
            let v = a2[n - 1].last().1;
            assert(y2 == pmap(a2[n - 1].drop_last()).insert(k, v));
            assert(y2 == y.insert(k, v));
            assert forall|b: int|
                0 <= b < n && a2[b] != a[b] && (forall|i: int| b < i < n ==> a2[i] == a[i]) implies
                pmap_all(a2) == pmap_all(a).insert(k, a2[b].last().1) by {
                assert(b == n - 1);
                if forall|i: int| 0 <= i < n - 1 ==> a2.drop_last()[i] == a.drop_last()[i] {
                    assert(x2 =~= x);
                    assert(x.union_prefer_right(y.insert(k, v)) =~= x.union_prefer_right(y).insert(
                        k,
                        v,
                    ));
                } else {
                    assert(exists|i: int|
                        0 <= i < n - 1 && a2.drop_last()[i] != a.drop_last()[i]);
                    lemma_exists_last_push(a.drop_last(), a2.drop_last());
                    let b2 = choose|b2: int|
                        0 <= b2 < n - 1 && a2.drop_last()[b2] != a.drop_last()[b2] && (forall|
                            i: int,
                        | b2 < i < n - 1 ==> a2.drop_last()[i] == a.drop_last()[i]);
                    let v2 = a2.drop_last()[b2].last().1;
                    assert(x2 == x.insert(k, v2));
                    assert(x.insert(k, v2).union_prefer_right(y.insert(k, v))
                        =~= x.union_prefer_right(y).insert(k, v));
                }
            }
        }
    }
}

/// Merge several strictly sorted runs into one strictly sorted run whose
/// content is the overlay of the inputs: where runs share a key, the run
/// with the larger index wins.
pub fn merge_runs(inputs: &Vec<Vec<KVPair>>) -> (out: Vec<KVPair>)
    requires
        forall|i: int|
            0 <= i < inputs@.len() ==> sorted_strict(#[trigger] runs_view(inputs@)[i]) && pairs_wf(
                runs_view(inputs@)[i],
            ),
    ensures
        sorted_strict(dview(out@)),
        pairs_wf(dview(out@)),
        pmap(dview(out@)) == pmap_all(runs_view(inputs@)),
        dview(out@).len() <= runs_total(runs_view(inputs@)),
{
    let ghost runs = runs_view(inputs@);
    let n = inputs.len();
    let mut pos: Vec<usize> = Vec::new();
    let mut i0: usize = 0;
    while i0 < n
        invariant
            i0 <= n,
            pos@.len() == i0,
            forall|j: int| 0 <= j < i0 ==> pos@[j] == 0,
        decreases n - i0,
    {
        pos.push(0);
        i0 = i0 + 1;
    }
    let mut out: Vec<KVPair> = Vec::new();
    proof {
        assert(forall|i: int|
            0 <= i < runs.len() ==> (#[trigger] prefixes(runs, pos@)[i]).len() == 0);
        lemma_pmap_all_empties(prefixes(runs, pos@));
        lemma_total_rem_zero(runs, pos@);
    }
    loop
        invariant
            n == inputs@.len(),
            runs == runs_view(inputs@),
            runs.len() == n,
            pos@.len() == n,
            forall|i: int|
                0 <= i < n ==> sorted_strict(#[trigger] runs[i]) && pairs_wf(runs[i]),
            forall|i: int| 0 <= i < n ==> #[trigger] pos@[i] <= runs[i].len(),
            sorted_strict(dview(out@)),
            pairs_wf(dview(out@)),
            pmap(dview(out@)) == pmap_all(prefixes(runs, pos@)),
            frontier_ok(runs, pos@, dview(out@)),
            consumed_ok(runs, pos@, dview(out@)),
            dview(out@).len() + total_rem(runs, pos@) <= runs_total(runs),
        ensures
            sorted_strict(dview(out@)),
            pairs_wf(dview(out@)),
            pmap(dview(out@)) == pmap_all(runs),
            dview(out@).len() <= runs_total(runs),
        decreases total_rem(runs, pos@),
    {
        // pick the run whose head key is smallest; among equals, the newest
        let mut best: usize = n;
        let mut i: usize = 0;
        while i < n
            invariant
                i <= n,
                n == inputs@.len(),
                runs == runs_view(inputs@),
                pos@.len() == n,
                forall|j: int| 0 <= j < n ==> #[trigger] pos@[j] <= runs[j].len(),
                best == n || (best < i && pos@[best as int] < runs[best as int].len()),
                best == n ==> forall|j: int| 0 <= j < i ==> #[trigger] pos@[j] == runs[j].len(),
                best < n ==> forall|j: int|
                    0 <= j < i && pos@[j] < (#[trigger] runs[j]).len() ==> lex_lt(
                        runs[best as int][pos@[best as int] as int].0,
                        runs[j][pos@[j] as int].0,
                    ) || (runs[j][pos@[j] as int].0 == runs[best as int][pos@[best as int] as int].0
                        && j <= best),
            decreases n - i,
        {
            if pos[i] < inputs[i].len() {
                if best == n {
                    best = i;
                } else {
                    let hi = chars_of(inputs[i][pos[i]].0.as_str());
                    let hb = chars_of(inputs[best][pos[best]].0.as_str());
                    proof {
                        assert(hi@ == runs[i as int][pos@[i as int] as int].0);
                        assert(hb@ == runs[best as int][pos@[best as int] as int].0);
                    }
                    match cmp_chars(&hi, &hb) {
                        KeyOrder::Less => {
                            proof {
                                assert forall|j: int|
                                    0 <= j < i && pos@[j] < (#[trigger] runs[j]).len() implies
                                    lex_lt(
                                    runs[i as int][pos@[i as int] as int].0,
                                    runs[j][pos@[j] as int].0,
                                ) || (runs[j][pos@[j] as int].0
                                    == runs[i as int][pos@[i as int] as int].0 && j <= i) by {
                                    let hbv = runs[best as int][pos@[best as int] as int].0;
                                    let hjv = runs[j][pos@[j] as int].0;
                                    let hiv = runs[i as int][pos@[i as int] as int].0;
                                    if lex_lt(hbv, hjv) {
                                        lemma_lex_lt_trans(hiv, hbv, hjv);
                                    }
                                }
                            }
                            best = i;
                        },
                        KeyOrder::Equal => {
                            best = i;
                        },
                        KeyOrder::Greater => {
                        },
                    }
                }
            }
            i = i + 1;
        }
        if best == n {
            // all runs are exhausted
            proof {
                assert forall|i: int| 0 <= i < runs.len() implies #[trigger] prefixes(
                    runs,
                    pos@,
                )[i] == runs[i] by {
                    assert(runs[i].take(runs[i].len() as int) =~= runs[i]);
                }
                assert(prefixes(runs, pos@) =~= runs);
                lemma_total_rem_bounds(runs, pos@);
            }
            break ;
        }
        let b = best;
        let bkey = inputs[b][pos[b]].0.clone();
        let bval = inputs[b][pos[b]].1.clone();
        let kc = chars_of(bkey.as_str());
        let ghost k = runs[b as int][pos@[b as int] as int].0;
        let ghost old_pos = pos@;
        let ghost old_out = dview(out@);
        proof {
            assert(kc@ == k);
            // the new key is beyond everything emitted
            if old_out.len() > 0 {
                assert(lex_lt(old_out.last().0, k));
            }
        }
        out.push(KVPair(bkey, bval));
        proof {
            assert(dview(out@) =~= old_out.push((k, runs[b as int][old_pos[b as int] as int].1)));
        }
        // consume this key's head from every run that carries it
        let mut j: usize = 0;
        while j < n
            invariant
                j <= n,
                n == inputs@.len(),
                runs == runs_view(inputs@),
                pos@.len() == n,
                old_pos.len() == n,
                kc@ == k,
                forall|idx: int| 0 <= idx < n ==> #[trigger] old_pos[idx] <= runs[idx].len(),
                forall|idx: int|
                    j <= idx < n ==> #[trigger] pos@[idx] == old_pos[idx],
                forall|idx: int|
                    0 <= idx < j ==> #[trigger] pos@[idx] == (if old_pos[idx] < runs[idx].len()
                        && runs[idx][old_pos[idx] as int].0 == k {
                        old_pos[idx] + 1
                    } else {
                        old_pos[idx] as int
                    }),
            decreases n - j,
        {
            if pos[j] < inputs[j].len() {
                let hc = chars_of(inputs[j][pos[j]].0.as_str());
                if matches!(cmp_chars(&hc, &kc), KeyOrder::Equal) {
                    let pj = pos[j];
                    pos[j] = pj + 1;
                }
            }
            j = j + 1;
        }
        proof {
            lemma_emit_step(runs, old_pos, pos@, old_out, dview(out@), k, b as int);
            lemma_total_rem_advance(runs, old_pos, pos@, b as int);
            lemma_total_rem_bounds(runs, pos@);
        }
    }
    proof {
        assert(pmap(dview(out@)) == pmap_all(runs));
    }
    out
}

/// The overlay of any number of empty runs is empty.
proof fn lemma_pmap_all_empties(a: Seq<Seq<PairData>>)
    requires
        forall|i: int| 0 <= i < a.len() ==> (#[trigger] a[i]).len() == 0,
    ensures
        pmap_all(a) == Map::<Seq<char>, Seq<char>>::empty(),
    decreases a.len(),
{
    if a.len() > 0 {
        assert(forall|i: int|
            0 <= i < a.len() - 1 ==> (#[trigger] a.drop_last()[i]) == a[i]);
        lemma_pmap_all_empties(a.drop_last());
        assert(pmap(a.last()) =~= Map::<Seq<char>, Seq<char>>::empty());
        assert(pmap_all(a.drop_last()).union_prefer_right(pmap(a.last()))
            =~= Map::<Seq<char>, Seq<char>>::empty());
    }
}

/// The invariants of one emission step of the merge.
proof fn lemma_emit_step(
    runs: Seq<Seq<PairData>>,
    old_pos: Seq<usize>,
    new_pos: Seq<usize>,
    old_out: Seq<PairData>,
    new_out: Seq<PairData>,
    k: Seq<char>,
    b: int,
)
    requires
        old_pos.len() == runs.len(),
        new_pos.len() == runs.len(),
        0 <= b < runs.len(),
        forall|i: int| 0 <= i < runs.len() ==> sorted_strict(#[trigger] runs[i]),
        forall|i: int| 0 <= i < runs.len() ==> #[trigger] old_pos[i] <= runs[i].len(),
        old_pos[b] < runs[b].len(),
        runs[b][old_pos[b] as int].0 == k,
        // b is the newest run whose head is the minimum key
        forall|j: int|
            0 <= j < runs.len() && old_pos[j] < (#[trigger] runs[j]).len() ==> lex_lt(
                k,
                runs[j][old_pos[j] as int].0,
            ) || (runs[j][old_pos[j] as int].0 == k && j <= b),
        // positions advance exactly on the runs whose head is k
        forall|idx: int|
            0 <= idx < runs.len() ==> #[trigger] new_pos[idx] == (if old_pos[idx] < runs[idx].len()
                && runs[idx][old_pos[idx] as int].0 == k {
                old_pos[idx] + 1
            } else {
                old_pos[idx] as int
            }),
        new_out == old_out.push((k, runs[b][old_pos[b] as int].1)),
        sorted_strict(old_out),
        pmap(old_out) == pmap_all(prefixes(runs, old_pos)),
        frontier_ok(runs, old_pos, old_out),
        consumed_ok(runs, old_pos, old_out),
    ensures
        forall|i: int| 0 <= i < runs.len() ==> #[trigger] new_pos[i] <= runs[i].len(),
        sorted_strict(new_out),
        pmap(new_out) == pmap_all(prefixes(runs, new_pos)),
        frontier_ok(runs, new_pos, new_out),
        consumed_ok(runs, new_pos, new_out),
{
    let n = runs.len();
    let a = prefixes(runs, old_pos);
    let a2 = prefixes(runs, new_pos);
    // all emitted keys are strictly below k
    assert forall|q: int| 0 <= q < old_out.len() implies lex_lt((#[trigger] old_out[q]).0, k) by {
        if q < old_out.len() - 1 {
            assert(lex_lt(old_out[q].0, old_out.last().0));
            lemma_lex_lt_trans(old_out[q].0, old_out.last().0, k);
        }
    }
    // sortedness of the new output
    assert forall|q1: int, q2: int| 0 <= q1 < q2 < new_out.len() implies lex_lt(
        (#[trigger] new_out[q1]).0,
        (#[trigger] new_out[q2]).0,
    ) by {
        if q2 < new_out.len() - 1 {
            assert(new_out[q1] == old_out[q1] && new_out[q2] == old_out[q2]);
        } else {
            assert(new_out[q1] == old_out[q1]);
        }
    }
    // frame conditions for the overlay step
    assert forall|i: int| 0 <= i < n implies ((#[trigger] a2[i]) == a[i] || (a2[i].len()
        == a[i].len() + 1 && a2[i].drop_last() == a[i] && a2[i].last().0 == k)) by {
        if old_pos[i] < runs[i].len() && runs[i][old_pos[i] as int].0 == k {
            assert(a2[i] =~= a[i].push(runs[i][old_pos[i] as int]));
            assert(a2[i].drop_last() =~= a[i]);
        } else {
            assert(a2[i] =~= a[i]);
        }
    }
    // k is new to every consumed prefix
    assert forall|i: int| 0 <= i < n implies !(#[trigger] pmap(a[i])).dom().contains(k) by {
        lemma_pmap_dom(a[i]);
        if pmap(a[i]).dom().contains(k) {
            let q = choose|q: int| 0 <= q < a[i].len() && (#[trigger] a[i][q]).0 == k;
            assert(a[i][q] == runs[i][q]);
            assert(old_out.len() > 0 && !lex_lt(old_out.last().0, runs[i][q].0));
            assert(lex_lt(runs[i][q].0, k));
            assert(lex_lt(old_out.last().0, k));
            // old_out.last().0 < k = runs[i][q].0 contradicts !lex_lt above
            lemma_lex_lt_irrefl(k);
        }
    }
    lemma_pmap_all_step(a, a2, k);
    assert(new_pos[b] == old_pos[b] + 1);
    assert(a2[b] =~= a[b].push(runs[b][old_pos[b] as int]));
    assert(a2[b].len() == a[b].len() + 1);
    assert(a2[b] != a[b]);
    assert forall|i: int| b < i < n implies a2[i] == a[i] by {
        if old_pos[i] < runs[i].len() && runs[i][old_pos[i] as int].0 == k {
            lemma_lex_lt_irrefl(k);
            assert(i <= b);
            assert(false);
        }
        assert(new_pos[i] == old_pos[i]);
        assert(a2[i] =~= a[i]);
    }
    assert(pmap_all(a2) == pmap_all(a).insert(k, a2[b].last().1));
    assert(a2[b].last() == runs[b][old_pos[b] as int]);
    assert(pmap(new_out) == pmap(old_out).insert(k, runs[b][old_pos[b] as int].1)) by {
        assert(new_out.drop_last() =~= old_out);
    }
    // the frontier moves to k
    assert(new_out.last().0 == k);
    assert forall|i: int, p: int|
        0 <= i < n && new_pos[i] <= p < runs[i].len() && new_out.len() > 0 implies lex_lt(
        new_out.last().0,
        (#[trigger] runs[i][p]).0,
    ) by {
        assert(!lex_lt(k, k) ==> true);
        let h = runs[i][old_pos[i] as int].0;
        if old_pos[i] < runs[i].len() && h == k {
            // consumed the head; what remains is strictly above it
            assert(p >= old_pos[i] + 1);
            assert(lex_lt(runs[i][old_pos[i] as int].0, runs[i][p].0));
        } else {
            assert(new_pos[i] == old_pos[i]);
            assert(lex_lt(k, h) || (h == k && i <= b));
            if p == old_pos[i] {
                assert(lex_lt(k, runs[i][p].0));
            } else {
                assert(lex_lt(h, runs[i][p].0));
                assert(lex_lt(k, h));
                lemma_lex_lt_trans(k, h, runs[i][p].0);
            }
        }
    }
    assert forall|i: int, p: int|
        0 <= i < n && 0 <= p < new_pos[i] implies new_out.len() > 0 && !lex_lt(
        new_out.last().0,
        (#[trigger] runs[i][p]).0,
    ) by {
        if p < old_pos[i] {
            assert(!lex_lt(old_out.last().0, runs[i][p].0));
            if lex_lt(k, runs[i][p].0) {
                assert(lex_lt(old_out[old_out.len() - 1].0, k));
                lemma_lex_lt_trans(old_out.last().0, k, runs[i][p].0);
            }
        } else {
            // p == old_pos[i]: the freshly consumed head, equal to k
            assert(runs[i][p].0 == k);
            lemma_lex_lt_irrefl(k);
        }
    }
}

} // verus!
