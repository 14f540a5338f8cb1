//! Mathematical model of the ranking.
//!
//! A candidate's score is an exact fraction, kept as a numerator/denominator
//! pair of naturals with a positive denominator.  The ranking of a score
//! table is the sequence of indices of the positively scored candidates, in
//! order of decreasing score; candidates of equal score stay in their
//! original relative order.  It is defined by stable insertion: each new
//! index goes after every already ranked index of greater or equal score.

use vstd::prelude::*;

verus! {

/// `a` is at least `b` as a fraction (numerator, denominator).
pub open spec fn frac_ge(a: (nat, nat), b: (nat, nat)) -> bool {
    a.0 * b.1 >= b.0 * a.1
}

/// Inserts index `p` into the ranked index sequence `ord`, after every index
/// whose score under the table `ss` is at least `p`'s.
pub open spec fn insert_ranked(ord: Seq<int>, ss: Seq<(nat, nat)>, p: int) -> Seq<int>
    decreases ord.len(),
{
    if ord.len() == 0 {
        seq![p]
    } else if frac_ge(ss[ord[0]], ss[p]) {
        seq![ord[0]] + insert_ranked(ord.drop_first(), ss, p)
    } else {
        seq![p] + ord
    }
}

/// The ranking of the first `m` entries of the score table `ss`.
pub open spec fn ranking_below(ss: Seq<(nat, nat)>, m: int) -> Seq<int>
    decreases m,
{
    if m <= 0 {
        Seq::empty()
    } else {
        let prev = ranking_below(ss, m - 1);
        if ss[m - 1].0 > 0 {
            insert_ranked(prev, ss, m - 1)
        } else {
            prev
        }
    }
}

/// The indices of the positively scored entries of `ss`, in order of
/// decreasing score, ties in order of appearance.
pub open spec fn ranking(ss: Seq<(nat, nat)>) -> Seq<int> {
    ranking_below(ss, ss.len() as int)
}

/// Stable insertion inserts exactly at the first position whose score is
/// below the new index's.
pub proof fn lemma_insert_ranked_at(ord: Seq<int>, ss: Seq<(nat, nat)>, p: int, j: int)
    requires
        0 <= j <= ord.len(),
        forall|i: int| 0 <= i < j ==> frac_ge(ss[#[trigger] ord[i]], ss[p]),
        j == ord.len() || !frac_ge(ss[ord[j]], ss[p]),
    ensures
        insert_ranked(ord, ss, p) =~= ord.insert(j, p),
    decreases ord.len(),
{
    if ord.len() == 0 {
    } else if j == 0 {
    } else {
        assert(frac_ge(ss[ord[0]], ss[p]));
        let rest = ord.drop_first();
        assert forall|i: int| 0 <= i < j - 1 implies frac_ge(ss[#[trigger] rest[i]], ss[p]) by {
            assert(rest[i] == ord[i + 1]);
        }
        if j - 1 < rest.len() {
            assert(rest[j - 1] == ord[j]);
        }
        lemma_insert_ranked_at(rest, ss, p, j - 1);
        assert(insert_ranked(ord, ss, p) == seq![ord[0]] + rest.insert(j - 1, p));
        assert forall|i: int| 0 <= i < ord.len() + 1 implies (seq![ord[0]] + rest.insert(
            j - 1,
            p,
        ))[i] == ord.insert(j, p)[i] by {
            if i > 0 {
                assert((seq![ord[0]] + rest.insert(j - 1, p))[i] == rest.insert(j - 1, p)[i - 1]);
            }
        }
    }
}

/// Every index of the extended ranking is an old one or the inserted one.
pub proof fn lemma_insert_ranked_elems(ord: Seq<int>, ss: Seq<(nat, nat)>, p: int)
    ensures
        insert_ranked(ord, ss, p).len() == ord.len() + 1,
        forall|i: int|
            0 <= i < insert_ranked(ord, ss, p).len() ==> (#[trigger] insert_ranked(ord, ss, p)[i]
                == p || ord.contains(insert_ranked(ord, ss, p)[i])),
        insert_ranked(ord, ss, p).contains(p),
        forall|x: int| ord.contains(x) ==> insert_ranked(ord, ss, p).contains(x),
    decreases ord.len(),
{
    let res = insert_ranked(ord, ss, p);
    if ord.len() == 0 {
        assert(res[0] == p);
        assert(res.contains(p));
    } else if frac_ge(ss[ord[0]], ss[p]) {
        let rest = ord.drop_first();
        lemma_insert_ranked_elems(rest, ss, p);
        let sub = insert_ranked(rest, ss, p);
        assert forall|i: int| 0 <= i < res.len() implies (#[trigger] res[i] == p || ord.contains(
            res[i],
        )) by {
            if i == 0 {
                assert(ord[0] == res[0]);
            } else {
                assert(res[i] == sub[i - 1]);
                if sub[i - 1] != p {
                    let k = choose|k: int| 0 <= k < rest.len() && rest[k] == sub[i - 1];
                    assert(ord[k + 1] == rest[k]);
                }
            }
        }
        let kp = choose|k: int| 0 <= k < sub.len() && sub[k] == p;
        assert(res[kp + 1] == p);
        assert(res.contains(p));
        assert forall|x: int| ord.contains(x) implies res.contains(x) by {
            let k = choose|k: int| 0 <= k < ord.len() && ord[k] == x;
            if k == 0 {
                assert(res[0] == x);
            } else {
                assert(rest[k - 1] == x);
                assert(rest.contains(x));
                let k2 = choose|k2: int| 0 <= k2 < sub.len() && sub[k2] == x;
                assert(res[k2 + 1] == x);
            }
        }
    } else {
        assert(res[0] == p);
        assert(res.contains(p));
        assert forall|x: int| ord.contains(x) implies res.contains(x) by {
            let k = choose|k: int| 0 <= k < ord.len() && ord[k] == x;
            assert(res[k + 1] == x);
        }
        assert forall|i: int| 0 <= i < res.len() implies (#[trigger] res[i] == p || ord.contains(
            res[i],
        )) by {
            if i > 0 {
                assert(res[i] == ord[i - 1]);
            }
        }
    }
}

/// Every denominator of the score table is positive.
pub open spec fn dens_pos(ss: Seq<(nat, nat)>) -> bool {
    forall|i: int| 0 <= i < ss.len() ==> (#[trigger] ss[i]).1 >= 1
}

/// The indices of `ord` all lie in `[lo, hi)`.
pub open spec fn in_range(ord: Seq<int>, lo: int, hi: int) -> bool {
    forall|i: int| 0 <= i < ord.len() ==> lo <= #[trigger] ord[i] < hi
}

/// The scores along `ord` never increase.
pub open spec fn sorted_desc(ord: Seq<int>, ss: Seq<(nat, nat)>) -> bool {
    forall|i: int, j: int|
        0 <= i < j < ord.len() ==> frac_ge(ss[#[trigger] ord[i]], ss[#[trigger] ord[j]])
}

/// Indices of equal score appear in increasing order: the sort is stable.
pub open spec fn stable_order(ord: Seq<int>, ss: Seq<(nat, nat)>) -> bool {
    forall|i: int, j: int|
        (0 <= i < j < ord.len() && frac_ge(ss[#[trigger] ord[j]], ss[#[trigger] ord[i]])) ==> ord[i]
            < ord[j]
}

/// Fraction comparison is transitive when the denominators are positive.
pub proof fn lemma_frac_ge_trans(a: (nat, nat), b: (nat, nat), c: (nat, nat))
    requires
        a.1 >= 1,
        b.1 >= 1,
        c.1 >= 1,
        frac_ge(a, b),
        frac_ge(b, c),
    ensures
        frac_ge(a, c),
{
    assert(a.0 * c.1 >= c.0 * a.1) by (nonlinear_arith)
        requires
            a.1 >= 1,
            b.1 >= 1,
            c.1 >= 1,
            a.0 * b.1 >= b.0 * a.1,
            b.0 * c.1 >= c.0 * b.1,
    ;
}

/// Stable insertion of a fresh largest index keeps the ranking sorted and
/// stable.
proof fn lemma_insert_ranked_order(ord: Seq<int>, ss: Seq<(nat, nat)>, p: int)
    requires
        dens_pos(ss),
        0 <= p < ss.len(),
        in_range(ord, 0, p),
        sorted_desc(ord, ss),
        stable_order(ord, ss),
    ensures
        sorted_desc(insert_ranked(ord, ss, p), ss),
        stable_order(insert_ranked(ord, ss, p), ss),
    decreases ord.len(),
{
    let res = insert_ranked(ord, ss, p);
    lemma_insert_ranked_elems(ord, ss, p);
    if ord.len() == 0 {
    } else if frac_ge(ss[ord[0]], ss[p]) {
        let rest = ord.drop_first();
        assert forall|i: int| 0 <= i < rest.len() implies 0 <= #[trigger] rest[i] < p by {
            assert(rest[i] == ord[i + 1]);
        }
        assert forall|i: int, j: int| 0 <= i < j < rest.len() implies frac_ge(
            ss[#[trigger] rest[i]],
            ss[#[trigger] rest[j]],
        ) by {
            assert(rest[i] == ord[i + 1] && rest[j] == ord[j + 1]);
        }
        assert forall|i: int, j: int|
            (0 <= i < j < rest.len() && frac_ge(
                ss[#[trigger] rest[j]],
                ss[#[trigger] rest[i]],
            )) implies rest[i] < rest[j] by {
            assert(rest[i] == ord[i + 1] && rest[j] == ord[j + 1]);
        }
        lemma_insert_ranked_order(rest, ss, p);
        lemma_insert_ranked_elems(rest, ss, p);
        let sub = insert_ranked(rest, ss, p);
        assert forall|i: int, j: int| 0 <= i < j < res.len() implies frac_ge(
            ss[#[trigger] res[i]],
            ss[#[trigger] res[j]],
        ) by {
            if i == 0 {
                assert(res[0] == ord[0]);
                assert(res[j] == sub[j - 1]);
                if sub[j - 1] != p {
                    let k = choose|k: int| 0 <= k < rest.len() && rest[k] == sub[j - 1];
                    assert(rest[k] == ord[k + 1]);
                    if k + 1 > 0 {
                        assert(frac_ge(ss[ord[0]], ss[ord[k + 1]]));
                    }
                }
            } else {
                assert(res[i] == sub[i - 1] && res[j] == sub[j - 1]);
            }
        }
        assert forall|i: int, j: int|
            (0 <= i < j < res.len() && frac_ge(
                ss[#[trigger] res[j]],
                ss[#[trigger] res[i]],
            )) implies res[i] < res[j] by {
            if i == 0 {
                assert(res[0] == ord[0]);
                assert(res[j] == sub[j - 1]);
                if sub[j - 1] == p {
                    assert(ord[0] < p);
                } else {
                    let k = choose|k: int| 0 <= k < rest.len() && rest[k] == sub[j - 1];
                    assert(rest[k] == ord[k + 1]);
                    assert(frac_ge(ss[ord[k + 1]], ss[ord[0]]));
                }
            } else {
                assert(res[i] == sub[i - 1] && res[j] == sub[j - 1]);
            }
        }
    } else {
        assert(frac_ge(ss[p], ss[ord[0]]));
        assert forall|i: int, j: int| 0 <= i < j < res.len() implies frac_ge(
            ss[#[trigger] res[i]],
            ss[#[trigger] res[j]],
        ) by {
            if i == 0 {
                assert(res[0] == p);
                assert(res[j] == ord[j - 1]);
                if j - 1 > 0 {
                    assert(frac_ge(ss[ord[0]], ss[ord[j - 1]]));
                    lemma_frac_ge_trans(ss[p], ss[ord[0]], ss[ord[j - 1]]);
                }
            } else {
                assert(res[i] == ord[i - 1] && res[j] == ord[j - 1]);
            }
        }
        assert forall|i: int, j: int|
            (0 <= i < j < res.len() && frac_ge(
                ss[#[trigger] res[j]],
                ss[#[trigger] res[i]],
            )) implies res[i] < res[j] by {
            if i == 0 {
                assert(res[0] == p);
                assert(res[j] == ord[j - 1]);
                if frac_ge(ss[ord[j - 1]], ss[p]) {
                    if j - 1 > 0 {
                        assert(frac_ge(ss[ord[0]], ss[ord[j - 1]]));
                        lemma_frac_ge_trans(ss[ord[0]], ss[ord[j - 1]], ss[p]);
                    }
                    assert(false);
                }
            } else {
                assert(res[i] == ord[i - 1] && res[j] == ord[j - 1]);
            }
        }
    }
}

proof fn lemma_ranking_below_props(ss: Seq<(nat, nat)>, m: int)
    requires
        dens_pos(ss),
        0 <= m <= ss.len(),
    ensures
        in_range(ranking_below(ss, m), 0, m),
        forall|i: int|
            0 <= i < ranking_below(ss, m).len() ==> ss[#[trigger] ranking_below(ss, m)[i]].0 > 0,
        forall|q: int| 0 <= q < m && ss[q].0 > 0 ==> ranking_below(ss, m).contains(q),
        sorted_desc(ranking_below(ss, m), ss),
        stable_order(ranking_below(ss, m), ss),
    decreases m,
{
    if m > 0 {
        lemma_ranking_below_props(ss, m - 1);
        let prev = ranking_below(ss, m - 1);
        let res = ranking_below(ss, m);
        if ss[m - 1].0 > 0 {
            lemma_insert_ranked_order(prev, ss, m - 1);
            lemma_insert_ranked_elems(prev, ss, m - 1);
            assert forall|i: int| 0 <= i < res.len() implies 0 <= #[trigger] res[i] < m
                && ss[res[i]].0 > 0 by {
                if res[i] != m - 1 {
                    assert(prev.contains(res[i]));
                    let k = choose|k: int| 0 <= k < prev.len() && prev[k] == res[i];
                    assert(ss[prev[k]].0 > 0);
                }
            }
            assert forall|q: int| 0 <= q < m && ss[q].0 > 0 implies res.contains(q) by {
                if q < m - 1 {
                    assert(prev.contains(q));
                }
            }
        } else {
            assert forall|q: int| 0 <= q < m && ss[q].0 > 0 implies res.contains(q) by {
                if q < m - 1 {
                    assert(prev.contains(q));
                }
            }
        }
    }
}

/// The ranking law: the ranking of a score table lists exactly the indices
/// of the positively scored entries, each once, ordered by decreasing score,
/// and entries of equal score keep their original relative order.
pub proof fn lemma_ranking_props(ss: Seq<(nat, nat)>)
    requires
        dens_pos(ss),
    ensures
        in_range(ranking(ss), 0, ss.len() as int),
        forall|i: int| 0 <= i < ranking(ss).len() ==> ss[#[trigger] ranking(ss)[i]].0 > 0,
        forall|q: int| 0 <= q < ss.len() && ss[q].0 > 0 ==> ranking(ss).contains(q),
        sorted_desc(ranking(ss), ss),
        stable_order(ranking(ss), ss),
        forall|i: int, j: int|
            0 <= i < j < ranking(ss).len() ==> ranking(ss)[i] != ranking(ss)[j],
{
    lemma_ranking_below_props(ss, ss.len() as int);
    let ord = ranking(ss);
    assert forall|i: int, j: int| 0 <= i < j < ord.len() implies ord[i] != ord[j] by {
        if ord[i] == ord[j] {
            assert(frac_ge(ss[ord[j]], ss[ord[i]]));
            assert(ord[i] < ord[j]);
        }
    }
}

} // verus!
