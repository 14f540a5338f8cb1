//! Similarity scoring and ranking of string candidates.

use vstd::prelude::*;
use vstd::string::StringSliceAdditionalSpecFns;

pub mod model;
pub mod rank;
pub mod types;

pub use types::{AsStr, Match, Score};

verus! {

/// Decides whether the term `q[start .. start + tlen]` occurs in `d` at
/// position `pos`.
fn occurs_at(d: &[u8], q: &[u8], start: usize, tlen: usize, pos: usize) -> (r: bool)
    requires
        start + tlen <= q@.len(),
        pos + tlen <= d@.len(),
    ensures
        r == model::matches_at(d@, q@.subrange(start as int, (start + tlen) as int), pos as int),
{
    let ghost t = q@.subrange(start as int, (start + tlen) as int);
    let dlen = d.len();
    let qlen = q.len();
    let mut k: usize = 0;
    while k < tlen
        invariant
            k <= tlen,
            start + tlen <= qlen == q@.len(),
            pos + tlen <= dlen == d@.len(),
            t == q@.subrange(start as int, (start + tlen) as int),
            forall|m: int| 0 <= m < k ==> d@[pos + m] == #[trigger] q@[start + m],
        decreases tlen - k,
    {
        if d[pos + k] != q[start + k] {
            proof {
                assert(d@.subrange(pos as int, pos + t.len())[k as int] == d@[pos + k]);
                assert(t[k as int] == q@[start + k]);
            }
            return false;
        }
        k += 1;
    }
    proof {
        assert forall|m: int| 0 <= m < tlen implies d@.subrange(pos as int, pos + t.len())[m]
            == t[m] by {
            assert(d@.subrange(pos as int, pos + t.len())[m] == d@[pos + m]);
            assert(t[m] == q@[start + m]);
        }
        assert(d@.subrange(pos as int, pos + t.len()) =~= t);
    }
    true
}

/// Counts the occurrences of the term `q[start .. start + tlen]` in `d`.
fn count_occurrences(d: &[u8], q: &[u8], start: usize, tlen: usize) -> (cnt: usize)
    requires
        start + tlen <= q@.len(),
        1 <= tlen,
    ensures
        cnt == model::occurrences(d@, q@.subrange(start as int, (start + tlen) as int)),
{
    let ghost t = q@.subrange(start as int, (start + tlen) as int);
    let dlen = d.len();
    if tlen > dlen {
        assert(model::occurrences_below(d@, t, d@.len() - t.len() + 1) == 0);
        return 0;
    }
    let mut pos: usize = 0;
    let mut cnt: usize = 0;
    while pos <= dlen - tlen
        invariant
            start + tlen <= q@.len(),
            1 <= tlen <= dlen == d@.len(),
            pos <= dlen - tlen + 1,
            t == q@.subrange(start as int, (start + tlen) as int),
            cnt == model::occurrences_below(d@, t, pos as int),
            cnt <= pos,
        decreases dlen - pos,
    {
        if occurs_at(d, q, start, tlen, pos) {
            cnt += 1;
        }
        pos += 1;
    }
    cnt
}

/// Scores the query bytes `q` against the candidate bytes `d`.
///
/// The numerator is the number of bytes of `d` covered by occurrences of the
/// terms of `q` (overlapping occurrences counted separately), clamped to
/// `d`'s length; it is zero when some term of `q` never occurs in `d`, or
/// when `d` is empty.  The denominator is `d`'s length (one for an empty
/// `d`), so the score as a fraction lies in `[0, 1]`.
pub fn similarity_bytes(q: &[u8], d: &[u8]) -> (r: Score)
    ensures
        r.num == model::score_num(q@, d@),
        r.den == model::score_den(d@),
        r.wf(),
{
    let dlen = d.len();
    if dlen == 0 {
        return Score { num: 0, den: 1 };
    }
    let qlen = q.len();
    let mut i: usize = 0;
    let mut acc: usize = 0;
    let ghost mut cov: nat = 0nat;
    while i < qlen
        invariant
            i <= qlen == q@.len(),
            1 <= dlen == d@.len(),
            acc == if cov > d@.len() {
                d@.len()
            } else {
                cov
            },
            model::coverage(model::terms(q@), d@) == cov + model::coverage(
                model::terms_from(q@, i as int),
                d@,
            ),
            model::all_terms_occur(model::terms(q@), d@) <==> model::all_terms_occur(
                model::terms_from(q@, i as int),
                d@,
            ),
        decreases qlen - i,
    {
        if q[i] == 32 {
            assert(model::terms_from(q@, i as int) == model::terms_from(q@, i + 1));
            i += 1;
        } else {
            let start = i;
            let mut j = i;
            while j < qlen && q[j] != 32
                invariant
                    start <= j <= qlen == q@.len(),
                    model::term_len_at(q@, start as int) == (j - start) + model::term_len_at(
                        q@,
                        j as int,
                    ),
                decreases qlen - j,
            {
                j += 1;
            }
            assert(model::term_len_at(q@, j as int) == 0);
            let tlen = j - start;
            assert(model::term_len_at(q@, start as int) == tlen);
            let ghost t = q@.subrange(start as int, j as int);
            let ghost rest = model::terms_from(q@, j as int);
            proof {
                assert(model::terms_from(q@, start as int) == seq![t] + rest);
                model::lemma_coverage_cons(t, rest, d@);
                model::lemma_all_terms_occur_cons(t, rest, d@);
            }
            let cnt = count_occurrences(d, q, start, tlen);
            if cnt == 0 {
                assert(!model::all_terms_occur(seq![t] + rest, d@));
                return Score { num: 0, den: dlen };
            }
            // Clamp the accumulated coverage to the candidate's length; the
            // contribution is computed in 128 bits so that it cannot overflow.
            proof {
                vstd::arithmetic::mul::lemma_mul_upper_bound(
                    cnt as int,
                    usize::MAX as int,
                    tlen as int,
                    usize::MAX as int,
                );
                assert((usize::MAX as int) * (usize::MAX as int) <= u128::MAX as int)
                    by (nonlinear_arith)
                    requires
                        usize::MAX <= u64::MAX,
                ;
            }
            let contribution: u128 = (cnt as u128) * (tlen as u128);
            let room: usize = dlen - acc;
            proof {
                cov = cov + model::occurrences(d@, t) * t.len();
            }
            if contribution >= room as u128 {
                acc = dlen;
            } else {
                acc = acc + (contribution as usize);
            }
            i = j;
        }
    }
    assert(model::terms_from(q@, i as int) =~= Seq::<Seq<u8>>::empty());
    Score { num: acc, den: dlen }
}

/// ASCII-lowercases a byte sequence.
fn to_lower(s: &[u8]) -> (r: Vec<u8>)
    ensures
        r@ == model::lower(s@),
{
    let slen = s.len();
    let mut out: Vec<u8> = Vec::new();
    let mut k: usize = 0;
    while k < slen
        invariant
            k <= slen == s@.len(),
            out@.len() == k,
            forall|m: int| 0 <= m < k ==> out@[m] == model::lower_byte(#[trigger] s@[m]),
        decreases slen - k,
    {
        let b = s[k];
        let lb = if 65 <= b && b <= 90 {
            b + 32
        } else {
            b
        };
        out.push(lb);
        k += 1;
    }
    proof {
        assert(out@ =~= model::lower(s@));
    }
    out
}

/// Compares two well-formed scores as fractions.
fn score_ge(a: &Score, b: &Score) -> (r: bool)
    ensures
        r == rank::frac_ge((a.num as nat, a.den as nat), (b.num as nat, b.den as nat)),
{
    proof {
        vstd::arithmetic::mul::lemma_mul_upper_bound(
            a.num as int,
            usize::MAX as int,
            b.den as int,
            usize::MAX as int,
        );
        vstd::arithmetic::mul::lemma_mul_upper_bound(
            b.num as int,
            usize::MAX as int,
            a.den as int,
            usize::MAX as int,
        );
        assert((usize::MAX as int) * (usize::MAX as int) <= u128::MAX as int) by (nonlinear_arith)
            requires
                usize::MAX <= u64::MAX,
        ;
    }
    (a.num as u128) * (b.den as u128) >= (b.num as u128) * (a.den as u128)
}

/// The score table of a ranking call: for each candidate, the numerator and
/// denominator of its similarity score against the needle, both taken under
/// the configured case mode.
pub open spec fn candidate_scores<T: AsStr>(needle: Seq<u8>, h: Seq<T>, cs: bool) -> Seq<
    (nat, nat),
> {
    Seq::new(
        h.len(),
        |p: int|
            (
                model::score_num(model::mode_view(needle, cs), model::mode_view(h[p].bytes_spec(), cs)),
                model::score_den(model::mode_view(h[p].bytes_spec(), cs)),
            ),
    )
}

/// What `find` returns: the ranking of the score table, cut to `k` entries,
/// each candidate paired with its exact score.
pub open spec fn find_post<T: AsStr>(
    needle: Seq<u8>,
    h: Seq<T>,
    k: int,
    cs: bool,
    r: Seq<Match<T>>,
) -> bool {
    let ss = candidate_scores(needle, h, cs);
    let ord = rank::ranking(ss);
    &&& r.len() == if ord.len() < k {
        ord.len() as int
    } else {
        k
    }
    &&& forall|i: int|
        0 <= i < r.len() ==> {
            &&& 0 <= ord[i] < h.len()
            &&& (#[trigger] r[i]).object == h[ord[i]]
            &&& r[i].score.num == ss[ord[i]].0
            &&& r[i].score.den == ss[ord[i]].1
        }
}

/// Scores every candidate of `haystack` against `needle` and returns the
/// candidates of positive score, best first, candidates of equal score in
/// their original order, cut to at most `max_results` entries.  With
/// `case_sensitive` false, both the needle and each candidate are
/// ASCII-lowercased before scoring.
pub fn find<T: AsStr>(
    needle: &str,
    haystack: &Vec<T>,
    max_results: usize,
    case_sensitive: bool,
) -> (r: Vec<Match<T>>)
    ensures
        find_post(needle.spec_bytes(), haystack@, max_results as int, case_sensitive, r@),
        r@.len() <= max_results,
        forall|i: int|
            0 <= i < r@.len() ==> (#[trigger] r@[i]).score.num > 0 && r@[i].score.wf(),
        forall|i: int, j: int|
            0 <= i < j < r@.len() ==> (#[trigger] r@[i]).score.num * (#[trigger] r@[j]).score.den
                >= r@[j].score.num * r@[i].score.den,
{
    let ghost n = needle.spec_bytes();
    let ghost ss = candidate_scores(n, haystack@, case_sensitive);
    let nbytes: Vec<u8> = if case_sensitive {
        vstd::slice::slice_to_vec(needle.as_bytes())
    } else {
        to_lower(needle.as_bytes())
    };
    let mut results: Vec<Match<T>> = Vec::new();
    let ghost mut ord: Seq<int> = Seq::empty();
    let hlen = haystack.len();
    let mut p: usize = 0;
    while p < hlen
        invariant
            p <= hlen == haystack@.len(),
            n == needle.spec_bytes(),
            ss == candidate_scores(n, haystack@, case_sensitive),
            nbytes@ == model::mode_view(n, case_sensitive),
            ord == rank::ranking_below(ss, p as int),
            results@.len() == ord.len(),
            forall|i: int| 0 <= i < ord.len() ==> 0 <= #[trigger] ord[i] < p,
            forall|i: int|
                0 <= i < ord.len() ==> {
                    &&& (#[trigger] results@[i]).object == haystack@[ord[i]]
                    &&& results@[i].score.num == ss[ord[i]].0
                    &&& results@[i].score.den == ss[ord[i]].1
                    &&& results@[i].score.wf()
                },
        decreases hlen - p,
    {
        let obj = &haystack[p];
        let view = obj.as_str();
        let cbytes: Vec<u8> = if case_sensitive {
            vstd::slice::slice_to_vec(view.as_bytes())
        } else {
            to_lower(view.as_bytes())
        };
        let sc = similarity_bytes(nbytes.as_slice(), cbytes.as_slice());
        proof {
            assert(cbytes@ == model::mode_view(haystack@[p as int].bytes_spec(), case_sensitive));
            assert(sc.num == ss[p as int].0 && sc.den == ss[p as int].1);
        }
        if sc.num > 0 {
            let mut j: usize = 0;
            while j < results.len() && score_ge(&results[j].score, &sc)
                invariant
                    j <= results@.len() == ord.len(),
                    ss == candidate_scores(n, haystack@, case_sensitive),
                    p < haystack@.len(),
                    sc.num == ss[p as int].0 && sc.den == ss[p as int].1,
                    forall|i: int|
                        0 <= i < ord.len() ==> {
                            &&& (#[trigger] results@[i]).object == haystack@[ord[i]]
                            &&& results@[i].score.num == ss[ord[i]].0
                            &&& results@[i].score.den == ss[ord[i]].1
                        },
                    forall|i: int|
                        0 <= i < j ==> rank::frac_ge(ss[#[trigger] ord[i]], ss[p as int]),
                decreases results@.len() - j,
            {
                j += 1;
            }
            let m = Match::new(obj.duplicate(), sc);
            proof {
                rank::lemma_insert_ranked_at(ord, ss, p as int, j as int);
                ord.insert_ensures(j as int, p as int);
                results@.insert_ensures(j as int, m);
            }
            results.insert(j, m);
            proof {
                ord = ord.insert(j as int, p as int);
            }
        }
        p += 1;
    }
    results.truncate(max_results);
    proof {
        assert(ord == rank::ranking(ss));
        assert forall|i: int| 0 <= i < ss.len() implies (#[trigger] ss[i]).1 >= 1 by {
            assert(ss[i].1 == model::score_den(
                model::mode_view(haystack@[i].bytes_spec(), case_sensitive),
            ));
        }
        rank::lemma_ranking_props(ss);
    }
    results
}

/// The stability law: when two returned matches carry the same score, the
/// earlier one comes from the earlier candidate: equal-score candidates keep
/// their original relative order.
pub proof fn lemma_find_stable<T: AsStr>(
    needle: Seq<u8>,
    h: Seq<T>,
    k: int,
    cs: bool,
    r: Seq<Match<T>>,
    i: int,
    j: int,
)
    requires
        find_post(needle, h, k, cs, r),
        0 <= i < j < r.len(),
        rank::frac_ge(
            (r[j].score.num as nat, r[j].score.den as nat),
            (r[i].score.num as nat, r[i].score.den as nat),
        ),
    ensures
        rank::ranking(candidate_scores(needle, h, cs))[i] < rank::ranking(
            candidate_scores(needle, h, cs),
        )[j],
{
    let ss = candidate_scores(needle, h, cs);
    let ord = rank::ranking(ss);
    assert forall|m: int| 0 <= m < ss.len() implies (#[trigger] ss[m]).1 >= 1 by {
        assert(ss[m].1 == model::score_den(model::mode_view(h[m].bytes_spec(), cs)));
    }
    rank::lemma_ranking_props(ss);
    assert(rank::frac_ge(ss[ord[j]], ss[ord[i]]));
}

/// The idempotence law: the ranking contract pins every entry of the
/// result, so any two results of a call with the same inputs are equal.
pub proof fn lemma_find_deterministic<T: AsStr>(
    needle: Seq<u8>,
    h: Seq<T>,
    k: int,
    cs: bool,
    r1: Seq<Match<T>>,
    r2: Seq<Match<T>>,
)
    requires
        find_post(needle, h, k, cs, r1),
        find_post(needle, h, k, cs, r2),
    ensures
        r1 == r2,
{
    assert forall|i: int| 0 <= i < r1.len() implies r1[i] == r2[i] by {
        types::lemma_match_eq(r1[i], r2[i]);
    }
    assert(r1 =~= r2);
}

/// Scores the space-delimited terms of `query` against `data`.
///
/// The score is the fraction of `data`'s bytes covered by occurrences of the
/// query's terms (overlapping occurrences counted separately), clamped to
/// one; it is exactly zero when some term of the query never occurs in
/// `data`, or when `data` is empty.  Matching is case-sensitive and compares
/// literal substrings at byte level.
pub fn similarity(query: &str, data: &str) -> (r: Score)
    ensures
        r.num == model::score_num(query.spec_bytes(), data.spec_bytes()),
        r.den == model::score_den(data.spec_bytes()),
        r.wf(),
{
    similarity_bytes(query.as_bytes(), data.as_bytes())
}

} // verus!
