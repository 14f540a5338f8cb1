//! Mathematical model of the similarity score.
//!
//! Everything here is stated over byte sequences.  A query is split on the
//! ASCII space into non-empty terms; each occurrence of a term inside the
//! candidate contributes the term's length to a coverage total, and the score
//! is that total over the candidate's length, clamped to one.  A candidate in
//! which some term never occurs scores zero.

use vstd::prelude::*;

verus! {

/// The term separator: the ASCII space.
pub open spec fn is_sep(b: u8) -> bool {
    b == 32
}

/// Length of the run of non-separator bytes that starts at position `i` of `q`.
pub open spec fn term_len_at(q: Seq<u8>, i: int) -> nat
    decreases q.len() - i,
{
    if i < 0 || i >= q.len() || is_sep(q[i]) {
        0
    } else {
        1 + term_len_at(q, i + 1)
    }
}

pub proof fn lemma_term_len_at_bounds(q: Seq<u8>, i: int)
    requires
        0 <= i <= q.len(),
    ensures
        i + term_len_at(q, i) <= q.len(),
    decreases q.len() - i,
{
    if i < q.len() && !is_sep(q[i]) {
        lemma_term_len_at_bounds(q, i + 1);
    }
}

/// The space-delimited terms of `q` that start at or after position `i`.
/// Consecutive separators produce no term: every term is non-empty.
pub open spec fn terms_from(q: Seq<u8>, i: int) -> Seq<Seq<u8>>
    decreases q.len() - i,
    via terms_from_decreases
{
    if i < 0 || i >= q.len() {
        Seq::empty()
    } else if is_sep(q[i]) {
        terms_from(q, i + 1)
    } else {
        seq![q.subrange(i, i + term_len_at(q, i))] + terms_from(q, i + term_len_at(q, i))
    }
}

#[via_fn]
proof fn terms_from_decreases(q: Seq<u8>, i: int) {
    if 0 <= i && i < q.len() && !is_sep(q[i]) {
        lemma_term_len_at_bounds(q, i);
        assert(term_len_at(q, i) >= 1);
    }
}

/// The space-delimited, non-empty terms of the query `q`.
pub open spec fn terms(q: Seq<u8>) -> Seq<Seq<u8>> {
    terms_from(q, 0)
}

/// `t` occurs in `d` starting at position `i`.
pub open spec fn matches_at(d: Seq<u8>, t: Seq<u8>, i: int) -> bool {
    0 <= i && i + t.len() <= d.len() && d.subrange(i, i + t.len()) == t
}

/// How many starting positions strictly below `n` carry an occurrence of `t`.
pub open spec fn occurrences_below(d: Seq<u8>, t: Seq<u8>, n: int) -> nat
    decreases n,
{
    if n <= 0 {
        0
    } else {
        occurrences_below(d, t, n - 1) + (if matches_at(d, t, n - 1) {
            1nat
        } else {
            0nat
        })
    }
}

/// How many starting positions of `d` carry an occurrence of `t`.
pub open spec fn occurrences(d: Seq<u8>, t: Seq<u8>) -> nat {
    occurrences_below(d, t, d.len() - t.len() + 1)
}

/// Total number of bytes of `d` covered by occurrences of the terms `ts`,
/// counting overlapping occurrences separately.
pub open spec fn coverage(ts: Seq<Seq<u8>>, d: Seq<u8>) -> nat
    decreases ts.len(),
{
    if ts.len() == 0 {
        0
    } else {
        occurrences(d, ts[0]) * ts[0].len() + coverage(ts.drop_first(), d)
    }
}

/// Every term of `ts` occurs somewhere in `d`.
pub open spec fn all_terms_occur(ts: Seq<Seq<u8>>, d: Seq<u8>) -> bool {
    forall|k: int| 0 <= k < ts.len() ==> occurrences(d, #[trigger] ts[k]) > 0
}

/// Numerator of the similarity score of query `q` against candidate `d`:
/// the coverage of `d` by the terms of `q`, clamped to `d`'s length; zero when
/// `d` is empty or some term of `q` never occurs in `d`.
pub open spec fn score_num(q: Seq<u8>, d: Seq<u8>) -> nat {
    if d.len() == 0 || !all_terms_occur(terms(q), d) {
        0
    } else if coverage(terms(q), d) > d.len() {
        d.len()
    } else {
        coverage(terms(q), d)
    }
}

/// Denominator of the similarity score: the candidate's length, or one for an
/// empty candidate, whose score is zero anyway.
pub open spec fn score_den(d: Seq<u8>) -> nat {
    if d.len() == 0 {
        1
    } else {
        d.len()
    }
}

/// ASCII lowercasing of one byte.
pub open spec fn lower_byte(b: u8) -> u8 {
    if 65 <= b && b <= 90 {
        (b + 32) as u8
    } else {
        b
    }
}

/// ASCII lowercasing of a byte sequence.
pub open spec fn lower(s: Seq<u8>) -> Seq<u8> {
    Seq::new(s.len(), |i: int| lower_byte(s[i]))
}

/// The byte sequence a string is matched under: itself in case-sensitive
/// mode, its ASCII lowercasing otherwise.
pub open spec fn mode_view(s: Seq<u8>, case_sensitive: bool) -> Seq<u8> {
    if case_sensitive {
        s
    } else {
        lower(s)
    }
}

/// The score law: the score is a fraction in `[0, 1]`, and it is exactly
/// zero whenever some term of the query never occurs in the candidate.
pub proof fn lemma_score_bounds(q: Seq<u8>, d: Seq<u8>)
    ensures
        1 <= score_den(d),
        score_num(q, d) <= score_den(d),
        !all_terms_occur(terms(q), d) ==> score_num(q, d) == 0,
{
}

/// Splitting off the first term: coverage is its contribution plus the rest's.
pub proof fn lemma_coverage_cons(t: Seq<u8>, rest: Seq<Seq<u8>>, d: Seq<u8>)
    ensures
        coverage(seq![t] + rest, d) == occurrences(d, t) * t.len() + coverage(rest, d),
{
    let ts = seq![t] + rest;
    assert(ts[0] == t);
    assert(ts.drop_first() =~= rest);
}

/// Splitting off the first term: all terms occur iff it does and the rest do.
pub proof fn lemma_all_terms_occur_cons(t: Seq<u8>, rest: Seq<Seq<u8>>, d: Seq<u8>)
    ensures
        all_terms_occur(seq![t] + rest, d) <==> (occurrences(d, t) > 0 && all_terms_occur(
            rest,
            d,
        )),
{
    let ts = seq![t] + rest;
    assert(ts[0] == t);
    if occurrences(d, t) > 0 && all_terms_occur(rest, d) {
        assert forall|k: int| 0 <= k < ts.len() implies occurrences(d, #[trigger] ts[k]) > 0 by {
            if k > 0 {
                assert(ts[k] == rest[k - 1]);
            }
        }
    }
    if all_terms_occur(ts, d) {
        assert forall|k: int| 0 <= k < rest.len() implies occurrences(d, #[trigger] rest[k])
            > 0 by {
            assert(rest[k] == ts[k + 1]);
        }
    }
}

} // verus!
