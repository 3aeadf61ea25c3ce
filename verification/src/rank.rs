//! Query scoring and ranking.
//!
//! A document's score for a query is the sum, over every query token,
//! of that token's per-term-frequency in the document: its count
//! divided by the document's total token count (zero for an empty
//! document). All per-token fractions of one document share the
//! document's total as denominator, so a score is kept exactly as one
//! rational number: the sum of the counts over that total. Ranking
//! sorts every document of the index by descending score; ties keep
//! the order in which documents stand in the index.

use vstd::prelude::*;

use crate::index::Index;
use crate::lexer::{spec_tokenize, tokenize};
use crate::model::{clone_string, spec_count, spec_positive_counts, spec_total, TermFreq};
use crate::text::chars_of;

verus! {

broadcast use vstd::seq_lib::group_to_multiset_ensures;

/// The score numerator of model `m` for query `q`: the sum of the
/// counts of every query token, one summand per occurrence in `q`.
pub open spec fn spec_score_num(m: Seq<(Seq<char>, nat)>, q: Seq<Seq<char>>) -> nat
    decreases q.len(),
{
    if q.len() == 0 {
        0
    } else {
        spec_score_num(m, q.drop_last()) + spec_count(m, q.last())
    }
}

/// The score denominator of model `m`: the document's total token
/// count, or one for an empty document so that its score is exactly
/// zero rather than a division by zero.
pub open spec fn spec_score_den(m: Seq<(Seq<char>, nat)>) -> nat {
    if spec_total(m) == 0 {
        1
    } else {
        spec_total(m)
    }
}

/// `n1 / d1 <= n2 / d2` for positive denominators, compared exactly.
pub open spec fn spec_frac_le(n1: int, d1: int, n2: int, d2: int) -> bool {
    n1 * d2 <= n2 * d1
}

proof fn lemma_zero_total_empty(m: Seq<(Seq<char>, nat)>)
    requires
        spec_positive_counts(m),
        spec_total(m) == 0,
    ensures
        m.len() == 0,
{
    if m.len() > 0 {
        assert(m[0].1 >= 1);
    }
}

/// The per-term-frequency of `term` in `doc`, as the exact fraction
/// `(count, total)`; an empty document yields `(0, 1)`, never a
/// division by zero.
pub fn tf(term: &String, doc: &TermFreq) -> (r: (usize, usize))
    requires
        doc.wf(),
    ensures
        r.0 == spec_count(doc.model(), term@),
        r.1 == spec_score_den(doc.model()),
        r.1 >= 1,
        doc.spec_total_count() == 0 ==> r.0 == 0 && r.1 == 1,
{
    proof {
        doc.lemma_wf_facts();
    }
    let total = doc.total_count();
    let count = doc.count(term);
    if total == 0 {
        proof {
            lemma_zero_total_empty(doc.model());
        }
        (count, 1)
    } else {
        (count, total)
    }
}

/// The exact score of one document for a query's token sequence.
pub fn score(doc: &TermFreq, query: &Vec<String>) -> (s: (u128, usize))
    requires
        doc.wf(),
    ensures
        s.0 == spec_score_num(doc.model(), query.deep_view()),
        s.1 == spec_score_den(doc.model()),
        s.1 >= 1,
{
    proof {
        doc.lemma_wf_facts();
    }
    let total = doc.total_count();
    let den = if total == 0 {
        1
    } else {
        total
    };
    let mut num: u128 = 0;
    let n = query.len();
    let mut i: usize = 0;
    proof {
        assert(query.deep_view().take(0) =~= Seq::<Seq<char>>::empty());
    }
    while i < n
        invariant
            n == query@.len(),
            n == query.deep_view().len(),
            i <= n,
            doc.wf(),
            num == spec_score_num(doc.model(), query.deep_view().take(i as int)),
            num <= (i as int) * (usize::MAX as int),
        decreases n - i,
    {
        let c = doc.count(&query[i]);
        proof {
            let qv = query.deep_view();
            assert(qv.take(i + 1).drop_last() =~= qv.take(i as int));
            assert(qv.take(i + 1).last() == qv[i as int]);
            assert(qv[i as int] == query@[i as int]@);
            assert(num + c <= ((i + 1) as int) * (usize::MAX as int)) by (nonlinear_arith)
                requires
                    num <= (i as int) * (usize::MAX as int),
                    c <= usize::MAX as int,
                    i >= 0,
            ;
            assert(((i + 1) as int) * (usize::MAX as int) < u128::MAX as int) by (nonlinear_arith)
                requires
                    0 <= i,
                    i + 1 <= usize::MAX as int,
                    usize::MAX as int <= u64::MAX as int,
            ;
        }
        num = num + (c as u128);
        i = i + 1;
    }
    proof {
        assert(query.deep_view().take(n as int) =~= query.deep_view());
    }
    (num, den)
}

/// Exact comparison of two non-negative fractions with positive
/// denominators, without overflow: the classic continued-fraction
/// descent on quotients and remainders.
pub fn frac_le(n1: u128, d1: u128, n2: u128, d2: u128) -> (r: bool)
    requires
        d1 >= 1,
        d2 >= 1,
    ensures
        r == spec_frac_le(n1 as int, d1 as int, n2 as int, d2 as int),
{
    let mut a = n1;
    let mut b = d1;
    let mut c = n2;
    let mut d = d2;
    loop
        invariant
            b >= 1,
            d >= 1,
            spec_frac_le(a as int, b as int, c as int, d as int) == spec_frac_le(
                n1 as int,
                d1 as int,
                n2 as int,
                d2 as int,
            ),
        decreases b + d,
    {
        let q1 = a / b;
        let r1 = a % b;
        let q2 = c / d;
        let r2 = c % d;
        proof {
            assert(a == (b as int) * (q1 as int) + r1 && 0 <= r1 < b) by (nonlinear_arith)
                requires
                    b >= 1,
                    q1 == a / b,
                    r1 == a % b,
            ;
            assert(c == (d as int) * (q2 as int) + r2 && 0 <= r2 < d) by (nonlinear_arith)
                requires
                    d >= 1,
                    q2 == c / d,
                    r2 == c % d,
            ;
        }
        if q1 < q2 {
            proof {
                assert((a as int) * (d as int) <= (c as int) * (b as int)) by (nonlinear_arith)
                    requires
                        a == (b as int) * (q1 as int) + r1,
                        c == (d as int) * (q2 as int) + r2,
                        0 <= r1 < b,
                        0 <= r2 < d,
                        b >= 1,
                        d >= 1,
                        q1 < q2,
                ;
            }
            return true;
        }
        if q2 < q1 {
            proof {
                assert(!((a as int) * (d as int) <= (c as int) * (b as int))) by (nonlinear_arith)
                    requires
                        a == (b as int) * (q1 as int) + r1,
                        c == (d as int) * (q2 as int) + r2,
                        0 <= r1 < b,
                        0 <= r2 < d,
                        b >= 1,
                        d >= 1,
                        q2 < q1,
                ;
            }
            return false;
        }
        if r1 == 0 {
            proof {
                assert((a as int) * (d as int) <= (c as int) * (b as int)) by (nonlinear_arith)
                    requires
                        a == (b as int) * (q1 as int) + r1,
                        c == (d as int) * (q2 as int) + r2,
                        q1 == q2,
                        r1 == 0,
                        0 <= r2 < d,
                        b >= 1,
                        d >= 1,
                ;
            }
            return true;
        }
        if r2 == 0 {
            proof {
                assert(!((a as int) * (d as int) <= (c as int) * (b as int))) by (nonlinear_arith)
                    requires
                        a == (b as int) * (q1 as int) + r1,
                        c == (d as int) * (q2 as int) + r2,
                        q1 == q2,
                        r1 >= 1,
                        r2 == 0,
                        b >= 1,
                        d >= 1,
                ;
            }
            return false;
        }
        proof {
            assert(((a as int) * (d as int) <= (c as int) * (b as int)) == ((d as int) * (r1 as int)
                <= (b as int) * (r2 as int))) by (nonlinear_arith)
                requires
                    a == (b as int) * (q1 as int) + r1,
                    c == (d as int) * (q2 as int) + r2,
                    q1 == q2,
                    1 <= r1 < b,
                    1 <= r2 < d,
                    b >= 1,
                    d >= 1,
            ;
        }
        let new_a = d;
        let new_b = r2;
        let new_c = b;
        let new_d = r1;
        a = new_a;
        b = new_b;
        c = new_c;
        d = new_d;
    }
}

proof fn lemma_frac_le_trans(n1: int, d1: int, n2: int, d2: int, n3: int, d3: int)
    requires
        d1 >= 1,
        d2 >= 1,
        d3 >= 1,
        spec_frac_le(n1, d1, n2, d2),
        spec_frac_le(n2, d2, n3, d3),
    ensures
        spec_frac_le(n1, d1, n3, d3),
{
    assert(n1 * d3 <= n3 * d1) by (nonlinear_arith)
        requires
            n1 * d2 <= n2 * d1,
            n2 * d3 <= n3 * d2,
            d1 >= 1,
            d2 >= 1,
            d3 >= 1,
    ;
}

/// One entry of a ranking: a document identifier with its exact score.
pub struct RankedDoc {
    pub doc_id: String,
    pub score_num: u128,
    pub score_den: usize,
}

/// The value a ranked entry stands for.
pub open spec fn spec_ranked(r: RankedDoc) -> (Seq<char>, nat, nat) {
    (r.doc_id@, r.score_num as nat, r.score_den as nat)
}

/// The identifier and score a document of the index gets for query `q`.
pub open spec fn spec_scored(d: (Seq<char>, Seq<(Seq<char>, nat)>), q: Seq<Seq<char>>) -> (
    Seq<char>,
    nat,
    nat,
) {
    (d.0, spec_score_num(d.1, q), spec_score_den(d.1))
}

/// Entries are in descending score order.
pub open spec fn spec_sorted_desc(s: Seq<RankedDoc>) -> bool {
    forall|x: int, y: int|
        0 <= x < y < s.len() ==> spec_frac_le(
            s[y].score_num as int,
            s[y].score_den as int,
            s[x].score_num as int,
            s[x].score_den as int,
        )
}

/// Ranks every document of the index against a raw query string:
/// one entry per document, none filtered out, sorted by descending
/// exact score. The returned entries are a permutation of the
/// documents of the index, each with its true score for the query.
pub fn search(index: &Index, query: &str) -> (results: Vec<RankedDoc>)
    requires
        index.wf(),
    ensures
        results@.len() == index.models().len(),
        spec_sorted_desc(results@),
        forall|i: int| 0 <= i < results@.len() ==> (#[trigger] results@[i]).score_den >= 1,
        results@.map_values(|r: RankedDoc| spec_ranked(r)).to_multiset() == index.models()
            .map_values(
            |d: (Seq<char>, Seq<(Seq<char>, nat)>)| spec_scored(d, spec_tokenize(query@)),
        ).to_multiset(),
{
    let ghost q = spec_tokenize(query@);
    let ghost target = index.models().map_values(
        |d: (Seq<char>, Seq<(Seq<char>, nat)>)| spec_scored(d, q),
    );

    let query_chars = chars_of(query);
    let query_tokens = tokenize(query_chars.as_slice());

    let docs = index.docs();
    let n = docs.len();
    proof {
        assert forall|k: int| 0 <= k < docs@.len() implies (#[trigger] docs@[k].1).wf() by {}
    }
    let mut scored: Vec<RankedDoc> = Vec::new();
    let mut i: usize = 0;
    while i < n
        invariant
            n == docs@.len(),
            i <= n,
            forall|k: int| 0 <= k < docs@.len() ==> (#[trigger] docs@[k].1).wf(),
            docs@.map_values(|p: (String, TermFreq)| (p.0@, p.1.model())) == index.models(),
            q == spec_tokenize(query@),
            query_tokens.deep_view() == q,
            target == index.models().map_values(
                |d: (Seq<char>, Seq<(Seq<char>, nat)>)| spec_scored(d, q),
            ),
            scored@.len() == i,
            forall|k: int|
                0 <= k < i ==> #[trigger] spec_ranked(scored@[k]) == target[k],
            forall|k: int| 0 <= k < i ==> (#[trigger] scored@[k]).score_den >= 1,
        decreases n - i,
    {
        proof {
            assert((#[trigger] docs@[i as int].1).wf());
            assert(index.models()[i as int] == (docs@[i as int].0@, docs@[i as int].1.model()));
        }
        let doc_id = clone_string(&docs[i].0);
        let s = score(&docs[i].1, &query_tokens);
        scored.push(RankedDoc { doc_id, score_num: s.0, score_den: s.1 });
        i = i + 1;
    }

    proof {
        assert(scored@.map_values(|r: RankedDoc| spec_ranked(r)) =~= target);
    }

    // Selection sort by descending score: repeatedly move the first
    // maximal entry over, so equal scores keep their index order.
    let mut out: Vec<RankedDoc> = Vec::new();
    proof {
        assert(out@.map_values(|r: RankedDoc| spec_ranked(r)) =~= Seq::<(
            Seq<char>,
            nat,
            nat,
        )>::empty());
        assert(out@.map_values(|r: RankedDoc| spec_ranked(r)).to_multiset().add(
            scored@.map_values(|r: RankedDoc| spec_ranked(r)).to_multiset(),
        ) =~= target.to_multiset());
    }
    while scored.len() > 0
        invariant
            spec_sorted_desc(out@),
            forall|k: int| 0 <= k < out@.len() ==> (#[trigger] out@[k]).score_den >= 1,
            forall|k: int| 0 <= k < scored@.len() ==> (#[trigger] scored@[k]).score_den >= 1,
            forall|x: int, y: int|
                0 <= x < out@.len() && 0 <= y < scored@.len() ==> spec_frac_le(
                    scored@[y].score_num as int,
                    scored@[y].score_den as int,
                    out@[x].score_num as int,
                    out@[x].score_den as int,
                ),
            out@.map_values(|r: RankedDoc| spec_ranked(r)).to_multiset().add(
                scored@.map_values(|r: RankedDoc| spec_ranked(r)).to_multiset(),
            ) == target.to_multiset(),
            out@.len() + scored@.len() == target.len(),
        decreases scored@.len(),
    {
        let mut best: usize = 0;
        let mut j: usize = 1;
        while j < scored.len()
            invariant
                scored@.len() > 0,
                best < j,
                1 <= j <= scored@.len(),
                forall|t: int|
                    0 <= t < j ==> spec_frac_le(
                        (#[trigger] scored@[t]).score_num as int,
                        scored@[t].score_den as int,
                        scored@[best as int].score_num as int,
                        scored@[best as int].score_den as int,
                    ),
                forall|k: int| 0 <= k < scored@.len() ==> (#[trigger] scored@[k]).score_den >= 1,
            decreases scored@.len() - j,
        {
            if !frac_le(
                scored[j].score_num,
                scored[j].score_den as u128,
                scored[best].score_num,
                scored[best].score_den as u128,
            ) {
                proof {
                    assert forall|t: int|
                        0 <= t < j + 1 implies spec_frac_le(
                        (#[trigger] scored@[t]).score_num as int,
                        scored@[t].score_den as int,
                        scored@[j as int].score_num as int,
                        scored@[j as int].score_den as int,
                    ) by {
                        if t < j {
                            lemma_frac_le_trans(
                                scored@[t].score_num as int,
                                scored@[t].score_den as int,
                                scored@[best as int].score_num as int,
                                scored@[best as int].score_den as int,
                                scored@[j as int].score_num as int,
                                scored@[j as int].score_den as int,
                            );
                        }
                    }
                }
                best = j;
            }
            j = j + 1;
        }
        let ghost pre = scored@;
        let ghost chosen_v = spec_ranked(pre[best as int]);
        let chosen = scored.remove(best);
        let ghost outpre = out@;
        out.push(chosen);
        proof {
            let f = |r: RankedDoc| spec_ranked(r);
            assert(pre.remove(best as int).map_values(f) =~= pre.map_values(f).remove(
                best as int,
            ));
            assert(pre.map_values(f)[best as int] == chosen_v);
            assert(pre.map_values(f).remove(best as int).to_multiset() == pre.map_values(
                f,
            ).to_multiset().remove(pre.map_values(f)[best as int]));
            assert(scored@.map_values(f) =~= pre.map_values(f).remove(best as int));
            assert(scored@.map_values(f).to_multiset() =~= pre.map_values(f).to_multiset().remove(
                chosen_v,
            ));
            assert(out@.map_values(f) =~= outpre.map_values(f).push(chosen_v));
            assert(outpre.map_values(f).push(chosen_v).to_multiset() == outpre.map_values(
                f,
            ).to_multiset().insert(chosen_v));
            assert(out@.map_values(f).to_multiset() =~= outpre.map_values(f).to_multiset().insert(
                chosen_v,
            ));
            assert(pre.map_values(f).to_multiset().count(chosen_v) >= 1);
            assert(out@.map_values(f).to_multiset().add(scored@.map_values(f).to_multiset())
                =~= outpre.map_values(f).to_multiset().add(pre.map_values(f).to_multiset()));
            assert forall|x: int, y: int|
                0 <= x < out@.len() && 0 <= y < scored@.len() implies spec_frac_le(
                scored@[y].score_num as int,
                scored@[y].score_den as int,
                out@[x].score_num as int,
                out@[x].score_den as int,
            ) by {
                let py: int = if y < best as int {
                    y
                } else {
                    y + 1
                };
                assert(scored@[y] == pre[py]);
                if x < outpre.len() {
                    assert(out@[x] == outpre[x]);
                } else {
                    assert(out@[x] == pre[best as int]);
                }
            }
        }
    }
    proof {
        assert(scored@.map_values(|r: RankedDoc| spec_ranked(r)) =~= Seq::<(
            Seq<char>,
            nat,
            nat,
        )>::empty());
        assert(out@.map_values(|r: RankedDoc| spec_ranked(r)).to_multiset() =~= target.to_multiset());
        assert(out@.len() == target.len());
    }
    out
}

/// Ranking monotonicity: if, for every token of the query, the
/// per-term-frequency in document one is at least the one in document
/// two, then document one's score for the whole query is at least
/// document two's.
pub proof fn lemma_ranking_monotonic(
    m1: Seq<(Seq<char>, nat)>,
    m2: Seq<(Seq<char>, nat)>,
    q: Seq<Seq<char>>,
)
    requires
        forall|i: int|
            0 <= i < q.len() ==> spec_frac_le(
                spec_count(m2, #[trigger] q[i]) as int,
                spec_score_den(m2) as int,
                spec_count(m1, q[i]) as int,
                spec_score_den(m1) as int,
            ),
    ensures
        spec_frac_le(
            spec_score_num(m2, q) as int,
            spec_score_den(m2) as int,
            spec_score_num(m1, q) as int,
            spec_score_den(m1) as int,
        ),
    decreases q.len(),
{
    let d1 = spec_score_den(m1) as int;
    let d2 = spec_score_den(m2) as int;
    if q.len() == 0 {
        assert(spec_score_num(m2, q) == 0);
        assert(0 * d1 <= 0 * d2) by (nonlinear_arith);
    } else {
        let q2 = q.drop_last();
        assert(forall|i: int| 0 <= i < q2.len() ==> #[trigger] q2[i] == q[i]);
        lemma_ranking_monotonic(m1, m2, q2);
        let a2 = spec_score_num(m2, q2) as int;
        let c2 = spec_count(m2, q.last()) as int;
        let a1 = spec_score_num(m1, q2) as int;
        let c1 = spec_count(m1, q.last()) as int;
        assert(q.last() == q[q.len() - 1]);
        assert(spec_frac_le(
            spec_count(m2, q[q.len() - 1]) as int,
            d2,
            spec_count(m1, q[q.len() - 1]) as int,
            d1,
        ));
        assert(a2 * d1 <= a1 * d2);
        assert(c2 * d1 <= c1 * d2);
        assert((a2 + c2) * d1 <= (a1 + c1) * d2) by (nonlinear_arith)
            requires
                a2 * d1 <= a1 * d2,
                c2 * d1 <= c1 * d2,
        ;
        assert(spec_score_num(m2, q) == a2 + c2);
        assert(spec_score_num(m1, q) == a1 + c1);
    }
}

} // verus!
