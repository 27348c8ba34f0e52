//! Evaluating a query: which items it matches, and the relevance of each.
use crate::fragment::{
    by_fragment, hits, lemma_matches_below, match_views, matches_below, terms_at, Match, Term,
};
use crate::index::Index;
use crate::ranking::{
    descending, key_of, lemma_ranked_best, ordered, rank, ranked, result_views, Result, ResultView,
};
use crate::text::{slug, split_words, tokenize, views};
use vstd::prelude::*;

verus! {

/// An item that a query matched, with the exact expression of its relevance.
///
/// Each fragment of the query that matched the item gave one factor, in the
/// order of the fragments; a factor is the list of that fragment's terms. The
/// relevance of the item is `1 / nr_of_tokens`, multiplied by the sum of the
/// terms of each factor in turn. A fragment that did not match the item gave
/// no factor: it leaves the relevance as it is.
#[derive(Debug)]
pub struct Candidate {
    pub position: usize,
    pub id: String,
    pub weight: u64,
    pub nr_of_tokens: usize,
    pub factors: Vec<Vec<Term>>,
}

/// What a [`Candidate`] holds.
pub struct CandidateView {
    pub position: usize,
    pub id: Seq<char>,
    pub weight: u64,
    pub nr_of_tokens: usize,
    pub factors: Seq<Seq<Term>>,
}

/// The term sequences that a vector of term lists holds.
pub open spec fn lists(v: Seq<Vec<Term>>) -> Seq<Seq<Term>> {
    Seq::new(v.len(), |i: int| v[i]@)
}

impl View for Candidate {
    type V = CandidateView;

    open spec fn view(&self) -> CandidateView {
        CandidateView {
            position: self.position,
            id: self.id@,
            weight: self.weight,
            nr_of_tokens: self.nr_of_tokens,
            factors: lists(self.factors@),
        }
    }
}

/// What a vector of candidates holds.
pub open spec fn candidate_views(v: Seq<Candidate>) -> Seq<CandidateView> {
    Seq::new(v.len(), |i: int| v[i]@)
}

/// The terms of `fragment` for the item at `position`.
pub open spec fn fragment_terms(
    idx: Index,
    fragment: Seq<char>,
    completion: bool,
    fuzzy: bool,
    position: usize,
) -> Seq<Term> {
    terms_at(hits(idx.tokens@, idx.scores@, fragment, completion, fuzzy), position)
}

/// The factors of the item at `position`: the terms of each fragment that
/// has any for it, in the order of the fragments.
pub open spec fn factors_at(
    idx: Index,
    fragments: Seq<Seq<char>>,
    completion: bool,
    fuzzy: bool,
    position: usize,
) -> Seq<Seq<Term>>
    decreases fragments.len(),
{
    if fragments.len() == 0 {
        Seq::empty()
    } else {
        let terms = fragment_terms(idx, fragments.last(), completion, fuzzy, position);
        if terms.len() > 0 {
            factors_at(idx, fragments.drop_last(), completion, fuzzy, position).push(terms)
        } else {
            factors_at(idx, fragments.drop_last(), completion, fuzzy, position)
        }
    }
}

/// The candidates among the first `n` items: those with a factor, in input
/// order.
pub open spec fn candidates_below(
    idx: Index,
    fragments: Seq<Seq<char>>,
    completion: bool,
    fuzzy: bool,
    n: nat,
) -> Seq<CandidateView>
    decreases n,
{
    if n == 0 {
        Seq::empty()
    } else {
        let p = (n - 1) as usize;
        let factors = factors_at(idx, fragments, completion, fuzzy, p);
        if factors.len() > 0 {
            candidates_below(idx, fragments, completion, fuzzy, (n - 1) as nat).push(
                CandidateView {
                    position: p,
                    id: idx.original_ids@[p as int]@,
                    weight: idx.weights@[p as int],
                    nr_of_tokens: idx.nr_of_tokens@[p as int],
                    factors,
                },
            )
        } else {
            candidates_below(idx, fragments, completion, fuzzy, (n - 1) as nat)
        }
    }
}

/// What [`match_fragments`] returns: every item that at least one of the
/// fragments matches is a candidate.
pub open spec fn fragment_candidates(
    idx: Index,
    fragments: Seq<Seq<char>>,
    completion: bool,
    fuzzy: bool,
) -> Seq<CandidateView> {
    candidates_below(idx, fragments, completion, fuzzy, idx.size())
}

/// What [`candidates`] returns. The empty query matches nothing. Any other
/// query is normalised and split into fragments.
pub open spec fn query_candidates(
    idx: Index,
    query: Seq<char>,
    completion: bool,
    fuzzy: bool,
) -> Seq<CandidateView> {
    if query.len() == 0 {
        Seq::empty()
    } else {
        fragment_candidates(idx, split_words(slug(query)), completion, fuzzy)
    }
}

/// The position of the match at `i`, or `n` past the last match.
spec fn frontier(found: Seq<Match>, i: int, n: usize) -> int {
    if i < found.len() {
        found[i].position as int
    } else {
        n as int
    }
}

/// Matches the fragments of a query against the index. The result holds
/// every item that at least one fragment matches, in input order, each with
/// the expression of its relevance. An item need not match every fragment.
pub fn match_fragments(
    idx: &Index,
    fragments: Vec<String>,
    completion: bool,
    fuzzy: bool,
) -> (found: Vec<Candidate>)
    requires
        idx.wf(),
    ensures
        candidate_views(found@) == fragment_candidates(*idx, views(fragments@), completion, fuzzy),
{
    let ghost words = views(fragments@);
    let n = idx.weights.len();
    let mut factors: Vec<Vec<Vec<Term>>> = Vec::new();
    let mut p: usize = 0;
    while p < n
        invariant
            p <= n,
            factors@.len() == p,
            forall|q: int| 0 <= q < p ==> (#[trigger] factors@[q])@.len() == 0,
        decreases n - p,
    {
        factors.push(Vec::new());
        p += 1;
    }
    let count = fragments.len();
    let mut k: usize = 0;
    while k < count
        invariant
            idx.wf(),
            n == idx.size(),
            words == views(fragments@),
            count == fragments@.len(),
            k <= count,
            factors@.len() == n,
            forall|q: int|
                0 <= q < n ==> lists((#[trigger] factors@[q])@) == factors_at(
                    *idx,
                    words.take(k as int),
                    completion,
                    fuzzy,
                    q as usize,
                ),
        decreases count - k,
    {
        let mut matched = by_fragment(idx, fragments[k].clone(), completion, fuzzy);
        let ghost all = hits(idx.tokens@, idx.scores@, words[k as int], completion, fuzzy);
        let ghost old_factors = factors@;
        let ghost positions = match_views(matched@);
        proof {
            lemma_matches_below(all, n as nat);
            assert(words.take(k + 1).drop_last() =~= words.take(k as int));
        }
        let len = matched.len();
        let mut i: usize = 0;
        proof {
            assert forall|q: usize| q < frontier(matched@, 0, n) implies (#[trigger] terms_at(
                all,
                q,
            )).len() == 0 by {
                if terms_at(all, q).len() > 0 {
                    let j = choose|j: int|
                        0 <= j < positions.len() && (#[trigger] positions[j]).0 == q;
                    assert(positions[0].0 <= positions[j].0);
                }
            }
        }
        while i < len
            invariant
                n == idx.size(),
                len == matched@.len(),
                i <= len,
                positions == matches_below(all, n as nat),
                positions.len() == len,
                forall|j: int| 0 <= j < len ==> (#[trigger] matched@[j]).position == positions[j].0,
                forall|j: int| i <= j < len ==> (#[trigger] matched@[j]).terms@ == positions[j].1,
                forall|j: int|
                    0 <= j < positions.len() ==> {
                        let m = #[trigger] positions[j];
                        m.0 < n && m.1 == terms_at(all, m.0) && m.1.len() > 0
                    },
                forall|a: int, b: int|
                    0 <= a < b < positions.len() ==> (#[trigger] positions[a]).0 < (
                    #[trigger] positions[b]).0,
                forall|q: usize|
                    q < n && (#[trigger] terms_at(all, q)).len() > 0 ==> exists|j: int|
                        0 <= j < positions.len() && (#[trigger] positions[j]).0 == q,
                factors@.len() == n,
                old_factors.len() == n,
                forall|q: int|
                    0 <= q < n ==> lists((#[trigger] factors@[q])@) == (if q < frontier(
                        matched@,
                        i as int,
                        n,
                    ) && terms_at(all, q as usize).len() > 0 {
                        lists(old_factors[q]@).push(terms_at(all, q as usize))
                    } else {
                        lists(old_factors[q]@)
                    }),
            decreases len - i,
        {
            let position = matched[i].position;
            let mut terms: Vec<Term> = Vec::new();
            core::mem::swap(&mut terms, &mut matched[i].terms);
            factors[position].push(terms);
            i += 1;
        }
        k += 1;
    }
    proof {
        assert(words.take(count as int) =~= words);
    }
    let mut found: Vec<Candidate> = Vec::new();
    let mut p: usize = 0;
    while p < n
        invariant
            idx.wf(),
            n == idx.size(),
            p <= n,
            factors@.len() == n,
            forall|q: int|
                p <= q < n ==> lists((#[trigger] factors@[q])@) == factors_at(
                    *idx,
                    words,
                    completion,
                    fuzzy,
                    q as usize,
                ),
            candidate_views(found@) == candidates_below(*idx, words, completion, fuzzy, p as nat),
        decreases n - p,
    {
        if factors[p].len() > 0 {
            let mut list: Vec<Vec<Term>> = Vec::new();
            core::mem::swap(&mut list, &mut factors[p]);
            let candidate = Candidate {
                position: p,
                id: idx.original_ids[p].clone(),
                weight: idx.weights[p],
                nr_of_tokens: idx.nr_of_tokens[p],
                factors: list,
            };
            found.push(candidate);
        }
        p += 1;
    }
    found
}

/// Evaluates `query` against the index: the candidates that the fragments of
/// the query match, where the fragments are the words of its normalised form.
/// The result is empty for the empty query.
pub fn candidates(idx: &Index, query: String, completion: bool, fuzzy: bool) -> (found: Vec<
    Candidate,
>)
    requires
        idx.wf(),
    ensures
        candidate_views(found@) == query_candidates(*idx, query@, completion, fuzzy),
        query@.len() == 0 ==> found@.len() == 0,
{
    if query.as_str().is_empty() {
        return Vec::new();
    }
    match_fragments(idx, tokenize(query.as_str()), completion, fuzzy)
}

/// The results that candidates make with the values found for them: each
/// candidate's id and weight, with its relevance and its score.
pub open spec fn scored(found: Seq<CandidateView>, values: Seq<(u64, u64)>) -> Seq<ResultView> {
    Seq::new(
        found.len(),
        |i: int|
            ResultView {
                id: found[i].id,
                weight: found[i].weight,
                relevance: values[i].0,
                score: values[i].1,
            },
    )
}

/// `values` holds, for each of `found` in turn, a relevance and a score that
/// `value` returns for it.
pub open spec fn values_of<F: Fn(&Candidate) -> (u64, u64)>(
    value: F,
    found: Seq<Candidate>,
    values: Seq<(u64, u64)>,
) -> bool {
    &&& values.len() == found.len()
    &&& forall|i: int| 0 <= i < found.len() ==> value.ensures((&found[i],), #[trigger] values[i])
}

/// What [`run`] returns for the candidates `found`: `value` gives each of them
/// a relevance and a score, and the results that this makes are ranked.
pub open spec fn run_results<F: Fn(&Candidate) -> (u64, u64)>(
    value: F,
    found: Seq<CandidateView>,
    limit: nat,
    best: Seq<ResultView>,
) -> bool {
    exists|given: Seq<Candidate>, values: Seq<(u64, u64)>|
        candidate_views(given) == found && #[trigger] values_of(value, given, values) && best
            == ranked(scored(found, values), limit)
}

/// Runs `query` against the index. Every item that a fragment of the query
/// matches is a candidate; `value` gives each candidate the bit patterns of
/// its relevance and of its score; and the result holds the `limit` candidates
/// of the highest scores, in descending order of score, candidates of equal
/// score in input order. It is empty for the empty query.
pub fn run<F: Fn(&Candidate) -> (u64, u64)>(
    idx: &Index,
    query: String,
    completion: bool,
    fuzzy: bool,
    limit: usize,
    value: F,
) -> (best: Vec<Result>)
    requires
        idx.wf(),
        forall|c: &Candidate| #[trigger] value.requires((c,)),
    ensures
        run_results(
            value,
            query_candidates(*idx, query@, completion, fuzzy),
            limit as nat,
            result_views(best@),
        ),
        best@.len() <= limit,
        best@.len() == if limit < query_candidates(*idx, query@, completion, fuzzy).len() {
            limit as nat
        } else {
            query_candidates(*idx, query@, completion, fuzzy).len()
        },
        descending(result_views(best@)),
        forall|i: int, j: int|
            0 <= i < j < best@.len() ==> key_of((#[trigger] best@[i]).score) >= key_of(
                (#[trigger] best@[j]).score,
            ),
        query@.len() == 0 ==> best@.len() == 0,
{
    let found = candidates(idx, query, completion, fuzzy);
    let n = found.len();
    let mut results: Vec<Result> = Vec::new();
    let ghost mut values: Seq<(u64, u64)> = Seq::empty();
    let mut i: usize = 0;
    while i < n
        invariant
            n == found@.len(),
            i <= n,
            forall|c: &Candidate| #[trigger] value.requires((c,)),
            results@.len() == i,
            values_of(value, found@.take(i as int), values),
            forall|j: int|
                0 <= j < i ==> (#[trigger] results@[j])@ == (ResultView {
                    id: found@[j].id@,
                    weight: found@[j].weight,
                    relevance: values[j].0,
                    score: values[j].1,
                }),
        decreases n - i,
    {
        let candidate = &found[i];
        let (relevance, score) = value(candidate);
        proof {
            values = values.push((relevance, score));
        }
        results.push(Result { id: candidate.id.clone(), weight: candidate.weight, relevance, score });
        i += 1;
    }
    proof {
        assert(found@.take(n as int) =~= found@);
        assert(result_views(results@) =~= scored(candidate_views(found@), values));
    }
    rank(results, limit)
}

/// What [`run`] returns is the best of the candidates and no more than
/// `limit`: it is as long as the limit and the number of candidates allow; it
/// is in descending order of score; it is the head of an ordering of the
/// results of all the candidates, each once; and no candidate left out scores
/// higher than one that is in.
pub proof fn lemma_run_best<F: Fn(&Candidate) -> (u64, u64)>(
    value: F,
    found: Seq<CandidateView>,
    limit: nat,
    best: Seq<ResultView>,
)
    requires
        run_results(value, found, limit, best),
    ensures
        best.len() == if limit < found.len() {
            limit
        } else {
            found.len()
        },
        descending(best),
        exists|values: Seq<(u64, u64)>|
            {
                let all = #[trigger] ordered(scored(found, values));
                &&& values.len() == found.len()
                &&& all.to_multiset() == scored(found, values).to_multiset()
                &&& best == all.take(best.len() as int)
                &&& forall|i: int, j: int|
                    0 <= i < best.len() <= j < found.len() ==> key_of((#[trigger] best[i]).score)
                        >= key_of((#[trigger] all[j]).score)
            },
{
    let (given, values) = choose|given: Seq<Candidate>, values: Seq<(u64, u64)>|
        candidate_views(given) == found && #[trigger] values_of(value, given, values) && best
            == ranked(scored(found, values), limit);
    lemma_ranked_best(scored(found, values), limit);
    assert(best == ordered(scored(found, values)).take(best.len() as int));
}

/// Running a query twice against one index, with one way to value a
/// candidate, gives the same results. The way to value is one where `value`
/// returns the same for candidates that hold the same.
pub proof fn lemma_run_repeatable<F: Fn(&Candidate) -> (u64, u64)>(
    value: F,
    found: Seq<CandidateView>,
    limit: nat,
    first: Seq<ResultView>,
    second: Seq<ResultView>,
)
    requires
        run_results(value, found, limit, first),
        run_results(value, found, limit, second),
        forall|a: &Candidate, b: &Candidate, x: (u64, u64), y: (u64, u64)|
            #![trigger value.ensures((a,), x), value.ensures((b,), y)]
            a@ == b@ && value.ensures((a,), x) && value.ensures((b,), y) ==> x == y,
    ensures
        first == second,
{
    let (g1, v1) = choose|given: Seq<Candidate>, values: Seq<(u64, u64)>|
        candidate_views(given) == found && #[trigger] values_of(value, given, values) && first
            == ranked(scored(found, values), limit);
    let (g2, v2) = choose|given: Seq<Candidate>, values: Seq<(u64, u64)>|
        candidate_views(given) == found && #[trigger] values_of(value, given, values) && second
            == ranked(scored(found, values), limit);
    assert forall|i: int| 0 <= i < v1.len() implies v1[i] == v2[i] by {
        assert(candidate_views(g1)[i] == candidate_views(g2)[i]);
    }
    assert(v1 =~= v2);
}

/// Evaluating a query twice against one index gives the same candidates: what
/// [`candidates`] returns depends on its arguments alone.
pub proof fn lemma_candidates_repeatable(
    idx: Index,
    query: Seq<char>,
    completion: bool,
    fuzzy: bool,
    first: Seq<Candidate>,
    second: Seq<Candidate>,
)
    requires
        candidate_views(first) == query_candidates(idx, query, completion, fuzzy),
        candidate_views(second) == query_candidates(idx, query, completion, fuzzy),
    ensures
        candidate_views(first) == candidate_views(second),
{
}

} // verus!
