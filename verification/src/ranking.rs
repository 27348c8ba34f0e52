//! Ranking scored results: the best first, and no more than a limit.
use vstd::prelude::*;

verus! {

/// The number of results that a query returns where the caller has no wish of
/// their own.
pub const DEFAULT_LIMIT: usize = 3;

/// The sign bit of a binary64 bit pattern.
pub const SIGN: u64 = 0x8000_0000_0000_0000;

/// A ranked item. `weight`, `relevance` and `score` are bit patterns of IEEE
/// 754 binary64 numbers: `relevance` is the value of the item's relevance
/// expression, `score` what its rank goes by.
#[derive(Debug)]
pub struct Result {
    pub id: String,
    pub weight: u64,
    pub relevance: u64,
    pub score: u64,
}

/// What a [`Result`] holds.
pub struct ResultView {
    pub id: Seq<char>,
    pub weight: u64,
    pub relevance: u64,
    pub score: u64,
}

impl View for Result {
    type V = ResultView;

    open spec fn view(&self) -> ResultView {
        ResultView {
            id: self.id@,
            weight: self.weight,
            relevance: self.relevance,
            score: self.score,
        }
    }
}

/// What a vector of results holds.
pub open spec fn result_views(v: Seq<Result>) -> Seq<ResultView> {
    Seq::new(v.len(), |i: int| v[i]@)
}

/// The place of a binary64 bit pattern in the total order of all of them:
/// negative numbers below positive ones, the negative ones in reverse order of
/// their patterns, the others in the order of their patterns. Greater numbers
/// have greater keys, negative zero comes just below positive zero, and the
/// patterns that are no numbers lie beyond the infinities, on the side of
/// their sign.
pub open spec fn key_of(bits: u64) -> u64 {
    if bits < SIGN {
        (bits + SIGN) as u64
    } else {
        (u64::MAX - bits) as u64
    }
}

/// The key by which a score is ordered.
pub fn order_key(bits: u64) -> (key: u64)
    ensures
        key == key_of(bits),
{
    assert(bits & 0x8000_0000_0000_0000 == 0 <==> bits < 0x8000_0000_0000_0000) by (bit_vector);
    assert(bits < 0x8000_0000_0000_0000 ==> bits | 0x8000_0000_0000_0000 == bits
        + 0x8000_0000_0000_0000) by (bit_vector);
    assert(!bits == 0xffff_ffff_ffff_ffff - bits) by (bit_vector);
    if bits & SIGN == 0 {
        bits | SIGN
    } else {
        !bits
    }
}

/// The number of leading entries of `kept` that score at least as high as
/// `score`: where a result with that score goes.
pub open spec fn rank_of(kept: Seq<ResultView>, score: u64) -> nat
    decreases kept.len(),
{
    if kept.len() > 0 && key_of(kept[0].score) >= key_of(score) {
        1 + rank_of(kept.drop_first(), score)
    } else {
        0
    }
}

/// `results` in descending order of score, those of equal score in the order
/// in which they were given.
pub open spec fn ordered(results: Seq<ResultView>) -> Seq<ResultView>
    decreases results.len(),
{
    if results.len() == 0 {
        Seq::empty()
    } else {
        let before = ordered(results.drop_last());
        before.insert(rank_of(before, results.last().score) as int, results.last())
    }
}

/// The first `limit` of `results` in descending order of score, or all of
/// them where they are fewer.
pub open spec fn ranked(results: Seq<ResultView>, limit: nat) -> Seq<ResultView> {
    if limit < results.len() {
        ordered(results).take(limit as int)
    } else {
        ordered(results)
    }
}

/// `s` is in descending order of score.
pub open spec fn descending(s: Seq<ResultView>) -> bool {
    forall|i: int, j: int|
        0 <= i < j < s.len() ==> key_of(#[trigger] s[i].score) >= key_of(#[trigger] s[j].score)
}

/// The rank is the length of the leading run of entries that score at least
/// as high: every entry before it does, and the entry at it, if there is one,
/// does not.
pub proof fn lemma_rank_of(kept: Seq<ResultView>, score: u64)
    ensures
        rank_of(kept, score) <= kept.len(),
        forall|j: int|
            0 <= j < rank_of(kept, score) ==> key_of((#[trigger] kept[j]).score) >= key_of(score),
        rank_of(kept, score) < kept.len() ==> key_of(kept[rank_of(kept, score) as int].score)
            < key_of(score),
    decreases kept.len(),
{
    if kept.len() > 0 && key_of(kept[0].score) >= key_of(score) {
        let rest = kept.drop_first();
        lemma_rank_of(rest, score);
        assert forall|j: int| 0 <= j < rank_of(kept, score) implies key_of(
            (#[trigger] kept[j]).score,
        ) >= key_of(score) by {
            if j > 0 {
                assert(kept[j] == rest[j - 1]);
            }
        }
    }
}

/// A leading run of entries that score at least as high, which ends with the
/// sequence or before an entry that scores lower, has the length of the rank.
pub proof fn lemma_rank_of_run(kept: Seq<ResultView>, score: u64, run: int)
    requires
        0 <= run <= kept.len(),
        forall|j: int| 0 <= j < run ==> key_of((#[trigger] kept[j]).score) >= key_of(score),
        run < kept.len() ==> key_of(kept[run].score) < key_of(score),
    ensures
        rank_of(kept, score) == run,
    decreases run,
{
    if run > 0 {
        let rest = kept.drop_first();
        lemma_rank_of_run(rest, score, run - 1);
    }
}

/// Ordering keeps every result.
pub proof fn lemma_ordered_len(results: Seq<ResultView>)
    ensures
        ordered(results).len() == results.len(),
    decreases results.len(),
{
    if results.len() > 0 {
        lemma_ordered_len(results.drop_last());
        lemma_rank_of(ordered(results.drop_last()), results.last().score);
    }
}

/// Placing one more result by its rank: the results in order, cut at `limit`,
/// come from those before, cut at `limit`, by inserting the new result at its
/// rank among them and cutting again.
pub proof fn lemma_ranked_push(results: Seq<ResultView>, r: ResultView, limit: nat)
    ensures
        ({
            let kept = ranked(results, limit);
            let placed = kept.insert(rank_of(kept, r.score) as int, r);
            ranked(results.push(r), limit) == if placed.len() > limit {
                placed.take(limit as int)
            } else {
                placed
            }
        }),
{
    let all = ordered(results);
    let kept = ranked(results, limit);
    let next = results.push(r);
    assert(next.drop_last() =~= results);
    lemma_ordered_len(next);
    lemma_rank_of(all, r.score);
    let at = rank_of(all, r.score) as int;
    if limit < results.len() {
        if at < limit {
            assert(key_of(kept[at].score) < key_of(r.score)) by {
                assert(kept[at] == all[at]);
            }
            lemma_rank_of_run(kept, r.score, at);
        } else {
            lemma_rank_of_run(kept, r.score, limit as int);
        }
    }
}

/// The results in order are in descending order of score.
pub proof fn lemma_ordered_descending(results: Seq<ResultView>)
    ensures
        descending(ordered(results)),
    decreases results.len(),
{
    if results.len() > 0 {
        let before = ordered(results.drop_last());
        let r = results.last();
        lemma_ordered_descending(results.drop_last());
        lemma_rank_of(before, r.score);
    }
}

/// The results in order are the results given: each as often as it was given,
/// and nothing else.
pub proof fn lemma_ordered_permutes(results: Seq<ResultView>)
    ensures
        ordered(results).to_multiset() == results.to_multiset(),
    decreases results.len(),
{
    if results.len() > 0 {
        let init = results.drop_last();
        let before = ordered(init);
        let r = results.last();
        lemma_ordered_permutes(init);
        lemma_rank_of(before, r.score);
        vstd::seq_lib::to_multiset_insert(before, rank_of(before, r.score) as int, r);
        assert(results =~= init.push(r));
        vstd::seq_lib::to_multiset_build(init, r);
    } else {
        assert(ordered(results) =~= results);
    }
}

/// The ranking holds the best results and no more than `limit`: it is in
/// descending order of score; it is as long as the limit allows; it is the
/// head of an ordering of all the results given, each as often as it was
/// given; and no result left out scores higher than one that is in.
pub proof fn lemma_ranked_best(results: Seq<ResultView>, limit: nat)
    ensures
        ranked(results, limit).len() == if limit < results.len() {
            limit
        } else {
            results.len()
        },
        descending(ranked(results, limit)),
        ordered(results).to_multiset() == results.to_multiset(),
        ranked(results, limit) == ordered(results).take(ranked(results, limit).len() as int),
        forall|i: int, j: int|
            0 <= i < ranked(results, limit).len() <= j < results.len() ==> key_of(
                (#[trigger] ranked(results, limit)[i]).score,
            ) >= key_of((#[trigger] ordered(results)[j]).score),
{
    lemma_ordered_len(results);
    lemma_ordered_descending(results);
    lemma_ordered_permutes(results);
}

/// Ranking the same results twice gives the same ranking.
pub proof fn lemma_rank_repeatable(
    results: Seq<Result>,
    limit: nat,
    first: Seq<Result>,
    second: Seq<Result>,
)
    requires
        result_views(first) == ranked(result_views(results), limit),
        result_views(second) == ranked(result_views(results), limit),
    ensures
        result_views(first) == result_views(second),
{
}

/// Descending order of score is descending order of the numbers: among
/// patterns with the sign bit clear a greater pattern, which is a greater
/// number, has the greater key; among those with it set a greater pattern,
/// which is a smaller number, has the smaller key; and every pattern with the
/// sign bit set has a smaller key than any with it clear.
pub proof fn lemma_key_of_order(a: u64, b: u64)
    ensures
        a < SIGN && b < SIGN ==> (key_of(a) < key_of(b) <==> a < b),
        a >= SIGN && b >= SIGN ==> (key_of(a) < key_of(b) <==> a > b),
        a >= SIGN && b < SIGN ==> key_of(a) < key_of(b),
{
}

/// Ranks `results`: the `limit` best in descending order of score, as
/// [`key_of`] orders scores, results of equal score in the order in which they
/// were given. Fewer than `limit` results are all kept.
pub fn rank(results: Vec<Result>, limit: usize) -> (best: Vec<Result>)
    ensures
        result_views(best@) == ranked(result_views(results@), limit as nat),
        best@.len() <= limit,
        best@.len() == if limit < results@.len() {
            limit as nat
        } else {
            results@.len()
        },
        descending(result_views(best@)),
        forall|i: int, j: int|
            0 <= i < j < best@.len() ==> key_of((#[trigger] best@[i]).score) >= key_of(
                (#[trigger] best@[j]).score,
            ),
{
    let ghost given = results@;
    proof {
        lemma_ranked_best(result_views(given), limit as nat);
    }
    let mut best: Vec<Result> = Vec::new();
    for r in it: results.into_iter()
        invariant
            it.seq() == given,
            result_views(best@) == ranked(result_views(given.take(it.index())), limit as nat),
    {
        let ghost seen = result_views(given.take(it.index()));
        let ghost kept = result_views(best@);
        proof {
            lemma_ranked_push(seen, r@, limit as nat);
            lemma_ordered_len(seen);
            assert(result_views(given.take(it.index() + 1)) =~= seen.push(r@));
        }
        let key = order_key(r.score);
        let len = best.len();
        let mut at: usize = 0;
        while at < len && order_key(best[at].score) >= key
            invariant
                len == best@.len(),
                at <= len,
                key == key_of(r.score),
                kept == result_views(best@),
                forall|j: int| 0 <= j < at ==> key_of((#[trigger] kept[j]).score) >= key,
            decreases len - at,
        {
            at += 1;
        }
        proof {
            lemma_rank_of_run(kept, r.score, at as int);
        }
        if at < limit {
            best.insert(at, r);
            if best.len() > limit {
                best.truncate(limit);
            }
        }
    }
    proof {
        assert(given.take(given.len() as int) =~= given);
        assert forall|i: int, j: int| 0 <= i < j < best@.len() implies key_of(
            (#[trigger] best@[i]).score,
        ) >= key_of((#[trigger] best@[j]).score) by {
            assert(result_views(best@)[i].score == best@[i].score);
            assert(result_views(best@)[j].score == best@[j].score);
        }
    }
    best
}

} // verus!
