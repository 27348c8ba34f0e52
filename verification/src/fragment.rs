//! Matching one fragment of a query against the tokens of an index.
use crate::index::{Index, Posting, Ratio};
use crate::text::edit_distance;
use vstd::prelude::*;
use vstd::string::StrSliceExecFns;

verus! {

/// The largest edit distance at which a token still matches a fragment.
pub const MAX_DISTANCE: usize = 3;

/// What one occurrence of a matching token adds to the relevance of the item
/// it occurs in. A term is an exact expression; the real number it stands for
/// is given with each variant, where `score` reads as `count / total`.
#[derive(Clone, Copy, Debug, PartialEq, Eq, Structural)]
pub enum Term {
    /// The fragment is the token: `1 + score + sqrt(length)`, with the length
    /// of the fragment in characters.
    Exact { score: Ratio, length: usize },
    /// The fragment is a proper prefix of the token:
    /// `1 + score + length / token_length`, both lengths in characters.
    Prefix { score: Ratio, length: usize, token_length: usize },
    /// The token is within [`MAX_DISTANCE`] edits of the fragment:
    /// `(1 + score) / (1 + distance)`.
    Fuzzy { score: Ratio, distance: usize },
}

/// An item that a fragment matched, with one term for each matching
/// occurrence of a token in its name. The relevance of the item for the
/// fragment is the sum of the terms.
#[derive(Debug)]
pub struct Match {
    pub position: usize,
    pub terms: Vec<Term>,
}

/// One matching occurrence of a token: the item it occurs in, and what it
/// adds to that item's relevance.
pub struct Hit {
    pub position: usize,
    pub term: Term,
}

/// `fragment` is a prefix of `token` and shorter than it.
pub open spec fn is_proper_prefix(fragment: Seq<char>, token: Seq<char>) -> bool {
    fragment.len() < token.len() && token.take(fragment.len() as int) == fragment
}

/// How `token` matches `fragment`, if it does. A token equal to the fragment
/// matches whatever the flags. Any other token is tried as a completion of the
/// fragment where `completion` is set; one that is no completion, or all of
/// them where `completion` is not set, is tried by edit distance where `fuzzy`
/// is set.
pub open spec fn term_of(
    token: Seq<char>,
    score: Ratio,
    fragment: Seq<char>,
    completion: bool,
    fuzzy: bool,
) -> Option<Term> {
    if token == fragment {
        Some(Term::Exact { score, length: fragment.len() as usize })
    } else if completion && is_proper_prefix(fragment, token) {
        Some(
            Term::Prefix {
                score,
                length: fragment.len() as usize,
                token_length: token.len() as usize,
            },
        )
    } else if fuzzy && edit_distance(fragment, token) <= MAX_DISTANCE {
        Some(Term::Fuzzy { score, distance: edit_distance(fragment, token) as usize })
    } else {
        None
    }
}

/// The hits of one token: one for each of its postings, if it matches.
pub open spec fn token_hits(ids: Seq<usize>, term: Option<Term>) -> Seq<Hit> {
    match term {
        Some(term) => Seq::new(ids.len(), |k: int| Hit { position: ids[k], term }),
        None => Seq::empty(),
    }
}

/// All the hits of `fragment`, token by token in the order of the index, and
/// for each token posting by posting.
pub open spec fn hits(
    tokens: Seq<Posting>,
    scores: Seq<Ratio>,
    fragment: Seq<char>,
    completion: bool,
    fuzzy: bool,
) -> Seq<Hit>
    decreases tokens.len(),
{
    if tokens.len() == 0 {
        Seq::empty()
    } else {
        let t = tokens.len() - 1;
        hits(tokens.drop_last(), scores, fragment, completion, fuzzy) + token_hits(
            tokens[t].ids@,
            term_of(tokens[t].token@, scores[t], fragment, completion, fuzzy),
        )
    }
}

/// The terms of the hits at `position`, in order.
pub open spec fn terms_at(hits: Seq<Hit>, position: usize) -> Seq<Term>
    decreases hits.len(),
{
    if hits.len() == 0 {
        Seq::empty()
    } else if hits.last().position == position {
        terms_at(hits.drop_last(), position).push(hits.last().term)
    } else {
        terms_at(hits.drop_last(), position)
    }
}

/// The positions below `n` that have a hit, in ascending order, each with its
/// terms.
pub open spec fn matches_below(hits: Seq<Hit>, n: nat) -> Seq<(usize, Seq<Term>)>
    decreases n,
{
    if n == 0 {
        Seq::empty()
    } else {
        let p = (n - 1) as usize;
        if terms_at(hits, p).len() > 0 {
            matches_below(hits, (n - 1) as nat).push((p, terms_at(hits, p)))
        } else {
            matches_below(hits, (n - 1) as nat)
        }
    }
}

/// The matches below `n` are exactly the positions below `n` that have a
/// term, each once, in ascending order, with their terms.
pub proof fn lemma_matches_below(hits: Seq<Hit>, n: nat)
    requires
        n <= usize::MAX,
    ensures
        forall|i: int|
            0 <= i < matches_below(hits, n).len() ==> {
                let m = #[trigger] matches_below(hits, n)[i];
                m.0 < n && m.1 == terms_at(hits, m.0) && m.1.len() > 0
            },
        forall|i: int, j: int|
            0 <= i < j < matches_below(hits, n).len() ==> (#[trigger] matches_below(hits, n)[i]).0
                < (#[trigger] matches_below(hits, n)[j]).0,
        forall|p: usize|
            p < n && (#[trigger] terms_at(hits, p)).len() > 0 ==> exists|i: int|
                0 <= i < matches_below(hits, n).len() && (#[trigger] matches_below(hits, n)[i]).0
                    == p,
    decreases n,
{
    if n > 0 {
        let below = matches_below(hits, (n - 1) as nat);
        let all = matches_below(hits, n);
        let last = (n - 1) as usize;
        lemma_matches_below(hits, (n - 1) as nat);
        assert forall|p: usize| p < n && (#[trigger] terms_at(hits, p)).len() > 0 implies exists|
            i: int,
        |
            0 <= i < all.len() && (#[trigger] all[i]).0 == p by {
            if p == last {
                assert(all[all.len() - 1].0 == p);
            } else {
                let i = choose|i: int| 0 <= i < below.len() && (#[trigger] below[i]).0 == p;
                assert(all[i] == below[i]);
            }
        }
    }
}

/// What [`by_fragment`] returns: every item with a hit, in input order.
pub open spec fn fragment_matches(
    idx: Index,
    fragment: Seq<char>,
    completion: bool,
    fuzzy: bool,
) -> Seq<(usize, Seq<Term>)> {
    matches_below(hits(idx.tokens@, idx.scores@, fragment, completion, fuzzy), idx.size())
}

/// The positions and terms that a vector of matches holds.
pub open spec fn match_views(found: Seq<Match>) -> Seq<(usize, Seq<Term>)> {
    Seq::new(found.len(), |i: int| (found[i].position, found[i].terms@))
}

/// How often `position` occurs in `ids`.
pub open spec fn postings_at(ids: Seq<usize>, position: usize) -> nat
    decreases ids.len(),
{
    if ids.len() == 0 {
        0
    } else if ids.last() == position {
        postings_at(ids.drop_last(), position) + 1
    } else {
        postings_at(ids.drop_last(), position)
    }
}

/// A matching token gives an item one term for each of its postings of that
/// item: a token that occurs twice in a name counts twice for it.
pub proof fn lemma_term_for_each_posting(ids: Seq<usize>, term: Term, position: usize)
    ensures
        terms_at(token_hits(ids, Some(term)), position) == Seq::new(
            postings_at(ids, position),
            |i: int| term,
        ),
    decreases ids.len(),
{
    let all = token_hits(ids, Some(term));
    if ids.len() > 0 {
        lemma_term_for_each_posting(ids.drop_last(), term, position);
        assert(all.drop_last() =~= token_hits(ids.drop_last(), Some(term)));
    }
}

/// A word is at distance 0 from itself.
pub proof fn lemma_edit_distance_same(a: Seq<char>)
    ensures
        edit_distance(a, a) == 0,
    decreases a.len(),
{
    if a.len() > 0 {
        lemma_edit_distance_same(a.drop_last());
    }
}

/// A token that is farther than [`MAX_DISTANCE`] edits from the fragment does
/// not match it, and none of its postings is a hit, unless it is taken as a
/// completion of the fragment.
pub proof fn lemma_far_token_excluded(
    ids: Seq<usize>,
    token: Seq<char>,
    score: Ratio,
    fragment: Seq<char>,
    completion: bool,
    fuzzy: bool,
)
    requires
        edit_distance(fragment, token) > MAX_DISTANCE,
        !(completion && is_proper_prefix(fragment, token)),
    ensures
        term_of(token, score, fragment, completion, fuzzy) is None,
        token_hits(ids, term_of(token, score, fragment, completion, fuzzy)).len() == 0,
{
    if token == fragment {
        lemma_edit_distance_same(token);
    }
}

/// How `token` matches `fragment`, whose length in characters is `length`.
fn match_of(
    token: &String,
    score: Ratio,
    fragment: &String,
    length: usize,
    completion: bool,
    fuzzy: bool,
) -> (term: Option<Term>)
    requires
        length == fragment@.len(),
    ensures
        term == term_of(token@, score, fragment@, completion, fuzzy),
{
    if *token == *fragment {
        return Some(Term::Exact { score, length });
    }
    if completion {
        let token_length = token.as_str().unicode_len();
        if token_length > length {
            let head = token.as_str().substring_char(0, length).to_owned();
            if head == *fragment {
                return Some(Term::Prefix { score, length, token_length });
            }
        }
    }
    if fuzzy {
        let distance = levenshtein::levenshtein(fragment.as_str(), token.as_str());
        if distance <= MAX_DISTANCE {
            return Some(Term::Fuzzy { score, distance });
        }
    }
    None
}

/// How a token of the given score matches `fragment`, if it does.
pub fn match_token(
    token: &String,
    score: Ratio,
    fragment: &String,
    completion: bool,
    fuzzy: bool,
) -> (term: Option<Term>)
    ensures
        term == term_of(token@, score, fragment@, completion, fuzzy),
{
    match_of(token, score, fragment, fragment.as_str().unicode_len(), completion, fuzzy)
}

/// Scores one fragment of a query against the index: every item in whose name
/// a token matches the fragment, in input order, with one term for each
/// matching occurrence.
pub fn by_fragment(idx: &Index, fragment: String, completion: bool, fuzzy: bool) -> (found: Vec<Match>)
    requires
        idx.wf(),
    ensures
        match_views(found@) == fragment_matches(*idx, fragment@, completion, fuzzy),
        forall|i: int|
            0 <= i < found@.len() ==> (#[trigger] found@[i]).position < idx.size()
                && found@[i].terms@.len() > 0,
        forall|i: int, j: int|
            0 <= i < j < found@.len() ==> (#[trigger] found@[i]).position < (
            #[trigger] found@[j]).position,
{
    let n = idx.weights.len();
    let length = fragment.as_str().unicode_len();
    let mut terms: Vec<Vec<Term>> = Vec::new();
    let mut p: usize = 0;
    while p < n
        invariant
            p <= n,
            terms@.len() == p,
            forall|q: int| 0 <= q < p ==> (#[trigger] terms@[q])@.len() == 0,
        decreases n - p,
    {
        terms.push(Vec::new());
        p += 1;
    }
    let ghost all = hits(idx.tokens@, idx.scores@, fragment@, completion, fuzzy);
    let ghost mut seen: Seq<Hit> = Seq::empty();
    let count = idx.tokens.len();
    let mut t: usize = 0;
    while t < count
        invariant
            idx.wf(),
            n == idx.size(),
            count == idx.tokens@.len(),
            length == fragment@.len(),
            t <= count,
            seen == hits(idx.tokens@.take(t as int), idx.scores@, fragment@, completion, fuzzy),
            terms@.len() == n,
            forall|q: int| 0 <= q < n ==> (#[trigger] terms@[q])@ == terms_at(seen, q as usize),
        decreases count - t,
    {
        let posting = &idx.tokens[t];
        let found = match_of(&posting.token, idx.scores[t], &fragment, length, completion, fuzzy);
        let ghost base = seen;
        let ghost added = token_hits(posting.ids@, found);
        proof {
            assert(idx.tokens@.take(t + 1).drop_last() =~= idx.tokens@.take(t as int));
        }
        match found {
            Some(term) => {
                let ids = &posting.ids;
                let len = ids.len();
                let mut k: usize = 0;
                while k < len
                    invariant
                        idx.wf(),
                        n == idx.size(),
                        t < idx.tokens@.len(),
                        ids@ == idx.tokens@[t as int].ids@,
                        len == ids@.len(),
                        k <= len,
                        added == token_hits(ids@, Some(term)),
                        seen == base + added.take(k as int),
                        terms@.len() == n,
                        forall|q: int|
                            0 <= q < n ==> (#[trigger] terms@[q])@ == terms_at(seen, q as usize),
                    decreases len - k,
                {
                    let position = ids[k];
                    let ghost hit = Hit { position, term };
                    proof {
                        assert(seen.push(hit).drop_last() =~= seen);
                    }
                    terms[position].push(term);
                    proof {
                        seen = seen.push(hit);
                    }
                    k += 1;
                }
            },
            None => {},
        }
        t += 1;
    }
    proof {
        assert(idx.tokens@.take(count as int) =~= idx.tokens@);
    }
    let mut found: Vec<Match> = Vec::new();
    let mut p: usize = 0;
    while p < n
        invariant
            p <= n,
            terms@.len() == n,
            forall|q: int| p <= q < n ==> (#[trigger] terms@[q])@ == terms_at(all, q as usize),
            match_views(found@) == matches_below(all, p as nat),
        decreases n - p,
    {
        if terms[p].len() > 0 {
            let mut list: Vec<Term> = Vec::new();
            core::mem::swap(&mut list, &mut terms[p]);
            found.push(Match { position: p, terms: list });
        }
        p += 1;
    }
    proof {
        lemma_matches_below(all, n as nat);
        assert forall|i: int| 0 <= i < found@.len() implies (#[trigger] found@[i]).position
            == match_views(found@)[i].0 && found@[i].terms@ == match_views(found@)[i].1 by {}
    }
    found
}

} // verus!
