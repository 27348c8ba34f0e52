//! The inverted index and its construction.
use crate::text::{slug, split_words, tokenize, views};
use vstd::hash_map::StringHashMap;
use vstd::prelude::*;

verus! {

/// A document frequency, kept exact: `count` postings among `total` items.
#[derive(Clone, Copy, Debug, PartialEq, Eq, Structural)]
pub struct Ratio {
    pub count: usize,
    pub total: usize,
}

/// A named, weighted item as the caller supplies it. `weight` is the bit
/// pattern of an IEEE 754 binary64 number; the index stores it and hands it
/// back untouched.
#[derive(Debug)]
pub struct Item {
    pub id: String,
    pub name: String,
    pub weight: u64,
}

/// An item whose name has been split into its tokens.
#[derive(Debug)]
pub struct Document {
    pub id: String,
    pub tokens: Vec<String>,
    pub weight: u64,
}

/// A token and the positions of the items whose names hold it, one entry for
/// each time it occurs.
#[derive(Debug)]
pub struct Posting {
    pub token: String,
    pub ids: Vec<usize>,
}

/// The index over a list of items. Items are known by their position in that
/// list. `tokens` holds each distinct token once, in the order in which the
/// tokens first occurred; `scores` runs parallel to it; `weights`,
/// `nr_of_tokens` and `original_ids` run parallel to the list of items.
#[derive(Debug)]
pub struct Index {
    pub tokens: Vec<Posting>,
    pub scores: Vec<Ratio>,
    pub weights: Vec<u64>,
    pub nr_of_tokens: Vec<usize>,
    pub original_ids: Vec<String>,
}

/// One token of one item's name.
pub struct Occurrence {
    pub token: Seq<char>,
    pub position: usize,
}

/// What a [`Document`] holds.
pub struct DocumentView {
    pub id: Seq<char>,
    pub tokens: Seq<Seq<char>>,
    pub weight: u64,
}

impl View for Document {
    type V = DocumentView;

    open spec fn view(&self) -> DocumentView {
        DocumentView { id: self.id@, tokens: views(self.tokens@), weight: self.weight }
    }
}

/// What a vector of documents holds.
pub open spec fn document_views(docs: Seq<Document>) -> Seq<DocumentView> {
    Seq::new(docs.len(), |i: int| docs[i]@)
}

/// The document of `item`: its name is normalised and split into words.
pub open spec fn document_of(item: Item) -> DocumentView {
    DocumentView { id: item.id@, tokens: split_words(slug(item.name@)), weight: item.weight }
}

/// The documents of `items`, item by item.
pub open spec fn documents(items: Seq<Item>) -> Seq<DocumentView> {
    Seq::new(items.len(), |i: int| document_of(items[i]))
}

/// The tokens of each document.
pub open spec fn token_lists(docs: Seq<DocumentView>) -> Seq<Seq<Seq<char>>> {
    Seq::new(docs.len(), |i: int| docs[i].tokens)
}

/// The tokens `words` as occurrences in the item at `position`.
pub open spec fn tagged(words: Seq<Seq<char>>, position: usize) -> Seq<Occurrence> {
    Seq::new(words.len(), |j: int| Occurrence { token: words[j], position })
}

/// Every occurrence of a token in `docs`, in reading order: item by item, and
/// within an item from left to right.
pub open spec fn occurrences(docs: Seq<Seq<Seq<char>>>) -> Seq<Occurrence>
    decreases docs.len(),
{
    if docs.len() == 0 {
        Seq::empty()
    } else {
        occurrences(docs.drop_last()) + tagged(docs.last(), (docs.len() - 1) as usize)
    }
}

/// The positions at which `token` occurs in `stream`, in order, once for each
/// occurrence.
pub open spec fn postings_of(stream: Seq<Occurrence>, token: Seq<char>) -> Seq<usize>
    decreases stream.len(),
{
    if stream.len() == 0 {
        Seq::empty()
    } else if stream.last().token == token {
        postings_of(stream.drop_last(), token).push(stream.last().position)
    } else {
        postings_of(stream.drop_last(), token)
    }
}

/// The distinct tokens of `stream`, in the order in which they first occur.
pub open spec fn vocabulary(stream: Seq<Occurrence>) -> Seq<Seq<char>>
    decreases stream.len(),
{
    if stream.len() == 0 {
        Seq::empty()
    } else if vocabulary(stream.drop_last()).contains(stream.last().token) {
        vocabulary(stream.drop_last())
    } else {
        vocabulary(stream.drop_last()).push(stream.last().token)
    }
}

/// `tokens` is the inverted form of `stream`: one posting for each distinct
/// token, in order of first occurrence, with all the positions of that token.
pub open spec fn inverts(tokens: Seq<Posting>, stream: Seq<Occurrence>) -> bool {
    &&& tokens.len() == vocabulary(stream).len()
    &&& forall|t: int|
        0 <= t < tokens.len() ==> (#[trigger] tokens[t]).token@ == vocabulary(stream)[t]
            && tokens[t].ids@ == postings_of(stream, vocabulary(stream)[t])
}

impl Index {
    /// The number of items indexed.
    pub open spec fn size(&self) -> nat {
        self.weights@.len()
    }

    /// The consistency that every query relies on: the three per-item tables
    /// have one length, each token has one score, no token is listed twice,
    /// and every posting names an item.
    pub open spec fn wf(&self) -> bool {
        &&& self.nr_of_tokens@.len() == self.size()
        &&& self.original_ids@.len() == self.size()
        &&& self.scores@.len() == self.tokens@.len()
        &&& forall|s: int, t: int|
            0 <= s < t < self.tokens@.len() ==> (#[trigger] self.tokens@[s]).token@ != (
            #[trigger] self.tokens@[t]).token@
        &&& forall|t: int, k: int|
            0 <= t < self.tokens@.len() && 0 <= k < self.tokens@[t].ids@.len()
                ==> #[trigger] self.tokens@[t].ids@[k] < self.size()
    }

    /// `self` is the index of `docs`. Its per-item tables hold the weight,
    /// the number of tokens and the id of each document, in the order of the
    /// documents; its postings are the inverted form of their tokens; and the
    /// score of a token is the length of its posting list over the number of
    /// documents.
    pub open spec fn indexes(&self, docs: Seq<DocumentView>) -> bool {
        &&& self.size() == docs.len()
        &&& self.nr_of_tokens@.len() == docs.len()
        &&& self.original_ids@.len() == docs.len()
        &&& forall|i: int| 0 <= i < docs.len() ==> #[trigger] self.weights@[i] == docs[i].weight
        &&& forall|i: int|
            0 <= i < docs.len() ==> #[trigger] self.nr_of_tokens@[i] == docs[i].tokens.len()
        &&& forall|i: int| 0 <= i < docs.len() ==> (#[trigger] self.original_ids@[i])@ == docs[i].id
        &&& inverts(self.tokens@, occurrences(token_lists(docs)))
        &&& self.scores@.len() == self.tokens@.len()
        &&& forall|t: int|
            0 <= t < self.tokens@.len() ==> (#[trigger] self.scores@[t]).count
                == self.tokens@[t].ids@.len() && self.scores@[t].total == docs.len()
    }
}

/// A token is in the vocabulary exactly if it occurs.
pub proof fn lemma_vocabulary_contains(stream: Seq<Occurrence>, token: Seq<char>)
    ensures
        vocabulary(stream).contains(token) <==> exists|k: int|
            0 <= k < stream.len() && (#[trigger] stream[k]).token == token,
    decreases stream.len(),
{
    if stream.len() > 0 {
        let init = stream.drop_last();
        lemma_vocabulary_contains(init, token);
        let v = vocabulary(init);
        if exists|k: int| 0 <= k < stream.len() && (#[trigger] stream[k]).token == token {
            let k = choose|k: int| 0 <= k < stream.len() && (#[trigger] stream[k]).token == token;
            if k < init.len() {
                assert(init[k].token == token);
                if !v.contains(stream.last().token) {
                    let j = choose|j: int| 0 <= j < v.len() && v[j] == token;
                    assert(v.push(stream.last().token)[j] == token);
                }
            } else {
                if !v.contains(stream.last().token) {
                    assert(v.push(token)[v.len() as int] == token);
                }
            }
        }
    }
}

/// No token is in the vocabulary twice.
pub proof fn lemma_vocabulary_distinct(stream: Seq<Occurrence>)
    ensures
        forall|s: int, t: int|
            0 <= s < t < vocabulary(stream).len() ==> vocabulary(stream)[s] != vocabulary(
                stream,
            )[t],
    decreases stream.len(),
{
    if stream.len() > 0 {
        lemma_vocabulary_distinct(stream.drop_last());
        assert(!vocabulary(stream.drop_last()).contains(stream.last().token) ==> vocabulary(stream)
            == vocabulary(stream.drop_last()).push(stream.last().token));
    }
}

/// Every posting is the position of an occurrence.
pub proof fn lemma_postings_are_positions(stream: Seq<Occurrence>, token: Seq<char>, k: int)
    requires
        0 <= k < postings_of(stream, token).len(),
    ensures
        exists|j: int|
            0 <= j < stream.len() && (#[trigger] stream[j]).token == token && stream[j].position
                == postings_of(stream, token)[k],
    decreases stream.len(),
{
    let init = stream.drop_last();
    if stream.last().token != token || k < postings_of(init, token).len() {
        lemma_postings_are_positions(init, token, k);
    }
}

/// A token that is not in the vocabulary has no posting.
pub proof fn lemma_postings_of_absent(stream: Seq<Occurrence>, token: Seq<char>)
    requires
        !vocabulary(stream).contains(token),
    ensures
        postings_of(stream, token).len() == 0,
    decreases stream.len(),
{
    if stream.len() > 0 {
        let init = stream.drop_last();
        lemma_vocabulary_contains(stream, token);
        lemma_vocabulary_contains(init, token);
        lemma_postings_of_absent(init, token);
    }
}

/// `slots` finds each listed token's place in `tokens`, and nothing else.
spec fn locates(slots: Map<Seq<char>, usize>, tokens: Seq<Posting>) -> bool {
    &&& forall|t: int|
        0 <= t < tokens.len() ==> slots.contains_key((#[trigger] tokens[t]).token@)
            && slots[tokens[t].token@] == t
    &&& forall|w: Seq<char>| #[trigger]
        slots.contains_key(w) ==> slots[w] < tokens.len() && tokens[slots[w] as int].token@ == w
}

/// Adds one occurrence of `word`, in the item at `position`, to the postings.
fn record(
    tokens: &mut Vec<Posting>,
    slots: &mut StringHashMap<usize>,
    word: String,
    position: usize,
    Ghost(stream): Ghost<Seq<Occurrence>>,
)
    requires
        inverts(old(tokens)@, stream),
        locates(old(slots)@, old(tokens)@),
    ensures
        inverts(final(tokens)@, stream.push(Occurrence { token: word@, position })),
        locates(final(slots)@, final(tokens)@),
{
    let ghost next = stream.push(Occurrence { token: word@, position });
    let ghost before = tokens@;
    proof {
        assert(next.drop_last() =~= stream);
    }
    let found = match slots.get(word.as_str()) {
        Some(slot) => Some(*slot),
        None => None,
    };
    match found {
        Some(t) => {
            tokens[t].ids.push(position);
        },
        None => {
            proof {
                if vocabulary(stream).contains(word@) {
                    let j = choose|j: int|
                        0 <= j < vocabulary(stream).len() && vocabulary(stream)[j] == word@;
                    assert(before[j].token@ == word@);
                }
                lemma_postings_of_absent(stream, word@);
            }
            let t = tokens.len();
            slots.insert(word.clone(), t);
            let mut ids: Vec<usize> = Vec::new();
            ids.push(position);
            tokens.push(Posting { token: word, ids });
            assert(tokens@[t as int].ids@ =~= postings_of(next, word@));
        },
    }
}

/// Every occurrence lies in one of the documents.
pub proof fn lemma_occurrence_positions(docs: Seq<Seq<Seq<char>>>)
    requires
        docs.len() <= usize::MAX,
    ensures
        forall|k: int|
            0 <= k < occurrences(docs).len() ==> (#[trigger] occurrences(docs)[k]).position
                < docs.len(),
    decreases docs.len(),
{
    if docs.len() > 0 {
        lemma_occurrence_positions(docs.drop_last());
        assert(occurrences(docs).len() >= occurrences(docs.drop_last()).len());
    }
}

/// Builds the index of `docs`. Each document takes the next position, from 0,
/// and each of its tokens' posting lists receives the position once for each
/// time the token occurs in the document. A token's score is the length of its
/// posting list over the number of documents.
pub fn index_documents(docs: Vec<Document>) -> (idx: Index)
    ensures
        idx.indexes(document_views(docs@)),
        idx.wf(),
{
    let n = docs.len();
    let ghost lists = token_lists(document_views(docs@));
    let mut tokens: Vec<Posting> = Vec::new();
    let mut slots: StringHashMap<usize> = StringHashMap::new();
    let mut weights: Vec<u64> = Vec::new();
    let mut nr_of_tokens: Vec<usize> = Vec::new();
    let mut original_ids: Vec<String> = Vec::new();
    let ghost mut stream: Seq<Occurrence> = Seq::empty();
    let mut position: usize = 0;
    while position < n
        invariant
            n == docs@.len(),
            lists == token_lists(document_views(docs@)),
            position <= n,
            stream == occurrences(lists.take(position as int)),
            inverts(tokens@, stream),
            locates(slots@, tokens@),
            weights@.len() == position,
            nr_of_tokens@.len() == position,
            original_ids@.len() == position,
            forall|i: int| 0 <= i < position ==> #[trigger] weights@[i] == docs@[i].weight,
            forall|i: int| 0 <= i < position ==> #[trigger] nr_of_tokens@[i] == lists[i].len(),
            forall|i: int| 0 <= i < position ==> (#[trigger] original_ids@[i])@ == docs@[i].id@,
        decreases n - position,
    {
        let doc = &docs[position];
        let words = &doc.tokens;
        let nr = words.len();
        let ghost base = stream;
        let mut j: usize = 0;
        while j < nr
            invariant
                nr == words@.len(),
                j <= nr,
                stream == base + tagged(views(words@), position).take(j as int),
                inverts(tokens@, stream),
                locates(slots@, tokens@),
            decreases nr - j,
        {
            let word = words[j].clone();
            record(&mut tokens, &mut slots, word, position, Ghost(stream));
            proof {
                stream = stream.push(Occurrence { token: words@[j as int]@, position });
            }
            j += 1;
        }
        weights.push(doc.weight);
        nr_of_tokens.push(nr);
        original_ids.push(doc.id.clone());
        proof {
            assert(lists.take(position + 1).drop_last() =~= lists.take(position as int));
        }
        position += 1;
    }
    let mut scores: Vec<Ratio> = Vec::new();
    let count = tokens.len();
    let mut t: usize = 0;
    while t < count
        invariant
            count == tokens@.len(),
            t <= count,
            scores@.len() == t,
            forall|u: int|
                0 <= u < t ==> (#[trigger] scores@[u]).count == tokens@[u].ids@.len()
                    && scores@[u].total == n,
        decreases count - t,
    {
        scores.push(Ratio { count: tokens[t].ids.len(), total: n });
        t += 1;
    }
    proof {
        assert(lists.take(n as int) =~= lists);
        lemma_occurrence_positions(lists);
        assert forall|t: int, k: int|
            0 <= t < tokens@.len() && 0 <= k < tokens@[t].ids@.len() implies #[trigger] tokens@[t].ids@[k]
            < n by {
            lemma_postings_are_positions(stream, vocabulary(stream)[t], k);
        }
    }
    Index { tokens, scores, weights, nr_of_tokens, original_ids }
}

/// Builds the index of `items`: each item's name is normalised and split into
/// tokens, and the documents that this gives are indexed in the order of the
/// items.
pub fn build_index(items: Vec<Item>) -> (idx: Index)
    ensures
        idx.indexes(documents(items@)),
        idx.wf(),
{
    let n = items.len();
    let mut docs: Vec<Document> = Vec::new();
    let mut i: usize = 0;
    while i < n
        invariant
            n == items@.len(),
            i <= n,
            docs@.len() == i,
            forall|j: int| 0 <= j < i ==> (#[trigger] docs@[j])@ == document_of(items@[j]),
        decreases n - i,
    {
        let item = &items[i];
        let tokens = tokenize(item.name.as_str());
        docs.push(Document { id: item.id.clone(), tokens, weight: item.weight });
        i += 1;
    }
    proof {
        assert(document_views(docs@) =~= documents(items@));
    }
    index_documents(docs)
}

/// How often `token` occurs in `stream`.
pub open spec fn times(stream: Seq<Occurrence>, token: Seq<char>) -> nat
    decreases stream.len(),
{
    if stream.len() == 0 {
        0
    } else if stream.last().token == token {
        times(stream.drop_last(), token) + 1
    } else {
        times(stream.drop_last(), token)
    }
}

/// A token has one posting for each time it occurs.
pub proof fn lemma_postings_count(stream: Seq<Occurrence>, token: Seq<char>)
    ensures
        postings_of(stream, token).len() == times(stream, token),
    decreases stream.len(),
{
    if stream.len() > 0 {
        lemma_postings_count(stream.drop_last(), token);
    }
}

/// A token occurs at least once exactly if it is in the vocabulary.
pub proof fn lemma_times_positive(stream: Seq<Occurrence>, token: Seq<char>)
    ensures
        times(stream, token) > 0 <==> vocabulary(stream).contains(token),
    decreases stream.len(),
{
    if stream.len() > 0 {
        let init = stream.drop_last();
        lemma_times_positive(init, token);
        lemma_vocabulary_contains(stream, token);
        lemma_vocabulary_contains(init, token);
    }
}

/// In the index of `docs`, a token that occurs `k` times in them, each
/// occurrence counted, is listed, has a posting list of length `k` and the
/// score `k` over the number of documents. A token that does not occur is not
/// listed.
pub proof fn lemma_token_frequency(idx: Index, docs: Seq<DocumentView>, token: Seq<char>)
    requires
        idx.indexes(docs),
    ensures
        ({
            let k = times(occurrences(token_lists(docs)), token);
            &&& k > 0 ==> exists|t: int|
                0 <= t < idx.tokens@.len() && (#[trigger] idx.tokens@[t]).token@ == token
            &&& forall|t: int|
                0 <= t < idx.tokens@.len() && (#[trigger] idx.tokens@[t]).token@ == token ==> {
                    &&& idx.tokens@[t].ids@.len() == k
                    &&& idx.scores@[t].count == k
                    &&& idx.scores@[t].total == docs.len()
                    &&& k > 0
                }
        }),
{
    let stream = occurrences(token_lists(docs));
    let k = times(stream, token);
    lemma_times_positive(stream, token);
    lemma_postings_count(stream, token);
    if k > 0 {
        let t = choose|t: int| 0 <= t < vocabulary(stream).len() && vocabulary(stream)[t] == token;
        assert(idx.tokens@[t].token@ == token);
    }
}

impl Index {
    /// Tests the consistency that [`Index::wf`] states.
    pub fn is_valid(&self) -> (ok: bool)
        ensures
            ok == self.wf(),
    {
        let n = self.weights.len();
        if self.nr_of_tokens.len() != n || self.original_ids.len() != n || self.scores.len()
            != self.tokens.len() {
            return false;
        }
        let count = self.tokens.len();
        let mut seen: StringHashMap<usize> = StringHashMap::new();
        let mut t: usize = 0;
        while t < count
            invariant
                n == self.size(),
                count == self.tokens@.len(),
                t <= count,
                forall|u: int| 0 <= u < t ==> seen@.contains_key((#[trigger] self.tokens@[u]).token@),
                forall|w: Seq<char>| #[trigger]
                    seen@.contains_key(w) ==> seen@[w] < t && self.tokens@[seen@[w] as int].token@
                        == w,
                forall|a: int, b: int|
                    0 <= a < b < t ==> (#[trigger] self.tokens@[a]).token@ != (
                    #[trigger] self.tokens@[b]).token@,
                forall|u: int, k: int|
                    0 <= u < t && 0 <= k < self.tokens@[u].ids@.len()
                        ==> #[trigger] self.tokens@[u].ids@[k] < n,
            decreases count - t,
        {
            let posting = &self.tokens[t];
            if seen.contains_key(posting.token.as_str()) {
                return false;
            }
            let len = posting.ids.len();
            let mut k: usize = 0;
            while k < len
                invariant
                    n == self.size(),
                    t < self.tokens@.len(),
                    *posting == self.tokens@[t as int],
                    len == posting.ids@.len(),
                    k <= len,
                    forall|j: int| 0 <= j < k ==> #[trigger] posting.ids@[j] < n,
                decreases len - k,
            {
                if posting.ids[k] >= n {
                    return false;
                }
                k += 1;
            }
            seen.insert(posting.token.clone(), t);
            t += 1;
        }
        true
    }
}

} // verus!
