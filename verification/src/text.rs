//! Text normalisation: from free text to the words that are indexed and
//! matched, and the edit distance between two words.
use vstd::prelude::*;

verus! {

/// The normalised form of `text`: what `slugify::slugify` returns for it with
/// no stop words, a single space as separator and no maximum length.
pub uninterp spec fn slug(text: Seq<char>) -> Seq<char>;

/// Calls `slugify::slugify` with no stop words, a single space as separator
/// and no maximum length. That function transliterates the text to ASCII
/// through a table of its own, lowers its case, and replaces each run of
/// characters other than letters and digits by one separator, none at either
/// end. The contract claims only that the result depends on the text alone,
/// by giving it the name [`slug`].
#[verifier::external_body]
fn normalize(text: &str) -> (out: String)
    ensures
        out@ == slug(text@),
{
    slugify::slugify(text, "", " ", None)
}

/// `String::push` appends one character.
pub assume_specification[ String::push ](s: &mut String, ch: char)
    ensures
        final(s)@ == old(s)@.push(ch),
;

/// The least of three numbers.
pub open spec fn min3(a: nat, b: nat, c: nat) -> nat {
    if a <= b && a <= c {
        a
    } else if b <= c {
        b
    } else {
        c
    }
}

/// The Levenshtein distance between `a` and `b`: the least number of
/// insertions, deletions and substitutions of one character that turn `a`
/// into `b`.
pub open spec fn edit_distance(a: Seq<char>, b: Seq<char>) -> nat
    decreases a.len() + b.len(),
{
    if a.len() == 0 {
        b.len()
    } else if b.len() == 0 {
        a.len()
    } else {
        let substitution: nat = if a.last() == b.last() {
            0
        } else {
            1
        };
        min3(
            edit_distance(a.drop_last(), b.drop_last()) + substitution,
            edit_distance(a.drop_last(), b) + 1,
            edit_distance(a, b.drop_last()) + 1,
        )
    }
}

/// `levenshtein::levenshtein` computes the Levenshtein distance between its
/// arguments, character by character, by the usual dynamic programme over one
/// row. The contract claims that its result is [`edit_distance`].
pub assume_specification[ levenshtein::levenshtein ](a: &str, b: &str) -> (d: usize)
    ensures
        d == edit_distance(a@, b@),
;

/// `c` is white space: one of the characters that Unicode gives the property
/// White_Space, which is what `char::is_whitespace` tests.
pub open spec fn is_space(c: char) -> bool {
    let u = c as u32;
    ||| 0x09 <= u <= 0x0d
    ||| u == 0x20
    ||| u == 0x85
    ||| u == 0xa0
    ||| u == 0x1680
    ||| 0x2000 <= u <= 0x200a
    ||| u == 0x2028
    ||| u == 0x2029
    ||| u == 0x202f
    ||| u == 0x205f
    ||| u == 0x3000
}

/// Tests whether `c` is white space.
pub fn is_whitespace(c: char) -> (space: bool)
    ensures
        space == is_space(c),
{
    let u = c as u32;
    (0x09 <= u && u <= 0x0d) || u == 0x20 || u == 0x85 || u == 0xa0 || u == 0x1680 || (0x2000 <= u
        && u <= 0x200a) || u == 0x2028 || u == 0x2029 || u == 0x202f || u == 0x205f || u == 0x3000
}

/// The number of characters of `s` before its first white space.
pub open spec fn word_len(s: Seq<char>) -> nat
    decreases s.len(),
{
    if s.len() == 0 || is_space(s[0]) {
        0
    } else {
        1 + word_len(s.drop_first())
    }
}

/// The words of `s`: its maximal runs of characters other than white space,
/// from left to right.
pub open spec fn split_words(s: Seq<char>) -> Seq<Seq<char>>
    decreases s.len(),
{
    if s.len() == 0 {
        Seq::empty()
    } else if is_space(s[0]) {
        split_words(s.drop_first())
    } else {
        proof {
            lemma_word_len_bounds(s);
        }
        seq![s.take(word_len(s) as int)] + split_words(s.skip(word_len(s) as int))
    }
}

/// The character sequences that a vector of strings holds.
pub open spec fn views(v: Seq<String>) -> Seq<Seq<char>> {
    Seq::new(v.len(), |i: int| v[i]@)
}

/// A word is no longer than the text it starts, and a text that starts with
/// another character than white space starts with a word.
pub proof fn lemma_word_len_bounds(s: Seq<char>)
    ensures
        word_len(s) <= s.len(),
        s.len() > 0 && !is_space(s[0]) ==> word_len(s) > 0,
    decreases s.len(),
{
    if s.len() > 0 && !is_space(s[0]) {
        lemma_word_len_bounds(s.drop_first());
    }
}

/// A run `w` without white space that is followed by white space, or by
/// nothing, is exactly what [`word_len`] measures.
proof fn lemma_word_len_of_run(w: Seq<char>, rest: Seq<char>)
    requires
        forall|i: int| 0 <= i < w.len() ==> !is_space(w[i]),
        rest.len() == 0 || is_space(rest[0]),
    ensures
        word_len(w + rest) == w.len(),
    decreases w.len(),
{
    if w.len() > 0 {
        assert((w + rest).drop_first() =~= w.drop_first() + rest);
        lemma_word_len_of_run(w.drop_first(), rest);
    }
}

/// A non-empty run without white space, followed by white space or by nothing,
/// is the first word; the other words are those of what follows it.
proof fn lemma_split_after_run(w: Seq<char>, rest: Seq<char>)
    requires
        w.len() > 0,
        forall|i: int| 0 <= i < w.len() ==> !is_space(w[i]),
        rest.len() == 0 || is_space(rest[0]),
    ensures
        split_words(w + rest) == seq![w] + split_words(rest),
{
    let s = w + rest;
    lemma_word_len_of_run(w, rest);
    assert(s.take(w.len() as int) =~= w);
    assert(s.skip(w.len() as int) =~= rest);
}

/// Splits `text` at its white space.
pub fn split(text: &str) -> (words: Vec<String>)
    ensures
        views(words@) == split_words(text@),
{
    let mut words: Vec<String> = Vec::new();
    let mut word = String::new();
    proof {
        assert(word@ + text@.skip(0) =~= text@);
    }
    for c in it: text.chars()
        invariant
            it.seq() == text@,
            forall|i: int| 0 <= i < word@.len() ==> !is_space(word@[i]),
            views(words@) + split_words(word@ + text@.skip(it.index())) == split_words(text@),
    {
        let ghost rest = text@.skip(it.index());
        let ghost next = text@.skip(it.index() + 1);
        assert(rest.drop_first() =~= next);
        if is_whitespace(c) {
            if !word.as_str().is_empty() {
                proof {
                    lemma_split_after_run(word@, rest);
                }
                words.push(word);
                word = String::new();
            }
        } else {
            assert(word@.push(c) + next =~= word@ + rest);
            word.push(c);
        }
    }
    if !word.as_str().is_empty() {
        proof {
            lemma_split_after_run(word@, Seq::empty());
        }
        words.push(word);
    }
    words
}

/// The words of the normalised form of `text`.
pub fn tokenize(text: &str) -> (words: Vec<String>)
    ensures
        views(words@) == split_words(slug(text@)),
{
    let normalized = normalize(text);
    split(normalized.as_str())
}

} // verus!
