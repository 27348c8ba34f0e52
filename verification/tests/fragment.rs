use levenshtein::levenshtein;
use synchronous_autocomplete::{
    by_fragment, match_token, Index, Match, Posting, Ratio, Term, MAX_DISTANCE,
};

fn posting(token: &str, ids: Vec<usize>) -> Posting {
    Posting { token: String::from(token), ids }
}

fn sample_index() -> Index {
    Index {
        tokens: vec![
            posting("one", vec![0]),
            posting("two", vec![1]),
            posting("three", vec![1]),
            posting("four", vec![0, 1]),
        ],
        scores: vec![
            Ratio { count: 1, total: 2 },
            Ratio { count: 1, total: 2 },
            Ratio { count: 1, total: 2 },
            Ratio { count: 2, total: 2 },
        ],
        weights: vec![10.0f64.to_bits(), 20.0f64.to_bits()],
        nr_of_tokens: vec![2, 3],
        original_ids: vec![String::from("A"), String::from("B")],
    }
}

fn ratio(score: Ratio) -> f64 {
    score.count as f64 / score.total as f64
}

fn value(term: &Term) -> f64 {
    match *term {
        Term::Exact { score, length } => 1.0 + ratio(score) + (length as f64).sqrt(),
        Term::Prefix { score, length, token_length } => {
            1.0 + ratio(score) + length as f64 / token_length as f64
        }
        Term::Fuzzy { score, distance } => (1.0 + ratio(score)) / (1.0 + distance as f64),
    }
}

fn relevance(found: &[Match], position: usize) -> Option<f64> {
    found.iter().find(|m| m.position == position).map(|m| {
        let mut total = 0.0;
        for term in &m.terms {
            total += value(term);
        }
        total
    })
}

#[test]
fn with_fragment_exact() {
    let idx = sample_index();
    let res = by_fragment(&idx, String::from("four"), false, false);

    assert_eq!(res.len(), 2);
    assert_eq!(relevance(&res, 0).expect(""), 1.0 + 1.0 + 2.0);
    assert_eq!(relevance(&res, 1).expect(""), 1.0 + 1.0 + 2.0);
}

#[test]
fn with_fragment_completion() {
    let idx = sample_index();
    let res = by_fragment(&idx, String::from("fou"), true, false);

    assert_eq!(res.len(), 2);
    let a = relevance(&res, 0).expect("missing result for A");
    assert_eq!(a, 1.0 + 1.0 + 3.0 / 4.0);
    let b = relevance(&res, 1).expect("missing result for B");
    assert_eq!(b, 1.0 + 1.0 + 3.0 / 4.0);
}

#[test]
fn with_fragment_fuzzy() {
    let idx = sample_index();
    let res = by_fragment(&idx, String::from("there"), false, true);

    assert_eq!(res.len(), 1);
    let b = relevance(&res, 1).expect("missing result for B");
    assert_eq!(b, (1.0 + 0.5) / (1.0 + levenshtein("there", "three") as f64));
}

#[test]
fn exact_match_gives_one_term_for_each_posting() {
    let idx = sample_index();
    let res = by_fragment(&idx, String::from("four"), false, false);
    let exact = Term::Exact { score: Ratio { count: 2, total: 2 }, length: 4 };
    assert_eq!(res[0].position, 0);
    assert_eq!(res[0].terms, vec![exact]);
    assert_eq!(res[1].position, 1);
    assert_eq!(res[1].terms, vec![exact]);
    assert_eq!(value(&exact), 4.0);
}

#[test]
fn completion_gives_prefix_terms() {
    let idx = sample_index();
    let res = by_fragment(&idx, String::from("fou"), true, false);
    let prefix = Term::Prefix { score: Ratio { count: 2, total: 2 }, length: 3, token_length: 4 };
    assert_eq!(res.len(), 2);
    assert_eq!(res[0].terms, vec![prefix]);
    assert_eq!(res[1].terms, vec![prefix]);
    assert_eq!(value(&prefix), 2.75);
}

#[test]
fn fuzzy_gives_the_distance_and_leaves_far_tokens_out() {
    let idx = sample_index();
    let res = by_fragment(&idx, String::from("there"), false, true);
    assert_eq!(levenshtein("there", "three"), 2);
    assert!(levenshtein("there", "one") > MAX_DISTANCE);
    assert!(levenshtein("there", "two") > MAX_DISTANCE);
    assert!(levenshtein("there", "four") > MAX_DISTANCE);
    let fuzzy = Term::Fuzzy { score: Ratio { count: 1, total: 2 }, distance: 2 };
    assert_eq!(res.len(), 1);
    assert_eq!(res[0].position, 1);
    assert_eq!(res[0].terms, vec![fuzzy]);
    assert_eq!(value(&fuzzy), 0.5);
}

#[test]
fn without_flags_only_the_fragment_itself_matches() {
    let idx = sample_index();
    assert!(by_fragment(&idx, String::from("fou"), false, false).is_empty());
    assert!(by_fragment(&idx, String::from("there"), false, false).is_empty());
    assert!(by_fragment(&idx, String::from("fourth"), true, true).is_empty() == false);
}

#[test]
fn a_completion_is_not_scored_by_distance_as_well() {
    let score = Ratio { count: 1, total: 2 };
    let token = String::from("three");
    let fragment = String::from("thre");
    assert_eq!(
        match_token(&token, score, &fragment, true, true),
        Some(Term::Prefix { score, length: 4, token_length: 5 })
    );
    assert_eq!(
        match_token(&token, score, &fragment, false, true),
        Some(Term::Fuzzy { score, distance: 1 })
    );
    assert_eq!(match_token(&token, score, &fragment, true, false).is_some(), true);
    assert_eq!(match_token(&token, score, &fragment, false, false), None);
}

#[test]
fn a_token_is_no_completion_of_a_longer_or_equal_fragment() {
    let score = Ratio { count: 1, total: 1 };
    let token = String::from("two");
    assert_eq!(match_token(&token, score, &String::from("twos"), true, false), None);
    assert_eq!(
        match_token(&token, score, &String::from("two"), true, true),
        Some(Term::Exact { score, length: 3 })
    );
    assert_eq!(match_token(&token, score, &String::from("tw"), false, false), None);
}

#[test]
fn distance_three_matches_and_distance_four_does_not() {
    let score = Ratio { count: 1, total: 1 };
    let token = String::from("abcdefgh");
    assert_eq!(levenshtein("abcde", "abcdefgh"), 3);
    assert_eq!(
        match_token(&token, score, &String::from("abcde"), false, true),
        Some(Term::Fuzzy { score, distance: 3 })
    );
    assert_eq!(levenshtein("abcd", "abcdefgh"), 4);
    assert_eq!(match_token(&token, score, &String::from("abcd"), false, true), None);
}

#[test]
fn lengths_count_characters() {
    let score = Ratio { count: 1, total: 1 };
    let token = String::from("über");
    assert_eq!(
        match_token(&token, score, &String::from("üb"), true, false),
        Some(Term::Prefix { score, length: 2, token_length: 4 })
    );
    assert_eq!(
        match_token(&token, score, &String::from("uber"), false, true),
        Some(Term::Fuzzy { score, distance: 1 })
    );
}

#[test]
fn terms_of_several_tokens_add_up_in_the_order_of_the_index() {
    let idx = Index {
        tokens: vec![posting("bar", vec![0]), posting("baz", vec![0, 1]), posting("ba", vec![1])],
        scores: vec![
            Ratio { count: 1, total: 2 },
            Ratio { count: 2, total: 2 },
            Ratio { count: 1, total: 2 },
        ],
        weights: vec![0, 0],
        nr_of_tokens: vec![2, 2],
        original_ids: vec![String::from("A"), String::from("B")],
    };
    let res = by_fragment(&idx, String::from("ba"), true, false);
    let bar = Term::Prefix { score: Ratio { count: 1, total: 2 }, length: 2, token_length: 3 };
    let baz = Term::Prefix { score: Ratio { count: 2, total: 2 }, length: 2, token_length: 3 };
    let ba = Term::Exact { score: Ratio { count: 1, total: 2 }, length: 2 };
    assert_eq!(res.len(), 2);
    assert_eq!(res[0].position, 0);
    assert_eq!(res[0].terms, vec![bar, baz]);
    assert_eq!(res[1].position, 1);
    assert_eq!(res[1].terms, vec![baz, ba]);
}

#[test]
fn the_empty_fragment_completes_to_every_token() {
    let idx = sample_index();
    let res = by_fragment(&idx, String::new(), true, false);
    assert_eq!(res.len(), 2);
    assert_eq!(res[0].terms.len(), 2);
    assert_eq!(res[1].terms.len(), 3);
    assert!(by_fragment(&idx, String::new(), false, false).is_empty());
}
