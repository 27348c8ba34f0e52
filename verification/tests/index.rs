use synchronous_autocomplete::{
    build_index, index_documents, Document, Index, Item, Posting, Ratio,
};

fn posting(token: &str, ids: Vec<usize>) -> Posting {
    Posting { token: String::from(token), ids }
}

fn sample_index() -> Index {
    Index {
        tokens: vec![
            posting("one", vec![0]),
            posting("four", vec![0, 1]),
            posting("two", vec![1]),
            posting("three", vec![1]),
        ],
        scores: vec![
            Ratio { count: 1, total: 2 },
            Ratio { count: 2, total: 2 },
            Ratio { count: 1, total: 2 },
            Ratio { count: 1, total: 2 },
        ],
        weights: vec![10.0f64.to_bits(), 20.0f64.to_bits()],
        nr_of_tokens: vec![2, 3],
        original_ids: vec![String::from("A"), String::from("B")],
    }
}

fn sample_items() -> Vec<Item> {
    vec![
        Item { id: String::from("A"), name: String::from("One fOUr!"), weight: 10.0f64.to_bits() },
        Item {
            id: String::from("B"),
            name: String::from("two THREE four?"),
            weight: 20.0f64.to_bits(),
        },
    ]
}

fn slot(idx: &Index, token: &str) -> Option<usize> {
    idx.tokens.iter().position(|p| p.token == token)
}

fn ids<'a>(idx: &'a Index, token: &str) -> Option<&'a Vec<usize>> {
    slot(idx, token).map(|t| &idx.tokens[t].ids)
}

fn score(idx: &Index, token: &str) -> Option<f64> {
    slot(idx, token).map(|t| idx.scores[t].count as f64 / idx.scores[t].total as f64)
}

#[test]
fn build_index_works() {
    let items = vec![
        Item { id: String::from("A"), name: String::from("One fOUr!"), weight: 10.0f64.to_bits() },
        Item {
            id: String::from("B"),
            name: String::from("two THREE four?"),
            weight: 20.0f64.to_bits(),
        },
    ];
    let exp = sample_index();
    let act = build_index(items);

    assert_eq!(act.tokens.len(), exp.tokens.len());
    for expected in &exp.tokens {
        let act_ids = ids(&act, &expected.token).expect("");
        let exp_ids = &expected.ids;
        for i in 0..(exp_ids.len() - 1) {
            assert_eq!(act_ids.get(i), exp_ids.get(i));
        }
    }

    assert_eq!(act.scores.len(), exp.scores.len());
    for expected in &exp.tokens {
        let act_score = score(&act, &expected.token).expect("");
        let exp_score = score(&exp, &expected.token).expect("");
        assert_eq!(act_score, exp_score);
    }

    assert_eq!(act.weights.len(), exp.weights.len());
    for i in 0..(exp.weights.len() - 1) {
        let act_weight = act.weights.get(i).expect("");
        let exp_weight = exp.weights.get(i).expect("");
        assert_eq!(f64::from_bits(*act_weight), f64::from_bits(*exp_weight));
    }

    assert_eq!(act.nr_of_tokens.len(), exp.nr_of_tokens.len());
    for i in 0..(exp.nr_of_tokens.len() - 1) {
        let act_nr = act.nr_of_tokens.get(i).expect("");
        let exp_nr = exp.nr_of_tokens.get(i).expect("");
        assert_eq!(act_nr, exp_nr);
    }

    assert_eq!(act.original_ids.len(), exp.original_ids.len());
    for i in 0..(exp.original_ids.len() - 1) {
        let act_id = act.original_ids.get(i).expect("");
        let exp_id = exp.original_ids.get(i).expect("");
        assert_eq!(act_id, exp_id);
    }
}

#[test]
fn build_index_handles_duplicate_tokens() {
    let items = vec![
        Item {
            id: String::from("A"),
            name: String::from("foo bar foo"),
            weight: 10.0f64.to_bits(),
        },
        Item { id: String::from("B"), name: String::from("foo baz"), weight: 20.0f64.to_bits() },
    ];
    let idx = build_index(items);

    let foo = ids(&idx, "foo").expect("missing foo IDs");
    assert_eq!(foo.len(), 3);
    assert_eq!(*foo.get(0).expect("missing foo[0]"), 0);
    assert_eq!(*foo.get(1).expect("missing foo[1]"), 0);
    assert_eq!(*foo.get(2).expect("missing foo[2]"), 1);

    let nrs = idx.nr_of_tokens;
    assert_eq!(nrs.len(), 2);
    assert_eq!(*nrs.get(0).expect("missing idx.nr_of_tokens[0]"), 3);
    assert_eq!(*nrs.get(1).expect("missing idx.nr_of_tokens[1]"), 2);
}

#[test]
fn build_index_yields_the_sample_index_exactly() {
    let act = build_index(sample_items());
    let exp = sample_index();
    assert_eq!(act.tokens.len(), 4);
    for (a, e) in act.tokens.iter().zip(exp.tokens.iter()) {
        assert_eq!(a.token, e.token);
        assert_eq!(a.ids, e.ids);
    }
    assert_eq!(act.scores, exp.scores);
    assert_eq!(act.weights, exp.weights);
    assert_eq!(act.nr_of_tokens, vec![2, 3]);
    assert_eq!(act.original_ids, exp.original_ids);
    assert_eq!(score(&act, "one"), Some(0.5));
    assert_eq!(score(&act, "two"), Some(0.5));
    assert_eq!(score(&act, "three"), Some(0.5));
    assert_eq!(score(&act, "four"), Some(1.0));
}

#[test]
fn tables_have_one_entry_for_each_item_in_input_order() {
    let items: Vec<Item> = (0..7u64)
        .map(|i| Item {
            id: format!("id-{}", i),
            name: format!("name {} shared", i),
            weight: (i as f64 * 1.5).to_bits(),
        })
        .collect();
    let idx = build_index(items);
    assert_eq!(idx.weights.len(), 7);
    assert_eq!(idx.nr_of_tokens.len(), 7);
    assert_eq!(idx.original_ids.len(), 7);
    for i in 0..7usize {
        assert_eq!(f64::from_bits(idx.weights[i]), i as f64 * 1.5);
        assert_eq!(idx.nr_of_tokens[i], 3);
        assert_eq!(idx.original_ids[i], format!("id-{}", i));
    }
    assert!(idx.is_valid());
}

#[test]
fn a_token_occurring_k_times_has_k_postings_and_score_k_over_n() {
    let names = ["red red red", "blue red", "green", "red blue blue"];
    let items: Vec<Item> = names
        .iter()
        .map(|n| Item { id: String::from(*n), name: String::from(*n), weight: 1.0f64.to_bits() })
        .collect();
    let idx = build_index(items);
    assert_eq!(ids(&idx, "red"), Some(&vec![0, 0, 0, 1, 3]));
    assert_eq!(ids(&idx, "blue"), Some(&vec![1, 3, 3]));
    assert_eq!(ids(&idx, "green"), Some(&vec![2]));
    assert_eq!(ids(&idx, "yellow"), None);
    let red = slot(&idx, "red").unwrap();
    assert_eq!(idx.scores[red], Ratio { count: 5, total: 4 });
    let blue = slot(&idx, "blue").unwrap();
    assert_eq!(idx.scores[blue], Ratio { count: 3, total: 4 });
    assert_eq!(score(&idx, "green"), Some(0.25));
    let listed: Vec<&str> = idx.tokens.iter().map(|p| p.token.as_str()).collect();
    assert_eq!(listed, vec!["red", "blue", "green"]);
}

#[test]
fn no_items_give_an_empty_index() {
    let idx = build_index(vec![]);
    assert!(idx.tokens.is_empty());
    assert!(idx.scores.is_empty());
    assert!(idx.weights.is_empty());
    assert!(idx.nr_of_tokens.is_empty());
    assert!(idx.original_ids.is_empty());
    assert!(idx.is_valid());
}

#[test]
fn a_name_without_tokens_still_takes_a_position() {
    let items = vec![
        Item { id: String::from("x"), name: String::from("?!"), weight: 3.0f64.to_bits() },
        Item { id: String::from("y"), name: String::from(""), weight: 4.0f64.to_bits() },
        Item { id: String::from("x"), name: String::from("word"), weight: 5.0f64.to_bits() },
    ];
    let idx = build_index(items);
    assert_eq!(idx.nr_of_tokens, vec![0, 0, 1]);
    assert_eq!(idx.original_ids, vec!["x", "y", "x"]);
    assert_eq!(ids(&idx, "word"), Some(&vec![2]));
    assert_eq!(idx.tokens.len(), 1);
    assert_eq!(idx.scores, vec![Ratio { count: 1, total: 3 }]);
}

#[test]
fn is_valid_accepts_the_sample_index() {
    assert!(sample_index().is_valid());
}

#[test]
fn is_valid_rejects_tables_of_different_lengths() {
    let mut idx = sample_index();
    idx.nr_of_tokens.pop();
    assert!(!idx.is_valid());
    let mut idx = sample_index();
    idx.original_ids.push(String::from("C"));
    assert!(!idx.is_valid());
    let mut idx = sample_index();
    idx.scores.pop();
    assert!(!idx.is_valid());
}

#[test]
fn is_valid_rejects_a_token_listed_twice() {
    let mut idx = sample_index();
    idx.tokens.push(posting("one", vec![1]));
    idx.scores.push(Ratio { count: 1, total: 2 });
    assert!(!idx.is_valid());
}

#[test]
fn is_valid_rejects_a_posting_that_names_no_item() {
    let mut idx = sample_index();
    idx.tokens[2].ids.push(2);
    assert!(!idx.is_valid());
}

fn document(id: &str, tokens: &[&str], weight: f64) -> Document {
    Document {
        id: String::from(id),
        tokens: tokens.iter().map(|t| String::from(*t)).collect(),
        weight: weight.to_bits(),
    }
}

#[test]
fn index_documents_takes_the_tokens_as_they_are() {
    let idx = index_documents(vec![
        document("A", &["b", "a", "b"], 1.0),
        document("B", &[], 2.0),
        document("C", &["a", "Not Normal", "b"], 3.0),
    ]);
    let listed: Vec<&str> = idx.tokens.iter().map(|p| p.token.as_str()).collect();
    assert_eq!(listed, vec!["b", "a", "Not Normal"]);
    assert_eq!(ids(&idx, "b"), Some(&vec![0, 0, 2]));
    assert_eq!(ids(&idx, "a"), Some(&vec![0, 2]));
    assert_eq!(ids(&idx, "Not Normal"), Some(&vec![2]));
    assert_eq!(
        idx.scores,
        vec![
            Ratio { count: 3, total: 3 },
            Ratio { count: 2, total: 3 },
            Ratio { count: 1, total: 3 },
        ]
    );
    assert_eq!(idx.nr_of_tokens, vec![3, 0, 3]);
    assert_eq!(idx.original_ids, vec!["A", "B", "C"]);
    assert_eq!(idx.weights, vec![1.0f64.to_bits(), 2.0f64.to_bits(), 3.0f64.to_bits()]);
    assert!(idx.is_valid());
}

#[test]
fn index_documents_of_the_sample_tokens_is_the_sample_index() {
    let act = index_documents(vec![
        document("A", &["one", "four"], 10.0),
        document("B", &["two", "three", "four"], 20.0),
    ]);
    let exp = sample_index();
    assert_eq!(act.tokens.len(), exp.tokens.len());
    for (a, e) in act.tokens.iter().zip(exp.tokens.iter()) {
        assert_eq!(a.token, e.token);
        assert_eq!(a.ids, e.ids);
    }
    assert_eq!(act.scores, exp.scores);
    assert_eq!(act.weights, exp.weights);
    assert_eq!(act.nr_of_tokens, exp.nr_of_tokens);
    assert_eq!(act.original_ids, exp.original_ids);
}
