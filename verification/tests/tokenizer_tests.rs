use bayes_text::tokenizer::Tokenizer;

const PUNCT: &str = ".,!?;:=()\"'[]1234567890/@#*&_";

#[test]
fn normalize_pads_punctuation_and_collapses() {
    let t = Tokenizer::new(PUNCT);
    assert_eq!(t.normalize("Hello, world!"), "Hello , world !");
    assert_eq!(t.normalize("a,b"), "a , b");
    assert_eq!(t.normalize("  spaced   out  "), "spaced out");
    assert_eq!(t.normalize(""), "");
    assert_eq!(t.normalize("   "), "");
    assert_eq!(t.normalize("!"), "!");
}

#[test]
fn normalize_keeps_single_inner_whitespace() {
    let t = Tokenizer::new(PUNCT);
    assert_eq!(t.normalize("a\tb"), "a\tb");
    assert_eq!(t.normalize("a\t\tb"), "a b");
}

#[test]
fn normalize_is_idempotent() {
    // The punctuation set holds no whitespace, the shape the idempotence
    // law is proved for.
    let chars: Vec<char> = PUNCT.chars().collect();
    assert!(bayes_text::text::check_space_free(&chars));
    let t = Tokenizer::new(PUNCT);
    for text in [
        "Hello, world!",
        "  a  b  ",
        "!leading and trailing!",
        "tabs\tand\nnewlines\r\n",
        "",
        "...",
        "win free $$$ now!!!",
    ] {
        let once = t.normalize(text);
        let twice = t.normalize(&once);
        assert_eq!(twice, once);
    }
}

#[test]
fn normalize_handles_unicode_punctuation() {
    let t = Tokenizer::new("\u{2018}.");
    assert_eq!(t.normalize("a\u{2018}b.c"), "a \u{2018} b . c");
    let twice = t.normalize(&t.normalize("a\u{2018}b.c"));
    assert_eq!(twice, "a \u{2018} b . c");
}

#[test]
fn fit_assigns_ids_in_first_sight_order() {
    let mut t = Tokenizer::new(PUNCT);
    let ids = t.fit("free win free hello");
    assert_eq!(ids, vec![0, 1, 0, 2]);
    assert_eq!(t.token_count(), 3);
    assert_eq!(t.word_at(0), Some("free".to_string()));
    assert_eq!(t.word_at(1), Some("win".to_string()));
    assert_eq!(t.word_at(2), Some("hello".to_string()));
    assert_eq!(t.word_at(3), None);
}

#[test]
fn fit_separates_punctuation_tokens() {
    let mut t = Tokenizer::new(PUNCT);
    let ids = t.fit("win,win!");
    // "win , win !": "win" -> 0, "," -> 1, "!" -> 2
    assert_eq!(ids, vec![0, 1, 0, 2]);
    assert_eq!(t.word_at(1), Some(",".to_string()));
}

#[test]
fn vocabulary_is_deterministic_across_runs() {
    let docs = ["free win", "hello win!", "free, hello"];
    let mut t1 = Tokenizer::new(PUNCT);
    let mut t2 = Tokenizer::new(PUNCT);
    let mut ids1 = Vec::new();
    let mut ids2 = Vec::new();
    for d in docs {
        ids1.push(t1.fit(d));
    }
    for d in docs {
        ids2.push(t2.fit(d));
    }
    assert_eq!(ids1, ids2);
    assert_eq!(t1.token_count(), t2.token_count());
    for i in 0..t1.token_count() {
        assert_eq!(t1.word_at(i), t2.word_at(i));
    }
}

#[test]
fn tokenize_matches_fit_on_the_same_document() {
    let mut t = Tokenizer::new(PUNCT);
    let doc = "free win, free hello!";
    let fitted = t.fit(doc);
    let looked_up = t.tokenize(doc);
    assert_eq!(looked_up, fitted);
}

#[test]
fn tokenize_drops_unknown_words() {
    let mut t = Tokenizer::new(PUNCT);
    t.fit("free win");
    let ids = t.tokenize("free spam win");
    assert_eq!(ids, vec![0, 1]);
    let none = t.tokenize("all unknown words");
    assert_eq!(none, Vec::<usize>::new());
}

#[test]
fn tokenize_sparse_is_sorted_and_deduplicated() {
    let mut t = Tokenizer::new(PUNCT);
    t.fit("a b c d");
    let doc = "d b d a b";
    let sparse = t.tokenize_sparse(doc);
    for i in 1..sparse.len() {
        assert!(sparse[i - 1] < sparse[i]);
    }
    let dense = t.tokenize(doc);
    for id in &sparse {
        assert!(dense.contains(id));
    }
    for id in &dense {
        assert!(sparse.contains(id));
    }
    assert_eq!(sparse, vec![0, 1, 3]);
}

#[test]
fn insert_word_restores_a_saved_vocabulary() {
    let mut t = Tokenizer::new(PUNCT);
    t.fit("free win hello");
    let mut restored = Tokenizer::new(&t.punct_config());
    for i in 0..t.token_count() {
        let w = t.word_at(i).unwrap();
        let id = restored.insert_word(&w);
        assert_eq!(id, i);
    }
    assert_eq!(restored.token_count(), t.token_count());
    assert_eq!(restored.tokenize("win hello free"), t.tokenize("win hello free"));
}
