use markov_chain::text::{regularize_text, split_by, trim};
use markov_chain::training::train;
use markov_chain::vocabulary::{same_word, Vocabulary};

fn chars(s: &str) -> Vec<char> {
    s.chars().collect()
}

fn string(w: &[char]) -> String {
    w.iter().collect()
}

#[test]
fn regularize_keeps_allowed_characters() {
    let out = regularize_text(&chars("Hi, there!\nIt's 3.5 well-known\t(ok) é"));
    assert_eq!(string(&out), "Hi there It's 3.5 well-knownok ");
    assert!(regularize_text(&vec![]).is_empty());
}

#[test]
fn split_drops_empty_pieces() {
    let words = split_by(&chars("  a bb  ccc "), ' ');
    let words: Vec<String> = words.iter().map(|w| string(w)).collect();
    assert_eq!(words, vec!["a", "bb", "ccc"]);
    assert!(split_by(&chars("   "), ' ').is_empty());
    assert!(split_by(&vec![], ' ').is_empty());
}

#[test]
fn split_trims_each_piece() {
    let words = split_by(&chars("\ta \n b\u{a0}\t  \t,c, d"), ' ');
    let words: Vec<String> = words.iter().map(|w| string(w)).collect();
    assert_eq!(words, vec!["a", "b", ",c,", "d"]);
    let words = split_by(&chars(" x , y ,, \tz\t"), ',');
    let words: Vec<String> = words.iter().map(|w| string(w)).collect();
    assert_eq!(words, vec!["x", "y", "z"]);
}

#[test]
fn trim_removes_surrounding_white_space() {
    assert_eq!(string(&trim(&chars("\t a b \n"))), "a b");
    assert_eq!(string(&trim(&chars("ab"))), "ab");
    assert!(trim(&chars(" \t\n ")).is_empty());
    assert!(trim(&vec![]).is_empty());
}

#[test]
fn vocabulary_interns_each_word_once() {
    let mut vocabulary = Vocabulary::new();
    let a = vocabulary.intern(&chars("the"));
    let b = vocabulary.intern(&chars("cat"));
    let c = vocabulary.intern(&chars("the"));
    assert_eq!((a, b, c), (0, 1, 0));
    assert_eq!(vocabulary.len(), 2);
    assert_eq!(vocabulary.lookup(&chars("cat")), Some(1));
    assert_eq!(vocabulary.lookup(&chars("dog")), None);
    assert_eq!(string(vocabulary.word(1).unwrap()), "cat");
    assert!(vocabulary.word(2).is_none());
    let ids = vocabulary.intern_all(&vec![chars("dog"), chars("cat"), chars("dog")]);
    assert_eq!(ids, vec![2, 1, 2]);
    assert!(same_word(&chars("ab"), &chars("ab")));
    assert!(!same_word(&chars("ab"), &chars("abc")));
    assert!(!same_word(&chars("ab"), &chars("ac")));
}

#[test]
fn train_counts_word_transitions() {
    let (vocabulary, mut chain) = train(&chars("A B\nA, B A C"));
    let id = |w: &str| vocabulary.lookup(&chars(w)).unwrap();
    assert_eq!(vocabulary.len(), 3);
    assert_eq!(chain.edge_count(id("A"), id("B")), 2);
    assert_eq!(chain.edge_count(id("A"), id("C")), 1);
    assert_eq!(chain.edge_count(id("B"), id("A")), 2);
    assert_eq!(chain.outgoing_total(id("C")), 0);
    chain.normalize();
    assert_eq!(chain.infer(1, id("C")), vec![id("C")]);
}
