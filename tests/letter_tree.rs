use sanamahti::{dictionary_word, strip_bom, LetterTree, Status};

fn tree_of(words: &[&str]) -> LetterTree {
    let mut tree = LetterTree::new();
    for w in words {
        tree.insert(w);
    }
    tree
}

#[test]
fn empty_tree_knows_nothing() {
    let tree = LetterTree::new();
    assert_eq!(tree.word_status(""), Status::Impossible);
    assert_eq!(tree.word_status("a"), Status::Impossible);
    let tree = LetterTree::default();
    assert_eq!(tree.word_status("kissa"), Status::Impossible);
}

#[test]
fn inserted_words_are_words() {
    let tree = tree_of(&["kissa", "kissat", "koira", "äiti"]);
    for w in ["kissa", "kissat", "koira", "äiti"] {
        assert_eq!(tree.word_status(w), Status::Word, "{}", w);
    }
}

#[test]
fn strict_prefixes_are_possible() {
    let tree = tree_of(&["kissa", "kissat", "koira"]);
    assert_eq!(tree.word_status(""), Status::Possible);
    assert_eq!(tree.word_status("k"), Status::Possible);
    assert_eq!(tree.word_status("kis"), Status::Possible);
    assert_eq!(tree.word_status("koir"), Status::Possible);
}

#[test]
fn unrelated_sequences_are_impossible() {
    let tree = tree_of(&["kissa", "kissat", "koira"]);
    assert_eq!(tree.word_status("auto"), Status::Impossible);
    assert_eq!(tree.word_status("kissaz"), Status::Impossible);
    assert_eq!(tree.word_status("kissatt"), Status::Impossible);
    assert_eq!(tree.word_status("x"), Status::Impossible);
}

#[test]
fn word_inside_a_longer_word_is_a_word() {
    let tree = tree_of(&["cats", "cat"]);
    assert_eq!(tree.word_status("cat"), Status::Word);
    assert_eq!(tree.word_status("cats"), Status::Word);
    assert_eq!(tree.word_status("ca"), Status::Possible);
}

#[test]
fn inserting_twice_changes_nothing() {
    let once = tree_of(&["cat", "cab"]);
    let twice = tree_of(&["cat", "cab", "cat"]);
    for s in ["", "c", "ca", "cat", "cab", "cats", "x"] {
        assert_eq!(once.word_status(s), twice.word_status(s), "{}", s);
    }
    assert_eq!(twice.leaves.len(), 1);
    assert_eq!(twice.leaves[0].leaves.len(), 1);
    assert_eq!(twice.leaves[0].leaves[0].leaves.len(), 2);
}

#[test]
fn empty_string_is_not_inserted() {
    let tree = tree_of(&[""]);
    assert_eq!(tree.word_status(""), Status::Impossible);
    assert!(tree.leaves.is_empty());
    assert!(!tree.is_word);
}

#[test]
fn from_words_holds_every_word() {
    let words = vec!["at".to_string(), String::new(), "atlas".to_string()];
    let tree = LetterTree::from_words(&words);
    assert_eq!(tree.word_status("at"), Status::Word);
    assert_eq!(tree.word_status("atlas"), Status::Word);
    assert_eq!(tree.word_status("atl"), Status::Possible);
    assert_eq!(tree.word_status("a"), Status::Possible);
    assert_eq!(tree.word_status("t"), Status::Impossible);
    assert!(!tree.is_word);
    assert_eq!(tree.value, None);
    assert_eq!(tree.leaves[0].value, Some('a'));
}

#[test]
fn dictionary_lines_are_lowercased_without_bom() {
    assert_eq!(dictionary_word("\u{feff}Kissa"), "kissa");
    assert_eq!(dictionary_word("ÄITI"), "äiti");
    assert_eq!(dictionary_word("koira"), "koira");
    assert_eq!(dictionary_word(""), "");
}

#[test]
fn only_leading_byte_order_marks_go() {
    assert_eq!(strip_bom("\u{feff}\u{feff}ab"), "ab");
    assert_eq!(strip_bom("a\u{feff}b"), "a\u{feff}b");
    assert_eq!(strip_bom("\u{feff}"), "");
    assert_eq!(strip_bom(""), "");
}
