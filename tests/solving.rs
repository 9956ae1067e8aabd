use sanamahti::{is_valid_grid, solve, LetterTree, SIDE};

fn tree_of(words: &[&str]) -> LetterTree {
    let mut tree = LetterTree::new();
    for w in words {
        tree.insert(w);
    }
    tree
}

fn grid_of(rows: &[&str]) -> Vec<Vec<char>> {
    rows.iter().map(|r| r.chars().collect()).collect()
}

#[test]
fn example_grid() {
    let tree = tree_of(&["cat", "cats", "at", "cab"]);
    let grid = grid_of(&["cats", "btaa", "xxxx", "xxxx"]);
    let found = solve(&tree, grid);
    // "cab" runs (0,0) -> (1,0) -> (0,1): the last step is diagonal.
    assert_eq!(found.len(), 3);
    assert!(found.contains(&"cat".to_string()));
    assert!(found.contains(&"cab".to_string()));
    assert_eq!(found[2], "cats");
    assert!(!found.contains(&"at".to_string()));
}

#[test]
fn no_word_is_reported_twice() {
    let tree = tree_of(&["aaa", "aaaa"]);
    let grid = grid_of(&["aaaa", "aaaa", "aaaa", "aaaa"]);
    let found = solve(&tree, grid);
    assert_eq!(found, vec!["aaa".to_string(), "aaaa".to_string()]);
}

#[test]
fn words_come_in_order_of_length() {
    let tree = tree_of(&["talo", "tal", "olat", "alo", "lot"]);
    let grid = grid_of(&["talo", "xxxx", "xxxx", "xxxx"]);
    let found = solve(&tree, grid);
    assert_eq!(found.len(), 4);
    for pair in found.windows(2) {
        assert!(pair[0].chars().count() <= pair[1].chars().count());
    }
    assert!(found[..2].contains(&"tal".to_string()));
    assert!(found[..2].contains(&"alo".to_string()));
    assert!(found[2..].contains(&"talo".to_string()));
    assert!(found[2..].contains(&"olat".to_string()));
}

#[test]
fn words_of_two_letters_are_left_out() {
    let tree = tree_of(&["ab", "a", "ba"]);
    let grid = grid_of(&["abab", "baba", "abab", "baba"]);
    assert!(solve(&tree, grid).is_empty());
}

#[test]
fn no_cell_is_used_twice() {
    let tree = tree_of(&["aba", "abb"]);
    let grid = grid_of(&["abxx", "xxxx", "xxxx", "xxxx"]);
    assert!(solve(&tree, grid).is_empty());

    let tree = tree_of(&["yyy", "yyyy"]);
    let grid = grid_of(&["yyab", "ycde", "fghi", "jklm"]);
    assert_eq!(solve(&tree, grid), vec!["yyy".to_string()]);
}

#[test]
fn diagonal_steps_count_and_jumps_do_not() {
    let tree = tree_of(&["abcd", "ace"]);
    let grid = grid_of(&["axxx", "xbxx", "xxcx", "exxd"]);
    assert_eq!(solve(&tree, grid), vec!["abcd".to_string()]);
}

#[test]
fn letters_beyond_ascii_are_found() {
    let tree = tree_of(&["äiti", "yö"]);
    let grid = grid_of(&["äitx", "xxix", "xxxx", "xxxx"]);
    assert_eq!(solve(&tree, grid), vec!["äiti".to_string()]);
}

#[test]
fn empty_dictionary_finds_nothing() {
    let tree = LetterTree::new();
    let grid = grid_of(&["abcd", "efgh", "ijkl", "mnop"]);
    assert!(solve(&tree, grid).is_empty());
}

#[test]
fn only_square_grids_are_valid() {
    assert_eq!(SIDE, 4);
    assert!(is_valid_grid(&grid_of(&["abcd", "efgh", "ijkl", "mnop"])));
    assert!(!is_valid_grid(&grid_of(&["abcd", "efgh", "ijkl"])));
    assert!(!is_valid_grid(&grid_of(&["abcd", "efgh", "ijkl", "mnop", "qrst"])));
    assert!(!is_valid_grid(&grid_of(&["abcd", "efg", "ijkl", "mnop"])));
    assert!(!is_valid_grid(&grid_of(&["abcd", "efgh", "ijkl", "mnopq"])));
    assert!(!is_valid_grid(&Vec::new()));
}
