use bogchamp::board::{BoggleBoard, LETTERS};
use bogchamp::trie::TrieNode;

fn lines(words: &[&str]) -> Vec<String> {
    words.iter().map(|w| w.to_string()).collect()
}

fn board(rows: [&str; 4]) -> BoggleBoard {
    BoggleBoard { letters: rows.iter().map(|r| r.chars().collect()).collect() }
}

fn sorted(mut v: Vec<String>) -> Vec<String> {
    v.sort();
    v
}

fn owned(words: &[&str]) -> Vec<String> {
    sorted(words.iter().map(|w| w.to_string()).collect())
}

#[test]
fn test_qu() {
    let letters = Vec::from([
        Vec::from(['e', 'q', 'i', 'a']),
        Vec::from(['e', 'r', 'r', 'b']),
        Vec::from(['n', 'x', 'e', 'c']),
        Vec::from(['a', 'z', 'u', 'd']),
    ]);
    let test_board = BoggleBoard { letters };
    let trie = TrieNode::build_trie(&lines(&["require", "queen", "robe", "egg"]));
    let solutions = test_board.solve(&trie);
    assert!(
        solutions.iter().any(|word| word == "require")
            && solutions.iter().any(|word| word == "queen")
    )
}

#[test]
fn solve_finds_words_along_trails() {
    let b = board(["eqia", "errb", "nxec", "azud"]);
    let trie = TrieNode::build_trie(&lines(&[
        "queen", "require", "rare", "beer", "bier", "ribe", "err", "nee", "deer", "cure", "cred",
        "crib", "reer", "erne", "rune", "duce", "ecru", "bree", "brie", "axe",
    ]));
    let solutions = b.solve(&trie);
    assert_eq!(
        sorted(solutions),
        owned(&["cred", "crib", "duce", "erne", "queen", "require", "ribe"])
    );
}

#[test]
fn solve_second_board() {
    let b = board(["cats", "dogs", "bird", "fish"]);
    let trie = TrieNode::build_trie(&lines(&["cats", "stag", "dogs", "bird", "fish", "goat", "soda", "cast"]));
    assert_eq!(sorted(b.solve(&trie)), owned(&["dogs", "goat", "stag", "cats", "bird", "fish"]));
}

#[test]
fn solve_finds_words_ending_in_a_closed_corner() {
    // the last letter of "abcd" sits in a corner whose neighbours the word
    // itself uses; the word is found all the same
    let b = board(["dazz", "cbzz", "zzzz", "zzzz"]);
    let mut trie = TrieNode::build_trie(&Vec::new());
    trie.insert_word(String::from("abcd"));
    assert_eq!(b.solve(&trie), owned(&["abcd"]));
    let b = board(["dcxy", "abzw", "pqrs", "tuvk"]);
    let trie = TrieNode::build_trie(&lines(&["abcd", "dcba", "abzw"]));
    assert_eq!(sorted(b.solve(&trie)), owned(&["abcd", "abzw", "dcba"]));
}

#[test]
fn a_q_square_stands_for_qu() {
    let b = board(["qitx", "xxxx", "xxxx", "xxxx"]);
    let trie = TrieNode::build_trie(&lines(&["quit", "qitx", "quiz"]));
    assert_eq!(sorted(b.solve(&trie)), owned(&["quit"]));
}

#[test]
fn solve_reports_each_word_once() {
    let b = board(["aaaa", "aaaa", "aaaa", "aaaa"]);
    let trie = TrieNode::build_trie(&lines(&["aaaa", "aaaaa"]));
    assert_eq!(sorted(b.solve(&trie)), owned(&["aaaa", "aaaaa"]));
}

#[test]
fn solve_with_empty_dictionary_finds_nothing() {
    let b = board(["abcd", "efgh", "ijkl", "mnop"]);
    let trie = TrieNode::build_trie(&Vec::new());
    assert!(b.solve(&trie).is_empty());
}

#[test]
fn new_board_takes_letters_row_by_row() {
    let draw: Vec<usize> = (0..16).map(|i| i % 26).collect();
    let b = BoggleBoard::new(&draw);
    assert_eq!(b.letters.len(), 4);
    for x in 0..4 {
        assert_eq!(b.letters[x].len(), 4);
        for y in 0..4 {
            assert_eq!(b.letters[x][y], LETTERS[4 * x + y]);
        }
    }
    assert_eq!(b.letters[0], vec!['e', 'a', 'r', 'i']);
}

#[test]
fn randomise_replaces_letters() {
    let mut b = BoggleBoard::new(&vec![0; 16]);
    assert!(b.letters.iter().all(|r| r.iter().all(|c| *c == 'e')));
    b._randomise(&vec![25; 16]);
    assert!(b.letters.iter().all(|r| r.iter().all(|c| *c == 'q')));
}

#[test]
fn display_text_shows_rows() {
    let b = board(["abcd", "efgh", "ijkl", "mnop"]);
    assert_eq!(
        b.display_text(),
        " a  b  c  d \n e  f  g  h \n i  j  k  l \n m  n  o  p "
    );
}

#[test]
fn display_text_writes_qu_for_capital_q() {
    let b = board(["Qabc", "defg", "hijk", "lmnq"]);
    assert_eq!(
        b.display_text(),
        " Qu a  b  c \n d  e  f  g \n h  i  j  k \n l  m  n  q "
    );
}

#[test]
fn display_text_of_no_rows_is_empty() {
    let b = BoggleBoard { letters: Vec::new() };
    assert_eq!(b.display_text(), "");
}

#[test]
fn solve_counts_a_word_by_its_bytes() {
    // "\u{e9}t\u{e9}" has three letters but five bytes, so the dictionary
    // keeps it and the solver finds it; "ox", filed by hand, is too short
    let b = board(["\u{e9}t\u{e9}x", "oxzz", "zzzz", "zzzz"]);
    let mut trie = TrieNode::build_trie(&lines(&["\u{e9}t\u{e9}", "tox"]));
    trie.insert_word(String::from("ox"));
    assert_eq!(b.solve(&trie), owned(&["\u{e9}t\u{e9}"]));
}
