use bogchamp::trie::TrieNode;

fn lines(words: &[&str]) -> Vec<String> {
    words.iter().map(|w| w.to_string()).collect()
}

#[test]
fn test_trie() {
    let trie = TrieNode::build_trie(&lines(&["require", "robe", "queen", "egg"]));
    assert!(trie._find_word(String::from("require")).is_some());
    assert!(trie._find_word(String::from("robe")).is_some());
}

#[test]
fn short_lines_are_left_out() {
    let trie = TrieNode::build_trie(&lines(&["egg", "eggs", "a", "", "tree"]));
    assert_eq!(trie._find_word(String::from("egg")), None);
    assert_eq!(trie._find_word(String::from("a")), None);
    assert_eq!(trie._find_word(String::from("eggs")), Some(String::from("eggs")));
    assert_eq!(trie._find_word(String::from("tree")), Some(String::from("tree")));
}

#[test]
fn length_counts_bytes_not_characters() {
    // three characters, but four bytes in UTF-8
    let trie = TrieNode::build_trie(&lines(&["caf\u{e9}", "\u{e9}t\u{e9}"]));
    assert_eq!(trie._find_word(String::from("caf\u{e9}")), Some(String::from("caf\u{e9}")));
    assert_eq!(trie._find_word(String::from("\u{e9}t\u{e9}")), Some(String::from("\u{e9}t\u{e9}")));
}

#[test]
fn find_after_insert_reads_back() {
    let mut trie = TrieNode::build_trie(&lines(&["robe"]));
    assert_eq!(trie._find_word(String::from("robes")), None);
    trie.insert_word(String::from("robes"));
    assert_eq!(trie._find_word(String::from("robes")), Some(String::from("robes")));
    assert_eq!(trie._find_word(String::from("robe")), Some(String::from("robe")));
    assert_eq!(trie._find_word(String::from("rob")), None);
}

#[test]
fn prefixes_and_suffixes_are_not_words() {
    let trie = TrieNode::build_trie(&lines(&["stone"]));
    assert_eq!(trie._find_word(String::from("stone")), Some(String::from("stone")));
    assert_eq!(trie._find_word(String::from("tone")), None);
    assert_eq!(trie._find_word(String::from("ston")), None);
    assert_eq!(trie._find_word(String::from("")), None);
}

#[test]
fn insert_short_word_directly_is_kept() {
    let mut trie = TrieNode::build_trie(&Vec::new());
    trie.insert_word(String::from("ox"));
    assert_eq!(trie._find_word(String::from("ox")), Some(String::from("ox")));
    assert_eq!(trie._find_word(String::from("xo")), None);
}
