use letter_boxed::trie::Trie;

#[test]
fn trie_contains_string() {
    let mut trie = Trie::new();
    trie.insert(String::from("hello"));
    assert_eq!(trie.contains_word(String::from("hello")), true);
}

#[test]
fn trie_does_not_contain_string() {
    let trie = Trie::new();
    assert_eq!(trie.contains_word(String::from("hello")), false);
}

#[test]
fn trie_contains_string_but_not_substring() {
    let mut trie = Trie::new();
    trie.insert(String::from("hello"));
    assert_eq!(trie.contains_word(String::from("hell")), false);
}

#[test]
fn trie_contains_two_words_sharing_prefix() {
    let mut trie = Trie::new();
    trie.insert(String::from("hell"));
    trie.insert(String::from("hello"));
    assert!(trie.contains_word(String::from("hell")));
    assert!(trie.contains_word(String::from("hello")));
    assert!(!trie.contains_word(String::from("he")));
    assert!(!trie.contains_word(String::from("helloo")));
}

#[test]
fn trie_node_contains_char() {
    let mut trie = Trie::new();
    trie.insert(String::from("abc"));
    assert!(trie.root.contains_char('a'));
    assert!(!trie.root.contains_char('b'));
}

#[test]
fn build_trie_skips_short_words() {
    let words = vec![String::from("ab"), String::from("abc"), String::from("")];
    let trie = letter_boxed::trie::build_trie(&words);
    assert!(!trie.contains_word(String::from("ab")));
    assert!(trie.contains_word(String::from("abc")));
    assert!(!trie.contains_word(String::from("")));
}
