use rs_wordle_solver::trie::Trie;

#[test]
fn insert_and_retrieve() {
    let mut trie: Trie = Trie::new();

    trie.insert("ab", 2);

    let node = trie.get_ancestor("ab").unwrap();
    assert_eq!(node.key, "ab");
    assert_eq!(*node.value, 2);
}

#[test]
fn insert_and_retrieve_prefix() {
    let mut trie: Trie = Trie::new();

    trie.insert("ab", 2);
    trie.insert("abc", 3);

    let node = trie.get_ancestor("abcd").unwrap();
    assert_eq!(node.key, "abc");
    assert_eq!(*node.value, 3);
}

#[test]
fn insert_and_retrieve_prefix_other_path() {
    let mut trie: Trie = Trie::new();

    trie.insert("ab", 2);
    trie.insert("abc", 3);

    let node = trie.get_ancestor("abd").unwrap();
    assert_eq!(node.key, "ab");
    assert_eq!(*node.value, 2);
}

#[test]
fn trie_without_a_prefix_finds_nothing() {
    let mut trie: Trie = Trie::new();
    assert!(trie.get_ancestor("abc").is_none());

    trie.insert("bc", 1);
    assert!(trie.get_ancestor("abc").is_none());
}

#[test]
fn trie_insert_replaces_the_value() {
    let mut trie: Trie = Trie::new();
    trie.insert("ab", 1);
    trie.insert("ab", 5);
    let node = trie.get_ancestor("abcd").unwrap();
    assert_eq!(node.key, "ab");
    assert_eq!(*node.value, 5);
}

#[test]
fn trie_finds_the_longest_of_the_documented_keys() {
    let mut trie: Trie = Trie::new();
    trie.insert("ab", 1);
    trie.insert("abc", 2);
    trie.insert("abcd", 3);
    assert_eq!(trie.get_ancestor("abd").unwrap().key, "ab");
    assert_eq!(trie.get_ancestor("abc").unwrap().key, "abc");
    assert_eq!(trie.get_ancestor("abcd").unwrap().key, "abcd");
    assert_eq!(trie.get_ancestor("abcde").unwrap().key, "abcd");
}
