use robust_trees::trie::{InsertResult, TrieNode, TrieTree};

#[derive(Debug, PartialEq)]
struct TestValue {
    id: u64,
}

impl TestValue {
    fn new(id: u64) -> Self {
        Self { id }
    }
}

#[test]
fn add_should_insert_single_char_key() {
    // Arrange
    let mut trie = TrieTree::default();

    // Act
    trie.add("a".to_string(), TestValue::new(1));

    // Assert
    assert_eq!(trie.len(), 1);
    assert_eq!(trie.find("a").unwrap().id, 1);
}

#[test]
fn add_should_insert_multiple_char_key() {
    // Arrange
    let mut trie = TrieTree::default();

    // Act
    trie.add("abc".to_string(), TestValue::new(1));

    // Assert
    assert_eq!(trie.len(), 1);
    assert_eq!(trie.find("abc").unwrap().id, 1);
}

#[test]
fn add_should_update_existing_key() {
    // Arrange
    let mut trie = TrieTree::default();
    trie.add("abc".to_string(), TestValue::new(1));

    // Act
    trie.add("abc".to_string(), TestValue::new(2));

    // Assert
    assert_eq!(trie.len(), 1);
    assert_eq!(trie.find("abc").unwrap().id, 2);
}

#[test]
fn add_should_insert_prefix_key() {
    // Arrange
    let mut trie = TrieTree::default();
    trie.add("abc".to_string(), TestValue::new(1));

    // Act
    trie.add("ab".to_string(), TestValue::new(2));

    // Assert
    assert_eq!(trie.len(), 2);
    assert_eq!(trie.find("abc").unwrap().id, 1);
    assert_eq!(trie.find("ab").unwrap().id, 2);
}

#[test]
fn add_should_insert_different_key_with_same_prefix() {
    // Arrange
    let mut trie = TrieTree::default();
    trie.add("abc".to_string(), TestValue::new(1));

    // Act
    trie.add("abx".to_string(), TestValue::new(2));

    // Assert
    assert_eq!(trie.len(), 2);
    assert_eq!(trie.find("abc").unwrap().id, 1);
    assert_eq!(trie.find("abx").unwrap().id, 2);
}

#[test]
fn add_should_update_single_char_key() {
    // Arrange
    let mut trie = TrieTree::default();
    trie.add("a".to_string(), TestValue::new(1));

    // Act
    trie.add("a".to_string(), TestValue::new(2));

    // Assert
    assert_eq!(trie.len(), 1);
    assert_eq!(trie.find("a").unwrap().id, 2);
}

#[test]
fn find_should_return_none_for_missing_key() {
    // Arrange
    let trie = TrieTree::<TestValue>::default();

    // Assert
    assert_eq!(trie.find("not_exists"), None);
    assert_eq!(trie.find(""), None);
}

#[test]
fn add_should_handle_many_items() {
    // Arrange
    let mut trie = TrieTree::default();
    let n = 1000;

    // Act: Add items with incrementing ids
    for i in 0..n {
        let key = format!("key{}", i);
        trie.add(key, TestValue::new(i as u64));
    }

    // Assert
    assert_eq!(trie.len(), n);

    // verify random access
    assert_eq!(trie.find("key0").unwrap().id, 0);
    assert_eq!(trie.find("key42").unwrap().id, 42);
    assert_eq!(trie.find("key999").unwrap().id, 999);

    // verify all items are accessible
    for i in 0..n {
        let key = format!("key{}", i);
        assert_eq!(trie.find(&key).unwrap().id, i as u64);
    }
}

#[test]
fn remove_should_remove_key() {
    // Arrange
    let mut trie = TrieTree::default();
    trie.add("abc".to_string(), TestValue::new(1));

    // Act
    let removed = trie.remove("abc");

    // Assert
    assert_eq!(trie.len(), 0);
    assert_eq!(removed.unwrap().id, 1);
    assert_eq!(trie.find("abc"), None);
}

#[test]
fn remove_should_keep_other_keys_with_same_prefix() {
    // Arrange
    let mut trie = TrieTree::default();
    trie.add("rust".to_string(), TestValue::new(1));
    trie.add("rust-lang".to_string(), TestValue::new(2));

    // Act
    let removed = trie.remove("rust");

    // Assert
    assert_eq!(trie.len(), 1);
    assert_eq!(removed.unwrap().id, 1);
    assert_eq!(trie.find("rust"), None);
    assert_eq!(trie.find("rust-lang").unwrap().id, 2);
}

#[test]
fn remove_should_cleanup_unused_nodes() {
    // Arrange
    let mut trie = TrieTree::default();
    trie.add("rust".to_string(), TestValue::new(1));

    // Act
    let removed = trie.remove("rust");

    // Assert
    assert_eq!(trie.len(), 0);
    assert_eq!(removed.unwrap().id, 1);
    assert!(trie.is_bare());
}

#[test]
fn remove_should_keep_nodes_used_by_other_keys() {
    // Arrange
    let mut trie = TrieTree::default();
    trie.add("rust".to_string(), TestValue::new(1));
    trie.add("rust-lang".to_string(), TestValue::new(2));
    trie.add("ruby".to_string(), TestValue::new(3));

    // Act
    let removed = trie.remove("rust-lang");

    // Assert
    assert_eq!(trie.len(), 2);
    assert_eq!(removed.unwrap().id, 2);
    assert_eq!(trie.find("rust").unwrap().id, 1);
    assert_eq!(trie.find("ruby").unwrap().id, 3);
    assert_eq!(trie.find("rust-lang"), None);
}

#[test]
fn remove_should_return_none_for_missing_key() {
    // Arrange
    let mut trie = TrieTree::default();
    trie.add("rust".to_string(), TestValue::new(1));

    // Act
    let removed = trie.remove("not_exists");

    // Assert
    assert_eq!(trie.len(), 1);
    assert_eq!(removed, None);
}

#[test]
fn remove_should_return_none_when_tree_is_empty() {
    // Arrange
    let mut trie = TrieTree::<TestValue>::default();

    // Act
    let removed = trie.remove("not_exists");

    // Assert
    assert_eq!(trie.len(), 0);
    assert_eq!(removed, None);
}

#[test]
fn remove_should_remove_key_for_single_char_key() {
    // Arrange
    let mut trie = TrieTree::default();
    trie.add("a".to_string(), TestValue::new(1));

    // Act
    let removed = trie.remove("a");

    // Assert
    assert_eq!(trie.len(), 0);
    assert_eq!(removed.unwrap().id, 1);
    assert_eq!(trie.find("a"), None);
}

#[test]
fn remove_node_should_return_none_for_unused_nodes() {
    // Arrange
    let mut trie = TrieTree::default();
    trie.add("rust".to_string(), TestValue::new(1));
    trie.add("rust-lang".to_string(), TestValue::new(2));
    trie.remove("rust");
    // Act
    let actual = trie.remove_node(&"rust-lang".chars().collect::<Vec<char>>(), 4, 'l');

    // Assert
    assert_eq!(actual, (None, false));
}

#[test]
fn remove_should_keep_intermediate_values() {
    // Arrange
    let mut trie = TrieTree::default();
    trie.add("r".to_string(), TestValue::new(1));
    trie.add("rust".to_string(), TestValue::new(2));

    // Act
    let removed = trie.remove("rust");

    // Assert
    assert_eq!(removed.unwrap().id, 2);
    assert_eq!(trie.len(), 1);
    assert_eq!(trie.find("r").unwrap().id, 1);
    assert_eq!(trie.find("rust"), None);
}

#[test]
fn is_empty_follows_the_entries() {
    let mut trie = TrieTree::new();
    assert!(trie.is_empty());
    assert!(trie.is_bare());
    trie.add("k".to_string(), TestValue::new(1));
    assert!(!trie.is_empty());
    assert!(!trie.is_bare());
    trie.remove("k");
    assert!(trie.is_empty());
    assert!(trie.is_bare());
}

#[test]
fn keys_beyond_ascii_are_kept_apart() {
    let mut trie = TrieTree::new();
    trie.add("é".to_string(), TestValue::new(1));
    trie.add("e".to_string(), TestValue::new(2));
    trie.add("日本".to_string(), TestValue::new(3));
    trie.add("日".to_string(), TestValue::new(4));
    assert_eq!(trie.len(), 4);
    assert_eq!(trie.find("é").unwrap().id, 1);
    assert_eq!(trie.find("e").unwrap().id, 2);
    assert_eq!(trie.find("日本").unwrap().id, 3);
    assert_eq!(trie.find("日").unwrap().id, 4);
    assert_eq!(trie.find("本"), None);
    assert_eq!(trie.remove("日").unwrap().id, 4);
    assert_eq!(trie.find("日本").unwrap().id, 3);
}

#[test]
fn remove_node_takes_out_a_node_without_value_and_children() {
    let mut trie: TrieTree<TestValue> = TrieTree::new();
    trie.add("ab".to_string(), TestValue::new(1));
    let chars: Vec<char> = "ab".chars().collect();
    // The node of "ab" has a value, that of "a" has a child.
    assert_eq!(trie.remove_node(&chars, 1, 'b'), (None, false));
    assert_eq!(trie.remove_node(&chars, 0, 'a'), (None, false));
    assert_eq!(trie.remove_node(&chars, 0, 'z'), (None, false));
    assert_eq!(trie.len(), 1);
    assert_eq!(trie.find("ab").unwrap().id, 1);
}

#[test]
fn node_turns_into_an_entry_and_back() {
    let mut node: TrieNode<TestValue> = TrieNode::new_internal();
    assert!(node.is_internal());
    assert!(node.is_unused());
    assert_eq!(node.value(), None);
    assert!(matches!(node.make_entry(TestValue::new(1)), InsertResult::Added));
    assert!(!node.is_internal());
    assert!(!node.is_unused());
    match node.make_entry(TestValue::new(2)) {
        InsertResult::Updated(previous) => assert_eq!(previous.id, 1),
        InsertResult::Added => panic!("the node had a value"),
    }
    assert_eq!(node.value().unwrap().id, 2);
    assert_eq!(node.take_value().unwrap().id, 2);
    assert_eq!(node.take_value(), None);
    assert!(node.is_unused());
    assert!(node.next().is_empty());
    assert!(node.next_mut().is_empty());
}
