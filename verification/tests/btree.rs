use robust_trees::btree::{BTree, Direction, Node, NodeType};
use robust_trees::iot::IoTDevice;

#[test]
fn test_new_leaf() {
    let leaf = Node::new_leaf();
    assert_eq!(leaf.len(), 0);
    assert!(leaf.is_empty());
}

#[test]
fn test_new_regular() {
    let regular = Node::new_regular();
    assert_eq!(regular.len(), 0);
    assert!(regular.is_empty());
}

#[test]
fn test_add_key_left() {
    // Arrange
    let mut leaf = Node::new_leaf();
    let key = 10;
    let value = (Some(IoTDevice::new(10, "device", "")), None);
    assert!(leaf.add_key(key, value));

    // Act
    let new_key = 20;
    let new_value = (Some(IoTDevice::new(20, "new_device", "")), None);
    assert!(leaf.add_key(new_key, new_value));

    // Assert
    assert_eq!(leaf.len(), 2);
    assert_eq!(
        leaf.values(),
        &vec![
            Some(IoTDevice::new(10, "device", "")),
            Some(IoTDevice::new(20, "new_device", ""))
        ]
    );
    assert_eq!(leaf.children(), &vec![None, None]);
}

#[test]
fn should_add_key_right() {
    // Arrange
    let mut leaf = Node::new_leaf();
    let key = 10;
    let value = (Some(IoTDevice::new(10, "device", "")), None);
    assert!(leaf.add_key(key, value));

    // Act
    let new_key = 5;
    let new_value = (Some(IoTDevice::new(5, "new_device", "")), None);
    assert!(leaf.add_key(new_key, new_value));

    // Assert
    assert_eq!(leaf.len(), 2);
    assert_eq!(
        leaf.values(),
        &vec![
            Some(IoTDevice::new(5, "new_device", "")),
            Some(IoTDevice::new(10, "device", ""))
        ]
    );
    assert_eq!(leaf.children(), &vec![None, None]);
}

#[test]
fn should_remove_key_left() {
    // Arrange
    let mut leaf = Node::new_leaf();
    let key = 10;
    let value = (Some(IoTDevice::new(10, "device", "")), None);
    assert!(leaf.add_key(key, value));

    // Act
    let removed = leaf.remove_key(10);

    // Assert
    assert_eq!(leaf.len(), 0);
    assert_eq!(
        removed,
        Some((10, (Some(IoTDevice::new(10, "device", "")), None)))
    );
}

#[test]
fn should_remove_key_right() {
    // Arrange
    let mut leaf = Node::new_leaf();
    leaf.add_key(10, (Some(IoTDevice::new(10, "device", "")), None));
    leaf.add_key(20, (Some(IoTDevice::new(20, "new_device", "")), None));

    // Act
    let removed = leaf.remove_key(20);

    // Assert
    assert_eq!(leaf.len(), 1);
    assert_eq!(
        removed,
        Some((20, (Some(IoTDevice::new(20, "new_device", "")), None)))
    );
}

#[test]
#[should_panic]
fn should_panic_when_node_is_overflowed_and_split() {
    // Arrange
    let mut leaf = Node::new_leaf();
    leaf.add_key(10, (Some(IoTDevice::new(10, "device", "")), None));
    leaf.add_key(20, (Some(IoTDevice::new(20, "new_device", "")), None));
    leaf.add_key(30, (Some(IoTDevice::new(30, "new_device", "")), None));
    leaf.add_key(40, (Some(IoTDevice::new(40, "new_device", "")), None));

    // Act
    let (orphan, new_node) = leaf.split();

    // Assert
    assert_eq!(orphan, IoTDevice::new(20, "new_device", ""));
    assert_eq!(new_node.len(), 1);
    assert_eq!(
        new_node.values(),
        &vec![Some(IoTDevice::new(30, "new_device", ""))]
    );
}

#[test]
fn should_be_split_when_overflowed() {
    // Arrange
    let mut leaf = Node::new_leaf();
    leaf.add_key(10, (Some(IoTDevice::new(10, "device", "")), None));
    leaf.add_key(20, (Some(IoTDevice::new(20, "new_device", "")), None));
    leaf.add_key(30, (Some(IoTDevice::new(30, "new_device", "")), None));
    leaf.add_key(40, (Some(IoTDevice::new(40, "new_device", "")), None));

    // Act
    let (orphan, new_node) = leaf.split();

    // Assert
    assert_eq!(orphan, IoTDevice::new(30, "new_device", ""));
    assert_eq!(new_node.len(), 1);
    assert_eq!(
        new_node.values(),
        &vec![Some(IoTDevice::new(40, "new_device", ""))]
    );
}

#[test]
fn should_find_closest_mutable_child() {
    // Arrange
    let mut node = Node::new_leaf();
    node.add_key(10, (Some(IoTDevice::new(10, "device", "")), None));
    node.add_key(20, (Some(IoTDevice::new(20, "new_device", "")), None));

    // Act
    let child = node.find_child_mut(15);

    // Assert
    assert_eq!(child, Some(&mut None));
}

#[test]
fn should_add_value_when_btree_is_empty() {
    // Arrange
    let mut btree = BTree::default();
    let key = 10;
    let device1 = IoTDevice::new(10, "device", "");

    // Act
    btree.add(key, device1.clone());

    // Assert
    assert_eq!(btree.length(), 1);
    assert_eq!(btree.find(key), Some(&device1));
}

#[test]
fn should_add_value_when_btree_has_a_value() {
    // Arrange
    let mut btree = BTree::default();
    let device1 = IoTDevice::new(10, "device", "");
    let device2 = IoTDevice::new(20, "new_device", "");
    btree.add(10, device1.clone());

    // Act
    btree.add(20, device2.clone());

    // Assert
    assert_eq!(btree.length(), 2);
    assert_eq!(btree.find(10), Some(&device1));
    assert_eq!(btree.find(20), Some(&device2));
}

fn device(id: u64) -> IoTDevice {
    IoTDevice::new(id, "", "")
}

#[test]
fn closest_index_is_the_last_value_not_above_the_key() {
    let mut leaf = Node::new_leaf();
    assert!(leaf.find_closest_index(5) == Direction::Left);
    leaf.add_key(10, (Some(device(10)), None));
    leaf.add_key(20, (Some(device(20)), None));
    leaf.add_key(30, (Some(device(30)), None));
    assert!(leaf.find_closest_index(9) == Direction::Left);
    assert!(leaf.find_closest_index(10) == Direction::Right(0));
    assert!(leaf.find_closest_index(19) == Direction::Right(0));
    assert!(leaf.find_closest_index(20) == Direction::Right(1));
    assert!(leaf.find_closest_index(35) == Direction::Right(2));
}

#[test]
fn closest_index_skips_empty_values() {
    let mut leaf = Node::new_leaf();
    leaf.add_key(10, (Some(device(10)), None));
    leaf.add_key(30, (Some(device(30)), None));
    leaf.add_key(10, (None, None));
    assert_eq!(leaf.values(), &vec![Some(device(10)), None, Some(device(30))]);
    assert!(leaf.find_closest_index(20) == Direction::Right(0));
    assert!(leaf.find_closest_index(30) == Direction::Right(2));
}

#[test]
fn find_value_and_child_on_a_node_with_children() {
    let mut node = Node::new_regular();
    assert!(node.node_type == NodeType::Regular);
    let mut low = Node::new_leaf();
    low.add_key(15, (Some(device(15)), None));
    node.add_key(10, (Some(device(10)), Some(low)));
    node.add_key(20, (Some(device(20)), None));
    assert_eq!(node.find_value(10), Some(&device(10)));
    assert_eq!(node.find_value(15), None);
    let child = node.find_child(15).unwrap();
    assert_eq!(child.find_value(15), Some(&device(15)));
    assert!(node.find_child(25).is_none());
    assert!(node.find_child(5).is_none());
    let slot = node.find_child_mut(25).unwrap();
    *slot = Some(Node::new_leaf());
    assert!(node.find_child(25).is_some());
    let removed = node.remove_key(12).unwrap();
    assert_eq!(removed.0, 12);
    assert_eq!((removed.1).0, Some(device(10)));
    assert!((removed.1).1.is_some());
    assert_eq!(node.len(), 1);
}

#[test]
fn remove_key_before_every_value_takes_the_leftmost_child() {
    let mut leaf = Node::new_leaf();
    leaf.add_key(10, (Some(device(10)), None));
    let removed = leaf.remove_key(5);
    assert_eq!(removed, Some((5, (None, None))));
    assert_eq!(leaf.len(), 1);
}

#[test]
fn leftmost_child_is_found_and_taken_for_small_keys() {
    let mut node = Node::new_regular();
    node.add_key(10, (Some(device(10)), None));
    let mut low = Node::new_leaf();
    low.add_key(3, (Some(device(3)), None));
    node.set_left_child(low);
    assert_eq!(node.find_child(5).unwrap().find_value(3), Some(&device(3)));
    let (key, (value, child)) = node.remove_key(5).unwrap();
    assert_eq!(key, 5);
    assert_eq!(value, None);
    assert_eq!(child.unwrap().len(), 1);
    assert!(node.find_child(5).is_none());
    assert_eq!(node.len(), 1);
}

#[test]
fn overflow_starts_at_three_values() {
    let mut leaf = Node::new_leaf();
    leaf.add_key(10, (Some(device(10)), None));
    leaf.add_key(20, (Some(device(20)), None));
    assert!(!leaf.is_overflow());
    leaf.add_key(30, (Some(device(30)), None));
    assert!(leaf.is_overflow());
}

#[test]
fn split_of_three_values_leaves_one_on_each_side() {
    let mut leaf = Node::new_leaf();
    leaf.add_key(10, (Some(device(10)), None));
    leaf.add_key(20, (Some(device(20)), None));
    leaf.add_key(30, (Some(device(30)), None));
    let (orphan, right) = leaf.split();
    assert_eq!(orphan, device(20));
    assert_eq!(leaf.values(), &vec![Some(device(10))]);
    assert_eq!(leaf.children(), &vec![None]);
    assert_eq!(right.values(), &vec![Some(device(30))]);
    assert!(right.node_type == NodeType::Leaf);
}

#[test]
fn btree_keeps_devices_in_key_order_and_finds_the_first() {
    let mut btree = BTree::new();
    for id in [30u64, 10, 20, 10] {
        btree.add(id, IoTDevice::new(id, "first", ""));
    }
    btree.add(20, IoTDevice::new(20, "second", ""));
    assert_eq!(btree.length(), 5);
    assert_eq!(btree.find(20).unwrap().address, "first");
    assert_eq!(btree.find(25), None);
    assert_eq!(BTree::default().find(1), None);
}
