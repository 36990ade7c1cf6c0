use robust_trees::iot::IoTDevice;
use robust_trees::red_black_tree::{Color, DeviceRegistry, Node, Rotation};

fn value(id: u64) -> IoTDevice {
    IoTDevice::new(id, "", "")
}

fn filled(keys: &[u64]) -> DeviceRegistry<IoTDevice> {
    let mut registry = DeviceRegistry::default();
    for key in keys {
        registry.insert(value(*key));
    }
    registry
}

fn in_order(registry: &DeviceRegistry<IoTDevice>, node: Option<usize>, out: &mut Vec<u64>) {
    if let Some(index) = node {
        in_order(registry, registry.node(index).left, out);
        out.push(registry.node(index).v.numeriacl_id);
        in_order(registry, registry.node(index).right, out);
    }
}

/// The number of black nodes on every path from `node` down to an empty
/// position; panics where two paths differ or a red node has a red child.
fn black_height(registry: &DeviceRegistry<IoTDevice>, node: Option<usize>, parent_red: bool) -> usize {
    match node {
        None => 0,
        Some(index) => {
            let cell = registry.node(index);
            let red = cell.color == Color::Red;
            assert!(!(red && parent_red), "a red node below a red node");
            let left = black_height(registry, cell.left, red);
            let right = black_height(registry, cell.right, red);
            assert_eq!(left, right, "paths with different numbers of black nodes");
            left + if red { 0 } else { 1 }
        }
    }
}

fn assert_red_black(registry: &DeviceRegistry<IoTDevice>) {
    if let Some(root) = registry.root() {
        assert!(registry.node(root).color == Color::Black);
        assert!(registry.node(root).is_root());
    }
    black_height(registry, registry.root(), false);
    let mut keys = Vec::new();
    in_order(registry, registry.root(), &mut keys);
    assert_eq!(keys.len() as u64, registry.length());
    for pair in keys.windows(2) {
        assert!(pair[0] <= pair[1]);
    }
}

#[test]
fn test_frist_node() {
    let mut registry = DeviceRegistry::default();
    registry.insert(IoTDevice::new(5, "", ""));

    assert_eq!(registry.length(), 1);
    let root = registry.root().unwrap();
    assert_eq!(registry.node(root).v, Node::new(IoTDevice::new(5, "", "")).v);
}

#[test]
fn when_second_node_value_is_larger_then_root_node_should_have_right_child() {
    let mut registry = DeviceRegistry::default();
    registry.insert_internal(value(5));
    registry.insert_internal(value(6));
    registry.insert_internal(value(4));

    assert_eq!(registry.length(), 3);
}

#[test]
fn tree_should_be_balanced() {
    let mut registry = DeviceRegistry::default();
    registry.insert(value(1));
    registry.insert(value(2));
    registry.insert(value(3));

    assert_eq!(registry.length(), 3);
    assert_eq!(
        registry.render(),
        r#"- 2
  - 3
  - 1
"#
    );
}

#[test]
fn when_complex_tree_should_be_balanced() {
    let mut registry = DeviceRegistry::default();
    registry.insert(value(2));
    registry.insert(value(1));
    registry.insert(value(4));
    registry.insert(value(3));
    registry.insert(value(7));
    registry.insert(value(6));
    registry.insert(value(5));

    assert_eq!(registry.length(), 7);
    assert_eq!(
        registry.render(),
        "- 2\n  - 4\n    - 6\n      - 7\n      - 5\n    - 3\n  - 1\n"
    );
}

#[test]
fn test_insert_internal() {
    let mut registry = DeviceRegistry::default();
    let p = value(6);
    registry.insert_internal(p);
    let n = value(4);
    registry.insert_internal(n);
    let r = value(5);
    registry.insert_internal(r);
    let l = value(2);
    registry.insert_internal(l);
    let gl = value(1);
    registry.insert_internal(gl);
    let gr = value(3);
    registry.insert_internal(gr);

    assert_eq!(registry.length(), 6);
    let should_p = registry.node(registry.root().unwrap());
    assert!(should_p.is_root());
    let should_n = registry.node(should_p.left.unwrap());
    assert_eq!(should_n.v, value(4));
    let should_r = registry.node(should_n.right.unwrap());
    assert_eq!(should_r.v, value(5));
    let should_l = registry.node(should_n.left.unwrap());
    assert_eq!(should_l.v, value(2));
    let should_gl = registry.node(should_l.left.unwrap());
    assert_eq!(should_gl.v, value(1));
    let should_gr = registry.node(should_l.right.unwrap());
    assert_eq!(should_gr.v, value(3));
}

#[test]
fn test_rotate_when_node_is_left_child_then_rotate_right_should_make_left_child_of_parent_left_child_of_node(
) {
    // 6
    //  l 4
    //    l 2
    //      l 1
    //      r 3
    //    r 5
    // after rotate based on 4
    // 6
    //  l 2
    //    l 1
    //    r 4
    //      l 3
    //      r 5
    let mut registry = DeviceRegistry::default();
    let p = value(6);
    registry.insert_internal(p.clone());
    let n = value(4);
    registry.insert_internal(n.clone());
    let r = value(5);
    registry.insert_internal(r.clone());
    let l = value(2);
    registry.insert_internal(l.clone());
    let gl = value(1);
    registry.insert_internal(gl.clone());
    let gr = value(3);
    registry.insert_internal(gr.clone());

    // Act
    let node = registry.node(registry.root().unwrap()).left.unwrap();

    registry.rotate(node, Rotation::Right);

    // Assert
    assert_eq!(registry.length(), 6);
    let new_p = registry.node(registry.root().unwrap());
    assert!(new_p.is_root());
    let new_pl = registry.node(new_p.left.unwrap());
    assert_eq!(new_pl.v, l);
    let new_ll = registry.node(new_pl.left.unwrap());
    assert_eq!(new_ll.v, gl);
    let new_lr = registry.node(new_pl.right.unwrap());
    assert_eq!(new_lr.v, n);
    let new_nl = registry.node(new_lr.left.unwrap());
    assert_eq!(new_nl.v, gr);
    let new_nr = registry.node(new_lr.right.unwrap());
    assert_eq!(new_nr.v, r);
}

#[test]
fn test_rotate_when_node_is_left_child_then_rotate_right_should_make_right_child_of_parent_left_child_of_node(
) {
    // 6
    //  r 10
    //    l 8
    //      l 7
    //      r 9
    //    r 11
    // after rotate based on 10
    // 6
    //  r 8
    //    l 7
    //    r 10
    //      l 9
    //      r 11
    let mut registry = DeviceRegistry::default();
    let p = value(6);
    registry.insert_internal(p.clone());
    let n = value(10);
    registry.insert_internal(n.clone());
    let r = value(11);
    registry.insert_internal(r.clone());
    let l = value(8);
    registry.insert_internal(l.clone());
    let gl = value(7);
    registry.insert_internal(gl.clone());
    let gr = value(9);
    registry.insert_internal(gr.clone());

    // Act
    let node = registry.node(registry.root().unwrap()).right.unwrap();

    registry.rotate(node, Rotation::Right);

    // Assert
    assert_eq!(registry.length(), 6);
    let new_p = registry.node(registry.root().unwrap());
    assert!(new_p.is_root());
    let new_pl = registry.node(new_p.right.unwrap());
    assert_eq!(new_pl.v, l);
    let new_ll = registry.node(new_pl.left.unwrap());
    assert_eq!(new_ll.v, gl);
    let new_lr = registry.node(new_pl.right.unwrap());
    assert_eq!(new_lr.v, n);
    let new_nl = registry.node(new_lr.left.unwrap());
    assert_eq!(new_nl.v, gr);
    let new_nr = registry.node(new_lr.right.unwrap());
    assert_eq!(new_nr.v, r);
}

#[test]
fn test_rotate_when_node_is_root_rotate_right_should_make_left_child_root() {
    // 6
    //  l 4
    //    l 2
    //    r 5
    //  r 10
    // after rotate based on 6
    // 4
    //  l 2
    //  r 6
    //    l 5
    //    r 10
    let mut registry = DeviceRegistry::default();
    let n = value(6);
    registry.insert_internal(n.clone());
    let l = value(4);
    registry.insert_internal(l.clone());
    let r = value(10);
    registry.insert_internal(r.clone());
    let gl = value(2);
    registry.insert_internal(gl.clone());
    let gr = value(5);
    registry.insert_internal(gr.clone());

    // Act
    let node = registry.root().unwrap();

    registry.rotate(node, Rotation::Right);

    // Assert
    let new_p = registry.node(registry.node(node).parent.unwrap());
    assert!(new_p.is_root());
    assert_eq!(new_p.v, l);
    let new_l = registry.node(registry.node(new_p.right.unwrap()).left.unwrap());
    assert_eq!(new_l.v, gr);
    assert_eq!(registry.root(), registry.node(node).parent);
}

#[test]
fn test_rotate_when_node_is_left_child_then_rotate_left_should_make_right_child_of_parent_right_child_of_node(
) {
    // 6
    //  r 10
    //    l 8
    //    r 12
    //      l 11
    //      r 13
    // after rotate based on 10
    // 6
    //  r 12
    //    l 10
    //      l 8
    //      r 11
    //    r 13
    let mut registry = DeviceRegistry::default();
    let p = value(6);
    registry.insert_internal(p.clone());
    let n = value(10);
    registry.insert_internal(n.clone());
    let l = value(8);
    registry.insert_internal(l.clone());
    let r = value(12);
    registry.insert_internal(r.clone());
    let gl = value(11);
    registry.insert_internal(gl.clone());
    let gr = value(13);
    registry.insert_internal(gr.clone());

    // Act
    let node = registry.node(registry.root().unwrap()).right.unwrap();

    registry.rotate(node, Rotation::Left);

    // Assert
    assert_eq!(registry.length(), 6);
    let new_p = registry.node(registry.root().unwrap());
    assert!(new_p.is_root());
    assert_eq!(new_p.v, p);
    let new_pr = registry.node(new_p.right.unwrap());
    assert_eq!(new_pr.v, r);
    let new_rl = registry.node(new_pr.left.unwrap());
    assert_eq!(new_rl.v, n);
    let new_rr = registry.node(new_pr.right.unwrap());
    assert_eq!(new_rr.v, gr);
    let new_nl = registry.node(new_rl.left.unwrap());
    assert_eq!(new_nl.v, l);
    let new_nr = registry.node(new_rl.right.unwrap());
    assert_eq!(new_nr.v, gl);
}

#[test]
fn when_only_root_node_and_search_value_exists_then_returns_the_matched_element() {
    let mut registry = DeviceRegistry::default();
    registry.insert(value(5));
    let result = registry.find(value(5));
    assert_eq!(result, Some(value(5)));
}

#[test]
fn when_some_nodes_and_search_value_exists_then_returns_the_matched_element() {
    let mut registry = DeviceRegistry::default();
    registry.insert(value(5));
    registry.insert(value(6));
    registry.insert(value(4));
    let result = registry.find(value(6));
    assert_eq!(result, Some(value(6)));
}

#[test]
fn when_threre_are_some_nodes_and_search_value_does_not_exist_then_returns_none() {
    let mut registry = DeviceRegistry::default();
    registry.insert(value(5));
    registry.insert(value(6));
    registry.insert(value(4));
    let result = registry.find(value(7));
    assert_eq!(result, None);
}

#[test]
fn new_node_is_red_and_unlinked() {
    let mut node = Node::new(value(1));
    assert!(node.color == Color::Red);
    assert!(node.is_root());
    assert_eq!(node.left, None);
    assert_eq!(node.right, None);
    node.switch_color(Color::Black);
    assert!(node.color == Color::Black);
    node.set_color(Color::Black);
    assert!(node.color == Color::Black);
    node.set_color(Color::Red);
    assert!(node.color == Color::Red);
}

#[test]
fn empty_registry_has_no_root_and_walks_nothing() {
    let registry: DeviceRegistry<IoTDevice> = DeviceRegistry::new();
    assert_eq!(registry.length(), 0);
    assert_eq!(registry.root(), None);
    assert_eq!(registry.find(value(1)), None);
    assert_eq!(registry.traversal(), vec![]);
    assert_eq!(registry.render(), "");
    let mut calls = 0;
    registry.walk(|_, _| calls += 1);
    assert_eq!(calls, 0);
}

#[test]
fn insert_five_six_four_needs_no_rotation() {
    let registry = filled(&[5, 6, 4]);
    let mut keys = Vec::new();
    in_order(&registry, registry.root(), &mut keys);
    assert_eq!(keys, vec![4, 5, 6]);
    let root = registry.node(registry.root().unwrap());
    assert_eq!(root.v, value(5));
    assert_eq!(registry.node(root.left.unwrap()).v, value(4));
    assert_eq!(registry.node(root.right.unwrap()).v, value(6));
    assert_red_black(&registry);
}

#[test]
fn insert_ascending_rotates_once() {
    let registry = filled(&[1, 2, 3]);
    let root = registry.node(registry.root().unwrap());
    assert_eq!(root.v, value(2));
    assert!(root.color == Color::Black);
    let left = registry.node(root.left.unwrap());
    let right = registry.node(root.right.unwrap());
    assert_eq!(left.v, value(1));
    assert_eq!(right.v, value(3));
    assert!(left.color == Color::Red);
    assert!(right.color == Color::Red);
    assert_eq!(left.parent, registry.root());
    assert_eq!(right.parent, registry.root());
    let mut keys = Vec::new();
    in_order(&registry, registry.root(), &mut keys);
    assert_eq!(keys, vec![1, 2, 3]);
    assert_red_black(&registry);
}

#[test]
fn insert_seven_keys_keeps_the_rules() {
    let registry = filled(&[2, 1, 4, 3, 7, 6, 5]);
    assert_eq!(registry.length(), 7);
    let mut keys = Vec::new();
    in_order(&registry, registry.root(), &mut keys);
    assert_eq!(keys, vec![1, 2, 3, 4, 5, 6, 7]);
    assert_red_black(&registry);
}

#[test]
fn rules_hold_after_every_insertion() {
    let mut registry = DeviceRegistry::default();
    let mut seed: u64 = 12345;
    for count in 1..=300u64 {
        seed = seed.wrapping_mul(6364136223846793005).wrapping_add(1442695040888963407);
        let key = (seed >> 33) % 64;
        registry.insert(value(key));
        assert_eq!(registry.length(), count);
        assert_red_black(&registry);
        assert_eq!(registry.find(value(key)), Some(value(key)));
    }
}

#[test]
fn descending_and_ascending_runs_stay_balanced() {
    let mut registry = DeviceRegistry::default();
    for key in (0..100u64).rev() {
        registry.insert(value(key));
        assert_red_black(&registry);
    }
    for key in 100..200u64 {
        registry.insert(value(key));
        assert_red_black(&registry);
    }
    assert_eq!(registry.length(), 200);
    assert_eq!(registry.find(value(200)), None);
}

#[test]
fn duplicates_are_kept_and_counted() {
    let mut registry = DeviceRegistry::default();
    for _ in 0..5 {
        registry.insert(value(7));
    }
    assert_eq!(registry.length(), 5);
    let mut keys = Vec::new();
    in_order(&registry, registry.root(), &mut keys);
    assert_eq!(keys, vec![7, 7, 7, 7, 7]);
    assert_red_black(&registry);
}

#[test]
fn a_tie_goes_to_the_right() {
    let mut registry = DeviceRegistry::default();
    let first = registry.insert_internal(IoTDevice::new(5, "first", ""));
    let second = registry.insert_internal(IoTDevice::new(5, "second", ""));
    assert_eq!(registry.node(first).right, Some(second));
    assert_eq!(registry.node(first).left, None);
    assert_eq!(registry.node(second).parent, Some(first));
    let found = registry.find(value(5)).unwrap();
    assert_eq!(found.address, "first");
}

#[test]
fn rotate_right_then_left_restores_the_links() {
    let mut registry = DeviceRegistry::default();
    for key in [6u64, 4, 5, 2, 1, 3] {
        registry.insert_internal(value(key));
    }
    let links = |registry: &DeviceRegistry<IoTDevice>| -> Vec<(Option<usize>, Option<usize>, Option<usize>)> {
        (0..6).map(|i| (registry.node(i).parent, registry.node(i).left, registry.node(i).right)).collect()
    };
    let before = links(&registry);
    let before_root = registry.root();
    let mut before_keys = Vec::new();
    in_order(&registry, registry.root(), &mut before_keys);
    let node = registry.node(registry.root().unwrap()).left.unwrap();
    let child = registry.node(node).left.unwrap();

    registry.rotate(node, Rotation::Right);
    assert_ne!(links(&registry), before);
    let mut middle_keys = Vec::new();
    in_order(&registry, registry.root(), &mut middle_keys);
    assert_eq!(middle_keys, before_keys);

    registry.rotate(child, Rotation::Left);
    assert_eq!(links(&registry), before);
    assert_eq!(registry.root(), before_root);
    let mut after_keys = Vec::new();
    in_order(&registry, registry.root(), &mut after_keys);
    assert_eq!(after_keys, before_keys);
}

#[test]
fn traversal_visits_node_then_right_then_left() {
    let registry = filled(&[2, 1, 4, 3, 7, 6, 5]);
    let visits: Vec<(u64, usize)> = registry
        .traversal()
        .into_iter()
        .map(|(node, depth)| (registry.node(node).v.numeriacl_id, depth))
        .collect();
    assert_eq!(visits, vec![(2, 0), (4, 1), (6, 2), (7, 3), (5, 3), (3, 2), (1, 1)]);
    let mut seen = Vec::new();
    registry.walk(|device, depth| seen.push((device.numeriacl_id, depth)));
    assert_eq!(seen, visits);
}
