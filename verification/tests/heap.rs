use robust_trees::heap::{HeapTree, MessageChecker};
use robust_trees::iot::{IoTDevice, MessageNotification};

#[test]
fn test_no_notification() {
    let mut checker = MessageChecker::default();
    assert_eq!(checker.length(), 0);
    let notification = checker.pop();
    assert_eq!(notification, None);
}

#[test]
fn test_single_notification() {
    let mut checker = MessageChecker::default();
    let device = IoTDevice::new(1, "", "");
    checker.add(MessageNotification::new(1, device));
    assert_eq!(checker.length(), 1);
    let notification = checker.pop();
    assert_eq!(notification.unwrap().message_count, 1);
    assert_eq!(checker.length(), 0);
}

#[test]
fn test_multiple_notifications() {
    let mut checker = MessageChecker::default();
    let device = IoTDevice::new(1, "", "");
    checker.add(MessageNotification::new(1, device.clone()));
    checker.add(MessageNotification::new(2, device.clone()));
    checker.add(MessageNotification::new(3, device.clone()));
    assert_eq!(checker.length(), 3);
    let notification = checker.pop();
    assert_eq!(
        notification.unwrap().message_count,
        3,
        "メッセージ数が1番多い通知"
    );
    assert_eq!(checker.length(), 2, "要素は2つになる");
    let notification = checker.pop();
    assert_eq!(
        notification.unwrap().message_count,
        2,
        "メッセージ数が2番目に多い通知"
    );
    assert_eq!(checker.length(), 1, "要素は1つになる");
    let notification = checker.pop();
    assert_eq!(
        notification.unwrap().message_count,
        1,
        "メッセージ数が3番目に多い通知"
    );
    assert_eq!(checker.length(), 0);
}

fn notification(count: u64) -> MessageNotification {
    MessageNotification::new(count, IoTDevice::new(count, "", ""))
}

#[test]
fn pops_come_in_descending_order() {
    let mut heap: HeapTree<MessageNotification> = HeapTree::default();
    let counts = [4u64, 3, 2, 1, 9, 7, 8, 5, 6, 0, 9, 4];
    for count in counts {
        heap.add(notification(count));
    }
    assert_eq!(heap.length(), counts.len());
    let mut popped = Vec::new();
    while let Some(top) = heap.pop() {
        popped.push(top.message_count);
    }
    assert_eq!(popped, vec![9, 9, 8, 7, 6, 5, 4, 4, 3, 2, 1, 0]);
    assert_eq!(heap.length(), 0);
    assert_eq!(heap.pop(), None);
}

#[test]
fn pop_after_descending_adds_gives_the_greatest() {
    let mut checker = MessageChecker::new();
    for count in [4u64, 3, 2, 1] {
        checker.add(notification(count));
    }
    assert_eq!(checker.pop().unwrap().message_count, 4);
    assert_eq!(checker.pop().unwrap().message_count, 3);
    assert_eq!(checker.pop().unwrap().message_count, 2);
    assert_eq!(checker.pop().unwrap().message_count, 1);
    assert_eq!(checker.pop(), None);
}

#[test]
fn bubble_down_on_an_ordered_heap_changes_nothing() {
    let mut heap: HeapTree<MessageNotification> = HeapTree::new();
    for count in [5u64, 4, 3] {
        heap.add(notification(count));
    }
    heap.bubble_down(0);
    heap.bubble_down(7);
    assert_eq!(heap.length(), 3);
    assert_eq!(heap.pop().unwrap().message_count, 5);
    assert_eq!(heap.pop().unwrap().message_count, 4);
    assert_eq!(heap.pop().unwrap().message_count, 3);
}

#[test]
fn pseudo_random_adds_and_pops_keep_the_order() {
    let mut heap: HeapTree<MessageNotification> = HeapTree::new();
    let mut held: Vec<u64> = Vec::new();
    let mut seed: u64 = 99;
    for round in 0..400 {
        seed = seed.wrapping_mul(6364136223846793005).wrapping_add(1442695040888963407);
        if round % 3 == 2 {
            let expected = held.iter().copied().max();
            let got = heap.pop().map(|n| n.message_count);
            assert_eq!(got, expected);
            if let Some(max) = expected {
                let at = held.iter().position(|c| *c == max).unwrap();
                held.swap_remove(at);
            }
        } else {
            let count = (seed >> 40) % 50;
            heap.add(notification(count));
            held.push(count);
        }
        assert_eq!(heap.length(), held.len());
    }
}
