use robust_trees::iot::{DeviceRegistry, IoTDevice, MessageNotification};
use robust_trees::keyed::{Keyed, Labeled};
use robust_trees::order::compare_keys;
use std::cmp::Ordering;

#[test]
fn add_single_char_name_device() {
    // Arrange
    let mut registry = DeviceRegistry::default();

    // Act
    registry.add(IoTDevice::new(1, "", "a"));

    // Assert
    assert_eq!(registry.length(), 1);
    assert_eq!(registry.find("a").unwrap().numeriacl_id, 1);
}

#[test]
fn should_add_multiple_char_name_device() {
    // Arrange
    let mut registry = DeviceRegistry::default();

    // Act
    registry.add(IoTDevice::new(1, "", "abc"));

    // Assert
    assert_eq!(registry.length(), 1);
    assert_eq!(registry.find("abc").unwrap().numeriacl_id, 1);
}

#[test]
fn when_same_key_passed_should_update_with_new_device() {
    // Arrange
    let mut registry = DeviceRegistry::default();
    registry.add(IoTDevice::new(1, "", "abc"));

    // Act
    registry.add(IoTDevice::new(2, "", "abc"));

    // Assert
    assert_eq!(registry.length(), 1);
    assert_eq!(registry.find("abc").unwrap().numeriacl_id, 2);
}

#[test]
fn when_same_prefixed_key_paased_should_add_new_device() {
    // Arrange
    let mut registry = DeviceRegistry::default();
    registry.add(IoTDevice::new(1, "", "abc"));

    // Act
    registry.add(IoTDevice::new(2, "", "ab"));

    // Assert
    assert_eq!(registry.length(), 2);
    assert_eq!(registry.find("abc").unwrap().numeriacl_id, 1);
    assert_eq!(registry.find("ab").unwrap().numeriacl_id, 2);
}

#[test]
fn when_same_prefixed_but_different_key_passed_should_add_new_device() {
    // Arrange
    let mut registry = DeviceRegistry::default();
    registry.add(IoTDevice::new(1, "", "abc"));

    // Act
    registry.add(IoTDevice::new(2, "", "abx"));

    // Assert
    assert_eq!(registry.length(), 2);
    assert_eq!(registry.find("abc").unwrap().numeriacl_id, 1);
    assert_eq!(registry.find("abx").unwrap().numeriacl_id, 2);
}

#[test]
fn removed_device_is_gone() {
    let mut registry = DeviceRegistry::new();
    registry.add(IoTDevice::new(1, "10.0.0.1", "hall/lamp"));
    registry.add(IoTDevice::new(2, "10.0.0.2", "hall/door"));
    registry.remove("hall/lamp");
    assert_eq!(registry.length(), 1);
    assert!(registry.find("hall/lamp").is_none());
    assert_eq!(registry.find("hall/door").unwrap().address, "10.0.0.2");
    registry.remove("hall/lamp");
    assert_eq!(registry.length(), 1);
}

#[test]
fn device_keeps_its_fields_and_compares_by_id() {
    let device = IoTDevice::new(7, "10.0.0.7", "roof/vane");
    assert_eq!(device.numeriacl_id, 7);
    assert_eq!(device.address, "10.0.0.7");
    assert_eq!(device.path, "roof/vane");
    assert_eq!(device, IoTDevice::new(7, "elsewhere", "other"));
    assert_ne!(device, IoTDevice::new(8, "10.0.0.7", "roof/vane"));
    let copy = device.clone();
    assert_eq!(copy.address, "10.0.0.7");
    assert_eq!(copy.path, "roof/vane");
}

#[test]
fn notification_keeps_count_and_device() {
    let notification = MessageNotification::new(12, IoTDevice::new(3, "a", "b"));
    assert_eq!(notification.message_count, 12);
    assert_eq!(notification.device.numeriacl_id, 3);
}

#[test]
fn device_label_is_its_id_in_decimal() {
    assert_eq!(IoTDevice::new(0, "", "").to_label(), "0");
    assert_eq!(IoTDevice::new(7, "", "").to_label(), "7");
    assert_eq!(IoTDevice::new(10, "", "").to_label(), "10");
    assert_eq!(IoTDevice::new(1234567890, "", "").to_label(), "1234567890");
    assert_eq!(IoTDevice::new(u64::MAX, "", "").to_label(), "18446744073709551615");
}

#[test]
fn devices_are_ordered_by_id() {
    let low = IoTDevice::new(1, "z", "z");
    let high = IoTDevice::new(2, "a", "a");
    assert!(low < high);
    assert!(high > low);
    assert!(low <= IoTDevice::new(1, "a", "a"));
    assert_eq!(low.partial_cmp(&high), Some(Ordering::Less));
    assert_eq!(high.partial_cmp(&low), Some(Ordering::Greater));
    assert_eq!(low.partial_cmp(&IoTDevice::new(1, "", "")), Some(Ordering::Equal));
    assert_eq!(low.key_of(), 1);
}

#[test]
fn notifications_are_ordered_by_message_count() {
    let few = MessageNotification::new(3, IoTDevice::new(9, "", ""));
    let many = MessageNotification::new(8, IoTDevice::new(1, "", ""));
    assert!(few < many);
    assert!(many >= few);
    assert_eq!(few.partial_cmp(&many), Some(Ordering::Less));
    assert_eq!(many.key_of(), 8);
}

#[test]
fn keys_compare_as_numbers() {
    assert_eq!(compare_keys(1, 2), Ordering::Less);
    assert_eq!(compare_keys(2, 2), Ordering::Equal);
    assert_eq!(compare_keys(u64::MAX, 0), Ordering::Greater);
}
