//! The order of devices and of notifications: each by its key alone.

use crate::iot::{IoTDevice, MessageNotification};
use std::cmp::Ordering;
use vstd::prelude::*;
use vstd::std_specs::cmp::PartialOrdSpecImpl;

verus! {

/// How the key `a` stands to the key `b`.
pub open spec fn key_order(a: u64, b: u64) -> Ordering {
    if a < b {
        Ordering::Less
    } else if a > b {
        Ordering::Greater
    } else {
        Ordering::Equal
    }
}

/// Compares two keys.
pub fn compare_keys(a: u64, b: u64) -> (order: Ordering)
    ensures
        order == key_order(a, b),
{
    if a < b {
        Ordering::Less
    } else if a > b {
        Ordering::Greater
    } else {
        Ordering::Equal
    }
}

impl PartialOrd for IoTDevice {
    /// Devices are ordered by their ids.
    fn partial_cmp(&self, other: &Self) -> (order: Option<Ordering>) {
        Some(compare_keys(self.numeriacl_id, other.numeriacl_id))
    }
}

impl PartialOrdSpecImpl for IoTDevice {
    open spec fn obeys_partial_cmp_spec() -> bool {
        true
    }

    open spec fn partial_cmp_spec(&self, other: &Self) -> Option<Ordering> {
        Some(key_order(self.numeriacl_id, other.numeriacl_id))
    }
}

impl PartialOrd for MessageNotification {
    /// Notifications are ordered by their numbers of messages.
    fn partial_cmp(&self, other: &Self) -> (order: Option<Ordering>) {
        Some(compare_keys(self.message_count, other.message_count))
    }
}

impl PartialOrdSpecImpl for MessageNotification {
    open spec fn obeys_partial_cmp_spec() -> bool {
        true
    }

    open spec fn partial_cmp_spec(&self, other: &Self) -> Option<Ordering> {
        Some(key_order(self.message_count, other.message_count))
    }
}

} // verus!
