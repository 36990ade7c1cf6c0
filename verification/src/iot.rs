//! The records that the containers hold: devices and message notifications.

use crate::keyed::{Keyed, Labeled};
use crate::text::{codes, decimal, to_decimal};
use crate::trie::TrieTree;
use vstd::prelude::*;
use vstd::std_specs::cmp::PartialEqSpecImpl;
use vstd::string::StringExecFns;

verus! {

/// A device, identified by its numerical id.
#[derive(Debug)]
pub struct IoTDevice {
    pub numeriacl_id: u64,
    pub path: String,
    pub address: String,
}

impl IoTDevice {
    pub fn new(id: u64, address: &str, path: &str) -> (device: IoTDevice)
        ensures
            device.numeriacl_id == id,
            device.address@ == address@,
            device.path@ == path@,
    {
        IoTDevice {
            numeriacl_id: id,
            address: String::from_str(address),
            path: String::from_str(path),
        }
    }
}

impl Clone for IoTDevice {
    fn clone(&self) -> (copy: Self)
        ensures
            copy == *self,
    {
        IoTDevice {
            numeriacl_id: self.numeriacl_id,
            path: self.path.clone(),
            address: self.address.clone(),
        }
    }
}

impl PartialEq for IoTDevice {
    /// Devices are equal when their ids are.
    fn eq(&self, other: &Self) -> (equal: bool) {
        self.numeriacl_id == other.numeriacl_id
    }
}

impl PartialEqSpecImpl for IoTDevice {
    open spec fn obeys_eq_spec() -> bool {
        true
    }

    open spec fn eq_spec(&self, other: &Self) -> bool {
        self.numeriacl_id == other.numeriacl_id
    }
}

impl Eq for IoTDevice {

}

impl Keyed for IoTDevice {
    open spec fn key(&self) -> u64 {
        self.numeriacl_id
    }

    fn key_of(&self) -> (k: u64) {
        self.numeriacl_id
    }
}

impl Labeled for IoTDevice {
    /// A device is shown as its id in decimal.
    open spec fn label(&self) -> Seq<char> {
        decimal(self.numeriacl_id as nat)
    }

    fn to_label(&self) -> (s: String) {
        to_decimal(self.numeriacl_id)
    }
}

/// A notification that a device has messages waiting.
#[derive(Clone, Debug, PartialEq, Eq)]
pub struct MessageNotification {
    pub message_count: u64,
    pub device: IoTDevice,
}

impl MessageNotification {
    pub fn new(id: u64, device: IoTDevice) -> (notification: MessageNotification)
        ensures
            notification.message_count == id,
            notification.device == device,
    {
        MessageNotification { message_count: id, device }
    }
}

impl Keyed for MessageNotification {
    open spec fn key(&self) -> u64 {
        self.message_count
    }

    fn key_of(&self) -> (k: u64) {
        self.message_count
    }
}

/// The registry of devices by path.
pub struct DeviceRegistry {
    trie: TrieTree<IoTDevice>,
}

impl View for DeviceRegistry {
    type V = Map<Seq<u32>, IoTDevice>;

    /// The devices, each under the code points of its path.
    closed spec fn view(&self) -> Map<Seq<u32>, IoTDevice> {
        self.trie@
    }
}

impl DeviceRegistry {
    /// The trie below is well formed.
    pub closed spec fn wf(&self) -> bool {
        self.trie.wf()
    }

    /// An empty registry.
    pub fn new() -> (registry: Self)
        ensures
            registry.wf(),
            registry@ == Map::<Seq<u32>, IoTDevice>::empty(),
    {
        DeviceRegistry { trie: TrieTree::new() }
    }

    /// Registers `device` under its path, which must not be empty; a
    /// device that was registered under the same path is replaced.
    pub fn add(&mut self, device: IoTDevice)
        requires
            old(self).wf(),
            device.path@.len() > 0,
            old(self)@.dom().len() < usize::MAX,
        ensures
            final(self).wf(),
            final(self)@ == old(self)@.insert(codes(device.path@), device),
    {
        proof {
            self.trie.lemma_counted();
        }
        self.trie.add(device.path.clone(), device);
    }

    /// The device registered under `path`.
    pub fn find(&self, path: &str) -> (found: Option<&IoTDevice>)
        requires
            self.wf(),
        ensures
            match found {
                Some(device) => self@.contains_key(codes(path@)) && self@[codes(path@)] == *device,
                None => !self@.contains_key(codes(path@)),
            },
    {
        self.trie.find(path)
    }

    /// Takes the device registered under `path` out of the registry.
    pub fn remove(&mut self, path: &str)
        requires
            old(self).wf(),
        ensures
            final(self).wf(),
            final(self)@ == old(self)@.remove(codes(path@)),
    {
        let _ = self.trie.remove(path);
    }

    /// The number of devices.
    pub fn length(&self) -> (n: usize)
        requires
            self.wf(),
        ensures
            n == self@.dom().len(),
    {
        self.trie.len()
    }
}

impl Default for DeviceRegistry {
    fn default() -> (registry: Self)
        ensures
            registry.wf(),
            registry@ == Map::<Seq<u32>, IoTDevice>::empty(),
    {
        DeviceRegistry::new()
    }
}

} // verus!
