use vstd::prelude::*;

verus! {

/// Hardware classes that a device record can describe.
#[derive(PartialEq, Eq, Structural, Clone, Copy, Debug)]
pub enum DeviceKind {
    KTHUsb,
}

/// One hardware unit of the inventory.
///
/// A device keeps every attribute when it moves between groups; only the
/// group that holds it changes.
#[derive(Debug)]
pub struct Device {
    pub id: u32,
    pub kind: DeviceKind,
    pub port: String,
    pub is_open: bool,
    pub firmware: u16,
}

impl Device {
    /// A device record whose connection counts as established.
    pub fn new(id: u32, kind: DeviceKind, port: String, firmware: u16) -> (r: Self)
        ensures
            r.id == id,
            r.kind == kind,
            r.port == port,
            r.firmware == firmware,
            r.is_open,
    {
        Device { id, kind, port, firmware, is_open: true }
    }
}

impl Clone for Device {
    fn clone(&self) -> (r: Self)
        ensures
            r == *self,
    {
        Device {
            id: self.id,
            kind: self.kind,
            port: self.port.clone(),
            is_open: self.is_open,
            firmware: self.firmware,
        }
    }
}

} // verus!
