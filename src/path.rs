use vstd::prelude::*;

verus! {

/// Where a device sits on its bus.
#[derive(Clone, Copy, Debug, PartialEq, Eq, Structural, Hash, PartialOrd, Ord)]
pub enum DevicePath {
    /// A PCI device: bus, slot (the "device" of Windows) and function.
    PCI { bus: u8, slot: u8, function: u8 },
    /// A USB device: bus (the "hub" of Windows) and device (the "port" of Windows).
    USB { bus: u8, device: u8 },
}

} // verus!
