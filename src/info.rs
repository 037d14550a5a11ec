use vstd::prelude::*;
use crate::path::DevicePath;

verus! {

/// What a device record holds, with its strings as character sequences.
pub struct DeviceModel {
    pub path: DevicePath,
    pub class: Seq<char>,
    pub vendor: Seq<char>,
    pub product: Seq<char>,
    pub manufacturer: Option<Seq<char>>,
    pub class_id: Option<u16>,
    pub vendor_id: u16,
    pub product_id: u16,
    pub manufacturer_id: Option<u16>,
}

/// Identity of one connected device. Use the accessors to read it.
#[derive(Clone, Debug, Eq, Hash, Ord, PartialEq, PartialOrd)]
pub struct DeviceInfo {
    pub path: DevicePath,
    pub class: String,
    pub vendor: String,
    pub product: String,
    pub manufacturer: Option<String>,
    pub class_id: Option<u16>,
    pub vendor_id: u16,
    pub product_id: u16,
    pub manufacturer_id: Option<u16>,
}

pub open spec fn opt_view(o: Option<String>) -> Option<Seq<char>> {
    match o {
        Some(s) => Some(s@),
        None => None,
    }
}

impl View for DeviceInfo {
    type V = DeviceModel;

    open spec fn view(&self) -> DeviceModel {
        DeviceModel {
            path: self.path,
            class: self.class@,
            vendor: self.vendor@,
            product: self.product@,
            manufacturer: opt_view(self.manufacturer),
            class_id: self.class_id,
            vendor_id: self.vendor_id,
            product_id: self.product_id,
            manufacturer_id: self.manufacturer_id,
        }
    }
}

impl DeviceInfo {
    /// Where the device is mounted (its `Location` on Windows).
    pub fn path(&self) -> (r: &DevicePath)
        ensures
            *r == self@.path,
    {
        &self.path
    }

    /// The class name of the device.
    pub fn class(&self) -> (r: &str)
        ensures
            r@ == self@.class,
    {
        self.class.as_str()
    }

    /// The name of the device's vendor.
    pub fn vendor(&self) -> (r: &str)
        ensures
            r@ == self@.vendor,
    {
        self.vendor.as_str()
    }

    /// The device's product name.
    pub fn product(&self) -> (r: &str)
        ensures
            r@ == self@.product,
    {
        self.product.as_str()
    }

    /// The name of the device's manufacturer, where known; always `None` for PCI devices.
    pub fn manufacturer(&self) -> (r: &Option<String>)
        ensures
            opt_view(*r) == self@.manufacturer,
    {
        &self.manufacturer
    }

    /// The class id of the device; always `None` for devices read on Windows.
    pub fn class_id(&self) -> (r: Option<u16>)
        ensures
            r == self@.class_id,
    {
        self.class_id
    }

    /// The id of the device's vendor.
    pub fn vendor_id(&self) -> (r: u16)
        ensures
            r == self@.vendor_id,
    {
        self.vendor_id
    }

    /// The device's product id.
    pub fn product_id(&self) -> (r: u16)
        ensures
            r == self@.product_id,
    {
        self.product_id
    }

    /// The id of the device's manufacturer, where known; always `None` for PCI devices.
    pub fn manufacturer_id(&self) -> (r: Option<u16>)
        ensures
            r == self@.manufacturer_id,
    {
        self.manufacturer_id
    }
}

} // verus!
