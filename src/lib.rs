//! Identity of the PCI and USB devices attached to a host, read from the raw
//! forms that the platforms give: listing text on POSIX systems, property
//! buffers on Windows.
use vstd::prelude::*;

pub mod chars;
pub mod error;
pub mod ids;
pub mod info;
pub mod path;
pub mod pci;
pub mod usb;
pub mod utf16;
pub mod win;

pub use error::Error;
pub use info::{DeviceInfo, DeviceModel};
pub use path::DevicePath;
pub use pci::parse_pci_listing;
pub use usb::parse_usb_listing;
pub use win::{RawDevice, parse_hwids};

verus! {

/// The views of a sequence of records.
pub open spec fn models(v: Seq<DeviceInfo>) -> Seq<DeviceModel> {
    Seq::new(v.len(), |i: int| v[i]@)
}

/// What a call that returns records gave, as views.
pub open spec fn outcome(r: Result<Vec<DeviceInfo>, Error>) -> Result<Seq<DeviceModel>, Error> {
    match r {
        Ok(v) => Ok(models(v@)),
        Err(e) => Err(e),
    }
}

/// The records of a listing, or `ParseError` where it is malformed.
pub open spec fn listing_outcome(o: Option<Seq<DeviceModel>>) -> Result<Seq<DeviceModel>, Error> {
    match o {
        Some(ms) => Ok(ms),
        None => Err(Error::ParseError),
    }
}

/// Parsing the same PCI or USB listing twice gives identical records: what a
/// parse returns depends on the text alone.
pub proof fn lemma_listing_parse_repeatable(
    text: Seq<char>,
    first: Result<Vec<DeviceInfo>, Error>,
    second: Result<Vec<DeviceInfo>, Error>,
    is_usb: bool,
)
    requires
        !is_usb ==> outcome(first) == listing_outcome(pci::pci_listing(text)) && outcome(
            second,
        ) == listing_outcome(pci::pci_listing(text)),
        is_usb ==> outcome(first) == listing_outcome(usb::usb_listing(text)) && outcome(
            second,
        ) == listing_outcome(usb::usb_listing(text)),
    ensures
        outcome(first) == outcome(second),
{
}

/// Decoding the same property buffer twice gives the same text.
pub proof fn lemma_property_decode_repeatable(
    buf: Seq<u8>,
    first: Result<String, Error>,
    second: Result<String, Error>,
)
    requires
        match utf16::property_text(buf) {
            Some(s) => (first matches Ok(x) && x@ == s) && (second matches Ok(y) && y@ == s),
            None => first == Err::<String, Error>(Error::ParseError) && second == Err::<
                String,
                Error,
            >(Error::ParseError),
        },
    ensures
        first is Ok <==> second is Ok,
        first matches Ok(x) ==> second matches Ok(y) && x@ == y@,
{
}

/// Information about the devices of a system.
pub struct Devices;

impl Devices {
    /// All devices: the PCI devices, then the USB devices. The PCI error comes
    /// first where both enumerations failed.
    pub fn get(pci: Result<Vec<DeviceInfo>, Error>, usb: Result<Vec<DeviceInfo>, Error>) -> (r:
        Result<Vec<DeviceInfo>, Error>)
        ensures
            match (pci, usb) {
                (Err(e), _) => r == Err::<Vec<DeviceInfo>, Error>(e),
                (Ok(_), Err(e)) => r == Err::<Vec<DeviceInfo>, Error>(e),
                (Ok(p), Ok(u)) => r matches Ok(v) && v@ == p@ + u@,
            },
    {
        let mut devices = pci?;
        let mut more = usb?;
        devices.append(&mut more);
        Ok(devices)
    }
}

} // verus!
