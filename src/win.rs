//! The Windows path: device records assembled from the raw property buffers
//! that the platform's device enumeration returns for each device.
use vstd::prelude::*;
use crate::chars::{
    chars_of, find, find_range, lemma_find_bounds, lemma_find_char, lemma_find_char_none, split_all,
    split_ranges,
};
use crate::error::Error;
use crate::ids::{
    all_digits, digit_value, digits_value, lemma_digits_value_bound, parse_number, parse_number_range,
};
use crate::info::{DeviceInfo, DeviceModel};
use crate::path::DevicePath;
use crate::utf16::{property_string, property_strings, property_text, property_texts};

verus! {

/// The raw property buffers of one enumerated device, each as its query returned it.
pub struct RawDevice {
    /// The location information (`DEVPKEY_Device_LocationInfo`).
    pub location: Result<Vec<u8>, Error>,
    /// The setup class name (`SPDRP_CLASS`).
    pub class: Result<Vec<u8>, Error>,
    /// The manufacturer name (`SPDRP_MFG`), which also serves as the vendor name.
    pub mfg: Result<Vec<u8>, Error>,
    /// The device description (`SPDRP_DEVICEDESC`), used as the product name.
    pub description: Result<Vec<u8>, Error>,
    /// The hardware ids, a multi-string (`SPDRP_HARDWAREID`).
    pub hardware_ids: Result<Vec<u8>, Error>,
}

/// The text of a queried buffer: the query's own error, or `ParseError` where
/// the buffer does not decode.
pub open spec fn text_of(r: Result<Vec<u8>, Error>) -> Result<Seq<char>, Error> {
    match r {
        Ok(b) => match property_text(b@) {
            Some(s) => Ok(s),
            None => Err(Error::ParseError),
        },
        Err(e) => Err(e),
    }
}

/// The strings of a queried multi-string buffer.
pub open spec fn texts_of(r: Result<Vec<u8>, Error>) -> Result<Seq<Seq<char>>, Error> {
    match r {
        Ok(b) => match property_texts(b@) {
            Some(s) => Ok(s),
            None => Err(Error::ParseError),
        },
        Err(e) => Err(e),
    }
}

pub open spec fn strings_view(v: Seq<String>) -> Seq<Seq<char>> {
    Seq::new(v.len(), |i: int| v[i]@)
}

/// A piece `LLLLxxxx`: a four-character label, then a hexadecimal id.
pub open spec fn labelled_id(piece: Seq<char>) -> Option<int> {
    if piece.len() < 4 {
        None
    } else {
        parse_number(piece.skip(4), 16, 0x10000)
    }
}

/// Vendor and product id from the first hardware id, `BUS\VID_xxxx&PID_yyyy...`:
/// a four-character bus prefix, then `&`-separated labelled ids.
pub open spec fn hardware_ids(hwids: Seq<Seq<char>>) -> Option<(u16, u16)> {
    if hwids.len() == 0 || hwids[0].len() < 4 {
        None
    } else {
        let pieces = split_all(hwids[0].skip(4), seq!['&']);
        if pieces.len() < 2 {
            None
        } else {
            match (labelled_id(pieces[0]), labelled_id(pieces[1])) {
                (Some(v), Some(p)) => Some((v as u16, p as u16)),
                _ => None,
            }
        }
    }
}

pub open spec fn dec_u8(s: Seq<char>) -> Option<int> {
    parse_number(s, 10, 0x100)
}

/// `PCI bus B, device S, function F`: three comma-separated labelled decimal numbers.
pub open spec fn pci_location(s: Seq<char>) -> Option<DevicePath> {
    let ps = split_all(s, seq![',', ' ']);
    if ps.len() < 3 || ps[0].len() < 8 || ps[1].len() < 7 || ps[2].len() < 9 {
        None
    } else {
        match (dec_u8(ps[0].skip(8)), dec_u8(ps[1].skip(7)), dec_u8(ps[2].skip(9))) {
            (Some(b), Some(d), Some(f)) => Some(
                DevicePath::PCI { bus: b as u8, slot: d as u8, function: f as u8 },
            ),
            _ => None,
        }
    }
}

/// `Port_#DDDD.Hub_#BBBB`: the device (port) before the first dot, the bus (hub) after it.
pub open spec fn usb_location(s: Seq<char>) -> Option<DevicePath> {
    match find(s, seq!['.']) {
        Some(i) => {
            let port = s.take(i);
            let hub = s.skip(i + 1);
            if port.len() < 6 || hub.len() < 5 {
                None
            } else {
                match (dec_u8(port.skip(6)), dec_u8(hub.skip(5))) {
                    (Some(d), Some(b)) => Some(DevicePath::USB { bus: b as u8, device: d as u8 }),
                    _ => None,
                }
            }
        },
        None => None,
    }
}

/// Four hexadecimal digits, in either case, are read as their value.
pub proof fn lemma_four_hex_digits(v: Seq<char>)
    requires
        v.len() == 4,
        all_digits(v, 16),
    ensures
        parse_number(v, 16, 0x10000) == Some(digits_value(v, 16)),
{
    lemma_digits_value_bound(v, 16);
    reveal_with_fuel(crate::ids::power, 5);
}

/// For hardware ids whose first entry is `<bus prefix>VID_xxxx&PID_yyyy...`, the
/// vendor and product id are the values of the literal hexadecimal digits, in
/// either case; the labels may be any four characters other than `&`.
pub proof fn lemma_hardware_id_digits(
    bus: Seq<char>,
    vendor_label: Seq<char>,
    v: Seq<char>,
    product_label: Seq<char>,
    p: Seq<char>,
    rest: Seq<char>,
    others: Seq<Seq<char>>,
)
    requires
        bus.len() == 4,
        vendor_label.len() == 4,
        product_label.len() == 4,
        v.len() == 4,
        p.len() == 4,
        all_digits(v, 16),
        all_digits(p, 16),
        forall|i: int| 0 <= i < 4 ==> vendor_label[i] != '&' && product_label[i] != '&',
        rest.len() == 0 || rest[0] == '&',
    ensures
        hardware_ids(
            seq![bus + vendor_label + v + seq!['&'] + product_label + p + rest] + others,
        ) == Some((digits_value(v, 16) as u16, digits_value(p, 16) as u16)),
{
    let first = bus + vendor_label + v + seq!['&'] + product_label + p + rest;
    let hw = seq![first] + others;
    assert(hw[0] == first);
    let s = first.skip(4);
    assert(s =~= vendor_label + v + seq!['&'] + product_label + p + rest);
    assert forall|j: int| 0 <= j < 8 implies s[j] != '&' by {
        if j < 4 {
            assert(s[j] == vendor_label[j]);
        } else {
            assert(s[j] == v[j - 4]);
            assert(digit_value(v[j - 4]) < 16);
        }
    }
    lemma_find_char(s, '&', 8);
    let t = s.skip(9);
    assert(t =~= product_label + p + rest);
    if rest.len() == 0 {
        assert forall|j: int| 0 <= j < t.len() implies t[j] != '&' by {
            if j < 4 {
                assert(t[j] == product_label[j]);
            } else {
                assert(t[j] == p[j - 4]);
                assert(digit_value(p[j - 4]) < 16);
            }
        }
        lemma_find_char_none(t, '&');
        assert(split_all(t, seq!['&']) == seq![t]);
        assert(split_all(t, seq!['&'])[0] =~= product_label + p);
    } else {
        assert forall|j: int| 0 <= j < 8 implies t[j] != '&' by {
            if j < 4 {
                assert(t[j] == product_label[j]);
            } else {
                assert(t[j] == p[j - 4]);
                assert(digit_value(p[j - 4]) < 16);
            }
        }
        assert(t[8] == rest[0]);
        lemma_find_char(t, '&', 8);
        assert(t.take(8) =~= product_label + p);
        assert(split_all(t, seq!['&']) == seq![t.take(8)] + split_all(t.skip(9), seq!['&']));
        assert(split_all(t, seq!['&'])[0] =~= product_label + p);
    }
    let pieces = split_all(s, seq!['&']);
    assert(pieces == seq![s.take(8)] + split_all(t, seq!['&']));
    assert(s.take(8) =~= vendor_label + v);
    assert(pieces[0] == vendor_label + v);
    assert(pieces[1] =~= product_label + p);
    assert((vendor_label + v).skip(4) =~= v);
    assert((product_label + p).skip(4) =~= p);
    lemma_four_hex_digits(v);
    lemma_four_hex_digits(p);
}

/// Reads the vendor and product id from a device's hardware ids; only the first,
/// most specific, one is read.
pub fn parse_hwids(hwids: &[String]) -> (r: Result<(u16, u16), Error>)
    ensures
        match hardware_ids(strings_view(hwids@)) {
            Some(ids) => r == Ok::<(u16, u16), Error>(ids),
            None => r == Err::<(u16, u16), Error>(Error::ParseError),
        },
{
    if hwids.len() == 0 {
        return Err(Error::ParseError);
    }
    let cs = chars_of(hwids[0].as_str());
    assert(strings_view(hwids@)[0] == cs@);
    if cs.len() < 4 {
        return Err(Error::ParseError);
    }
    let amp: Vec<char> = vec!['&'];
    assert(amp@ =~= seq!['&']);
    assert(cs@.skip(4) =~= cs@.subrange(4, cs@.len() as int));
    let ps = split_ranges(&cs, 4, cs.len(), &amp);
    if ps.len() < 2 {
        return Err(Error::ParseError);
    }
    let (a0, b0) = ps[0];
    let (a1, b1) = ps[1];
    if b0 - a0 < 4 || b1 - a1 < 4 {
        return Err(Error::ParseError);
    }
    assert(cs@.subrange(a0 as int, b0 as int).skip(4) =~= cs@.subrange(a0 + 4, b0 as int));
    assert(cs@.subrange(a1 as int, b1 as int).skip(4) =~= cs@.subrange(a1 + 4, b1 as int));
    let v = parse_number_range(&cs, a0 + 4, b0, 16, 0x10000);
    let p = parse_number_range(&cs, a1 + 4, b1, 16, 0x10000);
    match (v, p) {
        (Some(v), Some(p)) => Ok((v as u16, p as u16)),
        _ => Err(Error::ParseError),
    }
}

/// Reads a PCI location, `PCI bus B, device S, function F`.
pub fn parse_pci_location(s: &str) -> (r: Result<DevicePath, Error>)
    ensures
        match pci_location(s@) {
            Some(p) => r == Ok::<DevicePath, Error>(p),
            None => r == Err::<DevicePath, Error>(Error::ParseError),
        },
{
    let cs = chars_of(s);
    let sep: Vec<char> = vec![',', ' '];
    assert(sep@ =~= seq![',', ' ']);
    assert(cs@.subrange(0, cs@.len() as int) =~= s@);
    let ps = split_ranges(&cs, 0, cs.len(), &sep);
    if ps.len() < 3 {
        return Err(Error::ParseError);
    }
    let (a0, b0) = ps[0];
    let (a1, b1) = ps[1];
    let (a2, b2) = ps[2];
    if b0 - a0 < 8 || b1 - a1 < 7 || b2 - a2 < 9 {
        return Err(Error::ParseError);
    }
    assert(cs@.subrange(a0 as int, b0 as int).skip(8) =~= cs@.subrange(a0 + 8, b0 as int));
    assert(cs@.subrange(a1 as int, b1 as int).skip(7) =~= cs@.subrange(a1 + 7, b1 as int));
    assert(cs@.subrange(a2 as int, b2 as int).skip(9) =~= cs@.subrange(a2 + 9, b2 as int));
    let b = parse_number_range(&cs, a0 + 8, b0, 10, 0x100);
    let d = parse_number_range(&cs, a1 + 7, b1, 10, 0x100);
    let f = parse_number_range(&cs, a2 + 9, b2, 10, 0x100);
    match (b, d, f) {
        (Some(b), Some(d), Some(f)) => Ok(
            DevicePath::PCI { bus: b as u8, slot: d as u8, function: f as u8 },
        ),
        _ => Err(Error::ParseError),
    }
}

/// Reads a USB location, `Port_#DDDD.Hub_#BBBB`.
pub fn parse_usb_location(s: &str) -> (r: Result<DevicePath, Error>)
    ensures
        match usb_location(s@) {
            Some(p) => r == Ok::<DevicePath, Error>(p),
            None => r == Err::<DevicePath, Error>(Error::ParseError),
        },
{
    let cs = chars_of(s);
    let dot: Vec<char> = vec!['.'];
    assert(dot@ =~= seq!['.']);
    assert(cs@.subrange(0, cs@.len() as int) =~= s@);
    proof {
        lemma_find_bounds(s@, dot@);
    }
    let i = match find_range(&cs, 0, cs.len(), &dot) {
        Some(i) => i,
        None => return Err(Error::ParseError),
    };
    if i < 6 || cs.len() - (i + 1) < 5 {
        return Err(Error::ParseError);
    }
    assert(s@.take(i as int).skip(6) =~= cs@.subrange(6, i as int));
    assert(s@.skip(i + 1).skip(5) =~= cs@.subrange(i + 6, cs@.len() as int));
    let d = parse_number_range(&cs, 6, i, 10, 0x100);
    let b = parse_number_range(&cs, i + 6, cs.len(), 10, 0x100);
    match (d, b) {
        (Some(d), Some(b)) => Ok(DevicePath::USB { bus: b as u8, device: d as u8 }),
        _ => Err(Error::ParseError),
    }
}

/// The record of a PCI device; the first failure, in the order the fields are
/// read, is the result.
pub open spec fn pci_device(d: RawDevice) -> Result<DeviceModel, Error> {
    match text_of(d.location) {
        Err(e) => Err(e),
        Ok(loc) => match pci_location(loc) {
            None => Err(Error::ParseError),
            Some(path) => match (text_of(d.class), text_of(d.mfg), text_of(d.description)) {
                (Err(e), _, _) => Err(e),
                (Ok(_), Err(e), _) => Err(e),
                (Ok(_), Ok(_), Err(e)) => Err(e),
                (Ok(class), Ok(vendor), Ok(product)) => match texts_of(d.hardware_ids) {
                    Err(e) => Err(e),
                    Ok(h) => match hardware_ids(h) {
                        None => Err(Error::ParseError),
                        Some((vendor_id, product_id)) => Ok(
                            DeviceModel {
                                path,
                                class,
                                vendor,
                                product,
                                manufacturer: None,
                                class_id: None,
                                vendor_id,
                                product_id,
                                manufacturer_id: None,
                            },
                        ),
                    },
                },
            },
        },
    }
}

/// The record of a USB device: `Ok(None)` where its location or its hardware ids
/// cannot be read (the device is skipped), an error where a name cannot be read.
pub open spec fn usb_device(d: RawDevice) -> Result<Option<DeviceModel>, Error> {
    match text_of(d.location) {
        Err(_) => Ok(None),
        Ok(loc) => match usb_location(loc) {
            None => Ok(None),
            Some(path) => match (text_of(d.class), text_of(d.mfg), text_of(d.description)) {
                (Err(e), _, _) => Err(e),
                (Ok(_), Err(e), _) => Err(e),
                (Ok(_), Ok(_), Err(e)) => Err(e),
                (Ok(class), Ok(vendor), Ok(product)) => match texts_of(d.hardware_ids) {
                    Err(_) => Ok(None),
                    Ok(h) => match hardware_ids(h) {
                        None => Ok(None),
                        Some((vendor_id, product_id)) => Ok(
                            Some(
                                DeviceModel {
                                    path,
                                    class,
                                    vendor,
                                    product,
                                    manufacturer: Some(vendor),
                                    class_id: None,
                                    vendor_id,
                                    product_id,
                                    manufacturer_id: None,
                                },
                            ),
                        ),
                    },
                },
            },
        },
    }
}

/// The records of a sequence of PCI devices; the first error ends the enumeration.
pub open spec fn pci_devices(ds: Seq<RawDevice>) -> Result<Seq<DeviceModel>, Error>
    decreases ds.len(),
{
    if ds.len() == 0 {
        Ok(Seq::empty())
    } else {
        match pci_devices(ds.drop_last()) {
            Err(e) => Err(e),
            Ok(rs) => match pci_device(ds.last()) {
                Err(e) => Err(e),
                Ok(m) => Ok(rs.push(m)),
            },
        }
    }
}

/// The records of a sequence of USB devices, skipped ones left out; the first
/// error ends the enumeration.
pub open spec fn usb_devices(ds: Seq<RawDevice>) -> Result<Seq<DeviceModel>, Error>
    decreases ds.len(),
{
    if ds.len() == 0 {
        Ok(Seq::empty())
    } else {
        match usb_devices(ds.drop_last()) {
            Err(e) => Err(e),
            Ok(rs) => match usb_device(ds.last()) {
                Err(e) => Err(e),
                Ok(None) => Ok(rs),
                Ok(Some(m)) => Ok(rs.push(m)),
            },
        }
    }
}

/// Where an emulation layer's bus shows up, there is no real topology to read.
pub open spec fn enumeration(emulated: bool, devs: Result<Seq<DeviceModel>, Error>) -> Result<
    Seq<DeviceModel>,
    Error,
> {
    if emulated {
        Err(Error::UnsupportedPlatform)
    } else {
        devs
    }
}

fn text_exec(r: &Result<Vec<u8>, Error>) -> (out: Result<String, Error>)
    ensures
        match text_of(*r) {
            Ok(s) => out matches Ok(x) && x@ == s,
            Err(e) => out == Err::<String, Error>(e),
        },
{
    match r {
        Ok(b) => property_string(b.as_slice()),
        Err(e) => Err(*e),
    }
}

fn texts_exec(r: &Result<Vec<u8>, Error>) -> (out: Result<Vec<String>, Error>)
    ensures
        match texts_of(*r) {
            Ok(s) => out matches Ok(x) && strings_view(x@) == s,
            Err(e) => out == Err::<Vec<String>, Error>(e),
        },
{
    match r {
        Ok(b) => {
            let out = property_strings(b.as_slice());
            proof {
                if out is Ok {
                    assert(strings_view(out->Ok_0@) =~= property_texts(b@)->Some_0);
                }
            }
            out
        },
        Err(e) => Err(*e),
    }
}

/// The record of one PCI device from its raw property buffers.
pub fn pci_device_info(d: &RawDevice) -> (r: Result<DeviceInfo, Error>)
    ensures
        match pci_device(*d) {
            Ok(m) => r matches Ok(x) && x@ == m,
            Err(e) => r == Err::<DeviceInfo, Error>(e),
        },
{
    let loc = text_exec(&d.location)?;
    let path = parse_pci_location(loc.as_str())?;
    let class = text_exec(&d.class)?;
    let vendor = text_exec(&d.mfg)?;
    let product = text_exec(&d.description)?;
    let hwids = texts_exec(&d.hardware_ids)?;
    let (vendor_id, product_id) = parse_hwids(hwids.as_slice())?;
    Ok(
        DeviceInfo {
            path,
            class,
            vendor,
            product,
            manufacturer: None,
            class_id: None,
            vendor_id,
            product_id,
            manufacturer_id: None,
        },
    )
}

/// The record of one USB device from its raw property buffers; `Ok(None)` where
/// the device is to be skipped.
pub fn usb_device_info(d: &RawDevice) -> (r: Result<Option<DeviceInfo>, Error>)
    ensures
        match usb_device(*d) {
            Ok(Some(m)) => r matches Ok(Some(x)) && x@ == m,
            Ok(None) => r matches Ok(None),
            Err(e) => r == Err::<Option<DeviceInfo>, Error>(e),
        },
{
    let loc = match text_exec(&d.location) {
        Ok(s) => s,
        Err(_) => return Ok(None),
    };
    let path = match parse_usb_location(loc.as_str()) {
        Ok(p) => p,
        Err(_) => return Ok(None),
    };
    let class = text_exec(&d.class)?;
    let vendor = text_exec(&d.mfg)?;
    let product = text_exec(&d.description)?;
    let manufacturer = vendor.clone();
    let hwids = match texts_exec(&d.hardware_ids) {
        Ok(h) => h,
        Err(_) => return Ok(None),
    };
    let (vendor_id, product_id) = match parse_hwids(hwids.as_slice()) {
        Ok(ids) => ids,
        Err(_) => return Ok(None),
    };
    Ok(
        Some(
            DeviceInfo {
                path,
                class,
                vendor,
                product,
                manufacturer: Some(manufacturer),
                class_id: None,
                vendor_id,
                product_id,
                manufacturer_id: None,
            },
        ),
    )
}

/// The PCI devices of an enumeration. `emulated` says whether the emulation
/// layer's bus was found, which makes the platform unsupported.
pub fn windows_pci_devices(emulated: bool, devices: &Vec<RawDevice>) -> (r: Result<
    Vec<DeviceInfo>,
    Error,
>)
    ensures
        match enumeration(emulated, pci_devices(devices@)) {
            Ok(ms) => r matches Ok(v) && v@.len() == ms.len() && forall|i: int|
                0 <= i < ms.len() ==> #[trigger] v@[i]@ == ms[i],
            Err(e) => r == Err::<Vec<DeviceInfo>, Error>(e),
        },
{
    if emulated {
        return Err(Error::UnsupportedPlatform);
    }
    let ghost ds = devices@;
    let mut out: Vec<DeviceInfo> = Vec::new();
    let mut k: usize = 0;
    while k < devices.len()
        invariant
            k <= devices@.len(),
            ds == devices@,
            !emulated,
            pci_devices(ds.take(k as int)) matches Ok(ms) && out@.len() == ms.len() && forall|
                i: int,
            | 0 <= i < ms.len() ==> #[trigger] out@[i]@ == ms[i],
        decreases devices@.len() - k,
    {
        assert(ds.take(k + 1).drop_last() =~= ds.take(k as int));
        assert(ds.take(k + 1).last() == ds[k as int]);
        match pci_device_info(&devices[k]) {
            Ok(d) => out.push(d),
            Err(e) => {
                proof {
                    assert(pci_devices(ds.take(k + 1)) == Err::<Seq<DeviceModel>, Error>(e));
                    lemma_pci_devices_fail(ds, k as int + 1, e);
                    assert(pci_devices(devices@) == Err::<Seq<DeviceModel>, Error>(e));
                }
                return Err(e);
            },
        }
        k = k + 1;
    }
    assert(ds.take(k as int) =~= ds);
    Ok(out)
}

proof fn lemma_pci_devices_fail(ds: Seq<RawDevice>, k: int, e: Error)
    requires
        0 <= k <= ds.len(),
        pci_devices(ds.take(k)) == Err::<Seq<DeviceModel>, Error>(e),
    ensures
        pci_devices(ds) == Err::<Seq<DeviceModel>, Error>(e),
    decreases ds.len() - k,
{
    if k < ds.len() {
        assert(ds.take(k + 1).drop_last() =~= ds.take(k));
        lemma_pci_devices_fail(ds, k + 1, e);
    } else {
        assert(ds.take(k) =~= ds);
    }
}

proof fn lemma_usb_devices_fail(ds: Seq<RawDevice>, k: int, e: Error)
    requires
        0 <= k <= ds.len(),
        usb_devices(ds.take(k)) == Err::<Seq<DeviceModel>, Error>(e),
    ensures
        usb_devices(ds) == Err::<Seq<DeviceModel>, Error>(e),
    decreases ds.len() - k,
{
    if k < ds.len() {
        assert(ds.take(k + 1).drop_last() =~= ds.take(k));
        lemma_usb_devices_fail(ds, k + 1, e);
    } else {
        assert(ds.take(k) =~= ds);
    }
}

/// The USB devices of an enumeration: devices whose location or hardware ids
/// cannot be read are skipped; any other failure ends the enumeration.
pub fn windows_usb_devices(emulated: bool, devices: &Vec<RawDevice>) -> (r: Result<
    Vec<DeviceInfo>,
    Error,
>)
    ensures
        match enumeration(emulated, usb_devices(devices@)) {
            Ok(ms) => r matches Ok(v) && v@.len() == ms.len() && forall|i: int|
                0 <= i < ms.len() ==> #[trigger] v@[i]@ == ms[i],
            Err(e) => r == Err::<Vec<DeviceInfo>, Error>(e),
        },
{
    if emulated {
        return Err(Error::UnsupportedPlatform);
    }
    let ghost ds = devices@;
    let mut out: Vec<DeviceInfo> = Vec::new();
    let mut k: usize = 0;
    while k < devices.len()
        invariant
            k <= devices@.len(),
            ds == devices@,
            !emulated,
            usb_devices(ds.take(k as int)) matches Ok(ms) && out@.len() == ms.len() && forall|
                i: int,
            | 0 <= i < ms.len() ==> #[trigger] out@[i]@ == ms[i],
        decreases devices@.len() - k,
    {
        assert(ds.take(k + 1).drop_last() =~= ds.take(k as int));
        assert(ds.take(k + 1).last() == ds[k as int]);
        match usb_device_info(&devices[k]) {
            Ok(Some(d)) => out.push(d),
            Ok(None) => {},
            Err(e) => {
                proof {
                    assert(usb_devices(ds.take(k + 1)) == Err::<Seq<DeviceModel>, Error>(e));
                    lemma_usb_devices_fail(ds, k as int + 1, e);
                    assert(usb_devices(devices@) == Err::<Seq<DeviceModel>, Error>(e));
                }
                return Err(e);
            },
        }
        k = k + 1;
    }
    assert(ds.take(k as int) =~= ds);
    Ok(out)
}

} // verus!
