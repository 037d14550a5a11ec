use devices::ids::id_from_raw;
use devices::utf16::{property_string, property_strings, string_from_utf16_bytes};
use devices::win::{
    parse_pci_location, parse_usb_location, pci_device_info, usb_device_info, windows_pci_devices,
    windows_usb_devices,
};
use devices::{parse_hwids, parse_pci_listing, parse_usb_listing, DevicePath, Devices, Error, RawDevice};

fn utf16z(s: &str) -> Vec<u8> {
    let mut out = Vec::new();
    for u in s.encode_utf16() {
        out.extend_from_slice(&u.to_le_bytes());
    }
    out.extend_from_slice(&[0, 0]);
    out
}

fn multi(items: &[&str]) -> Vec<u8> {
    let mut out = Vec::new();
    for item in items {
        for u in item.encode_utf16() {
            out.extend_from_slice(&u.to_le_bytes());
        }
        out.extend_from_slice(&[0, 0]);
    }
    out.extend_from_slice(&[0, 0]);
    out
}

const VGA_LINE: &str = "00:02.0 \"VGA compatible controller [0300]\" \"Intel Corporation [8086]\" \"UHD Graphics [1234]\"";

#[test]
fn pci_line_scenario() {
    let devs = parse_pci_listing(VGA_LINE).unwrap();
    assert_eq!(devs.len(), 1);
    let d = &devs[0];
    assert_eq!(*d.path(), DevicePath::PCI { bus: 0, slot: 2, function: 0 });
    assert_eq!(d.class(), "VGA compatible controller");
    assert_eq!(d.class_id(), Some(0x0300));
    assert_eq!(d.vendor(), "Intel Corporation");
    assert_eq!(d.vendor_id(), 0x8086);
    assert_eq!(d.product(), "UHD Graphics");
    assert_eq!(d.product_id(), 0x1234);
    assert_eq!(d.manufacturer(), &None);
    assert_eq!(d.manufacturer_id(), None);
}

#[test]
fn pci_listing_with_revision_and_subsystem() {
    let text = "00:00.0 \"Host bridge [0600]\" \"Intel Corporation [8086]\" \"Xeon E3-1200 v6/7th Gen Core Processor Host Bridge/DRAM Registers [5914]\" -r08 \"Lenovo [17aa]\" \"ThinkPad X1 Carbon 5th Gen [224f]\"\n\
3a:00.1 \"Non-Volatile memory controller [0108]\" \"Samsung Electronics Co Ltd [144d]\" \"NVMe SSD Controller SM961/PM961 [a804]\"\n";
    let devs = parse_pci_listing(text).unwrap();
    assert_eq!(devs.len(), 2);
    assert_eq!(devs[0].product(), "Xeon E3-1200 v6/7th Gen Core Processor Host Bridge/DRAM Registers");
    assert_eq!(devs[0].product_id(), 0x5914);
    assert_eq!(*devs[1].path(), DevicePath::PCI { bus: 0x3a, slot: 0, function: 1 });
    assert_eq!(devs[1].vendor_id(), 0x144d);
    assert_eq!(devs[1].product_id(), 0xa804);
}

#[test]
fn pci_names_are_trimmed() {
    let text = "01:00.0 \"  Audio device  [0403]\" \"Vendor [abcd]\" \"Thing [ABCD]\"";
    let devs = parse_pci_listing(text).unwrap();
    assert_eq!(devs[0].class(), "Audio device");
    assert_eq!(devs[0].vendor_id(), 0xabcd);
    assert_eq!(devs[0].product_id(), 0xabcd);
}

#[test]
fn pci_missing_product_is_parse_error() {
    let text = "00:02.0 \"VGA compatible controller [0300]\" \"Intel Corporation [8086]\"";
    assert!(matches!(parse_pci_listing(text), Err(Error::ParseError)));
}

#[test]
fn pci_one_bad_line_fails_the_whole_listing() {
    let text = format!("{VGA_LINE}\n00:03.0 \"Audio device [0403]\" \"Intel Corporation [8086]\"\n");
    assert!(matches!(parse_pci_listing(&text), Err(Error::ParseError)));
}

#[test]
fn pci_bad_id_and_short_segment() {
    let bad_id = "00:02.0 \"VGA [03zz]\" \"Intel [8086]\" \"UHD [1234]\"";
    assert!(matches!(parse_pci_listing(bad_id), Err(Error::ParseError)));
    let short = "00:02.0 \"[0300]\" \"Intel [8086]\" \"UHD [1234]\"";
    assert!(matches!(parse_pci_listing(short), Err(Error::ParseError)));
    let bad_address = "0 \"VGA [0300]\" \"Intel [8086]\" \"UHD [1234]\"";
    assert!(matches!(parse_pci_listing(bad_address), Err(Error::ParseError)));
}

#[test]
fn pci_empty_listing_is_parse_error() {
    assert!(matches!(parse_pci_listing(""), Err(Error::ParseError)));
}

#[test]
fn parsing_twice_gives_identical_records() {
    let a = parse_pci_listing(VGA_LINE).unwrap();
    let b = parse_pci_listing(VGA_LINE).unwrap();
    assert_eq!(a, b);
    let u1 = parse_usb_listing(USB_BLOCK).unwrap();
    let u2 = parse_usb_listing(USB_BLOCK).unwrap();
    assert_eq!(u1, u2);
    let buf = utf16z("Display");
    assert_eq!(property_string(&buf).unwrap(), property_string(&buf).unwrap());
}

const USB_BLOCK: &str = "Bus 002 Device 003: ID 046d:c52b Logitech, Inc. Unifying Receiver
Device Descriptor:
  bLength                18
  bDeviceClass            0 
  bDeviceSubClass         0 
  idVendor           0x046d Logitech, Inc.
  idProduct          0xc52b Unifying Receiver
  bcdDevice           12.11
  iManufacturer           1 Logitech
  iProduct                2 USB Receiver
  iSerial                 0 
";

#[test]
fn usb_block_fields() {
    let devs = parse_usb_listing(USB_BLOCK).unwrap();
    assert_eq!(devs.len(), 1);
    let d = &devs[0];
    assert_eq!(*d.path(), DevicePath::USB { bus: 2, device: 3 });
    assert_eq!(d.class(), "Other");
    assert_eq!(d.class_id(), Some(0));
    assert_eq!(d.vendor(), "Logitech, Inc.");
    assert_eq!(d.vendor_id(), 0x046d);
    assert_eq!(d.product(), "USB Receiver Unifying Receiver");
    assert_eq!(d.product_id(), 0xc52b);
    assert_eq!(d.manufacturer(), &Some("Logitech".to_string()));
    assert_eq!(d.manufacturer_id(), Some(1));
}

#[test]
fn usb_two_blocks_and_class_name() {
    let hub = "Bus 001 Device 001: ID 1d6b:0002 Linux Foundation 2.0 root hub
  bDeviceClass            9 Hub
  idVendor           0x1d6b Linux Foundation
  idProduct          0x0002 2.0 root hub
  iManufacturer           3 Linux 6.1.0 xhci-hcd
  iProduct                2 xHCI Host Controller
  iSerial                 1 0000:00:14.0
";
    let text = format!("{hub}\n{USB_BLOCK}");
    let devs = parse_usb_listing(&text).unwrap();
    assert_eq!(devs.len(), 2);
    assert_eq!(devs[0].class(), "Hub");
    assert_eq!(devs[0].class_id(), Some(9));
    assert_eq!(devs[0].product(), "xHCI Host Controller 2.0 root hub");
    assert_eq!(devs[0].manufacturer(), &Some("Linux 6.1.0 xhci-hcd".to_string()));
    assert_eq!(*devs[1].path(), DevicePath::USB { bus: 2, device: 3 });
}

#[test]
fn usb_manufacturer_without_name_is_absent() {
    let text = "Bus 003 Device 004: ID 0bda:0129
  bDeviceClass          255 Vendor Specific Class
  idVendor           0x0bda Realtek
  idProduct          0x0129 Card Reader
  iManufacturer           0
  iProduct                0
";
    let devs = parse_usb_listing(text).unwrap();
    assert_eq!(devs[0].manufacturer(), &None);
    assert_eq!(devs[0].manufacturer_id(), None);
    assert_eq!(devs[0].product(), "Card Reader");
    assert_eq!(devs[0].class_id(), Some(255));
}

#[test]
fn usb_missing_path_or_class_is_parse_error() {
    let no_path = "  bDeviceClass 0\n  idVendor 0x1234 A\n  idProduct 0x5678 B\n  iProduct 1 C\n";
    assert!(matches!(parse_usb_listing(no_path), Err(Error::ParseError)));
    let no_class = "Bus 001 Device 002\n  idVendor 0x1234 A\n  idProduct 0x5678 B\n  iProduct 1 C\n";
    assert!(matches!(parse_usb_listing(no_class), Err(Error::ParseError)));
    let big_bus = "Bus 300 Device 002\n  bDeviceClass 0\n  idVendor 0x1234 A\n  idProduct 0x5678 B\n  iProduct 1 C\n";
    assert!(matches!(parse_usb_listing(big_bus), Err(Error::ParseError)));
}

#[test]
fn property_round_trip() {
    for s in ["", "Intel", "PCI bus 0, device 2, function 0", "caf\u{e9} \u{1F600}"] {
        assert_eq!(property_string(&utf16z(s)).unwrap(), s);
    }
}

#[test]
fn property_odd_length_is_parse_error() {
    let mut buf = utf16z("abc");
    buf.push(0);
    assert!(matches!(property_string(&buf), Err(Error::ParseError)));
    assert!(matches!(property_strings(&buf), Err(Error::ParseError)));
    assert!(matches!(property_string(&[0]), Err(Error::ParseError)));
    assert!(matches!(string_from_utf16_bytes(&[0x41, 0, 0x42]), Err(Error::ParseError)));
}

#[test]
fn property_unpaired_surrogate_is_parse_error() {
    assert!(matches!(string_from_utf16_bytes(&[0x00, 0xD8]), Err(Error::ParseError)));
    assert!(matches!(property_string(&[0x00, 0xDC, 0, 0]), Err(Error::ParseError)));
    assert_eq!(string_from_utf16_bytes(&[0x41, 0x00, 0x3D, 0xD8, 0x00, 0xDE]).unwrap(), "A\u{1F600}");
}

#[test]
fn property_multi_string() {
    let buf = multi(&["USB\\VID_046D&PID_C52B&REV_1211", "USB\\VID_046D&PID_C52B"]);
    let items = property_strings(&buf).unwrap();
    assert_eq!(items, vec!["USB\\VID_046D&PID_C52B&REV_1211".to_string(), "USB\\VID_046D&PID_C52B".to_string()]);
    assert_eq!(property_strings(&[0, 0]).unwrap(), Vec::<String>::new());
}

#[test]
fn hardware_ids_vendor_and_product() {
    let ids = vec!["USB\\VID_046d&PID_C52B&REV_1201".to_string(), "USB\\VID_0000&PID_0000".to_string()];
    assert_eq!(parse_hwids(&ids), Ok((0x046D, 0xC52B)));
    let pci = vec!["PCI\\VEN_8086&DEV_5917&SUBSYS_224F17AA&REV_07".to_string()];
    assert_eq!(parse_hwids(&pci), Ok((0x8086, 0x5917)));
}

#[test]
fn hardware_ids_empty_list_is_parse_error() {
    assert_eq!(parse_hwids(&[]), Err(Error::ParseError));
}

#[test]
fn hardware_ids_malformed() {
    assert_eq!(parse_hwids(&["USB".to_string()]), Err(Error::ParseError));
    assert_eq!(parse_hwids(&["USB\\VID_046D".to_string()]), Err(Error::ParseError));
    assert_eq!(parse_hwids(&["USB\\VID_04XD&PID_C52B".to_string()]), Err(Error::ParseError));
}

#[test]
fn windows_locations() {
    assert_eq!(
        parse_pci_location("PCI bus 0, device 31, function 3"),
        Ok(DevicePath::PCI { bus: 0, slot: 31, function: 3 })
    );
    assert_eq!(parse_pci_location("PCI bus 0, device 2"), Err(Error::ParseError));
    assert_eq!(parse_usb_location("Port_#0012.Hub_#0004"), Ok(DevicePath::USB { bus: 4, device: 12 }));
    assert_eq!(parse_usb_location("Port_#0001"), Err(Error::ParseError));
}

fn raw(location: &str, hwids: &[&str]) -> RawDevice {
    RawDevice {
        location: Ok(utf16z(location)),
        class: Ok(utf16z("USB")),
        mfg: Ok(utf16z("Logitech")),
        description: Ok(utf16z("USB Receiver")),
        hardware_ids: Ok(multi(hwids)),
    }
}

#[test]
fn windows_pci_record() {
    let mut d = raw("PCI bus 0, device 2, function 0", &["PCI\\VEN_8086&DEV_5917&SUBSYS_224F17AA"]);
    d.class = Ok(utf16z("Display"));
    let info = pci_device_info(&d).unwrap();
    assert_eq!(*info.path(), DevicePath::PCI { bus: 0, slot: 2, function: 0 });
    assert_eq!(info.class(), "Display");
    assert_eq!(info.vendor(), "Logitech");
    assert_eq!(info.product(), "USB Receiver");
    assert_eq!(info.class_id(), None);
    assert_eq!(info.manufacturer(), &None);
    assert_eq!((info.vendor_id(), info.product_id()), (0x8086, 0x5917));
}

#[test]
fn windows_pci_errors_propagate() {
    let mut d = raw("PCI bus 0, device 2, function 0", &["PCI\\VEN_8086&DEV_5917"]);
    d.class = Err(Error::CommandError);
    assert_eq!(windows_pci_devices(false, &vec![d]), Err(Error::CommandError));
    let bad = raw("somewhere", &["PCI\\VEN_8086&DEV_5917"]);
    assert_eq!(windows_pci_devices(false, &vec![bad]), Err(Error::ParseError));
    assert_eq!(windows_pci_devices(true, &vec![]), Err(Error::UnsupportedPlatform));
}

#[test]
fn windows_usb_skips_unreadable_devices() {
    let good = raw("Port_#0002.Hub_#0001", &["USB\\VID_046D&PID_C52B"]);
    let no_location = raw("", &["USB\\VID_046D&PID_C52B"]);
    let bad_ids = raw("Port_#0003.Hub_#0001", &["USB\\ROOT_HUB30"]);
    let mut missing_ids = raw("Port_#0004.Hub_#0001", &[]);
    missing_ids.hardware_ids = Err(Error::CommandError);
    let devs = windows_usb_devices(false, &vec![good, no_location, bad_ids, missing_ids]).unwrap();
    assert_eq!(devs.len(), 1);
    assert_eq!(*devs[0].path(), DevicePath::USB { bus: 1, device: 2 });
    assert_eq!(devs[0].manufacturer(), &Some("Logitech".to_string()));
    assert_eq!((devs[0].vendor_id(), devs[0].product_id()), (0x046D, 0xC52B));
}

#[test]
fn windows_usb_name_failure_aborts() {
    let mut d = raw("Port_#0002.Hub_#0001", &["USB\\VID_046D&PID_C52B"]);
    d.description = Ok(vec![0x41]);
    assert_eq!(usb_device_info(&d), Err(Error::ParseError));
    assert_eq!(windows_usb_devices(false, &vec![d]), Err(Error::ParseError));
    assert_eq!(windows_usb_devices(true, &vec![]), Err(Error::UnsupportedPlatform));
}

#[test]
fn devices_get_concatenates_in_order() {
    let pci = parse_pci_listing(VGA_LINE).unwrap();
    let usb = parse_usb_listing(USB_BLOCK).unwrap();
    let all = Devices::get(Ok(pci.clone()), Ok(usb.clone())).unwrap();
    assert_eq!(all.len(), 2);
    assert_eq!(all[0], pci[0]);
    assert_eq!(all[1], usb[0]);
    assert_eq!(Devices::get(Err(Error::CommandError), Err(Error::ParseError)), Err(Error::CommandError));
    assert_eq!(Devices::get(Ok(pci), Err(Error::ParseError)), Err(Error::ParseError));
}

#[test]
fn error_messages() {
    assert_eq!(Error::UnsupportedPlatform.message(), "this platform is unsupported");
    assert_eq!(Error::CommandError.message(), "could not retrieve device information");
    assert_eq!(Error::ParseError.message(), "could not parse device information");
}

#[test]
fn pci_id_wide_values() {
    let text = "ff:1f.7 \"Bridge [0abc]\" \"Vendor [FFFF]\" \"Thing [0000]\"";
    let devs = parse_pci_listing(text).unwrap();
    assert_eq!(*devs[0].path(), DevicePath::PCI { bus: 0xff, slot: 0x1f, function: 7 });
    assert_eq!(devs[0].class_id(), Some(0xabc));
    assert_eq!(devs[0].vendor_id(), 0xffff);
    assert_eq!(devs[0].product_id(), 0);
}

#[test]
fn pci_id_with_sign_is_parse_error() {
    let text = "00:02.0 \"Bridge [+abc]\" \"Vendor [FFFF]\" \"Thing [0000]\"";
    assert!(matches!(parse_pci_listing(text), Err(Error::ParseError)));
}

#[test]
fn raw_id_strips_hex_prefix() {
    let chars: Vec<char> = "0x8086".chars().collect();
    assert_eq!(id_from_raw(&chars, 0, chars.len()), Ok(0x8086));
    let chars: Vec<char> = " [0x8086] ".chars().collect();
    assert_eq!(id_from_raw(&chars, 0, chars.len()), Ok(0x8086));
    let chars: Vec<char> = "[8086]".chars().collect();
    assert_eq!(id_from_raw(&chars, 0, chars.len()), Ok(0x8086));
    let chars: Vec<char> = "0x".chars().collect();
    assert_eq!(id_from_raw(&chars, 0, chars.len()), Err(Error::ParseError));
    let chars: Vec<char> = "+8086".chars().collect();
    assert_eq!(id_from_raw(&chars, 0, chars.len()), Err(Error::ParseError));
    let text = "00:02.0 \"Bridge [0x12]\" \"Vendor [FFFF]\" \"Thing [0000]\"";
    assert_eq!(parse_pci_listing(text).unwrap()[0].class_id(), Some(0x12));
}
