use kaleidoscope_focus::{find_devices, pick_device, DeviceDescriptor, PortListing};

fn usb(name: &str, vendor_id: u16, product_id: u16) -> PortListing {
    PortListing {
        name: name.to_string(),
        usb: Some(DeviceDescriptor { vendor_id, product_id }),
    }
}

#[test]
fn catalog_holds_exactly_three_identities() {
    assert!(DeviceDescriptor { vendor_id: 0x3496, product_id: 0x0006 }.is_supported());
    assert!(DeviceDescriptor { vendor_id: 0x1209, product_id: 0x2303 }.is_supported());
    assert!(DeviceDescriptor { vendor_id: 0x1209, product_id: 0x2301 }.is_supported());
    assert!(!DeviceDescriptor { vendor_id: 0x1209, product_id: 0x2302 }.is_supported());
    assert!(!DeviceDescriptor { vendor_id: 0x3496, product_id: 0x2303 }.is_supported());
}

#[test]
fn discovery_keeps_catalog_matches_only() {
    let ports = vec![
        usb("/dev/ttyACM0", 0x3496, 0x0006),
        usb("/dev/ttyACM1", 0x3496, 0x0007),
        usb("/dev/ttyACM2", 0x1209, 0x2303),
        usb("/dev/ttyACM3", 0x1209, 0x2301),
        usb("/dev/ttyACM4", 0x1208, 0x2301),
        PortListing { name: "/dev/ttyS0".to_string(), usb: None },
    ];
    let found = find_devices(&ports).unwrap();
    let expected = vec![
        "/dev/ttyACM0".to_string(),
        "/dev/ttyACM2".to_string(),
        "/dev/ttyACM3".to_string(),
    ];
    assert_eq!(found, expected);
}

#[test]
fn discovery_signals_not_found() {
    let ports = vec![usb("/dev/ttyACM0", 0x3496, 0x0007)];
    assert!(find_devices(&ports).is_none());
    assert!(find_devices(&vec![]).is_none());
}

#[test]
fn explicit_device_wins_over_discovery() {
    let ports = vec![usb("/dev/a", 0x3496, 0x0006)];
    let explicit = Some("/dev/custom".to_string());
    assert_eq!(pick_device(&explicit, &ports).unwrap(), "/dev/custom");
    assert_eq!(pick_device(&None, &ports).unwrap(), "/dev/a");
    assert!(pick_device(&None, &vec![]).is_none());
}
