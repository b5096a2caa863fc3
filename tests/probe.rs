use elmor_studio::probe::{identify, next_count, AvailableDevice, Device, Identification, ReadEvent};

#[test]
fn identifies_kth_usb() {
    assert_eq!(identify(b"ElmorLabs KTH-USB\0"), Identification::Known(Device::KthUsb));
}

#[test]
fn reply_without_nul_is_unknown() {
    assert_eq!(identify(b"ElmorLabs KTH-USB"), Identification::Unknown);
    assert_eq!(identify(b""), Identification::Unknown);
    assert_eq!(identify(b"ElmorLabs PMD-USB\0"), Identification::Unknown);
}

#[test]
fn invalid_utf8_is_not_text() {
    assert_eq!(identify(&[0xff, 0xfe, 0x41]), Identification::NotText);
    assert_eq!(identify(&[0xc3]), Identification::NotText);
}

#[test]
fn device_name() {
    assert_eq!(Device::KthUsb.name(), "KTH-USB");
}

#[test]
fn available_device_new() {
    let a = AvailableDevice::new(Device::KthUsb, "COM3".to_string());
    assert_eq!(a.device, Device::KthUsb);
    assert_eq!(a.port, "COM3");
}

#[test]
fn read_counts() {
    assert_eq!(next_count(0, ReadEvent::Data(5)), (5, true));
    assert_eq!(next_count(5, ReadEvent::Data(13)), (18, true));
    assert_eq!(next_count(18, ReadEvent::Data(0)), (18, false));
    assert_eq!(next_count(18, ReadEvent::Failed), (18, false));
    assert_eq!(next_count(20, ReadEvent::Data(12)), (32, false));
}
