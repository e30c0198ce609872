//! The accessory protocol.

use rustscreen::io::IoError;
use rustscreen::macos_host::aoa::{
    check_protocol, choose_endpoints, find_accessory, find_candidate, handshake_requests, identity,
    reacquire, AoaError, EndpointInfo, Reacquired, UsbId, AOA_SEND_STRING, AOA_START, AOA_VID,
};

fn usb(vendor: u16, product: u16) -> UsbId {
    UsbId { vendor, product }
}

#[test]
fn the_protocol_version_is_little_endian_and_not_zero() {
    assert_eq!(check_protocol(&[2, 0]), Ok(2));
    assert_eq!(check_protocol(&[0, 1, 9]), Ok(256));
    assert_eq!(check_protocol(&[0, 0]), Err(AoaError::Unsupported));
    assert_eq!(check_protocol(&[1]), Err(AoaError::ShortReply));
    assert_eq!(AoaError::ShortReply.kind(), IoError::InvalidData);
    assert_eq!(AoaError::NotReacquired.kind(), IoError::TimedOut);
    assert_eq!(AoaError::Unsupported.kind(), IoError::Unsupported);
    assert_eq!(AoaError::NoDevice.kind(), IoError::NotFound);
    assert_eq!(AoaError::NoBulkIn.kind(), IoError::NotFound);
    assert_eq!(AoaError::NoBulkOut.kind(), IoError::NotFound);
}

#[test]
fn the_handshake_sends_six_strings_and_the_start() {
    let requests = handshake_requests();
    assert_eq!(requests.len(), 7);
    for (i, request) in requests[..6].iter().enumerate() {
        assert_eq!(request.request, AOA_SEND_STRING);
        assert_eq!(request.index, i as u16);
        assert_eq!(request.data, identity(i as u16).unwrap().as_bytes());
    }
    assert_eq!(requests[0].data, b"RustScreen");
    assert_eq!(requests[3].data, b"1.0");
    assert_eq!(requests[6].request, AOA_START);
    assert_eq!(requests[6].index, 0);
    assert!(requests[6].data.is_empty());
    assert_eq!(identity(6), None);
}

#[test]
fn an_accessory_is_preferred_to_a_phone_and_nothing_else_is_taken() {
    let phone = usb(AOA_VID, 0x4EE1);
    let accessory = usb(AOA_VID, 0x2D01);
    let hub = usb(0x05AC, 0x2D01);
    assert_eq!(find_candidate(&vec![hub, phone, accessory]), Ok(2));
    assert_eq!(find_candidate(&vec![hub, phone, phone]), Ok(1));
    assert_eq!(find_candidate(&vec![hub]), Err(AoaError::NoDevice));
    assert_eq!(find_accessory(&vec![phone, hub]), None);
    assert_eq!(find_accessory(&vec![usb(AOA_VID, 0x2CFF), usb(AOA_VID, 0x2D05)]), Some(1));
    assert_eq!(find_accessory(&vec![usb(AOA_VID, 0x2D06)]), None);
}

#[test]
fn the_bus_is_looked_at_before_the_clock() {
    let accessory = usb(AOA_VID, 0x2D00);
    assert_eq!(reacquire(&vec![accessory], 9000, 5000), Reacquired::Open(0));
    assert_eq!(reacquire(&vec![], 4999, 5000), Reacquired::Wait);
    assert_eq!(reacquire(&vec![], 5000, 5000), Reacquired::TimedOut);
}

#[test]
fn the_last_bulk_endpoints_are_used() {
    let ep = |bulk, inbound, address| EndpointInfo { bulk, inbound, address };
    let list = vec![
        ep(true, true, 0x81),
        ep(true, false, 0x01),
        ep(false, true, 0x82),
        ep(true, true, 0x83),
    ];
    assert_eq!(choose_endpoints(&list), Ok((0x83, 0x01)));
    assert_eq!(choose_endpoints(&vec![ep(true, true, 0x81)]), Err(AoaError::NoBulkOut));
    assert_eq!(choose_endpoints(&vec![ep(true, false, 1)]), Err(AoaError::NoBulkIn));
    assert_eq!(choose_endpoints(&vec![]), Err(AoaError::NoBulkIn));
}
