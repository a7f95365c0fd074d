use blockade_recon::frame::{decode, DecodeError, Frame};

fn beacon_header(dst: [u8; 6], src: [u8; 6], bssid: [u8; 6]) -> Vec<u8> {
    let mut b: Vec<u8> = vec![0x80, 0x00, 0x10, 0x00];
    b.extend_from_slice(&dst);
    b.extend_from_slice(&src);
    b.extend_from_slice(&bssid);
    b.extend_from_slice(&[0x30, 0x00]); // sequence control
    b.extend_from_slice(&[0u8; 8]); // timestamp
    b.extend_from_slice(&[0x64, 0x00]); // beacon interval
    b.extend_from_slice(&[0x11, 0x04]); // capability info
    b
}

const DST: [u8; 6] = [0xff, 0xff, 0xff, 0xff, 0xff, 0xff];
const SRC: [u8; 6] = [0xaa, 0xbb, 0xcc, 0x01, 0x02, 0x03];
const BSS: [u8; 6] = [0xaa, 0xbb, 0xcc, 0x01, 0x02, 0x03];

#[test]
fn beacon_with_ssid_testnet() {
    let mut b = beacon_header(DST, SRC, BSS);
    b.push(0); // SSID element tag
    b.push(7); // length
    b.extend_from_slice(b"TestNet");
    b.push(1); // supported-rates element after the SSID
    b.push(2);
    b.extend_from_slice(&[0x82, 0x84]);
    match decode(&b) {
        Ok(Frame::Beacon { source, destination, bssid, ssid }) => {
            assert_eq!(source.bytes, SRC);
            assert_eq!(destination.bytes, DST);
            assert_eq!(bssid.bytes, BSS);
            assert_eq!(ssid, Some(b"TestNet".to_vec()));
        }
        other => panic!("expected beacon, got {:?}", other),
    }
}

#[test]
fn beacon_hidden_ssid_is_empty_not_absent() {
    let mut b = beacon_header(DST, SRC, BSS);
    b.push(0);
    b.push(0); // zero-length SSID element: hidden network
    match decode(&b) {
        Ok(Frame::Beacon { ssid, .. }) => assert_eq!(ssid, Some(Vec::new())),
        other => panic!("expected beacon, got {:?}", other),
    }
}

#[test]
fn beacon_without_ssid_element() {
    let mut b = beacon_header(DST, SRC, BSS);
    b.push(1); // only a supported-rates element
    b.push(1);
    b.push(0x82);
    match decode(&b) {
        Ok(Frame::Beacon { ssid, .. }) => assert_eq!(ssid, None),
        other => panic!("expected beacon, got {:?}", other),
    }
}

#[test]
fn first_ssid_element_wins() {
    let mut b = beacon_header(DST, SRC, BSS);
    b.extend_from_slice(&[0, 1, b'A']);
    b.extend_from_slice(&[0, 1, b'B']);
    match decode(&b) {
        Ok(Frame::Beacon { ssid, .. }) => assert_eq!(ssid, Some(b"A".to_vec())),
        other => panic!("expected beacon, got {:?}", other),
    }
}

#[test]
fn ack_frame_exactly_ten_bytes() {
    let b = [0xd4, 0x00, 0x00, 0x00, 1, 2, 3, 4, 5, 6];
    match decode(&b) {
        Ok(Frame::Ack { receiver }) => assert_eq!(receiver.bytes, [1, 2, 3, 4, 5, 6]),
        other => panic!("expected ack, got {:?}", other),
    }
}

#[test]
fn ack_frame_ignores_trailing_bytes() {
    let b = [0xd4, 0x00, 0x00, 0x00, 9, 8, 7, 6, 5, 4, 0xde, 0xad, 0xbe, 0xef];
    match decode(&b) {
        Ok(Frame::Ack { receiver }) => assert_eq!(receiver.bytes, [9, 8, 7, 6, 5, 4]),
        other => panic!("expected ack, got {:?}", other),
    }
}

#[test]
fn truncated_ack_is_rejected() {
    let b = [0xd4, 0x00, 0x00, 0x00, 1, 2, 3, 4, 5];
    assert_eq!(decode(&b), Err(DecodeError::Truncated));
}

#[test]
fn truncated_beacon_is_rejected() {
    let b = beacon_header(DST, SRC, BSS);
    assert_eq!(decode(&b[..20]), Err(DecodeError::Truncated));
    assert_eq!(decode(&[0x80]), Err(DecodeError::Truncated));
    assert_eq!(decode(&[]), Err(DecodeError::Truncated));
}

#[test]
fn beacon_with_lone_tag_byte_is_truncated() {
    let mut b = beacon_header(DST, SRC, BSS);
    b.push(0); // a tag with no length byte
    assert_eq!(decode(&b), Err(DecodeError::Truncated));
}

#[test]
fn oversized_element_is_malformed() {
    let mut b = beacon_header(DST, SRC, BSS);
    b.push(0);
    b.push(200); // claims more bytes than remain
    b.extend_from_slice(b"short");
    assert_eq!(decode(&b), Err(DecodeError::MalformedElement));
}

#[test]
fn data_frames_are_unhandled_not_errors() {
    // type bits 2 (data); nothing further is interpreted
    let b = [0x08, 0x00];
    assert_eq!(decode(&b), Ok(Frame::Unhandled));
    // management subtype other than beacon
    let b2 = [0x40, 0x00, 1, 2, 3];
    assert_eq!(decode(&b2), Ok(Frame::Unhandled));
}
