use blockade_recon::catalog::DeviceCatalog;
use blockade_recon::frame::{decode, Frame};
use blockade_recon::HardwareAddress;
use oui::OuiDatabase;

fn db() -> OuiDatabase {
    let text = "AA:BB:CC\tAcme\tAcme Corp\nAA:BB:DD\tZeta\tZeta Ltd\n";
    OuiDatabase::new_from_str(text).expect("database text parses")
}

const ACME1: [u8; 6] = [0xaa, 0xbb, 0xcc, 0x00, 0x00, 0x01];
const ACME2: [u8; 6] = [0xaa, 0xbb, 0xcc, 0x00, 0x00, 0x02];
const ZETA1: [u8; 6] = [0xaa, 0xbb, 0xdd, 0x00, 0x00, 0x03];
const NOBODY: [u8; 6] = [0x11, 0x22, 0x33, 0x00, 0x00, 0x04];

#[test]
fn get_or_create_returns_same_entry() {
    let database = db();
    let mut catalog = DeviceCatalog::new();
    let a = HardwareAddress::new(ACME1);
    let i = catalog.get_or_create(&a, &database);
    let j = catalog.get_or_create(&a, &database);
    assert_eq!(i, j);
    assert_eq!(catalog.len(), 1);
    catalog.record_ssid(&a, b"Net".to_vec(), &database);
    assert_eq!(catalog.record_at(i).last_ssid, Some(b"Net".to_vec()));
    assert_eq!(catalog.record_at(j).last_ssid, Some(b"Net".to_vec()));
}

#[test]
fn manufacturer_resolved_at_creation() {
    let database = db();
    let mut catalog = DeviceCatalog::new();
    let a = HardwareAddress::new(ACME1);
    let i = catalog.get_or_create(&a, &database);
    let vendor = catalog.record_at(i).manufacturer.clone().expect("vendor resolved");
    assert_eq!(vendor.short_name, b"Acme".to_vec());
    let u = HardwareAddress::new(NOBODY);
    let k = catalog.get_or_create(&u, &database);
    assert!(catalog.record_at(k).manufacturer.is_none());
}

#[test]
fn mark_transmitted_is_idempotent_and_monotonic() {
    let database = db();
    let mut catalog = DeviceCatalog::new();
    let a = HardwareAddress::new(ACME1);
    let i = catalog.get_or_create(&a, &database);
    assert!(!catalog.record_at(i).has_transmitted);
    catalog.mark_transmitted(&a, &database);
    assert!(catalog.record_at(i).has_transmitted);
    catalog.mark_transmitted(&a, &database);
    catalog.record_ssid(&a, b"Still".to_vec(), &database);
    assert!(catalog.record_at(i).has_transmitted);
    assert_eq!(catalog.len(), 1);
}

#[test]
fn record_ssid_is_last_write_wins() {
    let database = db();
    let mut catalog = DeviceCatalog::new();
    let a = HardwareAddress::new(ACME1);
    let i = catalog.get_or_create(&a, &database);
    catalog.record_ssid(&a, b"A".to_vec(), &database);
    catalog.record_ssid(&a, b"B".to_vec(), &database);
    assert_eq!(catalog.record_at(i).last_ssid, Some(b"B".to_vec()));
}

#[test]
fn vendor_distribution_ranks_and_excludes_unknown() {
    let database = db();
    let mut catalog = DeviceCatalog::new();
    catalog.get_or_create(&HardwareAddress::new(ACME1), &database);
    catalog.get_or_create(&HardwareAddress::new(ACME2), &database);
    catalog.get_or_create(&HardwareAddress::new(ZETA1), &database);
    catalog.get_or_create(&HardwareAddress::new(NOBODY), &database);
    let ranking = catalog.vendor_distribution();
    assert_eq!(ranking.len(), 2);
    assert_eq!(ranking[0], (b"Acme".to_vec(), 2));
    assert_eq!(ranking[1], (b"Zeta".to_vec(), 1));
}

#[test]
fn vendor_distribution_breaks_ties_alphabetically() {
    let database = db();
    let mut catalog = DeviceCatalog::new();
    catalog.get_or_create(&HardwareAddress::new(ZETA1), &database);
    catalog.get_or_create(&HardwareAddress::new(ACME1), &database);
    let ranking = catalog.vendor_distribution();
    assert_eq!(ranking, vec![(b"Acme".to_vec(), 1), (b"Zeta".to_vec(), 1)]);
}

#[test]
fn decoded_beacon_feeds_the_catalog() {
    let database = db();
    let mut catalog = DeviceCatalog::new();
    let mut bytes: Vec<u8> = vec![0x80, 0x00, 0x10, 0x00];
    bytes.extend_from_slice(&[0xff; 6]);
    bytes.extend_from_slice(&ACME1);
    bytes.extend_from_slice(&ACME1);
    bytes.extend_from_slice(&[0x30, 0x00]);
    bytes.extend_from_slice(&[0u8; 12]);
    bytes.extend_from_slice(&[0, 4]);
    bytes.extend_from_slice(b"Home");
    match decode(&bytes).expect("beacon decodes") {
        Frame::Beacon { source, ssid, .. } => {
            let i = catalog.get_or_create(&source, &database);
            catalog.mark_transmitted(&source, &database);
            if let Some(name) = ssid {
                catalog.record_ssid(&source, name, &database);
            }
            assert!(catalog.record_at(i).has_transmitted);
            assert_eq!(catalog.record_at(i).last_ssid, Some(b"Home".to_vec()));
        }
        other => panic!("expected beacon, got {:?}", other),
    }
}

#[test]
fn apply_frame_dispatches_by_variant() {
    let database = db();
    let mut catalog = DeviceCatalog::new();
    let mut bytes: Vec<u8> = vec![0x80, 0x00, 0x10, 0x00];
    bytes.extend_from_slice(&ZETA1); // destination
    bytes.extend_from_slice(&ACME1); // source
    bytes.extend_from_slice(&ACME1); // bssid
    bytes.extend_from_slice(&[0x30, 0x00]);
    bytes.extend_from_slice(&[0u8; 12]);
    bytes.extend_from_slice(&[0, 4]);
    bytes.extend_from_slice(b"Home");
    let beacon = decode(&bytes).expect("beacon decodes");
    catalog.apply_frame(&beacon, &database);
    assert_eq!(catalog.len(), 2);
    let source = catalog.record_at(0);
    assert!(source.has_transmitted);
    assert_eq!(source.last_ssid, Some(b"Home".to_vec()));
    let destination = catalog.record_at(1);
    assert!(!destination.has_transmitted);
    assert_eq!(destination.last_ssid, None);

    catalog.apply_frame(&Frame::Ack { receiver: HardwareAddress::new(NOBODY) }, &database);
    assert_eq!(catalog.len(), 3);
    assert!(!catalog.record_at(2).has_transmitted);

    catalog.apply_frame(&Frame::Unhandled, &database);
    assert_eq!(catalog.len(), 3);
}

#[test]
fn vendor_distribution_is_stable_across_failed_decodes() {
    let database = db();
    let mut catalog = DeviceCatalog::new();
    catalog.get_or_create(&HardwareAddress::new(ACME1), &database);
    catalog.get_or_create(&HardwareAddress::new(ZETA1), &database);
    let before = catalog.vendor_distribution();
    assert!(decode(&[0xd4, 0x00, 0x00]).is_err()); // truncated ack: frame dropped
    let after = catalog.vendor_distribution();
    assert_eq!(before, after);
}
