//! Vendor attribution: resolving the manufacturer registered to a hardware
//! address's organizationally unique identifier against an `oui` database.

use vstd::prelude::*;
use crate::HardwareAddress;

verus! {

/// A vendor resolved from the leading bytes of a hardware address. The full
/// organization name is not present for every database entry.
#[derive(Clone, Debug)]
pub struct VendorRecord {
    /// The database's short identifier for the organization, as raw bytes.
    pub short_name: Vec<u8>,
    /// The organization's full name, when the database carries one.
    pub full_name: Option<Vec<u8>>,
}

impl View for VendorRecord {
    type V = (Seq<u8>, Option<Seq<u8>>);

    open spec fn view(&self) -> (Seq<u8>, Option<Seq<u8>>) {
        (
            self.short_name@,
            match self.full_name {
                Some(v) => Some(v@),
                None => None,
            },
        )
    }
}

/// The view of an optional vendor record.
pub open spec fn vendor_view(v: Option<VendorRecord>) -> Option<(Seq<u8>, Option<Seq<u8>>)> {
    match v {
        Some(r) => Some(r@),
        None => None,
    }
}

#[verifier::external_type_specification]
#[verifier::external_body]
pub struct ExOuiDatabase(oui::OuiDatabase);

/// What looking a hardware address up in a given `oui` database yields: a
/// pure function of the database contents and the address bytes. No clause
/// anywhere says what it returns on given values; tests reach the catalog's
/// logic through records built from real lookups.
pub uninterp spec fn vendor_lookup(db: oui::OuiDatabase, address: Seq<u8>) -> Option<
    (Seq<u8>, Option<Seq<u8>>),
>;

/// Relies on oui's `OuiDatabase::query_by_mac`, which walks the database for
/// the ranges covering the address and returns the most specific entry's
/// names; a lookup failure or a miss is folded into `None`, never an error.
#[verifier::external_body]
pub fn lookup_vendor(db: &oui::OuiDatabase, address: &HardwareAddress) -> (r: Option<VendorRecord>)
    ensures
        vendor_view(r) == vendor_lookup(*db, address@),
{
    let mac = eui48::MacAddress::new(address.bytes);
    match db.query_by_mac(&mac) {
        Ok(Some(entry)) => Some(VendorRecord {
            short_name: entry.name_short.into_bytes(),
            full_name: match entry.name_long {
                Some(name) => Some(name.into_bytes()),
                None => None,
            },
        }),
        _ => None,
    }
}

} // verus!
