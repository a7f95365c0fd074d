//! Passive wireless reconnaissance core: an 802.11 management/control frame
//! decoder and a vendor-attributed catalog of observed devices.

use vstd::prelude::*;

pub mod catalog;
pub mod frame;
pub mod lookup;
pub mod rank;

verus! {

/// A 6-byte link-layer hardware address, compared by exact byte equality.
#[derive(Clone, Copy, Debug, PartialEq, Eq)]
pub struct HardwareAddress {
    pub bytes: [u8; 6],
}

impl View for HardwareAddress {
    type V = Seq<u8>;

    open spec fn view(&self) -> Seq<u8> {
        self.bytes@
    }
}

impl HardwareAddress {
    pub fn new(bytes: [u8; 6]) -> (r: HardwareAddress)
        ensures
            r@ == bytes@,
    {
        HardwareAddress { bytes }
    }

    /// Byte-for-byte equality, the identity used to key the device catalog.
    pub fn same_as(&self, other: &HardwareAddress) -> (r: bool)
        ensures
            r <==> self@ == other@,
    {
        let eq = self.bytes[0] == other.bytes[0] && self.bytes[1] == other.bytes[1]
            && self.bytes[2] == other.bytes[2] && self.bytes[3] == other.bytes[3]
            && self.bytes[4] == other.bytes[4] && self.bytes[5] == other.bytes[5];
        proof {
            if eq {
                assert(self@ =~= other@);
            }
        }
        eq
    }
}

} // verus!
