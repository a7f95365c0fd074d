//! Decoding of raw 802.11 MAC frames (the bytes that follow the radiotap
//! header) into the typed frames this system understands.

use vstd::prelude::*;
use crate::HardwareAddress;

verus! {

/// Why a frame failed to decode. Both failures are local to one captured
/// frame: the caller drops the frame and goes on with the next one.
#[derive(Clone, Copy, Debug, PartialEq, Eq, Structural)]
pub enum DecodeError {
    /// The buffer is shorter than the structure being parsed requires.
    Truncated,
    /// An information element's declared length runs past the buffer end.
    MalformedElement,
}

/// A decoded 802.11 frame. Exactly one variant is produced per successful
/// decode; the choice is fully determined by the frame-control type/subtype.
#[derive(Debug, PartialEq)]
pub enum Frame {
    /// Management frame, subtype beacon.
    Beacon {
        source: HardwareAddress,
        destination: HardwareAddress,
        bssid: HardwareAddress,
        /// `None` when no SSID element is present; `Some` of the element's
        /// raw bytes otherwise, so a hidden network yields `Some` of an
        /// empty sequence, distinct from `None`.
        ssid: Option<Vec<u8>>,
    },
    /// Control frame, subtype acknowledgement.
    Ack { receiver: HardwareAddress },
    /// A recognized-but-unsupported type/subtype combination; not an error.
    Unhandled,
}

/// The mathematical shape of a decoded frame, used by every contract.
pub enum FrameModel {
    Beacon {
        source: Seq<u8>,
        destination: Seq<u8>,
        bssid: Seq<u8>,
        ssid: Option<Seq<u8>>,
    },
    Ack { receiver: Seq<u8> },
    Unhandled,
}

impl View for Frame {
    type V = FrameModel;

    open spec fn view(&self) -> FrameModel {
        match self {
            Frame::Beacon { source, destination, bssid, ssid } => FrameModel::Beacon {
                source: source@,
                destination: destination@,
                bssid: bssid@,
                ssid: match ssid {
                    Some(s) => Some(s@),
                    None => None,
                },
            },
            Frame::Ack { receiver } => FrameModel::Ack { receiver: receiver@ },
            Frame::Unhandled => FrameModel::Unhandled,
        }
    }
}

/// The frame-control type bits (byte 0, bits 2-3): 0 management, 1 control.
pub open spec fn spec_frame_type(b0: u8) -> u8 {
    (b0 >> 2) & 3
}

/// The frame-control subtype bits (byte 0, bits 4-7).
pub open spec fn spec_frame_subtype(b0: u8) -> u8 {
    (b0 >> 4) & 0xf
}

/// Walks the information elements of a management-frame body in order and
/// yields the value of the first element with tag 0 (the SSID element), or
/// `None` when no such element occurs. A trailing lone tag byte leaves the
/// element truncated; a declared length that runs past the buffer is
/// malformed. Every element must be well formed for the walk to succeed.
pub open spec fn spec_first_ssid(b: Seq<u8>) -> Result<Option<Seq<u8>>, DecodeError>
    decreases b.len(),
{
    if b.len() == 0 {
        Ok(None)
    } else if b.len() == 1 {
        Err(DecodeError::Truncated)
    } else {
        let elen = b[1] as int;
        if 2 + elen > b.len() {
            Err(DecodeError::MalformedElement)
        } else {
            let rest = spec_first_ssid(b.skip(2 + elen));
            if b[0] == 0 {
                match rest {
                    Ok(_) => Ok(Some(b.subrange(2, 2 + elen))),
                    Err(e) => Err(e),
                }
            } else {
                rest
            }
        }
    }
}

/// The number of bytes a beacon frame must have before its information
/// elements begin: the 24-byte management header plus the fixed
/// timestamp(8) + interval(2) + capability(2) body.
pub open spec fn beacon_fixed_len() -> int {
    36
}

/// What `decode` returns for a given byte sequence.
pub open spec fn spec_decode(b: Seq<u8>) -> Result<FrameModel, DecodeError> {
    if b.len() < 2 {
        Err(DecodeError::Truncated)
    } else if spec_frame_type(b[0]) == 0 && spec_frame_subtype(b[0]) == 8 {
        if b.len() < beacon_fixed_len() {
            Err(DecodeError::Truncated)
        } else {
            match spec_first_ssid(b.skip(beacon_fixed_len())) {
                Ok(ssid) => Ok(FrameModel::Beacon {
                    destination: b.subrange(4, 10),
                    source: b.subrange(10, 16),
                    bssid: b.subrange(16, 22),
                    ssid: ssid,
                }),
                Err(e) => Err(e),
            }
        }
    } else if spec_frame_type(b[0]) == 1 && spec_frame_subtype(b[0]) == 13 {
        if b.len() < 10 {
            Err(DecodeError::Truncated)
        } else {
            Ok(FrameModel::Ack { receiver: b.subrange(4, 10) })
        }
    } else {
        Ok(FrameModel::Unhandled)
    }
}

/// The view of an executable decode result, for stating `decode`'s contract.
pub open spec fn decode_view(r: Result<Frame, DecodeError>) -> Result<FrameModel, DecodeError> {
    match r {
        Ok(f) => Ok(f@),
        Err(e) => Err(e),
    }
}

/// Copies the 6-byte address field starting at `off`.
fn read_address(b: &[u8], off: usize) -> (a: HardwareAddress)
    requires
        off + 6 <= b@.len(),
    ensures
        a@ == b@.subrange(off as int, off + 6),
{
    let a = HardwareAddress::new([b[off], b[off + 1], b[off + 2], b[off + 3], b[off + 4], b[off + 5]]);
    proof {
        assert(a@ =~= b@.subrange(off as int, off + 6));
    }
    a
}

/// Merges the SSID found so far into the outcome of walking the remaining
/// elements: an error anywhere wins, and the first SSID found is kept.
pub open spec fn resolve_ssid(
    found: Option<Seq<u8>>,
    rest: Result<Option<Seq<u8>>, DecodeError>,
) -> Result<Option<Seq<u8>>, DecodeError> {
    match rest {
        Err(e) => Err(e),
        Ok(o) => match found {
            Some(v) => Ok(Some(v)),
            None => Ok(o),
        },
    }
}

/// Turns the MAC-frame byte region that follows the radiotap header into a
/// typed frame, or reports why the frame must be dropped.
pub fn decode(bytes: &[u8]) -> (r: Result<Frame, DecodeError>)
    ensures
        decode_view(r) == spec_decode(bytes@),
{
    if bytes.len() < 2 {
        return Err(DecodeError::Truncated);
    }
    let b0 = bytes[0];
    let ftype = (b0 >> 2) & 3;
    let fsubtype = (b0 >> 4) & 0xf;
    if ftype == 0 && fsubtype == 8 {
        if bytes.len() < 36 {
            return Err(DecodeError::Truncated);
        }
        let destination = read_address(bytes, 4);
        let source = read_address(bytes, 10);
        let bssid = read_address(bytes, 16);
        let mut i: usize = 36;
        let mut ssid: Option<Vec<u8>> = None;
        let ghost body = bytes@.skip(36);
        while i < bytes.len()
            invariant
                36 <= i <= bytes@.len(),
                spec_frame_type(bytes@[0]) == 0,
                spec_frame_subtype(bytes@[0]) == 8,
                body == bytes@.skip(36),
                resolve_ssid(ssid_view(ssid), spec_first_ssid(bytes@.skip(i as int)))
                    == spec_first_ssid(body),
            decreases bytes@.len() - i,
        {
            if i + 1 >= bytes.len() {
                proof {
                    assert(bytes@.skip(i as int).len() == 1);
                    assert(spec_first_ssid(bytes@.skip(i as int))
                        == Err::<Option<Seq<u8>>, DecodeError>(DecodeError::Truncated));
                    assert(spec_first_ssid(body)
                        == Err::<Option<Seq<u8>>, DecodeError>(DecodeError::Truncated));
                }
                return Err(DecodeError::Truncated);
            }
            let tag = bytes[i];
            let elen = bytes[i + 1] as usize;
            proof {
                assert(bytes@.skip(i as int)[0] == bytes@[i as int]);
                assert(bytes@.skip(i as int)[1] == bytes@[i + 1]);
            }
            if elen > bytes.len() - (i + 2) {
                return Err(DecodeError::MalformedElement);
            }
            proof {
                assert(bytes@.skip(i as int).skip(2 + elen) =~= bytes@.skip(i + 2 + elen));
            }
            if tag == 0 && matches!(ssid, None) {
                let value = vstd::slice::slice_to_vec(&bytes[i + 2..i + 2 + elen]);
                proof {
                    assert(value@ =~= bytes@.skip(i as int).subrange(2, 2 + elen));
                }
                ssid = Some(value);
            }
            i = i + 2 + elen;
        }
        proof {
            assert(bytes@.skip(i as int).len() == 0);
            assert(spec_first_ssid(bytes@.skip(i as int)) == Ok::<Option<Seq<u8>>, DecodeError>(None));
            assert(spec_first_ssid(body) == Ok::<Option<Seq<u8>>, DecodeError>(ssid_view(ssid)));
        }
        Ok(Frame::Beacon { source, destination, bssid, ssid })
    } else if ftype == 1 && fsubtype == 13 {
        if bytes.len() < 10 {
            return Err(DecodeError::Truncated);
        }
        let receiver = read_address(bytes, 4);
        Ok(Frame::Ack { receiver })
    } else {
        Ok(Frame::Unhandled)
    }
}

/// The view of an SSID accumulator.
pub open spec fn ssid_view(s: Option<Vec<u8>>) -> Option<Seq<u8>> {
    match s {
        Some(v) => Some(v@),
        None => None,
    }
}


/// Any well-formed 10-byte-or-longer acknowledgement frame decodes to
/// exactly the receiver address in bytes 4 to 10, whatever trailing bytes
/// follow.
pub proof fn lemma_ack_decodes(b: Seq<u8>)
    requires
        b.len() >= 10,
        spec_frame_type(b[0]) == 1,
        spec_frame_subtype(b[0]) == 13,
    ensures
        spec_decode(b) == Ok::<FrameModel, DecodeError>(
            FrameModel::Ack { receiver: b.subrange(4, 10) },
        ),
{
}

/// A buffer shorter than the minimum its claimed type/subtype requires is
/// reported as truncated, never decoded into a partial frame.
pub proof fn lemma_short_buffer_truncated(b: Seq<u8>)
    requires
        b.len() >= 2,
        (spec_frame_type(b[0]) == 0 && spec_frame_subtype(b[0]) == 8 && b.len()
            < beacon_fixed_len()) || (spec_frame_type(b[0]) == 1 && spec_frame_subtype(b[0]) == 13
            && b.len() < 10),
    ensures
        spec_decode(b) == Err::<FrameModel, DecodeError>(DecodeError::Truncated),
{
}

/// An information element that claims more bytes than remain makes the
/// element walk fail as malformed.
pub proof fn lemma_oversized_element_malformed(e: Seq<u8>)
    requires
        e.len() >= 2,
        2 + (e[1] as int) > e.len(),
    ensures
        spec_first_ssid(e) == Err::<Option<Seq<u8>>, DecodeError>(DecodeError::MalformedElement),
{
}

/// A failure while walking later elements is the failure of the whole walk:
/// no partial result survives a malformed or truncated element.
pub proof fn lemma_element_error_propagates(e: Seq<u8>, err: DecodeError)
    requires
        e.len() >= 2,
        2 + (e[1] as int) <= e.len(),
        spec_first_ssid(e.skip(2 + (e[1] as int))) == Err::<Option<Seq<u8>>, DecodeError>(err),
    ensures
        spec_first_ssid(e) == Err::<Option<Seq<u8>>, DecodeError>(err),
{
}

/// A failing element walk fails the whole beacon decode with that error.
pub proof fn lemma_beacon_element_failure(b: Seq<u8>, err: DecodeError)
    requires
        b.len() >= beacon_fixed_len(),
        spec_frame_type(b[0]) == 0,
        spec_frame_subtype(b[0]) == 8,
        spec_first_ssid(b.skip(beacon_fixed_len())) == Err::<Option<Seq<u8>>, DecodeError>(err),
    ensures
        spec_decode(b) == Err::<FrameModel, DecodeError>(err),
{
}

} // verus!
