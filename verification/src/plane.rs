//! Planes that are stored without entropy coding.
//!
//! The first byte of a plane is its mode. A constant plane (`0xff`) and a
//! plane of plain bytes (`4`) are decoded here. The range-coded modes and
//! the zero-run modes are not: [`crate::channel`] decodes those.

use crate::digits;
use crate::error::PacketError;
use crate::wire;
use vstd::prelude::*;

verus! {

/// A decoded plane.
#[derive(Debug)]
pub struct DecodedPlane {
    /// The bytes of the plane.
    pub bytes: Vec<u8>,
    /// The bytes are final samples, and no predictor applies.
    pub skip_predictor: bool,
}

/// Why a plain plane is refused that is too short.
pub const UNCOMPRESSED_TRUNCATED: &'static str =
    "Lagarith: UNCOMPRESSED plane truncated (need width*height bytes)";

/// Why a range-coded plane is refused.
pub const RANGE_CODED: &'static str =
    "Lagarith: range-coded planes (esc_count 1..3) require the 53-entry probability VLC and 256-entry probability array";

/// Why a plane of zero runs is refused.
pub const ZERO_RUN_ONLY: &'static str =
    "Lagarith: zero-run-only planes (esc_count 5..7) need the run-length VLC tables";

/// What a plane of `pixels` samples stands for, and whether its bytes are
/// final samples.
pub open spec fn plane_bytes(plane: Seq<u8>, pixels: nat) -> Result<(Seq<u8>, bool), PacketError> {
    let mode = plane[0];
    if mode == 0xff {
        if plane.len() < 2 {
            Err(PacketError::Invalid("Lagarith: SOLID_PLANE missing constant byte"))
        } else {
            Ok((digits::repeat(plane[1], pixels), true))
        }
    } else if mode == 4 {
        if plane.len() < 1 + pixels {
            Err(PacketError::Invalid(UNCOMPRESSED_TRUNCATED))
        } else {
            Ok((plane.subrange(1, 1 + pixels as int), false))
        }
    } else if 1 <= mode <= 3 {
        Err(PacketError::Unsupported(RANGE_CODED))
    } else if 5 <= mode <= 7 {
        Err(PacketError::Unsupported(ZERO_RUN_ONLY))
    } else {
        Err(PacketError::BadPlaneMode(mode))
    }
}

/// What the part of a packet from `start` to `end` stands for.
pub open spec fn plane_at(packet: Seq<u8>, start: int, end: int, w: nat, h: nat) -> Result<
    (Seq<u8>, bool),
    PacketError,
> {
    if end > packet.len() || start >= end {
        Err(PacketError::Invalid("Lagarith: plane bounds out of range"))
    } else if w * h > usize::MAX {
        Err(PacketError::Invalid("Lagarith: width*height overflow"))
    } else {
        plane_bytes(packet.subrange(start, end), w * h)
    }
}

/// Decode the plane that lies between two offsets of a packet.
pub fn decode_plane(
    packet: &[u8],
    plane_start: usize,
    plane_end: usize,
    width: usize,
    height: usize,
) -> (r: Result<DecodedPlane, PacketError>)
    ensures
        match plane_at(
            packet@,
            plane_start as int,
            plane_end as int,
            width as nat,
            height as nat,
        ) {
            Ok(x) => r is Ok && r->Ok_0.bytes@ == x.0 && r->Ok_0.skip_predictor == x.1,
            Err(e) => r is Err && r->Err_0 == e,
        },
{
    if plane_end > packet.len() || plane_start >= plane_end {
        return Err(PacketError::Invalid("Lagarith: plane bounds out of range"));
    }
    let plane = vstd::slice::slice_subrange(packet, plane_start, plane_end);
    let mode: u8 = plane[0];
    let pixels: usize = match width.checked_mul(height) {
        Some(n) => n,
        None => {
            return Err(PacketError::Invalid("Lagarith: width*height overflow"));
        },
    };
    match mode {
        0xff => {
            if plane.len() < 2 {
                return Err(PacketError::Invalid("Lagarith: SOLID_PLANE missing constant byte"));
            }
            Ok(DecodedPlane { bytes: wire::filled(plane[1], pixels), skip_predictor: true })
        },
        4 => {
            if plane.len() - 1 < pixels {
                return Err(
                    PacketError::Invalid(UNCOMPRESSED_TRUNCATED),
                );
            }
            Ok(
                DecodedPlane {
                    bytes: wire::copy_range(plane, 1, 1 + pixels),
                    skip_predictor: false,
                },
            )
        },
        1..=3 => Err(PacketError::Unsupported(RANGE_CODED)),
        5..=7 => Err(PacketError::Unsupported(ZERO_RUN_ONLY)),
        other => Err(PacketError::BadPlaneMode(other)),
    }
}

/// A plane of mode 0xff repeats its byte and needs no predictor. One of mode
/// 4 holds its samples behind the mode byte. No other mode is decoded here.
pub proof fn law_plane(plane: Seq<u8>, pixels: nat, i: int)
    requires
        plane.len() > 0,
        0 <= i < pixels,
    ensures
        plane_bytes(plane, pixels) is Ok <==> (plane[0] == 0xff && plane.len() >= 2) || (plane[0]
            == 4 && plane.len() > pixels),
        plane_bytes(plane, pixels) matches Ok(x) ==> {
            &&& x.0.len() == pixels
            &&& plane[0] == 0xff ==> x.0[i] == plane[1] && x.1
            &&& plane[0] == 4 ==> x.0[i] == plane[1 + i] && !x.1
        },
        plane[0] == 0 || 8 <= plane[0] < 0xff ==> plane_bytes(plane, pixels) == Err::<
            (Seq<u8>, bool),
            PacketError,
        >(PacketError::BadPlaneMode(plane[0])),
        1 <= plane[0] <= 3 || 5 <= plane[0] <= 7 ==> plane_bytes(plane, pixels) is Err
            && plane_bytes(plane, pixels)->Err_0 is Unsupported,
{
}

} // verus!
