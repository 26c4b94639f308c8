//! The header of a packet: its type byte and the offsets of its planes.

use crate::error::PacketError;
use crate::frame;
use crate::wire;
use vstd::prelude::*;

verus! {

/// What the first byte of a packet selects.
#[derive(Clone, Copy, Debug, PartialEq, Eq, Structural)]
pub enum FrameType {
    Raw,
    URgb24,
    ArithYuy2,
    ArithRgb24,
    SolidGray,
    SolidColor,
    OldArithRgb,
    ArithRgba,
    SolidRgba,
    ArithYv12,
    ReducedRes,
}

impl FrameType {
    /// The byte that selects this type.
    pub open spec fn byte(self) -> u8 {
        match self {
            FrameType::Raw => 0x01,
            FrameType::URgb24 => 0x02,
            FrameType::ArithYuy2 => 0x03,
            FrameType::ArithRgb24 => 0x04,
            FrameType::SolidGray => 0x05,
            FrameType::SolidColor => 0x06,
            FrameType::OldArithRgb => 0x07,
            FrameType::ArithRgba => 0x08,
            FrameType::SolidRgba => 0x09,
            FrameType::ArithYv12 => 0x0a,
            FrameType::ReducedRes => 0x0b,
        }
    }

    /// A frame of one colour.
    pub open spec fn solid(self) -> bool {
        self is SolidGray || self is SolidColor || self is SolidRgba
    }

    /// The type that a byte selects.
    pub fn from_u8(b: u8) -> (r: Result<Self, PacketError>)
        ensures
            match r {
                Ok(t) => t.byte() == b,
                Err(e) => !(1 <= b <= 0x0b) && e == PacketError::BadFrameType(b),
            },
    {
        match b {
            0x01 => Ok(FrameType::Raw),
            0x02 => Ok(FrameType::URgb24),
            0x03 => Ok(FrameType::ArithYuy2),
            0x04 => Ok(FrameType::ArithRgb24),
            0x05 => Ok(FrameType::SolidGray),
            0x06 => Ok(FrameType::SolidColor),
            0x07 => Ok(FrameType::OldArithRgb),
            0x08 => Ok(FrameType::ArithRgba),
            0x09 => Ok(FrameType::SolidRgba),
            0x0a => Ok(FrameType::ArithYv12),
            0x0b => Ok(FrameType::ReducedRes),
            other => Err(PacketError::BadFrameType(other)),
        }
    }

    /// Whether this is a frame of one colour.
    pub fn is_solid(self) -> (r: bool)
        ensures
            r == self.solid(),
    {
        match self {
            FrameType::SolidGray => true,
            FrameType::SolidColor => true,
            FrameType::SolidRgba => true,
            _ => false,
        }
    }

    /// The number of offsets in the header. Plane 0 starts right behind
    /// them and has none.
    pub fn header_offset_count(self) -> (r: usize)
        ensures
            r == if self is ArithRgba {
                3usize
            } else {
                2usize
            },
    {
        match self {
            FrameType::ArithRgba => 3,
            _ => 2,
        }
    }
}

/// The bytes of two types differ.
pub proof fn law_type_byte_injective(a: FrameType, b: FrameType)
    requires
        a.byte() == b.byte(),
    ensures
        a == b,
{
}

/// A parsed packet header. Offsets count from the start of the packet.
#[derive(Clone, Debug)]
pub struct FrameHeader {
    pub frametype: FrameType,
    pub offset_plane0: usize,
    pub offset_plane1: Option<usize>,
    pub offset_plane2: Option<usize>,
    pub offset_plane3: Option<usize>,
}

/// The offset at position `i` of a packet.
pub open spec fn offset_at(packet: Seq<u8>, i: int) -> Option<usize> {
    Some(wire::le32(packet, i) as usize)
}

/// What a packet header holds.
pub open spec fn is_header(h: FrameHeader, packet: Seq<u8>) -> bool {
    let t = h.frametype;
    &&& t.byte() == packet[0]
    &&& if t is ArithRgba {
        &&& h.offset_plane0 == 13
        &&& h.offset_plane1 == offset_at(packet, 1)
        &&& h.offset_plane2 == offset_at(packet, 5)
        &&& h.offset_plane3 == offset_at(packet, 9)
    } else if t is Raw || t.solid() {
        &&& h.offset_plane0 == 1
        &&& h.offset_plane1 is None
        &&& h.offset_plane2 is None
        &&& h.offset_plane3 is None
    } else {
        &&& h.offset_plane0 == 9
        &&& h.offset_plane1 == offset_at(packet, 1)
        &&& h.offset_plane2 == offset_at(packet, 5)
        &&& h.offset_plane3 is None
    }
}

/// Why a packet has no header.
pub open spec fn header_error(packet: Seq<u8>) -> Option<PacketError> {
    if packet.len() == 0 {
        Some(PacketError::Invalid("Lagarith: empty packet"))
    } else if !(1 <= packet[0] <= 0x0b) {
        Some(PacketError::BadFrameType(packet[0]))
    } else if packet[0] == 0x08 {
        if packet.len() < 13 {
            Some(PacketError::Invalid("Lagarith: 4-plane frame header truncated (need 13 bytes)"))
        } else {
            None
        }
    } else if packet[0] == 0x01 || packet[0] == 0x05 || packet[0] == 0x06 || packet[0] == 0x09 {
        None
    } else if packet.len() < 9 {
        Some(PacketError::Invalid("Lagarith: 3-plane frame header truncated (need 9 bytes)"))
    } else {
        None
    }
}

impl FrameHeader {
    /// Parse the header of a packet.
    pub fn parse(packet: &[u8]) -> (r: Result<Self, PacketError>)
        ensures
            match header_error(packet@) {
                Some(e) => r is Err && r->Err_0 == e,
                None => r is Ok && is_header(r->Ok_0, packet@),
            },
    {
        if packet.len() == 0 {
            return Err(PacketError::Invalid("Lagarith: empty packet"));
        }
        let frametype = match FrameType::from_u8(packet[0]) {
            Ok(t) => t,
            Err(e) => {
                return Err(e);
            },
        };
        match frametype {
            FrameType::ArithRgba => {
                if packet.len() < 13 {
                    return Err(
                        PacketError::Invalid("Lagarith: 4-plane frame header truncated (need 13 bytes)"),
                    );
                }
                Ok(
                    FrameHeader {
                        frametype,
                        offset_plane0: 13,
                        offset_plane1: Some(wire::read_le32(packet, 1) as usize),
                        offset_plane2: Some(wire::read_le32(packet, 5) as usize),
                        offset_plane3: Some(wire::read_le32(packet, 9) as usize),
                    },
                )
            },
            FrameType::Raw
            | FrameType::SolidGray
            | FrameType::SolidColor
            | FrameType::SolidRgba => Ok(
                FrameHeader {
                    frametype,
                    offset_plane0: 1,
                    offset_plane1: None,
                    offset_plane2: None,
                    offset_plane3: None,
                },
            ),
            _ => {
                if packet.len() < 9 {
                    return Err(
                        PacketError::Invalid("Lagarith: 3-plane frame header truncated (need 9 bytes)"),
                    );
                }
                Ok(
                    FrameHeader {
                        frametype,
                        offset_plane0: 9,
                        offset_plane1: Some(wire::read_le32(packet, 1) as usize),
                        offset_plane2: Some(wire::read_le32(packet, 5) as usize),
                        offset_plane3: None,
                    },
                )
            },
        }
    }
}

/// The header of a packed frame says where its channels start.
pub proof fn law_header_of_packed(h: FrameHeader, type_byte: u8, chs: Seq<Seq<u8>>)
    requires
        chs.len() == if type_byte == 8 {
            4nat
        } else {
            3nat
        },
        !(type_byte == 1 || type_byte == 5 || type_byte == 6 || type_byte == 9),
        frame::packed(type_byte, chs).len() <= u32::MAX,
        is_header(h, frame::packed(type_byte, chs)),
    ensures
        ({
            let start = frame::table_end(chs.len() as int);
            &&& h.offset_plane0 == start
            &&& h.offset_plane1 == Some((start + frame::length_to(chs, 1)) as usize)
            &&& h.offset_plane2 == Some((start + frame::length_to(chs, 2)) as usize)
            &&& type_byte == 8 ==> h.offset_plane3 == Some(
                (start + frame::length_to(chs, 3)) as usize,
            )
        }),
{
    let f = frame::packed(type_byte, chs);
    let n = chs.len() as int;
    frame::law_split_packed(type_byte, chs);
    assert(frame::offset_of(f, n, 1) == frame::table_end(n) + frame::length_to(chs, 1));
    assert(frame::offset_of(f, n, 2) == frame::table_end(n) + frame::length_to(chs, 2));
    assert(frame::offset_of(f, n, 3) == frame::table_end(n) + frame::length_to(chs, 3));
}

/// The header of a packet: its type byte from 1 to 11, and where its planes
/// start. Four planes start behind three offsets, three behind two, and the
/// data of the other types behind the type byte. Offsets are numbers of four
/// bytes, least significant first.
pub proof fn law_header_fields(h: FrameHeader, packet: Seq<u8>)
    requires
        header_error(packet) is None,
        is_header(h, packet),
    ensures
        ({
            let t = packet[0];
            let number = |i: int|
                (packet[i] + 256 * (packet[i + 1] + 256 * (packet[i + 2] + 256 * packet[i + 3])));
            let alone = t == 1 || t == 5 || t == 6 || t == 9;
            &&& 1 <= t <= 11
            &&& h.frametype.byte() == t
            &&& h.offset_plane0 == if t == 8 {
                13int
            } else if alone {
                1
            } else {
                9
            }
            &&& alone <==> h.offset_plane1 is None
            &&& alone <==> h.offset_plane2 is None
            &&& t == 8 <==> h.offset_plane3 is Some
            &&& !alone ==> h.offset_plane1 == Some(number(1) as usize)
            &&& !alone ==> h.offset_plane2 == Some(number(5) as usize)
            &&& t == 8 ==> h.offset_plane3 == Some(number(9) as usize)
        }),
{
    let at = |i: int|
        (packet[i] + 256 * (packet[i + 1] + 256 * (packet[i + 2] + 256 * packet[i + 3])));
    assert(packet.len() >= 5 ==> wire::le32(packet, 1) == at(1));
    assert(packet.len() >= 9 ==> wire::le32(packet, 5) == at(5));
    assert(packet.len() >= 13 ==> wire::le32(packet, 9) == at(9));
}

/// What a packet without a header lacks.
pub proof fn law_header_refused(packet: Seq<u8>)
    ensures
        header_error(packet) is None <==> {
            &&& packet.len() > 0
            &&& 1 <= packet[0] <= 11
            &&& packet[0] == 8 ==> packet.len() >= 13
            &&& packet[0] == 2 || packet[0] == 3 || packet[0] == 4 || packet[0] == 7 || packet[0]
                == 10 || packet[0] == 11 ==> packet.len() >= 9
        },
        packet.len() > 0 && (packet[0] == 0 || packet[0] > 11) ==> header_error(packet) == Some(
            PacketError::BadFrameType(packet[0]),
        ),
{
}

} // verus!
