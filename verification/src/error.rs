//! The errors of the codec.

use vstd::prelude::*;

verus! {

/// All the ways in which a frame, a channel or a request is refused.
#[derive(Debug, Clone, PartialEq, Eq)]
pub enum Error {
    /// The payload is empty: a NULL ("JUMP") frame, which repeats its
    /// predecessor. A stateless decoder has none to repeat.
    NullFrame,
    /// The frame-type byte is outside `1..=11`.
    BadFrameType(u8),
    /// The combination of pixel format and frame type is not supported.
    UnsupportedFrameType(u8),
    /// The channel-header byte is outside the legal set.
    BadChannelHeader(u8),
    /// The input ends before a length field, an offset table or a required
    /// tail is complete.
    Truncated {
        /// What could not be read.
        context: &'static str,
    },
    /// A channel offset points outside the frame.
    OffsetOutOfRange,
    /// A Fibonacci code stands for more than its table can represent.
    FibonacciOverflow,
    /// Every symbol has frequency zero.
    EmptyProbabilityTable,
    /// The frequencies do not sum to a 32-bit number.
    ProbabilityTableOverflow,
    /// The frequencies sum to more than the current range, so that no symbol
    /// has a share of it.
    ProbabilityTotalExceedsRange,
    /// The frequencies cannot be brought to a power-of-two total.
    ProbabilityTableUnnormalizable,
    /// The dimensions are not supported.
    BadDimensions {
        /// Requested width.
        width: u32,
        /// Requested height.
        height: u32,
    },
    /// A NULL frame arrived before any other frame.
    NullFrameWithoutPredecessor,
    /// The requested pixel format is not the one that the frame holds.
    PixelFormatMismatch {
        /// The frame-type byte.
        frame_type: u8,
    },
    /// The frequency table of a legacy channel has the rare-symbol-cluster
    /// shape and is not decoded.
    LegacyRareSymbolClusterUnsupported,
}

/// Why a frequency table with the rare-symbol-cluster shape is refused.
pub const RARE_SYMBOL_CLUSTER: &'static str =
    "Lagarith: type-7 channel's freq table matches the rare-symbol-cluster signature (the flat 257-entry CDF and the pair-packed 513-entry CDF are NOT bit-equivalent on this fixture class — decoding would silently miscode); this stream needs Strategy F which is blocked on a type-7 fixture";

/// The hexadecimal digit of a number below 16.
pub open spec fn digit(d: nat) -> char {
    if d < 10 {
        (d + 0x30) as char
    } else {
        (d + 0x57) as char
    }
}

/// A number in decimal.
pub open spec fn decimal(n: nat) -> Seq<char>
    decreases n,
{
    if n < 10 {
        seq![digit(n)]
    } else {
        decimal(n / 10).push(digit(n % 10))
    }
}

/// A byte as two hexadecimal digits.
pub open spec fn hexadecimal(b: u8) -> Seq<char> {
    seq![digit((b / 16) as nat), digit((b % 16) as nat)]
}

impl Error {
    /// The error in words.
    pub open spec fn text(self) -> Seq<char> {
        match self {
            Error::NullFrame => "Lagarith: zero-length payload (NULL frame)"@,
            Error::BadFrameType(b) => "Lagarith: frame-type byte "@ + decimal(b as nat)
                + " out of range 1..=11"@,
            Error::UnsupportedFrameType(b) => "Lagarith: frame-type byte "@ + decimal(b as nat)
                + " not yet supported in this build"@,
            Error::BadChannelHeader(h) => "Lagarith: channel-header byte 0x"@ + hexadecimal(h)
                + " unrecognised"@,
            Error::Truncated { context } => "Lagarith: input truncated at "@ + context@,
            Error::OffsetOutOfRange => "Lagarith: channel offset points past frame end"@,
            Error::FibonacciOverflow =>
                "Lagarith: Fibonacci prefix encodes value > 33 (decoder cap)"@,
            Error::EmptyProbabilityTable => "Lagarith: probability table summed to zero"@,
            Error::ProbabilityTableOverflow => "Lagarith: probability table sum exceeds 32 bits"@,
            Error::ProbabilityTotalExceedsRange =>
                "Lagarith: probability total exceeds the coder range"@,
            Error::ProbabilityTableUnnormalizable =>
                "Lagarith: probability table has no power-of-two total"@,
            Error::BadDimensions { width, height } => "Lagarith: width="@ + decimal(width as nat)
                + " height="@ + decimal(height as nat) + " not supported"@,
            Error::NullFrameWithoutPredecessor =>
                "Lagarith: NULL frame supplied to stateful decoder before any predecessor frame"@,
            Error::PixelFormatMismatch { frame_type } =>
                "Lagarith: caller-requested pixel format does not match frame-type byte "@
                + decimal(frame_type as nat),
            Error::LegacyRareSymbolClusterUnsupported => RARE_SYMBOL_CLUSTER@,
        }
    }

    /// The error in words.
    pub fn message(&self) -> (r: String)
        ensures
            r@ == self.text(),
    {
        match self {
            Error::NullFrame => String::from_str("Lagarith: zero-length payload (NULL frame)"),
            Error::BadFrameType(b) => {
                let mut s = String::from_str("Lagarith: frame-type byte ");
                append_decimal(&mut s, *b as u32);
                s.append(" out of range 1..=11");
                s
            },
            Error::UnsupportedFrameType(b) => {
                let mut s = String::from_str("Lagarith: frame-type byte ");
                append_decimal(&mut s, *b as u32);
                s.append(" not yet supported in this build");
                s
            },
            Error::BadChannelHeader(h) => {
                let mut s = String::from_str("Lagarith: channel-header byte 0x");
                append_hexadecimal(&mut s, *h);
                s.append(" unrecognised");
                s
            },
            Error::Truncated { context } => {
                let mut s = String::from_str("Lagarith: input truncated at ");
                s.append(context);
                s
            },
            Error::OffsetOutOfRange => String::from_str(
                "Lagarith: channel offset points past frame end",
            ),
            Error::FibonacciOverflow => String::from_str(
                "Lagarith: Fibonacci prefix encodes value > 33 (decoder cap)",
            ),
            Error::EmptyProbabilityTable => String::from_str(
                "Lagarith: probability table summed to zero",
            ),
            Error::ProbabilityTableOverflow => String::from_str(
                "Lagarith: probability table sum exceeds 32 bits",
            ),
            Error::ProbabilityTotalExceedsRange => String::from_str(
                "Lagarith: probability total exceeds the coder range",
            ),
            Error::ProbabilityTableUnnormalizable => String::from_str(
                "Lagarith: probability table has no power-of-two total",
            ),
            Error::BadDimensions { width, height } => {
                let mut s = String::from_str("Lagarith: width=");
                append_decimal(&mut s, *width);
                s.append(" height=");
                append_decimal(&mut s, *height);
                s.append(" not supported");
                s
            },
            Error::NullFrameWithoutPredecessor => String::from_str(
                "Lagarith: NULL frame supplied to stateful decoder before any predecessor frame",
            ),
            Error::PixelFormatMismatch { frame_type } => {
                let mut s = String::from_str(
                    "Lagarith: caller-requested pixel format does not match frame-type byte ",
                );
                append_decimal(&mut s, *frame_type as u32);
                s
            },
            Error::LegacyRareSymbolClusterUnsupported => String::from_str(RARE_SYMBOL_CLUSTER),
        }
    }
}

/// Append a hexadecimal digit.
fn append_digit(s: &mut String, d: u8)
    requires
        d < 16,
    ensures
        final(s)@ == old(s)@ + seq![digit(d as nat)],
{
    let all = "0123456789abcdef";
    proof {
        reveal_strlit("0123456789abcdef");
    }
    let one = all.substring_char(d as usize, d as usize + 1);
    assert(one@ =~= seq![digit(d as nat)]);
    s.append(one);
}

/// Append a byte as two hexadecimal digits.
fn append_hexadecimal(s: &mut String, b: u8)
    ensures
        final(s)@ == old(s)@ + hexadecimal(b),
{
    append_digit(s, b / 16);
    append_digit(s, b % 16);
    assert(s@ =~= old(s)@ + hexadecimal(b));
}

/// Append a number in decimal.
fn append_decimal(s: &mut String, n: u32)
    ensures
        final(s)@ == old(s)@ + decimal(n as nat),
    decreases n,
{
    if n < 10 {
        append_digit(s, n as u8);
    } else {
        append_decimal(s, n / 10);
        append_digit(s, (n % 10) as u8);
    }
    assert(s@ =~= old(s)@ + decimal(n as nat));
}

/// The result of a codec operation.
pub type Result<T> = core::result::Result<T, Error>;

/// Why a packet header or a plain plane is refused.
#[derive(Debug, Clone, PartialEq, Eq)]
pub enum PacketError {
    /// The data is malformed.
    Invalid(&'static str),
    /// The first byte of a packet selects no frame type.
    BadFrameType(u8),
    /// The first byte of a plane selects no mode.
    BadPlaneMode(u8),
    /// The data has a form that is decoded elsewhere.
    Unsupported(&'static str),
}

impl PacketError {
    /// The error in words.
    pub open spec fn text(self) -> Seq<char> {
        match self {
            PacketError::Invalid(reason) => reason@,
            PacketError::BadFrameType(b) => "Lagarith: unsupported frame type byte 0x"@
                + hexadecimal(b),
            PacketError::BadPlaneMode(b) => "Lagarith: unsupported plane mode byte 0x"@
                + hexadecimal(b),
            PacketError::Unsupported(reason) => reason@,
        }
    }

    /// The error in words.
    pub fn message(&self) -> (r: String)
        ensures
            r@ == self.text(),
    {
        match self {
            PacketError::Invalid(reason) => String::from_str(reason),
            PacketError::BadFrameType(b) => {
                let mut s = String::from_str("Lagarith: unsupported frame type byte 0x");
                append_hexadecimal(&mut s, *b);
                s
            },
            PacketError::BadPlaneMode(b) => {
                let mut s = String::from_str("Lagarith: unsupported plane mode byte 0x");
                append_hexadecimal(&mut s, *b);
                s
            },
            PacketError::Unsupported(reason) => String::from_str(reason),
        }
    }
}

} // verus!
