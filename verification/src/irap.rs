use vstd::prelude::*;

verus! {

/// Magic number that opens every IRAP stream, as the big-endian word that
/// carries the signed value -996 on disk.
pub const IRAP_HEADER_ID_WORD: u32 = 0xFFFF_FC1C;

/// Bit pattern of the single-precision value 1e30: the reserved "undefined"
/// sentinel of the binary encoding.
pub const UNDEF_MAP_IRAP_BINARY_BITS: u32 = 0x7149_F2CA;

/// Bit pattern of the double-precision value 9999900.0: the reserved
/// "undefined" threshold of the text encoding, applied at double precision.
pub const UNDEF_MAP_IRAP_ASCII_BITS64: u64 = 0x4163_12C3_8000_0000;

/// Bit pattern of the canonical single-precision quiet NaN, the in-memory
/// marker for a missing value.
pub const NAN_BITS: u32 = 0x7FC0_0000;

/// Grid geometry of a surface. Dimensions are plain counts; every other
/// field holds the IEEE single-precision bit pattern of its value, which is
/// the precision both persisted encodings carry.
#[derive(Clone, Copy, PartialEq, Eq, Structural, Debug)]
pub struct IrapHeader {
    pub ncol: u32,
    pub nrow: u32,
    pub xori: u32,
    pub yori: u32,
    pub xmax: u32,
    pub ymax: u32,
    pub xinc: u32,
    pub yinc: u32,
    pub rot: u32,
    pub xrot: u32,
    pub yrot: u32,
}

/// A surface: a geometry header and a flat value buffer in row-major order
/// (index = row * ncol + col), each value an IEEE single-precision bit
/// pattern.
#[derive(Clone, PartialEq, Debug)]
pub struct Irap {
    pub header: IrapHeader,
    pub values: Vec<u32>,
}

impl Irap {
    /// The buffer holds exactly one value per grid cell and both dimensions
    /// are positive.
    pub open spec fn wf(self) -> bool {
        1 <= self.header.ncol && 1 <= self.header.nrow && self.values@.len()
            == self.header.ncol * self.header.nrow
    }
}

/// Everything that can go wrong while decoding or encoding a surface.
/// Record numbers count the guarded header records of the binary layout.
#[derive(Clone, Copy, PartialEq, Eq, Structural, Debug)]
pub enum IrapError {
    /// The stream's first header value is not the IRAP magic number.
    BadMagic { actual: u32 },
    /// A binary header record declares a length other than its fixed size.
    BadRecordSize { record: u32, expected: u32, actual: u32 },
    /// A binary record's trailing length word differs from its leading one.
    GuardMismatch { record: u32, leading: u32, trailing: u32 },
    /// A value chunk's trailing length word differs from its leading one.
    ChunkGuardMismatch { leading: u32, trailing: u32 },
    /// A value chunk declares a length that is zero, not a multiple of four,
    /// or more than the values still owed.
    BadChunkSize { declared: u32 },
    /// A dimension is zero, or was a negative count in the text header
    /// (carried here as its two's-complement word).
    InvalidDimensions { ncol: u32, nrow: u32 },
    /// The input ended before all required fields or values were read.
    UnexpectedEnd,
    /// A numeric token of the text encoding could not be parsed.
    MalformedNumber,
}

/// The exact description text of each error, naming the expected and actual
/// values and the record or chunk concerned.
pub open spec fn spec_message(e: IrapError) -> Seq<char> {
    match e {
        IrapError::BadMagic { actual } => "Incorrect magic number: "@
            + crate::ascii_num::signed_word_chars(actual) + ". Expected -996"@,
        IrapError::BadRecordSize { record, expected: _, actual } => "Incorrect chunk "@
            + crate::ascii_num::dec_digits(record as nat) + " size: "@
            + crate::ascii_num::signed_word_chars(actual),
        IrapError::GuardMismatch { record, leading: _, trailing } => "Chunk "@
            + crate::ascii_num::dec_digits(record as nat) + " end guard mismatch: "@
            + crate::ascii_num::signed_word_chars(trailing),
        IrapError::ChunkGuardMismatch { leading, trailing } => "Block size mismatch. Start: "@
            + crate::ascii_num::signed_word_chars(leading) + ", End: "@
            + crate::ascii_num::signed_word_chars(trailing),
        IrapError::BadChunkSize { declared } => "Invalid block size: "@
            + crate::ascii_num::signed_word_chars(declared),
        IrapError::InvalidDimensions { ncol, nrow } => "Invalid dimensions: ncol="@
            + crate::ascii_num::signed_word_chars(ncol) + ", nrow="@
            + crate::ascii_num::signed_word_chars(nrow),
        IrapError::UnexpectedEnd => "Unexpected end of file"@,
        IrapError::MalformedNumber => "Malformed numeric token"@,
    }
}

impl IrapError {
    /// A short human-readable description, in place of a Display impl.
    pub fn message(&self) -> (r: String)
        ensures
            r@ == spec_message(*self),
    {
        match self {
            IrapError::BadMagic { actual } => {
                let mut s = String::new();
                s.append("Incorrect magic number: ");
                let t = crate::ascii_num::u32_word_to_signed_string(*actual);
                s.append(t.as_str());
                s.append(". Expected -996");
                assert(s@ =~= spec_message(*self));
                s
            },
            IrapError::BadRecordSize { record, expected: _, actual } => {
                let mut s = String::new();
                s.append("Incorrect chunk ");
                let r = crate::ascii_num::u32_to_string(*record);
                s.append(r.as_str());
                s.append(" size: ");
                let t = crate::ascii_num::u32_word_to_signed_string(*actual);
                s.append(t.as_str());
                assert(s@ =~= spec_message(*self));
                s
            },
            IrapError::GuardMismatch { record, leading: _, trailing } => {
                let mut s = String::new();
                s.append("Chunk ");
                let r = crate::ascii_num::u32_to_string(*record);
                s.append(r.as_str());
                s.append(" end guard mismatch: ");
                let t = crate::ascii_num::u32_word_to_signed_string(*trailing);
                s.append(t.as_str());
                assert(s@ =~= spec_message(*self));
                s
            },
            IrapError::ChunkGuardMismatch { leading, trailing } => {
                let mut s = String::new();
                s.append("Block size mismatch. Start: ");
                let l = crate::ascii_num::u32_word_to_signed_string(*leading);
                s.append(l.as_str());
                s.append(", End: ");
                let t = crate::ascii_num::u32_word_to_signed_string(*trailing);
                s.append(t.as_str());
                assert(s@ =~= spec_message(*self));
                s
            },
            IrapError::BadChunkSize { declared } => {
                let mut s = String::new();
                s.append("Invalid block size: ");
                let t = crate::ascii_num::u32_word_to_signed_string(*declared);
                s.append(t.as_str());
                assert(s@ =~= spec_message(*self));
                s
            },
            IrapError::InvalidDimensions { ncol, nrow } => {
                let mut s = String::new();
                s.append("Invalid dimensions: ncol=");
                let c = crate::ascii_num::u32_word_to_signed_string(*ncol);
                s.append(c.as_str());
                s.append(", nrow=");
                let r = crate::ascii_num::u32_word_to_signed_string(*nrow);
                s.append(r.as_str());
                assert(s@ =~= spec_message(*self));
                s
            },
            IrapError::UnexpectedEnd => {
                let mut s = String::new();
                s.append("Unexpected end of file");
                assert(s@ =~= spec_message(*self));
                s
            },
            IrapError::MalformedNumber => {
                let mut s = String::new();
                s.append("Malformed numeric token");
                assert(s@ =~= spec_message(*self));
                s
            },
        }
    }
}

} // verus!
