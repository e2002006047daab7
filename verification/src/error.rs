//! Classified errors for every fallible operation of the library.
use vstd::prelude::*;

verus! {

/// A path string could not be canonicalized.
#[derive(Clone, Copy, Debug, PartialEq, Eq, Structural)]
pub enum PathError {
    /// No usable components survive canonicalization.
    EmptyPath,
    /// A component holds a disallowed character or fails normalization.
    UnrepresentableStr,
    /// Reserved for inputs that cannot be reduced to a canonical form.
    NonCanonical,
}

/// The on-disk bytes do not form a valid archive.
#[derive(Clone, Copy, Debug, PartialEq, Eq, Structural)]
pub enum FormatError {
    /// The magic constant at the start of the file does not match.
    BadMagic,
    /// A field holds a value the format does not allow, such as an
    /// unrecognized record tag.
    InvalidData,
    /// The input ended before a field could be read in full.
    Truncated,
}

/// Any failure of an archive-level operation.
#[derive(Clone, Copy, Debug, PartialEq, Eq, Structural)]
pub enum BoxError {
    /// The bytes do not form a valid archive.
    Format(FormatError),
    /// A path string could not be canonicalized.
    Path(PathError),
    /// The header has no trailer pointer: the archive holds no valid
    /// metadata (corrupt or mid-creation).
    NoTrailer,
    /// A referenced record or parent directory does not exist.
    NotFound,
    /// A record with the same path already exists.
    AlreadyExists,
    /// The compression id is not recognized, so the payload cannot be
    /// compressed or decompressed.
    Unsupported(u8),
    /// A computed offset or size does not fit in 64 bits.
    TooLarge,
    /// An underlying codec reported a failure.
    Codec,
}

} // verus!
