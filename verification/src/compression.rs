//! Compression kinds and their stable on-disk identifiers.
use vstd::prelude::*;

verus! {

pub const COMPRESSION_STORED: u8 = 0x00;

pub const COMPRESSION_DEFLATE: u8 = 0x10;

pub const COMPRESSION_ZSTD: u8 = 0x20;

pub const COMPRESSION_XZ: u8 = 0x30;

pub const COMPRESSION_SNAPPY: u8 = 0x40;

pub const COMPRESSION_BROTLI: u8 = 0x50;

/// How a payload is compressed. An id this library does not recognize
/// decodes to `Unknown` and re-encodes to the same id, so future
/// codecs pass through unharmed; compressing or decompressing with an
/// `Unknown` kind fails.
#[derive(Clone, Copy, Debug, PartialEq, Eq, Structural)]
pub enum Compression {
    Stored,
    Brotli,
    Deflate,
    Zstd,
    Xz,
    Snappy,
    Unknown(u8),
}

/// True of the ids the named kinds own.
pub open spec fn known_id(id: u8) -> bool {
    id == COMPRESSION_STORED || id == COMPRESSION_DEFLATE || id == COMPRESSION_ZSTD || id
        == COMPRESSION_XZ || id == COMPRESSION_SNAPPY || id == COMPRESSION_BROTLI
}

impl Compression {
    /// An `Unknown` kind never shadows a named kind, so ids and kinds
    /// correspond one to one.
    pub open spec fn wf(&self) -> bool {
        match *self {
            Compression::Unknown(id) => !known_id(id),
            _ => true,
        }
    }

    /// The kind a stable one-byte identifier names.
    pub open spec fn spec_from_id(id: u8) -> Compression {
        if id == COMPRESSION_STORED {
            Compression::Stored
        } else if id == COMPRESSION_BROTLI {
            Compression::Brotli
        } else if id == COMPRESSION_DEFLATE {
            Compression::Deflate
        } else if id == COMPRESSION_ZSTD {
            Compression::Zstd
        } else if id == COMPRESSION_XZ {
            Compression::Xz
        } else if id == COMPRESSION_SNAPPY {
            Compression::Snappy
        } else {
            Compression::Unknown(id)
        }
    }

    /// The stable one-byte identifier of this kind.
    pub open spec fn spec_id(&self) -> u8 {
        match *self {
            Compression::Stored => COMPRESSION_STORED,
            Compression::Brotli => COMPRESSION_BROTLI,
            Compression::Deflate => COMPRESSION_DEFLATE,
            Compression::Zstd => COMPRESSION_ZSTD,
            Compression::Xz => COMPRESSION_XZ,
            Compression::Snappy => COMPRESSION_SNAPPY,
            Compression::Unknown(id) => id,
        }
    }

    #[verifier::when_used_as_spec(spec_id)]
    pub fn id(&self) -> (r: u8)
        ensures
            r == self.spec_id(),
    {
        match *self {
            Compression::Stored => COMPRESSION_STORED,
            Compression::Brotli => COMPRESSION_BROTLI,
            Compression::Deflate => COMPRESSION_DEFLATE,
            Compression::Zstd => COMPRESSION_ZSTD,
            Compression::Xz => COMPRESSION_XZ,
            Compression::Snappy => COMPRESSION_SNAPPY,
            Compression::Unknown(id) => id,
        }
    }

    #[verifier::when_used_as_spec(spec_from_id)]
    pub fn from_id(id: u8) -> (r: Compression)
        ensures
            r == Compression::spec_from_id(id),
    {
        if id == COMPRESSION_STORED {
            Compression::Stored
        } else if id == COMPRESSION_BROTLI {
            Compression::Brotli
        } else if id == COMPRESSION_DEFLATE {
            Compression::Deflate
        } else if id == COMPRESSION_ZSTD {
            Compression::Zstd
        } else if id == COMPRESSION_XZ {
            Compression::Xz
        } else if id == COMPRESSION_SNAPPY {
            Compression::Snappy
        } else {
            Compression::Unknown(id)
        }
    }
}

/// The id of a kind names that kind back, and every decoded kind is
/// well-formed: compression ids round-trip.
pub proof fn lemma_compression_id_round_trip(c: Compression, id: u8)
    ensures
        c.wf() ==> Compression::spec_from_id(c.spec_id()) == c,
        Compression::spec_from_id(id).wf(),
        Compression::spec_from_id(id).spec_id() == id,
{
}

} // verus!
