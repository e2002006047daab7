//! The fixed archive header: magic constant, format version, optional
//! alignment, optional trailer pointer. Its size never changes, so its
//! own offset needs no indirection.
use vstd::prelude::*;

use crate::codec::{dec_le, enc_le, lemma_dec_le_bound, lemma_enc_le_len, lemma_le_round_trip,
    lemma_pow256_8, lemma_pow256_monotone, pow256, read_le, write_le};
use crate::error::FormatError;

verus! {

/// Byte size of the fixed header: 4 magic bytes, a 4-byte version, an
/// 8-byte alignment and an 8-byte trailer pointer.
pub const HEADER_SIZE: u64 = 24;

/// Format version this library writes.
pub const FORMAT_VERSION: u32 = 0;

pub const MAGIC_0: u8 = 0x42;

pub const MAGIC_1: u8 = 0x4F;

pub const MAGIC_2: u8 = 0x58;

pub const MAGIC_3: u8 = 0x00;

/// The four magic bytes every archive starts with.
pub open spec fn magic_bytes() -> Seq<u8> {
    seq![MAGIC_0, MAGIC_1, MAGIC_2, MAGIC_3]
}

/// The fixed header at byte offset 0 of every archive.
#[derive(Clone, Copy, Debug, PartialEq, Eq, Structural)]
pub struct BoxHeader {
    pub version: u32,
    /// Payload alignment; absent means no padding is inserted.
    pub alignment: Option<u64>,
    /// Byte offset of the trailer; absent means no valid metadata has
    /// been written yet.
    pub trailer: Option<u64>,
}

/// An absent alignment or trailer is stored as zero, so a present one
/// must be nonzero.
pub open spec fn wf_opt_nonzero(v: Option<u64>) -> bool {
    match v {
        Some(x) => x >= 1,
        None => true,
    }
}

impl BoxHeader {
    pub open spec fn wf(&self) -> bool {
        wf_opt_nonzero(self.alignment) && wf_opt_nonzero(self.trailer)
    }

    /// A fresh header: current version, no trailer yet.
    pub fn new(alignment: Option<u64>) -> (r: BoxHeader)
        requires
            wf_opt_nonzero(alignment),
        ensures
            r == (BoxHeader { version: FORMAT_VERSION, alignment, trailer: None }),
            r.wf(),
    {
        BoxHeader { version: FORMAT_VERSION, alignment, trailer: None }
    }
}

/// The value an optional field is stored as.
pub open spec fn opt_word(v: Option<u64>) -> u64 {
    match v {
        Some(x) => x,
        None => 0,
    }
}

/// The word an optional field is read back from.
pub open spec fn word_opt(x: u64) -> Option<u64> {
    if x == 0 {
        None
    } else {
        Some(x)
    }
}

/// Spec encoding of the header: always exactly [`HEADER_SIZE`] bytes.
pub open spec fn enc_header(h: BoxHeader) -> Seq<u8> {
    magic_bytes() + enc_le(h.version as int, 4) + enc_le(opt_word(h.alignment) as int, 8) + enc_le(
        opt_word(h.trailer) as int,
        8,
    )
}

pub proof fn lemma_enc_header_len(h: BoxHeader)
    ensures
        enc_header(h).len() == HEADER_SIZE,
{
    lemma_enc_le_len(h.version as int, 4);
    lemma_enc_le_len(opt_word(h.alignment) as int, 8);
    lemma_enc_le_len(opt_word(h.trailer) as int, 8);
}

/// Spec decoding of the header from the start of `s`: fails fast on a
/// short buffer or a wrong magic constant.
pub open spec fn dec_header(s: Seq<u8>) -> Result<BoxHeader, FormatError> {
    if s.len() < HEADER_SIZE {
        Err(FormatError::Truncated)
    } else if s.subrange(0, 4) != magic_bytes() {
        Err(FormatError::BadMagic)
    } else {
        Ok(
            BoxHeader {
                version: dec_le(s, 4, 4) as u32,
                alignment: word_opt(dec_le(s, 8, 8) as u64),
                trailer: word_opt(dec_le(s, 16, 8) as u64),
            },
        )
    }
}

/// A header decodes back to the value it was encoded from.
pub proof fn lemma_header_round_trip(h: BoxHeader, post: Seq<u8>)
    requires
        h.wf(),
    ensures
        dec_header(enc_header(h) + post) == Ok::<BoxHeader, FormatError>(h),
{
    let s = enc_header(h) + post;
    lemma_enc_header_len(h);
    lemma_enc_le_len(h.version as int, 4);
    lemma_enc_le_len(opt_word(h.alignment) as int, 8);
    lemma_enc_le_len(opt_word(h.trailer) as int, 8);
    assert(s.subrange(0, 4) =~= magic_bytes());
    assert(pow256(4) == 0x1_0000_0000 && pow256(8) == 0x1_0000_0000_0000_0000) by {
        lemma_pow256_8();
    }
    assert(dec_le(s, 4, 4) == h.version) by {
        let pre = magic_bytes();
        let after = enc_le(opt_word(h.alignment) as int, 8) + enc_le(opt_word(h.trailer) as int, 8)
            + post;
        assert(pre + enc_le(h.version as int, 4) + after =~= s);
        lemma_le_round_trip(pre, h.version as int, 4, after);
    }
    assert(dec_le(s, 8, 8) == opt_word(h.alignment)) by {
        let pre = magic_bytes() + enc_le(h.version as int, 4);
        let after = enc_le(opt_word(h.trailer) as int, 8) + post;
        assert(pre + enc_le(opt_word(h.alignment) as int, 8) + after =~= s);
        lemma_le_round_trip(pre, opt_word(h.alignment) as int, 8, after);
    }
    assert(dec_le(s, 16, 8) == opt_word(h.trailer)) by {
        let pre = magic_bytes() + enc_le(h.version as int, 4) + enc_le(
            opt_word(h.alignment) as int,
            8,
        );
        assert(pre + enc_le(opt_word(h.trailer) as int, 8) + post =~= s);
        lemma_le_round_trip(pre, opt_word(h.trailer) as int, 8, post);
    }
}

/// Writes the header bytes onto the end of `out`, exactly as
/// [`enc_header`] describes.
pub fn write_header(out: &mut Vec<u8>, h: &BoxHeader)
    ensures
        final(out)@ == old(out)@ + enc_header(*h),
{
    out.push(MAGIC_0);
    out.push(MAGIC_1);
    out.push(MAGIC_2);
    out.push(MAGIC_3);
    proof {
        assert(out@ =~= old(out)@ + magic_bytes());
        lemma_pow256_8();
        lemma_pow256_monotone(4, 8);
        assert(pow256(4) == 0x1_0000_0000);
    }
    write_le(out, h.version as u64, 4);
    let a = match h.alignment {
        Some(x) => x,
        None => 0,
    };
    write_le(out, a, 8);
    let t = match h.trailer {
        Some(x) => x,
        None => 0,
    };
    write_le(out, t, 8);
    proof {
        assert(final(out)@ =~= old(out)@ + enc_header(*h));
    }
}

/// Reads the header from the start of `s`, exactly as [`dec_header`]
/// describes.
pub fn read_header(s: &[u8]) -> (r: Result<BoxHeader, FormatError>)
    ensures
        r == dec_header(s@),
{
    if s.len() < 24 {
        return Err(FormatError::Truncated);
    }
    if !(s[0] == MAGIC_0 && s[1] == MAGIC_1 && s[2] == MAGIC_2 && s[3] == MAGIC_3) {
        proof {
            assert(s@.subrange(0, 4) != magic_bytes()) by {
                if s@.subrange(0, 4) == magic_bytes() {
                    assert(s@.subrange(0, 4)[0] == s@[0]);
                    assert(s@.subrange(0, 4)[1] == s@[1]);
                    assert(s@.subrange(0, 4)[2] == s@[2]);
                    assert(s@.subrange(0, 4)[3] == s@[3]);
                }
            }
        }
        return Err(FormatError::BadMagic);
    }
    proof {
        assert(s@.subrange(0, 4) =~= magic_bytes());
        lemma_pow256_8();
        lemma_dec_le_bound(s@, 4, 4);
        lemma_pow256_monotone(4, 8);
        lemma_dec_le_bound(s@, 8, 8);
        lemma_dec_le_bound(s@, 16, 8);
        assert(pow256(4) == 0x1_0000_0000);
    }
    let version = match read_le(s, 4, 4) {
        Some(p) => p.0 as u32,
        None => {
            proof {
                assert(false);
            }
            0
        },
    };
    let alignment = match read_le(s, 8, 8) {
        Some(p) => p.0,
        None => {
            proof {
                assert(false);
            }
            0
        },
    };
    let trailer = match read_le(s, 16, 8) {
        Some(p) => p.0,
        None => {
            proof {
                assert(false);
            }
            0
        },
    };
    Ok(
        BoxHeader {
            version,
            alignment: if alignment == 0 {
                None
            } else {
                Some(alignment)
            },
            trailer: if trailer == 0 {
                None
            } else {
                Some(trailer)
            },
        },
    )
}

} // verus!
