//! Opening an archive image: header validation, trailer resolution,
//! and metadata decoding.
use vstd::prelude::*;

use crate::de::{dec_meta, meta_err, read_meta};
use crate::error::{BoxError, FormatError};
use crate::header::{dec_header, read_header, BoxHeader};
use crate::meta::BoxMetadata;

verus! {

/// Parses an archive image: validates the header (failing fast on a
/// wrong magic constant), requires a trailer pointer (an archive
/// without one holds no valid metadata), and decodes the metadata the
/// pointer designates.
pub fn open_archive(bytes: &[u8]) -> (r: Result<(BoxHeader, BoxMetadata), BoxError>)
    ensures
        match r {
            Ok(p) => ({
                &&& dec_header(bytes@) == Ok::<BoxHeader, FormatError>(p.0)
                &&& p.0.wf()
                &&& p.0.trailer matches Some(t) && t <= bytes@.len() && (dec_meta(
                    bytes@,
                    t as int,
                ) matches Some(q) && q.0 == p.1@)
                &&& p.1.wf()
            }),
            Err(e) => ({
                ||| (dec_header(bytes@) matches Err(fe) && e == BoxError::Format(fe))
                ||| (dec_header(bytes@) matches Ok(h) && h.trailer is None && e
                    == BoxError::NoTrailer)
                ||| (dec_header(bytes@) matches Ok(h) && (h.trailer matches Some(t) && t
                    > bytes@.len()) && e == BoxError::Format(FormatError::Truncated))
                ||| (dec_header(bytes@) matches Ok(h) && (h.trailer matches Some(t) && t
                    <= bytes@.len() && dec_meta(bytes@, t as int) is None && e == BoxError::Format(
                    meta_err(bytes@, t as int),
                )))
            }),
        },
        (dec_header(bytes@) matches Ok(h) && (h.trailer matches Some(t) && t <= bytes@.len()
            && dec_meta(bytes@, t as int) is Some)) ==> r is Ok,
{
    let header = match read_header(bytes) {
        Err(fe) => {
            return Err(BoxError::Format(fe));
        },
        Ok(h) => h,
    };
    let t = match header.trailer {
        None => {
            return Err(BoxError::NoTrailer);
        },
        Some(t) => t,
    };
    if t > bytes.len() as u64 {
        return Err(BoxError::Format(FormatError::Truncated));
    }
    let meta = match read_meta(bytes, t as usize) {
        Err(fe) => {
            return Err(BoxError::Format(fe));
        },
        Ok(p) => p.0,
    };
    Ok((header, meta))
}

} // verus!
