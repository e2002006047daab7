//! Primitive wire codec: variable-length integers, fixed-width
//! little-endian integers, length-prefixed byte blobs and strings.
//!
//! Every encoder is paired with a spec-level encoding function and a
//! spec-level decoder, and the decoders are proved to invert the
//! encoders exactly.
use vstd::prelude::*;
use vstd::utf8::{decode_utf8, encode_utf8, valid_utf8};

verus! {

// ---------------------------------------------------------------------------
// Variable-length integers.
//
// A value is cut into base-128 groups, least significant first. Every
// group but the last is written as a byte with the high bit clear; the
// final group has the high bit set.
// ---------------------------------------------------------------------------
/// Spec encoding of `n` as a variable-length integer.
pub open spec fn enc_varint(n: u64) -> Seq<u8>
    decreases n,
{
    if n < 128 {
        seq![(n + 128) as u8]
    } else {
        seq![(n % 128) as u8] + enc_varint(n / 128)
    }
}

/// Spec decoding of a variable-length integer starting at `pos`;
/// `None` on truncation or on a value that does not fit in `u64`.
pub open spec fn dec_varint(s: Seq<u8>, pos: int) -> Option<(u64, int)>
    decreases s.len() - pos,
{
    if pos < 0 || pos >= s.len() {
        None
    } else {
        let b = s[pos];
        if b >= 128 {
            Some(((b - 128) as u64, pos + 1))
        } else {
            match dec_varint(s, pos + 1) {
                None => None,
                Some((hi, end)) => {
                    let v = b + 128 * hi;
                    if v <= u64::MAX {
                        Some((v as u64, end))
                    } else {
                        None
                    }
                },
            }
        }
    }
}

/// A varint decodes back to the value it was encoded from, wherever it
/// stands in a larger buffer.
pub proof fn lemma_varint_round_trip(pre: Seq<u8>, n: u64, post: Seq<u8>)
    ensures
        dec_varint(pre + enc_varint(n) + post, pre.len() as int) == Some(
            (n, pre.len() + enc_varint(n).len() as int),
        ),
    decreases n,
{
    let s = pre + enc_varint(n) + post;
    if n < 128 {
        assert(s[pre.len() as int] == (n + 128) as u8);
    } else {
        let b: u8 = (n % 128) as u8;
        let pre2 = pre + seq![b];
        assert(pre2 + enc_varint(n / 128) + post =~= s);
        lemma_varint_round_trip(pre2, n / 128, post);
        assert(s[pre.len() as int] == b);
        assert(b + 128 * (n / 128) == n);
    }
}

/// Writes `n` in variable-length form onto the end of `out`.
pub fn write_varint(out: &mut Vec<u8>, n: u64)
    ensures
        final(out)@ == old(out)@ + enc_varint(n),
{
    let mut cur: u64 = n;
    while cur >= 128
        invariant
            old(out)@ + enc_varint(n) == out@ + enc_varint(cur),
        decreases cur,
    {
        let ghost prev = cur;
        let ghost out0 = out@;
        out.push((cur % 128) as u8);
        cur = cur / 128;
        proof {
            assert(enc_varint(prev) == seq![(prev % 128) as u8] + enc_varint(cur));
            assert(out0 + enc_varint(prev) =~= out@ + enc_varint(cur));
        }
    }
    let ghost out0 = out@;
    out.push((cur + 128) as u8);
    proof {
        assert(enc_varint(cur) == seq![(cur + 128) as u8]);
        assert(out0 + enc_varint(cur) =~= out@);
    }
}

/// Reads a variable-length integer from `s` at `pos`, exactly as
/// [`dec_varint`] describes.
pub fn read_varint(s: &[u8], pos: usize) -> (r: Option<(u64, usize)>)
    ensures
        match r {
            Some(p) => dec_varint(s@, pos as int) == Some((p.0, p.1 as int)) && pos < p.1 <= s@.len(),
            None => dec_varint(s@, pos as int) is None,
        },
{
    let mut acc: u64 = 0;
    // Multiplier 128^k for the group at the cursor; `None` once it no
    // longer fits in a u64 (any nonzero group then overflows the value).
    let mut mult: Option<u64> = Some(1);
    let ghost gmult: int = 1;
    let mut i: usize = pos;
    loop
        invariant
            pos <= i,
            gmult >= 1,
            match mult {
                Some(m) => gmult == m,
                None => gmult > u64::MAX,
            },
            dec_varint(s@, pos as int) == match dec_varint(s@, i as int) {
                None => None::<(u64, int)>,
                Some((hi, end)) => {
                    let v = acc + gmult * hi;
                    if v <= u64::MAX {
                        Some((v as u64, end))
                    } else {
                        None
                    }
                },
            },
        decreases s@.len() - i,
    {
        if i >= s.len() {
            return None;
        }
        let b = s[i];
        if b >= 128 {
            let g: u64 = (b - 128) as u64;
            proof {
                assert(dec_varint(s@, i as int) == Some((g, i + 1)));
            }
            if g == 0 {
                proof {
                    assert(acc + gmult * g == acc) by (nonlinear_arith)
                        requires
                            g == 0,
                    ;
                }
                return Some((acc, i + 1));
            }
            match mult {
                None => {
                    proof {
                        assert(acc + gmult * g > u64::MAX) by (nonlinear_arith)
                            requires
                                gmult > u64::MAX,
                                g >= 1,
                                acc >= 0,
                        ;
                    }
                    return None;
                },
                Some(m) => {
                    if g <= (u64::MAX - acc) / m {
                        proof {
                            assert(m * g <= u64::MAX - acc) by (nonlinear_arith)
                                requires
                                    g as int <= (u64::MAX - acc) / (m as int),
                                    m >= 1,
                                    g >= 0,
                                    acc <= u64::MAX,
                            ;
                        }
                        return Some((acc + m * g, i + 1));
                    } else {
                        proof {
                            assert(acc + m * g > u64::MAX) by (nonlinear_arith)
                                requires
                                    g as int > (u64::MAX - acc) / (m as int),
                                    m >= 1,
                                    g >= 0,
                                    acc <= u64::MAX,
                            ;
                        }
                        return None;
                    }
                },
            }
        } else {
            // Continuation group with digit b: fold it into the
            // accumulator and scale the multiplier.
            let ghost gm0 = gmult;
            let ghost acc0 = acc;
            proof {
                assert(dec_varint(s@, i as int) == match dec_varint(s@, i + 1) {
                    None => None::<(u64, int)>,
                    Some((hi, end)) => {
                        let v = b + 128 * hi;
                        if v <= u64::MAX {
                            Some((v as u64, end))
                        } else {
                            None
                        }
                    },
                });
            }
            if b > 0 {
                match mult {
                    None => {
                        proof {
                            assert(acc + gmult * b > u64::MAX) by (nonlinear_arith)
                                requires
                                    gmult > u64::MAX,
                                    b >= 1,
                                    acc >= 0,
                            ;
                            lemma_read_varint_dead(s@, pos as int, i as int, acc as int, gmult, b);
                        }
                        return None;
                    },
                    Some(m) => {
                        if b as u64 <= (u64::MAX - acc) / m {
                            proof {
                                assert(m * b <= u64::MAX - acc) by (nonlinear_arith)
                                    requires
                                        b as int <= (u64::MAX - acc) / (m as int),
                                        m >= 1,
                                        b >= 0,
                                        acc <= u64::MAX,
                                ;
                            }
                            acc = acc + m * (b as u64);
                        } else {
                            proof {
                                assert(acc + m * b > u64::MAX) by (nonlinear_arith)
                                    requires
                                        b as int > (u64::MAX - acc) / (m as int),
                                        m >= 1,
                                        b >= 0,
                                        acc <= u64::MAX,
                                ;
                                lemma_read_varint_dead(s@, pos as int, i as int, acc as int, gmult, b);
                            }
                            return None;
                        }
                    },
                }
            }
            proof {
                if b == 0 {
                    assert(gm0 * b == 0) by (nonlinear_arith)
                        requires
                            b == 0,
                    ;
                }
                gmult = 128 * gm0;
                lemma_read_varint_shift(s@, pos as int, i as int, acc0 as int, gm0, b);
                assert(acc == acc0 + gm0 * b);
            }
            mult = match mult {
                Some(m) => {
                    if m <= u64::MAX / 128 {
                        proof {
                            assert(128 * m <= u64::MAX);
                        }
                        Some(m * 128)
                    } else {
                        proof {
                            assert(128 * m > u64::MAX);
                        }
                        None
                    }
                },
                None => None,
            };
            i = i + 1;
        }
    }
}

/// When the pending digit already pushes the value past `u64::MAX`,
/// the whole decode is `None`.
proof fn lemma_read_varint_dead(s: Seq<u8>, pos: int, i: int, acc: int, gmult: int, b: u8)
    requires
        0 <= i < s.len(),
        s[i] == b,
        b < 128,
        b >= 1,
        gmult >= 1,
        0 <= acc <= u64::MAX,
        acc + gmult * b > u64::MAX,
        dec_varint(s, pos) == match dec_varint(s, i) {
            None => None::<(u64, int)>,
            Some((hi, end)) => {
                let v = acc + gmult * hi;
                if v <= u64::MAX {
                    Some((v as u64, end))
                } else {
                    None
                }
            },
        },
    ensures
        dec_varint(s, pos) is None,
{
    match dec_varint(s, i) {
        None => {},
        Some((hi, end)) => {
            assert(hi >= b) by {
                match dec_varint(s, i + 1) {
                    None => {},
                    Some((hi2, _)) => {
                        assert(hi == b + 128 * hi2 || dec_varint(s, i) is None);
                        assert(128 * hi2 >= 0) by (nonlinear_arith)
                            requires
                                hi2 >= 0,
                        ;
                    },
                }
            }
            assert(acc + gmult * hi > u64::MAX) by (nonlinear_arith)
                requires
                    hi >= b,
                    gmult >= 1,
                    acc + gmult * b > u64::MAX,
            ;
        },
    }
}

/// Folding one continuation digit into the accumulator preserves the
/// relation between the partial state and the full decode.
proof fn lemma_read_varint_shift(s: Seq<u8>, pos: int, i: int, acc: int, gmult: int, b: u8)
    requires
        0 <= i < s.len(),
        s[i] == b,
        b < 128,
        gmult >= 1,
        0 <= acc,
        acc + gmult * b <= u64::MAX,
        dec_varint(s, pos) == match dec_varint(s, i) {
            None => None::<(u64, int)>,
            Some((hi, end)) => {
                let v = acc + gmult * hi;
                if v <= u64::MAX {
                    Some((v as u64, end))
                } else {
                    None
                }
            },
        },
    ensures
        dec_varint(s, pos) == match dec_varint(s, i + 1) {
            None => None::<(u64, int)>,
            Some((hi, end)) => {
                let v = (acc + gmult * b) + (128 * gmult) * hi;
                if v <= u64::MAX {
                    Some((v as u64, end))
                } else {
                    None
                }
            },
        },
{
    match dec_varint(s, i + 1) {
        None => {},
        Some((hi, end)) => {
            let inner = b + 128 * hi;
            assert((acc + gmult * b) + (128 * gmult) * hi == acc + gmult * inner) by (nonlinear_arith)
                requires
                    inner == b + 128 * hi,
            ;
            assert(hi >= 0 && 128 * hi >= 0) by (nonlinear_arith)
                requires
                    hi >= 0,
            ;
            if inner <= u64::MAX {
                assert(dec_varint(s, i) == Some((inner as u64, end)));
            } else {
                // The inner value overflows; so does the outer one.
                assert(acc + gmult * inner > u64::MAX) by (nonlinear_arith)
                    requires
                        inner > u64::MAX,
                        gmult >= 1,
                        acc >= 0,
                ;
                assert(dec_varint(s, i) is None);
            }
        },
    }
}

// ---------------------------------------------------------------------------
// Fixed-width little-endian integers.
// ---------------------------------------------------------------------------
/// 256^w.
pub open spec fn pow256(w: nat) -> int
    decreases w,
{
    if w == 0 {
        1
    } else {
        256 * pow256((w - 1) as nat)
    }
}

/// Spec encoding of `x` as `w` little-endian bytes.
pub open spec fn enc_le(x: int, w: nat) -> Seq<u8>
    decreases w,
{
    if w == 0 {
        Seq::empty()
    } else {
        seq![(x % 256) as u8] + enc_le(x / 256, (w - 1) as nat)
    }
}

/// Spec decoding of `w` little-endian bytes at `pos`.
pub open spec fn dec_le(s: Seq<u8>, pos: int, w: nat) -> int
    decreases w,
{
    if w == 0 {
        0
    } else if pos < 0 || pos >= s.len() {
        0
    } else {
        s[pos] + 256 * dec_le(s, pos + 1, (w - 1) as nat)
    }
}

pub proof fn lemma_enc_le_len(x: int, w: nat)
    ensures
        enc_le(x, w).len() == w,
    decreases w,
{
    if w > 0 {
        lemma_enc_le_len(x / 256, (w - 1) as nat);
    }
}

pub proof fn lemma_pow256_pos(w: nat)
    ensures
        pow256(w) >= 1,
    decreases w,
{
    if w > 0 {
        lemma_pow256_pos((w - 1) as nat);
    }
}

/// `w` little-endian bytes decode back to the value they were encoded
/// from, for any value that fits in `w` bytes.
pub proof fn lemma_le_round_trip(pre: Seq<u8>, x: int, w: nat, post: Seq<u8>)
    requires
        0 <= x < pow256(w),
    ensures
        dec_le(pre + enc_le(x, w) + post, pre.len() as int, w) == x,
    decreases w,
{
    lemma_enc_le_len(x, w);
    if w > 0 {
        let s = pre + enc_le(x, w) + post;
        let pre2 = pre + seq![(x % 256) as u8];
        assert(pre2 + enc_le(x / 256, (w - 1) as nat) + post =~= s);
        assert(x / 256 < pow256((w - 1) as nat)) by {
            lemma_pow256_pos((w - 1) as nat);
            assert(x < 256 * pow256((w - 1) as nat));
        }
        lemma_le_round_trip(pre2, x / 256, (w - 1) as nat, post);
        assert(s[pre.len() as int] == (x % 256) as u8);
    }
}

pub proof fn lemma_dec_le_bound(s: Seq<u8>, pos: int, w: nat)
    ensures
        0 <= dec_le(s, pos, w) < pow256(w),
    decreases w,
{
    if w > 0 {
        lemma_dec_le_bound(s, pos + 1, (w - 1) as nat);
        lemma_pow256_pos((w - 1) as nat);
    }
}

/// Writes `x` as `w` little-endian bytes onto the end of `out`.
pub fn write_le(out: &mut Vec<u8>, x: u64, w: usize)
    requires
        w <= 8,
        x < pow256(w as nat),
    ensures
        final(out)@ == old(out)@ + enc_le(x as int, w as nat),
{
    let mut cur: u64 = x;
    let mut left: usize = w;
    while left > 0
        invariant
            old(out)@ + enc_le(x as int, w as nat) == out@ + enc_le(cur as int, left as nat),
            cur < pow256(left as nat),
        decreases left,
    {
        let ghost prev = cur;
        let ghost left0 = left;
        let ghost out0 = out@;
        out.push((cur % 256) as u8);
        cur = cur / 256;
        left = left - 1;
        proof {
            assert(enc_le(prev as int, left0 as nat) == seq![(prev % 256) as u8] + enc_le(
                cur as int,
                left as nat,
            ));
            assert(out0 + enc_le(prev as int, left0 as nat) =~= out@ + enc_le(cur as int, left as nat));
            assert(cur < pow256(left as nat)) by {
                lemma_pow256_pos(left as nat);
                assert(prev < 256 * pow256(left as nat));
            }
        }
    }
    proof {
        assert(enc_le(cur as int, 0) =~= Seq::<u8>::empty());
        assert(out@ + Seq::<u8>::empty() =~= out@);
    }
}

/// Reads `w` little-endian bytes at `pos`; `None` when the buffer is
/// too short.
pub fn read_le(s: &[u8], pos: usize, w: usize) -> (r: Option<(u64, usize)>)
    requires
        w <= 8,
    ensures
        match r {
            Some(p) => pos + w <= s@.len() && p.0 == dec_le(s@, pos as int, w as nat) && p.1 == pos
                + w,
            None => pos + w > s@.len(),
        },
{
    if s.len() < w || pos > s.len() - w {
        return None;
    }
    let mut acc: u64 = 0;
    let mut j: usize = 0;
    while j < w
        invariant
            j <= w <= 8,
            pos + w <= s@.len(),
            s@.len() <= usize::MAX,
            acc == dec_le(s@, pos + w - j, j as nat),
            acc < pow256(j as nat),
        decreases w - j,
    {
        let ghost acc0 = acc;
        proof {
            lemma_pow256_8();
            lemma_dec_le_bound(s@, pos + w - j - 1, (j + 1) as nat);
            assert(pow256((j + 1) as nat) <= pow256(8)) by {
                lemma_pow256_monotone((j + 1) as nat, 8);
            }
            assert(pow256((j + 1) as nat) == 256 * pow256(j as nat));
            assert(dec_le(s@, pos + w - j - 1, (j + 1) as nat) == s@[pos + w - j - 1] + 256 * acc0);
        }
        acc = acc * 256 + (s[pos + w - j - 1] as u64);
        j = j + 1;
        proof {
            assert(acc < pow256(j as nat)) by {
                lemma_dec_le_bound(s@, pos + w - j, j as nat);
            }
        }
    }
    Some((acc, pos + w))
}

pub proof fn lemma_pow256_8()
    ensures
        pow256(4) == 0x1_0000_0000,
        pow256(8) == 0x1_0000_0000_0000_0000,
{
    assert(pow256(0) == 1);
    assert(pow256(1) == 256);
    assert(pow256(2) == 0x1_0000);
    assert(pow256(3) == 0x100_0000);
    assert(pow256(4) == 0x1_0000_0000);
    assert(pow256(5) == 0x100_0000_0000);
    assert(pow256(6) == 0x1_0000_0000_0000);
    assert(pow256(7) == 0x100_0000_0000_0000);
    assert(pow256(8) == 0x1_0000_0000_0000_0000);
}

pub proof fn lemma_pow256_monotone(a: nat, b: nat)
    requires
        a <= b,
    ensures
        pow256(a) <= pow256(b),
    decreases b,
{
    if a < b && b > 0 {
        lemma_pow256_monotone(a, (b - 1) as nat);
        lemma_pow256_pos((b - 1) as nat);
    }
}

// ---------------------------------------------------------------------------
// Length-prefixed byte blobs and strings.
// ---------------------------------------------------------------------------
/// Spec encoding of a byte blob: varint byte count, then the bytes.
pub open spec fn enc_bytes(b: Seq<u8>) -> Seq<u8> {
    enc_varint(b.len() as u64) + b
}

/// Spec decoding of a byte blob at `pos`.
pub open spec fn dec_bytes(s: Seq<u8>, pos: int) -> Option<(Seq<u8>, int)> {
    match dec_varint(s, pos) {
        None => None,
        Some((len, p)) => {
            if p + len <= s.len() {
                Some((s.subrange(p, p + len), p + len))
            } else {
                None
            }
        },
    }
}

pub proof fn lemma_bytes_round_trip(pre: Seq<u8>, b: Seq<u8>, post: Seq<u8>)
    requires
        b.len() <= u64::MAX,
    ensures
        dec_bytes(pre + enc_bytes(b) + post, pre.len() as int) == Some(
            (b, pre.len() + enc_bytes(b).len() as int),
        ),
{
    let s = pre + enc_bytes(b) + post;
    let n = b.len() as u64;
    assert(pre + enc_varint(n) + (b + post) =~= s);
    lemma_varint_round_trip(pre, n, b + post);
    let p = pre.len() + enc_varint(n).len();
    assert(s.subrange(p as int, p + n) =~= b);
}

/// Spec encoding of a string: its UTF-8 bytes as a blob.
pub open spec fn enc_str(cs: Seq<char>) -> Seq<u8> {
    enc_bytes(encode_utf8(cs))
}

/// Spec decoding of a string at `pos`; `None` when the blob is not
/// valid UTF-8.
pub open spec fn dec_str(s: Seq<u8>, pos: int) -> Option<(Seq<char>, int)> {
    match dec_bytes(s, pos) {
        None => None,
        Some((b, p)) => {
            if valid_utf8(b) {
                Some((decode_utf8(b), p))
            } else {
                None
            }
        },
    }
}

pub proof fn lemma_str_round_trip(pre: Seq<u8>, cs: Seq<char>, post: Seq<u8>)
    requires
        encode_utf8(cs).len() <= u64::MAX,
    ensures
        dec_str(pre + enc_str(cs) + post, pre.len() as int) == Some(
            (cs, pre.len() + enc_str(cs).len() as int),
        ),
{
    lemma_bytes_round_trip(pre, encode_utf8(cs), post);
    vstd::utf8::encode_utf8_valid_utf8(cs);
    vstd::utf8::encode_utf8_decode_utf8(cs);
}

/// Writes the bytes of `b` after a varint byte count.
pub fn write_bytes(out: &mut Vec<u8>, b: &[u8])
    ensures
        final(out)@ == old(out)@ + enc_bytes(b@),
{
    write_varint(out, b.len() as u64);
    out.extend_from_slice(b);
    proof {
        assert(out@ =~= old(out)@ + enc_bytes(b@));
    }
}

/// Reads a byte blob at `pos`, exactly as [`dec_bytes`] describes.
pub fn read_bytes(s: &[u8], pos: usize) -> (r: Option<(Vec<u8>, usize)>)
    ensures
        match r {
            Some(p) => dec_bytes(s@, pos as int) == Some((p.0@, p.1 as int)) && pos < p.1
                <= s@.len(),
            None => dec_bytes(s@, pos as int) is None,
        },
{
    match read_varint(s, pos) {
        None => None,
        Some((len, p)) => {
            if len <= (s.len() - p) as u64 {
                let end: usize = p + (len as usize);
                let part = vstd::slice::slice_subrange(s, p, end);
                Some((vstd::slice::slice_to_vec(part), end))
            } else {
                None
            }
        },
    }
}

/// Writes the UTF-8 bytes of `t` after a varint byte count.
pub fn write_str(out: &mut Vec<u8>, t: &str)
    ensures
        final(out)@ == old(out)@ + enc_str(t@),
{
    write_bytes(out, t.as_bytes());
}

/// Relies on `String::from_utf8`: it succeeds exactly on valid UTF-8
/// input and returns the string whose bytes are that input.
#[verifier::external_body]
fn string_from_utf8(v: Vec<u8>) -> (r: Option<String>)
    ensures
        r is Some <==> valid_utf8(v@),
        r is Some ==> encode_utf8(r->0@) == v@,
{
    String::from_utf8(v).ok()
}

/// Reads a string at `pos`, exactly as [`dec_str`] describes.
pub fn read_str(s: &[u8], pos: usize) -> (r: Option<(String, usize)>)
    ensures
        match r {
            Some(p) => dec_str(s@, pos as int) == Some((p.0@, p.1 as int)) && pos < p.1 <= s@.len(),
            None => dec_str(s@, pos as int) is None,
        },
{
    match read_bytes(s, pos) {
        None => None,
        Some((b, p)) => {
            let ghost bs = b@;
            match string_from_utf8(b) {
                None => None,
                Some(t) => {
                    proof {
                        vstd::utf8::encode_utf8_decode_utf8(t@);
                    }
                    Some((t, p))
                },
            }
        },
    }
}

} // verus!
