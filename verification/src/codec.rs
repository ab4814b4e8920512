//! The wire format, stated mathematically: `enc` gives the canonical byte
//! representation of a value, `dec` gives the value, and the count of
//! consumed bytes, that one complete leading encoding of a byte stream
//! carries, or the error that the stream deserves.  The executable encoder
//! and decoder are verified against these two functions.

use vstd::prelude::*;
use crate::value::Error;
use crate::value::ValueView;
use crate::value::assoc_from;
use crate::wire::be16;
use crate::wire::be32;
use crate::wire::be64;
use crate::wire::rd16;
use crate::wire::rd32;
use crate::wire::rd64;
use crate::wire::signed_of;
use crate::wire::unsigned_of;
use crate::wire::widen_f32_bits;
use crate::wire::is_utf8;

verus! {

// ---------------------------------------------------------------------------
// Encoding
// ---------------------------------------------------------------------------

/// The narrowest encoding of the integer `i`: a positive fixed byte, a
/// negative fixed byte, then the 8-, 16-, 32- and 64-bit signed families,
/// the first that exactly holds `i`.
pub open spec fn enc_int(i: int) -> Seq<u8> {
    if 0 <= i <= 0x7F {
        seq![i as u8]
    } else if -32 <= i <= -1 {
        seq![(i + 0x100) as u8]
    } else if -0x80 <= i <= 0x7F {
        seq![0xD0u8, unsigned_of(i, 0x80) as u8]
    } else if -0x8000 <= i <= 0x7FFF {
        seq![0xD1u8] + be16(unsigned_of(i, 0x8000))
    } else if -0x80000000 <= i <= 0x7FFFFFFF {
        seq![0xD2u8] + be32(unsigned_of(i, 0x80000000))
    } else {
        seq![0xD3u8] + be64(unsigned_of(i, 0x8000000000000000))
    }
}

/// The string header for a payload of `len` bytes: inline 5-bit length up
/// to 31, then 8-, 16- and 32-bit length prefixes.
pub open spec fn enc_str_head(len: int) -> Seq<u8> {
    if len <= 31 {
        seq![(0xA0 + len) as u8]
    } else if len <= 0xFF {
        seq![0xD9u8, len as u8]
    } else if len <= 0xFFFF {
        seq![0xDAu8] + be16(len)
    } else {
        seq![0xDBu8] + be32(len)
    }
}

/// The byte-string header for a payload of `len` bytes: 8-, 16- and 32-bit
/// length prefixes; this family has no inline-length form.
pub open spec fn enc_bin_head(len: int) -> Seq<u8> {
    if len <= 0xFF {
        seq![0xC4u8, len as u8]
    } else if len <= 0xFFFF {
        seq![0xC5u8] + be16(len)
    } else {
        seq![0xC6u8] + be32(len)
    }
}

/// The array header for `n` elements: inline 4-bit count up to 15, then
/// 16- and 32-bit count prefixes.
pub open spec fn enc_arr_head(n: int) -> Seq<u8> {
    if n <= 15 {
        seq![(0x90 + n) as u8]
    } else if n <= 0xFFFF {
        seq![0xDCu8] + be16(n)
    } else {
        seq![0xDDu8] + be32(n)
    }
}

/// The map header for `n` entries, tiered as the array header is.
pub open spec fn enc_map_head(n: int) -> Seq<u8> {
    if n <= 15 {
        seq![(0x80 + n) as u8]
    } else if n <= 0xFFFF {
        seq![0xDEu8] + be16(n)
    } else {
        seq![0xDFu8] + be32(n)
    }
}

/// The canonical byte encoding of `g`: for every variant the most compact
/// tag family that holds the value's size, multi-byte fields in
/// most-significant-first order, children in order, and for a map each key
/// directly before its value.
pub open spec fn enc(g: ValueView) -> Seq<u8>
    decreases g,
{
    match g {
        ValueView::Null => seq![0xC0u8],
        ValueView::Boolean(b) => if b {
            seq![0xC3u8]
        } else {
            seq![0xC2u8]
        },
        ValueView::Integer(i) => enc_int(i),
        ValueView::Float(bits) => seq![0xCBu8] + be64(bits as int),
        ValueView::String(s) => enc_str_head(s.len() as int) + s,
        ValueView::Bytes(b) => enc_bin_head(b.len() as int) + b,
        ValueView::Array(x) => enc_arr_head(x.len() as int) + enc_seq(x),
        ValueView::Mapping(es) => enc_map_head(es.len() as int) + enc_pairs(es),
    }
}

/// The concatenated encodings of a run of values, in order.
pub open spec fn enc_seq(vs: Seq<ValueView>) -> Seq<u8>
    decreases vs,
{
    if vs.len() == 0 {
        Seq::empty()
    } else {
        enc(vs[0]) + enc_seq(vs.drop_first())
    }
}

/// The concatenated encodings of a run of entries, each key directly
/// before its value.
pub open spec fn enc_pairs(es: Seq<(ValueView, ValueView)>) -> Seq<u8>
    decreases es,
{
    if es.len() == 0 {
        Seq::empty()
    } else {
        enc(es[0].0) + enc(es[0].1) + enc_pairs(es.drop_first())
    }
}

/// Whether `g` has a representation in the wire format: every integer in
/// the 64-bit signed range, and every length and count within a 32-bit
/// field.
pub open spec fn encodable(g: ValueView) -> bool
    decreases g,
{
    match g {
        ValueView::Integer(i) => -0x8000000000000000 <= i <= 0x7FFFFFFFFFFFFFFF,
        ValueView::String(s) => s.len() <= 0xFFFFFFFF,
        ValueView::Bytes(b) => b.len() <= 0xFFFFFFFF,
        ValueView::Array(x) => x.len() <= 0xFFFFFFFF && (forall|i: int|
            #![trigger x[i]]
            0 <= i < x.len() ==> encodable(x[i])),
        ValueView::Mapping(es) => es.len() <= 0xFFFFFFFF && (forall|i: int|
            #![trigger es[i]]
            0 <= i < es.len() ==> encodable(es[i].0) && encodable(es[i].1)),
        _ => true,
    }
}

// ---------------------------------------------------------------------------
// Decoding
// ---------------------------------------------------------------------------

/// A consumed-byte count clamped into `[1, len]`.  `dec` never reports a
/// count outside that range, so the clamp never moves a reachable value; it
/// only keeps the recursion below well-founded.
pub open spec fn step_of(c: int, len: int) -> int {
    if 1 <= c <= len {
        c
    } else {
        1
    }
}

/// The string payload of `l` bytes that follows a header of `h` bytes, as
/// a decoded value, or the error the stream deserves.
pub open spec fn dec_str_body(s: Seq<u8>, h: int, l: int) -> Result<(ValueView, int), Error> {
    if s.len() < h + l {
        Err(Error::Truncated)
    } else {
        let b = s.subrange(h, h + l);
        if is_utf8(b) {
            Ok((ValueView::String(b), h + l))
        } else {
            Err(Error::InvalidUtf8)
        }
    }
}

/// The byte-string payload of `l` bytes that follows a header of `h`
/// bytes, as a decoded value.
pub open spec fn dec_bin_body(s: Seq<u8>, h: int, l: int) -> Result<(ValueView, int), Error> {
    if s.len() < h + l {
        Err(Error::Truncated)
    } else {
        Ok((ValueView::Bytes(s.subrange(h, h + l)), h + l))
    }
}

/// The value that one complete leading encoding of `s` carries, with the
/// count of bytes it occupies; `Truncated` when `s` ends before the
/// layout that its tag declares, `InvalidUtf8` when a string payload is
/// not UTF-8 text, and `UnsupportedTag` on a reserved tag byte.
pub open spec fn dec(s: Seq<u8>) -> Result<(ValueView, int), Error>
    decreases s.len(), 0int,
{
    if s.len() == 0 {
        Err(Error::Truncated)
    } else {
        let t = s[0];
        if t <= 0x7F {
            Ok((ValueView::Integer(t as int), 1))
        } else if t <= 0x8F {
            match dec_pairs(s.skip(1), (t - 0x80) as nat) {
                Ok((ps, c)) => Ok((ValueView::Mapping(assoc_from(ps)), 1 + c)),
                Err(e) => Err(e),
            }
        } else if t <= 0x9F {
            match dec_list(s.skip(1), (t - 0x90) as nat) {
                Ok((vs, c)) => Ok((ValueView::Array(vs), 1 + c)),
                Err(e) => Err(e),
            }
        } else if t <= 0xBF {
            dec_str_body(s, 1, (t - 0xA0) as int)
        } else if t == 0xC0 {
            Ok((ValueView::Null, 1))
        } else if t == 0xC2 {
            Ok((ValueView::Boolean(false), 1))
        } else if t == 0xC3 {
            Ok((ValueView::Boolean(true), 1))
        } else if t == 0xC4 {
            if s.len() < 2 {
                Err(Error::Truncated)
            } else {
                dec_bin_body(s, 2, s[1] as int)
            }
        } else if t == 0xC5 {
            if s.len() < 3 {
                Err(Error::Truncated)
            } else {
                dec_bin_body(s, 3, rd16(s[1], s[2]))
            }
        } else if t == 0xC6 {
            if s.len() < 5 {
                Err(Error::Truncated)
            } else {
                dec_bin_body(s, 5, rd32(s[1], s[2], s[3], s[4]))
            }
        } else if t == 0xCA {
            if s.len() < 5 {
                Err(Error::Truncated)
            } else {
                Ok((ValueView::Float(widen_f32_bits(rd32(s[1], s[2], s[3], s[4]) as u32)), 5))
            }
        } else if t == 0xCB {
            if s.len() < 9 {
                Err(Error::Truncated)
            } else {
                Ok(
                    (
                        ValueView::Float(
                            rd64(s[1], s[2], s[3], s[4], s[5], s[6], s[7], s[8]) as u64,
                        ),
                        9,
                    ),
                )
            }
        } else if t == 0xCC {
            if s.len() < 2 {
                Err(Error::Truncated)
            } else {
                Ok((ValueView::Integer(s[1] as int), 2))
            }
        } else if t == 0xCD {
            if s.len() < 3 {
                Err(Error::Truncated)
            } else {
                Ok((ValueView::Integer(rd16(s[1], s[2])), 3))
            }
        } else if t == 0xCE {
            if s.len() < 5 {
                Err(Error::Truncated)
            } else {
                Ok((ValueView::Integer(rd32(s[1], s[2], s[3], s[4])), 5))
            }
        } else if t == 0xCF {
            if s.len() < 9 {
                Err(Error::Truncated)
            } else {
                Ok((ValueView::Integer(rd64(s[1], s[2], s[3], s[4], s[5], s[6], s[7], s[8])), 9))
            }
        } else if t == 0xD0 {
            if s.len() < 2 {
                Err(Error::Truncated)
            } else {
                Ok((ValueView::Integer(signed_of(s[1] as int, 0x80)), 2))
            }
        } else if t == 0xD1 {
            if s.len() < 3 {
                Err(Error::Truncated)
            } else {
                Ok((ValueView::Integer(signed_of(rd16(s[1], s[2]), 0x8000)), 3))
            }
        } else if t == 0xD2 {
            if s.len() < 5 {
                Err(Error::Truncated)
            } else {
                Ok((ValueView::Integer(signed_of(rd32(s[1], s[2], s[3], s[4]), 0x80000000)), 5))
            }
        } else if t == 0xD3 {
            if s.len() < 9 {
                Err(Error::Truncated)
            } else {
                Ok(
                    (
                        ValueView::Integer(
                            signed_of(
                                rd64(s[1], s[2], s[3], s[4], s[5], s[6], s[7], s[8]),
                                0x8000000000000000,
                            ),
                        ),
                        9,
                    ),
                )
            }
        } else if t == 0xD9 {
            if s.len() < 2 {
                Err(Error::Truncated)
            } else {
                dec_str_body(s, 2, s[1] as int)
            }
        } else if t == 0xDA {
            if s.len() < 3 {
                Err(Error::Truncated)
            } else {
                dec_str_body(s, 3, rd16(s[1], s[2]))
            }
        } else if t == 0xDB {
            if s.len() < 5 {
                Err(Error::Truncated)
            } else {
                dec_str_body(s, 5, rd32(s[1], s[2], s[3], s[4]))
            }
        } else if t == 0xDC {
            if s.len() < 3 {
                Err(Error::Truncated)
            } else {
                match dec_list(s.skip(3), rd16(s[1], s[2]) as nat) {
                    Ok((vs, c)) => Ok((ValueView::Array(vs), 3 + c)),
                    Err(e) => Err(e),
                }
            }
        } else if t == 0xDD {
            if s.len() < 5 {
                Err(Error::Truncated)
            } else {
                match dec_list(s.skip(5), rd32(s[1], s[2], s[3], s[4]) as nat) {
                    Ok((vs, c)) => Ok((ValueView::Array(vs), 5 + c)),
                    Err(e) => Err(e),
                }
            }
        } else if t == 0xDE {
            if s.len() < 3 {
                Err(Error::Truncated)
            } else {
                match dec_pairs(s.skip(3), rd16(s[1], s[2]) as nat) {
                    Ok((ps, c)) => Ok((ValueView::Mapping(assoc_from(ps)), 3 + c)),
                    Err(e) => Err(e),
                }
            }
        } else if t == 0xDF {
            if s.len() < 5 {
                Err(Error::Truncated)
            } else {
                match dec_pairs(s.skip(5), rd32(s[1], s[2], s[3], s[4]) as nat) {
                    Ok((ps, c)) => Ok((ValueView::Mapping(assoc_from(ps)), 5 + c)),
                    Err(e) => Err(e),
                }
            }
        } else if 0xE0 <= t {
            Ok((ValueView::Integer(t - 0x100), 1))
        } else {
            // 0xC1, 0xC7 through 0xC9, and 0xD4 through 0xD8 are reserved.
            Err(Error::UnsupportedTag)
        }
    }
}

/// The values that `n` complete leading encodings of `s` carry, in order,
/// with the count of bytes they occupy together.
pub open spec fn dec_list(s: Seq<u8>, n: nat) -> Result<(Seq<ValueView>, int), Error>
    decreases s.len(), n + 1,
{
    if n == 0 {
        Ok((Seq::empty(), 0))
    } else if s.len() == 0 {
        Err(Error::Truncated)
    } else {
        match dec(s) {
            Ok((v, c)) => {
                let c1 = step_of(c, s.len() as int);
                match dec_list(s.skip(c1), (n - 1) as nat) {
                    Ok((vs, c2)) => Ok((seq![v] + vs, c1 + c2)),
                    Err(e) => Err(e),
                }
            },
            Err(e) => Err(e),
        }
    }
}

/// The `n` key-value entries that `2 * n` complete leading encodings of
/// `s` carry, keys first, with the count of bytes they occupy together.
pub open spec fn dec_pairs(s: Seq<u8>, n: nat) -> Result<(Seq<(ValueView, ValueView)>, int), Error>
    decreases s.len(), n + 1,
{
    if n == 0 {
        Ok((Seq::empty(), 0))
    } else if s.len() == 0 {
        Err(Error::Truncated)
    } else {
        match dec(s) {
            Ok((k, ck)) => {
                let c1 = step_of(ck, s.len() as int);
                match dec(s.skip(c1)) {
                    Ok((v, cv)) => {
                        let c2 = step_of(cv, s.len() - c1);
                        match dec_pairs(s.skip(step_of(c1 + c2, s.len() as int)), (n - 1) as nat) {
                            Ok((ps, c3)) => Ok((seq![(k, v)] + ps, c1 + c2 + c3)),
                            Err(e) => Err(e),
                        }
                    },
                    Err(e) => Err(e),
                }
            },
            Err(e) => Err(e),
        }
    }
}

/// What `dec` consumes is at least the tag byte and at most the stream:
/// a reported count always lies in `[1, s.len()]`, and a run of `n`
/// encodings occupies between `n` bytes and the whole stream.
pub proof fn lemma_dec_in_range(s: Seq<u8>)
    ensures
        dec(s) matches Ok((v, c)) ==> 1 <= c <= s.len(),
    decreases s.len(), 0int,
{
    if s.len() > 0 {
        let t = s[0];
        if t <= 0x7F {
        } else if t <= 0x8F {
            lemma_dec_pairs_in_range(s.skip(1), (t - 0x80) as nat);
        } else if t <= 0x9F {
            lemma_dec_list_in_range(s.skip(1), (t - 0x90) as nat);
        } else if t == 0xDC && s.len() >= 3 {
            lemma_dec_list_in_range(s.skip(3), rd16(s[1], s[2]) as nat);
        } else if t == 0xDD && s.len() >= 5 {
            lemma_dec_list_in_range(s.skip(5), rd32(s[1], s[2], s[3], s[4]) as nat);
        } else if t == 0xDE && s.len() >= 3 {
            lemma_dec_pairs_in_range(s.skip(3), rd16(s[1], s[2]) as nat);
        } else if t == 0xDF && s.len() >= 5 {
            lemma_dec_pairs_in_range(s.skip(5), rd32(s[1], s[2], s[3], s[4]) as nat);
        }
    }
}

/// See `lemma_dec_in_range`: a run of `n` encodings occupies between `n`
/// bytes and the whole stream.
pub proof fn lemma_dec_list_in_range(s: Seq<u8>, n: nat)
    ensures
        dec_list(s, n) matches Ok((vs, c)) ==> n <= c <= s.len() && vs.len() == n,
    decreases s.len(), n + 1,
{
    if n > 0 {
        lemma_dec_in_range(s);
        if let Ok((v, c)) = dec(s) {
            let c1 = step_of(c, s.len() as int);
            lemma_dec_list_in_range(s.skip(c1), (n - 1) as nat);
        }
    }
}

/// See `lemma_dec_in_range`: a run of `n` entries occupies between `2 * n`
/// bytes and the whole stream.
pub proof fn lemma_dec_pairs_in_range(s: Seq<u8>, n: nat)
    ensures
        dec_pairs(s, n) matches Ok((ps, c)) ==> 2 * n <= c <= s.len() && ps.len() == n,
    decreases s.len(), n + 1,
{
    if n > 0 {
        lemma_dec_in_range(s);
        if let Ok((k, ck)) = dec(s) {
            let c1 = step_of(ck, s.len() as int);
            lemma_dec_in_range(s.skip(c1));
            if let Ok((v, cv)) = dec(s.skip(c1)) {
                let c2 = step_of(cv, s.len() - c1);
                lemma_dec_pairs_in_range(s.skip(step_of(c1 + c2, s.len() as int)), (n - 1) as nat);
            }
        }
    }
}

} // verus!
