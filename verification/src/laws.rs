//! The laws of the codec, proved once and for all: equality is reflexive,
//! the encoder always picks the narrowest tag family, the length tiers
//! switch exactly at their boundaries, a lone multi-byte tag is truncated,
//! reserved tags are rejected, unsigned 64-bit payloads widen without loss,
//! a duplicate map key keeps the later value, and a decode of an encode
//! gives the value back exactly.

use vstd::prelude::*;
use crate::value::ValueView;
use crate::value::Error;
use crate::value::eqv;
use crate::value::wf;
use crate::value::assoc_from;
use crate::value::assoc_set;
use crate::value::lemma_assoc_from_unique;
use crate::codec::enc;
use crate::codec::enc_int;
use crate::codec::enc_seq;
use crate::codec::enc_pairs;
use crate::codec::enc_str_head;
use crate::codec::enc_bin_head;
use crate::codec::enc_arr_head;
use crate::codec::enc_map_head;
use crate::codec::encodable;
use crate::codec::dec;
use crate::codec::dec_list;
use crate::codec::dec_pairs;
use crate::codec::step_of;
use crate::wire::rd64;
use crate::wire::lemma_rd16_be16;
use crate::wire::lemma_rd32_be32;
use crate::wire::lemma_rd64_be64;

verus! {

broadcast use vstd::seq::axiom_seq_index_decreases;

/// Every value equals itself under the model's equality, maps included.
#[verifier::rlimit(100)]
pub proof fn lemma_eqv_reflexive(g: ValueView)
    ensures
        eqv(g, g),
    decreases g,
{
    match g {
        ValueView::Array(x) => {
            assert forall|i: int| 0 <= i < x.len() implies eqv(#[trigger] x[i], x[i]) by {
                lemma_eqv_reflexive(x[i]);
            }
            assert(eqv(g, g));
        },
        ValueView::Mapping(x) => {
            assert forall|i: int|
                #![trigger x[i]]
                0 <= i < x.len() implies crate::value::map_entry_in(x[i], x) by {
                lemma_eqv_reflexive(x[i].0);
                lemma_eqv_reflexive(x[i].1);
                assert(0 <= i < x.len() && eqv(x[i].0, x[i].0) && eqv(x[i].1, x[i].1));
            }
            assert(eqv(g, g));
        },
        _ => {
            assert(eqv(g, g));
        },
    }
}

/// Canonical minimality for integers: the encoder emits the narrowest tag
/// family that exactly represents `i` — one positive fixed byte up to 127,
/// one negative fixed byte down to -32, then the 8-, 16-, 32- and 64-bit
/// signed families at exactly their ranges.
pub proof fn lemma_integer_minimality(i: int)
    requires
        -0x8000000000000000 <= i <= 0x7FFFFFFFFFFFFFFF,
    ensures
        0 <= i <= 0x7F ==> enc(ValueView::Integer(i)) =~= seq![i as u8],
        -32 <= i <= -1 ==> enc(ValueView::Integer(i)) =~= seq![(i + 0x100) as u8],
        -0x80 <= i < -32 ==> enc(ValueView::Integer(i)).len() == 2 && enc(
            ValueView::Integer(i),
        )[0] == 0xD0,
        (-0x8000 <= i < -0x80 || 0x7F < i <= 0x7FFF) ==> enc(ValueView::Integer(i)).len() == 3
            && enc(ValueView::Integer(i))[0] == 0xD1,
        (-0x80000000 <= i < -0x8000 || 0x7FFF < i <= 0x7FFFFFFF) ==> enc(
            ValueView::Integer(i),
        ).len() == 5 && enc(ValueView::Integer(i))[0] == 0xD2,
        (i < -0x80000000 || 0x7FFFFFFF < i) ==> enc(ValueView::Integer(i)).len() == 9 && enc(
            ValueView::Integer(i),
        )[0] == 0xD3,
{
}

/// The string length tiers switch exactly at 31/32, 255/256 and
/// 65535/65536 payload bytes.
pub proof fn lemma_string_tiers(s: Seq<u8>)
    requires
        s.len() <= 0xFFFFFFFF,
    ensures
        enc(ValueView::String(s)) == enc_str_head(s.len() as int) + s,
        s.len() <= 31 ==> enc_str_head(s.len() as int) =~= seq![(0xA0 + s.len()) as u8],
        32 <= s.len() <= 0xFF ==> enc_str_head(s.len() as int).len() == 2 && enc_str_head(
            s.len() as int,
        )[0] == 0xD9,
        0x100 <= s.len() <= 0xFFFF ==> enc_str_head(s.len() as int).len() == 3 && enc_str_head(
            s.len() as int,
        )[0] == 0xDA,
        0x10000 <= s.len() ==> enc_str_head(s.len() as int).len() == 5 && enc_str_head(
            s.len() as int,
        )[0] == 0xDB,
{
}

/// The byte-string length tiers switch exactly at 255/256 and 65535/65536
/// payload bytes.
pub proof fn lemma_bytes_tiers(b: Seq<u8>)
    requires
        b.len() <= 0xFFFFFFFF,
    ensures
        enc(ValueView::Bytes(b)) == enc_bin_head(b.len() as int) + b,
        b.len() <= 0xFF ==> enc_bin_head(b.len() as int).len() == 2 && enc_bin_head(
            b.len() as int,
        )[0] == 0xC4,
        0x100 <= b.len() <= 0xFFFF ==> enc_bin_head(b.len() as int).len() == 3 && enc_bin_head(
            b.len() as int,
        )[0] == 0xC5,
        0x10000 <= b.len() ==> enc_bin_head(b.len() as int).len() == 5 && enc_bin_head(
            b.len() as int,
        )[0] == 0xC6,
{
}

/// The array count tiers switch exactly at 15/16 and 65535/65536 elements,
/// and the map count tiers at the same boundaries.
pub proof fn lemma_count_tiers(n: int)
    requires
        0 <= n <= 0xFFFFFFFF,
    ensures
        n <= 15 ==> enc_arr_head(n) =~= seq![(0x90 + n) as u8] && enc_map_head(n) =~= seq![
            (0x80 + n) as u8,
        ],
        16 <= n <= 0xFFFF ==> enc_arr_head(n).len() == 3 && enc_arr_head(n)[0] == 0xDC
            && enc_map_head(n).len() == 3 && enc_map_head(n)[0] == 0xDE,
        0x10000 <= n ==> enc_arr_head(n).len() == 5 && enc_arr_head(n)[0] == 0xDD && enc_map_head(
            n,
        ).len() == 5 && enc_map_head(n)[0] == 0xDF,
{
}

/// A buffer holding only a tag byte that declares any further payload
/// fails with `Truncated`: every length-prefixed family, every fixed-width
/// numeric family, and every inline-counted composite with a nonzero
/// count or length.
pub proof fn lemma_lone_tag_truncated(t: u8)
    requires
        (0x81 <= t <= 0x8F) || (0x91 <= t <= 0x9F) || (0xA1 <= t <= 0xBF) || (0xC4 <= t <= 0xC6)
            || (0xCA <= t <= 0xCF) || (0xD0 <= t <= 0xD3) || (0xD9 <= t <= 0xDF),
    ensures
        dec(seq![t]) == Err::<(ValueView, int), Error>(Error::Truncated),
{
    let s = seq![t];
    assert(s.len() == 1 && s[0] == t);
    if 0x81 <= t <= 0x8F {
        assert(s.skip(1) =~= Seq::<u8>::empty());
        assert(dec_pairs(s.skip(1), (t - 0x80) as nat) == Err::<
            (Seq<(ValueView, ValueView)>, int),
            Error,
        >(Error::Truncated));
    } else if 0x91 <= t <= 0x9F {
        assert(s.skip(1) =~= Seq::<u8>::empty());
        assert(dec_list(s.skip(1), (t - 0x90) as nat) == Err::<(Seq<ValueView>, int), Error>(
            Error::Truncated,
        ));
    }
}

/// A reserved or extension tag byte — 0xC1, 0xC7 through 0xC9, 0xD4
/// through 0xD8 — is rejected with `UnsupportedTag`, whatever follows it.
pub proof fn lemma_reserved_tag(s: Seq<u8>)
    requires
        s.len() >= 1,
        s[0] == 0xC1 || 0xC7 <= s[0] <= 0xC9 || 0xD4 <= s[0] <= 0xD8,
    ensures
        dec(s) == Err::<(ValueView, int), Error>(Error::UnsupportedTag),
{
}

/// Unsigned 64-bit widening: tag 0xCF followed by eight payload bytes
/// yields exactly the unsigned big-endian value of those bytes, up to and
/// including the largest 64-bit unsigned value, with no truncation and no
/// sign flip.
pub proof fn lemma_unsigned_widening(s: Seq<u8>)
    requires
        s.len() >= 9,
        s[0] == 0xCF,
    ensures
        dec(s) == Ok::<(ValueView, int), Error>(
            (ValueView::Integer(rd64(s[1], s[2], s[3], s[4], s[5], s[6], s[7], s[8])), 9),
        ),
        0 <= rd64(s[1], s[2], s[3], s[4], s[5], s[6], s[7], s[8]) <= 0xFFFFFFFFFFFFFFFF,
{
}

/// Every encoding starts with its tag byte: it is never empty.
pub proof fn lemma_enc_min_len(g: ValueView)
    ensures
        enc(g).len() >= 1,
{
    match g {
        ValueView::Integer(i) => {
            assert(enc_int(i).len() >= 1);
        },
        _ => {},
    }
}

/// Decoding an encoding gives the value back: one complete leading
/// encoding of `enc(g) + rest` carries exactly `g` and occupies exactly
/// `enc(g).len()` bytes, whatever follows it.
#[verifier::rlimit(100)]
pub proof fn lemma_dec_enc(g: ValueView, rest: Seq<u8>)
    requires
        wf(g),
        encodable(g),
    ensures
        dec(enc(g) + rest) == Ok::<(ValueView, int), Error>((g, enc(g).len() as int)),
    decreases g,
{
    let s = enc(g) + rest;
    match g {
        ValueView::Null => {
            assert(s[0] == 0xC0);
        },
        ValueView::Boolean(b) => {
            assert(s[0] == (if b { 0xC3u8 } else { 0xC2u8 }));
        },
        ValueView::Integer(i) => {
            if 0 <= i <= 0x7F {
                assert(s[0] == i as u8);
            } else if -32 <= i <= -1 {
                assert(s[0] == (i + 0x100) as u8);
                assert(s[0] as int - 0x100 == i);
            } else if -0x80 <= i <= 0x7F {
                assert(s[0] == 0xD0 && s[1] == crate::wire::unsigned_of(i, 0x80) as u8);
            } else if -0x8000 <= i <= 0x7FFF {
                let u = crate::wire::unsigned_of(i, 0x8000);
                assert(s[0] == 0xD1 && s[1] == crate::wire::be16(u)[0] && s[2]
                    == crate::wire::be16(u)[1]);
                lemma_rd16_be16(u);
            } else if -0x80000000 <= i <= 0x7FFFFFFF {
                let u = crate::wire::unsigned_of(i, 0x80000000);
                assert(s[0] == 0xD2 && s[1] == crate::wire::be32(u)[0] && s[2]
                    == crate::wire::be32(u)[1] && s[3] == crate::wire::be32(u)[2] && s[4]
                    == crate::wire::be32(u)[3]);
                lemma_rd32_be32(u);
            } else {
                let u = crate::wire::unsigned_of(i, 0x8000000000000000);
                assert(s[0] == 0xD3 && s[1] == crate::wire::be64(u)[0] && s[2]
                    == crate::wire::be64(u)[1] && s[3] == crate::wire::be64(u)[2] && s[4]
                    == crate::wire::be64(u)[3] && s[5] == crate::wire::be64(u)[4] && s[6]
                    == crate::wire::be64(u)[5] && s[7] == crate::wire::be64(u)[6] && s[8]
                    == crate::wire::be64(u)[7]);
                lemma_rd64_be64(u);
            }
        },
        ValueView::Float(bits) => {
            assert(s[0] == 0xCB && s[1] == crate::wire::be64(bits as int)[0] && s[2]
                == crate::wire::be64(bits as int)[1] && s[3] == crate::wire::be64(bits as int)[2]
                && s[4] == crate::wire::be64(bits as int)[3] && s[5] == crate::wire::be64(
                bits as int,
            )[4] && s[6] == crate::wire::be64(bits as int)[5] && s[7] == crate::wire::be64(
                bits as int,
            )[6] && s[8] == crate::wire::be64(bits as int)[7]);
            lemma_rd64_be64(bits as int);
        },
        ValueView::String(b) => {
            let len = b.len() as int;
            let head = enc_str_head(len);
            let h = head.len();
            assert(s.subrange(h as int, h + len) =~= b);
            if len <= 31 {
                assert(s[0] == (0xA0 + len) as u8);
                assert(0xA0 <= s[0] <= 0xBF && s[0] - 0xA0 == len);
            } else if len <= 0xFF {
                assert(s[0] == 0xD9 && s[1] == len as u8);
            } else if len <= 0xFFFF {
                assert(s[0] == 0xDA && s[1] == crate::wire::be16(len)[0] && s[2]
                    == crate::wire::be16(len)[1]);
                lemma_rd16_be16(len);
            } else {
                assert(s[0] == 0xDB && s[1] == crate::wire::be32(len)[0] && s[2]
                    == crate::wire::be32(len)[1] && s[3] == crate::wire::be32(len)[2] && s[4]
                    == crate::wire::be32(len)[3]);
                lemma_rd32_be32(len);
            }
        },
        ValueView::Bytes(b) => {
            let len = b.len() as int;
            let head = enc_bin_head(len);
            let h = head.len();
            assert(s.subrange(h as int, h + len) =~= b);
            if len <= 0xFF {
                assert(s[0] == 0xC4 && s[1] == len as u8);
            } else if len <= 0xFFFF {
                assert(s[0] == 0xC5 && s[1] == crate::wire::be16(len)[0] && s[2]
                    == crate::wire::be16(len)[1]);
                lemma_rd16_be16(len);
            } else {
                assert(s[0] == 0xC6 && s[1] == crate::wire::be32(len)[0] && s[2]
                    == crate::wire::be32(len)[1] && s[3] == crate::wire::be32(len)[2] && s[4]
                    == crate::wire::be32(len)[3]);
                lemma_rd32_be32(len);
            }
        },
        ValueView::Array(x) => {
            let n = x.len() as int;
            let head = enc_arr_head(n);
            let h = head.len() as int;
            assert forall|i: int| 0 <= i < x.len() implies wf(#[trigger] x[i]) && encodable(
                x[i],
            ) by {}
            assert(s.skip(h) =~= enc_seq(x) + rest);
            lemma_dec_enc_list(x, rest);
            if n <= 15 {
                assert(s[0] == (0x90 + n) as u8);
                assert(0x90 <= s[0] <= 0x9F && s[0] - 0x90 == n);
            } else if n <= 0xFFFF {
                assert(s[0] == 0xDC && s[1] == crate::wire::be16(n)[0] && s[2]
                    == crate::wire::be16(n)[1]);
                lemma_rd16_be16(n);
            } else {
                assert(s[0] == 0xDD && s[1] == crate::wire::be32(n)[0] && s[2]
                    == crate::wire::be32(n)[1] && s[3] == crate::wire::be32(n)[2] && s[4]
                    == crate::wire::be32(n)[3]);
                lemma_rd32_be32(n);
            }
        },
        ValueView::Mapping(es) => {
            let n = es.len() as int;
            let head = enc_map_head(n);
            let h = head.len() as int;
            assert forall|i: int|
                0 <= i < es.len() implies wf((#[trigger] es[i]).0) && wf(es[i].1) && encodable(
                es[i].0,
            ) && encodable(es[i].1) by {}
            assert(s.skip(h) =~= enc_pairs(es) + rest);
            lemma_dec_enc_pairs(es, rest);
            lemma_assoc_from_unique(es);
            if n <= 15 {
                assert(s[0] == (0x80 + n) as u8);
                assert(0x80 <= s[0] <= 0x8F && s[0] - 0x80 == n);
            } else if n <= 0xFFFF {
                assert(s[0] == 0xDE && s[1] == crate::wire::be16(n)[0] && s[2]
                    == crate::wire::be16(n)[1]);
                lemma_rd16_be16(n);
            } else {
                assert(s[0] == 0xDF && s[1] == crate::wire::be32(n)[0] && s[2]
                    == crate::wire::be32(n)[1] && s[3] == crate::wire::be32(n)[2] && s[4]
                    == crate::wire::be32(n)[3]);
                lemma_rd32_be32(n);
            }
        },
    }
}

/// Decoding the concatenated encodings of a run of values gives the run
/// back, whatever follows it.
pub proof fn lemma_dec_enc_list(vs: Seq<ValueView>, rest: Seq<u8>)
    requires
        forall|i: int| #![trigger vs[i]] 0 <= i < vs.len() ==> wf(vs[i]) && encodable(vs[i]),
    ensures
        dec_list(enc_seq(vs) + rest, vs.len()) == Ok::<(Seq<ValueView>, int), Error>(
            (vs, enc_seq(vs).len() as int),
        ),
    decreases vs,
{
    let s = enc_seq(vs) + rest;
    if vs.len() == 0 {
        assert(vs =~= Seq::<ValueView>::empty());
        assert(dec_list(s, 0nat) == Ok::<(Seq<ValueView>, int), Error>((Seq::empty(), 0int)));
    } else {
        let tail = vs.drop_first();
        let rest2 = enc_seq(tail) + rest;
        assert(s =~= enc(vs[0]) + rest2);
        lemma_dec_enc(vs[0], rest2);
        lemma_enc_min_len(vs[0]);
        let c1 = enc(vs[0]).len() as int;
        assert(step_of(c1, s.len() as int) == c1);
        assert(s.skip(c1) =~= rest2);
        lemma_dec_enc_list(tail, rest);
        assert(seq![vs[0]] + tail =~= vs);
    }
}

/// Decoding the concatenated encodings of a run of entries gives the run
/// back, whatever follows it.
pub proof fn lemma_dec_enc_pairs(es: Seq<(ValueView, ValueView)>, rest: Seq<u8>)
    requires
        forall|i: int|
            #![trigger es[i]]
            0 <= i < es.len() ==> wf(es[i].0) && wf(es[i].1) && encodable(es[i].0) && encodable(
                es[i].1,
            ),
    ensures
        dec_pairs(enc_pairs(es) + rest, es.len()) == Ok::<(Seq<(ValueView, ValueView)>, int), Error>(
            (es, enc_pairs(es).len() as int),
        ),
    decreases es,
{
    let s = enc_pairs(es) + rest;
    if es.len() == 0 {
        assert(es =~= Seq::<(ValueView, ValueView)>::empty());
        assert(dec_pairs(s, 0nat) == Ok::<(Seq<(ValueView, ValueView)>, int), Error>(
            (Seq::empty(), 0int),
        ));
    } else {
        let k = es[0].0;
        let v = es[0].1;
        let tail = es.drop_first();
        let rest_v = enc(v) + (enc_pairs(tail) + rest);
        assert(s =~= enc(k) + rest_v);
        lemma_dec_enc(k, rest_v);
        lemma_enc_min_len(k);
        let c1 = enc(k).len() as int;
        assert(step_of(c1, s.len() as int) == c1);
        assert(s.skip(c1) =~= rest_v);
        let rest_t = enc_pairs(tail) + rest;
        lemma_dec_enc(v, rest_t);
        lemma_enc_min_len(v);
        let c2 = enc(v).len() as int;
        assert(step_of(c2, s.len() - c1) == c2);
        assert(step_of(c1 + c2, s.len() as int) == c1 + c2);
        assert(s.skip(c1 + c2) =~= rest_t);
        lemma_dec_enc_pairs(tail, rest);
        assert(seq![(k, v)] + tail =~= es);
    }
}

/// Round trip: decoding the canonical encoding of any well-formed,
/// representable value reconstructs that value exactly — and hence a value
/// equal to it under the model's equality, maps compared independently of
/// entry order — consuming the whole encoding.
pub proof fn lemma_round_trip(g: ValueView)
    requires
        wf(g),
        encodable(g),
    ensures
        dec(enc(g)) == Ok::<(ValueView, int), Error>((g, enc(g).len() as int)),
        eqv(g, g),
{
    lemma_dec_enc(g, Seq::empty());
    assert(enc(g) + Seq::<u8>::empty() =~= enc(g));
    lemma_eqv_reflexive(g);
}

/// Later duplicate map keys overwrite earlier ones: a two-entry stream
/// whose keys are equal builds a one-entry map holding the first key and
/// the second entry's value.
pub proof fn lemma_duplicate_key_overwrites(ps: Seq<(ValueView, ValueView)>)
    requires
        ps.len() == 2,
        eqv(ps[0].0, ps[1].0),
    ensures
        assoc_from(ps) =~= seq![(ps[0].0, ps[1].1)],
{
    reveal_with_fuel(assoc_from, 3);
    reveal_with_fuel(assoc_set, 3);
    assert(ps.drop_last().drop_last() =~= Seq::<(ValueView, ValueView)>::empty());
    assert(ps.drop_last() =~= seq![ps[0]]);
    assert(assoc_from(ps.drop_last()) =~= seq![(ps[0].0, ps[0].1)]);
    assert(assoc_set(seq![(ps[0].0, ps[0].1)], ps[1].0, ps[1].1) =~= seq![(ps[0].0, ps[1].1)]);
}

} // verus!
