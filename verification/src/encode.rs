//! The executable encoder, verified against the spec function
//! [`enc`](crate::codec::enc): it appends to a byte sink exactly the
//! canonical encoding of the value, or appends nothing and reports
//! `OutOfRange` for a value the wire format cannot hold.

use vstd::prelude::*;
use crate::value::Error;
use crate::value::Value;
use crate::value::ValueView;
use crate::value::views_of;
use crate::value::entry_views_of;
use crate::value::lemma_views_of;
use crate::value::lemma_entry_views_of;
use crate::codec::enc;
use crate::codec::enc_seq;
use crate::codec::enc_pairs;
use crate::codec::enc_int;
use crate::codec::enc_str_head;
use crate::codec::enc_bin_head;
use crate::codec::enc_arr_head;
use crate::codec::enc_map_head;
use crate::codec::encodable;
use crate::wire::push_be16;
use crate::wire::push_be32;
use crate::wire::push_be64;

verus! {

broadcast use vstd::seq::axiom_seq_index_decreases;

/// Appending one value to a run appends its encoding to the run's.
proof fn lemma_enc_seq_push(vs: Seq<ValueView>, v: ValueView)
    ensures
        enc_seq(vs.push(v)) == enc_seq(vs) + enc(v),
    decreases vs.len(),
{
    reveal_with_fuel(enc_seq, 3);
    if vs.len() == 0 {
        assert(vs.push(v)[0] == v);
        assert(vs.push(v).drop_first() =~= Seq::<ValueView>::empty());
        assert(enc_seq(vs.push(v)) =~= enc_seq(vs) + enc(v));
    } else {
        assert(vs.push(v)[0] == vs[0]);
        assert(vs.push(v).drop_first() =~= vs.drop_first().push(v));
        lemma_enc_seq_push(vs.drop_first(), v);
        assert(enc_seq(vs.push(v)) =~= enc_seq(vs) + enc(v));
    }
}

/// Appending one entry to a run appends its key's and value's encodings.
proof fn lemma_enc_pairs_push(es: Seq<(ValueView, ValueView)>, k: ValueView, v: ValueView)
    ensures
        enc_pairs(es.push((k, v))) == enc_pairs(es) + enc(k) + enc(v),
    decreases es.len(),
{
    reveal_with_fuel(enc_pairs, 3);
    if es.len() == 0 {
        assert(es.push((k, v))[0] == (k, v));
        assert(es.push((k, v)).drop_first() =~= Seq::<(ValueView, ValueView)>::empty());
        assert(enc_pairs(es.push((k, v))) =~= enc_pairs(es) + enc(k) + enc(v));
    } else {
        assert(es.push((k, v))[0] == es[0]);
        assert(es.push((k, v)).drop_first() =~= es.drop_first().push((k, v)));
        lemma_enc_pairs_push(es.drop_first(), k, v);
        assert(enc_pairs(es.push((k, v))) =~= enc_pairs(es) + enc(k) + enc(v));
    }
}

/// Reports whether the wire format can hold `v`: every integer within the
/// 64-bit signed range and every length and count within a 32-bit field.
#[verifier::loop_isolation(false)]
pub fn check_encodable(v: &Value) -> (r: bool)
    ensures
        r == encodable(v@),
    decreases v,
{
    match v {
        Value::Integer(i) => -0x8000000000000000i128 <= *i && *i <= 0x7FFFFFFFFFFFFFFFi128,
        Value::String(s) => s.len() <= 0xFFFFFFFF,
        Value::Bytes(b) => b.len() <= 0xFFFFFFFF,
        Value::Array(x) => {
            proof {
                lemma_views_of(x@);
            }
            if x.len() > 0xFFFFFFFF {
                return false;
            }
            let n = x.len();
            let mut i: usize = 0;
            while i < n
                invariant
                    0 <= i <= n,
                    n == x@.len(),
                    forall|k: int| 0 <= k < i ==> encodable(#[trigger] views_of(x@)[k]),
                decreases n - i,
            {
                proof {
                    lemma_views_of(x@);
                    assert(decreases_to!(v => x@[i as int]));
                }
                if !check_encodable(&x[i]) {
                    return false;
                }
                i = i + 1;
            }
            true
        },
        Value::Mapping(m) => {
            proof {
                lemma_entry_views_of(m@);
            }
            if m.len() > 0xFFFFFFFF {
                return false;
            }
            let n = m.len();
            let mut i: usize = 0;
            while i < n
                invariant
                    0 <= i <= n,
                    n == m@.len(),
                    forall|k: int|
                        #![trigger entry_views_of(m@)[k]]
                        0 <= k < i ==> encodable(entry_views_of(m@)[k].0) && encodable(
                            entry_views_of(m@)[k].1,
                        ),
                decreases n - i,
            {
                proof {
                    lemma_entry_views_of(m@);
                    assert(decreases_to!(v => m@[i as int].0));
                    assert(decreases_to!(v => m@[i as int].1));
                }
                if !check_encodable(&m[i].0) {
                    return false;
                }
                if !check_encodable(&m[i].1) {
                    return false;
                }
                i = i + 1;
            }
            true
        },
        _ => true,
    }
}

/// Appends the narrowest encoding of the integer `i`.
fn encode_int(w: &mut Vec<u8>, i: i128)
    requires
        -0x8000000000000000 <= i <= 0x7FFFFFFFFFFFFFFF,
    ensures
        final(w)@ == old(w)@ + enc_int(i as int),
{
    if 0 <= i && i <= 0x7F {
        w.push(i as u8);
        proof {
            assert(w@ =~= old(w)@ + enc_int(i as int));
        }
    } else if -32 <= i && i <= -1 {
        w.push((i + 0x100) as u8);
        proof {
            assert(w@ =~= old(w)@ + enc_int(i as int));
        }
    } else if -0x80 <= i && i <= 0x7F {
        w.push(0xD0);
        w.push(if i < 0 {
            (i + 0x100) as u8
        } else {
            i as u8
        });
        proof {
            assert(w@ =~= old(w)@ + enc_int(i as int));
        }
    } else if -0x8000 <= i && i <= 0x7FFF {
        w.push(0xD1);
        push_be16(
            w,
            if i < 0 {
                (i + 0x10000) as u16
            } else {
                i as u16
            },
        );
        proof {
            assert(w@ =~= old(w)@ + enc_int(i as int));
        }
    } else if -0x80000000 <= i && i <= 0x7FFFFFFF {
        w.push(0xD2);
        push_be32(
            w,
            if i < 0 {
                (i + 0x100000000) as u32
            } else {
                i as u32
            },
        );
        proof {
            assert(w@ =~= old(w)@ + enc_int(i as int));
        }
    } else {
        w.push(0xD3);
        push_be64(
            w,
            if i < 0 {
                (i + 0x10000000000000000) as u64
            } else {
                i as u64
            },
        );
        proof {
            assert(w@ =~= old(w)@ + enc_int(i as int));
        }
    }
}

/// Appends the bytes of `b`.
#[verifier::loop_isolation(false)]
fn push_bytes(w: &mut Vec<u8>, b: &Vec<u8>)
    ensures
        final(w)@ == old(w)@ + b@,
{
    let n = b.len();
    let mut i: usize = 0;
    while i < n
        invariant
            0 <= i <= n,
            n == b@.len(),
            w@ == old(w)@ + b@.take(i as int),
        decreases n - i,
    {
        w.push(b[i]);
        proof {
            assert(b@.take(i + 1) =~= b@.take(i as int).push(b@[i as int]));
            assert(w@ =~= old(w)@ + b@.take(i + 1));
        }
        i = i + 1;
    }
    proof {
        assert(b@.take(n as int) =~= b@);
    }
}

/// Appends the canonical encoding of `v`.
#[verifier::loop_isolation(false)]
#[verifier::rlimit(50)]
fn encode_value(w: &mut Vec<u8>, v: &Value)
    requires
        encodable(v@),
    ensures
        final(w)@ == old(w)@ + enc(v@),
    decreases v,
{
    match v {
        Value::Null => {
            w.push(0xC0);
            proof {
                assert(w@ =~= old(w)@ + enc(v@));
            }
        },
        Value::Boolean(b) => {
            w.push(
                if *b {
                    0xC3
                } else {
                    0xC2
                },
            );
            proof {
                assert(w@ =~= old(w)@ + enc(v@));
            }
        },
        Value::Integer(i) => {
            encode_int(w, *i);
        },
        Value::Float(bits) => {
            w.push(0xCB);
            push_be64(w, *bits);
            proof {
                assert(w@ =~= old(w)@ + enc(v@));
            }
        },
        Value::String(s) => {
            let len = s.len();
            if len <= 31 {
                w.push(0xA0 + len as u8);
            } else if len <= 0xFF {
                w.push(0xD9);
                w.push(len as u8);
            } else if len <= 0xFFFF {
                w.push(0xDA);
                push_be16(w, len as u16);
            } else {
                w.push(0xDB);
                push_be32(w, len as u32);
            }
            proof {
                assert(w@ =~= old(w)@ + enc_str_head(s@.len() as int));
            }
            push_bytes(w, s);
            proof {
                assert(w@ =~= old(w)@ + enc(v@));
            }
        },
        Value::Bytes(b) => {
            let len = b.len();
            if len <= 0xFF {
                w.push(0xC4);
                w.push(len as u8);
            } else if len <= 0xFFFF {
                w.push(0xC5);
                push_be16(w, len as u16);
            } else {
                w.push(0xC6);
                push_be32(w, len as u32);
            }
            proof {
                assert(w@ =~= old(w)@ + enc_bin_head(b@.len() as int));
            }
            push_bytes(w, b);
            proof {
                assert(w@ =~= old(w)@ + enc(v@));
            }
        },
        Value::Array(x) => {
            proof {
                lemma_views_of(x@);
            }
            let n = x.len();
            if n <= 15 {
                w.push(0x90 + n as u8);
            } else if n <= 0xFFFF {
                w.push(0xDC);
                push_be16(w, n as u16);
            } else {
                w.push(0xDD);
                push_be32(w, n as u32);
            }
            let ghost gs = views_of(x@);
            proof {
                assert(w@ =~= old(w)@ + enc_arr_head(n as int));
                assert(gs.take(0) =~= Seq::<ValueView>::empty());
            }
            let mut i: usize = 0;
            while i < n
                invariant
                    0 <= i <= n,
                    n == x@.len(),
                    gs == views_of(x@),
                    w@ == old(w)@ + enc_arr_head(n as int) + enc_seq(gs.take(i as int)),
                decreases n - i,
            {
                proof {
                    lemma_views_of(x@);
                    assert(decreases_to!(v => x@[i as int]));
                    assert(encodable(gs[i as int]));
                }
                encode_value(w, &x[i]);
                proof {
                    lemma_enc_seq_push(gs.take(i as int), gs[i as int]);
                    assert(gs.take(i + 1) =~= gs.take(i as int).push(gs[i as int]));
                    assert(w@ =~= old(w)@ + enc_arr_head(n as int) + enc_seq(gs.take(i + 1)));
                }
                i = i + 1;
            }
            proof {
                assert(gs.take(n as int) =~= gs);
                assert(w@ =~= old(w)@ + enc(v@));
            }
        },
        Value::Mapping(m) => {
            proof {
                lemma_entry_views_of(m@);
            }
            let n = m.len();
            if n <= 15 {
                w.push(0x80 + n as u8);
            } else if n <= 0xFFFF {
                w.push(0xDE);
                push_be16(w, n as u16);
            } else {
                w.push(0xDF);
                push_be32(w, n as u32);
            }
            let ghost gs = entry_views_of(m@);
            proof {
                assert(w@ =~= old(w)@ + enc_map_head(n as int));
                assert(gs.take(0) =~= Seq::<(ValueView, ValueView)>::empty());
            }
            let mut i: usize = 0;
            while i < n
                invariant
                    0 <= i <= n,
                    n == m@.len(),
                    gs == entry_views_of(m@),
                    w@ == old(w)@ + enc_map_head(n as int) + enc_pairs(gs.take(i as int)),
                decreases n - i,
            {
                proof {
                    lemma_entry_views_of(m@);
                    assert(decreases_to!(v => m@[i as int].0));
                    assert(decreases_to!(v => m@[i as int].1));
                    assert(encodable(gs[i as int].0) && encodable(gs[i as int].1));
                }
                encode_value(w, &m[i].0);
                encode_value(w, &m[i].1);
                proof {
                    lemma_enc_pairs_push(gs.take(i as int), gs[i as int].0, gs[i as int].1);
                    assert(gs.take(i + 1) =~= gs.take(i as int).push(gs[i as int]));
                    assert(w@ =~= old(w)@ + enc_map_head(n as int) + enc_pairs(gs.take(i + 1)));
                }
                i = i + 1;
            }
            proof {
                assert(gs.take(n as int) =~= gs);
                assert(w@ =~= old(w)@ + enc(v@));
            }
        },
    }
}

/// Appends the canonical byte encoding of `value` to the sink `w` and
/// consumes the value.  When the wire format cannot hold the value — an
/// integer outside the 64-bit signed range, or a length beyond a 32-bit
/// field — nothing is appended and `OutOfRange` is reported.
pub fn encode_to(w: &mut Vec<u8>, value: Value) -> (r: Result<(), Error>)
    ensures
        encodable(value@) ==> r == Ok::<(), Error>(()) && final(w)@ == old(w)@ + enc(value@),
        !encodable(value@) ==> r == Err::<(), Error>(Error::OutOfRange) && final(w)@ == old(w)@,
{
    if check_encodable(&value) {
        encode_value(w, &value);
        Ok(())
    } else {
        Err(Error::OutOfRange)
    }
}

} // verus!
