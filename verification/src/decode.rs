//! The executable decoder, verified against the spec function
//! [`dec`](crate::codec::dec): it reads exactly one complete value from a
//! byte buffer, advancing a position past the consumed bytes, and returns
//! for every buffer exactly the value or the error that `dec` assigns.

use vstd::prelude::*;
use crate::value::Error;
use crate::value::Value;
use crate::value::ValueView;
use crate::value::views_of;
use crate::value::entry_views_of;
use crate::value::lemma_views_of;
use crate::value::lemma_entry_views_of;
use crate::value::assoc_from;
use crate::value::map_insert;
use crate::codec::dec;
use crate::codec::dec_list;
use crate::codec::dec_pairs;
use crate::codec::step_of;
use crate::wire::lemma_skip_skip;
use crate::wire::check_utf8;
use crate::wire::widen_f32;

verus! {

/// Copies `l` bytes of `buf` starting at `start` into a fresh vector, or
/// reports `Truncated` when `buf` ends first.
#[verifier::loop_isolation(false)]
fn take_bytes(buf: &Vec<u8>, start: usize, l: u64) -> (r: Result<Vec<u8>, Error>)
    requires
        start <= buf@.len(),
    ensures
        match r {
            Ok(b) => start + l <= buf@.len() && b@ == buf@.subrange(
                start as int,
                start + l,
            ),
            Err(e) => e == Error::Truncated && start + l > buf@.len(),
        },
{
    if l > (buf.len() - start) as u64 {
        return Err(Error::Truncated);
    }
    let count = l as usize;
    let mut b: Vec<u8> = Vec::new();
    let mut i: usize = 0;
    while i < count
        invariant
            0 <= i <= count,
            start + count <= buf@.len(),
            b@ == buf@.subrange(start as int, start + i),
        decreases count - i,
    {
        b.push(buf[start + i]);
        proof {
            assert(b@ =~= buf@.subrange(start as int, start + i + 1));
        }
        i = i + 1;
    }
    Ok(b)
}

/// Reads the unsigned 16-bit big-endian field at `at`.
fn read16(buf: &Vec<u8>, at: usize) -> (r: u64)
    requires
        at + 2 <= buf@.len(),
    ensures
        r == crate::wire::rd16(buf@[at as int], buf@[at + 1]),
{
    let n = buf.len();
    proof {
        assert(at + 2 <= n);
    }
    (buf[at] as u64) * 0x100 + (buf[at + 1] as u64)
}

/// Reads the unsigned 32-bit big-endian field at `at`.
fn read32(buf: &Vec<u8>, at: usize) -> (r: u64)
    requires
        at + 4 <= buf@.len(),
    ensures
        r == crate::wire::rd32(buf@[at as int], buf@[at + 1], buf@[at + 2], buf@[at + 3]),
{
    let n = buf.len();
    proof {
        assert(at + 4 <= n);
    }
    (((buf[at] as u64) * 0x100 + (buf[at + 1] as u64)) * 0x100 + (buf[at + 2] as u64)) * 0x100 + (
    buf[at + 3] as u64)
}

/// Reads the unsigned 64-bit big-endian field at `at`.
fn read64(buf: &Vec<u8>, at: usize) -> (r: u64)
    requires
        at + 8 <= buf@.len(),
    ensures
        r == crate::wire::rd64(
            buf@[at as int],
            buf@[at + 1],
            buf@[at + 2],
            buf@[at + 3],
            buf@[at + 4],
            buf@[at + 5],
            buf@[at + 6],
            buf@[at + 7],
        ),
{
    let n = buf.len();
    proof {
        assert(at + 8 <= n);
    }
    let hi = (((buf[at] as u64) * 0x100 + (buf[at + 1] as u64)) * 0x100 + (buf[at + 2] as u64))
        * 0x100 + (buf[at + 3] as u64);
    (((hi * 0x100 + (buf[at + 4] as u64)) * 0x100 + (buf[at + 5] as u64)) * 0x100 + (buf[at
        + 6] as u64)) * 0x100 + (buf[at + 7] as u64)
}

/// Decodes the string payload of `l` bytes that follows a header of `h`
/// bytes at `pos`.
#[verifier::rlimit(50)]
fn decode_str_payload(buf: &Vec<u8>, pos: usize, h: usize, l: u64) -> (r: Result<
    (Value, usize),
    Error,
>)
    requires
        pos + h <= buf@.len(),
        1 <= h,
    ensures
        match r {
            Ok((v, p2)) => pos < p2 <= buf@.len() && crate::codec::dec_str_body(
                buf@.skip(pos as int),
                h as int,
                l as int,
            ) == Ok::<_, Error>((v@, p2 - pos)),
            Err(e) => crate::codec::dec_str_body(buf@.skip(pos as int), h as int, l as int)
                == Err::<(ValueView, int), Error>(e),
        },
{
    let ghost s = buf@.skip(pos as int);
    let n = buf.len();
    proof {
        assert(pos + h <= n);
    }
    match take_bytes(buf, pos + h, l) {
        Ok(b) => {
            proof {
                assert(s.subrange(h as int, h + l) =~= buf@.subrange(pos + h, pos + h + l));
            }
            if check_utf8(&b) {
                Ok((Value::String(b), pos + h + l as usize))
            } else {
                Err(Error::InvalidUtf8)
            }
        },
        Err(e) => {
            assert(s.len() < h + l);
            Err(e)
        },
    }
}

/// Decodes the byte-string payload of `l` bytes that follows a header of
/// `h` bytes at `pos`.
#[verifier::rlimit(50)]
fn decode_bin_payload(buf: &Vec<u8>, pos: usize, h: usize, l: u64) -> (r: Result<
    (Value, usize),
    Error,
>)
    requires
        pos + h <= buf@.len(),
        1 <= h,
    ensures
        match r {
            Ok((v, p2)) => pos < p2 <= buf@.len() && crate::codec::dec_bin_body(
                buf@.skip(pos as int),
                h as int,
                l as int,
            ) == Ok::<_, Error>((v@, p2 - pos)),
            Err(e) => crate::codec::dec_bin_body(buf@.skip(pos as int), h as int, l as int)
                == Err::<(ValueView, int), Error>(e),
        },
{
    let ghost s = buf@.skip(pos as int);
    let n = buf.len();
    proof {
        assert(pos + h <= n);
    }
    match take_bytes(buf, pos + h, l) {
        Ok(b) => {
            proof {
                assert(s.subrange(h as int, h + l) =~= buf@.subrange(pos + h, pos + h + l));
            }
            Ok((Value::Bytes(b), pos + h + l as usize))
        },
        Err(e) => {
            assert(s.len() < h + l);
            Err(e)
        },
    }
}

/// Decodes `n` consecutive values starting at `pos`.
#[verifier::loop_isolation(false)]
#[verifier::rlimit(100)]
fn decode_list(buf: &Vec<u8>, pos: usize, n: u64) -> (r: Result<(Vec<Value>, usize), Error>)
    requires
        pos <= buf@.len(),
    ensures
        match r {
            Ok((vs, p2)) => pos <= p2 <= buf@.len() && dec_list(buf@.skip(pos as int), n as nat)
                == Ok::<_, Error>((views_of(vs@), p2 - pos)),
            Err(e) => dec_list(buf@.skip(pos as int), n as nat) == Err::<
                (Seq<ValueView>, int),
                Error,
            >(e),
        },
    decreases buf@.len() - pos, n + 1,
{
    let ghost s0 = buf@.skip(pos as int);
    let mut vs: Vec<Value> = Vec::new();
    let mut p: usize = pos;
    let mut i: u64 = 0;
    proof {
        lemma_views_of(vs@);
        if let Ok((ws, c)) = dec_list(s0, n as nat) {
            assert(views_of(vs@) + ws =~= ws);
        }
    }
    while i < n
        invariant
            0 <= i <= n,
            pos <= p <= buf@.len(),
            i <= p - pos,
            views_of(vs@).len() == i,
            (match dec_list(buf@.skip(p as int), (n - i) as nat) {
                Ok((ws, c)) => dec_list(s0, n as nat) == Ok::<_, Error>(
                    (views_of(vs@) + ws, p - pos + c),
                ),
                Err(e) => dec_list(s0, n as nat) == Err::<(Seq<ValueView>, int), Error>(e),
            }),
        decreases n - i,
    {
        let ghost sp = buf@.skip(p as int);
        match decode_value(buf, p) {
            Ok((v, p2)) => {
                proof {
                    lemma_views_of(vs@);
                    assert(sp.len() > 0);
                    assert(step_of(p2 - p, sp.len() as int) == p2 - p);
                    lemma_skip_skip(buf@, p as int, p2 - p);
                    if let Ok((ws2, c2)) = dec_list(buf@.skip(p2 as int), (n - i - 1) as nat) {
                        assert(views_of(vs@) + (seq![v@] + ws2) =~= views_of(vs@).push(v@) + ws2);
                    }
                }
                let ghost prev = vs@;
                vs.push(v);
                proof {
                    lemma_views_of(prev);
                    lemma_views_of(vs@);
                    assert forall|j: int|
                        0 <= j < vs@.len() implies views_of(vs@)[j] == views_of(prev).push(v@)[j] by {
                        assert(views_of(vs@)[j] == crate::value::view_of(vs@[j]));
                        if j < prev.len() {
                            assert(vs@[j] == prev[j]);
                            assert(views_of(prev)[j] == crate::value::view_of(prev[j]));
                        } else {
                            assert(vs@[j] == v);
                        }
                    }
                    assert(views_of(vs@) =~= views_of(prev).push(v@));
                }
                p = p2;
                i = i + 1;
            },
            Err(e) => {
                proof {
                    if sp.len() == 0 {
                        assert(dec_list(sp, (n - i) as nat) == Err::<
                            (Seq<ValueView>, int),
                            Error,
                        >(Error::Truncated));
                    }
                }
                return Err(e);
            },
        }
    }
    proof {
        assert(dec_list(buf@.skip(p as int), 0nat) == Ok::<_, Error>(
            (Seq::<ValueView>::empty(), 0int),
        ));
        if let Ok((ws, c)) = dec_list(buf@.skip(p as int), 0nat) {
            assert(views_of(vs@) + ws =~= views_of(vs@));
        }
    }
    Ok((vs, p))
}

/// Decodes `n` consecutive key-value entries starting at `pos` and builds
/// the map they describe, later duplicate keys overwriting earlier ones.
#[verifier::loop_isolation(false)]
#[verifier::rlimit(100)]
fn decode_entries(buf: &Vec<u8>, pos: usize, n: u64) -> (r: Result<
    (Vec<(Value, Value)>, usize),
    Error,
>)
    requires
        pos <= buf@.len(),
    ensures
        match r {
            Ok((m, p2)) => pos <= p2 <= buf@.len() && (match dec_pairs(
                buf@.skip(pos as int),
                n as nat,
            ) {
                Ok((ps, c)) => entry_views_of(m@) == assoc_from(ps) && c == p2 - pos,
                Err(e) => false,
            }),
            Err(e) => dec_pairs(buf@.skip(pos as int), n as nat) == Err::<
                (Seq<(ValueView, ValueView)>, int),
                Error,
            >(e),
        },
    decreases buf@.len() - pos, n + 1,
{
    let ghost s0 = buf@.skip(pos as int);
    let mut m: Vec<(Value, Value)> = Vec::new();
    let ghost mut done: Seq<(ValueView, ValueView)> = Seq::empty();
    let mut p: usize = pos;
    let mut i: u64 = 0;
    proof {
        lemma_entry_views_of(m@);
        assert(entry_views_of(m@) =~= assoc_from(done));
        if let Ok((qs, c)) = dec_pairs(s0, n as nat) {
            assert(done + qs =~= qs);
        }
    }
    while i < n
        invariant
            0 <= i <= n,
            pos <= p <= buf@.len(),
            entry_views_of(m@) == assoc_from(done),
            done.len() == i,
            (match dec_pairs(buf@.skip(p as int), (n - i) as nat) {
                Ok((qs, c)) => dec_pairs(s0, n as nat) == Ok::<_, Error>(
                    (done + qs, p - pos + c),
                ),
                Err(e) => dec_pairs(s0, n as nat) == Err::<
                    (Seq<(ValueView, ValueView)>, int),
                    Error,
                >(e),
            }),
        decreases n - i,
    {
        let ghost sp = buf@.skip(p as int);
        let (k, pk) = match decode_value(buf, p) {
            Ok((k, pk)) => {
                proof {
                    assert(sp.len() > 0);
                    assert(step_of(pk - p, sp.len() as int) == pk - p);
                    lemma_skip_skip(buf@, p as int, pk - p);
                }
                (k, pk)
            },
            Err(e) => {
                proof {
                    if sp.len() == 0 {
                        assert(dec_pairs(sp, (n - i) as nat) == Err::<
                            (Seq<(ValueView, ValueView)>, int),
                            Error,
                        >(Error::Truncated));
                    }
                }
                return Err(e);
            },
        };
        let ghost sk = buf@.skip(pk as int);
        match decode_value(buf, pk) {
            Ok((v, pv)) => {
                proof {
                    assert(step_of(pv - pk, sk.len() as int) == pv - pk);
                    assert(step_of((pk - p) + (pv - pk), sp.len() as int) == pv - p);
                    lemma_skip_skip(buf@, p as int, pv - p);
                    if let Ok((qs2, c2)) = dec_pairs(buf@.skip(pv as int), (n - i - 1) as nat) {
                        assert(done + (seq![(k@, v@)] + qs2) =~= done.push((k@, v@)) + qs2);
                    }
                    assert(done.push((k@, v@)).drop_last() =~= done);
                }
                map_insert(&mut m, k, v);
                proof {
                    done = done.push((k@, v@));
                }
                p = pv;
                i = i + 1;
            },
            Err(e) => {
                return Err(e);
            },
        }
    }
    proof {
        assert(dec_pairs(buf@.skip(p as int), 0nat) == Ok::<_, Error>(
            (Seq::<(ValueView, ValueView)>::empty(), 0int),
        ));
        if let Ok((qs, c)) = dec_pairs(buf@.skip(p as int), 0nat) {
            assert(done + qs =~= done);
        }
    }
    Ok((m, p))
}

/// Decodes the one complete value that starts at `pos` and returns it with
/// the position just past its encoding.
#[verifier::loop_isolation(false)]
#[verifier::rlimit(100)]
fn decode_value(buf: &Vec<u8>, pos: usize) -> (r: Result<(Value, usize), Error>)
    requires
        pos <= buf@.len(),
    ensures
        match r {
            Ok((v, p2)) => pos < p2 <= buf@.len() && dec(buf@.skip(pos as int)) == Ok::<_, Error>(
                (v@, p2 - pos),
            ),
            Err(e) => dec(buf@.skip(pos as int)) == Err::<(ValueView, int), Error>(e),
        },
    decreases buf@.len() - pos, 0int,
{
    let ghost s = buf@.skip(pos as int);
    let avail = buf.len() - pos;
    if avail == 0 {
        return Err(Error::Truncated);
    }
    let t = buf[pos];
    proof {
        assert(s[0] == t);
        assert(s.len() == avail);
    }
    if t <= 0x7F {
        Ok((Value::Integer(t as i128), pos + 1))
    } else if t <= 0x8F {
        match decode_entries(buf, pos + 1, (t - 0x80) as u64) {
            Ok((m, p2)) => {
                proof {
                    lemma_skip_skip(buf@, pos as int, 1);
                }
                Ok((Value::Mapping(m), p2))
            },
            Err(e) => {
                proof {
                    lemma_skip_skip(buf@, pos as int, 1);
                }
                Err(e)
            },
        }
    } else if t <= 0x9F {
        match decode_list(buf, pos + 1, (t - 0x90) as u64) {
            Ok((vs, p2)) => {
                proof {
                    lemma_skip_skip(buf@, pos as int, 1);
                }
                Ok((Value::Array(vs), p2))
            },
            Err(e) => {
                proof {
                    lemma_skip_skip(buf@, pos as int, 1);
                }
                Err(e)
            },
        }
    } else if t <= 0xBF {
        decode_str_payload(buf, pos, 1, (t - 0xA0) as u64)
    } else if t == 0xC0 {
        Ok((Value::Null, pos + 1))
    } else if t == 0xC2 {
        Ok((Value::Boolean(false), pos + 1))
    } else if t == 0xC3 {
        Ok((Value::Boolean(true), pos + 1))
    } else if t == 0xC4 {
        if avail < 2 {
            return Err(Error::Truncated);
        }
        decode_bin_payload(buf, pos, 2, buf[pos + 1] as u64)
    } else if t == 0xC5 {
        if avail < 3 {
            return Err(Error::Truncated);
        }
        decode_bin_payload(buf, pos, 3, read16(buf, pos + 1))
    } else if t == 0xC6 {
        if avail < 5 {
            return Err(Error::Truncated);
        }
        decode_bin_payload(buf, pos, 5, read32(buf, pos + 1))
    } else if t == 0xCA {
        if avail < 5 {
            return Err(Error::Truncated);
        }
        let bits32 = read32(buf, pos + 1);
        Ok((Value::Float(widen_f32(bits32 as u32)), pos + 5))
    } else if t == 0xCB {
        if avail < 9 {
            return Err(Error::Truncated);
        }
        Ok((Value::Float(read64(buf, pos + 1)), pos + 9))
    } else if t == 0xCC {
        if avail < 2 {
            return Err(Error::Truncated);
        }
        Ok((Value::Integer(buf[pos + 1] as i128), pos + 2))
    } else if t == 0xCD {
        if avail < 3 {
            return Err(Error::Truncated);
        }
        Ok((Value::Integer(read16(buf, pos + 1) as i128), pos + 3))
    } else if t == 0xCE {
        if avail < 5 {
            return Err(Error::Truncated);
        }
        Ok((Value::Integer(read32(buf, pos + 1) as i128), pos + 5))
    } else if t == 0xCF {
        if avail < 9 {
            return Err(Error::Truncated);
        }
        Ok((Value::Integer(read64(buf, pos + 1) as i128), pos + 9))
    } else if t == 0xD0 {
        if avail < 2 {
            return Err(Error::Truncated);
        }
        let b = buf[pos + 1];
        let val: i128 = if b >= 0x80 {
            b as i128 - 0x100
        } else {
            b as i128
        };
        Ok((Value::Integer(val), pos + 2))
    } else if t == 0xD1 {
        if avail < 3 {
            return Err(Error::Truncated);
        }
        let raw = read16(buf, pos + 1);
        let val: i128 = if raw >= 0x8000 {
            raw as i128 - 0x10000
        } else {
            raw as i128
        };
        Ok((Value::Integer(val), pos + 3))
    } else if t == 0xD2 {
        if avail < 5 {
            return Err(Error::Truncated);
        }
        let raw = read32(buf, pos + 1);
        let val: i128 = if raw >= 0x80000000 {
            raw as i128 - 0x100000000
        } else {
            raw as i128
        };
        Ok((Value::Integer(val), pos + 5))
    } else if t == 0xD3 {
        if avail < 9 {
            return Err(Error::Truncated);
        }
        let raw = read64(buf, pos + 1);
        let val: i128 = if raw >= 0x8000000000000000 {
            raw as i128 - 0x10000000000000000
        } else {
            raw as i128
        };
        Ok((Value::Integer(val), pos + 9))
    } else if t == 0xD9 {
        if avail < 2 {
            return Err(Error::Truncated);
        }
        decode_str_payload(buf, pos, 2, buf[pos + 1] as u64)
    } else if t == 0xDA {
        if avail < 3 {
            return Err(Error::Truncated);
        }
        decode_str_payload(buf, pos, 3, read16(buf, pos + 1))
    } else if t == 0xDB {
        if avail < 5 {
            return Err(Error::Truncated);
        }
        decode_str_payload(buf, pos, 5, read32(buf, pos + 1))
    } else if t == 0xDC {
        if avail < 3 {
            return Err(Error::Truncated);
        }
        let n = read16(buf, pos + 1);
        match decode_list(buf, pos + 3, n) {
            Ok((vs, p2)) => {
                proof {
                    lemma_skip_skip(buf@, pos as int, 3);
                }
                Ok((Value::Array(vs), p2))
            },
            Err(e) => {
                proof {
                    lemma_skip_skip(buf@, pos as int, 3);
                }
                Err(e)
            },
        }
    } else if t == 0xDD {
        if avail < 5 {
            return Err(Error::Truncated);
        }
        let n = read32(buf, pos + 1);
        match decode_list(buf, pos + 5, n) {
            Ok((vs, p2)) => {
                proof {
                    lemma_skip_skip(buf@, pos as int, 5);
                }
                Ok((Value::Array(vs), p2))
            },
            Err(e) => {
                proof {
                    lemma_skip_skip(buf@, pos as int, 5);
                }
                Err(e)
            },
        }
    } else if t == 0xDE {
        if avail < 3 {
            return Err(Error::Truncated);
        }
        let n = read16(buf, pos + 1);
        match decode_entries(buf, pos + 3, n) {
            Ok((m, p2)) => {
                proof {
                    lemma_skip_skip(buf@, pos as int, 3);
                }
                Ok((Value::Mapping(m), p2))
            },
            Err(e) => {
                proof {
                    lemma_skip_skip(buf@, pos as int, 3);
                }
                Err(e)
            },
        }
    } else if t == 0xDF {
        if avail < 5 {
            return Err(Error::Truncated);
        }
        let n = read32(buf, pos + 1);
        match decode_entries(buf, pos + 5, n) {
            Ok((m, p2)) => {
                proof {
                    lemma_skip_skip(buf@, pos as int, 5);
                }
                Ok((Value::Mapping(m), p2))
            },
            Err(e) => {
                proof {
                    lemma_skip_skip(buf@, pos as int, 5);
                }
                Err(e)
            },
        }
    } else if t >= 0xE0 {
        Ok((Value::Integer(t as i128 - 0x100), pos + 1))
    } else {
        // 0xC1, 0xC7 through 0xC9, and 0xD4 through 0xD8 are reserved.
        Err(Error::UnsupportedTag)
    }
}

/// Reads exactly one complete value from `buf` starting at `*pos` and
/// advances `*pos` past the consumed bytes.  On an error — `Truncated`,
/// `InvalidUtf8` or `UnsupportedTag`, exactly as [`dec`] assigns it to the
/// stream — the position is left unchanged.
pub fn decode_from(buf: &Vec<u8>, pos: &mut usize) -> (r: Result<Value, Error>)
    requires
        *old(pos) <= buf@.len(),
    ensures
        match r {
            Ok(v) => *old(pos) < *final(pos) <= buf@.len() && dec(buf@.skip(*old(pos) as int))
                == Ok::<_, Error>((v@, *final(pos) - *old(pos))),
            Err(e) => *final(pos) == *old(pos) && dec(buf@.skip(*old(pos) as int)) == Err::<
                (ValueView, int),
                Error,
            >(e),
        },
{
    match decode_value(buf, *pos) {
        Ok((v, p2)) => {
            *pos = p2;
            Ok(v)
        },
        Err(e) => Err(e),
    }
}

} // verus!
