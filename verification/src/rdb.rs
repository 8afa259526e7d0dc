//! The snapshot reader: the subset of the snapshot file format the loader
//! consumes, parsed from bytes into a store.
use vstd::prelude::*;

use crate::num::dec_digits;
use crate::store::key_idx;
use crate::store::Store;
use crate::value::Value;

verus! {

/// Why a snapshot could not be read: it stops short, or holds a shape the
/// loader does not take.
#[derive(Debug, PartialEq, Eq, Structural)]
pub enum RdbError {
    Truncated,
    BadFormat,
}

/// How a length byte was resolved: a real length, or a special integer
/// whose decimal form stands in for the string payload.
#[derive(Debug)]
pub enum Length {
    EncodedAsInt(usize),
    EncodedAsString(usize),
}

impl Length {
    /// The number either way.
    pub fn to_usize(&self) -> (r: usize)
        ensures
            ({
                match self {
                    Length::EncodedAsInt(v) => r == v,
                    Length::EncodedAsString(v) => r == v,
                }
            }),
    {
        match self {
            Length::EncodedAsInt(v) => *v,
            Length::EncodedAsString(v) => *v,
        }
    }
}

/// A little-endian number over `n` bytes starting at `pos`.
pub open spec fn le_val(s: Seq<u8>, pos: int, n: int) -> nat
    decreases n,
{
    if n <= 0 {
        0
    } else {
        (s[pos] + 256 * le_val(s, pos + 1, n - 1)) as nat
    }
}

/// A big-endian number over `n` bytes starting at `pos`.
pub open spec fn be_val(s: Seq<u8>, pos: int, n: int) -> nat
    decreases n,
{
    if n <= 0 {
        0
    } else {
        (be_val(s, pos, n - 1) * 256 + s[pos + n - 1]) as nat
    }
}

/// What a length marker at `pos` means: the resolved `Length`-like pair
/// (value, read as a special integer?) and the position after it, or
/// nothing when the bytes stop short or the marker is not taken.
pub open spec fn spec_length(s: Seq<u8>, pos: int) -> Option<(nat, bool, int)> {
    if pos >= s.len() {
        None
    } else {
        let b0 = s[pos];
        if b0 < 0x40 {
            Some(((b0 & 0x3f) as nat, false, pos + 1))
        } else if b0 < 0x80 {
            if pos + 2 <= s.len() {
                Some((((b0 & 0x3f) * 0x100 + s[pos + 1]) as nat, false, pos + 2))
            } else {
                None
            }
        } else if b0 < 0xc0 {
            if pos + 5 <= s.len() {
                Some((be_val(s, pos + 1, 4), false, pos + 5))
            } else {
                None
            }
        } else {
            let kind = b0 & 0x3f;
            if kind == 0 && pos + 2 <= s.len() {
                Some((s[pos + 1] as nat, true, pos + 2))
            } else if kind == 1 && pos + 3 <= s.len() {
                Some((le_val(s, pos + 1, 2), true, pos + 3))
            } else if kind == 2 && pos + 5 <= s.len() {
                Some((le_val(s, pos + 1, 4), true, pos + 5))
            } else {
                None
            }
        }
    }
}

/// What a string at `pos` holds and where it ends: either `length` bytes of
/// payload, or the decimal form of a special integer.
pub open spec fn spec_string(s: Seq<u8>, pos: int) -> Option<(Seq<u8>, int)> {
    match spec_length(s, pos) {
        None => None,
        Some((v, as_string, p2)) => {
            if as_string {
                Some((dec_digits(v), p2))
            } else {
                if p2 + v <= s.len() {
                    Some((s.subrange(p2, p2 + v), p2 + v))
                } else {
                    None
                }
            }
        },
    }
}

/// One record the loader keeps: a key, its bytes, and an optional absolute
/// expiry in milliseconds.
#[derive(Debug)]
pub struct RdbRecord {
    pub key: Vec<u8>,
    pub value: Vec<u8>,
    pub expiry: Option<u64>,
}

impl View for RdbRecord {
    type V = (Seq<u8>, Seq<u8>, Option<u64>);

    open spec fn view(&self) -> (Seq<u8>, Seq<u8>, Option<u64>) {
        (self.key@, self.value@, self.expiry)
    }
}

/// A key and value pair at `pos`, preceded by its value-type byte already
/// read: only type `0`, a plain string, is taken.
pub open spec fn spec_key_value(s: Seq<u8>, code: u8, pos: int) -> Option<(Seq<u8>, Seq<u8>, int)> {
    if code != 0 {
        None
    } else {
        match spec_string(s, pos) {
            None => None,
            Some((k, p2)) => match spec_string(s, p2) {
                None => None,
                Some((v, p3)) => Some((k, v, p3)),
            },
        }
    }
}

/// The records from `pos` to the end of the file, walking the operation
/// codes.
pub open spec fn spec_walk(s: Seq<u8>, pos: int) -> Option<Seq<(Seq<u8>, Seq<u8>, Option<u64>)>>
    decreases s.len() - pos,
{
    if pos < 0 {
        None
    } else if pos >= s.len() {
        Some(Seq::empty())
    } else {
        let b = s[pos];
        if b == 0xfa {
            match spec_string(s, pos + 1) {
                None => None,
                Some((_k, p2)) => match spec_string(s, p2) {
                    None => None,
                    Some((_v, p3)) => if pos < p3 <= s.len() {
                        spec_walk(s, p3)
                    } else {
                        None
                    },
                },
            }
        } else if b == 0xfe {
            match spec_length(s, pos + 1) {
                None => None,
                Some((_v, _st, p2)) => if pos < p2 <= s.len() {
                    spec_walk(s, p2)
                } else {
                    None
                },
            }
        } else if b == 0xfb {
            match spec_length(s, pos + 1) {
                None => None,
                Some((_v, _st, p2)) => match spec_length(s, p2) {
                    None => None,
                    Some((_v2, _st2, p3)) => if pos < p3 <= s.len() {
                        spec_walk(s, p3)
                    } else {
                        None
                    },
                },
            }
        } else if b == 0xfc {
            if pos + 10 > s.len() {
                None
            } else {
                let exp = le_val(s, pos + 1, 8);
                let code = s[pos + 9];
                match spec_key_value(s, code, pos + 10) {
                    None => None,
                    Some((k, v, p2)) => if pos < p2 <= s.len() {
                        match spec_walk(s, p2) {
                            None => None,
                            Some(rest) => Some(seq![(k, v, Some(exp as u64))] + rest),
                        }
                    } else {
                        None
                    },
                }
            }
        } else if b == 0xff {
            Some(Seq::empty())
        } else {
            match spec_key_value(s, b, pos + 1) {
                None => None,
                Some((k, v, p2)) => if pos < p2 <= s.len() {
                    match spec_walk(s, p2) {
                        None => None,
                        Some(rest) => Some(seq![(k, v, Option::<u64>::None)] + rest),
                    }
                } else {
                    None
                },
            }
        }
    }
}

/// The five bytes that spell the magic word `REDIS`.
pub open spec fn magic_bytes() -> Seq<u8> {
    seq![82u8, 69u8, 68u8, 73u8, 83u8]
}

/// The records of a whole snapshot: the magic word, a version, then the
/// operation walk.
pub open spec fn spec_rdb_records(s: Seq<u8>) -> Option<Seq<(Seq<u8>, Seq<u8>, Option<u64>)>> {
    if s.len() < 9 {
        None
    } else if s.subrange(0, 5) != magic_bytes() {
        None
    } else {
        spec_walk(s, 9)
    }
}

/// Record rows as mathematical values.
pub open spec fn records_view(v: Seq<RdbRecord>) -> Seq<(Seq<u8>, Seq<u8>, Option<u64>)> {
    v.map(|i: int, rec: RdbRecord| rec@)
}

pub proof fn lemma_records_view_snoc(v: Seq<RdbRecord>, rec: RdbRecord)
    ensures
        records_view(v.push(rec)) == records_view(v).push(rec@),
{
    assert(records_view(v.push(rec)) =~= records_view(v).push(rec@));
}

/// Whether a record still lives at `now_ms`.
pub open spec fn record_live(rec: (Seq<u8>, Seq<u8>, Option<u64>), now_ms: u64) -> bool {
    match rec.2 {
        None => true,
        Some(e) => e > now_ms,
    }
}

/// What loading the records leaves under key `k`: the last live record with
/// that key, a dead one neither settling nor clearing it.
pub open spec fn records_lookup(
    rs: Seq<(Seq<u8>, Seq<u8>, Option<u64>)>,
    k: Seq<u8>,
    now_ms: u64,
) -> Option<(Seq<u8>, Option<u64>)>
    decreases rs.len(),
{
    if rs.len() == 0 {
        None
    } else {
        let last = rs.last();
        if last.0 == k && record_live(last, now_ms) {
            Some((last.1, last.2))
        } else {
            records_lookup(rs.drop_last(), k, now_ms)
        }
    }
}

/// Reads eight little-endian bytes at `at`.
fn read_le64(buf: &[u8], at: usize) -> (r: u64)
    requires
        at + 8 <= buf@.len(),
    ensures
        r == le_val(buf@, at as int, 8),
{
    let v: u64 = (buf[at] as u64) + (buf[at + 1] as u64) * 0x100 + (buf[at + 2] as u64) * 0x10000
        + (buf[at + 3] as u64) * 0x1000000 + (buf[at + 4] as u64) * 0x100000000 + (buf[at
        + 5] as u64) * 0x10000000000 + (buf[at + 6] as u64) * 0x1000000000000 + (buf[at
        + 7] as u64) * 0x100000000000000;
    proof {
        reveal_with_fuel(le_val, 9);
        assert(le_val(buf@, at as int, 8) == v);
    }
    v
}

/// Reads a length marker.  Gives the resolved length and the position after
/// it.
pub fn decode_length(buf: &[u8], pos: usize) -> (r: Result<(Length, usize), RdbError>)
    ensures
        ({
            match spec_length(buf@, pos as int) {
                Some((v, as_string, p2)) => r matches Ok(p) && p.1 == p2 && pos < p2 <= buf@.len()
                    && (match p.0 {
                    Length::EncodedAsInt(x) => !as_string && x == v,
                    Length::EncodedAsString(x) => as_string && x == v,
                }),
                None => r is Err,
            }
        }),
{
    if pos >= buf.len() {
        return Err(RdbError::Truncated);
    }
    let b0 = buf[pos];
    if b0 < 0x40 {
        Ok((Length::EncodedAsInt((b0 & 0x3f) as usize), pos + 1))
    } else if b0 < 0x80 {
        if buf.len() - pos < 2 {
            return Err(RdbError::Truncated);
        }
        let v: usize = ((b0 & 0x3f) as usize) * 0x100 + (buf[pos + 1] as usize);
        Ok((Length::EncodedAsInt(v), pos + 2))
    } else if b0 < 0xc0 {
        if buf.len() - pos < 5 {
            return Err(RdbError::Truncated);
        }
        let v: u64 = (((buf[pos + 1] as u64) * 0x100 + (buf[pos + 2] as u64)) * 0x100 + (buf[pos
            + 3] as u64)) * 0x100 + (buf[pos + 4] as u64);
        proof {
            reveal_with_fuel(be_val, 5);
            assert(be_val(buf@, pos + 1, 4) == v);
        }
        Ok((Length::EncodedAsInt(v as usize), pos + 5))
    } else {
        let kind = b0 & 0x3f;
        if kind == 0 {
            if buf.len() - pos < 2 {
                return Err(RdbError::Truncated);
            }
            Ok((Length::EncodedAsString(buf[pos + 1] as usize), pos + 2))
        } else if kind == 1 {
            if buf.len() - pos < 3 {
                return Err(RdbError::Truncated);
            }
            let v: u64 = (buf[pos + 1] as u64) + (buf[pos + 2] as u64) * 0x100;
            proof {
                reveal_with_fuel(le_val, 3);
                assert(le_val(buf@, pos + 1, 2) == v);
            }
            Ok((Length::EncodedAsString(v as usize), pos + 3))
        } else if kind == 2 {
            if buf.len() - pos < 5 {
                return Err(RdbError::Truncated);
            }
            let v: u64 = (buf[pos + 1] as u64) + (buf[pos + 2] as u64) * 0x100 + (buf[pos
                + 3] as u64) * 0x10000 + (buf[pos + 4] as u64) * 0x1000000;
            proof {
                reveal_with_fuel(le_val, 5);
                assert(le_val(buf@, pos + 1, 4) == v);
            }
            Ok((Length::EncodedAsString(v as usize), pos + 5))
        } else {
            Err(RdbError::BadFormat)
        }
    }
}

/// Reads a string: either a length-prefixed payload, or a special integer
/// whose decimal form stands in.
fn decode_string(buf: &[u8], pos: usize) -> (r: Result<(Vec<u8>, usize), RdbError>)
    ensures
        ({
            match spec_string(buf@, pos as int) {
                Some((payload, p2)) => r matches Ok(p) && p.0@ == payload && p.1 == p2 && pos < p2
                    <= buf@.len(),
                None => r is Err,
            }
        }),
{
    let (length, p2) = match decode_length(buf, pos) {
        Ok(p) => p,
        Err(e) => {
            return Err(e);
        },
    };
    match length {
        Length::EncodedAsString(v) => {
            proof {
                crate::num::lemma_dec_digits_len_le_20((v as u64) as nat);
            }
            Ok((crate::num::u64_digits(v as u64), p2))
        },
        Length::EncodedAsInt(n) => {
            if buf.len() - p2 < n {
                return Err(RdbError::Truncated);
            }
            let payload = vstd::slice::slice_to_vec(vstd::slice::slice_subrange(buf, p2, p2 + n));
            Ok((payload, p2 + n))
        },
    }
}

/// Reads a key and its value, the value-type byte already in hand: only a
/// plain string value is taken.
fn decode_key_value(buf: &[u8], code: u8, pos: usize) -> (r: Result<(Vec<u8>, Vec<u8>, usize), RdbError>)
    ensures
        ({
            match spec_key_value(buf@, code, pos as int) {
                Some((k, v, p3)) => r matches Ok(p) && p.0@ == k && p.1@ == v && p.2 == p3 && pos
                    < p3 <= buf@.len(),
                None => r is Err,
            }
        }),
{
    if code != 0 {
        return Err(RdbError::BadFormat);
    }
    let (key, p2) = match decode_string(buf, pos) {
        Ok(p) => p,
        Err(e) => {
            return Err(e);
        },
    };
    let (value, p3) = match decode_string(buf, p2) {
        Ok(p) => p,
        Err(e) => {
            return Err(e);
        },
    };
    Ok((key, value, p3))
}

/// Reads a whole snapshot into its records, in file order.
#[verifier::rlimit(100)]
#[verifier::spinoff_prover]
pub fn decode_records(buf: &[u8]) -> (r: Result<Vec<RdbRecord>, RdbError>)
    ensures
        ({
            match spec_rdb_records(buf@) {
                Some(rs) => r matches Ok(v) && records_view(v@) == rs,
                None => r is Err,
            }
        }),
{
    if buf.len() < 9 {
        return Err(RdbError::Truncated);
    }
    if !(buf[0] == 82 && buf[1] == 69 && buf[2] == 68 && buf[3] == 73 && buf[4] == 83) {
        proof {
            if buf@.subrange(0, 5) == magic_bytes() {
                assert(buf@.subrange(0, 5)[0] == 82);
                assert(buf@.subrange(0, 5)[1] == 69);
                assert(buf@.subrange(0, 5)[2] == 68);
                assert(buf@.subrange(0, 5)[3] == 73);
                assert(buf@.subrange(0, 5)[4] == 83);
            }
        }
        return Err(RdbError::BadFormat);
    }
    assert(buf@.subrange(0, 5) =~= magic_bytes());
    let ghost s = buf@;
    let mut records: Vec<RdbRecord> = Vec::new();
    let mut pos: usize = 9;
    assert(records_view(records@) =~= Seq::<(Seq<u8>, Seq<u8>, Option<u64>)>::empty());
    loop
        invariant
            s == buf@,
            9 <= pos <= s.len(),
            spec_rdb_records(s) == spec_walk(s, 9),
            ({
                match spec_walk(s, 9) {
                    Some(all) => spec_walk(s, pos as int) matches Some(rest) && all == records_view(
                        records@,
                    ) + rest,
                    None => spec_walk(s, pos as int) is None,
                }
            }),
        decreases s.len() - pos,
    {
        if pos >= buf.len() {
            proof {
                match spec_walk(s, 9) {
                    Some(all) => {
                        assert(all =~= records_view(records@));
                    },
                    None => {},
                }
            }
            return Ok(records);
        }
        let b = buf[pos];
        if b == 0xfa {
            let (_k, p2) = match decode_string(buf, pos + 1) {
                Ok(p) => p,
                Err(e) => {
                    return Err(e);
                },
            };
            let (_v, p3) = match decode_string(buf, p2) {
                Ok(p) => p,
                Err(e) => {
                    return Err(e);
                },
            };
            pos = p3;
        } else if b == 0xfe {
            let (_l, p2) = match decode_length(buf, pos + 1) {
                Ok(p) => p,
                Err(e) => {
                    return Err(e);
                },
            };
            pos = p2;
        } else if b == 0xfb {
            let (_l, p2) = match decode_length(buf, pos + 1) {
                Ok(p) => p,
                Err(e) => {
                    return Err(e);
                },
            };
            let (_l2, p3) = match decode_length(buf, p2) {
                Ok(p) => p,
                Err(e) => {
                    return Err(e);
                },
            };
            pos = p3;
        } else if b == 0xfc {
            if buf.len() - pos < 10 {
                return Err(RdbError::Truncated);
            }
            let exp: u64 = read_le64(buf, pos + 1);
            let code = buf[pos + 9];
            let (key, value, p2) = match decode_key_value(buf, code, pos + 10) {
                Ok(p) => p,
                Err(e) => {
                    return Err(e);
                },
            };
            let ghost recs0 = records@;
            records.push(RdbRecord { key, value, expiry: Some(exp) });
            proof {
                assert(records@ =~= recs0.push(records@.last()));
                lemma_records_view_snoc(recs0, records@.last());
                match spec_walk(s, 9) {
                    Some(all) => {
                        match spec_walk(s, p2 as int) {
                            Some(rest2) => {
                                assert(all =~= records_view(records@) + rest2);
                            },
                            None => {},
                        }
                    },
                    None => {},
                }
            }
            pos = p2;
        } else if b == 0xff {
            proof {
                match spec_walk(s, 9) {
                    Some(all) => {
                        assert(all =~= records_view(records@));
                    },
                    None => {},
                }
            }
            return Ok(records);
        } else {
            let (key, value, p2) = match decode_key_value(buf, b, pos + 1) {
                Ok(p) => p,
                Err(e) => {
                    return Err(e);
                },
            };
            let ghost recs0 = records@;
            records.push(RdbRecord { key, value, expiry: None });
            proof {
                assert(records@ =~= recs0.push(records@.last()));
                lemma_records_view_snoc(recs0, records@.last());
                match spec_walk(s, 9) {
                    Some(all) => {
                        match spec_walk(s, p2 as int) {
                            Some(rest2) => {
                                assert(all =~= records_view(records@) + rest2);
                            },
                            None => {},
                        }
                    },
                    None => {},
                }
            }
            pos = p2;
        }
    }
}

/// A loaded snapshot: the store its records build.
#[derive(Debug)]
pub struct Rdb {
    pub store: Store,
}

impl Rdb {
    /// Builds the store a snapshot's bytes describe: every live record set
    /// in file order, records already dead at `now_ms` dropped.
    pub fn read_from_buf(buf: &[u8], now_ms: u64) -> (r: Result<Rdb, RdbError>)
        ensures
            ({
                match spec_rdb_records(buf@) {
                    None => r is Err,
                    Some(rs) => r matches Ok(rdb) && {
                        &&& rdb.store.wf()
                        &&& rdb.store.streams@.len() == 0
                        &&& (forall|k: Seq<u8>|
                            key_idx(rdb.store.map@, k) >= 0 <==> #[trigger] records_lookup(
                                rs,
                                k,
                                now_ms,
                            ) is Some)
                        &&& (forall|k: Seq<u8>|
                            #![trigger records_lookup(rs, k, now_ms)]
                            key_idx(rdb.store.map@, k) >= 0 ==> {
                                let p = rdb.store.map@[key_idx(rdb.store.map@, k)];
                                records_lookup(rs, k, now_ms) == Some(
                                    (p.1.value@, p.1.expiration),
                                )
                            })
                    },
                }
            }),
    {
        let mut records = match decode_records(buf) {
            Ok(v) => v,
            Err(e) => {
                return Err(e);
            },
        };
        let ghost rs = records_view(records@);
        let mut store = Store::new();
        let mut i: usize = 0;
        let n = records.len();
        proof {
            assert(rs.take(0) =~= Seq::<(Seq<u8>, Seq<u8>, Option<u64>)>::empty());
        }
        while i < n
            invariant
                i <= n == records@.len(),
                rs == records_view(records@),
                rs.len() == n,
                store.wf(),
                store.streams@.len() == 0,
                forall|k: Seq<u8>|
                    key_idx(store.map@, k) >= 0 <==> #[trigger] records_lookup(
                        rs.take(i as int),
                        k,
                        now_ms,
                    ) is Some,
                forall|k: Seq<u8>|
                    #![trigger records_lookup(rs.take(i as int), k, now_ms)]
                    key_idx(store.map@, k) >= 0 ==> {
                        let p = store.map@[key_idx(store.map@, k)];
                        records_lookup(rs.take(i as int), k, now_ms) == Some(
                            (p.1.value@, p.1.expiration),
                        )
                    },
            decreases n - i,
        {
            proof {
                assert(records_view(records@)[i as int] == records@[i as int]@);
                assert(rs.take(i + 1).drop_last() =~= rs.take(i as int));
                assert(rs.take(i + 1).last() == rs[i as int]);
            }
            let rec = &records[i];
            let live: bool = match rec.expiry {
                None => true,
                Some(e) => e > now_ms,
            };
            if live {
                let key = vstd::slice::slice_to_vec(rec.key.as_slice());
                let value = Value::String(vstd::slice::slice_to_vec(rec.value.as_slice()));
                let expire_in: Option<u64> = match rec.expiry {
                    None => None,
                    Some(e) => Some(e - now_ms),
                };
                let ghost map0 = store.map@;
                store.set(key, value, expire_in, now_ms);
                proof {
                    let keyv = rs[i as int].0;
                    crate::store::lemma_key_idx(map0, keyv);
                    let i0 = key_idx(map0, keyv);
                    let inew = key_idx(store.map@, keyv);
                    if i0 >= 0 {
                        assert forall|k: Seq<u8>| true implies key_idx(store.map@, k) == key_idx(
                            map0,
                            k,
                        ) by {
                            crate::store::lemma_key_idx_update(map0, i0, store.map@[i0], k);
                        }
                        assert(inew == i0);
                        assert(store.map@[inew].1.value@ == rs[i as int].1);
                        assert(store.map@[inew].1.expiration == rs[i as int].2);
                    } else {
                        assert forall|k: Seq<u8>| k != keyv implies key_idx(store.map@, k)
                            == key_idx(map0, k) by {
                            crate::store::lemma_key_idx_push(map0, store.map@.last(), k);
                        }
                        crate::store::lemma_key_idx_push(map0, store.map@.last(), keyv);
                        assert(inew == map0.len());
                        assert(store.map@[inew].1.value@ == rs[i as int].1);
                        assert(store.map@[inew].1.expiration == rs[i as int].2);
                    }
                    assert(record_live(rs[i as int], now_ms));
                    assert forall|k: Seq<u8>| key_idx(store.map@, k) >= 0 <==> #[trigger]
                        records_lookup(rs.take(i + 1), k, now_ms) is Some by {
                        if k == keyv {
                            assert(records_lookup(rs.take(i + 1), k, now_ms) == Some(
                                (rs[i as int].1, rs[i as int].2),
                            ));
                        } else {
                            assert(records_lookup(rs.take(i + 1), k, now_ms) == records_lookup(
                                rs.take(i as int),
                                k,
                                now_ms,
                            ));
                            if key_idx(map0, k) >= 0 {
                                assert(store.map@[key_idx(store.map@, k)] == map0[key_idx(
                                    map0,
                                    k,
                                )]) by {
                                    crate::store::lemma_key_idx(map0, k);
                                }
                            }
                        }
                    }
                    assert forall|k: Seq<u8>|
                        #![trigger records_lookup(rs.take(i + 1), k, now_ms)]
                        key_idx(store.map@, k) >= 0 implies {
                        let p = store.map@[key_idx(store.map@, k)];
                        records_lookup(rs.take(i + 1), k, now_ms) == Some(
                            (p.1.value@, p.1.expiration),
                        )
                    } by {
                        if k == keyv {
                            assert(records_lookup(rs.take(i + 1), k, now_ms) == Some(
                                (rs[i as int].1, rs[i as int].2),
                            ));
                        } else {
                            assert(records_lookup(rs.take(i + 1), k, now_ms) == records_lookup(
                                rs.take(i as int),
                                k,
                                now_ms,
                            ));
                            crate::store::lemma_key_idx(map0, k);
                            assert(key_idx(map0, k) >= 0);
                            assert(store.map@[key_idx(store.map@, k)] == map0[key_idx(map0, k)]);
                        }
                    }
                }
            } else {
                proof {
                    assert forall|k: Seq<u8>| #[trigger] records_lookup(rs.take(i + 1), k, now_ms)
                        == records_lookup(rs.take(i as int), k, now_ms) by {
                        assert(!record_live(rs[i as int], now_ms));
                    }
                }
            }
            i = i + 1;
        }
        proof {
            assert(rs.take(n as int) =~= rs);
        }
        Ok(Rdb { store })
    }
}

} // verus!
