//! The RESP wire codec: the `Data` type of wire values, its byte encoding,
//! and an incremental decoder that asks for more bytes when a frame is cut
//! short.
use vstd::prelude::*;

use crate::num::dec_digits;
use crate::num::digits_end;
use crate::num::digits_val;
use crate::num::find_cr;
use crate::num::is_digit;

verus! {

/// Byte constants of the wire format.
pub const TAG_SIMPLE: u8 = 43;

pub const TAG_ERROR: u8 = 45;

pub const TAG_INTEGER: u8 = 58;

pub const TAG_BULK: u8 = 36;

pub const TAG_ARRAY: u8 = 42;

pub const CR: u8 = 13;

pub const LF: u8 = 10;

pub const MINUS: u8 = 45;

pub const PLUS: u8 = 43;

pub const DIGIT_ZERO: u8 = 48;

/// A RESP value as it travels on the wire.
#[derive(Debug, PartialEq, Eq)]
pub enum Data {
    SimpleString(Vec<u8>),
    BulkString(Vec<u8>),
    NullBulkString,
    Integer(i64),
    Array(Vec<Data>),
    SimpleError(Vec<u8>),
    Unknown(Vec<u8>),
}

/// The mathematical model of a RESP value: the same shape over `Seq<u8>`.
pub enum Resp {
    Simple(Seq<u8>),
    Bulk(Seq<u8>),
    NullBulk,
    Int(i64),
    Array(Seq<Resp>),
    Error(Seq<u8>),
    Unknown(Seq<u8>),
}

broadcast use
    vstd::seq::axiom_seq_index_decreases,
    vstd::std_specs::vec::axiom_vec_decreases_to_view,
    crate::num::lemma_digits_end_bounds,
    crate::num::lemma_find_cr_bounds,
;

impl Data {
    /// The model of this value.
    pub open spec fn dv(&self) -> Resp
        decreases self, 0int,
    {
        match self {
            Data::SimpleString(s) => Resp::Simple(s@),
            Data::BulkString(s) => Resp::Bulk(s@),
            Data::NullBulkString => Resp::NullBulk,
            Data::Integer(i) => Resp::Int(*i),
            Data::Array(vs) => Resp::Array(dv_seq(vs@)),
            Data::SimpleError(s) => Resp::Error(s@),
            Data::Unknown(s) => Resp::Unknown(s@),
        }
    }
}

/// The models of a sequence of values, in order.
pub open spec fn dv_seq(vs: Seq<Data>) -> Seq<Resp>
    decreases vs, 1int,
{
    if vs.len() == 0 {
        Seq::empty()
    } else {
        seq![vs[0].dv()] + dv_seq(vs.drop_first())
    }
}

/// A value the encoder accepts: no carriage return inside a line-delimited
/// payload, lengths and counts that fit in a machine word, and no `Unknown`.
pub open spec fn resp_wf(m: Resp) -> bool
    decreases m, 0int,
{
    match m {
        Resp::Simple(s) => !s.contains(CR),
        Resp::Error(s) => !s.contains(CR),
        Resp::Bulk(s) => s.len() <= usize::MAX,
        Resp::NullBulk => true,
        Resp::Int(i) => (if i < 0 {
            -(i as int)
        } else {
            i as int
        }) <= usize::MAX,
        Resp::Array(vs) => vs.len() <= usize::MAX && resp_wf_seq(vs),
        Resp::Unknown(_) => false,
    }
}

pub open spec fn resp_wf_seq(vs: Seq<Resp>) -> bool
    decreases vs, 1int,
{
    if vs.len() == 0 {
        true
    } else {
        resp_wf(vs[0]) && resp_wf_seq(vs.drop_first())
    }
}

/// The decimal form of a signed value: a minus sign before the magnitude.
pub open spec fn dec_i64(i: i64) -> Seq<u8> {
    if i < 0 {
        seq![MINUS] + dec_digits((-(i as int)) as nat)
    } else {
        dec_digits(i as nat)
    }
}

pub open spec fn crlf() -> Seq<u8> {
    seq![CR, LF]
}

/// The bytes of a null bulk string.
pub open spec fn null_bulk_bytes() -> Seq<u8> {
    seq![TAG_BULK, MINUS, (DIGIT_ZERO + 1) as u8, CR, LF]
}

/// The wire encoding of a model value.
pub open spec fn enc(m: Resp) -> Seq<u8>
    decreases m, 0int,
{
    match m {
        Resp::Simple(s) => seq![TAG_SIMPLE] + s + crlf(),
        Resp::Error(s) => seq![TAG_ERROR] + s + crlf(),
        Resp::Bulk(s) => seq![TAG_BULK] + dec_digits(s.len()) + crlf() + s + crlf(),
        Resp::NullBulk => null_bulk_bytes(),
        Resp::Int(i) => seq![TAG_INTEGER] + dec_i64(i) + crlf(),
        Resp::Array(vs) => seq![TAG_ARRAY] + dec_digits(vs.len()) + crlf() + enc_seq(vs),
        Resp::Unknown(_) => Seq::empty(),
    }
}

/// The concatenated encodings of a sequence of values.
pub open spec fn enc_seq(vs: Seq<Resp>) -> Seq<u8>
    decreases vs, 1int,
{
    if vs.len() == 0 {
        Seq::empty()
    } else {
        enc(vs[0]) + enc_seq(vs.drop_first())
    }
}

/// The encoding of a bulk string with the trailing line break cut off: how a
/// snapshot file travels after a full resync.
pub open spec fn enc_rdb(payload: Seq<u8>) -> Seq<u8> {
    seq![TAG_BULK] + dec_digits(payload.len()) + crlf() + payload
}

/// What one attempt to decode the front of a buffer yields: a value with the
/// count of bytes it took, a cut-short frame, or garbage.
pub enum Decoded {
    Found(Resp, int),
    Incomplete,
    Malformed,
}

pub enum DecodedSeq {
    Found(Seq<Resp>, int),
    Incomplete,
    Malformed,
}

pub open spec fn spec_decode_simple(s: Seq<u8>, tag: u8) -> Decoded {
    if s.len() < 3 {
        Decoded::Incomplete
    } else {
        let j = find_cr(s, 1);
        if s.len() < j + 2 {
            Decoded::Incomplete
        } else if s[j + 1] != LF {
            Decoded::Malformed
        } else if tag == TAG_SIMPLE {
            Decoded::Found(Resp::Simple(s.subrange(1, j)), j + 2)
        } else {
            Decoded::Found(Resp::Error(s.subrange(1, j)), j + 2)
        }
    }
}

pub open spec fn spec_decode_integer(s: Seq<u8>) -> Decoded {
    if s.len() < 4 {
        Decoded::Incomplete
    } else if !(is_digit(s[1]) || s[1] == MINUS || s[1] == PLUS) {
        Decoded::Malformed
    } else {
        let neg = s[1] == MINUS;
        let start: int = if neg || s[2] == PLUS {
            2
        } else {
            1
        };
        let j = digits_end(s, start);
        if j == start {
            Decoded::Malformed
        } else {
            let v = digits_val(s.subrange(start, j));
            let iv: int = if neg {
                -(v as int)
            } else {
                v as int
            };
            if v > usize::MAX || iv < i64::MIN || iv > i64::MAX {
                Decoded::Malformed
            } else if s.len() < j + 2 {
                Decoded::Incomplete
            } else if s[j] != CR || s[j + 1] != LF {
                Decoded::Malformed
            } else {
                Decoded::Found(Resp::Int(iv as i64), j + 2)
            }
        }
    }
}

pub open spec fn spec_decode_bulk(s: Seq<u8>) -> Decoded {
    if s.len() < 4 {
        Decoded::Incomplete
    } else if s[1] == MINUS {
        if s.len() < 5 {
            Decoded::Incomplete
        } else if s.subrange(0, 5) == null_bulk_bytes() {
            Decoded::Found(Resp::NullBulk, 5)
        } else {
            Decoded::Malformed
        }
    } else {
        let j = digits_end(s, 1);
        if j == 1 {
            Decoded::Malformed
        } else {
            let n = digits_val(s.subrange(1, j)) as int;
            if n > usize::MAX {
                Decoded::Malformed
            } else if s.len() < j + 2 {
                Decoded::Incomplete
            } else if s[j] != CR || s[j + 1] != LF {
                Decoded::Malformed
            } else if s.len() < j + 2 + n || s.len() < j + 4 + n {
                Decoded::Incomplete
            } else if s[j + 2 + n] != CR || s[j + 3 + n] != LF {
                Decoded::Malformed
            } else {
                Decoded::Found(Resp::Bulk(s.subrange(j + 2, j + 2 + n)), j + 4 + n)
            }
        }
    }
}

/// Decoding the front of `s`, after the whole buffer up to here has been
/// consumed by earlier frames.
pub open spec fn spec_decode(s: Seq<u8>) -> Decoded
    decreases s.len(), 0int,
{
    if s.len() == 0 {
        Decoded::Incomplete
    } else if s[0] == TAG_SIMPLE || s[0] == TAG_ERROR {
        spec_decode_simple(s, s[0])
    } else if s[0] == TAG_INTEGER {
        spec_decode_integer(s)
    } else if s[0] == TAG_BULK {
        spec_decode_bulk(s)
    } else if s[0] == TAG_ARRAY {
        if s.len() < 4 {
            Decoded::Incomplete
        } else {
            let j = digits_end(s, 1);
            if j == 1 {
                Decoded::Malformed
            } else {
                let n = digits_val(s.subrange(1, j));
                if n > usize::MAX {
                    Decoded::Malformed
                } else if s.len() < j + 2 {
                    Decoded::Incomplete
                } else if s[j] != CR || s[j + 1] != LF {
                    Decoded::Malformed
                } else {
                    match spec_decode_elems(s.skip(j + 2), n) {
                        DecodedSeq::Found(vs, k) => Decoded::Found(Resp::Array(vs), j + 2 + k),
                        DecodedSeq::Incomplete => Decoded::Incomplete,
                        DecodedSeq::Malformed => Decoded::Malformed,
                    }
                }
            }
        }
    } else {
        Decoded::Malformed
    }
}

/// Decoding `cnt` consecutive frames from the front of `s`.
pub open spec fn spec_decode_elems(s: Seq<u8>, cnt: nat) -> DecodedSeq
    decreases s.len(), cnt + 1,
{
    if cnt == 0 {
        DecodedSeq::Found(Seq::empty(), 0)
    } else {
        match spec_decode(s) {
            Decoded::Found(m, n) => if 0 <= n <= s.len() {
                match spec_decode_elems(s.skip(n), (cnt - 1) as nat) {
                    DecodedSeq::Found(vs, k) => DecodedSeq::Found(seq![m] + vs, n + k),
                    DecodedSeq::Incomplete => DecodedSeq::Incomplete,
                    DecodedSeq::Malformed => DecodedSeq::Malformed,
                }
            } else {
                DecodedSeq::Malformed
            },
            Decoded::Incomplete => DecodedSeq::Incomplete,
            Decoded::Malformed => DecodedSeq::Malformed,
        }
    }
}

/// Decoding the front of `s` as a snapshot frame: a bulk string without its
/// trailing line break.
pub open spec fn spec_decode_rdb(s: Seq<u8>) -> Decoded {
    if s.len() < 4 {
        Decoded::Incomplete
    } else if s[0] != TAG_BULK {
        Decoded::Malformed
    } else {
        let j = digits_end(s, 1);
        if j == 1 {
            Decoded::Malformed
        } else {
            let n = digits_val(s.subrange(1, j)) as int;
            if n > usize::MAX {
                Decoded::Malformed
            } else if s.len() < j + 2 {
                Decoded::Incomplete
            } else if s[j] != CR || s[j + 1] != LF {
                Decoded::Malformed
            } else if s.len() < j + 2 + n {
                Decoded::Incomplete
            } else {
                Decoded::Found(Resp::Bulk(s.subrange(j + 2, j + 2 + n)), j + 2 + n)
            }
        }
    }
}

/// Why a decode attempt returned nothing: the frame is cut short and more
/// bytes may finish it, a number could not be read, or the framing itself is
/// broken.
#[derive(Debug, PartialEq, Eq)]
pub enum DecodeError {
    NeedMoreBytes,
    CannotDecodeNumber,
    Protocol,
}

/// The models of a sequence, read off element by element.
pub proof fn lemma_dv_seq_index(vs: Seq<Data>)
    ensures
        dv_seq(vs).len() == vs.len(),
        forall|i: int| 0 <= i < vs.len() ==> dv_seq(vs)[i] == #[trigger] vs[i].dv(),
    decreases vs.len(),
{
    if vs.len() > 0 {
        lemma_dv_seq_index(vs.drop_first());
        assert forall|i: int| 0 <= i < vs.len() implies dv_seq(vs)[i] == #[trigger] vs[i].dv() by {
            if i > 0 {
                assert(vs.drop_first()[i - 1] == vs[i]);
                assert(dv_seq(vs)[i] == dv_seq(vs.drop_first())[i - 1]);
            }
        }
    }
}

/// Well-formedness of a sequence, read off element by element.
pub proof fn lemma_resp_wf_seq_index(vs: Seq<Resp>)
    ensures
        resp_wf_seq(vs) <==> (forall|i: int| 0 <= i < vs.len() ==> resp_wf(#[trigger] vs[i])),
    decreases vs.len(),
{
    if vs.len() > 0 {
        lemma_resp_wf_seq_index(vs.drop_first());
        assert(forall|i: int|
            0 < i < vs.len() ==> vs.drop_first()[i - 1] == #[trigger] vs[i]);
        if resp_wf(vs[0]) && resp_wf_seq(vs.drop_first()) {
            assert forall|i: int| 0 <= i < vs.len() implies resp_wf(#[trigger] vs[i]) by {
                if i > 0 {
                    assert(resp_wf(vs.drop_first()[i - 1]));
                }
            }
        }
    }
}

/// Cutting the last element off a sequence cuts its encoding off the back.
pub proof fn lemma_enc_seq_snoc(vs: Seq<Resp>)
    requires
        vs.len() > 0,
    ensures
        enc_seq(vs) == enc_seq(vs.drop_last()) + enc(vs.last()),
    decreases vs.len(),
{
    if vs.len() == 1 {
        assert(vs.drop_last() =~= Seq::empty());
        assert(vs.drop_first() =~= Seq::empty());
        assert(enc_seq(vs) =~= enc(vs[0]) + enc_seq(vs.drop_first()));
        assert(enc_seq(vs) =~= enc_seq(vs.drop_last()) + enc(vs.last()));
    } else {
        lemma_enc_seq_snoc(vs.drop_first());
        assert(vs.drop_first().drop_last() =~= vs.drop_last().drop_first());
        assert(vs.drop_first().last() == vs.last());
        assert(vs.drop_last()[0] == vs[0]);
        assert(vs.drop_last().len() > 0);
        assert(enc_seq(vs.drop_last()) == enc(vs[0]) + enc_seq(vs.drop_last().drop_first()));
        assert(enc_seq(vs) =~= enc_seq(vs.drop_last()) + enc(vs.last()));
    }
}

/// One encoded element at a time: the encoding of the first `i + 1` elements.
pub proof fn lemma_enc_seq_take(vs: Seq<Resp>, i: int)
    requires
        0 <= i < vs.len(),
    ensures
        enc_seq(vs.take(i + 1)) == enc_seq(vs.take(i)) + enc(vs[i]),
{
    assert(vs.take(i + 1).drop_last() =~= vs.take(i));
    assert(vs.take(i + 1).last() == vs[i]);
    lemma_enc_seq_snoc(vs.take(i + 1));
}

fn append_crlf(s: &mut Vec<u8>)
    ensures
        final(s)@ == old(s)@ + crlf(),
{
    s.push(CR);
    s.push(LF);
    assert(s@ =~= old(s)@ + crlf());
}

pub(crate) fn encode_simple_string(s: &Vec<u8>, tag: u8) -> (r: Vec<u8>)
    ensures
        r@ == seq![tag] + s@ + crlf(),
{
    let mut r: Vec<u8> = Vec::new();
    r.push(tag);
    let mut body = vstd::slice::slice_to_vec(s.as_slice());
    r.append(&mut body);
    append_crlf(&mut r);
    assert(r@ =~= seq![tag] + s@ + crlf());
    r
}

pub(crate) fn encode_bulk_string(s: &Vec<u8>) -> (r: Vec<u8>)
    ensures
        r@ == enc(Resp::Bulk(s@)),
{
    let mut r: Vec<u8> = Vec::new();
    r.push(TAG_BULK);
    let mut len_digits = crate::num::u64_digits(s.len() as u64);
    r.append(&mut len_digits);
    append_crlf(&mut r);
    let mut body = vstd::slice::slice_to_vec(s.as_slice());
    r.append(&mut body);
    append_crlf(&mut r);
    assert(r@ =~= enc(Resp::Bulk(s@)));
    r
}

pub(crate) fn encode_null_bulk_string() -> (r: Vec<u8>)
    ensures
        r@ == null_bulk_bytes(),
{
    let mut r: Vec<u8> = Vec::new();
    r.push(TAG_BULK);
    r.push(MINUS);
    r.push(DIGIT_ZERO + 1);
    append_crlf(&mut r);
    assert(r@ =~= null_bulk_bytes());
    r
}

pub(crate) fn encode_integer(i: i64) -> (r: Vec<u8>)
    ensures
        r@ == seq![TAG_INTEGER] + dec_i64(i) + crlf(),
{
    let mut r: Vec<u8> = Vec::new();
    r.push(TAG_INTEGER);
    if i < 0 {
        r.push(MINUS);
        let magnitude: u64 = if i == i64::MIN {
            9223372036854775808u64
        } else {
            (-i) as u64
        };
        assert(magnitude == -(i as int));
        let mut digits = crate::num::u64_digits(magnitude);
        r.append(&mut digits);
    } else {
        let mut digits = crate::num::u64_digits(i as u64);
        r.append(&mut digits);
    }
    append_crlf(&mut r);
    assert(r@ =~= seq![TAG_INTEGER] + dec_i64(i) + crlf());
    r
}

pub(crate) fn encode_array(vs: &Vec<Data>) -> (r: Vec<u8>)
    requires
        resp_wf_seq(dv_seq(vs@)),
    ensures
        r@ == enc(Resp::Array(dv_seq(vs@))),
    decreases vs@, 1int,
{
    proof {
        lemma_dv_seq_index(vs@);
    }
    let ghost vsm = dv_seq(vs@);
    let mut r: Vec<u8> = Vec::new();
    r.push(TAG_ARRAY);
    let mut count_digits = crate::num::u64_digits(vs.len() as u64);
    r.append(&mut count_digits);
    append_crlf(&mut r);
    assert(r@ =~= seq![TAG_ARRAY] + dec_digits(vsm.len()) + crlf());
    let ghost header = r@;
    assert(enc_seq(vsm.take(0)) =~= Seq::empty());
    assert(r@ =~= header + enc_seq(vsm.take(0)));
    let n = vs.len();
    for i in 0..n
        invariant
            n == vs@.len(),
            vsm == dv_seq(vs@),
            vsm.len() == n,
            forall|k: int| 0 <= k < n ==> vsm[k] == #[trigger] vs@[k].dv(),
            resp_wf_seq(vsm),
            r@ == header + enc_seq(vsm.take(i as int)),
        decreases vs@, 0int, n - i,
    {
        proof {
            lemma_resp_wf_seq_index(vsm);
        }
        let mut piece = vs[i].encode();
        r.append(&mut piece);
        proof {
            lemma_enc_seq_take(vsm, i as int);
        }
        assert(r@ =~= header + enc_seq(vsm.take(i + 1 as int)));
    }
    assert(vsm.take(n as int) =~= vsm);
    r
}

pub(crate) fn encode_simple_error(e: &Vec<u8>) -> (r: Vec<u8>)
    ensures
        r@ == seq![TAG_ERROR] + e@ + crlf(),
{
    encode_simple_string(e, TAG_ERROR)
}

/// The encoding of a snapshot payload: its bulk-string encoding with the
/// trailing line break cut off.
pub fn encode_rdb_file(rdb: Vec<u8>) -> (r: Vec<u8>)
    ensures
        r@ == enc_rdb(rdb@),
{
    let as_bulk_string = encode_bulk_string(&rdb);
    let len = as_bulk_string.len();
    let r = vstd::slice::slice_to_vec(vstd::slice::slice_subrange(
        as_bulk_string.as_slice(),
        0,
        len - 2,
    ));
    assert(r@ =~= enc_rdb(rdb@));
    r
}

/// Reads the digit run that starts at `from` and its value.  Returns the
/// value with the position just past the run, or fails when the run is empty
/// or its value does not fit in a machine word.
fn decode_unsigned_int(buf: &[u8], from: usize) -> (r: Result<(usize, usize), DecodeError>)
    requires
        from <= buf@.len(),
    ensures
        ({
            let j = digits_end(buf@, from as int);
            let v = digits_val(buf@.subrange(from as int, j));
            if j == from || v > usize::MAX {
                r matches Err(e) && e == DecodeError::CannotDecodeNumber
            } else {
                r matches Ok(p) && p.0 == v && p.1 == j
            }
        }),
{
    proof {
        crate::num::lemma_digits_end_chars(buf@, from as int);
    }
    let ghost j = digits_end(buf@, from as int);
    let mut i: usize = from;
    let mut v: usize = 0;
    loop
        invariant
            from <= i <= j <= buf@.len(),
            j == digits_end(buf@, from as int),
            forall|k: int| from <= k < j ==> is_digit(#[trigger] buf@[k]),
            j < buf@.len() ==> !is_digit(buf@[j as int]),
            v == digits_val(buf@.subrange(from as int, i as int)),
        ensures
            i == j,
            v == digits_val(buf@.subrange(from as int, j)),
        decreases buf@.len() - i,
    {
        if i >= buf.len() || buf[i] < 48 || buf[i] > 57 {
            assert(i == j);
            break;
        }
        let d: usize = (buf[i] - 48) as usize;
        proof {
            assert(buf@.subrange(from as int, i + 1).drop_last() =~= buf@.subrange(
                from as int,
                i as int,
            ));
        }
        if v > (usize::MAX - d) / 10 {
            proof {
                assert(v * 10 + d > usize::MAX) by (nonlinear_arith)
                    requires
                        v > (usize::MAX - d) / 10,
                        d <= 9,
                ;
                assert(digits_val(buf@.subrange(from as int, i + 1)) == v * 10 + d);
                crate::num::lemma_digits_val_prefix_mono(buf@.skip(from as int), i + 1 - from, j - from);
                assert(buf@.skip(from as int).subrange(0, i + 1 - from) =~= buf@.subrange(
                    from as int,
                    i + 1,
                ));
                assert(buf@.skip(from as int).subrange(0, j - from) =~= buf@.subrange(
                    from as int,
                    j,
                ));
                assert(forall|k: int|
                    0 <= k < j - from ==> is_digit(#[trigger] buf@.skip(from as int)[k]));
            }
            return Err(DecodeError::CannotDecodeNumber);
        }
        assert(v * 10 + d <= usize::MAX) by (nonlinear_arith)
            requires
                v <= (usize::MAX - d) / 10,
                d <= 9,
        ;
        v = v * 10 + d;
        i = i + 1;
    }
    if i == from {
        Err(DecodeError::CannotDecodeNumber)
    } else {
        Ok((v, i))
    }
}

/// Checks for the line break that closes a frame at position `at`.
fn check_crlf(buf: &[u8], at: usize) -> (r: Result<(), DecodeError>)
    ensures
        buf@.len() < at + 2 ==> (r matches Err(e) && e == DecodeError::NeedMoreBytes),
        buf@.len() >= at + 2 && (buf@[at as int] != CR || buf@[at + 1] != LF) ==> (r matches Err(e)
            && e == DecodeError::Protocol),
        buf@.len() >= at + 2 && buf@[at as int] == CR && buf@[at + 1] == LF ==> r is Ok,
{
    if buf.len() < 2 || at > buf.len() - 2 {
        Err(DecodeError::NeedMoreBytes)
    } else if buf[at] != CR || buf[at + 1] != LF {
        Err(DecodeError::Protocol)
    } else {
        Ok(())
    }
}

/// Reads a signed decimal that starts at position 1, as the integer frame
/// holds it.  Returns the value with the position just past the digits.
fn decode_signed_int(buf: &[u8]) -> (r: Result<(i64, usize), DecodeError>)
    requires
        buf@.len() >= 4,
    ensures
        ({
            let s = buf@;
            let ok0 = is_digit(s[1]) || s[1] == MINUS || s[1] == PLUS;
            let neg = s[1] == MINUS;
            let start: int = if neg || s[2] == PLUS {
                2
            } else {
                1
            };
            let j = digits_end(s, start);
            let v = digits_val(s.subrange(start, j));
            let iv: int = if neg {
                -(v as int)
            } else {
                v as int
            };
            if !ok0 || j == start || v > usize::MAX || iv < i64::MIN || iv > i64::MAX {
                r matches Err(e) && e != DecodeError::NeedMoreBytes
            } else {
                r matches Ok(p) && p.0 == iv && p.1 == j
            }
        }),
{
    let b1 = buf[1];
    if !(b1 >= 48 && b1 <= 57 || b1 == MINUS || b1 == PLUS) {
        return Err(DecodeError::CannotDecodeNumber);
    }
    let neg = b1 == MINUS;
    let start: usize = if neg || buf[2] == PLUS {
        2
    } else {
        1
    };
    let (v, j) = match decode_unsigned_int(buf, start) {
        Ok(p) => p,
        Err(e) => {
            return Err(e);
        },
    };
    let v64: u64 = v as u64;
    if neg {
        if v64 > 9223372036854775808u64 {
            return Err(DecodeError::CannotDecodeNumber);
        }
        let iv: i64 = if v64 == 9223372036854775808u64 {
            i64::MIN
        } else {
            -(v64 as i64)
        };
        Ok((iv, j))
    } else {
        if v64 > i64::MAX as u64 {
            return Err(DecodeError::CannotDecodeNumber);
        }
        Ok((v64 as i64, j))
    }
}

/// A found frame always takes at least one byte and never more than the
/// buffer holds.
pub proof fn lemma_spec_decode_bounds(s: Seq<u8>)
    ensures
        (spec_decode(s) matches Decoded::Found(m, n) ==> 1 <= n <= s.len()),
    decreases s.len(), 0int,
{
    if s.len() == 0 {
    } else if s[0] == TAG_ARRAY && s.len() >= 4 {
        let j = digits_end(s, 1);
        if j != 1 && digits_val(s.subrange(1, j)) <= usize::MAX && s.len() >= j + 2 && s[j] == CR
            && s[j + 1] == LF {
            lemma_spec_decode_elems_bounds(s.skip(j + 2), digits_val(s.subrange(1, j)));
        }
    }
}

/// Found element runs take as many bytes as the buffer shows, and exactly
/// as many elements as asked.
pub proof fn lemma_spec_decode_elems_bounds(s: Seq<u8>, cnt: nat)
    ensures
        (spec_decode_elems(s, cnt) matches DecodedSeq::Found(vs, k) ==> 0 <= k <= s.len()
            && vs.len() == cnt),
    decreases s.len(), cnt + 1,
{
    if cnt > 0 {
        lemma_spec_decode_bounds(s);
        match spec_decode(s) {
            Decoded::Found(m, n) => {
                if 0 <= n <= s.len() {
                    lemma_spec_decode_elems_bounds(s.skip(n), (cnt - 1) as nat);
                }
            },
            _ => {},
        }
    }
}

/// Reads a line frame: everything between the tag and the first carriage
/// return.
fn decode_simple_string(buf: &[u8]) -> (r: Result<(Data, usize), DecodeError>)
    requires
        buf@.len() >= 1,
        buf@[0] == TAG_SIMPLE || buf@[0] == TAG_ERROR,
    ensures
        ({
            match spec_decode_simple(buf@, buf@[0]) {
                Decoded::Found(m, n) => r matches Ok(p) && p.0.dv() == m && p.1 == n,
                Decoded::Incomplete => r matches Err(e) && e == DecodeError::NeedMoreBytes,
                Decoded::Malformed => r matches Err(e) && e != DecodeError::NeedMoreBytes,
            }
        }),
{
    if buf.len() < 3 {
        return Err(DecodeError::NeedMoreBytes);
    }
    proof {
        crate::num::lemma_find_cr_chars(buf@, 1);
    }
    let ghost fc = find_cr(buf@, 1);
    let mut curr: usize = 1;
    loop
        invariant
            1 <= curr <= fc <= buf@.len(),
            fc == find_cr(buf@, 1),
            forall|k: int| 1 <= k < fc ==> buf@[k] != CR,
            fc < buf@.len() ==> buf@[fc as int] == CR,
        ensures
            curr == fc,
        decreases buf@.len() - curr,
    {
        if curr >= buf.len() || buf[curr] == CR {
            assert(curr == fc);
            break;
        }
        curr = curr + 1;
    }
    if buf.len() - curr < 2 {
        return Err(DecodeError::NeedMoreBytes);
    }
    if buf[curr + 1] != LF {
        return Err(DecodeError::Protocol);
    }
    let payload = vstd::slice::slice_to_vec(vstd::slice::slice_subrange(buf, 1, curr));
    if buf[0] == TAG_SIMPLE {
        Ok((Data::SimpleString(payload), curr + 2))
    } else {
        Ok((Data::SimpleError(payload), curr + 2))
    }
}

/// Reads an integer frame.
fn decode_integer(buf: &[u8]) -> (r: Result<(Data, usize), DecodeError>)
    requires
        buf@.len() >= 1,
        buf@[0] == TAG_INTEGER,
    ensures
        ({
            match spec_decode_integer(buf@) {
                Decoded::Found(m, n) => r matches Ok(p) && p.0.dv() == m && p.1 == n,
                Decoded::Incomplete => r matches Err(e) && e == DecodeError::NeedMoreBytes,
                Decoded::Malformed => r matches Err(e) && e != DecodeError::NeedMoreBytes,
            }
        }),
{
    if buf.len() < 4 {
        return Err(DecodeError::NeedMoreBytes);
    }
    let (iv, j) = match decode_signed_int(buf) {
        Ok(p) => p,
        Err(e) => {
            return Err(if matches!(e, DecodeError::NeedMoreBytes) {
                DecodeError::Protocol
            } else {
                e
            });
        },
    };
    match check_crlf(buf, j) {
        Err(e) => Err(e),
        Ok(()) => Ok((Data::Integer(iv), j + 2)),
    }
}

/// Reads a bulk-string frame, the null bulk string included.
fn decode_bulk_string(buf: &[u8]) -> (r: Result<(Data, usize), DecodeError>)
    requires
        buf@.len() >= 1,
        buf@[0] == TAG_BULK,
    ensures
        ({
            match spec_decode_bulk(buf@) {
                Decoded::Found(m, n) => r matches Ok(p) && p.0.dv() == m && p.1 == n,
                Decoded::Incomplete => r matches Err(e) && e == DecodeError::NeedMoreBytes,
                Decoded::Malformed => r matches Err(e) && e != DecodeError::NeedMoreBytes,
            }
        }),
{
    if buf.len() < 4 {
        return Err(DecodeError::NeedMoreBytes);
    }
    if buf[1] == MINUS {
        if buf.len() < 5 {
            return Err(DecodeError::NeedMoreBytes);
        }
        if buf[2] == DIGIT_ZERO + 1 && buf[3] == CR && buf[4] == LF {
            assert(buf@.subrange(0, 5) =~= null_bulk_bytes());
            Ok((Data::NullBulkString, 5))
        } else {
            assert(buf@.subrange(0, 5) != null_bulk_bytes()) by {
                if buf@.subrange(0, 5) == null_bulk_bytes() {
                    assert(buf@.subrange(0, 5)[2] == (DIGIT_ZERO + 1) as u8);
                    assert(buf@.subrange(0, 5)[3] == CR);
                    assert(buf@.subrange(0, 5)[4] == LF);
                }
            }
            Err(DecodeError::Protocol)
        }
    } else {
        let (length, j) = match decode_unsigned_int(buf, 1) {
            Ok(p) => p,
            Err(e) => {
                return Err(e);
            },
        };
        if let Err(e) = check_crlf(buf, j) {
            return Err(e);
        }
        if buf.len() - (j + 2) < length {
            return Err(DecodeError::NeedMoreBytes);
        }
        if buf.len() - (j + 2) - length < 2 {
            return Err(DecodeError::NeedMoreBytes);
        }
        if buf[j + 2 + length] != CR || buf[j + 3 + length] != LF {
            return Err(DecodeError::Protocol);
        }
        let payload = vstd::slice::slice_to_vec(vstd::slice::slice_subrange(
            buf,
            j + 2,
            j + 2 + length,
        ));
        Ok((Data::BulkString(payload), j + 4 + length))
    }
}

/// Reads an array frame: a count, then that many frames back to back.
#[verifier::loop_isolation(false)]
fn decode_array(buf: &[u8]) -> (r: Result<(Data, usize), DecodeError>)
    requires
        buf@.len() >= 1,
        buf@[0] == TAG_ARRAY,
    ensures
        ({
            match spec_decode(buf@) {
                Decoded::Found(m, n) => r matches Ok(p) && p.0.dv() == m && p.1 == n,
                Decoded::Incomplete => r matches Err(e) && e == DecodeError::NeedMoreBytes,
                Decoded::Malformed => r matches Err(e) && e != DecodeError::NeedMoreBytes,
            }
        }),
    decreases buf@.len(), 0int,
{
    if buf.len() < 4 {
        return Err(DecodeError::NeedMoreBytes);
    }
    let (count, j) = match decode_unsigned_int(buf, 1) {
        Ok(p) => p,
        Err(e) => {
            return Err(e);
        },
    };
    if let Err(e) = check_crlf(buf, j) {
        return Err(e);
    }
    let start = j + 2;
    let ghost s = buf@;
    let mut values: Vec<Data> = Vec::new();
    let mut curr: usize = start;
    let mut i: usize = 0;
    assert(dv_seq(values@) =~= Seq::<Resp>::empty());
    proof {
        match spec_decode_elems(s.skip(start as int), count as nat) {
            DecodedSeq::Found(vs, k) => {
                assert(vs =~= dv_seq(values@) + vs);
            },
            _ => {},
        }
    }
    while i < count
        invariant
            s == buf@,
            buf@.len() >= 4,
            start as int == j + 2,
            4 <= start <= curr <= s.len(),
            i <= count,
            values@.len() == i,
            ({
                match spec_decode_elems(s.skip(start as int), count as nat) {
                    DecodedSeq::Found(vs, k) => spec_decode_elems(
                        s.skip(curr as int),
                        (count - i) as nat,
                    ) matches DecodedSeq::Found(rest, krest) && vs == dv_seq(values@) + rest && k
                        == (curr - start) + krest,
                    DecodedSeq::Incomplete => spec_decode_elems(
                        s.skip(curr as int),
                        (count - i) as nat,
                    ) is Incomplete,
                    DecodedSeq::Malformed => spec_decode_elems(
                        s.skip(curr as int),
                        (count - i) as nat,
                    ) is Malformed,
                }
            }),
        decreases count - i,
    {
        let sub = vstd::slice::slice_subrange(buf, curr, buf.len());
        assert(sub@ =~= s.skip(curr as int));
        let (element, n) = match Data::decode(sub) {
            Ok(p) => p,
            Err(e) => {
                proof {
                    reveal_with_fuel(spec_decode_elems, 2);
                }
                return Err(e);
            },
        };
        proof {
            reveal_with_fuel(spec_decode_elems, 2);
            lemma_spec_decode_bounds(sub@);
            assert(1 <= n <= s.len() - curr);
            lemma_dv_seq_snoc(values@, element);
            assert(s.skip(curr as int).skip(n as int) =~= s.skip(curr + n));
        }
        let ghost old_values = values@;
        values.push(element);
        assert(values@ =~= old_values.push(element));
        curr = curr + n;
        i = i + 1;
        proof {
            match spec_decode_elems(s.skip(start as int), count as nat) {
                DecodedSeq::Found(vs, k) => {
                    match spec_decode_elems(s.skip(curr as int), (count - i) as nat) {
                        DecodedSeq::Found(rest, krest) => {
                            assert(vs =~= dv_seq(values@) + rest);
                        },
                        _ => {},
                    }
                },
                _ => {},
            }
        }
    }
    proof {
        reveal_with_fuel(spec_decode_elems, 1);
        assert(spec_decode_elems(s.skip(curr as int), 0nat) matches DecodedSeq::Found(e0, k0)
            && e0 == Seq::<Resp>::empty() && k0 == 0);
        match spec_decode_elems(s.skip(start as int), count as nat) {
            DecodedSeq::Found(vs, k) => {
                assert(vs =~= dv_seq(values@));
            },
            _ => {},
        }
    }
    Ok((Data::Array(values), curr))
}

/// The model grows by one element at the back.
pub proof fn lemma_dv_seq_snoc(vs: Seq<Data>, d: Data)
    ensures
        dv_seq(vs.push(d)) == dv_seq(vs) + seq![d.dv()],
    decreases vs.len(),
{
    if vs.len() == 0 {
        assert(vs.push(d).drop_first() =~= Seq::empty());
        assert(dv_seq(vs.push(d)) =~= dv_seq(vs) + seq![d.dv()]);
    } else {
        lemma_dv_seq_snoc(vs.drop_first(), d);
        assert(vs.push(d).drop_first() =~= vs.drop_first().push(d));
        assert(vs.push(d)[0] == vs[0]);
        assert(vs.push(d).len() == vs.len() + 1);
        assert(dv_seq(vs.push(d)) == seq![vs.push(d)[0].dv()] + dv_seq(vs.push(d).drop_first()));
        assert(dv_seq(vs.push(d).drop_first()) == dv_seq(vs.drop_first()) + seq![d.dv()]);
        assert(dv_seq(vs) == seq![vs[0].dv()] + dv_seq(vs.drop_first()));
        assert(dv_seq(vs.push(d)) =~= dv_seq(vs) + seq![d.dv()]);
    }
}

/// Reads the front of `buf` as a snapshot frame: a bulk string without the
/// trailing line break.  Returns the payload and how many bytes it took.
pub fn decode_rdb_file(buf: &[u8]) -> (r: Result<(Vec<u8>, usize), DecodeError>)
    ensures
        ({
            match spec_decode_rdb(buf@) {
                Decoded::Found(m, n) => r matches Ok(p) && m matches Resp::Bulk(b) && p.0@ == b
                    && p.1 == n,
                Decoded::Incomplete => r matches Err(e) && e == DecodeError::NeedMoreBytes,
                Decoded::Malformed => r matches Err(e) && e != DecodeError::NeedMoreBytes,
            }
        }),
{
    if buf.len() < 4 {
        return Err(DecodeError::NeedMoreBytes);
    }
    if buf[0] != TAG_BULK {
        return Err(DecodeError::Protocol);
    }
    let (length, j) = match decode_unsigned_int(buf, 1) {
        Ok(p) => p,
        Err(e) => {
            return Err(e);
        },
    };
    if let Err(e) = check_crlf(buf, j) {
        return Err(e);
    }
    if buf.len() - (j + 2) < length {
        return Err(DecodeError::NeedMoreBytes);
    }
    let payload = vstd::slice::slice_to_vec(vstd::slice::slice_subrange(
        buf,
        j + 2,
        j + 2 + length,
    ));
    Ok((payload, j + 2 + length))
}

impl Data {
    /// The wire bytes of this value.
    pub fn encode(&self) -> (r: Vec<u8>)
        requires
            resp_wf(self.dv()),
        ensures
            r@ == enc(self.dv()),
        decreases self, 0int,
    {
        match self {
            Data::SimpleString(s) => encode_simple_string(s, TAG_SIMPLE),
            Data::BulkString(s) => encode_bulk_string(s),
            Data::NullBulkString => encode_null_bulk_string(),
            Data::Integer(i) => encode_integer(*i),
            Data::Array(arr) => encode_array(arr),
            Data::SimpleError(e) => encode_simple_error(e),
            Data::Unknown(_) => Vec::new(),
        }
    }

    /// Reads the front of `buf` as one frame.  Succeeds exactly when the
    /// model decoder finds a value, with the same value and byte count;
    /// reports `NeedMoreBytes` exactly when the frame is cut short.
    pub fn decode(buf: &[u8]) -> (r: Result<(Data, usize), DecodeError>)
        ensures
            ({
                match spec_decode(buf@) {
                    Decoded::Found(m, n) => r matches Ok(p) && p.0.dv() == m && p.1 == n,
                    Decoded::Incomplete => r matches Err(e) && e == DecodeError::NeedMoreBytes,
                    Decoded::Malformed => r matches Err(e) && e != DecodeError::NeedMoreBytes,
                }
            }),
        decreases buf@.len(), 1int,
    {
        if buf.len() == 0 {
            return Err(DecodeError::NeedMoreBytes);
        }
        let b0 = buf[0];
        if b0 == TAG_SIMPLE || b0 == TAG_ERROR {
            decode_simple_string(buf)
        } else if b0 == TAG_INTEGER {
            decode_integer(buf)
        } else if b0 == TAG_BULK {
            decode_bulk_string(buf)
        } else if b0 == TAG_ARRAY {
            decode_array(buf)
        } else {
            Err(DecodeError::Protocol)
        }
    }

    /// How many bytes this value takes on the wire.
    pub fn num_bytes(&self) -> (r: usize)
        requires
            resp_wf(self.dv()),
            enc(self.dv()).len() <= usize::MAX,
        ensures
            r == enc(self.dv()).len(),
        decreases self, 0int,
    {
        match self {
            Data::SimpleString(s) => 1 + s.len() + 2,
            Data::BulkString(s) => 1 + crate::num::u64_digit_count(s.len() as u64) + 2 + s.len()
                + 2,
            Data::NullBulkString => 5,
            Data::Integer(i) => {
                if *i < 0 {
                    let magnitude: u64 = if *i == i64::MIN {
                        9223372036854775808u64
                    } else {
                        (-*i) as u64
                    };
                    assert(magnitude == -(*i as int));
                    1 + (1 + crate::num::u64_digit_count(magnitude)) + 2
                } else {
                    1 + crate::num::u64_digit_count(*i as u64) + 2
                }
            },
            Data::Array(vs) => num_bytes_array(vs),
            Data::SimpleError(e) => 1 + e.len() + 2,
            Data::Unknown(_) => usize::MAX,
        }
    }

    /// The payload of a simple or bulk string as text, when it is valid
    /// UTF-8; nothing for the other shapes.
    pub fn get_string(&self) -> (r: Option<String>)
        ensures
            ({
                match self {
                    Data::SimpleString(s) | Data::BulkString(s) => {
                        &&& (r is Some <==> vstd::utf8::valid_utf8(s@))
                        &&& (r matches Some(t) ==> t@ == vstd::utf8::decode_utf8(s@))
                    },
                    _ => r is None,
                }
            }),
    {
        match self {
            Data::SimpleString(s) | Data::BulkString(s) => {
                let copy = vstd::slice::slice_to_vec(s.as_slice());
                bytes_to_string(copy)
            },
            _ => None,
        }
    }
}

/// How many bytes an array frame takes on the wire.
fn num_bytes_array(vs: &Vec<Data>) -> (r: usize)
    requires
        resp_wf(Resp::Array(dv_seq(vs@))),
        enc(Resp::Array(dv_seq(vs@))).len() <= usize::MAX,
    ensures
        r == enc(Resp::Array(dv_seq(vs@))).len(),
    decreases vs@, 1int,
{
    proof {
        lemma_dv_seq_index(vs@);
        lemma_resp_wf_seq_index(dv_seq(vs@));
    }
    let ghost vsm = dv_seq(vs@);
    let dc = crate::num::u64_digit_count(vs.len() as u64);
    let mut total: usize = 1 + dc + 2;
    assert(enc_seq(vsm.take(0)) =~= Seq::empty());
    let n = vs.len();
    for i in 0..n
        invariant
            n == vs@.len(),
            vsm == dv_seq(vs@),
            vsm.len() == n,
            forall|k: int| 0 <= k < n ==> vsm[k] == #[trigger] vs@[k].dv(),
            forall|k: int| 0 <= k < n ==> resp_wf(#[trigger] vsm[k]),
            resp_wf(Resp::Array(vsm)),
            enc(Resp::Array(vsm)).len() <= usize::MAX,
            dc == dec_digits(n as nat).len(),
            total == 1 + dc + 2 + enc_seq(vsm.take(i as int)).len(),
        decreases vs@, 0int, n - i,
    {
        proof {
            lemma_enc_seq_split(vsm, i as int);
            lemma_enc_seq_take(vsm, i as int);
            assert(vsm.skip(i as int)[0] == vsm[i as int]);
            assert(vsm.skip(i as int).drop_first() =~= vsm.skip(i + 1));
            assert(enc_seq(vsm.skip(i as int)) == enc(vsm[i as int]) + enc_seq(vsm.skip(i + 1)));
        }
        let piece = vs[i].num_bytes();
        total = total + piece;
    }
    assert(vsm.take(n as int) =~= vsm);
    total
}

/// Splitting a sequence splits its encoding.
proof fn lemma_enc_seq_split(vs: Seq<Resp>, i: int)
    requires
        0 <= i <= vs.len(),
    ensures
        enc_seq(vs) == enc_seq(vs.take(i)) + enc_seq(vs.skip(i)),
    decreases i,
{
    if i == 0 {
        assert(vs.take(0) =~= Seq::empty());
        assert(vs.skip(0) =~= vs);
        assert(enc_seq(vs) =~= enc_seq(vs.take(0)) + enc_seq(vs.skip(0)));
    } else {
        lemma_enc_seq_split(vs, i - 1);
        lemma_enc_seq_take(vs, i - 1);
        assert(vs.skip(i - 1)[0] == vs[i - 1]);
        assert(vs.skip(i - 1).drop_first() =~= vs.skip(i));
        assert(vs.skip(i - 1).len() > 0);
        assert(enc_seq(vs.skip(i - 1)) == enc(vs[i - 1]) + enc_seq(vs.skip(i)));
        assert(enc_seq(vs) =~= enc_seq(vs.take(i)) + enc_seq(vs.skip(i)));
    }
}

/// Relies on `String::from_utf8`: it succeeds exactly on valid UTF-8 and
/// returns the decoded characters.
#[verifier::external_body]
pub(crate) fn bytes_to_string(v: Vec<u8>) -> (r: Option<String>)
    ensures
        r is Some <==> vstd::utf8::valid_utf8(v@),
        r matches Some(s) ==> s@ == vstd::utf8::decode_utf8(v@),
{
    String::from_utf8(v).ok()
}

} // verus!
