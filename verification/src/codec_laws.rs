//! The codec's two laws: a round trip through encode and decode gives the
//! value back, and a decoder fed any strict prefix of an encoding asks for
//! more bytes rather than failing.
use vstd::prelude::*;

use crate::num::dec_digits;
use crate::num::digits_end;
use crate::num::digits_val;
use crate::num::find_cr;
use crate::num::is_digit;
use crate::num::lemma_dec_digits_are_digits;
use crate::num::lemma_digits_end_run;
use crate::num::lemma_digits_val_dec_digits;
use crate::num::lemma_find_cr_run;
use crate::resp::crlf;
use crate::resp::enc;
use crate::resp::enc_seq;
use crate::resp::null_bulk_bytes;
use crate::resp::resp_wf;
use crate::resp::resp_wf_seq;
use crate::resp::spec_decode;
use crate::resp::spec_decode_elems;
use crate::resp::Decoded;
use crate::resp::DecodedSeq;
use crate::resp::Resp;
use crate::resp::CR;
use crate::resp::LF;
use crate::resp::MINUS;
use crate::resp::PLUS;
use crate::resp::TAG_ARRAY;
use crate::resp::TAG_BULK;
use crate::resp::TAG_ERROR;
use crate::resp::TAG_INTEGER;
use crate::resp::TAG_SIMPLE;

verus! {

broadcast use
    crate::num::lemma_digits_end_bounds,
    crate::num::lemma_find_cr_bounds,
;

/// A buffer that starts with a tag, the shortest decimal form of `v` and a
/// line break scans as exactly those digits.
proof fn lemma_header(s: Seq<u8>, tag: u8, v: nat, tail: Seq<u8>)
    requires
        s == seq![tag] + dec_digits(v) + crlf() + tail,
    ensures
        ({
            let j: int = 1 + dec_digits(v).len() as int;
            &&& digits_end(s, 1) == j
            &&& digits_val(s.subrange(1, j)) == v
            &&& 2 <= j
            &&& j + 2 <= s.len()
            &&& s[j] == CR
            &&& s[j + 1] == LF
            &&& s.skip(j + 2) == tail
            &&& s[0] == tag
        }),
{
    let dd = dec_digits(v);
    let j: int = 1 + dd.len() as int;
    lemma_dec_digits_are_digits(v);
    assert(s.len() == 1 + dd.len() + 2 + tail.len());
    assert(forall|t: int| 0 <= t < dd.len() ==> s[1 + t] == #[trigger] dd[t]);
    assert(s[j] == CR);
    assert(s[j + 1] == LF);
    assert(forall|k: int| 1 <= k < j ==> is_digit(#[trigger] s[k]));
    assert(!is_digit(CR)) by {
        assert(CR == 13);
    }
    lemma_digits_end_run(s, 1, j);
    assert(s.subrange(1, j) =~= dd);
    lemma_digits_val_dec_digits(v);
    assert(s.skip(j + 2) =~= tail);
}

/// Feeding the decoder an encoded value followed by anything gives the value
/// back, consuming exactly the encoding.
pub proof fn lemma_enc_decode(m: Resp, rest: Seq<u8>)
    requires
        resp_wf(m),
    ensures
        spec_decode(enc(m) + rest) == Decoded::Found(m, enc(m).len() as int),
    decreases m, 0int,
{
    let s = enc(m) + rest;
    assert(forall|t: int| 0 <= t < enc(m).len() ==> s[t] == #[trigger] enc(m)[t]);
    match m {
        Resp::Simple(p) => {
            lemma_enc_decode_line(m, p, TAG_SIMPLE, rest);
        },
        Resp::Error(p) => {
            lemma_enc_decode_line(m, p, TAG_ERROR, rest);
        },
        Resp::NullBulk => {
            assert(s.len() >= 5);
            assert(s[0] == TAG_BULK);
            assert(s[1] == MINUS);
            assert(s.subrange(0, 5) =~= null_bulk_bytes());
        },
        Resp::Int(i) => {
            let mag: nat = if i < 0 {
                (-(i as int)) as nat
            } else {
                i as nat
            };
            let dd = dec_digits(mag);
            lemma_dec_digits_are_digits(mag);
            lemma_digits_val_dec_digits(mag);
            if i < 0 {
                assert(enc(m) =~= seq![TAG_INTEGER, MINUS] + dd + crlf());
                let j: int = 2 + dd.len() as int;
                assert(forall|t: int| 0 <= t < dd.len() ==> s[2 + t] == #[trigger] dd[t]);
                assert(forall|k: int| 2 <= k < j ==> is_digit(#[trigger] s[k]));
                assert(s[j] == CR && s[j + 1] == LF);
                assert(!is_digit(CR)) by {
                    assert(CR == 13);
                }
                lemma_digits_end_run(s, 2, j);
                assert(s.subrange(2, j) =~= dd);
                assert(s[1] == MINUS);
                assert(s.len() >= 4);
                assert(spec_decode(s) == Decoded::Found(m, enc(m).len() as int));
            } else {
                assert(enc(m) =~= seq![TAG_INTEGER] + dd + crlf());
                let j: int = 1 + dd.len() as int;
                assert(forall|t: int| 0 <= t < dd.len() ==> s[1 + t] == #[trigger] dd[t]);
                assert(forall|k: int| 1 <= k < j ==> is_digit(#[trigger] s[k]));
                assert(s[j] == CR && s[j + 1] == LF);
                assert(!is_digit(CR)) by {
                    assert(CR == 13);
                }
                lemma_digits_end_run(s, 1, j);
                assert(s.subrange(1, j) =~= dd);
                assert(is_digit(s[1]));
                assert(s[1] != MINUS && s[2] != PLUS) by {
                    assert(is_digit(s[1]));
                    if dd.len() >= 2 {
                        assert(is_digit(s[2]));
                    } else {
                        assert(s[2] == CR);
                    }
                }
                assert(s.len() >= 4);
                assert(spec_decode(s) == Decoded::Found(m, enc(m).len() as int));
            }
        },
        Resp::Bulk(p) => {
            let dd = dec_digits(p.len());
            let tail = p + crlf() + rest;
            assert(s =~= seq![TAG_BULK] + dd + crlf() + tail);
            lemma_header(s, TAG_BULK, p.len(), tail);
            let j: int = 1 + dd.len() as int;
            assert(s[1] != MINUS) by {
                lemma_dec_digits_are_digits(p.len());
                assert(s[1] == dd[0]);
            }
            assert(j != 1);
            let n = p.len() as int;
            assert(s.len() == j + 4 + n + rest.len());
            assert(forall|t: int| 0 <= t < n ==> s[j + 2 + t] == #[trigger] p[t]);
            assert(s[j + 2 + n] == CR && s[j + 3 + n] == LF);
            assert(s.subrange(j + 2, j + 2 + n) =~= p);
            assert(spec_decode(s) == Decoded::Found(m, enc(m).len() as int));
        },
        Resp::Array(vs) => {
            let dd = dec_digits(vs.len());
            let tail = enc_seq(vs) + rest;
            assert(s =~= seq![TAG_ARRAY] + dd + crlf() + tail);
            lemma_header(s, TAG_ARRAY, vs.len(), tail);
            let j: int = 1 + dd.len() as int;
            assert(j != 1);
            assert(s.len() >= 4);
            lemma_enc_seq_decode(vs, rest);
            assert(spec_decode(s) == Decoded::Found(m, enc(m).len() as int));
        },
        Resp::Unknown(_) => {
            assert(false);
        },
    }
}

/// The line-framed cases of `lemma_enc_decode`: simple strings and errors.
proof fn lemma_enc_decode_line(m: Resp, p: Seq<u8>, tag: u8, rest: Seq<u8>)
    requires
        resp_wf(m),
        tag == TAG_SIMPLE ==> m == Resp::Simple(p),
        tag == TAG_ERROR ==> m == Resp::Error(p),
        tag == TAG_SIMPLE || tag == TAG_ERROR,
        !p.contains(CR),
    ensures
        spec_decode(enc(m) + rest) == Decoded::Found(m, enc(m).len() as int),
{
    let s = enc(m) + rest;
    assert(enc(m) == seq![tag] + p + crlf());
    assert(s.len() == p.len() + 3 + rest.len());
    assert(s[0] == tag);
    assert(forall|t: int| 0 <= t < p.len() ==> s[1 + t] == #[trigger] p[t]);
    let j = 1 + p.len() as int;
    assert(s[j] == CR && s[j + 1] == LF);
    assert(forall|k: int| 1 <= k < j ==> s[k] != 13) by {
        assert(forall|t: int| 0 <= t < p.len() ==> p[t] != CR);
    }
    lemma_find_cr_run(s, 1, j);
    assert(s.subrange(1, j) =~= p);
    assert(spec_decode(s) == Decoded::Found(m, enc(m).len() as int));
}

/// Feeding the decoder the encodings of a run of values followed by anything
/// gives the values back in order.
pub proof fn lemma_enc_seq_decode(vs: Seq<Resp>, rest: Seq<u8>)
    requires
        resp_wf_seq(vs),
    ensures
        spec_decode_elems(enc_seq(vs) + rest, vs.len()) == DecodedSeq::Found(
            vs,
            enc_seq(vs).len() as int,
        ),
    decreases vs, 1int,
{
    let s = enc_seq(vs) + rest;
    if vs.len() == 0 {
        assert(vs =~= Seq::<Resp>::empty());
        assert(spec_decode_elems(s, 0) == DecodedSeq::Found(Seq::<Resp>::empty(), 0));
    } else {
        let head = vs[0];
        let tail_vs = vs.drop_first();
        let tail_bytes = enc_seq(tail_vs) + rest;
        assert(s =~= enc(head) + tail_bytes);
        lemma_enc_decode(head, tail_bytes);
        let n0 = enc(head).len() as int;
        assert(0 <= n0 <= s.len());
        assert(s.skip(n0) =~= tail_bytes);
        lemma_enc_seq_decode(tail_vs, rest);
        assert(seq![head] + tail_vs =~= vs);
        assert(spec_decode_elems(s, vs.len()) == DecodedSeq::Found(
            vs,
            enc_seq(vs).len() as int,
        ));
    }
}

/// Whatever the decoder finds is well formed, and its canonical encoding
/// never takes more bytes than the decoder consumed.
pub proof fn lemma_decode_wf(s: Seq<u8>)
    ensures
        (spec_decode(s) matches Decoded::Found(m, n) ==> resp_wf(m) && enc(m).len() <= n),
    decreases s.len(), 0int,
{
    broadcast use crate::num::lemma_digits_end_chars, crate::num::lemma_find_cr_chars;

    if s.len() == 0 {
        return ;
    }
    if s[0] == TAG_SIMPLE || s[0] == TAG_ERROR {
        match spec_decode(s) {
            Decoded::Found(m, n) => {
                let j = find_cr(s, 1);
                let p = s.subrange(1, j);
                assert(!p.contains(CR)) by {
                    if p.contains(CR) {
                        let t = choose|t: int| 0 <= t < p.len() && p[t] == CR;
                        assert(s[1 + t] == CR);
                    }
                }
                assert(enc(m).len() == j + 2);
            },
            _ => {},
        }
    } else if s[0] == TAG_INTEGER {
        match spec_decode(s) {
            Decoded::Found(m, n) => {
                let neg = s[1] == MINUS;
                let start: int = if neg || s[2] == PLUS {
                    2
                } else {
                    1
                };
                let j = digits_end(s, start);
                let run = s.subrange(start, j);
                let v = digits_val(run);
                assert(forall|t: int| 0 <= t < run.len() ==> is_digit(#[trigger] run[t]));
                crate::num::lemma_dec_digits_shortest(run);
                assert(dec_digits(v).len() <= j - start);
                if neg && v > 0 {
                    assert(enc(m).len() == 1 + (1 + dec_digits(v).len()) + 2);
                } else {
                    crate::num::lemma_dec_digits_are_digits(v);
                    assert(enc(m).len() == 1 + dec_digits(v).len() + 2);
                }
            },
            _ => {},
        }
    } else if s[0] == TAG_BULK {
        match spec_decode(s) {
            Decoded::Found(m, n) => {
                if s[1] != MINUS {
                    let j = digits_end(s, 1);
                    let run = s.subrange(1, j);
                    assert(forall|t: int| 0 <= t < run.len() ==> is_digit(#[trigger] run[t]));
                    crate::num::lemma_dec_digits_shortest(run);
                    assert(enc(m).len() == 1 + dec_digits(digits_val(run)).len() + 2 + digits_val(
                        run,
                    ) + 2);
                }
            },
            _ => {},
        }
    } else if s[0] == TAG_ARRAY {
        match spec_decode(s) {
            Decoded::Found(m, n) => {
                let j = digits_end(s, 1);
                let run = s.subrange(1, j);
                let cnt = digits_val(run);
                assert(forall|t: int| 0 <= t < run.len() ==> is_digit(#[trigger] run[t]));
                crate::num::lemma_dec_digits_shortest(run);
                lemma_decode_elems_wf(s.skip(j + 2), cnt);
                match spec_decode_elems(s.skip(j + 2), cnt) {
                    DecodedSeq::Found(vs, k) => {
                        assert(enc(m).len() == 1 + dec_digits(vs.len()).len() + 2 + enc_seq(
                            vs,
                        ).len());
                    },
                    _ => {},
                }
            },
            _ => {},
        }
    }
}

/// The run form of `lemma_decode_wf`.
proof fn lemma_decode_elems_wf(s: Seq<u8>, cnt: nat)
    ensures
        (spec_decode_elems(s, cnt) matches DecodedSeq::Found(vs, k) ==> resp_wf_seq(vs)
            && enc_seq(vs).len() <= k && vs.len() == cnt),
    decreases s.len(), cnt + 1,
{
    if cnt == 0 {
        assert(resp_wf_seq(Seq::<Resp>::empty()));
    } else {
        lemma_decode_wf(s);
        match spec_decode(s) {
            Decoded::Found(m, n) => {
                if 0 <= n <= s.len() {
                    lemma_decode_elems_wf(s.skip(n), (cnt - 1) as nat);
                    match spec_decode_elems(s.skip(n), (cnt - 1) as nat) {
                        DecodedSeq::Found(vs2, k2) => {
                            let vs = seq![m] + vs2;
                            assert(vs[0] == m);
                            assert(vs.drop_first() =~= vs2);
                            assert(resp_wf_seq(vs));
                            assert(enc_seq(vs) == enc(m) + enc_seq(vs2));
                        },
                        _ => {},
                    }
                }
            },
            _ => {},
        }
    }
}

/// Round trip: decoding an encoded value gives the value back and consumes
/// every byte of the encoding.
pub proof fn lemma_round_trip(m: Resp)
    requires
        resp_wf(m),
    ensures
        spec_decode(enc(m)) == Decoded::Found(m, enc(m).len() as int),
{
    assert(enc(m) + Seq::<u8>::empty() =~= enc(m));
    lemma_enc_decode(m, Seq::<u8>::empty());
}

/// The value of a prefix of a digit run never exceeds the run's value.
proof fn lemma_digit_prefix_le(dd: Seq<u8>, t: int)
    requires
        forall|k: int| 0 <= k < dd.len() ==> is_digit(#[trigger] dd[k]),
        0 <= t <= dd.len(),
    ensures
        digits_val(dd.subrange(0, t)) <= digits_val(dd),
{
    crate::num::lemma_digits_val_prefix_mono(dd, t, dd.len() as int);
    assert(dd.subrange(0, dd.len() as int) =~= dd);
}

/// Incremental framing: on any strict prefix of an encoding, the decoder
/// asks for more bytes.
#[verifier::rlimit(100)]
pub proof fn lemma_incremental_framing(m: Resp, k: int)
    requires
        resp_wf(m),
        0 <= k < enc(m).len(),
    ensures
        spec_decode(enc(m).take(k)) == Decoded::Incomplete,
    decreases m, 0int,
{
    let s = enc(m).take(k);
    assert(s.len() == k);
    assert(forall|t: int| 0 <= t < k ==> s[t] == #[trigger] enc(m)[t]);
    if k == 0 {
        return ;
    }
    match m {
        Resp::Simple(p) => {
            lemma_incremental_line(p, TAG_SIMPLE, k);
        },
        Resp::Error(p) => {
            lemma_incremental_line(p, TAG_ERROR, k);
        },
        Resp::NullBulk => {
            assert(s[0] == TAG_BULK);
            if k == 4 {
                assert(s[1] == MINUS);
            }
        },
        Resp::Int(i) => {
            let mag: nat = if i < 0 {
                (-(i as int)) as nat
            } else {
                i as nat
            };
            let dd = dec_digits(mag);
            let off: int = if i < 0 {
                2
            } else {
                1
            };
            let jf: int = off + dd.len() as int;
            lemma_dec_digits_are_digits(mag);
            lemma_digits_val_dec_digits(mag);
            if i < 0 {
                assert(enc(m) =~= seq![TAG_INTEGER, MINUS] + dd + crlf());
            } else {
                assert(enc(m) =~= seq![TAG_INTEGER] + dd + crlf());
            }
            assert(enc(m).len() == jf + 2);
            assert(forall|t: int| 0 <= t < dd.len() ==> enc(m)[off + t] == #[trigger] dd[t]);
            assert(enc(m)[jf] == CR && enc(m)[jf + 1] == LF);
            if k >= 4 {
                assert(s[0] == TAG_INTEGER);
                assert(i < 0 ==> s[1] == MINUS);
                assert(i >= 0 ==> is_digit(s[1]));
                assert(i >= 0 ==> s[2] != PLUS) by {
                    if i >= 0 {
                        if dd.len() >= 2 {
                            assert(s[2] == dd[1]);
                        } else {
                            assert(s[2] == CR);
                        }
                    }
                }
                assert(!is_digit(CR)) by {
                    assert(CR == 13);
                }
                if k <= jf {
                    assert(forall|t: int| off <= t < k ==> is_digit(#[trigger] s[t]));
                    lemma_digits_end_run(s, off, k);
                    assert(s.subrange(off, k) =~= dd.subrange(0, k - off));
                    lemma_digit_prefix_le(dd, k - off);
                    assert(digits_val(s.subrange(off, k)) <= mag);
                    assert(spec_decode(s) == Decoded::Incomplete);
                } else {
                    assert(k == jf + 1);
                    assert(forall|t: int| off <= t < jf ==> is_digit(#[trigger] s[t]));
                    assert(s[jf] == CR);
                    lemma_digits_end_run(s, off, jf);
                    assert(s.subrange(off, jf) =~= dd);
                    assert(spec_decode(s) == Decoded::Incomplete);
                }
            }
        },
        Resp::Bulk(p) => {
            let dd = dec_digits(p.len());
            let jf: int = 1 + dd.len() as int;
            let n = p.len() as int;
            lemma_dec_digits_are_digits(p.len());
            lemma_digits_val_dec_digits(p.len());
            assert(enc(m).len() == jf + 4 + n);
            assert(forall|t: int| 0 <= t < dd.len() ==> enc(m)[1 + t] == #[trigger] dd[t]);
            assert(enc(m)[jf] == CR && enc(m)[jf + 1] == LF);
            if k >= 4 {
                assert(s[0] == TAG_BULK);
                assert(is_digit(s[1]) && s[1] != MINUS);
                assert(!is_digit(CR)) by {
                    assert(CR == 13);
                }
                if k <= jf {
                    assert(forall|t: int| 1 <= t < k ==> is_digit(#[trigger] s[t]));
                    lemma_digits_end_run(s, 1, k);
                    assert(s.subrange(1, k) =~= dd.subrange(0, k - 1));
                    lemma_digit_prefix_le(dd, k - 1);
                    assert(spec_decode(s) == Decoded::Incomplete);
                } else {
                    assert(forall|t: int| 1 <= t < jf ==> is_digit(#[trigger] s[t]));
                    assert(s[jf] == CR);
                    lemma_digits_end_run(s, 1, jf);
                    assert(s.subrange(1, jf) =~= dd);
                    assert(digits_val(s.subrange(1, jf)) == p.len());
                    if k == jf + 1 {
                        assert(spec_decode(s) == Decoded::Incomplete);
                    } else {
                        assert(s[jf + 1] == LF);
                        assert(k < jf + 4 + n);
                        assert(spec_decode(s) == Decoded::Incomplete);
                    }
                }
            }
        },
        Resp::Array(vs) => {
            let dd = dec_digits(vs.len());
            let jf: int = 1 + dd.len() as int;
            lemma_dec_digits_are_digits(vs.len());
            lemma_digits_val_dec_digits(vs.len());
            assert(enc(m).len() == jf + 2 + enc_seq(vs).len());
            assert(forall|t: int| 0 <= t < dd.len() ==> enc(m)[1 + t] == #[trigger] dd[t]);
            assert(enc(m)[jf] == CR && enc(m)[jf + 1] == LF);
            if k >= 4 {
                assert(s[0] == TAG_ARRAY);
                assert(is_digit(s[1]));
                assert(!is_digit(CR)) by {
                    assert(CR == 13);
                }
                if k <= jf {
                    assert(forall|t: int| 1 <= t < k ==> is_digit(#[trigger] s[t]));
                    lemma_digits_end_run(s, 1, k);
                    assert(s.subrange(1, k) =~= dd.subrange(0, k - 1));
                    lemma_digit_prefix_le(dd, k - 1);
                    assert(spec_decode(s) == Decoded::Incomplete);
                } else {
                    assert(forall|t: int| 1 <= t < jf ==> is_digit(#[trigger] s[t]));
                    assert(s[jf] == CR);
                    lemma_digits_end_run(s, 1, jf);
                    assert(s.subrange(1, jf) =~= dd);
                    assert(digits_val(s.subrange(1, jf)) == vs.len());
                    if k == jf + 1 {
                        assert(spec_decode(s) == Decoded::Incomplete);
                    } else {
                        assert(s[jf + 1] == LF);
                        let kk = k - (jf + 2);
                        assert(0 <= kk < enc_seq(vs).len());
                        assert(s.skip(jf + 2) =~= enc_seq(vs).take(kk));
                        lemma_enc_seq_incremental(vs, kk);
                        assert(spec_decode(s) == Decoded::Incomplete);
                    }
                }
            }
        },
        Resp::Unknown(_) => {
            assert(false);
        },
    }
}

/// The line-framed cases of incremental framing.
proof fn lemma_incremental_line(p: Seq<u8>, tag: u8, k: int)
    requires
        !p.contains(CR),
        tag == TAG_SIMPLE || tag == TAG_ERROR,
        1 <= k < p.len() + 3,
    ensures
        spec_decode((seq![tag] + p + crlf()).take(k)) == Decoded::Incomplete,
{
    let em = seq![tag] + p + crlf();
    let s = em.take(k);
    assert(s.len() == k);
    assert(forall|t: int| 0 <= t < k ==> s[t] == #[trigger] em[t]);
    assert(forall|t: int| 0 <= t < p.len() ==> em[1 + t] == #[trigger] p[t]);
    assert(em[1 + p.len() as int] == CR && em[2 + p.len() as int] == LF);
    assert(s[0] == tag);
    if k >= 3 {
        assert(forall|t: int| 0 <= t < p.len() ==> p[t] != CR);
        if k <= 1 + p.len() {
            assert(forall|t: int| 1 <= t < k ==> s[t] != 13);
            lemma_find_cr_run(s, 1, k);
            assert(spec_decode(s) == Decoded::Incomplete);
        } else {
            assert(k == 2 + p.len());
            let j = 1 + p.len() as int;
            assert(forall|t: int| 1 <= t < j ==> s[t] != 13);
            assert(s[j] == 13);
            lemma_find_cr_run(s, 1, j);
            assert(spec_decode(s) == Decoded::Incomplete);
        }
    }
}

/// Incremental framing for a run of frames: a strict prefix of the run's
/// encoding leaves the decoder waiting for bytes.
proof fn lemma_enc_seq_incremental(vs: Seq<Resp>, k: int)
    requires
        resp_wf_seq(vs),
        0 <= k < enc_seq(vs).len(),
    ensures
        spec_decode_elems(enc_seq(vs).take(k), vs.len()) == DecodedSeq::Incomplete,
    decreases vs, 1int,
{
    assert(vs.len() > 0);
    let s = enc_seq(vs).take(k);
    let head = vs[0];
    let tail_vs = vs.drop_first();
    let n0 = enc(head).len() as int;
    assert(enc_seq(vs) == enc(head) + enc_seq(tail_vs));
    if k < n0 {
        assert(s =~= enc(head).take(k));
        lemma_incremental_framing(head, k);
        assert(spec_decode_elems(s, vs.len()) == DecodedSeq::Incomplete);
    } else {
        let tail_bytes = enc_seq(tail_vs).take(k - n0);
        assert(s =~= enc(head) + tail_bytes);
        lemma_enc_decode(head, tail_bytes);
        assert(s.skip(n0) =~= tail_bytes);
        assert(0 <= k - n0 < enc_seq(tail_vs).len());
        lemma_enc_seq_incremental(tail_vs, k - n0);
        assert(spec_decode_elems(s, vs.len()) == DecodedSeq::Incomplete);
    }
}

/// The second face of the round trip: when a buffer starts with the encoding
/// of a value, decoding finds that value, and re-encoding it gives back
/// exactly the consumed prefix.
pub proof fn lemma_decode_encode(s: Seq<u8>, m0: Resp, n0: int)
    requires
        resp_wf(m0),
        0 <= n0 <= s.len(),
        s.subrange(0, n0) == enc(m0),
    ensures
        (spec_decode(s) matches Decoded::Found(m, n) && m == m0 && n == n0 && enc(m)
            == s.subrange(0, n)),
{
    assert(s =~= enc(m0) + s.skip(n0));
    lemma_enc_decode(m0, s.skip(n0));
}

} // verus!
