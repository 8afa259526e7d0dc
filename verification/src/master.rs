//! The master role: one command frame in, one action out, with replication
//! bookkeeping.
use vstd::prelude::*;

use base64::Engine;

use crate::num::dec_digits;
use crate::resp::crlf;
use crate::resp::dv_seq;
use crate::resp::enc;
use crate::resp::enc_rdb;
use crate::resp::enc_seq;
use crate::resp::lemma_dv_seq_index;
use crate::resp::null_bulk_bytes;
use crate::resp::spec_decode;
use crate::resp::Data;
use crate::resp::Decoded;
use crate::resp::Resp;
use crate::resp::TAG_SIMPLE;
use crate::store::key_idx;
use crate::store::live_view;
use crate::store::prune;
use crate::store::spec_expired;
use crate::store::Store;
use crate::stream::EntryId;
use crate::value::Value;
use vstd::string::StrSliceExecFns;
use vstd::string::StringSliceAdditionalSpecFns;

verus! {

broadcast use
    vstd::seq::axiom_seq_index_decreases,
    vstd::std_specs::vec::axiom_vec_decreases_to_view,
;

/// What the connection loop must do after one command frame.
#[derive(Debug)]
pub enum MasterAction {
    /// The frame is cut short: read more bytes and come back.
    NeedMore,
    /// The framing is broken or the command unusable: close the connection.
    Close,
    /// The command asked for nothing that can be answered: say nothing.
    Ignore,
    /// Write these bytes back to the client.
    Reply(Vec<u8>),
    /// Write the reply to the client and the propagated bytes to every
    /// replica connection.
    ReplyAndPropagate { reply: Vec<u8>, propagate: Vec<u8> },
    /// Write the header, then the raw snapshot frame, and treat this
    /// connection as a replica from now on.
    FullResync { header: Vec<u8>, rdb_frame: Vec<u8> },
    /// Nothing to report yet: subscribe to the first stream at its resolved
    /// id, wait up to the timeout, and query again with the resolved pairs.
    Blocked { stream: Vec<u8>, resolved_id: EntryId, timeout_ms: u64, pairs: Vec<(Vec<u8>, EntryId)> },
    /// Ask every replica for an acknowledgement and count those at or past
    /// the target, up to the timeout.
    Wait { getack: Vec<u8>, target_offset: u64, need: usize, timeout_ms: u64 },
}

/// An upper-case letter folded to lower case; every other byte unchanged.
pub open spec fn lower_byte(b: u8) -> u8 {
    if 65 <= b <= 90 {
        (b + 32) as u8
    } else {
        b
    }
}

pub open spec fn lower(s: Seq<u8>) -> Seq<u8> {
    Seq::new(s.len(), |i: int| lower_byte(s[i]))
}

/// The bytes of the word at position `i`, when it is a string frame.
pub open spec fn spec_arg(vs: Seq<Resp>, i: int) -> Option<Seq<u8>> {
    if 0 <= i < vs.len() {
        match vs[i] {
            Resp::Bulk(b) => Some(b),
            Resp::Simple(b) => Some(b),
            _ => None,
        }
    } else {
        None
    }
}

/// Whether the command word is `w`, compared without regard to case.
pub open spec fn is_cmd(vs: Seq<Resp>, w: Seq<u8>) -> bool {
    spec_arg(vs, 0) matches Some(c) && lower(c) == w
}

pub(crate) fn lower_bytes(b: &[u8]) -> (r: Vec<u8>)
    ensures
        r@ == lower(b@),
{
    let mut r: Vec<u8> = Vec::new();
    let n = b.len();
    for i in 0..n
        invariant
            n == b@.len(),
            r@.len() == i,
            forall|k: int| 0 <= k < i ==> r@[k] == lower_byte(b@[k]),
    {
        let c = b[i];
        if c >= 65 && c <= 90 {
            r.push(c + 32);
        } else {
            r.push(c);
        }
    }
    assert(r@ =~= lower(b@));
    r
}

/// The word at position `i` of a command array, when it is a string frame.
pub(crate) fn arg_at<'a>(vs: &'a Vec<Data>, i: usize) -> (r: Option<&'a Vec<u8>>)
    ensures
        match r {
            Some(b) => spec_arg(dv_seq(vs@), i as int) == Some(b@),
            None => spec_arg(dv_seq(vs@), i as int) is None,
        },
{
    proof {
        lemma_dv_seq_index(vs@);
    }
    if i >= vs.len() {
        return None;
    }
    assert(dv_seq(vs@)[i as int] == vs@[i as int].dv());
    match &vs[i] {
        Data::BulkString(b) => Some(b),
        Data::SimpleString(b) => Some(b),
        _ => None,
    }
}

/// Whether `c`, case-folded, spells `w`.
pub(crate) fn word_is(c: &[u8], w: &str) -> (r: bool)
    ensures
        r == (lower(c@) == w.spec_bytes()),
{
    let lc = lower_bytes(c);
    crate::num::bytes_eq(lc.as_slice(), w.as_bytes())
}

/// A copy of the byte string.
pub(crate) fn copy_bytes(b: &[u8]) -> (r: Vec<u8>)
    ensures
        r@ == b@,
{
    vstd::slice::slice_to_vec(b)
}

/// The text's bytes.
pub(crate) fn str_bytes(s: &str) -> (r: Vec<u8>)
    ensures
        r@ == s.spec_bytes(),
{
    copy_bytes(s.as_bytes())
}

/// A simple-string reply.
pub(crate) fn simple_reply(s: &str) -> (r: Vec<u8>)
    ensures
        r@ == enc(Resp::Simple(s.spec_bytes())),
{
    let body = str_bytes(s);
    crate::resp::encode_simple_string(&body, TAG_SIMPLE)
}

/// A saturating sum, for offsets that only ever grow.
pub open spec fn sat_add(a: u64, b: nat) -> u64 {
    if a + b <= u64::MAX {
        (a + b) as u64
    } else {
        u64::MAX
    }
}

/// Adds a frame's length to a byte offset.
pub(crate) fn bump_offset(offset: u64, len: usize) -> (r: u64)
    ensures
        r == sat_add(offset, len as nat),
{
    if offset <= u64::MAX - (len as u64) {
        offset + (len as u64)
    } else {
        u64::MAX
    }
}

/// The name the snapshot's contents are tied to: a base64 decode is a
/// function of the text alone.
pub uninterp spec fn b64_decoded(s: Seq<char>) -> Option<Seq<u8>>;

/// Relies on base64's `Engine::decode` with the standard alphabet: decodes
/// the text, or refuses it.
#[verifier::external_body]
fn base64_decode(s: &str) -> (r: Option<Vec<u8>>)
    ensures
        r is Some <==> b64_decoded(s@) is Some,
        (r matches Some(v) ==> b64_decoded(s@) == Some(v@)),
{
    match base64::engine::general_purpose::STANDARD.decode(s) {
        Ok(v) => Some(v),
        Err(_) => None,
    }
}

/// The text an empty snapshot is decoded from during a full resync.
pub open spec fn empty_rdb_text() -> Seq<char> {
    "UkVESVMwMDEx+glyZWRpcy12ZXIFNy4yLjD6CnJlZGlzLWJpdHPAQPoFY3RpbWXCbQi8ZfoIdXNlZC1tZW3CsMQQAPoIYW9mLWJhc2XAAP/wbjv+wP9aog=="@
}

/// The lines the INFO command reports for the replication section.
pub open spec fn info_lines(id: Seq<u8>, offset: u64) -> Seq<u8> {
    "role:master".spec_bytes() + seq![10u8] + "master_replid:".spec_bytes() + id + seq![10u8]
        + "master_repl_offset:".spec_bytes() + dec_digits(offset as nat)
}

/// The full-resync header: the reply that starts a snapshot transfer.
pub open spec fn fullresync_header(id: Seq<u8>) -> Seq<u8> {
    enc(Resp::Simple("FULLRESYNC ".spec_bytes() + id + " 0".spec_bytes()))
}

/// The array that asks every replica for an acknowledgement.
pub open spec fn getack_frame() -> Seq<u8> {
    enc(
        Resp::Array(
            seq![
                Resp::Bulk("REPLCONF".spec_bytes()),
                Resp::Bulk("GETACK".spec_bytes()),
                Resp::Bulk("*".spec_bytes()),
            ],
        ),
    )
}

/// The master's whole state: where its snapshot lives, the replication
/// identity and offset, the live store, and how many replicas follow it.
#[derive(Debug)]
pub struct Master {
    pub dir: Option<String>,
    pub dbfilename: Option<String>,
    pub replication_id: Vec<u8>,
    pub replication_offset: u64,
    pub store: Store,
    pub replica_count: usize,
}

/// Everything but the live store and the offset is as it was.
pub open spec fn same_identity(pre: Master, post: Master) -> bool {
    &&& post.dir == pre.dir
    &&& post.dbfilename == pre.dbfilename
    &&& post.replication_id == pre.replication_id
    &&& post.replica_count == pre.replica_count
}

impl Master {
    pub open spec fn wf(&self) -> bool {
        self.store.wf()
    }

    /// A master over the given snapshot store, with an empty live store
    /// seeded from the snapshot's live pairs.
    pub fn new(params: crate::mode::MasterParams, rdb_store: Store, replication_id: Vec<u8>) -> (r:
        Master)
        requires
            rdb_store.wf(),
        ensures
            r.wf(),
            r.dir == params.dir,
            r.dbfilename == params.dbfilename,
            r.replication_id == replication_id,
            r.replication_offset == 0,
            r.replica_count == 0,
            r.store.map@.len() == rdb_store.map@.len(),
            forall|t: int|
                0 <= t < rdb_store.map@.len() ==> (#[trigger] r.store.map@[t]).0@
                    == rdb_store.map@[t].0@ && r.store.map@[t].1.value@ == rdb_store.map@[t].1.value@
                    && r.store.map@[t].1.expiration == rdb_store.map@[t].1.expiration,
            r.store.streams@.len() == 0,
    {
        let mut store = Store::new();
        let n = rdb_store.map.len();
        for i in 0..n
            invariant
                n == rdb_store.map@.len(),
                store.streams@.len() == 0,
                store.map@.len() == i,
                forall|t: int|
                    0 <= t < i ==> (#[trigger] store.map@[t]).0@ == rdb_store.map@[t].0@
                        && store.map@[t].1.value@ == rdb_store.map@[t].1.value@
                        && store.map@[t].1.expiration == rdb_store.map@[t].1.expiration,
                store.wf(),
                rdb_store.wf(),
        {
            let pair = &rdb_store.map[i];
            let key = copy_bytes(pair.0.as_slice());
            let value = pair.1.value.duplicate();
            let expiration = pair.1.expiration;
            let ghost map0 = store.map@;
            store.map.push((key, crate::store::ValueWrapper { value, expiration }));
            proof {
                assert forall|a: int, b: int| 0 <= a < b < store.map@.len() implies (
                #[trigger] store.map@[a]).0@ != (#[trigger] store.map@[b]).0@ by {
                    assert(rdb_store.map@[a].0@ != rdb_store.map@[b].0@);
                    if b < map0.len() {
                        assert(store.map@[a] == map0[a] && store.map@[b] == map0[b]);
                    } else {
                        assert(store.map@[b].0@ == rdb_store.map@[i as int].0@);
                    }
                }
            }
        }
        Master {
            dir: params.dir,
            dbfilename: params.dbfilename,
            replication_id,
            replication_offset: 0,
            store,
            replica_count: 0,
        }
    }
}

/// The views of a list of byte strings.
pub open spec fn vecs_view(items: Seq<Vec<u8>>) -> Seq<Seq<u8>> {
    items.map(|i: int, v: Vec<u8>| v@)
}

/// Each byte string as a bulk frame.
pub open spec fn bulks_of(ss: Seq<Seq<u8>>) -> Seq<Resp> {
    ss.map(|i: int, b: Seq<u8>| Resp::Bulk(b))
}

/// The back-to-back encodings of byte strings as bulk frames.
pub open spec fn bulks_enc(ss: Seq<Seq<u8>>) -> Seq<u8>
    decreases ss.len(),
{
    if ss.len() == 0 {
        Seq::empty()
    } else {
        enc(Resp::Bulk(ss[0])) + bulks_enc(ss.drop_first())
    }
}

proof fn lemma_bulks_enc(ss: Seq<Seq<u8>>)
    ensures
        bulks_enc(ss) == enc_seq(bulks_of(ss)),
    decreases ss.len(),
{
    if ss.len() > 0 {
        lemma_bulks_enc(ss.drop_first());
        assert(bulks_of(ss)[0] == Resp::Bulk(ss[0]));
        assert(bulks_of(ss).drop_first() =~= bulks_of(ss.drop_first()));
        assert(bulks_of(ss).len() == ss.len());
        assert(enc_seq(bulks_of(ss)) == enc(bulks_of(ss)[0]) + enc_seq(bulks_of(ss).drop_first()));
    } else {
        assert(bulks_of(ss).len() == 0);
    }
}

/// An array of bulk strings, encoded.
pub(crate) fn encode_bulk_array(items: &Vec<Vec<u8>>) -> (r: Vec<u8>)
    ensures
        r@ == enc(Resp::Array(bulks_of(vecs_view(items@)))),
{
    let ghost ss = vecs_view(items@);
    let mut r: Vec<u8> = Vec::new();
    r.push(crate::resp::TAG_ARRAY);
    let mut count = crate::num::u64_digits(items.len() as u64);
    r.append(&mut count);
    r.push(crate::resp::CR);
    r.push(crate::resp::LF);
    let ghost header = r@;
    proof {
        assert(header =~= seq![crate::resp::TAG_ARRAY] + dec_digits(ss.len()) + crlf());
        assert(ss.skip(0) =~= ss);
    }
    let n = items.len();
    for i in 0..n
        invariant
            n == items@.len(),
            ss == vecs_view(items@),
            ss.len() == n,
            r@ == header + bulks_enc(ss.take(i as int)),
            header == seq![crate::resp::TAG_ARRAY] + dec_digits(ss.len()) + crlf(),
    {
        let mut piece = crate::resp::encode_bulk_string(&items[i]);
        proof {
            assert(ss[i as int] == items@[i as int]@);
        }
        r.append(&mut piece);
        proof {
            lemma_bulks_enc_take(ss, i as int);
            assert(r@ =~= header + bulks_enc(ss.take(i + 1)));
        }
    }
    proof {
        assert(ss.take(n as int) =~= ss);
        lemma_bulks_enc(ss);
        assert(r@ =~= enc(Resp::Array(bulks_of(ss))));
    }
    r
}

/// One encoded bulk at a time.
proof fn lemma_bulks_enc_take(ss: Seq<Seq<u8>>, i: int)
    requires
        0 <= i < ss.len(),
    ensures
        bulks_enc(ss.take(i + 1)) == bulks_enc(ss.take(i)) + enc(Resp::Bulk(ss[i])),
    decreases i,
{
    if i == 0 {
        assert(ss.take(1).drop_first() =~= ss.take(0));
        assert(bulks_enc(ss.take(1)) == enc(Resp::Bulk(ss[0])) + bulks_enc(ss.take(0)));
        assert(bulks_enc(ss.take(0)) =~= Seq::<u8>::empty());
        assert(bulks_enc(ss.take(1)) =~= bulks_enc(ss.take(0)) + enc(Resp::Bulk(ss[0])));
    } else {
        lemma_bulks_enc_take(ss.drop_first(), i - 1);
        assert(ss.take(i + 1).drop_first() =~= ss.drop_first().take(i));
        assert(ss.take(i).drop_first() =~= ss.drop_first().take(i - 1));
        assert(ss.take(i + 1)[0] == ss[0] && ss.take(i)[0] == ss[0]);
        assert(ss.drop_first()[i - 1] == ss[i]);
        assert(bulks_enc(ss.take(i + 1)) == enc(Resp::Bulk(ss[0])) + bulks_enc(
            ss.drop_first().take(i),
        ));
        assert(bulks_enc(ss.take(i)) == enc(Resp::Bulk(ss[0])) + bulks_enc(
            ss.drop_first().take(i - 1),
        ));
        assert(bulks_enc(ss.take(i + 1)) =~= bulks_enc(ss.take(i)) + enc(Resp::Bulk(ss[i])));
    }
}

/// What an ECHO command does: the argument comes straight back.
pub open spec fn step_echo(pre: Master, post: Master, vs: Seq<Resp>, a: MasterAction) -> bool {
    if vs.len() == 2 && spec_arg(vs, 1) is Some {
        &&& (a matches MasterAction::Reply(rb) && rb@ == enc(
            Resp::Bulk(spec_arg(vs, 1).unwrap()),
        ))
        &&& post == pre
    } else {
        a is Close && post == pre
    }
}

pub open spec fn step_get(pre: Master, post: Master, vs: Seq<Resp>, now_ms: u64, a: MasterAction) -> bool {
    if vs.len() == 2 && spec_arg(vs, 1) is Some {
        let k = spec_arg(vs, 1).unwrap();
        let i = key_idx(pre.store.map@, k);
        &&& same_identity(pre, post)
        &&& post.replication_offset == pre.replication_offset
        &&& post.store.streams == pre.store.streams
        &&& if i == -1 {
            post.store.map == pre.store.map && (a matches MasterAction::Reply(rb) && rb@
                == null_bulk_bytes())
        } else if spec_expired(pre.store.map@[i].1.expiration, now_ms) {
            post.store.map@ == pre.store.map@.remove(i) && (a matches MasterAction::Reply(rb)
                && rb@ == null_bulk_bytes())
        } else {
            post.store.map == pre.store.map && (a matches MasterAction::Reply(rb) && rb@ == enc(
                Resp::Bulk(pre.store.map@[i].1.value@),
            ))
        }
    } else {
        a is Close && post == pre
    }
}

pub open spec fn step_type(pre: Master, post: Master, vs: Seq<Resp>, now_ms: u64, a: MasterAction) -> bool {
    if vs.len() == 2 && spec_arg(vs, 1) is Some {
        let k = spec_arg(vs, 1).unwrap();
        let i = key_idx(pre.store.map@, k);
        let live = i >= 0 && !spec_expired(pre.store.map@[i].1.expiration, now_ms);
        let word: Seq<u8> = if live {
            "string".spec_bytes()
        } else if key_idx(pre.store.streams@, k) >= 0 {
            "stream".spec_bytes()
        } else {
            "none".spec_bytes()
        };
        &&& same_identity(pre, post)
        &&& post.replication_offset == pre.replication_offset
        &&& post.store.streams == pre.store.streams
        &&& if i >= 0 && spec_expired(pre.store.map@[i].1.expiration, now_ms) {
            post.store.map@ == pre.store.map@.remove(i)
        } else {
            post.store.map == pre.store.map
        }
        &&& (a matches MasterAction::Reply(rb) && rb@ == enc(Resp::Simple(word)))
    } else {
        a is Close && post == pre
    }
}

/// What a SET command's words mean: the key, the value, and the optional
/// relative expiry.
pub open spec fn set_args(vs: Seq<Resp>) -> Option<(Seq<u8>, Seq<u8>, Option<u64>)> {
    if vs.len() == 2 || spec_arg(vs, 1) is None || spec_arg(vs, 2) is None {
        None
    } else if vs.len() == 3 {
        Some((spec_arg(vs, 1).unwrap(), spec_arg(vs, 2).unwrap(), None))
    } else if vs.len() == 5 && spec_arg(vs, 3) is Some && spec_arg(vs, 4) is Some && lower(
        spec_arg(vs, 3).unwrap(),
    ) == "px".spec_bytes() {
        match crate::stream::spec_parse_u64(spec_arg(vs, 4).unwrap()) {
            Some(ms) => Some((spec_arg(vs, 1).unwrap(), spec_arg(vs, 2).unwrap(), Some(ms))),
            None => None,
        }
    } else {
        None
    }
}

pub open spec fn step_set(pre: Master, post: Master, vs: Seq<Resp>, now_ms: u64, a: MasterAction) -> bool {
    match set_args(vs) {
        None => a is Close && post == pre,
        Some((k, v, expire_in)) => {
            let i = key_idx(pre.store.map@, k);
            let exp = Store::spec_expiry(expire_in, now_ms);
            &&& same_identity(pre, post)
            &&& post.store.streams == pre.store.streams
            &&& post.replication_offset == sat_add(
                pre.replication_offset,
                enc(Resp::Array(vs)).len(),
            )
            &&& (a matches MasterAction::ReplyAndPropagate { reply, propagate } && reply@ == enc(
                Resp::Simple("OK".spec_bytes()),
            ) && propagate@ == enc(Resp::Array(vs)))
            &&& if i >= 0 {
                &&& post.store.map@.len() == pre.store.map@.len()
                &&& (forall|t: int|
                    0 <= t < pre.store.map@.len() && t != i ==> #[trigger] post.store.map@[t]
                        == pre.store.map@[t])
                &&& (post.store.map@[i].0)@ == k
                &&& post.store.map@[i].1.value@ == v
                &&& post.store.map@[i].1.expiration == exp
            } else {
                &&& post.store.map@.len() == pre.store.map@.len() + 1
                &&& post.store.map@.take(pre.store.map@.len() as int) == pre.store.map@
                &&& (post.store.map@.last().0)@ == k
                &&& post.store.map@.last().1.value@ == v
                &&& post.store.map@.last().1.expiration == exp
            }
        },
    }
}

/// The keys of a live snapshot, each as a bulk frame.
pub open spec fn keys_resp(lv: Seq<(Seq<u8>, Seq<u8>)>) -> Seq<Resp> {
    lv.map(|i: int, p: (Seq<u8>, Seq<u8>)| Resp::Bulk(p.0))
}

pub open spec fn step_keys(pre: Master, post: Master, vs: Seq<Resp>, now_ms: u64, a: MasterAction) -> bool {
    if vs.len() == 2 && spec_arg(vs, 1) == Some("*".spec_bytes()) {
        &&& same_identity(pre, post)
        &&& post.replication_offset == pre.replication_offset
        &&& post.store.map@ == prune(pre.store.map@, now_ms)
        &&& post.store.streams == pre.store.streams
        &&& (a matches MasterAction::Reply(rb) && rb@ == enc(
            Resp::Array(keys_resp(live_view(pre.store.map@, now_ms))),
        ))
    } else {
        a is Close && post == pre
    }
}

pub open spec fn step_config(pre: Master, post: Master, vs: Seq<Resp>, a: MasterAction) -> bool {
    if vs.len() == 3 && spec_arg(vs, 1) is Some && spec_arg(vs, 2) is Some && lower(
        spec_arg(vs, 1).unwrap(),
    ) == "get".spec_bytes() {
        let which = lower(spec_arg(vs, 2).unwrap());
        if which == "dir".spec_bytes() {
            match pre.dir {
                Some(d) => (a matches MasterAction::Reply(rb) && rb@ == enc(
                    Resp::Array(
                        seq![
                            Resp::Bulk("dir".spec_bytes()),
                            Resp::Bulk(vstd::utf8::encode_utf8(d@)),
                        ],
                    ),
                )) && post == pre,
                None => a is Close && post == pre,
            }
        } else if which == "dbfilename".spec_bytes() {
            match pre.dbfilename {
                Some(d) => (a matches MasterAction::Reply(rb) && rb@ == enc(
                    Resp::Array(
                        seq![
                            Resp::Bulk("dbfilename".spec_bytes()),
                            Resp::Bulk(vstd::utf8::encode_utf8(d@)),
                        ],
                    ),
                )) && post == pre,
                None => a is Close && post == pre,
            }
        } else {
            a is Close && post == pre
        }
    } else {
        a is Close && post == pre
    }
}

pub open spec fn step_info(pre: Master, post: Master, vs: Seq<Resp>, a: MasterAction) -> bool {
    if vs.len() >= 2 && spec_arg(vs, 1) is Some && lower(spec_arg(vs, 1).unwrap())
        == "replication".spec_bytes() {
        (a matches MasterAction::Reply(rb) && rb@ == enc(
            Resp::Bulk(info_lines(pre.replication_id@, pre.replication_offset)),
        )) && post == pre
    } else {
        a is Close && post == pre
    }
}

pub open spec fn step_psync(pre: Master, post: Master, vs: Seq<Resp>, a: MasterAction) -> bool {
    if vs.len() >= 3 && spec_arg(vs, 1) == Some("?".spec_bytes()) && spec_arg(vs, 2) == Some(
        "-1".spec_bytes(),
    ) {
        match b64_decoded(empty_rdb_text()) {
            Some(bytes) => {
                &&& (a matches MasterAction::FullResync { header, rdb_frame } && header@
                    == fullresync_header(pre.replication_id@) && rdb_frame@ == enc_rdb(bytes))
                &&& post.replica_count == (if pre.replica_count < usize::MAX {
                    pre.replica_count + 1
                } else {
                    pre.replica_count as int
                })
                &&& post.dir == pre.dir
                &&& post.dbfilename == pre.dbfilename
                &&& post.replication_id == pre.replication_id
                &&& post.store == pre.store
                &&& post.replication_offset == pre.replication_offset
            },
            None => a is Close && post == pre,
        }
    } else {
        a is Close && post == pre
    }
}

pub open spec fn step_wait(pre: Master, post: Master, vs: Seq<Resp>, a: MasterAction) -> bool {
    if vs.len() == 3 && spec_arg(vs, 1) is Some && spec_arg(vs, 2) is Some {
        match (crate::stream::spec_parse_u64(spec_arg(vs, 1).unwrap()), crate::stream::spec_parse_u64(
            spec_arg(vs, 2).unwrap(),
        )) {
            (Some(n), Some(t)) => {
                if n > usize::MAX {
                    a is Close && post == pre
                } else if n == 0 || pre.replication_offset == 0 {
                    (a matches MasterAction::Reply(rb) && rb@ == enc(
                        Resp::Int(pre.replica_count as i64),
                    )) && post == pre
                } else {
                    (a matches MasterAction::Wait { getack, target_offset, need, timeout_ms }
                        && getack@ == getack_frame() && target_offset == pre.replication_offset
                        && need == n && timeout_ms == t) && post == pre
                }
            },
            _ => a is Close && post == pre,
        }
    } else {
        a is Close && post == pre
    }
}

impl Master {
    fn do_echo(&self, vs: &Vec<Data>) -> (a: MasterAction)
        ensures
            step_echo(*self, *self, dv_seq(vs@), a),
    {
        proof {
            lemma_dv_seq_index(vs@);
        }
        if vs.len() != 2 {
            return MasterAction::Close;
        }
        match arg_at(vs, 1) {
            None => MasterAction::Close,
            Some(x) => MasterAction::Reply(crate::resp::encode_bulk_string(x)),
        }
    }

    fn do_get(&mut self, vs: &Vec<Data>, now_ms: u64) -> (a: MasterAction)
        requires
            old(self).wf(),
        ensures
            final(self).wf(),
            step_get(*old(self), *final(self), dv_seq(vs@), now_ms, a),
    {
        proof {
            lemma_dv_seq_index(vs@);
        }
        if vs.len() != 2 {
            return MasterAction::Close;
        }
        let key = match arg_at(vs, 1) {
            None => {
                return MasterAction::Close;
            },
            Some(k) => k,
        };
        match self.store.get(key.as_slice(), now_ms) {
            None => MasterAction::Reply(crate::resp::encode_null_bulk_string()),
            Some(v) => MasterAction::Reply(crate::resp::encode_bulk_string(v.bytes())),
        }
    }

    fn do_type(&mut self, vs: &Vec<Data>, now_ms: u64) -> (a: MasterAction)
        requires
            old(self).wf(),
        ensures
            final(self).wf(),
            step_type(*old(self), *final(self), dv_seq(vs@), now_ms, a),
    {
        proof {
            lemma_dv_seq_index(vs@);
        }
        if vs.len() != 2 {
            return MasterAction::Close;
        }
        let key = match arg_at(vs, 1) {
            None => {
                return MasterAction::Close;
            },
            Some(k) => k,
        };
        let word = self.store.get_type(key.as_slice(), now_ms);
        let body = word.as_str().as_bytes_vec();
        let a = MasterAction::Reply(crate::resp::encode_simple_string(&body, TAG_SIMPLE));
        proof {
            let vsm = dv_seq(vs@);
            let k = spec_arg(vsm, 1).unwrap();
            let i = key_idx(old(self).store.map@, k);
            let live = i >= 0 && !spec_expired(old(self).store.map@[i].1.expiration, now_ms);
            crate::store::lemma_key_idx(old(self).store.streams@, k);
            assert(k == key@);
            if live {
                assert(word@ == "string"@);
                assert(body@ == "string".spec_bytes());
            } else if key_idx(old(self).store.streams@, k) >= 0 {
                assert(word@ == "stream"@);
                assert(body@ == "stream".spec_bytes());
            } else {
                assert(word@ == "none"@);
                assert(body@ == "none".spec_bytes());
            }
        }
        a
    }

    fn do_set(&mut self, vs: &Vec<Data>, now_ms: u64) -> (a: MasterAction)
        requires
            old(self).wf(),
        ensures
            final(self).wf(),
            step_set(*old(self), *final(self), dv_seq(vs@), now_ms, a),
    {
        proof {
            lemma_dv_seq_index(vs@);
        }
        let ghost vsm = dv_seq(vs@);
        if !(vs.len() == 3 || vs.len() == 5) {
            assert(set_args(vsm) is None);
            return MasterAction::Close;
        }
        let key = match arg_at(vs, 1) {
            None => {
                return MasterAction::Close;
            },
            Some(k) => k,
        };
        let value = match arg_at(vs, 2) {
            None => {
                return MasterAction::Close;
            },
            Some(v) => v,
        };
        let expire_in: Option<u64> = if vs.len() == 5 {
            let px = match arg_at(vs, 3) {
                None => {
                    return MasterAction::Close;
                },
                Some(p) => p,
            };
            if !word_is(px.as_slice(), "px") {
                return MasterAction::Close;
            }
            let ms_raw = match arg_at(vs, 4) {
                None => {
                    return MasterAction::Close;
                },
                Some(m) => m,
            };
            match crate::stream::parse_u64(ms_raw.as_slice()) {
                None => {
                    return MasterAction::Close;
                },
                Some(ms) => Some(ms),
            }
        } else {
            None
        };
        let propagate = encode_command(vs);
        let key_copy = copy_bytes(key.as_slice());
        let value_copy = Value::String(copy_bytes(value.as_slice()));
        let ghost key_view = key_copy@;
        proof {
            crate::store::lemma_key_idx(self.store.map@, key_view);
        }
        self.store.set(key_copy, value_copy, expire_in, now_ms);
        proof {
            if key_idx(old(self).store.map@, key_view) == -1 {
                assert(self.store.map@.take(old(self).store.map@.len() as int) =~= old(
                    self,
                ).store.map@);
            }
        }
        self.replication_offset = bump_offset(self.replication_offset, propagate.len());
        MasterAction::ReplyAndPropagate { reply: simple_reply("OK"), propagate }
    }

    fn do_keys(&mut self, vs: &Vec<Data>, now_ms: u64) -> (a: MasterAction)
        requires
            old(self).wf(),
        ensures
            final(self).wf(),
            step_keys(*old(self), *final(self), dv_seq(vs@), now_ms, a),
    {
        proof {
            lemma_dv_seq_index(vs@);
        }
        if vs.len() != 2 {
            return MasterAction::Close;
        }
        let star = match arg_at(vs, 1) {
            None => {
                return MasterAction::Close;
            },
            Some(x) => x,
        };
        if !crate::num::bytes_eq(star.as_slice(), "*".as_bytes()) {
            return MasterAction::Close;
        }
        let snapshot = self.store.data(now_ms);
        let mut keys: Vec<Vec<u8>> = Vec::new();
        let ghost lv = live_view(old(self).store.map@, now_ms);
        let n = snapshot.len();
        proof {
            assert(crate::store::snapshot_view(snapshot@).len() == lv.len());
        }
        for i in 0..n
            invariant
                n == snapshot@.len(),
                crate::store::snapshot_view(snapshot@) == lv,
                lv.len() == n,
                keys@.len() == i,
                forall|t: int| 0 <= t < i ==> (#[trigger] keys@[t])@ == lv[t].0,
        {
            proof {
                assert(crate::store::snapshot_view(snapshot@)[i as int] == (
                snapshot@[i as int].0@,
                snapshot@[i as int].1@,
                ));
            }
            keys.push(copy_bytes(snapshot[i].0.as_slice()));
        }
        let reply = encode_bulk_array(&keys);
        proof {
            assert(bulks_of(vecs_view(keys@)) =~= keys_resp(lv));
        }
        MasterAction::Reply(reply)
    }

    fn do_config(&self, vs: &Vec<Data>) -> (a: MasterAction)
        ensures
            step_config(*self, *self, dv_seq(vs@), a),
    {
        proof {
            lemma_dv_seq_index(vs@);
        }
        if vs.len() != 3 {
            return MasterAction::Close;
        }
        let verb = match arg_at(vs, 1) {
            None => {
                return MasterAction::Close;
            },
            Some(x) => x,
        };
        if !word_is(verb.as_slice(), "get") {
            return MasterAction::Close;
        }
        let which = match arg_at(vs, 2) {
            None => {
                return MasterAction::Close;
            },
            Some(x) => x,
        };
        if word_is(which.as_slice(), "dir") {
            match &self.dir {
                Some(d) => {
                    let mut items: Vec<Vec<u8>> = Vec::new();
                    items.push(str_bytes("dir"));
                    items.push(d.as_str().as_bytes_vec());
                    let reply = encode_bulk_array(&items);
                    proof {
                        assert(bulks_of(vecs_view(items@)) =~= seq![
                            Resp::Bulk("dir".spec_bytes()),
                            Resp::Bulk(vstd::utf8::encode_utf8(self.dir.unwrap()@)),
                        ]);
                    }
                    MasterAction::Reply(reply)
                },
                None => MasterAction::Close,
            }
        } else if word_is(which.as_slice(), "dbfilename") {
            match &self.dbfilename {
                Some(d) => {
                    let mut items: Vec<Vec<u8>> = Vec::new();
                    items.push(str_bytes("dbfilename"));
                    items.push(d.as_str().as_bytes_vec());
                    let reply = encode_bulk_array(&items);
                    proof {
                        assert(bulks_of(vecs_view(items@)) =~= seq![
                            Resp::Bulk("dbfilename".spec_bytes()),
                            Resp::Bulk(vstd::utf8::encode_utf8(self.dbfilename.unwrap()@)),
                        ]);
                    }
                    MasterAction::Reply(reply)
                },
                None => MasterAction::Close,
            }
        } else {
            MasterAction::Close
        }
    }

    fn do_info(&self, vs: &Vec<Data>) -> (a: MasterAction)
        ensures
            step_info(*self, *self, dv_seq(vs@), a),
    {
        proof {
            lemma_dv_seq_index(vs@);
        }
        if vs.len() < 2 {
            return MasterAction::Close;
        }
        let section = match arg_at(vs, 1) {
            None => {
                return MasterAction::Close;
            },
            Some(x) => x,
        };
        if !word_is(section.as_slice(), "replication") {
            return MasterAction::Close;
        }
        let mut body = str_bytes("role:master");
        body.push(10);
        let mut part = str_bytes("master_replid:");
        body.append(&mut part);
        let mut id = copy_bytes(self.replication_id.as_slice());
        body.append(&mut id);
        body.push(10);
        let mut part2 = str_bytes("master_repl_offset:");
        body.append(&mut part2);
        let mut digits = crate::num::u64_digits(self.replication_offset);
        body.append(&mut digits);
        proof {
            assert(body@ =~= info_lines(self.replication_id@, self.replication_offset));
        }
        MasterAction::Reply(crate::resp::encode_bulk_string(&body))
    }

    fn do_psync(&mut self, vs: &Vec<Data>) -> (a: MasterAction)
        ensures
            step_psync(*old(self), *final(self), dv_seq(vs@), a),
    {
        proof {
            lemma_dv_seq_index(vs@);
        }
        if vs.len() < 3 {
            return MasterAction::Close;
        }
        let which = match arg_at(vs, 1) {
            None => {
                return MasterAction::Close;
            },
            Some(x) => x,
        };
        let off = match arg_at(vs, 2) {
            None => {
                return MasterAction::Close;
            },
            Some(x) => x,
        };
        if !crate::num::bytes_eq(which.as_slice(), "?".as_bytes()) || !crate::num::bytes_eq(
            off.as_slice(),
            "-1".as_bytes(),
        ) {
            return MasterAction::Close;
        }
        let rdb_payload = match base64_decode(
            "UkVESVMwMDEx+glyZWRpcy12ZXIFNy4yLjD6CnJlZGlzLWJpdHPAQPoFY3RpbWXCbQi8ZfoIdXNlZC1tZW3CsMQQAPoIYW9mLWJhc2XAAP/wbjv+wP9aog==",
        ) {
            None => {
                return MasterAction::Close;
            },
            Some(v) => v,
        };
        let mut header_body = str_bytes("FULLRESYNC ");
        let mut id = copy_bytes(self.replication_id.as_slice());
        header_body.append(&mut id);
        let mut tail = str_bytes(" 0");
        header_body.append(&mut tail);
        proof {
            assert(header_body@ =~= "FULLRESYNC ".spec_bytes() + self.replication_id@
                + " 0".spec_bytes());
        }
        let header = crate::resp::encode_simple_string(&header_body, TAG_SIMPLE);
        let rdb_frame = crate::resp::encode_rdb_file(rdb_payload);
        if self.replica_count < usize::MAX {
            self.replica_count = self.replica_count + 1;
        }
        MasterAction::FullResync { header, rdb_frame }
    }

    fn do_wait(&self, vs: &Vec<Data>) -> (a: MasterAction)
        ensures
            step_wait(*self, *self, dv_seq(vs@), a),
    {
        proof {
            lemma_dv_seq_index(vs@);
        }
        if vs.len() != 3 {
            return MasterAction::Close;
        }
        let n_raw = match arg_at(vs, 1) {
            None => {
                return MasterAction::Close;
            },
            Some(x) => x,
        };
        let t_raw = match arg_at(vs, 2) {
            None => {
                return MasterAction::Close;
            },
            Some(x) => x,
        };
        let n = match crate::stream::parse_u64(n_raw.as_slice()) {
            None => {
                return MasterAction::Close;
            },
            Some(v) => v,
        };
        let t = match crate::stream::parse_u64(t_raw.as_slice()) {
            None => {
                return MasterAction::Close;
            },
            Some(v) => v,
        };
        if n > usize::MAX as u64 {
            return MasterAction::Close;
        }
        if n == 0 || self.replication_offset == 0 {
            MasterAction::Reply(crate::resp::encode_integer(self.replica_count as i64))
        } else {
            let getack = build_getack();
            MasterAction::Wait {
                getack,
                target_offset: self.replication_offset,
                need: n as usize,
                timeout_ms: t,
            }
        }
    }

    /// Counts one more acknowledged replica and reports the count, moving
    /// the offset past the acknowledgement request itself.
    pub fn finish_wait(&mut self, count: usize) -> (r: Vec<u8>)
        ensures
            r@ == enc(Resp::Int(count as i64)),
            final(self).replication_offset == sat_add(
                old(self).replication_offset,
                getack_frame().len(),
            ),
            final(self).store == old(self).store,
            same_identity(*old(self), *final(self)),
    {
        let getack = build_getack();
        self.replication_offset = bump_offset(self.replication_offset, getack.len());
        crate::resp::encode_integer(count as i64)
    }
}

/// One step of the WAIT collection: an acknowledgement at or past the
/// captured target raises the count, and the collection is done once the
/// count reaches what the client asked for.
pub fn wait_step(count: usize, need: usize, ack_offset: u64, target_offset: u64) -> (r: (
    usize,
    bool,
))
    requires
        count < usize::MAX,
    ensures
        r.0 == (if ack_offset >= target_offset {
            count + 1
        } else {
            count as int
        }),
        r.1 == (r.0 >= need),
{
    let next = if ack_offset >= target_offset {
        count + 1
    } else {
        count
    };
    (next, next >= need)
}

/// The acknowledgement request every replica is sent during WAIT.
fn build_getack() -> (r: Vec<u8>)
    ensures
        r@ == getack_frame(),
{
    let mut items: Vec<Vec<u8>> = Vec::new();
    items.push(str_bytes("REPLCONF"));
    items.push(str_bytes("GETACK"));
    items.push(str_bytes("*"));
    let r = encode_bulk_array(&items);
    proof {
        assert(bulks_of(vecs_view(items@)) =~= seq![
            Resp::Bulk("REPLCONF".spec_bytes()),
            Resp::Bulk("GETACK".spec_bytes()),
            Resp::Bulk("*".spec_bytes()),
        ]);
    }
    r
}

/// The canonical encoding of a whole command array, as it is propagated to
/// replicas.
pub(crate) fn encode_command(vs: &Vec<Data>) -> (r: Vec<u8>)
    ensures
        r@ == enc(Resp::Array(dv_seq(vs@))),
    decreases vs@, 1int,
{
    proof {
        lemma_dv_seq_index(vs@);
    }
    let mut r: Vec<u8> = Vec::new();
    r.push(crate::resp::TAG_ARRAY);
    let mut count = crate::num::u64_digits(vs.len() as u64);
    r.append(&mut count);
    r.push(crate::resp::CR);
    r.push(crate::resp::LF);
    let ghost vsm = dv_seq(vs@);
    let ghost header = r@;
    proof {
        assert(header =~= seq![crate::resp::TAG_ARRAY] + dec_digits(vsm.len()) + crlf());
        assert(enc_seq(vsm.take(0)) =~= Seq::<u8>::empty());
        assert(r@ =~= header + enc_seq(vsm.take(0)));
    }
    let n = vs.len();
    for i in 0..n
        invariant
            n == vs@.len(),
            vsm == dv_seq(vs@),
            vsm.len() == n,
            forall|k: int| 0 <= k < n ==> vsm[k] == #[trigger] vs@[k].dv(),
            r@ == header + enc_seq(vsm.take(i as int)),
            header == seq![crate::resp::TAG_ARRAY] + dec_digits(vsm.len()) + crlf(),
        decreases vs@, 0int, n - i,
    {
        let mut piece = encode_data_raw(&vs[i]);
        r.append(&mut piece);
        proof {
            crate::resp::lemma_enc_seq_take(vsm, i as int);
            assert(r@ =~= header + enc_seq(vsm.take(i + 1)));
        }
    }
    proof {
        assert(vsm.take(n as int) =~= vsm);
    }
    r
}

/// The rows of the stream under `k`; an absent stream reads as empty.
pub open spec fn stream_rows_of(st: Store, k: Seq<u8>) -> Seq<crate::stream::SpecRow> {
    if key_idx(st.streams@, k) >= 0 {
        st.streams@[key_idx(st.streams@, k)].1.rows()
    } else {
        Seq::empty()
    }
}

/// The top id of the stream under `k`; an absent stream reads as the least
/// id.
pub open spec fn stream_max_of(st: Store, k: Seq<u8>) -> EntryId {
    if key_idx(st.streams@, k) >= 0 {
        st.streams@[key_idx(st.streams@, k)].1.spec_max_id()
    } else {
        EntryId::zero()
    }
}

/// A row's fields laid out flat: key, value, key, value.
pub open spec fn flatten_fields(fs: Seq<(Seq<u8>, Seq<u8>)>) -> Seq<Resp>
    decreases fs.len(),
{
    if fs.len() == 0 {
        Seq::empty()
    } else {
        seq![Resp::Bulk(fs[0].0), Resp::Bulk(fs[0].1)] + flatten_fields(fs.drop_first())
    }
}

/// A row on the wire: the id, then the flat fields.
pub open spec fn row_resp(row: crate::stream::SpecRow) -> Resp {
    Resp::Array(
        seq![Resp::Bulk(EntryId::spec_render(row.0)), Resp::Array(flatten_fields(row.1))],
    )
}

pub open spec fn rows_resp(rows: Seq<crate::stream::SpecRow>) -> Seq<Resp> {
    rows.map(|i: int, r: crate::stream::SpecRow| row_resp(r))
}

/// The field pairs of an XADD command, read from position `from` on.
pub open spec fn xadd_fields(vs: Seq<Resp>, from: int) -> Option<Seq<(Seq<u8>, Seq<u8>)>>
    decreases vs.len() - from,
{
    if from >= vs.len() {
        Some(Seq::empty())
    } else if from + 1 >= vs.len() {
        None
    } else {
        match (spec_arg(vs, from), spec_arg(vs, from + 1)) {
            (Some(k), Some(v)) => match xadd_fields(vs, from + 2) {
                Some(rest) => Some(seq![(k, v)] + rest),
                None => None,
            },
            _ => None,
        }
    }
}

pub open spec fn step_xadd(pre: Master, post: Master, vs: Seq<Resp>, now_ms: u64, a: MasterAction) -> bool {
    if vs.len() >= 5 && vs.len() % 2 == 1 && spec_arg(vs, 1) is Some && spec_arg(vs, 2) is Some
        && xadd_fields(vs, 3) is Some {
        let key = spec_arg(vs, 1).unwrap();
        let idraw = spec_arg(vs, 2).unwrap();
        let fields = xadd_fields(vs, 3).unwrap();
        let i0 = key_idx(pre.store.streams@, key);
        let base_max = stream_max_of(pre.store, key);
        &&& same_identity(pre, post)
        &&& post.replication_offset == pre.replication_offset
        &&& post.store.map == pre.store.map
        &&& match EntryId::spec_create(idraw, base_max, now_ms) {
            None => (a matches MasterAction::Reply(rb) && rb@ == enc(
                Resp::Error(crate::stream::stream_error_bytes(crate::stream::StreamError::BadFormat)),
            )) && post.store.streams@ == pre.store.streams@,
            Some(id) => if EntryId::le_spec(id, EntryId::zero()) {
                (a matches MasterAction::Reply(rb) && rb@ == enc(
                    Resp::Error(crate::stream::stream_error_bytes(crate::stream::StreamError::MinId)),
                )) && post.store.streams@ == pre.store.streams@
            } else if EntryId::le_spec(id, base_max) {
                (a matches MasterAction::Reply(rb) && rb@ == enc(
                    Resp::Error(
                        crate::stream::stream_error_bytes(
                            crate::stream::StreamError::NotIncreasing,
                        ),
                    ),
                )) && post.store.streams@ == pre.store.streams@
            } else {
                &&& (a matches MasterAction::Reply(rb) && rb@ == enc(
                    Resp::Bulk(EntryId::spec_render(id)),
                ))
                &&& if i0 >= 0 {
                    &&& post.store.streams@.len() == pre.store.streams@.len()
                    &&& (forall|t: int|
                        0 <= t < pre.store.streams@.len() && t != i0
                            ==> #[trigger] post.store.streams@[t] == pre.store.streams@[t])
                    &&& post.store.streams@[i0].0 == pre.store.streams@[i0].0
                    &&& post.store.streams@[i0].1.rows() == pre.store.streams@[i0].1.rows().push(
                        (id, fields),
                    )
                    &&& post.store.streams@[i0].1.subscribers@ == crate::stream::remaining_subs(
                        pre.store.streams@[i0].1.subscribers@,
                        id,
                    )
                } else {
                    &&& post.store.streams@.len() == pre.store.streams@.len() + 1
                    &&& post.store.streams@.take(pre.store.streams@.len() as int)
                        == pre.store.streams@
                    &&& (post.store.streams@.last().0)@ == key
                    &&& post.store.streams@.last().1.rows() == seq![(id, fields)]
                    &&& post.store.streams@.last().1.subscribers@.len() == 0
                }
            },
        }
    } else {
        a is Close && post == pre
    }
}

pub open spec fn step_xrange(pre: Master, post: Master, vs: Seq<Resp>, a: MasterAction) -> bool {
    if vs.len() == 4 && spec_arg(vs, 1) is Some && spec_arg(vs, 2) is Some && spec_arg(vs, 3)
        is Some && EntryId::spec_start(spec_arg(vs, 2).unwrap()) is Some && EntryId::spec_end(
        spec_arg(vs, 3).unwrap(),
    ) is Some {
        let key = spec_arg(vs, 1).unwrap();
        let lo = EntryId::spec_start(spec_arg(vs, 2).unwrap()).unwrap();
        let hi = EntryId::spec_end(spec_arg(vs, 3).unwrap()).unwrap();
        &&& post == pre
        &&& (a matches MasterAction::Reply(rb) && rb@ == enc(
            Resp::Array(
                rows_resp(
                    crate::stream::select_rows(
                        stream_rows_of(pre.store, key),
                        crate::stream::IdBound::Included(lo),
                        crate::stream::IdBound::Included(hi),
                    ),
                ),
            ),
        ))
    } else {
        a is Close && post == pre
    }
}

/// What one command array does to the master and what comes back, clause by
/// clause for each command word.
pub open spec fn master_step(
    pre: Master,
    post: Master,
    vs: Seq<Resp>,
    now_ms: u64,
    a: MasterAction,
) -> bool {
    match spec_arg(vs, 0) {
        None => a is Close && post == pre,
        Some(c) => {
            let lc = lower(c);
            if lc == "ping".spec_bytes() {
                (a matches MasterAction::Reply(rb) && rb@ == enc(
                    Resp::Simple("PONG".spec_bytes()),
                )) && post == pre
            } else if lc == "echo".spec_bytes() {
                step_echo(pre, post, vs, a)
            } else if lc == "get".spec_bytes() {
                step_get(pre, post, vs, now_ms, a)
            } else if lc == "type".spec_bytes() {
                step_type(pre, post, vs, now_ms, a)
            } else if lc == "set".spec_bytes() {
                step_set(pre, post, vs, now_ms, a)
            } else if lc == "keys".spec_bytes() {
                step_keys(pre, post, vs, now_ms, a)
            } else if lc == "xadd".spec_bytes() {
                step_xadd(pre, post, vs, now_ms, a)
            } else if lc == "xrange".spec_bytes() {
                step_xrange(pre, post, vs, a)
            } else if lc == "xread".spec_bytes() {
                step_xread(pre, post, vs, now_ms, a)
            } else if lc == "config".spec_bytes() {
                step_config(pre, post, vs, a)
            } else if lc == "info".spec_bytes() {
                step_info(pre, post, vs, a)
            } else if lc == "replconf".spec_bytes() {
                (a matches MasterAction::Reply(rb) && rb@ == enc(
                    Resp::Simple("OK".spec_bytes()),
                )) && post == pre
            } else if lc == "psync".spec_bytes() {
                step_psync(pre, post, vs, a)
            } else if lc == "wait".spec_bytes() {
                step_wait(pre, post, vs, a)
            } else {
                a is Close && post == pre
            }
        },
    }
}

/// The items a stream read yields: for each queried stream, the rows past
/// its start id, streams with nothing to say left out.
pub open spec fn xread_items(st: Store, pairs: Seq<(Seq<u8>, EntryId)>) -> Seq<Resp>
    decreases pairs.len(),
{
    if pairs.len() == 0 {
        Seq::empty()
    } else {
        let rows = crate::stream::select_rows(
            stream_rows_of(st, pairs[0].0),
            crate::stream::IdBound::Excluded(pairs[0].1),
            crate::stream::IdBound::Included(EntryId::top()),
        );
        let rest = xread_items(st, pairs.drop_first());
        if rows.len() == 0 {
            rest
        } else {
            seq![
                Resp::Array(seq![Resp::Bulk(pairs[0].0), Resp::Array(rows_resp(rows))]),
            ] + rest
        }
    }
}

/// The reply a query over resolved pairs earns: the items, or a null bulk
/// string when every stream is silent.
pub open spec fn xread_reply_bytes(st: Store, pairs: Seq<(Seq<u8>, EntryId)>) -> Seq<u8> {
    if xread_items(st, pairs).len() == 0 {
        null_bulk_bytes()
    } else {
        enc(Resp::Array(xread_items(st, pairs)))
    }
}

/// The resolved pairs of a stream read.
pub open spec fn pairsv(pairs: Seq<(Vec<u8>, EntryId)>) -> Seq<(Seq<u8>, EntryId)> {
    pairs.map(|i: int, p: (Vec<u8>, EntryId)| (p.0@, p.1))
}

/// How a stream read lays out: the timeout when it blocks, and the position
/// where the stream names start.
pub open spec fn xread_layout(vs: Seq<Resp>) -> Option<(Option<u64>, int)> {
    if vs.len() < 4 || vs.len() % 2 != 0 {
        None
    } else {
        match spec_arg(vs, 1) {
            None => None,
            Some(a1) => {
                if lower(a1) == "block".spec_bytes() {
                    match spec_arg(vs, 2) {
                        None => None,
                        Some(t_raw) => match crate::stream::spec_parse_u64(t_raw) {
                            None => None,
                            Some(t) => if vs.len() >= 6 {
                                Some(
                                    (
                                        Some(
                                            if t == 0 {
                                                u64::MAX
                                            } else {
                                                t
                                            },
                                        ),
                                        4int,
                                    ),
                                )
                            } else {
                                None
                            },
                        },
                    }
                } else {
                    Some((None::<u64>, 2int))
                }
            },
        }
    }
}

/// The streams a read names, paired with their resolved start ids: a dollar
/// reads as the stream's current top id.  `lit_only` keeps only the ids
/// written out, the set the first query runs over.
pub open spec fn xread_resolve(
    st: Store,
    vs: Seq<Resp>,
    start: int,
    num: int,
    i: int,
    lit_only: bool,
) -> Option<Seq<(Seq<u8>, EntryId)>>
    decreases num - i,
{
    if i >= num {
        Some(Seq::empty())
    } else {
        match (spec_arg(vs, start + i), spec_arg(vs, start + num + i)) {
            (Some(name), Some(idraw)) => {
                let dollar = idraw =~= seq![36u8];
                let rid: Option<EntryId> = if dollar {
                    Some(stream_max_of(st, name))
                } else {
                    EntryId::spec_start(idraw)
                };
                match rid {
                    None => None,
                    Some(rid) => match xread_resolve(st, vs, start, num, i + 1, lit_only) {
                        None => None,
                        Some(rest) => if lit_only && dollar {
                            Some(rest)
                        } else {
                            Some(seq![(name, rid)] + rest)
                        },
                    },
                }
            },
            _ => None,
        }
    }
}

/// A read whose resolution fails anywhere past `j` fails as a whole.
proof fn lemma_resolve_none_up(
    st: Store,
    vs: Seq<Resp>,
    start: int,
    num: int,
    j: int,
    i: int,
    lit_only: bool,
)
    requires
        0 <= j <= i < num,
        xread_resolve(st, vs, start, num, i, lit_only) is None,
        forall|t: int|
            j <= t < i ==> #[trigger] spec_arg(vs, start + t) is Some && spec_arg(
                vs,
                start + num + t,
            ) is Some,
    ensures
        xread_resolve(st, vs, start, num, j, lit_only) is None,
    decreases i - j,
{
    if j < i {
        lemma_resolve_none_up(st, vs, start, num, j + 1, i, lit_only);
    }
}

/// What a stream read does: it never touches the string table nor any stream
/// already there, though it may bring empty streams into being; and it
/// replies with exactly what the named streams hold past the resolved ids,
/// blocks when they hold nothing and a timeout allows it, or refuses a
/// command it cannot read.
pub open spec fn step_xread(pre: Master, post: Master, vs: Seq<Resp>, now_ms: u64, a: MasterAction) -> bool {
    &&& same_identity(pre, post)
    &&& post.replication_offset == pre.replication_offset
    &&& post.store.map == pre.store.map
    &&& post.store.streams@.len() >= pre.store.streams@.len()
    &&& (forall|t: int|
        0 <= t < pre.store.streams@.len() ==> #[trigger] post.store.streams@[t]
            == pre.store.streams@[t])
    &&& (forall|t: int|
        pre.store.streams@.len() <= t < post.store.streams@.len()
            ==> (#[trigger] post.store.streams@[t]).1.entries@.len() == 0)
    &&& match xread_layout(vs) {
        None => a is Close && post == pre,
        Some((timeout, start)) => {
            let num = (vs.len() - start) / 2;
            let resolved = xread_resolve(post.store, vs, start, num, 0, false);
            let literals = xread_resolve(post.store, vs, start, num, 0, true);
            match (resolved, literals) {
                (Some(pairs), Some(qpairs)) => {
                    if xread_items(post.store, qpairs).len() > 0 {
                        a matches MasterAction::Reply(rb) && rb@ == enc(
                            Resp::Array(xread_items(post.store, qpairs)),
                        )
                    } else {
                        match timeout {
                            None => a matches MasterAction::Reply(rb) && rb@
                                == null_bulk_bytes(),
                            Some(t) => a matches MasterAction::Blocked {
                                stream,
                                resolved_id,
                                timeout_ms,
                                pairs: ps,
                            } && pairsv(ps@) == pairs && stream@ == pairs[0].0 && resolved_id
                                == pairs[0].1 && timeout_ms == t,
                        }
                    }
                },
                _ => a is Close,
            }
        },
    }
}

impl Master {
    /// Reads one frame off the front of the buffer and carries out the
    /// command it holds.  Also says how many bytes the frame took, so the
    /// caller can cut them off.
    pub fn handle_buffer(&mut self, buf: &[u8], now_ms: u64) -> (r: (MasterAction, usize))
        requires
            old(self).wf(),
        ensures
            final(self).wf(),
            ({
                match spec_decode(buf@) {
                    Decoded::Incomplete => r.0 is NeedMore && r.1 == 0 && *final(self) == *old(
                        self,
                    ),
                    Decoded::Malformed => r.0 is Close && r.1 == 0 && *final(self) == *old(self),
                    Decoded::Found(m, n) => r.1 == n && (match m {
                        Resp::Array(vs) => master_step(*old(self), *final(self), vs, now_ms, r.0),
                        _ => r.0 is Ignore && *final(self) == *old(self),
                    }),
                }
            }),
    {
        let (data, n) = match Data::decode(buf) {
            Ok(p) => p,
            Err(e) => {
                if matches!(e, crate::resp::DecodeError::NeedMoreBytes) {
                    return (MasterAction::NeedMore, 0);
                } else {
                    return (MasterAction::Close, 0);
                }
            },
        };
        let vs = match data {
            Data::Array(vs) => vs,
            _ => {
                return (MasterAction::Ignore, n);
            },
        };
        let ghost vsm = dv_seq(vs@);
        let word = match arg_at(&vs, 0) {
            None => {
                return (MasterAction::Close, n);
            },
            Some(w) => copy_bytes(w.as_slice()),
        };
        let a: MasterAction = if word_is(word.as_slice(), "ping") {
            MasterAction::Reply(simple_reply("PONG"))
        } else if word_is(word.as_slice(), "echo") {
            self.do_echo(&vs)
        } else if word_is(word.as_slice(), "get") {
            self.do_get(&vs, now_ms)
        } else if word_is(word.as_slice(), "type") {
            self.do_type(&vs, now_ms)
        } else if word_is(word.as_slice(), "set") {
            self.do_set(&vs, now_ms)
        } else if word_is(word.as_slice(), "keys") {
            self.do_keys(&vs, now_ms)
        } else if word_is(word.as_slice(), "xadd") {
            self.do_xadd(&vs, now_ms)
        } else if word_is(word.as_slice(), "xrange") {
            self.do_xrange(&vs)
        } else if word_is(word.as_slice(), "xread") {
            self.do_xread(&vs, now_ms)
        } else if word_is(word.as_slice(), "config") {
            self.do_config(&vs)
        } else if word_is(word.as_slice(), "info") {
            self.do_info(&vs)
        } else if word_is(word.as_slice(), "replconf") {
            MasterAction::Reply(simple_reply("OK"))
        } else if word_is(word.as_slice(), "psync") {
            self.do_psync(&vs)
        } else if word_is(word.as_slice(), "wait") {
            self.do_wait(&vs)
        } else {
            MasterAction::Close
        };
        (a, n)
    }
}

/// What a well-formed acknowledgement frame reports: the offset inside
/// `REPLCONF ACK <offset>`.
pub open spec fn spec_ack(s: Seq<u8>) -> Option<u64> {
    match spec_decode(s) {
        Decoded::Found(m, n) => match m {
            Resp::Array(vs) => {
                if vs.len() == 3 && spec_arg(vs, 0) is Some && spec_arg(vs, 1) is Some && spec_arg(
                    vs,
                    2,
                ) is Some && lower(spec_arg(vs, 0).unwrap()) == "replconf".spec_bytes() && spec_arg(
                    vs,
                    1,
                ).unwrap() == "ACK".spec_bytes() {
                    crate::stream::spec_parse_u64(spec_arg(vs, 2).unwrap())
                } else {
                    None
                }
            },
            _ => None,
        },
        _ => None,
    }
}

/// Reads one replica acknowledgement frame: the offset it reports, or
/// nothing when the frame is not a well-formed acknowledgement.
pub fn parse_ack(buf: &[u8]) -> (r: Option<u64>)
    ensures
        r == spec_ack(buf@),
{
    let (data, _n) = match Data::decode(buf) {
        Ok(p) => p,
        Err(_) => {
            return None;
        },
    };
    let vs = match data {
        Data::Array(vs) => vs,
        Data::SimpleString(_) | Data::BulkString(_) | Data::NullBulkString | Data::Integer(_)
            | Data::SimpleError(_) | Data::Unknown(_) => {
            return None;
        },
    };
    proof {
        lemma_dv_seq_index(vs@);
    }
    if vs.len() != 3 {
        return None;
    }
    let w0 = match arg_at(&vs, 0) {
        None => {
            return None;
        },
        Some(w) => w,
    };
    let w1 = match arg_at(&vs, 1) {
        None => {
            return None;
        },
        Some(w) => w,
    };
    let w2 = match arg_at(&vs, 2) {
        None => {
            return None;
        },
        Some(w) => w,
    };
    if !word_is(w0.as_slice(), "replconf") {
        return None;
    }
    if !crate::num::bytes_eq(w1.as_slice(), "ACK".as_bytes()) {
        return None;
    }
    crate::stream::parse_u64(w2.as_slice())
}

/// The rows of a range result, as mathematical values.
pub open spec fn rowsv(rs: Seq<(EntryId, Vec<crate::stream::Entry>)>) -> Seq<crate::stream::SpecRow> {
    rs.map(
        |i: int, p: (EntryId, Vec<crate::stream::Entry>)|
            (p.0, crate::stream::entries_view(p.1@)),
    )
}

/// The back-to-back encodings of rows.
pub open spec fn rows_enc(rows: Seq<crate::stream::SpecRow>) -> Seq<u8>
    decreases rows.len(),
{
    if rows.len() == 0 {
        Seq::empty()
    } else {
        enc(row_resp(rows[0])) + rows_enc(rows.drop_first())
    }
}

proof fn lemma_rows_enc(rows: Seq<crate::stream::SpecRow>)
    ensures
        rows_enc(rows) == enc_seq(rows_resp(rows)),
    decreases rows.len(),
{
    if rows.len() > 0 {
        lemma_rows_enc(rows.drop_first());
        assert(rows_resp(rows)[0] == row_resp(rows[0]));
        assert(rows_resp(rows).drop_first() =~= rows_resp(rows.drop_first()));
        assert(rows_resp(rows).len() == rows.len());
        assert(enc_seq(rows_resp(rows)) == enc(rows_resp(rows)[0]) + enc_seq(
            rows_resp(rows).drop_first(),
        ));
    } else {
        assert(rows_resp(rows).len() == 0);
    }
}

/// The back-to-back encodings of flattened fields.
pub open spec fn fields_enc(fs: Seq<(Seq<u8>, Seq<u8>)>) -> Seq<u8>
    decreases fs.len(),
{
    if fs.len() == 0 {
        Seq::empty()
    } else {
        enc(Resp::Bulk(fs[0].0)) + enc(Resp::Bulk(fs[0].1)) + fields_enc(fs.drop_first())
    }
}

proof fn lemma_fields_enc(fs: Seq<(Seq<u8>, Seq<u8>)>)
    ensures
        fields_enc(fs) == enc_seq(flatten_fields(fs)),
    decreases fs.len(),
{
    if fs.len() > 0 {
        lemma_fields_enc(fs.drop_first());
        let fl = flatten_fields(fs);
        assert(fl[0] == Resp::Bulk(fs[0].0));
        assert(fl.drop_first()[0] == Resp::Bulk(fs[0].1));
        assert(fl.drop_first().drop_first() =~= flatten_fields(fs.drop_first()));
        assert(fl.len() >= 2);
        assert(enc_seq(fl) == enc(fl[0]) + enc_seq(fl.drop_first()));
        assert(enc_seq(fl.drop_first()) == enc(fl.drop_first()[0]) + enc_seq(
            fl.drop_first().drop_first(),
        ));
        assert(fields_enc(fs) =~= enc_seq(fl));
    } else {
        assert(flatten_fields(fs).len() == 0);
    }
}

proof fn lemma_flatten_len(fs: Seq<(Seq<u8>, Seq<u8>)>)
    ensures
        flatten_fields(fs).len() == 2 * fs.len(),
    decreases fs.len(),
{
    if fs.len() > 0 {
        lemma_flatten_len(fs.drop_first());
    }
}

/// One row, encoded: the id as a bulk string, then the flat fields.
fn encode_row(id: &EntryId, fields: &Vec<crate::stream::Entry>) -> (r: Vec<u8>)
    ensures
        r@ == enc(row_resp((*id, crate::stream::entries_view(fields@)))),
{
    let ghost fv = crate::stream::entries_view(fields@);
    let mut inner: Vec<u8> = Vec::new();
    inner.push(crate::resp::TAG_ARRAY);
    let mut cnt = crate::num::u128_digits(2 * (fields.len() as u128));
    inner.append(&mut cnt);
    inner.push(crate::resp::CR);
    inner.push(crate::resp::LF);
    let ghost inner_header = inner@;
    proof {
        assert(inner_header =~= seq![crate::resp::TAG_ARRAY] + dec_digits(2 * fv.len()) + crlf());
        assert(fv.skip(0) =~= fv);
        assert(inner@ =~= inner_header + fields_enc(fv.take(0)));
    }
    let ghost mut acc = Seq::<u8>::empty();
    let m = fields.len();
    for j in 0..m
        invariant
            m == fields@.len(),
            fv == crate::stream::entries_view(fields@),
            fv.len() == m,
            inner@ == inner_header + acc,
            fields_enc(fv) == acc + fields_enc(fv.skip(j as int)),
            inner_header == seq![crate::resp::TAG_ARRAY] + dec_digits(2 * fv.len()) + crlf(),
    {
        proof {
            assert(fv[j as int] == (fields@[j as int].key@, fields@[j as int].value@));
            assert(fv.skip(j as int)[0] == fv[j as int]);
            assert(fv.skip(j as int).drop_first() =~= fv.skip(j + 1));
        }
        let mut kb = crate::resp::encode_bulk_string(&fields[j].key);
        inner.append(&mut kb);
        let mut vb = crate::resp::encode_bulk_string(&fields[j].value);
        inner.append(&mut vb);
        proof {
            acc = acc + enc(Resp::Bulk(fv[j as int].0)) + enc(Resp::Bulk(fv[j as int].1));
            assert(inner@ =~= inner_header + acc);
            assert(fields_enc(fv) =~= acc + fields_enc(fv.skip(j + 1)));
        }
    }
    proof {
        assert(fv.skip(m as int) =~= Seq::<(Seq<u8>, Seq<u8>)>::empty());
        assert(fields_enc(fv) =~= acc);
        lemma_fields_enc(fv);
        lemma_flatten_len(fv);
        assert(inner@ =~= enc(Resp::Array(flatten_fields(fv))));
    }
    let mut r: Vec<u8> = Vec::new();
    r.push(crate::resp::TAG_ARRAY);
    r.push(50);
    r.push(crate::resp::CR);
    r.push(crate::resp::LF);
    proof {
        assert(dec_digits(2) =~= seq![50u8]);
        assert(r@ =~= seq![crate::resp::TAG_ARRAY] + dec_digits(2) + crlf());
    }
    let rendered = id.render();
    let mut id_bulk = crate::resp::encode_bulk_string(&rendered);
    r.append(&mut id_bulk);
    r.append(&mut inner);
    proof {
        let items = seq![
            Resp::Bulk(EntryId::spec_render(*id)),
            Resp::Array(flatten_fields(fv)),
        ];
        assert(items.drop_first() =~= seq![Resp::Array(flatten_fields(fv))]);
        assert(items.drop_first().drop_first() =~= Seq::<Resp>::empty());
        assert(enc_seq(items) == enc(items[0]) + enc_seq(items.drop_first()));
        assert(enc_seq(items.drop_first()) == enc(items[1]) + enc_seq(
            items.drop_first().drop_first(),
        ));
        assert(r@ =~= enc(row_resp((*id, fv))));
    }
    r
}

/// The rows of a range result, encoded as one array reply.
fn rows_reply(rows: &Vec<(EntryId, Vec<crate::stream::Entry>)>) -> (r: Vec<u8>)
    ensures
        r@ == enc(Resp::Array(rows_resp(rowsv(rows@)))),
{
    let ghost rv = rowsv(rows@);
    let mut r: Vec<u8> = Vec::new();
    r.push(crate::resp::TAG_ARRAY);
    let mut cnt = crate::num::u64_digits(rows.len() as u64);
    r.append(&mut cnt);
    r.push(crate::resp::CR);
    r.push(crate::resp::LF);
    let ghost header = r@;
    proof {
        assert(header =~= seq![crate::resp::TAG_ARRAY] + dec_digits(rv.len()) + crlf());
        assert(rv.skip(0) =~= rv);
    }
    let ghost mut acc = Seq::<u8>::empty();
    let n = rows.len();
    for i in 0..n
        invariant
            n == rows@.len(),
            rv == rowsv(rows@),
            rv.len() == n,
            r@ == header + acc,
            rows_enc(rv) == acc + rows_enc(rv.skip(i as int)),
            header == seq![crate::resp::TAG_ARRAY] + dec_digits(rv.len()) + crlf(),
    {
        proof {
            assert(rv[i as int] == (rows@[i as int].0, crate::stream::entries_view(
                rows@[i as int].1@,
            )));
            assert(rv.skip(i as int)[0] == rv[i as int]);
            assert(rv.skip(i as int).drop_first() =~= rv.skip(i + 1));
        }
        let mut piece = encode_row(&rows[i].0, &rows[i].1);
        r.append(&mut piece);
        proof {
            acc = acc + enc(row_resp(rv[i as int]));
            assert(r@ =~= header + acc);
            assert(rows_enc(rv) =~= acc + rows_enc(rv.skip(i + 1)));
        }
    }
    proof {
        assert(rv.skip(n as int) =~= Seq::<crate::stream::SpecRow>::empty());
        assert(rows_enc(rv) =~= acc);
        lemma_rows_enc(rv);
        assert(r@ =~= enc(Resp::Array(rows_resp(rv))));
    }
    r
}

impl Master {
    fn do_xrange(&self, vs: &Vec<Data>) -> (a: MasterAction)
        ensures
            step_xrange(*self, *self, dv_seq(vs@), a),
    {
        proof {
            lemma_dv_seq_index(vs@);
        }
        let ghost vsm = dv_seq(vs@);
        if vs.len() != 4 {
            return MasterAction::Close;
        }
        let key = match arg_at(vs, 1) {
            None => {
                return MasterAction::Close;
            },
            Some(x) => x,
        };
        let lo_raw = match arg_at(vs, 2) {
            None => {
                return MasterAction::Close;
            },
            Some(x) => x,
        };
        let hi_raw = match arg_at(vs, 3) {
            None => {
                return MasterAction::Close;
            },
            Some(x) => x,
        };
        let lo = match EntryId::create_start(lo_raw.as_slice()) {
            Err(_) => {
                return MasterAction::Close;
            },
            Ok(b) => b,
        };
        let hi = match EntryId::create_end(hi_raw.as_slice()) {
            Err(_) => {
                return MasterAction::Close;
            },
            Ok(b) => b,
        };
        let rows = self.store.get_stream_range(
            key.as_slice(),
            crate::stream::IdBound::Included(lo),
            crate::stream::IdBound::Included(hi),
        );
        proof {
            let k = spec_arg(vsm, 1).unwrap();
            crate::store::lemma_key_idx(self.store.streams@, k);
            if key_idx(self.store.streams@, k) == -1 {
                assert(crate::stream::select_rows(
                    stream_rows_of(self.store, k),
                    crate::stream::IdBound::Included(lo),
                    crate::stream::IdBound::Included(hi),
                ) =~= Seq::<crate::stream::SpecRow>::empty());
            }
            assert(rowsv(rows@) =~= crate::stream::select_rows(
                stream_rows_of(self.store, k),
                crate::stream::IdBound::Included(lo),
                crate::stream::IdBound::Included(hi),
            ));
        }
        MasterAction::Reply(rows_reply(&rows))
    }

    #[verifier::loop_isolation(false)]
    fn do_xadd(&mut self, vs: &Vec<Data>, now_ms: u64) -> (a: MasterAction)
        requires
            old(self).wf(),
        ensures
            final(self).wf(),
            step_xadd(*old(self), *final(self), dv_seq(vs@), now_ms, a),
    {
        proof {
            lemma_dv_seq_index(vs@);
        }
        let ghost vsm = dv_seq(vs@);
        if vs.len() < 5 || vs.len() % 2 != 1 {
            return MasterAction::Close;
        }
        let key = match arg_at(vs, 1) {
            None => {
                return MasterAction::Close;
            },
            Some(x) => copy_bytes(x.as_slice()),
        };
        let idraw = match arg_at(vs, 2) {
            None => {
                return MasterAction::Close;
            },
            Some(x) => copy_bytes(x.as_slice()),
        };
        let mut entries: Vec<crate::stream::Entry> = Vec::new();
        let mut j: usize = 3;
        proof {
            assert(crate::stream::entries_view(entries@) =~= Seq::<(Seq<u8>, Seq<u8>)>::empty());
        }
        while j < vs.len()
            invariant
                3 <= j <= vsm.len(),
                (j - 3) % 2 == 0,
                ({
                    match xadd_fields(vsm, 3) {
                        Some(all) => xadd_fields(vsm, j as int) matches Some(rest) && all
                            == crate::stream::entries_view(entries@) + rest,
                        None => xadd_fields(vsm, j as int) is None,
                    }
                }),
            decreases vsm.len() - j,
        {
            let fk = match arg_at(vs, j) {
                None => {
                    return MasterAction::Close;
                },
                Some(x) => copy_bytes(x.as_slice()),
            };
            let fval = match arg_at(vs, j + 1) {
                None => {
                    return MasterAction::Close;
                },
                Some(x) => copy_bytes(x.as_slice()),
            };
            let ghost before = entries@;
            entries.push(crate::stream::Entry { key: fk, value: fval });
            proof {
                assert(entries@ =~= before.push(entries@.last()));
                assert(crate::stream::entries_view(entries@) =~= crate::stream::entries_view(
                    before,
                ).push((spec_arg(vsm, j as int).unwrap(), spec_arg(vsm, j + 1).unwrap())));
                match xadd_fields(vsm, 3) {
                    Some(all) => {
                        match xadd_fields(vsm, j + 2) {
                            Some(rest2) => {
                                assert(all =~= crate::stream::entries_view(entries@) + rest2);
                            },
                            None => {},
                        }
                    },
                    None => {},
                }
            }
            j = j + 2;
        }
        proof {
            match xadd_fields(vsm, 3) {
                Some(all) => {
                    assert(all =~= crate::stream::entries_view(entries@));
                },
                None => {},
            }
        }
        let ghost fields = xadd_fields(vsm, 3).unwrap();
        let ghost pre_streams = self.store.streams@;
        proof {
            crate::store::lemma_key_idx(pre_streams, key@);
        }
        let res = self.store.stream_set(key, idraw.as_slice(), entries, now_ms);
        match res {
            Err(e) => {
                let msg = e.message();
                MasterAction::Reply(crate::resp::encode_simple_error(&msg))
            },
            Ok(id) => {
                proof {
                    let k = spec_arg(vsm, 1).unwrap();
                    let i0 = key_idx(pre_streams, k);
                    if i0 >= 0 {
                        let prest = pre_streams[i0].1;
                        let poststream = self.store.streams@[i0].1;
                        assert(poststream.rows() =~= prest.rows().push((id, fields)));
                    } else {
                        let poststream = self.store.streams@.last().1;
                        assert(poststream.rows() =~= seq![(id, fields)]);
                        assert(self.store.streams@.take(pre_streams.len() as int)
                            == pre_streams);
                    }
                }
                let rendered = id.render();
                MasterAction::Reply(crate::resp::encode_bulk_string(&rendered))
            },
        }
    }

    #[verifier::rlimit(100)]
    fn do_xread(&mut self, vs: &Vec<Data>, now_ms: u64) -> (a: MasterAction)
        requires
            old(self).wf(),
        ensures
            final(self).wf(),
            step_xread(*old(self), *final(self), dv_seq(vs@), now_ms, a),
    {
        proof {
            lemma_dv_seq_index(vs@);
        }
        let ghost vsm = dv_seq(vs@);
        if vs.len() < 4 || vs.len() % 2 != 0 {
            return MasterAction::Close;
        }
        let a1 = match arg_at(vs, 1) {
            None => {
                return MasterAction::Close;
            },
            Some(x) => x,
        };
        let (timeout, start): (Option<u64>, usize) = if word_is(a1.as_slice(), "block") {
            let t_raw = match arg_at(vs, 2) {
                None => {
                    return MasterAction::Close;
                },
                Some(x) => x,
            };
            match crate::stream::parse_u64(t_raw.as_slice()) {
                None => {
                    return MasterAction::Close;
                },
                Some(0u64) => (Some(u64::MAX), 4),
                Some(t) => (Some(t), 4),
            }
        } else {
            (None, 2)
        };
        if vs.len() < start + 2 {
            return MasterAction::Close;
        }
        let num = (vs.len() - start) / 2;
        assert(start + 2 * num <= vs@.len());
        assert(xread_layout(vsm) == Some((timeout, start as int)));
        let mut names: Vec<Vec<u8>> = Vec::new();
        let mut ids: Vec<Vec<u8>> = Vec::new();
        for i in 0..num
            invariant
                names@.len() == i,
                ids@.len() == i,
                start + 2 * num <= vs@.len(),
                vs@.len() <= usize::MAX,
                num > 0,
                vsm == dv_seq(vs@),
                xread_layout(vsm) == Some((timeout, start as int)),
                num == (vsm.len() - start as int) / 2,
                forall|t: int|
                    0 <= t < i ==> (#[trigger] spec_arg(vsm, start + t)) == Some(names@[t]@),
                forall|t: int|
                    0 <= t < i ==> (#[trigger] spec_arg(vsm, start + num + t)) == Some(
                        ids@[t]@,
                    ),
                *self == *old(self),
                self.wf(),
        {
            let nm = match arg_at(vs, start + i) {
                None => {
                    proof {
                        if i > 0 {
                            lemma_resolve_none_up(
                                self.store,
                                vsm,
                                start as int,
                                num as int,
                                0,
                                i as int,
                                false,
                            );
                        }
                    }
                    return MasterAction::Close;
                },
                Some(x) => copy_bytes(x.as_slice()),
            };
            let idb = match arg_at(vs, start + num + i) {
                None => {
                    proof {
                        if i > 0 {
                            lemma_resolve_none_up(
                                self.store,
                                vsm,
                                start as int,
                                num as int,
                                0,
                                i as int,
                                false,
                            );
                        }
                    }
                    return MasterAction::Close;
                },
                Some(x) => copy_bytes(x.as_slice()),
            };
            names.push(nm);
            ids.push(idb);
        }
        let ghost pre_streams = old(self).store.streams@;
        let mut maxes: Vec<EntryId> = Vec::new();
        for i in 0..num
            invariant
                self.wf(),
                names@.len() == num,
                maxes@.len() == i,
                vsm == dv_seq(vs@),
                xread_layout(vsm) == Some((timeout, start as int)),
                num == (vsm.len() - start as int) / 2,
                self.store.map == old(self).store.map,
                same_identity(*old(self), *self),
                self.replication_offset == old(self).replication_offset,
                self.store.streams@.len() >= pre_streams.len(),
                forall|t: int|
                    0 <= t < pre_streams.len() ==> #[trigger] self.store.streams@[t]
                        == pre_streams[t],
                forall|t: int|
                    pre_streams.len() <= t < self.store.streams@.len() ==> (
                    #[trigger] self.store.streams@[t]).1.entries@.len() == 0,
                forall|t: int|
                    0 <= t < i ==> key_idx(self.store.streams@, (#[trigger] names@[t])@) >= 0,
                forall|t: int|
                    0 <= t < i ==> maxes@[t] == stream_max_of(
                        self.store,
                        (#[trigger] names@[t])@,
                    ),
        {
            let ghost mid_streams = self.store.streams@;
            let key = copy_bytes(names[i].as_slice());
            let mx = self.store.get_stream_curr_max_id(key);
            maxes.push(mx);
            proof {
                crate::store::lemma_key_idx(mid_streams, names@[i as int]@);
                let i0 = key_idx(mid_streams, names@[i as int]@);
                if i0 == -1 {
                    assert(forall|t: int|
                        0 <= t < mid_streams.len() ==> #[trigger] self.store.streams@[t]
                            == mid_streams[t]);
                    let pushed = self.store.streams@.last();
                    assert forall|t: int| 0 <= t < i implies key_idx(
                        self.store.streams@,
                        (#[trigger] names@[t])@,
                    ) == key_idx(mid_streams, names@[t]@) by {
                        crate::store::lemma_key_idx(mid_streams, names@[t]@);
                        crate::store::lemma_key_idx_push(mid_streams, pushed, names@[t]@);
                        assert(self.store.streams@ =~= mid_streams.push(pushed));
                    }
                    crate::store::lemma_key_idx_push(mid_streams, pushed, names@[i as int]@);
                    assert(self.store.streams@ =~= mid_streams.push(pushed));
                    assert(key_idx(self.store.streams@, names@[i as int]@)
                        == mid_streams.len());
                    assert(stream_max_of(self.store, names@[i as int]@) == EntryId::zero());
                } else {
                    assert(self.store.streams@ == mid_streams);
                }
                assert forall|t: int| 0 <= t < i implies maxes@[t] == stream_max_of(
                    self.store,
                    (#[trigger] names@[t])@,
                ) by {
                    crate::store::lemma_key_idx(mid_streams, names@[t]@);
                }
            }
        }
        let mut pairs: Vec<(Vec<u8>, EntryId)> = Vec::new();
        let mut query_pairs: Vec<(Vec<u8>, EntryId)> = Vec::new();
        let ghost st = *self;
        for i in 0..num
            invariant
                names@.len() == num,
                ids@.len() == num,
                maxes@.len() == num,
                pairs@.len() == i,
                vsm == dv_seq(vs@),
                xread_layout(vsm) == Some((timeout, start as int)),
                num == (vsm.len() - start as int) / 2,
                start + 2 * num <= vs@.len(),
                forall|t: int|
                    0 <= t < num ==> (#[trigger] spec_arg(vsm, start + t)) == Some(names@[t]@),
                forall|t: int|
                    0 <= t < num ==> (#[trigger] spec_arg(vsm, start + num + t)) == Some(
                        ids@[t]@,
                    ),
                forall|t: int|
                    0 <= t < num ==> maxes@[t] == stream_max_of(
                        st.store,
                        (#[trigger] names@[t])@,
                    ),
                *self == st,
                self.wf(),
                self.store.map == old(self).store.map,
                same_identity(*old(self), *self),
                self.replication_offset == old(self).replication_offset,
                self.store.streams@.len() >= pre_streams.len(),
                pre_streams == old(self).store.streams@,
                forall|t: int|
                    0 <= t < pre_streams.len() ==> #[trigger] self.store.streams@[t]
                        == pre_streams[t],
                forall|t: int|
                    pre_streams.len() <= t < self.store.streams@.len() ==> (
                    #[trigger] self.store.streams@[t]).1.entries@.len() == 0,
                ({
                    match xread_resolve(st.store, vsm, start as int, num as int, 0, false) {
                        Some(all) => xread_resolve(
                            st.store,
                            vsm,
                            start as int,
                            num as int,
                            i as int,
                            false,
                        ) matches Some(rest) && all == pairsv(pairs@) + rest,
                        None => xread_resolve(
                            st.store,
                            vsm,
                            start as int,
                            num as int,
                            i as int,
                            false,
                        ) is None,
                    }
                }),
                ({
                    match xread_resolve(st.store, vsm, start as int, num as int, 0, true) {
                        Some(all) => xread_resolve(
                            st.store,
                            vsm,
                            start as int,
                            num as int,
                            i as int,
                            true,
                        ) matches Some(rest) && all == pairsv(query_pairs@) + rest,
                        None => xread_resolve(
                            st.store,
                            vsm,
                            start as int,
                            num as int,
                            i as int,
                            true,
                        ) is None,
                    }
                }),
        {
            let is_dollar = ids[i].len() == 1 && ids[i][0] == 36;
            proof {
                if is_dollar {
                    assert(ids@[i as int]@ =~= seq![36u8]);
                } else {
                    assert(!(ids@[i as int]@ =~= seq![36u8]));
                }
            }
            let rid: EntryId = if is_dollar {
                maxes[i]
            } else {
                match EntryId::create_start(ids[i].as_slice()) {
                    Err(_) => {
                        proof {
                            assert(xread_resolve(
                                st.store,
                                vsm,
                                start as int,
                                num as int,
                                i as int,
                                false,
                            ) is None);
                        }
                        return MasterAction::Close;
                    },
                    Ok(b) => b,
                }
            };
            let ghost pairs0 = pairs@;
            let ghost qpairs0 = query_pairs@;
            pairs.push((copy_bytes(names[i].as_slice()), rid));
            if !is_dollar {
                query_pairs.push((copy_bytes(names[i].as_slice()), rid));
            }
            proof {
                assert(pairs@ =~= pairs0.push(pairs@.last()));
                assert(pairsv(pairs@) =~= pairsv(pairs0).push((names@[i as int]@, rid)));
                if !is_dollar {
                    assert(query_pairs@ =~= qpairs0.push(query_pairs@.last()));
                    assert(pairsv(query_pairs@) =~= pairsv(qpairs0).push(
                        (names@[i as int]@, rid),
                    ));
                } else {
                    assert(pairsv(query_pairs@) =~= pairsv(qpairs0));
                }
                match xread_resolve(st.store, vsm, start as int, num as int, 0, false) {
                    Some(all) => {
                        match xread_resolve(
                            st.store,
                            vsm,
                            start as int,
                            num as int,
                            i + 1,
                            false,
                        ) {
                            Some(rest2) => {
                                assert(all =~= pairsv(pairs@) + rest2);
                            },
                            None => {},
                        }
                    },
                    None => {},
                }
                match xread_resolve(st.store, vsm, start as int, num as int, 0, true) {
                    Some(all) => {
                        match xread_resolve(
                            st.store,
                            vsm,
                            start as int,
                            num as int,
                            i + 1,
                            true,
                        ) {
                            Some(rest2) => {
                                assert(all =~= pairsv(query_pairs@) + rest2);
                            },
                            None => {},
                        }
                    },
                    None => {},
                }
            }
        }
        proof {
            match xread_resolve(st.store, vsm, start as int, num as int, 0, false) {
                Some(all) => {
                    assert(all =~= pairsv(pairs@));
                },
                None => {},
            }
            match xread_resolve(st.store, vsm, start as int, num as int, 0, true) {
                Some(all) => {
                    assert(all =~= pairsv(query_pairs@));
                },
                None => {},
            }
        }
        match self.xread_query(&query_pairs) {
            Some(reply) => MasterAction::Reply(reply),
            None => {
                proof {
                    assert(null_bulk_bytes() == xread_reply_bytes(
                        self.store,
                        pairsv(query_pairs@),
                    ));
                }
                match timeout {
                    None => MasterAction::Reply(crate::resp::encode_null_bulk_string()),
                    Some(t) => {
                        let first_stream = copy_bytes(pairs[0].0.as_slice());
                        let first_id = pairs[0].1;
                        proof {
                            assert(pairsv(pairs@)[0] == (pairs@[0].0@, pairs@[0].1));
                        }
                        MasterAction::Blocked {
                            stream: first_stream,
                            resolved_id: first_id,
                            timeout_ms: t,
                            pairs,
                        }
                    },
                }
            },
        }
    }

    /// Runs the query over resolved pairs: the reply when some stream has
    /// news, or nothing when all are silent.
    pub fn xread_query(&self, pairs: &Vec<(Vec<u8>, EntryId)>) -> (r: Option<Vec<u8>>)
        ensures
            r is Some <==> xread_items(self.store, pairsv(pairs@)).len() > 0,
            (r matches Some(rb) ==> rb@ == xread_reply_bytes(self.store, pairsv(pairs@))),
    {
        let ghost pv = pairsv(pairs@);
        let mut items: Vec<(Vec<u8>, Vec<(EntryId, Vec<crate::stream::Entry>)>)> = Vec::new();
        let n = pairs.len();
        proof {
            assert(pv.skip(0) =~= pv);
            assert(itemsv(items@) =~= Seq::<Resp>::empty());
        }
        for i in 0..n
            invariant
                n == pairs@.len(),
                pv == pairsv(pairs@),
                pv.len() == n,
                xread_items(self.store, pv) == itemsv(items@) + xread_items(
                    self.store,
                    pv.skip(i as int),
                ),
        {
            proof {
                assert(pv[i as int] == (pairs@[i as int].0@, pairs@[i as int].1));
                assert(pv.skip(i as int)[0] == pv[i as int]);
                assert(pv.skip(i as int).drop_first() =~= pv.skip(i + 1));
                crate::store::lemma_key_idx(self.store.streams@, pv[i as int].0);
            }
            let rows = self.store.get_stream_range(
                pairs[i].0.as_slice(),
                crate::stream::IdBound::Excluded(pairs[i].1),
                crate::stream::IdBound::Included(EntryId::max()),
            );
            proof {
                let k = pv[i as int].0;
                if key_idx(self.store.streams@, k) == -1 {
                    assert(crate::stream::select_rows(
                        stream_rows_of(self.store, k),
                        crate::stream::IdBound::Excluded(pv[i as int].1),
                        crate::stream::IdBound::Included(EntryId::top()),
                    ) =~= Seq::<crate::stream::SpecRow>::empty());
                }
                assert(rowsv(rows@) =~= crate::stream::select_rows(
                    stream_rows_of(self.store, k),
                    crate::stream::IdBound::Excluded(pv[i as int].1),
                    crate::stream::IdBound::Included(EntryId::top()),
                ));
            }
            if rows.len() > 0 {
                let ghost items0 = items@;
                items.push((copy_bytes(pairs[i].0.as_slice()), rows));
                proof {
                    assert(items@ =~= items0.push(items@.last()));
                    assert(itemsv(items@) =~= itemsv(items0).push(
                        Resp::Array(
                            seq![
                                Resp::Bulk(pv[i as int].0),
                                Resp::Array(rows_resp(rowsv(rows@))),
                            ],
                        ),
                    ));
                    assert(xread_items(self.store, pv) =~= itemsv(items@) + xread_items(
                        self.store,
                        pv.skip(i + 1),
                    ));
                }
            } else {
                proof {
                    assert(rowsv(rows@).len() == 0);
                }
            }
        }
        proof {
            assert(pv.skip(n as int) =~= Seq::<(Seq<u8>, EntryId)>::empty());
            assert(xread_items(self.store, pv) =~= itemsv(items@));
            assert(itemsv(items@).len() == items@.len());
        }
        if items.len() == 0 {
            None
        } else {
            Some(xread_encode(&items))
        }
    }

    /// The blocked read run again after a wake: the reply either way.
    pub fn xread_retry(&self, pairs: &Vec<(Vec<u8>, EntryId)>) -> (r: Vec<u8>)
        ensures
            r@ == xread_reply_bytes(self.store, pairsv(pairs@)),
    {
        match self.xread_query(pairs) {
            Some(rb) => rb,
            None => crate::resp::encode_null_bulk_string(),
        }
    }

    /// Registers a wake channel on the stream for a blocked read: the
    /// stream, created first when absent, gains one subscriber waiting past
    /// `id` at the back of its list, and nothing else moves.
    pub fn xread_subscribe(&mut self, stream: Vec<u8>, id: EntryId) -> (r:
        crossbeam_channel::Receiver<()>)
        requires
            old(self).wf(),
        ensures
            final(self).wf(),
            final(self).store.map == old(self).store.map,
            same_identity(*old(self), *final(self)),
            final(self).replication_offset == old(self).replication_offset,
            ({
                let i0 = key_idx(old(self).store.streams@, stream@);
                let ns = final(self).store.streams@;
                if i0 >= 0 {
                    &&& ns.len() == old(self).store.streams@.len()
                    &&& (forall|t: int|
                        0 <= t < ns.len() && t != i0 ==> #[trigger] ns[t]
                            == old(self).store.streams@[t])
                    &&& ns[i0].0 == old(self).store.streams@[i0].0
                    &&& ns[i0].1.entries == old(self).store.streams@[i0].1.entries
                    &&& ns[i0].1.subscribers@.len() == old(
                        self,
                    ).store.streams@[i0].1.subscribers@.len() + 1
                    &&& ns[i0].1.subscribers@.last().0 == id
                    &&& ns[i0].1.subscribers@.take(
                        old(self).store.streams@[i0].1.subscribers@.len() as int,
                    ) == old(self).store.streams@[i0].1.subscribers@
                } else {
                    &&& ns.len() == old(self).store.streams@.len() + 1
                    &&& ns.take(old(self).store.streams@.len() as int) == old(
                        self,
                    ).store.streams@
                    &&& (ns.last().0)@ == stream@
                    &&& ns.last().1.entries@.len() == 0
                    &&& ns.last().1.subscribers@.len() == 1
                    &&& ns.last().1.subscribers@.last().0 == id
                }
            }),
    {
        self.store.stream_subscribe(stream, id)
    }
}

/// An item of a stream-read reply, for each queried stream with news.
pub open spec fn itemsv(
    items: Seq<(Vec<u8>, Vec<(EntryId, Vec<crate::stream::Entry>)>)>,
) -> Seq<Resp> {
    items.map(
        |i: int, p: (Vec<u8>, Vec<(EntryId, Vec<crate::stream::Entry>)>)|
            Resp::Array(seq![Resp::Bulk(p.0@), Resp::Array(rows_resp(rowsv(p.1@)))]),
    )
}

/// The back-to-back encodings of reply items.
pub open spec fn items_enc(items: Seq<Resp>) -> Seq<u8>
    decreases items.len(),
{
    if items.len() == 0 {
        Seq::empty()
    } else {
        enc(items[0]) + items_enc(items.drop_first())
    }
}

proof fn lemma_items_enc(items: Seq<Resp>)
    ensures
        items_enc(items) == enc_seq(items),
    decreases items.len(),
{
    if items.len() > 0 {
        lemma_items_enc(items.drop_first());
    }
}

/// One reply item, encoded: the stream's name, then its rows.
fn xread_item_bytes(name: &Vec<u8>, rows: &Vec<(EntryId, Vec<crate::stream::Entry>)>) -> (r: Vec<
    u8,
>)
    ensures
        r@ == enc(
            Resp::Array(seq![Resp::Bulk(name@), Resp::Array(rows_resp(rowsv(rows@)))]),
        ),
{
    let mut r: Vec<u8> = Vec::new();
    r.push(crate::resp::TAG_ARRAY);
    r.push(50);
    r.push(crate::resp::CR);
    r.push(crate::resp::LF);
    proof {
        assert(dec_digits(2) =~= seq![50u8]);
        assert(r@ =~= seq![crate::resp::TAG_ARRAY] + dec_digits(2) + crlf());
    }
    let mut name_bulk = crate::resp::encode_bulk_string(name);
    r.append(&mut name_bulk);
    let mut rows_bytes = rows_reply(rows);
    r.append(&mut rows_bytes);
    proof {
        let items = seq![Resp::Bulk(name@), Resp::Array(rows_resp(rowsv(rows@)))];
        assert(items.drop_first() =~= seq![Resp::Array(rows_resp(rowsv(rows@)))]);
        assert(items.drop_first().drop_first() =~= Seq::<Resp>::empty());
        assert(enc_seq(items) == enc(items[0]) + enc_seq(items.drop_first()));
        assert(enc_seq(items.drop_first()) == enc(items[1]) + enc_seq(
            items.drop_first().drop_first(),
        ));
        assert(r@ =~= enc(Resp::Array(items)));
    }
    r
}

/// A whole stream-read reply, encoded.
fn xread_encode(items: &Vec<(Vec<u8>, Vec<(EntryId, Vec<crate::stream::Entry>)>)>) -> (r: Vec<u8>)
    ensures
        r@ == enc(Resp::Array(itemsv(items@))),
{
    let ghost iv = itemsv(items@);
    let mut r: Vec<u8> = Vec::new();
    r.push(crate::resp::TAG_ARRAY);
    let mut cnt = crate::num::u64_digits(items.len() as u64);
    r.append(&mut cnt);
    r.push(crate::resp::CR);
    r.push(crate::resp::LF);
    let ghost header = r@;
    proof {
        assert(header =~= seq![crate::resp::TAG_ARRAY] + dec_digits(iv.len()) + crlf());
        assert(iv.skip(0) =~= iv);
    }
    let ghost mut acc = Seq::<u8>::empty();
    let n = items.len();
    for i in 0..n
        invariant
            n == items@.len(),
            iv == itemsv(items@),
            iv.len() == n,
            r@ == header + acc,
            items_enc(iv) == acc + items_enc(iv.skip(i as int)),
            header == seq![crate::resp::TAG_ARRAY] + dec_digits(iv.len()) + crlf(),
    {
        proof {
            assert(iv[i as int] == Resp::Array(
                seq![
                    Resp::Bulk(items@[i as int].0@),
                    Resp::Array(rows_resp(rowsv(items@[i as int].1@))),
                ],
            ));
            assert(iv.skip(i as int)[0] == iv[i as int]);
            assert(iv.skip(i as int).drop_first() =~= iv.skip(i + 1));
        }
        let mut piece = xread_item_bytes(&items[i].0, &items[i].1);
        r.append(&mut piece);
        proof {
            acc = acc + enc(iv[i as int]);
            assert(r@ =~= header + acc);
            assert(items_enc(iv) =~= acc + items_enc(iv.skip(i + 1)));
        }
    }
    proof {
        assert(iv.skip(n as int) =~= Seq::<Resp>::empty());
        assert(items_enc(iv) =~= acc);
        lemma_items_enc(iv);
        assert(r@ =~= enc(Resp::Array(iv)));
    }
    r
}

/// The wire bytes of one frame, whatever it holds: an `Unknown` encodes to
/// nothing, matching its model.
pub(crate) fn encode_data_raw(d: &Data) -> (r: Vec<u8>)
    ensures
        r@ == enc(d.dv()),
    decreases d, 0int,
{
    match d {
        Data::SimpleString(s) => crate::resp::encode_simple_string(s, TAG_SIMPLE),
        Data::BulkString(s) => crate::resp::encode_bulk_string(s),
        Data::NullBulkString => crate::resp::encode_null_bulk_string(),
        Data::Integer(i) => crate::resp::encode_integer(*i),
        Data::SimpleError(e) => crate::resp::encode_simple_error(e),
        Data::Unknown(_) => Vec::new(),
        Data::Array(vs) => encode_command(vs),
    }
}

} // verus!
