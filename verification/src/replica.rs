//! The replica role: the handshake it drives, the commands the master feeds
//! it, and the read-mostly commands it answers for its own clients.
use vstd::prelude::*;

use crate::master::arg_at;
use crate::master::bump_offset;
use crate::master::bulks_of;
use crate::master::copy_bytes;
use crate::master::encode_bulk_array;
use crate::master::lower;
use crate::master::sat_add;
use crate::master::simple_reply;
use crate::master::spec_arg;
use crate::master::str_bytes;
use crate::master::vecs_view;
use crate::master::word_is;
use crate::num::dec_digits;
use crate::num::find_byte;
use crate::resp::dv_seq;
use crate::resp::enc;
use crate::resp::lemma_dv_seq_index;
use crate::resp::spec_decode;
use crate::resp::Data;
use crate::resp::Decoded;
use crate::resp::Resp;
use crate::store::key_idx;
use crate::store::spec_expired;
use crate::store::Store;
use crate::value::Value;
use vstd::string::StringSliceAdditionalSpecFns;

verus! {

broadcast use crate::num::lemma_find_byte_bounds;

/// A replica's whole state: who its master is, how many bytes of commands it
/// has taken from it, and its own copy of the store.
#[derive(Debug)]
pub struct Replica {
    pub master_replication_id: Vec<u8>,
    pub replication_offset: u64,
    pub store: Store,
}

/// What the replication loop must do after one frame from the master.
#[derive(Debug)]
pub enum ReplicaAction {
    /// The frame is cut short: read more bytes and come back.
    NeedMore,
    /// The framing is broken or the command unusable: stop replicating.
    Close,
    /// The command was applied; write the reply back to the master when one
    /// is owed.
    Applied(Option<Vec<u8>>),
}

/// The first handshake message: a ping.
pub fn ping_message() -> (r: Vec<u8>)
    ensures
        r@ == enc(Resp::Array(seq![Resp::Bulk("PING".spec_bytes())])),
{
    let mut items: Vec<Vec<u8>> = Vec::new();
    items.push(str_bytes("PING"));
    let r = encode_bulk_array(&items);
    proof {
        assert(bulks_of(vecs_view(items@)) =~= seq![Resp::Bulk("PING".spec_bytes())]);
    }
    r
}

/// The second handshake message: the port this replica listens on.
pub fn replconf_port_message(port: u16) -> (r: Vec<u8>)
    ensures
        r@ == enc(
            Resp::Array(
                seq![
                    Resp::Bulk("REPLCONF".spec_bytes()),
                    Resp::Bulk("listening-port".spec_bytes()),
                    Resp::Bulk(dec_digits(port as nat)),
                ],
            ),
        ),
{
    let mut items: Vec<Vec<u8>> = Vec::new();
    items.push(str_bytes("REPLCONF"));
    items.push(str_bytes("listening-port"));
    items.push(crate::num::u64_digits(port as u64));
    let r = encode_bulk_array(&items);
    proof {
        assert(bulks_of(vecs_view(items@)) =~= seq![
            Resp::Bulk("REPLCONF".spec_bytes()),
            Resp::Bulk("listening-port".spec_bytes()),
            Resp::Bulk(dec_digits(port as nat)),
        ]);
    }
    r
}

/// The third handshake message: the capability announcement.
pub fn replconf_capa_message() -> (r: Vec<u8>)
    ensures
        r@ == enc(
            Resp::Array(
                seq![
                    Resp::Bulk("REPLCONF".spec_bytes()),
                    Resp::Bulk("capa".spec_bytes()),
                    Resp::Bulk("psync2".spec_bytes()),
                ],
            ),
        ),
{
    let mut items: Vec<Vec<u8>> = Vec::new();
    items.push(str_bytes("REPLCONF"));
    items.push(str_bytes("capa"));
    items.push(str_bytes("psync2"));
    let r = encode_bulk_array(&items);
    proof {
        assert(bulks_of(vecs_view(items@)) =~= seq![
            Resp::Bulk("REPLCONF".spec_bytes()),
            Resp::Bulk("capa".spec_bytes()),
            Resp::Bulk("psync2".spec_bytes()),
        ]);
    }
    r
}

/// The last handshake message: the request for a full resync.
pub fn psync_message() -> (r: Vec<u8>)
    ensures
        r@ == enc(
            Resp::Array(
                seq![
                    Resp::Bulk("PSYNC".spec_bytes()),
                    Resp::Bulk("?".spec_bytes()),
                    Resp::Bulk("-1".spec_bytes()),
                ],
            ),
        ),
{
    let mut items: Vec<Vec<u8>> = Vec::new();
    items.push(str_bytes("PSYNC"));
    items.push(str_bytes("?"));
    items.push(str_bytes("-1"));
    let r = encode_bulk_array(&items);
    proof {
        assert(bulks_of(vecs_view(items@)) =~= seq![
            Resp::Bulk("PSYNC".spec_bytes()),
            Resp::Bulk("?".spec_bytes()),
            Resp::Bulk("-1".spec_bytes()),
        ]);
    }
    r
}

/// Whether the buffer decodes as the whole simple string `w`.
pub open spec fn spec_simple_reply(s: Seq<u8>, w: Seq<u8>) -> bool {
    spec_decode(s) matches Decoded::Found(m, n) && m == Resp::Simple(w)
}

/// Whether a whole frame is the simple string `w`.
pub fn is_simple_reply(buf: &[u8], w: &str) -> (r: bool)
    ensures
        r == spec_simple_reply(buf@, w.spec_bytes()),
{
    let (data, _n) = match Data::decode(buf) {
        Ok(p) => p,
        Err(_) => {
            return false;
        },
    };
    match data {
        Data::SimpleString(s) => crate::num::bytes_eq(s.as_slice(), w.as_bytes()),
        _ => false,
    }
}

/// The second whitespace-separated word of a full-resync header: everything
/// between the first space byte and the one after it, or the end.
pub open spec fn second_token(p: Seq<u8>) -> Seq<u8> {
    let sp1 = find_byte(p, 32, 0);
    let sp2 = find_byte(p, 32, sp1 + 1);
    p.subrange(sp1 + 1, sp2)
}

/// Reads the master's replication id out of a full-resync reply: a simple
/// string whose second word is the id.
pub fn parse_fullresync(buf: &[u8]) -> (r: Option<Vec<u8>>)
    ensures
        match spec_decode(buf@) {
            Decoded::Found(m, n) => match m {
                Resp::Simple(p) => {
                    if find_byte(p, 32, 0) < p.len() {
                        r matches Some(id) && id@ == second_token(p)
                    } else {
                        r is None
                    }
                },
                _ => r is None,
            },
            _ => r is None,
        },
{
    let (data, _n) = match Data::decode(buf) {
        Ok(p) => p,
        Err(_) => {
            return None;
        },
    };
    let s = match data {
        Data::SimpleString(s) => s,
        _ => {
            return None;
        },
    };
    proof {
        crate::num::lemma_find_byte_chars(s@, 32, 0);
    }
    let ghost sp1g = find_byte(s@, 32, 0);
    let mut sp1: usize = 0;
    loop
        invariant
            0 <= sp1 <= sp1g <= s@.len(),
            sp1g == find_byte(s@, 32, 0),
            forall|k: int| 0 <= k < sp1g ==> s@[k] != 32,
            sp1g < s@.len() ==> s@[sp1g as int] == 32,
        ensures
            sp1 == sp1g,
        decreases s@.len() - sp1,
    {
        if sp1 >= s.len() || s[sp1] == 32 {
            assert(sp1 == sp1g);
            break;
        }
        sp1 = sp1 + 1;
    }
    if sp1 >= s.len() {
        return None;
    }
    proof {
        crate::num::lemma_find_byte_chars(s@, 32, sp1 + 1);
    }
    let ghost sp2g = find_byte(s@, 32, sp1 as int + 1);
    let mut sp2: usize = sp1 + 1;
    loop
        invariant
            sp1 + 1 <= sp2 <= sp2g <= s@.len(),
            sp2g == find_byte(s@, 32, sp1 as int + 1),
            forall|k: int| sp1 + 1 <= k < sp2g ==> s@[k] != 32,
            sp2g < s@.len() ==> s@[sp2g as int] == 32,
        ensures
            sp2 == sp2g,
        decreases s@.len() - sp2,
    {
        if sp2 >= s.len() || s[sp2] == 32 {
            assert(sp2 == sp2g);
            break;
        }
        sp2 = sp2 + 1;
    }
    Some(copy_bytes(vstd::slice::slice_subrange(s.as_slice(), sp1 + 1, sp2)))
}

/// Where the handshake with the master stands: each state names the reply
/// being waited for, and the last one carries what the handshake earned.
#[derive(Debug)]
pub enum Handshake {
    AwaitPong { port: u16 },
    AwaitPortOk,
    AwaitCapaOk,
    AwaitResync,
    Done { master_replication_id: Vec<u8> },
    Failed,
}

/// Opens the handshake: the state waiting for a pong, and the ping to send.
pub fn handshake_start(port: u16) -> (r: (Handshake, Vec<u8>))
    ensures
        r.0 == (Handshake::AwaitPong { port }),
        r.1@ == enc(Resp::Array(seq![Resp::Bulk("PING".spec_bytes())])),
{
    (Handshake::AwaitPong { port }, ping_message())
}

/// Drives the handshake one reply at a time: each message goes out only once
/// the expected reply to the one before it has come back, in the order ping,
/// the listening port, the capability, the resync request; the resync reply's
/// second word is the master's replication id.  Anything unexpected fails
/// the handshake for good.
pub fn handshake_on_reply(state: Handshake, frame: &[u8]) -> (r: (Handshake, Option<Vec<u8>>))
    ensures
        ({
            match state {
                Handshake::AwaitPong { port } => {
                    if spec_simple_reply(frame@, "PONG".spec_bytes()) {
                        &&& r.0 is AwaitPortOk
                        &&& (r.1 matches Some(m) && m@ == enc(
                            Resp::Array(
                                seq![
                                    Resp::Bulk("REPLCONF".spec_bytes()),
                                    Resp::Bulk("listening-port".spec_bytes()),
                                    Resp::Bulk(dec_digits(port as nat)),
                                ],
                            ),
                        ))
                    } else {
                        r.0 is Failed && r.1 is None
                    }
                },
                Handshake::AwaitPortOk => {
                    if spec_simple_reply(frame@, "OK".spec_bytes()) {
                        &&& r.0 is AwaitCapaOk
                        &&& (r.1 matches Some(m) && m@ == enc(
                            Resp::Array(
                                seq![
                                    Resp::Bulk("REPLCONF".spec_bytes()),
                                    Resp::Bulk("capa".spec_bytes()),
                                    Resp::Bulk("psync2".spec_bytes()),
                                ],
                            ),
                        ))
                    } else {
                        r.0 is Failed && r.1 is None
                    }
                },
                Handshake::AwaitCapaOk => {
                    if spec_simple_reply(frame@, "OK".spec_bytes()) {
                        &&& r.0 is AwaitResync
                        &&& (r.1 matches Some(m) && m@ == enc(
                            Resp::Array(
                                seq![
                                    Resp::Bulk("PSYNC".spec_bytes()),
                                    Resp::Bulk("?".spec_bytes()),
                                    Resp::Bulk("-1".spec_bytes()),
                                ],
                            ),
                        ))
                    } else {
                        r.0 is Failed && r.1 is None
                    }
                },
                Handshake::AwaitResync => {
                    &&& r.1 is None
                    &&& match spec_decode(frame@) {
                        Decoded::Found(m, n) => match m {
                            Resp::Simple(p) => {
                                if find_byte(p, 32, 0) < p.len() {
                                    r.0 matches Handshake::Done { master_replication_id }
                                        && master_replication_id@ == second_token(p)
                                } else {
                                    r.0 is Failed
                                }
                            },
                            _ => r.0 is Failed,
                        },
                        _ => r.0 is Failed,
                    }
                },
                _ => r.0 is Failed && r.1 is None,
            }
        }),
{
    match state {
        Handshake::AwaitPong { port } => {
            if is_simple_reply(frame, "PONG") {
                (Handshake::AwaitPortOk, Some(replconf_port_message(port)))
            } else {
                (Handshake::Failed, None)
            }
        },
        Handshake::AwaitPortOk => {
            if is_simple_reply(frame, "OK") {
                (Handshake::AwaitCapaOk, Some(replconf_capa_message()))
            } else {
                (Handshake::Failed, None)
            }
        },
        Handshake::AwaitCapaOk => {
            if is_simple_reply(frame, "OK") {
                (Handshake::AwaitResync, Some(psync_message()))
            } else {
                (Handshake::Failed, None)
            }
        },
        Handshake::AwaitResync => {
            match parse_fullresync(frame) {
                Some(id) => (Handshake::Done { master_replication_id: id }, None),
                None => (Handshake::Failed, None),
            }
        },
        Handshake::Done { master_replication_id: _ } => (Handshake::Failed, None),
        Handshake::Failed => (Handshake::Failed, None),
    }
}

/// What a SET command fed by the master means, and what it does: the same
/// write a client's SET performs, with no reply owed.
pub open spec fn rset_args(vs: Seq<Resp>) -> Option<(Seq<u8>, Seq<u8>, Option<u64>)> {
    crate::master::set_args(vs)
}

/// What one frame from the master does to the replica.
pub open spec fn replication_step(
    pre: Replica,
    post: Replica,
    vs: Seq<Resp>,
    now_ms: u64,
    a: ReplicaAction,
) -> bool {
    match spec_arg(vs, 0) {
        None => a is Close && post == pre,
        Some(c) => {
            let lc = lower(c);
            let grown = sat_add(pre.replication_offset, enc(Resp::Array(vs)).len());
            if lc == "ping".spec_bytes() {
                &&& a == ReplicaAction::Applied(None::<Vec<u8>>)
                &&& post.store == pre.store
                &&& post.master_replication_id == pre.master_replication_id
                &&& post.replication_offset == grown
            } else if lc == "set".spec_bytes() {
                match rset_args(vs) {
                    None => a is Close && post == pre,
                    Some((k, v, expire_in)) => {
                        let i = key_idx(pre.store.map@, k);
                        let exp = Store::spec_expiry(expire_in, now_ms);
                        &&& a == ReplicaAction::Applied(None::<Vec<u8>>)
                        &&& post.master_replication_id == pre.master_replication_id
                        &&& post.replication_offset == grown
                        &&& post.store.streams == pre.store.streams
                        &&& if i >= 0 {
                            &&& post.store.map@.len() == pre.store.map@.len()
                            &&& (forall|t: int|
                                0 <= t < pre.store.map@.len() && t != i
                                    ==> #[trigger] post.store.map@[t] == pre.store.map@[t])
                            &&& (post.store.map@[i].0)@ == k
                            &&& post.store.map@[i].1.value@ == v
                            &&& post.store.map@[i].1.expiration == exp
                        } else {
                            &&& post.store.map@.len() == pre.store.map@.len() + 1
                            &&& post.store.map@.take(pre.store.map@.len() as int)
                                == pre.store.map@
                            &&& (post.store.map@.last().0)@ == k
                            &&& post.store.map@.last().1.value@ == v
                            &&& post.store.map@.last().1.expiration == exp
                        }
                    },
                }
            } else if lc == "replconf".spec_bytes() {
                if vs.len() == 3 && spec_arg(vs, 1) == Some("GETACK".spec_bytes()) && spec_arg(
                    vs,
                    2,
                ) == Some("*".spec_bytes()) {
                    &&& (a matches ReplicaAction::Applied(rep) && rep matches Some(rb) && rb@
                        == enc(
                        Resp::Array(
                            seq![
                                Resp::Bulk("REPLCONF".spec_bytes()),
                                Resp::Bulk("ACK".spec_bytes()),
                                Resp::Bulk(dec_digits(pre.replication_offset as nat)),
                            ],
                        ),
                    ))
                    &&& post.store == pre.store
                    &&& post.master_replication_id == pre.master_replication_id
                    &&& post.replication_offset == grown
                } else {
                    a is Close && post == pre
                }
            } else {
                a is Close && post == pre
            }
        },
    }
}

/// What the replica's own client loop must do after one frame.
#[derive(Debug)]
pub enum ClientAction {
    NeedMore,
    Close,
    Ignore,
    Reply(Vec<u8>),
}

/// The lines the replica's INFO command reports.
pub open spec fn replica_info_lines(id: Seq<u8>, offset: u64) -> Seq<u8> {
    "role:slave".spec_bytes() + seq![10u8] + "master_replid:".spec_bytes() + id + seq![10u8]
        + "master_repl_offset:".spec_bytes() + dec_digits(offset as nat)
}

/// What one client command does to the replica: the read-mostly subset the
/// master also answers, with local writes that are not propagated further.
pub open spec fn client_step(
    pre: Replica,
    post: Replica,
    vs: Seq<Resp>,
    now_ms: u64,
    a: ClientAction,
) -> bool {
    match spec_arg(vs, 0) {
        None => a is Close && post == pre,
        Some(c) => {
            let lc = lower(c);
            if lc == "ping".spec_bytes() {
                (a matches ClientAction::Reply(rb) && rb@ == enc(
                    Resp::Simple("PONG".spec_bytes()),
                )) && post == pre
            } else if lc == "echo".spec_bytes() {
                if vs.len() == 2 && spec_arg(vs, 1) is Some {
                    (a matches ClientAction::Reply(rb) && rb@ == enc(
                        Resp::Bulk(spec_arg(vs, 1).unwrap()),
                    )) && post == pre
                } else {
                    a is Close && post == pre
                }
            } else if lc == "get".spec_bytes() {
                if vs.len() == 2 && spec_arg(vs, 1) is Some {
                    let k = spec_arg(vs, 1).unwrap();
                    let i = key_idx(pre.store.map@, k);
                    &&& post.master_replication_id == pre.master_replication_id
                    &&& post.replication_offset == pre.replication_offset
                    &&& post.store.streams == pre.store.streams
                    &&& if i == -1 {
                        post.store.map == pre.store.map && (a matches ClientAction::Reply(rb)
                            && rb@ == crate::resp::null_bulk_bytes())
                    } else if spec_expired(pre.store.map@[i].1.expiration, now_ms) {
                        post.store.map@ == pre.store.map@.remove(i) && (a
                            matches ClientAction::Reply(rb) && rb@
                            == crate::resp::null_bulk_bytes())
                    } else {
                        post.store.map == pre.store.map && (a matches ClientAction::Reply(rb)
                            && rb@ == enc(Resp::Bulk(pre.store.map@[i].1.value@)))
                    }
                } else {
                    a is Close && post == pre
                }
            } else if lc == "set".spec_bytes() {
                match rset_args(vs) {
                    None => a is Close && post == pre,
                    Some((k, v, expire_in)) => {
                        let i = key_idx(pre.store.map@, k);
                        let exp = Store::spec_expiry(expire_in, now_ms);
                        &&& (a matches ClientAction::Reply(rb) && rb@ == enc(
                            Resp::Simple("OK".spec_bytes()),
                        ))
                        &&& post.master_replication_id == pre.master_replication_id
                        &&& post.replication_offset == pre.replication_offset
                        &&& post.store.streams == pre.store.streams
                        &&& if i >= 0 {
                            &&& post.store.map@.len() == pre.store.map@.len()
                            &&& (forall|t: int|
                                0 <= t < pre.store.map@.len() && t != i
                                    ==> #[trigger] post.store.map@[t] == pre.store.map@[t])
                            &&& (post.store.map@[i].0)@ == k
                            &&& post.store.map@[i].1.value@ == v
                            &&& post.store.map@[i].1.expiration == exp
                        } else {
                            &&& post.store.map@.len() == pre.store.map@.len() + 1
                            &&& post.store.map@.take(pre.store.map@.len() as int)
                                == pre.store.map@
                            &&& (post.store.map@.last().0)@ == k
                            &&& post.store.map@.last().1.value@ == v
                            &&& post.store.map@.last().1.expiration == exp
                        }
                    },
                }
            } else if lc == "info".spec_bytes() {
                if vs.len() >= 2 && spec_arg(vs, 1) is Some && lower(spec_arg(vs, 1).unwrap())
                    == "replication".spec_bytes() {
                    (a matches ClientAction::Reply(rb) && rb@ == enc(
                        Resp::Bulk(
                            replica_info_lines(
                                pre.master_replication_id@,
                                pre.replication_offset,
                            ),
                        ),
                    )) && post == pre
                } else {
                    a is Close && post == pre
                }
            } else {
                a is Ignore && post == pre
            }
        },
    }
}

impl Replica {
    pub open spec fn wf(&self) -> bool {
        self.store.wf()
    }

    /// Reads one frame from one of the replica's own clients and answers it.
    pub fn handle_client_buffer(&mut self, buf: &[u8], now_ms: u64) -> (r: (ClientAction, usize))
        requires
            old(self).wf(),
        ensures
            final(self).wf(),
            ({
                match spec_decode(buf@) {
                    Decoded::Incomplete => r.0 is NeedMore && r.1 == 0 && *final(self) == *old(
                        self,
                    ),
                    Decoded::Malformed => r.0 is Close && r.1 == 0 && *final(self) == *old(self),
                    Decoded::Found(m, n) => r.1 == n && (match m {
                        Resp::Array(vs) => client_step(*old(self), *final(self), vs, now_ms, r.0),
                        _ => r.0 is Close && *final(self) == *old(self),
                    }),
                }
            }),
    {
        let (data, n) = match Data::decode(buf) {
            Ok(p) => p,
            Err(e) => {
                if matches!(e, crate::resp::DecodeError::NeedMoreBytes) {
                    return (ClientAction::NeedMore, 0);
                } else {
                    return (ClientAction::Close, 0);
                }
            },
        };
        let vs = match data {
            Data::Array(vs) => vs,
            _ => {
                return (ClientAction::Close, n);
            },
        };
        proof {
            lemma_dv_seq_index(vs@);
        }
        let ghost vsm = dv_seq(vs@);
        let word = match arg_at(&vs, 0) {
            None => {
                return (ClientAction::Close, n);
            },
            Some(w) => copy_bytes(w.as_slice()),
        };
        if word_is(word.as_slice(), "ping") {
            (ClientAction::Reply(simple_reply("PONG")), n)
        } else if word_is(word.as_slice(), "echo") {
            if vs.len() != 2 {
                return (ClientAction::Close, n);
            }
            match arg_at(&vs, 1) {
                None => (ClientAction::Close, n),
                Some(x) => (ClientAction::Reply(crate::resp::encode_bulk_string(x)), n),
            }
        } else if word_is(word.as_slice(), "get") {
            if vs.len() != 2 {
                return (ClientAction::Close, n);
            }
            let key = match arg_at(&vs, 1) {
                None => {
                    return (ClientAction::Close, n);
                },
                Some(k) => k,
            };
            match self.store.get(key.as_slice(), now_ms) {
                None => (ClientAction::Reply(crate::resp::encode_null_bulk_string()), n),
                Some(v) => (ClientAction::Reply(crate::resp::encode_bulk_string(v.bytes())), n),
            }
        } else if word_is(word.as_slice(), "set") {
            if !(vs.len() == 3 || vs.len() == 5) {
                assert(rset_args(vsm) is None);
                return (ClientAction::Close, n);
            }
            let key = match arg_at(&vs, 1) {
                None => {
                    return (ClientAction::Close, n);
                },
                Some(k) => k,
            };
            let value = match arg_at(&vs, 2) {
                None => {
                    return (ClientAction::Close, n);
                },
                Some(v) => v,
            };
            let expire_in: Option<u64> = if vs.len() == 5 {
                let px = match arg_at(&vs, 3) {
                    None => {
                        return (ClientAction::Close, n);
                    },
                    Some(p) => p,
                };
                if !word_is(px.as_slice(), "px") {
                    return (ClientAction::Close, n);
                }
                let ms_raw = match arg_at(&vs, 4) {
                    None => {
                        return (ClientAction::Close, n);
                    },
                    Some(m) => m,
                };
                match crate::stream::parse_u64(ms_raw.as_slice()) {
                    None => {
                        return (ClientAction::Close, n);
                    },
                    Some(ms) => Some(ms),
                }
            } else {
                None
            };
            let key_copy = copy_bytes(key.as_slice());
            let value_copy = Value::String(copy_bytes(value.as_slice()));
            let ghost key_view = key_copy@;
            proof {
                crate::store::lemma_key_idx(self.store.map@, key_view);
            }
            self.store.set(key_copy, value_copy, expire_in, now_ms);
            proof {
                if key_idx(old(self).store.map@, key_view) == -1 {
                    assert(self.store.map@.take(old(self).store.map@.len() as int) =~= old(
                        self,
                    ).store.map@);
                }
            }
            (ClientAction::Reply(simple_reply("OK")), n)
        } else if word_is(word.as_slice(), "info") {
            if vs.len() < 2 {
                return (ClientAction::Close, n);
            }
            let section = match arg_at(&vs, 1) {
                None => {
                    return (ClientAction::Close, n);
                },
                Some(x) => x,
            };
            if !word_is(section.as_slice(), "replication") {
                return (ClientAction::Close, n);
            }
            let mut body = str_bytes("role:slave");
            body.push(10);
            let mut part = str_bytes("master_replid:");
            body.append(&mut part);
            let mut id = copy_bytes(self.master_replication_id.as_slice());
            body.append(&mut id);
            body.push(10);
            let mut part2 = str_bytes("master_repl_offset:");
            body.append(&mut part2);
            let mut digits = crate::num::u64_digits(self.replication_offset);
            body.append(&mut digits);
            proof {
                assert(body@ =~= replica_info_lines(
                    self.master_replication_id@,
                    self.replication_offset,
                ));
            }
            (ClientAction::Reply(crate::resp::encode_bulk_string(&body)), n)
        } else {
            (ClientAction::Ignore, n)
        }
    }

    /// A fresh replica that has just finished its handshake.
    pub fn new(master_replication_id: Vec<u8>) -> (r: Replica)
        ensures
            r.wf(),
            r.master_replication_id == master_replication_id,
            r.replication_offset == 0,
            r.store.map@.len() == 0,
            r.store.streams@.len() == 0,
    {
        Replica { master_replication_id, replication_offset: 0, store: Store::new() }
    }

    /// Reads one frame the master propagated and applies it.  Every decoded
    /// command advances the offset by its canonical byte length; the
    /// acknowledgement it may owe reports the offset from before the
    /// advance.
    pub fn handle_replication_buffer(&mut self, buf: &[u8], now_ms: u64) -> (r: (
        ReplicaAction,
        usize,
    ))
        requires
            old(self).wf(),
        ensures
            final(self).wf(),
            ({
                match spec_decode(buf@) {
                    Decoded::Incomplete => r.0 is NeedMore && r.1 == 0 && *final(self) == *old(
                        self,
                    ),
                    Decoded::Malformed => r.0 is Close && r.1 == 0 && *final(self) == *old(self),
                    Decoded::Found(m, n) => r.1 == n && (match m {
                        Resp::Array(vs) => replication_step(
                            *old(self),
                            *final(self),
                            vs,
                            now_ms,
                            r.0,
                        ),
                        _ => r.0 is Close && *final(self) == *old(self),
                    }),
                }
            }),
    {
        let (data, n) = match Data::decode(buf) {
            Ok(p) => p,
            Err(e) => {
                if matches!(e, crate::resp::DecodeError::NeedMoreBytes) {
                    return (ReplicaAction::NeedMore, 0);
                } else {
                    return (ReplicaAction::Close, 0);
                }
            },
        };
        let vs = match data {
            Data::Array(vs) => vs,
            _ => {
                return (ReplicaAction::Close, n);
            },
        };
        proof {
            lemma_dv_seq_index(vs@);
        }
        let ghost vsm = dv_seq(vs@);
        let word = match arg_at(&vs, 0) {
            None => {
                return (ReplicaAction::Close, n);
            },
            Some(w) => copy_bytes(w.as_slice()),
        };
        let frame = crate::master::encode_command(&vs);
        if word_is(word.as_slice(), "ping") {
            self.replication_offset = bump_offset(self.replication_offset, frame.len());
            (ReplicaAction::Applied(None), n)
        } else if word_is(word.as_slice(), "set") {
            if !(vs.len() == 3 || vs.len() == 5) {
                assert(rset_args(vsm) is None);
                return (ReplicaAction::Close, n);
            }
            let key = match arg_at(&vs, 1) {
                None => {
                    return (ReplicaAction::Close, n);
                },
                Some(k) => k,
            };
            let value = match arg_at(&vs, 2) {
                None => {
                    return (ReplicaAction::Close, n);
                },
                Some(v) => v,
            };
            let expire_in: Option<u64> = if vs.len() == 5 {
                let px = match arg_at(&vs, 3) {
                    None => {
                        return (ReplicaAction::Close, n);
                    },
                    Some(p) => p,
                };
                if !word_is(px.as_slice(), "px") {
                    return (ReplicaAction::Close, n);
                }
                let ms_raw = match arg_at(&vs, 4) {
                    None => {
                        return (ReplicaAction::Close, n);
                    },
                    Some(m) => m,
                };
                match crate::stream::parse_u64(ms_raw.as_slice()) {
                    None => {
                        return (ReplicaAction::Close, n);
                    },
                    Some(ms) => Some(ms),
                }
            } else {
                None
            };
            let key_copy = copy_bytes(key.as_slice());
            let value_copy = Value::String(copy_bytes(value.as_slice()));
            let ghost key_view = key_copy@;
            proof {
                crate::store::lemma_key_idx(self.store.map@, key_view);
            }
            self.store.set(key_copy, value_copy, expire_in, now_ms);
            proof {
                if key_idx(old(self).store.map@, key_view) == -1 {
                    assert(self.store.map@.take(old(self).store.map@.len() as int) =~= old(
                        self,
                    ).store.map@);
                }
            }
            self.replication_offset = bump_offset(self.replication_offset, frame.len());
            (ReplicaAction::Applied(None), n)
        } else if word_is(word.as_slice(), "replconf") {
            if vs.len() != 3 {
                return (ReplicaAction::Close, n);
            }
            let a1 = match arg_at(&vs, 1) {
                None => {
                    return (ReplicaAction::Close, n);
                },
                Some(x) => x,
            };
            let a2 = match arg_at(&vs, 2) {
                None => {
                    return (ReplicaAction::Close, n);
                },
                Some(x) => x,
            };
            if !crate::num::bytes_eq(a1.as_slice(), "GETACK".as_bytes()) || !crate::num::bytes_eq(
                a2.as_slice(),
                "*".as_bytes(),
            ) {
                return (ReplicaAction::Close, n);
            }
            let mut items: Vec<Vec<u8>> = Vec::new();
            items.push(str_bytes("REPLCONF"));
            items.push(str_bytes("ACK"));
            items.push(crate::num::u64_digits(self.replication_offset));
            let ack = encode_bulk_array(&items);
            proof {
                assert(bulks_of(vecs_view(items@)) =~= seq![
                    Resp::Bulk("REPLCONF".spec_bytes()),
                    Resp::Bulk("ACK".spec_bytes()),
                    Resp::Bulk(dec_digits(old(self).replication_offset as nat)),
                ]);
            }
            self.replication_offset = bump_offset(self.replication_offset, frame.len());
            (ReplicaAction::Applied(Some(ack)), n)
        } else {
            (ReplicaAction::Close, n)
        }
    }
}

} // verus!
