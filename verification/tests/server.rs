//! End-to-end command handling for both roles, on literal wire bytes.
use miniredis::master::Master;
use miniredis::mode::MasterParams;
use miniredis::master::MasterAction;
use miniredis::master::parse_ack;
use miniredis::replica::ClientAction;
use miniredis::replica::Replica;
use miniredis::replica::ReplicaAction;
use miniredis::replica::parse_fullresync;
use miniredis::replica::handshake_on_reply;
use miniredis::replica::handshake_start;
use miniredis::replica::Handshake;
use miniredis::replica::ping_message;
use miniredis::replica::psync_message;
use miniredis::replica::replconf_capa_message;
use miniredis::replica::replconf_port_message;
use miniredis::resp::decode_rdb_file;
use miniredis::store::Store;

const REPL_ID: &[u8] = b"8371b4fb1155b71f4a04d3e1bc3e18c4a990aeeb";

fn master() -> Master {
    Master::new(
        MasterParams {
            dir: None,
            dbfilename: None,
        },
        Store::new(),
        REPL_ID.to_vec(),
    )
}

fn reply_of(m: &mut Master, frame: &[u8], now_ms: u64) -> Vec<u8> {
    let (action, n) = m.handle_buffer(frame, now_ms);
    assert_eq!(n, frame.len());
    match action {
        MasterAction::Reply(rb) => rb,
        other => panic!("expected a reply, got {:?}", other),
    }
}

#[test]
fn ping_pongs() {
    let mut m = master();
    assert_eq!(reply_of(&mut m, b"*1\r\n$4\r\nPING\r\n", 0), b"+PONG\r\n");
}

#[test]
fn set_then_get() {
    let mut m = master();
    let (action, n) = m.handle_buffer(b"*3\r\n$3\r\nSET\r\n$1\r\nk\r\n$1\r\nv\r\n", 0);
    assert_eq!(n, 27);
    match action {
        MasterAction::ReplyAndPropagate { reply, propagate } => {
            assert_eq!(reply, b"+OK\r\n");
            assert_eq!(propagate, b"*3\r\n$3\r\nSET\r\n$1\r\nk\r\n$1\r\nv\r\n");
        }
        other => panic!("expected a propagating reply, got {:?}", other),
    }
    assert_eq!(
        reply_of(&mut m, b"*2\r\n$3\r\nGET\r\n$1\r\nk\r\n", 0),
        b"$1\r\nv\r\n"
    );
}

#[test]
fn set_with_expiry_dies_later() {
    let mut m = master();
    let (action, _n) =
        m.handle_buffer(b"*5\r\n$3\r\nSET\r\n$1\r\nk\r\n$1\r\nv\r\n$2\r\nPX\r\n$3\r\n100\r\n", 0);
    match action {
        MasterAction::ReplyAndPropagate { reply, .. } => assert_eq!(reply, b"+OK\r\n"),
        other => panic!("expected a propagating reply, got {:?}", other),
    }
    assert_eq!(
        reply_of(&mut m, b"*2\r\n$3\r\nGET\r\n$1\r\nk\r\n", 50),
        b"$1\r\nv\r\n"
    );
    assert_eq!(
        reply_of(&mut m, b"*2\r\n$3\r\nGET\r\n$1\r\nk\r\n", 150),
        b"$-1\r\n"
    );
}

#[test]
fn xadd_rejects_non_increasing_ids() {
    let mut m = master();
    let frame = b"*5\r\n$4\r\nXADD\r\n$1\r\ns\r\n$3\r\n1-1\r\n$1\r\na\r\n$1\r\n1\r\n";
    assert_eq!(reply_of(&mut m, frame, 0), b"$3\r\n1-1\r\n");
    let again = b"*5\r\n$4\r\nXADD\r\n$1\r\ns\r\n$3\r\n1-1\r\n$1\r\na\r\n$1\r\n2\r\n";
    assert_eq!(
        reply_of(&mut m, again, 0),
        b"-ERR The ID specified in XADD is equal or smaller than the target stream top item\r\n"
            .to_vec()
    );
    let zero = b"*5\r\n$4\r\nXADD\r\n$1\r\nt\r\n$3\r\n0-0\r\n$1\r\na\r\n$1\r\n1\r\n";
    assert_eq!(
        reply_of(&mut m, zero, 0),
        b"-ERR The ID specified in XADD must be greater than 0-0\r\n".to_vec()
    );
}

#[test]
fn xrange_returns_entries_in_id_order() {
    let mut m = master();
    reply_of(
        &mut m,
        b"*5\r\n$4\r\nXADD\r\n$1\r\ns\r\n$3\r\n1-1\r\n$1\r\na\r\n$1\r\n1\r\n",
        0,
    );
    reply_of(
        &mut m,
        b"*5\r\n$4\r\nXADD\r\n$1\r\ns\r\n$3\r\n2-2\r\n$1\r\nb\r\n$1\r\n2\r\n",
        0,
    );
    let reply = reply_of(
        &mut m,
        b"*4\r\n$6\r\nXRANGE\r\n$1\r\ns\r\n$1\r\n-\r\n$1\r\n+\r\n",
        0,
    );
    let expected = b"*2\r\n\
*2\r\n$3\r\n1-1\r\n*2\r\n$1\r\na\r\n$1\r\n1\r\n\
*2\r\n$3\r\n2-2\r\n*2\r\n$1\r\nb\r\n$1\r\n2\r\n";
    assert_eq!(reply, expected.to_vec());
}

#[test]
fn xread_reports_new_entries() {
    let mut m = master();
    reply_of(
        &mut m,
        b"*5\r\n$4\r\nXADD\r\n$1\r\ns\r\n$3\r\n1-1\r\n$1\r\na\r\n$1\r\n1\r\n",
        0,
    );
    let reply = reply_of(
        &mut m,
        b"*4\r\n$5\r\nXREAD\r\n$7\r\nSTREAMS\r\n$1\r\ns\r\n$3\r\n0-0\r\n",
        0,
    );
    let expected = b"*1\r\n*2\r\n$1\r\ns\r\n*1\r\n*2\r\n$3\r\n1-1\r\n*2\r\n$1\r\na\r\n$1\r\n1\r\n";
    assert_eq!(reply, expected.to_vec());
    // Nothing past the newest id: a null bulk string.
    let reply = reply_of(
        &mut m,
        b"*4\r\n$5\r\nXREAD\r\n$7\r\nSTREAMS\r\n$1\r\ns\r\n$3\r\n1-1\r\n",
        0,
    );
    assert_eq!(reply, b"$-1\r\n");
}

#[test]
fn xread_blocks_then_sees_the_append() {
    let mut m = master();
    let frame = b"*6\r\n$5\r\nXREAD\r\n$5\r\nBLOCK\r\n$4\r\n5000\r\n$7\r\nSTREAMS\r\n$1\r\ns\r\n$1\r\n$\r\n";
    let (action, _n) = m.handle_buffer(frame, 0);
    let (stream, id, timeout, pairs) = match action {
        MasterAction::Blocked { stream, resolved_id, timeout_ms, pairs } => {
            (stream, resolved_id, timeout_ms, pairs)
        }
        other => panic!("expected to block, got {:?}", other),
    };
    assert_eq!(stream, b"s".to_vec());
    assert_eq!(timeout, 5000);
    let rx = m.xread_subscribe(stream, id);
    // A later append wakes the subscriber, and the retry sees the entry.
    reply_of(
        &mut m,
        b"*5\r\n$4\r\nXADD\r\n$1\r\ns\r\n$3\r\n1-1\r\n$1\r\na\r\n$1\r\n1\r\n",
        0,
    );
    assert!(rx.try_recv().is_ok());
    let reply = m.xread_retry(&pairs);
    let expected = b"*1\r\n*2\r\n$1\r\ns\r\n*1\r\n*2\r\n$3\r\n1-1\r\n*2\r\n$1\r\na\r\n$1\r\n1\r\n";
    assert_eq!(reply, expected.to_vec());
}

#[test]
fn keys_lists_the_live_string_table() {
    let mut snapshot = Store::new();
    snapshot.set(
        b"foo".to_vec(),
        miniredis::value::Value::String(b"bar".to_vec()),
        None,
        0,
    );
    let mut m = Master::new(
        MasterParams {
            dir: None,
            dbfilename: None,
        },
        snapshot,
        REPL_ID.to_vec(),
    );
    assert_eq!(
        reply_of(&mut m, b"*2\r\n$4\r\nKEYS\r\n$1\r\n*\r\n", 0),
        b"*1\r\n$3\r\nfoo\r\n"
    );
    // A later write shows up too: the command reads the live store.
    let (action, _n) = m.handle_buffer(b"*3\r\n$3\r\nSET\r\n$1\r\nk\r\n$1\r\nv\r\n", 0);
    assert!(matches!(action, MasterAction::ReplyAndPropagate { .. }));
    assert_eq!(
        reply_of(&mut m, b"*2\r\n$4\r\nKEYS\r\n$1\r\n*\r\n", 0),
        b"*2\r\n$3\r\nfoo\r\n$1\r\nk\r\n"
    );
}

#[test]
fn type_reports_both_tables() {
    let mut m = master();
    let (action, _n) = m.handle_buffer(b"*3\r\n$3\r\nSET\r\n$1\r\nk\r\n$1\r\nv\r\n", 0);
    assert!(matches!(action, MasterAction::ReplyAndPropagate { .. }));
    reply_of(
        &mut m,
        b"*5\r\n$4\r\nXADD\r\n$1\r\ns\r\n$3\r\n1-1\r\n$1\r\na\r\n$1\r\n1\r\n",
        0,
    );
    assert_eq!(
        reply_of(&mut m, b"*2\r\n$4\r\nTYPE\r\n$1\r\nk\r\n", 0),
        b"+string\r\n"
    );
    assert_eq!(
        reply_of(&mut m, b"*2\r\n$4\r\nTYPE\r\n$1\r\ns\r\n", 0),
        b"+stream\r\n"
    );
    assert_eq!(
        reply_of(&mut m, b"*2\r\n$4\r\nTYPE\r\n$1\r\nz\r\n", 0),
        b"+none\r\n"
    );
}

#[test]
fn echo_and_info_and_config() {
    let mut m = Master::new(
        MasterParams {
            dir: Some("/tmp".to_string()),
            dbfilename: Some("dump.rdb".to_string()),
        },
        Store::new(),
        REPL_ID.to_vec(),
    );
    assert_eq!(
        reply_of(&mut m, b"*2\r\n$4\r\nECHO\r\n$2\r\nhi\r\n", 0),
        b"$2\r\nhi\r\n"
    );
    let info = reply_of(&mut m, b"*2\r\n$4\r\nINFO\r\n$11\r\nreplication\r\n", 0);
    let expected =
        b"$87\r\nrole:master\nmaster_replid:8371b4fb1155b71f4a04d3e1bc3e18c4a990aeeb\nmaster_repl_offset:0\r\n";
    assert_eq!(info, expected.to_vec());
    assert_eq!(
        reply_of(&mut m, b"*3\r\n$6\r\nCONFIG\r\n$3\r\nGET\r\n$3\r\ndir\r\n", 0),
        b"*2\r\n$3\r\ndir\r\n$4\r\n/tmp\r\n"
    );
    assert_eq!(
        reply_of(
            &mut m,
            b"*3\r\n$6\r\nCONFIG\r\n$3\r\nGET\r\n$10\r\ndbfilename\r\n",
            0
        ),
        b"*2\r\n$10\r\ndbfilename\r\n$8\r\ndump.rdb\r\n"
    );
}

#[test]
fn psync_starts_a_full_resync() {
    let mut m = master();
    assert_eq!(reply_of(&mut m, b"*1\r\n$4\r\nPING\r\n", 0), b"+PONG\r\n");
    assert_eq!(
        reply_of(
            &mut m,
            b"*3\r\n$8\r\nREPLCONF\r\n$14\r\nlistening-port\r\n$4\r\n6380\r\n",
            0
        ),
        b"+OK\r\n"
    );
    assert_eq!(
        reply_of(
            &mut m,
            b"*3\r\n$8\r\nREPLCONF\r\n$4\r\ncapa\r\n$6\r\npsync2\r\n",
            0
        ),
        b"+OK\r\n"
    );
    let (action, _n) = m.handle_buffer(b"*3\r\n$5\r\nPSYNC\r\n$1\r\n?\r\n$2\r\n-1\r\n", 0);
    match action {
        MasterAction::FullResync { header, rdb_frame } => {
            let mut expected = b"+FULLRESYNC ".to_vec();
            expected.extend_from_slice(REPL_ID);
            expected.extend_from_slice(b" 0\r\n");
            assert_eq!(header, expected);
            // The snapshot travels as a bulk string without its line break.
            let (payload, n) = decode_rdb_file(&rdb_frame).unwrap();
            assert_eq!(n, rdb_frame.len());
            assert!(payload.starts_with(b"REDIS"));
        }
        other => panic!("expected a full resync, got {:?}", other),
    }
}

#[test]
fn handshake_messages_are_wire_exact() {
    assert_eq!(ping_message(), b"*1\r\n$4\r\nPING\r\n".to_vec());
    assert_eq!(
        replconf_port_message(6380),
        b"*3\r\n$8\r\nREPLCONF\r\n$14\r\nlistening-port\r\n$4\r\n6380\r\n".to_vec()
    );
    assert_eq!(
        replconf_capa_message(),
        b"*3\r\n$8\r\nREPLCONF\r\n$4\r\ncapa\r\n$6\r\npsync2\r\n".to_vec()
    );
    assert_eq!(
        psync_message(),
        b"*3\r\n$5\r\nPSYNC\r\n$1\r\n?\r\n$2\r\n-1\r\n".to_vec()
    );
    assert_eq!(
        parse_fullresync(b"+FULLRESYNC abc123 0\r\n"),
        Some(b"abc123".to_vec())
    );
    assert_eq!(parse_fullresync(b"+PONG\r\n"), None);
}

#[test]
fn handshake_sends_each_message_only_after_the_reply() {
    let (state, first) = handshake_start(6380);
    assert!(matches!(state, Handshake::AwaitPong { port: 6380 }));
    assert_eq!(first, b"*1\r\n$4\r\nPING\r\n".to_vec());
    let (state, msg) = handshake_on_reply(state, b"+PONG\r\n");
    assert!(matches!(state, Handshake::AwaitPortOk));
    assert_eq!(
        msg,
        Some(b"*3\r\n$8\r\nREPLCONF\r\n$14\r\nlistening-port\r\n$4\r\n6380\r\n".to_vec())
    );
    let (state, msg) = handshake_on_reply(state, b"+OK\r\n");
    assert!(matches!(state, Handshake::AwaitCapaOk));
    assert_eq!(
        msg,
        Some(b"*3\r\n$8\r\nREPLCONF\r\n$4\r\ncapa\r\n$6\r\npsync2\r\n".to_vec())
    );
    let (state, msg) = handshake_on_reply(state, b"+OK\r\n");
    assert!(matches!(state, Handshake::AwaitResync));
    assert_eq!(msg, Some(b"*3\r\n$5\r\nPSYNC\r\n$1\r\n?\r\n$2\r\n-1\r\n".to_vec()));
    let (state, msg) = handshake_on_reply(state, b"+FULLRESYNC abc123 0\r\n");
    assert!(msg.is_none());
    match state {
        Handshake::Done {
            master_replication_id,
        } => assert_eq!(master_replication_id, b"abc123".to_vec()),
        other => panic!("expected the handshake to finish, got {:?}", other),
    }
    // A wrong reply fails the handshake instead of sending the next message.
    let (state, _m) = handshake_start(6380);
    let (state, msg) = handshake_on_reply(state, b"-ERR nope\r\n");
    assert!(matches!(state, Handshake::Failed));
    assert!(msg.is_none());
}

#[test]
fn wait_counts_replicas() {
    let mut m = master();
    // No replica, no offset: the count comes back at once.
    assert_eq!(
        reply_of(&mut m, b"*3\r\n$4\r\nWAIT\r\n$1\r\n0\r\n$3\r\n500\r\n", 0),
        b":0\r\n"
    );
    // Promote one replica, propagate one write, then wait for it.
    let (action, _n) = m.handle_buffer(b"*3\r\n$5\r\nPSYNC\r\n$1\r\n?\r\n$2\r\n-1\r\n", 0);
    assert!(matches!(action, MasterAction::FullResync { .. }));
    let (action, _n) = m.handle_buffer(b"*3\r\n$3\r\nSET\r\n$1\r\nk\r\n$1\r\nv\r\n", 0);
    assert!(matches!(action, MasterAction::ReplyAndPropagate { .. }));
    let (action, _n) = m.handle_buffer(b"*3\r\n$4\r\nWAIT\r\n$1\r\n1\r\n$3\r\n500\r\n", 0);
    match action {
        MasterAction::Wait { getack, target_offset, need, timeout_ms } => {
            assert_eq!(
                getack,
                b"*3\r\n$8\r\nREPLCONF\r\n$6\r\nGETACK\r\n$1\r\n*\r\n".to_vec()
            );
            assert_eq!(target_offset, 27);
            assert_eq!(need, 1);
            assert_eq!(timeout_ms, 500);
        }
        other => panic!("expected to wait, got {:?}", other),
    }
    assert_eq!(
        parse_ack(b"*3\r\n$8\r\nREPLCONF\r\n$3\r\nACK\r\n$2\r\n27\r\n"),
        Some(27)
    );
    assert_eq!(parse_ack(b"+OK\r\n"), None);
    // The verified counting step: at the target counts, below it does not,
    // and the collection is done once the asked-for number is reached.
    assert_eq!(miniredis::master::wait_step(0, 1, 31, 27), (1, true));
    assert_eq!(miniredis::master::wait_step(0, 2, 20, 27), (0, false));
    assert_eq!(miniredis::master::wait_step(1, 2, 27, 27), (2, true));
    assert_eq!(m.finish_wait(1), b":1\r\n".to_vec());
    // The broadcast itself moved the offset: 27 + 37.
    assert_eq!(m.replication_offset, 64);
}

#[test]
fn replica_applies_propagated_commands() {
    let mut r = Replica::new(REPL_ID.to_vec());
    let set = b"*3\r\n$3\r\nSET\r\n$1\r\nk\r\n$1\r\nv\r\n";
    let (action, n) = r.handle_replication_buffer(set, 0);
    assert_eq!(n, set.len());
    assert!(matches!(action, ReplicaAction::Applied(None)));
    assert_eq!(r.replication_offset, 27);
    let ping = b"*1\r\n$4\r\nPING\r\n";
    let (action, _n) = r.handle_replication_buffer(ping, 0);
    assert!(matches!(action, ReplicaAction::Applied(None)));
    assert_eq!(r.replication_offset, 41);
    // The acknowledgement reports the offset from before the GETACK itself.
    let getack = b"*3\r\n$8\r\nREPLCONF\r\n$6\r\nGETACK\r\n$1\r\n*\r\n";
    let (action, _n) = r.handle_replication_buffer(getack, 0);
    match action {
        ReplicaAction::Applied(Some(ack)) => {
            assert_eq!(
                ack,
                b"*3\r\n$8\r\nREPLCONF\r\n$3\r\nACK\r\n$2\r\n41\r\n".to_vec()
            );
        }
        other => panic!("expected an acknowledgement, got {:?}", other),
    }
    assert_eq!(r.replication_offset, 78);
    // The write it applied is visible to its own clients.
    let (action, _n) = r.handle_client_buffer(b"*2\r\n$3\r\nGET\r\n$1\r\nk\r\n", 0);
    match action {
        ClientAction::Reply(rb) => assert_eq!(rb, b"$1\r\nv\r\n".to_vec()),
        other => panic!("expected a reply, got {:?}", other),
    }
}

#[test]
fn replica_answers_its_own_clients() {
    let mut r = Replica::new(b"id".to_vec());
    let (action, _n) = r.handle_client_buffer(b"*1\r\n$4\r\nPING\r\n", 0);
    assert!(matches!(action, ClientAction::Reply(ref rb) if rb == b"+PONG\r\n"));
    let (action, _n) = r.handle_client_buffer(b"*3\r\n$3\r\nSET\r\n$1\r\nk\r\n$1\r\nv\r\n", 0);
    assert!(matches!(action, ClientAction::Reply(ref rb) if rb == b"+OK\r\n"));
    let (action, _n) = r.handle_client_buffer(b"*2\r\n$4\r\nINFO\r\n$11\r\nreplication\r\n", 0);
    match action {
        ClientAction::Reply(rb) => {
            assert_eq!(
                rb,
                b"$48\r\nrole:slave\nmaster_replid:id\nmaster_repl_offset:0\r\n".to_vec()
            );
        }
        other => panic!("expected a reply, got {:?}", other),
    }
    // A command it does not know is ignored rather than fatal.
    let (action, _n) = r.handle_client_buffer(b"*1\r\n$4\r\nBLAH\r\n", 0);
    assert!(matches!(action, ClientAction::Ignore));
}

#[test]
fn unknown_commands_close_the_connection() {
    let mut m = master();
    let (action, _n) = m.handle_buffer(b"*1\r\n$4\r\nBLAH\r\n", 0);
    assert!(matches!(action, MasterAction::Close));
    let (action, n) = m.handle_buffer(b"*1\r\n$4\r\nPI", 0);
    assert!(matches!(action, MasterAction::NeedMore));
    assert_eq!(n, 0);
    let (action, _n) = m.handle_buffer(b"!x\r\n", 0);
    assert!(matches!(action, MasterAction::Close));
}
