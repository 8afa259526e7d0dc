//! Entry ids, stream appends, wakeups, and the store's expiry behaviour.
use miniredis::store::Store;
use miniredis::stream::EntryId;
use miniredis::stream::Entry;
use miniredis::stream::IdBound;
use miniredis::stream::Stream;
use miniredis::stream::StreamError;
use miniredis::value::Value;

#[test]
fn entryid_comp() {
    let min = EntryId { ms: 0, seq: 0 };
    let x = EntryId { ms: 1, seq: 0 };
    assert!(min < x);
}

#[test]
fn entry_id_parsing() {
    assert_eq!(
        EntryId::create_from_complete(b"1-2"),
        Ok(EntryId { ms: 1, seq: 2 })
    );
    assert_eq!(
        EntryId::create_from_complete(b"12"),
        Err(StreamError::BadFormat)
    );
    assert_eq!(
        EntryId::create_from_complete(b"1-2-3"),
        Err(StreamError::BadFormat)
    );
    assert_eq!(EntryId::create_start(b"-"), Ok(EntryId { ms: 0, seq: 0 }));
    assert_eq!(EntryId::create_start(b"7"), Ok(EntryId { ms: 7, seq: 0 }));
    assert_eq!(
        EntryId::create_end(b"+"),
        Ok(EntryId {
            ms: u64::MAX,
            seq: u64::MAX
        })
    );
    assert_eq!(
        EntryId::create_end(b"7"),
        Ok(EntryId {
            ms: 7,
            seq: u64::MAX
        })
    );
}

#[test]
fn entry_id_wildcards() {
    let top = EntryId { ms: 5, seq: 3 };
    // A full wildcard takes the clock, bumping the sequence on a collision.
    assert_eq!(
        EntryId::create(b"*", &top, 9),
        Ok(EntryId { ms: 9, seq: 0 })
    );
    assert_eq!(
        EntryId::create(b"*", &top, 5),
        Ok(EntryId { ms: 5, seq: 4 })
    );
    // A sequence wildcard follows the stream's top id.
    assert_eq!(
        EntryId::create(b"5-*", &top, 0),
        Ok(EntryId { ms: 5, seq: 4 })
    );
    assert_eq!(
        EntryId::create(b"0-*", &top, 0),
        Ok(EntryId { ms: 0, seq: 1 })
    );
    assert_eq!(
        EntryId::create(b"8-*", &top, 0),
        Ok(EntryId { ms: 8, seq: 0 })
    );
}

fn entry(k: &str, v: &str) -> Entry {
    Entry {
        key: k.as_bytes().to_vec(),
        value: v.as_bytes().to_vec(),
    }
}

#[test]
fn append_keeps_ids_increasing() {
    let mut s = Stream::new();
    assert_eq!(s.append(EntryId { ms: 1, seq: 1 }, vec![entry("a", "1")]), Ok(()));
    assert_eq!(s.append(EntryId { ms: 2, seq: 0 }, vec![entry("b", "2")]), Ok(()));
    assert_eq!(
        s.append(EntryId { ms: 1, seq: 1 }, vec![entry("a", "2")]),
        Err(StreamError::NotIncreasing)
    );
    assert_eq!(
        s.append(EntryId { ms: 2, seq: 0 }, vec![entry("a", "2")]),
        Err(StreamError::NotIncreasing)
    );
    assert_eq!(
        s.append(EntryId { ms: 0, seq: 0 }, vec![entry("a", "2")]),
        Err(StreamError::MinId)
    );
    assert_eq!(s.max_entry_id(), EntryId { ms: 2, seq: 0 });
}

#[test]
fn range_is_inclusive_and_ordered() {
    let mut s = Stream::new();
    s.append(EntryId { ms: 1, seq: 1 }, vec![entry("a", "1")]).unwrap();
    s.append(EntryId { ms: 2, seq: 2 }, vec![entry("b", "2")]).unwrap();
    s.append(EntryId { ms: 3, seq: 3 }, vec![entry("c", "3")]).unwrap();
    let rows = s.range(
        IdBound::Included(EntryId { ms: 1, seq: 1 }),
        IdBound::Included(EntryId { ms: 2, seq: 2 }),
    );
    assert_eq!(rows.len(), 2);
    assert_eq!(rows[0].0, EntryId { ms: 1, seq: 1 });
    assert_eq!(rows[1].0, EntryId { ms: 2, seq: 2 });
    let rows = s.range(
        IdBound::Excluded(EntryId { ms: 1, seq: 1 }),
        IdBound::Included(EntryId::max()),
    );
    assert_eq!(rows.len(), 2);
    assert_eq!(rows[0].0, EntryId { ms: 2, seq: 2 });
    assert_eq!(rows[1].0, EntryId { ms: 3, seq: 3 });
}

#[test]
fn append_wakes_subscribers_past_their_id() {
    let mut s = Stream::new();
    s.append(EntryId { ms: 1, seq: 0 }, vec![entry("a", "1")]).unwrap();
    let woken = s.subscribe_entries_after(EntryId { ms: 1, seq: 0 });
    let equal = s.subscribe_entries_after(EntryId { ms: 2, seq: 0 });
    let kept = s.subscribe_entries_after(EntryId { ms: 9, seq: 0 });
    s.append(EntryId { ms: 2, seq: 0 }, vec![entry("b", "2")]).unwrap();
    assert!(woken.try_recv().is_ok());
    // The subscriber waiting at exactly the new id is dropped, but silently.
    assert_eq!(equal.try_recv(), Err(crossbeam_channel::TryRecvError::Disconnected));
    assert_eq!(kept.try_recv(), Err(crossbeam_channel::TryRecvError::Empty));
}

#[test]
fn store_set_get_and_expiry() {
    let mut st = Store::new();
    st.set(b"k".to_vec(), Value::String(b"v".to_vec()), Some(50), 0);
    assert_eq!(st.get(b"k", 40).unwrap().to_string().unwrap(), "v");
    assert!(st.get(b"k", 100).is_none());
    // The dead pair was dropped on the way out.
    assert!(st.get(b"k", 0).is_none());
}

#[test]
fn store_snapshot_omits_dead_pairs() {
    let mut st = Store::new();
    st.set(b"k".to_vec(), Value::String(b"v".to_vec()), Some(50), 0);
    st.set(b"p".to_vec(), Value::String(b"q".to_vec()), None, 0);
    let rows = st.data(100);
    assert_eq!(rows.len(), 1);
    assert_eq!(rows[0].0, b"p".to_vec());
    assert_eq!(rows[0].1.bytes(), &b"q".to_vec());
}

#[test]
fn store_type_names() {
    let mut st = Store::new();
    st.set(b"k".to_vec(), Value::String(b"v".to_vec()), None, 0);
    st.stream_set(b"s".to_vec(), b"1-1", vec![entry("a", "1")], 0)
        .unwrap();
    assert_eq!(st.get_type(b"k", 0), "string");
    assert_eq!(st.get_type(b"s", 0), "stream");
    assert_eq!(st.get_type(b"missing", 0), "none");
}

#[test]
fn store_stream_set_resolves_wildcards() {
    let mut st = Store::new();
    let first = st
        .stream_set(b"s".to_vec(), b"5-5", vec![entry("a", "1")], 0)
        .unwrap();
    assert_eq!(first, EntryId { ms: 5, seq: 5 });
    let second = st
        .stream_set(b"s".to_vec(), b"5-*", vec![entry("b", "2")], 0)
        .unwrap();
    assert_eq!(second, EntryId { ms: 5, seq: 6 });
    let third = st
        .stream_set(b"s".to_vec(), b"*", vec![entry("c", "3")], 11)
        .unwrap();
    assert_eq!(third, EntryId { ms: 11, seq: 0 });
    assert_eq!(st.get_stream_curr_max_id(b"s".to_vec()), third);
}
