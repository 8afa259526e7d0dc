//! The keyed store: strings with optional expiry in one table, streams in
//! another, both searched by byte-string key.
use vstd::prelude::*;

use crate::stream::EntryId;
use crate::stream::Entry;
use crate::stream::IdBound;
use crate::stream::Stream;
use crate::stream::StreamError;
use crate::value::Value;

verus! {

/// A stored value with its optional absolute expiry, in milliseconds since
/// the epoch.
#[derive(Debug)]
pub struct ValueWrapper {
    pub value: Value,
    pub expiration: Option<u64>,
}

/// Whether a value with this expiry is dead at `now_ms`.
pub open spec fn spec_expired(expiration: Option<u64>, now_ms: u64) -> bool {
    match expiration {
        None => false,
        Some(e) => e <= now_ms,
    }
}

impl ValueWrapper {
    /// Whether the value is dead at `now_ms`.
    pub fn has_expired(&self, now_ms: u64) -> (r: bool)
        ensures
            r == spec_expired(self.expiration, now_ms),
    {
        match self.expiration {
            None => false,
            Some(e) => e <= now_ms,
        }
    }
}

/// The position of the first pair with the given key, or `-1`.
pub open spec fn key_idx<T>(s: Seq<(Vec<u8>, T)>, k: Seq<u8>) -> int
    decreases s.len(),
{
    if s.len() == 0 {
        -1
    } else if s[0].0@ == k {
        0
    } else {
        let r = key_idx(s.drop_first(), k);
        if r == -1 {
            -1
        } else {
            r + 1
        }
    }
}

/// What the position of a key means, element by element.
pub proof fn lemma_key_idx<T>(s: Seq<(Vec<u8>, T)>, k: Seq<u8>)
    ensures
        -1 <= key_idx(s, k) < s.len(),
        key_idx(s, k) >= 0 ==> (#[trigger] s[key_idx(s, k)]).0@ == k,
        key_idx(s, k) >= 0 ==> (forall|t: int|
            0 <= t < key_idx(s, k) ==> (#[trigger] s[t]).0@ != k),
        key_idx(s, k) == -1 ==> (forall|t: int| 0 <= t < s.len() ==> (#[trigger] s[t]).0@ != k),
    decreases s.len(),
{
    if s.len() > 0 && s[0].0@ != k {
        lemma_key_idx(s.drop_first(), k);
        assert(forall|t: int| 0 < t < s.len() ==> s.drop_first()[t - 1] == #[trigger] s[t]);
    }
}

/// A scan that stopped at the first match found the key's position.
pub proof fn lemma_key_idx_at<T>(s: Seq<(Vec<u8>, T)>, k: Seq<u8>, i: int)
    requires
        0 <= i < s.len(),
        s[i].0@ == k,
        forall|t: int| 0 <= t < i ==> (#[trigger] s[t]).0@ != k,
    ensures
        key_idx(s, k) == i,
    decreases i,
{
    if i > 0 {
        assert(forall|t: int| 0 < t < s.len() ==> s.drop_first()[t - 1] == #[trigger] s[t]);
        lemma_key_idx_at(s.drop_first(), k, i - 1);
    }
}

/// A scan that matched nowhere shows the key is absent.
pub proof fn lemma_key_idx_none<T>(s: Seq<(Vec<u8>, T)>, k: Seq<u8>)
    requires
        forall|t: int| 0 <= t < s.len() ==> (#[trigger] s[t]).0@ != k,
    ensures
        key_idx(s, k) == -1,
    decreases s.len(),
{
    if s.len() > 0 {
        assert(forall|t: int| 0 < t < s.len() ==> s.drop_first()[t - 1] == #[trigger] s[t]);
        lemma_key_idx_none(s.drop_first(), k);
    }
}

/// No key occurs twice.
pub open spec fn keys_unique<T>(s: Seq<(Vec<u8>, T)>) -> bool {
    forall|i: int, j: int|
        0 <= i < j < s.len() ==> (#[trigger] s[i]).0@ != (#[trigger] s[j]).0@
}

/// Replacing a pair by one with the same key leaves every key's position
/// alone.
pub proof fn lemma_key_idx_update<T>(s: Seq<(Vec<u8>, T)>, i: int, p: (Vec<u8>, T), k: Seq<u8>)
    requires
        0 <= i < s.len(),
        s[i].0@ == p.0@,
    ensures
        key_idx(s.update(i, p), k) == key_idx(s, k),
    decreases s.len(),
{
    if s.len() > 0 {
        if i == 0 {
            assert(s.update(0, p).drop_first() =~= s.drop_first());
        } else {
            assert(s.update(i, p).drop_first() =~= s.drop_first().update(i - 1, p));
            lemma_key_idx_update(s.drop_first(), i - 1, p, k);
        }
    }
}

/// Appending a pair whose key is absent puts that key at the back and moves
/// no other key.
pub proof fn lemma_key_idx_push<T>(s: Seq<(Vec<u8>, T)>, p: (Vec<u8>, T), k: Seq<u8>)
    requires
        key_idx(s, p.0@) == -1,
    ensures
        key_idx(s.push(p), p.0@) == s.len(),
        k != p.0@ ==> key_idx(s.push(p), k) == key_idx(s, k),
    decreases s.len(),
{
    reveal_with_fuel(key_idx, 3);
    lemma_key_idx(s, p.0@);
    lemma_key_idx(s, k);
    if s.len() == 0 {
        assert(s.push(p)[0] == p);
        assert(s.push(p).drop_first() =~= Seq::<(Vec<u8>, T)>::empty());
        if k != p.0@ {
            assert(key_idx(s.push(p), k) == -1);
            assert(key_idx(s, k) == -1);
        }
    } else {
        assert(s.push(p).drop_first() =~= s.drop_first().push(p));
        assert(s.push(p)[0] == s[0]);
        lemma_key_idx(s.drop_first(), p.0@);
        lemma_key_idx(s.drop_first(), k);
        lemma_key_idx_push(s.drop_first(), p, k);
        if k != p.0@ {
            if s[0].0@ == k {
                assert(key_idx(s.push(p), k) == 0);
            } else {
                assert(key_idx(s.push(p), k) == key_idx(s, k));
            }
        }
    }
}

/// The string table and the stream table.
#[derive(Debug)]
pub struct Store {
    pub map: Vec<(Vec<u8>, ValueWrapper)>,
    pub streams: Vec<(Vec<u8>, Stream)>,
}

impl Store {
    /// Keys are unique in both tables and every stream is ordered.
    pub open spec fn wf(&self) -> bool {
        &&& keys_unique(self.map@)
        &&& keys_unique(self.streams@)
        &&& forall|i: int| 0 <= i < self.streams@.len() ==> (#[trigger] self.streams@[i]).1.wf()
    }

    /// An empty store.
    pub fn new() -> (r: Store)
        ensures
            r.map@.len() == 0,
            r.streams@.len() == 0,
            r.wf(),
    {
        Store { map: Vec::new(), streams: Vec::new() }
    }

    /// The position of `key` in the string table, found by a front-first
    /// scan.
    fn find_str(&self, key: &[u8]) -> (r: Option<usize>)
        ensures
            match r {
                Some(i) => key_idx(self.map@, key@) == i && i < self.map@.len(),
                None => key_idx(self.map@, key@) == -1,
            },
    {
        let n = self.map.len();
        for i in 0..n
            invariant
                n == self.map@.len(),
                forall|t: int| 0 <= t < i ==> (#[trigger] self.map@[t]).0@ != key@,
        {
            if crate::num::bytes_eq(self.map[i].0.as_slice(), key) {
                proof {
                    lemma_key_idx_at(self.map@, key@, i as int);
                }
                return Some(i);
            }
        }
        proof {
            lemma_key_idx_none(self.map@, key@);
        }
        None
    }

    /// The position of `key` in the stream table, found by a front-first
    /// scan.
    fn find_stream(&self, key: &[u8]) -> (r: Option<usize>)
        ensures
            match r {
                Some(i) => key_idx(self.streams@, key@) == i && i < self.streams@.len(),
                None => key_idx(self.streams@, key@) == -1,
            },
    {
        let n = self.streams.len();
        for i in 0..n
            invariant
                n == self.streams@.len(),
                forall|t: int| 0 <= t < i ==> (#[trigger] self.streams@[t]).0@ != key@,
        {
            if crate::num::bytes_eq(self.streams[i].0.as_slice(), key) {
                proof {
                    lemma_key_idx_at(self.streams@, key@, i as int);
                }
                return Some(i);
            }
        }
        proof {
            lemma_key_idx_none(self.streams@, key@);
        }
        None
    }

    /// The absolute expiry a relative one means at `now_ms`; a deadline past
    /// the clock's range never fires.
    pub open spec fn spec_expiry(expire_in: Option<u64>, now_ms: u64) -> Option<u64> {
        match expire_in {
            None => None,
            Some(d) => if now_ms + d <= u64::MAX {
                Some((now_ms + d) as u64)
            } else {
                None
            },
        }
    }

    /// Writes `key`, replacing any earlier value; with `expire_in`, the
    /// value dies `expire_in` milliseconds after `now_ms`.
    pub fn set(&mut self, key: Vec<u8>, value: Value, expire_in: Option<u64>, now_ms: u64)
        requires
            old(self).wf(),
        ensures
            final(self).wf(),
            final(self).streams == old(self).streams,
            ({
                let w = (key, ValueWrapper { value, expiration: Self::spec_expiry(expire_in, now_ms) });
                let i = key_idx(old(self).map@, key@);
                if i >= 0 {
                    final(self).map@ == old(self).map@.update(i, w)
                } else {
                    final(self).map@ == old(self).map@.push(w)
                }
            }),
    {
        let expiration: Option<u64> = match expire_in {
            None => None,
            Some(d) => {
                if now_ms <= u64::MAX - d {
                    Some(now_ms + d)
                } else {
                    None
                }
            },
        };
        let wrapper = ValueWrapper { value, expiration };
        proof {
            lemma_key_idx(self.map@, key@);
        }
        match self.find_str(key.as_slice()) {
            Some(i) => {
                let ghost before = self.map@;
                self.map.remove(i);
                self.map.insert(i, (key, wrapper));
                proof {
                    assert(self.map@ =~= before.update(
                        i as int,
                        (key, ValueWrapper { value, expiration }),
                    ));
                }
            },
            None => {
                self.map.push((key, wrapper));
            },
        }
    }

    /// Reads `key`.  A value already dead at `now_ms` is dropped and not
    /// returned.
    pub fn get(&mut self, key: &[u8], now_ms: u64) -> (r: Option<Value>)
        requires
            old(self).wf(),
        ensures
            final(self).wf(),
            final(self).streams == old(self).streams,
            ({
                let i = key_idx(old(self).map@, key@);
                if i == -1 {
                    r is None && final(self).map == old(self).map
                } else if spec_expired(old(self).map@[i].1.expiration, now_ms) {
                    r is None && final(self).map@ == old(self).map@.remove(i)
                } else {
                    (r matches Some(v) && v@ == old(self).map@[i].1.value@) && final(self).map
                        == old(self).map
                }
            }),
    {
        proof {
            lemma_key_idx(self.map@, key@);
        }
        match self.find_str(key) {
            None => None,
            Some(i) => {
                if self.map[i].1.has_expired(now_ms) {
                    self.map.remove(i);
                    None
                } else {
                    Some(self.map[i].1.value.duplicate())
                }
            },
        }
    }

    /// The name of the type stored under `key`: the string table wins, then
    /// the stream table, then none.  A dead string value is dropped on the
    /// way.
    pub fn get_type(&mut self, key: &[u8], now_ms: u64) -> (r: String)
        requires
            old(self).wf(),
        ensures
            final(self).wf(),
            final(self).streams == old(self).streams,
            ({
                let i = key_idx(old(self).map@, key@);
                let live = i >= 0 && !spec_expired(old(self).map@[i].1.expiration, now_ms);
                &&& (live ==> r@ == "string"@)
                &&& (!live && key_idx(old(self).streams@, key@) >= 0 ==> r@ == "stream"@)
                &&& (!live && key_idx(old(self).streams@, key@) == -1 ==> r@ == "none"@)
                &&& if i >= 0 && spec_expired(old(self).map@[i].1.expiration, now_ms) {
                    final(self).map@ == old(self).map@.remove(i)
                } else {
                    final(self).map == old(self).map
                }
            }),
    {
        proof {
            lemma_key_idx(self.map@, key@);
        }
        match self.get(key, now_ms) {
            Some(v) => v.type_string(),
            None => {
                proof {
                    assert(self.streams@ == old(self).streams@);
                }
                match self.find_stream(key) {
                    Some(_) => String::from_str("stream"),
                    None => String::from_str("none"),
                }
            },
        }
    }

    /// The entries of the stream under `key` whose ids fall in the bounds;
    /// an absent stream reads as empty.
    pub fn get_stream_range(&self, key: &[u8], lo: IdBound, hi: IdBound) -> (r: Vec<
        (EntryId, Vec<Entry>),
    >)
        ensures
            ({
                let i = key_idx(self.streams@, key@);
                let got = r@.map(
                    |t: int, p: (EntryId, Vec<Entry>)| (p.0, crate::stream::entries_view(p.1@)),
                );
                if i == -1 {
                    got == Seq::<crate::stream::SpecRow>::empty()
                } else {
                    got == crate::stream::select_rows(self.streams@[i].1.rows(), lo, hi)
                }
            }),
    {
        match self.find_stream(key) {
            None => {
                let r: Vec<(EntryId, Vec<Entry>)> = Vec::new();
                assert(r@.map(
                    |t: int, p: (EntryId, Vec<Entry>)| (p.0, crate::stream::entries_view(p.1@)),
                ) =~= Seq::<crate::stream::SpecRow>::empty());
                r
            },
            Some(i) => self.streams[i].1.range(lo, hi),
        }
    }

    /// The top id of the stream under `key`, creating an empty stream when
    /// none is there, so that later reads of the top id are stable.
    pub fn get_stream_curr_max_id(&mut self, key: Vec<u8>) -> (r: EntryId)
        requires
            old(self).wf(),
        ensures
            final(self).wf(),
            final(self).map == old(self).map,
            ({
                let i = key_idx(old(self).streams@, key@);
                if i >= 0 {
                    r == old(self).streams@[i].1.spec_max_id() && final(self).streams == old(
                        self,
                    ).streams
                } else {
                    let ns = final(self).streams@;
                    &&& r == EntryId::zero()
                    &&& ns.len() == old(self).streams@.len() + 1
                    &&& ns.take(old(self).streams@.len() as int) == old(self).streams@
                    &&& (ns.last().0)@ == key@
                    &&& ns.last().1.entries@.len() == 0
                }
            }),
    {
        proof {
            lemma_key_idx(self.streams@, key@);
        }
        match self.find_stream(key.as_slice()) {
            Some(i) => self.streams[i].1.max_entry_id(),
            None => {
                let ghost before = self.streams@;
                let st = Stream::new();
                let r = st.max_entry_id();
                self.streams.push((key, st));
                proof {
                    assert(self.streams@.take(before.len() as int) =~= before);
                }
                r
            },
        }
    }
}

/// The table once every value dead at `now_ms` is swept out.
pub open spec fn prune(s: Seq<(Vec<u8>, ValueWrapper)>, now_ms: u64) -> Seq<(Vec<u8>, ValueWrapper)>
    decreases s.len(),
{
    if s.len() == 0 {
        Seq::empty()
    } else {
        let rest = prune(s.drop_first(), now_ms);
        if spec_expired(s[0].1.expiration, now_ms) {
            rest
        } else {
            seq![s[0]] + rest
        }
    }
}

/// Sweeping keeps a subset of the pairs, so unique keys stay unique.
pub proof fn lemma_prune_unique(s: Seq<(Vec<u8>, ValueWrapper)>, now_ms: u64)
    ensures
        forall|t: int|
            0 <= t < prune(s, now_ms).len() ==> exists|u: int|
                0 <= u < s.len() && #[trigger] prune(s, now_ms)[t] == s[u],
        keys_unique(s) ==> keys_unique(prune(s, now_ms)),
    decreases s.len(),
{
    if s.len() > 0 {
        lemma_prune_unique(s.drop_first(), now_ms);
        assert(forall|u: int| 0 <= u < s.drop_first().len() ==> s.drop_first()[u] == #[trigger] s[u
            + 1]);
        let p = prune(s, now_ms);
        let rest = prune(s.drop_first(), now_ms);
        if spec_expired(s[0].1.expiration, now_ms) {
            assert forall|t: int| 0 <= t < p.len() implies exists|u: int|
                0 <= u < s.len() && #[trigger] p[t] == s[u] by {
                let u0 = choose|u0: int| 0 <= u0 < s.drop_first().len() && rest[t] == s.drop_first()[u0];
                assert(p[t] == s[u0 + 1]);
            }
        } else {
            assert forall|t: int| 0 <= t < p.len() implies exists|u: int|
                0 <= u < s.len() && #[trigger] p[t] == s[u] by {
                if t == 0 {
                    assert(p[0] == s[0]);
                } else {
                    assert(p[t] == rest[t - 1]);
                    let u0 = choose|u0: int|
                        0 <= u0 < s.drop_first().len() && rest[t - 1] == s.drop_first()[u0];
                    assert(p[t] == s[u0 + 1]);
                }
            }
            if keys_unique(s) {
                assert forall|i: int, j: int| 0 <= i < j < p.len() implies (#[trigger] p[i]).0@ != (
                #[trigger] p[j]).0@ by {
                    if i == 0 {
                        let u0 = choose|u0: int|
                            0 <= u0 < s.drop_first().len() && rest[j - 1] == s.drop_first()[u0];
                        assert(p[j] == s[u0 + 1]);
                        assert(s[0].0@ != s[u0 + 1].0@);
                    } else {
                        assert(p[i] == rest[i - 1] && p[j] == rest[j - 1]);
                        assert(keys_unique(rest));
                    }
                }
            }
        }
    }
}

/// Snapshot rows as mathematical values: a key and the bytes under it.
pub open spec fn snapshot_view(s: Seq<(Vec<u8>, Value)>) -> Seq<(Seq<u8>, Seq<u8>)> {
    s.map(|i: int, p: (Vec<u8>, Value)| (p.0@, p.1@))
}

pub proof fn lemma_snapshot_view_snoc(s: Seq<(Vec<u8>, Value)>, p: (Vec<u8>, Value))
    ensures
        snapshot_view(s.push(p)) == snapshot_view(s).push((p.0@, p.1@)),
{
    assert(snapshot_view(s.push(p)) =~= snapshot_view(s).push((p.0@, p.1@)));
}

/// Table rows as mathematical values: a key and the live bytes under it.
pub open spec fn table_view(s: Seq<(Vec<u8>, ValueWrapper)>) -> Seq<(Seq<u8>, Seq<u8>)> {
    s.map(|i: int, p: (Vec<u8>, ValueWrapper)| (p.0@, p.1.value@))
}

pub proof fn lemma_table_view_snoc(s: Seq<(Vec<u8>, ValueWrapper)>, p: (Vec<u8>, ValueWrapper))
    ensures
        table_view(s.push(p)) == table_view(s).push((p.0@, p.1.value@)),
{
    assert(table_view(s.push(p)) =~= table_view(s).push((p.0@, p.1.value@)));
}

/// A live snapshot row: a key and the bytes stored under it.
pub open spec fn live_view(s: Seq<(Vec<u8>, ValueWrapper)>, now_ms: u64) -> Seq<(Seq<u8>, Seq<u8>)> {
    table_view(prune(s, now_ms))
}

impl Store {
    /// Appends to the stream under `key`, first resolving a wildcard id
    /// against the stream's top id and the clock.  The stream is created
    /// when absent; nothing changes when the id is bad or not above the top.
    pub fn stream_set(
        &mut self,
        key: Vec<u8>,
        entry_id: &[u8],
        entries: Vec<Entry>,
        now_ms: u64,
    ) -> (r: Result<EntryId, StreamError>)
        requires
            old(self).wf(),
        ensures
            final(self).wf(),
            final(self).map == old(self).map,
            ({
                let i0 = key_idx(old(self).streams@, key@);
                let base_max = if i0 >= 0 {
                    old(self).streams@[i0].1.spec_max_id()
                } else {
                    EntryId::zero()
                };
                let base_entries = if i0 >= 0 {
                    old(self).streams@[i0].1.entries@
                } else {
                    Seq::<(EntryId, Vec<Entry>)>::empty()
                };
                let base_subs = if i0 >= 0 {
                    old(self).streams@[i0].1.subscribers@
                } else {
                    Seq::<(EntryId, crossbeam_channel::Sender<()>)>::empty()
                };
                match EntryId::spec_create(entry_id@, base_max, now_ms) {
                    None => r == Err::<EntryId, StreamError>(StreamError::BadFormat)
                        && final(self).streams@ == old(self).streams@,
                    Some(id) => if EntryId::le_spec(id, EntryId::zero()) {
                        r == Err::<EntryId, StreamError>(StreamError::MinId)
                            && final(self).streams@ == old(self).streams@
                    } else if EntryId::le_spec(id, base_max) {
                        r == Err::<EntryId, StreamError>(StreamError::NotIncreasing)
                            && final(self).streams@ == old(self).streams@
                    } else {
                        let ns = final(self).streams@;
                        &&& r == Ok::<EntryId, StreamError>(id)
                        &&& (if i0 >= 0 {
                            &&& ns.len() == old(self).streams@.len()
                            &&& (forall|t: int|
                                0 <= t < ns.len() && t != i0 ==> #[trigger] ns[t]
                                    == old(self).streams@[t])
                            &&& ns[i0].0 == old(self).streams@[i0].0
                            &&& ns[i0].1.entries@ == base_entries.push((id, entries))
                            &&& ns[i0].1.subscribers@ == crate::stream::remaining_subs(
                                base_subs,
                                id,
                            )
                        } else {
                            &&& ns.len() == old(self).streams@.len() + 1
                            &&& ns.take(old(self).streams@.len() as int) == old(self).streams@
                            &&& (ns.last().0)@ == key@
                            &&& ns.last().1.entries@ == base_entries.push((id, entries))
                            &&& ns.last().1.subscribers@.len() == 0
                        })
                    },
                }
            }),
    {
        proof {
            lemma_key_idx(self.streams@, key@);
        }
        match self.find_stream(key.as_slice()) {
            Some(i) => {
                let mx = self.streams[i].1.max_entry_id();
                let id = match EntryId::create(entry_id, &mx, now_ms) {
                    Ok(id) => id,
                    Err(e) => {
                        return Err(e);
                    },
                };
                let ghost before = self.streams@;
                let mut pair = self.streams.remove(i);
                let res = pair.1.append(id, entries);
                self.streams.insert(i, pair);
                proof {
                    assert(self.streams@ =~= before.update(i as int, self.streams@[i as int]));
                    assert(self.streams@[i as int].0 == before[i as int].0);
                    assert(keys_unique(self.streams@));
                }
                match res {
                    Ok(()) => Ok(id),
                    Err(e) => {
                        proof {
                            assert(self.streams@ =~= before);
                        }
                        Err(e)
                    },
                }
            },
            None => {
                let zero = EntryId { ms: 0, seq: 0 };
                let id = match EntryId::create(entry_id, &zero, now_ms) {
                    Ok(id) => id,
                    Err(e) => {
                        return Err(e);
                    },
                };
                let mut st = Stream::new();
                let res = st.append(id, entries);
                match res {
                    Ok(()) => {
                        let ghost before = self.streams@;
                        self.streams.push((key, st));
                        proof {
                            assert(self.streams@.take(before.len() as int) =~= before);
                            assert(keys_unique(self.streams@));
                        }
                        Ok(id)
                    },
                    Err(e) => Err(e),
                }
            },
        }
    }

    /// Registers a wake channel on the stream under `key` for entries past
    /// `entry_id`, creating the stream when absent.
    pub fn stream_subscribe(&mut self, key: Vec<u8>, entry_id: EntryId) -> (r:
        crossbeam_channel::Receiver<()>)
        requires
            old(self).wf(),
        ensures
            final(self).wf(),
            final(self).map == old(self).map,
            ({
                let i0 = key_idx(old(self).streams@, key@);
                let ns = final(self).streams@;
                if i0 >= 0 {
                    &&& ns.len() == old(self).streams@.len()
                    &&& (forall|t: int|
                        0 <= t < ns.len() && t != i0 ==> #[trigger] ns[t] == old(self).streams@[t])
                    &&& ns[i0].0 == old(self).streams@[i0].0
                    &&& ns[i0].1.entries == old(self).streams@[i0].1.entries
                    &&& ns[i0].1.subscribers@.len() == old(self).streams@[i0].1.subscribers@.len()
                        + 1
                    &&& ns[i0].1.subscribers@.last().0 == entry_id
                    &&& ns[i0].1.subscribers@.take(
                        old(self).streams@[i0].1.subscribers@.len() as int,
                    ) == old(self).streams@[i0].1.subscribers@
                } else {
                    &&& ns.len() == old(self).streams@.len() + 1
                    &&& ns.take(old(self).streams@.len() as int) == old(self).streams@
                    &&& (ns.last().0)@ == key@
                    &&& ns.last().1.entries@.len() == 0
                    &&& ns.last().1.subscribers@.len() == 1
                    &&& ns.last().1.subscribers@.last().0 == entry_id
                }
            }),
    {
        proof {
            lemma_key_idx(self.streams@, key@);
        }
        match self.find_stream(key.as_slice()) {
            Some(i) => {
                let ghost before = self.streams@;
                let mut pair = self.streams.remove(i);
                let rx = pair.1.subscribe_entries_after(entry_id);
                self.streams.insert(i, pair);
                proof {
                    assert(self.streams@ =~= before.update(i as int, self.streams@[i as int]));
                    assert(keys_unique(self.streams@));
                }
                rx
            },
            None => {
                let mut st = Stream::new();
                let rx = st.subscribe_entries_after(entry_id);
                let ghost before = self.streams@;
                self.streams.push((key, st));
                proof {
                    assert(self.streams@.take(before.len() as int) =~= before);
                    assert(keys_unique(self.streams@));
                }
                rx
            },
        }
    }

    /// A snapshot of the live string pairs, sweeping out the dead ones on
    /// the way.
    #[verifier::loop_isolation(false)]
    pub fn data(&mut self, now_ms: u64) -> (r: Vec<(Vec<u8>, Value)>)
        requires
            old(self).wf(),
        ensures
            final(self).wf(),
            final(self).streams == old(self).streams,
            final(self).map@ == prune(old(self).map@, now_ms),
            snapshot_view(r@) == live_view(old(self).map@, now_ms),
    {
        let ghost all = self.map@;
        let mut rest: Vec<(Vec<u8>, ValueWrapper)> = Vec::new();
        core::mem::swap(&mut self.map, &mut rest);
        let mut kept: Vec<(Vec<u8>, ValueWrapper)> = Vec::new();
        let mut out: Vec<(Vec<u8>, Value)> = Vec::new();
        proof {
            assert(kept@ + prune(rest@, now_ms) =~= prune(all, now_ms));
            assert(snapshot_view(out@) =~= table_view(kept@));
        }
        loop
            invariant
                kept@ + prune(rest@, now_ms) == prune(all, now_ms),
                snapshot_view(out@) == table_view(kept@),
            decreases rest@.len(),
        {
            if rest.len() == 0 {
                assert(kept@ + prune(rest@, now_ms) =~= kept@);
                break;
            }
            let p = rest.remove(0);
            let ghost before = seq![p] + rest@;
            assert(before.drop_first() =~= rest@);
            assert(before[0] == p);
            if !p.1.has_expired(now_ms) {
                let ghost kept0 = kept@;
                let ghost out0 = out@;
                let key_copy = vstd::slice::slice_to_vec(p.0.as_slice());
                let val_copy = p.1.value.duplicate();
                out.push((key_copy, val_copy));
                kept.push(p);
                proof {
                    assert(kept@ =~= kept0.push(p));
                    assert(out@ =~= out0.push((key_copy, val_copy)));
                    lemma_snapshot_view_snoc(out0, (key_copy, val_copy));
                    lemma_table_view_snoc(kept0, p);
                    assert(snapshot_view(out@) =~= table_view(kept@));
                    assert(kept@ + prune(rest@, now_ms) =~= kept0 + (seq![p] + prune(
                        rest@,
                        now_ms,
                    )));
                }
            } else {
                assert(kept@ + prune(rest@, now_ms) == prune(all, now_ms));
            }
        }
        proof {
            assert(kept@ + prune(rest@, now_ms) =~= kept@);
        }
        core::mem::swap(&mut self.map, &mut kept);
        proof {
            lemma_prune_unique(all, now_ms);
        }
        out
    }
}

} // verus!
