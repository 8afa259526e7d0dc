//! Streams: entries ordered by a two-part id, and subscribers woken when a
//! later entry arrives.
use vstd::prelude::*;

use vstd::string::StrSliceExecFns;
use vstd::string::StringSliceAdditionalSpecFns;

use crate::num::digits_end;
use crate::num::digits_val;
use crate::num::find_byte;
use crate::num::is_digit;

verus! {

broadcast use
    crate::num::lemma_digits_end_bounds,
    crate::num::lemma_find_byte_bounds,
;

/// A stream entry id: milliseconds, then a sequence number, ordered
/// lexicographically.
#[derive(Clone, Copy, Debug, PartialEq, Eq, PartialOrd, Ord, Hash, Structural)]
pub struct EntryId {
    pub ms: u64,
    pub seq: u64,
}

/// Why an id could not be parsed or appended.
#[derive(Debug, PartialEq, Eq, Structural)]
pub enum StreamError {
    BadFormat,
    NotIncreasing,
    MinId,
}

/// The exact words each failure puts on the wire.
pub open spec fn stream_error_bytes(e: StreamError) -> Seq<u8> {
    match e {
        StreamError::BadFormat => "Expect 'ms-seq' format".spec_bytes(),
        StreamError::NotIncreasing => "ERR The ID specified in XADD is equal or smaller than the target stream top item".spec_bytes(),
        StreamError::MinId => "ERR The ID specified in XADD must be greater than 0-0".spec_bytes(),
    }
}

impl StreamError {
    /// The message a client sees for this failure.
    pub fn message(&self) -> (r: Vec<u8>)
        ensures
            r@ == stream_error_bytes(*self),
    {
        match self {
            StreamError::BadFormat => "Expect 'ms-seq' format".as_bytes_vec(),
            StreamError::NotIncreasing => "ERR The ID specified in XADD is equal or smaller than the target stream top item".as_bytes_vec(),
            StreamError::MinId => "ERR The ID specified in XADD must be greater than 0-0".as_bytes_vec(),
        }
    }
}

/// A run of decimal digits and nothing else, read as a number.
pub open spec fn spec_parse_u64(s: Seq<u8>) -> Option<u64> {
    if s.len() == 0 || digits_end(s, 0) != s.len() || digits_val(s) > u64::MAX {
        None
    } else {
        Some(digits_val(s) as u64)
    }
}

/// Reads a buffer that holds nothing but a decimal number.
pub fn parse_u64(buf: &[u8]) -> (r: Option<u64>)
    ensures
        r == spec_parse_u64(buf@),
{
    proof {
        crate::num::lemma_digits_end_chars(buf@, 0);
    }
    let ghost j = digits_end(buf@, 0);
    if buf.len() == 0 {
        return None;
    }
    let mut i: usize = 0;
    let mut v: u64 = 0;
    loop
        invariant
            0 <= i <= j <= buf@.len(),
            j == digits_end(buf@, 0),
            forall|k: int| 0 <= k < j ==> is_digit(#[trigger] buf@[k]),
            j < buf@.len() ==> !is_digit(buf@[j as int]),
            v == digits_val(buf@.subrange(0, i as int)),
            buf@.len() >= 1,
        ensures
            i == j,
            v == digits_val(buf@.subrange(0, j)),
        decreases buf@.len() - i,
    {
        if i >= buf.len() || buf[i] < 48 || buf[i] > 57 {
            assert(i == j);
            break;
        }
        let d: u64 = (buf[i] - 48) as u64;
        proof {
            assert(buf@.subrange(0, i + 1).drop_last() =~= buf@.subrange(0, i as int));
        }
        if v > (u64::MAX - d) / 10 {
            proof {
                assert(v * 10 + d > u64::MAX) by (nonlinear_arith)
                    requires
                        v > (u64::MAX - d) / 10,
                        d <= 9,
                ;
                assert(digits_val(buf@.subrange(0, i + 1)) == v * 10 + d);
                crate::num::lemma_digits_val_prefix_mono(buf@, i + 1, j);
                assert(buf@.subrange(0, buf@.len() as int) =~= buf@);
            }
            return None;
        }
        assert(v * 10 + d <= u64::MAX) by (nonlinear_arith)
            requires
                v <= (u64::MAX - d) / 10,
                d <= 9,
        ;
        v = v * 10 + d;
        i = i + 1;
    }
    if i < buf.len() {
        None
    } else {
        assert(buf@.subrange(0, j) =~= buf@);
        Some(v)
    }
}

/// An id written as two numbers around one dash, with no wildcard.
pub open spec fn spec_entry_id(s: Seq<u8>) -> Option<EntryId> {
    let d = find_byte(s, 45, 0);
    if d == s.len() || find_byte(s, 45, d + 1) != s.len() {
        None
    } else {
        match (spec_parse_u64(s.subrange(0, d)), spec_parse_u64(s.subrange(d + 1, s.len() as int))) {
            (Some(ms), Some(seq)) => Some(EntryId { ms, seq }),
            _ => None,
        }
    }
}

impl EntryId {
    pub open spec fn zero() -> EntryId {
        EntryId { ms: 0, seq: 0 }
    }

    pub open spec fn top() -> EntryId {
        EntryId { ms: u64::MAX, seq: u64::MAX }
    }

    pub open spec fn lt_spec(a: EntryId, b: EntryId) -> bool {
        a.ms < b.ms || (a.ms == b.ms && a.seq < b.seq)
    }

    pub open spec fn le_spec(a: EntryId, b: EntryId) -> bool {
        a.ms < b.ms || (a.ms == b.ms && a.seq <= b.seq)
    }

    /// Strictly before `o` in the id order.
    pub fn lt(&self, o: &EntryId) -> (r: bool)
        ensures
            r == Self::lt_spec(*self, *o),
    {
        self.ms < o.ms || (self.ms == o.ms && self.seq < o.seq)
    }

    /// At or before `o` in the id order.
    pub fn le(&self, o: &EntryId) -> (r: bool)
        ensures
            r == Self::le_spec(*self, *o),
    {
        self.ms < o.ms || (self.ms == o.ms && self.seq <= o.seq)
    }

    /// The largest id there is.
    pub fn max() -> (r: EntryId)
        ensures
            r == Self::top(),
    {
        EntryId { ms: u64::MAX, seq: u64::MAX }
    }

    /// Reads `ms-seq` with both parts written out.
    pub fn create_from_complete(s: &[u8]) -> (r: Result<EntryId, StreamError>)
        ensures
            match spec_entry_id(s@) {
                Some(id) => r == Ok::<EntryId, StreamError>(id),
                None => r == Err::<EntryId, StreamError>(StreamError::BadFormat),
            },
    {
        proof {
            crate::num::lemma_find_byte_chars(s@, 45, 0);
        }
        let ghost dpos = find_byte(s@, 45, 0);
        let mut d: usize = 0;
        loop
            invariant
                0 <= d <= dpos <= s@.len(),
                dpos == find_byte(s@, 45, 0),
                forall|k: int| 0 <= k < dpos ==> s@[k] != 45,
                dpos < s@.len() ==> s@[dpos as int] == 45,
            ensures
                d == dpos,
            decreases s@.len() - d,
        {
            if d >= s.len() || s[d] == 45 {
                assert(d == dpos);
                break;
            }
            d = d + 1;
        }
        if d == s.len() {
            return Err(StreamError::BadFormat);
        }
        proof {
            crate::num::lemma_find_byte_chars(s@, 45, d + 1);
        }
        let ghost dpos2 = find_byte(s@, 45, d as int + 1);
        let mut d2: usize = d + 1;
        loop
            invariant
                d + 1 <= d2 <= dpos2 <= s@.len(),
                dpos2 == find_byte(s@, 45, d as int + 1),
                forall|k: int| d + 1 <= k < dpos2 ==> s@[k] != 45,
                dpos2 < s@.len() ==> s@[dpos2 as int] == 45,
            ensures
                d2 == dpos2,
            decreases s@.len() - d2,
        {
            if d2 >= s.len() || s[d2] == 45 {
                assert(d2 == dpos2);
                break;
            }
            d2 = d2 + 1;
        }
        if d2 != s.len() {
            return Err(StreamError::BadFormat);
        }
        let ms_part = vstd::slice::slice_subrange(s, 0, d);
        let seq_part = vstd::slice::slice_subrange(s, d + 1, s.len());
        match (parse_u64(ms_part), parse_u64(seq_part)) {
            (Some(ms), Some(seq)) => Ok(EntryId { ms, seq }),
            _ => Err(StreamError::BadFormat),
        }
    }

    /// What an id written with a wildcard resolves to against the stream's
    /// current top id and the clock.
    pub open spec fn spec_create(s: Seq<u8>, curr_max: EntryId, now_ms: u64) -> Option<EntryId> {
        if s =~= seq![42u8] {
            Some(
                EntryId {
                    ms: now_ms,
                    seq: if now_ms == curr_max.ms {
                        Self::next_seq(curr_max.seq)
                    } else {
                        0
                    },
                },
            )
        } else {
            let d = find_byte(s, 45, 0);
            if d == s.len() || find_byte(s, 45, d + 1) != s.len() {
                None
            } else {
                match spec_parse_u64(s.subrange(0, d)) {
                    None => None,
                    Some(ms) => {
                        let tail = s.subrange(d + 1, s.len() as int);
                        if tail =~= seq![42u8] {
                            Some(
                                EntryId {
                                    ms,
                                    seq: if ms == curr_max.ms {
                                        Self::next_seq(curr_max.seq)
                                    } else if ms == 0 {
                                        1
                                    } else {
                                        0
                                    },
                                },
                            )
                        } else {
                            match spec_parse_u64(tail) {
                                Some(seq) => Some(EntryId { ms, seq }),
                                None => None,
                            }
                        }
                    },
                }
            }
        }
    }

    /// The sequence number after `s`, stuck at the top of the range.
    pub open spec fn next_seq(s: u64) -> u64 {
        if s == u64::MAX {
            u64::MAX
        } else {
            (s + 1) as u64
        }
    }

    /// Reads an id that may use a wildcard for the whole id or for its
    /// sequence part, resolving it against `curr_max` and the clock.
    pub fn create(s: &[u8], curr_max: &EntryId, now_ms: u64) -> (r: Result<EntryId, StreamError>)
        ensures
            match Self::spec_create(s@, *curr_max, now_ms) {
                Some(id) => r == Ok::<EntryId, StreamError>(id),
                None => r == Err::<EntryId, StreamError>(StreamError::BadFormat),
            },
    {
        if s.len() == 1 && s[0] == 42 {
            assert(s@ =~= seq![42u8]);
            let seq: u64 = if now_ms == curr_max.ms {
                if curr_max.seq == u64::MAX {
                    u64::MAX
                } else {
                    curr_max.seq + 1
                }
            } else {
                0
            };
            return Ok(EntryId { ms: now_ms, seq });
        }
        assert(!(s@ =~= seq![42u8]));
        proof {
            crate::num::lemma_find_byte_chars(s@, 45, 0);
        }
        let ghost dpos = find_byte(s@, 45, 0);
        let mut d: usize = 0;
        loop
            invariant
                0 <= d <= dpos <= s@.len(),
                dpos == find_byte(s@, 45, 0),
                forall|k: int| 0 <= k < dpos ==> s@[k] != 45,
                dpos < s@.len() ==> s@[dpos as int] == 45,
            ensures
                d == dpos,
            decreases s@.len() - d,
        {
            if d >= s.len() || s[d] == 45 {
                assert(d == dpos);
                break;
            }
            d = d + 1;
        }
        if d == s.len() {
            return Err(StreamError::BadFormat);
        }
        proof {
            crate::num::lemma_find_byte_chars(s@, 45, d + 1);
        }
        let ghost dpos2 = find_byte(s@, 45, d as int + 1);
        let mut d2: usize = d + 1;
        loop
            invariant
                d + 1 <= d2 <= dpos2 <= s@.len(),
                dpos2 == find_byte(s@, 45, d as int + 1),
                forall|k: int| d + 1 <= k < dpos2 ==> s@[k] != 45,
                dpos2 < s@.len() ==> s@[dpos2 as int] == 45,
            ensures
                d2 == dpos2,
            decreases s@.len() - d2,
        {
            if d2 >= s.len() || s[d2] == 45 {
                assert(d2 == dpos2);
                break;
            }
            d2 = d2 + 1;
        }
        if d2 != s.len() {
            return Err(StreamError::BadFormat);
        }
        let ms_part = vstd::slice::slice_subrange(s, 0, d);
        let ms = match parse_u64(ms_part) {
            Some(ms) => ms,
            None => {
                return Err(StreamError::BadFormat);
            },
        };
        let tail = vstd::slice::slice_subrange(s, d + 1, s.len());
        if tail.len() == 1 && tail[0] == 42 {
            assert(tail@ =~= seq![42u8]);
            let seq: u64 = if ms == curr_max.ms {
                if curr_max.seq == u64::MAX {
                    u64::MAX
                } else {
                    curr_max.seq + 1
                }
            } else if ms == 0 {
                1
            } else {
                0
            };
            Ok(EntryId { ms, seq })
        } else {
            assert(!(tail@ =~= seq![42u8]));
            match parse_u64(tail) {
                Some(seq) => Ok(EntryId { ms, seq }),
                None => Err(StreamError::BadFormat),
            }
        }
    }

    /// What the start of a range written as `-`, `ms` or `ms-seq` means.
    pub open spec fn spec_start(s: Seq<u8>) -> Option<EntryId> {
        if s =~= seq![45u8] {
            Some(Self::zero())
        } else if find_byte(s, 45, 0) != s.len() {
            spec_entry_id(s)
        } else {
            match spec_parse_u64(s) {
                Some(ms) => Some(EntryId { ms, seq: 0 }),
                None => None,
            }
        }
    }

    /// Reads the start of a range: `-` for the least id, a bare number for
    /// the start of its millisecond, or a complete id.
    pub fn create_start(s: &[u8]) -> (r: Result<EntryId, StreamError>)
        ensures
            match Self::spec_start(s@) {
                Some(id) => r == Ok::<EntryId, StreamError>(id),
                None => r == Err::<EntryId, StreamError>(StreamError::BadFormat),
            },
    {
        if s.len() == 1 && s[0] == 45 {
            assert(s@ =~= seq![45u8]);
            return Ok(EntryId { ms: 0, seq: 0 });
        }
        assert(!(s@ =~= seq![45u8]));
        if contains_byte(s, 45) {
            Self::create_from_complete(s)
        } else {
            match parse_u64(s) {
                Some(ms) => Ok(EntryId { ms, seq: 0 }),
                None => Err(StreamError::BadFormat),
            }
        }
    }

    /// What the end of a range written as `+`, `ms` or `ms-seq` means.
    pub open spec fn spec_end(s: Seq<u8>) -> Option<EntryId> {
        if s =~= seq![43u8] {
            Some(Self::top())
        } else if find_byte(s, 45, 0) != s.len() {
            spec_entry_id(s)
        } else {
            match spec_parse_u64(s) {
                Some(ms) => Some(EntryId { ms, seq: u64::MAX }),
                None => None,
            }
        }
    }

    /// Reads the end of a range: `+` for the greatest id, a bare number for
    /// the end of its millisecond, or a complete id.
    pub fn create_end(s: &[u8]) -> (r: Result<EntryId, StreamError>)
        ensures
            match Self::spec_end(s@) {
                Some(id) => r == Ok::<EntryId, StreamError>(id),
                None => r == Err::<EntryId, StreamError>(StreamError::BadFormat),
            },
    {
        if s.len() == 1 && s[0] == 43 {
            assert(s@ =~= seq![43u8]);
            return Ok(EntryId { ms: u64::MAX, seq: u64::MAX });
        }
        assert(!(s@ =~= seq![43u8]));
        if contains_byte(s, 45) {
            Self::create_from_complete(s)
        } else {
            match parse_u64(s) {
                Some(ms) => Ok(EntryId { ms, seq: u64::MAX }),
                None => Err(StreamError::BadFormat),
            }
        }
    }

    /// The id written out as `ms-seq`.
    pub open spec fn spec_render(id: EntryId) -> Seq<u8> {
        crate::num::dec_digits(id.ms as nat) + seq![45u8] + crate::num::dec_digits(id.seq as nat)
    }

    /// Writes the id out as `ms-seq`.
    pub fn render(&self) -> (r: Vec<u8>)
        ensures
            r@ == Self::spec_render(*self),
    {
        let mut r = crate::num::u64_digits(self.ms);
        r.push(45);
        let mut tail = crate::num::u64_digits(self.seq);
        r.append(&mut tail);
        assert(r@ =~= Self::spec_render(*self));
        r
    }
}

/// One field of a stream entry.
#[derive(Debug)]
pub struct Entry {
    pub key: Vec<u8>,
    pub value: Vec<u8>,
}

impl View for Entry {
    type V = (Seq<u8>, Seq<u8>);

    open spec fn view(&self) -> (Seq<u8>, Seq<u8>) {
        (self.key@, self.value@)
    }
}

impl Entry {
    /// An entry holding the same bytes.
    pub fn duplicate(&self) -> (r: Entry)
        ensures
            r@ == self@,
    {
        Entry {
            key: vstd::slice::slice_to_vec(self.key.as_slice()),
            value: vstd::slice::slice_to_vec(self.value.as_slice()),
        }
    }
}

#[verifier::external_type_specification]
#[verifier::external_body]
#[verifier::reject_recursive_types(T)]
pub struct ExSender<T>(crossbeam_channel::Sender<T>);

#[verifier::external_type_specification]
#[verifier::external_body]
#[verifier::reject_recursive_types(T)]
pub struct ExReceiver<T>(crossbeam_channel::Receiver<T>);

/// Relies on crossbeam_channel::unbounded: makes a channel whose receiver
/// yields a unit for each one sent, and ends once the sender is gone.
#[verifier::external_body]
fn channel_pair() -> (crossbeam_channel::Sender<()>, crossbeam_channel::Receiver<()>) {
    crossbeam_channel::unbounded()
}

/// Relies on crossbeam_channel::Sender::send: wakes whoever holds the
/// matching receiver; a receiver already gone is no fault.
#[verifier::external_body]
fn channel_notify(tx: &crossbeam_channel::Sender<()>) {
    let _ = tx.send(());
}

/// The fields of one entry row, as mathematical values.
pub open spec fn entries_view(es: Seq<Entry>) -> Seq<(Seq<u8>, Seq<u8>)> {
    es.map(|i: int, e: Entry| e@)
}

/// A row: an id and its fields.
pub type SpecRow = (EntryId, Seq<(Seq<u8>, Seq<u8>)>);

/// A range bound on entry ids.
#[derive(Clone, Copy, Debug)]
pub enum IdBound {
    Included(EntryId),
    Excluded(EntryId),
}

pub open spec fn above_lo(lo: IdBound, id: EntryId) -> bool {
    match lo {
        IdBound::Included(b) => EntryId::le_spec(b, id),
        IdBound::Excluded(b) => EntryId::lt_spec(b, id),
    }
}

pub open spec fn below_hi(hi: IdBound, id: EntryId) -> bool {
    match hi {
        IdBound::Included(b) => EntryId::le_spec(id, b),
        IdBound::Excluded(b) => EntryId::lt_spec(id, b),
    }
}

pub open spec fn in_bounds(lo: IdBound, hi: IdBound, id: EntryId) -> bool {
    above_lo(lo, id) && below_hi(hi, id)
}

/// The rows whose ids fall inside the bounds, in order.
pub open spec fn select_rows(rows: Seq<SpecRow>, lo: IdBound, hi: IdBound) -> Seq<SpecRow>
    decreases rows.len(),
{
    if rows.len() == 0 {
        Seq::empty()
    } else {
        let rest = select_rows(rows.drop_first(), lo, hi);
        if in_bounds(lo, hi, rows[0].0) {
            seq![rows[0]] + rest
        } else {
            rest
        }
    }
}

/// The subscribers still waiting after an entry with the given id arrived:
/// exactly those waiting past it.
pub open spec fn remaining_subs(
    subs: Seq<(EntryId, crossbeam_channel::Sender<()>)>,
    id: EntryId,
) -> Seq<(EntryId, crossbeam_channel::Sender<()>)>
    decreases subs.len(),
{
    if subs.len() == 0 {
        Seq::empty()
    } else {
        let rest = remaining_subs(subs.drop_first(), id);
        if EntryId::lt_spec(id, subs[0].0) {
            seq![subs[0]] + rest
        } else {
            rest
        }
    }
}

/// An ordered stream: entries with strictly increasing ids, and subscribers
/// waiting to be woken by an entry past their id.
#[derive(Debug)]
pub struct Stream {
    pub entries: Vec<(EntryId, Vec<Entry>)>,
    pub subscribers: Vec<(EntryId, crossbeam_channel::Sender<()>)>,
}

impl Stream {
    /// The stream's rows as mathematical values.
    pub open spec fn rows(&self) -> Seq<SpecRow> {
        self.entries@.map(|i: int, p: (EntryId, Vec<Entry>)| (p.0, entries_view(p.1@)))
    }

    /// Entry ids grow strictly along the stream.
    pub open spec fn wf(&self) -> bool {
        forall|i: int, j: int|
            0 <= i < j < self.entries@.len() ==> EntryId::lt_spec(
                #[trigger] self.entries@[i].0,
                #[trigger] self.entries@[j].0,
            )
    }

    /// The id of the newest entry, or the least id for an empty stream.
    pub open spec fn spec_max_id(&self) -> EntryId {
        if self.entries@.len() == 0 {
            EntryId::zero()
        } else {
            self.entries@.last().0
        }
    }

    /// An empty stream.
    pub fn new() -> (r: Stream)
        ensures
            r.entries@.len() == 0,
            r.subscribers@.len() == 0,
            r.wf(),
    {
        Stream { entries: Vec::new(), subscribers: Vec::new() }
    }

    /// The id of the newest entry, or `0-0` when there is none.
    pub fn max_entry_id(&self) -> (r: EntryId)
        ensures
            r == self.spec_max_id(),
    {
        if self.entries.len() == 0 {
            EntryId { ms: 0, seq: 0 }
        } else {
            let p = &self.entries[self.entries.len() - 1];
            p.0
        }
    }

    /// Appends an entry.  The id must be above `0-0` and above every id
    /// already present; on success every subscriber waiting below the new id
    /// is woken and dropped, and one waiting at exactly the new id is
    /// dropped without a wake.
    pub fn append(&mut self, entry_id: EntryId, entries: Vec<Entry>) -> (r: Result<
        (),
        StreamError,
    >)
        requires
            old(self).wf(),
        ensures
            final(self).wf(),
            EntryId::le_spec(entry_id, EntryId::zero()) ==> (r == Err::<(), StreamError>(
                StreamError::MinId,
            ) && final(self).entries == old(self).entries && final(self).subscribers == old(
                self,
            ).subscribers),
            !EntryId::le_spec(entry_id, EntryId::zero()) && EntryId::le_spec(
                entry_id,
                old(self).spec_max_id(),
            ) ==> (r == Err::<(), StreamError>(StreamError::NotIncreasing) && final(self).entries
                == old(self).entries && final(self).subscribers == old(self).subscribers),
            !EntryId::le_spec(entry_id, EntryId::zero()) && !EntryId::le_spec(
                entry_id,
                old(self).spec_max_id(),
            ) ==> (r == Ok::<(), StreamError>(()) && final(self).entries@ == old(
                self,
            ).entries@.push((entry_id, entries)) && final(self).subscribers@ == remaining_subs(
                old(self).subscribers@,
                entry_id,
            )),
    {
        let zero = EntryId { ms: 0, seq: 0 };
        if entry_id.le(&zero) {
            return Err(StreamError::MinId);
        }
        let mx = self.max_entry_id();
        if entry_id.le(&mx) {
            return Err(StreamError::NotIncreasing);
        }
        let ghost old_entries = self.entries@;
        self.entries.push((entry_id, entries));
        proof {
            assert forall|i: int, j: int|
                0 <= i < j < self.entries@.len() implies EntryId::lt_spec(
                #[trigger] self.entries@[i].0,
                #[trigger] self.entries@[j].0,
            ) by {
                if j < old_entries.len() {
                } else {
                    assert(self.entries@[j].0 == entry_id);
                    if old_entries.len() > 0 {
                        let last = old_entries.len() - 1;
                        if i < last {
                            assert(EntryId::lt_spec(old_entries[i].0, old_entries[last].0));
                        }
                    }
                }
            }
        }
        let mut pending: Vec<(EntryId, crossbeam_channel::Sender<()>)> = Vec::new();
        core::mem::swap(&mut self.subscribers, &mut pending);
        let ghost all = pending@;
        let mut kept: Vec<(EntryId, crossbeam_channel::Sender<()>)> = Vec::new();
        assert(kept@ + remaining_subs(pending@, entry_id) =~= remaining_subs(all, entry_id));
        loop
            invariant
                kept@ + remaining_subs(pending@, entry_id) == remaining_subs(all, entry_id),
            ensures
                kept@ == remaining_subs(all, entry_id),
            decreases pending@.len(),
        {
            if pending.len() == 0 {
                assert(kept@ + remaining_subs(pending@, entry_id) =~= kept@);
                break;
            }
            let p = pending.remove(0);
            let ghost before = seq![p] + pending@;
            assert(before.drop_first() =~= pending@);
            assert(before[0] == p);
            if entry_id.lt(&p.0) {
                let ghost kept0 = kept@;
                kept.push(p);
                assert(kept@ =~= kept0.push(p));
                assert(kept@ + remaining_subs(pending@, entry_id) =~= kept0 + (seq![p]
                    + remaining_subs(pending@, entry_id)));
            } else if p.0.lt(&entry_id) {
                channel_notify(&p.1);
            }
        }
        core::mem::swap(&mut self.subscribers, &mut kept);
        Ok(())
    }

    /// The entries whose ids fall inside the bounds, in id order.
    pub fn range(&self, lo: IdBound, hi: IdBound) -> (r: Vec<(EntryId, Vec<Entry>)>)
        ensures
            r@.map(|i: int, p: (EntryId, Vec<Entry>)| (p.0, entries_view(p.1@))) == select_rows(
                self.rows(),
                lo,
                hi,
            ),
    {
        let mut out: Vec<(EntryId, Vec<Entry>)> = Vec::new();
        let ghost rows = self.rows();
        let n = self.entries.len();
        proof {
            assert(rows.skip(0) =~= rows);
            assert(out@.map(|i: int, p: (EntryId, Vec<Entry>)| (p.0, entries_view(p.1@)))
                =~= Seq::<SpecRow>::empty());
            assert(out@.map(|i: int, p: (EntryId, Vec<Entry>)| (p.0, entries_view(p.1@)))
                + select_rows(rows.skip(0), lo, hi) =~= select_rows(rows, lo, hi));
        }
        for idx in 0..n
            invariant
                n == self.entries@.len(),
                rows == self.rows(),
                rows.len() == n,
                out@.map(|i: int, p: (EntryId, Vec<Entry>)| (p.0, entries_view(p.1@)))
                    + select_rows(rows.skip(idx as int), lo, hi) == select_rows(rows, lo, hi),
        {
            let ghost seen = out@.map(|i: int, p: (EntryId, Vec<Entry>)| (p.0, entries_view(p.1@)));
            proof {
                assert(rows.skip(idx as int)[0] == rows[idx as int]);
                assert(rows.skip(idx as int).drop_first() =~= rows.skip(idx + 1));
                assert(rows[idx as int] == (self.entries@[idx as int].0, entries_view(
                    self.entries@[idx as int].1@,
                )));
            }
            let p = &self.entries[idx];
            let lo_ok = match lo {
                IdBound::Included(b) => b.le(&p.0),
                IdBound::Excluded(b) => b.lt(&p.0),
            };
            let hi_ok = match hi {
                IdBound::Included(b) => p.0.le(&b),
                IdBound::Excluded(b) => p.0.lt(&b),
            };
            if lo_ok && hi_ok {
                let mut copy: Vec<Entry> = Vec::new();
                let m = p.1.len();
                for t in 0..m
                    invariant
                        m == p.1@.len(),
                        copy@.len() == t,
                        forall|k: int| 0 <= k < t ==> copy@[k]@ == #[trigger] p.1@[k]@,
                {
                    copy.push(p.1[t].duplicate());
                }
                proof {
                    assert(entries_view(copy@) =~= entries_view(p.1@));
                }
                let ghost out0 = out@;
                out.push((p.0, copy));
                proof {
                    assert(out@ =~= out0.push((p.0, copy)));
                    let f = |i: int, q: (EntryId, Vec<Entry>)| (q.0, entries_view(q.1@));
                    assert(out@.map(f) =~= out0.map(f).push((p.0, entries_view(copy@))));
                    assert(out@.map(f) =~= seen + seq![rows[idx as int]]);
                    assert(seen + (seq![rows[idx as int]] + select_rows(
                        rows.skip(idx + 1),
                        lo,
                        hi,
                    )) =~= (seen + seq![rows[idx as int]]) + select_rows(rows.skip(idx + 1), lo, hi));
                }
            }
        }
        proof {
            assert(rows.skip(n as int) =~= Seq::<SpecRow>::empty());
            let f = |i: int, q: (EntryId, Vec<Entry>)| (q.0, entries_view(q.1@));
            assert(out@.map(f) + select_rows(rows.skip(n as int), lo, hi) =~= out@.map(f));
        }
        out
    }

    /// Registers a wake channel for entries past `entryid` and hands back
    /// its receiving end.
    pub fn subscribe_entries_after(&mut self, entryid: EntryId) -> (r: crossbeam_channel::Receiver<
        (),
    >)
        ensures
            final(self).entries == old(self).entries,
            final(self).subscribers@.len() == old(self).subscribers@.len() + 1,
            final(self).subscribers@.last().0 == entryid,
            final(self).subscribers@.take(old(self).subscribers@.len() as int) == old(
                self,
            ).subscribers@,
    {
        let (tx, rx) = channel_pair();
        let ghost before = self.subscribers@;
        self.subscribers.push((entryid, tx));
        proof {
            assert(self.subscribers@.take(before.len() as int) =~= before);
        }
        rx
    }
}

/// Entry-id monotonicity: in an ordered stream, every earlier entry's id
/// sits strictly below every later one's.
pub proof fn lemma_entry_ids_strictly_increase(s: Stream, i: int, j: int)
    requires
        s.wf(),
        0 <= i < j < s.entries@.len(),
    ensures
        EntryId::lt_spec(s.entries@[i].0, s.entries@[j].0),
{
}

/// The stream's top id sits at or above every id in the stream.
pub proof fn lemma_max_id_tops_all(s: Stream, i: int)
    requires
        s.wf(),
        0 <= i < s.entries@.len(),
    ensures
        EntryId::le_spec(s.entries@[i].0, s.spec_max_id()),
{
    if i < s.entries@.len() - 1 {
        assert(EntryId::lt_spec(s.entries@[i].0, s.entries@[s.entries@.len() - 1].0));
    }
}

/// Whether the byte occurs in the buffer.
fn contains_byte(s: &[u8], b: u8) -> (r: bool)
    ensures
        r == (find_byte(s@, b, 0) != s@.len()),
{
    proof {
        crate::num::lemma_find_byte_chars(s@, b, 0);
    }
    let ghost dpos = find_byte(s@, b, 0);
    let mut d: usize = 0;
    loop
        invariant
            0 <= d <= dpos <= s@.len(),
            dpos == find_byte(s@, b, 0),
            forall|k: int| 0 <= k < dpos ==> s@[k] != b,
            dpos < s@.len() ==> s@[dpos as int] == b,
        ensures
            d == dpos,
        decreases s@.len() - d,
    {
        if d >= s.len() || s[d] == b {
            assert(d == dpos);
            break;
        }
        d = d + 1;
    }
    d != s.len()
}

} // verus!
