//! An append-only, indexed, compactable log of key-value records.
//!
//! The log's persistent form is a sequence of frames: a 4-byte big-endian
//! length followed by a serialized record body. This module holds the frames
//! as plain bytes in memory; callers persist the bytes that the mutating
//! operations hand back.

use vstd::prelude::*;

use crate::codec;
use crate::codec::Record;

verus! {

/// Error raised when the bytes given as a log file are not usable as one.
#[derive(Debug)]
pub struct InvalidLogFileError;

/// Commands that can be appended to the log.
#[derive(Clone, Copy, Debug)]
pub enum LogCommand {
    /// Bind a value to a key; updates the index.
    SetVal,
    /// Unbind a key; removes it from the index at once, and from the file on
    /// compaction.
    Remove,
}

/// One logical log record: a command, a key, and a value that is present
/// exactly for `Set`.
#[derive(Clone, Debug)]
pub struct LogEntry {
    /// The command this record carries.
    pub cmd: LogCommand,
    /// The key the command applies to.
    pub key: Vec<u8>,
    /// The value bound by `Set`; absent for `Remove`.
    pub val: Option<Vec<u8>>,
}

impl View for LogEntry {
    type V = Record;

    open spec fn view(&self) -> Record {
        Record {
            cmd: self.cmd,
            key: self.key@,
            val: match self.val {
                Some(v) => Some(v@),
                None => None,
            },
        }
    }
}

impl LogEntry {
    /// Builds a record from borrowed key and value bytes.
    pub fn new(cmd: LogCommand, key: &[u8], val: Option<&[u8]>) -> (e: LogEntry)
        ensures
            e@.cmd == cmd,
            e@.key == key@,
            (match val {
                Some(v) => e@.val == Some(v@),
                None => e@.val is None,
            }),
    {
        let key = vstd::slice::slice_to_vec(key);
        let val = match val {
            Some(s) => Some(vstd::slice::slice_to_vec(s)),
            None => None,
        };

        LogEntry { cmd, key, val }
    }
}

/// The byte view of an optional borrowed value.
pub open spec fn opt_bytes(val: Option<&[u8]>) -> Option<Seq<u8>> {
    match val {
        Some(v) => Some(v@),
        None => None,
    }
}

/// The record that `append` writes for the given arguments.
pub open spec fn record_for(cmd: LogCommand, key: Seq<u8>, val: Option<Seq<u8>>) -> Record {
    Record { cmd, key, val }
}

/// The index that replaying `rs` builds: each key maps to the offset of its
/// most recent `Set` frame; `Remove` erases the key.
pub open spec fn replay_index(rs: Seq<Record>) -> Map<Seq<u8>, int>
    decreases rs.len(),
{
    if rs.len() == 0 {
        Map::empty()
    } else {
        let m = replay_index(rs.drop_last());
        let r = rs.last();
        if r.cmd is SetVal {
            m.insert(r.key, codec::offset_of(rs, rs.len() - 1))
        } else {
            m.remove(r.key)
        }
    }
}

/// The live bindings after replaying `rs`.
pub open spec fn live_map(rs: Seq<Record>) -> Map<Seq<u8>, Seq<u8>>
    decreases rs.len(),
{
    if rs.len() == 0 {
        Map::empty()
    } else {
        let m = live_map(rs.drop_last());
        let r = rs.last();
        if r.cmd is SetVal {
            m.insert(r.key, r.val->0)
        } else {
            m.remove(r.key)
        }
    }
}

/// Replaying one more record updates both maps by that record alone.
pub proof fn lemma_replay_push(rs: Seq<Record>, r: Record)
    ensures
        replay_index(rs.push(r)) == (if r.cmd is SetVal {
            replay_index(rs).insert(r.key, codec::offset_of(rs.push(r), rs.len() as int))
        } else {
            replay_index(rs).remove(r.key)
        }),
        live_map(rs.push(r)) == (if r.cmd is SetVal {
            live_map(rs).insert(r.key, r.val->0)
        } else {
            live_map(rs).remove(r.key)
        }),
{
    let s = rs.push(r);
    assert(s.drop_last() =~= rs);
    assert(s.last() == r);
}

/// The indexed offset of `k` marks a `Set` frame for `k` whose value is the
/// live one.
pub open spec fn index_entry_ok(rs: Seq<Record>, k: Seq<u8>, off: int) -> bool {
    exists|i: int|
        0 <= i < rs.len() && (#[trigger] rs[i]).cmd is SetVal && rs[i].key == k && codec::offset_of(
            rs,
            i,
        ) == off && live_map(rs)[k] == rs[i].val->0
}

/// The replayed index and the live map bind the same keys, and every indexed
/// offset marks the key's live `Set` frame.
pub proof fn lemma_replay_ok(rs: Seq<Record>)
    ensures
        forall|k: Seq<u8>|
            #![trigger replay_index(rs).contains_key(k)]
            #![trigger live_map(rs).contains_key(k)]
            replay_index(rs).contains_key(k) <==> live_map(rs).contains_key(k),
        forall|k: Seq<u8>|
            #[trigger] replay_index(rs).contains_key(k) ==> index_entry_ok(
                rs,
                k,
                replay_index(rs)[k],
            ),
    decreases rs.len(),
{
    if rs.len() > 0 {
        let pre = rs.drop_last();
        let r = rs.last();
        lemma_replay_ok(pre);
        assert(forall|i: int| 0 <= i < pre.len() ==> pre[i] == rs[i]);
        assert forall|i: int| 0 <= i < pre.len() implies codec::offset_of(pre, i)
            == codec::offset_of(rs, i) by {
            assert(pre.subrange(0, i) =~= rs.subrange(0, i));
        }
        if r.cmd is SetVal {
            assert(index_entry_ok(rs, r.key, codec::offset_of(rs, rs.len() - 1))) by {
                assert((rs[rs.len() - 1]).cmd is SetVal);
            }
        }
        assert forall|k: Seq<u8>| #[trigger] replay_index(rs).contains_key(k) && k != r.key
            implies index_entry_ok(rs, k, replay_index(rs)[k]) by {
            assert(replay_index(pre).contains_key(k));
            assert(index_entry_ok(pre, k, replay_index(pre)[k]));
            let i = choose|i: int|
                0 <= i < pre.len() && (#[trigger] pre[i]).cmd is SetVal && pre[i].key == k
                    && codec::offset_of(pre, i) == replay_index(pre)[k] && live_map(pre)[k]
                    == pre[i].val->0;
            assert((rs[i]).cmd is SetVal && rs[i].key == k);
            assert(live_map(rs)[k] == live_map(pre)[k]);
            assert(replay_index(rs)[k] == replay_index(pre)[k]);
        }
    }
}

/// A replayed index never holds more keys than the log holds records.
pub proof fn lemma_index_len_le(rs: Seq<Record>)
    ensures
        replay_index(rs).dom().finite(),
        live_map(rs).dom().finite(),
        replay_index(rs).dom().len() <= rs.len(),
        replay_index(rs).dom().len() == live_map(rs).dom().len(),
    decreases rs.len(),
{
    if rs.len() > 0 {
        lemma_index_len_le(rs.drop_last());
        lemma_replay_ok(rs);
        lemma_replay_ok(rs.drop_last());
        assert(replay_index(rs).dom() =~= live_map(rs).dom());
    } else {
        assert(replay_index(rs).dom() =~= Set::<Seq<u8>>::empty());
        assert(live_map(rs).dom() =~= Set::<Seq<u8>>::empty());
    }
}

/// Every frame of a well-formed record holds at least 14 bytes.
pub proof fn lemma_frames_lower(rs: Seq<Record>)
    requires
        codec::records_wf(rs),
    ensures
        codec::frames_bytes(rs).len() >= 14 * rs.len(),
    decreases rs.len(),
{
    if rs.len() > 0 {
        let tail = rs.drop_first();
        assert(codec::records_wf(tail)) by {
            assert(forall|i: int|
                0 <= i < tail.len() ==> tail[i] == rs[i + 1] && codec::record_wf(
                    #[trigger] rs[i + 1],
                ));
        }
        lemma_frames_lower(tail);
        codec::lemma_frame_dims(rs[0]);
        assert(codec::record_wf(rs[0]));
    }
}

/// Offsets of distinct records are distinct and ordered.
pub proof fn lemma_offset_mono(rs: Seq<Record>, i: int, j: int)
    requires
        0 <= i < j <= rs.len(),
    ensures
        codec::offset_of(rs, i) + 4 <= codec::offset_of(rs, j),
    decreases j - i,
{
    codec::lemma_offset_step(rs, i);
    codec::lemma_frame_dims(rs[i]);
    if i + 1 < j {
        lemma_offset_mono(rs, i + 1, j);
    }
}

/// An indexed offset inside record `c`'s frame window marks record `c`
/// itself: it is the live `Set` frame of its key.
pub proof fn lemma_live_window(rs: Seq<Record>, c: int, k: Seq<u8>)
    requires
        0 <= c < rs.len(),
        replay_index(rs).contains_key(k),
        index_entry_ok(rs, k, replay_index(rs)[k]),
        codec::offset_of(rs, c) <= replay_index(rs)[k],
        replay_index(rs)[k] < codec::offset_of(rs, c + 1),
    ensures
        rs[c].cmd is SetVal,
        rs[c].key == k,
        replay_index(rs)[k] == codec::offset_of(rs, c),
        live_map(rs)[k] == rs[c].val->0,
{
    let j = choose|j: int|
        0 <= j < rs.len() && (#[trigger] rs[j]).cmd is SetVal && rs[j].key == k
            && codec::offset_of(rs, j) == replay_index(rs)[k] && live_map(rs)[k] == rs[j].val->0;
    if j < c {
        lemma_offset_mono(rs, j, c);
        assert(false);
    }
    if j > c {
        if j > c + 1 {
            lemma_offset_mono(rs, c + 1, j);
        }
        assert(false);
    }
}

/// After any operation sequence ending in `Set(k, v)`, the log binds `k`
/// to `v`.
pub proof fn lemma_last_set_wins(rs: Seq<Record>, k: Seq<u8>, v: Seq<u8>)
    requires
        rs.len() > 0,
        rs.last() == (Record { cmd: LogCommand::SetVal, key: k, val: Some(v) }),
    ensures
        live_map(rs).contains_key(k),
        live_map(rs)[k] == v,
{
}

/// A key's binding is untouched by operations on other keys.
pub proof fn lemma_other_keys_preserved(rs: Seq<Record>, es: Seq<Record>, k: Seq<u8>)
    requires
        forall|i: int| 0 <= i < es.len() ==> (#[trigger] es[i]).key != k,
    ensures
        live_map(rs + es).contains_key(k) == live_map(rs).contains_key(k),
        live_map(rs).contains_key(k) ==> live_map(rs + es)[k] == live_map(rs)[k],
    decreases es.len(),
{
    if es.len() == 0 {
        assert(rs + es =~= rs);
    } else {
        let pre = es.drop_last();
        assert(forall|i: int| 0 <= i < pre.len() ==> pre[i] == es[i]);
        lemma_other_keys_preserved(rs, pre, k);
        assert((rs + es).drop_last() =~= rs + pre);
        assert((rs + es).last() == es.last());
        assert(es.last().key != k) by {
            assert(es[es.len() - 1].key != k);
        }
    }
}

/// After `Remove(k)`, `k` stays unbound through any run of operations on
/// other keys, until the next `Set(k, _)`.
pub proof fn lemma_remove_clears(rs: Seq<Record>, es: Seq<Record>, k: Seq<u8>)
    requires
        rs.len() > 0,
        rs.last().cmd is Remove,
        rs.last().key == k,
        forall|i: int| 0 <= i < es.len() ==> (#[trigger] es[i]).key != k,
    ensures
        !live_map(rs).contains_key(k),
        !live_map(rs + es).contains_key(k),
{
    lemma_other_keys_preserved(rs, es, k);
}

/// An append-only, indexed log held as the file's bytes plus the replayed
/// offset index and record count.
#[derive(Debug)]
pub struct AppendLog {
    file: Vec<u8>,
    index: crate::index::OffsetIndex,
    entry_count: usize,
}

impl View for AppendLog {
    type V = Map<Seq<u8>, Seq<u8>>;

    /// The live bindings the log holds.
    closed spec fn view(&self) -> Map<Seq<u8>, Seq<u8>> {
        live_map(self.records())
    }
}

impl AppendLog {
    /// The records the file bytes hold.
    pub closed spec fn records(&self) -> Seq<Record> {
        codec::parse_all(self.file@)->0
    }

    /// The file's bytes.
    pub closed spec fn log_bytes(&self) -> Seq<u8> {
        self.file@
    }

    /// Well-formedness: the file parses as frames, and the index and the
    /// entry count are exactly what replaying those frames yields.
    pub closed spec fn wf(&self) -> bool {
        &&& codec::parse_all(self.file@) is Some
        &&& self.index.wf()
        &&& self.index@ == replay_index(self.records())
        &&& self.entry_count == self.records().len()
    }

    /// Loads a log from the bytes of its file, building the index by a
    /// front-to-back scan. Succeeds exactly when the bytes parse as
    /// consecutive well-formed frames.
    pub fn load(bytes: Vec<u8>) -> (r: Result<AppendLog, crate::KvError>)
        ensures
            (match r {
                Ok(log) => {
                    &&& codec::parse_all(bytes@) is Some
                    &&& log.wf()
                    &&& log.log_bytes() == bytes@
                    &&& log.records() == codec::parse_all(bytes@)->0
                    &&& log@ == live_map(codec::parse_all(bytes@)->0)
                },
                Err(e) => codec::parse_all(bytes@) is None && e is Corruption,
            }),
    {
        let total: usize = bytes.len();
        let mut index = crate::index::OffsetIndex::new();
        let mut count: usize = 0;
        let mut cursor: usize = 0;
        let ghost mut done: Seq<Record> = Seq::empty();
        proof {
            assert(bytes@.subrange(0, 0) =~= Seq::<u8>::empty());
            assert(codec::frames_bytes(done) =~= Seq::<u8>::empty());
            assert(bytes@.subrange(0, total as int) =~= bytes@);
        }
        while cursor < total
            invariant
                total == bytes@.len(),
                cursor <= total,
                count <= cursor,
                index.wf(),
                codec::parse_all(bytes@.subrange(0, cursor as int)) == Some(done),
                cursor == codec::frames_bytes(done).len(),
                index@ == replay_index(done),
                count == done.len(),
                (codec::parse_all(bytes@) is Some <==> codec::parse_all(
                    bytes@.subrange(cursor as int, total as int),
                ) is Some),
                codec::parse_all(bytes@) is Some ==> codec::parse_all(bytes@)->0 == done
                    + codec::parse_all(bytes@.subrange(cursor as int, total as int))->0,
            decreases total - cursor,
        {
            let ghost tail = bytes@.subrange(cursor as int, total as int);
            match codec::parse_frame_at(&bytes, cursor) {
                None => {
                    proof {
                        assert(tail.len() > 0);
                        assert(codec::parse_all(tail) is None);
                    }
                    return Err(crate::KvError::Corruption);
                },
                Some((e, n)) => {
                    let ghost rec = e@;
                    let ghost frame_len = n as int;
                    proof {
                        assert(codec::parse_frame(tail) == Some((rec, frame_len)));
                        codec::lemma_parse_frame_inverse(tail);
                        assert(codec::record_wf(rec));
                        assert(codec::frame_of(rec) == tail.subrange(0, frame_len));
                        assert(14 <= frame_len <= tail.len());
                    }
                    let entry_offset: usize = cursor;
                    match e.cmd {
                        LogCommand::SetVal => index.insert(e.key, entry_offset),
                        LogCommand::Remove => index.remove(e.key.as_slice()),
                    }
                    count = count + 1;
                    cursor = cursor + n;
                    proof {
                        let prev = done;
                        done = prev.push(rec);
                        // the prefix up to the new cursor is the frames of `done`
                        codec::lemma_frames_of_parse(bytes@.subrange(0, entry_offset as int));
                        codec::lemma_frames_push(prev, rec);
                        assert(bytes@.subrange(0, cursor as int) =~= bytes@.subrange(
                            0,
                            entry_offset as int,
                        ) + tail.subrange(0, frame_len));
                        assert(bytes@.subrange(0, cursor as int) == codec::frames_bytes(done));
                        assert(codec::records_wf(prev));
                        assert(codec::records_wf(done)) by {
                            assert(forall|i: int|
                                0 <= i < prev.len() ==> done[i] == prev[i] && codec::record_wf(
                                    #[trigger] prev[i],
                                ));
                            assert(done[done.len() - 1] == rec);
                        }
                        codec::lemma_parse_all_frames(done);
                        // index follows one replay step
                        lemma_replay_push(prev, rec);
                        assert(done.subrange(0, prev.len() as int) =~= prev);
                        assert(codec::offset_of(done, prev.len() as int) == entry_offset);
                        // the rest of the file parses iff the old remainder did
                        let rest = bytes@.subrange(cursor as int, total as int);
                        assert(rest =~= tail.subrange(frame_len, tail.len() as int));
                        assert(codec::parse_all(tail) == (match codec::parse_all(rest) {
                            None => None::<Seq<Record>>,
                            Some(rr) => Some(seq![rec] + rr),
                        }));
                        if codec::parse_all(bytes@) is Some {
                            assert(codec::parse_all(bytes@)->0 == prev + codec::parse_all(
                                tail,
                            )->0);
                            assert(prev + (seq![rec] + codec::parse_all(rest)->0) =~= done
                                + codec::parse_all(rest)->0);
                        }
                    }
                },
            }
        }
        proof {
            assert(bytes@.subrange(cursor as int, total as int) =~= Seq::<u8>::empty());
            assert(codec::parse_all(bytes@.subrange(cursor as int, total as int))
                == Some(Seq::<Record>::empty()));
            assert(codec::parse_all(bytes@) is Some);
            assert(codec::parse_all(bytes@)->0 =~= done);
            assert(bytes@.subrange(0, cursor as int) =~= bytes@);
        }
        Ok(AppendLog { file: bytes, index, entry_count: count })
    }

    /// The number of records in the log, live and dead.
    pub fn len(&self) -> (r: usize)
        requires
            self.wf(),
        ensures
            r == self.records().len(),
    {
        self.entry_count
    }

    /// Whether the log holds no records at all.
    pub fn is_empty(&self) -> (r: bool)
        requires
            self.wf(),
        ensures
            r == (self.records().len() == 0),
    {
        self.entry_count == 0
    }

    /// The number of live keys.
    pub fn index_len(&self) -> (r: usize)
        requires
            self.wf(),
        ensures
            r == self@.dom().len(),
            self@.dom().finite(),
    {
        proof {
            lemma_replay_ok(self.records());
            lemma_index_len_le(self.records());
            assert(replay_index(self.records()).dom() =~= live_map(self.records()).dom());
        }
        self.index.len()
    }

    /// Whether `key` is live. Never touches the file bytes.
    pub fn contains(&self, key: &[u8]) -> (r: bool)
        requires
            self.wf(),
        ensures
            r == self@.contains_key(key@),
    {
        proof {
            lemma_replay_ok(self.records());
        }
        self.index.contains(key)
    }

    /// An empty log over an empty file.
    fn empty() -> (r: AppendLog)
        ensures
            r.wf(),
            r@ == Map::<Seq<u8>, Seq<u8>>::empty(),
            r.records() == Seq::<Record>::empty(),
            r.log_bytes() == Seq::<u8>::empty(),
    {
        let r = AppendLog {
            file: Vec::new(),
            index: crate::index::OffsetIndex::new(),
            entry_count: 0,
        };
        proof {
            assert(codec::parse_all(r.file@) == Some(Seq::<Record>::empty()));
            assert(r.records() =~= Seq::<Record>::empty());
        }
        r
    }

    /// Appends one record: writes its frame at the end of the file, updates
    /// the index, and counts the entry. Returns the frame bytes, which the
    /// caller appends to the persistent file.
    pub fn append(&mut self, cmd: LogCommand, key: &[u8], val: Option<&[u8]>) -> (frame: Vec<
        u8,
    >)
        requires
            old(self).wf(),
            cmd is SetVal <==> val is Some,
            (match val {
                Some(v) => 18 + key@.len() + v@.len() <= u32::MAX,
                None => 10 + key@.len() <= u32::MAX,
            }),
            old(self).log_bytes().len() + 22 + key@.len() + (match val {
                Some(v) => v@.len(),
                None => 0,
            }) <= usize::MAX,
        ensures
            final(self).wf(),
            final(self).records() == old(self).records().push(
                record_for(cmd, key@, opt_bytes(val)),
            ),
            final(self).log_bytes() == old(self).log_bytes() + frame@,
            frame@ == codec::frame_of(record_for(cmd, key@, opt_bytes(val))),
            (match val {
                Some(v) => final(self)@ == old(self)@.insert(key@, v@),
                None => final(self)@ == old(self)@.remove(key@),
            }),
    {
        let e = LogEntry::new(cmd, key, val);
        let ghost rec = e@;
        proof {
            assert(rec == record_for(cmd, key@, opt_bytes(val)));
            codec::lemma_frame_dims(rec);
            assert(codec::record_wf(rec));
        }
        let frame = codec::encode_frame(&e);
        let entry_offset: usize = self.file.len();
        let ghost old_records = self.records();
        proof {
            codec::lemma_frames_of_parse(self.file@);
            lemma_frames_lower(old_records);
        }
        codec::push_bytes(&mut self.file, &frame);
        self.entry_count = self.entry_count + 1;
        match cmd {
            LogCommand::SetVal => self.index.insert(vstd::slice::slice_to_vec(key), entry_offset),
            LogCommand::Remove => self.index.remove(key),
        }
        proof {
            let done = old_records.push(rec);
            codec::lemma_frames_push(old_records, rec);
            assert(self.file@ == codec::frames_bytes(done));
            assert(codec::records_wf(done)) by {
                assert(forall|i: int|
                    0 <= i < old_records.len() ==> done[i] == old_records[i] && codec::record_wf(
                        #[trigger] old_records[i],
                    ));
                assert(done[done.len() - 1] == rec);
            }
            codec::lemma_parse_all_frames(done);
            assert(self.records() == done);
            lemma_replay_push(old_records, rec);
            assert(done.subrange(0, old_records.len() as int) =~= old_records);
            assert(codec::offset_of(done, old_records.len() as int) == entry_offset);
        }
        frame
    }

    /// Looks `key` up in the index and reads its frame from the file. Under
    /// the log invariant the frame at an indexed offset always deserializes
    /// to a `Set` for that key, so corruption cannot surface here.
    pub fn fetch_by_key(&self, key: &[u8]) -> (r: Result<Option<Vec<u8>>, crate::KvError>)
        requires
            self.wf(),
        ensures
            r is Ok,
            (match r {
                Ok(opt) => match opt {
                    Some(v) => self@.contains_key(key@) && v@ == self@[key@],
                    None => !self@.contains_key(key@),
                },
                Err(_) => false,
            }),
    {
        proof {
            lemma_replay_ok(self.records());
        }
        match self.index.get(key) {
            None => Ok(None),
            Some(off) => {
                let ghost rs = self.records();
                let ghost i = choose|i: int|
                    0 <= i < rs.len() && (#[trigger] rs[i]).cmd is SetVal && rs[i].key == key@
                        && codec::offset_of(rs, i) == off as int && live_map(rs)[key@]
                        == rs[i].val->0;
                proof {
                    assert(index_entry_ok(rs, key@, off as int));
                    codec::lemma_frames_of_parse(self.file@);
                    codec::lemma_frames_suffix(rs, i);
                    let sfx = rs.subrange(i, rs.len() as int);
                    assert(sfx[0] == rs[i]);
                    assert(sfx.drop_first() =~= rs.subrange(i + 1, rs.len() as int));
                    assert(codec::frames_bytes(sfx) == codec::frame_of(rs[i])
                        + codec::frames_bytes(rs.subrange(i + 1, rs.len() as int)));
                    assert(codec::record_wf(rs[i]));
                    codec::lemma_parse_frame_of(
                        rs[i],
                        codec::frames_bytes(rs.subrange(i + 1, rs.len() as int)),
                    );
                }
                match codec::parse_frame_at(&self.file, off) {
                    Some((e, _n)) => {
                        proof {
                            assert(e@ == rs[i]);
                        }
                        match e.val {
                            Some(v) => Ok(Some(v)),
                            None => {
                                proof {
                                    assert(false);
                                }
                                Err(crate::KvError::Corruption)
                            },
                        }
                    },
                    None => {
                        proof {
                            assert(false);
                        }
                        Err(crate::KvError::Corruption)
                    },
                }
            },
        }
    }

    /// Rewrites the log as one `Set` frame per live key, in file order, and
    /// replaces this log with the compacted one. Returns the new file's
    /// bytes, which the caller writes to the new log file. The live bindings
    /// are unchanged, and afterwards every record is live: the record count
    /// equals the index size.
    #[verifier::rlimit(100)]
    pub fn compact(&mut self) -> (new_file: Vec<u8>)
        requires
            old(self).wf(),
        ensures
            final(self).wf(),
            final(self)@ == old(self)@,
            final(self).log_bytes() == new_file@,
            final(self).records().len() == final(self)@.dom().len(),
            final(self)@.dom().finite(),
    {
        let total: usize = self.file.len();
        let mut new_log = AppendLog::empty();
        let mut cursor: usize = 0;
        let mut count: usize = 0;
        let ghost rs = self.records();
        proof {
            codec::lemma_frames_of_parse(self.file@);
            lemma_replay_ok(rs);
            lemma_index_len_le(rs);
            assert(rs.subrange(0, 0) =~= Seq::<Record>::empty());
            assert(codec::offset_of(rs, 0) == 0);
        }
        while cursor < total
            invariant
                *self == *old(self),
                self.wf(),
                total == self.file@.len(),
                rs == self.records(),
                cursor <= total,
                count <= rs.len(),
                cursor == codec::offset_of(rs, count as int),
                count < rs.len() ==> cursor < total,
                count == rs.len() ==> cursor == total,
                new_log.wf(),
                new_log.log_bytes().len() <= cursor,
                new_log.records().len() == new_log@.dom().len(),
                new_log@.dom().finite(),
                forall|k: Seq<u8>|
                    #[trigger] new_log@.contains_key(k) <==> (replay_index(rs).contains_key(k)
                        && replay_index(rs)[k] < cursor),
                forall|k: Seq<u8>|
                    #[trigger] new_log@.contains_key(k) ==> new_log@[k] == live_map(rs)[k],
            decreases total - cursor,
        {
            proof {
                lemma_replay_ok(rs);
                codec::lemma_frames_of_parse(self.file@);
                if count as int == rs.len() {
                    assert(false);
                }
                codec::lemma_frames_suffix(rs, count as int);
                let sfx = rs.subrange(count as int, rs.len() as int);
                assert(sfx[0] == rs[count as int]);
                assert(sfx.drop_first() =~= rs.subrange(count + 1, rs.len() as int));
                assert(codec::frames_bytes(sfx) == codec::frame_of(rs[count as int])
                    + codec::frames_bytes(rs.subrange(count + 1, rs.len() as int)));
                assert(codec::record_wf(rs[count as int]));
                codec::lemma_parse_frame_of(
                    rs[count as int],
                    codec::frames_bytes(rs.subrange(count + 1, rs.len() as int)),
                );
                assert(self.file@.subrange(cursor as int, total as int) == codec::frames_bytes(
                    sfx,
                ));
            }
            match codec::parse_frame_at(&self.file, cursor) {
                Some((e, n)) => {
                    let ghost rec = rs[count as int];
                    proof {
                        assert(e@ == rec && n as int == codec::frame_size(rec));
                    }
                    let live: bool = match self.index.get(e.key.as_slice()) {
                        Some(o) => o == cursor,
                        None => false,
                    };
                    proof {
                        // `live` holds exactly when this frame is the indexed
                        // `Set` for its key
                        if replay_index(rs).contains_key(e@.key) {
                            let j = choose|j: int|
                                0 <= j < rs.len() && (#[trigger] rs[j]).cmd is SetVal && rs[j].key
                                    == e@.key && codec::offset_of(rs, j) == replay_index(
                                    rs,
                                )[e@.key] && live_map(rs)[e@.key] == rs[j].val->0;
                            if j < count as int {
                                lemma_offset_mono(rs, j, count as int);
                            }
                            if j > count as int {
                                lemma_offset_mono(rs, count as int, j);
                            }
                        }
                    }
                    if live {
                        proof {
                            assert(rec.cmd is SetVal && rec.val is Some);
                            assert(live_map(rs)[e@.key] == rec.val->0);
                            codec::lemma_frame_dims(rec);
                        }
                        let ghost pre_new = new_log;
                        match &e.val {
                            Some(v) => {
                                let vs = v.as_slice();
                                let frame = new_log.append(
                                    LogCommand::SetVal,
                                    e.key.as_slice(),
                                    Some(vs),
                                );
                                proof {
                                    assert(record_for(LogCommand::SetVal, e@.key, opt_bytes(Some(vs)))
                                        == rec);
                                    assert(frame@ == codec::frame_of(rec));
                                    assert(new_log.log_bytes().len() == pre_new.log_bytes().len()
                                        + codec::frame_size(rec));
                                    // a fresh key grows the index by one
                                    assert(!pre_new@.contains_key(e@.key));
                                    lemma_replay_push(pre_new.records(), rec);
                                    vstd::set::axiom_set_insert_len(pre_new@.dom(), e@.key);
                                    assert(new_log@.dom() =~= pre_new@.dom().insert(e@.key));
                                }
                            },
                            None => {
                                proof {
                                    assert(false);
                                }
                            },
                        }
                    }
                    count = count + 1;
                    cursor = cursor + n;
                    proof {
                        codec::lemma_offset_step(rs, count - 1);
                        if count as int == rs.len() {
                            assert(rs.subrange(0, count as int) =~= rs);
                        } else {
                            lemma_offset_mono(rs, count as int, rs.len() as int);
                            codec::lemma_frames_suffix(rs, rs.len() as int);
                            assert(rs.subrange(0, rs.len() as int) =~= rs);
                            assert(codec::offset_of(rs, rs.len() as int) == total);
                        }
                        // only this frame's key can newly enter the window
                        assert forall|k: Seq<u8>|
                            #[trigger] replay_index(rs).contains_key(k) && replay_index(rs)[k]
                                < cursor && !(replay_index(rs)[k] < cursor - n) implies (k
                            == rec.key && replay_index(rs)[k] == cursor - n && rec.cmd is SetVal
                            && live_map(rs)[k] == rec.val->0) by {
                            lemma_live_window(rs, count - 1, k);
                        }
                    }
                },
                None => {
                    proof {
                        assert(false);
                    }
                },
            }
        }
        proof {
            assert(count as int == rs.len());
            lemma_replay_ok(rs);
            lemma_index_len_le(rs);
            assert forall|k: Seq<u8>| #[trigger] replay_index(rs).contains_key(k) implies
                replay_index(rs)[k] < total by {
                let j = choose|j: int|
                    0 <= j < rs.len() && (#[trigger] rs[j]).cmd is SetVal && rs[j].key == k
                        && codec::offset_of(rs, j) == replay_index(rs)[k] && live_map(rs)[k]
                        == rs[j].val->0;
                lemma_offset_mono(rs, j, rs.len() as int);
                codec::lemma_frames_of_parse(self.file@);
                assert(codec::offset_of(rs, rs.len() as int) == total) by {
                    assert(rs.subrange(0, rs.len() as int) =~= rs);
                }
            }
            assert(new_log@ =~= old(self)@);
        }
        let new_len: usize = new_log.file.len();
        let out = codec::copy_range(&new_log.file, 0, new_len);
        proof {
            assert(out@ =~= new_log.log_bytes());
        }
        *self = new_log;
        out
    }

    /// The size of the log file in bytes.
    pub fn byte_len(&self) -> (r: usize)
        ensures
            r == self.log_bytes().len(),
    {
        self.file.len()
    }

    /// Drains buffered writes; the in-memory log holds none, so this is
    /// complete at once and changes nothing.
    pub fn flush(&mut self) -> (r: Result<(), crate::KvError>)
        ensures
            r is Ok,
            *final(self) == *old(self),
    {
        Ok(())
    }
}


/// The index is never larger than the record count: dead records only ever
/// add to the count.
pub proof fn lemma_index_at_most_entries(log: &AppendLog)
    requires
        log.wf(),
    ensures
        log@.dom().finite(),
        log@.dom().len() <= log.records().len(),
{
    lemma_index_len_le(log.records());
}

/// Two logs over equal file bytes hold equal bindings: reloading a file
/// preserves every live key-value pair.
pub proof fn lemma_reload_preserves(a: &AppendLog, b: &AppendLog)
    requires
        a.wf(),
        b.wf(),
        a.log_bytes() == b.log_bytes(),
    ensures
        a@ == b@,
{
    assert(a.records() == b.records());
}

/// For every key in the index, the frame at the recorded offset parses to a
/// `Set` record with that key, carrying the key's live value.
pub proof fn lemma_index_points_to_set(log: &AppendLog, k: Seq<u8>)
    requires
        log.wf(),
        log@.contains_key(k),
    ensures
        replay_index(log.records()).contains_key(k),
        ({
            let off = replay_index(log.records())[k];
            let tail = log.log_bytes().subrange(off, log.log_bytes().len() as int);
            &&& 0 <= off < log.log_bytes().len()
            &&& codec::parse_frame(tail) is Some
            &&& (codec::parse_frame(tail)->0).0.cmd is SetVal
            &&& (codec::parse_frame(tail)->0).0.key == k
            &&& (codec::parse_frame(tail)->0).0.val == Some(log@[k])
        }),
{
    let rs = log.records();
    lemma_replay_ok(rs);
    let off = replay_index(rs)[k];
    let i = choose|i: int|
        0 <= i < rs.len() && (#[trigger] rs[i]).cmd is SetVal && rs[i].key == k
            && codec::offset_of(rs, i) == off && live_map(rs)[k] == rs[i].val->0;
    codec::lemma_frames_of_parse(log.log_bytes());
    codec::lemma_frames_suffix(rs, i);
    let sfx = rs.subrange(i, rs.len() as int);
    assert(sfx[0] == rs[i]);
    assert(sfx.drop_first() =~= rs.subrange(i + 1, rs.len() as int));
    assert(codec::frames_bytes(sfx) == codec::frame_of(rs[i]) + codec::frames_bytes(
        rs.subrange(i + 1, rs.len() as int),
    ));
    assert(codec::record_wf(rs[i]));
    codec::lemma_parse_frame_of(
        rs[i],
        codec::frames_bytes(rs.subrange(i + 1, rs.len() as int)),
    );
    codec::lemma_frame_dims(rs[i]);
    assert(rs[i].val == Some(log@[k]));
}

} // verus!

