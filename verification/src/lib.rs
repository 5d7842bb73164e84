//! A persistent, string-keyed key-value store backed by an append-only,
//! length-prefixed binary log with an in-memory offset index and compaction.
//!
//! The crate works on the log file's contents as plain bytes: callers read the
//! file into a `Vec<u8>`, hand it to [`KvStore::open`] or
//! [`append_log::AppendLog::load`], and persist the byte-level updates that the
//! mutating operations return.

use vstd::prelude::*;
use vstd::string::StrSliceExecFns;

pub mod append_log;
pub mod codec;
mod index;
pub mod naming;

verus! {

/// Error raised by `remove` when the key is not bound in the store.
#[derive(Debug)]
pub struct KeyNotFoundError {
    /// The key that was not found.
    pub key: String,
}

/// Error raised when an internal limit is hit, such as a record too large to
/// frame.
#[derive(Debug)]
pub struct InternalKvError;

/// Error raised when the path given to the store is not a directory.
#[derive(Debug)]
pub struct InvalidPathError;

/// The kinds of failure that the store and the log surface to callers.
#[derive(Debug)]
pub enum KvError {
    /// The path given is missing or is not of the expected kind.
    InvalidPath(InvalidPathError),
    /// The log file is not usable: a compaction target exists, or a non-file
    /// was given where a log file was expected.
    InvalidLogFile(append_log::InvalidLogFileError),
    /// `remove` was asked for a key that is not bound.
    KeyNotFound(KeyNotFoundError),
    /// An internal limit was hit.
    Internal(InternalKvError),
    /// A stored value is not valid UTF-8.
    Encoding,
    /// A frame is truncated or its body does not deserialize.
    Corruption,
    /// An underlying filesystem failure, raised only by callers that perform
    /// real file input and output.
    Io,
}


/// Relies on `String::from_utf8`: it returns `Ok` exactly when the bytes are
/// valid UTF-8, and then returns the string whose encoding is those bytes.
#[verifier::external_body]
fn utf8_to_string(bytes: Vec<u8>) -> (r: Option<String>)
    ensures
        r is Some <==> vstd::utf8::valid_utf8(bytes@),
        r is Some ==> r->0@ == vstd::utf8::decode_utf8(bytes@),
{
    String::from_utf8(bytes).ok()
}

/// Encoding a string always yields valid UTF-8, and decoding gives the
/// string back: a value written under a key is read back unchanged.
pub proof fn lemma_string_round_trip(s: Seq<char>)
    ensures
        vstd::utf8::valid_utf8(vstd::utf8::encode_utf8(s)),
        vstd::utf8::decode_utf8(vstd::utf8::encode_utf8(s)) == s,
{
    vstd::utf8::encode_utf8_valid_utf8(s);
    vstd::utf8::encode_utf8_decode_utf8(s);
}

/// After `set(k, v)` the store binds `k`'s encoding to `v`'s encoding, and a
/// following `get(k)` decodes the stored bytes back to exactly `v`, whatever
/// bindings held before.
pub proof fn lemma_set_then_get(
    m1: Map<Seq<u8>, Seq<u8>>,
    m2: Map<Seq<u8>, Seq<u8>>,
    k: Seq<char>,
    v: Seq<char>,
)
    requires
        m2 == m1.insert(vstd::utf8::encode_utf8(k), vstd::utf8::encode_utf8(v)),
    ensures
        m2.contains_key(vstd::utf8::encode_utf8(k)),
        vstd::utf8::valid_utf8(m2[vstd::utf8::encode_utf8(k)]),
        vstd::utf8::decode_utf8(m2[vstd::utf8::encode_utf8(k)]) == v,
{
    lemma_string_round_trip(v);
}

/// The persistent effect of one mutating store operation: what the caller
/// must do to the log directory to mirror the in-memory state.
#[derive(Debug)]
pub enum FileUpdate {
    /// Append these bytes to the current generation's log file.
    Append(Vec<u8>),
    /// Write `contents` as the file of `new_generation`, then delete the
    /// file of `old_generation`.
    Replace {
        /// The generation whose file is superseded and deleted.
        old_generation: u64,
        /// The generation of the file to create.
        new_generation: u64,
        /// The full contents of the new log file.
        contents: Vec<u8>,
    },
}

/// A persistent, string-keyed key-value store over one generation-suffixed
/// append-only log file.
#[derive(Debug)]
pub struct KvStore {
    log: append_log::AppendLog,
    generation: u64,
}

impl View for KvStore {
    type V = Map<Seq<u8>, Seq<u8>>;

    /// The live bindings, keyed and valued by UTF-8 bytes.
    closed spec fn view(&self) -> Map<Seq<u8>, Seq<u8>> {
        self.log@
    }
}

impl KvStore {
    /// The log the store owns.
    pub closed spec fn spec_log(&self) -> append_log::AppendLog {
        self.log
    }

    /// The generation of the current log file.
    pub closed spec fn spec_generation(&self) -> u64 {
        self.generation
    }

    /// The bytes of the current log file.
    pub open spec fn log_bytes(&self) -> Seq<u8> {
        self.spec_log().log_bytes()
    }

    /// Well-formedness of the owned log.
    pub open spec fn wf(&self) -> bool {
        self.spec_log().wf()
    }

    /// The size limits under which a record can be framed and appended.
    pub open spec fn fits(&self, key_len: nat, val_len: nat) -> bool {
        &&& 18 + key_len + val_len <= u32::MAX
        &&& self.log_bytes().len() + 22 + key_len + val_len <= usize::MAX
    }

    /// Finds the largest generation among the given file names; `None` when
    /// no name matches the `kv_store.log.<n>` pattern.
    pub fn locate_kv_file(names: &Vec<Vec<u8>>) -> (r: Option<u64>)
        ensures
            (match r {
                Some(m) => (exists|i: int|
                    0 <= i < names@.len() && naming::name_gen(#[trigger] names@[i]@) == Some(m))
                    && (forall|i: int|
                    0 <= i < names@.len() && naming::name_gen(#[trigger] names@[i]@) is Some
                        ==> naming::name_gen(names@[i]@)->0 <= m),
                None => forall|i: int|
                    0 <= i < names@.len() ==> naming::name_gen(#[trigger] names@[i]@) is None,
            }),
    {
        let mut best: Option<u64> = None;
        let mut i: usize = 0;
        while i < names.len()
            invariant
                i <= names@.len(),
                (match best {
                    Some(m) => (exists|j: int|
                        0 <= j < i && naming::name_gen(#[trigger] names@[j]@) == Some(m))
                        && (forall|j: int|
                        0 <= j < i && naming::name_gen(#[trigger] names@[j]@) is Some
                            ==> naming::name_gen(names@[j]@)->0 <= m),
                    None => forall|j: int|
                        0 <= j < i ==> naming::name_gen(#[trigger] names@[j]@) is None,
                }),
            decreases names@.len() - i,
        {
            match naming::parse_log_name(&names[i]) {
                Some(g) => {
                    best = match best {
                        Some(m) => if g > m {
                            Some(g)
                        } else {
                            Some(m)
                        },
                        None => Some(g),
                    };
                },
                None => {},
            }
            i = i + 1;
        }
        best
    }

    /// Opens a store over the contents of the log file of the given
    /// generation. Succeeds exactly when the bytes parse as frames.
    pub fn open(generation: u64, contents: Vec<u8>) -> (r: Result<KvStore, KvError>)
        ensures
            (match r {
                Ok(s) => {
                    &&& codec::parse_all(contents@) is Some
                    &&& s.wf()
                    &&& s.spec_generation() == generation
                    &&& s.log_bytes() == contents@
                    &&& s@ == append_log::live_map(codec::parse_all(contents@)->0)
                },
                Err(e) => codec::parse_all(contents@) is None && e is Corruption,
            }),
    {
        match append_log::AppendLog::load(contents) {
            Ok(log) => Ok(KvStore { log, generation }),
            Err(e) => Err(e),
        }
    }

    /// The log the store currently owns, for inspection.
    pub fn log(&self) -> (r: &append_log::AppendLog)
        ensures
            r == self.spec_log(),
    {
        &self.log
    }

    /// The generation of the current log file.
    pub fn generation(&self) -> (r: u64)
        ensures
            r == self.spec_generation(),
    {
        self.generation
    }

    /// Looks a key up and decodes its value. Reads only the index and the
    /// file bytes; the store is untouched.
    pub fn get(&self, key: String) -> (r: Result<Option<String>, KvError>)
        requires
            self.wf(),
        ensures
            ({
                let kb = vstd::utf8::encode_utf8(key@);
                match r {
                    Ok(opt) => match opt {
                        Some(v) => self@.contains_key(kb) && vstd::utf8::valid_utf8(self@[kb])
                            && v@ == vstd::utf8::decode_utf8(self@[kb]),
                        None => !self@.contains_key(kb),
                    },
                    Err(e) => self@.contains_key(kb) && !vstd::utf8::valid_utf8(self@[kb]) && e
                        is Encoding,
                }
            }),
    {
        let kb = key.as_str().as_bytes_vec();
        match self.log.fetch_by_key(kb.as_slice()) {
            Ok(opt) => match opt {
                Some(v) => match utf8_to_string(v) {
                    Some(s) => Ok(Some(s)),
                    None => Err(KvError::Encoding),
                },
                None => Ok(None),
            },
            Err(_) => {
                proof {
                    assert(false);
                }
                Err(KvError::Corruption)
            },
        }
    }

    /// Compacts when the record count exceeds ten times the live key count,
    /// unless the generation counter is exhausted; otherwise the pending
    /// appended frame is what must be persisted.
    fn try_compact(&mut self, appended: Vec<u8>) -> (r: FileUpdate)
        requires
            old(self).wf(),
        ensures
            final(self).wf(),
            final(self)@ == old(self)@,
            (match r {
                FileUpdate::Append(bytes) => bytes@ == appended@ && *final(self) == *old(self),
                FileUpdate::Replace { old_generation, new_generation, contents } => {
                    &&& old_generation == old(self).spec_generation()
                    &&& new_generation == old(self).spec_generation() + 1
                    &&& final(self).spec_generation() == new_generation
                    &&& final(self).log_bytes() == contents@
                    &&& final(self).spec_log().records().len() == final(self)@.dom().len()
                },
            }),
            (r is Replace <==> (old(self).spec_log().records().len() > 10 * old(self)@.dom().len() && old(self).spec_generation() < u64::MAX)),
    {
        let n = self.log.len();
        let m = self.log.index_len();
        if (n as u128) > 10u128 * (m as u128) && self.generation < u64::MAX {
            match self.compact_log() {
                Ok(u) => u,
                Err(_) => {
                    proof {
                        assert(false);
                    }
                    FileUpdate::Append(appended)
                },
            }
        } else {
            FileUpdate::Append(appended)
        }
    }

    /// Binds `val` to `key`: appends a `Set` record, then compacts if the
    /// heuristic asks for it. Fails only when the record cannot be framed.
    pub fn set(&mut self, key: String, val: String) -> (r: Result<FileUpdate, KvError>)
        requires
            old(self).wf(),
        ensures
            final(self).wf(),
            ({
                let kb = vstd::utf8::encode_utf8(key@);
                let vb = vstd::utf8::encode_utf8(val@);
                match r {
                    Ok(u) => {
                        &&& old(self).fits(kb.len(), vb.len())
                        &&& final(self)@ == old(self)@.insert(kb, vb)
                        &&& (match u {
                            FileUpdate::Append(bytes) => final(self).spec_generation() == old(self).spec_generation() && final(self).log_bytes() == old(self).log_bytes() + bytes@,
                            FileUpdate::Replace { old_generation, new_generation, contents } => {
                                &&& old_generation == old(self).spec_generation()
                                &&& new_generation == old(self).spec_generation() + 1
                                &&& final(self).spec_generation() == new_generation
                                &&& final(self).log_bytes() == contents@
                                &&& final(self).spec_log().records().len() == final(self)@.dom().len()
                            },
                        })
                        &&& (u is Replace <==> (old(self).spec_log().records().len() + 1 > 10
                            * old(self)@.insert(kb, vb).dom().len() && old(self).spec_generation() < u64::MAX))
                    },
                    Err(e) => !old(self).fits(kb.len(), vb.len()) && e is Internal && *final(self) == *old(self),
                }
            }),
    {
        let kb = key.as_str().as_bytes_vec();
        let vb = val.as_str().as_bytes_vec();
        let kl: u64 = kb.len() as u64;
        let vl: u64 = vb.len() as u64;
        if kl > 0xFFFF_FFFFu64 - 18 {
            return Err(KvError::Internal(InternalKvError));
        }
        if vl > 0xFFFF_FFFFu64 - 18 - kl {
            return Err(KvError::Internal(InternalKvError));
        }
        let fl: u64 = self.log.byte_len() as u64;
        if 22 + kl + vl > usize::MAX as u64 - fl {
            return Err(KvError::Internal(InternalKvError));
        }
        let frame = self.log.append(
            append_log::LogCommand::SetVal,
            kb.as_slice(),
            Some(vb.as_slice()),
        );
        Ok(self.try_compact(frame))
    }

    /// Unbinds `key`: appends a `Remove` record, then compacts if the
    /// heuristic asks for it. Fails with `KeyNotFound` when the key is not
    /// bound.
    pub fn remove(&mut self, key: String) -> (r: Result<FileUpdate, KvError>)
        requires
            old(self).wf(),
        ensures
            final(self).wf(),
            ({
                let kb = vstd::utf8::encode_utf8(key@);
                match r {
                    Ok(u) => {
                        &&& old(self)@.contains_key(kb)
                        &&& old(self).fits(kb.len(), 0)
                        &&& final(self)@ == old(self)@.remove(kb)
                        &&& (match u {
                            FileUpdate::Append(bytes) => final(self).spec_generation() == old(self).spec_generation() && final(self).log_bytes() == old(self).log_bytes() + bytes@,
                            FileUpdate::Replace { old_generation, new_generation, contents } => {
                                &&& old_generation == old(self).spec_generation()
                                &&& new_generation == old(self).spec_generation() + 1
                                &&& final(self).spec_generation() == new_generation
                                &&& final(self).log_bytes() == contents@
                                &&& final(self).spec_log().records().len() == final(self)@.dom().len()
                            },
                        })
                        &&& (u is Replace <==> (old(self).spec_log().records().len() + 1 > 10
                            * old(self)@.remove(kb).dom().len() && old(self).spec_generation() < u64::MAX))
                    },
                    Err(e) => match e {
                        KvError::KeyNotFound(err) => !old(self)@.contains_key(kb) && err.key@
                            == key@ && *final(self) == *old(self),
                        KvError::Internal(_) => old(self)@.contains_key(kb) && !old(self).fits(
                            kb.len(),
                            0,
                        ) && *final(self) == *old(self),
                        _ => false,
                    },
                }
            }),
    {
        let kb = key.as_str().as_bytes_vec();
        if !self.log.contains(kb.as_slice()) {
            return Err(KvError::KeyNotFound(KeyNotFoundError { key }));
        }
        let kl: u64 = kb.len() as u64;
        if kl > 0xFFFF_FFFFu64 - 18 {
            return Err(KvError::Internal(InternalKvError));
        }
        let fl: u64 = self.log.byte_len() as u64;
        if 22 + kl > usize::MAX as u64 - fl {
            return Err(KvError::Internal(InternalKvError));
        }
        let frame = self.log.append(append_log::LogCommand::Remove, kb.as_slice(), None);
        Ok(self.try_compact(frame))
    }

    /// Compacts the log into the next generation's file unconditionally.
    /// The live bindings are unchanged; afterwards every record is live.
    /// Fails only when the generation counter is exhausted.
    pub fn compact_log(&mut self) -> (r: Result<FileUpdate, KvError>)
        requires
            old(self).wf(),
        ensures
            final(self).wf(),
            final(self)@ == old(self)@,
            (match r {
                Ok(u) => match u {
                    FileUpdate::Replace { old_generation, new_generation, contents } => {
                        &&& old(self).spec_generation() < u64::MAX
                        &&& old_generation == old(self).spec_generation()
                        &&& new_generation == old(self).spec_generation() + 1
                        &&& final(self).spec_generation() == new_generation
                        &&& final(self).log_bytes() == contents@
                        &&& final(self).spec_log().records().len() == final(self)@.dom().len()
                    },
                    FileUpdate::Append(_) => false,
                },
                Err(e) => old(self).spec_generation() == u64::MAX && e is Internal && *final(self) == *old(self),
            }),
    {
        if self.generation == u64::MAX {
            return Err(KvError::Internal(InternalKvError));
        }
        let contents = self.log.compact();
        let old_generation = self.generation;
        self.generation = old_generation + 1;
        Ok(
            FileUpdate::Replace {
                old_generation,
                new_generation: self.generation,
                contents,
            },
        )
    }
}

} // verus!
