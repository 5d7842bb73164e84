//! The on-disk byte format of the log.
//!
//! A frame is a 4-byte big-endian length `L` followed by `L` bytes of record
//! body. A body is: a command tag byte (0 for `Set`, 1 for `Remove`), the key
//! length as 8 little-endian bytes, the key bytes, a value-present flag byte
//! (1 for `Set`, 0 for `Remove`), and, for `Set` only, the value length as 8
//! little-endian bytes followed by the value bytes. The encoding is
//! deterministic and round-trips byte for byte.

use vstd::prelude::*;

use crate::append_log::LogCommand;

verus! {

/// The mathematical model of one log record.
pub struct Record {
    /// The command the record carries.
    pub cmd: LogCommand,
    /// The key bytes.
    pub key: Seq<u8>,
    /// The value bytes, present exactly for `Set`.
    pub val: Option<Seq<u8>>,
}

/// 256 raised to `k`: the number of values `k` bytes can hold.
pub open spec fn pow256(k: nat) -> int
    decreases k,
{
    if k == 0 {
        1
    } else {
        256 * pow256((k - 1) as nat)
    }
}

/// The `k` little-endian bytes of `n`.
pub open spec fn le_bytes(n: int, k: nat) -> Seq<u8>
    decreases k,
{
    if k == 0 {
        Seq::empty()
    } else {
        seq![(n % 256) as u8] + le_bytes(n / 256, (k - 1) as nat)
    }
}

/// The value held by a little-endian byte sequence.
pub open spec fn le_val(b: Seq<u8>) -> int
    decreases b.len(),
{
    if b.len() == 0 {
        0
    } else {
        b[0] + 256 * le_val(b.drop_first())
    }
}

/// The `k` big-endian bytes of `n`.
pub open spec fn be_bytes(n: int, k: nat) -> Seq<u8>
    decreases k,
{
    if k == 0 {
        Seq::empty()
    } else {
        be_bytes(n / 256, (k - 1) as nat) + seq![(n % 256) as u8]
    }
}

/// The value held by a big-endian byte sequence.
pub open spec fn be_val(b: Seq<u8>) -> int
    decreases b.len(),
{
    if b.len() == 0 {
        0
    } else {
        256 * be_val(b.drop_last()) + b.last()
    }
}

pub proof fn lemma_le_bytes_len(n: int, k: nat)
    ensures
        le_bytes(n, k).len() == k,
    decreases k,
{
    if k > 0 {
        lemma_le_bytes_len(n / 256, (k - 1) as nat);
    }
}

pub proof fn lemma_be_bytes_len(n: int, k: nat)
    ensures
        be_bytes(n, k).len() == k,
    decreases k,
{
    if k > 0 {
        lemma_be_bytes_len(n / 256, (k - 1) as nat);
    }
}

pub proof fn lemma_le_val_bound(b: Seq<u8>)
    ensures
        0 <= le_val(b) < pow256(b.len()),
    decreases b.len(),
{
    if b.len() > 0 {
        lemma_le_val_bound(b.drop_first());
    }
}

pub proof fn lemma_be_val_bound(b: Seq<u8>)
    ensures
        0 <= be_val(b) < pow256(b.len()),
    decreases b.len(),
{
    if b.len() > 0 {
        lemma_be_val_bound(b.drop_last());
    }
}

pub proof fn lemma_le_round(n: int, k: nat)
    requires
        0 <= n < pow256(k),
    ensures
        le_bytes(n, k).len() == k,
        le_val(le_bytes(n, k)) == n,
    decreases k,
{
    if k > 0 {
        assert(0 <= n / 256 < pow256((k - 1) as nat));
        lemma_le_round(n / 256, (k - 1) as nat);
        let b = le_bytes(n, k);
        assert(b.drop_first() =~= le_bytes(n / 256, (k - 1) as nat));
        assert(b[0] == (n % 256) as u8);
        assert(le_val(b) == n % 256 + 256 * (n / 256));
    }
}

pub proof fn lemma_be_round(n: int, k: nat)
    requires
        0 <= n < pow256(k),
    ensures
        be_bytes(n, k).len() == k,
        be_val(be_bytes(n, k)) == n,
    decreases k,
{
    if k > 0 {
        assert(0 <= n / 256 < pow256((k - 1) as nat));
        lemma_be_round(n / 256, (k - 1) as nat);
        let b = be_bytes(n, k);
        assert(b.drop_last() =~= be_bytes(n / 256, (k - 1) as nat));
        assert(b.last() == (n % 256) as u8);
        assert(be_val(b) == 256 * (n / 256) + n % 256);
    }
}

/// Inverse round trip: reading `k` bytes and re-encoding them gives the bytes
/// back.
pub proof fn lemma_le_bytes_of_val(b: Seq<u8>)
    ensures
        le_bytes(le_val(b), b.len()) == b,
    decreases b.len(),
{
    if b.len() > 0 {
        let rest = b.drop_first();
        lemma_le_bytes_of_val(rest);
        lemma_le_val_bound(rest);
        let n = le_val(b);
        assert(n == b[0] + 256 * le_val(rest));
        assert(n % 256 == b[0] && n / 256 == le_val(rest));
        assert(le_bytes(n, b.len()) =~= b);
    }
}

/// The serialized body of a record.
pub open spec fn body_bytes(r: Record) -> Seq<u8> {
    match r.cmd {
        LogCommand::SetVal => match r.val {
            Some(v) => seq![0u8] + le_bytes(r.key.len() as int, 8) + r.key + seq![1u8] + le_bytes(
                v.len() as int,
                8,
            ) + v,
            None => seq![0u8],
        },
        LogCommand::Remove => seq![1u8] + le_bytes(r.key.len() as int, 8) + r.key + seq![0u8],
    }
}

/// A record that the format can carry: the command and the value presence
/// agree, and the body fits a frame's 32-bit length prefix.
pub open spec fn record_wf(r: Record) -> bool {
    &&& (r.cmd is SetVal <==> r.val is Some)
    &&& body_bytes(r).len() <= u32::MAX
}

/// The frame of a record: length prefix plus body.
pub open spec fn frame_of(r: Record) -> Seq<u8> {
    be_bytes(body_bytes(r).len() as int, 4) + body_bytes(r)
}

/// The number of bytes a record occupies on disk.
pub open spec fn frame_size(r: Record) -> int {
    4 + body_bytes(r).len() as int
}

/// The dimensions of an encoded record.
pub proof fn lemma_frame_dims(r: Record)
    ensures
        frame_of(r).len() == frame_size(r),
        r.val is Some ==> body_bytes(r).len() == 18 + r.key.len() + r.val->0.len() || r.cmd
            is Remove,
        r.cmd is SetVal && r.val is Some ==> body_bytes(r).len() == 18 + r.key.len()
            + r.val->0.len(),
        r.cmd is Remove ==> body_bytes(r).len() == 10 + r.key.len(),
{
    lemma_be_bytes_len(body_bytes(r).len() as int, 4);
    lemma_le_bytes_len(r.key.len() as int, 8);
    if r.val is Some {
        lemma_le_bytes_len(r.val->0.len() as int, 8);
    }
}

/// Decodes a record body; `None` unless the whole of `b` is the exact
/// serialization of one well-formed record.
pub open spec fn decode_body(b: Seq<u8>) -> Option<Record> {
    if b.len() < 10 {
        None
    } else {
        let tag = b[0];
        let klen = le_val(b.subrange(1, 9));
        if b.len() < 10 + klen {
            None
        } else {
            let key = b.subrange(9, 9 + klen);
            let flag = b[9 + klen];
            if tag == 0 && flag == 1 {
                if b.len() < 18 + klen {
                    None
                } else {
                    let vlen = le_val(b.subrange(10 + klen, 18 + klen));
                    if b.len() == 18 + klen + vlen {
                        Some(
                            (Record {
                                cmd: LogCommand::SetVal,
                                key,
                                val: Some(b.subrange(18 + klen, 18 + klen + vlen)),
                            }),
                        )
                    } else {
                        None
                    }
                }
            } else if tag == 1 && flag == 0 {
                if b.len() == 10 + klen {
                    Some((Record { cmd: LogCommand::Remove, key, val: None }))
                } else {
                    None
                }
            } else {
                None
            }
        }
    }
}

/// Decoding inverts encoding.
pub proof fn lemma_decode_of_encode(r: Record)
    requires
        record_wf(r),
    ensures
        decode_body(body_bytes(r)) == Some(r),
{
    let b = body_bytes(r);
    let klen = r.key.len() as int;
    lemma_frame_dims(r);
    lemma_le_val_bound(b.subrange(1, 9));
    match r.cmd {
        LogCommand::SetVal => {
            let v = r.val->0;
            let vlen = v.len() as int;
            assert(b.len() == 18 + klen + vlen);
            assert(klen < pow256(8) && vlen < pow256(8)) by {
                assert(pow256(8) > u32::MAX) by {
                    reveal_with_fuel(pow256, 9);
                }
            }
            lemma_le_round(klen, 8);
            lemma_le_round(vlen, 8);
            assert(b.subrange(1, 9) =~= le_bytes(klen, 8));
            assert(b[0] == 0u8);
            assert(b.subrange(9, 9 + klen) =~= r.key);
            assert(b[9 + klen] == 1u8);
            assert(b.subrange(10 + klen, 18 + klen) =~= le_bytes(vlen, 8));
            assert(b.subrange(18 + klen, 18 + klen + vlen) =~= v);
            assert(decode_body(b) == Some(r));
        },
        LogCommand::Remove => {
            assert(b.len() == 10 + klen);
            assert(klen < pow256(8)) by {
                assert(pow256(8) > u32::MAX) by {
                    reveal_with_fuel(pow256, 9);
                }
            }
            lemma_le_round(klen, 8);
            assert(b.subrange(1, 9) =~= le_bytes(klen, 8));
            assert(b[0] == 1u8);
            assert(b.subrange(9, 9 + klen) =~= r.key);
            assert(b[9 + klen] == 0u8);
            assert(decode_body(b) == Some(r));
        },
    }
}

/// Encoding inverts decoding: a body that decodes re-encodes to itself, and
/// the record it holds is well formed whenever the body fits a frame.
pub proof fn lemma_encode_of_decode(b: Seq<u8>)
    requires
        decode_body(b) is Some,
    ensures
        body_bytes(decode_body(b)->0) == b,
        b.len() <= u32::MAX ==> record_wf(decode_body(b)->0),
{
    let r = decode_body(b)->0;
    let klen = le_val(b.subrange(1, 9));
    lemma_le_val_bound(b.subrange(1, 9));
    lemma_le_bytes_of_val(b.subrange(1, 9));
    assert(r.key == b.subrange(9, 9 + klen));
    assert(r.key.len() == klen);
    if b[0] == 0 {
        let vlen = le_val(b.subrange(10 + klen, 18 + klen));
        lemma_le_val_bound(b.subrange(10 + klen, 18 + klen));
        lemma_le_bytes_of_val(b.subrange(10 + klen, 18 + klen));
        let v = r.val->0;
        assert(v.len() == vlen);
        assert(le_bytes(klen, 8) == b.subrange(1, 9));
        assert(le_bytes(vlen, 8) == b.subrange(10 + klen, 18 + klen));
        assert(body_bytes(r) =~= b);
    } else {
        assert(le_bytes(klen, 8) == b.subrange(1, 9));
        assert(body_bytes(r) =~= b);
    }
}

/// Parses one frame from the front of `b`: the record and the number of bytes
/// consumed.
pub open spec fn parse_frame(b: Seq<u8>) -> Option<(Record, int)> {
    if b.len() < 4 {
        None
    } else {
        let bl = be_val(b.subrange(0, 4));
        if b.len() < 4 + bl {
            None
        } else {
            match decode_body(b.subrange(4, 4 + bl)) {
                Some(r) => Some((r, 4 + bl)),
                None => None,
            }
        }
    }
}

/// Parses a whole byte sequence as consecutive frames.
pub open spec fn parse_all(b: Seq<u8>) -> Option<Seq<Record>>
    decreases b.len(),
{
    if b.len() == 0 {
        Some(Seq::empty())
    } else {
        match parse_frame(b) {
            None => None,
            Some((r, n)) => {
                if n <= 0 || n > b.len() {
                    None
                } else {
                    match parse_all(b.subrange(n, b.len() as int)) {
                        None => None,
                        Some(rest) => Some(seq![r] + rest),
                    }
                }
            },
        }
    }
}

/// The concatenated frames of a record sequence: the file a log writes.
pub open spec fn frames_bytes(rs: Seq<Record>) -> Seq<u8>
    decreases rs.len(),
{
    if rs.len() == 0 {
        Seq::empty()
    } else {
        frame_of(rs[0]) + frames_bytes(rs.drop_first())
    }
}

/// All records of a sequence are well formed.
pub open spec fn records_wf(rs: Seq<Record>) -> bool {
    forall|i: int| 0 <= i < rs.len() ==> record_wf(#[trigger] rs[i])
}

/// A frame at the front of a byte sequence parses back to its record.
pub proof fn lemma_parse_frame_of(r: Record, rest: Seq<u8>)
    requires
        record_wf(r),
    ensures
        parse_frame(frame_of(r) + rest) == Some((r, frame_size(r))),
{
    let body = body_bytes(r);
    let b = frame_of(r) + rest;
    lemma_frame_dims(r);
    assert(pow256(4) == 0x1_0000_0000) by {
        reveal_with_fuel(pow256, 5);
    }
    lemma_be_round(body.len() as int, 4);
    assert(b.subrange(0, 4) =~= be_bytes(body.len() as int, 4));
    assert(be_val(b.subrange(0, 4)) == body.len());
    assert(b.subrange(4, 4 + body.len() as int) =~= body);
    lemma_decode_of_encode(r);
}

/// Frames of well-formed records always parse back to the records.
pub proof fn lemma_parse_all_frames(rs: Seq<Record>)
    requires
        records_wf(rs),
    ensures
        parse_all(frames_bytes(rs)) == Some(rs),
    decreases rs.len(),
{
    if rs.len() == 0 {
        assert(parse_all(frames_bytes(rs)) == Some(rs));
    } else {
        let b = frames_bytes(rs);
        let tail = rs.drop_first();
        let rest = frames_bytes(tail);
        lemma_frame_dims(rs[0]);
        lemma_parse_frame_of(rs[0], rest);
        let n = frame_size(rs[0]);
        assert(b.len() == frame_of(rs[0]).len() + rest.len());
        assert(b.subrange(n, b.len() as int) =~= rest);
        assert(records_wf(tail)) by {
            assert(forall|i: int|
                0 <= i < tail.len() ==> tail[i] == rs[i + 1] && record_wf(#[trigger] rs[i + 1]));
        }
        lemma_parse_all_frames(tail);
        assert(seq![rs[0]] + tail =~= rs);
    }
}

/// Bytes that parse are exactly the frames of the records they parse to, and
/// those records are well formed.
pub proof fn lemma_frames_of_parse(b: Seq<u8>)
    requires
        parse_all(b) is Some,
    ensures
        records_wf(parse_all(b)->0),
        frames_bytes(parse_all(b)->0) == b,
    decreases b.len(),
{
    let rs = parse_all(b)->0;
    if b.len() == 0 {
        assert(frames_bytes(rs) =~= b);
    } else {
        let bl = be_val(b.subrange(0, 4));
        lemma_be_val_bound(b.subrange(0, 4));
        assert(pow256(4) == 0x1_0000_0000) by {
            reveal_with_fuel(pow256, 5);
        }
        let body = b.subrange(4, 4 + bl);
        let r = decode_body(body)->0;
        let n = 4 + bl;
        lemma_encode_of_decode(body);
        let rest = b.subrange(n, b.len() as int);
        lemma_frames_of_parse(rest);
        let tail = parse_all(rest)->0;
        assert(rs == seq![r] + tail);
        assert(rs[0] == r);
        assert(rs.drop_first() =~= tail);
        assert(frame_of(r) =~= b.subrange(0, n)) by {
            assert(be_bytes(body.len() as int, 4) =~= b.subrange(0, 4)) by {
                lemma_le_val_bound(b.subrange(0, 4));
                lemma_be_bytes_of_val(b.subrange(0, 4));
            }
        }
        assert(frames_bytes(rs) == frame_of(r) + frames_bytes(tail));
        assert(frames_bytes(rs) =~= b);
        assert(forall|i: int|
            1 <= i < rs.len() ==> rs[i] == tail[i - 1] && record_wf(#[trigger] tail[i - 1]));
        assert(records_wf(rs));
    }
}

/// Big-endian inverse round trip, as for the little-endian one.
pub proof fn lemma_be_bytes_of_val(b: Seq<u8>)
    ensures
        be_bytes(be_val(b), b.len()) == b,
    decreases b.len(),
{
    if b.len() > 0 {
        let rest = b.drop_last();
        lemma_be_bytes_of_val(rest);
        lemma_be_val_bound(rest);
        let n = be_val(b);
        assert(n == 256 * be_val(rest) + b.last());
        assert(n % 256 == b.last() && n / 256 == be_val(rest));
        assert(be_bytes(n, b.len()) =~= b);
    }
}

/// What a successful frame parse says of its input: the consumed bytes are
/// exactly the record's frame.
pub proof fn lemma_parse_frame_inverse(b: Seq<u8>)
    requires
        parse_frame(b) is Some,
    ensures
        ({
            let (r, n) = parse_frame(b)->0;
            &&& record_wf(r)
            &&& 14 <= n <= b.len()
            &&& n == frame_size(r)
            &&& frame_of(r) == b.subrange(0, n)
        }),
{
    let (r, n) = parse_frame(b)->0;
    let bl = be_val(b.subrange(0, 4));
    lemma_be_val_bound(b.subrange(0, 4));
    assert(pow256(4) == 0x1_0000_0000) by {
        reveal_with_fuel(pow256, 5);
    }
    let body = b.subrange(4, 4 + bl);
    lemma_encode_of_decode(body);
    lemma_be_bytes_of_val(b.subrange(0, 4));
    lemma_frame_dims(r);
    assert(frame_of(r) =~= b.subrange(0, n));
}

/// Appending one frame to parsed bytes appends its record to the parse.
pub proof fn lemma_frames_push(rs: Seq<Record>, r: Record)
    ensures
        frames_bytes(rs.push(r)) == frames_bytes(rs) + frame_of(r),
    decreases rs.len(),
{
    if rs.len() == 0 {
        let s = rs.push(r);
        assert(s[0] == r);
        assert(s.drop_first() =~= Seq::<Record>::empty());
        assert(frames_bytes(s) == frame_of(s[0]) + frames_bytes(s.drop_first()));
        assert(frames_bytes(s) =~= frame_of(r));
        assert(frames_bytes(rs) + frame_of(r) =~= frame_of(r));
    } else {
        let s = rs.push(r);
        assert(s[0] == rs[0]);
        assert(s.drop_first() =~= rs.drop_first().push(r));
        lemma_frames_push(rs.drop_first(), r);
        assert(frames_bytes(s) == frame_of(rs[0]) + (frames_bytes(rs.drop_first()) + frame_of(r)));
        assert(frames_bytes(s) =~= frames_bytes(rs) + frame_of(r));
    }
}

/// The byte offset of record `i` within the frames of `rs`.
pub open spec fn offset_of(rs: Seq<Record>, i: int) -> int {
    frames_bytes(rs.subrange(0, i)).len() as int
}

/// The bytes from record `i`'s offset onward are the frames of the records
/// from `i` onward.
pub proof fn lemma_frames_suffix(rs: Seq<Record>, i: int)
    requires
        0 <= i <= rs.len(),
    ensures
        offset_of(rs, i) <= frames_bytes(rs).len(),
        frames_bytes(rs).subrange(offset_of(rs, i), frames_bytes(rs).len() as int) == frames_bytes(
            rs.subrange(i, rs.len() as int),
        ),
    decreases i,
{
    if i == 0 {
        assert(rs.subrange(0, 0) =~= Seq::<Record>::empty());
        assert(rs.subrange(0, rs.len() as int) =~= rs);
        assert(offset_of(rs, 0) == 0);
        assert(frames_bytes(rs).subrange(0, frames_bytes(rs).len() as int) =~= frames_bytes(rs));
    } else {
        let prev = rs.subrange(0, i - 1);
        lemma_frame_dims(rs[i - 1]);
        lemma_frames_suffix(rs, i - 1);
        assert(rs.subrange(0, i) =~= prev.push(rs[i - 1]));
        lemma_frames_push(prev, rs[i - 1]);
        let sfx = rs.subrange(i - 1, rs.len() as int);
        assert(sfx[0] == rs[i - 1]);
        assert(sfx.drop_first() =~= rs.subrange(i, rs.len() as int));
        assert(frames_bytes(sfx) == frame_of(rs[i - 1]) + frames_bytes(
            rs.subrange(i, rs.len() as int),
        ));
        let all = frames_bytes(rs);
        let o1 = offset_of(rs, i - 1);
        let o2 = offset_of(rs, i);
        assert(o2 == o1 + frame_size(rs[i - 1]));
        assert(all.subrange(o2, all.len() as int) =~= all.subrange(o1, all.len() as int).subrange(
            frame_size(rs[i - 1]),
            all.len() - o1,
        ));
        assert(all.subrange(o2, all.len() as int) =~= frames_bytes(
            rs.subrange(i, rs.len() as int),
        ));
    }
}

/// Consecutive offsets differ by the earlier record's frame size.
pub proof fn lemma_offset_step(rs: Seq<Record>, i: int)
    requires
        0 <= i < rs.len(),
    ensures
        offset_of(rs, i + 1) == offset_of(rs, i) + frame_size(rs[i]),
{
    assert(rs.subrange(0, i + 1) =~= rs.subrange(0, i).push(rs[i]));
    lemma_frame_dims(rs[i]);
    lemma_frames_push(rs.subrange(0, i), rs[i]);
}


/// Reads a 4-byte big-endian value at `off`.
pub(crate) fn read_be_u32(b: &Vec<u8>, off: usize) -> (r: u32)
    requires
        off + 4 <= b@.len(),
    ensures
        r == be_val(b@.subrange(off as int, off as int + 4)),
{
    let blen: usize = b.len();
    let mut acc: u32 = 0;
    let mut j: usize = 0;
    while j < 4
        invariant
            off + 4 <= b@.len(),
            b@.len() == blen,
            j <= 4,
            acc == be_val(b@.subrange(off as int, off as int + j as int)),
            acc < pow256(j as nat),
        decreases 4 - j,
    {
        proof {
            assert(pow256(0) == 1 && pow256(1) == 0x100 && pow256(2) == 0x1_0000 && pow256(3)
                == 0x100_0000 && pow256(4) == 0x1_0000_0000) by {
                reveal_with_fuel(pow256, 5);
            }
            lemma_be_val_bound(b@.subrange(off as int, off as int + j as int));
            assert(acc < 0x100_0000);
        }
        let byte: u8 = b[off + j];
        proof {
            let pre = b@.subrange(off as int, off as int + j as int);
            let post = b@.subrange(off as int, off as int + j + 1);
            assert(post.drop_last() =~= pre);
            assert(post.last() == byte);
        }
        acc = acc * 256 + byte as u32;
        j = j + 1;
    }
    acc
}

/// Reads an 8-byte little-endian value at `off`.
pub(crate) fn read_le_u64(b: &Vec<u8>, off: usize) -> (r: u64)
    requires
        off + 8 <= b@.len(),
    ensures
        r == le_val(b@.subrange(off as int, off as int + 8)),
{
    let blen: usize = b.len();
    let mut acc: u64 = 0;
    let mut j: usize = 8;
    while j > 0
        invariant
            off + 8 <= b@.len(),
            b@.len() == blen,
            j <= 8,
            acc == le_val(b@.subrange(off + j, off + 8)),
            acc < pow256((8 - j) as nat),
        decreases j,
    {
        proof {
            assert(pow256(0) == 1 && pow256(1) == 0x100 && pow256(2) == 0x1_0000 && pow256(3)
                == 0x100_0000 && pow256(4) == 0x1_0000_0000 && pow256(5) == 0x100_0000_0000
                && pow256(6) == 0x1_0000_0000_0000 && pow256(7) == 0x100_0000_0000_0000
                && pow256(8) == 0x1_0000_0000_0000_0000) by {
                reveal_with_fuel(pow256, 9);
            }
            lemma_le_val_bound(b@.subrange(off + j, off + 8));
            assert(acc < 0x100_0000_0000_0000);
        }
        j = j - 1;
        let byte: u8 = b[off + j];
        proof {
            let pre = b@.subrange(off + j + 1, off + 8);
            let post = b@.subrange(off + j, off + 8);
            assert(post.drop_first() =~= pre);
            assert(post[0] == byte);
        }
        acc = byte as u64 + 256 * acc;
    }
    acc
}

/// Appends the `k` big-endian bytes of `n` to `out`.
pub(crate) fn push_be(out: &mut Vec<u8>, n: u64, k: usize)
    ensures
        final(out)@ == old(out)@ + be_bytes(n as int, k as nat),
    decreases k,
{
    if k == 0 {
        assert(final(out)@ =~= old(out)@ + be_bytes(n as int, 0));
    } else {
        push_be(out, n / 256, k - 1);
        out.push((n % 256) as u8);
        assert(final(out)@ =~= old(out)@ + be_bytes(n as int, k as nat));
    }
}

/// Appends the `k` little-endian bytes of `n` to `out`.
pub(crate) fn push_le(out: &mut Vec<u8>, n: u64, k: usize)
    ensures
        final(out)@ == old(out)@ + le_bytes(n as int, k as nat),
    decreases k,
{
    if k == 0 {
        assert(final(out)@ =~= old(out)@ + le_bytes(n as int, 0));
    } else {
        out.push((n % 256) as u8);
        push_le(out, n / 256, k - 1);
        assert(final(out)@ =~= old(out)@ + le_bytes(n as int, k as nat));
    }
}

/// Appends all of `src` to `out`.
pub(crate) fn push_bytes(out: &mut Vec<u8>, src: &Vec<u8>)
    ensures
        final(out)@ == old(out)@ + src@,
{
    let mut i: usize = 0;
    while i < src.len()
        invariant
            i <= src@.len(),
            out@ == old(out)@ + src@.subrange(0, i as int),
        decreases src@.len() - i,
    {
        let ghost pre = out@;
        out.push(src[i]);
        i = i + 1;
        assert(out@ =~= old(out)@ + src@.subrange(0, i as int));
    }
    assert(src@.subrange(0, src@.len() as int) =~= src@);
}

/// Copies `b[start..end]` into a fresh vector.
pub(crate) fn copy_range(b: &Vec<u8>, start: usize, end: usize) -> (r: Vec<u8>)
    requires
        start <= end <= b@.len(),
    ensures
        r@ == b@.subrange(start as int, end as int),
{
    let mut out: Vec<u8> = Vec::new();
    let mut i: usize = start;
    while i < end
        invariant
            start <= i <= end <= b@.len(),
            out@ == b@.subrange(start as int, i as int),
        decreases end - i,
    {
        out.push(b[i]);
        i = i + 1;
        assert(out@ =~= b@.subrange(start as int, i as int));
    }
    out
}


/// Decodes the record body held in `b[off .. off + blen]`, exactly as
/// `decode_body` reads it.
pub(crate) fn decode_body_at(b: &Vec<u8>, off: usize, blen: usize) -> (r: Option<
    crate::append_log::LogEntry,
>)
    requires
        off + blen <= b@.len(),
    ensures
        (match decode_body(b@.subrange(off as int, off as int + blen as int)) {
            Some(rec) => r is Some && r->0@ == rec,
            None => r is None,
        }),
{
    let ghost body = b@.subrange(off as int, off as int + blen as int);
    let total: usize = b.len();
    if blen < 10 {
        return None;
    }
    let tag: u8 = b[off];
    assert(tag == body[0]);
    let klen64: u64 = read_le_u64(b, off + 1);
    proof {
        assert(b@.subrange(off + 1, off + 9) =~= body.subrange(1, 9));
    }
    if klen64 > (blen - 10) as u64 {
        return None;
    }
    let klen: usize = klen64 as usize;
    let flag: u8 = b[off + 9 + klen];
    assert(flag == body[9 + klen]);
    if tag == 0 && flag == 1 {
        if blen - 10 - klen < 8 {
            return None;
        }
        let vlen64: u64 = read_le_u64(b, off + 10 + klen);
        proof {
            assert(b@.subrange(off + 10 + klen, off + 18 + klen) =~= body.subrange(
                10 + klen,
                18 + klen,
            ));
        }
        if vlen64 != (blen - 18 - klen) as u64 {
            return None;
        }
        let vlen: usize = vlen64 as usize;
        let key = copy_range(b, off + 9, off + 9 + klen);
        let val = copy_range(b, off + 18 + klen, off + 18 + klen + vlen);
        proof {
            assert(key@ =~= body.subrange(9, 9 + klen));
            assert(val@ =~= body.subrange(18 + klen, 18 + klen + vlen));
        }
        Some(crate::append_log::LogEntry { cmd: LogCommand::SetVal, key, val: Some(val) })
    } else if tag == 1 && flag == 0 {
        if blen != 10 + klen {
            return None;
        }
        let key = copy_range(b, off + 9, off + 9 + klen);
        proof {
            assert(key@ =~= body.subrange(9, 9 + klen));
        }
        Some(crate::append_log::LogEntry { cmd: LogCommand::Remove, key, val: None })
    } else {
        None
    }
}

/// Parses one frame starting at `off`, as `parse_frame` reads the bytes from
/// `off` onward: the entry and the bytes consumed.
pub(crate) fn parse_frame_at(b: &Vec<u8>, off: usize) -> (r: Option<
    (crate::append_log::LogEntry, usize),
>)
    requires
        off <= b@.len(),
    ensures
        (match parse_frame(b@.subrange(off as int, b@.len() as int)) {
            Some(pair) => r is Some && (r->0).0@ == pair.0 && (r->0).1 == pair.1,
            None => r is None,
        }),
{
    let ghost tail = b@.subrange(off as int, b@.len() as int);
    let blen: usize = b.len();
    if blen - off < 4 {
        return None;
    }
    let frame_len: u32 = read_be_u32(b, off);
    proof {
        assert(b@.subrange(off as int, off + 4) =~= tail.subrange(0, 4));
    }
    let body_len: usize = frame_len as usize;
    if blen - off - 4 < body_len {
        return None;
    }
    proof {
        assert(b@.subrange(off + 4, off + 4 + body_len) =~= tail.subrange(4, 4 + body_len));
    }
    match decode_body_at(b, off + 4, body_len) {
        Some(e) => Some((e, 4 + body_len)),
        None => None,
    }
}

/// Encodes a well-formed record as one frame.
pub(crate) fn encode_frame(e: &crate::append_log::LogEntry) -> (out: Vec<u8>)
    requires
        record_wf(e@),
    ensures
        out@ == frame_of(e@),
{
    proof {
        lemma_frame_dims(e@);
    }
    let klen: usize = e.key.len();
    let mut out: Vec<u8> = Vec::new();
    match &e.val {
        Some(v) => {
            let vlen: usize = v.len();
            let body_len: u64 = 18u64 + klen as u64 + vlen as u64;
            push_be(&mut out, body_len, 4);
            out.push(0u8);
            push_le(&mut out, klen as u64, 8);
            push_bytes(&mut out, &e.key);
            out.push(1u8);
            push_le(&mut out, vlen as u64, 8);
            push_bytes(&mut out, v);
            assert(out@ =~= frame_of(e@));
        },
        None => {
            let body_len: u64 = 10u64 + klen as u64;
            push_be(&mut out, body_len, 4);
            out.push(1u8);
            push_le(&mut out, klen as u64, 8);
            push_bytes(&mut out, &e.key);
            out.push(0u8);
            assert(out@ =~= frame_of(e@));
        },
    }
    out
}

} // verus!
