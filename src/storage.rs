//! The on-disk log of a table: a sequence of frames, each an 8-byte
//! little-endian length prefix followed by that many payload bytes.
//!
//! This module holds the byte-level format: encoding a frame, reading the
//! frame at an offset, and splitting a whole log into its frames. Reading and
//! writing the file, and turning a payload into a tuple, happen around it.
use vstd::prelude::*;

verus! {

/// Number of bytes in the length prefix that starts every frame of the log.
pub const LENGTH_PREFIX_SIZE: u64 = 8;

/// `256` to the power `k`.
pub open spec fn pow256(k: nat) -> nat
    decreases k,
{
    if k == 0 {
        1
    } else {
        256 * pow256((k - 1) as nat)
    }
}

/// The number that the bytes `b` stand for, least significant byte first.
pub open spec fn le_value(b: Seq<u8>) -> nat
    decreases b.len(),
{
    if b.len() == 0 {
        0
    } else {
        b[0] as nat + 256 * le_value(b.drop_first())
    }
}

/// The `k` bytes that write `n` least significant byte first.
pub open spec fn le_bytes(n: nat, k: nat) -> Seq<u8>
    decreases k,
{
    if k == 0 {
        Seq::empty()
    } else {
        seq![(n % 256) as u8] + le_bytes(n / 256, (k - 1) as nat)
    }
}

/// The frame that holds `payload`: its length as 8 little-endian bytes, then
/// the payload itself.
pub open spec fn frame_bytes(payload: Seq<u8>) -> Seq<u8> {
    le_bytes(payload.len(), 8) + payload
}

/// The log made of one frame for each payload, in order.
pub open spec fn log_bytes(payloads: Seq<Seq<u8>>) -> Seq<u8>
    decreases payloads.len(),
{
    if payloads.len() == 0 {
        Seq::empty()
    } else {
        frame_bytes(payloads[0]) + log_bytes(payloads.drop_first())
    }
}

/// Byte offset at which the frame of `payloads[i]` starts in `log_bytes(payloads)`.
pub open spec fn frame_offset(payloads: Seq<Seq<u8>>, i: int) -> nat {
    log_bytes(payloads.take(i)).len()
}

/// Every payload's length can be written in the 8-byte prefix.
pub open spec fn payloads_fit(payloads: Seq<Seq<u8>>) -> bool {
    forall|i: int| 0 <= i < payloads.len() ==> #[trigger] payloads[i].len() < pow256(8)
}

/// The payloads of a log, read from its start: `None` where the log ends in
/// the middle of a frame.
pub open spec fn parse_log(log: Seq<u8>) -> Option<Seq<Seq<u8>>>
    decreases log.len(),
{
    if log.len() == 0 {
        Some(Seq::empty())
    } else if log.len() < 8 {
        None
    } else {
        let n = le_value(log.subrange(0, 8)) as int;
        if log.len() - 8 < n {
            None
        } else {
            match parse_log(log.subrange(8 + n, log.len() as int)) {
                Some(rest) => Some(seq![log.subrange(8, 8 + n)] + rest),
                None => None,
            }
        }
    }
}

/// The payload of the frame that starts at `offset` in `log`: `None` where
/// the log ends before the prefix or the payload does.
pub open spec fn frame_at(log: Seq<u8>, offset: int) -> Option<Seq<u8>> {
    if 0 <= offset && offset + 8 <= log.len() {
        let n = le_value(log.subrange(offset, offset + 8)) as int;
        if offset + 8 + n <= log.len() {
            Some(log.subrange(offset + 8, offset + 8 + n))
        } else {
            None
        }
    } else {
        None
    }
}

/// Why a log or a frame could not be read.
#[derive(Debug, Clone, PartialEq, Eq)]
pub enum StorageError {
    /// The log ends in the middle of a frame.
    TruncatedFrame,
    /// The file could not be read or written.
    Io(String),
    /// A payload is not the encoding of a tuple.
    Decode(String),
    /// Another frame would take the log past the largest offset.
    LogTooLarge,
}

/// One frame of a log: where it starts, and its payload.
#[derive(Debug, Clone, PartialEq, Eq)]
pub struct Frame {
    pub offset: u64,
    pub payload: Vec<u8>,
}

/// Offset of the frame that follows a frame of `tuple_length` payload bytes
/// starting at `current_offset`.
pub fn calculate_new_offset(tuple_length: u64, current_offset: u64) -> (r: u64)
    requires
        current_offset + LENGTH_PREFIX_SIZE + tuple_length <= u64::MAX,
    ensures
        r == current_offset + LENGTH_PREFIX_SIZE + tuple_length,
{
    current_offset + LENGTH_PREFIX_SIZE + tuple_length
}

/// `parse_log` result of a log whose first payloads are `done`, followed by
/// a part that parses to `rest`.
pub open spec fn prepend(done: Seq<Seq<u8>>, rest: Option<Seq<Seq<u8>>>) -> Option<Seq<Seq<u8>>> {
    match rest {
        Some(r) => Some(done + r),
        None => None,
    }
}

proof fn lemma_pow256_8()
    ensures
        pow256(8) == 0x1_0000_0000_0000_0000,
{
    reveal_with_fuel(pow256, 9);
}

proof fn lemma_le_bytes_len(n: nat, k: nat)
    ensures
        le_bytes(n, k).len() == k,
    decreases k,
{
    if k > 0 {
        lemma_le_bytes_len(n / 256, (k - 1) as nat);
    }
}

proof fn lemma_le_value_bound(b: Seq<u8>)
    ensures
        le_value(b) < pow256(b.len()),
    decreases b.len(),
{
    if b.len() > 0 {
        lemma_le_value_bound(b.drop_first());
        let r = le_value(b.drop_first());
        let p = pow256((b.len() - 1) as nat);
        assert(b[0] as nat + 256 * r < 256 * p) by (nonlinear_arith)
            requires
                r < p,
                b[0] < 256,
        ;
    }
}

/// Writing a number in `k` little-endian bytes and reading it back gives the
/// number, where it fits in `k` bytes.
pub proof fn lemma_le_round_trip(n: nat, k: nat)
    requires
        n < pow256(k),
    ensures
        le_value(le_bytes(n, k)) == n,
    decreases k,
{
    if k > 0 {
        let p = pow256((k - 1) as nat);
        assert(n / 256 < p) by (nonlinear_arith)
            requires
                n < 256 * p,
        ;
        lemma_le_round_trip(n / 256, (k - 1) as nat);
        let b = le_bytes(n, k);
        assert(b.drop_first() =~= le_bytes(n / 256, (k - 1) as nat));
        assert((n % 256) as u8 as nat + 256 * (n / 256) == n) by (nonlinear_arith);
    }
}

/// The log of two runs of payloads is the log of the first followed by the
/// log of the second.
pub proof fn lemma_log_concat(a: Seq<Seq<u8>>, b: Seq<Seq<u8>>)
    ensures
        log_bytes(a + b) == log_bytes(a) + log_bytes(b),
    decreases a.len(),
{
    if a.len() == 0 {
        assert(a + b =~= b);
        assert(log_bytes(a) + log_bytes(b) =~= log_bytes(b));
    } else {
        lemma_log_concat(a.drop_first(), b);
        assert((a + b).drop_first() =~= a.drop_first() + b);
        assert((a + b)[0] == a[0]);
        assert(frame_bytes(a[0]) + (log_bytes(a.drop_first()) + log_bytes(b)) =~= (frame_bytes(
            a[0],
        ) + log_bytes(a.drop_first())) + log_bytes(b));
    }
}

/// Appending a frame to a log appends its bytes, and nothing else.
pub proof fn lemma_log_push(payloads: Seq<Seq<u8>>, p: Seq<u8>)
    ensures
        log_bytes(payloads.push(p)) == log_bytes(payloads) + frame_bytes(p),
        log_bytes(payloads.push(p)).len() == log_bytes(payloads).len() + 8 + p.len(),
{
    lemma_log_concat(payloads, seq![p]);
    assert(payloads + seq![p] =~= payloads.push(p));
    assert(seq![p].drop_first() =~= Seq::<Seq<u8>>::empty());
    assert(seq![p][0] == p);
    assert(log_bytes(Seq::<Seq<u8>>::empty()) == Seq::<u8>::empty());
    assert(log_bytes(seq![p]) == frame_bytes(p) + log_bytes(Seq::<Seq<u8>>::empty()));
    assert(log_bytes(seq![p]) =~= frame_bytes(p));
    lemma_le_bytes_len(p.len(), 8);
}

/// Reading a log written frame by frame gives back the payloads, in order.
pub proof fn lemma_parse_log_round_trip(payloads: Seq<Seq<u8>>)
    requires
        payloads_fit(payloads),
    ensures
        parse_log(log_bytes(payloads)) == Some(payloads),
    decreases payloads.len(),
{
    if payloads.len() > 0 {
        let p = payloads[0];
        let rest = payloads.drop_first();
        assert(payloads_fit(rest)) by {
            assert forall|i: int| 0 <= i < rest.len() implies #[trigger] rest[i].len() < pow256(
                8,
            ) by {
                assert(rest[i] == payloads[i + 1]);
            }
        }
        lemma_parse_log_round_trip(rest);
        let log = log_bytes(payloads);
        lemma_le_bytes_len(p.len(), 8);
        lemma_le_round_trip(p.len(), 8);
        assert(log.subrange(0, 8) =~= le_bytes(p.len(), 8));
        assert(log.subrange(8, 8 + p.len() as int) =~= p);
        assert(log.subrange(8 + p.len() as int, log.len() as int) =~= log_bytes(rest));
        assert(seq![p] + rest =~= payloads);
    }
}

/// Each frame of a log written frame by frame can be read back at its offset.
pub proof fn lemma_frame_at_offset(payloads: Seq<Seq<u8>>, i: int)
    requires
        payloads_fit(payloads),
        0 <= i < payloads.len(),
    ensures
        frame_at(log_bytes(payloads), frame_offset(payloads, i) as int) == Some(payloads[i]),
{
    let a = payloads.take(i);
    let b = payloads.skip(i);
    assert(a + b =~= payloads);
    lemma_log_concat(a, b);
    assert(b[0] == payloads[i]);
    let p = payloads[i];
    let log = log_bytes(payloads);
    let off = log_bytes(a).len() as int;
    assert(log_bytes(b) == frame_bytes(p) + log_bytes(b.drop_first()));
    lemma_le_bytes_len(p.len(), 8);
    lemma_le_round_trip(p.len(), 8);
    assert(log.subrange(off, off + 8) =~= le_bytes(p.len(), 8));
    assert(log.subrange(off + 8, off + 8 + p.len() as int) =~= p);
}

/// A frame appended to a log is read back, at the offset where the log ended,
/// as the payload that was written; and the whole log then reads as the
/// earlier payloads followed by this one.
pub proof fn lemma_append_read_back(payloads: Seq<Seq<u8>>, p: Seq<u8>)
    requires
        payloads_fit(payloads),
        p.len() < pow256(8),
    ensures
        frame_at(log_bytes(payloads) + frame_bytes(p), log_bytes(payloads).len() as int) == Some(p),
        parse_log(log_bytes(payloads) + frame_bytes(p)) == Some(payloads.push(p)),
{
    let all = payloads.push(p);
    assert(payloads_fit(all)) by {
        assert forall|i: int| 0 <= i < all.len() implies #[trigger] all[i].len() < pow256(8) by {
            if i < payloads.len() {
                assert(all[i] == payloads[i]);
            }
        }
    }
    lemma_log_push(payloads, p);
    lemma_frame_at_offset(all, payloads.len() as int);
    assert(all.take(payloads.len() as int) =~= payloads);
    lemma_parse_log_round_trip(all);
}

/// The 8 little-endian bytes of `n`.
pub fn encode_length_prefix(n: u64) -> (r: Vec<u8>)
    ensures
        r@ == le_bytes(n as nat, 8),
{
    let mut out: Vec<u8> = Vec::new();
    let mut v: u64 = n;
    let mut i: u64 = 0;
    while i < 8
        invariant
            i <= 8,
            out@ + le_bytes(v as nat, (8 - i) as nat) == le_bytes(n as nat, 8),
        decreases 8 - i,
    {
        let ghost old_out = out@;
        let ghost k = (8 - i) as nat;
        assert(le_bytes(v as nat, k) == seq![(v % 256) as u8] + le_bytes(
            (v / 256) as nat,
            (k - 1) as nat,
        ));
        out.push((v % 256) as u8);
        assert(out@ + le_bytes((v / 256) as nat, (k - 1) as nat) =~= old_out + le_bytes(
            v as nat,
            k,
        ));
        v = v / 256;
        i = i + 1;
    }
    assert(out@ + le_bytes(v as nat, 0) =~= out@);
    out
}

/// The number written least significant byte first in `bytes[start..start + 8]`.
pub fn decode_length_prefix(bytes: &[u8], start: usize) -> (r: u64)
    requires
        start + 8 <= bytes@.len(),
    ensures
        r == le_value(bytes@.subrange(start as int, start + 8)),
{
    let ghost s = bytes@.subrange(start as int, start + 8);
    let blen = bytes.len();
    let mut acc: u64 = 0;
    let mut i: usize = 8;
    proof {
        assert(s.subrange(8, 8) =~= Seq::<u8>::empty());
    }
    while i > 0
        invariant
            i <= 8,
            blen == bytes@.len(),
            start + 8 <= bytes@.len(),
            s == bytes@.subrange(start as int, start + 8),
            acc == le_value(s.subrange(i as int, 8)),
        decreases i,
    {
        let ghost t = s.subrange(i - 1, 8);
        assert(t.drop_first() =~= s.subrange(i as int, 8));
        assert(t[0] == bytes@[start + i - 1]);
        proof {
            lemma_le_value_bound(t);
            lemma_pow256_8();
            lemma_pow256_mono((9 - i) as nat);
        }
        acc = bytes[start + i - 1] as u64 + 256 * acc;
        i = i - 1;
    }
    assert(s.subrange(0, 8) =~= s);
    acc
}

proof fn lemma_pow256_mono(k: nat)
    requires
        k <= 8,
    ensures
        pow256(k) <= pow256(8),
    decreases 8 - k,
{
    if k < 8 {
        lemma_pow256_mono(k + 1);
        assert(pow256(k + 1) == 256 * pow256(k));
    }
}

/// A copy of `bytes[start..end]`.
fn copy_range(bytes: &[u8], start: usize, end: usize) -> (r: Vec<u8>)
    requires
        start <= end <= bytes@.len(),
    ensures
        r@ == bytes@.subrange(start as int, end as int),
{
    let mut out: Vec<u8> = Vec::new();
    let mut j: usize = start;
    while j < end
        invariant
            start <= j <= end <= bytes@.len(),
            out@ == bytes@.subrange(start as int, j as int),
        decreases end - j,
    {
        out.push(bytes[j]);
        assert(out@ =~= bytes@.subrange(start as int, j + 1));
        j = j + 1;
    }
    out
}

/// The frame that holds `payload`, ready to be appended to a log.
pub fn encode_frame(payload: &[u8]) -> (r: Vec<u8>)
    ensures
        r@ == frame_bytes(payload@),
{
    let mut out = encode_length_prefix(payload.len() as u64);
    let mut j: usize = 0;
    while j < payload.len()
        invariant
            j <= payload@.len(),
            out@ == le_bytes(payload@.len(), 8) + payload@.subrange(0, j as int),
        decreases payload@.len() - j,
    {
        out.push(payload[j]);
        assert(out@ =~= le_bytes(payload@.len(), 8) + payload@.subrange(0, j + 1));
        j = j + 1;
    }
    assert(payload@.subrange(0, payload@.len() as int) =~= payload@);
    out
}

/// The payload of the frame that starts at `offset` in `log`.
pub fn read_frame(log: &[u8], offset: u64) -> (r: Result<Vec<u8>, StorageError>)
    ensures
        match r {
            Ok(p) => frame_at(log@, offset as int) == Some(p@),
            Err(e) => frame_at(log@, offset as int) is None && e == StorageError::TruncatedFrame,
        },
{
    let len = log.len();
    if (len as u64) < 8 || offset > (len as u64) - 8 {
        return Err(StorageError::TruncatedFrame);
    }
    let start = offset as usize;
    let n = decode_length_prefix(log, start);
    if n > (len - start - 8) as u64 {
        return Err(StorageError::TruncatedFrame);
    }
    Ok(copy_range(log, start + 8, start + 8 + n as usize))
}

/// The frames of a whole log, each with the offset it starts at. Fails where
/// the log ends in the middle of a frame.
pub fn parse_frames(log: &[u8]) -> (r: Result<Vec<Frame>, StorageError>)
    ensures
        match r {
            Ok(frames) => parse_log(log@) is Some && {
                let ps = parse_log(log@)->Some_0;
                &&& frames@.len() == ps.len()
                &&& forall|i: int|
                    0 <= i < ps.len() ==> (#[trigger] frames@[i]).payload@ == ps[i]
                        && frames@[i].offset == frame_offset(ps, i)
            },
            Err(e) => parse_log(log@) is None && e == StorageError::TruncatedFrame,
        },
{
    let mut frames: Vec<Frame> = Vec::new();
    let ghost mut done: Seq<Seq<u8>> = Seq::empty();
    let mut pos: usize = 0;
    let len = log.len();
    assert(log@.subrange(0, len as int) =~= log@);
    while pos < len
        invariant
            len == log@.len(),
            pos <= len,
            frames@.len() == done.len(),
            pos == log_bytes(done).len(),
            forall|i: int|
                0 <= i < done.len() ==> (#[trigger] frames@[i]).payload@ == done[i]
                    && frames@[i].offset == frame_offset(done, i),
            parse_log(log@) == prepend(done, parse_log(log@.subrange(pos as int, len as int))),
        decreases len - pos,
    {
        let ghost suffix = log@.subrange(pos as int, len as int);
        if len - pos < 8 {
            return Err(StorageError::TruncatedFrame);
        }
        let n = decode_length_prefix(log, pos);
        assert(suffix.subrange(0, 8) =~= log@.subrange(pos as int, pos + 8));
        if n > (len - pos - 8) as u64 {
            return Err(StorageError::TruncatedFrame);
        }
        let end = pos + 8 + n as usize;
        let payload = copy_range(log, pos + 8, end);
        assert(suffix.subrange(8, 8 + n as int) =~= payload@);
        assert(suffix.subrange(8 + n as int, suffix.len() as int) =~= log@.subrange(
            end as int,
            len as int,
        ));
        proof {
            lemma_log_push(done, payload@);
            let rest = parse_log(log@.subrange(end as int, len as int));
            if rest is Some {
                assert(done + (seq![payload@] + rest->Some_0) =~= done.push(payload@)
                    + rest->Some_0);
            }
            assert forall|i: int| 0 <= i < done.len() implies frame_offset(done.push(payload@), i)
                == frame_offset(done, i) by {
                assert(done.push(payload@).take(i) =~= done.take(i));
            }
            assert(done.push(payload@).take(done.len() as int) =~= done);
        }
        frames.push(Frame { offset: pos as u64, payload });
        proof {
            done = done.push(payload@);
        }
        pos = end;
    }
    assert(log@.subrange(pos as int, len as int) =~= Seq::<u8>::empty());
    assert(done + Seq::<Seq<u8>>::empty() =~= done);
    Ok(frames)
}

} // verus!
