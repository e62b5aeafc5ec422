//! The streaming decoder and the encoder of the write-ahead log.
//!
//! The decoder is a state machine over a byte buffer.  It takes from the
//! buffer what belongs to the record it is reading and keeps it, so bytes may
//! arrive in pieces of any size; it never holds more than one record.

use crate::buffer::{buffer_len, buffer_slice, buffer_split_to, buffer_unsplit, contents};
use crate::checksum::{checksum_ieee, crc32_ieee};
use crate::endian::{be_value, read_u32_be};
use crate::storage::directory::wal::{
    body_bytes, entries_size, entry_label, entry_size, frame_bytes, is_frame, is_payload,
    lemma_entries_size_bounds, lemma_payload_bound, split_entry, AnnotatedWalRecord, LabelSetEntry,
    WalReadError,
};
use bytes::BytesMut;
use vstd::prelude::*;

verus! {

/// The decoder of the log: where in a record it stands, and the bytes of the
/// record that it has taken so far.
pub enum WalFileDecoder {
    /// The decoder has reported an error and cannot go on.
    Invalid,
    /// Between records.
    Start,
    /// The type byte of a label set has been read.
    LabelSetReadNumEntries(BytesMut),
    /// Entries of a label set are being read; the number says how many are
    /// still to come.
    LabelSetReadEntry(BytesMut, u8),
    /// The entries of a label set have been read.
    LabelSetReadIdentifier(BytesMut),
    /// The type byte of a checkpoint has been read.
    CheckpointReadIdentifier(BytesMut),
    /// Type byte and payload have been read.
    ReadRecordLength(BytesMut),
    /// Type byte, payload and declared length have been read.
    ReadRecordChecksum(BytesMut, BytesMut),
}

/// The decoder as a value: its state, with the bytes it holds.
pub enum DecoderState {
    Invalid,
    Start,
    LabelSetReadNumEntries(Seq<u8>),
    LabelSetReadEntry(Seq<u8>, u8),
    LabelSetReadIdentifier(Seq<u8>),
    CheckpointReadIdentifier(Seq<u8>),
    ReadRecordLength(Seq<u8>),
    ReadRecordChecksum(Seq<u8>, Seq<u8>),
}

impl View for WalFileDecoder {
    type V = DecoderState;

    open spec fn view(&self) -> DecoderState {
        match self {
            WalFileDecoder::Invalid => DecoderState::Invalid,
            WalFileDecoder::Start => DecoderState::Start,
            WalFileDecoder::LabelSetReadNumEntries(p) => DecoderState::LabelSetReadNumEntries(
                contents(*p),
            ),
            WalFileDecoder::LabelSetReadEntry(p, n) => DecoderState::LabelSetReadEntry(
                contents(*p),
                *n,
            ),
            WalFileDecoder::LabelSetReadIdentifier(p) => DecoderState::LabelSetReadIdentifier(
                contents(*p),
            ),
            WalFileDecoder::CheckpointReadIdentifier(p) => DecoderState::CheckpointReadIdentifier(
                contents(*p),
            ),
            WalFileDecoder::ReadRecordLength(p) => DecoderState::ReadRecordLength(contents(*p)),
            WalFileDecoder::ReadRecordChecksum(p, l) => DecoderState::ReadRecordChecksum(
                contents(*p),
                contents(*l),
            ),
        }
    }
}

/// What one call of the decoder comes to: the record it emits, nothing yet,
/// or an error; the state it is left in; the bytes it leaves in the buffer.
pub struct Outcome {
    pub result: Result<Option<Seq<u8>>, WalReadError>,
    pub state: DecoderState,
    pub rest: Seq<u8>,
}

impl DecoderState {
    /// The bytes of the current record that the decoder holds.
    pub open spec fn pending(self) -> Seq<u8> {
        match self {
            DecoderState::Invalid => Seq::empty(),
            DecoderState::Start => Seq::empty(),
            DecoderState::LabelSetReadNumEntries(p) => p,
            DecoderState::LabelSetReadEntry(p, _) => p,
            DecoderState::LabelSetReadIdentifier(p) => p,
            DecoderState::CheckpointReadIdentifier(p) => p,
            DecoderState::ReadRecordLength(p) => p,
            DecoderState::ReadRecordChecksum(p, l) => p + l,
        }
    }

    /// The state is one that reading a log from its start can lead to: the
    /// bytes held are the beginning of a record, as far as the state says.
    pub open spec fn reachable(self) -> bool {
        match self {
            DecoderState::Invalid => false,
            DecoderState::Start => true,
            DecoderState::LabelSetReadNumEntries(p) => p == seq![0u8],
            DecoderState::LabelSetReadEntry(p, n) => {
                &&& p.len() >= 2
                &&& p[0] == 0
                &&& 1 <= n <= p[1] <= 100
                &&& entries_size(p.subrange(2, p.len() as int), (p[1] - n) as nat) == Ok::<
                    int,
                    WalReadError,
                >(p.len() - 2)
            },
            DecoderState::LabelSetReadIdentifier(p) => {
                &&& p.len() >= 2
                &&& p[0] == 0
                &&& 1 <= p[1] <= 100
                &&& entries_size(p.subrange(2, p.len() as int), p[1] as nat) == Ok::<
                    int,
                    WalReadError,
                >(p.len() - 2)
            },
            DecoderState::CheckpointReadIdentifier(p) => p == seq![1u8],
            DecoderState::ReadRecordLength(p) => p.len() >= 1 && is_payload(
                p[0],
                p.subrange(1, p.len() as int),
            ),
            DecoderState::ReadRecordChecksum(p, l) => p.len() >= 1 && is_payload(
                p[0],
                p.subrange(1, p.len() as int),
            ) && l.len() == 4,
        }
    }

    /// How far the state is from the end of a record; it falls with every
    /// step the decoder takes.
    pub open spec fn rank(self) -> nat {
        match self {
            DecoderState::Invalid => 0,
            DecoderState::Start => 301,
            DecoderState::LabelSetReadNumEntries(_) => 300,
            DecoderState::LabelSetReadEntry(_, n) => 3 + n as nat,
            DecoderState::LabelSetReadIdentifier(_) => 2,
            DecoderState::CheckpointReadIdentifier(_) => 2,
            DecoderState::ReadRecordLength(_) => 1,
            DecoderState::ReadRecordChecksum(_, _) => 0,
        }
    }
}

/// The decoder waits in `state` for more bytes than `b` holds.
pub open spec fn waiting(state: DecoderState, b: Seq<u8>) -> Outcome {
    Outcome { result: Ok(None), state, rest: b }
}

/// The decoder gives up with `error`, leaving `b` in the buffer.
pub open spec fn failed(error: WalReadError, b: Seq<u8>) -> Outcome {
    Outcome { result: Err(error), state: DecoderState::Invalid, rest: b }
}

/// What the decoder does in `state` with the bytes `b` in the buffer.
///
/// It goes on, state by state, as long as the buffer holds what the state
/// asks for: a type byte, a count between 1 and 100, a whole entry with a
/// label in UTF-8, four bytes of index, of length, of checksum.  It stops
/// and waits where the buffer runs out; it emits the frame and returns to
/// `Start` when the declared length is that of type byte and payload and the
/// declared checksum is theirs; it fails on anything else.
pub open spec fn run(state: DecoderState, b: Seq<u8>) -> Outcome
    decreases state.rank(),
{
    let n = b.len() as int;
    match state {
        DecoderState::Invalid => failed(WalReadError::IncompleteRecord, b),
        DecoderState::Start => {
            if n == 0 {
                waiting(state, b)
            } else if b[0] == 0 {
                run(DecoderState::LabelSetReadNumEntries(b.subrange(0, 1)), b.subrange(1, n))
            } else if b[0] == 1 {
                run(DecoderState::CheckpointReadIdentifier(b.subrange(0, 1)), b.subrange(1, n))
            } else {
                failed(WalReadError::UnknownRecordType, b)
            }
        },
        DecoderState::LabelSetReadNumEntries(p) => {
            if n == 0 {
                waiting(state, b)
            } else if b[0] == 0 {
                failed(WalReadError::ZeroLabels, b)
            } else if b[0] > 100 {
                failed(WalReadError::TooManyLabels, b)
            } else {
                run(DecoderState::LabelSetReadEntry(p + b.subrange(0, 1), b[0]), b.subrange(1, n))
            }
        },
        DecoderState::LabelSetReadEntry(p, left) => {
            match split_entry(b).0 {
                Err(WalReadError::IncompleteRecord) => waiting(state, b),
                Err(e) => failed(e, split_entry(b).1),
                Ok(entry) => {
                    if left <= 1 {
                        run(DecoderState::LabelSetReadIdentifier(p + entry), split_entry(b).1)
                    } else {
                        run(
                            DecoderState::LabelSetReadEntry(p + entry, (left - 1) as u8),
                            split_entry(b).1,
                        )
                    }
                },
            }
        },
        DecoderState::LabelSetReadIdentifier(p) => {
            if n < 4 {
                waiting(state, b)
            } else {
                run(DecoderState::ReadRecordLength(p + b.subrange(0, 4)), b.subrange(4, n))
            }
        },
        DecoderState::CheckpointReadIdentifier(p) => {
            if n < 4 {
                waiting(state, b)
            } else {
                run(DecoderState::ReadRecordLength(p + b.subrange(0, 4)), b.subrange(4, n))
            }
        },
        DecoderState::ReadRecordLength(p) => {
            if n < 4 {
                waiting(state, b)
            } else {
                run(DecoderState::ReadRecordChecksum(p, b.subrange(0, 4)), b.subrange(4, n))
            }
        },
        DecoderState::ReadRecordChecksum(p, l) => {
            if n < 4 {
                waiting(state, b)
            } else {
                match trailer_verdict(
                    p.len(),
                    be_value(l),
                    be_value(b.subrange(0, 4)),
                    crc32_ieee(p),
                ) {
                    Err(e) => failed(e, b.subrange(4, n)),
                    Ok(()) => Outcome {
                        result: Ok(Some(p + l + b.subrange(0, 4))),
                        state: DecoderState::Start,
                        rest: b.subrange(4, n),
                    },
                }
            }
        },
    }
}

/// Whether a trailer fits the bytes it follows: the declared length must be
/// the number of bytes, and the declared checksum the computed one.  The
/// length is looked at first.
pub open spec fn trailer_verdict(
    body_len: nat,
    declared_len: u32,
    declared_sum: u32,
    computed_sum: u32,
) -> Result<(), WalReadError> {
    if declared_len != body_len {
        Err(WalReadError::InvalidRecordLength)
    } else if declared_sum != computed_sum {
        Err(WalReadError::CrcFailure)
    } else {
        Ok(())
    }
}

/// Holds a trailer against the bytes it follows, as [`trailer_verdict`]
/// says.
pub fn check_trailer(body_len: usize, declared_len: u32, declared_sum: u32, computed_sum: u32) -> (verdict: Result<(), WalReadError>)
    ensures
        verdict == trailer_verdict(body_len as nat, declared_len, declared_sum, computed_sum),
{
    if declared_len as usize != body_len {
        return Err(WalReadError::InvalidRecordLength);
    }
    if declared_sum != computed_sum {
        return Err(WalReadError::CrcFailure);
    }
    Ok(())
}

/// A reachable state holds less than a whole frame.
pub proof fn lemma_pending_bound(state: DecoderState)
    requires
        state.reachable(),
    ensures
        state.pending().len() <= 6 + 276 * 100 + 4,
{
    match state {
        DecoderState::LabelSetReadEntry(p, n) => {
            lemma_entries_size_bounds(p.subrange(2, p.len() as int), (p[1] - n) as nat);
        },
        DecoderState::LabelSetReadIdentifier(p) => {
            lemma_entries_size_bounds(p.subrange(2, p.len() as int), p[1] as nat);
        },
        DecoderState::ReadRecordLength(p) => {
            crate::storage::directory::wal::lemma_payload_bound(p[0], p.subrange(1, p.len() as int));
        },
        DecoderState::ReadRecordChecksum(p, l) => {
            crate::storage::directory::wal::lemma_payload_bound(p[0], p.subrange(1, p.len() as int));
        },
        _ => {},
    }
}

/// One more whole entry after the entries of `p` makes one more entry of
/// `p`.
proof fn lemma_entries_extend(p: Seq<u8>, k: nat, entry: Seq<u8>)
    requires
        entries_size(p, k) == Ok::<int, WalReadError>(p.len() as int),
        split_entry(entry).0 == Ok::<Seq<u8>, WalReadError>(entry),
    ensures
        entries_size(p + entry, k + 1) == Ok::<int, WalReadError>((p + entry).len() as int),
    decreases k,
{
    if k == 0 {
        assert(p + entry =~= entry);
        assert(split_entry(entry).1 =~= Seq::<u8>::empty());
        assert(entries_size(split_entry(entry).1, 0) == Ok::<int, WalReadError>(0));
    } else {
        let size = entry_size(p);
        let tail = split_entry(p).1;
        lemma_entries_size_bounds(tail, (k - 1) as nat);
        lemma_entries_extend(tail, (k - 1) as nat, entry);
        assert(crate::storage::directory::wal::entry_label(p + entry)
            =~= crate::storage::directory::wal::entry_label(p));
        assert(split_entry(p + entry).1 =~= tail + entry);
    }
}

impl WalFileDecoder {
    /// A decoder that stands between records.
    pub fn new() -> (decoder: Self)
        ensures
            decoder@ == DecoderState::Start,
    {
        WalFileDecoder::Start
    }

    /// Whether the decoder has failed and cannot go on.
    pub fn is_invalid(&self) -> (invalid: bool)
        ensures
            invalid == (self@ is Invalid),
    {
        match self {
            WalFileDecoder::Invalid => true,
            _ => false,
        }
    }

    /// Reads on in the current record with the bytes in `bytes`, as [`run`]
    /// says: the decoder is left in the state, and the buffer with the
    /// bytes, that `run` gives; the result is the frame that `run` emits, or
    /// nothing yet, or its error.  An emitted frame is one that a reader
    /// accepts.  After an error the decoder is invalid.
    pub fn decode(&mut self, bytes: &mut BytesMut) -> (result: Result<
        Option<AnnotatedWalRecord>,
        WalReadError,
    >)
        requires
            old(self)@.reachable(),
        ensures
            final(self)@ == run(old(self)@, contents(*old(bytes))).state,
            contents(*final(bytes)) == run(old(self)@, contents(*old(bytes))).rest,
            match run(old(self)@, contents(*old(bytes))).result {
                Ok(None) => result is Ok && result->Ok_0 is None,
                Ok(Some(frame)) => {
                    &&& result is Ok
                    &&& result->Ok_0 is Some
                    &&& result->Ok_0->Some_0@ == frame
                    &&& is_frame(frame)
                },
                Err(e) => result == Err::<Option<AnnotatedWalRecord>, WalReadError>(e),
            },
            final(self)@.reachable() || (final(self)@ is Invalid && result is Err),
    {
        let ghost goal = run(self@, contents(*bytes));
        let mut state = WalFileDecoder::Invalid;
        std::mem::swap(&mut state, self);
        let mut result: Result<Option<AnnotatedWalRecord>, WalReadError> = Ok(None);
        let mut done = false;
        while !done
            invariant
                !done ==> state@.reachable() && run(state@, contents(*bytes)) == goal && result
                    is Ok && result->Ok_0 is None,
                done ==> state@ == goal.state && contents(*bytes) == goal.rest,
                done ==> match goal.result {
                    Ok(None) => result is Ok && result->Ok_0 is None,
                    Ok(Some(frame)) => {
                        &&& result is Ok
                        &&& result->Ok_0 is Some
                        &&& result->Ok_0->Some_0@ == frame
                        &&& is_frame(frame)
                    },
                    Err(e) => result == Err::<Option<AnnotatedWalRecord>, WalReadError>(e),
                },
                done ==> state@.reachable() || (state@ is Invalid && result is Err),
            decreases
                    (if done {
                        0
                    } else {
                        state@.rank() + 1
                    }),
        {
            proof {
                lemma_pending_bound(state@);
            }
            let len = buffer_len(bytes);
            match state {
                WalFileDecoder::Invalid => {
                    state = WalFileDecoder::Invalid;
                    done = true;
                },
                WalFileDecoder::Start => {
                    if len == 0 {
                        state = WalFileDecoder::Start;
                        done = true;
                    } else {
                        let tp = buffer_slice(bytes)[0];
                        if tp == 0 {
                            state = WalFileDecoder::LabelSetReadNumEntries(
                                buffer_split_to(bytes, 1),
                            );
                            assert(state@.pending() =~= seq![0u8]);
                        } else if tp == 1 {
                            state = WalFileDecoder::CheckpointReadIdentifier(
                                buffer_split_to(bytes, 1),
                            );
                            assert(state@.pending() =~= seq![1u8]);
                        } else {
                            state = WalFileDecoder::Invalid;
                            result = Err(WalReadError::UnknownRecordType);
                            done = true;
                        }
                    }
                },
                WalFileDecoder::LabelSetReadNumEntries(mut tp) => {
                    if len == 0 {
                        state = WalFileDecoder::LabelSetReadNumEntries(tp);
                        done = true;
                    } else {
                        let count = buffer_slice(bytes)[0];
                        if count == 0 {
                            state = WalFileDecoder::Invalid;
                            result = Err(WalReadError::ZeroLabels);
                            done = true;
                        } else if count > 100 {
                            state = WalFileDecoder::Invalid;
                            result = Err(WalReadError::TooManyLabels);
                            done = true;
                        } else {
                            buffer_unsplit(&mut tp, buffer_split_to(bytes, 1));
                            proof {
                                let p = contents(tp);
                                assert(p.subrange(2, p.len() as int) =~= Seq::<u8>::empty());
                            }
                            state = WalFileDecoder::LabelSetReadEntry(tp, count);
                        }
                    }
                },
                WalFileDecoder::LabelSetReadEntry(mut read_so_far, num_entries) => {
                    let ghost before = contents(read_so_far);
                    let ghost buffer = contents(*bytes);
                    match LabelSetEntry::try_split_from_bytes(bytes) {
                        Ok(entry) => {
                            buffer_unsplit(&mut read_so_far, entry.into_data());
                            proof {
                                let p = contents(read_so_far);
                                let taken = before.subrange(2, before.len() as int);
                                assert(p.subrange(2, p.len() as int) =~= taken + entry@);
                                assert(crate::storage::directory::wal::entry_label(entry@)
                                    =~= crate::storage::directory::wal::entry_label(buffer));
                                assert(split_entry(entry@).0 == Ok::<Seq<u8>, WalReadError>(
                                    entry@,
                                )) by {
                                    assert(entry@.subrange(0, entry_size(entry@)) =~= entry@);
                                }
                                lemma_entries_extend(
                                    taken,
                                    (before[1] - num_entries) as nat,
                                    entry@,
                                );
                            }
                            if num_entries <= 1 {
                                state = WalFileDecoder::LabelSetReadIdentifier(read_so_far);
                            } else {
                                state = WalFileDecoder::LabelSetReadEntry(
                                    read_so_far,
                                    num_entries - 1,
                                );
                            }
                        },
                        Err(WalReadError::IncompleteRecord) => {
                            state = WalFileDecoder::LabelSetReadEntry(read_so_far, num_entries);
                            done = true;
                        },
                        Err(e) => {
                            state = WalFileDecoder::Invalid;
                            result = Err(e);
                            done = true;
                        },
                    }
                },
                WalFileDecoder::LabelSetReadIdentifier(mut read_so_far) => {
                    if len < 4 {
                        state = WalFileDecoder::LabelSetReadIdentifier(read_so_far);
                        done = true;
                    } else {
                        let ghost before = contents(read_so_far);
                        buffer_unsplit(&mut read_so_far, buffer_split_to(bytes, 4));
                        proof {
                            let p = contents(read_so_far);
                            let payload = p.subrange(1, p.len() as int);
                            let entries = before.subrange(2, before.len() as int);
                            assert(payload.subrange(1, payload.len() as int) =~= entries
                                + p.subrange(p.len() - 4, p.len() as int));
                            crate::storage::directory::wal::lemma_entries_size_prefix(
                                entries,
                                p.subrange(p.len() - 4, p.len() as int),
                                before[1] as nat,
                            );
                        }
                        state = WalFileDecoder::ReadRecordLength(read_so_far);
                    }
                },
                WalFileDecoder::CheckpointReadIdentifier(mut read_so_far) => {
                    if len < 4 {
                        state = WalFileDecoder::CheckpointReadIdentifier(read_so_far);
                        done = true;
                    } else {
                        buffer_unsplit(&mut read_so_far, buffer_split_to(bytes, 4));
                        state = WalFileDecoder::ReadRecordLength(read_so_far);
                    }
                },
                WalFileDecoder::ReadRecordLength(record_bytes) => {
                    if len < 4 {
                        state = WalFileDecoder::ReadRecordLength(record_bytes);
                        done = true;
                    } else {
                        let record_length_bytes = buffer_split_to(bytes, 4);
                        state = WalFileDecoder::ReadRecordChecksum(
                            record_bytes,
                            record_length_bytes,
                        );
                    }
                },
                WalFileDecoder::ReadRecordChecksum(record_bytes, record_length_bytes) => {
                    if len < 4 {
                        state = WalFileDecoder::ReadRecordChecksum(
                            record_bytes,
                            record_length_bytes,
                        );
                        done = true;
                    } else {
                        let record_checksum_bytes = buffer_split_to(bytes, 4);
                        let record_length = read_u32_be(buffer_slice(&record_length_bytes));
                        let record_checksum = read_u32_be(buffer_slice(&record_checksum_bytes));
                        let computed_checksum = checksum_ieee(buffer_slice(&record_bytes));
                        proof {
                            assert(contents(record_checksum_bytes).subrange(0, 4) =~= contents(
                                record_checksum_bytes,
                            ));
                            assert(contents(record_length_bytes).subrange(0, 4) =~= contents(
                                record_length_bytes,
                            ));
                        }
                        match check_trailer(
                            buffer_len(&record_bytes),
                            record_length,
                            record_checksum,
                            computed_checksum,
                        ) {
                            Err(e) => {
                                state = WalFileDecoder::Invalid;
                                result = Err(e);
                            },
                            Ok(()) => {
                                let mut data = record_bytes;
                                buffer_unsplit(&mut data, record_length_bytes);
                                buffer_unsplit(&mut data, record_checksum_bytes);
                                proof {
                                    let f = contents(data);
                                    let p = contents(record_bytes);
                                    assert(crate::storage::directory::wal::frame_payload(f)
                                        =~= p.subrange(1, p.len() as int));
                                    assert(crate::storage::directory::wal::frame_body(f) =~= p);
                                    assert(f.subrange(f.len() - 8, f.len() - 4) =~= contents(
                                        record_length_bytes,
                                    ));
                                    assert(f.subrange(f.len() - 4, f.len() as int) =~= contents(
                                        record_checksum_bytes,
                                    ));
                                }
                                state = WalFileDecoder::Start;
                                result = Ok(Some(AnnotatedWalRecord::from_bytes_unchecked(data)));
                            },
                        }
                        done = true;
                    }
                },
            }
        }
        std::mem::swap(&mut state, self);
        result
    }
}

/// The encoder of the log: a frame goes out as it stands.
pub struct WalFileEncoder;

impl WalFileEncoder {
    /// Appends the frame of `record` to `bytes`.
    pub fn encode(&mut self, record: AnnotatedWalRecord, bytes: &mut BytesMut)
        requires
            contents(*old(bytes)).len() + record@.len() <= usize::MAX,
        ensures
            contents(*final(bytes)) == contents(*old(bytes)) + record@,
    {
        buffer_unsplit(bytes, record.into_data());
    }
}

// ---------------------------------------------------------------------------
// What holds of every run
// ---------------------------------------------------------------------------

/// What `outcome` becomes when the bytes `more` arrive behind the buffer
/// after the run is over.
pub open spec fn with_more(outcome: Outcome, more: Seq<u8>) -> Outcome {
    Outcome { result: outcome.result, state: outcome.state, rest: outcome.rest + more }
}

/// An entry that is whole in `a` is the same entry in `a + c`.
proof fn lemma_split_entry_extend(a: Seq<u8>, c: Seq<u8>)
    requires
        split_entry(a).0 != Err::<Seq<u8>, WalReadError>(WalReadError::IncompleteRecord),
    ensures
        split_entry(a + c).0 == split_entry(a).0,
        split_entry(a + c).1 == split_entry(a).1 + c,
{
    let size = entry_size(a);
    assert(entry_label(a + c) =~= entry_label(a));
    assert((a + c).subrange(0, size) =~= a.subrange(0, size));
    assert((a + c).subrange(size, (a + c).len() as int) =~= a.subrange(size, a.len() as int) + c);
}

/// Bytes may arrive in pieces.  Whatever the decoder does with `a + c` at
/// once, it does with `a` first and `c` later: where it waits after `a`, it
/// goes on from there when `c` arrives behind what it left in the buffer;
/// where it emits or fails on `a`, `c` is not touched.
pub proof fn lemma_run_in_pieces(state: DecoderState, a: Seq<u8>, c: Seq<u8>)
    ensures
        run(state, a).result == Ok::<Option<Seq<u8>>, WalReadError>(None) ==> run(state, a + c)
            == run(run(state, a).state, run(state, a).rest + c),
        run(state, a).result != Ok::<Option<Seq<u8>>, WalReadError>(None) ==> run(state, a + c)
            == with_more(run(state, a), c),
    decreases state.rank(),
{
    let n = a.len() as int;
    let ac = a + c;
    let m = ac.len() as int;
    match state {
        DecoderState::Invalid => {},
        DecoderState::Start => {
            if n > 0 && a[0] <= 1 {
                assert(ac.subrange(0, 1) =~= a.subrange(0, 1));
                assert(ac.subrange(1, m) =~= a.subrange(1, n) + c);
                if a[0] == 0 {
                    lemma_run_in_pieces(
                        DecoderState::LabelSetReadNumEntries(a.subrange(0, 1)),
                        a.subrange(1, n),
                        c,
                    );
                } else {
                    lemma_run_in_pieces(
                        DecoderState::CheckpointReadIdentifier(a.subrange(0, 1)),
                        a.subrange(1, n),
                        c,
                    );
                }
            }
        },
        DecoderState::LabelSetReadNumEntries(p) => {
            if n > 0 && 1 <= a[0] <= 100 {
                assert(ac.subrange(0, 1) =~= a.subrange(0, 1));
                assert(ac.subrange(1, m) =~= a.subrange(1, n) + c);
                lemma_run_in_pieces(
                    DecoderState::LabelSetReadEntry(p + a.subrange(0, 1), a[0]),
                    a.subrange(1, n),
                    c,
                );
            }
        },
        DecoderState::LabelSetReadEntry(p, left) => {
            if split_entry(a).0 != Err::<Seq<u8>, WalReadError>(WalReadError::IncompleteRecord) {
                lemma_split_entry_extend(a, c);
                if let Ok(entry) = split_entry(a).0 {
                    if left <= 1 {
                        lemma_run_in_pieces(
                            DecoderState::LabelSetReadIdentifier(p + entry),
                            split_entry(a).1,
                            c,
                        );
                    } else {
                        lemma_run_in_pieces(
                            DecoderState::LabelSetReadEntry(p + entry, (left - 1) as u8),
                            split_entry(a).1,
                            c,
                        );
                    }
                }
            }
        },
        DecoderState::LabelSetReadIdentifier(p) => {
            if n >= 4 {
                assert(ac.subrange(0, 4) =~= a.subrange(0, 4));
                assert(ac.subrange(4, m) =~= a.subrange(4, n) + c);
                lemma_run_in_pieces(
                    DecoderState::ReadRecordLength(p + a.subrange(0, 4)),
                    a.subrange(4, n),
                    c,
                );
            }
        },
        DecoderState::CheckpointReadIdentifier(p) => {
            if n >= 4 {
                assert(ac.subrange(0, 4) =~= a.subrange(0, 4));
                assert(ac.subrange(4, m) =~= a.subrange(4, n) + c);
                lemma_run_in_pieces(
                    DecoderState::ReadRecordLength(p + a.subrange(0, 4)),
                    a.subrange(4, n),
                    c,
                );
            }
        },
        DecoderState::ReadRecordLength(p) => {
            if n >= 4 {
                assert(ac.subrange(0, 4) =~= a.subrange(0, 4));
                assert(ac.subrange(4, m) =~= a.subrange(4, n) + c);
                lemma_run_in_pieces(
                    DecoderState::ReadRecordChecksum(p, a.subrange(0, 4)),
                    a.subrange(4, n),
                    c,
                );
            }
        },
        DecoderState::ReadRecordChecksum(p, l) => {
            if n >= 4 {
                assert(ac.subrange(0, 4) =~= a.subrange(0, 4));
                assert(ac.subrange(4, m) =~= a.subrange(4, n) + c);
            }
        },
    }
}

/// The bytes that `outcome` accounts for outside the buffer: those of the
/// frame it emits, or those that the decoder holds while it waits.
pub open spec fn taken(outcome: Outcome) -> Seq<u8> {
    match outcome.result {
        Ok(Some(frame)) => frame,
        _ => outcome.state.pending(),
    }
}

/// Unless the decoder fails, no byte is lost: what it emits or holds and
/// what it leaves in the buffer are, together, what it held and what it was
/// given.
pub proof fn lemma_run_keeps_bytes(state: DecoderState, b: Seq<u8>)
    requires
        run(state, b).result is Ok,
    ensures
        taken(run(state, b)) + run(state, b).rest == state.pending() + b,
    decreases state.rank(),
{
    let n = b.len() as int;
    match state {
        DecoderState::Invalid => {},
        DecoderState::Start => {
            if n > 0 {
                let next = if b[0] == 0 {
                    DecoderState::LabelSetReadNumEntries(b.subrange(0, 1))
                } else {
                    DecoderState::CheckpointReadIdentifier(b.subrange(0, 1))
                };
                lemma_run_keeps_bytes(next, b.subrange(1, n));
                assert(next.pending() + b.subrange(1, n) =~= state.pending() + b);
            }
        },
        DecoderState::LabelSetReadNumEntries(p) => {
            if n > 0 {
                let next = DecoderState::LabelSetReadEntry(p + b.subrange(0, 1), b[0]);
                lemma_run_keeps_bytes(next, b.subrange(1, n));
                assert(next.pending() + b.subrange(1, n) =~= state.pending() + b);
            }
        },
        DecoderState::LabelSetReadEntry(p, left) => {
            if let Ok(entry) = split_entry(b).0 {
                let next = if left <= 1 {
                    DecoderState::LabelSetReadIdentifier(p + entry)
                } else {
                    DecoderState::LabelSetReadEntry(p + entry, (left - 1) as u8)
                };
                lemma_run_keeps_bytes(next, split_entry(b).1);
                assert(next.pending() + split_entry(b).1 =~= state.pending() + b);
            }
        },
        DecoderState::LabelSetReadIdentifier(p) => {
            if n >= 4 {
                let next = DecoderState::ReadRecordLength(p + b.subrange(0, 4));
                lemma_run_keeps_bytes(next, b.subrange(4, n));
                assert(next.pending() + b.subrange(4, n) =~= state.pending() + b);
            }
        },
        DecoderState::CheckpointReadIdentifier(p) => {
            if n >= 4 {
                let next = DecoderState::ReadRecordLength(p + b.subrange(0, 4));
                lemma_run_keeps_bytes(next, b.subrange(4, n));
                assert(next.pending() + b.subrange(4, n) =~= state.pending() + b);
            }
        },
        DecoderState::ReadRecordLength(p) => {
            if n >= 4 {
                let next = DecoderState::ReadRecordChecksum(p, b.subrange(0, 4));
                lemma_run_keeps_bytes(next, b.subrange(4, n));
                assert(next.pending() + b.subrange(4, n) =~= state.pending() + b);
            }
        },
        DecoderState::ReadRecordChecksum(p, l) => {
            if n >= 4 {
                assert(p + l + b.subrange(0, 4) + b.subrange(4, n) =~= p + l + b);
            }
        },
    }
}

/// With the entries that are still to come whole in the buffer, the decoder
/// reads them all.
proof fn lemma_run_entries(p: Seq<u8>, left: u8, b: Seq<u8>)
    requires
        left >= 1,
        entries_size(b, left as nat) is Ok,
    ensures
        run(DecoderState::LabelSetReadEntry(p, left), b) == run(
            DecoderState::LabelSetReadIdentifier(p + b.subrange(0, entries_size(b, left as nat)->Ok_0)),
            b.subrange(entries_size(b, left as nat)->Ok_0, b.len() as int),
        ),
    decreases left,
{
    let k = entries_size(b, left as nat)->Ok_0;
    let size = entry_size(b);
    let entry = b.subrange(0, size);
    let tail = split_entry(b).1;
    lemma_entries_size_bounds(tail, (left - 1) as nat);
    if left <= 1 {
        assert(entries_size(tail, 0) == Ok::<int, WalReadError>(0));
        assert(k == size);
    } else {
        lemma_run_entries(p + entry, (left - 1) as u8, tail);
        let k2 = entries_size(tail, (left - 1) as nat)->Ok_0;
        assert(p + entry + tail.subrange(0, k2) =~= p + b.subrange(0, k));
        assert(tail.subrange(k2, tail.len() as int) =~= b.subrange(k, b.len() as int));
    }
}

/// With the trailer that belongs to `body` in the buffer, the decoder emits
/// the frame.
proof fn lemma_run_trailer(body: Seq<u8>, rest: Seq<u8>)
    requires
        1 <= body.len() < 0x1_0000_0000,
    ensures
        run(
            DecoderState::ReadRecordLength(body),
            crate::endian::be_bytes(body.len() as u32) + crate::endian::be_bytes(crc32_ieee(body))
                + rest,
        ) == (Outcome {
            result: Ok(
                Some(
                    body + crate::endian::be_bytes(body.len() as u32) + crate::endian::be_bytes(
                        crc32_ieee(body),
                    ),
                ),
            ),
            state: DecoderState::Start,
            rest,
        }),
{
    let len_bytes = crate::endian::be_bytes(body.len() as u32);
    let sum_bytes = crate::endian::be_bytes(crc32_ieee(body));
    crate::endian::lemma_be_value_of_bytes(body.len() as u32);
    crate::endian::lemma_be_value_of_bytes(crc32_ieee(body));
    let b = len_bytes + sum_bytes + rest;
    let b_sum = b.subrange(4, b.len() as int);
    assert(b.subrange(0, 4) =~= len_bytes);
    assert(b_sum =~= sum_bytes + rest);
    assert(b_sum.subrange(0, 4) =~= sum_bytes);
    assert(b_sum.subrange(4, b_sum.len() as int) =~= rest);
    let at_sum = DecoderState::ReadRecordChecksum(body, len_bytes);
    assert(run(DecoderState::ReadRecordLength(body), b) == run(at_sum, b_sum));
    assert(trailer_verdict(body.len(), be_value(len_bytes), be_value(sum_bytes), crc32_ieee(body))
        == Ok::<(), WalReadError>(()));
}

/// With a label set and what follows it in the buffer, the decoder reads
/// the label set and stands before its trailer.
proof fn lemma_run_label_set(payload: Seq<u8>, rest: Seq<u8>)
    requires
        is_payload(0, payload),
    ensures
        run(DecoderState::Start, body_bytes(0, payload) + rest) == run(
            DecoderState::ReadRecordLength(body_bytes(0, payload)),
            rest,
        ),
{
    let body = body_bytes(0, payload);
    let b = body + rest;
    let n = b.len() as int;
    let count = payload[0];
    let entries = payload.subrange(1, payload.len() as int);
    let k = entries_size(entries, count as nat)->Ok_0;
    lemma_entries_size_bounds(entries, count as nat);
    let index = payload.subrange(1 + k, payload.len() as int);
    let first = b.subrange(0, 1);
    let b1 = b.subrange(1, n);
    let at_count = DecoderState::LabelSetReadNumEntries(first);
    assert(run(DecoderState::Start, b) == run(at_count, b1));
    let head = first + b1.subrange(0, 1);
    let b2 = b1.subrange(1, b1.len() as int);
    let at_entries = DecoderState::LabelSetReadEntry(head, count);
    assert(b1[0] == count);
    assert(run(at_count, b1) == run(at_entries, b2));
    assert(b2 =~= entries + rest);
    crate::storage::directory::wal::lemma_entries_size_prefix(entries, rest, count as nat);
    lemma_run_entries(head, count, b2);
    let at_index = DecoderState::LabelSetReadIdentifier(head + b2.subrange(0, k));
    let b3 = b2.subrange(k, b2.len() as int);
    assert(run(at_entries, b2) == run(at_index, b3));
    assert(b3.len() >= 4);
    assert(head + b2.subrange(0, k) + b3.subrange(0, 4) =~= body);
    assert(b3.subrange(4, b3.len() as int) =~= rest);
    assert(run(at_index, b3) == run(DecoderState::ReadRecordLength(body), rest));
}

/// With a checkpoint and what follows it in the buffer, the decoder reads
/// the checkpoint and stands before its trailer.
proof fn lemma_run_checkpoint(payload: Seq<u8>, rest: Seq<u8>)
    requires
        is_payload(1, payload),
    ensures
        run(DecoderState::Start, body_bytes(1, payload) + rest) == run(
            DecoderState::ReadRecordLength(body_bytes(1, payload)),
            rest,
        ),
{
    let body = body_bytes(1, payload);
    let b = body + rest;
    let first = b.subrange(0, 1);
    let b1 = b.subrange(1, b.len() as int);
    let at_index = DecoderState::CheckpointReadIdentifier(first);
    assert(run(DecoderState::Start, b) == run(at_index, b1));
    assert(first + b1.subrange(0, 4) =~= body);
    assert(b1.subrange(4, b1.len() as int) =~= rest);
    assert(run(at_index, b1) == run(DecoderState::ReadRecordLength(body), rest));
}

/// Reading gives back what was written: from between records, the decoder
/// emits the frame that starts the buffer, returns to between records and
/// leaves what follows the frame.
pub proof fn lemma_run_frame(tp: u8, payload: Seq<u8>, rest: Seq<u8>)
    requires
        is_payload(tp, payload),
    ensures
        run(DecoderState::Start, frame_bytes(tp, payload) + rest) == (Outcome {
            result: Ok(Some(frame_bytes(tp, payload))),
            state: DecoderState::Start,
            rest,
        }),
{
    let body = body_bytes(tp, payload);
    let trailer = crate::endian::be_bytes(body.len() as u32) + crate::endian::be_bytes(
        crc32_ieee(body),
    );
    lemma_payload_bound(tp, payload);
    assert(frame_bytes(tp, payload) + rest =~= body + (trailer + rest));
    assert(trailer + rest =~= crate::endian::be_bytes(body.len() as u32)
        + crate::endian::be_bytes(crc32_ieee(body)) + rest);
    if tp == 0 {
        lemma_run_label_set(payload, trailer + rest);
    } else {
        lemma_run_checkpoint(payload, trailer + rest);
    }
    lemma_run_trailer(body, rest);
}

/// A frame cut short is no error: given any proper beginning of a frame, the
/// decoder waits for the rest.
pub proof fn lemma_run_torn(tp: u8, payload: Seq<u8>, cut: int)
    requires
        is_payload(tp, payload),
        0 <= cut < frame_bytes(tp, payload).len(),
    ensures
        run(DecoderState::Start, frame_bytes(tp, payload).subrange(0, cut)).result == Ok::<
            Option<Seq<u8>>,
            WalReadError,
        >(None),
{
    let frame = frame_bytes(tp, payload);
    let a = frame.subrange(0, cut);
    let c = frame.subrange(cut, frame.len() as int);
    assert(a + c =~= frame);
    assert(frame + Seq::<u8>::empty() =~= frame);
    lemma_run_frame(tp, payload, Seq::empty());
    lemma_run_in_pieces(DecoderState::Start, a, c);
    if run(DecoderState::Start, a).result != Ok::<Option<Seq<u8>>, WalReadError>(None) {
        assert((run(DecoderState::Start, a).rest + c).len() > 0);
    }
}

} // verus!
