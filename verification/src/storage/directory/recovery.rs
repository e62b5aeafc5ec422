//! Reading a whole log, stepping back through it, and recovery.
//!
//! After a crash the log may end in a record that was only partly written,
//! and may hold label sets that never reached the label files.  Recovery
//! reads the log from its start, keeps every whole record, finds the label
//! sets that no checkpoint acknowledges, and says which labels have to move
//! where.  Moving them is a versioned update against the label as it stands,
//! so doing it twice changes nothing the second time.

use crate::buffer::{buffer_from, buffer_len, contents};
use crate::endian::{be_value, read_u32_be};
use crate::storage::directory::decoder::{
    lemma_run_in_pieces, lemma_run_keeps_bytes, run, DecoderState, WalFileDecoder,
};
use crate::storage::directory::wal::{
    entry_label, entry_layer, frame_payload, is_frame, label_set_entries, record_index,
    AnnotatedWalRecord, LabelSetEntry, WalReadError, WalRecord,
};
use crate::storage::label::{compare_and_set, write_label, Label, LabelModel, LabelWrite};
use crate::text::same_bytes;
use vstd::prelude::*;
use vstd::slice::slice_subrange;
use vstd::string::StringSliceAdditionalSpecFns;
use vstd::utf8::encode_utf8;

verus! {

// ---------------------------------------------------------------------------
// Stepping back
// ---------------------------------------------------------------------------

/// What stepping back one record from a position asks for first.
#[derive(Clone, Copy, PartialEq, Eq, Structural, Debug)]
pub enum StepBack {
    /// The position is the start of the log: it stays.
    AtStart,
    /// Fewer than eight bytes come before the position: no record ends
    /// here.
    TooShort,
    /// The length of the record that ends here stands in the four bytes at
    /// this position.
    ReadLengthAt(u64),
}

/// Where the record that ends at `pos` starts, given the length `len` that
/// its trailer declares; or no position, where the record would start
/// before the log does.
pub open spec fn record_start(pos: nat, len: nat) -> Result<nat, WalReadError> {
    if pos < len + 8 {
        Err(WalReadError::IncompleteRecord)
    } else {
        Ok((pos - len - 8) as nat)
    }
}

/// Where stepping back one record from `pos` in `log` leads: the start of
/// the log stays; otherwise the length is read from the trailer that ends at
/// `pos`, and the step goes back over trailer and record.
pub open spec fn previous_start(log: Seq<u8>, pos: nat) -> Result<nat, WalReadError>
    recommends
        pos <= log.len(),
{
    if pos == 0 {
        Ok(0nat)
    } else if pos < 8 {
        Err(WalReadError::IncompleteRecord)
    } else {
        record_start(pos, be_value(log.subrange(pos - 8, pos - 4)) as nat)
    }
}

/// The first step back from `pos`: stay, fail, or read the declared length.
pub fn step_back(pos: u64) -> (step: StepBack)
    ensures
        pos == 0 ==> step == StepBack::AtStart,
        0 < pos < 8 ==> step == StepBack::TooShort,
        pos >= 8 ==> step == StepBack::ReadLengthAt((pos - 8) as u64),
{
    if pos == 0 {
        StepBack::AtStart
    } else if pos < 8 {
        StepBack::TooShort
    } else {
        StepBack::ReadLengthAt(pos - 8)
    }
}

/// The second step back from `pos`, with the declared length read: as
/// [`record_start`] says.
pub fn step_back_over(pos: u64, len: u32) -> (start: Result<u64, WalReadError>)
    ensures
        match record_start(pos as nat, len as nat) {
            Ok(p) => start == Ok::<u64, WalReadError>(p as u64),
            Err(e) => start == Err::<u64, WalReadError>(e),
        },
{
    let len = len as u64;
    if pos < len + 8 {
        Err(WalReadError::IncompleteRecord)
    } else {
        Ok(pos - len - 8)
    }
}

/// Steps back one record from `pos` in the log `log`, as [`previous_start`]
/// says.
pub fn seek_previous(log: &[u8], pos: usize) -> (start: Result<usize, WalReadError>)
    requires
        pos <= log@.len(),
    ensures
        match previous_start(log@, pos as nat) {
            Ok(p) => start == Ok::<usize, WalReadError>(p as usize),
            Err(e) => start == Err::<usize, WalReadError>(e),
        },
{
    match step_back(pos as u64) {
        StepBack::AtStart => Ok(0),
        StepBack::TooShort => Err(WalReadError::IncompleteRecord),
        StepBack::ReadLengthAt(at) => {
            let at = at as usize;
            let len = read_u32_be(slice_subrange(log, at, at + 4));
            match step_back_over(pos as u64, len) {
                Ok(p) => Ok(p as usize),
                Err(e) => Err(e),
            }
        },
    }
}

/// Stepping back from the end of a frame leads to its start.
pub proof fn lemma_step_back_over_frame(before: Seq<u8>, frame: Seq<u8>, after: Seq<u8>)
    requires
        is_frame(frame),
    ensures
        previous_start(before + frame + after, before.len() + frame.len()) == Ok::<
            nat,
            WalReadError,
        >(before.len()),
{
    let log = before + frame + after;
    let pos = before.len() + frame.len();
    assert(log.subrange(pos - 8, pos - 4) =~= frame.subrange(frame.len() - 8, frame.len() - 4));
}

// ---------------------------------------------------------------------------
// Reading a whole log
// ---------------------------------------------------------------------------

/// How a log ends.
#[derive(Clone, Copy, PartialEq, Eq, Structural, Debug)]
pub enum LogEnd {
    /// With the end of a record.
    Clean,
    /// In the middle of a record.
    Torn,
    /// In bytes that are no record.
    Corrupt(WalReadError),
}

/// The frames that stand whole at the start of `log`, one after another.
pub open spec fn frames_of(log: Seq<u8>) -> Seq<Seq<u8>>
    decreases log.len(),
{
    let first = run(DecoderState::Start, log);
    match first.result {
        Ok(Some(frame)) => if first.rest.len() < log.len() {
            seq![frame] + frames_of(first.rest)
        } else {
            Seq::empty()
        },
        _ => Seq::empty(),
    }
}

/// What follows the whole frames at the start of `log`.
pub open spec fn tail_of(log: Seq<u8>) -> Seq<u8>
    decreases log.len(),
{
    let first = run(DecoderState::Start, log);
    match first.result {
        Ok(Some(frame)) => if first.rest.len() < log.len() {
            tail_of(first.rest)
        } else {
            log
        },
        _ => log,
    }
}

/// How `log` ends: cleanly where nothing follows its whole frames, torn
/// where what follows is the beginning of a record, corrupt otherwise.
pub open spec fn end_of(log: Seq<u8>) -> LogEnd {
    if tail_of(log).len() == 0 {
        LogEnd::Clean
    } else {
        match run(DecoderState::Start, tail_of(log)).result {
            Err(e) => LogEnd::Corrupt(e),
            _ => LogEnd::Torn,
        }
    }
}

/// A log as it was read: its whole records, how many bytes they take, and
/// how the log ends after them.
pub struct ScannedLog {
    pub records: Vec<AnnotatedWalRecord>,
    pub valid_len: usize,
    pub end: LogEnd,
}

/// The tail of a log is what is left of it, and is itself without a whole
/// frame at its start.
pub proof fn lemma_tail_of(log: Seq<u8>)
    ensures
        tail_of(log).len() <= log.len(),
        tail_of(log) == log.subrange(log.len() - tail_of(log).len(), log.len() as int),
        frames_of(tail_of(log)).len() == 0,
        tail_of(tail_of(log)) == tail_of(log),
    decreases log.len(),
{
    let first = run(DecoderState::Start, log);
    if let Ok(Some(frame)) = first.result {
        if first.rest.len() < log.len() {
            lemma_run_keeps_bytes(DecoderState::Start, log);
            lemma_tail_of(first.rest);
            assert(frame + first.rest =~= log);
            let t = tail_of(first.rest);
            assert(t =~= log.subrange(log.len() - t.len(), log.len() as int));
            return ;
        }
    }
    assert(log =~= log.subrange(0, log.len() as int));
}

/// Reads the log `log` from its start: every whole record in order, the
/// number of bytes they take together, and how the log ends after them.
/// Every record read is one that a reader accepts.
pub fn scan_log(log: &[u8]) -> (scanned: ScannedLog)
    ensures
        scanned.records@.map_values(|r: AnnotatedWalRecord| r@) == frames_of(log@),
        forall|i: int| 0 <= i < scanned.records.len() ==> is_frame(#[trigger] scanned.records[i]@),
        scanned.valid_len == log@.len() - tail_of(log@).len(),
        scanned.end == end_of(log@),
{
    let total = log.len();
    let mut buf = buffer_from(log);
    let mut records: Vec<AnnotatedWalRecord> = Vec::new();
    let mut end = LogEnd::Clean;
    let mut left = total;
    let mut done = false;
    while !done
        invariant
            total == log@.len(),
            !done ==> left == contents(buf).len(),
            left <= total,
            forall|i: int| 0 <= i < records.len() ==> is_frame(#[trigger] records[i]@),
            !done ==> frames_of(log@) == records@.map_values(|r: AnnotatedWalRecord| r@)
                + frames_of(contents(buf)),
            !done ==> tail_of(log@) == tail_of(contents(buf)),
            done ==> frames_of(log@) == records@.map_values(|r: AnnotatedWalRecord| r@),
            done ==> tail_of(log@).len() == left,
            done ==> end == end_of(log@),
        decreases
                (if done {
                    0
                } else {
                    left + 1
                }),
    {
        let ghost before = contents(buf);
        let ghost seen = records@.map_values(|r: AnnotatedWalRecord| r@);
        let mut decoder = WalFileDecoder::new();
        proof {
            lemma_tail_of(before);
        }
        match decoder.decode(&mut buf) {
            Ok(Some(record)) => {
                proof {
                    lemma_run_keeps_bytes(DecoderState::Start, before);
                    assert((record@ + contents(buf)).len() == before.len());
                }
                left = buffer_len(&buf);
                records.push(record);
                proof {
                    let now = records@.map_values(|r: AnnotatedWalRecord| r@);
                    assert(now =~= seen.push(record@));
                    assert(seen + (seq![record@] + frames_of(contents(buf))) =~= now + frames_of(
                        contents(buf),
                    ));
                }
            },
            Ok(None) => {
                proof {
                    assert(frames_of(before) =~= Seq::<Seq<u8>>::empty());
                    assert(seen + frames_of(before) =~= seen);
                    assert(tail_of(before) == before);
                }
                end = if left == 0 {
                    LogEnd::Clean
                } else {
                    LogEnd::Torn
                };
                done = true;
            },
            Err(e) => {
                proof {
                    assert(frames_of(before) =~= Seq::<Seq<u8>>::empty());
                    assert(seen + frames_of(before) =~= seen);
                    assert(tail_of(before) == before);
                    assert(before.len() > 0);
                }
                end = LogEnd::Corrupt(e);
                done = true;
            },
        }
    }
    ScannedLog { records, valid_len: total - left, end }
}

/// A log cut short anywhere within its whole frames still opens: the frames
/// that lie before the cut are read as they were, in order, and what is left
/// after them is the beginning of a record, never a fault.
pub proof fn lemma_cut_log_opens(log: Seq<u8>, cut: int)
    requires
        0 <= cut <= log.len() - tail_of(log).len(),
    ensures
        frames_of(log.subrange(0, cut)).len() <= frames_of(log).len(),
        frames_of(log.subrange(0, cut)) == frames_of(log).take(
            frames_of(log.subrange(0, cut)).len() as int,
        ),
        end_of(log.subrange(0, cut)) == LogEnd::Clean || end_of(log.subrange(0, cut))
            == LogEnd::Torn,
    decreases log.len(),
{
    let a = log.subrange(0, cut);
    let c = log.subrange(cut, log.len() as int);
    assert(a + c =~= log);
    lemma_tail_of(log);
    lemma_tail_of(a);
    lemma_run_in_pieces(DecoderState::Start, a, c);
    let whole = run(DecoderState::Start, log);
    let part = run(DecoderState::Start, a);
    match part.result {
        Ok(Some(frame)) => {
            lemma_run_keeps_bytes(DecoderState::Start, a);
            if part.rest.len() < a.len() {
                assert(whole.rest.len() < log.len());
                let rest = whole.rest;
                let k = part.rest.len() as int;
                assert(rest.subrange(0, k) =~= part.rest);
                lemma_tail_of(rest);
                lemma_cut_log_opens(rest, k);
                let short = frames_of(part.rest);
                assert(frames_of(a) =~= seq![frame] + short);
                assert(frames_of(log) =~= seq![frame] + frames_of(rest));
                assert(frames_of(a) =~= frames_of(log).take(frames_of(a).len() as int));
                assert(tail_of(a) == tail_of(part.rest));
            } else {
                assert(frames_of(a) =~= frames_of(log).take(0));
            }
        },
        Ok(None) => {
            assert(frames_of(a) =~= frames_of(log).take(0));
        },
        Err(e) => {
            assert(tail_of(log) == log);
            assert(cut == 0);
            assert(frames_of(a) =~= frames_of(log).take(0));
        },
    }
}

// ---------------------------------------------------------------------------
// Recovery
// ---------------------------------------------------------------------------

/// The index of the last checkpoint among `frames`, if there is one.
pub open spec fn last_checkpoint(frames: Seq<Seq<u8>>) -> Option<u32>
    decreases frames.len(),
{
    if frames.len() == 0 {
        None
    } else if frames.last()[0] == 1 {
        Some(record_index(frame_payload(frames.last())))
    } else {
        last_checkpoint(frames.drop_last())
    }
}

/// Whether `frame` is a label set that the checkpoint `checkpoint` does not
/// acknowledge: one with an index above it, or any where there is no
/// checkpoint.
pub open spec fn unacknowledged(frame: Seq<u8>, checkpoint: Option<u32>) -> bool {
    &&& frame[0] == 0
    &&& match checkpoint {
        None => true,
        Some(c) => record_index(frame_payload(frame)) > c,
    }
}

/// The entries of the label sets among `frames` that `checkpoint` does not
/// acknowledge, in the order of the log.
pub open spec fn pending_moves(frames: Seq<Seq<u8>>, checkpoint: Option<u32>) -> Seq<Seq<u8>>
    decreases frames.len(),
{
    if frames.len() == 0 {
        Seq::empty()
    } else if unacknowledged(frames.last(), checkpoint) {
        pending_moves(frames.drop_last(), checkpoint) + label_set_entries(
            frame_payload(frames.last()),
        )
    } else {
        pending_moves(frames.drop_last(), checkpoint)
    }
}

/// The index of the last label set among `frames` that `checkpoint` does not
/// acknowledge, if there is one: the index that the next checkpoint
/// carries.
pub open spec fn next_checkpoint(frames: Seq<Seq<u8>>, checkpoint: Option<u32>) -> Option<u32>
    decreases frames.len(),
{
    if frames.len() == 0 {
        None
    } else if unacknowledged(frames.last(), checkpoint) {
        Some(record_index(frame_payload(frames.last())))
    } else {
        next_checkpoint(frames.drop_last(), checkpoint)
    }
}

/// What recovery has to do with a log.
pub struct RecoveryPlan {
    /// The log is cut back to this many bytes: its whole records.
    pub keep: usize,
    /// These moves are applied to the labels, in order.
    pub moves: Vec<LabelSetEntry>,
    /// A checkpoint with this index is then appended, if any move was
    /// pending.
    pub checkpoint: Option<u32>,
    /// How the log ended.
    pub end: LogEnd,
}

/// Plans the recovery of the log `log`: which bytes to keep, which moves the
/// last checkpoint does not acknowledge, and which checkpoint to write once
/// they are applied.
pub fn plan_recovery(log: &[u8]) -> (plan: RecoveryPlan)
    ensures
        plan.keep == log@.len() - tail_of(log@).len(),
        plan.end == end_of(log@),
        plan.moves@.map_values(|e: LabelSetEntry| e@) == pending_moves(
            frames_of(log@),
            last_checkpoint(frames_of(log@)),
        ),
        plan.checkpoint == next_checkpoint(frames_of(log@), last_checkpoint(frames_of(log@))),
{
    let scanned = scan_log(log);
    let ghost frames = frames_of(log@);
    let n = scanned.records.len();
    let mut checkpoint: Option<u32> = None;
    let mut i: usize = n;
    proof {
        assert(frames.take(n as int) =~= frames);
    }
    while i > 0 && checkpoint.is_none()
        invariant
            i <= n,
            n == scanned.records.len(),
            frames == scanned.records@.map_values(|r: AnnotatedWalRecord| r@),
            forall|k: int| 0 <= k < n ==> is_frame(#[trigger] scanned.records[k]@),
            checkpoint is None ==> last_checkpoint(frames) == last_checkpoint(
                frames.take(i as int),
            ),
            checkpoint is Some ==> checkpoint == last_checkpoint(frames),
        decreases i,
    {
        i -= 1;
        let record = &scanned.records[i];
        proof {
            assert(frames[i as int] == record@);
            assert(frames.take(i as int + 1).drop_last() =~= frames.take(i as int));
            assert(frames.take(i as int + 1).last() == frames[i as int]);
        }
        match record.record() {
            WalRecord::Checkpoint(c) => {
                checkpoint = Some(c.index());
            },
            WalRecord::LabelSet(_) => {},
        }
    }
    proof {
        assert(frames.take(n as int) =~= frames);
    }
    let mut moves: Vec<LabelSetEntry> = Vec::new();
    let mut next: Option<u32> = None;
    let mut j: usize = 0;
    while j < n
        invariant
            j <= n,
            n == scanned.records.len(),
            frames == scanned.records@.map_values(|r: AnnotatedWalRecord| r@),
            forall|k: int| 0 <= k < n ==> is_frame(#[trigger] scanned.records[k]@),
            moves@.map_values(|e: LabelSetEntry| e@) == pending_moves(
                frames.take(j as int),
                checkpoint,
            ),
            next == next_checkpoint(frames.take(j as int), checkpoint),
        decreases n - j,
    {
        let record = &scanned.records[j];
        proof {
            assert(frames[j as int] == record@);
            assert(frames.take(j as int + 1).drop_last() =~= frames.take(j as int));
            assert(frames.take(j as int + 1).last() == frames[j as int]);
        }
        match record.record() {
            WalRecord::LabelSet(set) => {
                let index = set.index();
                let wanted = match checkpoint {
                    None => true,
                    Some(c) => index > c,
                };
                if wanted {
                    let ghost before = moves@.map_values(|e: LabelSetEntry| e@);
                    let mut entries = set.entries();
                    let ghost added = entries@.map_values(|e: LabelSetEntry| e@);
                    moves.append(&mut entries);
                    proof {
                        assert(moves@.map_values(|e: LabelSetEntry| e@) =~= before + added);
                    }
                    next = Some(index);
                }
            },
            WalRecord::Checkpoint(_) => {},
        }
        j += 1;
    }
    proof {
        assert(frames.take(n as int) =~= frames);
    }
    RecoveryPlan { keep: scanned.valid_len, moves, checkpoint: next, end: scanned.end }
}

/// The layer that `moves` leave the label written as `name` at: that of the
/// last move that names it, if any does.
pub open spec fn target_of(moves: Seq<Seq<u8>>, name: Seq<u8>) -> Option<Seq<u32>>
    decreases moves.len(),
{
    if moves.len() == 0 {
        None
    } else if entry_label(moves.last()) == name {
        Some(entry_layer(moves.last()))
    } else {
        target_of(moves.drop_last(), name)
    }
}

/// What replaying `moves` makes of `label`: a label that no move names
/// stays; the others are moved, by a versioned update against the label as
/// it stands, to the layer of the last move that names them.
pub open spec fn replayed(label: LabelModel, moves: Seq<Seq<u8>>) -> LabelModel {
    match target_of(moves, encode_utf8(label.name)) {
        None => label,
        Some(layer) => compare_and_set(label, label.version, Some(layer)).0,
    }
}

/// Replaying the same moves again changes nothing.
pub proof fn lemma_replay_idempotent(label: LabelModel, moves: Seq<Seq<u8>>)
    ensures
        replayed(replayed(label, moves), moves) == replayed(label, moves),
{
}

/// Replaying the same moves any number of times more changes nothing.
pub open spec fn replayed_times(label: LabelModel, moves: Seq<Seq<u8>>, times: nat) -> LabelModel
    decreases times,
{
    if times == 0 {
        label
    } else {
        replayed(replayed_times(label, moves, (times - 1) as nat), moves)
    }
}

/// However often the moves are replayed, the label ends where one replay
/// leaves it.
pub proof fn lemma_replay_any_number_of_times(label: LabelModel, moves: Seq<Seq<u8>>, times: nat)
    requires
        times >= 1,
    ensures
        replayed_times(label, moves, times) == replayed(label, moves),
    decreases times,
{
    if times > 1 {
        lemma_replay_any_number_of_times(label, moves, (times - 1) as nat);
        lemma_replay_idempotent(label, moves);
    } else {
        assert(replayed_times(label, moves, 0) == label);
    }
}

/// Replays `moves` on `label`: what is to be written in its place, if
/// anything, as [`replayed`] says.
pub fn replay_label(label: &Label, moves: &Vec<LabelSetEntry>) -> (decision: LabelWrite)
    requires
        label.version < u64::MAX,
    ensures
        decision.outcome(label@) == replayed(label@, moves@.map_values(|e: LabelSetEntry| e@)),
        decision is Write <==> replayed(label@, moves@.map_values(|e: LabelSetEntry| e@))
            != label@,
        !(decision is Stale),
{
    let ghost views = moves@.map_values(|e: LabelSetEntry| e@);
    let name = label.name.as_str().as_bytes();
    let mut i: usize = moves.len();
    proof {
        assert(views.take(i as int) =~= views);
    }
    while i > 0
        invariant
            i <= moves.len(),
            views == moves@.map_values(|e: LabelSetEntry| e@),
            name@ == encode_utf8(label@.name),
            label.version < u64::MAX,
            target_of(views, name@) == target_of(views.take(i as int), name@),
        decreases i,
    {
        i -= 1;
        let entry = &moves[i];
        proof {
            assert(views[i as int] == entry@);
            assert(views.take(i as int + 1).drop_last() =~= views.take(i as int));
            assert(views.take(i as int + 1).last() == views[i as int]);
        }
        let len = entry.label_len();
        let bytes = entry.bytes();
        if same_bytes(slice_subrange(bytes, 1, 1 + len), name) {
            let layer = entry.layer();
            let decision = write_label(label, label, Some(layer));
            return decision;
        }
    }
    proof {
        assert(views.take(0) =~= Seq::<Seq<u8>>::empty());
    }
    LabelWrite::Unchanged
}

} // verus!
