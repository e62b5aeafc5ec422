use terminus_store::storage::directory::recovery::{
    plan_recovery, replay_label, scan_log, seek_previous, step_back, step_back_over, LogEnd,
    StepBack,
};
use terminus_store::storage::directory::wal::{
    AnnotatedWalRecord, CheckpointRecord, LabelSetEntry, LabelSetRecord, WalReadError, WalRecord,
};
use terminus_store::storage::label::{Label, LabelWrite};
use terminus_store::storage::memory::MemoryLabelStore;

const L1: [u32; 5] = [1, 2, 3, 4, 5];
const L2: [u32; 5] = [6, 7, 8, 9, 10];
const L3: [u32; 5] = [11, 12, 13, 14, 15];

fn label_set(index: u32, moves: &[(&str, [u32; 5])]) -> Vec<u8> {
    let entries = moves.iter().map(|(l, layer)| LabelSetEntry::new(l, *layer)).collect();
    AnnotatedWalRecord::new(WalRecord::LabelSet(LabelSetRecord::new(index, entries)))
        .bytes()
        .to_vec()
}

fn checkpoint(index: u32) -> Vec<u8> {
    AnnotatedWalRecord::new(WalRecord::Checkpoint(CheckpointRecord::new(index)))
        .bytes()
        .to_vec()
}

fn store_with(names: &[&str]) -> MemoryLabelStore {
    let mut store = MemoryLabelStore::new();
    for n in names {
        store.create_label(n).unwrap();
    }
    store
}

#[test]
fn recovery_applies_what_no_checkpoint_acknowledges() {
    let mut log = label_set(1, &[("a", L1), ("b", L2)]);
    let mut store = store_with(&["a", "b", "c"]);

    let plan = plan_recovery(&log);
    assert_eq!(plan.keep, log.len());
    assert_eq!(plan.end, LogEnd::Clean);
    assert_eq!(plan.moves.len(), 2);
    assert_eq!(plan.checkpoint, Some(1));
    store.replay(&plan.moves);
    assert_eq!(store.get_label("a"), Some(Label { name: "a".into(), layer: Some(L1), version: 1 }));
    assert_eq!(store.get_label("b"), Some(Label { name: "b".into(), layer: Some(L2), version: 1 }));
    assert_eq!(store.get_label("c"), Some(Label::new_empty("c")));
    log.truncate(plan.keep);
    log.extend_from_slice(&checkpoint(plan.checkpoint.unwrap()));

    // a second start finds nothing to do
    let again = plan_recovery(&log);
    assert_eq!(again.keep, log.len());
    assert_eq!(again.moves.len(), 0);
    assert_eq!(again.checkpoint, None);
    store.replay(&again.moves);
    assert_eq!(store.get_label("a").unwrap().version, 1);
    assert_eq!(store.get_label("b").unwrap().version, 1);
}

#[test]
fn replay_twice_is_replay_once() {
    let mut log = label_set(1, &[("a", L1)]);
    log.extend_from_slice(&label_set(2, &[("a", L2), ("b", L3)]));
    let plan = plan_recovery(&log);
    assert_eq!(plan.moves.len(), 3);
    assert_eq!(plan.checkpoint, Some(2));
    let mut store = store_with(&["a", "b"]);
    store.replay(&plan.moves);
    let a = store.get_label("a").unwrap();
    let b = store.get_label("b").unwrap();
    assert_eq!(a, Label { name: "a".into(), layer: Some(L2), version: 1 });
    assert_eq!(b, Label { name: "b".into(), layer: Some(L3), version: 1 });
    for _ in 0..3 {
        store.replay(&plan.moves);
        assert_eq!(store.get_label("a"), Some(a.clone()));
        assert_eq!(store.get_label("b"), Some(b.clone()));
    }
    assert!(matches!(replay_label(&a, &plan.moves), LabelWrite::Unchanged));
    match replay_label(&Label::new_empty("a"), &plan.moves) {
        LabelWrite::Write(l) => assert_eq!(l, a),
        other => panic!("{:?}", other),
    }
    assert!(matches!(replay_label(&Label::new_empty("z"), &plan.moves), LabelWrite::Unchanged));
}

#[test]
fn recovery_starts_behind_the_last_checkpoint() {
    let mut log = label_set(1, &[("a", L1)]);
    log.extend_from_slice(&checkpoint(1));
    log.extend_from_slice(&label_set(2, &[("a", L2)]));
    log.extend_from_slice(&label_set(3, &[("b", L3)]));
    let plan = plan_recovery(&log);
    assert_eq!(plan.checkpoint, Some(3));
    assert_eq!(plan.moves.len(), 2);
    assert_eq!(plan.moves[0].label(), "a");
    assert_eq!(plan.moves[0].layer(), L2);
    assert_eq!(plan.moves[1].label(), "b");
}

#[test]
fn a_flipped_byte_costs_the_last_record_only() {
    let mut log = label_set(1, &[("a", L1)]);
    log.extend_from_slice(&checkpoint(1));
    let good = log.len();
    log.extend_from_slice(&label_set(2, &[("a", L2)]));
    log[good + 3] ^= 0x20;
    let plan = plan_recovery(&log);
    assert_eq!(plan.end, LogEnd::Corrupt(WalReadError::CrcFailure));
    assert_eq!(plan.keep, good);
    assert_eq!(plan.moves.len(), 0);
    assert_eq!(plan.checkpoint, None);
    let scanned = scan_log(&log);
    assert_eq!(scanned.records.len(), 2);
    assert_eq!(scanned.valid_len, good);
}

#[test]
fn a_log_cut_anywhere_still_opens() {
    let frames = [label_set(1, &[("a", L1), ("bb", L2)]), checkpoint(1), label_set(2, &[("c", L3)])];
    let log: Vec<u8> = frames.concat();
    let ends = [frames[0].len(), frames[0].len() + frames[1].len(), log.len()];
    for cut in 0..=log.len() {
        let scanned = scan_log(&log[..cut]);
        let whole = ends.iter().filter(|e| **e <= cut).count();
        assert_eq!(scanned.records.len(), whole, "cut at {}", cut);
        let kept = if whole == 0 { 0 } else { ends[whole - 1] };
        assert_eq!(scanned.valid_len, kept);
        let expected = if kept == cut { LogEnd::Clean } else { LogEnd::Torn };
        assert_eq!(scanned.end, expected);
        for (record, frame) in scanned.records.iter().zip(frames.iter()) {
            assert_eq!(record.bytes(), &frame[..]);
        }
    }
}

#[test]
fn stepping_back_finds_the_start_of_a_record() {
    let first = label_set(1, &[("a", L1)]);
    let second = checkpoint(1);
    let mut log = first.clone();
    log.extend_from_slice(&second);
    assert_eq!(seek_previous(&log, log.len()), Ok(first.len()));
    assert_eq!(seek_previous(&log, first.len()), Ok(0));
    assert_eq!(seek_previous(&log, 0), Ok(0));
    assert_eq!(seek_previous(&log, 5), Err(WalReadError::IncompleteRecord));
    // a length that reaches back before the log
    assert_eq!(seek_previous(&[0, 0, 0, 9, 0, 0, 0, 0], 8), Err(WalReadError::IncompleteRecord));
    assert_eq!(step_back(0), StepBack::AtStart);
    assert_eq!(step_back(7), StepBack::TooShort);
    assert_eq!(step_back(8), StepBack::ReadLengthAt(0));
    assert_eq!(step_back(100), StepBack::ReadLengthAt(92));
    assert_eq!(step_back_over(13, 5), Ok(0));
    assert_eq!(step_back_over(12, 5), Err(WalReadError::IncompleteRecord));
    assert_eq!(step_back_over(u64::MAX, u32::MAX), Ok(u64::MAX - u32::MAX as u64 - 8));
}
