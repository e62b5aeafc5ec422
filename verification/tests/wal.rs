use bytes::BytesMut;
use terminus_store::storage::directory::decoder::{WalFileDecoder, WalFileEncoder};
use terminus_store::storage::directory::wal::{
    AnnotatedWalRecord, CheckpointRecord, LabelSetEntry, LabelSetRecord, WalReadError, WalRecord,
};

const L1: [u32; 5] = [1, 2, 3, 4, 5];
const L2: [u32; 5] = [0xdeadbeef, 0, 0xffffffff, 7, 0x01020304];

fn label_set_frame() -> Vec<u8> {
    let entries = vec![LabelSetEntry::new("a", L1), LabelSetEntry::new("b", L2)];
    let record = WalRecord::LabelSet(LabelSetRecord::new(1, entries));
    AnnotatedWalRecord::new(record).bytes().to_vec()
}

#[test]
fn entry_layout_is_length_label_layer() {
    let entry = LabelSetEntry::new("ab", L1);
    assert_eq!(entry.label_len(), 2);
    assert_eq!(entry.label(), "ab");
    assert_eq!(entry.layer(), L1);
    let bytes = entry.into_data();
    assert_eq!(
        &bytes[..],
        &[2, b'a', b'b', 0, 0, 0, 1, 0, 0, 0, 2, 0, 0, 0, 3, 0, 0, 0, 4, 0, 0, 0, 5][..]
    );
}

#[test]
fn checkpoint_frame_has_known_bytes() {
    let frame = AnnotatedWalRecord::new(WalRecord::Checkpoint(CheckpointRecord::new(7)));
    // type 1, index 7, length 5, CRC-32 of [1, 0, 0, 0, 7]
    let crc = crc::crc32::checksum_ieee(&[1, 0, 0, 0, 7]);
    let mut expected = vec![1, 0, 0, 0, 7, 0, 0, 0, 5];
    expected.extend_from_slice(&crc.to_be_bytes());
    assert_eq!(frame.bytes(), &expected[..]);
    assert_eq!(frame.record_len(), 5);
    assert_eq!(frame.checksum(), crc);
}

#[test]
fn decoder_reads_back_a_label_set() {
    let frame = label_set_frame();
    let mut decoder = WalFileDecoder::new();
    let mut buf = BytesMut::from(&frame[..]);
    let emitted = decoder.decode(&mut buf).unwrap().unwrap();
    assert_eq!(emitted.bytes(), &frame[..]);
    assert!(buf.is_empty());
    match emitted.record() {
        WalRecord::LabelSet(r) => {
            assert_eq!(r.len(), 2);
            assert_eq!(r.index(), 1);
            let entries = r.entries();
            assert_eq!(entries[0].label(), "a");
            assert_eq!(entries[0].layer(), L1);
            assert_eq!(entries[1].label(), "b");
            assert_eq!(entries[1].layer(), L2);
        }
        WalRecord::Checkpoint(_) => panic!("expected a label set"),
    }
}

#[test]
fn decoder_takes_bytes_one_at_a_time() {
    let frame = label_set_frame();
    let mut decoder = WalFileDecoder::new();
    let mut buf = BytesMut::new();
    for (i, byte) in frame.iter().enumerate() {
        buf.extend_from_slice(&[*byte]);
        let out = decoder.decode(&mut buf).unwrap();
        if i + 1 < frame.len() {
            assert!(out.is_none());
        } else {
            assert_eq!(out.unwrap().bytes(), &frame[..]);
        }
    }
}

#[test]
fn decoder_rejects_a_flipped_payload_byte() {
    let mut frame = label_set_frame();
    frame[3] ^= 0x40;
    let mut decoder = WalFileDecoder::new();
    let mut buf = BytesMut::from(&frame[..]);
    assert_eq!(decoder.decode(&mut buf).err(), Some(WalReadError::CrcFailure));
    assert!(decoder.is_invalid());
}

#[test]
fn encoder_appends_the_frame() {
    let frame = AnnotatedWalRecord::new(WalRecord::Checkpoint(CheckpointRecord::new(3)));
    let expected = frame.bytes().to_vec();
    let mut out = BytesMut::from(&[9u8][..]);
    WalFileEncoder.encode(frame, &mut out);
    assert_eq!(out[0], 9);
    assert_eq!(&out[1..], &expected[..]);
}

fn checkpoint_frame(index: u32) -> Vec<u8> {
    AnnotatedWalRecord::new(WalRecord::Checkpoint(CheckpointRecord::new(index)))
        .bytes()
        .to_vec()
}

fn decode_all(bytes: &[u8]) -> Result<Option<AnnotatedWalRecord>, WalReadError> {
    let mut decoder = WalFileDecoder::new();
    let mut buf = BytesMut::from(bytes);
    decoder.decode(&mut buf)
}

#[test]
fn decoder_names_each_fault() {
    assert_eq!(decode_all(&[2]).err(), Some(WalReadError::UnknownRecordType));
    assert_eq!(decode_all(&[0, 0]).err(), Some(WalReadError::ZeroLabels));
    assert_eq!(decode_all(&[0, 101]).err(), Some(WalReadError::TooManyLabels));
    let mut bad_label = vec![0, 1, 1, 0xff];
    bad_label.extend_from_slice(&[0; 20]);
    assert_eq!(decode_all(&bad_label).err(), Some(WalReadError::LabelNotUtf8));
    let mut wrong_length = checkpoint_frame(7);
    wrong_length[8] = 6;
    assert_eq!(decode_all(&wrong_length).err(), Some(WalReadError::InvalidRecordLength));
    let mut wrong_sum = checkpoint_frame(7);
    wrong_sum[12] ^= 1;
    assert_eq!(decode_all(&wrong_sum).err(), Some(WalReadError::CrcFailure));
    assert!(decode_all(&[]).unwrap().is_none());
    assert!(decode_all(&checkpoint_frame(7)[..12]).unwrap().is_none());
}

#[test]
fn a_hundred_labels_fit_and_no_more() {
    let entries: Vec<LabelSetEntry> =
        (0..100).map(|i| LabelSetEntry::new(&format!("label{}", i), L1)).collect();
    let record = LabelSetRecord::new(9, entries);
    assert_eq!(record.len(), 100);
    assert_eq!(record.index(), 9);
    let frame = AnnotatedWalRecord::new(WalRecord::LabelSet(record)).bytes().to_vec();
    let emitted = decode_all(&frame).unwrap().unwrap();
    match emitted.record() {
        WalRecord::LabelSet(r) => {
            let entries = r.entries();
            assert_eq!(entries.len(), 100);
            assert_eq!(entries[99].label(), "label99");
        }
        WalRecord::Checkpoint(_) => panic!("expected a label set"),
    }
}

#[test]
fn records_are_split_off_buffers() {
    let mut short = BytesMut::from(&[1u8, b'a'][..]);
    assert_eq!(
        LabelSetEntry::try_split_from_bytes(&mut short).err(),
        Some(WalReadError::IncompleteRecord)
    );
    assert_eq!(&short[..], &[1, b'a'][..]);
    let mut empty = BytesMut::new();
    assert_eq!(
        LabelSetEntry::try_split_from_bytes(&mut empty).err(),
        Some(WalReadError::IncompleteRecord)
    );
    let entry = LabelSetEntry::new("ab", L1);
    let mut two = BytesMut::from(entry.bytes());
    two.extend_from_slice(&[9, 9]);
    let split = LabelSetEntry::try_split_from_bytes(&mut two).unwrap();
    assert_eq!(split.bytes(), entry.bytes());
    assert_eq!(&two[..], &[9, 9][..]);
    assert_eq!(
        LabelSetEntry::from_bytes(BytesMut::from(&[1u8, 0xff, 0, 0, 0, 0, 0, 0, 0, 0, 0, 0, 0, 0, 0, 0, 0, 0, 0, 0, 0, 0][..])).err(),
        Some(WalReadError::LabelNotUtf8)
    );

    let mut three = BytesMut::from(&[0u8, 0, 1][..]);
    assert_eq!(
        CheckpointRecord::try_split_from_bytes(&mut three).err(),
        Some(WalReadError::IncompleteRecord)
    );
    let mut five = BytesMut::from(&[0u8, 0, 1, 2, 3][..]);
    let checkpoint = CheckpointRecord::try_split_from_bytes(&mut five).unwrap();
    assert_eq!(checkpoint.index(), 258);
    assert_eq!(&five[..], &[3][..]);
    assert_eq!(CheckpointRecord::from_bytes(BytesMut::from(&[0u8, 0, 0, 5][..])).index(), 5);

    let record = LabelSetRecord::new(3, vec![LabelSetEntry::new("a", L1)]);
    let payload = WalRecord::LabelSet(record).into_data();
    let mut more = payload.clone();
    more.extend_from_slice(&[7]);
    let split = LabelSetRecord::try_split_from_bytes(&mut more).unwrap();
    assert_eq!(split.index(), 3);
    assert_eq!(&more[..], &[7][..]);
    let mut cut = BytesMut::from(&payload[..payload.len() - 1]);
    assert_eq!(
        LabelSetRecord::try_split_from_bytes(&mut cut).err(),
        Some(WalReadError::IncompleteRecord)
    );
    assert_eq!(cut.len(), payload.len() - 1);
    let mut none = BytesMut::from(&[0u8][..]);
    assert_eq!(
        LabelSetRecord::try_split_from_bytes(&mut none).err(),
        Some(WalReadError::ZeroLabels)
    );
    let mut many = BytesMut::from(&[101u8][..]);
    assert_eq!(
        LabelSetRecord::try_split_from_bytes(&mut many).err(),
        Some(WalReadError::TooManyLabels)
    );
    let whole = LabelSetRecord::from_bytes(payload.clone());
    assert_eq!(whole.len(), 1);
}

#[test]
fn a_record_knows_its_type_and_sum() {
    let record = WalRecord::Checkpoint(CheckpointRecord::new(7));
    assert_eq!(record.type_num(), 1);
    assert_eq!(record.data(), &[0, 0, 0, 7][..]);
    assert_eq!(record.length(), 4);
    assert_eq!(record.checksum(), crc::crc32::checksum_ieee(&[1, 0, 0, 0, 7]));
    let set = WalRecord::LabelSet(LabelSetRecord::new(1, vec![LabelSetEntry::new("a", L1)]));
    assert_eq!(set.type_num(), 0);
    assert_eq!(set.length(), 1 + 22 + 4);
    let sum = set.checksum();
    let frame = AnnotatedWalRecord::new_bytes(
        set,
        BytesMut::from(&[0u8][..]),
        BytesMut::from(&28u32.to_be_bytes()[..]),
        BytesMut::from(&sum.to_be_bytes()[..]),
    );
    assert_eq!(frame.record_len(), 28);
    assert_eq!(frame.checksum(), sum);
    assert_eq!(frame.record_bytes().len(), 27);
    let same = AnnotatedWalRecord::from_bytes_unchecked(frame.into_data());
    assert_eq!(same.record_len(), 28);
}
