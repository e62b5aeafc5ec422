use terminus_store::structure::bitarray::{BitArray, BitArrayBuilder, BitArrayError};
use terminus_store::structure::bitindex::{compute_index, BitIndex};
use terminus_store::structure::logarray::{
    pack, width_for, LogArray, LogArrayBuilder, LogArrayError, LogArrayReader,
};
use terminus_store::structure::pfc::{compare, has_zero, DictError, Order, PfcDict, PfcDictBuilder};
use terminus_store::structure::storage::MemoryBackedStore;
use terminus_store::structure::wavelettree::{
    build_wavelet_fragment, build_wavelet_tree, same_bits, WaveletTree,
};

fn bit_array(bits: &[u8]) -> BitArray {
    let mut builder = BitArrayBuilder::new();
    for b in bits {
        builder.push(*b == 1);
    }
    builder.into_array()
}

fn log_array(width: u8, values: &[u64]) -> LogArray {
    let mut builder = LogArrayBuilder::new(width);
    for v in values {
        builder.push(*v).unwrap();
    }
    LogArray::parse(&builder.finalize()).unwrap()
}

const SYMBOLS: [u64; 12] = [21, 1, 30, 13, 23, 21, 3, 0, 21, 21, 12, 11];

#[test]
fn bit_index_ranks_and_selects() {
    let index = BitIndex::build(bit_array(&[1, 0, 1, 1, 0, 0, 1, 1, 0, 1, 0, 0, 0, 0, 0, 1]));
    assert_eq!(index.len(), 16);
    assert_eq!(index.rank1(0), 0);
    assert_eq!(index.rank1(8), 5);
    assert_eq!(index.rank1(16), 7);
    assert_eq!(index.select1(1), Some(0));
    assert_eq!(index.select1(5), Some(7));
    assert_eq!(index.select1(7), Some(15));
    assert_eq!(index.select1(0), None);
    assert_eq!(index.select1(8), None);
    assert_eq!(index.rank0(8), 3);
    assert_eq!(index.rank1_range(8, 16), 2);
    assert_eq!(index.rank0_range(8, 16), 6);
}

#[test]
fn bit_array_file_is_words_then_length() {
    let mut builder = BitArrayBuilder::new();
    for b in [1, 0, 1, 1, 0, 0, 1, 1, 0, 1, 0, 0, 0, 0, 0, 1] {
        builder.push(b == 1);
    }
    assert_eq!(builder.count(), 16);
    let file = builder.finalize();
    assert_eq!(
        file,
        vec![0xb3, 0x41, 0, 0, 0, 0, 0, 0, 16, 0, 0, 0, 0, 0, 0, 0]
    );
    let array = BitArray::from_bits(&file).unwrap();
    assert_eq!(array.len(), 16);
    assert!(array.get(0));
    assert!(!array.get(1));
    assert!(array.get(15));
    assert_eq!(array.bytes().len(), 8);
}

#[test]
fn empty_bit_array_is_only_a_length() {
    let file = BitArrayBuilder::new().finalize();
    assert_eq!(file, vec![0u8; 8]);
    assert_eq!(BitArray::from_bits(&file).unwrap().len(), 0);
}

#[test]
fn bit_array_file_must_fit_its_length() {
    assert_eq!(
        BitArray::from_bits(&[1, 2, 3]).err(),
        Some(BitArrayError::InputBufferTooSmall)
    );
    // 65 bits declared, one word given
    let mut file = vec![0u8; 8];
    file.extend_from_slice(&65u64.to_le_bytes());
    assert_eq!(
        BitArray::from_bits(&file).err(),
        Some(BitArrayError::UnexpectedInputBufferSize)
    );
    // a body that is no whole word
    let mut file = vec![0u8; 7];
    file.extend_from_slice(&8u64.to_le_bytes());
    assert_eq!(
        BitArray::from_bits(&file).err(),
        Some(BitArrayError::UnexpectedInputBufferSize)
    );
}

#[test]
fn rank_and_select_agree_across_blocks() {
    // every third bit and every seventh, over more than one super-block
    let len: u64 = 300_000;
    let mut builder = BitArrayBuilder::new();
    let mut expected = Vec::new();
    for i in 0..len {
        let bit = i % 3 == 0 || i % 7 == 0;
        if bit {
            expected.push(i);
        }
        builder.push(bit);
    }
    let array = builder.into_array();
    let (blocks, sblocks) = compute_index(&array);
    assert_eq!(blocks.len(), 74);
    assert_eq!(sblocks.len(), 2);
    assert_eq!(sblocks[0], 0);
    assert_eq!(blocks[0], 0);
    assert_eq!(blocks[64], 0);
    let index = BitIndex::build(array);
    assert_eq!(index.rank1(len), expected.len() as u64);
    assert_eq!(sblocks[1], index.rank1(262144));
    assert_eq!(blocks[1], index.rank1(4096));
    for (k, place) in expected.iter().enumerate().step_by(997) {
        let k = k as u64 + 1;
        assert_eq!(index.select1(k), Some(*place));
        assert_eq!(index.rank1(place + 1), k);
        assert_eq!(index.rank1(*place), k - 1);
    }
    for i in (0..=len).step_by(4099) {
        let r = index.rank1(i);
        if r > 0 {
            assert!(index.select1(r).unwrap() < i);
        }
        assert_eq!(index.rank0(i), i - r);
    }
    assert_eq!(index.select1(expected.len() as u64 + 1), None);
}

#[test]
fn index_from_parts_is_checked() {
    let bits = [1u8, 1, 0, 1];
    let (blocks, sblocks) = compute_index(&bit_array(&bits));
    let good = BitIndex::from_parts_checked(
        bit_array(&bits),
        pack(&blocks, 3, 4),
        pack(&sblocks, 3, 4),
    );
    assert_eq!(good.unwrap().rank1(4), 3);
    let bad = BitIndex::from_parts_checked(
        bit_array(&bits),
        pack(&vec![1], 3, 4),
        pack(&sblocks, 3, 4),
    );
    assert!(bad.is_none());
}

#[test]
fn log_array_is_read_back() {
    let mut builder = LogArrayBuilder::new(5);
    for v in SYMBOLS {
        assert_eq!(builder.push(v), Ok(()));
    }
    assert_eq!(builder.count(), 12);
    let file = builder.finalize();
    // 60 bits in one word, then the count in seven bytes and the width
    assert_eq!(file.len(), 16);
    assert_eq!(&file[8..], &[0, 0, 0, 0, 0, 0, 12, 5]);
    // 21 = 10101, 1 = 00001: the first byte is 10101000, the second 01...
    assert_eq!(file[0], 0b1010_1000);
    assert_eq!(file[1] >> 6, 0b01);
    let array = LogArray::parse(&file).unwrap();
    assert_eq!(array.len(), 12);
    assert_eq!(array.width(), 5);
    assert_eq!(array.decode(), SYMBOLS.to_vec());
    assert_eq!(array.entry(4), 23);
}

#[test]
fn log_array_is_read_entry_by_entry() {
    let array = log_array(5, &SYMBOLS);
    let mut reader = LogArrayReader::new(&array);
    let mut seen = vec![];
    while let Some(value) = reader.next() {
        seen.push(value);
    }
    assert_eq!(seen, SYMBOLS.to_vec());
    assert_eq!(reader.next(), None);
    let empty = log_array(7, &[]);
    assert_eq!(LogArrayReader::new(&empty).next(), None);
}

#[test]
fn log_array_holds_every_width() {
    for width in 1..=64u8 {
        let top = if width == 64 { u64::MAX } else { (1u64 << width) - 1 };
        let values = vec![top, 0, top / 2, 1, top, top / 3, 0, top];
        let mut builder = LogArrayBuilder::new(width);
        for v in &values {
            builder.push(*v).unwrap();
        }
        let array = LogArray::parse(&builder.finalize()).unwrap();
        assert_eq!(array.width(), width);
        assert_eq!(array.decode(), values);
    }
}

#[test]
fn log_array_refuses_wide_values() {
    let mut builder = LogArrayBuilder::new(5);
    builder.push(31).unwrap();
    assert_eq!(builder.push(32), Err(LogArrayError::ValueTooLarge));
    assert_eq!(builder.count(), 1);
    assert_eq!(builder.into_array().decode(), vec![31]);
}

#[test]
fn log_array_file_must_fit_its_trailer() {
    assert_eq!(
        LogArray::parse(&[0; 7]).err(),
        Some(LogArrayError::InputBufferTooSmall)
    );
    assert_eq!(
        LogArray::parse(&[0, 0, 0, 0, 0, 0, 1, 0]).err(),
        Some(LogArrayError::WidthTooLarge)
    );
    assert_eq!(
        LogArray::parse(&[0, 0, 0, 0, 0, 0, 1, 65]).err(),
        Some(LogArrayError::WidthTooLarge)
    );
    // one entry of eight bits declared, no body
    assert_eq!(
        LogArray::parse(&[0, 0, 0, 0, 0, 0, 1, 8]).err(),
        Some(LogArrayError::UnexpectedInputBufferSize)
    );
    // no entries, no body
    assert_eq!(LogArray::parse(&[0, 0, 0, 0, 0, 0, 0, 8]).unwrap().len(), 0);
}

#[test]
fn width_for_is_the_least_width() {
    assert_eq!(width_for(0), 1);
    assert_eq!(width_for(1), 1);
    assert_eq!(width_for(2), 2);
    assert_eq!(width_for(255), 8);
    assert_eq!(width_for(256), 9);
    assert_eq!(width_for(u64::MAX), 64);
    assert_eq!(pack(&vec![3, 0, 7], 3, 7).decode(), vec![3, 0, 7]);
}

#[test]
fn generate_and_decode_wavelet_tree() {
    let contents = SYMBOLS.to_vec();
    let contents_len = contents.len();
    let source = log_array(5, &contents);
    let wavelet_tree = build_wavelet_tree(&source);

    assert_eq!(contents_len as u64, wavelet_tree.len());

    assert_eq!(contents, wavelet_tree.decode());
}

#[test]
fn wavelet_tree_lookup() {
    let contents = SYMBOLS.to_vec();
    let source = log_array(5, &contents);
    let wavelet_tree = build_wavelet_tree(&source);

    assert_eq!(wavelet_tree.lookup(4), Vec::<u64>::new());
    assert_eq!(wavelet_tree.lookup(21), vec![0, 5, 8, 9]);
    assert_eq!(wavelet_tree.lookup(0), vec![7]);
    assert_eq!(wavelet_tree.lookup(32), Vec::<u64>::new());
}

#[test]
fn wavelet_tree_reads_and_counts() {
    let tree: WaveletTree = build_wavelet_tree(&log_array(5, &SYMBOLS));
    assert_eq!(tree.num_layers(), 5);
    for (i, s) in SYMBOLS.iter().enumerate() {
        assert_eq!(tree.decode_one(i as u64), *s);
    }
    assert_eq!(tree.rank(21, 12), 4);
    assert_eq!(tree.rank(21, 6), 2);
    assert_eq!(tree.rank(21, 0), 0);
    assert_eq!(tree.rank(4, 12), 0);
    assert_eq!(tree.rank(1 << 40, 12), 0);
    let total: u64 = (0..32).map(|s| tree.rank(s, 12)).sum();
    assert_eq!(total, 12);
}

#[test]
fn wavelet_layers_sort_by_leading_bits() {
    // two bits a symbol: 2 = 10, 1 = 01, 3 = 11, 0 = 00
    let source = log_array(2, &[2, 1, 3, 0]);
    let mut bits = BitArrayBuilder::new();
    // the first layer is one fragment: the first bit of every symbol
    build_wavelet_fragment(&source, &mut bits, 0, 0);
    assert_eq!(bits.count(), 4);
    // the second layer: the symbols that begin with 0, then those with 1
    build_wavelet_fragment(&source, &mut bits, 1, 0);
    assert_eq!(bits.count(), 6);
    build_wavelet_fragment(&source, &mut bits, 1, 1);
    let file = bits.finalize();
    // 1 0 1 0 | 1 0 | 0 1
    assert_eq!(file[0], 0b1010_1001);
    let tree = build_wavelet_tree(&source);
    assert_eq!(tree.decode(), vec![2, 1, 3, 0]);
}

#[test]
fn wavelet_tree_of_wide_symbols() {
    let values = vec![u64::MAX, 0, 1 << 63, 12345678901234567, u64::MAX];
    let tree = build_wavelet_tree(&log_array(64, &values));
    assert_eq!(tree.decode(), values);
    assert_eq!(tree.rank(u64::MAX, 5), 2);
    assert_eq!(tree.lookup(1 << 63), vec![2]);
}

fn words() -> Vec<&'static str> {
    vec![
        "aardvark", "abacus", "abandon", "abandoned", "banana", "band", "bandana", "bandit",
        "cat", "catalog", "catapult", "dog", "doge", "zebra",
    ]
}

#[test]
fn dictionary_numbers_its_strings() {
    let mut builder = PfcDictBuilder::new();
    for (i, w) in words().iter().enumerate() {
        assert_eq!(builder.add(w.as_bytes()), Ok(i as u64));
    }
    assert_eq!(builder.count(), 14);
    let dict = builder.into_dict();
    assert_eq!(dict.len(), 14);
    for (i, w) in words().iter().enumerate() {
        assert_eq!(dict.get(i as u64), w.as_bytes().to_vec());
        assert_eq!(dict.id(w.as_bytes()), Some(i as u64));
        assert_eq!(dict.id(&dict.get(i as u64)), Some(i as u64));
    }
    assert_eq!(dict.id(b"aaa"), None);
    assert_eq!(dict.id(b"ban"), None);
    assert_eq!(dict.id(b"cab"), None);
    assert_eq!(dict.id(b"zebras"), None);
    assert_eq!(dict.id(b""), None);
}

#[test]
fn dictionary_refuses_what_breaks_its_order() {
    let mut builder = PfcDictBuilder::new();
    assert_eq!(builder.add(b"b"), Ok(0));
    assert_eq!(builder.add(b"a"), Err(DictError::NotSorted));
    assert_eq!(builder.add(b"b"), Err(DictError::NotSorted));
    assert_eq!(builder.add(b"c\0d"), Err(DictError::ContainsZero));
    assert_eq!(builder.add(b"c"), Ok(1));
    assert_eq!(builder.count(), 2);
}

#[test]
fn strings_compare_byte_by_byte() {
    assert_eq!(compare(b"abc", b"abd"), Order::Before);
    assert_eq!(compare(b"ab", b"abc"), Order::Before);
    assert_eq!(compare(b"abc", b"abc"), Order::Same);
    assert_eq!(compare(b"b", b"abc"), Order::After);
    assert_eq!(compare(b"", b""), Order::Same);
}

#[test]
fn write_and_read_memory_backed() {
    let mut file = MemoryBackedStore::new();

    let mut w = file.open_write();
    w.write(&mut file, &[1, 2, 3]);
    let mut r = file.open_read();
    let mut buf = vec![0u8; 8];
    let n = r.read(&file, &mut buf);
    buf.truncate(n);

    assert_eq!(vec![1, 2, 3], buf);
}

#[test]
fn write_and_map_memory_backed() {
    let mut file = MemoryBackedStore::new();

    let mut w = file.open_write();
    w.write(&mut file, &[1, 2, 3]);

    assert_eq!(vec![1, 2, 3], file.map());
}

#[test]
fn memory_file_grows_and_is_read_in_pieces() {
    let mut file = MemoryBackedStore::new();
    let mut w = file.open_write_from(2);
    assert_eq!(w.write(&mut file, &[7, 8]), 2);
    assert_eq!(w.write(&mut file, &[9]), 1);
    w.flush();
    assert_eq!(file.map(), vec![0, 0, 7, 8, 9]);
    assert_eq!(file.size(), 5);
    let mut w = file.open_write_from(1);
    w.write(&mut file, &[5]);
    assert_eq!(file.map(), vec![0, 5, 7, 8, 9]);
    let mut r = file.open_read_from(1);
    let mut buf = vec![0u8; 3];
    assert_eq!(r.read(&file, &mut buf), 3);
    assert_eq!(buf, vec![5, 7, 8]);
    assert_eq!(r.read(&file, &mut buf), 1);
    assert_eq!(buf, vec![9, 7, 8]);
    assert_eq!(r.read(&file, &mut buf), 0);
    let mut beyond = file.open_read_from(9);
    assert_eq!(beyond.read(&file, &mut buf), 0);
}

#[test]
fn arrays_are_written_as_they_are_read() {
    let bits = bit_array(&[1, 0, 0, 1, 1]);
    let file = bits.to_file();
    assert_eq!(file, vec![0b1001_1000, 0, 0, 0, 0, 0, 0, 0, 5, 0, 0, 0, 0, 0, 0, 0]);
    assert_eq!(BitArray::from_bits(&file).unwrap().len(), 5);
    let numbers = log_array(5, &SYMBOLS);
    let file = numbers.to_file();
    assert_eq!(&file[8..], &[0, 0, 0, 0, 0, 0, 12, 5]);
    assert_eq!(LogArray::parse(&file).unwrap().decode(), SYMBOLS.to_vec());
    let index = BitIndex::build(bit_array(&[1, 1, 0, 1]));
    assert_eq!(index.array().len(), 4);
    assert_eq!(index.blocks().decode(), vec![0]);
    assert_eq!(index.sblocks().decode(), vec![0]);
}

#[test]
fn wavelet_tree_is_loaded_from_its_bits() {
    let built = build_wavelet_tree(&log_array(5, &SYMBOLS));
    let file = built.bits().array().to_file();
    assert_eq!(file.len(), 8 + 8);
    let index = BitIndex::build(BitArray::from_bits(&file).unwrap());
    assert!(same_bits(&index, built.bits()));
    let loaded = WaveletTree::from_parts_checked(index, 5).unwrap();
    assert_eq!(loaded.decode(), SYMBOLS.to_vec());
    assert_eq!(loaded.rank(21, 12), 4);
    // sixty bits are no tree of seven layers
    let index = BitIndex::build(BitArray::from_bits(&file).unwrap());
    assert!(WaveletTree::from_parts_checked(index, 7).is_none());
    let index = BitIndex::build(BitArray::from_bits(&file).unwrap());
    assert!(WaveletTree::from_parts_checked(index, 0).is_none());
    // any sixty bits are a tree of five layers
    let other = BitIndex::build(bit_array(&[1u8; 60]));
    assert!(!same_bits(&other, built.bits()));
    let ones = WaveletTree::from_parts_checked(other, 5).unwrap();
    assert_eq!(ones.decode(), vec![31; 12]);
    let trusted = WaveletTree::from_parts(BitIndex::build(BitArray::from_bits(&file).unwrap()), 5);
    assert_eq!(trusted.decode_one(2), 30);
}

#[test]
fn dictionary_is_read_from_its_files() {
    let mut builder = PfcDictBuilder::new();
    for w in words() {
        builder.add(w.as_bytes()).unwrap();
    }
    assert_eq!(builder.offsets().len(), 2);
    assert_eq!(builder.offsets()[0], 0);
    assert_eq!(builder.bytes()[0], 0);
    assert_eq!(&builder.bytes()[1..9], b"aardvark");
    assert_eq!(builder.bytes()[9], 0);
    // abacus shares one byte with aardvark
    assert_eq!(&builder.bytes()[10..17], b"\x01bacus\0");
    let dict = builder.into_dict();
    let (blocks, offsets) = dict.to_files();
    assert_eq!(&blocks[blocks.len() - 8..], &[0, 0, 0, 0, 0, 0, 0, 14]);
    assert_eq!(offsets.len(), 2);
    let read = PfcDict::parse(&blocks, &offsets).unwrap();
    assert_eq!(read.len(), 14);
    for (i, w) in words().iter().enumerate() {
        assert_eq!(read.get(i as u64), w.as_bytes().to_vec());
    }
    // any change makes them the files of no dictionary
    let mut wrong_count = blocks.clone();
    let last = wrong_count.len() - 1;
    wrong_count[last] = 13;
    assert_eq!(PfcDict::parse(&wrong_count, &offsets).err(), Some(DictError::Malformed));
    let mut unsorted = blocks.clone();
    unsorted[1] = b'z';
    assert_eq!(PfcDict::parse(&unsorted, &offsets).err(), Some(DictError::Malformed));
    let mut shares_less = blocks.clone();
    shares_less[10] = 0;
    assert_eq!(PfcDict::parse(&shares_less, &offsets).err(), Some(DictError::Malformed));
    assert_eq!(PfcDict::parse(&blocks, &vec![0]).err(), Some(DictError::Malformed));
    assert_eq!(PfcDict::parse(&blocks[1..], &offsets).err(), Some(DictError::Malformed));
    assert_eq!(PfcDict::parse(&[0; 7], &vec![]).err(), Some(DictError::Malformed));
    assert_eq!(PfcDict::parse(&[0; 8], &vec![]).unwrap().len(), 0);
    assert!(has_zero(b"a\0"));
    assert!(!has_zero(b"a"));
}
