use terminus_store::storage::errors::LabelCreationError;
use terminus_store::storage::label::{
    label_file_contents, read_label_file, same_layer, write_label, Label, LabelFileError,
    LabelWrite,
};
use terminus_store::storage::layer::{
    hex_to_name, layer_children, name_to_hex, name_to_string, string_to_name, LayerType,
    ListedLayer,
};
use terminus_store::storage::memory::MemoryLabelStore;
use terminus_store::store::errors::NamedGraphCreationError;
use terminus_store::radix::{format_decimal, format_hex_word, parse_number};

const L1: [u32; 5] = [1, 2, 3, 4, 5];
const L2: [u32; 5] = [0xdeadbeef, 0, 0xffffffff, 7, 0x01020304];

#[test]
fn labels_start_at_version_zero() {
    let empty = Label::new_empty("g");
    assert_eq!(empty.name, "g");
    assert_eq!(empty.layer, None);
    assert_eq!(empty.version, 0);
    let pointed = Label::new("g", L1);
    assert_eq!(pointed.layer, Some(L1));
    assert_eq!(pointed.version, 0);
    let next = Label::updated(&pointed, Some(L2));
    assert_eq!(next.name, "g");
    assert_eq!(next.layer, Some(L2));
    assert_eq!(next.version, 1);
    assert_eq!(next.clone(), next);
    assert_ne!(next, pointed);
    assert!(same_layer(&Some(L1), &Some(L1)));
    assert!(!same_layer(&Some(L1), &Some(L2)));
    assert!(!same_layer(&Some(L1), &None));
    assert!(same_layer(&None, &None));
}

#[test]
fn layer_names_are_forty_hex_digits() {
    assert_eq!(
        name_to_string(L2),
        "deadbeef00000000ffffffff0000000701020304"
    );
    assert_eq!(name_to_hex(L1).len(), 40);
    assert_eq!(
        string_to_name("deadbeef00000000ffffffff0000000701020304"),
        Some(L2)
    );
    assert_eq!(
        string_to_name("DEADBEEF00000000FFFFFFFF0000000701020304"),
        Some(L2)
    );
    assert_eq!(string_to_name("deadbeef"), None);
    assert_eq!(
        string_to_name("deadbeef00000000ffffffff000000070102030g"),
        None
    );
    assert_eq!(
        hex_to_name(b"+eadbeef00000000ffffffff0000000701020304"),
        None
    );
    assert_eq!(hex_to_name(&name_to_hex(L1)), Some(L1));
    assert_ne!(LayerType::Base, LayerType::Child);
}

#[test]
fn numbers_are_written_and_read() {
    assert_eq!(format_decimal(0), b"0".to_vec());
    assert_eq!(format_decimal(1203), b"1203".to_vec());
    assert_eq!(format_decimal(u64::MAX), b"18446744073709551615".to_vec());
    assert_eq!(format_hex_word(0xab), b"000000ab".to_vec());
    assert_eq!(parse_number(b"18446744073709551615", 10), Some(u64::MAX));
    assert_eq!(parse_number(b"18446744073709551616", 10), None);
    assert_eq!(parse_number(b"007", 10), Some(7));
    assert_eq!(parse_number(b"", 10), None);
    assert_eq!(parse_number(b"12a", 10), None);
    assert_eq!(parse_number(b"12a", 16), Some(0x12a));
    assert_eq!(parse_number(b"fF", 16), Some(255));
    assert_eq!(parse_number(b"-1", 10), None);
}

#[test]
fn label_file_is_two_lines() {
    let empty = Label::new_empty("g");
    assert_eq!(label_file_contents(&empty), b"0\n\n".to_vec());
    let mut moved = Label::new("g", L2);
    moved.version = 17;
    assert_eq!(
        label_file_contents(&moved),
        b"17\ndeadbeef00000000ffffffff0000000701020304\n".to_vec()
    );
    assert_eq!(read_label_file(b"0\n\n", "g"), Ok(empty));
    assert_eq!(
        read_label_file(&label_file_contents(&moved), "g"),
        Ok(moved)
    );
}

#[test]
fn label_file_faults_are_told_apart() {
    let hex = "deadbeef00000000ffffffff0000000701020304";
    for bad in ["", "1", "1\n", "1\n\n\n", "1\n\nx", &format!("1\n{}", hex), "\n\n\n"] {
        assert_eq!(
            read_label_file(bad.as_bytes(), "g"),
            Err(LabelFileError::NotTwoLines),
            "{:?}",
            bad
        );
    }
    for bad in ["\n\n", "x\n\n", "1 \n\n", "+1\n\n", "18446744073709551616\n\n", "1\r\n\n"] {
        assert_eq!(
            read_label_file(bad.as_bytes(), "g"),
            Err(LabelFileError::BadVersion),
            "{:?}",
            bad
        );
    }
    for bad in ["1\nabc\n", "1\ndeadbeef00000000ffffffff000000070102030\n", "1\n \n"] {
        assert_eq!(
            read_label_file(bad.as_bytes(), "g"),
            Err(LabelFileError::BadLayer),
            "{:?}",
            bad
        );
    }
}

#[test]
fn a_write_is_decided_by_the_version() {
    let on_disk = Label { name: "g".to_string(), layer: Some(L1), version: 3 };
    let mut expected = on_disk.clone();
    // the caller is behind
    expected.version = 2;
    assert!(matches!(write_label(&on_disk, &expected, Some(L2)), LabelWrite::Stale));
    // the caller is ahead
    expected.version = 4;
    assert!(!write_label(&on_disk, &expected, Some(L2)).succeeded());
    // the caller is right, and the layer is already there
    expected.version = 3;
    assert!(matches!(write_label(&on_disk, &expected, Some(L1)), LabelWrite::Unchanged));
    assert!(write_label(&on_disk, &expected, Some(L1)).succeeded());
    // the caller is right
    match write_label(&on_disk, &expected, Some(L2)) {
        LabelWrite::Write(label) => {
            assert_eq!(label, Label { name: "g".to_string(), layer: Some(L2), version: 4 });
        }
        other => panic!("{:?}", other),
    }
}

#[test]
fn one_of_two_writers_wins() {
    let mut store = MemoryLabelStore::new();
    let g = store.create_label("g").unwrap();
    assert_eq!(store.get_label("g"), Some(Label::new_empty("g")));
    assert_eq!(g, Label::new_empty("g"));
    assert!(store.set_label(&g, Some(L1)));
    assert!(!store.set_label(&g, Some(L2)));
    let now = store.get_label("g").unwrap();
    assert_eq!(now.layer, Some(L1));
    assert_eq!(now.version, 1);
}

#[test]
fn versions_only_rise() {
    let mut store = MemoryLabelStore::new();
    store.create_label("g").unwrap();
    let mut last = 0;
    let mut winners = 0;
    // callers that all read the label at some earlier time
    for round in 0..20u32 {
        let seen = store.get_label("g").unwrap();
        for caller in 0..3u32 {
            let layer = [round, caller, 0, 0, 0];
            if store.set_label(&seen, Some(layer)) && store.get_label("g").unwrap().version > last {
                winners += 1;
            }
            let now = store.get_label("g").unwrap().version;
            assert!(now >= last);
            assert!(now <= last + 1);
            last = now;
        }
    }
    assert_eq!(winners, 20);
    assert_eq!(last, 20);
}

#[test]
fn store_creates_each_label_once() {
    let mut store = MemoryLabelStore::new();
    assert_eq!(store.get_label("a"), None);
    assert!(store.create_label("a").is_ok());
    assert!(store.create_label("b").is_ok());
    assert_eq!(store.create_label("a"), Err(LabelCreationError::AlreadyExists));
    assert_eq!(store.labels(), vec!["a".to_string(), "b".to_string()]);
    assert!(!store.set_label(&Label::new_empty("missing"), Some(L1)));
    // moving to the layer that is there changes nothing
    let a = store.get_label("a").unwrap();
    assert!(store.set_label(&a, None));
    assert_eq!(store.get_label("a").unwrap().version, 0);
}

#[test]
fn creation_errors_carry_over() {
    assert_eq!(
        NamedGraphCreationError::from(LabelCreationError::AlreadyExists),
        NamedGraphCreationError::AlreadyExists
    );
    assert_eq!(
        NamedGraphCreationError::from(LabelCreationError::Unexpected),
        NamedGraphCreationError::Unexpected
    );
    assert_eq!(LabelCreationError::AlreadyExists.message(), "label already exists");
    assert_eq!(
        NamedGraphCreationError::AlreadyExists.message(),
        "named graph already exists"
    );
}

#[test]
fn children_are_the_layers_that_stand_on_a_layer() {
    let listed = |name: u128, parent: Option<u128>| ListedLayer { name, parent };
    let layers = vec![
        listed(1, None),
        listed(5, Some(1)),
        listed(2, Some(5)),
        listed(9, Some(1)),
        listed(7, None),
    ];
    assert_eq!(layer_children(&layers, 1), vec![5, 9]);
    assert_eq!(layer_children(&layers, 5), vec![2]);
    assert_eq!(layer_children(&layers, 7), Vec::<u128>::new());
    assert_eq!(layer_children(&layers, 3), Vec::<u128>::new());
    assert_eq!(layer_children(&vec![], 1), Vec::<u128>::new());
}
