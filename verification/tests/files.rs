use terminus_store::layer::base::BaseLayer;
use terminus_store::layer::child::ChildLayer;
use terminus_store::layer::files::{
    lists_to_files, object_index_from_files, objects_to_files, triple_index_from_files,
    triple_index_to_files,
    base_layer_from_files, base_layer_to_files, bits_from_file, bits_to_file,
    child_layer_from_files, child_layer_to_files, triples_from_files, triples_to_triple_files,
    dictionary_from_files, dictionary_to_files, index_from_files, index_to_files,
    layer_type, list_from_files, list_to_files, numbers_from_file, numbers_to_file, read_meta,
    triples_to_files, wavelet_tree_holds, write_meta, BaseLayerFiles,
};
use terminus_store::layer::layer::{IdTriple, Layer, ObjectType, ParentLayer};
use terminus_store::storage::layer::LayerType;
use terminus_store::structure::adjacencylist::{decode_triples, encode_triples, TripleLists};
use terminus_store::structure::objectindex::{encode_objects, ObjectIndex};
use terminus_store::structure::tripleindex::TripleIndex;
use terminus_store::structure::bitarray::bits_to_array;
use terminus_store::structure::bitindex::BitIndex;
use terminus_store::structure::logarray::{greatest, pack};
use terminus_store::structure::pfc::{PfcDict, PfcDictBuilder};

fn dict(words: &[&str]) -> PfcDict {
    let mut builder = PfcDictBuilder::new();
    for w in words {
        builder.add(w.as_bytes()).unwrap();
    }
    builder.into_dict()
}

fn t(subject: u64, predicate: u64, object: u64) -> IdTriple {
    IdTriple { subject, predicate, object }
}

fn triples() -> Vec<IdTriple> {
    vec![t(1, 1, 3), t(1, 2, 4), t(3, 1, 3), t(3, 2, 4), t(3, 2, 5)]
}

fn base() -> BaseLayer {
    BaseLayer::new(
        dict(&["cow", "duck", "grass"]),
        dict(&["eats", "says"]),
        dict(&["moo", "quack"]),
        triples(),
    )
    .unwrap()
}

#[test]
fn triples_become_two_lists() {
    let lists = encode_triples(&triples());
    // subject 2 has no triples: a pair with predicate 0 keeps the count
    assert_eq!(lists.predicates, vec![1, 2, 0, 1, 2]);
    assert_eq!(lists.ends_subject, vec![false, true, true, false, true]);
    assert_eq!(lists.objects, vec![3, 4, 0, 3, 4, 5]);
    assert_eq!(lists.ends_pair, vec![true, true, true, true, false, true]);
    assert_eq!(decode_triples(&lists), Some(triples()));
    let none = encode_triples(&vec![]);
    assert!(none.objects.is_empty());
    assert_eq!(decode_triples(&none), Some(vec![]));
}

#[test]
fn lists_that_do_not_fit_are_refused() {
    let mut lists = encode_triples(&triples());
    lists.ends_pair.push(true);
    assert_eq!(decode_triples(&lists), None);
    let mut lists = encode_triples(&triples());
    lists.ends_subject.pop();
    assert_eq!(decode_triples(&lists), None);
    // an object behind the last pair
    let lists = TripleLists {
        predicates: vec![1],
        ends_subject: vec![true],
        objects: vec![1, 2],
        ends_pair: vec![true, true],
    };
    assert_eq!(decode_triples(&lists), None);
}

#[test]
fn indexed_lists_answer_by_rank_and_select() {
    let index = TripleIndex::build_checked(&encode_triples(&triples()), 5).unwrap();
    assert_eq!(index.len(), 6);
    assert_eq!(index.pairs(), 5);
    // every place, the one that keeps the count of subject 2 too
    let places: Vec<IdTriple> = (0..6).map(|j| index.triple_at(j)).collect();
    assert_eq!(
        places,
        vec![t(1, 1, 3), t(1, 2, 4), t(2, 0, 0), t(3, 1, 3), t(3, 2, 4), t(3, 2, 5)]
    );
    assert_eq!(index.pairs_with_predicate(1), vec![0, 3]);
    assert_eq!(index.pairs_with_predicate(2), vec![1, 4]);
    assert_eq!(index.pairs_with_predicate(3), Vec::<u64>::new());
    assert_eq!(index.places_of_pair(0), (0, 1));
    assert_eq!(index.places_of_pair(3), (3, 4));
    assert_eq!(index.places_of_pair(4), (4, 6));
    assert_eq!(index.places_of_pair(5), (6, 6));
    assert_eq!(index.places_of_pair(u64::MAX), (6, 6));
    assert_eq!(index.pairs_of_subject(0), (0, 0));
    assert_eq!(index.pairs_of_subject(1), (0, 2));
    assert_eq!(index.pairs_of_subject(2), (2, 3));
    assert_eq!(index.pairs_of_subject(3), (3, 5));
    assert_eq!(index.pairs_of_subject(4), (5, 5));
    assert_eq!(index.triples_with_predicate(1), vec![t(1, 1, 3), t(3, 1, 3)]);
    assert_eq!(
        index.triples_with_predicate(2),
        vec![t(1, 2, 4), t(3, 2, 4), t(3, 2, 5)]
    );
    assert_eq!(index.triples_with_predicate(0), vec![t(2, 0, 0)]);
    assert_eq!(index.triples_with_predicate(7), vec![]);
}

#[test]
fn places_are_listed_by_object() {
    let lists = encode_objects(&vec![3, 4, 0, 3, 4, 5], 5);
    // objects 1 and 2 stand nowhere: a zero each keeps the count
    assert_eq!(lists.places, vec![0, 0, 1, 4, 2, 5, 6]);
    assert_eq!(lists.ends, vec![true, true, false, true, false, true, true]);
    let index = ObjectIndex::build(&lists);
    assert_eq!(index.count(), 5);
    assert_eq!(index.positions(0), Vec::<u64>::new());
    assert_eq!(index.positions(1), Vec::<u64>::new());
    assert_eq!(index.positions(3), vec![0, 3]);
    assert_eq!(index.positions(4), vec![1, 4]);
    assert_eq!(index.positions(5), vec![5]);
    assert_eq!(index.positions(6), Vec::<u64>::new());
    let none = encode_objects(&vec![], 0);
    assert!(none.places.is_empty() && none.ends.is_empty());
    let unused = encode_objects(&vec![0, 0], 2);
    assert_eq!(unused.places, vec![0, 0]);
    assert_eq!(unused.ends, vec![true, true]);
}

#[test]
fn indexed_lists_answer_by_object() {
    let index = TripleIndex::build_checked(&encode_triples(&triples()), 5).unwrap();
    assert_eq!(index.places_of_object(3), vec![0, 3]);
    assert_eq!(index.places_of_object(5), vec![5]);
    assert_eq!(index.places_of_object(0), Vec::<u64>::new());
    assert_eq!(index.triples_with_object(3), vec![t(1, 1, 3), t(3, 1, 3)]);
    assert_eq!(index.triples_with_object(4), vec![t(1, 2, 4), t(3, 2, 4)]);
    assert_eq!(index.triples_with_object(5), vec![t(3, 2, 5)]);
    assert_eq!(index.triples_with_object(0), vec![]);
    assert_eq!(index.triples_with_object(1), vec![]);
    assert_eq!(index.triples_with_object(9), vec![]);
}

#[test]
fn indexed_lists_go_through_files() {
    let files = triple_index_to_files(&triples(), 5);
    let index = triple_index_from_files(&files, 5).unwrap();
    assert_eq!(index.count(), 5);
    assert_eq!(index.len(), 6);
    assert_eq!(index.triples_with_predicate(2), vec![t(1, 2, 4), t(3, 2, 4), t(3, 2, 5)]);
    assert_eq!(index.triples_with_object(3), vec![t(1, 1, 3), t(3, 1, 3)]);
    // the three first are the files of the lists themselves
    let (s_p, sp_o, wavelet) = lists_to_files(&encode_triples(&triples()));
    assert_eq!(files.s_p_adjacency_list_files.nums_file, s_p.nums_file);
    assert_eq!(files.sp_o_adjacency_list_files.bits_file, sp_o.bits_file);
    assert_eq!(files.predicate_wavelet_tree_files.bits_file, wavelet.bits_file);
    // the places by object must be those of the count that is asked for
    assert!(triple_index_from_files(&files, 6).is_none());
    let more = triple_index_to_files(&triples(), 6);
    assert!(triple_index_from_files(&more, 6).is_some());
    // and those of the objects of the second list
    let mut other = triple_index_to_files(&triples(), 5);
    other.o_ps_adjacency_list_files = objects_to_files(&vec![3, 4, 0, 3, 5, 4], 5);
    assert!(triple_index_from_files(&other, 5).is_none());
    let mut cut = triple_index_to_files(&triples(), 5);
    cut.o_ps_adjacency_list_files.nums_file.pop();
    assert!(triple_index_from_files(&cut, 5).is_none());
}

#[test]
fn places_by_object_go_through_files() {
    let objects = vec![3, 4, 0, 3, 4, 5];
    let files = objects_to_files(&objects, 5);
    // seven places, the greatest of them 6: three bits each
    assert_eq!(numbers_from_file(&files.nums_file), Some(vec![0, 0, 1, 4, 2, 5, 6]));
    assert_eq!(
        bits_from_file(&files.bits_file),
        Some(vec![true, true, false, true, false, true, true])
    );
    let index = object_index_from_files(&files, &objects, 5).unwrap();
    assert_eq!(index.positions(4), vec![1, 4]);
    assert!(object_index_from_files(&files, &objects, 6).is_none());
    assert!(object_index_from_files(&files, &vec![3, 4, 0, 3, 4, 4], 5).is_none());
}

#[test]
fn base_layer_gives_its_index() {
    let layer = base();
    let index = layer.triple_index().unwrap();
    // three nodes and two values
    assert_eq!(index.count(), 5);
    assert_eq!(index.len(), 6);
    assert_eq!(index.triples_with_predicate(1), vec![t(1, 1, 3), t(3, 1, 3)]);
    assert_eq!(index.triples_with_object(5), vec![t(3, 2, 5)]);
    let (from, to) = index.pairs_of_subject(3);
    let mut found = vec![];
    for pair in from..to {
        let (start, end) = index.places_of_pair(pair);
        for place in start..end {
            found.push(index.triple_at(place));
        }
    }
    assert_eq!(found, vec![t(3, 1, 3), t(3, 2, 4), t(3, 2, 5)]);
}

#[test]
fn indexed_lists_are_checked() {
    let mut lists = encode_triples(&triples());
    lists.ends_pair.push(true);
    assert!(TripleIndex::build_checked(&lists, 5).is_none());
    // a last pair that no bit ends still has its places
    let lists = TripleLists {
        predicates: vec![4, 5],
        ends_subject: vec![false, false],
        objects: vec![7, 8, 9],
        ends_pair: vec![true, false, false],
    };
    let index = TripleIndex::build_checked(&lists, 9).unwrap();
    assert_eq!(index.count(), 9);
    // an object beyond the count
    assert!(TripleIndex::build_checked(&lists, 8).is_none());
    assert_eq!(index.places_of_pair(0), (0, 1));
    assert_eq!(index.places_of_pair(1), (1, 3));
    assert_eq!(index.places_of_pair(2), (3, 3));
    assert_eq!(index.triples_with_predicate(5), vec![t(1, 5, 8), t(1, 5, 9)]);
    let empty = TripleLists {
        predicates: vec![],
        ends_subject: vec![],
        objects: vec![],
        ends_pair: vec![],
    };
    let index = TripleIndex::build_checked(&empty, 0).unwrap();
    assert_eq!(index.len(), 0);
    assert_eq!(index.places_of_pair(0), (0, 0));
    assert_eq!(index.triples_with_predicate(0), vec![]);
}

#[test]
fn numbers_and_bits_go_through_files() {
    assert_eq!(greatest(&vec![3, 9, 2]), 9);
    assert_eq!(greatest(&vec![]), 0);
    let file = numbers_to_file(&vec![3, 9, 2]);
    // 9 takes four bits
    assert_eq!(&file[8..], &[0, 0, 0, 0, 0, 0, 3, 4]);
    assert_eq!(numbers_from_file(&file), Some(vec![3, 9, 2]));
    assert_eq!(numbers_from_file(&file[1..]), None);
    let bits = vec![true, false, true];
    let file = bits_to_file(&bits);
    assert_eq!(file[0], 0b1010_0000);
    assert_eq!(bits_from_file(&file), Some(bits.clone()));
    assert_eq!(bits_from_file(&[]), None);
    let numbers = pack(&vec![5, 6, 7], 3, 7);
    let files = list_to_files(&numbers, &bits);
    let (read_numbers, read_bits) = list_from_files(&files).unwrap();
    assert_eq!(read_numbers.decode(), vec![5, 6, 7]);
    assert_eq!(read_bits, bits);
    let mut broken = list_to_files(&numbers, &bits);
    broken.blocks_file[0] ^= 0x80;
    assert!(list_from_files(&broken).is_none());
}

#[test]
fn index_goes_through_files() {
    let index = BitIndex::build(bits_to_array(&vec![true, true, false]));
    let files = index_to_files(&index);
    let read = index_from_files(&files).unwrap();
    assert_eq!(read.rank1(3), 2);
    let mut broken = index_to_files(&index);
    broken.sblocks_file.pop();
    assert!(index_from_files(&broken).is_none());
}

#[test]
fn dictionary_goes_through_files() {
    let files = dictionary_to_files(&dict(&["a", "ab", "b"]));
    let read = dictionary_from_files(&files).unwrap();
    assert_eq!(read.len(), 3);
    assert_eq!(read.get(1), b"ab".to_vec());
    let mut broken = dictionary_to_files(&dict(&["a", "ab", "b"]));
    broken.offsets_file = numbers_to_file(&vec![1]);
    assert!(dictionary_from_files(&broken).is_none());
}

#[test]
fn metadata_names_the_parent() {
    assert_eq!(write_meta(None), b"base".to_vec());
    assert_eq!(
        write_meta(Some([1, 2, 3, 4, 5])),
        b"0000000100000002000000030000000400000005".to_vec()
    );
    assert_eq!(read_meta(b"base"), Some(None));
    assert_eq!(
        read_meta(b"0000000100000002000000030000000400000005"),
        Some(Some([1, 2, 3, 4, 5]))
    );
    assert_eq!(read_meta(b"bass"), None);
    assert_eq!(read_meta(b""), None);
    assert_eq!(layer_type(&None), LayerType::Base);
    assert_eq!(layer_type(&Some([0; 5])), LayerType::Child);
}

#[test]
fn base_layer_goes_through_files() {
    let layer = base();
    let files = base_layer_to_files(&layer);
    assert_eq!(files.meta_file, b"base".to_vec());
    let read = base_layer_from_files(&files).unwrap();
    assert_eq!(read.triples(), triples());
    assert_eq!(read.node_and_value_count(), 5);
    assert_eq!(read.id_object(5), Some(ObjectType::Value("quack".to_string())));
    assert_eq!(read.predicate_id("says"), Some(2));
    assert_eq!(read.subject_id("grass"), Some(3));
    let empty = BaseLayer::new(dict(&[]), dict(&[]), dict(&[]), vec![]).unwrap();
    let read = base_layer_from_files(&base_layer_to_files(&empty)).unwrap();
    assert!(read.triples().is_empty());
}

fn with(change: impl Fn(&mut BaseLayerFiles)) -> Option<BaseLayer> {
    let mut files = base_layer_to_files(&base());
    change(&mut files);
    base_layer_from_files(&files)
}

#[test]
fn files_of_no_layer_are_refused() {
    assert!(with(|_| {}).is_some());
    assert!(with(|f| f.meta_file = write_meta(Some([1; 5]))).is_none());
    assert!(with(|f| f.meta_file.clear()).is_none());
    assert!(with(|f| f.node_dictionary_files = dictionary_to_files(&dict(&["cow"]))).is_none());
    assert!(with(|f| f.predicate_dictionary_files.blocks_file[1] = 0).is_none());
    assert!(with(|f| f.value_dictionary_files.offsets_file.clear()).is_none());
    // the lists of other triples, with the old wavelet tree
    assert!(with(|f| f.s_p_adjacency_list_files = triples_to_files(&vec![t(1, 1, 1)]).0).is_none());
    // triples that are out of order
    assert!(with(|f| {
        let lists = TripleLists {
            predicates: vec![2, 1],
            ends_subject: vec![false, true],
            objects: vec![3, 3],
            ends_pair: vec![true, true],
        };
        let predicates = pack(&lists.predicates, 2, 3);
        let (_, _, wavelet) = triples_to_files(&vec![t(1, 2, 3)]);
        f.s_p_adjacency_list_files = list_to_files(&predicates, &lists.ends_subject);
        f.sp_o_adjacency_list_files = list_to_files(&pack(&lists.objects, 2, 3), &lists.ends_pair);
        f.predicate_wavelet_tree_files = wavelet;
    })
    .is_none());
    assert!(with(|f| f.predicate_wavelet_tree_files.bits_file[0] ^= 1).is_none());
    let files = base_layer_to_files(&base());
    let (numbers, _) = list_from_files(&files.s_p_adjacency_list_files).unwrap();
    assert!(wavelet_tree_holds(&files.predicate_wavelet_tree_files, &numbers));
    let (objects, _) = list_from_files(&files.sp_o_adjacency_list_files).unwrap();
    assert!(!wavelet_tree_holds(&files.predicate_wavelet_tree_files, &objects));
}

#[test]
fn child_layer_goes_through_files() {
    let parent_name = [7, 7, 7, 7, 7];
    let make = || {
        ChildLayer::new(
            ParentLayer::Base(base()),
            dict(&["horse"]),
            dict(&["likes"]),
            dict(&["neigh"]),
            vec![t(1, 3, 2), t(6, 2, 7)],
            vec![t(3, 2, 4)],
        )
        .unwrap()
    };
    let layer = make();
    assert_eq!(layer.additions(), &vec![t(1, 3, 2), t(6, 2, 7)]);
    assert_eq!(layer.removals(), &vec![t(3, 2, 4)]);
    assert_eq!(layer.parent().triples(), triples());
    assert_eq!(layer.node_dictionary().len(), 1);
    assert_eq!(layer.predicate_dictionary().len(), 1);
    assert_eq!(layer.value_dictionary().len(), 1);
    let files = child_layer_to_files(&layer, parent_name);
    assert_eq!(files.meta_file, b"0000000700000007000000070000000700000007".to_vec());
    assert_eq!(triples_from_files(&files.removals_files), Some(vec![t(3, 2, 4)]));
    let read = child_layer_from_files(ParentLayer::Base(base()), parent_name, &files).unwrap();
    assert_eq!(read.triples(), layer.triples());
    assert_eq!(read.subject_id("horse"), Some(6));
    assert_eq!(read.id_object(7), Some(ObjectType::Value("neigh".to_string())));
    // the files name another parent
    assert!(child_layer_from_files(ParentLayer::Base(base()), [8; 5], &files).is_none());
    // the parent does not hold what is removed
    let other = BaseLayer::new(dict(&["cow", "duck", "grass"]), dict(&["eats", "says"]), dict(&["moo", "quack"]), vec![t(1, 1, 3)]).unwrap();
    assert!(child_layer_from_files(ParentLayer::Base(other), parent_name, &files).is_none());
    // files of a base layer are no files of a child
    let mut as_base = child_layer_to_files(&make(), parent_name);
    as_base.meta_file = write_meta(None);
    assert!(child_layer_from_files(ParentLayer::Base(base()), parent_name, &as_base).is_none());
    let mut broken = child_layer_to_files(&make(), parent_name);
    broken.additions_files = triples_to_triple_files(&vec![t(9, 9, 9)]);
    assert!(child_layer_from_files(ParentLayer::Base(base()), parent_name, &broken).is_none());
}
