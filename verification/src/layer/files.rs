//! The files of a layer.
//!
//! A layer on disk is a set of files: two for each of its three
//! dictionaries, four for each of the two lists of its triples, three for
//! the wavelet tree over the predicates of its pairs, and one that says
//! whether the layer stands alone or on which layer it stands.

use crate::layer::base::BaseLayer;
use crate::layer::child::{all_among, none_among, ChildLayer};
use crate::layer::layer::ParentLayer;
use crate::storage::label::same_layer;
use crate::layer::layer::{ids_within, triples_sorted, IdTriple, Layer};
use crate::storage::layer::LayerType;
use crate::structure::wavelettree::{
    build_wavelet_tree, encodes, lemma_symbols_decided, WaveletTree,
};
use crate::text::same_bytes;
use crate::storage::layer::{hex_name, hex_to_name, name_hex, name_to_hex};
use crate::structure::adjacencylist::{
    decode_triples, encode_triples, object_among, Lists, TripleLists,
};
use crate::structure::objectindex::{encode_objects, ObjectIndex, Runs};
use crate::structure::tripleindex::{fits, TripleIndex};
use crate::structure::bitarray::{bits_of, bits_to_array, declared_bits, BitArray};
use crate::structure::bitindex::{index_matches, BitIndex};
use crate::structure::logarray::{
    declared_entries, file_bits, greatest, log_entries, pack, width_for, LogArray, MAX_ENTRIES,
};
use crate::structure::pfc::{is_dictionary_file, is_dictionary_of, PfcDict};
use vstd::prelude::*;

verus! {

/// The numbers that a file holds as a log array, if it is the file of one.
pub open spec fn numbers_in(file: Seq<u8>) -> Option<Seq<u64>> {
    match declared_entries(file) {
        Some((width, count)) => Some(log_entries(file_bits(file), width, count)),
        None => None,
    }
}

/// The bits that a file holds as a bit array, if it is the file of one.
pub open spec fn bits_in(file: Seq<u8>) -> Option<Seq<bool>> {
    match declared_bits(file) {
        Some(count) => Some(bits_of(file, count)),
        None => None,
    }
}

/// The file of `values` as a log array, as narrow as the greatest of them
/// allows.
pub fn numbers_to_file(values: &Vec<u64>) -> (file: Vec<u8>)
    requires
        values@.len() <= MAX_ENTRIES,
        values@.len() * 64 + 128 <= usize::MAX,
    ensures
        numbers_in(file@) == Some(values@),
{
    let top = greatest(values);
    let width = width_for(top);
    let array = pack(values, width, top);
    array.to_file()
}

/// The numbers that `file` holds, if it is the file of a log array.
pub fn numbers_from_file(file: &[u8]) -> (values: Option<Vec<u64>>)
    ensures
        values is Some <==> numbers_in(file@) is Some,
        values is Some ==> Some(values->Some_0@) == numbers_in(file@),
{
    match LogArray::parse(file) {
        Ok(array) => Some(array.decode()),
        Err(_) => None,
    }
}

/// The file of `bits` as a bit array.
pub fn bits_to_file(bits: &Vec<bool>) -> (file: Vec<u8>)
    requires
        bits@.len() + 128 <= usize::MAX,
        bits@.len() < u64::MAX,
    ensures
        bits_in(file@) == Some(bits@),
{
    bits_to_array(bits).to_file()
}

/// The bits that `file` holds, if it is the file of a bit array.
pub fn bits_from_file(file: &[u8]) -> (bits: Option<Vec<bool>>)
    ensures
        bits is Some <==> bits_in(file@) is Some,
        bits is Some ==> Some(bits->Some_0@) == bits_in(file@),
{
    match BitArray::from_bits(file) {
        Ok(array) => {
            let len = array.len();
            let mut bits: Vec<bool> = Vec::new();
            let mut i: u64 = 0;
            while i < len
                invariant
                    i <= len,
                    len == array@.len(),
                    bits@ == array@.take(i as int),
                decreases len - i,
            {
                bits.push(array.get(i));
                proof {
                    assert(bits@ =~= array@.take(i as int + 1));
                }
                i += 1;
            }
            proof {
                assert(array@.take(len as int) =~= array@);
            }
            Some(bits)
        },
        Err(_) => None,
    }
}

/// The two files of a dictionary.
pub struct DictionaryFiles<F> {
    pub blocks_file: F,
    pub offsets_file: F,
}

/// The three files of a bit array with its rank index.
pub struct BitIndexFiles<F> {
    pub bits_file: F,
    pub blocks_file: F,
    pub sblocks_file: F,
}

/// The four files of an adjacency list: its bits with their rank index,
/// and its numbers.
pub struct AdjacencyListFiles<F> {
    pub bits_file: F,
    pub blocks_file: F,
    pub sblocks_file: F,
    pub nums_file: F,
}

/// The strings of the dictionary that `files` hold, if they are the files of
/// one.
pub open spec fn dictionary_in(files: DictionaryFiles<Vec<u8>>) -> Option<Seq<Seq<u8>>> {
    match numbers_in(files.offsets_file@) {
        Some(offsets) => if is_dictionary_file(files.blocks_file@, offsets) {
            Some(
                choose|strings: Seq<Seq<u8>>| #[trigger]
                    is_dictionary_of(files.blocks_file@, offsets, strings),
            )
        } else {
            None
        },
        None => None,
    }
}

/// The files of the dictionary `dict`.
pub fn dictionary_to_files(dict: &PfcDict) -> (files: DictionaryFiles<Vec<u8>>)
    requires
        dict@.len() <= MAX_ENTRIES,
        dict@.len() * 64 + 128 <= usize::MAX,
    ensures
        dictionary_in(files) == Some(dict@),
{
    let (blocks_file, offsets) = dict.to_files();
    let offsets_file = numbers_to_file(&offsets);
    let files = DictionaryFiles { blocks_file, offsets_file };
    proof {
        let found = dictionary_in(files)->Some_0;
        crate::structure::pfc::lemma_strings_decided(blocks_file@, offsets@, found, dict@);
    }
    files
}

/// The dictionary that `files` hold, if they are the files of one.
pub fn dictionary_from_files(files: &DictionaryFiles<Vec<u8>>) -> (dict: Option<PfcDict>)
    requires
        files.blocks_file@.len() * 4 + 256 <= usize::MAX,
    ensures
        dict is Some <==> dictionary_in(*files) is Some,
        dict is Some ==> Some(dict->Some_0@) == dictionary_in(*files),
{
    let offsets = match numbers_from_file(files.offsets_file.as_slice()) {
        Some(offsets) => offsets,
        None => {
            return None;
        },
    };
    match PfcDict::parse(files.blocks_file.as_slice(), &offsets) {
        Ok(dict) => {
            proof {
                let found = dictionary_in(*files)->Some_0;
                crate::structure::pfc::lemma_strings_decided(
                    files.blocks_file@,
                    offsets@,
                    found,
                    dict@,
                );
            }
            Some(dict)
        },
        Err(_) => None,
    }
}

/// The bits that `files` hold, if they are the files of a bit array and of
/// the rank index that goes with it.
pub open spec fn indexed_bits_in(files: BitIndexFiles<Vec<u8>>) -> Option<Seq<bool>> {
    match (bits_in(files.bits_file@), numbers_in(files.blocks_file@), numbers_in(
        files.sblocks_file@,
    )) {
        (Some(bits), Some(blocks), Some(sblocks)) => if index_matches(bits, blocks, sblocks) {
            Some(bits)
        } else {
            None
        },
        _ => None,
    }
}

/// The files of the bit array `index` and of its rank index.
pub fn index_to_files(index: &BitIndex) -> (files: BitIndexFiles<Vec<u8>>)
    requires
        index@.len() * 8 + 4096 <= usize::MAX,
    ensures
        indexed_bits_in(files) == Some(index@),
{
    let blocks = index.blocks();
    let sblocks = index.sblocks();
    BitIndexFiles {
        bits_file: index.array().to_file(),
        blocks_file: blocks.to_file(),
        sblocks_file: sblocks.to_file(),
    }
}

/// The indexed bit array that `files` hold, if they are the files of one.
pub fn index_from_files(files: &BitIndexFiles<Vec<u8>>) -> (index: Option<BitIndex>)
    ensures
        index is Some <==> indexed_bits_in(*files) is Some,
        index is Some ==> Some(index->Some_0@) == indexed_bits_in(*files),
{
    let array = match BitArray::from_bits(files.bits_file.as_slice()) {
        Ok(array) => array,
        Err(_) => {
            return None;
        },
    };
    let blocks = match LogArray::parse(files.blocks_file.as_slice()) {
        Ok(blocks) => blocks,
        Err(_) => {
            return None;
        },
    };
    let sblocks = match LogArray::parse(files.sblocks_file.as_slice()) {
        Ok(sblocks) => sblocks,
        Err(_) => {
            return None;
        },
    };
    BitIndex::from_parts_checked(array, blocks, sblocks)
}

/// What the files of an adjacency list hold: the width of its numbers, its
/// numbers, and its bits.
pub struct ListModel {
    pub width: nat,
    pub numbers: Seq<u64>,
    pub bits: Seq<bool>,
}

/// What `files` hold, if they are the files of an adjacency list.
pub open spec fn list_in(files: AdjacencyListFiles<Vec<u8>>) -> Option<ListModel> {
    match (
        declared_entries(files.nums_file@),
        numbers_in(files.nums_file@),
        indexed_bits_in(
            BitIndexFiles {
                bits_file: files.bits_file,
                blocks_file: files.blocks_file,
                sblocks_file: files.sblocks_file,
            },
        ),
    ) {
        (Some((width, _)), Some(numbers), Some(bits)) => Some(ListModel { width, numbers, bits }),
        _ => None,
    }
}

/// The files of the adjacency list of `numbers` and `bits`.
pub fn list_to_files(numbers: &LogArray, bits: &Vec<bool>) -> (files: AdjacencyListFiles<Vec<u8>>)
    requires
        numbers@.len() * 8 + 128 <= usize::MAX,
        bits@.len() * 8 + 4096 <= usize::MAX,
    ensures
        list_in(files) == Some(
            ListModel { width: numbers.spec_width(), numbers: numbers@, bits: bits@ },
        ),
{
    let index = BitIndex::build(bits_to_array(bits));
    let parts = index_to_files(&index);
    let BitIndexFiles { bits_file, blocks_file, sblocks_file } = parts;
    let files = AdjacencyListFiles {
        bits_file,
        blocks_file,
        sblocks_file,
        nums_file: numbers.to_file(),
    };
    proof {
        assert(BitIndexFiles {
            bits_file: files.bits_file,
            blocks_file: files.blocks_file,
            sblocks_file: files.sblocks_file,
        } == parts);
    }
    files
}

/// The adjacency list that `files` hold, if they are the files of one: its
/// numbers and its bits.
pub fn list_from_files(files: &AdjacencyListFiles<Vec<u8>>) -> (list: Option<(LogArray, Vec<bool>)>)
    ensures
        list is Some <==> list_in(*files) is Some,
        list is Some ==> list_in(*files) == Some(
            ListModel {
                width: list->Some_0.0.spec_width(),
                numbers: list->Some_0.0@,
                bits: list->Some_0.1@,
            },
        ),
{
    let numbers = match LogArray::parse(files.nums_file.as_slice()) {
        Ok(numbers) => numbers,
        Err(_) => {
            return None;
        },
    };
    let bits = match bits_from_file(files.bits_file.as_slice()) {
        Some(bits) => bits,
        None => {
            return None;
        },
    };
    let array = match BitArray::from_bits(files.bits_file.as_slice()) {
        Ok(array) => array,
        Err(_) => {
            return None;
        },
    };
    let blocks = match LogArray::parse(files.blocks_file.as_slice()) {
        Ok(blocks) => blocks,
        Err(_) => {
            return None;
        },
    };
    let sblocks = match LogArray::parse(files.sblocks_file.as_slice()) {
        Ok(sblocks) => sblocks,
        Err(_) => {
            return None;
        },
    };
    match BitIndex::from_parts_checked(array, blocks, sblocks) {
        Some(_) => Some((numbers, bits)),
        None => None,
    }
}

/// The word that the metadata of a base layer holds.
pub open spec fn base_word() -> Seq<u8> {
    seq![98u8, 97u8, 115u8, 101u8]
}

/// The metadata of a layer that stands on `parent`, or alone.
pub open spec fn meta_of(parent: Option<Seq<u32>>) -> Seq<u8> {
    match parent {
        None => base_word(),
        Some(name) => name_hex(name),
    }
}

/// What the metadata `meta` says: that the layer stands alone, or on which
/// layer it stands; nothing where it is neither the word `base` nor the
/// name of a layer.
pub open spec fn parent_in(meta: Seq<u8>) -> Option<Option<Seq<u32>>> {
    if meta == base_word() {
        Some(None)
    } else if hex_name(meta) is Some {
        Some(hex_name(meta))
    } else {
        None
    }
}

/// The metadata of a layer that stands on `parent`, or alone.
pub fn write_meta(parent: Option<[u32; 5]>) -> (meta: Vec<u8>)
    ensures
        meta@ == meta_of(crate::storage::label::layer_model(parent)),
        parent_in(meta@) == Some(crate::storage::label::layer_model(parent)),
{
    match parent {
        None => {
            let mut meta: Vec<u8> = Vec::new();
            meta.push(98);
            meta.push(97);
            meta.push(115);
            meta.push(101);
            proof {
                assert(meta@ =~= base_word());
            }
            meta
        },
        Some(name) => {
            proof {
                crate::storage::layer::lemma_name_round_trip(name@);
            }
            name_to_hex(name)
        },
    }
}

/// What the metadata `meta` says, as [`parent_in`] has it.
pub fn read_meta(meta: &[u8]) -> (parent: Option<Option<[u32; 5]>>)
    ensures
        parent is Some <==> parent_in(meta@) is Some,
        parent is Some ==> parent_in(meta@) == Some(
            crate::storage::label::layer_model(parent->Some_0),
        ),
{
    let mut word: Vec<u8> = Vec::new();
    word.push(98);
    word.push(97);
    word.push(115);
    word.push(101);
    proof {
        assert(word@ =~= base_word());
    }
    if same_bytes(meta, word.as_slice()) {
        return Some(None);
    }
    match hex_to_name(meta) {
        Some(name) => Some(Some(name)),
        None => None,
    }
}

/// Whether a layer with the metadata `parent` stands alone or on a parent.
pub fn layer_type(parent: &Option<[u32; 5]>) -> (kind: LayerType)
    ensures
        kind == LayerType::Child <==> *parent is Some,
        kind == LayerType::Base <==> *parent is None,
{
    match parent {
        Some(_) => LayerType::Child,
        None => LayerType::Base,
    }
}

/// The files of a base layer.
pub struct BaseLayerFiles {
    pub node_dictionary_files: DictionaryFiles<Vec<u8>>,
    pub predicate_dictionary_files: DictionaryFiles<Vec<u8>>,
    pub value_dictionary_files: DictionaryFiles<Vec<u8>>,
    pub s_p_adjacency_list_files: AdjacencyListFiles<Vec<u8>>,
    pub sp_o_adjacency_list_files: AdjacencyListFiles<Vec<u8>>,
    pub predicate_wavelet_tree_files: BitIndexFiles<Vec<u8>>,
    pub meta_file: Vec<u8>,
}

/// What a base layer holds: the strings of its three dictionaries, and its
/// triples.
pub struct LayerModel {
    pub nodes: Seq<Seq<u8>>,
    pub predicates: Seq<Seq<u8>>,
    pub values: Seq<Seq<u8>>,
    pub triples: Seq<IdTriple>,
}

/// The two lists that the files of two adjacency lists hold.
pub open spec fn lists_of(s_p: ListModel, sp_o: ListModel) -> Lists {
    Lists {
        predicates: s_p.numbers,
        ends_subject: s_p.bits,
        objects: sp_o.numbers,
        ends_pair: sp_o.bits,
    }
}

/// The base layer that `files` hold, if they are the files of one: the
/// metadata says `base`; the dictionaries are dictionaries; the two lists
/// are well formed, and their triples stand in strictly rising order and
/// hold ids of the dictionaries only; and the wavelet tree is the tree of
/// the predicates of the first list.
pub open spec fn base_layer_in(files: BaseLayerFiles) -> Option<LayerModel> {
    match (
        parent_in(files.meta_file@),
        dictionary_in(files.node_dictionary_files),
        dictionary_in(files.predicate_dictionary_files),
        dictionary_in(files.value_dictionary_files),
        list_in(files.s_p_adjacency_list_files),
        list_in(files.sp_o_adjacency_list_files),
        indexed_bits_in(files.predicate_wavelet_tree_files),
    ) {
        (
            Some(None),
            Some(nodes),
            Some(predicates),
            Some(values),
            Some(s_p),
            Some(sp_o),
            Some(tree),
        ) => {
            let lists = lists_of(s_p, sp_o);
            if lists.well_formed() && triples_sorted(lists.all_triples()) && nodes.len()
                + values.len() <= u64::MAX && ids_within(
                lists.all_triples(),
                nodes.len() + values.len(),
                predicates.len(),
            ) && s_p.numbers.len() <= MAX_ENTRIES && encodes(tree, s_p.width, s_p.numbers) {
                Some(LayerModel { nodes, predicates, values, triples: lists.all_triples() })
            } else {
                None
            }
        },
        _ => None,
    }
}

/// What the base layer `layer` holds.
pub open spec fn model_of(layer: BaseLayer) -> LayerModel {
    LayerModel {
        nodes: layer.nodes(),
        predicates: layer.predicates(),
        values: layer.values(),
        triples: layer.spec_triples(),
    }
}

/// The files are small enough to be read on this machine.
pub open spec fn files_fit(files: BaseLayerFiles) -> bool {
    &&& files.node_dictionary_files.blocks_file@.len() * 4 + 256 <= usize::MAX
    &&& files.predicate_dictionary_files.blocks_file@.len() * 4 + 256 <= usize::MAX
    &&& files.value_dictionary_files.blocks_file@.len() * 4 + 256 <= usize::MAX
    &&& files.predicate_wavelet_tree_files.bits_file@.len() * 512 + 4096 <= usize::MAX
}

fn same_numbers(a: &Vec<u64>, b: &Vec<u64>) -> (same: bool)
    ensures
        same == (a@ == b@),
{
    if a.len() != b.len() {
        return false;
    }
    let mut i: usize = 0;
    while i < a.len()
        invariant
            i <= a.len(),
            a@.len() == b@.len(),
            forall|k: int| 0 <= k < i ==> a@[k] == b@[k],
        decreases a.len() - i,
    {
        if a[i] != b[i] {
            return false;
        }
        i += 1;
    }
    assert(a@ =~= b@);
    true
}

/// Whether `files` are the files of the wavelet tree of `numbers`, with as
/// many layers as the numbers are wide.
pub fn wavelet_tree_holds(files: &BitIndexFiles<Vec<u8>>, numbers: &LogArray) -> (holds: bool)
    requires
        files.bits_file@.len() * 512 + 4096 <= usize::MAX,
    ensures
        holds <==> indexed_bits_in(*files) is Some && encodes(
            indexed_bits_in(*files)->Some_0,
            numbers.spec_width(),
            numbers@,
        ),
{
    let index = match index_from_files(files) {
        Some(index) => index,
        None => {
            return false;
        },
    };
    let ghost tree_bits = index@;
    let layers = numbers.width();
    let count = numbers.len();
    proof {
        crate::structure::bitarray::lemma_declared_bits_bound(files.bits_file@);
    }
    let tree = match WaveletTree::from_parts_checked(index, layers) {
        Some(tree) => tree,
        None => {
            return false;
        },
    };
    let found = tree.decode();
    let wanted = numbers.decode();
    proof {
        if encodes(tree_bits, layers as nat, numbers@) {
            lemma_same_symbols(tree_bits, layers as nat, tree@, numbers@);
        }
    }
    same_numbers(&found, &wanted)
}

/// The bits decide the symbols: two runs of symbols with the same tree are
/// the same.
pub proof fn lemma_same_symbols(bits: Seq<bool>, layers: nat, a: Seq<u64>, b: Seq<u64>)
    requires
        layers >= 1,
        encodes(bits, layers, a),
        encodes(bits, layers, b),
    ensures
        a == b,
{
    assert(a.len() == b.len()) by (nonlinear_arith)
        requires
            layers * a.len() == layers * b.len(),
            layers >= 1,
    ;
    assert forall|i: int| 0 <= i < a.len() implies a[i] == b[i] by {
        lemma_symbols_decided(bits, layers, a, b, i);
    }
    assert(a =~= b);
}

/// Reads a base layer from its files, as [`base_layer_in`] says.
pub fn base_layer_from_files(files: &BaseLayerFiles) -> (layer: Option<BaseLayer>)
    requires
        files_fit(*files),
    ensures
        layer is Some <==> base_layer_in(*files) is Some,
        layer is Some ==> Some(model_of(layer->Some_0)) == base_layer_in(*files),
{
    match read_meta(files.meta_file.as_slice()) {
        Some(None) => {},
        _ => {
            return None;
        },
    }
    let nodes = match dictionary_from_files(&files.node_dictionary_files) {
        Some(dict) => dict,
        None => {
            return None;
        },
    };
    let predicates = match dictionary_from_files(&files.predicate_dictionary_files) {
        Some(dict) => dict,
        None => {
            return None;
        },
    };
    let values = match dictionary_from_files(&files.value_dictionary_files) {
        Some(dict) => dict,
        None => {
            return None;
        },
    };
    let (pair_predicates, ends_subject) = match list_from_files(&files.s_p_adjacency_list_files) {
        Some(list) => list,
        None => {
            return None;
        },
    };
    let (objects, ends_pair) = match list_from_files(&files.sp_o_adjacency_list_files) {
        Some(list) => list,
        None => {
            return None;
        },
    };
    if !wavelet_tree_holds(&files.predicate_wavelet_tree_files, &pair_predicates) {
        return None;
    }
    let lists = TripleLists {
        predicates: pair_predicates.decode(),
        ends_subject,
        objects: objects.decode(),
        ends_pair,
    };
    let triples = match decode_triples(&lists) {
        Some(triples) => triples,
        None => {
            return None;
        },
    };
    BaseLayer::new(nodes, predicates, values, triples)
}

/// The layer is small enough for its files to be made on this machine.
pub open spec fn layer_fits(layer: BaseLayer) -> bool {
    &&& layer.nodes().len() <= MAX_ENTRIES
    &&& layer.predicates().len() <= MAX_ENTRIES
    &&& layer.values().len() <= MAX_ENTRIES
    &&& layer.nodes().len() + layer.values().len() + layer.spec_triples().len() <= MAX_ENTRIES
    &&& (layer.nodes().len() + layer.values().len() + layer.spec_triples().len()) * 512 + 4096
        <= usize::MAX
    &&& layer.predicates().len() * 64 + 128 <= usize::MAX
}

/// The two lists of `triples` as the files of two adjacency lists, and the
/// files of the wavelet tree over the predicates of the first.
pub fn triples_to_files(triples: &Vec<IdTriple>) -> (files: (
    AdjacencyListFiles<Vec<u8>>,
    AdjacencyListFiles<Vec<u8>>,
    BitIndexFiles<Vec<u8>>,
))
    requires
        triples_sorted(triples@),
        forall|i: int|
            0 <= i < triples@.len() ==> (#[trigger] triples@[i]).subject >= 1
                && triples@[i].predicate >= 1,
        triples@.len() > 0 ==> triples@.len() + triples@.last().subject <= MAX_ENTRIES && (
        triples@.len() + triples@.last().subject) * 512 + 4096 <= usize::MAX,
    ensures
        list_in(files.0) is Some,
        list_in(files.1) is Some,
        lists_of(list_in(files.0)->Some_0, list_in(files.1)->Some_0).well_formed(),
        lists_of(list_in(files.0)->Some_0, list_in(files.1)->Some_0).all_triples() == triples@,
        list_in(files.0)->Some_0.numbers.len() <= MAX_ENTRIES,
        indexed_bits_in(files.2) is Some,
        encodes(
            indexed_bits_in(files.2)->Some_0,
            list_in(files.0)->Some_0.width,
            list_in(files.0)->Some_0.numbers,
        ),
{
    let lists = encode_triples(triples);
    lists_to_files(&lists)
}

/// The two lists as the files of two adjacency lists, and the files of the
/// wavelet tree over the predicates of the first.
pub fn lists_to_files(lists: &TripleLists) -> (files: (
    AdjacencyListFiles<Vec<u8>>,
    AdjacencyListFiles<Vec<u8>>,
    BitIndexFiles<Vec<u8>>,
))
    requires
        lists@.predicates.len() == lists@.ends_subject.len(),
        lists@.objects.len() == lists@.ends_pair.len(),
        lists@.predicates.len() <= MAX_ENTRIES,
        lists@.objects.len() <= MAX_ENTRIES,
        lists@.predicates.len() * 512 + 4096 <= usize::MAX,
        lists@.objects.len() * 512 + 4096 <= usize::MAX,
    ensures
        list_in(files.0) is Some,
        list_in(files.1) is Some,
        lists_of(list_in(files.0)->Some_0, list_in(files.1)->Some_0) == lists@,
        indexed_bits_in(files.2) is Some,
        encodes(
            indexed_bits_in(files.2)->Some_0,
            list_in(files.0)->Some_0.width,
            list_in(files.0)->Some_0.numbers,
        ),
{
    let ghost pairs = lists@.predicates.len();
    let top = greatest(&lists.predicates);
    let pair_predicates = pack(&lists.predicates, width_for(top), top);
    let top = greatest(&lists.objects);
    let objects = pack(&lists.objects, width_for(top), top);
    let s_p = list_to_files(&pair_predicates, &lists.ends_subject);
    let sp_o = list_to_files(&objects, &lists.ends_pair);
    let tree = build_wavelet_tree(&pair_predicates);
    proof {
        let layers = tree.spec_layers();
        assert(tree.spec_bits().len() == layers * pairs);
        assert(layers * pairs <= 64 * pairs) by (nonlinear_arith)
            requires
                layers <= 64,
                pairs >= 0,
        ;
    }
    let wavelet = index_to_files(tree.bits());
    proof {
        assert(lists_of(list_in(s_p)->Some_0, list_in(sp_o)->Some_0) == lists@);
    }
    (s_p, sp_o, wavelet)
}

/// The files of the base layer `layer`.  Read as files, they give the
/// layer back.
pub fn base_layer_to_files(layer: &BaseLayer) -> (files: BaseLayerFiles)
    requires
        layer_fits(*layer),
    ensures
        base_layer_in(files) == Some(model_of(*layer)),
{
    let triples = layer.triples();
    let objects = layer.node_and_value_count();
    proof {
        if triples@.len() > 0 {
            assert(triples@.last().subject <= objects);
        }
    }
    let (s_p, sp_o, wavelet) = triples_to_files(&triples);
    BaseLayerFiles {
        node_dictionary_files: dictionary_to_files(layer.node_dictionary()),
        predicate_dictionary_files: dictionary_to_files(layer.predicate_dictionary()),
        value_dictionary_files: dictionary_to_files(layer.value_dictionary()),
        s_p_adjacency_list_files: s_p,
        sp_o_adjacency_list_files: sp_o,
        predicate_wavelet_tree_files: wavelet,
        meta_file: write_meta(None),
    }
}

/// The files of the triples that a child layer adds or removes: two
/// adjacency lists and the wavelet tree over the predicates of the first.
pub struct TripleFiles {
    pub s_p_adjacency_list_files: AdjacencyListFiles<Vec<u8>>,
    pub sp_o_adjacency_list_files: AdjacencyListFiles<Vec<u8>>,
    pub predicate_wavelet_tree_files: BitIndexFiles<Vec<u8>>,
}

/// The files of a child layer.
pub struct ChildLayerFiles {
    pub node_dictionary_files: DictionaryFiles<Vec<u8>>,
    pub predicate_dictionary_files: DictionaryFiles<Vec<u8>>,
    pub value_dictionary_files: DictionaryFiles<Vec<u8>>,
    pub additions_files: TripleFiles,
    pub removals_files: TripleFiles,
    pub meta_file: Vec<u8>,
}

/// The triples that `files` hold, if they are the files of two well-formed
/// lists and of the wavelet tree over the predicates of the first.
pub open spec fn triples_in(files: TripleFiles) -> Option<Seq<IdTriple>> {
    match (
        list_in(files.s_p_adjacency_list_files),
        list_in(files.sp_o_adjacency_list_files),
        indexed_bits_in(files.predicate_wavelet_tree_files),
    ) {
        (Some(s_p), Some(sp_o), Some(tree)) => if lists_of(s_p, sp_o).well_formed() && encodes(
            tree,
            s_p.width,
            s_p.numbers,
        ) {
            Some(lists_of(s_p, sp_o).all_triples())
        } else {
            None
        },
        _ => None,
    }
}

/// The triples that `files` hold, as [`triples_in`] says.
pub fn triples_from_files(files: &TripleFiles) -> (triples: Option<Vec<IdTriple>>)
    requires
        files.predicate_wavelet_tree_files.bits_file@.len() * 512 + 4096 <= usize::MAX,
    ensures
        triples is Some <==> triples_in(*files) is Some,
        triples is Some ==> Some(triples->Some_0@) == triples_in(*files),
{
    let (pair_predicates, ends_subject) = match list_from_files(&files.s_p_adjacency_list_files) {
        Some(list) => list,
        None => {
            return None;
        },
    };
    let (objects, ends_pair) = match list_from_files(&files.sp_o_adjacency_list_files) {
        Some(list) => list,
        None => {
            return None;
        },
    };
    if !wavelet_tree_holds(&files.predicate_wavelet_tree_files, &pair_predicates) {
        return None;
    }
    let lists = TripleLists {
        predicates: pair_predicates.decode(),
        ends_subject,
        objects: objects.decode(),
        ends_pair,
    };
    decode_triples(&lists)
}

/// The files of `triples`, which stand in strictly rising order and hold no
/// id zero.
pub fn triples_to_triple_files(triples: &Vec<IdTriple>) -> (files: TripleFiles)
    requires
        triples_sorted(triples@),
        forall|i: int|
            0 <= i < triples@.len() ==> (#[trigger] triples@[i]).subject >= 1
                && triples@[i].predicate >= 1,
        triples@.len() > 0 ==> triples@.len() + triples@.last().subject <= MAX_ENTRIES && (
        triples@.len() + triples@.last().subject) * 512 + 4096 <= usize::MAX,
    ensures
        triples_in(files) == Some(triples@),
{
    let (s_p, sp_o, wavelet) = triples_to_files(triples);
    TripleFiles {
        s_p_adjacency_list_files: s_p,
        sp_o_adjacency_list_files: sp_o,
        predicate_wavelet_tree_files: wavelet,
    }
}

/// What the files of a child layer hold: the name of its parent, the
/// strings that it adds to the dictionaries, and the triples that it adds
/// and removes.
pub struct ChildModel {
    pub parent: Seq<u32>,
    pub nodes: Seq<Seq<u8>>,
    pub predicates: Seq<Seq<u8>>,
    pub values: Seq<Seq<u8>>,
    pub additions: Seq<IdTriple>,
    pub removals: Seq<IdTriple>,
}

/// What `files` hold, if they are the files of a child layer: the metadata
/// names a parent, the dictionaries are dictionaries, and the files of
/// additions and removals hold triples.
pub open spec fn child_layer_in(files: ChildLayerFiles) -> Option<ChildModel> {
    match (
        parent_in(files.meta_file@),
        dictionary_in(files.node_dictionary_files),
        dictionary_in(files.predicate_dictionary_files),
        dictionary_in(files.value_dictionary_files),
        triples_in(files.additions_files),
        triples_in(files.removals_files),
    ) {
        (
            Some(Some(parent)),
            Some(nodes),
            Some(predicates),
            Some(values),
            Some(additions),
            Some(removals),
        ) => Some(ChildModel { parent, nodes, predicates, values, additions, removals }),
        _ => None,
    }
}

/// Whether a child of `parent` can hold `model`: additions and removals
/// each stand in strictly rising order, no triple is both added and removed,
/// every removal is a triple of the parent, the ids of the additions are ids
/// of the child, and the dictionaries leave room for the ids.
pub open spec fn child_stands(parent: ParentLayer, model: ChildModel) -> bool {
    &&& triples_sorted(model.additions)
    &&& triples_sorted(model.removals)
    &&& none_among(model.additions, model.removals)
    &&& all_among(model.removals, parent.spec_triples())
    &&& parent.spec_object_count() + model.nodes.len() + model.values.len() <= u64::MAX
    &&& parent.spec_predicate_count() + model.predicates.len() <= u64::MAX
    &&& ids_within(
        model.additions,
        parent.spec_object_count() + model.nodes.len() + model.values.len(),
        parent.spec_predicate_count() + model.predicates.len(),
    )
}

/// The files are small enough to be read on this machine.
pub open spec fn child_files_fit(files: ChildLayerFiles) -> bool {
    &&& files.node_dictionary_files.blocks_file@.len() * 4 + 256 <= usize::MAX
    &&& files.predicate_dictionary_files.blocks_file@.len() * 4 + 256 <= usize::MAX
    &&& files.value_dictionary_files.blocks_file@.len() * 4 + 256 <= usize::MAX
    &&& files.additions_files.predicate_wavelet_tree_files.bits_file@.len() * 512 + 4096
        <= usize::MAX
    &&& files.removals_files.predicate_wavelet_tree_files.bits_file@.len() * 512 + 4096
        <= usize::MAX
}

/// Reads the child of `parent`, which is called `parent_name`, from its
/// files: if they are the files of a child layer, name that parent, and
/// hold what a child of that parent can hold.
pub fn child_layer_from_files(
    parent: ParentLayer,
    parent_name: [u32; 5],
    files: &ChildLayerFiles,
) -> (layer: Option<ChildLayer>)
    requires
        child_files_fit(*files),
    ensures
        layer is Some <==> child_layer_in(*files) is Some && child_layer_in(*files)->Some_0.parent
            == parent_name@ && child_stands(parent, child_layer_in(*files)->Some_0),
        layer is Some ==> {
            &&& layer->Some_0.spec_parent() == parent
            &&& layer->Some_0.nodes() == child_layer_in(*files)->Some_0.nodes
            &&& layer->Some_0.predicates() == child_layer_in(*files)->Some_0.predicates
            &&& layer->Some_0.values() == child_layer_in(*files)->Some_0.values
            &&& layer->Some_0.spec_additions() == child_layer_in(*files)->Some_0.additions
            &&& layer->Some_0.spec_removals() == child_layer_in(*files)->Some_0.removals
        },
{
    let named = match read_meta(files.meta_file.as_slice()) {
        Some(Some(named)) => named,
        _ => {
            return None;
        },
    };
    let nodes = match dictionary_from_files(&files.node_dictionary_files) {
        Some(dict) => dict,
        None => {
            return None;
        },
    };
    let predicates = match dictionary_from_files(&files.predicate_dictionary_files) {
        Some(dict) => dict,
        None => {
            return None;
        },
    };
    let values = match dictionary_from_files(&files.value_dictionary_files) {
        Some(dict) => dict,
        None => {
            return None;
        },
    };
    let additions = match triples_from_files(&files.additions_files) {
        Some(triples) => triples,
        None => {
            return None;
        },
    };
    let removals = match triples_from_files(&files.removals_files) {
        Some(triples) => triples,
        None => {
            return None;
        },
    };
    if !same_layer(&Some(named), &Some(parent_name)) {
        return None;
    }
    ChildLayer::new(parent, nodes, predicates, values, additions, removals)
}

/// The layer is small enough for its files to be made on this machine.
pub open spec fn child_fits(layer: ChildLayer) -> bool {
    &&& layer.nodes().len() <= MAX_ENTRIES
    &&& layer.predicates().len() <= MAX_ENTRIES
    &&& layer.values().len() <= MAX_ENTRIES
    &&& layer.nodes().len() * 64 + 128 <= usize::MAX
    &&& layer.predicates().len() * 64 + 128 <= usize::MAX
    &&& layer.values().len() * 64 + 128 <= usize::MAX
    &&& layer.spec_object_count() + layer.spec_additions().len() + layer.spec_removals().len()
        <= MAX_ENTRIES
    &&& (layer.spec_object_count() + layer.spec_additions().len() + layer.spec_removals().len())
        * 512 + 4096 <= usize::MAX
}

/// The files of the child layer `layer`, whose parent is called
/// `parent_name`.
pub fn child_layer_to_files(layer: &ChildLayer, parent_name: [u32; 5]) -> (files: ChildLayerFiles)
    requires
        child_fits(*layer),
    ensures
        child_layer_in(files) == Some(
            ChildModel {
                parent: parent_name@,
                nodes: layer.nodes(),
                predicates: layer.predicates(),
                values: layer.values(),
                additions: layer.spec_additions(),
                removals: layer.spec_removals(),
            },
        ),
{
    let additions = layer.additions();
    let removals = layer.removals();
    let objects = layer.node_and_value_count();
    proof {
        if additions@.len() > 0 {
            assert(additions@.last().subject <= objects);
        }
        if removals@.len() > 0 {
            assert(removals@.last().subject <= layer.spec_parent_objects());
        }
    }
    ChildLayerFiles {
        node_dictionary_files: dictionary_to_files(layer.node_dictionary()),
        predicate_dictionary_files: dictionary_to_files(layer.predicate_dictionary()),
        value_dictionary_files: dictionary_to_files(layer.value_dictionary()),
        additions_files: triples_to_triple_files(additions),
        removals_files: triples_to_triple_files(removals),
        meta_file: write_meta(Some(parent_name)),
    }
}

fn same_flags(a: &Vec<bool>, b: &Vec<bool>) -> (same: bool)
    ensures
        same == (a@ == b@),
{
    if a.len() != b.len() {
        return false;
    }
    let mut i: usize = 0;
    while i < a.len()
        invariant
            i <= a.len(),
            a@.len() == b@.len(),
            forall|k: int| 0 <= k < i ==> a@[k] == b@[k],
        decreases a.len() - i,
    {
        if a[i] != b[i] {
            return false;
        }
        i += 1;
    }
    assert(a@ =~= b@);
    true
}

/// Whether `files` are the files of the places of `objects` by object, for
/// the objects from 1 to `count`.
pub open spec fn object_index_in(
    files: AdjacencyListFiles<Vec<u8>>,
    objects: Seq<u64>,
    count: int,
) -> bool {
    match list_in(files) {
        Some(list) => (Runs { places: list.numbers, ends: list.bits }).indexes(objects, count),
        None => false,
    }
}

/// The files of the places of `objects` by object, for the objects from 1
/// to `count`.
pub fn objects_to_files(objects: &Vec<u64>, count: u64) -> (files: AdjacencyListFiles<Vec<u8>>)
    requires
        forall|j: int| 0 <= j < objects@.len() ==> (#[trigger] objects@[j]) <= count,
        count + objects@.len() <= MAX_ENTRIES,
        (count + objects@.len()) * 64 + 4096 <= usize::MAX,
    ensures
        object_index_in(files, objects@, count as int),
{
    let lists = encode_objects(objects, count);
    let top = greatest(&lists.places);
    let places = pack(&lists.places, width_for(top), top);
    list_to_files(&places, &lists.ends)
}

/// The places by object that `files` hold, if they are those of `objects`
/// for the objects from 1 to `count`.
pub fn object_index_from_files(
    files: &AdjacencyListFiles<Vec<u8>>,
    objects: &Vec<u64>,
    count: u64,
) -> (index: Option<ObjectIndex>)
    requires
        forall|j: int| 0 <= j < objects@.len() ==> (#[trigger] objects@[j]) <= count,
        count + objects@.len() <= MAX_ENTRIES,
        (count + objects@.len()) * 64 + 4096 <= usize::MAX,
    ensures
        index is Some <==> object_index_in(*files, objects@, count as int),
        index is Some ==> index->Some_0@.indexes(objects@, count as int),
{
    let (places, ends) = match list_from_files(files) {
        Some(list) => list,
        None => {
            return None;
        },
    };
    let wanted = encode_objects(objects, count);
    if !same_numbers(&places.decode(), &wanted.places) || !same_flags(&ends, &wanted.ends) {
        return None;
    }
    Some(ObjectIndex::build(&wanted))
}

/// The files of the lists of a layer's triples with their indices.
pub struct TripleIndexFiles {
    pub s_p_adjacency_list_files: AdjacencyListFiles<Vec<u8>>,
    pub sp_o_adjacency_list_files: AdjacencyListFiles<Vec<u8>>,
    pub predicate_wavelet_tree_files: BitIndexFiles<Vec<u8>>,
    pub o_ps_adjacency_list_files: AdjacencyListFiles<Vec<u8>>,
}

/// The two lists that `files` hold, if they hold two lists that are well
/// formed and fit, the wavelet tree over the predicates of the first, and
/// the places of the second by object, for the objects from 1 to `count`.
pub open spec fn triple_index_in(files: TripleIndexFiles, count: int) -> Option<Lists> {
    match (
        list_in(files.s_p_adjacency_list_files),
        list_in(files.sp_o_adjacency_list_files),
        indexed_bits_in(files.predicate_wavelet_tree_files),
    ) {
        (Some(s_p), Some(sp_o), Some(tree)) => if lists_of(s_p, sp_o).well_formed() && fits(
            lists_of(s_p, sp_o),
            count,
        ) && encodes(tree, s_p.width, s_p.numbers) && object_index_in(
            files.o_ps_adjacency_list_files,
            sp_o.numbers,
            count,
        ) {
            Some(lists_of(s_p, sp_o))
        } else {
            None
        },
        _ => None,
    }
}

/// Reads the lists of a layer's triples with their indices from their
/// files, as [`triple_index_in`] says.
pub fn triple_index_from_files(files: &TripleIndexFiles, count: u64) -> (index: Option<
    TripleIndex,
>)
    requires
        files.predicate_wavelet_tree_files.bits_file@.len() * 512 + 4096 <= usize::MAX,
    ensures
        index is Some <==> triple_index_in(*files, count as int) is Some,
        index is Some ==> Some(index->Some_0@) == triple_index_in(*files, count as int)
            && index->Some_0.spec_count() == count,
{
    let (pair_predicates, ends_subject) = match list_from_files(&files.s_p_adjacency_list_files) {
        Some(list) => list,
        None => {
            return None;
        },
    };
    let (objects, ends_pair) = match list_from_files(&files.sp_o_adjacency_list_files) {
        Some(list) => list,
        None => {
            return None;
        },
    };
    if !wavelet_tree_holds(&files.predicate_wavelet_tree_files, &pair_predicates) {
        return None;
    }
    let lists = TripleLists {
        predicates: pair_predicates.decode(),
        ends_subject,
        objects: objects.decode(),
        ends_pair,
    };
    let index = match TripleIndex::build_checked(&lists, count) {
        Some(index) => index,
        None => {
            return None;
        },
    };
    match object_index_from_files(&files.o_ps_adjacency_list_files, &lists.objects, count) {
        Some(_) => Some(index),
        None => None,
    }
}

/// The files of the lists of `triples` with their indices, the places by
/// object for the objects from 1 to `count`.  Read as files, they give the
/// triples back.
pub fn triple_index_to_files(triples: &Vec<IdTriple>, count: u64) -> (files: TripleIndexFiles)
    requires
        triples_sorted(triples@),
        forall|i: int|
            0 <= i < triples@.len() ==> (#[trigger] triples@[i]).subject >= 1
                && triples@[i].predicate >= 1 && triples@[i].object <= count,
        count <= MAX_ENTRIES,
        count * 64 + 4096 <= usize::MAX,
        triples@.len() > 0 ==> count + triples@.len() + triples@.last().subject <= MAX_ENTRIES
            && (count + triples@.len() + triples@.last().subject) * 512 + 4096 <= usize::MAX,
    ensures
        triple_index_in(files, count as int) is Some,
        triple_index_in(files, count as int)->Some_0.all_triples() == triples@,
{
    let lists = encode_triples(triples);
    proof {
        assert forall|j: int| 0 <= j < lists@.objects.len() implies (#[trigger] lists@.objects[j])
            <= count by {
            assert(object_among(triples@, lists@.objects[j]));
        }
    }
    let (s_p, sp_o, wavelet) = lists_to_files(&lists);
    let o_ps = objects_to_files(&lists.objects, count);
    TripleIndexFiles {
        s_p_adjacency_list_files: s_p,
        sp_o_adjacency_list_files: sp_o,
        predicate_wavelet_tree_files: wavelet,
        o_ps_adjacency_list_files: o_ps,
    }
}

} // verus!
