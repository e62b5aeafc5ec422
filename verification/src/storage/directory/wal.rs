//! Records of the write-ahead log.
//!
//! A record is either a label set, which moves up to a hundred labels to new
//! layers in one step, or a checkpoint, which says that every label set up to
//! an index has reached the label files.  On disk a record is framed as
//!
//! ```text
//! [type:1][payload][length:4][crc32:4]
//! ```
//!
//! where `length` counts the type byte and the payload, and the checksum is
//! taken over the same bytes.  All integers are big-endian.

use crate::buffer::{
    buffer_advance, buffer_clone, buffer_from, buffer_len, buffer_slice, buffer_split_to,
    buffer_truncate,
    buffer_unsplit, contents,
};
use crate::checksum::{checksum_ieee, crc32_ieee};
use crate::endian::{
    be_bytes, be_value, lemma_be_bytes_of_value, lemma_be_value_of_bytes, read_u32_be,
    write_u32_be,
};
use crate::text::{is_utf8, string_from_utf8};
use bytes::BytesMut;
use vstd::prelude::*;
use vstd::slice::*;
use vstd::string::*;
use vstd::utf8::*;

verus! {

/// Why a run of bytes is not (yet) a record.
#[derive(Clone, Copy, PartialEq, Eq, Structural, Debug)]
pub enum WalReadError {
    UnknownRecordType,
    IncompleteRecord,
    LabelNotUtf8,
    TooManyLabels,
    ZeroLabels,
    InvalidRecordLength,
    CrcFailure,
}

/// The most labels one label set may move.
pub const MAX_LABELS: usize = 100;

// ---------------------------------------------------------------------------
// Layer identifiers
// ---------------------------------------------------------------------------

/// A layer identifier on disk: its five words, big-endian, in order.
pub open spec fn layer_bytes(layer: Seq<u32>) -> Seq<u8>
    recommends
        layer.len() == 5,
{
    be_bytes(layer[0]) + be_bytes(layer[1]) + be_bytes(layer[2]) + be_bytes(layer[3]) + be_bytes(
        layer[4],
    )
}

/// The layer identifier stored in the first twenty bytes of `b`.
pub open spec fn layer_value(b: Seq<u8>) -> Seq<u32>
    recommends
        b.len() >= 20,
{
    seq![
        be_value(b.subrange(0, 4)),
        be_value(b.subrange(4, 8)),
        be_value(b.subrange(8, 12)),
        be_value(b.subrange(12, 16)),
        be_value(b.subrange(16, 20)),
    ]
}

/// A layer identifier survives being written and read back.
pub proof fn lemma_layer_round_trip(layer: Seq<u32>)
    requires
        layer.len() == 5,
    ensures
        layer_bytes(layer).len() == 20,
        layer_value(layer_bytes(layer)) == layer,
{
    let b = layer_bytes(layer);
    lemma_be_value_of_bytes(layer[0]);
    lemma_be_value_of_bytes(layer[1]);
    lemma_be_value_of_bytes(layer[2]);
    lemma_be_value_of_bytes(layer[3]);
    lemma_be_value_of_bytes(layer[4]);
    assert(b.subrange(0, 4) =~= be_bytes(layer[0]));
    assert(b.subrange(4, 8) =~= be_bytes(layer[1]));
    assert(b.subrange(8, 12) =~= be_bytes(layer[2]));
    assert(b.subrange(12, 16) =~= be_bytes(layer[3]));
    assert(b.subrange(16, 20) =~= be_bytes(layer[4]));
    assert(layer_value(b) =~= layer);
}

fn push_layer(out: &mut Vec<u8>, layer: &[u32; 5])
    requires
        old(out)@.len() + 20 <= usize::MAX,
    ensures
        final(out)@ == old(out)@ + layer_bytes(layer@),
{
    let mut i: usize = 0;
    let ghost start = out@;
    while i < 5
        invariant
            i <= 5,
            start.len() + 20 <= usize::MAX,
            out@.len() == start.len() + 4 * i,
            i == 0 ==> out@ == start,
            i == 1 ==> out@ == start + be_bytes(layer@[0]),
            i == 2 ==> out@ == start + be_bytes(layer@[0]) + be_bytes(layer@[1]),
            i == 3 ==> out@ == start + be_bytes(layer@[0]) + be_bytes(layer@[1]) + be_bytes(
                layer@[2],
            ),
            i == 4 ==> out@ == start + be_bytes(layer@[0]) + be_bytes(layer@[1]) + be_bytes(
                layer@[2],
            ) + be_bytes(layer@[3]),
            i == 5 ==> out@ == start + be_bytes(layer@[0]) + be_bytes(layer@[1]) + be_bytes(
                layer@[2],
            ) + be_bytes(layer@[3]) + be_bytes(layer@[4]),
        decreases 5 - i,
    {
        let word = write_u32_be(layer[i]);
        out.extend_from_slice(word.as_slice());
        i += 1;
    }
    assert(out@ =~= start + layer_bytes(layer@));
}

fn read_layer(b: &[u8]) -> (layer: [u32; 5])
    requires
        b@.len() >= 20,
    ensures
        layer@ == layer_value(b@),
{
    let n1 = read_u32_be(slice_subrange(b, 0, 4));
    let n2 = read_u32_be(slice_subrange(b, 4, 8));
    let n3 = read_u32_be(slice_subrange(b, 8, 12));
    let n4 = read_u32_be(slice_subrange(b, 12, 16));
    let n5 = read_u32_be(slice_subrange(b, 16, 20));
    let layer = [n1, n2, n3, n4, n5];
    assert(layer@ =~= layer_value(b@));
    layer
}

// ---------------------------------------------------------------------------
// Entries of a label set
// ---------------------------------------------------------------------------

/// An entry on disk: the length of the label in one byte, the label, the
/// layer it moves to.
pub open spec fn entry_bytes(label: Seq<u8>, layer: Seq<u32>) -> Seq<u8>
    recommends
        label.len() < 256,
        layer.len() == 5,
{
    seq![label.len() as u8] + label + layer_bytes(layer)
}

/// The length of the entry that starts `b`, read off its first byte.
pub open spec fn entry_size(b: Seq<u8>) -> int
    recommends
        b.len() > 0,
{
    b[0] as int + 21
}

/// The label bytes of the entry that starts `b`.
pub open spec fn entry_label(b: Seq<u8>) -> Seq<u8>
    recommends
        b.len() >= entry_size(b),
{
    b.subrange(1, 1 + b[0] as int)
}

/// The layer of the entry that starts `b`.
pub open spec fn entry_layer(b: Seq<u8>) -> Seq<u32>
    recommends
        b.len() >= entry_size(b),
{
    layer_value(b.subrange(1 + b[0] as int, 21 + b[0] as int))
}

/// `b` is exactly one entry: as long as its first byte says, with a label in
/// UTF-8.
pub open spec fn is_entry(b: Seq<u8>) -> bool {
    &&& b.len() > 0
    &&& b.len() == entry_size(b)
    &&& valid_utf8(entry_label(b))
}

/// What taking one entry off the front of `b` gives: the bytes of the entry,
/// or the reason there is none; and the bytes left behind.  Bytes that do not
/// yet hold a whole entry are left alone; a whole entry is taken even when
/// its label turns out not to be UTF-8.
pub open spec fn split_entry(b: Seq<u8>) -> (Result<Seq<u8>, WalReadError>, Seq<u8>) {
    if b.len() == 0 || b.len() < entry_size(b) {
        (Err(WalReadError::IncompleteRecord), b)
    } else if !valid_utf8(entry_label(b)) {
        (Err(WalReadError::LabelNotUtf8), b.subrange(entry_size(b), b.len() as int))
    } else {
        (Ok(b.subrange(0, entry_size(b))), b.subrange(entry_size(b), b.len() as int))
    }
}

/// What was put into an entry can be read out of it.
pub proof fn lemma_entry_fields(label: Seq<u8>, layer: Seq<u32>)
    requires
        label.len() < 256,
        layer.len() == 5,
    ensures
        entry_bytes(label, layer).len() == label.len() + 21,
        entry_size(entry_bytes(label, layer)) == label.len() + 21,
        entry_label(entry_bytes(label, layer)) == label,
        entry_layer(entry_bytes(label, layer)) == layer,
{
    let b = entry_bytes(label, layer);
    lemma_layer_round_trip(layer);
    assert(entry_label(b) =~= label);
    assert(b.subrange(1 + b[0] as int, 21 + b[0] as int) =~= layer_bytes(layer));
}

/// One move of a label set: a label and the layer it is to point at.
pub struct LabelSetEntry {
    data: BytesMut,
}

impl View for LabelSetEntry {
    type V = Seq<u8>;

    /// The bytes of the entry as they stand in the log.
    closed spec fn view(&self) -> Seq<u8> {
        contents(self.data)
    }
}

impl LabelSetEntry {
    #[verifier::type_invariant]
    spec fn well_formed(self) -> bool {
        is_entry(contents(self.data))
    }

    /// The entry that moves `label` to `layer`.
    pub fn new(label: &str, layer: [u32; 5]) -> (entry: Self)
        requires
            label.spec_bytes().len() < 256,
        ensures
            entry@ == entry_bytes(label.spec_bytes(), layer@),
    {
        let label_bytes = label.as_bytes();
        let label_len = label_bytes.len() as u8;
        let mut bytes: Vec<u8> = Vec::new();
        bytes.push(label_len);
        bytes.extend_from_slice(label_bytes);
        push_layer(&mut bytes, &layer);
        proof {
            broadcast use encode_utf8_valid_utf8;

            lemma_entry_fields(label.spec_bytes(), layer@);
            assert(bytes@ =~= entry_bytes(label.spec_bytes(), layer@));
        }
        let data = buffer_from(bytes.as_slice());
        LabelSetEntry { data }
    }

    /// The entry made of exactly these bytes, unless the label in them is not
    /// UTF-8.
    pub fn from_bytes(data: BytesMut) -> (result: Result<Self, WalReadError>)
        requires
            contents(data).len() > 0,
            contents(data).len() == entry_size(contents(data)),
        ensures
            valid_utf8(entry_label(contents(data))) ==> result is Ok && result->Ok_0@ == contents(
                data,
            ),
            !valid_utf8(entry_label(contents(data))) ==> result == Err::<Self, WalReadError>(
                WalReadError::LabelNotUtf8,
            ),
    {
        let bytes = buffer_slice(&data);
        let len = bytes[0] as usize;
        let label_slice = slice_subrange(bytes, 1, len + 1);
        if !is_utf8(label_slice) {
            return Err(WalReadError::LabelNotUtf8);
        }
        Ok(LabelSetEntry { data })
    }

    /// Takes one entry off the front of `data`, as [`split_entry`] says.
    pub fn try_split_from_bytes(data: &mut BytesMut) -> (result: Result<Self, WalReadError>)
        ensures
            contents(*final(data)) == split_entry(contents(*old(data))).1,
            match split_entry(contents(*old(data))).0 {
                Ok(bytes) => result is Ok && result->Ok_0@ == bytes,
                Err(e) => result == Err::<Self, WalReadError>(e),
            },
    {
        let len = buffer_len(data);
        if len == 0 {
            return Err(WalReadError::IncompleteRecord);
        }
        let entry_len = buffer_slice(data)[0] as usize + 21;
        if len < entry_len {
            return Err(WalReadError::IncompleteRecord);
        }
        let entry_bytes = buffer_split_to(data, entry_len);
        proof {
            let b = contents(*old(data));
            assert(entry_label(contents(entry_bytes)) =~= entry_label(b));
        }
        LabelSetEntry::from_bytes(entry_bytes)
    }

    /// The bytes of the entry, given up as a buffer.
    pub fn into_data(self) -> (data: BytesMut)
        ensures
            contents(data) == self@,
            is_entry(self@),
    {
        proof {
            use_type_invariant(&self);
        }
        self.data
    }

    /// The bytes of the entry.
    pub fn bytes(&self) -> (bytes: &[u8])
        ensures
            bytes@ == self@,
            is_entry(self@),
    {
        proof {
            use_type_invariant(self);
        }
        buffer_slice(&self.data)
    }

    /// The length of the label, in bytes.
    pub fn label_len(&self) -> (len: usize)
        ensures
            is_entry(self@),
            len == self@[0],
    {
        proof {
            use_type_invariant(self);
        }
        buffer_slice(&self.data)[0] as usize
    }

    /// The label.
    pub fn label(&self) -> (label: String)
        ensures
            label@ == decode_utf8(entry_label(self@)),
    {
        proof {
            use_type_invariant(self);
        }
        let len = self.label_len();
        let slice = slice_subrange(buffer_slice(&self.data), 1, 1 + len);
        let text = string_from_utf8(slice_to_vec(slice));
        text.unwrap()
    }

    /// The layer the label is to point at.
    pub fn layer(&self) -> (layer: [u32; 5])
        ensures
            layer@ == entry_layer(self@),
    {
        proof {
            use_type_invariant(self);
        }
        let len = self.label_len();
        let offset = len + 1;
        read_layer(slice_subrange(buffer_slice(&self.data), offset, offset + 20))
    }
}

// ---------------------------------------------------------------------------
// Label sets
// ---------------------------------------------------------------------------

/// The entries one after another.
pub open spec fn entries_bytes(entries: Seq<Seq<u8>>) -> Seq<u8>
    decreases entries.len(),
{
    if entries.len() == 0 {
        Seq::empty()
    } else {
        entries[0] + entries_bytes(entries.skip(1))
    }
}

/// The payload of a label set: the number of entries in one byte, the
/// entries, the index of the record.
pub open spec fn label_set_bytes(entries: Seq<Seq<u8>>, index: u32) -> Seq<u8>
    recommends
        1 <= entries.len() <= 100,
{
    seq![entries.len() as u8] + entries_bytes(entries) + be_bytes(index)
}

/// How many bytes the first `n` entries of `b` take, or why `b` does not
/// start with `n` entries.  The first entry that is short or not UTF-8
/// decides.
pub open spec fn entries_size(b: Seq<u8>, n: nat) -> Result<int, WalReadError>
    decreases n,
{
    if n == 0 {
        Ok(0int)
    } else {
        match split_entry(b).0 {
            Err(e) => Err(e),
            Ok(_) => match entries_size(split_entry(b).1, (n - 1) as nat) {
                Err(e) => Err(e),
                Ok(k) => Ok(entry_size(b) + k),
            },
        }
    }
}

/// The first `n` entries of `b`.
pub open spec fn entries_of(b: Seq<u8>, n: nat) -> Seq<Seq<u8>>
    recommends
        entries_size(b, n) is Ok,
    decreases n,
{
    if n == 0 {
        Seq::empty()
    } else {
        seq![b.subrange(0, entry_size(b))] + entries_of(
            b.subrange(entry_size(b), b.len() as int),
            (n - 1) as nat,
        )
    }
}

/// How long the label set at the front of `b` is, or why there is none: no
/// bytes yet, a count outside 1..=100, an entry that is short or not UTF-8,
/// or fewer than four bytes for the index.
pub open spec fn label_set_size(b: Seq<u8>) -> Result<int, WalReadError> {
    if b.len() == 0 {
        Err(WalReadError::IncompleteRecord)
    } else if b[0] == 0 {
        Err(WalReadError::ZeroLabels)
    } else if b[0] > 100 {
        Err(WalReadError::TooManyLabels)
    } else {
        match entries_size(b.subrange(1, b.len() as int), b[0] as nat) {
            Err(e) => Err(e),
            Ok(k) => if b.len() < 1 + k + 4 {
                Err(WalReadError::IncompleteRecord)
            } else {
                Ok(1 + k + 4)
            },
        }
    }
}

/// `b` is exactly the payload of one label set.
pub open spec fn is_label_set(b: Seq<u8>) -> bool {
    label_set_size(b) == Ok::<int, WalReadError>(b.len() as int)
}

/// The entries of the label set `b`.
pub open spec fn label_set_entries(b: Seq<u8>) -> Seq<Seq<u8>>
    recommends
        is_label_set(b),
{
    entries_of(b.subrange(1, b.len() as int), b[0] as nat)
}

/// The index of the label set or checkpoint `b`: its last four bytes.
pub open spec fn record_index(b: Seq<u8>) -> u32
    recommends
        b.len() >= 4,
{
    be_value(b.subrange(b.len() - 4, b.len() as int))
}

/// The size of `n` entries is never negative, and on success no more than
/// the bytes there are and than 276 bytes an entry.
pub proof fn lemma_entries_size_bounds(b: Seq<u8>, n: nat)
    ensures
        entries_size(b, n) matches Ok(k) ==> 0 <= k <= b.len() && k <= 276 * n,
    decreases n,
{
    if n > 0 && split_entry(b).0 is Ok {
        lemma_entries_size_bounds(split_entry(b).1, (n - 1) as nat);
    }
}

/// The entries of `b` depend only on the bytes they take.
pub proof fn lemma_entries_size_prefix(b: Seq<u8>, c: Seq<u8>, n: nat)
    requires
        entries_size(b, n) is Ok,
    ensures
        entries_size(b + c, n) == entries_size(b, n),
        entries_of(b + c, n) == entries_of(b, n),
    decreases n,
{
    if n > 0 {
        let size = entry_size(b);
        assert(entry_label(b + c) =~= entry_label(b));
        assert(split_entry(b + c).1 =~= split_entry(b).1 + c);
        assert((b + c).subrange(0, size) =~= b.subrange(0, size));
        lemma_entries_size_prefix(split_entry(b).1, c, (n - 1) as nat);
    }
}

/// Entries that are whole within `b` are whole within any stretch of `b`
/// that holds them.
pub proof fn lemma_entries_size_take(b: Seq<u8>, n: nat, m: int)
    requires
        entries_size(b, n) is Ok,
        entries_size(b, n)->Ok_0 <= m <= b.len(),
    ensures
        entries_size(b.subrange(0, m), n) == entries_size(b, n),
        entries_of(b.subrange(0, m), n) == entries_of(b, n),
    decreases n,
{
    lemma_entries_size_bounds(b, n);
    if n > 0 {
        let size = entry_size(b);
        let head = b.subrange(0, m);
        lemma_entries_size_bounds(split_entry(b).1, (n - 1) as nat);
        assert(entry_label(head) =~= entry_label(b));
        assert(split_entry(head).1 =~= split_entry(b).1.subrange(0, m - size));
        assert(head.subrange(0, size) =~= b.subrange(0, size));
        lemma_entries_size_take(split_entry(b).1, (n - 1) as nat, m - size);
    }
}

/// The bytes that a label set takes at the front of `b` are a label set.
pub proof fn lemma_label_set_take(b: Seq<u8>)
    requires
        label_set_size(b) is Ok,
    ensures
        0 < label_set_size(b)->Ok_0 <= b.len(),
        is_label_set(b.subrange(0, label_set_size(b)->Ok_0)),
{
    let n = label_set_size(b)->Ok_0;
    let tail = b.subrange(1, b.len() as int);
    lemma_entries_size_bounds(tail, b[0] as nat);
    lemma_entries_size_take(tail, b[0] as nat, n - 1);
    let head = b.subrange(0, n);
    assert(head.subrange(1, head.len() as int) =~= tail.subrange(0, n - 1));
}

/// Adding an entry at the end adds its bytes at the end.
pub proof fn lemma_entries_bytes_push(entries: Seq<Seq<u8>>, last: Seq<u8>)
    ensures
        entries_bytes(entries.push(last)) == entries_bytes(entries) + last,
    decreases entries.len(),
{
    if entries.len() == 0 {
        let one = entries.push(last);
        assert(one.skip(1).len() == 0);
        assert(entries_bytes(one.skip(1)) =~= Seq::<u8>::empty());
        assert(entries_bytes(one) == one[0] + entries_bytes(one.skip(1)));
        assert(entries_bytes(one) =~= last);
        assert(entries_bytes(entries) + last =~= last);
    } else {
        assert(entries.push(last).skip(1) =~= entries.skip(1).push(last));
        lemma_entries_bytes_push(entries.skip(1), last);
        assert(entries[0] + (entries_bytes(entries.skip(1)) + last) =~= (entries[0]
            + entries_bytes(entries.skip(1))) + last);
    }
}

/// Entries written one after another are read back as they were written.
pub proof fn lemma_entries_round_trip(entries: Seq<Seq<u8>>)
    requires
        forall|i: int| 0 <= i < entries.len() ==> is_entry(#[trigger] entries[i]),
    ensures
        entries_size(entries_bytes(entries), entries.len()) == Ok::<int, WalReadError>(
            entries_bytes(entries).len() as int,
        ),
        entries_of(entries_bytes(entries), entries.len()) == entries,
    decreases entries.len(),
{
    if entries.len() > 0 {
        let b = entries_bytes(entries);
        let first = entries[0];
        let rest = entries.skip(1);
        assert(is_entry(first));
        assert(forall|i: int| 0 <= i < rest.len() ==> is_entry(#[trigger] rest[i])) by {
            assert(forall|i: int| 0 <= i < rest.len() ==> rest[i] == entries[i + 1]);
        }
        lemma_entries_round_trip(rest);
        assert(b[0] == first[0]);
        assert(b.subrange(0, entry_size(b)) =~= first);
        assert(b.subrange(entry_size(b), b.len() as int) =~= entries_bytes(rest));
        assert(entry_label(b) =~= entry_label(first));
        assert(entries_of(b, entries.len()) =~= entries);
    } else {
        assert(entries_of(entries_bytes(entries), entries.len()) =~= entries);
    }
}

/// A label set written from well-formed entries is a label set, and its
/// entries and index are the ones written.
pub proof fn lemma_label_set_round_trip(entries: Seq<Seq<u8>>, index: u32)
    requires
        1 <= entries.len() <= 100,
        forall|i: int| 0 <= i < entries.len() ==> is_entry(#[trigger] entries[i]),
    ensures
        is_label_set(label_set_bytes(entries, index)),
        label_set_entries(label_set_bytes(entries, index)) == entries,
        record_index(label_set_bytes(entries, index)) == index,
{
    let b = label_set_bytes(entries, index);
    let body = entries_bytes(entries);
    lemma_entries_round_trip(entries);
    lemma_entries_size_prefix(body, be_bytes(index), entries.len());
    lemma_be_value_of_bytes(index);
    assert(b.subrange(1, b.len() as int) =~= body + be_bytes(index));
    assert(b.subrange(b.len() - 4, b.len() as int) =~= be_bytes(index));
}

/// A batch of label moves with the index under which the log records it.
pub struct LabelSetRecord {
    data: BytesMut,
}

impl View for LabelSetRecord {
    type V = Seq<u8>;

    /// The payload of the record as it stands in the log.
    closed spec fn view(&self) -> Seq<u8> {
        contents(self.data)
    }
}

impl LabelSetRecord {
    #[verifier::type_invariant]
    spec fn well_formed(self) -> bool {
        is_label_set(contents(self.data))
    }

    /// The label set with the given index and entries.
    pub fn new(index: u32, entries: Vec<LabelSetEntry>) -> (record: Self)
        requires
            1 <= entries.len() <= 100,
        ensures
            record@ == label_set_bytes(entries@.map_values(|e: LabelSetEntry| e@), index),
    {
        let index_bytes = write_u32_be(index);
        let count = [entries.len() as u8];
        let l = buffer_from(count.as_slice());
        let b = buffer_from(index_bytes.as_slice());
        proof {
            lemma_be_value_of_bytes(index);
            assert(contents(l).len() == 1);
            assert(contents(l)[0] == entries.len());
        }
        Self::new_bytes(l, b, entries)
    }

    /// The label set made of a count byte, the entries and the four bytes of
    /// an index.
    pub fn new_bytes(len_bytes: BytesMut, index_bytes: BytesMut, entries: Vec<LabelSetEntry>) -> (record: Self)
        requires
            contents(len_bytes).len() == 1,
            contents(len_bytes)[0] == entries.len(),
            1 <= entries.len() <= 100,
            contents(index_bytes).len() == 4,
        ensures
            record@ == label_set_bytes(
                entries@.map_values(|e: LabelSetEntry| e@),
                be_value(contents(index_bytes)),
            ),
    {
        let ghost views = entries@.map_values(|e: LabelSetEntry| e@);
        let mut data = len_bytes;
        let mut i: usize = 0;
        while i < entries.len()
            invariant
                i <= entries.len() <= 100,
                views == entries@.map_values(|e: LabelSetEntry| e@),
                contents(data) == contents(len_bytes) + entries_bytes(views.take(i as int)),
                contents(data).len() <= 1 + 276 * i,
                forall|j: int| 0 <= j < i ==> is_entry(#[trigger] views[j]),
            decreases entries.len() - i,
        {
            let entry = &entries[i];
            proof {
                use_type_invariant(entry);
                assert(views[i as int] == entry@);
                assert(views.take(i as int + 1) =~= views.take(i as int).push(views[i as int]));
                lemma_entries_bytes_push(views.take(i as int), views[i as int]);
            }
            buffer_unsplit(&mut data, buffer_clone(&entry.data));
            proof {
                assert(contents(data) =~= contents(len_bytes) + entries_bytes(
                    views.take(i as int + 1),
                ));
            }
            i += 1;
        }
        buffer_unsplit(&mut data, index_bytes);
        proof {
            let index = be_value(contents(index_bytes));
            assert(views.take(entries.len() as int) =~= views);
            lemma_be_bytes_of_value(contents(index_bytes));
            assert(contents(len_bytes) =~= seq![views.len() as u8]);
            assert(contents(data) =~= label_set_bytes(views, index));
            lemma_label_set_round_trip(views, index);
        }
        LabelSetRecord { data }
    }

    /// Takes one label set off the front of `data`.  When the bytes do not
    /// start with a whole label set, they are left as they were and the
    /// result says why, as [`label_set_size`] does.
    pub fn try_split_from_bytes(data: &mut BytesMut) -> (result: Result<Self, WalReadError>)
        ensures
            match label_set_size(contents(*old(data))) {
                Ok(n) => {
                    &&& result is Ok
                    &&& result->Ok_0@ == contents(*old(data)).subrange(0, n)
                    &&& contents(*final(data)) == contents(*old(data)).subrange(
                        n,
                        contents(*old(data)).len() as int,
                    )
                },
                Err(e) => result == Err::<Self, WalReadError>(e) && contents(*final(data))
                    == contents(*old(data)),
            },
    {
        let ghost b = contents(*data);
        let total = buffer_len(data);
        if total == 0 {
            return Err(WalReadError::IncompleteRecord);
        }
        let len = buffer_slice(data)[0] as usize;
        if len == 0 {
            return Err(WalReadError::ZeroLabels);
        }
        if len > MAX_LABELS {
            return Err(WalReadError::TooManyLabels);
        }
        let mut rest = buffer_clone(data);
        buffer_advance(&mut rest, 1);
        let ghost entries = contents(rest);
        let mut i: usize = 0;
        while i < len
            invariant
                i <= len <= 100,
                b.len() > 0,
                b[0] == len,
                b.len() == total,
                contents(*data) == b,
                b == contents(*old(data)),
                entries == b.subrange(1, b.len() as int),
                contents(rest).len() <= entries.len(),
                contents(rest) == entries.subrange(
                    entries.len() - contents(rest).len(),
                    entries.len() as int,
                ),
                match entries_size(contents(rest), (len - i) as nat) {
                    Ok(k) => entries_size(entries, len as nat) == Ok::<int, WalReadError>(
                        entries.len() - contents(rest).len() + k,
                    ),
                    Err(e) => entries_size(entries, len as nat) == Err::<int, WalReadError>(e),
                },
            decreases len - i,
        {
            match LabelSetEntry::try_split_from_bytes(&mut rest) {
                Ok(_) => {},
                Err(e) => {
                    return Err(e);
                },
            }
            proof {
                assert(contents(rest) =~= entries.subrange(
                    entries.len() - contents(rest).len(),
                    entries.len() as int,
                ));
            }
            i += 1;
        }
        let left = buffer_len(&rest);
        if left < 4 {
            return Err(WalReadError::IncompleteRecord);
        }
        let consumed = total - left + 4;
        proof {
            lemma_label_set_take(b);
        }
        let record = buffer_split_to(data, consumed);
        Ok(LabelSetRecord { data: record })
    }

    /// The label set made of exactly these bytes.
    pub fn from_bytes(data: BytesMut) -> (record: Self)
        requires
            is_label_set(contents(data)),
        ensures
            record@ == contents(data),
    {
        LabelSetRecord { data }
    }

    /// The number of entries.
    pub fn len(&self) -> (len: usize)
        ensures
            is_label_set(self@),
            len == self@[0],
            1 <= len <= 100,
    {
        proof {
            use_type_invariant(self);
        }
        buffer_slice(&self.data)[0] as usize
    }

    /// The index under which the log records this label set.
    pub fn index(&self) -> (index: u32)
        ensures
            index == record_index(self@),
    {
        proof {
            use_type_invariant(self);
            lemma_entries_size_bounds(self@.subrange(1, self@.len() as int), self@[0] as nat);
        }
        let bytes = buffer_slice(&self.data);
        read_u32_be(slice_subrange(bytes, bytes.len() - 4, bytes.len()))
    }

    /// The entries, in the order of the record.
    pub fn entries(&self) -> (entries: Vec<LabelSetEntry>)
        ensures
            entries@.map_values(|e: LabelSetEntry| e@) == label_set_entries(self@),
    {
        proof {
            use_type_invariant(self);
        }
        let len = self.len();
        let mut rest = buffer_clone(&self.data);
        buffer_advance(&mut rest, 1);
        let ghost all = contents(rest);
        let mut entries: Vec<LabelSetEntry> = Vec::new();
        let mut i: usize = 0;
        while i < len
            invariant
                i <= len,
                entries.len() == i,
                entries_size(contents(rest), (len - i) as nat) is Ok,
                entries_of(all, len as nat) == entries@.map_values(|e: LabelSetEntry| e@)
                    + entries_of(contents(rest), (len - i) as nat),
            decreases len - i,
        {
            let ghost before = contents(rest);
            let ghost seen = entries@.map_values(|e: LabelSetEntry| e@);
            match LabelSetEntry::try_split_from_bytes(&mut rest) {
                Ok(entry) => {
                    entries.push(entry);
                    proof {
                        let now = entries@.map_values(|e: LabelSetEntry| e@);
                        assert(now =~= seen.push(entry@));
                        assert(seen + (seq![entry@] + entries_of(
                            contents(rest),
                            (len - i - 1) as nat,
                        )) =~= now + entries_of(contents(rest), (len - i - 1) as nat));
                    }
                },
                Err(_) => {
                    proof {
                        assert(false);
                    }
                },
            }
            i += 1;
        }
        proof {
            assert(entries_of(contents(rest), 0) =~= Seq::<Seq<u8>>::empty());
            assert(entries@.map_values(|e: LabelSetEntry| e@) + Seq::<Seq<u8>>::empty()
                =~= entries@.map_values(|e: LabelSetEntry| e@));
        }
        entries
    }
}

// ---------------------------------------------------------------------------
// Checkpoints
// ---------------------------------------------------------------------------

/// The mark that every label set up to an index has reached the label
/// files.
pub struct CheckpointRecord {
    data: BytesMut,
}

impl View for CheckpointRecord {
    type V = Seq<u8>;

    /// The payload of the record as it stands in the log.
    closed spec fn view(&self) -> Seq<u8> {
        contents(self.data)
    }
}

impl CheckpointRecord {
    #[verifier::type_invariant]
    spec fn well_formed(self) -> bool {
        contents(self.data).len() == 4
    }

    /// The checkpoint for `index`.
    pub fn new(index: u32) -> (record: Self)
        ensures
            record@ == be_bytes(index),
    {
        let bytes = write_u32_be(index);
        let data = buffer_from(bytes.as_slice());
        CheckpointRecord { data }
    }

    /// The checkpoint made of exactly these four bytes.
    pub fn from_bytes(index_bytes: BytesMut) -> (record: Self)
        requires
            contents(index_bytes).len() == 4,
        ensures
            record@ == contents(index_bytes),
    {
        CheckpointRecord { data: index_bytes }
    }

    /// Takes one checkpoint off the front of `data`, or leaves `data` alone
    /// when it holds fewer than four bytes.
    pub fn try_split_from_bytes(data: &mut BytesMut) -> (result: Result<Self, WalReadError>)
        ensures
            contents(*old(data)).len() < 4 ==> result == Err::<Self, WalReadError>(
                WalReadError::IncompleteRecord,
            ) && contents(*final(data)) == contents(*old(data)),
            contents(*old(data)).len() >= 4 ==> result is Ok && result->Ok_0@ == contents(
                *old(data),
            ).subrange(0, 4) && contents(*final(data)) == contents(*old(data)).subrange(
                4,
                contents(*old(data)).len() as int,
            ),
    {
        if buffer_len(data) < 4 {
            return Err(WalReadError::IncompleteRecord);
        }
        Ok(Self::from_bytes(buffer_split_to(data, 4)))
    }

    /// The index up to which the log is applied.
    pub fn index(&self) -> (index: u32)
        ensures
            self@.len() == 4,
            index == record_index(self@),
    {
        proof {
            use_type_invariant(self);
            assert(self@.subrange(0, 4) =~= self@);
        }
        read_u32_be(buffer_slice(&self.data))
    }
}

// ---------------------------------------------------------------------------
// Records and their frames
// ---------------------------------------------------------------------------

/// The type byte of a label set.
pub const TYPE_LABEL_SET: u8 = 0;

/// The type byte of a checkpoint.
pub const TYPE_CHECKPOINT: u8 = 1;

/// A record of the log.
pub enum WalRecord {
    LabelSet(LabelSetRecord),
    Checkpoint(CheckpointRecord),
}

/// `payload` is what a record of type `tp` may hold.
pub open spec fn is_payload(tp: u8, payload: Seq<u8>) -> bool {
    ||| tp == 0 && is_label_set(payload)
    ||| tp == 1 && payload.len() == 4
}

/// The type byte and the payload: the bytes that the length counts and the
/// checksum guards.
pub open spec fn body_bytes(tp: u8, payload: Seq<u8>) -> Seq<u8> {
    seq![tp] + payload
}

/// The record as it is laid out in the log: type, payload, length of both,
/// checksum of both.
pub open spec fn frame_bytes(tp: u8, payload: Seq<u8>) -> Seq<u8> {
    body_bytes(tp, payload) + be_bytes(body_bytes(tp, payload).len() as u32) + be_bytes(
        crc32_ieee(body_bytes(tp, payload)),
    )
}

/// The type byte and payload of the frame `b`.
pub open spec fn frame_body(b: Seq<u8>) -> Seq<u8>
    recommends
        b.len() >= 8,
{
    b.subrange(0, b.len() - 8)
}

/// The payload of the frame `b`.
pub open spec fn frame_payload(b: Seq<u8>) -> Seq<u8>
    recommends
        b.len() >= 9,
{
    b.subrange(1, b.len() - 8)
}

/// The length that the frame `b` declares.
pub open spec fn frame_length(b: Seq<u8>) -> u32
    recommends
        b.len() >= 8,
{
    be_value(b.subrange(b.len() - 8, b.len() - 4))
}

/// The checksum that the frame `b` declares.
pub open spec fn frame_checksum(b: Seq<u8>) -> u32
    recommends
        b.len() >= 8,
{
    be_value(b.subrange(b.len() - 4, b.len() as int))
}

/// `b` has the shape of a frame: a type byte, a payload that fits the type,
/// eight bytes of trailer.  Nothing is said of what the trailer holds.
pub open spec fn has_record(b: Seq<u8>) -> bool {
    b.len() >= 9 && is_payload(b[0], frame_payload(b))
}

/// `b` is a frame that a reader accepts: it has the shape of one, its
/// declared length is that of type byte and payload, and its declared
/// checksum is theirs.
pub open spec fn is_frame(b: Seq<u8>) -> bool {
    &&& has_record(b)
    &&& frame_length(b) == b.len() - 8
    &&& frame_checksum(b) == crc32_ieee(frame_body(b))
}

/// A payload is never longer than a count byte, a hundred entries of 276
/// bytes and an index.
pub proof fn lemma_payload_bound(tp: u8, payload: Seq<u8>)
    requires
        is_payload(tp, payload),
    ensures
        4 <= payload.len() <= 5 + 276 * 100,
{
    if tp == 0 {
        lemma_entries_size_bounds(payload.subrange(1, payload.len() as int), payload[0] as nat);
    }
}

/// A record framed is a frame, and the frame gives the record back.
pub proof fn lemma_frame_round_trip(tp: u8, payload: Seq<u8>)
    requires
        is_payload(tp, payload),
    ensures
        is_frame(frame_bytes(tp, payload)),
        frame_bytes(tp, payload).len() == payload.len() + 9,
        frame_bytes(tp, payload)[0] == tp,
        frame_payload(frame_bytes(tp, payload)) == payload,
{
    let body = body_bytes(tp, payload);
    let b = frame_bytes(tp, payload);
    lemma_payload_bound(tp, payload);
    lemma_be_value_of_bytes(body.len() as u32);
    lemma_be_value_of_bytes(crc32_ieee(body));
    assert(frame_payload(b) =~= payload);
    assert(frame_body(b) =~= body);
    assert(b.subrange(b.len() - 8, b.len() - 4) =~= be_bytes(body.len() as u32));
    assert(b.subrange(b.len() - 4, b.len() as int) =~= be_bytes(crc32_ieee(body)));
}

impl WalRecord {
    /// The type byte of the record.
    pub open spec fn type_byte(&self) -> u8 {
        match self {
            WalRecord::LabelSet(_) => 0,
            WalRecord::Checkpoint(_) => 1,
        }
    }

    /// The payload of the record.
    pub open spec fn payload(&self) -> Seq<u8> {
        match self {
            WalRecord::LabelSet(r) => r@,
            WalRecord::Checkpoint(r) => r@,
        }
    }

    /// The payload, leaving the record behind.
    pub fn into_data(self) -> (data: BytesMut)
        ensures
            contents(data) == self.payload(),
            is_payload(self.type_byte(), self.payload()),
    {
        match self {
            WalRecord::LabelSet(r) => {
                proof {
                    use_type_invariant(&r);
                }
                r.data
            },
            WalRecord::Checkpoint(r) => {
                proof {
                    use_type_invariant(&r);
                }
                r.data
            },
        }
    }

    /// The type byte of the record: 0 for a label set, 1 for a checkpoint.
    pub fn type_num(&self) -> (tp: u8)
        ensures
            tp == self.type_byte(),
    {
        match self {
            WalRecord::LabelSet(_) => TYPE_LABEL_SET,
            WalRecord::Checkpoint(_) => TYPE_CHECKPOINT,
        }
    }

    /// The payload of the record.
    pub fn data(&self) -> (data: &[u8])
        ensures
            data@ == self.payload(),
            is_payload(self.type_byte(), self.payload()),
    {
        match self {
            WalRecord::LabelSet(r) => {
                proof {
                    use_type_invariant(r);
                }
                buffer_slice(&r.data)
            },
            WalRecord::Checkpoint(r) => {
                proof {
                    use_type_invariant(r);
                }
                buffer_slice(&r.data)
            },
        }
    }

    /// The length of the payload.
    pub fn length(&self) -> (len: usize)
        ensures
            len == self.payload().len(),
            4 <= len <= 5 + 276 * 100,
    {
        let data = self.data();
        proof {
            lemma_payload_bound(self.type_byte(), self.payload());
        }
        data.len()
    }

    /// The checksum of the record: that of its type byte and its payload.
    pub fn checksum(&self) -> (sum: u32)
        ensures
            sum == crc32_ieee(body_bytes(self.type_byte(), self.payload())),
    {
        let mut body: Vec<u8> = Vec::new();
        body.push(self.type_num());
        body.extend_from_slice(self.data());
        assert(body@ =~= body_bytes(self.type_byte(), self.payload()));
        checksum_ieee(body.as_slice())
    }
}

/// A record in its frame.
pub struct AnnotatedWalRecord {
    data: BytesMut,
}

impl View for AnnotatedWalRecord {
    type V = Seq<u8>;

    /// The bytes of the frame as they stand in the log.
    closed spec fn view(&self) -> Seq<u8> {
        contents(self.data)
    }
}

impl AnnotatedWalRecord {
    /// The frame of `record`.
    pub fn new(record: WalRecord) -> (annotated: Self)
        ensures
            annotated@ == frame_bytes(record.type_byte(), record.payload()),
            is_frame(annotated@),
    {
        let tp = [record.type_num()];
        let type_bytes = buffer_from(tp.as_slice());
        let len = write_u32_be((record.length() + 1) as u32);
        let len_bytes = buffer_from(len.as_slice());
        let sum = write_u32_be(record.checksum());
        let checksum_bytes = buffer_from(sum.as_slice());
        proof {
            lemma_be_value_of_bytes((record.payload().len() + 1) as u32);
            lemma_be_value_of_bytes(crc32_ieee(body_bytes(record.type_byte(), record.payload())));
        }
        Self::new_bytes(record, type_bytes, len_bytes, checksum_bytes)
    }

    /// The frame that holds these bytes, whatever they are.
    pub fn from_bytes_unchecked(data: BytesMut) -> (annotated: Self)
        ensures
            annotated@ == contents(data),
    {
        AnnotatedWalRecord { data }
    }

    /// The frame of `record` put together from its parts: the type byte, the
    /// four bytes of the length and the four bytes of the checksum.  The
    /// parts must be the ones that belong to the record.
    pub fn new_bytes(
        record: WalRecord,
        type_bytes: BytesMut,
        len_bytes: BytesMut,
        checksum_bytes: BytesMut,
    ) -> (annotated: Self)
        requires
            contents(type_bytes).len() == 1,
            contents(type_bytes)[0] == record.type_byte(),
            contents(len_bytes).len() == 4,
            contents(checksum_bytes).len() == 4,
            be_value(contents(len_bytes)) == record.payload().len() + 1,
            be_value(contents(checksum_bytes)) == crc32_ieee(
                body_bytes(record.type_byte(), record.payload()),
            ),
        ensures
            annotated@ == frame_bytes(record.type_byte(), record.payload()),
            annotated@ == contents(type_bytes) + record.payload() + contents(len_bytes) + contents(
                checksum_bytes,
            ),
            is_frame(annotated@),
    {
        let ghost tp = record.type_byte();
        let ghost payload = record.payload();
        let mut data = type_bytes;
        let record_data = record.into_data();
        proof {
            lemma_payload_bound(tp, payload);
            lemma_frame_round_trip(tp, payload);
            lemma_be_bytes_of_value(contents(len_bytes));
            lemma_be_bytes_of_value(contents(checksum_bytes));
        }
        buffer_unsplit(&mut data, record_data);
        buffer_unsplit(&mut data, len_bytes);
        buffer_unsplit(&mut data, checksum_bytes);
        proof {
            assert(contents(type_bytes) =~= seq![tp]);
            assert(contents(data) =~= frame_bytes(tp, payload));
        }
        AnnotatedWalRecord { data }
    }

    /// The bytes of the whole frame.
    pub fn bytes(&self) -> (bytes: &[u8])
        ensures
            bytes@ == self@,
    {
        buffer_slice(&self.data)
    }

    /// The payload of the record in the frame.
    pub fn record_bytes(&self) -> (payload: BytesMut)
        requires
            self@.len() >= 9,
        ensures
            contents(payload) == frame_payload(self@),
    {
        let mut record_bytes = buffer_clone(&self.data);
        buffer_advance(&mut record_bytes, 1);
        let len = buffer_len(&record_bytes);
        buffer_truncate(&mut record_bytes, len - 8);
        proof {
            assert(contents(record_bytes) =~= frame_payload(self@));
        }
        record_bytes
    }

    /// The length that the frame declares.
    pub fn record_len(&self) -> (len: usize)
        requires
            self@.len() >= 8,
        ensures
            len == frame_length(self@),
    {
        let bytes = buffer_slice(&self.data);
        let slice = slice_subrange(bytes, bytes.len() - 8, bytes.len() - 4);
        read_u32_be(slice) as usize
    }

    /// The checksum that the frame declares.
    pub fn checksum(&self) -> (sum: u32)
        requires
            self@.len() >= 8,
        ensures
            sum == frame_checksum(self@),
    {
        let bytes = buffer_slice(&self.data);
        let slice = slice_subrange(bytes, bytes.len() - 4, bytes.len());
        read_u32_be(slice)
    }

    /// The record in the frame.
    pub fn record(&self) -> (record: WalRecord)
        requires
            has_record(self@),
        ensures
            record.type_byte() == self@[0],
            record.payload() == frame_payload(self@),
    {
        let tp = buffer_slice(&self.data)[0];
        if tp == TYPE_LABEL_SET {
            WalRecord::LabelSet(LabelSetRecord::from_bytes(self.record_bytes()))
        } else {
            WalRecord::Checkpoint(CheckpointRecord::from_bytes(self.record_bytes()))
        }
    }

    /// The frame, given up as a buffer.
    pub fn into_data(self) -> (data: BytesMut)
        ensures
            contents(data) == self@,
    {
        self.data
    }
}

} // verus!
