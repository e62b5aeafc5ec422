//! Labels: the names of graphs.
//!
//! A label points a name at a layer and counts, in its version, how often it
//! was moved.  On disk a label is a file of two lines: the version in
//! decimal, and the forty hexadecimal digits of the layer, or nothing where
//! the graph was never written.

use crate::radix::{decimal, format_decimal, lemma_decimal_round_trip, parse_number, parsed};
use crate::storage::layer::{hex_name, hex_to_name, lemma_name_round_trip, name_hex, name_to_hex};
use vstd::prelude::*;
use vstd::slice::slice_subrange;
use vstd::string::StringExecFns;

verus! {

/// A name, the layer it points at, and the number of times it was moved.
#[derive(Debug)]
pub struct Label {
    pub name: String,
    pub layer: Option<[u32; 5]>,
    pub version: u64,
}

/// A label as a value.
pub struct LabelModel {
    pub name: Seq<char>,
    pub layer: Option<Seq<u32>>,
    pub version: nat,
}

/// A layer, if any, as a value.
pub open spec fn layer_model(layer: Option<[u32; 5]>) -> Option<Seq<u32>> {
    match layer {
        None => None,
        Some(l) => Some(l@),
    }
}

impl View for Label {
    type V = LabelModel;

    open spec fn view(&self) -> LabelModel {
        LabelModel {
            name: self.name@,
            layer: layer_model(self.layer),
            version: self.version as nat,
        }
    }
}

/// Whether two layers, if any, are the same.
pub fn same_layer(a: &Option<[u32; 5]>, b: &Option<[u32; 5]>) -> (same: bool)
    ensures
        same == (layer_model(*a) == layer_model(*b)),
{
    match (a, b) {
        (None, None) => true,
        (Some(x), Some(y)) => {
            let mut i: usize = 0;
            while i < 5
                invariant
                    i <= 5,
                    *a == Some(*x),
                    *b == Some(*y),
                    forall|j: int| 0 <= j < i ==> x@[j] == y@[j],
                decreases 5 - i,
            {
                if x[i] != y[i] {
                    return false;
                }
                i += 1;
            }
            assert(x@ =~= y@);
            true
        },
        _ => false,
    }
}

impl Clone for Label {
    fn clone(&self) -> (copy: Self)
        ensures
            copy@ == self@,
    {
        Label { name: self.name.clone(), layer: self.layer, version: self.version }
    }
}

impl PartialEq for Label {
    fn eq(&self, other: &Self) -> (equal: bool) {
        self.name == other.name && same_layer(&self.layer, &other.layer) && self.version
            == other.version
    }
}

impl vstd::std_specs::cmp::PartialEqSpecImpl for Label {
    open spec fn obeys_eq_spec() -> bool {
        true
    }

    open spec fn eq_spec(&self, other: &Self) -> bool {
        self@ == other@
    }
}

impl Eq for Label {

}

impl Label {
    /// The label of a graph that was never written.
    pub fn new_empty(name: &str) -> (label: Label)
        ensures
            label@ == (LabelModel { name: name@, layer: None, version: 0 }),
    {
        Label { name: String::from_str(name), layer: None, version: 0 }
    }

    /// A label that points at `layer` and was never moved.
    pub fn new(name: &str, layer: [u32; 5]) -> (label: Label)
        ensures
            label@ == (LabelModel { name: name@, layer: Some(layer@), version: 0 }),
    {
        Label { name: String::from_str(name), layer: Some(layer), version: 0 }
    }

    /// The label that follows `previous`: the same name, the next version,
    /// the given layer.
    pub fn updated(previous: &Label, layer: Option<[u32; 5]>) -> (label: Label)
        requires
            previous.version < u64::MAX,
        ensures
            label@ == (LabelModel {
                name: previous@.name,
                layer: layer_model(layer),
                version: previous@.version + 1,
            }),
    {
        Label { name: previous.name.clone(), layer, version: previous.version + 1 }
    }
}

// ---------------------------------------------------------------------------
// The label file
// ---------------------------------------------------------------------------

/// Why the contents of a file are not a label.
#[derive(Clone, Copy, PartialEq, Eq, Structural, Debug)]
pub enum LabelFileError {
    /// The file is not two lines, each closed by a line feed.
    NotTwoLines,
    /// The first line is not a version: decimal digits that fit 64 bits.
    BadVersion,
    /// The second line is neither empty nor forty hexadecimal digits.
    BadLayer,
}

/// The line feed that closes each line.
pub const LINE_FEED: u8 = 10;

/// The second line of a label file: the layer written out, or nothing.
pub open spec fn layer_line(layer: Option<Seq<u32>>) -> Seq<u8> {
    match layer {
        None => Seq::empty(),
        Some(l) => name_hex(l),
    }
}

/// The file of a label: its version in decimal, a line feed, its layer,
/// a line feed.
pub open spec fn label_file_bytes(version: nat, layer: Option<Seq<u32>>) -> Seq<u8> {
    decimal(version) + seq![10u8] + layer_line(layer) + seq![10u8]
}

/// Where the first line feed of `s` stands, if `s` has one.
pub open spec fn first_line_feed(s: Seq<u8>) -> Option<int>
    decreases s.len(),
{
    if s.len() == 0 {
        None
    } else if s[0] == 10 {
        Some(0int)
    } else {
        match first_line_feed(s.skip(1)) {
            None => None,
            Some(i) => Some(i + 1),
        }
    }
}

/// What the second line of a label file says: no layer, a layer, or
/// nothing that can be read.
pub open spec fn parse_layer_line(line: Seq<u8>) -> Result<Option<Seq<u32>>, LabelFileError> {
    if line.len() == 0 {
        Ok(None)
    } else if hex_name(line) is Some {
        Ok(Some(hex_name(line)->Some_0))
    } else {
        Err(LabelFileError::BadLayer)
    }
}

/// What the contents of a label file say: the version and the layer, or why
/// they are not a label.  The file must be exactly two lines, each closed by
/// a line feed; the first must be a decimal number that fits 64 bits; the
/// second must be empty or forty hexadecimal digits.  The faults are looked
/// for in this order.
pub open spec fn parse_label(data: Seq<u8>) -> Result<(u64, Option<Seq<u32>>), LabelFileError> {
    match first_line_feed(data) {
        None => Err(LabelFileError::NotTwoLines),
        Some(i) => {
            let rest = data.subrange(i + 1, data.len() as int);
            match first_line_feed(rest) {
                None => Err(LabelFileError::NotTwoLines),
                Some(j) => {
                    if j + 1 != rest.len() {
                        Err(LabelFileError::NotTwoLines)
                    } else {
                        match parsed(data.subrange(0, i), 10) {
                            None => Err(LabelFileError::BadVersion),
                            Some(version) => match parse_layer_line(rest.subrange(0, j)) {
                                Err(e) => Err(e),
                                Ok(layer) => Ok((version, layer)),
                            },
                        }
                    }
                },
            }
        },
    }
}

/// The first line feed is the one that no line feed comes before.
pub proof fn lemma_first_line_feed(s: Seq<u8>, i: int)
    requires
        0 <= i <= s.len(),
        forall|k: int| 0 <= k < i ==> s[k] != 10,
        i < s.len() ==> s[i] == 10,
    ensures
        i < s.len() ==> first_line_feed(s) == Some(i),
        i == s.len() ==> first_line_feed(s) is None,
    decreases i,
{
    if i > 0 {
        let tail = s.skip(1);
        assert forall|k: int| 0 <= k < i - 1 implies tail[k] != 10 by {
            assert(tail[k] == s[k + 1]);
        }
        lemma_first_line_feed(tail, i - 1);
    }
}

/// A label written to its file is read back as it was.
pub proof fn lemma_label_file_round_trip(version: u64, layer: Option<Seq<u32>>)
    requires
        layer is Some ==> layer->Some_0.len() == 5,
    ensures
        parse_label(label_file_bytes(version as nat, layer)) == Ok::<
            (u64, Option<Seq<u32>>),
            LabelFileError,
        >((version, layer)),
{
    let first = decimal(version as nat);
    let second = layer_line(layer);
    let data = label_file_bytes(version as nat, layer);
    lemma_decimal_round_trip(version as nat);
    if layer is Some {
        lemma_name_round_trip(layer->Some_0);
    }
    let i = first.len() as int;
    assert forall|k: int| 0 <= k < i implies data[k] != 10 by {
        assert(data[k] == first[k]);
    }
    lemma_first_line_feed(data, i);
    let rest = data.subrange(i + 1, data.len() as int);
    assert(rest =~= second + seq![10u8]);
    let j = second.len() as int;
    assert forall|k: int| 0 <= k < j implies rest[k] != 10 by {
        assert(rest[k] == second[k]);
        if layer is Some {
            assert(name_hex(layer->Some_0)[k] != 10);
        }
    }
    lemma_first_line_feed(rest, j);
    assert(data.subrange(0, i) =~= first);
    assert(rest.subrange(0, j) =~= second);
}

fn find_line_feed(s: &[u8]) -> (at: Option<usize>)
    ensures
        match first_line_feed(s@) {
            None => at is None,
            Some(i) => at == Some(i as usize) && 0 <= i < s@.len(),
        },
{
    let mut i: usize = 0;
    while i < s.len()
        invariant
            i <= s.len(),
            forall|k: int| 0 <= k < i ==> s@[k] != 10,
        decreases s.len() - i,
    {
        if s[i] == LINE_FEED {
            proof {
                lemma_first_line_feed(s@, i as int);
            }
            return Some(i);
        }
        i += 1;
    }
    proof {
        lemma_first_line_feed(s@, i as int);
    }
    None
}

/// The contents of the file of `label`.
pub fn label_file_contents(label: &Label) -> (contents: Vec<u8>)
    ensures
        contents@ == label_file_bytes(label@.version, label@.layer),
{
    let mut contents = format_decimal(label.version);
    contents.push(LINE_FEED);
    match label.layer {
        None => {},
        Some(layer) => {
            let hex = name_to_hex(layer);
            contents.extend_from_slice(hex.as_slice());
        },
    }
    contents.push(LINE_FEED);
    proof {
        assert(contents@ =~= label_file_bytes(label@.version, label@.layer));
    }
    contents
}

/// Reads the label called `name` from the contents of its file, as
/// [`parse_label`] says.
pub fn read_label_file(data: &[u8], name: &str) -> (result: Result<Label, LabelFileError>)
    ensures
        match parse_label(data@) {
            Ok((version, layer)) => result is Ok && result->Ok_0@ == (LabelModel {
                name: name@,
                layer,
                version: version as nat,
            }),
            Err(e) => result == Err::<Label, LabelFileError>(e),
        },
{
    let len = data.len();
    let i = match find_line_feed(data) {
        Some(i) => i,
        None => {
            return Err(LabelFileError::NotTwoLines);
        },
    };
    let rest = slice_subrange(data, i + 1, len);
    let j = match find_line_feed(rest) {
        Some(j) => j,
        None => {
            return Err(LabelFileError::NotTwoLines);
        },
    };
    if j + 1 != rest.len() {
        return Err(LabelFileError::NotTwoLines);
    }
    let version = match parse_number(slice_subrange(data, 0, i), 10) {
        Some(version) => version,
        None => {
            return Err(LabelFileError::BadVersion);
        },
    };
    let layer_str = slice_subrange(rest, 0, j);
    if layer_str.len() == 0 {
        Ok(Label { name: String::from_str(name), layer: None, version })
    } else {
        match hex_to_name(layer_str) {
            Some(layer) => Ok(Label { name: String::from_str(name), layer: Some(layer), version }),
            None => Err(LabelFileError::BadLayer),
        }
    }
}

// ---------------------------------------------------------------------------
// Moving a label
// ---------------------------------------------------------------------------

/// What a writer does with a label file it holds locked.
#[derive(Debug)]
pub enum LabelWrite {
    /// The label has moved on since the caller read it: nothing is written
    /// and the caller is told `false`.
    Stale,
    /// The label is at the expected version and already points at the
    /// layer: nothing is written and the caller is told `true`.
    Unchanged,
    /// The label is at the expected version: this label is written in its
    /// place and the caller is told `true`.
    Write(Label),
}

/// What a label becomes when a caller who expects `expected` as its version
/// asks to move it to `layer`, and what the caller is told.  Only a caller
/// who expects the version that the label has is heard; such a caller
/// leaves the label alone where it already points at the layer, and
/// otherwise moves it on to the next version.
pub open spec fn compare_and_set(current: LabelModel, expected: nat, layer: Option<Seq<u32>>) -> (
    LabelModel,
    bool,
) {
    if current.version != expected {
        (current, false)
    } else if current.layer == layer {
        (current, true)
    } else {
        (LabelModel { name: current.name, layer, version: current.version + 1 }, true)
    }
}

impl LabelWrite {
    /// Whether the caller is told that the label points at the layer.
    pub open spec fn accepted(&self) -> bool {
        !(self is Stale)
    }

    /// What stands in the file afterwards, where `current` stood before.
    pub open spec fn outcome(&self, current: LabelModel) -> LabelModel {
        match self {
            LabelWrite::Write(label) => label@,
            _ => current,
        }
    }

    /// Whether the caller is told that the label points at the layer.
    pub fn succeeded(&self) -> (accepted: bool)
        ensures
            accepted == self.accepted(),
    {
        match self {
            LabelWrite::Stale => false,
            _ => true,
        }
    }
}

/// Decides a versioned update of the label `current`, read from its file
/// under the exclusive lock, for a caller who read `expected` earlier and
/// asks for `layer`: as [`compare_and_set`] says.
pub fn write_label(current: &Label, expected: &Label, layer: Option<[u32; 5]>) -> (decision:
    LabelWrite)
    requires
        current.version < u64::MAX,
    ensures
        decision.outcome(current@) == compare_and_set(
            current@,
            expected@.version,
            layer_model(layer),
        ).0,
        decision.accepted() == compare_and_set(current@, expected@.version, layer_model(layer)).1,
        decision is Write <==> compare_and_set(current@, expected@.version, layer_model(layer)).0
            != current@,
{
    if current.version != expected.version {
        LabelWrite::Stale
    } else if same_layer(&current.layer, &layer) {
        LabelWrite::Unchanged
    } else {
        LabelWrite::Write(Label::updated(current, layer))
    }
}

/// The calls made against one label, each with the version its caller
/// expects and the layer it asks for, taken in the order in which they get
/// the lock: the label after the last of them.
pub open spec fn after_calls(start: LabelModel, calls: Seq<(nat, Option<Seq<u32>>)>) -> LabelModel
    decreases calls.len(),
{
    if calls.len() == 0 {
        start
    } else {
        compare_and_set(after_calls(start, calls.drop_last()), calls.last().0, calls.last().1).0
    }
}

/// Whether call `i` of `calls` moves the label to a new version.
pub open spec fn call_moves(start: LabelModel, calls: Seq<(nat, Option<Seq<u32>>)>, i: int) -> bool
    recommends
        0 <= i < calls.len(),
{
    after_calls(start, calls.take(i + 1)) != after_calls(start, calls.take(i))
}

/// Whether call `i` of `calls` is told `true`.
pub open spec fn call_accepted(
    start: LabelModel,
    calls: Seq<(nat, Option<Seq<u32>>)>,
    i: int,
) -> bool
    recommends
        0 <= i < calls.len(),
{
    compare_and_set(after_calls(start, calls.take(i)), calls[i].0, calls[i].1).1
}

/// The version of a label never falls, and a call that moves the label
/// raises its version by one.
pub proof fn lemma_version_monotone(start: LabelModel, calls: Seq<(nat, Option<Seq<u32>>)>, i: int)
    requires
        0 <= i <= calls.len(),
    ensures
        after_calls(start, calls.take(i)).version <= after_calls(start, calls).version,
        after_calls(start, calls).name == start.name,
        i < calls.len() && call_moves(start, calls, i) ==> after_calls(
            start,
            calls.take(i + 1),
        ).version == after_calls(start, calls.take(i)).version + 1 && after_calls(
            start,
            calls.take(i),
        ).version == calls[i].0,
    decreases calls.len() - i,
{
    if i == calls.len() {
        assert(calls.take(i) =~= calls);
        lemma_names_kept(start, calls);
    } else {
        assert(calls.take(i + 1).drop_last() =~= calls.take(i));
        lemma_version_monotone(start, calls, i + 1);
    }
}

/// No call changes the name of a label.
pub proof fn lemma_names_kept(start: LabelModel, calls: Seq<(nat, Option<Seq<u32>>)>)
    ensures
        after_calls(start, calls).name == start.name,
    decreases calls.len(),
{
    if calls.len() > 0 {
        lemma_names_kept(start, calls.drop_last());
    }
}

/// Of all the callers that expect the same version, in whatever order they
/// get the lock, at most one moves the label; every caller that comes after
/// that one is told `false`, and the version has moved on for good.
pub proof fn lemma_one_winner(
    start: LabelModel,
    calls: Seq<(nat, Option<Seq<u32>>)>,
    i: int,
    j: int,
)
    requires
        0 <= i < j < calls.len(),
        calls[i].0 == calls[j].0,
        call_moves(start, calls, i),
    ensures
        !call_accepted(start, calls, j),
        !call_moves(start, calls, j),
        after_calls(start, calls).version > calls[i].0,
{
    let upto_j = calls.take(j);
    assert(upto_j.take(i) =~= calls.take(i));
    assert(upto_j.take(i + 1) =~= calls.take(i + 1));
    lemma_version_monotone(start, calls, i);
    lemma_version_monotone(start, upto_j, i + 1);
    lemma_version_monotone(start, calls, j);
    assert(calls.take(j + 1).drop_last() =~= calls.take(j));
}

} // verus!
