//! Base layers: layers that stand alone.
//!
//! A base layer owns three dictionaries, for nodes, predicates and values,
//! and a sorted run of triples over their ids.  Ids count from one; the
//! nodes take the first ids of subjects and objects, the values the ids
//! behind them.

use crate::layer::layer::{
    holds, ids_within, of_predicate, of_subject, predicate_run, subject_run, text_found,
    triple_less, triples_sorted, IdTriple, Layer, Name, ObjectType, ObjectsForSubjectPredicatePair,
    PredicateCursor, PredicateObjectPairsForSubject, SubjectCursor, TripleCursor,
};
use crate::structure::adjacencylist::{encode_triples, object_among};
use crate::structure::logarray::MAX_ENTRIES;
use crate::structure::pfc::PfcDict;
use crate::structure::tripleindex::TripleIndex;
use crate::text::string_from_utf8;
use vstd::prelude::*;
use vstd::slice::{slice_subrange, slice_to_vec};
use vstd::string::StringSliceAdditionalSpecFns;

verus! {

/// A run that goes on for `k` triples and no further is `k` long.
pub proof fn lemma_predicate_run_is(triples: Seq<IdTriple>, k: int)
    requires
        1 <= k <= triples.len(),
        forall|i: int|
            0 <= i < k ==> (#[trigger] triples[i]).subject == triples[0].subject
                && triples[i].predicate == triples[0].predicate,
        k < triples.len() ==> triples[k].subject != triples[0].subject || triples[k].predicate
            != triples[0].predicate,
    ensures
        predicate_run(triples) == k,
    decreases k,
{
    if k > 1 {
        let rest = triples.skip(1);
        assert(triples[1].subject == triples[0].subject);
        assert forall|i: int| 0 <= i < k - 1 implies (#[trigger] rest[i]).subject
            == rest[0].subject && rest[i].predicate == rest[0].predicate by {
            assert(rest[i] == triples[i + 1]);
        }
        lemma_predicate_run_is(rest, k - 1);
    }
}

/// A run that goes on for `k` triples and no further is `k` long.
pub proof fn lemma_subject_run_is(triples: Seq<IdTriple>, k: int)
    requires
        1 <= k <= triples.len(),
        forall|i: int| 0 <= i < k ==> (#[trigger] triples[i]).subject == triples[0].subject,
        k < triples.len() ==> triples[k].subject != triples[0].subject,
    ensures
        subject_run(triples) == k,
    decreases k,
{
    if k > 1 {
        let rest = triples.skip(1);
        assert(triples[1].subject == triples[0].subject);
        assert forall|i: int| 0 <= i < k - 1 implies (#[trigger] rest[i]).subject
            == rest[0].subject by {
            assert(rest[i] == triples[i + 1]);
        }
        lemma_subject_run_is(rest, k - 1);
    }
}

/// The triples of `triples` from `from` up to `to`.
pub fn copy_triples(triples: &Vec<IdTriple>, from: usize, to: usize) -> (copy: Vec<IdTriple>)
    requires
        from <= to <= triples@.len(),
    ensures
        copy@ == triples@.subrange(from as int, to as int),
{
    slice_to_vec(slice_subrange(triples.as_slice(), from, to))
}

/// A cursor over the triples of one subject and one predicate of a base
/// layer.
pub struct BaseObjectIterator {
    triples: Vec<IdTriple>,
    pos: usize,
}

impl BaseObjectIterator {
    #[verifier::type_invariant]
    spec fn well_formed(self) -> bool {
        self.pos <= self.triples@.len()
    }
}

impl TripleCursor for BaseObjectIterator {
    closed spec fn remaining(&self) -> Seq<IdTriple> {
        self.triples@.skip(self.pos as int)
    }

    fn next(&mut self) -> (triple: Option<IdTriple>) {
        proof {
            use_type_invariant(&*self);
        }
        if self.pos >= self.triples.len() {
            None
        } else {
            let triple = self.triples[self.pos];
            self.pos = self.pos + 1;
            proof {
                assert(self.remaining() =~= old(self).remaining().skip(1));
            }
            Some(triple)
        }
    }
}

/// The triples of one subject and one predicate of a base layer.
pub struct BaseObjectsForSubjectPredicatePair {
    triples: Vec<IdTriple>,
}

impl BaseObjectsForSubjectPredicatePair {
    #[verifier::type_invariant]
    spec fn well_formed(self) -> bool {
        &&& self.triples@.len() > 0
        &&& forall|i: int|
            0 <= i < self.triples@.len() ==> (#[trigger] self.triples@[i]).subject
                == self.triples@[0].subject && self.triples@[i].predicate
                == self.triples@[0].predicate
    }
}

impl ObjectsForSubjectPredicatePair for BaseObjectsForSubjectPredicatePair {
    type ObjectIterator = BaseObjectIterator;

    closed spec fn spec_triples(&self) -> Seq<IdTriple> {
        self.triples@
    }

    fn subject(&self) -> (subject: u64) {
        proof {
            use_type_invariant(self);
        }
        self.triples[0].subject
    }

    fn predicate(&self) -> (predicate: u64) {
        proof {
            use_type_invariant(self);
        }
        self.triples[0].predicate
    }

    fn triples(&self) -> (cursor: BaseObjectIterator) {
        let cursor = BaseObjectIterator { triples: self.triples.clone(), pos: 0 };
        proof {
            assert(cursor.remaining() =~= self.spec_triples());
        }
        cursor
    }

    fn triple(&self, object: u64) -> (triple: Option<IdTriple>) {
        proof {
            use_type_invariant(self);
        }
        let wanted = IdTriple {
            subject: self.triples[0].subject,
            predicate: self.triples[0].predicate,
            object,
        };
        let mut i: usize = 0;
        while i < self.triples.len()
            invariant
                i <= self.triples@.len(),
                self.triples@.len() > 0,
                wanted == (IdTriple {
                    subject: self.triples@[0].subject,
                    predicate: self.triples@[0].predicate,
                    object,
                }),
                forall|k: int| 0 <= k < i ==> self.triples@[k] != wanted,
                forall|k: int|
                    0 <= k < self.triples@.len() ==> (#[trigger] self.triples@[k]).subject
                        == self.triples@[0].subject && self.triples@[k].predicate
                        == self.triples@[0].predicate,
            decreases self.triples@.len() - i,
        {
            if self.triples[i].object == object {
                proof {
                    assert(self.triples@[i as int] == wanted);
                }
                return Some(wanted);
            }
            i += 1;
        }
        None
    }
}

/// A cursor over the predicates of one subject of a base layer.
pub struct BasePredicateIterator {
    triples: Vec<IdTriple>,
    pos: usize,
}

impl BasePredicateIterator {
    #[verifier::type_invariant]
    spec fn well_formed(self) -> bool {
        self.pos <= self.triples@.len()
    }
}

impl PredicateCursor for BasePredicateIterator {
    type Objects = BaseObjectsForSubjectPredicatePair;

    closed spec fn remaining(&self) -> Seq<IdTriple> {
        self.triples@.skip(self.pos as int)
    }

    fn next(&mut self) -> (objects: Option<BaseObjectsForSubjectPredicatePair>) {
        proof {
            use_type_invariant(&*self);
        }
        let len = self.triples.len();
        if self.pos >= len {
            return None;
        }
        let start = self.pos;
        let first = self.triples[start];
        let ghost rest = self.triples@.skip(start as int);
        let mut end = start + 1;
        while end < len && self.triples[end].subject == first.subject && self.triples[end].predicate
            == first.predicate
            invariant
                start < end <= len,
                len == self.triples@.len(),
                first == self.triples@[start as int],
                forall|k: int|
                    start <= k < end ==> (#[trigger] self.triples@[k]).subject == first.subject
                        && self.triples@[k].predicate == first.predicate,
            decreases len - end,
        {
            end += 1;
        }
        let run = copy_triples(&self.triples, start, end);
        proof {
            assert forall|i: int| 0 <= i < end - start implies (#[trigger] rest[i]).subject
                == rest[0].subject && rest[i].predicate == rest[0].predicate by {
                assert(rest[i] == self.triples@[start + i]);
            }
            lemma_predicate_run_is(rest, end - start);
            assert(run@ =~= rest.take(end - start));
        }
        self.pos = end;
        proof {
            assert(self.remaining() =~= rest.skip(end - start));
        }
        Some(BaseObjectsForSubjectPredicatePair { triples: run })
    }
}

/// The triples of one subject of a base layer.
pub struct BasePredicateObjectPairsForSubject {
    triples: Vec<IdTriple>,
}

impl BasePredicateObjectPairsForSubject {
    #[verifier::type_invariant]
    spec fn well_formed(self) -> bool {
        &&& self.triples@.len() > 0
        &&& forall|i: int|
            0 <= i < self.triples@.len() ==> (#[trigger] self.triples@[i]).subject
                == self.triples@[0].subject
    }
}

impl PredicateObjectPairsForSubject for BasePredicateObjectPairsForSubject {
    type Objects = BaseObjectsForSubjectPredicatePair;

    type PredicateIterator = BasePredicateIterator;

    closed spec fn spec_triples(&self) -> Seq<IdTriple> {
        self.triples@
    }

    fn subject(&self) -> (subject: u64) {
        proof {
            use_type_invariant(self);
        }
        self.triples[0].subject
    }

    fn predicates(&self) -> (cursor: BasePredicateIterator) {
        let cursor = BasePredicateIterator { triples: self.triples.clone(), pos: 0 };
        proof {
            assert(cursor.remaining() =~= self.spec_triples());
        }
        cursor
    }

    fn objects_for_predicate(&self, predicate: u64) -> (objects: Option<
        BaseObjectsForSubjectPredicatePair,
    >) {
        proof {
            use_type_invariant(self);
        }
        let mut found: Vec<IdTriple> = Vec::new();
        let mut i: usize = 0;
        while i < self.triples.len()
            invariant
                i <= self.triples@.len(),
                found@ == of_predicate(self.triples@, predicate, i as int),
                forall|k: int|
                    0 <= k < self.triples@.len() ==> (#[trigger] self.triples@[k]).subject
                        == self.triples@[0].subject,
                forall|k: int|
                    0 <= k < found@.len() ==> (#[trigger] found@[k]).predicate == predicate
                        && found@[k].subject == self.triples@[0].subject,
            decreases self.triples@.len() - i,
        {
            if self.triples[i].predicate == predicate {
                found.push(self.triples[i]);
            }
            i += 1;
        }
        if found.len() == 0 {
            None
        } else {
            Some(BaseObjectsForSubjectPredicatePair { triples: found })
        }
    }
}

/// A cursor over the subjects of a base layer.
pub struct BaseSubjectIterator {
    triples: Vec<IdTriple>,
    pos: usize,
}

impl BaseSubjectIterator {
    #[verifier::type_invariant]
    spec fn well_formed(self) -> bool {
        self.pos <= self.triples@.len()
    }

    /// A cursor over all of `triples`.
    pub fn new(triples: Vec<IdTriple>) -> (cursor: Self)
        ensures
            cursor.remaining() == triples@,
    {
        let cursor = BaseSubjectIterator { triples, pos: 0 };
        proof {
            assert(cursor.remaining() =~= triples@);
        }
        cursor
    }
}

impl SubjectCursor for BaseSubjectIterator {
    type Pairs = BasePredicateObjectPairsForSubject;

    closed spec fn remaining(&self) -> Seq<IdTriple> {
        self.triples@.skip(self.pos as int)
    }

    fn next(&mut self) -> (pairs: Option<BasePredicateObjectPairsForSubject>) {
        proof {
            use_type_invariant(&*self);
        }
        let len = self.triples.len();
        if self.pos >= len {
            return None;
        }
        let start = self.pos;
        let first = self.triples[start];
        let ghost rest = self.triples@.skip(start as int);
        let mut end = start + 1;
        while end < len && self.triples[end].subject == first.subject
            invariant
                start < end <= len,
                len == self.triples@.len(),
                first == self.triples@[start as int],
                forall|k: int|
                    start <= k < end ==> (#[trigger] self.triples@[k]).subject == first.subject,
            decreases len - end,
        {
            end += 1;
        }
        let run = copy_triples(&self.triples, start, end);
        proof {
            assert forall|i: int| 0 <= i < end - start implies (#[trigger] rest[i]).subject
                == rest[0].subject by {
                assert(rest[i] == self.triples@[start + i]);
            }
            lemma_subject_run_is(rest, end - start);
            assert(run@ =~= rest.take(end - start));
        }
        self.pos = end;
        proof {
            assert(self.remaining() =~= rest.skip(end - start));
        }
        Some(BasePredicateObjectPairsForSubject { triples: run })
    }
}

/// The triples of `triples` with the subject `subject`, if there are any.
pub fn pairs_for_subject(triples: &Vec<IdTriple>, subject: u64) -> (pairs: Option<
    BasePredicateObjectPairsForSubject,
>)
    ensures
        pairs is Some <==> of_subject(triples@, subject, triples@.len() as int).len() > 0,
        pairs is Some ==> pairs->Some_0.spec_triples() == of_subject(
            triples@,
            subject,
            triples@.len() as int,
        ),
{
    let mut found: Vec<IdTriple> = Vec::new();
    let mut i: usize = 0;
    while i < triples.len()
        invariant
            i <= triples@.len(),
            found@ == of_subject(triples@, subject, i as int),
            forall|k: int| 0 <= k < found@.len() ==> (#[trigger] found@[k]).subject == subject,
        decreases triples@.len() - i,
    {
        if triples[i].subject == subject {
            found.push(triples[i]);
        }
        i += 1;
    }
    if found.len() == 0 {
        None
    } else {
        Some(BasePredicateObjectPairsForSubject { triples: found })
    }
}

/// Whether `triple` is among `triples`.
pub fn contains_triple(triples: &Vec<IdTriple>, triple: IdTriple) -> (found: bool)
    ensures
        found == holds(triples@, triple, triples@.len() as int),
{
    let mut i: usize = 0;
    while i < triples.len()
        invariant
            i <= triples@.len(),
            forall|k: int| 0 <= k < i ==> triples@[k] != triple,
        decreases triples@.len() - i,
    {
        let t = triples[i];
        if t.subject == triple.subject && t.predicate == triple.predicate && t.object
            == triple.object {
            return true;
        }
        i += 1;
    }
    false
}

/// What the id `id` stands for among `nodes` and, behind them, `values`,
/// where the ids up to `before` are taken.
pub open spec fn name_at(nodes: Seq<Seq<u8>>, values: Seq<Seq<u8>>, before: nat, id: u64) -> Option<
    Name,
> {
    if before < id <= before + nodes.len() {
        Some(Name { is_value: false, string: nodes[id - before - 1] })
    } else if before + nodes.len() < id <= before + nodes.len() + values.len() {
        Some(Name { is_value: true, string: values[id - before - nodes.len() - 1] })
    } else {
        None
    }
}

/// What the id `id` stands for among `predicates`, where the ids up to
/// `before` are taken.
pub open spec fn predicate_at(predicates: Seq<Seq<u8>>, before: nat, id: u64) -> Option<Seq<u8>> {
    if before < id <= before + predicates.len() {
        Some(predicates[id - before - 1])
    } else {
        None
    }
}

/// The text of string `index` of `dict`, if it is UTF-8.
pub fn text_at(dict: &PfcDict, index: u64) -> (text: Option<String>)
    requires
        index < dict@.len(),
    ensures
        text_found(text, Some(dict@[index as int])),
{
    string_from_utf8(dict.get(index))
}

/// A layer that stands alone.
pub struct BaseLayer {
    node_dictionary: PfcDict,
    predicate_dictionary: PfcDict,
    value_dictionary: PfcDict,
    triples: Vec<IdTriple>,
}

impl BaseLayer {
    #[verifier::type_invariant]
    spec fn well_formed(self) -> bool {
        &&& self.node_dictionary@.len() + self.value_dictionary@.len() <= u64::MAX
        &&& triples_sorted(self.triples@)
        &&& ids_within(
            self.triples@,
            self.node_dictionary@.len() + self.value_dictionary@.len(),
            self.predicate_dictionary@.len(),
        )
    }

    /// The strings of the nodes, in the order of their ids.
    pub closed spec fn nodes(&self) -> Seq<Seq<u8>> {
        self.node_dictionary@
    }

    /// The strings of the predicates, in the order of their ids.
    pub closed spec fn predicates(&self) -> Seq<Seq<u8>> {
        self.predicate_dictionary@
    }

    /// The strings of the values, in the order of their ids.
    pub closed spec fn values(&self) -> Seq<Seq<u8>> {
        self.value_dictionary@
    }

    /// The dictionary of the nodes.
    pub fn node_dictionary(&self) -> (dict: &PfcDict)
        ensures
            dict@ == self.nodes(),
    {
        &self.node_dictionary
    }

    /// The dictionary of the predicates.
    pub fn predicate_dictionary(&self) -> (dict: &PfcDict)
        ensures
            dict@ == self.predicates(),
    {
        &self.predicate_dictionary
    }

    /// The dictionary of the values.
    pub fn value_dictionary(&self) -> (dict: &PfcDict)
        ensures
            dict@ == self.values(),
    {
        &self.value_dictionary
    }

    /// The base layer of these dictionaries and triples, if the triples
    /// stand in strictly rising order, their ids are ids of the
    /// dictionaries, and the dictionaries leave room for their ids.
    pub fn new(
        node_dictionary: PfcDict,
        predicate_dictionary: PfcDict,
        value_dictionary: PfcDict,
        triples: Vec<IdTriple>,
    ) -> (layer: Option<BaseLayer>)
        ensures
            layer is Some <==> triples_sorted(triples@) && node_dictionary@.len()
                + value_dictionary@.len() <= u64::MAX && ids_within(
                triples@,
                node_dictionary@.len() + value_dictionary@.len(),
                predicate_dictionary@.len(),
            ),
            layer is Some ==> {
                &&& layer->Some_0.spec_triples() == triples@
                &&& layer->Some_0.nodes() == node_dictionary@
                &&& layer->Some_0.predicates() == predicate_dictionary@
                &&& layer->Some_0.values() == value_dictionary@
            },
    {
        if node_dictionary.len() > u64::MAX - value_dictionary.len() {
            return None;
        }
        if !is_sorted(&triples) {
            return None;
        }
        if !within(
            &triples,
            node_dictionary.len() + value_dictionary.len(),
            predicate_dictionary.len(),
        ) {
            return None;
        }
        Some(BaseLayer { node_dictionary, predicate_dictionary, value_dictionary, triples })
    }

    /// The triples of the layer as two lists with their indices, the places
    /// by object listed for every node and value; nothing where the lists
    /// do not fit.
    pub fn triple_index(&self) -> (index: Option<TripleIndex>)
        ensures
            index is Some ==> {
                &&& index->Some_0@.well_formed()
                &&& index->Some_0@.all_triples() == self.spec_triples()
                &&& index->Some_0.spec_count() == self.nodes().len() + self.values().len()
            },
            2 * (self.nodes().len() + self.values().len()) + self.spec_triples().len()
                <= MAX_ENTRIES && (2 * (self.nodes().len() + self.values().len())
                + self.spec_triples().len()) * 64 + 4096 <= usize::MAX ==> index is Some,
    {
        proof {
            use_type_invariant(self);
        }
        let count = self.node_dictionary.len() + self.value_dictionary.len();
        let lists = encode_triples(&self.triples);
        proof {
            assert forall|j: int| 0 <= j < lists@.objects.len() implies (
            #[trigger] lists@.objects[j]) <= count by {
                assert(object_among(self.triples@, lists@.objects[j]));
            }
        }
        TripleIndex::build_checked(&lists, count)
    }
}

/// Whether every id of `triples` is an id of a layer with `objects` nodes
/// and values and `predicates` predicates.
pub fn within(triples: &Vec<IdTriple>, objects: u64, predicates: u64) -> (ok: bool)
    ensures
        ok == ids_within(triples@, objects as nat, predicates as nat),
{
    let mut i: usize = 0;
    while i < triples.len()
        invariant
            i <= triples@.len(),
            ids_within(triples@.take(i as int), objects as nat, predicates as nat),
        decreases triples@.len() - i,
    {
        let t = triples[i];
        if t.subject == 0 || t.subject > objects || t.predicate == 0 || t.predicate > predicates
            || t.object == 0 || t.object > objects {
            proof {
                assert(!(1 <= triples@[i as int].subject <= objects && 1
                    <= triples@[i as int].predicate <= predicates && 1 <= triples@[i as int].object
                    <= objects));
            }
            return false;
        }
        proof {
            let now = triples@.take(i as int + 1);
            assert forall|k: int| 0 <= k < now.len() implies 1 <= (#[trigger] now[k]).subject
                <= objects && 1 <= now[k].predicate <= predicates && 1 <= now[k].object
                <= objects by {
                if k < i {
                    assert(triples@.take(i as int)[k] == now[k]);
                }
            }
        }
        i += 1;
    }
    proof {
        assert(triples@.take(triples@.len() as int) =~= triples@);
    }
    true
}

/// Whether `a` comes before `b`.
pub fn before(a: &IdTriple, b: &IdTriple) -> (less: bool)
    ensures
        less == triple_less(*a, *b),
{
    a.subject < b.subject || (a.subject == b.subject && (a.predicate < b.predicate || (a.predicate
        == b.predicate && a.object < b.object)))
}

/// Each triple comes before the next, so each comes before all behind it.
pub proof fn lemma_sorted_by_steps(triples: Seq<IdTriple>, i: int, j: int)
    requires
        0 <= i < j < triples.len(),
        forall|k: int| 0 <= k < j ==> triple_less(#[trigger] triples[k], triples[k + 1]),
    ensures
        triple_less(triples[i], triples[j]),
    decreases j - i,
{
    if i + 1 < j {
        lemma_sorted_by_steps(triples, i, j - 1);
        assert(triple_less(triples[j - 1], triples[j]));
    }
}

/// Whether `triples` stand in strictly rising order.
pub fn is_sorted(triples: &Vec<IdTriple>) -> (sorted: bool)
    ensures
        sorted == triples_sorted(triples@),
{
    let mut i: usize = 1;
    while i < triples.len()
        invariant
            1 <= i,
            forall|k: int| 0 <= k < i - 1 ==> triple_less(#[trigger] triples@[k], triples@[k + 1]),
        decreases triples@.len() - i,
    {
        if !before(&triples[i - 1], &triples[i]) {
            return false;
        }
        i += 1;
    }
    proof {
        assert forall|a: int, b: int| 0 <= a < b < triples@.len() implies triple_less(
            #[trigger] triples@[a],
            #[trigger] triples@[b],
        ) by {
            lemma_sorted_by_steps(triples@, a, b);
        }
    }
    true
}

impl Layer for BaseLayer {
    type PredicateObjectPairsForSubject = BasePredicateObjectPairsForSubject;

    type SubjectIterator = BaseSubjectIterator;

    closed spec fn spec_triples(&self) -> Seq<IdTriple> {
        self.triples@
    }

    open spec fn spec_object_count(&self) -> nat {
        self.nodes().len() + self.values().len()
    }

    open spec fn spec_predicate_count(&self) -> nat {
        self.predicates().len()
    }

    open spec fn spec_object(&self, id: u64) -> Option<Name> {
        name_at(self.nodes(), self.values(), 0, id)
    }

    open spec fn spec_predicate(&self, id: u64) -> Option<Seq<u8>> {
        predicate_at(self.predicates(), 0, id)
    }

    fn node_and_value_count(&self) -> (count: u64) {
        proof {
            use_type_invariant(self);
        }
        self.node_dictionary.len() + self.value_dictionary.len()
    }

    fn predicate_count(&self) -> (count: u64) {
        self.predicate_dictionary.len()
    }

    fn subject_id(&self, subject: &str) -> (id: Option<u64>) {
        proof {
            use_type_invariant(self);
        }
        match self.node_dictionary.id(subject.as_bytes()) {
            Some(index) => Some(index + 1),
            None => {
                let n = self.node_dictionary.len();
                None
            },
        }
    }

    fn predicate_id(&self, predicate: &str) -> (id: Option<u64>) {
        let n = self.predicate_dictionary.len();
        match self.predicate_dictionary.id(predicate.as_bytes()) {
            Some(index) => Some(index + 1),
            None => None,
        }
    }

    fn object_node_id(&self, object: &str) -> (id: Option<u64>) {
        self.subject_id(object)
    }

    fn object_value_id(&self, object: &str) -> (id: Option<u64>) {
        proof {
            use_type_invariant(self);
        }
        let nodes = self.node_dictionary.len();
        let values = self.value_dictionary.len();
        match self.value_dictionary.id(object.as_bytes()) {
            Some(index) => Some(nodes + index + 1),
            None => None,
        }
    }

    fn id_subject(&self, id: u64) -> (subject: Option<String>) {
        if id == 0 || id > self.node_dictionary.len() {
            proof {
                use_type_invariant(self);
            }
            None
        } else {
            text_at(&self.node_dictionary, id - 1)
        }
    }

    fn id_predicate(&self, id: u64) -> (predicate: Option<String>) {
        if id == 0 || id > self.predicate_dictionary.len() {
            None
        } else {
            text_at(&self.predicate_dictionary, id - 1)
        }
    }

    fn id_object(&self, id: u64) -> (object: Option<ObjectType>) {
        proof {
            use_type_invariant(self);
        }
        let nodes = self.node_dictionary.len();
        let values = self.value_dictionary.len();
        if id == 0 {
            None
        } else if id <= nodes {
            match text_at(&self.node_dictionary, id - 1) {
                Some(text) => Some(ObjectType::Node(text)),
                None => None,
            }
        } else if id - nodes <= values {
            match text_at(&self.value_dictionary, id - nodes - 1) {
                Some(text) => Some(ObjectType::Value(text)),
                None => None,
            }
        } else {
            None
        }
    }

    fn subjects(&self) -> (cursor: BaseSubjectIterator) {
        BaseSubjectIterator::new(self.triples.clone())
    }

    fn predicate_object_pairs_for_subject(&self, subject: u64) -> (pairs: Option<
        BasePredicateObjectPairsForSubject,
    >) {
        pairs_for_subject(&self.triples, subject)
    }

    fn triple_exists(&self, subject: u64, predicate: u64, object: u64) -> (exists: bool) {
        contains_triple(&self.triples, IdTriple { subject, predicate, object })
    }

    fn triples(&self) -> (triples: Vec<IdTriple>) {
        proof {
            use_type_invariant(self);
        }
        self.triples.clone()
    }
}

} // verus!
