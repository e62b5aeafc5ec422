//! Child layers: layers that stand on a parent.
//!
//! A child layer holds the strings that its parent does not know, whose ids
//! go on where those of the parent end, and two sorted runs of triples: the
//! ones it adds to its parent and the ones it removes.  Its own triples are
//! those of the parent without the removals, and the additions.

use crate::layer::base::{
    before, contains_triple, is_sorted, within, name_at, pairs_for_subject, predicate_at, text_at,
    BaseObjectIterator, BaseObjectsForSubjectPredicatePair, BasePredicateIterator,
    BasePredicateObjectPairsForSubject, BaseSubjectIterator,
};
use crate::layer::layer::{
    holds, ids_within, triple_less, triples_sorted, IdTriple, Layer, Name, ObjectType,
    ObjectsForSubjectPredicatePair, ParentLayer, PredicateCursor, PredicateObjectPairsForSubject,
    SubjectCursor, TripleCursor,
};
use crate::structure::pfc::PfcDict;
use vstd::prelude::*;
use vstd::string::StringSliceAdditionalSpecFns;

verus! {

/// Whether `triple` is a triple of the child of a layer with the triples
/// `parent` that adds `additions` and removes `removals`.
pub open spec fn child_holds(
    parent: Seq<IdTriple>,
    additions: Seq<IdTriple>,
    removals: Seq<IdTriple>,
    triple: IdTriple,
) -> bool {
    holds(additions, triple, additions.len() as int) || (holds(parent, triple, parent.len() as int)
        && !holds(removals, triple, removals.len() as int))
}

/// The triples of the child of a layer with the triples `parent` that adds
/// `additions` and removes `removals`: in rising order, each once.
pub fn merge_triples(
    parent: &Vec<IdTriple>,
    additions: &Vec<IdTriple>,
    removals: &Vec<IdTriple>,
) -> (result: Vec<IdTriple>)
    requires
        triples_sorted(parent@),
        triples_sorted(additions@),
    ensures
        triples_sorted(result@),
        forall|t: IdTriple|
            holds(result@, t, result@.len() as int) <==> child_holds(
                parent@,
                additions@,
                removals@,
                t,
            ),
{
    let n = parent.len();
    let m = additions.len();
    let mut result: Vec<IdTriple> = Vec::new();
    let mut i: usize = 0;
    let mut j: usize = 0;
    while i < n || j < m
        invariant
            i <= n,
            j <= m,
            n == parent@.len(),
            m == additions@.len(),
            triples_sorted(parent@),
            triples_sorted(additions@),
            triples_sorted(result@),
            forall|k: int|
                0 <= k < result@.len() ==> (i < n ==> triple_less(
                    #[trigger] result@[k],
                    parent@[i as int],
                )) && (j < m ==> triple_less(result@[k], additions@[j as int])),
            forall|k: int|
                0 <= k < result@.len() ==> holds(additions@, #[trigger] result@[k], j as int) || (
                holds(parent@, result@[k], i as int) && !holds(
                    removals@,
                    result@[k],
                    removals@.len() as int,
                )),
            forall|k: int|
                0 <= k < j ==> holds(result@, #[trigger] additions@[k], result@.len() as int),
            forall|k: int|
                0 <= k < i && !holds(removals@, #[trigger] parent@[k], removals@.len() as int)
                    ==> holds(result@, parent@[k], result@.len() as int),
        decreases (n - i) + (m - j),
    {
        let ghost old_result = result@;
        let take_parent = j >= m || (i < n && before(&parent[i], &additions[j]));
        if take_parent {
            let t = parent[i];
            if !contains_triple(removals, t) {
                result.push(t);
                proof {
                    assert(result@[old_result.len() as int] == t);
                }
            }
            proof {
                assert forall|k: int| 0 <= k < result@.len() implies holds(
                    additions@,
                    #[trigger] result@[k],
                    j as int,
                ) || (holds(parent@, result@[k], i as int + 1) && !holds(
                    removals@,
                    result@[k],
                    removals@.len() as int,
                )) by {
                    if k < old_result.len() {
                        assert(result@[k] == old_result[k]);
                        if holds(parent@, old_result[k], i as int) {
                            let w = choose|w: int|
                                0 <= w < i && w < parent@.len() && parent@[w] == old_result[k];
                            assert(parent@[w] == result@[k]);
                        }
                    } else {
                        assert(parent@[i as int] == result@[k]);
                    }
                }
                assert forall|k: int| 0 <= k < j implies holds(
                    result@,
                    #[trigger] additions@[k],
                    result@.len() as int,
                ) by {
                    let w = choose|w: int|
                        0 <= w < old_result.len() && w < old_result.len() && old_result[w]
                            == additions@[k];
                    assert(result@[w] == additions@[k]);
                }
                assert forall|k: int|
                    0 <= k < i + 1 && !holds(
                        removals@,
                        #[trigger] parent@[k],
                        removals@.len() as int,
                    ) implies holds(result@, parent@[k], result@.len() as int) by {
                    if k < i {
                        let w = choose|w: int|
                            0 <= w < old_result.len() && w < old_result.len() && old_result[w]
                                == parent@[k];
                        assert(result@[w] == parent@[k]);
                    } else {
                        assert(result@[old_result.len() as int] == parent@[k]);
                    }
                }
                assert forall|a: int, b: int| 0 <= a < b < result@.len() implies triple_less(
                    #[trigger] result@[a],
                    #[trigger] result@[b],
                ) by {
                    if b < old_result.len() {
                        assert(triple_less(old_result[a], old_result[b]));
                    } else {
                        assert(triple_less(old_result[a], parent@[i as int]));
                    }
                }
                if i + 1 < n {
                    assert(triple_less(parent@[i as int], parent@[i as int + 1]));
                }
            }
            i += 1;
        } else {
            let t = additions[j];
            let both = i < n && !before(&t, &parent[i]);
            result.push(t);
            proof {
                assert(result@[old_result.len() as int] == t);
                if both {
                    assert(parent@[i as int] == t);
                }
                assert forall|k: int| 0 <= k < result@.len() implies holds(
                    additions@,
                    #[trigger] result@[k],
                    j as int + 1,
                ) || (holds(parent@, result@[k], i as int) && !holds(
                    removals@,
                    result@[k],
                    removals@.len() as int,
                )) by {
                    if k < old_result.len() {
                        assert(result@[k] == old_result[k]);
                        if holds(additions@, old_result[k], j as int) {
                            let w = choose|w: int|
                                0 <= w < j && w < additions@.len() && additions@[w]
                                    == old_result[k];
                            assert(additions@[w] == result@[k]);
                        }
                    } else {
                        assert(additions@[j as int] == result@[k]);
                    }
                }
                assert forall|k: int| 0 <= k < j + 1 implies holds(
                    result@,
                    #[trigger] additions@[k],
                    result@.len() as int,
                ) by {
                    if k < j {
                        let w = choose|w: int|
                            0 <= w < old_result.len() && w < old_result.len() && old_result[w]
                                == additions@[k];
                        assert(result@[w] == additions@[k]);
                    } else {
                        assert(result@[old_result.len() as int] == additions@[k]);
                    }
                }
                assert forall|k: int|
                    0 <= k < (if both {
                        i + 1
                    } else {
                        i as int
                    }) && !holds(removals@, #[trigger] parent@[k], removals@.len() as int) implies holds(
                    result@,
                    parent@[k],
                    result@.len() as int,
                ) by {
                    if k < i {
                        let w = choose|w: int|
                            0 <= w < old_result.len() && w < old_result.len() && old_result[w]
                                == parent@[k];
                        assert(result@[w] == parent@[k]);
                    } else {
                        assert(result@[old_result.len() as int] == parent@[k]);
                    }
                }
                assert forall|a: int, b: int| 0 <= a < b < result@.len() implies triple_less(
                    #[trigger] result@[a],
                    #[trigger] result@[b],
                ) by {
                    if b < old_result.len() {
                        assert(triple_less(old_result[a], old_result[b]));
                    } else {
                        assert(triple_less(old_result[a], additions@[j as int]));
                    }
                }
                if j + 1 < m {
                    assert(triple_less(additions@[j as int], additions@[j as int + 1]));
                }
                if both && i + 1 < n {
                    assert(triple_less(parent@[i as int], parent@[i as int + 1]));
                }
                if both {
                    assert forall|k: int| 0 <= k < result@.len() implies holds(
                        additions@,
                        #[trigger] result@[k],
                        j as int + 1,
                    ) || (holds(parent@, result@[k], i as int + 1) && !holds(
                        removals@,
                        result@[k],
                        removals@.len() as int,
                    )) by {
                        if !holds(additions@, result@[k], j as int + 1) {
                            let w = choose|w: int|
                                0 <= w < i && w < parent@.len() && parent@[w] == result@[k];
                            assert(parent@[w] == result@[k]);
                        }
                    }
                }
            }
            if both {
                i += 1;
            }
            j += 1;
        }
    }
    proof {
        assert forall|t: IdTriple|
            holds(result@, t, result@.len() as int) <==> child_holds(
                parent@,
                additions@,
                removals@,
                t,
            ) by {
            if holds(result@, t, result@.len() as int) {
                let w = choose|w: int| 0 <= w < result@.len() && w < result@.len() && result@[w] == t;
                assert(holds(additions@, result@[w], j as int) || (holds(
                    parent@,
                    result@[w],
                    i as int,
                ) && !holds(removals@, result@[w], removals@.len() as int)));
            }
            if holds(additions@, t, additions@.len() as int) {
                let w = choose|w: int|
                    0 <= w < additions@.len() && w < additions@.len() && additions@[w] == t;
                assert(holds(result@, additions@[w], result@.len() as int));
            }
            if holds(parent@, t, parent@.len() as int) && !holds(
                removals@,
                t,
                removals@.len() as int,
            ) {
                let w = choose|w: int| 0 <= w < parent@.len() && w < parent@.len() && parent@[w] == t;
                assert(holds(result@, parent@[w], result@.len() as int));
            }
        }
    }
    result
}

/// A cursor over the triples of one subject and one predicate of a child
/// layer.
pub struct ChildObjectIterator {
    inner: BaseObjectIterator,
}

impl TripleCursor for ChildObjectIterator {
    closed spec fn remaining(&self) -> Seq<IdTriple> {
        self.inner.remaining()
    }

    fn next(&mut self) -> (triple: Option<IdTriple>) {
        self.inner.next()
    }
}

/// The triples of one subject and one predicate of a child layer.
pub struct ChildObjectsForSubjectPredicatePair {
    inner: BaseObjectsForSubjectPredicatePair,
}

impl ObjectsForSubjectPredicatePair for ChildObjectsForSubjectPredicatePair {
    type ObjectIterator = ChildObjectIterator;

    closed spec fn spec_triples(&self) -> Seq<IdTriple> {
        self.inner.spec_triples()
    }

    fn subject(&self) -> (subject: u64) {
        self.inner.subject()
    }

    fn predicate(&self) -> (predicate: u64) {
        self.inner.predicate()
    }

    fn triples(&self) -> (cursor: ChildObjectIterator) {
        ChildObjectIterator { inner: self.inner.triples() }
    }

    fn triple(&self, object: u64) -> (triple: Option<IdTriple>) {
        self.inner.triple(object)
    }
}

/// A cursor over the predicates of one subject of a child layer.
pub struct ChildPredicateIterator {
    inner: BasePredicateIterator,
}

impl PredicateCursor for ChildPredicateIterator {
    type Objects = ChildObjectsForSubjectPredicatePair;

    closed spec fn remaining(&self) -> Seq<IdTriple> {
        self.inner.remaining()
    }

    fn next(&mut self) -> (objects: Option<ChildObjectsForSubjectPredicatePair>) {
        match self.inner.next() {
            Some(inner) => Some(ChildObjectsForSubjectPredicatePair { inner }),
            None => None,
        }
    }
}

/// The triples of one subject of a child layer.
pub struct ChildPredicateObjectPairsForSubject {
    inner: BasePredicateObjectPairsForSubject,
}

impl PredicateObjectPairsForSubject for ChildPredicateObjectPairsForSubject {
    type Objects = ChildObjectsForSubjectPredicatePair;

    type PredicateIterator = ChildPredicateIterator;

    closed spec fn spec_triples(&self) -> Seq<IdTriple> {
        self.inner.spec_triples()
    }

    fn subject(&self) -> (subject: u64) {
        self.inner.subject()
    }

    fn predicates(&self) -> (cursor: ChildPredicateIterator) {
        ChildPredicateIterator { inner: self.inner.predicates() }
    }

    fn objects_for_predicate(&self, predicate: u64) -> (objects: Option<
        ChildObjectsForSubjectPredicatePair,
    >) {
        match self.inner.objects_for_predicate(predicate) {
            Some(inner) => Some(ChildObjectsForSubjectPredicatePair { inner }),
            None => None,
        }
    }
}

/// A cursor over the subjects of a child layer.
pub struct ChildSubjectIterator {
    inner: BaseSubjectIterator,
}

impl SubjectCursor for ChildSubjectIterator {
    type Pairs = ChildPredicateObjectPairsForSubject;

    closed spec fn remaining(&self) -> Seq<IdTriple> {
        self.inner.remaining()
    }

    fn next(&mut self) -> (pairs: Option<ChildPredicateObjectPairsForSubject>) {
        match self.inner.next() {
            Some(inner) => Some(ChildPredicateObjectPairsForSubject { inner }),
            None => None,
        }
    }
}

/// A layer that stands on a parent.
pub struct ChildLayer {
    parent: Box<ParentLayer>,
    node_dictionary: PfcDict,
    predicate_dictionary: PfcDict,
    value_dictionary: PfcDict,
    additions: Vec<IdTriple>,
    removals: Vec<IdTriple>,
    triples: Vec<IdTriple>,
    parent_objects: u64,
    parent_predicates: u64,
}

/// What the ids of a child layer stand for: up to the number of names of
/// the parent, what they stand for in the parent; above it, the nodes and
/// then the values that the child adds.
pub proof fn lemma_child_names(layer: ChildLayer, id: u64)
    ensures
        layer.spec_object(id) == (if id <= layer.spec_parent_objects() {
            layer.spec_parent().spec_object(id)
        } else {
            name_at(layer.nodes(), layer.values(), layer.spec_parent_objects(), id)
        }),
        layer.spec_predicate(id) == (if id <= layer.spec_parent_predicates() {
            layer.spec_parent().spec_predicate(id)
        } else {
            predicate_at(layer.predicates(), layer.spec_parent_predicates(), id)
        }),
{
}

/// Whether every triple of `some` is among `all`.
pub open spec fn all_among(some: Seq<IdTriple>, all: Seq<IdTriple>) -> bool {
    forall|k: int| 0 <= k < some.len() ==> holds(all, #[trigger] some[k], all.len() as int)
}

/// Whether no triple of `some` is among `others`.
pub open spec fn none_among(some: Seq<IdTriple>, others: Seq<IdTriple>) -> bool {
    forall|k: int| 0 <= k < some.len() ==> !holds(others, #[trigger] some[k], others.len() as int)
}

impl ChildLayer {
    #[verifier::type_invariant]
    spec fn well_formed(self) -> bool {
        &&& self.parent_objects == self.parent.spec_object_count()
        &&& self.parent_predicates == self.parent.spec_predicate_count()
        &&& forall|id: u64|
            (#[trigger] self.parent.spec_object(id)) is Some <==> 1 <= id <= self.parent_objects
        &&& forall|id: u64|
            (#[trigger] self.parent.spec_predicate(id)) is Some <==> 1 <= id
                <= self.parent_predicates
        &&& self.parent_objects + self.node_dictionary@.len() + self.value_dictionary@.len()
            <= u64::MAX
        &&& self.parent_predicates + self.predicate_dictionary@.len() <= u64::MAX
        &&& triples_sorted(self.additions@)
        &&& triples_sorted(self.removals@)
        &&& ids_within(
            self.additions@,
            (self.parent_objects + self.node_dictionary@.len() + self.value_dictionary@.len()) as nat,
            (self.parent_predicates + self.predicate_dictionary@.len()) as nat,
        )
        &&& ids_within(self.removals@, self.parent_objects as nat, self.parent_predicates as nat)
        &&& triples_sorted(self.triples@)
        &&& ids_within(
            self.triples@,
            (self.parent_objects + self.node_dictionary@.len() + self.value_dictionary@.len()) as nat,
            (self.parent_predicates + self.predicate_dictionary@.len()) as nat,
        )
        &&& forall|t: IdTriple|
            holds(self.triples@, t, self.triples@.len() as int) <==> child_holds(
                self.parent.spec_triples(),
                self.additions@,
                self.removals@,
                t,
            )
    }

    /// The layer that this one stands on.
    pub closed spec fn spec_parent(&self) -> ParentLayer {
        *self.parent
    }

    /// The triples that the layer adds to its parent.
    pub closed spec fn spec_additions(&self) -> Seq<IdTriple> {
        self.additions@
    }

    /// The triples that the layer removes from its parent.
    pub closed spec fn spec_removals(&self) -> Seq<IdTriple> {
        self.removals@
    }

    /// The strings of the nodes that the layer adds, in the order of their
    /// ids.
    pub closed spec fn nodes(&self) -> Seq<Seq<u8>> {
        self.node_dictionary@
    }

    /// The strings of the predicates that the layer adds, in the order of
    /// their ids.
    pub closed spec fn predicates(&self) -> Seq<Seq<u8>> {
        self.predicate_dictionary@
    }

    /// The strings of the values that the layer adds, in the order of their
    /// ids.
    pub closed spec fn values(&self) -> Seq<Seq<u8>> {
        self.value_dictionary@
    }

    /// The number of nodes and values of the parent.
    pub closed spec fn spec_parent_objects(&self) -> nat {
        self.parent_objects as nat
    }

    /// The number of predicates of the parent.
    pub closed spec fn spec_parent_predicates(&self) -> nat {
        self.parent_predicates as nat
    }

    /// The layer that this one stands on.
    pub fn parent(&self) -> (parent: &ParentLayer)
        ensures
            *parent == self.spec_parent(),
    {
        &*self.parent
    }

    /// The dictionary of the nodes that the layer adds.
    pub fn node_dictionary(&self) -> (dict: &PfcDict)
        ensures
            dict@ == self.nodes(),
    {
        &self.node_dictionary
    }

    /// The dictionary of the predicates that the layer adds.
    pub fn predicate_dictionary(&self) -> (dict: &PfcDict)
        ensures
            dict@ == self.predicates(),
    {
        &self.predicate_dictionary
    }

    /// The dictionary of the values that the layer adds.
    pub fn value_dictionary(&self) -> (dict: &PfcDict)
        ensures
            dict@ == self.values(),
    {
        &self.value_dictionary
    }

    /// The triples that the layer adds to its parent: in strictly rising
    /// order, with ids of the layer.
    pub fn additions(&self) -> (additions: &Vec<IdTriple>)
        ensures
            additions@ == self.spec_additions(),
            triples_sorted(additions@),
            ids_within(additions@, self.spec_object_count(), self.spec_predicate_count()),
    {
        proof {
            use_type_invariant(self);
        }
        &self.additions
    }

    /// The triples that the layer removes from its parent: in strictly
    /// rising order, with ids of the parent.
    pub fn removals(&self) -> (removals: &Vec<IdTriple>)
        ensures
            removals@ == self.spec_removals(),
            triples_sorted(removals@),
            ids_within(removals@, self.spec_parent_objects(), self.spec_parent_predicates()),
    {
        proof {
            use_type_invariant(self);
        }
        &self.removals
    }

    /// The child of `parent` with these dictionaries, additions and
    /// removals: if additions and removals each stand in strictly rising
    /// order, no triple is both added and removed, every removal is a triple
    /// of the parent, the ids of the additions are ids of the child, and the
    /// dictionaries leave room for the ids.
    pub fn new(
        parent: ParentLayer,
        node_dictionary: PfcDict,
        predicate_dictionary: PfcDict,
        value_dictionary: PfcDict,
        additions: Vec<IdTriple>,
        removals: Vec<IdTriple>,
    ) -> (layer: Option<ChildLayer>)
        ensures
            layer is Some <==> {
                &&& triples_sorted(additions@)
                &&& triples_sorted(removals@)
                &&& none_among(additions@, removals@)
                &&& all_among(removals@, parent.spec_triples())
                &&& parent.spec_object_count() + node_dictionary@.len() + value_dictionary@.len()
                    <= u64::MAX
                &&& parent.spec_predicate_count() + predicate_dictionary@.len() <= u64::MAX
                &&& ids_within(
                    additions@,
                    parent.spec_object_count() + node_dictionary@.len() + value_dictionary@.len(),
                    parent.spec_predicate_count() + predicate_dictionary@.len(),
                )
            },
            layer is Some ==> {
                &&& layer->Some_0.spec_parent() == parent
                &&& layer->Some_0.spec_additions() == additions@
                &&& layer->Some_0.spec_removals() == removals@
                &&& layer->Some_0.nodes() == node_dictionary@
                &&& layer->Some_0.predicates() == predicate_dictionary@
                &&& layer->Some_0.values() == value_dictionary@
                &&& triples_sorted(layer->Some_0.spec_triples())
                &&& forall|t: IdTriple|
                    holds(
                        layer->Some_0.spec_triples(),
                        t,
                        layer->Some_0.spec_triples().len() as int,
                    ) <==> child_holds(parent.spec_triples(), additions@, removals@, t)
            },
    {
        let parent_objects = parent.node_and_value_count();
        let parent_predicates = parent.predicate_count();
        let nodes = node_dictionary.len();
        let values = value_dictionary.len();
        if nodes > u64::MAX - parent_objects || values > u64::MAX - parent_objects - nodes {
            return None;
        }
        if predicate_dictionary.len() > u64::MAX - parent_predicates {
            return None;
        }
        if !is_sorted(&additions) || !is_sorted(&removals) {
            return None;
        }
        let parent_triples = parent.triples();
        let mut k: usize = 0;
        while k < additions.len()
            invariant
                k <= additions@.len(),
                forall|i: int|
                    0 <= i < k ==> !holds(removals@, #[trigger] additions@[i], removals@.len() as int),
            decreases additions@.len() - k,
        {
            if contains_triple(&removals, additions[k]) {
                return None;
            }
            k += 1;
        }
        let mut k: usize = 0;
        while k < removals.len()
            invariant
                k <= removals@.len(),
                parent_triples@ == parent.spec_triples(),
                forall|i: int|
                    0 <= i < k ==> holds(
                        parent_triples@,
                        #[trigger] removals@[i],
                        parent_triples@.len() as int,
                    ),
            decreases removals@.len() - k,
        {
            if !contains_triple(&parent_triples, removals[k]) {
                return None;
            }
            k += 1;
        }
        let objects = parent_objects + nodes + values;
        let predicates = parent_predicates + predicate_dictionary.len();
        if !within(&additions, objects, predicates) {
            return None;
        }
        let triples = merge_triples(&parent_triples, &additions, &removals);
        proof {
            assert forall|i: int| 0 <= i < removals@.len() implies 1 <= (#[trigger] removals@[i]).subject
                <= parent_objects && 1 <= removals@[i].predicate <= parent_predicates && 1
                <= removals@[i].object <= parent_objects by {
                let t = removals@[i];
                assert(holds(parent_triples@, t, parent_triples@.len() as int));
                let w = choose|w: int|
                    0 <= w < parent_triples@.len() && w < parent_triples@.len()
                        && parent_triples@[w] == t;
                assert(1 <= parent_triples@[w].subject <= parent_objects);
            }
            assert forall|i: int| 0 <= i < triples@.len() implies 1 <= (#[trigger] triples@[i]).subject
                <= objects && 1 <= triples@[i].predicate <= predicates && 1 <= triples@[i].object
                <= objects by {
                let t = triples@[i];
                assert(holds(triples@, t, triples@.len() as int));
                assert(child_holds(parent_triples@, additions@, removals@, t));
                if holds(additions@, t, additions@.len() as int) {
                    let w = choose|w: int|
                        0 <= w < additions@.len() && w < additions@.len() && additions@[w] == t;
                    assert(1 <= additions@[w].subject <= objects);
                } else {
                    let w = choose|w: int|
                        0 <= w < parent_triples@.len() && w < parent_triples@.len()
                            && parent_triples@[w] == t;
                    assert(1 <= parent_triples@[w].subject <= parent_objects);
                }
            }
        }
        Some(
            ChildLayer {
                parent: Box::new(parent),
                node_dictionary,
                predicate_dictionary,
                value_dictionary,
                additions,
                removals,
                triples,
                parent_objects,
                parent_predicates,
            },
        )
    }
}

impl Layer for ChildLayer {
    type PredicateObjectPairsForSubject = ChildPredicateObjectPairsForSubject;

    type SubjectIterator = ChildSubjectIterator;

    closed spec fn spec_triples(&self) -> Seq<IdTriple> {
        self.triples@
    }

    open spec fn spec_object_count(&self) -> nat {
        self.spec_parent_objects() + self.nodes().len() + self.values().len()
    }

    open spec fn spec_predicate_count(&self) -> nat {
        self.spec_parent_predicates() + self.predicates().len()
    }

    closed spec fn spec_object(&self, id: u64) -> Option<Name>
        decreases self,
    {
        if id <= self.parent_objects {
            self.parent.spec_object(id)
        } else {
            name_at(self.node_dictionary@, self.value_dictionary@, self.parent_objects as nat, id)
        }
    }

    closed spec fn spec_predicate(&self, id: u64) -> Option<Seq<u8>>
        decreases self,
    {
        if id <= self.parent_predicates {
            self.parent.spec_predicate(id)
        } else {
            predicate_at(self.predicate_dictionary@, self.parent_predicates as nat, id)
        }
    }

    fn node_and_value_count(&self) -> (count: u64) {
        proof {
            use_type_invariant(self);
        }
        let count = self.parent_objects + self.node_dictionary.len() + self.value_dictionary.len();
        proof {
            assert forall|id: u64| (#[trigger] self.spec_object(id)) is Some <==> 1 <= id
                <= count by {
                if id <= self.parent_objects {
                    assert(self.parent.spec_object(id) is Some <==> 1 <= id <= self.parent_objects);
                }
            }
        }
        count
    }

    fn predicate_count(&self) -> (count: u64) {
        proof {
            use_type_invariant(self);
        }
        let count = self.parent_predicates + self.predicate_dictionary.len();
        proof {
            assert forall|id: u64| (#[trigger] self.spec_predicate(id)) is Some <==> 1 <= id
                <= count by {
                if id <= self.parent_predicates {
                    assert(self.parent.spec_predicate(id) is Some <==> 1 <= id
                        <= self.parent_predicates);
                }
            }
        }
        count
    }

    fn subject_id(&self, subject: &str) -> (id: Option<u64>)
        decreases self,
    {
        proof {
            use_type_invariant(self);
        }
        match self.parent.subject_id(subject) {
            Some(id) => Some(id),
            None => match self.node_dictionary.id(subject.as_bytes()) {
                Some(index) => Some(self.parent_objects + index + 1),
                None => {
                    let nodes = self.node_dictionary.len();
                    proof {
                        assert forall|i: u64| #[trigger]
                            self.spec_object(i) != Some(
                                Name { is_value: false, string: subject.spec_bytes() },
                            ) by {
                            if i <= self.parent_objects {
                                assert(self.spec_object(i) == self.parent.spec_object(i));
                            }
                        }
                    }
                    None
                },
            },
        }
    }

    fn predicate_id(&self, predicate: &str) -> (id: Option<u64>)
        decreases self,
    {
        proof {
            use_type_invariant(self);
        }
        match self.parent.predicate_id(predicate) {
            Some(id) => Some(id),
            None => match self.predicate_dictionary.id(predicate.as_bytes()) {
                Some(index) => Some(self.parent_predicates + index + 1),
                None => {
                    let predicates = self.predicate_dictionary.len();
                    proof {
                        assert forall|i: u64| #[trigger]
                            self.spec_predicate(i) != Some(predicate.spec_bytes()) by {
                            if i <= self.parent_predicates {
                                assert(self.spec_predicate(i) == self.parent.spec_predicate(i));
                            }
                        }
                    }
                    None
                },
            },
        }
    }

    fn object_node_id(&self, object: &str) -> (id: Option<u64>)
        decreases self,
    {
        proof {
            use_type_invariant(self);
        }
        match self.parent.object_node_id(object) {
            Some(id) => Some(id),
            None => match self.node_dictionary.id(object.as_bytes()) {
                Some(index) => Some(self.parent_objects + index + 1),
                None => {
                    let nodes = self.node_dictionary.len();
                    proof {
                        assert forall|i: u64| #[trigger]
                            self.spec_object(i) != Some(
                                Name { is_value: false, string: object.spec_bytes() },
                            ) by {
                            if i <= self.parent_objects {
                                assert(self.spec_object(i) == self.parent.spec_object(i));
                            }
                        }
                    }
                    None
                },
            },
        }
    }

    fn object_value_id(&self, object: &str) -> (id: Option<u64>)
        decreases self,
    {
        proof {
            use_type_invariant(self);
        }
        let nodes = self.node_dictionary.len();
        match self.parent.object_value_id(object) {
            Some(id) => Some(id),
            None => match self.value_dictionary.id(object.as_bytes()) {
                Some(index) => Some(self.parent_objects + nodes + index + 1),
                None => {
                    let values = self.value_dictionary.len();
                    proof {
                        assert forall|i: u64| #[trigger]
                            self.spec_object(i) != Some(
                                Name { is_value: true, string: object.spec_bytes() },
                            ) by {
                            if i <= self.parent_objects {
                                assert(self.spec_object(i) == self.parent.spec_object(i));
                            }
                        }
                    }
                    None
                },
            },
        }
    }

    fn id_subject(&self, id: u64) -> (subject: Option<String>)
        decreases self,
    {
        proof {
            use_type_invariant(self);
        }
        if id <= self.parent_objects {
            self.parent.id_subject(id)
        } else if id - self.parent_objects <= self.node_dictionary.len() {
            text_at(&self.node_dictionary, id - self.parent_objects - 1)
        } else {
            None
        }
    }

    fn id_predicate(&self, id: u64) -> (predicate: Option<String>)
        decreases self,
    {
        proof {
            use_type_invariant(self);
        }
        if id <= self.parent_predicates {
            self.parent.id_predicate(id)
        } else if id - self.parent_predicates <= self.predicate_dictionary.len() {
            text_at(&self.predicate_dictionary, id - self.parent_predicates - 1)
        } else {
            None
        }
    }

    fn id_object(&self, id: u64) -> (object: Option<ObjectType>)
        decreases self,
    {
        proof {
            use_type_invariant(self);
        }
        let nodes = self.node_dictionary.len();
        let values = self.value_dictionary.len();
        if id <= self.parent_objects {
            self.parent.id_object(id)
        } else if id - self.parent_objects <= nodes {
            match text_at(&self.node_dictionary, id - self.parent_objects - 1) {
                Some(text) => Some(ObjectType::Node(text)),
                None => None,
            }
        } else if id - self.parent_objects - nodes <= values {
            match text_at(&self.value_dictionary, id - self.parent_objects - nodes - 1) {
                Some(text) => Some(ObjectType::Value(text)),
                None => None,
            }
        } else {
            None
        }
    }

    fn subjects(&self) -> (cursor: ChildSubjectIterator) {
        ChildSubjectIterator { inner: BaseSubjectIterator::new(self.triples.clone()) }
    }

    fn predicate_object_pairs_for_subject(&self, subject: u64) -> (pairs: Option<
        ChildPredicateObjectPairsForSubject,
    >) {
        match pairs_for_subject(&self.triples, subject) {
            Some(inner) => Some(ChildPredicateObjectPairsForSubject { inner }),
            None => None,
        }
    }

    fn triple_exists(&self, subject: u64, predicate: u64, object: u64) -> (exists: bool) {
        contains_triple(&self.triples, IdTriple { subject, predicate, object })
    }

    fn triples(&self) -> (triples: Vec<IdTriple>) {
        proof {
            use_type_invariant(self);
        }
        self.triples.clone()
    }
}

} // verus!
