//! Layers of triples, as readers see them.
//!
//! A layer is a set of triples over the ids of its dictionaries.  A base
//! layer holds its triples itself; a child layer holds what it adds to and
//! removes from its parent.  Either answers the same questions, and the
//! types of this file stand for "a base layer or a child layer" and for the
//! parts of one: the triples of a subject, the triples of a subject and a
//! predicate, and the cursors that walk them.

use crate::layer::base::{
    BaseLayer, BaseObjectIterator, BaseObjectsForSubjectPredicatePair, BasePredicateIterator,
    BasePredicateObjectPairsForSubject, BaseSubjectIterator,
};
use crate::layer::child::{
    ChildLayer, ChildObjectIterator, ChildObjectsForSubjectPredicatePair, ChildPredicateIterator,
    ChildPredicateObjectPairsForSubject, ChildSubjectIterator,
};
use vstd::prelude::*;
use vstd::string::StringSliceAdditionalSpecFns;

verus! {

/// A statement of the store: subject, predicate and object, each an id
/// into the dictionaries of the layer that holds it.
#[derive(Clone, Copy, PartialEq, Eq, Structural, Debug)]
pub struct IdTriple {
    pub subject: u64,
    pub predicate: u64,
    pub object: u64,
}

/// What an object id stands for: a node, or a value.
#[derive(Debug)]
pub enum ObjectType {
    Node(String),
    Value(String),
}

impl Clone for ObjectType {
    fn clone(&self) -> (copy: Self)
        ensures
            copy == *self,
    {
        match self {
            ObjectType::Node(s) => ObjectType::Node(s.clone()),
            ObjectType::Value(s) => ObjectType::Value(s.clone()),
        }
    }
}

impl PartialEq for ObjectType {
    fn eq(&self, other: &Self) -> (equal: bool) {
        match (self, other) {
            (ObjectType::Node(a), ObjectType::Node(b)) => *a == *b,
            (ObjectType::Value(a), ObjectType::Value(b)) => *a == *b,
            _ => false,
        }
    }
}

impl vstd::std_specs::cmp::PartialEqSpecImpl for ObjectType {
    open spec fn obeys_eq_spec() -> bool {
        true
    }

    open spec fn eq_spec(&self, other: &Self) -> bool {
        match (self, other) {
            (ObjectType::Node(a), ObjectType::Node(b)) => a@ == b@,
            (ObjectType::Value(a), ObjectType::Value(b)) => a@ == b@,
            _ => false,
        }
    }
}

/// `a` comes before `b`: by subject, then predicate, then object.
pub open spec fn triple_less(a: IdTriple, b: IdTriple) -> bool {
    ||| a.subject < b.subject
    ||| a.subject == b.subject && a.predicate < b.predicate
    ||| a.subject == b.subject && a.predicate == b.predicate && a.object < b.object
}

/// `triples` stand in strictly rising order.
pub open spec fn triples_sorted(triples: Seq<IdTriple>) -> bool {
    forall|i: int, j: int|
        0 <= i < j < triples.len() ==> triple_less(#[trigger] triples[i], #[trigger] triples[j])
}

/// Every id of `triples` is an id of a layer with `objects` nodes and
/// values and `predicates` predicates: none is zero, and none is beyond the
/// count of its kind.
pub open spec fn ids_within(triples: Seq<IdTriple>, objects: nat, predicates: nat) -> bool {
    forall|i: int|
        0 <= i < triples.len() ==> 1 <= (#[trigger] triples[i]).subject <= objects && 1
            <= triples[i].predicate <= predicates && 1 <= triples[i].object <= objects
}

/// How many triples at the start of `triples` have the subject of the
/// first.
pub open spec fn subject_run(triples: Seq<IdTriple>) -> nat
    decreases triples.len(),
{
    if triples.len() == 0 {
        0
    } else if triples.len() == 1 || triples[1].subject != triples[0].subject {
        1
    } else {
        1 + subject_run(triples.skip(1))
    }
}

/// How many triples at the start of `triples` have the subject and the
/// predicate of the first.
pub open spec fn predicate_run(triples: Seq<IdTriple>) -> nat
    decreases triples.len(),
{
    if triples.len() == 0 {
        0
    } else if triples.len() == 1 || triples[1].subject != triples[0].subject
        || triples[1].predicate != triples[0].predicate {
        1
    } else {
        1 + predicate_run(triples.skip(1))
    }
}

/// The triples among the first `upto` of `triples` that have the subject
/// `subject`.
pub open spec fn of_subject(triples: Seq<IdTriple>, subject: u64, upto: int) -> Seq<IdTriple>
    recommends
        upto <= triples.len(),
    decreases upto,
{
    if upto <= 0 {
        Seq::empty()
    } else if triples[upto - 1].subject == subject {
        of_subject(triples, subject, upto - 1).push(triples[upto - 1])
    } else {
        of_subject(triples, subject, upto - 1)
    }
}

/// The triples among the first `upto` of `triples` that have the predicate
/// `predicate`.
pub open spec fn of_predicate(triples: Seq<IdTriple>, predicate: u64, upto: int) -> Seq<IdTriple>
    recommends
        upto <= triples.len(),
    decreases upto,
{
    if upto <= 0 {
        Seq::empty()
    } else if triples[upto - 1].predicate == predicate {
        of_predicate(triples, predicate, upto - 1).push(triples[upto - 1])
    } else {
        of_predicate(triples, predicate, upto - 1)
    }
}

/// Whether `triple` is among the first `upto` of `triples`.
pub open spec fn holds(triples: Seq<IdTriple>, triple: IdTriple, upto: int) -> bool {
    exists|i: int| 0 <= i < upto && i < triples.len() && triples[i] == triple
}

/// A cursor over triples.
pub trait TripleCursor {
    /// The triples still to come.
    spec fn remaining(&self) -> Seq<IdTriple>;

    /// The next triple, if any is left.
    fn next(&mut self) -> (triple: Option<IdTriple>)
        ensures
            old(self).remaining().len() == 0 ==> triple is None && final(self).remaining()
                == old(self).remaining(),
            old(self).remaining().len() > 0 ==> triple == Some(old(self).remaining()[0]) && final(self).remaining() == old(self).remaining().skip(1),
    ;
}

/// The triples of one subject and one predicate.
pub trait ObjectsForSubjectPredicatePair {
    type ObjectIterator: TripleCursor;

    /// The triples, in the order of the layer.  There is at least one, and
    /// all have the same subject and the same predicate.
    spec fn spec_triples(&self) -> Seq<IdTriple>;

    /// The subject of all the triples.
    fn subject(&self) -> (subject: u64)
        ensures
            self.spec_triples().len() > 0,
            subject == self.spec_triples()[0].subject,
    ;

    /// The predicate of all the triples.
    fn predicate(&self) -> (predicate: u64)
        ensures
            self.spec_triples().len() > 0,
            predicate == self.spec_triples()[0].predicate,
    ;

    /// A cursor over the triples.
    fn triples(&self) -> (cursor: Self::ObjectIterator)
        ensures
            cursor.remaining() == self.spec_triples(),
    ;

    /// The triple with the object `object`, if it is among the triples.
    fn triple(&self, object: u64) -> (triple: Option<IdTriple>)
        ensures
            self.spec_triples().len() > 0,
            triple is Some <==> holds(
                self.spec_triples(),
                IdTriple {
                    subject: self.spec_triples()[0].subject,
                    predicate: self.spec_triples()[0].predicate,
                    object,
                },
                self.spec_triples().len() as int,
            ),
            triple is Some ==> triple->Some_0 == (IdTriple {
                subject: self.spec_triples()[0].subject,
                predicate: self.spec_triples()[0].predicate,
                object,
            }),
    ;
}

/// A cursor over the predicates of one subject.
pub trait PredicateCursor {
    type Objects: ObjectsForSubjectPredicatePair;

    /// The triples still to come.
    spec fn remaining(&self) -> Seq<IdTriple>;

    /// The triples of the next predicate, if any is left: the run of
    /// triples with one predicate that starts what is still to come.
    fn next(&mut self) -> (objects: Option<Self::Objects>)
        ensures
            old(self).remaining().len() == 0 ==> objects is None && final(self).remaining()
                == old(self).remaining(),
            old(self).remaining().len() > 0 ==> objects is Some
                && objects->Some_0.spec_triples() == old(self).remaining().take(
                predicate_run(old(self).remaining()) as int,
            ) && final(self).remaining() == old(self).remaining().skip(
                predicate_run(old(self).remaining()) as int,
            ),
    ;
}

/// The triples of one subject.
pub trait PredicateObjectPairsForSubject {
    type Objects: ObjectsForSubjectPredicatePair;

    type PredicateIterator: PredicateCursor;

    /// The triples, in the order of the layer.  There is at least one, and
    /// all have the same subject.
    spec fn spec_triples(&self) -> Seq<IdTriple>;

    /// The subject of all the triples.
    fn subject(&self) -> (subject: u64)
        ensures
            self.spec_triples().len() > 0,
            subject == self.spec_triples()[0].subject,
    ;

    /// A cursor over the predicates.
    fn predicates(&self) -> (cursor: Self::PredicateIterator)
        ensures
            cursor.remaining() == self.spec_triples(),
    ;

    /// The triples with the predicate `predicate`, if there are any.
    fn objects_for_predicate(&self, predicate: u64) -> (objects: Option<Self::Objects>)
        ensures
            objects is Some <==> of_predicate(
                self.spec_triples(),
                predicate,
                self.spec_triples().len() as int,
            ).len() > 0,
            objects is Some ==> objects->Some_0.spec_triples() == of_predicate(
                self.spec_triples(),
                predicate,
                self.spec_triples().len() as int,
            ),
    ;
}

/// A cursor over the subjects of a layer.
pub trait SubjectCursor {
    type Pairs: PredicateObjectPairsForSubject;

    /// The triples still to come.
    spec fn remaining(&self) -> Seq<IdTriple>;

    /// The triples of the next subject, if any is left: the run of triples
    /// with one subject that starts what is still to come.
    fn next(&mut self) -> (pairs: Option<Self::Pairs>)
        ensures
            old(self).remaining().len() == 0 ==> pairs is None && final(self).remaining()
                == old(self).remaining(),
            old(self).remaining().len() > 0 ==> pairs is Some && pairs->Some_0.spec_triples()
                == old(self).remaining().take(subject_run(old(self).remaining()) as int) && final(self).remaining() == old(self).remaining().skip(
                subject_run(old(self).remaining()) as int,
            ),
    ;
}

/// What a name stands for in a layer: the string of the dictionary, and
/// whether it is a value rather than a node.
pub struct Name {
    pub is_value: bool,
    pub string: Seq<u8>,
}

/// `object` is what `name` stands for: a node or a value as the name says,
/// with the text that the string of the name encodes.
pub open spec fn names(object: ObjectType, name: Name) -> bool {
    match object {
        ObjectType::Node(text) => !name.is_value && text@ == vstd::utf8::decode_utf8(name.string),
        ObjectType::Value(text) => name.is_value && text@ == vstd::utf8::decode_utf8(name.string),
    }
}

/// What looking up the string of a name gives: its text, where the string
/// is UTF-8.
pub open spec fn text_found(text: Option<String>, string: Option<Seq<u8>>) -> bool {
    match string {
        Some(bytes) => if vstd::utf8::valid_utf8(bytes) {
            text is Some && text->Some_0@ == vstd::utf8::decode_utf8(bytes)
        } else {
            text is None
        },
        None => text is None,
    }
}

/// A layer: dictionaries of nodes, predicates and values, and triples over
/// their ids.
pub trait Layer {
    type PredicateObjectPairsForSubject: PredicateObjectPairsForSubject;

    type SubjectIterator: SubjectCursor;

    /// The triples of the layer, in rising order.
    spec fn spec_triples(&self) -> Seq<IdTriple>;

    /// What the id `id` of subjects and objects stands for, if it is in
    /// range.
    spec fn spec_object(&self, id: u64) -> Option<Name>;

    /// What the id `id` of predicates stands for, if it is in range.
    spec fn spec_predicate(&self, id: u64) -> Option<Seq<u8>>;

    /// The number of nodes and values.
    spec fn spec_object_count(&self) -> nat;

    /// The number of predicates.
    spec fn spec_predicate_count(&self) -> nat;

    /// The number of nodes and values: the greatest id of subjects and
    /// objects.
    fn node_and_value_count(&self) -> (count: u64)
        ensures
            count == self.spec_object_count(),
            forall|id: u64| (#[trigger] self.spec_object(id)) is Some <==> 1 <= id <= count,
    ;

    /// The number of predicates: the greatest id of predicates.
    fn predicate_count(&self) -> (count: u64)
        ensures
            count == self.spec_predicate_count(),
            forall|id: u64| (#[trigger] self.spec_predicate(id)) is Some <==> 1 <= id <= count,
    ;

    /// The id of the node `subject`, if the layer knows it.
    fn subject_id(&self, subject: &str) -> (id: Option<u64>)
        ensures
            id is Some ==> self.spec_object(id->Some_0) == Some(
                Name { is_value: false, string: subject.spec_bytes() },
            ),
            id is None ==> forall|i: u64|
                self.spec_object(i) != Some(Name { is_value: false, string: subject.spec_bytes() }),
    ;

    /// The id of the predicate `predicate`, if the layer knows it.
    fn predicate_id(&self, predicate: &str) -> (id: Option<u64>)
        ensures
            id is Some ==> self.spec_predicate(id->Some_0) == Some(predicate.spec_bytes()),
            id is None ==> forall|i: u64| self.spec_predicate(i) != Some(predicate.spec_bytes()),
    ;

    /// The id of the node `object`, if the layer knows it.
    fn object_node_id(&self, object: &str) -> (id: Option<u64>)
        ensures
            id is Some ==> self.spec_object(id->Some_0) == Some(
                Name { is_value: false, string: object.spec_bytes() },
            ),
            id is None ==> forall|i: u64|
                self.spec_object(i) != Some(Name { is_value: false, string: object.spec_bytes() }),
    ;

    /// The id of the value `object`, if the layer knows it.
    fn object_value_id(&self, object: &str) -> (id: Option<u64>)
        ensures
            id is Some ==> self.spec_object(id->Some_0) == Some(
                Name { is_value: true, string: object.spec_bytes() },
            ),
            id is None ==> forall|i: u64|
                self.spec_object(i) != Some(Name { is_value: true, string: object.spec_bytes() }),
    ;

    /// The node that the id `id` stands for, if it stands for one.
    fn id_subject(&self, id: u64) -> (subject: Option<String>)
        ensures
            match self.spec_object(id) {
                Some(name) => if name.is_value {
                    subject is None
                } else {
                    text_found(subject, Some(name.string))
                },
                None => subject is None,
            },
    ;

    /// The predicate that the id `id` stands for, if it stands for one.
    fn id_predicate(&self, id: u64) -> (predicate: Option<String>)
        ensures
            text_found(predicate, self.spec_predicate(id)),
    ;

    /// The node or value that the id `id` stands for, if it stands for
    /// one.
    fn id_object(&self, id: u64) -> (object: Option<ObjectType>)
        ensures
            match self.spec_object(id) {
                Some(name) => if vstd::utf8::valid_utf8(name.string) {
                    object is Some && names(object->Some_0, name)
                } else {
                    object is None
                },
                None => object is None,
            },
    ;

    /// A cursor over the subjects of the layer.
    fn subjects(&self) -> (cursor: Self::SubjectIterator)
        ensures
            cursor.remaining() == self.spec_triples(),
    ;

    /// The triples of the subject `subject`, if there are any.
    fn predicate_object_pairs_for_subject(&self, subject: u64) -> (pairs: Option<
        Self::PredicateObjectPairsForSubject,
    >)
        ensures
            pairs is Some <==> of_subject(
                self.spec_triples(),
                subject,
                self.spec_triples().len() as int,
            ).len() > 0,
            pairs is Some ==> pairs->Some_0.spec_triples() == of_subject(
                self.spec_triples(),
                subject,
                self.spec_triples().len() as int,
            ),
    ;

    /// Whether the layer holds the triple of `subject`, `predicate` and
    /// `object`.
    fn triple_exists(&self, subject: u64, predicate: u64, object: u64) -> (exists: bool)
        ensures
            exists == holds(
                self.spec_triples(),
                IdTriple { subject, predicate, object },
                self.spec_triples().len() as int,
            ),
    ;

    /// All triples of the layer, in strictly rising order.  Their ids are
    /// ids of the layer.
    fn triples(&self) -> (triples: Vec<IdTriple>)
        ensures
            triples@ == self.spec_triples(),
            triples_sorted(triples@),
            ids_within(triples@, self.spec_object_count(), self.spec_predicate_count()),
    ;
}

/// A base layer or a child layer.
pub enum ParentLayer {
    Base(BaseLayer),
    Child(ChildLayer),
}

impl Layer for ParentLayer {
    type PredicateObjectPairsForSubject = ParentPredicateObjectPairsForSubject;

    type SubjectIterator = ParentSubjectIterator;

    open spec fn spec_triples(&self) -> Seq<IdTriple> {
        match self {
            ParentLayer::Base(b) => b.spec_triples(),
            ParentLayer::Child(c) => c.spec_triples(),
        }
    }

    open spec fn spec_object_count(&self) -> nat {
        match self {
            ParentLayer::Base(b) => b.spec_object_count(),
            ParentLayer::Child(c) => c.spec_object_count(),
        }
    }

    open spec fn spec_predicate_count(&self) -> nat {
        match self {
            ParentLayer::Base(b) => b.spec_predicate_count(),
            ParentLayer::Child(c) => c.spec_predicate_count(),
        }
    }

    open spec fn spec_object(&self, id: u64) -> Option<Name>
        decreases self,
    {
        match self {
            ParentLayer::Base(b) => b.spec_object(id),
            ParentLayer::Child(c) => c.spec_object(id),
        }
    }

    open spec fn spec_predicate(&self, id: u64) -> Option<Seq<u8>>
        decreases self,
    {
        match self {
            ParentLayer::Base(b) => b.spec_predicate(id),
            ParentLayer::Child(c) => c.spec_predicate(id),
        }
    }

    fn node_and_value_count(&self) -> (count: u64) {
        match self {
            ParentLayer::Base(b) => b.node_and_value_count(),
            ParentLayer::Child(c) => c.node_and_value_count(),
        }
    }

    fn predicate_count(&self) -> (count: u64) {
        match self {
            ParentLayer::Base(b) => b.predicate_count(),
            ParentLayer::Child(c) => c.predicate_count(),
        }
    }

    fn subject_id(&self, subject: &str) -> (id: Option<u64>)
        decreases self,
    {
        match self {
            ParentLayer::Base(b) => b.subject_id(subject),
            ParentLayer::Child(c) => c.subject_id(subject),
        }
    }

    fn predicate_id(&self, predicate: &str) -> (id: Option<u64>)
        decreases self,
    {
        match self {
            ParentLayer::Base(b) => b.predicate_id(predicate),
            ParentLayer::Child(c) => c.predicate_id(predicate),
        }
    }

    fn object_node_id(&self, node: &str) -> (id: Option<u64>)
        decreases self,
    {
        match self {
            ParentLayer::Base(b) => b.object_node_id(node),
            ParentLayer::Child(c) => c.object_node_id(node),
        }
    }

    fn object_value_id(&self, value: &str) -> (id: Option<u64>)
        decreases self,
    {
        match self {
            ParentLayer::Base(b) => b.object_value_id(value),
            ParentLayer::Child(c) => c.object_value_id(value),
        }
    }

    fn id_subject(&self, id: u64) -> (subject: Option<String>)
        decreases self,
    {
        match self {
            ParentLayer::Base(b) => b.id_subject(id),
            ParentLayer::Child(c) => c.id_subject(id),
        }
    }

    fn id_predicate(&self, id: u64) -> (predicate: Option<String>)
        decreases self,
    {
        match self {
            ParentLayer::Base(b) => b.id_predicate(id),
            ParentLayer::Child(c) => c.id_predicate(id),
        }
    }

    fn id_object(&self, id: u64) -> (object: Option<ObjectType>)
        decreases self,
    {
        match self {
            ParentLayer::Base(b) => b.id_object(id),
            ParentLayer::Child(c) => c.id_object(id),
        }
    }

    fn subjects(&self) -> (cursor: ParentSubjectIterator) {
        match self {
            ParentLayer::Base(b) => {
                let inner = b.subjects();
                let cursor = ParentSubjectIterator::Base(inner);
                assert(cursor.remaining() == inner.remaining());
                assert(self.spec_triples() == b.spec_triples());
                cursor
            },
            ParentLayer::Child(c) => {
                let inner = c.subjects();
                let cursor = ParentSubjectIterator::Child(inner);
                assert(cursor.remaining() == inner.remaining());
                assert(self.spec_triples() == c.spec_triples());
                cursor
            },
        }
    }

    fn predicate_object_pairs_for_subject(&self, subject: u64) -> (pairs: Option<
        ParentPredicateObjectPairsForSubject,
    >) {
        match self {
            ParentLayer::Base(b) => {
                assert(self.spec_triples() == b.spec_triples());
                match b.predicate_object_pairs_for_subject(subject) {
                    Some(inner) => {
                        let pairs = ParentPredicateObjectPairsForSubject::Base(inner);
                        assert(pairs.spec_triples() == inner.spec_triples());
                        Some(pairs)
                    },
                    None => None,
                }
            },
            ParentLayer::Child(c) => {
                assert(self.spec_triples() == c.spec_triples());
                match c.predicate_object_pairs_for_subject(subject) {
                    Some(inner) => {
                        let pairs = ParentPredicateObjectPairsForSubject::Child(inner);
                        assert(pairs.spec_triples() == inner.spec_triples());
                        Some(pairs)
                    },
                    None => None,
                }
            },
        }
    }

    fn triple_exists(&self, subject: u64, predicate: u64, object: u64) -> (exists: bool) {
        match self {
            ParentLayer::Base(b) => b.triple_exists(subject, predicate, object),
            ParentLayer::Child(c) => c.triple_exists(subject, predicate, object),
        }
    }

    fn triples(&self) -> (triples: Vec<IdTriple>) {
        match self {
            ParentLayer::Base(b) => b.triples(),
            ParentLayer::Child(c) => c.triples(),
        }
    }
}

/// A cursor over the subjects of a base layer or of a child layer.
pub enum ParentSubjectIterator {
    Base(BaseSubjectIterator),
    Child(ChildSubjectIterator),
}

impl SubjectCursor for ParentSubjectIterator {
    type Pairs = ParentPredicateObjectPairsForSubject;

    open spec fn remaining(&self) -> Seq<IdTriple> {
        match self {
            ParentSubjectIterator::Base(b) => b.remaining(),
            ParentSubjectIterator::Child(c) => c.remaining(),
        }
    }

    fn next(&mut self) -> (pairs: Option<ParentPredicateObjectPairsForSubject>) {
        let ghost before = self.remaining();
        match self {
            ParentSubjectIterator::Base(b) => {
                assert(b.remaining() == before);
                match b.next() {
                    Some(inner) => {
                        let pairs = ParentPredicateObjectPairsForSubject::Base(inner);
                        assert(pairs.spec_triples() == inner.spec_triples());
                        Some(pairs)
                    },
                    None => None,
                }
            },
            ParentSubjectIterator::Child(c) => {
                assert(c.remaining() == before);
                match c.next() {
                    Some(inner) => {
                        let pairs = ParentPredicateObjectPairsForSubject::Child(inner);
                        assert(pairs.spec_triples() == inner.spec_triples());
                        Some(pairs)
                    },
                    None => None,
                }
            },
        }
    }
}

/// The triples of one subject of a base layer or of a child layer.
pub enum ParentPredicateObjectPairsForSubject {
    Base(BasePredicateObjectPairsForSubject),
    Child(ChildPredicateObjectPairsForSubject),
}

impl PredicateObjectPairsForSubject for ParentPredicateObjectPairsForSubject {
    type Objects = ParentObjectsForSubjectPredicatePair;

    type PredicateIterator = ParentPredicateIterator;

    open spec fn spec_triples(&self) -> Seq<IdTriple> {
        match self {
            ParentPredicateObjectPairsForSubject::Base(b) => b.spec_triples(),
            ParentPredicateObjectPairsForSubject::Child(c) => c.spec_triples(),
        }
    }

    fn subject(&self) -> (subject: u64) {
        match self {
            ParentPredicateObjectPairsForSubject::Base(b) => b.subject(),
            ParentPredicateObjectPairsForSubject::Child(c) => c.subject(),
        }
    }

    fn predicates(&self) -> (cursor: ParentPredicateIterator) {
        match self {
            ParentPredicateObjectPairsForSubject::Base(b) => {
                let inner = b.predicates();
                let cursor = ParentPredicateIterator::Base(inner);
                assert(cursor.remaining() == inner.remaining());
                assert(self.spec_triples() == b.spec_triples());
                cursor
            },
            ParentPredicateObjectPairsForSubject::Child(c) => {
                let inner = c.predicates();
                let cursor = ParentPredicateIterator::Child(inner);
                assert(cursor.remaining() == inner.remaining());
                assert(self.spec_triples() == c.spec_triples());
                cursor
            },
        }
    }

    fn objects_for_predicate(&self, predicate: u64) -> (objects: Option<
        ParentObjectsForSubjectPredicatePair,
    >) {
        match self {
            ParentPredicateObjectPairsForSubject::Base(b) => {
                assert(self.spec_triples() == b.spec_triples());
                match b.objects_for_predicate(predicate) {
                    Some(inner) => {
                        let objects = ParentObjectsForSubjectPredicatePair::Base(inner);
                        assert(objects.spec_triples() == inner.spec_triples());
                        Some(objects)
                    },
                    None => None,
                }
            },
            ParentPredicateObjectPairsForSubject::Child(c) => {
                assert(self.spec_triples() == c.spec_triples());
                match c.objects_for_predicate(predicate) {
                    Some(inner) => {
                        let objects = ParentObjectsForSubjectPredicatePair::Child(inner);
                        assert(objects.spec_triples() == inner.spec_triples());
                        Some(objects)
                    },
                    None => None,
                }
            },
        }
    }
}

/// A cursor over the predicates of one subject of a base layer or of a
/// child layer.
pub enum ParentPredicateIterator {
    Base(BasePredicateIterator),
    Child(ChildPredicateIterator),
}

impl PredicateCursor for ParentPredicateIterator {
    type Objects = ParentObjectsForSubjectPredicatePair;

    open spec fn remaining(&self) -> Seq<IdTriple> {
        match self {
            ParentPredicateIterator::Base(b) => b.remaining(),
            ParentPredicateIterator::Child(c) => c.remaining(),
        }
    }

    fn next(&mut self) -> (objects: Option<ParentObjectsForSubjectPredicatePair>) {
        let ghost before = self.remaining();
        match self {
            ParentPredicateIterator::Base(b) => {
                assert(b.remaining() == before);
                match b.next() {
                    Some(inner) => {
                        let objects = ParentObjectsForSubjectPredicatePair::Base(inner);
                        assert(objects.spec_triples() == inner.spec_triples());
                        Some(objects)
                    },
                    None => None,
                }
            },
            ParentPredicateIterator::Child(c) => {
                assert(c.remaining() == before);
                match c.next() {
                    Some(inner) => {
                        let objects = ParentObjectsForSubjectPredicatePair::Child(inner);
                        assert(objects.spec_triples() == inner.spec_triples());
                        Some(objects)
                    },
                    None => None,
                }
            },
        }
    }
}

/// The triples of one subject and one predicate of a base layer or of a
/// child layer.
pub enum ParentObjectsForSubjectPredicatePair {
    Base(BaseObjectsForSubjectPredicatePair),
    Child(ChildObjectsForSubjectPredicatePair),
}

impl ObjectsForSubjectPredicatePair for ParentObjectsForSubjectPredicatePair {
    type ObjectIterator = ParentObjectIterator;

    open spec fn spec_triples(&self) -> Seq<IdTriple> {
        match self {
            ParentObjectsForSubjectPredicatePair::Base(b) => b.spec_triples(),
            ParentObjectsForSubjectPredicatePair::Child(c) => c.spec_triples(),
        }
    }

    fn subject(&self) -> (subject: u64) {
        match self {
            ParentObjectsForSubjectPredicatePair::Base(b) => b.subject(),
            ParentObjectsForSubjectPredicatePair::Child(c) => c.subject(),
        }
    }

    fn predicate(&self) -> (predicate: u64) {
        match self {
            ParentObjectsForSubjectPredicatePair::Base(b) => b.predicate(),
            ParentObjectsForSubjectPredicatePair::Child(c) => c.predicate(),
        }
    }

    fn triples(&self) -> (cursor: ParentObjectIterator) {
        match self {
            ParentObjectsForSubjectPredicatePair::Base(b) => {
                let inner = b.triples();
                let cursor = ParentObjectIterator::Base(inner);
                assert(cursor.remaining() == inner.remaining());
                assert(self.spec_triples() == b.spec_triples());
                cursor
            },
            ParentObjectsForSubjectPredicatePair::Child(c) => {
                let inner = c.triples();
                let cursor = ParentObjectIterator::Child(inner);
                assert(cursor.remaining() == inner.remaining());
                assert(self.spec_triples() == c.spec_triples());
                cursor
            },
        }
    }

    fn triple(&self, object: u64) -> (triple: Option<IdTriple>) {
        match self {
            ParentObjectsForSubjectPredicatePair::Base(b) => b.triple(object),
            ParentObjectsForSubjectPredicatePair::Child(c) => c.triple(object),
        }
    }
}

/// A cursor over the triples of one subject and one predicate of a base
/// layer or of a child layer.
pub enum ParentObjectIterator {
    Base(BaseObjectIterator),
    Child(ChildObjectIterator),
}

impl TripleCursor for ParentObjectIterator {
    open spec fn remaining(&self) -> Seq<IdTriple> {
        match self {
            ParentObjectIterator::Base(b) => b.remaining(),
            ParentObjectIterator::Child(c) => c.remaining(),
        }
    }

    fn next(&mut self) -> (triple: Option<IdTriple>) {
        let ghost before = self.remaining();
        match self {
            ParentObjectIterator::Base(b) => {
                assert(b.remaining() == before);
                b.next()
            },
            ParentObjectIterator::Child(c) => {
                assert(c.remaining() == before);
                c.next()
            },
        }
    }
}

} // verus!
