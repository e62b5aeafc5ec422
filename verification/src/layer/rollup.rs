//! Rollup layers.
//!
//! A rollup layer stands in for a stack of layers: one layer that holds what
//! the stack holds.  It answers under the name of the layer it stands in
//! for, and every question about ids and triples is answered by the layer
//! inside it.

use crate::layer::layer::{
    IdTriple, Layer, Name, ObjectType, ParentLayer, ParentPredicateObjectPairsForSubject,
    ParentSubjectIterator,
};
use vstd::prelude::*;

verus! {

/// A layer that stands in for a stack of layers.
pub struct RollupLayer {
    name: [u32; 5],
    original: [u32; 5],
    inner_layer: Box<ParentLayer>,
}

impl RollupLayer {
    /// The layer `inner_layer`, called `name`, standing in for the layer
    /// called `original`.
    pub fn new(name: [u32; 5], original: [u32; 5], inner_layer: ParentLayer) -> (layer: Self)
        ensures
            layer.spec_name() == original,
            layer.spec_rollup_name() == name,
            layer.spec_inner() == inner_layer,
    {
        RollupLayer { name, original, inner_layer: Box::new(inner_layer) }
    }

    /// The name that the layer answers under: that of the layer it stands
    /// in for.
    pub closed spec fn spec_name(&self) -> [u32; 5] {
        self.original
    }

    /// The name of the layer itself.
    pub closed spec fn spec_rollup_name(&self) -> [u32; 5] {
        self.name
    }

    /// The layer inside.
    pub closed spec fn spec_inner(&self) -> ParentLayer {
        *self.inner_layer
    }

    /// The name that the layer answers under: that of the layer it stands
    /// in for.
    pub fn name(&self) -> (name: [u32; 5])
        ensures
            name == self.spec_name(),
    {
        self.original
    }

    /// The name of the layer itself.
    pub fn rollup_name(&self) -> (name: [u32; 5])
        ensures
            name == self.spec_rollup_name(),
    {
        self.name
    }
}

impl Layer for RollupLayer {
    type PredicateObjectPairsForSubject = ParentPredicateObjectPairsForSubject;

    type SubjectIterator = ParentSubjectIterator;

    open spec fn spec_triples(&self) -> Seq<IdTriple> {
        self.spec_inner().spec_triples()
    }

    open spec fn spec_object_count(&self) -> nat {
        self.spec_inner().spec_object_count()
    }

    open spec fn spec_predicate_count(&self) -> nat {
        self.spec_inner().spec_predicate_count()
    }

    open spec fn spec_object(&self, id: u64) -> Option<Name> {
        self.spec_inner().spec_object(id)
    }

    open spec fn spec_predicate(&self, id: u64) -> Option<Seq<u8>> {
        self.spec_inner().spec_predicate(id)
    }

    fn node_and_value_count(&self) -> (count: u64) {
        self.inner_layer.node_and_value_count()
    }

    fn predicate_count(&self) -> (count: u64) {
        self.inner_layer.predicate_count()
    }

    fn subject_id(&self, subject: &str) -> (id: Option<u64>) {
        self.inner_layer.subject_id(subject)
    }

    fn predicate_id(&self, predicate: &str) -> (id: Option<u64>) {
        self.inner_layer.predicate_id(predicate)
    }

    fn object_node_id(&self, object: &str) -> (id: Option<u64>) {
        self.inner_layer.object_node_id(object)
    }

    fn object_value_id(&self, object: &str) -> (id: Option<u64>) {
        self.inner_layer.object_value_id(object)
    }

    fn id_subject(&self, id: u64) -> (subject: Option<String>) {
        self.inner_layer.id_subject(id)
    }

    fn id_predicate(&self, id: u64) -> (predicate: Option<String>) {
        self.inner_layer.id_predicate(id)
    }

    fn id_object(&self, id: u64) -> (object: Option<ObjectType>) {
        self.inner_layer.id_object(id)
    }

    fn subjects(&self) -> (cursor: ParentSubjectIterator) {
        self.inner_layer.subjects()
    }

    fn predicate_object_pairs_for_subject(&self, subject: u64) -> (pairs: Option<
        ParentPredicateObjectPairsForSubject,
    >) {
        self.inner_layer.predicate_object_pairs_for_subject(subject)
    }

    fn triple_exists(&self, subject: u64, predicate: u64, object: u64) -> (exists: bool) {
        self.inner_layer.triple_exists(subject, predicate, object)
    }

    fn triples(&self) -> (triples: Vec<IdTriple>) {
        self.inner_layer.triples()
    }
}

} // verus!
