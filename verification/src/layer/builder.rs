//! Builders of layers.
//!
//! A layer is built from the strings of its nodes, of its predicates and of
//! its values, each kind added in strictly rising order, and from its
//! triples, added in strictly rising order too.  A string gets the next
//! number of its kind as it is added, counted from one.  As a subject or an
//! object, a node of a base layer has its number for id, and a value has its
//! number behind the numbers of all nodes; in a child layer both stand
//! behind the ids of the parent.

use crate::layer::base::{before, BaseLayer};
use crate::layer::child::{all_among, none_among, ChildLayer};
use crate::layer::layer::{ids_within, triple_less, triples_sorted, IdTriple, Layer, ParentLayer};
use crate::structure::logarray::MAX_ENTRIES;
use crate::structure::pfc::{contains_zero, lex_less, DictError, PfcDictBuilder};
use vstd::prelude::*;
use vstd::string::StringSliceAdditionalSpecFns;

verus! {

/// Whether `string` can be added behind `strings`: it holds no zero byte,
/// and it comes behind the last of them.
pub open spec fn can_follow(strings: Seq<Seq<u8>>, string: Seq<u8>) -> bool {
    !contains_zero(string) && (strings.len() == 0 || lex_less(strings.last(), string))
}

/// Whether `triple` can be added behind `triples`: it holds no id zero, and
/// it comes behind the last of them.
pub open spec fn can_follow_triples(triples: Seq<IdTriple>, triple: IdTriple) -> bool {
    &&& triple.subject >= 1
    &&& triple.predicate >= 1
    &&& triple.object >= 1
    &&& triples.len() == 0 || triple_less(triples.last(), triple)
}

/// Triples in rising order with one more behind the last are in rising
/// order.
pub proof fn lemma_sorted_push(triples: Seq<IdTriple>, triple: IdTriple)
    requires
        triples_sorted(triples),
        triples.len() == 0 || triple_less(triples.last(), triple),
    ensures
        triples_sorted(triples.push(triple)),
{
    let all = triples.push(triple);
    assert forall|i: int, j: int| 0 <= i < j < all.len() implies triple_less(
        #[trigger] all[i],
        #[trigger] all[j],
    ) by {
        if j == triples.len() {
            if i < triples.len() - 1 {
                assert(triple_less(triples[i], triples[triples.len() - 1]));
            }
        } else {
            assert(triple_less(triples[i], triples[j]));
        }
    }
}

fn push_triple(triples: &mut Vec<IdTriple>, triple: IdTriple) -> (added: bool)
    requires
        triples_sorted(old(triples)@),
    ensures
        triples_sorted(final(triples)@),
        added <==> can_follow_triples(old(triples)@, triple),
        added ==> final(triples)@ == old(triples)@.push(triple),
        !added ==> final(triples)@ == old(triples)@,
{
    if triple.subject == 0 || triple.predicate == 0 || triple.object == 0 {
        return false;
    }
    let len = triples.len();
    if len > 0 && !before(&triples[len - 1], &triple) {
        return false;
    }
    proof {
        lemma_sorted_push(triples@, triple);
    }
    triples.push(triple);
    true
}

/// Collects the strings and the triples of a base layer.
pub struct BaseLayerBuilder {
    nodes: PfcDictBuilder,
    predicates: PfcDictBuilder,
    values: PfcDictBuilder,
    triples: Vec<IdTriple>,
}

impl BaseLayerBuilder {
    /// The builder is in order.
    pub closed spec fn wf(&self) -> bool {
        &&& self.nodes.wf()
        &&& self.predicates.wf()
        &&& self.values.wf()
        &&& triples_sorted(self.triples@)
    }

    /// The nodes added so far.
    pub closed spec fn nodes(&self) -> Seq<Seq<u8>> {
        self.nodes@
    }

    /// The predicates added so far.
    pub closed spec fn predicates(&self) -> Seq<Seq<u8>> {
        self.predicates@
    }

    /// The values added so far.
    pub closed spec fn values(&self) -> Seq<Seq<u8>> {
        self.values@
    }

    /// The triples added so far.
    pub closed spec fn triples(&self) -> Seq<IdTriple> {
        self.triples@
    }

    /// The bytes that the strings of a kind take so far, at most: nodes,
    /// predicates and values in turn.
    pub closed spec fn sizes(&self) -> (nat, nat, nat) {
        (self.nodes.size(), self.predicates.size(), self.values.size())
    }

    /// A builder that holds nothing yet.
    pub fn new() -> (builder: Self)
        ensures
            builder.wf(),
            builder.nodes().len() == 0,
            builder.predicates().len() == 0,
            builder.values().len() == 0,
            builder.triples().len() == 0,
            builder.sizes() == (0nat, 0nat, 0nat),
    {
        BaseLayerBuilder {
            nodes: PfcDictBuilder::new(),
            predicates: PfcDictBuilder::new(),
            values: PfcDictBuilder::new(),
            triples: Vec::new(),
        }
    }

    /// Adds the node `node` and gives its number, if it can follow the
    /// nodes added so far.
    pub fn add_node(&mut self, node: &str) -> (number: Result<u64, DictError>)
        requires
            old(self).wf(),
            old(self).nodes().len() + 1 < u64::MAX,
            old(self).sizes().0 + node.spec_bytes().len() + 2 <= usize::MAX,
            old(self).sizes().0 + node.spec_bytes().len() + 2 <= u64::MAX,
        ensures
            final(self).wf(),
            final(self).predicates() == old(self).predicates(),
            final(self).values() == old(self).values(),
            final(self).triples() == old(self).triples(),
            final(self).sizes().1 == old(self).sizes().1,
            final(self).sizes().2 == old(self).sizes().2,
            number is Ok <==> can_follow(old(self).nodes(), node.spec_bytes()),
            number is Ok ==> number->Ok_0 == old(self).nodes().len() + 1 && final(self).nodes()
                == old(self).nodes().push(node.spec_bytes()) && final(self).sizes().0 <= old(self).sizes().0 + node.spec_bytes().len() + 2,
            number is Err ==> final(self).nodes() == old(self).nodes() && final(self).sizes().0
                == old(self).sizes().0,
            contains_zero(node.spec_bytes()) <==> number == Err::<u64, DictError>(
                DictError::ContainsZero,
            ),
    {
        match self.nodes.add(node.as_bytes()) {
            Ok(index) => Ok(index + 1),
            Err(e) => Err(e),
        }
    }

    /// Adds the predicate `predicate` and gives its number, if it can
    /// follow the predicates added so far.
    pub fn add_predicate(&mut self, predicate: &str) -> (number: Result<u64, DictError>)
        requires
            old(self).wf(),
            old(self).predicates().len() + 1 < u64::MAX,
            old(self).sizes().1 + predicate.spec_bytes().len() + 2 <= usize::MAX,
            old(self).sizes().1 + predicate.spec_bytes().len() + 2 <= u64::MAX,
        ensures
            final(self).wf(),
            final(self).nodes() == old(self).nodes(),
            final(self).values() == old(self).values(),
            final(self).triples() == old(self).triples(),
            final(self).sizes().0 == old(self).sizes().0,
            final(self).sizes().2 == old(self).sizes().2,
            number is Ok <==> can_follow(old(self).predicates(), predicate.spec_bytes()),
            number is Ok ==> number->Ok_0 == old(self).predicates().len() + 1 && final(self).predicates() == old(self).predicates().push(predicate.spec_bytes()) && final(self).sizes().1 <= old(self).sizes().1 + predicate.spec_bytes().len() + 2,
            number is Err ==> final(self).predicates() == old(self).predicates() && final(self).sizes().1 == old(self).sizes().1,
            contains_zero(predicate.spec_bytes()) <==> number == Err::<u64, DictError>(
                DictError::ContainsZero,
            ),
    {
        match self.predicates.add(predicate.as_bytes()) {
            Ok(index) => Ok(index + 1),
            Err(e) => Err(e),
        }
    }

    /// Adds the value `value` and gives its number, if it can follow the
    /// values added so far.
    pub fn add_value(&mut self, value: &str) -> (number: Result<u64, DictError>)
        requires
            old(self).wf(),
            old(self).values().len() + 1 < u64::MAX,
            old(self).sizes().2 + value.spec_bytes().len() + 2 <= usize::MAX,
            old(self).sizes().2 + value.spec_bytes().len() + 2 <= u64::MAX,
        ensures
            final(self).wf(),
            final(self).nodes() == old(self).nodes(),
            final(self).predicates() == old(self).predicates(),
            final(self).triples() == old(self).triples(),
            final(self).sizes().0 == old(self).sizes().0,
            final(self).sizes().1 == old(self).sizes().1,
            number is Ok <==> can_follow(old(self).values(), value.spec_bytes()),
            number is Ok ==> number->Ok_0 == old(self).values().len() + 1 && final(self).values()
                == old(self).values().push(value.spec_bytes()) && final(self).sizes().2 <= old(self).sizes().2 + value.spec_bytes().len() + 2,
            number is Err ==> final(self).values() == old(self).values() && final(self).sizes().2
                == old(self).sizes().2,
            contains_zero(value.spec_bytes()) <==> number == Err::<u64, DictError>(
                DictError::ContainsZero,
            ),
    {
        match self.values.add(value.as_bytes()) {
            Ok(index) => Ok(index + 1),
            Err(e) => Err(e),
        }
    }

    /// Adds the triple `triple`, if it can follow the triples added so far.
    pub fn add_triple(&mut self, triple: IdTriple) -> (added: bool)
        requires
            old(self).wf(),
        ensures
            final(self).wf(),
            final(self).nodes() == old(self).nodes(),
            final(self).predicates() == old(self).predicates(),
            final(self).values() == old(self).values(),
            final(self).sizes() == old(self).sizes(),
            added <==> can_follow_triples(old(self).triples(), triple),
            added ==> final(self).triples() == old(self).triples().push(triple),
            !added ==> final(self).triples() == old(self).triples(),
    {
        push_triple(&mut self.triples, triple)
    }

    /// The layer of what was added: there is one if the ids of the triples
    /// are ids of its nodes, predicates and values.
    pub fn into_layer(self) -> (layer: Option<BaseLayer>)
        requires
            self.wf(),
            self.nodes().len() <= MAX_ENTRIES,
            self.predicates().len() <= MAX_ENTRIES,
            self.values().len() <= MAX_ENTRIES,
            self.nodes().len() * 8 + 256 <= usize::MAX,
            self.predicates().len() * 8 + 256 <= usize::MAX,
            self.values().len() * 8 + 256 <= usize::MAX,
        ensures
            layer is Some <==> ids_within(
                self.triples(),
                self.nodes().len() + self.values().len(),
                self.predicates().len(),
            ),
            layer is Some ==> {
                &&& layer->Some_0.spec_triples() == self.triples()
                &&& layer->Some_0.nodes() == self.nodes()
                &&& layer->Some_0.predicates() == self.predicates()
                &&& layer->Some_0.values() == self.values()
            },
    {
        BaseLayer::new(
            self.nodes.into_dict(),
            self.predicates.into_dict(),
            self.values.into_dict(),
            self.triples,
        )
    }
}

/// Collects the strings that a child layer adds to those of its parent,
/// the triples that it adds and the triples that it removes.
pub struct ChildLayerBuilder {
    parent: ParentLayer,
    nodes: PfcDictBuilder,
    predicates: PfcDictBuilder,
    values: PfcDictBuilder,
    additions: Vec<IdTriple>,
    removals: Vec<IdTriple>,
}

impl ChildLayerBuilder {
    /// The builder is in order.
    pub closed spec fn wf(&self) -> bool {
        &&& self.nodes.wf()
        &&& self.predicates.wf()
        &&& self.values.wf()
        &&& triples_sorted(self.additions@)
        &&& triples_sorted(self.removals@)
    }

    /// The layer that the child will stand on.
    pub closed spec fn parent(&self) -> ParentLayer {
        self.parent
    }

    /// The nodes added so far.
    pub closed spec fn nodes(&self) -> Seq<Seq<u8>> {
        self.nodes@
    }

    /// The predicates added so far.
    pub closed spec fn predicates(&self) -> Seq<Seq<u8>> {
        self.predicates@
    }

    /// The values added so far.
    pub closed spec fn values(&self) -> Seq<Seq<u8>> {
        self.values@
    }

    /// The triples to add, as far as they are given.
    pub closed spec fn additions(&self) -> Seq<IdTriple> {
        self.additions@
    }

    /// The triples to remove, as far as they are given.
    pub closed spec fn removals(&self) -> Seq<IdTriple> {
        self.removals@
    }

    /// The bytes that the strings of a kind take so far, at most: nodes,
    /// predicates and values in turn.
    pub closed spec fn sizes(&self) -> (nat, nat, nat) {
        (self.nodes.size(), self.predicates.size(), self.values.size())
    }

    /// A builder of a child of `parent` that holds nothing yet.
    pub fn new(parent: ParentLayer) -> (builder: Self)
        ensures
            builder.wf(),
            builder.parent() == parent,
            builder.nodes().len() == 0,
            builder.predicates().len() == 0,
            builder.values().len() == 0,
            builder.additions().len() == 0,
            builder.removals().len() == 0,
            builder.sizes() == (0nat, 0nat, 0nat),
    {
        ChildLayerBuilder {
            parent,
            nodes: PfcDictBuilder::new(),
            predicates: PfcDictBuilder::new(),
            values: PfcDictBuilder::new(),
            additions: Vec::new(),
            removals: Vec::new(),
        }
    }

    /// Adds the node `node`, which the parent does not hold, and gives its
    /// number among the nodes of the child, if it can follow them.
    pub fn add_node(&mut self, node: &str) -> (number: Result<u64, DictError>)
        requires
            old(self).wf(),
            old(self).nodes().len() + 1 < u64::MAX,
            old(self).sizes().0 + node.spec_bytes().len() + 2 <= usize::MAX,
            old(self).sizes().0 + node.spec_bytes().len() + 2 <= u64::MAX,
        ensures
            final(self).wf(),
            final(self).parent() == old(self).parent(),
            final(self).predicates() == old(self).predicates(),
            final(self).values() == old(self).values(),
            final(self).additions() == old(self).additions(),
            final(self).removals() == old(self).removals(),
            final(self).sizes().1 == old(self).sizes().1,
            final(self).sizes().2 == old(self).sizes().2,
            number is Ok <==> can_follow(old(self).nodes(), node.spec_bytes()),
            number is Ok ==> number->Ok_0 == old(self).nodes().len() + 1 && final(self).nodes()
                == old(self).nodes().push(node.spec_bytes()) && final(self).sizes().0 <= old(self).sizes().0 + node.spec_bytes().len() + 2,
            number is Err ==> final(self).nodes() == old(self).nodes() && final(self).sizes().0
                == old(self).sizes().0,
            contains_zero(node.spec_bytes()) <==> number == Err::<u64, DictError>(
                DictError::ContainsZero,
            ),
    {
        match self.nodes.add(node.as_bytes()) {
            Ok(index) => Ok(index + 1),
            Err(e) => Err(e),
        }
    }

    /// Adds the predicate `predicate`, which the parent does not hold, and
    /// gives its number among the predicates of the child, if it can follow
    /// them.
    pub fn add_predicate(&mut self, predicate: &str) -> (number: Result<u64, DictError>)
        requires
            old(self).wf(),
            old(self).predicates().len() + 1 < u64::MAX,
            old(self).sizes().1 + predicate.spec_bytes().len() + 2 <= usize::MAX,
            old(self).sizes().1 + predicate.spec_bytes().len() + 2 <= u64::MAX,
        ensures
            final(self).wf(),
            final(self).parent() == old(self).parent(),
            final(self).nodes() == old(self).nodes(),
            final(self).values() == old(self).values(),
            final(self).additions() == old(self).additions(),
            final(self).removals() == old(self).removals(),
            final(self).sizes().0 == old(self).sizes().0,
            final(self).sizes().2 == old(self).sizes().2,
            number is Ok <==> can_follow(old(self).predicates(), predicate.spec_bytes()),
            number is Ok ==> number->Ok_0 == old(self).predicates().len() + 1 && final(self).predicates() == old(self).predicates().push(predicate.spec_bytes()) && final(self).sizes().1 <= old(self).sizes().1 + predicate.spec_bytes().len() + 2,
            number is Err ==> final(self).predicates() == old(self).predicates() && final(self).sizes().1 == old(self).sizes().1,
            contains_zero(predicate.spec_bytes()) <==> number == Err::<u64, DictError>(
                DictError::ContainsZero,
            ),
    {
        match self.predicates.add(predicate.as_bytes()) {
            Ok(index) => Ok(index + 1),
            Err(e) => Err(e),
        }
    }

    /// Adds the value `value`, which the parent does not hold, and gives
    /// its number among the values of the child, if it can follow them.
    pub fn add_value(&mut self, value: &str) -> (number: Result<u64, DictError>)
        requires
            old(self).wf(),
            old(self).values().len() + 1 < u64::MAX,
            old(self).sizes().2 + value.spec_bytes().len() + 2 <= usize::MAX,
            old(self).sizes().2 + value.spec_bytes().len() + 2 <= u64::MAX,
        ensures
            final(self).wf(),
            final(self).parent() == old(self).parent(),
            final(self).nodes() == old(self).nodes(),
            final(self).predicates() == old(self).predicates(),
            final(self).additions() == old(self).additions(),
            final(self).removals() == old(self).removals(),
            final(self).sizes().0 == old(self).sizes().0,
            final(self).sizes().1 == old(self).sizes().1,
            number is Ok <==> can_follow(old(self).values(), value.spec_bytes()),
            number is Ok ==> number->Ok_0 == old(self).values().len() + 1 && final(self).values()
                == old(self).values().push(value.spec_bytes()) && final(self).sizes().2 <= old(self).sizes().2 + value.spec_bytes().len() + 2,
            number is Err ==> final(self).values() == old(self).values() && final(self).sizes().2
                == old(self).sizes().2,
            contains_zero(value.spec_bytes()) <==> number == Err::<u64, DictError>(
                DictError::ContainsZero,
            ),
    {
        match self.values.add(value.as_bytes()) {
            Ok(index) => Ok(index + 1),
            Err(e) => Err(e),
        }
    }

    /// Adds `triple` to the triples to add, if it can follow them.
    pub fn add_triple(&mut self, triple: IdTriple) -> (added: bool)
        requires
            old(self).wf(),
        ensures
            final(self).wf(),
            final(self).parent() == old(self).parent(),
            final(self).nodes() == old(self).nodes(),
            final(self).predicates() == old(self).predicates(),
            final(self).values() == old(self).values(),
            final(self).removals() == old(self).removals(),
            final(self).sizes() == old(self).sizes(),
            added <==> can_follow_triples(old(self).additions(), triple),
            added ==> final(self).additions() == old(self).additions().push(triple),
            !added ==> final(self).additions() == old(self).additions(),
    {
        push_triple(&mut self.additions, triple)
    }

    /// Adds `triple` to the triples to remove, if it can follow them.
    pub fn remove_triple(&mut self, triple: IdTriple) -> (added: bool)
        requires
            old(self).wf(),
        ensures
            final(self).wf(),
            final(self).parent() == old(self).parent(),
            final(self).nodes() == old(self).nodes(),
            final(self).predicates() == old(self).predicates(),
            final(self).values() == old(self).values(),
            final(self).additions() == old(self).additions(),
            final(self).sizes() == old(self).sizes(),
            added <==> can_follow_triples(old(self).removals(), triple),
            added ==> final(self).removals() == old(self).removals().push(triple),
            !added ==> final(self).removals() == old(self).removals(),
    {
        push_triple(&mut self.removals, triple)
    }

    /// The child of what was added: there is one if no triple is both
    /// added and removed, every triple to remove is a triple of the parent,
    /// the ids of the triples to add are ids of the child, and the strings
    /// leave room for the ids.
    pub fn into_layer(self) -> (layer: Option<ChildLayer>)
        requires
            self.wf(),
            self.nodes().len() <= MAX_ENTRIES,
            self.predicates().len() <= MAX_ENTRIES,
            self.values().len() <= MAX_ENTRIES,
            self.nodes().len() * 8 + 256 <= usize::MAX,
            self.predicates().len() * 8 + 256 <= usize::MAX,
            self.values().len() * 8 + 256 <= usize::MAX,
        ensures
            layer is Some <==> {
                &&& none_among(self.additions(), self.removals())
                &&& all_among(self.removals(), self.parent().spec_triples())
                &&& self.parent().spec_object_count() + self.nodes().len() + self.values().len()
                    <= u64::MAX
                &&& self.parent().spec_predicate_count() + self.predicates().len() <= u64::MAX
                &&& ids_within(
                    self.additions(),
                    self.parent().spec_object_count() + self.nodes().len() + self.values().len(),
                    self.parent().spec_predicate_count() + self.predicates().len(),
                )
            },
            layer is Some ==> {
                &&& layer->Some_0.spec_parent() == self.parent()
                &&& layer->Some_0.spec_additions() == self.additions()
                &&& layer->Some_0.spec_removals() == self.removals()
                &&& layer->Some_0.nodes() == self.nodes()
                &&& layer->Some_0.predicates() == self.predicates()
                &&& layer->Some_0.values() == self.values()
            },
    {
        ChildLayer::new(
            self.parent,
            self.nodes.into_dict(),
            self.predicates.into_dict(),
            self.values.into_dict(),
            self.additions,
            self.removals,
        )
    }
}

} // verus!
