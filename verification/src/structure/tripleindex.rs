//! The lists of a layer's triples with their indices.
//!
//! Over the two lists stand the rank indices of their bits, a wavelet tree
//! over the predicates of the pairs, and the places of the second list once
//! more by object.  With them a triple is read at its place, and the triples
//! of a subject, of a predicate or of an object are found without reading
//! the lists from end to end.

use crate::layer::layer::IdTriple;
use crate::structure::adjacencylist::{
    decode_triples, lemma_run_start, lemma_run_start_rises, lemma_triples_with_skip, run_of,
    run_start, Lists, TripleLists,
};
use crate::structure::bitarray::bits_to_array;
use crate::structure::bitindex::{count_ones, BitIndex};
use crate::structure::logarray::{greatest, pack, width_for, LogArray, MAX_ENTRIES};
use crate::structure::objectindex::{
    encode_objects, lemma_object_run, lemma_run_stands_for_positions, ObjectIndex,
};
use crate::structure::wavelettree::{
    build_wavelet_tree, lemma_positions_of, positions_of, WaveletTree,
};
use vstd::prelude::*;

verus! {

/// Whether the lists are short enough for the indices over them to be
/// built, and hold no object beyond `count`.
pub open spec fn fits(lists: Lists, count: int) -> bool {
    &&& lists.predicates.len() <= MAX_ENTRIES
    &&& lists.predicates.len() * 64 + 4096 <= usize::MAX
    &&& count + lists.objects.len() <= MAX_ENTRIES
    &&& (count + lists.objects.len()) * 64 + 4096 <= usize::MAX
    &&& forall|j: int| 0 <= j < lists.objects.len() ==> (#[trigger] lists.objects[j]) <= count
}

/// The triples at `places`, one for each.
pub open spec fn triples_at(lists: Lists, places: Seq<u64>) -> Seq<IdTriple> {
    Seq::new(places.len(), |k: int| lists.triple_at(places[k] as int))
}

/// No position of a symbol where the symbol does not stand.
pub proof fn lemma_no_positions(symbols: Seq<u64>, symbol: u64, upto: int)
    requires
        upto <= symbols.len(),
        forall|j: int| 0 <= j < upto ==> (#[trigger] symbols[j]) != symbol,
    ensures
        positions_of(symbols, symbol, upto).len() == 0,
    decreases upto,
{
    if upto > 0 {
        lemma_no_positions(symbols, symbol, upto - 1);
    }
}

/// The two lists of the triples of a layer, with the rank indices over
/// their bits, the wavelet tree over the predicates of the pairs, and the
/// places once more by object.
pub struct TripleIndex {
    predicates: LogArray,
    ends_subject: BitIndex,
    objects: LogArray,
    ends_pair: BitIndex,
    wavelet: WaveletTree,
    by_object: ObjectIndex,
    count: u64,
}

impl View for TripleIndex {
    type V = Lists;

    closed spec fn view(&self) -> Lists {
        Lists {
            predicates: self.predicates@,
            ends_subject: self.ends_subject@,
            objects: self.objects@,
            ends_pair: self.ends_pair@,
        }
    }
}

impl TripleIndex {
    #[verifier::type_invariant]
    spec fn well_formed(self) -> bool {
        &&& (Lists {
            predicates: self.predicates@,
            ends_subject: self.ends_subject@,
            objects: self.objects@,
            ends_pair: self.ends_pair@,
        }).well_formed()
        &&& self.wavelet@ == self.predicates@
        &&& self.by_object@.indexes(self.objects@, self.count as int)
        &&& forall|j: int| 0 <= j < self.objects@.len() ==> (#[trigger] self.objects@[j]) <= self.count
    }

    /// The index over `lists`, with the places by object for the objects
    /// from 1 to `count`.
    pub fn build(lists: &TripleLists, count: u64) -> (index: TripleIndex)
        requires
            lists@.well_formed(),
            fits(lists@, count as int),
        ensures
            index@ == lists@,
            index.spec_count() == count,
    {
        let top = greatest(&lists.predicates);
        let predicates = pack(&lists.predicates, width_for(top), top);
        let top = greatest(&lists.objects);
        let objects = pack(&lists.objects, width_for(top), top);
        let wavelet = build_wavelet_tree(&predicates);
        let by_object = ObjectIndex::build(&encode_objects(&lists.objects, count));
        TripleIndex {
            predicates,
            ends_subject: BitIndex::build(bits_to_array(&lists.ends_subject)),
            objects,
            ends_pair: BitIndex::build(bits_to_array(&lists.ends_pair)),
            wavelet,
            by_object,
            count,
        }
    }

    /// The index over `lists`, or nothing where the lists are not well
    /// formed or do not fit.
    pub fn build_checked(lists: &TripleLists, count: u64) -> (index: Option<TripleIndex>)
        ensures
            index is Some <==> lists@.well_formed() && fits(lists@, count as int),
            index is Some ==> index->Some_0@ == lists@ && index->Some_0.spec_count() == count,
    {
        let pairs = lists.predicates.len();
        let places = lists.objects.len();
        let room: usize = (usize::MAX - 4096) / 64;
        if pairs > room || places > room || pairs as u64 > MAX_ENTRIES || places as u64
            > MAX_ENTRIES {
            return None;
        }
        if count > MAX_ENTRIES - places as u64 || count > (room - places) as u64 {
            return None;
        }
        let top = greatest(&lists.objects);
        if top > count {
            return None;
        }
        match decode_triples(lists) {
            Some(_) => Some(TripleIndex::build(lists, count)),
            None => None,
        }
    }

    /// The number of objects that the places are listed for.
    pub closed spec fn spec_count(&self) -> u64 {
        self.count
    }

    /// The number of objects that the places are listed for.
    pub fn count(&self) -> (count: u64)
        ensures
            count == self.spec_count(),
    {
        self.count
    }

    /// The number of places in the second list: one for each triple, and
    /// one for each subject without triples.
    pub fn len(&self) -> (len: u64)
        ensures
            len == self@.objects.len(),
            self@.well_formed(),
    {
        proof {
            use_type_invariant(self);
        }
        self.objects.len()
    }

    /// The number of pairs in the first list.
    pub fn pairs(&self) -> (pairs: u64)
        ensures
            pairs == self@.predicates.len(),
    {
        self.predicates.len()
    }

    /// The triple at place `place` of the second list: its pair is found by
    /// rank over the bits of the second list, its subject by rank over the
    /// bits of the first.
    pub fn triple_at(&self, place: u64) -> (triple: IdTriple)
        requires
            place < self@.objects.len(),
        ensures
            triple == self@.triple_at(place as int),
    {
        proof {
            use_type_invariant(self);
        }
        let pair = self.ends_pair.rank1(place);
        proof {
            assert(count_ones(self@.ends_pair, place as int) < self@.predicates.len());
        }
        let pairs = self.predicates.len();
        assert(pair < pairs);
        let subject = self.ends_subject.rank1(pair) + 1;
        IdTriple { subject, predicate: self.predicates.entry(pair), object: self.objects.entry(place) }
    }

    /// The pairs with the predicate `predicate`, in rising order: found in
    /// the wavelet tree.
    pub fn pairs_with_predicate(&self, predicate: u64) -> (pairs: Vec<u64>)
        ensures
            pairs@ == positions_of(self@.predicates, predicate, self@.predicates.len() as int),
    {
        proof {
            use_type_invariant(self);
        }
        self.wavelet.lookup(predicate)
    }

    /// The places of pair `pair`, from the first up to and without the
    /// second of the two numbers: found by select over the bits of the
    /// second list.
    pub fn places_of_pair(&self, pair: u64) -> (places: (u64, u64))
        ensures
            places.0 == run_start(self@.ends_pair, pair as int),
            places.1 == run_start(self@.ends_pair, pair + 1),
            places.0 <= places.1 <= self@.objects.len(),
    {
        proof {
            use_type_invariant(self);
        }
        run_of(&self.ends_pair, pair)
    }

    /// The pairs of subject `subject`, from the first up to and without the
    /// second of the two numbers: found by select over the bits of the
    /// first list.  No pair has the subject zero.
    pub fn pairs_of_subject(&self, subject: u64) -> (pairs: (u64, u64))
        ensures
            subject == 0 ==> pairs.0 == pairs.1,
            subject > 0 ==> pairs.0 == run_start(self@.ends_subject, subject - 1) && pairs.1
                == run_start(self@.ends_subject, subject as int),
            pairs.0 <= pairs.1 <= self@.predicates.len(),
    {
        proof {
            use_type_invariant(self);
        }
        if subject == 0 {
            return (0, 0);
        }
        run_of(&self.ends_subject, subject - 1)
    }

    /// The triples of the pairs with the predicate `predicate`, in the
    /// order of the lists: the pairs are found in the wavelet tree, the
    /// places of each by select, and the subject of each by rank.
    pub fn triples_with_predicate(&self, predicate: u64) -> (found: Vec<IdTriple>)
        ensures
            found@ == self@.triples_with(predicate, self@.objects.len() as int),
    {
        proof {
            use_type_invariant(self);
        }
        let len = self.objects.len();
        let count = self.predicates.len();
        let pairs = self.wavelet.lookup(predicate);
        let mut found: Vec<IdTriple> = Vec::new();
        let ghost mut reached: int = 0;
        proof {
            lemma_positions_of(self@.predicates, predicate, count as int);
        }
        let mut i: usize = 0;
        while i < pairs.len()
            invariant
                self@.well_formed(),
                len == self@.objects.len(),
                count == self@.predicates.len(),
                pairs@ == positions_of(self@.predicates, predicate, count as int),
                i <= pairs@.len(),
                reached == (if i == 0 {
                    0
                } else {
                    pairs@[i - 1] + 1
                }),
                0 <= reached <= count,
                found@ == self@.triples_with(predicate, run_start(self@.ends_pair, reached)),
                forall|k: int| 0 <= k < pairs@.len() ==> (#[trigger] pairs@[k]) < count
                    && self@.predicates[pairs@[k] as int] == predicate,
                forall|a: int, b: int| 0 <= a < b < pairs@.len() ==> pairs@[a] < pairs@[b],
                forall|q: int|
                    0 <= q < count && self@.predicates[q] == predicate ==> exists|k: int|
                        0 <= k < pairs@.len() && #[trigger] pairs@[k] == q,
            decreases pairs@.len() - i,
        {
            let pair = pairs[i];
            let (start, end) = self.places_of_pair(pair);
            proof {
                let lists = self@;
                lemma_run_start_rises(lists.ends_pair, reached);
                lemma_run_start_rises(lists.ends_pair, pair as int);
                assert forall|j: int| run_start(lists.ends_pair, reached) <= j < start implies lists.predicates[#[trigger] lists.pair_of(
                    j,
                )] != predicate by {
                    lemma_run_start(lists.ends_pair, reached, j);
                    lemma_run_start(lists.ends_pair, pair as int, j);
                    let q = lists.pair_of(j);
                    assert(reached <= q < pair);
                    if lists.predicates[q] == predicate {
                        let k = choose|k: int| 0 <= k < pairs@.len() && #[trigger] pairs@[k] == q;
                        if k < i {
                            if k < i - 1 {
                                assert(pairs@[k] < pairs@[i - 1]);
                            }
                        } else if k > i {
                            assert(pairs@[i as int] < pairs@[k]);
                        }
                    }
                }
                if run_start(lists.ends_pair, reached) > start {
                    if start < len {
                        lemma_run_start(lists.ends_pair, reached, start as int);
                        lemma_run_start(lists.ends_pair, pair as int, start as int);
                    }
                }
                if run_start(lists.ends_pair, reached) <= start {
                    lemma_triples_with_skip(
                        lists,
                        predicate,
                        run_start(lists.ends_pair, reached),
                        start as int,
                    );
                }
            }
            let mut place = start;
            while place < end
                invariant
                    self@.well_formed(),
                    len == self@.objects.len(),
                    start <= place <= end <= len,
                    start == run_start(self@.ends_pair, pair as int),
                    end == run_start(self@.ends_pair, pair + 1),
                    pair < self@.predicates.len(),
                    self@.predicates[pair as int] == predicate,
                    found@ == self@.triples_with(predicate, place as int),
                decreases end - place,
            {
                proof {
                    lemma_run_start(self@.ends_pair, pair as int, place as int);
                    lemma_run_start(self@.ends_pair, pair + 1, place as int);
                    assert(self@.pair_of(place as int) == pair);
                }
                found.push(self.triple_at(place));
                place += 1;
            }
            proof {
                reached = pair + 1;
            }
            i += 1;
        }
        proof {
            let lists = self@;
            let from = run_start(lists.ends_pair, reached);
            if len > 0 {
                lemma_run_start(lists.ends_pair, reached, 0);
            }
            assert forall|j: int| from <= j < len implies lists.predicates[#[trigger] lists.pair_of(
                j,
            )] != predicate by {
                lemma_run_start(lists.ends_pair, reached, j);
                let q = lists.pair_of(j);
                assert(count_ones(lists.ends_pair, j) < lists.predicates.len());
                if lists.predicates[q] == predicate {
                    let k = choose|k: int| 0 <= k < pairs@.len() && #[trigger] pairs@[k] == q;
                    if k < pairs@.len() - 1 {
                        assert(pairs@[k] < pairs@[pairs@.len() - 1]);
                    }
                }
            }
            lemma_triples_with_skip(lists, predicate, from, len as int);
        }
        found
    }

    /// The places at which `object` stands in the second list, in rising
    /// order: read from the run of the object.
    pub fn places_of_object(&self, object: u64) -> (places: Vec<u64>)
        ensures
            object > 0 ==> places@ == positions_of(
                self@.objects,
                object,
                self@.objects.len() as int,
            ),
            object == 0 ==> places@.len() == 0,
    {
        proof {
            use_type_invariant(self);
        }
        let len = self.objects.len();
        if object == 0 || object > self.count {
            proof {
                if object > 0 {
                    lemma_no_positions(self@.objects, object, len as int);
                }
            }
            return Vec::new();
        }
        proof {
            lemma_object_run(self@.objects, self.count as int, object as int);
            lemma_run_stands_for_positions(self@.objects, object);
        }
        self.by_object.positions(object)
    }

    /// The triples with the object `object`, in the order of the lists.
    pub fn triples_with_object(&self, object: u64) -> (found: Vec<IdTriple>)
        ensures
            object > 0 ==> found@ == triples_at(
                self@,
                positions_of(self@.objects, object, self@.objects.len() as int),
            ),
            object == 0 ==> found@.len() == 0,
    {
        proof {
            use_type_invariant(self);
        }
        let len = self.objects.len();
        let places = self.places_of_object(object);
        proof {
            if object > 0 {
                lemma_positions_of(self@.objects, object, len as int);
            }
        }
        let mut found: Vec<IdTriple> = Vec::new();
        let mut i: usize = 0;
        while i < places.len()
            invariant
                i <= places@.len(),
                len == self@.objects.len(),
                forall|k: int| 0 <= k < places@.len() ==> (#[trigger] places@[k]) < len,
                found@ == triples_at(self@, places@.take(i as int)),
            decreases places@.len() - i,
        {
            found.push(self.triple_at(places[i]));
            proof {
                assert(found@ =~= triples_at(self@, places@.take(i + 1)));
            }
            i += 1;
        }
        proof {
            assert(places@.take(places@.len() as int) =~= places@);
        }
        found
    }
}

} // verus!
