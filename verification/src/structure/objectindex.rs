//! Triples by object.
//!
//! The second of the two lists of a layer's triples holds the object of each
//! place.  To find the places of an object without reading that list from
//! end to end, the places are listed once more, object by object: the run of
//! object 1 comes first, then the run of object 2, and so on.  A place is
//! counted from one, and a bit is set where a run ends.  An object that
//! stands nowhere has a run of one zero to keep the count.

use crate::structure::adjacencylist::{run_of, run_start};
use crate::structure::bitarray::bits_to_array;
use crate::structure::bitindex::{
    count_ones, lemma_count_ones_agree, lemma_count_ones_monotone, lemma_one_before_unique,
    BitIndex,
};
use crate::structure::logarray::{greatest, pack, width_for, LogArray, MAX_ENTRIES};
use crate::structure::wavelettree::positions_of;
use vstd::prelude::*;

verus! {

/// The places among the first `upto` of `objects` at which `object` stands,
/// counted from one, in rising order.
pub open spec fn places_of(objects: Seq<u64>, object: u64, upto: int) -> Seq<u64>
    decreases upto,
{
    if upto <= 0 {
        Seq::empty()
    } else if objects[upto - 1] == object {
        places_of(objects, object, upto - 1).push(upto as u64)
    } else {
        places_of(objects, object, upto - 1)
    }
}

/// The run of `object`: its places, or one zero where it has none.
pub open spec fn object_run(objects: Seq<u64>, object: u64) -> Seq<u64> {
    let places = places_of(objects, object, objects.len() as int);
    if places.len() == 0 {
        seq![0u64]
    } else {
        places
    }
}

/// The bits of a run of `len` places: the last is set.
pub open spec fn run_ends(len: nat) -> Seq<bool> {
    Seq::new(len, |i: int| i == len - 1)
}

/// The runs of the objects from 1 to `count`, one behind the other.
pub open spec fn object_places(objects: Seq<u64>, count: int) -> Seq<u64>
    decreases count,
{
    if count <= 0 {
        Seq::empty()
    } else {
        object_places(objects, count - 1) + object_run(objects, count as u64)
    }
}

/// The bits that go with the runs of the objects from 1 to `count`.
pub open spec fn object_ends(objects: Seq<u64>, count: int) -> Seq<bool>
    decreases count,
{
    if count <= 0 {
        Seq::empty()
    } else {
        object_ends(objects, count - 1) + run_ends(object_run(objects, count as u64).len())
    }
}

/// The places that the first `upto` numbers of a run stand for, counted from
/// zero: a zero stands for none.
pub open spec fn stored_places(run: Seq<u64>, upto: int) -> Seq<u64>
    decreases upto,
{
    if upto <= 0 {
        Seq::empty()
    } else if run[upto - 1] == 0 {
        stored_places(run, upto - 1)
    } else {
        stored_places(run, upto - 1).push((run[upto - 1] - 1) as u64)
    }
}

/// The runs as values: the places, and for each whether it ends a run.
pub struct Runs {
    pub places: Seq<u64>,
    pub ends: Seq<bool>,
}

impl Runs {
    /// Every place has its bit.
    pub open spec fn well_formed(self) -> bool {
        self.places.len() == self.ends.len()
    }

    /// The `k`-th run, counting from zero.
    pub open spec fn run(self, k: int) -> Seq<u64> {
        self.places.subrange(run_start(self.ends, k), run_start(self.ends, k + 1))
    }

    /// The runs are those of the objects from 1 to `count` of `objects`.
    pub open spec fn indexes(self, objects: Seq<u64>, count: int) -> bool {
        &&& self.places == object_places(objects, count)
        &&& self.ends == object_ends(objects, count)
    }
}

/// The runs, as they are read from files or made for them.
pub struct ObjectLists {
    pub places: Vec<u64>,
    pub ends: Vec<bool>,
}

impl View for ObjectLists {
    type V = Runs;

    open spec fn view(&self) -> Runs {
        Runs { places: self.places@, ends: self.ends@ }
    }
}

/// The places of an object are counted from one, and rise.
pub proof fn lemma_places_of(objects: Seq<u64>, object: u64, upto: int)
    requires
        0 <= upto <= objects.len(),
        upto <= u64::MAX,
    ensures
        places_of(objects, object, upto).len() <= upto,
        forall|k: int|
            0 <= k < places_of(objects, object, upto).len() ==> 1 <= (#[trigger] places_of(
                objects,
                object,
                upto,
            )[k]) <= upto,
    decreases upto,
{
    if upto > 0 {
        lemma_places_of(objects, object, upto - 1);
    }
}

/// Runs that agree up to a place stand for the same places up to it.
pub proof fn lemma_stored_places_agree(a: Seq<u64>, b: Seq<u64>, upto: int)
    requires
        upto <= a.len(),
        upto <= b.len(),
        forall|i: int| 0 <= i < upto ==> a[i] == b[i],
    ensures
        stored_places(a, upto) == stored_places(b, upto),
    decreases upto,
{
    if upto > 0 {
        lemma_stored_places_agree(a, b, upto - 1);
    }
}

/// The places of an object, counted from one, stand for its positions.
pub proof fn lemma_places_stand_for_positions(objects: Seq<u64>, object: u64, upto: int)
    requires
        0 <= upto <= objects.len(),
        upto <= u64::MAX,
    ensures
        stored_places(
            places_of(objects, object, upto),
            places_of(objects, object, upto).len() as int,
        ) == positions_of(objects, object, upto),
    decreases upto,
{
    if upto > 0 {
        lemma_places_stand_for_positions(objects, object, upto - 1);
        let before = places_of(objects, object, upto - 1);
        let all = places_of(objects, object, upto);
        if objects[upto - 1] == object {
            lemma_stored_places_agree(all, before, before.len() as int);
        }
    }
}

/// The run of an object stands for the positions at which it stands.
pub proof fn lemma_run_stands_for_positions(objects: Seq<u64>, object: u64)
    requires
        objects.len() <= u64::MAX,
    ensures
        stored_places(object_run(objects, object), object_run(objects, object).len() as int)
            == positions_of(objects, object, objects.len() as int),
{
    let len = objects.len() as int;
    lemma_places_stand_for_positions(objects, object, len);
    let run = object_run(objects, object);
    if places_of(objects, object, len).len() == 0 {
        assert(stored_places(run, 0) == Seq::<u64>::empty());
        assert(stored_places(run, 1) == stored_places(run, 0));
    }
}

/// As many bits as places, and as many set bits as objects.
pub proof fn lemma_object_lists(objects: Seq<u64>, count: int)
    requires
        0 <= count,
    ensures
        object_places(objects, count).len() == object_ends(objects, count).len(),
        object_places(objects, count).len() >= count,
        count_ones(object_ends(objects, count), object_ends(objects, count).len() as int) == count,
    decreases count,
{
    if count > 0 {
        lemma_object_lists(objects, count - 1);
        let before = object_ends(objects, count - 1);
        let all = object_ends(objects, count);
        let run = object_run(objects, count as u64);
        lemma_count_ones_agree(all, before, before.len() as int);
        lemma_run_counts(all, before.len() as int, run.len() as int, run.len() as int);
    }
}

/// Inside a run no bit is set but the last.
proof fn lemma_run_counts(bits: Seq<bool>, start: int, len: int, upto: int)
    requires
        0 <= start,
        0 <= upto <= len,
        start + len <= bits.len(),
        forall|k: int| start <= k < start + len ==> (#[trigger] bits[k]) == (k == start + len - 1),
    ensures
        count_ones(bits, start + upto) == count_ones(bits, start) + (if upto == len && len > 0 {
            1int
        } else {
            0int
        }),
    decreases upto,
{
    if upto > 0 {
        lemma_run_counts(bits, start, len, upto - 1);
        assert(bits[start + upto - 1] == (upto == len));
    }
}

/// The lists of fewer objects begin the lists of more.
pub proof fn lemma_object_lists_begin(objects: Seq<u64>, fewer: int, more: int)
    requires
        0 <= fewer <= more,
    ensures
        object_places(objects, fewer).len() <= object_places(objects, more).len(),
        object_ends(objects, fewer).len() <= object_ends(objects, more).len(),
        forall|i: int|
            0 <= i < object_places(objects, fewer).len() ==> object_places(objects, more)[i]
                == object_places(objects, fewer)[i],
        forall|i: int|
            0 <= i < object_ends(objects, fewer).len() ==> object_ends(objects, more)[i]
                == object_ends(objects, fewer)[i],
    decreases more - fewer,
{
    if fewer < more {
        lemma_object_lists_begin(objects, fewer, more - 1);
    }
}

/// Where the runs of the objects up to `count` are listed, the run of
/// object `upto + 1` starts behind the runs of the objects up to `upto`.
pub proof fn lemma_object_run_start(objects: Seq<u64>, count: int, upto: int)
    requires
        0 <= upto <= count,
    ensures
        run_start(object_ends(objects, count), upto) == object_places(objects, upto).len(),
{
    if upto > 0 {
        let ends = object_ends(objects, count);
        let first = object_ends(objects, upto);
        let before = object_ends(objects, upto - 1);
        let run = object_run(objects, upto as u64);
        lemma_object_lists(objects, count);
        lemma_object_lists(objects, upto);
        lemma_object_lists(objects, upto - 1);
        lemma_object_lists_begin(objects, upto, count);
        let last = first.len() - 1;
        assert(first[last] == run_ends(run.len())[run.len() - 1]);
        assert(ends[last]);
        // before the last bit of the run, the bits of the earlier runs are set
        lemma_count_ones_agree(first, before, before.len() as int);
        lemma_run_counts(first, before.len() as int, run.len() as int, run.len() - 1);
        lemma_count_ones_agree(ends, first, last);
        lemma_one_before_unique(ends, upto as nat, ends.len() as int, last);
        lemma_count_ones_agree(ends, first, first.len() as int);
        assert(count_ones(ends, first.len() as int) == upto);
        vstd::calc! {
            (<=)
            upto; {}
            count_ones(ends, first.len() as int) as int; {
                lemma_count_ones_monotone(
                    ends,
                    first.len() as int,
                    ends.len() as int,
                );
            }
            count_ones(ends, ends.len() as int) as int;
        }
    }
}

/// Where the runs of the objects up to `count` are listed, the run that is
/// read for an object among them is its own.
pub proof fn lemma_object_run(objects: Seq<u64>, count: int, object: int)
    requires
        1 <= object <= count,
    ensures
        (Runs { places: object_places(objects, count), ends: object_ends(objects, count) }).run(
            object - 1,
        ) == object_run(objects, object as u64),
{
    let runs = Runs { places: object_places(objects, count), ends: object_ends(objects, count) };
    lemma_object_run_start(objects, count, object - 1);
    lemma_object_run_start(objects, count, object);
    lemma_object_lists_begin(objects, object, count);
    assert(runs.run(object - 1) =~= object_run(objects, object as u64));
}

/// The runs of the objects from 1 to `count` of `objects`.
pub fn encode_objects(objects: &Vec<u64>, count: u64) -> (lists: ObjectLists)
    requires
        objects@.len() < u64::MAX,
        count < usize::MAX,
        forall|j: int| 0 <= j < objects@.len() ==> (#[trigger] objects@[j]) <= count,
    ensures
        lists@.indexes(objects@, count as int),
        lists@.well_formed(),
        count <= lists@.places.len() <= count + objects@.len(),
{
    let total = objects.len();
    let mut buckets: Vec<Vec<u64>> = Vec::new();
    let mut b: u64 = 0;
    while b < count
        invariant
            b <= count,
            buckets@.len() == b,
            forall|i: int| 0 <= i < b ==> (#[trigger] buckets@[i])@ == Seq::<u64>::empty(),
        decreases count - b,
    {
        buckets.push(Vec::new());
        b += 1;
    }
    let mut j: usize = 0;
    while j < total
        invariant
            j <= total,
            total == objects@.len(),
            total < u64::MAX,
            count < usize::MAX,
            buckets@.len() == count,
            forall|k: int| 0 <= k < objects@.len() ==> (#[trigger] objects@[k]) <= count,
            forall|i: int|
                0 <= i < count ==> (#[trigger] buckets@[i])@ == places_of(
                    objects@,
                    (i + 1) as u64,
                    j as int,
                ),
        decreases total - j,
    {
        let object = objects[j];
        let ghost before = buckets@;
        if object != 0 {
            buckets[(object - 1) as usize].push((j + 1) as u64);
        }
        proof {
            assert forall|i: int| 0 <= i < count implies (#[trigger] buckets@[i])@ == places_of(
                objects@,
                (i + 1) as u64,
                j + 1,
            ) by {
                assert(before[i]@ == places_of(objects@, (i + 1) as u64, j as int));
            }
        }
        j += 1;
    }
    let mut places: Vec<u64> = Vec::new();
    let mut ends: Vec<bool> = Vec::new();
    let mut b: usize = 0;
    while b < buckets.len()
        invariant
            b <= count,
            count < usize::MAX,
            total == objects@.len(),
            total < u64::MAX,
            buckets@.len() == count,
            forall|i: int|
                0 <= i < count ==> (#[trigger] buckets@[i])@ == places_of(
                    objects@,
                    (i + 1) as u64,
                    total as int,
                ),
            places@ == object_places(objects@, b as int),
            ends@ == object_ends(objects@, b as int),
        decreases count - b,
    {
        let bucket = &buckets[b];
        let len = bucket.len();
        let ghost run = object_run(objects@, (b + 1) as u64);
        let ghost places_before = places@;
        let ghost ends_before = ends@;
        if len == 0 {
            places.push(0);
            ends.push(true);
            proof {
                assert(places@ =~= places_before + run);
                assert(ends@ =~= ends_before + run_ends(run.len()));
            }
        } else {
            proof {
                assert(run == bucket@);
            }
            let mut k: usize = 0;
            while k < len
                invariant
                    k <= len,
                    len == bucket@.len(),
                    len > 0,
                    places@ == places_before + bucket@.take(k as int),
                    ends@ == ends_before + run_ends(len as nat).take(k as int),
                decreases len - k,
            {
                places.push(bucket[k]);
                ends.push(k == len - 1);
                proof {
                    assert(places@ =~= places_before + bucket@.take(k + 1));
                    assert(ends@ =~= ends_before + run_ends(len as nat).take(k + 1));
                }
                k += 1;
            }
            proof {
                assert(bucket@.take(len as int) =~= bucket@);
                assert(run_ends(len as nat).take(len as int) =~= run_ends(len as nat));
            }
        }
        b += 1;
    }
    proof {
        lemma_object_lists(objects@, count as int);
        lemma_object_places_len(objects@, count as int);
    }
    ObjectLists { places, ends }
}

/// The runs of `count` objects take a place for each object at least, and
/// at most one more for each place of `objects`.
pub proof fn lemma_object_places_len(objects: Seq<u64>, count: int)
    requires
        0 <= count <= u64::MAX,
        objects.len() <= u64::MAX,
    ensures
        count <= object_places(objects, count).len() <= count + objects.len(),
{
    lemma_places_held(objects, count);
    lemma_held_below(objects, count, objects.len() as int);
}

/// How many of the first `upto` of `objects` are among the objects from 1
/// to `count`.
spec fn held_below(objects: Seq<u64>, count: int, upto: int) -> int
    decreases upto,
{
    if upto <= 0 {
        0
    } else {
        held_below(objects, count, upto - 1) + (if 1 <= objects[upto - 1] <= count {
            1int
        } else {
            0int
        })
    }
}

proof fn lemma_held_below(objects: Seq<u64>, count: int, upto: int)
    requires
        0 <= upto,
    ensures
        0 <= held_below(objects, count, upto) <= upto,
    decreases upto,
{
    if upto > 0 {
        lemma_held_below(objects, count, upto - 1);
    }
}

proof fn lemma_held_split(objects: Seq<u64>, count: int, upto: int)
    requires
        1 <= count <= u64::MAX,
        0 <= upto <= objects.len(),
    ensures
        held_below(objects, count, upto) == held_below(objects, count - 1, upto) + places_of(
            objects,
            count as u64,
            upto,
        ).len(),
    decreases upto,
{
    if upto > 0 {
        lemma_held_split(objects, count, upto - 1);
    }
}

proof fn lemma_places_held(objects: Seq<u64>, count: int)
    requires
        0 <= count <= u64::MAX,
        objects.len() <= u64::MAX,
    ensures
        count <= object_places(objects, count).len() <= count + held_below(
            objects,
            count,
            objects.len() as int,
        ),
    decreases count,
{
    if count > 0 {
        lemma_places_held(objects, count - 1);
        lemma_held_split(objects, count, objects.len() as int);
        lemma_places_of(objects, count as u64, objects.len() as int);
    } else {
        lemma_held_below(objects, count, objects.len() as int);
    }
}

/// The runs with the rank index over their bits.
pub struct ObjectIndex {
    places: LogArray,
    ends: BitIndex,
}

impl View for ObjectIndex {
    type V = Runs;

    closed spec fn view(&self) -> Runs {
        Runs { places: self.places@, ends: self.ends@ }
    }
}

impl ObjectIndex {
    #[verifier::type_invariant]
    spec fn well_formed(self) -> bool {
        self.places@.len() == self.ends@.len()
    }

    /// The index over `lists`.
    pub fn build(lists: &ObjectLists) -> (index: ObjectIndex)
        requires
            lists@.well_formed(),
            lists@.places.len() <= MAX_ENTRIES,
            lists@.places.len() * 64 + 4096 <= usize::MAX,
        ensures
            index@ == lists@,
    {
        let top = greatest(&lists.places);
        ObjectIndex {
            places: pack(&lists.places, width_for(top), top),
            ends: BitIndex::build(bits_to_array(&lists.ends)),
        }
    }

    /// The number of objects that have a run.
    pub fn count(&self) -> (count: u64)
        ensures
            count == count_ones(self@.ends, self@.ends.len() as int),
            self@.well_formed(),
    {
        proof {
            use_type_invariant(self);
        }
        self.ends.rank1(self.ends.len())
    }

    /// The positions at which `object` stands, counted from zero, in the
    /// order of its run: found by select over the bits.  Object zero has no
    /// run.
    pub fn positions(&self, object: u64) -> (positions: Vec<u64>)
        ensures
            object == 0 ==> positions@.len() == 0,
            object > 0 ==> positions@ == stored_places(
                self@.run(object - 1),
                self@.run(object - 1).len() as int,
            ),
    {
        proof {
            use_type_invariant(self);
        }
        let mut positions: Vec<u64> = Vec::new();
        if object == 0 {
            return positions;
        }
        let (start, end) = run_of(&self.ends, object - 1);
        let ghost run = self@.run(object - 1);
        let mut at = start;
        while at < end
            invariant
                start <= at <= end <= self@.places.len(),
                self@.places.len() == self@.ends.len(),
                run == self@.places.subrange(start as int, end as int),
                positions@ == stored_places(run, at - start),
            decreases end - at,
        {
            let place = self.places.entry(at);
            proof {
                assert(run[at - start] == place);
            }
            if place != 0 {
                positions.push(place - 1);
            }
            at += 1;
        }
        positions
    }
}

} // verus!
