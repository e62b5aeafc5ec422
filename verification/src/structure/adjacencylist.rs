//! Triples as adjacency lists.
//!
//! The triples of a layer, in rising order, are stored as two lists.  The
//! first runs over the pairs of subject and predicate: it holds the
//! predicate of each pair, and a bit that is set where the pair is the last
//! of its subject.  The second runs over the triples: it holds the object of
//! each, and a bit that is set where the triple is the last of its pair.
//! Subjects are not stored: the pairs of subject 1 come first, then those of
//! subject 2, and so on, and a subject without triples has one pair with
//! predicate 0 and one object 0 to keep the count.

use crate::layer::layer::{of_predicate, triples_sorted, IdTriple};
use crate::structure::bitindex::{
    count_ones, lemma_count_ones_agree, lemma_count_ones_monotone, lemma_one_before_found,
    nth_one, BitIndex,
};
use vstd::prelude::*;

verus! {

/// The two lists as values: for each pair its predicate and whether it ends
/// its subject, for each triple its object and whether it ends its pair.
pub struct Lists {
    pub predicates: Seq<u64>,
    pub ends_subject: Seq<bool>,
    pub objects: Seq<u64>,
    pub ends_pair: Seq<bool>,
}

impl Lists {
    /// The lists are as long as each other where they must be, and every
    /// triple has its pair.
    pub open spec fn well_formed(self) -> bool {
        &&& self.predicates.len() == self.ends_subject.len()
        &&& self.objects.len() == self.ends_pair.len()
        &&& forall|j: int|
            0 <= j < self.objects.len() ==> (#[trigger] count_ones(self.ends_pair, j))
                < self.predicates.len()
    }

    /// The pair that triple `j` belongs to: as many pairs end before it.
    pub open spec fn pair_of(self, j: int) -> int {
        count_ones(self.ends_pair, j) as int
    }

    /// The triple at place `j` of the second list.
    pub open spec fn triple_at(self, j: int) -> IdTriple {
        IdTriple {
            subject: (count_ones(self.ends_subject, self.pair_of(j)) + 1) as u64,
            predicate: self.predicates[self.pair_of(j)],
            object: self.objects[j],
        }
    }

    /// The triples among the first `upto` places, without those that only
    /// keep the count.
    pub open spec fn triples(self, upto: int) -> Seq<IdTriple>
        decreases upto,
    {
        if upto <= 0 {
            Seq::empty()
        } else if self.predicates[self.pair_of(upto - 1)] == 0 {
            self.triples(upto - 1)
        } else {
            self.triples(upto - 1).push(self.triple_at(upto - 1))
        }
    }

    /// The triples among the first `upto` places whose pair has the
    /// predicate `predicate`.
    pub open spec fn triples_with(self, predicate: u64, upto: int) -> Seq<IdTriple>
        decreases upto,
    {
        if upto <= 0 {
            Seq::empty()
        } else if self.predicates[self.pair_of(upto - 1)] == predicate {
            self.triples_with(predicate, upto - 1).push(self.triple_at(upto - 1))
        } else {
            self.triples_with(predicate, upto - 1)
        }
    }

    /// All triples of the lists.
    pub open spec fn all_triples(self) -> Seq<IdTriple> {
        self.triples(self.objects.len() as int)
    }
}

/// The two lists, as they are read from files or made for them.
pub struct TripleLists {
    pub predicates: Vec<u64>,
    pub ends_subject: Vec<bool>,
    pub objects: Vec<u64>,
    pub ends_pair: Vec<bool>,
}

impl View for TripleLists {
    type V = Lists;

    open spec fn view(&self) -> Lists {
        Lists {
            predicates: self.predicates@,
            ends_subject: self.ends_subject@,
            objects: self.objects@,
            ends_pair: self.ends_pair@,
        }
    }
}

/// Reads the triples back from the two lists: nothing where the lists are
/// not well formed, or where a subject would be beyond 64 bits.
pub fn decode_triples(lists: &TripleLists) -> (triples: Option<Vec<IdTriple>>)
    ensures
        triples is Some <==> lists@.well_formed(),
        triples is Some ==> triples->Some_0@ == lists@.all_triples(),
{
    let len1 = lists.predicates.len();
    let len2 = lists.objects.len();
    if lists.ends_subject.len() != len1 || lists.ends_pair.len() != len2 {
        return None;
    }
    let ghost l = lists@;
    let mut triples: Vec<IdTriple> = Vec::new();
    let mut pair: usize = 0;
    let mut subject: u64 = 0;
    let mut j: usize = 0;
    while j < len2
        invariant
            j <= len2,
            l == lists@,
            len1 == l.predicates.len(),
            len1 == l.ends_subject.len(),
            len2 == l.objects.len(),
            len2 == l.ends_pair.len(),
            pair == count_ones(l.ends_pair, j as int),
            pair <= j,
            pair <= len1,
            subject == count_ones(l.ends_subject, pair as int),
            subject <= pair,
            forall|k: int| 0 <= k < j ==> (#[trigger] count_ones(l.ends_pair, k)) < len1,
            triples@ == l.triples(j as int),
        decreases len2 - j,
    {
        if pair >= len1 {
            proof {
                assert(!(count_ones(l.ends_pair, j as int) < l.predicates.len()));
            }
            return None;
        }
        let predicate = lists.predicates[pair];
        if predicate != 0 {
            triples.push(IdTriple { subject: subject + 1, predicate, object: lists.objects[j] });
        }
        if lists.ends_pair[j] {
            if lists.ends_subject[pair] {
                subject = subject + 1;
            }
            pair = pair + 1;
        }
        j += 1;
    }
    Some(triples)
}

/// `longer` begins with `shorter`.
pub open spec fn begins_with<T>(longer: Seq<T>, shorter: Seq<T>) -> bool {
    shorter.len() <= longer.len() && forall|i: int|
        0 <= i < shorter.len() ==> longer[i] == shorter[i]
}

/// Lists that are made longer hold the triples that they held.
pub proof fn lemma_triples_stable(shorter: Lists, longer: Lists, upto: int)
    requires
        0 <= upto <= shorter.objects.len(),
        shorter.objects.len() == shorter.ends_pair.len(),
        shorter.predicates.len() == shorter.ends_subject.len(),
        begins_with(longer.predicates, shorter.predicates),
        begins_with(longer.ends_subject, shorter.ends_subject),
        begins_with(longer.objects, shorter.objects),
        begins_with(longer.ends_pair, shorter.ends_pair),
        forall|j: int|
            0 <= j < upto ==> (#[trigger] count_ones(shorter.ends_pair, j))
                < shorter.predicates.len(),
    ensures
        longer.triples(upto) == shorter.triples(upto),
        forall|j: int|
            0 <= j <= upto ==> (#[trigger] count_ones(longer.ends_pair, j)) == count_ones(
                shorter.ends_pair,
                j,
            ),
    decreases upto,
{
    if upto > 0 {
        lemma_triples_stable(shorter, longer, upto - 1);
        lemma_count_ones_agree(shorter.ends_pair, longer.ends_pair, upto);
        lemma_count_ones_agree(shorter.ends_pair, longer.ends_pair, upto - 1);
        let pair = shorter.pair_of(upto - 1);
        assert(count_ones(shorter.ends_pair, upto - 1) < shorter.predicates.len());
        lemma_count_ones_agree(shorter.ends_subject, longer.ends_subject, pair);
    } else {
        lemma_count_ones_agree(shorter.ends_pair, longer.ends_pair, 0);
    }
}

/// Whether `object` is zero or the object of one of `triples`.
pub open spec fn object_among(triples: Seq<IdTriple>, object: u64) -> bool {
    object == 0 || exists|i: int| 0 <= i < triples.len() && (#[trigger] triples[i]).object == object
}

/// Writes the triples `triples`, which stand in strictly rising order and
/// hold no id zero, as two lists.  The lists give the triples back, and
/// hold no object but theirs and the zeros that keep the count.
pub fn encode_triples(triples: &Vec<IdTriple>) -> (lists: TripleLists)
    requires
        triples_sorted(triples@),
        forall|i: int|
            0 <= i < triples@.len() ==> (#[trigger] triples@[i]).subject >= 1
                && triples@[i].predicate >= 1,
    ensures
        lists@.well_formed(),
        lists@.all_triples() == triples@,
        lists@.predicates.len() <= lists@.objects.len(),
        triples@.len() == 0 ==> lists@.objects.len() == 0,
        triples@.len() > 0 ==> lists@.objects.len() <= triples@.len() + triples@.last().subject,
        forall|j: int|
            0 <= j < lists@.objects.len() ==> object_among(triples@, #[trigger] lists@.objects[j]),
{
    let n = triples.len();
    let mut lists = TripleLists {
        predicates: Vec::new(),
        ends_subject: Vec::new(),
        objects: Vec::new(),
        ends_pair: Vec::new(),
    };
    let mut closed: u64 = 0;
    let mut k: usize = 0;
    while k < n
        invariant
            k <= n,
            n == triples@.len(),
            triples_sorted(triples@),
            forall|i: int|
                0 <= i < triples@.len() ==> (#[trigger] triples@[i]).subject >= 1
                    && triples@[i].predicate >= 1,
            lists@.predicates.len() == lists@.ends_subject.len(),
            lists@.objects.len() == lists@.ends_pair.len(),
            count_ones(lists@.ends_pair, lists@.objects.len() as int) == lists@.predicates.len(),
            count_ones(lists@.ends_subject, lists@.predicates.len() as int) == closed,
            forall|j: int|
                0 <= j < lists@.objects.len() ==> (#[trigger] count_ones(lists@.ends_pair, j))
                    < lists@.predicates.len(),
            forall|j: int|
                0 <= j < lists@.objects.len() ==> object_among(
                    triples@,
                    #[trigger] lists@.objects[j],
                ),
            lists@.triples(lists@.objects.len() as int) == triples@.take(k as int),
            lists@.predicates.len() <= lists@.objects.len(),
            lists@.objects.len() <= k + closed,
            k == 0 ==> lists@.objects.len() == 0 && closed == 0,
            k < n ==> closed < triples@[k as int].subject,
            0 < k < n && triples@[k as int].subject == triples@[k - 1].subject ==> closed + 1
                == triples@[k as int].subject,
            0 < k < n ==> triples@[k as int].subject != triples@[k - 1].subject
                || triples@[k as int].predicate != triples@[k - 1].predicate,
            0 < k ==> closed <= triples@[k - 1].subject,
        decreases n - k,
    {
        let s = triples[k].subject;
        let p = triples[k].predicate;
        // subjects without triples keep the count
        while closed + 1 < s
            invariant
                closed < s,
                s == triples@[k as int].subject,
                k < n,
                n == triples@.len(),
                lists@.predicates.len() == lists@.ends_subject.len(),
                lists@.objects.len() == lists@.ends_pair.len(),
                count_ones(lists@.ends_pair, lists@.objects.len() as int)
                    == lists@.predicates.len(),
                count_ones(lists@.ends_subject, lists@.predicates.len() as int) == closed,
                forall|j: int|
                    0 <= j < lists@.objects.len() ==> (#[trigger] count_ones(lists@.ends_pair, j))
                        < lists@.predicates.len(),
                forall|j: int|
                    0 <= j < lists@.objects.len() ==> object_among(
                        triples@,
                        #[trigger] lists@.objects[j],
                    ),
                lists@.triples(lists@.objects.len() as int) == triples@.take(k as int),
                lists@.predicates.len() <= lists@.objects.len(),
                lists@.objects.len() <= k + closed,
            decreases s - closed,
        {
            let ghost before = lists@;
            lists.predicates.push(0);
            lists.ends_subject.push(true);
            lists.objects.push(0);
            lists.ends_pair.push(true);
            closed = closed + 1;
            proof {
                let m = before.objects.len() as int;
                let q = before.predicates.len() as int;
                lemma_triples_stable(before, lists@, m);
                lemma_count_ones_agree(before.ends_pair, lists@.ends_pair, m);
                lemma_count_ones_agree(before.ends_subject, lists@.ends_subject, q);
                assert(lists@.pair_of(m) == q);
                assert(lists@.predicates[q] == 0);
            }
        }
        // the pair runs up to `r`
        let mut r = k + 1;
        while r < n && triples[r].subject == s && triples[r].predicate == p
            invariant
                k < r <= n,
                n == triples@.len(),
                s == triples@[k as int].subject,
                p == triples@[k as int].predicate,
                forall|x: int|
                    k <= x < r ==> (#[trigger] triples@[x]).subject == s && triples@[x].predicate
                        == p,
            decreases n - r,
        {
            r += 1;
        }
        let last = r == n || triples[r].subject != s;
        let ghost opened = lists@;
        let ghost q = opened.predicates.len() as int;
        let ghost m0 = opened.objects.len() as int;
        lists.predicates.push(p);
        lists.ends_subject.push(last);
        proof {
            lemma_triples_stable(opened, lists@, m0);
            lemma_count_ones_agree(opened.ends_subject, lists@.ends_subject, q);
        }
        let mut x = k;
        while x < r
            invariant
                k <= x <= r <= n,
                n == triples@.len(),
                s == triples@[k as int].subject,
                p == triples@[k as int].predicate,
                s >= 1,
                p >= 1,
                closed + 1 == s,
                forall|y: int|
                    k <= y < r ==> (#[trigger] triples@[y]).subject == s && triples@[y].predicate
                        == p,
                q + 1 == lists@.predicates.len(),
                lists@.predicates.len() == lists@.ends_subject.len(),
                lists@.predicates[q] == p,
                lists@.ends_subject[q] == last,
                lists@.objects.len() == lists@.ends_pair.len(),
                lists@.objects.len() == m0 + (x - k),
                q <= m0,
                count_ones(lists@.ends_subject, q) == closed,
                x < r ==> count_ones(lists@.ends_pair, lists@.objects.len() as int) == q,
                x == r ==> count_ones(lists@.ends_pair, lists@.objects.len() as int) == q + 1,
                forall|j: int|
                    0 <= j < lists@.objects.len() ==> (#[trigger] count_ones(lists@.ends_pair, j))
                        < lists@.predicates.len(),
                forall|j: int|
                    0 <= j < lists@.objects.len() ==> object_among(
                        triples@,
                        #[trigger] lists@.objects[j],
                    ),
                lists@.triples(lists@.objects.len() as int) == triples@.take(x as int),
            decreases r - x,
        {
            let ghost before = lists@;
            lists.objects.push(triples[x].object);
            lists.ends_pair.push(x + 1 == r);
            proof {
                let m = before.objects.len() as int;
                lemma_triples_stable(before, lists@, m);
                lemma_count_ones_agree(before.ends_pair, lists@.ends_pair, m);
                assert(lists@.pair_of(m) == q);
                assert(lists@.triple_at(m) == triples@[x as int]);
                assert(object_among(triples@, triples@[x as int].object));
                assert(triples@.take(x as int).push(triples@[x as int]) =~= triples@.take(
                    x as int + 1,
                ));
            }
            x += 1;
        }
        proof {
            if r < n {
                assert(crate::layer::layer::triple_less(triples@[k as int], triples@[r as int]));
            }
        }
        if last {
            closed = s;
        }
        k = r;
    }
    proof {
        if n > 0 {
            assert(closed <= triples@[n - 1].subject);
        }
    }
    proof {
        assert(triples@.take(n as int) =~= triples@);
    }
    lists
}

// ---------------------------------------------------------------------------
// Runs
// ---------------------------------------------------------------------------

/// Where the `k`-th run of `bits` starts, counting from zero: a run ends
/// with each set bit, so the run starts behind the `k`-th set bit.  Runs
/// that are not there start at the end.
pub open spec fn run_start(bits: Seq<bool>, k: int) -> int {
    if k <= 0 {
        0
    } else if k <= count_ones(bits, bits.len() as int) {
        nth_one(bits, k as nat) + 1
    } else {
        bits.len() as int
    }
}

/// The places before the start of run `k` are those with fewer than `k`
/// set bits before them: so run `k` is the places from its start to the
/// start of the next, and they are those with `k` set bits before them.
pub proof fn lemma_run_start(bits: Seq<bool>, k: int, j: int)
    requires
        0 <= j < bits.len(),
    ensures
        0 <= run_start(bits, k) <= bits.len(),
        j < run_start(bits, k) <==> count_ones(bits, j) < k,
{
    let len = bits.len() as int;
    let start = run_start(bits, k);
    lemma_count_ones_monotone(bits, j, len);
    if 1 <= k <= count_ones(bits, len) {
        lemma_one_before_found(bits, k as nat, len);
        assert(count_ones(bits, start) == k);
        if j < start {
            lemma_count_ones_monotone(bits, j, start - 1);
        } else {
            lemma_count_ones_monotone(bits, start, j);
        }
    }
}

/// Runs follow each other.
pub proof fn lemma_run_start_rises(bits: Seq<bool>, k: int)
    ensures
        0 <= run_start(bits, k) <= run_start(bits, k + 1) <= bits.len(),
{
    let len = bits.len() as int;
    let start = run_start(bits, k);
    let next = run_start(bits, k + 1);
    if 1 <= k <= count_ones(bits, len) {
        lemma_one_before_found(bits, k as nat, len);
    }
    if 1 <= k + 1 <= count_ones(bits, len) {
        lemma_one_before_found(bits, (k + 1) as nat, len);
    }
    if start > next {
        lemma_run_start(bits, k, next);
        lemma_run_start(bits, k + 1, next);
    }
}

/// The places from `from` to `to` add no triple with the predicate where
/// none of their pairs has it.
pub proof fn lemma_triples_with_skip(lists: Lists, predicate: u64, from: int, to: int)
    requires
        0 <= from <= to,
        forall|j: int| from <= j < to ==> lists.predicates[#[trigger] lists.pair_of(j)] != predicate,
    ensures
        lists.triples_with(predicate, to) == lists.triples_with(predicate, from),
    decreases to - from,
{
    if from < to {
        assert(lists.predicates[lists.pair_of(to - 1)] != predicate);
        lemma_triples_with_skip(lists, predicate, from, to - 1);
    }
}

/// Among the triples that the lists hold, those with a predicate other than
/// zero are the triples of the pairs with that predicate.
pub proof fn lemma_triples_with(lists: Lists, predicate: u64, upto: int)
    requires
        predicate != 0,
    ensures
        lists.triples_with(predicate, upto) == of_predicate(
            lists.triples(upto),
            predicate,
            lists.triples(upto).len() as int,
        ),
    decreases upto,
{
    if upto > 0 {
        lemma_triples_with(lists, predicate, upto - 1);
        let before = lists.triples(upto - 1);
        if lists.predicates[lists.pair_of(upto - 1)] != 0 {
            let all = lists.triples(upto);
            assert(all == before.push(lists.triple_at(upto - 1)));
            lemma_of_predicate_agree(all, before, predicate, before.len() as int);
        }
    }
}

/// Triples that agree up to a place have the same triples with a predicate
/// up to it.
pub proof fn lemma_of_predicate_agree(a: Seq<IdTriple>, b: Seq<IdTriple>, predicate: u64, upto: int)
    requires
        upto <= a.len(),
        upto <= b.len(),
        forall|i: int| 0 <= i < upto ==> a[i] == b[i],
    ensures
        of_predicate(a, predicate, upto) == of_predicate(b, predicate, upto),
    decreases upto,
{
    if upto > 0 {
        lemma_of_predicate_agree(a, b, predicate, upto - 1);
    }
}

/// The `k`-th run of the bits, from its start up to and without the start
/// of the next.
pub fn run_of(bits: &BitIndex, k: u64) -> (run: (u64, u64))
    ensures
        run.0 == run_start(bits@, k as int),
        run.1 == run_start(bits@, k + 1),
        run.0 <= run.1 <= bits@.len(),
{
    proof {
        lemma_run_start_rises(bits@, k as int);
    }
    let len = bits.len();
    let closed = bits.rank1(len);
    let start = if k == 0 {
        0
    } else {
        match bits.select1(k) {
            Some(before) => before + 1,
            None => len,
        }
    };
    let end = if k < closed {
        match bits.select1(k + 1) {
            Some(last) => last + 1,
            None => len,
        }
    } else {
        len
    };
    (start, end)
}

} // verus!
