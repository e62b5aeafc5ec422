//! Sorted dictionaries of strings, front coded in blocks.
//!
//! A dictionary numbers its strings, which stand in strictly rising order,
//! from zero.  The strings are laid out in blocks of eight.  Every string is
//! written as one byte that says how many of its leading bytes it shares
//! with the first string of its block, the bytes that follow those, and a
//! zero byte; the first string of a block shares nothing and is written
//! whole.  No string holds a zero byte.  A log array of offsets says where
//! every block starts.

use crate::endian::{be_bytes, be_value, lemma_be_value_of_bytes, read_u32_be, write_u32_be};
use crate::structure::logarray::{pack, width_for, LogArray, MAX_ENTRIES};
use crate::text::same_bytes;
use vstd::prelude::*;
use vstd::slice::slice_subrange;

verus! {

/// `a` and `b` agree before place `k`, and `a` ends there or holds a lesser
/// byte there.
pub open spec fn parts_at(a: Seq<u8>, b: Seq<u8>, k: int) -> bool {
    &&& 0 <= k <= a.len()
    &&& k <= b.len()
    &&& a.subrange(0, k) == b.subrange(0, k)
    &&& (k == a.len() && k < b.len()) || (k < a.len() && k < b.len() && a[k] < b[k])
}

/// `a` comes before `b` in the order of the dictionary: byte by byte, a
/// string before the strings it begins.
pub open spec fn lex_less(a: Seq<u8>, b: Seq<u8>) -> bool {
    exists|k: int| parts_at(a, b, k)
}

/// `strings` stand in strictly rising order.
pub open spec fn sorted(strings: Seq<Seq<u8>>) -> bool {
    forall|i: int, j: int|
        0 <= i < j < strings.len() ==> lex_less(#[trigger] strings[i], #[trigger] strings[j])
}

/// No string comes before itself, and of two strings at most one comes
/// before the other.
pub proof fn lemma_lex_less_asymmetric(a: Seq<u8>, b: Seq<u8>)
    ensures
        !(lex_less(a, b) && lex_less(b, a)),
        !lex_less(a, a),
        lex_less(a, b) ==> a != b,
{
    if lex_less(a, b) && lex_less(b, a) {
        let k1 = choose|k: int| parts_at(a, b, k);
        let k2 = choose|k: int| parts_at(b, a, k);
        if k1 < k2 {
            assert(b.subrange(0, k2)[k1] == a.subrange(0, k2)[k1]);
        } else if k2 < k1 {
            assert(a.subrange(0, k1)[k2] == b.subrange(0, k1)[k2]);
        }
    }
    if lex_less(a, a) {
        let k = choose|k: int| parts_at(a, a, k);
    }
}

/// What comes before a string comes before all that the string comes
/// before.
pub proof fn lemma_lex_less_transitive(a: Seq<u8>, b: Seq<u8>, c: Seq<u8>)
    requires
        lex_less(a, b),
        lex_less(b, c),
    ensures
        lex_less(a, c),
{
    let k1 = choose|k: int| parts_at(a, b, k);
    let k2 = choose|k: int| parts_at(b, c, k);
    let k = if k1 < k2 {
        k1
    } else {
        k2
    };
    assert forall|i: int| 0 <= i < k implies a[i] == c[i] by {
        assert(a.subrange(0, k1)[i] == b.subrange(0, k1)[i]);
        assert(b.subrange(0, k2)[i] == c.subrange(0, k2)[i]);
    }
    assert(a.subrange(0, k) =~= c.subrange(0, k));
    if k1 < k2 {
        assert(b.subrange(0, k2)[k1] == c.subrange(0, k2)[k1]);
    } else if k2 < k1 {
        assert(a.subrange(0, k1)[k2] == b.subrange(0, k1)[k2]);
    }
    assert(parts_at(a, c, k));
}

/// In a sorted run no string stands twice, and the strings rise with their
/// numbers: a string has the lesser number exactly if it comes first in the
/// order of the dictionary.
pub proof fn lemma_sorted_ids(strings: Seq<Seq<u8>>, i: int, j: int)
    requires
        sorted(strings),
        0 <= i < strings.len(),
        0 <= j < strings.len(),
    ensures
        strings[i] == strings[j] <==> i == j,
        lex_less(strings[i], strings[j]) <==> i < j,
{
    lemma_lex_less_asymmetric(strings[i], strings[j]);
    lemma_lex_less_asymmetric(strings[j], strings[i]);
    if i < j {
        assert(lex_less(strings[i], strings[j]));
    } else if j < i {
        assert(lex_less(strings[j], strings[i]));
    }
}

/// How two strings stand to each other.
#[derive(Clone, Copy, PartialEq, Eq, Structural, Debug)]
pub enum Order {
    Before,
    Same,
    After,
}

/// Holds `a` against `b` in the order of the dictionary.
pub fn compare(a: &[u8], b: &[u8]) -> (order: Order)
    ensures
        order == Order::Before <==> lex_less(a@, b@),
        order == Order::Same <==> a@ == b@,
        order == Order::After <==> lex_less(b@, a@),
{
    let mut i: usize = 0;
    proof {
        lemma_lex_less_asymmetric(a@, b@);
        lemma_lex_less_asymmetric(b@, a@);
    }
    while i < a.len() && i < b.len()
        invariant
            i <= a@.len(),
            i <= b@.len(),
            a@.subrange(0, i as int) == b@.subrange(0, i as int),
            !(lex_less(a@, b@) && lex_less(b@, a@)),
            lex_less(a@, b@) ==> a@ != b@,
            lex_less(b@, a@) ==> a@ != b@,
        decreases a.len() - i,
    {
        if a[i] < b[i] {
            assert(parts_at(a@, b@, i as int));
            return Order::Before;
        }
        if a[i] > b[i] {
            assert(parts_at(b@, a@, i as int));
            return Order::After;
        }
        proof {
            assert(a@.subrange(0, i as int + 1) =~= a@.subrange(0, i as int).push(a@[i as int]));
            assert(b@.subrange(0, i as int + 1) =~= b@.subrange(0, i as int).push(b@[i as int]));
        }
        i += 1;
    }
    if i < b.len() {
        assert(parts_at(a@, b@, i as int));
        Order::Before
    } else if i < a.len() {
        assert(parts_at(b@, a@, i as int));
        Order::After
    } else {
        assert(a@ =~= a@.subrange(0, i as int));
        assert(b@ =~= b@.subrange(0, i as int));
        Order::Same
    }
}

/// The string that the strings of the block of string `i` are written
/// against: nothing for the first of a block, the first of the block for
/// the others.
pub open spec fn base_of(strings: Seq<Seq<u8>>, i: int) -> Seq<u8>
    recommends
        0 <= i < strings.len(),
{
    if i % 8 == 0 {
        Seq::empty()
    } else {
        strings[i - i % 8]
    }
}

/// How many leading bytes `a` and `b` have in common.
pub open spec fn common(a: Seq<u8>, b: Seq<u8>) -> nat
    decreases a.len(),
{
    if a.len() > 0 && b.len() > 0 && a[0] == b[0] {
        1 + common(a.skip(1), b.skip(1))
    } else {
        0
    }
}

/// How many of its leading bytes string `i` is written to share with the
/// string it is written against: as many as the two have in common, up to
/// 255.
pub open spec fn shared_of(strings: Seq<Seq<u8>>, i: int) -> nat
    recommends
        0 <= i < strings.len(),
{
    if common(base_of(strings, i), strings[i]) > 255 {
        255
    } else {
        common(base_of(strings, i), strings[i])
    }
}

/// What two strings have in common they have at their start, and no more
/// than either is long; the bytes behind it differ, where both go on.
pub proof fn lemma_common(a: Seq<u8>, b: Seq<u8>)
    ensures
        common(a, b) <= a.len(),
        common(a, b) <= b.len(),
        a.subrange(0, common(a, b) as int) == b.subrange(0, common(a, b) as int),
        common(a, b) < a.len() && common(a, b) < b.len() ==> a[common(a, b) as int] != b[common(
            a,
            b,
        ) as int],
    decreases a.len(),
{
    if a.len() > 0 && b.len() > 0 && a[0] == b[0] {
        lemma_common(a.skip(1), b.skip(1));
        let c = common(a.skip(1), b.skip(1)) as int;
        assert forall|k: int| 0 <= k < c + 1 implies a[k] == b[k] by {
            if k > 0 {
                assert(a.skip(1).subrange(0, c)[k - 1] == b.skip(1).subrange(0, c)[k - 1]);
            }
        }
        assert(a.subrange(0, c + 1) =~= b.subrange(0, c + 1));
        if c + 1 < a.len() && c + 1 < b.len() {
            assert(a.skip(1)[c] == a[c + 1]);
            assert(b.skip(1)[c] == b[c + 1]);
        }
    } else {
        assert(a.subrange(0, 0) =~= b.subrange(0, 0));
    }
}

/// Strings that agree in their first `p` bytes have that many in common at
/// least, and exactly that many where they stop agreeing there.
pub proof fn lemma_common_is(a: Seq<u8>, b: Seq<u8>, p: int)
    requires
        0 <= p <= a.len(),
        p <= b.len(),
        a.subrange(0, p) == b.subrange(0, p),
    ensures
        common(a, b) >= p,
        p == a.len() || p == b.len() || a[p] != b[p] ==> common(a, b) == p,
    decreases p,
{
    if p > 0 {
        assert(a[0] == a.subrange(0, p)[0]);
        assert(b[0] == b.subrange(0, p)[0]);
        assert(a.skip(1).subrange(0, p - 1) =~= a.subrange(0, p).skip(1));
        assert(b.skip(1).subrange(0, p - 1) =~= b.subrange(0, p).skip(1));
        lemma_common_is(a.skip(1), b.skip(1), p - 1);
        if p < a.len() && p < b.len() {
            assert(a.skip(1)[p - 1] == a[p]);
            assert(b.skip(1)[p - 1] == b[p]);
        }
    }
}

/// The string `s` as it is written when it shares its first `p` bytes.
pub open spec fn entry_code(p: nat, s: Seq<u8>) -> Seq<u8>
    recommends
        p <= s.len(),
        p <= 255,
{
    seq![p as u8] + s.subrange(p as int, s.len() as int) + seq![0u8]
}

/// The first `n` strings as they are written, one after another.
pub open spec fn layout(strings: Seq<Seq<u8>>, n: int) -> Seq<u8>
    recommends
        n <= strings.len(),
    decreases n,
{
    if n <= 0 {
        Seq::empty()
    } else {
        layout(strings, n - 1) + entry_code(shared_of(strings, n - 1), strings[n - 1])
    }
}

/// String `i` holds no zero byte.
pub open spec fn valid_entry(strings: Seq<Seq<u8>>, i: int) -> bool
    recommends
        0 <= i < strings.len(),
{
    forall|k: int| 0 <= k < strings[i].len() ==> (#[trigger] strings[i][k]) != 0
}

/// Where the blocks of `strings` start in their layout.
pub open spec fn block_starts(strings: Seq<Seq<u8>>) -> Seq<u64> {
    Seq::new((strings.len() + 7) / 8, |b: int| layout(strings, 8 * b).len() as u64)
}

/// `bytes` and `offsets` are the dictionary of `strings`: the strings stand
/// in strictly rising order, none holds a zero byte, `bytes` are their
/// layout and `offsets` say where each block of eight starts.
pub open spec fn is_dictionary(bytes: Seq<u8>, offsets: Seq<u64>, strings: Seq<Seq<u8>>) -> bool {
    &&& bytes == layout(strings, strings.len() as int)
    &&& bytes.len() <= u64::MAX
    &&& sorted(strings)
    &&& forall|i: int| 0 <= i < strings.len() ==> #[trigger] valid_entry(strings, i)
    &&& offsets == block_starts(strings)
}

/// The written strings grow with every string, and string `i` stands
/// between where the first `i` end and where the first `i + 1` end.
pub proof fn lemma_layout_part(strings: Seq<Seq<u8>>, i: int, n: int)
    requires
        0 <= i < n,
    ensures
        layout(strings, i).len() + entry_code(shared_of(strings, i), strings[i]).len() == layout(
            strings,
            i + 1,
        ).len(),
        layout(strings, i + 1).len() <= layout(strings, n).len(),
        layout(strings, n).subrange(
            layout(strings, i).len() as int,
            layout(strings, i + 1).len() as int,
        ) == entry_code(shared_of(strings, i), strings[i]),
    decreases n,
{
    if i < n - 1 {
        lemma_layout_part(strings, i, n - 1);
        let shorter = layout(strings, n - 1);
        let longer = layout(strings, n);
        let a = layout(strings, i).len() as int;
        let b = layout(strings, i + 1).len() as int;
        assert(longer.subrange(a, b) =~= shorter.subrange(a, b));
    } else {
        let shorter = layout(strings, i);
        let longer = layout(strings, i + 1);
        assert(longer.subrange(shorter.len() as int, longer.len() as int) =~= entry_code(
            shared_of(strings, i),
            strings[i],
        ));
    }
}

/// Where string `i` is written within the layout, byte by byte.
pub proof fn lemma_entry_bytes(strings: Seq<Seq<u8>>, i: int, n: int)
    requires
        0 <= i < n,
    ensures
        shared_of(strings, i) <= 255,
        shared_of(strings, i) <= strings[i].len(),
        shared_of(strings, i) <= base_of(strings, i).len(),
        strings[i].subrange(0, shared_of(strings, i) as int) == base_of(strings, i).subrange(
            0,
            shared_of(strings, i) as int,
        ),
        layout(strings, i + 1).len() == layout(strings, i).len() + 2 + strings[i].len()
            - shared_of(strings, i),
        layout(strings, i + 1).len() <= layout(strings, n).len(),
        layout(strings, n)[layout(strings, i).len() as int] == shared_of(strings, i),
        forall|k: int|
            layout(strings, i).len() + 1 <= k < layout(strings, i + 1).len() - 1
                ==> #[trigger] layout(strings, n)[k] == strings[i][shared_of(strings, i) + k
                - layout(strings, i).len() - 1],
        layout(strings, n)[layout(strings, i + 1).len() - 1] == 0,
{
    lemma_layout_part(strings, i, n);
    lemma_common(base_of(strings, i), strings[i]);
    let p = shared_of(strings, i) as int;
    let c = common(base_of(strings, i), strings[i]) as int;
    assert(strings[i].subrange(0, p) =~= base_of(strings, i).subrange(0, p)) by {
        assert forall|k: int| 0 <= k < p implies strings[i][k] == base_of(strings, i)[k] by {
            assert(strings[i].subrange(0, c)[k] == base_of(strings, i).subrange(0, c)[k]);
        }
    }
    let whole = layout(strings, n);
    let a = layout(strings, i).len() as int;
    let b = layout(strings, i + 1).len() as int;
    let code = entry_code(shared_of(strings, i), strings[i]);
    assert(whole.subrange(a, b) == code);
    assert(whole[a] == whole.subrange(a, b)[0]);
    assert(whole[b - 1] == whole.subrange(a, b)[b - 1 - a]);
    assert forall|k: int| a + 1 <= k < b - 1 implies #[trigger] whole[k] == strings[i][p + k - a
        - 1] by {
        assert(whole[k] == whole.subrange(a, b)[k - a]);
    }
}

/// The layout of the first strings does not depend on the strings behind
/// them.
pub proof fn lemma_layout_agree(strings: Seq<Seq<u8>>, more: Seq<Seq<u8>>, n: int)
    requires
        0 <= n <= strings.len(),
        n <= more.len(),
        forall|i: int| 0 <= i < n ==> strings[i] == more[i],
    ensures
        layout(strings, n) == layout(more, n),
    decreases n,
{
    if n > 0 {
        lemma_layout_agree(strings, more, n - 1);
        assert(base_of(strings, n - 1) == base_of(more, n - 1));
    }
}

/// Why a string cannot enter a dictionary, or why files are not one.
#[derive(Clone, Copy, PartialEq, Eq, Structural, Debug)]
pub enum DictError {
    /// The string holds a zero byte.
    ContainsZero,
    /// The string does not come after the last one added.
    NotSorted,
    /// The files are not the files of a dictionary.
    Malformed,
}

/// A sorted dictionary of strings.
pub struct PfcDict {
    bytes: Vec<u8>,
    offsets: LogArray,
    count: u64,
    strings: Ghost<Seq<Seq<u8>>>,
}

impl View for PfcDict {
    type V = Seq<Seq<u8>>;

    /// The strings of the dictionary, in order.
    closed spec fn view(&self) -> Seq<Seq<u8>> {
        self.strings@
    }
}

impl PfcDict {
    #[verifier::type_invariant]
    spec fn well_formed(self) -> bool {
        &&& is_dictionary(self.bytes@, self.offsets@, self.strings@)
        &&& self.count == self.strings@.len()
    }

    /// The number of strings.  They stand in strictly rising order.
    pub fn len(&self) -> (len: u64)
        ensures
            len == self@.len(),
            sorted(self@),
    {
        proof {
            use_type_invariant(self);
        }
        self.count
    }

    fn read_entry(&self, pos: usize, base: &[u8], i: Ghost<int>) -> (entry: (Vec<u8>, usize))
        requires
            0 <= i@ < self@.len(),
            pos == layout(self.strings@, i@).len(),
            base@ == base_of(self@, i@),
        ensures
            entry.0@ == self@[i@],
            entry.1 == layout(self.strings@, i@ + 1).len(),
    {
        proof {
            use_type_invariant(self);
        }
        let ghost strings = self.strings@;
        let ghost n = strings.len() as int;
        let ghost target = strings[i@];
        let ghost p = shared_of(strings, i@) as int;
        proof {
            assert(is_dictionary(self.bytes@, self.offsets@, strings));
            assert(valid_entry(strings, i@));
            lemma_entry_bytes(strings, i@, n);
            assert(self.bytes@ == layout(strings, n));
            assert(pos + 2 + target.len() - p <= self.bytes@.len());
        }
        let total = self.bytes.len();
        let count = self.bytes[pos] as usize;
        let mut entry = vstd::slice::slice_to_vec(slice_subrange(base, 0, count));
        let mut at = pos + 1;
        proof {
            assert(entry@ =~= target.subrange(0, p));
        }
        while self.bytes[at] != 0
            invariant
                strings == self.strings@,
                n == strings.len(),
                0 <= i@ < n,
                target == strings[i@],
                p == shared_of(strings, i@),
                0 <= p <= target.len(),
                self.bytes@ == layout(strings, n),
                total == self.bytes@.len(),
                pos == layout(strings, i@).len(),
                layout(strings, i@ + 1).len() == pos + 2 + target.len() - p,
                layout(strings, i@ + 1).len() <= self.bytes@.len(),
                forall|k: int|
                    pos + 1 <= k < pos + 1 + target.len() - p ==> #[trigger] self.bytes@[k]
                        == target[p + k - pos - 1],
                self.bytes@[pos + 1 + target.len() - p] == 0,
                forall|k: int| 0 <= k < target.len() ==> (#[trigger] target[k]) != 0,
                pos + 1 <= at <= pos + 1 + target.len() - p,
                entry@ == target.subrange(0, p + (at - pos - 1)),
            decreases pos + 1 + target.len() - p - at,
        {
            proof {
                let t = at - pos - 1;
                if t == target.len() - p {
                    assert(false);
                }
                assert(self.bytes@[at as int] == target[p + t]);
            }
            entry.push(self.bytes[at]);
            proof {
                assert(entry@ =~= target.subrange(0, p + (at - pos)));
            }
            at += 1;
        }
        proof {
            let t = at - pos - 1;
            if t < target.len() - p {
                assert(self.bytes@[at as int] == target[p + t]);
                assert(target[p + t] != 0);
            }
            assert(entry@ =~= target);
        }
        (entry, at + 1)
    }

    fn block_start(&self, block: u64) -> (pos: usize)
        requires
            8 * block < self@.len(),
        ensures
            pos == layout(self.strings@, 8 * block as int).len(),
    {
        proof {
            use_type_invariant(self);
            lemma_layout_part(self.strings@, 8 * block as int, self.strings@.len() as int);
            assert(is_dictionary(self.bytes@, self.offsets@, self.strings@));
            assert(block < self.offsets@.len());
            assert(self.offsets@[block as int] == block_starts(self.strings@)[block as int]);
            assert(self.bytes@ == layout(self.strings@, self.strings@.len() as int));
        }
        let total = self.bytes.len();
        self.offsets.entry(block) as usize
    }

    /// String `index`.
    pub fn get(&self, index: u64) -> (string: Vec<u8>)
        requires
            index < self@.len(),
        ensures
            string@ == self@[index as int],
    {
        proof {
            use_type_invariant(self);
        }
        let block = index / 8;
        let within = index % 8;
        let start = self.block_start(block);
        let empty: Vec<u8> = Vec::new();
        let (first, mut pos) = self.read_entry(start, empty.as_slice(), Ghost(8 * block as int));
        if within == 0 {
            return first;
        }
        let mut string = Vec::new();
        let mut k: u64 = 1;
        while k <= within
            invariant
                1 <= k <= within + 1,
                within < 8,
                index == 8 * block + within,
                index < self@.len(),
                first@ == self@[8 * block as int],
                pos == layout(self.strings@, 8 * block + k).len(),
                k > 1 ==> string@ == self@[8 * block + k - 1],
            decreases within + 1 - k,
        {
            let (next, end) = self.read_entry(pos, first.as_slice(), Ghost(8 * block + k));
            string = next;
            pos = end;
            k += 1;
        }
        string
    }

    /// The number of the string `string`, if the dictionary holds it.
    pub fn id(&self, string: &[u8]) -> (id: Option<u64>)
        ensures
            match id {
                Some(i) => i < self@.len() && self@[i as int] == string@,
                None => forall|i: int| 0 <= i < self@.len() ==> self@[i] != string@,
            },
    {
        proof {
            use_type_invariant(self);
        }
        let ghost strings = self.strings@;
        let n = self.count;
        if n == 0 {
            return None;
        }
        let blocks = (n - 1) / 8 + 1;
        let empty: Vec<u8> = Vec::new();
        let mut low: u64 = 0;
        let mut high: u64 = blocks;
        while high - low > 1
            invariant
                low < high <= blocks,
                blocks == (n - 1) / 8 + 1,
                n == strings.len(),
                strings == self@,
                n > 0,
                sorted(strings),
                empty@ == Seq::<u8>::empty(),
                low > 0 ==> !lex_less(string@, strings[8 * low]),
                high < blocks ==> lex_less(string@, strings[8 * high]),
            decreases high - low,
        {
            let mid = low + (high - low) / 2;
            let start = self.block_start(mid);
            let (first, _end) = self.read_entry(start, empty.as_slice(), Ghost(8 * mid as int));
            proof {
                lemma_lex_less_asymmetric(string@, first@);
            }
            match compare(first.as_slice(), string) {
                Order::After => {
                    high = mid;
                },
                _ => {
                    low = mid;
                },
            }
        }
        let start = self.block_start(low);
        let (first, mut pos) = self.read_entry(start, empty.as_slice(), Ghost(8 * low as int));
        match compare(first.as_slice(), string) {
            Order::Same => {
                return Some(8 * low);
            },
            _ => {},
        }
        let in_block = if n - 8 * low < 8 {
            n - 8 * low
        } else {
            8
        };
        let mut k: u64 = 1;
        while k < in_block
            invariant
                1 <= k <= in_block <= 8,
                8 * low + in_block <= n,
                n == strings.len(),
                strings == self@,
                first@ == strings[8 * low as int],
                pos == layout(self.strings@, 8 * low + k).len(),
                forall|i: int| 8 * low <= i < 8 * low + k ==> strings[i] != string@,
            decreases in_block - k,
        {
            let (next, end) = self.read_entry(pos, first.as_slice(), Ghost(8 * low + k));
            match compare(next.as_slice(), string) {
                Order::Same => {
                    return Some(8 * low + k);
                },
                _ => {},
            }
            pos = end;
            k += 1;
        }
        proof {
            assert forall|i: int| 0 <= i < n implies strings[i] != string@ by {
                if strings[i] == string@ {
                    if i < 8 * low {
                        assert(lex_less(strings[i], strings[8 * low as int]));
                    } else if i >= 8 * low + in_block {
                        assert(high < blocks);
                        if i > 8 * high {
                            assert(lex_less(strings[8 * high as int], strings[i]));
                        }
                        lemma_lex_less_asymmetric(string@, strings[8 * high as int]);
                    }
                }
            }
        }
        None
    }
}

/// Collects the strings of a dictionary, which must come in strictly rising
/// order.
pub struct PfcDictBuilder {
    bytes: Vec<u8>,
    offsets: Vec<u64>,
    count: u64,
    first: Vec<u8>,
    last: Vec<u8>,
    strings: Ghost<Seq<Seq<u8>>>,
}

impl View for PfcDictBuilder {
    type V = Seq<Seq<u8>>;

    /// The strings added so far.
    closed spec fn view(&self) -> Seq<Seq<u8>> {
        self.strings@
    }
}

/// `string` holds a zero byte.
pub open spec fn contains_zero(string: Seq<u8>) -> bool {
    exists|k: int| 0 <= k < string.len() && string[k] == 0
}

/// Whether `string` holds a zero byte.
pub fn has_zero(string: &[u8]) -> (found: bool)
    ensures
        found == contains_zero(string@),
{
    let mut i: usize = 0;
    while i < string.len()
        invariant
            i <= string.len(),
            forall|k: int| 0 <= k < i ==> string@[k] != 0,
        decreases string.len() - i,
    {
        if string[i] == 0 {
            return true;
        }
        i += 1;
    }
    false
}

impl PfcDictBuilder {
    /// The bytes held are the layout of the strings added.
    pub closed spec fn wf(&self) -> bool {
        &&& is_dictionary(self.bytes@, self.offsets@, self.strings@)
        &&& self.count == self.strings@.len()
        &&& self.count > 0 ==> self.last@ == self.strings@[self.count - 1]
        &&& self.count % 8 != 0 ==> self.first@ == self.strings@[self.count - self.count % 8]
    }

    /// The number of bytes that the strings added take.
    pub closed spec fn size(&self) -> nat {
        self.bytes@.len()
    }

    /// A builder that holds no strings.
    pub fn new() -> (builder: Self)
        ensures
            builder.wf(),
            builder@ == Seq::<Seq<u8>>::empty(),
            builder.size() == 0,
    {
        let builder = PfcDictBuilder {
            bytes: Vec::new(),
            offsets: Vec::new(),
            count: 0,
            first: Vec::new(),
            last: Vec::new(),
            strings: Ghost(Seq::empty()),
        };
        proof {
            assert(builder.offsets@ =~= block_starts(builder.strings@));
        }
        builder
    }

    /// The number of strings added so far.
    pub fn count(&self) -> (count: u64)
        requires
            self.wf(),
        ensures
            count == self@.len(),
    {
        self.count
    }

    /// The layout of the strings added.
    pub fn bytes(&self) -> (bytes: &[u8])
        requires
            self.wf(),
        ensures
            bytes@ == layout(self@, self@.len() as int),
            bytes@.len() == self.size(),
    {
        self.bytes.as_slice()
    }

    /// Where the blocks of the strings added start.
    pub fn offsets(&self) -> (offsets: &Vec<u64>)
        requires
            self.wf(),
        ensures
            offsets@ == block_starts(self@),
    {
        &self.offsets
    }

    /// The dictionary of the strings added.
    pub fn into_dict(self) -> (dict: PfcDict)
        requires
            self.wf(),
            self@.len() <= MAX_ENTRIES,
            self@.len() * 8 + 256 <= usize::MAX,
        ensures
            dict@ == self@,
    {
        let total = self.bytes.len() as u64;
        let width = width_for(total);
        proof {
            assert forall|b: int| 0 <= b < self.offsets@.len() implies (#[trigger] self.offsets@[b])
                <= total by {
                lemma_layout_part(self.strings@, 8 * b, self.strings@.len() as int);
            }
        }
        let offsets = pack(&self.offsets, width, total);
        PfcDict { bytes: self.bytes, offsets, count: self.count, strings: self.strings }
    }

    /// Adds `string` behind the strings added so far and gives its number.
    /// A string with a zero byte in it, or one that does not come after the
    /// last string added, is refused and nothing changes.
    pub fn add(&mut self, string: &[u8]) -> (result: Result<u64, DictError>)
        requires
            old(self).wf(),
            old(self)@.len() < u64::MAX,
            old(self).size() + string@.len() + 2 <= usize::MAX,
            old(self).size() + string@.len() + 2 <= u64::MAX,
        ensures
            final(self).wf(),
            contains_zero(string@) ==> result == Err::<u64, DictError>(DictError::ContainsZero),
            !contains_zero(string@) && old(self)@.len() > 0 && !lex_less(
                old(self)@.last(),
                string@,
            ) ==> result == Err::<u64, DictError>(DictError::NotSorted),
            !contains_zero(string@) && (old(self)@.len() == 0 || lex_less(
                old(self)@.last(),
                string@,
            )) ==> result is Ok,
            result is Err ==> final(self)@ == old(self)@ && final(self).size() == old(self).size(),
            result is Ok ==> result->Ok_0 == old(self)@.len() && final(self)@ == old(self)@.push(
                string@,
            ) && old(self).size() + 2 <= final(self).size() <= old(self).size() + string@.len()
                + 2,
    {
        if has_zero(string) {
            return Err(DictError::ContainsZero);
        }
        if self.count > 0 {
            match compare(self.last.as_slice(), string) {
                Order::Before => {},
                _ => {
                    return Err(DictError::NotSorted);
                },
            }
        }
        let ghost strings = self.strings@;
        let ghost n = self.count as int;
        let ghost strings2 = strings.push(string@);
        let total = self.bytes.len();
        let starts_block = self.count % 8 == 0;
        let mut p: usize = 0;
        if starts_block {
            self.offsets.push(total as u64);
            self.first = vstd::slice::slice_to_vec(string);
            proof {
                assert(base_of(strings2, n) =~= Seq::<u8>::empty());
                assert(shared_of(strings2, n) == 0);
            }
        } else {
            while p < 255 && p < self.first.len() && p < string.len() && self.first[p] == string[p]
                invariant
                    p <= 255,
                    p <= self.first@.len(),
                    p <= string@.len(),
                    self.first@.subrange(0, p as int) == string@.subrange(0, p as int),
                decreases 255 - p,
            {
                proof {
                    assert(self.first@.subrange(0, p as int + 1) =~= self.first@.subrange(
                        0,
                        p as int,
                    ).push(self.first@[p as int]));
                    assert(string@.subrange(0, p as int + 1) =~= string@.subrange(0, p as int).push(
                        string@[p as int],
                    ));
                }
                p += 1;
            }
            proof {
                assert(base_of(strings2, n) == old(self).first@);
                lemma_common_is(old(self).first@, string@, p as int);
            }
        }
        proof {
            assert(shared_of(strings2, n) == p);
        }
        self.bytes.push(p as u8);
        self.bytes.extend_from_slice(slice_subrange(string, p, string.len()));
        self.bytes.push(0);
        self.last = vstd::slice::slice_to_vec(string);
        self.count = self.count + 1;
        self.strings = Ghost(strings2);
        proof {
            lemma_layout_agree(strings, strings2, n);
            assert(self.bytes@ =~= layout(strings2, n + 1));
            assert forall|i: int, j: int| 0 <= i < j < strings2.len() implies lex_less(
                #[trigger] strings2[i],
                #[trigger] strings2[j],
            ) by {
                if j == n {
                    if i < n - 1 {
                        assert(lex_less(strings[i], strings[n - 1]));
                        lemma_lex_less_transitive(strings[i], strings[n - 1], string@);
                    }
                } else {
                    assert(lex_less(strings[i], strings[j]));
                }
            }
            assert forall|i: int| 0 <= i < strings2.len() implies #[trigger] valid_entry(
                strings2,
                i,
            ) by {
                if i < n {
                    assert(valid_entry(strings, i));
                    assert(strings2[i] == strings[i]);
                } else {
                    assert(strings2[i] == string@);
                    assert(forall|k: int| 0 <= k < string@.len() ==> string@[k] != 0);
                }
            }
            let starts = block_starts(strings2);
            assert(self.offsets@.len() == starts.len());
            assert forall|b: int| 0 <= b < self.offsets@.len() implies self.offsets@[b]
                == starts[b] by {
                lemma_layout_agree(strings, strings2, 8 * b);
                if b < old(self).offsets@.len() {
                    assert(self.offsets@[b] == old(self).offsets@[b]);
                    assert(old(self).offsets@[b] == block_starts(strings)[b]);
                }
            }
            assert(self.offsets@ =~= starts);
        }
        Ok((self.count - 1))
    }
}

// ---------------------------------------------------------------------------
// Dictionaries in files
// ---------------------------------------------------------------------------

/// The last eight bytes of the file of the blocks of `count` strings: the
/// count, most significant byte first.
pub open spec fn count_trailer(count: nat) -> Seq<u8>
    recommends
        count <= u64::MAX,
{
    be_bytes((count / 0x1_0000_0000) as u32) + be_bytes((count % 0x1_0000_0000) as u32)
}

/// `blocks` is the file of the blocks of the dictionary of `strings`, and
/// `offsets` what the file of its offsets holds: the layout of the strings,
/// then their count; and where each block starts.
pub open spec fn is_dictionary_of(
    blocks: Seq<u8>,
    offsets: Seq<u64>,
    strings: Seq<Seq<u8>>,
) -> bool {
    &&& strings.len() <= MAX_ENTRIES
    &&& blocks.len() >= 8
    &&& is_dictionary(blocks.subrange(0, blocks.len() - 8), offsets, strings)
    &&& blocks.subrange(blocks.len() - 8, blocks.len() as int) == count_trailer(strings.len())
}

/// Whether files are the files of some dictionary.
pub open spec fn is_dictionary_file(blocks: Seq<u8>, offsets: Seq<u64>) -> bool {
    exists|strings: Seq<Seq<u8>>| #[trigger] is_dictionary_of(blocks, offsets, strings)
}

/// Where the first zero byte of `bytes` at or behind `from` stands; the
/// length of `bytes` where there is none.
pub open spec fn zero_from(bytes: Seq<u8>, from: int) -> int
    decreases bytes.len() - from,
{
    if from >= bytes.len() {
        bytes.len() as int
    } else if bytes[from] == 0 {
        from
    } else {
        zero_from(bytes, from + 1)
    }
}

/// The first zero byte is the one that no zero byte comes before.
pub proof fn lemma_zero_from(bytes: Seq<u8>, from: int, at: int)
    requires
        0 <= from <= at <= bytes.len(),
        forall|k: int| from <= k < at ==> bytes[k] != 0,
        at < bytes.len() ==> bytes[at] == 0,
    ensures
        zero_from(bytes, from) == at,
    decreases at - from,
{
    if from < at {
        lemma_zero_from(bytes, from + 1, at);
    }
}

/// Every string takes two bytes at least.
pub proof fn lemma_layout_len(strings: Seq<Seq<u8>>, n: int)
    requires
        0 <= n <= strings.len(),
    ensures
        layout(strings, n).len() >= 2 * n,
    decreases n,
{
    if n > 0 {
        lemma_layout_len(strings, n - 1);
    }
}

fn find_zero(bytes: &[u8], from: usize) -> (at: usize)
    requires
        from <= bytes@.len(),
    ensures
        at == zero_from(bytes@, from as int),
        from <= at <= bytes@.len(),
        forall|k: int| from <= k < at ==> bytes@[k] != 0,
        at < bytes@.len() ==> bytes@[at as int] == 0,
{
    let mut at = from;
    while at < bytes.len() && bytes[at] != 0
        invariant
            from <= at <= bytes@.len(),
            forall|k: int| from <= k < at ==> bytes@[k] != 0,
        decreases bytes@.len() - at,
    {
        at += 1;
    }
    proof {
        lemma_zero_from(bytes@, from as int, at as int);
    }
    at
}

fn same_offsets(a: &Vec<u64>, b: &Vec<u64>) -> (same: bool)
    ensures
        same == (a@ == b@),
{
    if a.len() != b.len() {
        return false;
    }
    let mut i: usize = 0;
    while i < a.len()
        invariant
            i <= a.len(),
            a@.len() == b@.len(),
            forall|k: int| 0 <= k < i ==> a@[k] == b@[k],
        decreases a.len() - i,
    {
        if a[i] != b[i] {
            return false;
        }
        i += 1;
    }
    assert(a@ =~= b@);
    true
}

/// Strings are decided by their files: two dictionaries with the same files
/// hold the same strings.
pub proof fn lemma_strings_decided(
    blocks: Seq<u8>,
    offsets: Seq<u64>,
    a: Seq<Seq<u8>>,
    b: Seq<Seq<u8>>,
)
    requires
        is_dictionary_of(blocks, offsets, a),
        is_dictionary_of(blocks, offsets, b),
    ensures
        a == b,
{
    lemma_count_trailer(blocks, a.len());
    lemma_count_trailer(blocks, b.len());
    lemma_same_strings(a, b, a.len() as int);
    assert(a =~= b);
}

/// The count written in a trailer is read back as it was written.
pub proof fn lemma_count_trailer(blocks: Seq<u8>, count: nat)
    requires
        count <= u64::MAX,
        blocks.len() >= 8,
        blocks.subrange(blocks.len() - 8, blocks.len() as int) == count_trailer(count),
    ensures
        (be_value(blocks.subrange(blocks.len() - 8, blocks.len() - 4)) as nat) * 0x1_0000_0000
            + be_value(blocks.subrange(blocks.len() - 4, blocks.len() as int)) as nat == count,
{
    let high = (count / 0x1_0000_0000) as u32;
    let low = (count % 0x1_0000_0000) as u32;
    lemma_be_value_of_bytes(high);
    lemma_be_value_of_bytes(low);
    let trailer = blocks.subrange(blocks.len() - 8, blocks.len() as int);
    let first = blocks.subrange(blocks.len() - 8, blocks.len() - 4);
    let second = blocks.subrange(blocks.len() - 4, blocks.len() as int);
    assert(first =~= be_bytes(high)) by {
        assert(first =~= trailer.subrange(0, 4));
        assert(trailer.subrange(0, 4) =~= be_bytes(high));
    }
    assert(second =~= be_bytes(low)) by {
        assert(second =~= trailer.subrange(4, 8));
        assert(trailer.subrange(4, 8) =~= be_bytes(low));
    }
}

/// Two runs of strings without zero bytes that have the same layout for
/// their first `n` strings have the same first `n` strings.
pub proof fn lemma_same_strings(a: Seq<Seq<u8>>, b: Seq<Seq<u8>>, n: int)
    requires
        0 <= n <= a.len(),
        n <= b.len(),
        forall|i: int| 0 <= i < a.len() ==> #[trigger] valid_entry(a, i),
        forall|i: int| 0 <= i < b.len() ==> #[trigger] valid_entry(b, i),
        layout(a, a.len() as int) == layout(b, b.len() as int),
    ensures
        forall|i: int| 0 <= i < n ==> a[i] == b[i],
        layout(a, n) == layout(b, n),
    decreases n,
{
    if n > 0 {
        lemma_same_strings(a, b, n - 1);
        let i = n - 1;
        let whole = layout(a, a.len() as int);
        let pos = layout(a, i).len() as int;
        lemma_entry_bytes(a, i, a.len() as int);
        lemma_entry_bytes(b, i, b.len() as int);
        assert(valid_entry(a, i));
        assert(valid_entry(b, i));
        assert(base_of(a, i) == base_of(b, i));
        let pa = shared_of(a, i) as int;
        let pb = shared_of(b, i) as int;
        assert(pa == pb);
        let ea = layout(a, i + 1).len() as int;
        let eb = layout(b, i + 1).len() as int;
        // the string ends at the first zero byte behind its first byte
        assert forall|k: int| pos + 1 <= k < ea - 1 implies whole[k] != 0 by {
            assert(whole[k] == a[i][pa + k - pos - 1]);
        }
        lemma_zero_from(whole, pos + 1, ea - 1);
        assert forall|k: int| pos + 1 <= k < eb - 1 implies whole[k] != 0 by {
            assert(whole[k] == b[i][pb + k - pos - 1]);
        }
        lemma_zero_from(whole, pos + 1, eb - 1);
        assert(ea == eb);
        assert(a[i].len() == b[i].len());
        assert forall|k: int| 0 <= k < a[i].len() implies a[i][k] == b[i][k] by {
            if k < pa {
                assert(a[i].subrange(0, pa)[k] == base_of(a, i).subrange(0, pa)[k]);
                assert(b[i].subrange(0, pb)[k] == base_of(b, i).subrange(0, pb)[k]);
            } else {
                assert(whole[pos + 1 + k - pa] == a[i][k]);
                assert(whole[pos + 1 + k - pa] == b[i][k]);
            }
        }
        assert(a[i] =~= b[i]);
    }
}

/// What reading one string at `pos` of `bytes` gives, where the string is
/// written against `base`: the string and the place behind it; or nothing,
/// where the bytes end too early or the string claims to share more than
/// `base` holds.
#[verifier::opaque]
pub open spec fn entry_at(bytes: Seq<u8>, pos: int, base: Seq<u8>) -> Option<(Seq<u8>, int)> {
    if pos < 0 || pos >= bytes.len() || bytes[pos] > base.len() || zero_from(bytes, pos + 1)
        >= bytes.len() {
        None
    } else {
        Some(
            (
                base.subrange(0, bytes[pos] as int) + bytes.subrange(
                    pos + 1,
                    zero_from(bytes, pos + 1),
                ),
                zero_from(bytes, pos + 1) + 1,
            ),
        )
    }
}

/// Reading string `i` of a dictionary from its layout gives the string and
/// the place where the next starts.
pub proof fn lemma_entry_at(strings: Seq<Seq<u8>>, i: int)
    requires
        0 <= i < strings.len(),
        forall|k: int| 0 <= k < strings.len() ==> #[trigger] valid_entry(strings, k),
    ensures
        entry_at(
            layout(strings, strings.len() as int),
            layout(strings, i).len() as int,
            base_of(strings, i),
        ) == Some((strings[i], layout(strings, i + 1).len() as int)),
{
    reveal(entry_at);
    lemma_entry_read(strings, i);
    lemma_entry_bytes(strings, i, strings.len() as int);
}

/// `bytes` are the layout of `strings`, which stand in strictly rising
/// order and hold no zero byte.
#[verifier::opaque]
pub open spec fn parses_as(bytes: Seq<u8>, strings: Seq<Seq<u8>>) -> bool {
    &&& bytes == layout(strings, strings.len() as int)
    &&& sorted(strings)
    &&& forall|k: int| 0 <= k < strings.len() ==> #[trigger] valid_entry(strings, k)
}

/// What reading string `i` from the layout of a dictionary gives, and why
/// the string can be added behind the strings before it.
pub proof fn lemma_parse_step(bytes: Seq<u8>, strings: Seq<Seq<u8>>, i: int)
    requires
        parses_as(bytes, strings),
        0 <= i < strings.len(),
    ensures
        entry_at(bytes, layout(strings, i).len() as int, base_of(strings, i)) == Some(
            (strings[i], layout(strings, i + 1).len() as int),
        ),
        !contains_zero(strings[i]),
        i > 0 ==> lex_less(strings.take(i).last(), strings[i]),
        layout(strings.take(i + 1), i + 1) == layout(strings, i + 1),
        layout(strings.take(i), i) == layout(strings, i),
        i % 8 != 0 ==> base_of(strings, i) == strings[i - i % 8],
{
    reveal(parses_as);
    lemma_entry_at(strings, i);
    assert(valid_entry(strings, i));
    if i > 0 {
        assert(strings.take(i).last() == strings[i - 1]);
        assert(lex_less(strings[i - 1], strings[i]));
    }
    lemma_layout_agree(strings, strings.take(i + 1), i + 1);
    lemma_layout_agree(strings, strings.take(i), i);
}

fn read_checked(bytes: &[u8], pos: usize, base: &[u8]) -> (entry: Option<(Vec<u8>, usize)>)
    requires
        bytes@.len() < usize::MAX,
    ensures
        match entry_at(bytes@, pos as int, base@) {
            Some((string, next)) => entry is Some && entry->Some_0.0@ == string
                && entry->Some_0.1 == next && string.len() <= 255 + bytes@.len() && pos < next
                <= bytes@.len(),
            None => entry is None,
        },
{
    proof {
        reveal(entry_at);
    }
    if pos >= bytes.len() {
        return None;
    }
    let shared = bytes[pos] as usize;
    if shared > base.len() {
        return None;
    }
    let end = find_zero(bytes, pos + 1);
    if end >= bytes.len() {
        return None;
    }
    let mut string: Vec<u8> = vstd::slice::slice_to_vec(slice_subrange(base, 0, shared));
    string.extend_from_slice(slice_subrange(bytes, pos + 1, end));
    Some((string, end + 1))
}

/// Reads string `i` of a dictionary at `pos` of its layout and adds it to
/// `builder`, which holds the strings before it; `first` holds the first
/// string of the block.  Where the bytes are no layout, nothing need come of
/// it.
fn parse_step(
    body: &[u8],
    builder: &mut PfcDictBuilder,
    first: &mut Vec<u8>,
    pos: usize,
    i: u64,
    claimed: Ghost<Seq<Seq<u8>>>,
    valid: Ghost<bool>,
) -> (next: Option<usize>)
    requires
        old(builder).wf(),
        old(builder)@.len() == i,
        old(builder).size() == pos,
        i < MAX_ENTRIES,
        pos <= body@.len(),
        body@.len() * 4 + 256 <= usize::MAX,
        valid@ ==> parses_as(body@, claimed@) && i < claimed@.len(),
        valid@ ==> old(builder)@ == claimed@.take(i as int),
        valid@ ==> pos == layout(claimed@, i as int).len(),
        valid@ && i % 8 != 0 ==> old(first)@ == claimed@[i - i % 8],
    ensures
        final(builder).wf(),
        next is None ==> !valid@,
        next is Some ==> {
            &&& final(builder)@.len() == i + 1
            &&& final(builder).size() == next->Some_0
            &&& next->Some_0 <= body@.len()
            &&& valid@ ==> final(builder)@ == claimed@.take(i as int + 1)
            &&& valid@ ==> next->Some_0 == layout(claimed@, i as int + 1).len()
            &&& valid@ && (i + 1) % 8 != 0 ==> final(first)@ == claimed@[(i + 1) - (i + 1) % 8]
        },
{
    let starts_block = i % 8 == 0;
    let empty: Vec<u8> = Vec::new();
    proof {
        if valid@ {
            lemma_parse_step(body@, claimed@, i as int);
            if i % 8 == 0 {
                assert(base_of(claimed@, i as int) =~= Seq::<u8>::empty());
            }
        }
    }
    let entry = if starts_block {
        read_checked(body, pos, empty.as_slice())
    } else {
        read_checked(body, pos, first.as_slice())
    };
    let (string, end) = match entry {
        Some(entry) => entry,
        None => {
            return None;
        },
    };
    match builder.add(string.as_slice()) {
        Ok(_) => {},
        Err(_) => {
            return None;
        },
    }
    proof {
        if valid@ {
            assert(builder@ =~= claimed@.take(i as int + 1));
        }
    }
    if builder.bytes().len() != end {
        return None;
    }
    if starts_block {
        *first = string;
    }
    Some(end)
}

impl PfcDict {
    /// The files of the dictionary: that of its blocks, which holds the
    /// layout of the strings and their count, and what the file of its
    /// offsets holds.
    pub fn to_files(&self) -> (files: (Vec<u8>, Vec<u64>))
        requires
            self@.len() <= MAX_ENTRIES,
        ensures
            is_dictionary_of(files.0@, files.1@, self@),
    {
        proof {
            use_type_invariant(self);
        }
        let mut blocks = self.bytes.clone();
        let ghost body = blocks@;
        let high = write_u32_be((self.count / 0x1_0000_0000) as u32);
        let low = write_u32_be((self.count % 0x1_0000_0000) as u32);
        blocks.extend_from_slice(high.as_slice());
        blocks.extend_from_slice(low.as_slice());
        let offsets = self.offsets.decode();
        proof {
            assert(blocks@ =~= body + (high@ + low@));
            assert(blocks@.subrange(0, blocks@.len() - 8) =~= body);
            assert(blocks@.subrange(blocks@.len() - 8, blocks@.len() as int) =~= high@ + low@);
        }
        (blocks, offsets)
    }

    /// Reads a dictionary from the file of its blocks and from what the
    /// file of its offsets holds.  To find out whether they are the files of
    /// a dictionary, every string is read with every step checked, and the
    /// dictionary of the strings read is built and held against the files.
    pub fn parse(blocks: &[u8], offsets: &Vec<u64>) -> (result: Result<PfcDict, DictError>)
        requires
            blocks@.len() * 4 + 256 <= usize::MAX,
        ensures
            result is Ok <==> is_dictionary_file(blocks@, offsets@),
            result is Ok ==> is_dictionary_of(blocks@, offsets@, result->Ok_0@),
            result is Err ==> result->Err_0 == DictError::Malformed,
    {
        let ghost valid = is_dictionary_file(blocks@, offsets@);
        let ghost claimed = choose|strings: Seq<Seq<u8>>| #[trigger]
            is_dictionary_of(blocks@, offsets@, strings);
        let total = blocks.len();
        if total < 8 {
            return Err(DictError::Malformed);
        }
        let body = slice_subrange(blocks, 0, total - 8);
        let high = read_u32_be(slice_subrange(blocks, total - 8, total - 4));
        let low = read_u32_be(slice_subrange(blocks, total - 4, total));
        let count: u64 = (high as u64) * 0x1_0000_0000 + (low as u64);
        proof {
            if valid {
                lemma_count_trailer(blocks@, claimed.len());
                lemma_layout_len(claimed, claimed.len() as int);
            }
        }
        if count > MAX_ENTRIES || count > (body.len() / 2) as u64 {
            return Err(DictError::Malformed);
        }
        let mut builder = PfcDictBuilder::new();
        let mut first: Vec<u8> = Vec::new();
        let mut pos: usize = 0;
        let mut i: u64 = 0;
        proof {
            if valid {
                assert(is_dictionary_of(blocks@, offsets@, claimed));
                assert(claimed.take(0) =~= builder@);
                assert(parses_as(body@, claimed)) by {
                    reveal(parses_as);
                }
            }
        }
        while i < count
            invariant
                i <= count <= MAX_ENTRIES,
                count <= body@.len() / 2,
                body@ == blocks@.subrange(0, blocks@.len() - 8),
                blocks@.len() >= 8,
                body@.len() + 8 == blocks@.len(),
                blocks@.len() * 4 + 256 <= usize::MAX,
                valid == is_dictionary_file(blocks@, offsets@),
                valid ==> claimed.len() == count && parses_as(body@, claimed),
                builder.wf(),
                builder@.len() == i,
                builder.size() == pos,
                pos <= body@.len(),
                valid ==> builder@ == claimed.take(i as int),
                valid ==> pos == layout(claimed, i as int).len(),
                valid && i % 8 != 0 ==> first@ == claimed[i - i % 8],
            decreases count - i,
        {
            let end = match parse_step(
                body,
                &mut builder,
                &mut first,
                pos,
                i,
                Ghost(claimed),
                Ghost(valid),
            ) {
                Some(end) => end,
                None => {
                    return Err(DictError::Malformed);
                },
            };
            pos = end;
            i += 1;
        }
        proof {
            if valid {
                assert(is_dictionary_of(blocks@, offsets@, claimed));
                assert(claimed.take(count as int) =~= claimed);
                lemma_layout_agree(claimed, builder@, count as int);
                reveal(parses_as);
            }
        }
        if pos != body.len() || !same_bytes(builder.bytes(), body) || !same_offsets(
            builder.offsets(),
            offsets,
        ) {
            return Err(DictError::Malformed);
        }
        proof {
            let strings = builder@;
            assert(blocks@.subrange(blocks@.len() - 8, blocks@.len() - 4).subrange(0, 4)
                =~= blocks@.subrange(blocks@.len() - 8, blocks@.len() - 4));
            assert(blocks@.subrange(blocks@.len() - 4, blocks@.len() as int).subrange(0, 4)
                =~= blocks@.subrange(blocks@.len() - 4, blocks@.len() as int));
            lemma_trailer_written(blocks@, count as nat);
            assert(is_dictionary_of(blocks@, offsets@, strings));
        }
        Ok(builder.into_dict())
    }
}

/// A trailer that reads as a count is the trailer of that count.
pub proof fn lemma_trailer_written(blocks: Seq<u8>, count: nat)
    requires
        blocks.len() >= 8,
        count <= u64::MAX,
        (be_value(blocks.subrange(blocks.len() - 8, blocks.len() - 4)) as nat) * 0x1_0000_0000
            + be_value(blocks.subrange(blocks.len() - 4, blocks.len() as int)) as nat == count,
    ensures
        blocks.subrange(blocks.len() - 8, blocks.len() as int) == count_trailer(count),
{
    let first = blocks.subrange(blocks.len() - 8, blocks.len() - 4);
    let second = blocks.subrange(blocks.len() - 4, blocks.len() as int);
    crate::endian::lemma_be_bytes_of_value(first);
    crate::endian::lemma_be_bytes_of_value(second);
    let h = be_value(first) as nat;
    let l = be_value(second) as nat;
    assert(count == h * 0x1_0000_0000 + l);
    assert(count / 0x1_0000_0000 == h);
    assert(count % 0x1_0000_0000 == l);
    assert((count / 0x1_0000_0000) as u32 == be_value(first));
    assert((count % 0x1_0000_0000) as u32 == be_value(second));
    assert(blocks.subrange(blocks.len() - 8, blocks.len() as int) =~= first + second);
}

/// How string `i` of a dictionary is read from its layout: its first byte
/// says how much it shares, the bytes up to the next zero byte follow what
/// it shares, and the string behind it starts behind that zero byte.
pub proof fn lemma_entry_read(strings: Seq<Seq<u8>>, i: int)
    requires
        0 <= i < strings.len(),
        forall|k: int| 0 <= k < strings.len() ==> #[trigger] valid_entry(strings, k),
    ensures
        layout(strings, i + 1).len() <= layout(strings, strings.len() as int).len(),
        layout(strings, strings.len() as int)[layout(strings, i).len() as int] == shared_of(
            strings,
            i,
        ),
        shared_of(strings, i) <= 255,
        shared_of(strings, i) <= base_of(strings, i).len(),
        zero_from(layout(strings, strings.len() as int), layout(strings, i).len() as int + 1)
            == layout(strings, i + 1).len() - 1,
        base_of(strings, i).subrange(0, shared_of(strings, i) as int) + layout(
            strings,
            strings.len() as int,
        ).subrange(layout(strings, i).len() as int + 1, layout(strings, i + 1).len() - 1)
            == strings[i],
{
    let n = strings.len() as int;
    let whole = layout(strings, n);
    let pos = layout(strings, i).len() as int;
    let e = layout(strings, i + 1).len() - 1;
    let p = shared_of(strings, i) as int;
    let target = strings[i];
    lemma_entry_bytes(strings, i, n);
    assert(valid_entry(strings, i));
    assert forall|k: int| pos + 1 <= k < e implies whole[k] != 0 by {
        assert(whole[k] == target[p + k - pos - 1]);
    }
    lemma_zero_from(whole, pos + 1, e);
    let read = base_of(strings, i).subrange(0, p) + whole.subrange(pos + 1, e);
    assert(read.len() == target.len());
    assert forall|k: int| 0 <= k < target.len() implies read[k] == target[k] by {
        if k < p {
            assert(target.subrange(0, p)[k] == base_of(strings, i).subrange(0, p)[k]);
        } else {
            assert(whole[pos + 1 + k - p] == target[k]);
        }
    }
    assert(read =~= target);
}

} // verus!
