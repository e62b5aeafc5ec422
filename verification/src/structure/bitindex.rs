//! Rank and select over a bit array.
//!
//! `rank1(i)` is the number of set bits before position `i`; `select1(k)` is
//! the position of the `k`-th set bit.  To answer without reading the whole
//! array, an index keeps running counts: for every super-block of 64 blocks
//! the number of set bits before it, and for every block of 64 words the
//! number of set bits between the start of its super-block and its own.
//! Both are log arrays, wide enough for the number of bits of the array.

use crate::structure::bitarray::{bit_at, bits_of, get_bit, BitArray};
use crate::structure::logarray::{pack, width_for, LogArray};
use vstd::prelude::*;

verus! {

/// The number of set bits among the first `upto` of `bits`.
pub open spec fn count_ones(bits: Seq<bool>, upto: int) -> nat
    recommends
        upto <= bits.len(),
    decreases upto,
{
    if upto <= 0 {
        0
    } else {
        count_ones(bits, upto - 1) + (if bits[upto - 1] {
            1nat
        } else {
            0nat
        })
    }
}

/// The position of the `k`-th set bit among the first `n` of `bits`,
/// counting from one; below zero where there are fewer than `k`.
pub open spec fn one_before(bits: Seq<bool>, k: nat, n: int) -> int
    recommends
        n <= bits.len(),
    decreases n,
{
    if n <= 0 {
        -1
    } else if bits[n - 1] && count_ones(bits, n) == k {
        n - 1
    } else {
        one_before(bits, k, n - 1)
    }
}

/// The position of the `k`-th set bit of `bits`, counting from one.
pub open spec fn nth_one(bits: Seq<bool>, k: nat) -> int {
    one_before(bits, k, bits.len() as int)
}

/// Further on there are no fewer set bits, and no more than there are
/// places in between.
pub proof fn lemma_count_ones_monotone(bits: Seq<bool>, i: int, j: int)
    requires
        0 <= i <= j,
    ensures
        count_ones(bits, i) <= count_ones(bits, j),
        count_ones(bits, j) - count_ones(bits, i) <= j - i,
    decreases j - i,
{
    if i < j {
        lemma_count_ones_monotone(bits, i, j - 1);
    }
}

/// Bits that agree up to a place have the same number of set bits up to
/// it.
pub proof fn lemma_count_ones_agree(a: Seq<bool>, b: Seq<bool>, upto: int)
    requires
        forall|k: int| 0 <= k < upto ==> a[k] == b[k],
    ensures
        count_ones(a, upto) == count_ones(b, upto),
    decreases upto,
{
    if upto > 0 {
        lemma_count_ones_agree(a, b, upto - 1);
    }
}

/// Where there are `k` set bits or more, the `k`-th is found: it is set, and
/// `k - 1` set bits come before it.
pub proof fn lemma_one_before_found(bits: Seq<bool>, k: nat, n: int)
    requires
        1 <= k <= count_ones(bits, n),
    ensures
        0 <= one_before(bits, k, n) < n,
        bits[one_before(bits, k, n)],
        count_ones(bits, one_before(bits, k, n)) == k - 1,
    decreases n,
{
    if n > 0 && !(bits[n - 1] && count_ones(bits, n) == k) {
        lemma_one_before_found(bits, k, n - 1);
    }
}

/// A set bit with `k - 1` set bits before it is the `k`-th.
pub proof fn lemma_one_before_unique(bits: Seq<bool>, k: nat, n: int, p: int)
    requires
        0 <= p < n,
        bits[p],
        count_ones(bits, p) == k - 1,
    ensures
        one_before(bits, k, n) == p,
    decreases n,
{
    if bits[n - 1] && count_ones(bits, n) == k {
        if p < n - 1 {
            lemma_count_ones_monotone(bits, p + 1, n - 1);
        }
    } else {
        lemma_one_before_unique(bits, k, n - 1, p);
    }
}

/// Rank undoes select: up to and with the `k`-th set bit there are `k` set
/// bits.
pub proof fn lemma_rank_of_select(bits: Seq<bool>, k: nat)
    requires
        1 <= k <= count_ones(bits, bits.len() as int),
    ensures
        0 <= nth_one(bits, k) < bits.len(),
        bits[nth_one(bits, k)],
        count_ones(bits, nth_one(bits, k) + 1) == k,
{
    lemma_one_before_found(bits, k, bits.len() as int);
}

/// Select does not overshoot rank: where set bits come before `i`, the last
/// of them that rank counts lies before `i`.
pub proof fn lemma_select_of_rank(bits: Seq<bool>, i: int)
    requires
        0 <= i <= bits.len(),
        count_ones(bits, i) > 0,
    ensures
        0 <= nth_one(bits, count_ones(bits, i)) < i,
{
    let k = count_ones(bits, i);
    lemma_count_ones_monotone(bits, i, bits.len() as int);
    lemma_one_before_found(bits, k, bits.len() as int);
    let p = nth_one(bits, k);
    if p >= i {
        lemma_count_ones_monotone(bits, i, p);
    }
}

/// The number of blocks that `len` bits take.
pub open spec fn block_count(len: nat) -> nat {
    (len + 4095) / 4096
}

/// The number of super-blocks that `len` bits take.
pub open spec fn sblock_count(len: nat) -> nat {
    (len + 262143) / 262144
}

/// `blocks` and `sblocks` are the running counts of `bits`: for every
/// super-block the set bits before it, for every block the set bits between
/// the start of its super-block and its own.
pub open spec fn index_matches(bits: Seq<bool>, blocks: Seq<u64>, sblocks: Seq<u64>) -> bool {
    &&& blocks.len() == block_count(bits.len())
    &&& sblocks.len() == sblock_count(bits.len())
    &&& forall|j: int|
        0 <= j < blocks.len() ==> (#[trigger] blocks[j]) == count_ones(bits, 4096 * j) - count_ones(
            bits,
            262144 * (j / 64),
        )
    &&& forall|s: int|
        0 <= s < sblocks.len() ==> (#[trigger] sblocks[s]) == count_ones(bits, 262144 * s)
}

fn ones_in_byte(byte: u8) -> (count: u64)
    ensures
        count == (if (byte >> 7u8) & 1u8 == 1u8 {
            1nat
        } else {
            0nat
        }) + (if (byte >> 6u8) & 1u8 == 1u8 {
            1nat
        } else {
            0nat
        }) + (if (byte >> 5u8) & 1u8 == 1u8 {
            1nat
        } else {
            0nat
        }) + (if (byte >> 4u8) & 1u8 == 1u8 {
            1nat
        } else {
            0nat
        }) + (if (byte >> 3u8) & 1u8 == 1u8 {
            1nat
        } else {
            0nat
        }) + (if (byte >> 2u8) & 1u8 == 1u8 {
            1nat
        } else {
            0nat
        }) + (if (byte >> 1u8) & 1u8 == 1u8 {
            1nat
        } else {
            0nat
        }) + (if (byte >> 0u8) & 1u8 == 1u8 {
            1nat
        } else {
            0nat
        }),
{
    let mut count: u64 = 0;
    if (byte >> 7u8) & 1u8 == 1u8 {
        count += 1;
    }
    if (byte >> 6u8) & 1u8 == 1u8 {
        count += 1;
    }
    if (byte >> 5u8) & 1u8 == 1u8 {
        count += 1;
    }
    if (byte >> 4u8) & 1u8 == 1u8 {
        count += 1;
    }
    if (byte >> 3u8) & 1u8 == 1u8 {
        count += 1;
    }
    if (byte >> 2u8) & 1u8 == 1u8 {
        count += 1;
    }
    if (byte >> 1u8) & 1u8 == 1u8 {
        count += 1;
    }
    if (byte >> 0u8) & 1u8 == 1u8 {
        count += 1;
    }
    count
}

/// The set bits of one whole byte are the set bits of its eight places.
proof fn lemma_count_ones_byte(bytes: Seq<u8>, q: int)
    requires
        0 <= q < bytes.len(),
    ensures
        count_ones(bits_of(bytes, (8 * bytes.len()) as nat), 8 * q + 8) - count_ones(
            bits_of(bytes, (8 * bytes.len()) as nat),
            8 * q,
        ) == (if (bytes[q] >> 7u8) & 1u8 == 1u8 {
            1nat
        } else {
            0nat
        }) + (if (bytes[q] >> 6u8) & 1u8 == 1u8 {
            1nat
        } else {
            0nat
        }) + (if (bytes[q] >> 5u8) & 1u8 == 1u8 {
            1nat
        } else {
            0nat
        }) + (if (bytes[q] >> 4u8) & 1u8 == 1u8 {
            1nat
        } else {
            0nat
        }) + (if (bytes[q] >> 3u8) & 1u8 == 1u8 {
            1nat
        } else {
            0nat
        }) + (if (bytes[q] >> 2u8) & 1u8 == 1u8 {
            1nat
        } else {
            0nat
        }) + (if (bytes[q] >> 1u8) & 1u8 == 1u8 {
            1nat
        } else {
            0nat
        }) + (if (bytes[q] >> 0u8) & 1u8 == 1u8 {
            1nat
        } else {
            0nat
        }),
{
    let bits = bits_of(bytes, (8 * bytes.len()) as nat);
    let b = 8 * q;
    assert(bits[b] == bit_at(bytes, b));
    assert(bits[b + 1] == bit_at(bytes, b + 1));
    assert(bits[b + 2] == bit_at(bytes, b + 2));
    assert(bits[b + 3] == bit_at(bytes, b + 3));
    assert(bits[b + 4] == bit_at(bytes, b + 4));
    assert(bits[b + 5] == bit_at(bytes, b + 5));
    assert(bits[b + 6] == bit_at(bytes, b + 6));
    assert(bits[b + 7] == bit_at(bytes, b + 7));
    assert(count_ones(bits, b + 1) == count_ones(bits, b) + (if bits[b] { 1nat } else { 0nat }));
    assert(count_ones(bits, b + 2) == count_ones(bits, b + 1) + (if bits[b + 1] { 1nat } else { 0nat }));
    assert(count_ones(bits, b + 3) == count_ones(bits, b + 2) + (if bits[b + 2] { 1nat } else { 0nat }));
    assert(count_ones(bits, b + 4) == count_ones(bits, b + 3) + (if bits[b + 3] { 1nat } else { 0nat }));
    assert(count_ones(bits, b + 5) == count_ones(bits, b + 4) + (if bits[b + 4] { 1nat } else { 0nat }));
    assert(count_ones(bits, b + 6) == count_ones(bits, b + 5) + (if bits[b + 5] { 1nat } else { 0nat }));
    assert(count_ones(bits, b + 7) == count_ones(bits, b + 6) + (if bits[b + 6] { 1nat } else { 0nat }));
    assert(count_ones(bits, b + 8) == count_ones(bits, b + 7) + (if bits[b + 7] { 1nat } else { 0nat }));
}

/// Counts the set bits of the packed bits `bytes` from place `from` up to
/// place `to`.
pub fn count_ones_between(bytes: &[u8], from: u64, to: u64) -> (count: u64)
    requires
        from <= to <= 8 * bytes@.len(),
    ensures
        count == count_ones(bits_of(bytes@, (8 * bytes@.len()) as nat), to as int) - count_ones(
            bits_of(bytes@, (8 * bytes@.len()) as nat),
            from as int,
        ),
{
    let ghost bits = bits_of(bytes@, (8 * bytes@.len()) as nat);
    let mut count: u64 = 0;
    let mut k = from;
    while k < to
        invariant
            from <= k <= to <= 8 * bytes@.len(),
            bits == bits_of(bytes@, (8 * bytes@.len()) as nat),
            count == count_ones(bits, k as int) - count_ones(bits, from as int),
        decreases to - k,
    {
        proof {
            lemma_count_ones_monotone(bits, from as int, k as int);
        }
        if k % 8 == 0 && to - k >= 8 {
            proof {
                lemma_count_ones_byte(bytes@, (k / 8) as int);
            }
            count = count + ones_in_byte(bytes[(k / 8) as usize]);
            k = k + 8;
        } else {
            if get_bit(bytes, k) {
                count = count + 1;
            }
            k = k + 1;
        }
    }
    count
}

/// The running counts of the array `array`, block by block and super-block
/// by super-block.
pub fn compute_index(array: &BitArray) -> (counts: (Vec<u64>, Vec<u64>))
    ensures
        index_matches(array@, counts.0@, counts.1@),
        forall|j: int| 0 <= j < counts.0@.len() ==> (#[trigger] counts.0@[j]) <= array@.len(),
        forall|s: int| 0 <= s < counts.1@.len() ==> (#[trigger] counts.1@[s]) <= array@.len(),
{
    let bytes = array.bytes();
    let len = array.len();
    let ghost bits = bits_of(bytes@, (8 * bytes@.len()) as nat);
    let ghost mine = array@;
    let mut blocks: Vec<u64> = Vec::new();
    let mut sblocks: Vec<u64> = Vec::new();
    let mut total: u64 = 0;
    let mut base: u64 = 0;
    let mut j: u64 = 0;
    let mut at: u64 = 0;
    while at < len
        invariant
            len == mine.len(),
            mine == array@,
            len <= 8 * bytes@.len(),
            bits == bits_of(bytes@, (8 * bytes@.len()) as nat),
            mine == bits_of(bytes@, len as nat),
            at <= len,
            at < len ==> at == 4096 * j,
            at == len ==> 4096 * j >= len,
            j > 0 ==> 4096 * (j - 1) < len,
            blocks@.len() == j,
            j == 0 ==> sblocks@.len() == 0,
            j > 0 ==> sblocks@.len() == (j - 1) / 64 + 1,
            total == count_ones(mine, at as int),
            j > 0 ==> base == count_ones(mine, 262144 * ((j - 1) / 64)),
            total <= len,
            base <= total,
            forall|i: int|
                0 <= i < j ==> (#[trigger] blocks@[i]) == count_ones(mine, 4096 * i) - count_ones(
                    mine,
                    262144 * (i / 64),
                ),
            forall|i: int| 0 <= i < j ==> (#[trigger] blocks@[i]) <= len,
            forall|s: int|
                0 <= s < sblocks@.len() ==> (#[trigger] sblocks@[s]) == count_ones(mine, 262144 * s),
            forall|s: int| 0 <= s < sblocks@.len() ==> (#[trigger] sblocks@[s]) <= len,
        decreases len - at,
    {
        if j % 64 == 0 {
            sblocks.push(total);
            base = total;
        }
        blocks.push(total - base);
        let end = if len - at > 4096 {
            at + 4096
        } else {
            len
        };
        let ones = count_ones_between(bytes, at, end);
        proof {
            lemma_count_ones_agree(mine, bits, at as int);
            lemma_count_ones_agree(mine, bits, end as int);
            lemma_count_ones_monotone(mine, 0, end as int);
        }
        total = total + ones;
        at = end;
        j = j + 1;
    }
    (blocks, sblocks)
}

/// A bit array with the running counts that answer rank and select.
pub struct BitIndex {
    array: BitArray,
    blocks: LogArray,
    sblocks: LogArray,
}

impl View for BitIndex {
    type V = Seq<bool>;

    /// The bits of the array.
    closed spec fn view(&self) -> Seq<bool> {
        self.array@
    }
}

impl BitIndex {
    #[verifier::type_invariant]
    spec fn well_formed(self) -> bool {
        index_matches(self.array@, self.blocks@, self.sblocks@)
    }

    /// The index over `array`, with its running counts computed.
    pub fn build(array: BitArray) -> (index: BitIndex)
        requires
            array@.len() / 64 + 4096 <= usize::MAX,
        ensures
            index@ == array@,
    {
        let (block_counts, sblock_counts) = compute_index(&array);
        let len = array.len();
        let width = width_for(len);
        let blocks = pack(&block_counts, width, len);
        let sblocks = pack(&sblock_counts, width, len);
        BitIndex { array, blocks, sblocks }
    }

    /// The index made of `array` and the running counts that go with it.
    pub fn from_parts(array: BitArray, blocks: LogArray, sblocks: LogArray) -> (index: BitIndex)
        requires
            index_matches(array@, blocks@, sblocks@),
        ensures
            index@ == array@,
    {
        BitIndex { array, blocks, sblocks }
    }

    /// The index made of `array` and the running counts given, if they are
    /// the counts that go with it.
    pub fn from_parts_checked(array: BitArray, blocks: LogArray, sblocks: LogArray) -> (index:
        Option<BitIndex>)
        ensures
            index is Some <==> index_matches(array@, blocks@, sblocks@),
            index is Some ==> index->Some_0@ == array@,
    {
        let (block_counts, sblock_counts) = compute_index(&array);
        let given_blocks = blocks.decode();
        let given_sblocks = sblocks.decode();
        if same_counts(&given_blocks, &block_counts) && same_counts(
            &given_sblocks,
            &sblock_counts,
        ) {
            Some(BitIndex { array, blocks, sblocks })
        } else {
            proof {
                if index_matches(array@, blocks@, sblocks@) {
                    assert(blocks@ =~= block_counts@);
                    assert(sblocks@ =~= sblock_counts@);
                }
            }
            None
        }
    }

    /// The number of bits.
    pub fn len(&self) -> (len: u64)
        ensures
            len == self@.len(),
    {
        self.array.len()
    }

    /// The bit array.
    pub fn array(&self) -> (array: &BitArray)
        ensures
            array@ == self@,
    {
        &self.array
    }

    /// The running counts of the blocks.
    pub closed spec fn spec_blocks(&self) -> Seq<u64> {
        self.blocks@
    }

    /// The running counts of the super-blocks.
    pub closed spec fn spec_sblocks(&self) -> Seq<u64> {
        self.sblocks@
    }

    /// The running counts of the blocks: for every block the set bits
    /// between the start of its super-block and its own.
    pub fn blocks(&self) -> (blocks: &LogArray)
        ensures
            blocks@ == self.spec_blocks(),
            index_matches(self@, self.spec_blocks(), self.spec_sblocks()),
    {
        proof {
            use_type_invariant(self);
        }
        &self.blocks
    }

    /// The running counts of the super-blocks: for every super-block the
    /// set bits before it.
    pub fn sblocks(&self) -> (sblocks: &LogArray)
        ensures
            sblocks@ == self.spec_sblocks(),
            index_matches(self@, self.spec_blocks(), self.spec_sblocks()),
    {
        proof {
            use_type_invariant(self);
        }
        &self.sblocks
    }

    /// Bit `index`.
    pub fn get(&self, index: u64) -> (bit: bool)
        requires
            index < self@.len(),
        ensures
            bit == self@[index as int],
    {
        self.array.get(index)
    }

    /// The number of set bits before place `index`.
    pub fn rank1(&self, index: u64) -> (rank: u64)
        requires
            index <= self@.len(),
        ensures
            rank == count_ones(self@, index as int),
            rank <= index,
    {
        proof {
            use_type_invariant(self);
            lemma_count_ones_monotone(self@, 0, index as int);
        }
        let len = self.array.len();
        if len == 0 {
            return 0;
        }
        let last = (len - 1) / 4096;
        let block = if index / 4096 > last {
            last
        } else {
            index / 4096
        };
        let bytes = self.array.bytes();
        let before_sblock = self.sblocks.entry(block / 64);
        let before_block = self.blocks.entry(block);
        let within = count_ones_between(bytes, block * 4096, index);
        proof {
            let bits = bits_of(bytes@, (8 * bytes@.len()) as nat);
            lemma_count_ones_agree(self@, bits, 4096 * block as int);
            lemma_count_ones_agree(self@, bits, index as int);
            lemma_count_ones_monotone(self@, 262144 * (block as int / 64), 4096 * block as int);
            lemma_count_ones_monotone(self@, 4096 * block as int, index as int);
        }
        before_sblock + before_block + within
    }

    /// The number of unset bits before place `index`.
    pub fn rank0(&self, index: u64) -> (rank: u64)
        requires
            index <= self@.len(),
        ensures
            rank == index - count_ones(self@, index as int),
    {
        index - self.rank1(index)
    }

    /// The number of set bits from place `start` up to place `end`.
    pub fn rank1_range(&self, start: u64, end: u64) -> (rank: u64)
        requires
            start <= end <= self@.len(),
        ensures
            rank == count_ones(self@, end as int) - count_ones(self@, start as int),
    {
        proof {
            lemma_count_ones_monotone(self@, start as int, end as int);
        }
        self.rank1(end) - self.rank1(start)
    }

    /// The number of unset bits from place `start` up to place `end`.
    pub fn rank0_range(&self, start: u64, end: u64) -> (rank: u64)
        requires
            start <= end <= self@.len(),
        ensures
            rank == (end - start) - (count_ones(self@, end as int) - count_ones(
                self@,
                start as int,
            )),
    {
        proof {
            lemma_count_ones_monotone(self@, start as int, end as int);
        }
        (end - start) - self.rank1_range(start, end)
    }

    /// The place of the `k`-th set bit, counting from one; nothing for
    /// `k` zero or beyond the number of set bits.
    pub fn select1(&self, k: u64) -> (place: Option<u64>)
        ensures
            1 <= k <= count_ones(self@, self@.len() as int) ==> place == Some(
                nth_one(self@, k as nat) as u64,
            ) && 0 <= nth_one(self@, k as nat) < self@.len(),
            !(1 <= k <= count_ones(self@, self@.len() as int)) ==> place is None,
    {
        let len = self.len();
        if k == 0 || self.rank1(len) < k {
            return None;
        }
        let mut low: u64 = 0;
        let mut high: u64 = len;
        while high - low > 1
            invariant
                low < high <= len,
                len == self@.len(),
                count_ones(self@, low as int) < k <= count_ones(self@, high as int),
            decreases high - low,
        {
            let mid = low + (high - low) / 2;
            if self.rank1(mid) >= k {
                high = mid;
            } else {
                low = mid;
            }
        }
        proof {
            lemma_one_before_unique(self@, k as nat, len as int, low as int);
        }
        Some(low)
    }
}

fn same_counts(a: &Vec<u64>, b: &Vec<u64>) -> (same: bool)
    ensures
        same == (a@ == b@),
{
    if a.len() != b.len() {
        return false;
    }
    let mut i: usize = 0;
    while i < a.len()
        invariant
            i <= a.len(),
            a@.len() == b@.len(),
            forall|k: int| 0 <= k < i ==> a@[k] == b@[k],
        decreases a.len() - i,
    {
        if a[i] != b[i] {
            return false;
        }
        i += 1;
    }
    assert(a@ =~= b@);
    true
}

} // verus!
