//! Wavelet trees.
//!
//! A wavelet tree holds a run of symbols of `L` bits in `L` layers of one bit
//! per symbol.  In layer `l` the symbols stand sorted by their highest `l`
//! bits, symbols with the same highest bits in the order of the source; the
//! run of symbols with the same highest `l` bits is a fragment, and the bit
//! that a symbol contributes to the layer is the next of its bits.  All
//! layers together are one bit array with a rank index, which is enough to
//! read a symbol back and to count occurrences of a symbol.

use crate::structure::bitarray::BitArrayBuilder;
use crate::structure::logarray::LogArrayBuilder;
use crate::structure::bitindex::{count_ones, lemma_count_ones_monotone, BitIndex};
use crate::structure::logarray::{LogArray, MAX_ENTRIES};
use vstd::arithmetic::power2::{lemma2_to64, lemma_pow2_unfold, pow2};
use vstd::prelude::*;

verus! {

/// `s` without its lowest `drop` bits.
pub open spec fn top(s: nat, drop: nat) -> nat
    decreases drop,
{
    if drop == 0 {
        s
    } else {
        top(s, (drop - 1) as nat) / 2
    }
}

/// How many of the first `upto` symbols are `f` once their lowest `drop`
/// bits are dropped.
pub open spec fn cnt(symbols: Seq<u64>, drop: nat, f: nat, upto: int) -> nat
    recommends
        upto <= symbols.len(),
    decreases upto,
{
    if upto <= 0 {
        0
    } else {
        cnt(symbols, drop, f, upto - 1) + (if top(symbols[upto - 1] as nat, drop) == f {
            1nat
        } else {
            0nat
        })
    }
}

/// How many of the first `upto` symbols are below `f` once their lowest
/// `drop` bits are dropped.
pub open spec fn cnt_below(symbols: Seq<u64>, drop: nat, f: nat, upto: int) -> nat
    recommends
        upto <= symbols.len(),
    decreases upto,
{
    if upto <= 0 {
        0
    } else {
        cnt_below(symbols, drop, f, upto - 1) + (if top(symbols[upto - 1] as nat, drop) < f {
            1nat
        } else {
            0nat
        })
    }
}

/// Where symbol `j` stands in the layer that drops the lowest `drop` bits:
/// behind all symbols of lower fragments, and behind the symbols of its own
/// fragment that come before it in the source.
pub open spec fn place(symbols: Seq<u64>, drop: nat, j: int) -> int
    recommends
        0 <= j < symbols.len(),
{
    (cnt_below(symbols, drop, top(symbols[j] as nat, drop), symbols.len() as int) + cnt(
        symbols,
        drop,
        top(symbols[j] as nat, drop),
        j,
    )) as int
}

/// Where the bit of symbol `j` in layer `l` stands among the bits of a tree
/// of `layers` layers.
pub open spec fn bit_place(symbols: Seq<u64>, layers: nat, l: int, j: int) -> int
    recommends
        0 <= l < layers,
        0 <= j < symbols.len(),
{
    l * symbols.len() + place(symbols, (layers - l) as nat, j)
}

/// The bit of symbol `j` in layer `l` of a tree of `layers` layers.
pub open spec fn layer_bit(symbols: Seq<u64>, layers: nat, l: int, j: int) -> bool
    recommends
        0 <= l < layers,
        0 <= j < symbols.len(),
{
    top(symbols[j] as nat, (layers - l - 1) as nat) % 2 == 1
}

/// `bits` are the wavelet tree of `symbols` in `layers` layers: every
/// symbol fits `layers` bits, and in every layer the bit of every symbol
/// stands at its place.
pub open spec fn encodes(bits: Seq<bool>, layers: nat, symbols: Seq<u64>) -> bool {
    &&& bits.len() == layers * symbols.len()
    &&& forall|j: int| 0 <= j < symbols.len() ==> top(#[trigger] symbols[j] as nat, layers) == 0
    &&& forall|l: int, j: int|
        0 <= l < layers && 0 <= j < symbols.len() ==> bits[#[trigger] bit_place(
            symbols,
            layers,
            l,
            j,
        )] == layer_bit(symbols, layers, l, j)
}

/// How often `symbol` occurs among the first `upto` of `symbols`.
pub open spec fn occurrences(symbols: Seq<u64>, symbol: nat, upto: int) -> nat {
    cnt(symbols, 0, symbol, upto)
}

/// The occurrences of all the symbols below `alphabet` among `symbols`,
/// added up.
pub open spec fn total_occurrences(symbols: Seq<u64>, alphabet: nat) -> nat
    decreases alphabet,
{
    if alphabet == 0 {
        0
    } else {
        total_occurrences(symbols, (alphabet - 1) as nat) + occurrences(
            symbols,
            (alphabet - 1) as nat,
            symbols.len() as int,
        )
    }
}

/// Dropping bits never makes a number greater.
pub proof fn lemma_top_bound(s: nat, drop: nat)
    ensures
        top(s, drop) <= s,
    decreases drop,
{
    if drop > 0 {
        lemma_top_bound(s, (drop - 1) as nat);
    }
}

/// Dropping bits of a 64-bit number is shifting it right; nothing is left
/// when all 64 are dropped.
pub proof fn lemma_top_is_shift(s: u64, drop: nat)
    requires
        drop <= 64,
    ensures
        drop < 64 ==> top(s as nat, drop) == s >> (drop as u64),
        drop == 64 ==> top(s as nat, drop) == 0,
    decreases drop,
{
    if drop == 0 {
        assert(s >> 0u64 == s) by (bit_vector);
    } else {
        lemma_top_is_shift(s, (drop - 1) as nat);
        let d = (drop - 1) as u64;
        if drop < 64 {
            assert((s >> d) / 2 == s >> ((d + 1) as u64)) by (bit_vector)
                requires
                    d < 63,
            ;
        } else {
            assert((s >> 63u64) / 2 == 0) by (bit_vector);
        }
    }
}

/// A fragment of one layer is two fragments of the next: the symbols whose
/// next bit is unset, and those whose next bit is set.
pub proof fn lemma_cnt_split(symbols: Seq<u64>, drop: nat, f: nat, upto: int)
    requires
        drop >= 1,
    ensures
        cnt(symbols, drop, f, upto) == cnt(symbols, (drop - 1) as nat, 2 * f, upto) + cnt(
            symbols,
            (drop - 1) as nat,
            2 * f + 1,
            upto,
        ),
        cnt_below(symbols, (drop - 1) as nat, 2 * f, upto) == cnt_below(symbols, drop, f, upto),
        cnt_below(symbols, (drop - 1) as nat, 2 * f + 1, upto) == cnt_below(symbols, drop, f, upto)
            + cnt(symbols, (drop - 1) as nat, 2 * f, upto),
    decreases upto,
{
    if upto > 0 {
        lemma_cnt_split(symbols, drop, f, upto - 1);
    }
}

/// A fragment and the fragments below it hold no more symbols than there
/// are, and counts never fall.
pub proof fn lemma_cnt_bounds(symbols: Seq<u64>, drop: nat, f: nat, i: int, n: int)
    requires
        0 <= i <= n,
    ensures
        cnt(symbols, drop, f, i) <= cnt(symbols, drop, f, n),
        cnt_below(symbols, drop, f, i) <= cnt_below(symbols, drop, f, n),
        cnt_below(symbols, drop, f, n) + cnt(symbols, drop, f, n) <= n,
        cnt(symbols, drop, f, n) - cnt(symbols, drop, f, i) <= n - i,
    decreases n,
{
    if n > 0 {
        if i < n {
            lemma_cnt_bounds(symbols, drop, f, i, n - 1);
        } else {
            lemma_cnt_bounds(symbols, drop, f, n - 1, n - 1);
        }
    }
}

/// Below a bound that is above every symbol, all symbols are counted; and
/// the fragments below the next bound are those below this one and this
/// one.
pub proof fn lemma_cnt_below_all(symbols: Seq<u64>, drop: nat, f: nat, n: int)
    requires
        0 <= n <= symbols.len(),
    ensures
        cnt_below(symbols, drop, f + 1, n) == cnt_below(symbols, drop, f, n) + cnt(
            symbols,
            drop,
            f,
            n,
        ),
        (forall|j: int| 0 <= j < n ==> top(#[trigger] symbols[j] as nat, drop) < f) ==> cnt_below(
            symbols,
            drop,
            f,
            n,
        ) == n,
    decreases n,
{
    if n > 0 {
        lemma_cnt_below_all(symbols, drop, f, n - 1);
    }
}

/// Counted symbol by symbol, the occurrences of all symbols of an alphabet
/// add up to the number of symbols.
pub proof fn lemma_total_occurrences(symbols: Seq<u64>, alphabet: nat)
    ensures
        total_occurrences(symbols, alphabet) == cnt_below(
            symbols,
            0,
            alphabet,
            symbols.len() as int,
        ),
        (forall|j: int| 0 <= j < symbols.len() ==> (#[trigger] symbols[j]) < alphabet)
            ==> total_occurrences(symbols, alphabet) == symbols.len(),
    decreases alphabet,
{
    if alphabet > 0 {
        lemma_total_occurrences(symbols, (alphabet - 1) as nat);
        lemma_cnt_below_all(symbols, 0, (alphabet - 1) as nat, symbols.len() as int);
    } else {
        lemma_cnt_bounds(symbols, 0, 0, 0, symbols.len() as int);
        lemma_cnt_zero_bound(symbols, symbols.len() as int);
    }
    lemma_cnt_below_all(symbols, 0, alphabet, symbols.len() as int);
}

/// No symbol is below zero.
pub proof fn lemma_cnt_zero_bound(symbols: Seq<u64>, n: int)
    ensures
        cnt_below(symbols, 0, 0, n) == 0,
    decreases n,
{
    if n > 0 {
        lemma_cnt_zero_bound(symbols, n - 1);
    }
}

/// Where the fragment `f` of layer `l` starts among the bits of the tree.
pub open spec fn fragment_start(symbols: Seq<u64>, layers: nat, l: int, f: nat) -> int {
    l * symbols.len() + cnt_below(symbols, (layers - l) as nat, f, symbols.len() as int)
}

/// Among the bits that the first `i` symbols leave in their fragment, as
/// many are set as symbols among them go on to the upper half of the
/// fragment.
pub proof fn lemma_fragment_ones(
    bits: Seq<bool>,
    layers: nat,
    symbols: Seq<u64>,
    l: int,
    f: nat,
    i: int,
)
    requires
        encodes(bits, layers, symbols),
        0 <= l < layers,
        0 <= i <= symbols.len(),
    ensures
        count_ones(
            bits,
            fragment_start(symbols, layers, l, f) + cnt(symbols, (layers - l) as nat, f, i),
        ) - count_ones(bits, fragment_start(symbols, layers, l, f)) == cnt(
            symbols,
            (layers - l - 1) as nat,
            2 * f + 1,
            i,
        ),
    decreases i,
{
    let d = (layers - l) as nat;
    let start = fragment_start(symbols, layers, l, f);
    if i > 0 {
        lemma_fragment_ones(bits, layers, symbols, l, f, i - 1);
        let s = symbols[i - 1] as nat;
        if top(s, d) == f {
            assert(bit_place(symbols, layers, l, i - 1) == start + cnt(symbols, d, f, i - 1));
            assert(bits[bit_place(symbols, layers, l, i - 1)] == layer_bit(
                symbols,
                layers,
                l,
                i - 1,
            ));
            assert(top(s, d) == top(s, (d - 1) as nat) / 2);
        } else {
            assert(top(s, d) == top(s, (d - 1) as nat) / 2);
        }
    }
}

/// In the first layer all symbols are one fragment, in the order of the
/// source.
pub proof fn lemma_first_layer(symbols: Seq<u64>, layers: nat, upto: int)
    requires
        0 <= upto <= symbols.len(),
        forall|j: int| 0 <= j < symbols.len() ==> top(#[trigger] symbols[j] as nat, layers) == 0,
    ensures
        cnt_below(symbols, layers, 0, upto) == 0,
        cnt(symbols, layers, 0, upto) == upto,
    decreases upto,
{
    if upto > 0 {
        lemma_first_layer(symbols, layers, upto - 1);
    }
}

/// A symbol that does not fit the layers of a tree does not occur in it.
pub proof fn lemma_absent_symbol(symbols: Seq<u64>, layers: nat, symbol: nat, upto: int)
    requires
        0 <= upto <= symbols.len(),
        forall|j: int| 0 <= j < symbols.len() ==> top(#[trigger] symbols[j] as nat, layers) == 0,
        top(symbol, layers) != 0,
    ensures
        occurrences(symbols, symbol, upto) == 0,
    decreases upto,
{
    if upto > 0 {
        lemma_absent_symbol(symbols, layers, symbol, upto - 1);
    }
}

/// A number below two to the `drop` has nothing left once its lowest `drop`
/// bits are dropped.
pub proof fn lemma_top_of_small(s: nat, drop: nat)
    ensures
        top(s, drop) * pow2(drop) <= s,
        s < pow2(drop) ==> top(s, drop) == 0,
    decreases drop,
{
    if drop == 0 {
        lemma2_to64();
    } else {
        lemma_top_of_small(s, (drop - 1) as nat);
        lemma_pow2_unfold(drop);
        let t = top(s, drop);
        let u = top(s, (drop - 1) as nat);
        let p = pow2((drop - 1) as nat);
        assert(2 * t <= u);
        assert(t * (2 * p) <= u * p) by (nonlinear_arith)
            requires
                2 * t <= u,
                p >= 0,
        ;
    }
    if s < pow2(drop) && top(s, drop) != 0 {
        assert(top(s, drop) * pow2(drop) >= pow2(drop)) by (nonlinear_arith)
            requires
                top(s, drop) >= 1,
                pow2(drop) >= 0,
        ;
    }
}

/// Where layer `l` of `n` symbols starts and ends among the bits of a tree
/// of `layers` layers.
pub proof fn lemma_layer_range(l: int, layers: nat, n: nat)
    requires
        0 <= l < layers,
    ensures
        0 <= l * n,
        (l + 1) * n == l * n + n,
        (l + 1) * n <= layers * n,
{
    assert(0 <= l * n) by (nonlinear_arith)
        requires
            0 <= l,
            n >= 0,
    ;
    assert((l + 1) * n == l * n + n) by (nonlinear_arith);
    assert((l + 1) * n <= layers * n) by (nonlinear_arith)
        requires
            l + 1 <= layers,
            n >= 0,
    ;
}

/// The positions among the first `upto` symbols at which `symbol` stands,
/// in rising order.
pub open spec fn positions_of(symbols: Seq<u64>, symbol: u64, upto: int) -> Seq<u64>
    recommends
        upto <= symbols.len(),
    decreases upto,
{
    if upto <= 0 {
        Seq::empty()
    } else if symbols[upto - 1] == symbol {
        positions_of(symbols, symbol, upto - 1).push((upto - 1) as u64)
    } else {
        positions_of(symbols, symbol, upto - 1)
    }
}

/// The positions of a symbol are places at which it stands, they rise, and
/// no place at which it stands is left out.
pub proof fn lemma_positions_of(symbols: Seq<u64>, symbol: u64, upto: int)
    requires
        0 <= upto <= symbols.len(),
        upto <= u64::MAX,
    ensures
        forall|k: int|
            0 <= k < positions_of(symbols, symbol, upto).len() ==> (#[trigger] positions_of(
                symbols,
                symbol,
                upto,
            )[k]) < upto && symbols[positions_of(symbols, symbol, upto)[k] as int] == symbol,
        forall|a: int, b: int|
            0 <= a < b < positions_of(symbols, symbol, upto).len() ==> positions_of(
                symbols,
                symbol,
                upto,
            )[a] < positions_of(symbols, symbol, upto)[b],
        forall|q: int|
            0 <= q < upto && symbols[q] == symbol ==> exists|k: int|
                0 <= k < positions_of(symbols, symbol, upto).len() && #[trigger] positions_of(
                    symbols,
                    symbol,
                    upto,
                )[k] == q,
    decreases upto,
{
    if upto > 0 {
        lemma_positions_of(symbols, symbol, upto - 1);
        let before = positions_of(symbols, symbol, upto - 1);
        let all = positions_of(symbols, symbol, upto);
        assert forall|q: int| 0 <= q < upto && symbols[q] == symbol implies exists|k: int|
            0 <= k < all.len() && #[trigger] all[k] == q by {
            if q == upto - 1 {
                assert(all[before.len() as int] == q);
            } else {
                let k = choose|k: int| 0 <= k < before.len() && #[trigger] before[k] == q;
                assert(all[k] == q);
            }
        }
    }
}

/// A run of symbols in layers of bits, with the index that reads it.
pub struct WaveletTree {
    bits: BitIndex,
    num_layers: u8,
    symbols: Ghost<Seq<u64>>,
}

impl View for WaveletTree {
    type V = Seq<u64>;

    /// The symbols that the tree holds.
    closed spec fn view(&self) -> Seq<u64> {
        self.symbols@
    }
}

impl WaveletTree {
    #[verifier::type_invariant]
    spec fn well_formed(self) -> bool {
        &&& 1 <= self.num_layers <= 64
        &&& self.symbols@.len() <= MAX_ENTRIES
        &&& encodes(self.bits@, self.num_layers as nat, self.symbols@)
    }

    /// The bits of all layers, one layer after another.
    pub closed spec fn spec_bits(&self) -> Seq<bool> {
        self.bits@
    }

    /// The number of layers: the width of the symbols, in bits.
    pub closed spec fn spec_layers(&self) -> nat {
        self.num_layers as nat
    }

    /// The tree made of the bits of its layers and their number.  The bits
    /// must be the layers of some run of symbols.
    pub fn from_parts(bits: BitIndex, num_layers: u8) -> (tree: WaveletTree)
        requires
            1 <= num_layers <= 64,
            exists|symbols: Seq<u64>|
                symbols.len() <= MAX_ENTRIES && #[trigger] encodes(
                    bits@,
                    num_layers as nat,
                    symbols,
                ),
        ensures
            tree.spec_bits() == bits@,
            tree.spec_layers() == num_layers,
            encodes(bits@, num_layers as nat, tree@),
    {
        let ghost symbols = choose|symbols: Seq<u64>|
            symbols.len() <= MAX_ENTRIES && #[trigger] encodes(bits@, num_layers as nat, symbols);
        WaveletTree { bits, num_layers, symbols: Ghost(symbols) }
    }

    /// The number of symbols.
    pub fn len(&self) -> (len: u64)
        ensures
            len == self@.len(),
            len <= MAX_ENTRIES,
    {
        proof {
            use_type_invariant(self);
            let n = self.symbols@.len();
            let l = self.num_layers as nat;
            assert((l * n) / l == n) by (nonlinear_arith)
                requires
                    l >= 1,
            ;
        }
        self.bits.len() / (self.num_layers as u64)
    }

    /// The number of layers.
    pub fn num_layers(&self) -> (layers: u8)
        ensures
            layers == self.spec_layers(),
            1 <= layers <= 64,
    {
        proof {
            use_type_invariant(self);
        }
        self.num_layers
    }

    /// All symbols, in order.
    pub fn decode(&self) -> (symbols: Vec<u64>)
        ensures
            symbols@ == self@,
    {
        let len = self.len();
        let mut symbols: Vec<u64> = Vec::new();
        let mut i: u64 = 0;
        while i < len
            invariant
                i <= len,
                len == self@.len(),
                symbols@ == self@.take(i as int),
            decreases len - i,
        {
            symbols.push(self.decode_one(i));
            proof {
                assert(symbols@ =~= self@.take(i as int + 1));
            }
            i += 1;
        }
        proof {
            assert(self@.take(len as int) =~= self@);
        }
        symbols
    }

    /// Symbol `index`.  Layer by layer, the bit of the symbol says which
    /// half of its fragment the symbol goes on to, and the ranks over the
    /// fragment say where in the next layer that half lies and where in it
    /// the symbol stands.
    pub fn decode_one(&self, index: u64) -> (symbol: u64)
        requires
            index < self@.len(),
        ensures
            symbol == self@[index as int],
    {
        proof {
            use_type_invariant(self);
        }
        let len = self.len();
        let layers = self.num_layers;
        let ghost symbols = self.symbols@;
        let ghost bits = self.bits@;
        let ghost x = symbols[index as int] as nat;
        let ghost n = len as int;
        let mut offset = index;
        let mut value: u64 = 0;
        let mut range_start: u64 = 0;
        let mut range_end: u64 = len;
        proof {
            lemma_first_layer(symbols, layers as nat, n);
            lemma_first_layer(symbols, layers as nat, index as int);
        }
        let mut i: u8 = 0;
        while i < layers
            invariant
                i <= layers <= 64,
                layers == self.num_layers,
                symbols == self.symbols@,
                bits == self.bits@,
                encodes(bits, layers as nat, symbols),
                n == symbols.len(),
                len == n,
                n <= MAX_ENTRIES,
                index < n,
                x == symbols[index as int],
                value == top(x, (layers - i) as nat),
                range_start == cnt_below(symbols, (layers - i) as nat, value as nat, n),
                range_end == range_start + cnt(symbols, (layers - i) as nat, value as nat, n),
                offset == cnt(symbols, (layers - i) as nat, value as nat, index as int),
                range_end <= n,
            decreases layers - i,
        {
            let ghost d = (layers - i) as nat;
            let ghost f = value as nat;
            proof {
                lemma_layer_range(i as int, layers as nat, n as nat);
                lemma_cnt_bounds(symbols, d, f, index as int + 1, n);
                lemma_cnt_bounds(symbols, d, f, index as int, index as int + 1);
                lemma_fragment_ones(bits, layers as nat, symbols, i as int, f, index as int + 1);
                lemma_fragment_ones(bits, layers as nat, symbols, i as int, f, n);
                lemma_cnt_split(symbols, d, f, n);
                lemma_cnt_split(symbols, d, f, index as int + 1);
                lemma_cnt_split(symbols, d, f, index as int);
                lemma_top_bound(x, (d - 1) as nat);
                assert(top(x, d) == top(x, (d - 1) as nat) / 2);
                assert(bit_place(symbols, layers as nat, i as int, index as int) == i * n
                    + range_start + offset);
                assert(i * n <= 64 * MAX_ENTRIES) by (nonlinear_arith)
                    requires
                        0 <= i <= 64,
                        0 <= n <= MAX_ENTRIES,
                ;
            }
            let base = (i as u64) * len;
            let range_start_index = base + range_start;
            let range_end_index = base + range_end;
            let place = range_start_index + offset;
            let bit = self.bits.get(place);
            if bit {
                value = 2 * value + 1;
                offset = self.bits.rank1_range(range_start_index, place + 1) - 1;
                let zeros_in_range = self.bits.rank0_range(range_start_index, range_end_index);
                range_start = range_start + zeros_in_range;
            } else {
                value = 2 * value;
                offset = self.bits.rank0_range(range_start_index, place + 1) - 1;
                let ones_in_range = self.bits.rank1_range(range_start_index, range_end_index);
                range_end = range_end - ones_in_range;
            }
            i += 1;
        }
        value
    }

    /// How often `symbol` occurs among the first `upto` symbols.  The bits
    /// of `symbol` say which half of a fragment to go on to, and the ranks
    /// over the fragment say how many of the symbols counted so far go on
    /// with it.
    pub fn rank(&self, symbol: u64, upto: u64) -> (count: u64)
        requires
            upto <= self@.len(),
        ensures
            count == occurrences(self@, symbol as nat, upto as int),
    {
        proof {
            use_type_invariant(self);
        }
        let len = self.len();
        let layers = self.num_layers;
        let ghost symbols = self.symbols@;
        let ghost bits = self.bits@;
        let ghost n = len as int;
        proof {
            lemma_top_is_shift(symbol, layers as nat);
        }
        if layers < 64 && (symbol >> (layers as u64)) != 0 {
            proof {
                lemma_absent_symbol(symbols, layers as nat, symbol as nat, upto as int);
            }
            return 0;
        }
        let mut count = upto;
        let mut range_start: u64 = 0;
        let mut range_end: u64 = len;
        proof {
            lemma_first_layer(symbols, layers as nat, n);
            lemma_first_layer(symbols, layers as nat, upto as int);
        }
        let mut i: u8 = 0;
        while i < layers
            invariant
                i <= layers <= 64,
                layers == self.num_layers,
                symbols == self.symbols@,
                bits == self.bits@,
                encodes(bits, layers as nat, symbols),
                n == symbols.len(),
                len == n,
                n <= MAX_ENTRIES,
                upto <= n,
                range_start == cnt_below(
                    symbols,
                    (layers - i) as nat,
                    top(symbol as nat, (layers - i) as nat),
                    n,
                ),
                range_end == range_start + cnt(
                    symbols,
                    (layers - i) as nat,
                    top(symbol as nat, (layers - i) as nat),
                    n,
                ),
                count == cnt(
                    symbols,
                    (layers - i) as nat,
                    top(symbol as nat, (layers - i) as nat),
                    upto as int,
                ),
                range_end <= n,
            decreases layers - i,
        {
            let ghost d = (layers - i) as nat;
            let ghost f = top(symbol as nat, d);
            proof {
                lemma_layer_range(i as int, layers as nat, n as nat);
                lemma_cnt_bounds(symbols, d, f, upto as int, n);
                lemma_fragment_ones(bits, layers as nat, symbols, i as int, f, upto as int);
                lemma_fragment_ones(bits, layers as nat, symbols, i as int, f, n);
                lemma_cnt_split(symbols, d, f, n);
                lemma_cnt_split(symbols, d, f, upto as int);
                lemma_top_is_shift(symbol, (d - 1) as nat);
                assert(top(symbol as nat, d) == top(symbol as nat, (d - 1) as nat) / 2);
                assert(i * n <= 64 * MAX_ENTRIES) by (nonlinear_arith)
                    requires
                        0 <= i <= 64,
                        0 <= n <= MAX_ENTRIES,
                ;
            }
            let base = (i as u64) * len;
            let range_start_index = base + range_start;
            let range_end_index = base + range_end;
            let shift = (layers - i - 1) as u64;
            let upper = (symbol >> shift) % 2 == 1;
            let ones_counted = self.bits.rank1_range(range_start_index, range_start_index + count);
            if upper {
                count = ones_counted;
                let zeros_in_range = self.bits.rank0_range(range_start_index, range_end_index);
                range_start = range_start + zeros_in_range;
            } else {
                count = count - ones_counted;
                let ones_in_range = self.bits.rank1_range(range_start_index, range_end_index);
                range_end = range_end - ones_in_range;
            }
            i += 1;
        }
        count
    }

    /// The positions at which `query` stands, in rising order.
    pub fn lookup(&self, query: u64) -> (positions: Vec<u64>)
        ensures
            positions@ == positions_of(self@, query, self@.len() as int),
    {
        let len = self.len();
        let mut positions: Vec<u64> = Vec::new();
        let mut i: u64 = 0;
        while i < len
            invariant
                i <= len,
                len == self@.len(),
                positions@ == positions_of(self@, query, i as int),
            decreases len - i,
        {
            if self.decode_one(i) == query {
                positions.push(i);
            }
            i += 1;
        }
        positions
    }
}

// ---------------------------------------------------------------------------
// Building a tree
// ---------------------------------------------------------------------------

/// The bits that the first `upto` symbols leave in fragment `f` of the
/// layer that drops the lowest `drop` bits: for every symbol of the
/// fragment, in the order of the source, the next of its bits.
pub open spec fn fragment_bits(symbols: Seq<u64>, drop: nat, f: nat, upto: int) -> Seq<bool>
    recommends
        drop >= 1,
        upto <= symbols.len(),
    decreases upto,
{
    if upto <= 0 {
        Seq::empty()
    } else if top(symbols[upto - 1] as nat, drop) == f {
        fragment_bits(symbols, drop, f, upto - 1).push(
            top(symbols[upto - 1] as nat, (drop - 1) as nat) % 2 == 1,
        )
    } else {
        fragment_bits(symbols, drop, f, upto - 1)
    }
}

/// A fragment has one bit for each of its symbols, and the bit of a symbol
/// stands behind the bits of the symbols of the fragment that come before
/// it.
pub proof fn lemma_fragment_bits(symbols: Seq<u64>, drop: nat, f: nat, n: int, j: int)
    requires
        0 <= j < n <= symbols.len(),
        top(symbols[j] as nat, drop) == f,
    ensures
        fragment_bits(symbols, drop, f, n).len() == cnt(symbols, drop, f, n),
        cnt(symbols, drop, f, j) < cnt(symbols, drop, f, n),
        fragment_bits(symbols, drop, f, n)[cnt(symbols, drop, f, j) as int] == (top(
            symbols[j] as nat,
            (drop - 1) as nat,
        ) % 2 == 1),
    decreases n,
{
    lemma_fragment_bits_len(symbols, drop, f, n);
    lemma_fragment_bits_len(symbols, drop, f, n - 1);
    lemma_cnt_bounds(symbols, drop, f, j, n - 1);
    if j < n - 1 {
        lemma_fragment_bits(symbols, drop, f, n - 1, j);
    }
}

/// A fragment has one bit for each of its symbols.
pub proof fn lemma_fragment_bits_len(symbols: Seq<u64>, drop: nat, f: nat, n: int)
    ensures
        fragment_bits(symbols, drop, f, n).len() == cnt(symbols, drop, f, n),
    decreases n,
{
    if n > 0 {
        lemma_fragment_bits_len(symbols, drop, f, n - 1);
    }
}

/// Every symbol has its place within its layer.
pub proof fn lemma_place_bound(symbols: Seq<u64>, drop: nat, j: int)
    requires
        0 <= j < symbols.len(),
    ensures
        0 <= place(symbols, drop, j) < symbols.len(),
        place(symbols, drop, j) < cnt_below(
            symbols,
            drop,
            top(symbols[j] as nat, drop),
            symbols.len() as int,
        ) + cnt(symbols, drop, top(symbols[j] as nat, drop), symbols.len() as int),
{
    let f = top(symbols[j] as nat, drop);
    lemma_cnt_bounds(symbols, drop, f, j + 1, symbols.len() as int);
}

/// Pushes the bits of fragment `fragment` of layer `layer` of the tree of
/// `source` behind the bits in `write`: the source is replayed, and every
/// symbol of the fragment leaves the next of its bits.  The answer says how
/// many bits were pushed, and how many of them are set.
pub fn build_wavelet_fragment(
    source: &LogArray,
    write: &mut BitArrayBuilder,
    layer: u8,
    fragment: u64,
) -> (pushed: (u64, u64))
    requires
        old(write).wf(),
        layer < source.spec_width(),
        old(write)@.len() + source@.len() < u64::MAX,
    ensures
        final(write).wf(),
        final(write)@ == old(write)@ + fragment_bits(
            source@,
            (source.spec_width() - layer) as nat,
            fragment as nat,
            source@.len() as int,
        ),
        pushed.0 == cnt(
            source@,
            (source.spec_width() - layer) as nat,
            fragment as nat,
            source@.len() as int,
        ),
        pushed.1 == cnt(
            source@,
            (source.spec_width() - layer - 1) as nat,
            2 * fragment as nat + 1,
            source@.len() as int,
        ),
{
    let layers = source.width();
    let len = source.len();
    let drop = layers - layer;
    let ghost symbols = source@;
    let ghost d = drop as nat;
    let ghost before = write@;
    let mut all: u64 = 0;
    let mut ones: u64 = 0;
    let mut j: u64 = 0;
    while j < len
        invariant
            j <= len,
            len == symbols.len(),
            symbols == source@,
            1 <= drop <= 64,
            d == drop,
            write.wf(),
            before.len() + len < u64::MAX,
            write@ == before + fragment_bits(symbols, d, fragment as nat, j as int),
            all == cnt(symbols, d, fragment as nat, j as int),
            ones == cnt(symbols, (d - 1) as nat, 2 * fragment as nat + 1, j as int),
            ones <= all <= j,
        decreases len - j,
    {
        let symbol = source.entry(j);
        proof {
            lemma_top_is_shift(symbol, d);
            lemma_top_is_shift(symbol, (d - 1) as nat);
            lemma_fragment_bits_len(symbols, d, fragment as nat, j as int);
            assert(top(symbol as nat, d) == top(symbol as nat, (d - 1) as nat) / 2);
        }
        let prefix = if drop == 64 {
            0
        } else {
            symbol >> (drop as u64)
        };
        if prefix == fragment {
            let bit = (symbol >> ((drop - 1) as u64)) % 2 == 1;
            write.push(bit);
            all = all + 1;
            if bit {
                ones = ones + 1;
            }
            proof {
                assert(write@ =~= before + fragment_bits(
                    symbols,
                    d,
                    fragment as nat,
                    j as int + 1,
                ));
            }
        }
        j += 1;
    }
    (all, ones)
}

/// A fragment that holds symbols holds one of them, and a symbol is held
/// by its fragment.
pub proof fn lemma_fragment_member(symbols: Seq<u64>, drop: nat, f: nat, n: int)
    requires
        0 <= n <= symbols.len(),
    ensures
        cnt(symbols, drop, f, n) > 0 <==> exists|j: int|
            0 <= j < n && top(#[trigger] symbols[j] as nat, drop) == f,
    decreases n,
{
    if n > 0 {
        lemma_fragment_member(symbols, drop, f, n - 1);
        if top(symbols[n - 1] as nat, drop) == f {
            assert(0 <= n - 1 < n && top(symbols[n - 1] as nat, drop) == f);
        }
        if cnt(symbols, drop, f, n - 1) > 0 {
            let j = choose|j: int| 0 <= j < n - 1 && top(#[trigger] symbols[j] as nat, drop) == f;
            assert(0 <= j < n && top(symbols[j] as nat, drop) == f);
        }
    }
}

/// Bounds with no symbol between them have the same symbols below them.
pub proof fn lemma_cnt_below_gap(symbols: Seq<u64>, drop: nat, a: nat, b: nat, n: int)
    requires
        a <= b,
        0 <= n <= symbols.len(),
        forall|j: int| 0 <= j < n ==> !(a <= top(#[trigger] symbols[j] as nat, drop) < b),
    ensures
        cnt_below(symbols, drop, b, n) == cnt_below(symbols, drop, a, n),
    decreases n,
{
    if n > 0 {
        lemma_cnt_below_gap(symbols, drop, a, b, n - 1);
    }
}

/// `present` are the fragments of the layer that drops `drop` bits which
/// hold symbols, in rising order.
pub open spec fn fragments_present(symbols: Seq<u64>, drop: nat, present: Seq<u64>) -> bool {
    &&& forall|a: int, b: int| 0 <= a < b < present.len() ==> present[a] < present[b]
    &&& forall|k: int|
        0 <= k < present.len() ==> cnt(
            symbols,
            drop,
            (#[trigger] present[k]) as nat,
            symbols.len() as int,
        ) > 0
    &&& forall|j: int|
        0 <= j < symbols.len() ==> exists|k: int|
            0 <= k < present.len() && present[k] == top(#[trigger] symbols[j] as nat, drop)
}

/// Builds the wavelet tree of the symbols of `source`, with as many layers
/// as the symbols are wide: layer by layer and, within a layer, fragment by
/// fragment, leaving out the fragments that hold no symbol.
pub fn build_wavelet_tree(source: &LogArray) -> (tree: WaveletTree)
    requires
        source@.len() * 64 + 4096 <= usize::MAX,
    ensures
        tree@ == source@,
        tree.spec_layers() == source.spec_width(),
        1 <= tree.spec_layers() <= 64,
        encodes(tree.spec_bits(), tree.spec_layers(), tree@),
{
    let layers = source.width();
    let len = source.len();
    let ghost symbols = source@;
    let ghost n = len as int;
    let ghost lay = layers as nat;
    proof {
        assert forall|j: int| 0 <= j < symbols.len() implies top(
            #[trigger] symbols[j] as nat,
            lay,
        ) == 0 by {
            lemma_top_of_small(symbols[j] as nat, lay);
        }
    }
    let mut bits = BitArrayBuilder::new();
    let mut present: Vec<u64> = Vec::new();
    if len > 0 {
        present.push(0);
        proof {
            lemma_first_layer(symbols, lay, n);
            assert forall|j: int| 0 <= j < symbols.len() implies exists|k: int|
                0 <= k < present@.len() && present@[k] == top(
                    #[trigger] symbols[j] as nat,
                    lay,
                ) by {
                assert(present@[0] == top(symbols[j] as nat, lay));
            }
        }
    }
    let mut layer: u8 = 0;
    while layer < layers
        invariant
            layer <= layers <= 64,
            layers == source.spec_width(),
            lay == layers,
            symbols == source@,
            n == symbols.len(),
            len == n,
            n <= MAX_ENTRIES,
            bits.wf(),
            bits@.len() == layer * n,
            layer < layers ==> fragments_present(symbols, (lay - layer) as nat, present@),
            forall|l: int, j: int|
                0 <= l < layer && 0 <= j < n ==> bits@[#[trigger] bit_place(symbols, lay, l, j)]
                    == layer_bit(symbols, lay, l, j),
        decreases layers - layer,
    {
        let ghost d = (lay - layer) as nat;
        let ghost done = bits@;
        proof {
            lemma_layer_range(layer as int, lay, n as nat);
            lemma_cnt_zero_any(symbols, d, n);
            assert(layer * n <= 64 * MAX_ENTRIES) by (nonlinear_arith)
                requires
                    0 <= layer <= 64,
                    0 <= n <= MAX_ENTRIES,
            ;
        }
        let mut next: Vec<u64> = Vec::new();
        let mut k: usize = 0;
        proof {
            if present@.len() > 0 {
                // no symbol lies below the first fragment that holds one
                assert forall|j: int| 0 <= j < n implies !(0 <= top(
                    #[trigger] symbols[j] as nat,
                    d,
                ) < present@[0]) by {
                    let w = choose|w: int|
                        0 <= w < present@.len() && present@[w] == top(symbols[j] as nat, d);
                    if w > 0 {
                        assert(present@[0] < present@[w]);
                    }
                }
                lemma_cnt_below_gap(symbols, d, 0, present@[0] as nat, n);
            }
        }
        while k < present.len()
            invariant
                k <= present@.len(),
                layer < layers <= 64,
                layers == source.spec_width(),
                lay == layers,
                d == lay - layer,
                symbols == source@,
                n == symbols.len(),
                len == n,
                n <= MAX_ENTRIES,
                layer * n <= 64 * MAX_ENTRIES,
                (layer + 1) * n == layer * n + n,
                fragments_present(symbols, d, present@),
                bits.wf(),
                done.len() == layer * n,
                k < present@.len() ==> bits@.len() == layer * n + cnt_below(
                    symbols,
                    d,
                    present@[k as int] as nat,
                    n,
                ),
                k == present@.len() ==> bits@.len() == layer * n + n,
                forall|i: int| 0 <= i < done.len() ==> bits@[i] == done[i],
                forall|j: int|
                    0 <= j < n && (k == present@.len() || top(symbols[j] as nat, d)
                        < present@[k as int]) ==> bits@[#[trigger] bit_place(
                        symbols,
                        lay,
                        layer as int,
                        j,
                    )] == layer_bit(symbols, lay, layer as int, j),
                // the fragments of the next layer found so far
                forall|a: int, b: int| 0 <= a < b < next@.len() ==> next@[a] < next@[b],
                forall|i: int|
                    0 <= i < next@.len() ==> cnt(
                        symbols,
                        (d - 1) as nat,
                        (#[trigger] next@[i]) as nat,
                        n,
                    ) > 0,
                forall|i: int|
                    0 <= i < next@.len() && k < present@.len() ==> (#[trigger] next@[i]) < 2
                        * present@[k as int],
                layer + 1 < layers ==> forall|j: int|
                    0 <= j < n && (k == present@.len() || top(symbols[j] as nat, d)
                        < present@[k as int]) ==> exists|i: int|
                        0 <= i < next@.len() && next@[i] == top(
                            #[trigger] symbols[j] as nat,
                            (d - 1) as nat,
                        ),
            decreases present@.len() - k,
        {
            let ghost held = bits@;
            let ghost found = next@;
            let fragment = present[k];
            proof {
                lemma_cnt_bounds(symbols, d, fragment as nat, 0, n);
                lemma_cnt_below_all(symbols, d, fragment as nat, n);
                lemma_fragment_bits_len(symbols, d, fragment as nat, n);
                lemma_cnt_split(symbols, d, fragment as nat, n);
                lemma_fragment_member(symbols, d, fragment as nat, n);
            }
            let (all, ones) = build_wavelet_fragment(source, &mut bits, layer, fragment);
            if layer + 1 < layers {
                proof {
                    // the fragment holds a symbol, so its double is no more
                    // than that symbol without one bit less
                    let j = choose|j: int|
                        0 <= j < n && top(#[trigger] symbols[j] as nat, d) == fragment;
                    lemma_top_bound(symbols[j] as nat, (d - 1) as nat);
                    assert(top(symbols[j] as nat, d) == top(symbols[j] as nat, (d - 1) as nat)
                        / 2);
                }
                if all - ones > 0 {
                    next.push(2 * fragment);
                }
                if ones > 0 {
                    next.push(2 * fragment + 1);
                }
            }
            proof {
                let added = fragment_bits(symbols, d, fragment as nat, n);
                let bound: nat = if k + 1 < present@.len() {
                    present@[k as int + 1] as nat
                } else {
                    (fragment + 1) as nat
                };
                if k + 1 < present@.len() {
                    assert(present@[k as int] < present@[k as int + 1]);
                    assert forall|j: int| 0 <= j < n implies !(fragment + 1 <= top(
                        #[trigger] symbols[j] as nat,
                        d,
                    ) < bound) by {
                        let w = choose|w: int|
                            0 <= w < present@.len() && present@[w] == top(symbols[j] as nat, d);
                        if w <= k {
                            if w < k {
                                assert(present@[w] < present@[k as int]);
                            }
                        } else if w > k + 1 {
                            assert(present@[k as int + 1] < present@[w]);
                        }
                    }
                    lemma_cnt_below_gap(symbols, d, (fragment + 1) as nat, bound, n);
                } else {
                    assert forall|j: int| 0 <= j < n implies top(
                        #[trigger] symbols[j] as nat,
                        d,
                    ) < fragment + 1 by {
                        let w = choose|w: int|
                            0 <= w < present@.len() && present@[w] == top(symbols[j] as nat, d);
                        if w < k {
                            assert(present@[w] < present@[k as int]);
                        }
                    }
                    lemma_cnt_below_all(symbols, d, (fragment + 1) as nat, n);
                }
                assert forall|j: int|
                    0 <= j < n && (k + 1 == present@.len() || top(symbols[j] as nat, d)
                        < present@[k as int + 1]) implies bits@[#[trigger] bit_place(
                    symbols,
                    lay,
                    layer as int,
                    j,
                )] == layer_bit(symbols, lay, layer as int, j) by {
                    let at = bit_place(symbols, lay, layer as int, j);
                    let w = choose|w: int|
                        0 <= w < present@.len() && present@[w] == top(symbols[j] as nat, d);
                    if w > k + 1 {
                        assert(present@[k as int + 1] < present@[w]);
                    }
                    lemma_place_bound(symbols, d, j);
                    if top(symbols[j] as nat, d) < fragment {
                        lemma_cnt_below_le(
                            symbols,
                            d,
                            top(symbols[j] as nat, d),
                            fragment as nat,
                            n,
                        );
                        assert(at < held.len());
                        assert(bits@[at] == held[at]);
                    } else {
                        assert(top(symbols[j] as nat, d) == fragment);
                        lemma_fragment_bits(symbols, d, fragment as nat, n, j);
                        let within = cnt(symbols, d, fragment as nat, j) as int;
                        assert(at == held.len() + within);
                        assert(bits@[at] == added[within]);
                    }
                }
                if layer + 1 < layers {
                    assert forall|a: int, b: int| 0 <= a < b < next@.len() implies next@[a]
                        < next@[b] by {
                        if b < found.len() {
                            assert(found[a] < found[b]);
                        } else if a < found.len() {
                            assert(found[a] < 2 * fragment);
                        }
                    }
                    assert forall|j: int|
                        0 <= j < n && (k + 1 == present@.len() || top(symbols[j] as nat, d)
                            < present@[k as int + 1]) implies exists|i: int|
                        0 <= i < next@.len() && next@[i] == top(
                            #[trigger] symbols[j] as nat,
                            (d - 1) as nat,
                        ) by {
                        let w = choose|w: int|
                            0 <= w < present@.len() && present@[w] == top(symbols[j] as nat, d);
                        if w > k + 1 {
                            assert(present@[k as int + 1] < present@[w]);
                        }
                        let sub = top(symbols[j] as nat, (d - 1) as nat);
                        assert(top(symbols[j] as nat, d) == sub / 2);
                        if top(symbols[j] as nat, d) < fragment {
                            let i = choose|i: int| 0 <= i < found.len() && found[i] == sub;
                            assert(next@[i] == sub);
                        } else {
                            lemma_fragment_member(symbols, (d - 1) as nat, sub, n);
                            if sub == 2 * fragment {
                                assert(all - ones > 0);
                                assert(next@[found.len() as int] == sub);
                            } else {
                                assert(sub == 2 * fragment + 1);
                                assert(ones > 0);
                                assert(next@[next@.len() - 1] == sub);
                            }
                        }
                    }
                    if k + 1 < present@.len() {
                        assert forall|i: int| 0 <= i < next@.len() implies (#[trigger] next@[i])
                            < 2 * present@[k as int + 1] by {
                            if i < found.len() {
                                assert(found[i] < 2 * fragment);
                            }
                        }
                    }
                }
            }
            k += 1;
        }
        proof {
            assert forall|l: int, j: int| 0 <= l < layer + 1 && 0 <= j < n implies bits@[#[trigger] bit_place(
                symbols,
                lay,
                l,
                j,
            )] == layer_bit(symbols, lay, l, j) by {
                if l < layer {
                    lemma_place_bound(symbols, (lay - l) as nat, j);
                    lemma_layer_range(l, lay, n as nat);
                    assert((l + 1) * n <= layer * n) by (nonlinear_arith)
                        requires
                            l + 1 <= layer,
                            n >= 0,
                    ;
                    assert(bits@[bit_place(symbols, lay, l, j)] == done[bit_place(
                        symbols,
                        lay,
                        l,
                        j,
                    )]);
                }
            }
            if present@.len() == 0 {
                assert(n == 0) by {
                    if n > 0 {
                        let w = choose|w: int|
                            0 <= w < present@.len() && present@[w] == top(symbols[0] as nat, d);
                    }
                }
            }
        }
        present = next;
        layer += 1;
    }
    proof {
        assert(layers * n <= 64 * MAX_ENTRIES) by (nonlinear_arith)
            requires
                0 <= layers <= 64,
                0 <= n <= MAX_ENTRIES,
        ;
        assert((layers * n) / 64 <= n) by (nonlinear_arith)
            requires
                0 <= layers <= 64,
                0 <= n,
        ;
    }
    let array = bits.into_array();
    let index = BitIndex::build(array);
    WaveletTree { bits: index, num_layers: layers, symbols: Ghost(symbols) }
}

/// No symbol lies below fragment zero.
pub proof fn lemma_cnt_zero_any(symbols: Seq<u64>, drop: nat, n: int)
    ensures
        cnt_below(symbols, drop, 0, n) == 0,
    decreases n,
{
    if n > 0 {
        lemma_cnt_zero_any(symbols, drop, n - 1);
    }
}

/// The symbols up to a fragment, that fragment included, lie below any
/// fragment above it.
pub proof fn lemma_cnt_below_le(symbols: Seq<u64>, drop: nat, f: nat, g: nat, n: int)
    requires
        f < g,
    ensures
        cnt_below(symbols, drop, f, n) + cnt(symbols, drop, f, n) <= cnt_below(symbols, drop, g, n),
    decreases n,
{
    if n > 0 {
        lemma_cnt_below_le(symbols, drop, f, g, n - 1);
    }
}

// ---------------------------------------------------------------------------
// Telling whether bits are a tree
// ---------------------------------------------------------------------------

/// Every place of a layer below the symbols counted up to a bound lies in a
/// fragment below that bound.
pub proof fn lemma_place_in_fragment(symbols: Seq<u64>, drop: nat, p: int, bound: nat)
    requires
        0 <= p < cnt_below(symbols, drop, bound, symbols.len() as int),
    ensures
        exists|f: nat|
            f < bound && cnt_below(symbols, drop, f, symbols.len() as int) <= p < #[trigger] cnt_below(
                symbols,
                drop,
                f + 1,
                symbols.len() as int,
            ),
    decreases bound,
{
    let n = symbols.len() as int;
    if bound == 0 {
        lemma_cnt_zero_any(symbols, drop, n);
    } else if p < cnt_below(symbols, drop, (bound - 1) as nat, n) {
        lemma_place_in_fragment(symbols, drop, p, (bound - 1) as nat);
    } else {
        let f = (bound - 1) as nat;
        assert(f < bound && cnt_below(symbols, drop, f, n) <= p < cnt_below(
            symbols,
            drop,
            f + 1,
            n,
        ));
    }
}

/// Every place within a fragment is the place of one of its symbols.
pub proof fn lemma_place_has_member(symbols: Seq<u64>, drop: nat, f: nat, q: int, n: int)
    requires
        0 <= n <= symbols.len(),
        0 <= q < cnt(symbols, drop, f, n),
    ensures
        exists|j: int|
            0 <= j < n && top(symbols[j] as nat, drop) == f && #[trigger] cnt(
                symbols,
                drop,
                f,
                j,
            ) == q,
    decreases n,
{
    if top(symbols[n - 1] as nat, drop) == f && cnt(symbols, drop, f, n - 1) == q {
        assert(0 <= n - 1 < n && top(symbols[n - 1] as nat, drop) == f && cnt(
            symbols,
            drop,
            f,
            n - 1,
        ) == q);
    } else {
        lemma_place_has_member(symbols, drop, f, q, n - 1);
        let j = choose|j: int|
            0 <= j < n - 1 && top(symbols[j] as nat, drop) == f && #[trigger] cnt(
                symbols,
                drop,
                f,
                j,
            ) == q;
        assert(0 <= j < n && top(symbols[j] as nat, drop) == f && cnt(symbols, drop, f, j) == q);
    }
}

/// Every place of a layer is the place of a symbol.
pub proof fn lemma_place_onto(symbols: Seq<u64>, drop: nat, p: int)
    requires
        0 <= p < symbols.len(),
    ensures
        exists|j: int| 0 <= j < symbols.len() && #[trigger] place(symbols, drop, j) == p,
{
    let n = symbols.len() as int;
    let all: nat = 0x1_0000_0000_0000_0000;
    assert forall|j: int| 0 <= j < n implies top(#[trigger] symbols[j] as nat, drop) < all by {
        lemma_top_bound(symbols[j] as nat, drop);
    }
    lemma_cnt_below_all(symbols, drop, all, n);
    lemma_place_in_fragment(symbols, drop, p, all);
    let f = choose|f: nat|
        f < all && cnt_below(symbols, drop, f, n) <= p < #[trigger] cnt_below(
            symbols,
            drop,
            f + 1,
            n,
        );
    lemma_cnt_below_all(symbols, drop, f, n);
    let q = p - cnt_below(symbols, drop, f, n);
    lemma_place_has_member(symbols, drop, f, q, n);
    let j = choose|j: int|
        0 <= j < n && top(symbols[j] as nat, drop) == f && #[trigger] cnt(symbols, drop, f, j)
            == q;
    assert(place(symbols, drop, j) == p);
}

/// The symbols decide the bits: two trees of the same symbols have the same
/// bits.
pub proof fn lemma_bits_decided(a: Seq<bool>, b: Seq<bool>, layers: nat, symbols: Seq<u64>)
    requires
        encodes(a, layers, symbols),
        encodes(b, layers, symbols),
    ensures
        a == b,
{
    let n = symbols.len() as int;
    assert forall|at: int| 0 <= at < a.len() implies a[at] == b[at] by {
        assert(n > 0) by (nonlinear_arith)
            requires
                0 <= at < layers * n,
                n >= 0,
        ;
        let l = at / n;
        let p = at % n;
        assert(at == l * n + p && 0 <= p < n) by (nonlinear_arith)
            requires
                l == at / n,
                p == at % n,
                n > 0,
        ;
        assert(0 <= l < layers) by (nonlinear_arith)
            requires
                at == l * n + p,
                0 <= p < n,
                0 <= at < layers * n,
        ;
        lemma_place_onto(symbols, (layers - l) as nat, p);
        let j = choose|j: int|
            0 <= j < n && #[trigger] place(symbols, (layers - l) as nat, j) == p;
        assert(bit_place(symbols, layers, l, j) == at);
        assert(a[bit_place(symbols, layers, l, j)] == layer_bit(symbols, layers, l, j));
        assert(b[bit_place(symbols, layers, l, j)] == layer_bit(symbols, layers, l, j));
    }
    assert(a =~= b);
}

/// Whether `bits` are the tree of some symbols in `layers` layers.
pub open spec fn is_tree(bits: Seq<bool>, layers: nat) -> bool {
    exists|symbols: Seq<u64>|
        symbols.len() <= MAX_ENTRIES && #[trigger] encodes(bits, layers, symbols)
}

/// Reads symbol `index` from bits that may be no tree at all: every step is
/// checked, and a step that leads out of its fragment ends the walk.  Where
/// the bits are a tree, the walk ends with the symbol.
fn walk_checked(bits: &BitIndex, layers: u8, len: u64, index: u64) -> (symbol: Option<u64>)
    requires
        1 <= layers <= 64,
        len <= MAX_ENTRIES,
        bits@.len() == layers * len,
        index < len,
    ensures
        forall|symbols: Seq<u64>|
            symbols.len() <= MAX_ENTRIES && #[trigger] encodes(bits@, layers as nat, symbols)
                ==> symbol == Some(symbols[index as int]),
{
    let ghost valid = is_tree(bits@, layers as nat);
    let ghost symbols = choose|symbols: Seq<u64>|
        symbols.len() <= MAX_ENTRIES && #[trigger] encodes(bits@, layers as nat, symbols);
    let ghost n = len as int;
    let ghost x = symbols[index as int] as nat;
    proof {
        if valid {
            assert(symbols.len() == n) by (nonlinear_arith)
                requires
                    layers * symbols.len() == layers * n,
                    layers >= 1,
            ;
            lemma_first_layer(symbols, layers as nat, n);
            lemma_first_layer(symbols, layers as nat, index as int);
        }
        assert(layers * len <= 64 * MAX_ENTRIES) by (nonlinear_arith)
            requires
                0 <= layers <= 64,
                0 <= len <= MAX_ENTRIES,
        ;
    }
    let total = bits.len();
    let mut offset = index;
    let mut value: u64 = 0;
    let mut range_start: u64 = 0;
    let mut range_end: u64 = len;
    let mut i: u8 = 0;
    while i < layers
        invariant
            i <= layers <= 64,
            valid == is_tree(bits@, layers as nat),
            valid ==> symbols.len() <= MAX_ENTRIES && encodes(bits@, layers as nat, symbols),
            valid ==> n == symbols.len(),
            len == n,
            n <= MAX_ENTRIES,
            total == bits@.len(),
            total == layers * len,
            total <= 64 * MAX_ENTRIES,
            index < n,
            x == symbols[index as int],
            range_start <= range_end <= len,
            valid ==> value == top(x, (layers - i) as nat),
            valid ==> range_start == cnt_below(symbols, (layers - i) as nat, value as nat, n),
            valid ==> range_end == range_start + cnt(
                symbols,
                (layers - i) as nat,
                value as nat,
                n,
            ),
            valid ==> offset == cnt(symbols, (layers - i) as nat, value as nat, index as int),
        decreases layers - i,
    {
        let ghost d = (layers - i) as nat;
        let ghost f = value as nat;
        proof {
            lemma_layer_range(i as int, layers as nat, n as nat);
            assert(i * n <= 64 * MAX_ENTRIES) by (nonlinear_arith)
                requires
                    0 <= i <= 64,
                    0 <= n <= MAX_ENTRIES,
            ;
            if valid {
                lemma_cnt_bounds(symbols, d, f, index as int + 1, n);
                lemma_cnt_bounds(symbols, d, f, index as int, index as int + 1);
                lemma_fragment_ones(bits@, layers as nat, symbols, i as int, f, index as int + 1);
                lemma_fragment_ones(bits@, layers as nat, symbols, i as int, f, n);
                lemma_cnt_split(symbols, d, f, n);
                lemma_cnt_split(symbols, d, f, index as int + 1);
                lemma_cnt_split(symbols, d, f, index as int);
                lemma_top_bound(x, (d - 1) as nat);
                assert(top(x, d) == top(x, (d - 1) as nat) / 2);
                assert(bit_place(symbols, layers as nat, i as int, index as int) == i * n
                    + range_start + offset);
            }
        }
        let base = (i as u64) * len;
        let range_start_index = base + range_start;
        let range_end_index = base + range_end;
        proof {
            lemma_count_ones_monotone(bits@, range_start_index as int, range_end_index as int);
        }
        if offset >= range_end - range_start {
            return None;
        }
        let place = range_start_index + offset;
        let bit = bits.get(place);
        if bit {
            if value > (u64::MAX - 1) / 2 {
                return None;
            }
            value = 2 * value + 1;
            let ones = bits.rank1_range(range_start_index, place + 1);
            if ones == 0 {
                return None;
            }
            offset = ones - 1;
            let zeros_in_range = bits.rank0_range(range_start_index, range_end_index);
            range_start = range_start + zeros_in_range;
        } else {
            if value > u64::MAX / 2 {
                return None;
            }
            value = 2 * value;
            let zeros = bits.rank0_range(range_start_index, place + 1);
            if zeros == 0 {
                return None;
            }
            offset = zeros - 1;
            let ones_in_range = bits.rank1_range(range_start_index, range_end_index);
            range_end = range_end - ones_in_range;
        }
        i += 1;
    }
    proof {
        assert forall|other: Seq<u64>|
            other.len() <= MAX_ENTRIES && #[trigger] encodes(
                bits@,
                layers as nat,
                other,
            ) implies Some(value) == Some(other[index as int]) by {
            assert(valid);
            lemma_symbols_decided(bits@, layers as nat, symbols, other, index as int);
        }
    }
    Some(value)
}

/// The bits decide the symbols: two runs of symbols with the same tree are
/// the same, symbol for symbol.
pub proof fn lemma_symbols_decided(
    bits: Seq<bool>,
    layers: nat,
    a: Seq<u64>,
    b: Seq<u64>,
    index: int,
)
    requires
        layers >= 1,
        encodes(bits, layers, a),
        encodes(bits, layers, b),
        0 <= index < a.len(),
    ensures
        a.len() == b.len(),
        a[index] == b[index],
{
    assert(a.len() == b.len()) by (nonlinear_arith)
        requires
            layers * a.len() == layers * b.len(),
            layers >= 1,
    ;
    lemma_same_path(bits, layers, a, b, index, layers as int);
}

/// Two runs of symbols with the same tree go the same way through its
/// layers: after `l` layers, symbol `index` of either has the same leading
/// bits and stands at the same place.
pub proof fn lemma_same_path(
    bits: Seq<bool>,
    layers: nat,
    a: Seq<u64>,
    b: Seq<u64>,
    index: int,
    l: int,
)
    requires
        layers >= 1,
        encodes(bits, layers, a),
        encodes(bits, layers, b),
        a.len() == b.len(),
        0 <= index < a.len(),
        0 <= l <= layers,
    ensures
        top(a[index] as nat, (layers - l) as nat) == top(b[index] as nat, (layers - l) as nat),
        cnt_below(
            a,
            (layers - l) as nat,
            top(a[index] as nat, (layers - l) as nat),
            a.len() as int,
        ) == cnt_below(
            b,
            (layers - l) as nat,
            top(b[index] as nat, (layers - l) as nat),
            b.len() as int,
        ),
        cnt(a, (layers - l) as nat, top(a[index] as nat, (layers - l) as nat), a.len() as int)
            == cnt(
            b,
            (layers - l) as nat,
            top(b[index] as nat, (layers - l) as nat),
            b.len() as int,
        ),
        cnt(a, (layers - l) as nat, top(a[index] as nat, (layers - l) as nat), index) == cnt(
            b,
            (layers - l) as nat,
            top(b[index] as nat, (layers - l) as nat),
            index,
        ),
    decreases l,
{
    let n = a.len() as int;
    if l == 0 {
        lemma_first_layer(a, layers, n);
        lemma_first_layer(b, layers, n);
        lemma_first_layer(a, layers, index);
        lemma_first_layer(b, layers, index);
    } else {
        lemma_same_path(bits, layers, a, b, index, l - 1);
        let d = (layers - l + 1) as nat;
        let xa = a[index] as nat;
        let xb = b[index] as nat;
        let f = top(xa, d);
        assert(top(xb, d) == f);
        assert(top(xa, d) == top(xa, (d - 1) as nat) / 2);
        assert(top(xb, d) == top(xb, (d - 1) as nat) / 2);
        // both stand at the same place of layer l - 1, so both leave the
        // same bit there
        assert(bit_place(a, layers, l - 1, index) == bit_place(b, layers, l - 1, index));
        assert(bits[bit_place(a, layers, l - 1, index)] == layer_bit(a, layers, l - 1, index));
        assert(bits[bit_place(b, layers, l - 1, index)] == layer_bit(b, layers, l - 1, index));
        assert(top(xa, (d - 1) as nat) == top(xb, (d - 1) as nat));
        // the ranks over the fragment are the same, whoever counts
        lemma_fragment_ones(bits, layers, a, l - 1, f, index);
        lemma_fragment_ones(bits, layers, b, l - 1, f, index);
        lemma_fragment_ones(bits, layers, a, l - 1, f, n);
        lemma_fragment_ones(bits, layers, b, l - 1, f, n);
        lemma_cnt_split(a, d, f, n);
        lemma_cnt_split(b, d, f, n);
        lemma_cnt_split(a, d, f, index);
        lemma_cnt_split(b, d, f, index);
    }
}

/// Whether two indexed bit arrays hold the same bits.
pub fn same_bits(a: &BitIndex, b: &BitIndex) -> (same: bool)
    ensures
        same == (a@ == b@),
{
    let len = a.len();
    if len != b.len() {
        return false;
    }
    let mut i: u64 = 0;
    while i < len
        invariant
            i <= len,
            len == a@.len(),
            len == b@.len(),
            forall|k: int| 0 <= k < i ==> a@[k] == b@[k],
        decreases len - i,
    {
        if a.get(i) != b.get(i) {
            return false;
        }
        i += 1;
    }
    proof {
        assert(a@ =~= b@);
    }
    true
}

impl WaveletTree {
    /// The bits of all layers, with their rank index.
    pub fn bits(&self) -> (bits: &BitIndex)
        ensures
            bits@ == self.spec_bits(),
    {
        &self.bits
    }

    /// The tree made of the bits of its layers and their number, if the
    /// bits are the layers of some run of symbols.  To find out, every
    /// symbol is read with every step checked, and the tree of the symbols
    /// read is built and held against the bits.
    pub fn from_parts_checked(bits: BitIndex, num_layers: u8) -> (tree: Option<WaveletTree>)
        requires
            bits@.len() * 64 + 4096 <= usize::MAX,
        ensures
            tree is Some <==> 1 <= num_layers <= 64 && is_tree(bits@, num_layers as nat),
            tree is Some ==> tree->Some_0.spec_bits() == bits@ && tree->Some_0.spec_layers()
                == num_layers && encodes(bits@, num_layers as nat, tree->Some_0@),
    {
        if num_layers == 0 || num_layers > 64 {
            return None;
        }
        let ghost lay = num_layers as nat;
        let ghost valid = is_tree(bits@, lay);
        let ghost claimed = choose|symbols: Seq<u64>|
            symbols.len() <= MAX_ENTRIES && #[trigger] encodes(bits@, lay, symbols);
        let total = bits.len();
        proof {
            if valid {
                let m = claimed.len();
                assert((lay * m) % lay == 0 && (lay * m) / lay == m) by (nonlinear_arith)
                    requires
                        lay >= 1,
                ;
            }
        }
        if total % (num_layers as u64) != 0 {
            return None;
        }
        let len = total / (num_layers as u64);
        if len > MAX_ENTRIES {
            return None;
        }
        proof {
            assert(total == lay * len) by (nonlinear_arith)
                requires
                    total as nat % lay == 0,
                    len as nat == total as nat / lay,
                    lay >= 1,
            ;
            assert(len <= total) by (nonlinear_arith)
                requires
                    total == lay * len,
                    lay >= 1,
            ;
        }
        let mut builder = LogArrayBuilder::new(num_layers);
        let mut i: u64 = 0;
        while i < len
            invariant
                i <= len <= MAX_ENTRIES,
                1 <= num_layers <= 64,
                lay == num_layers,
                bits@.len() == lay * len,
                valid == is_tree(bits@, lay),
                valid ==> claimed.len() == len && encodes(bits@, lay, claimed),
                builder.wf(),
                builder.spec_width() == lay,
                builder@.len() == i,
                valid ==> builder@ == claimed.take(i as int),
            decreases len - i,
        {
            let symbol = match walk_checked(&bits, num_layers, len, i) {
                Some(symbol) => symbol,
                None => {
                    return None;
                },
            };
            proof {
                if valid {
                    assert(symbol == claimed[i as int]);
                    lemma_top_is_shift(symbol, lay);
                    assert(top(claimed[i as int] as nat, lay) == 0);
                }
            }
            match builder.push(symbol) {
                Ok(()) => {},
                Err(_) => {
                    return None;
                },
            }
            proof {
                if valid {
                    assert(builder@ =~= claimed.take(i as int + 1));
                }
            }
            i += 1;
        }
        let ghost read = builder@;
        proof {
            if valid {
                assert(claimed.take(len as int) =~= claimed);
            }
        }
        let source = builder.into_array();
        let rebuilt = build_wavelet_tree(&source);
        proof {
            if valid {
                lemma_bits_decided(rebuilt.spec_bits(), bits@, lay, claimed);
            }
        }
        if !same_bits(rebuilt.bits(), &bits) {
            return None;
        }
        Some(WaveletTree { bits, num_layers, symbols: Ghost(read) })
    }
}

} // verus!
